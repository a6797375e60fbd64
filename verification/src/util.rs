//! Small byte-buffer utilities shared by both protocol clients.

use vstd::prelude::*;

verus! {

use vstd::string::StringSliceAdditionalSpecFns;
use vstd::utf8::{decode_utf8, valid_utf8};

/// Append all of `src` to `dst`.
pub fn append_bytes(dst: &mut Vec<u8>, src: &[u8])
    ensures
        final(dst)@ == old(dst)@ + src@,
{
    proof {
        assert(old(dst)@ + src@.subrange(0, 0) =~= old(dst)@);
    }
    let mut q: usize = 0;
    while q < src.len()
        invariant
            q <= src@.len(),
            dst@ == old(dst)@ + src@.subrange(0, q as int),
        decreases src@.len() - q,
    {
        let b: u8 = src[q];
        dst.push(b);
        proof {
            assert((old(dst)@ + src@.subrange(0, q as int)).push(b) =~= old(dst)@ + src@.subrange(
                0,
                q + 1,
            ));
        }
        q = q + 1;
    }
    proof {
        assert(src@.subrange(0, src@.len() as int) =~= src@);
    }
}

/// Queue text on a byte sink. The transport-free analogue of writing a string
/// and flushing: the caller transmits the buffered bytes afterwards, so the
/// call itself cannot fail.
pub fn write_and_flush(w: &mut Vec<u8>, data: &str) -> (r: Result<(), crate::repl::ProtocolError>)
    ensures
        r is Ok,
        final(w)@ == old(w)@ + data.spec_bytes(),
{
    let bytes: &[u8] = data.as_bytes();
    append_bytes(w, bytes);
    Ok(())
}

/// Copy `s[a..b]` into a fresh buffer.
pub(crate) fn copy_range(s: &[u8], a: usize, b: usize) -> (r: Vec<u8>)
    requires
        a <= b <= s@.len(),
    ensures
        r@ == s@.subrange(a as int, b as int),
{
    let mut out: Vec<u8> = Vec::new();
    let mut q: usize = a;
    proof {
        assert(s@.subrange(a as int, a as int) =~= out@);
    }
    while q < b
        invariant
            a <= q <= b <= s@.len(),
            out@ == s@.subrange(a as int, q as int),
        decreases b - q,
    {
        let x: u8 = s[q];
        out.push(x);
        proof {
            assert(s@.subrange(a as int, q + 1) =~= s@.subrange(a as int, q as int).push(x));
        }
        q = q + 1;
    }
    out
}

/// Copy a whole buffer.
pub(crate) fn clone_bytes(v: &Vec<u8>) -> (r: Vec<u8>)
    ensures
        r@ == v@,
{
    let r: Vec<u8> = copy_range(v.as_slice(), 0, v.len());
    proof {
        assert(v@.subrange(0, v@.len() as int) =~= v@);
    }
    r
}

/// Remove the first `n` bytes of `v`.
pub(crate) fn drop_prefix(v: &mut Vec<u8>, n: usize)
    requires
        n <= old(v)@.len(),
    ensures
        final(v)@ == old(v)@.skip(n as int),
{
    let len: usize = v.len();
    let rest: Vec<u8> = copy_range(v.as_slice(), n, len);
    *v = rest;
    proof {
        assert(old(v)@.subrange(n as int, old(v)@.len() as int) =~= old(v)@.skip(n as int));
    }
}

/// Byte-wise equality of two buffers.
pub(crate) fn bytes_eq(a: &[u8], b: &[u8]) -> (r: bool)
    ensures
        r == (a@ == b@),
{
    if a.len() != b.len() {
        return false;
    }
    let mut q: usize = 0;
    while q < a.len()
        invariant
            q <= a@.len(),
            a@.len() == b@.len(),
            forall|k: int| 0 <= k < q ==> a@[k] == b@[k],
        decreases a@.len() - q,
    {
        if a[q] != b[q] {
            return false;
        }
        q = q + 1;
    }
    proof {
        assert(a@ =~= b@);
    }
    true
}

/// Relies on `String::from_utf8`: it returns `Ok` exactly when the bytes are
/// valid UTF-8, and the returned string then holds their decoding.
#[verifier::external_body]
pub(crate) fn string_from_utf8(v: Vec<u8>) -> (r: Option<String>)
    ensures
        r is Some <==> valid_utf8(v@),
        r matches Some(s) ==> s@ == decode_utf8(v@),
{
    match String::from_utf8(v) {
        Ok(s) => Some(s),
        Err(_) => None,
    }
}

} // verus!
