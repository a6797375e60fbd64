//! Client for the line-delimited structured-text protocol.
//!
//! A request is the code text written verbatim. A response line is a map
//! with required `val` and `tag` fields; `ns` updates the namespace; the tag
//! selects the event, and a `ret` with a truthy `exception` field carries a
//! nested map whose `cause` becomes the exception summary. The quit command is the
//! literal `:repl/quit` on a line of its own.

use vstd::prelude::*;

verus! {

use vstd::string::StringSliceAdditionalSpecFns;
use vstd::utf8::{decode_utf8, valid_utf8};
use crate::edn::{parse_line_map, spec_parse_line, classify_map_entries, get_value, map_view,
    spec_get_value, classify_map, ns_key, cause_key, EdnAtom, EdnVal, PreplMeaning, PreplEvent};
use crate::repl::{Repl, Response, ResponseSpec, RecvOutcome, ProtocolError, ViolationKind};
use crate::util::{append_bytes, clone_bytes, copy_range, drop_prefix, string_from_utf8,
    write_and_flush};

/// Position of the first line feed at or after `i`, or the end of the
/// buffer if there is none.
pub open spec fn line_end(s: Seq<u8>, i: int) -> int
    decreases s.len() - i,
{
    if 0 <= i < s.len() && s[i] != 10 {
        line_end(s, i + 1)
    } else {
        i
    }
}

/// Find the first line feed. Mirrors `line_end`.
fn find_line_end(s: &[u8], i: usize) -> (r: usize)
    requires
        i <= s@.len(),
    ensures
        r == line_end(s@, i as int),
        i <= r <= s@.len(),
        r < s@.len() ==> s@[r as int] == 10,
{
    let len: usize = s.len();
    let mut p: usize = i;
    while p < len && s[p] != 10
        invariant
            i <= p <= len,
            len == s@.len(),
            line_end(s@, i as int) == line_end(s@, p as int),
        decreases len - p,
    {
        p = p + 1;
    }
    p
}

/// The parting message: the quit command followed by a newline.
pub open spec fn quit_bytes() -> Seq<u8> {
    seq![58u8, 114u8, 101u8, 112u8, 108u8, 47u8, 113u8, 117u8, 105u8, 116u8, 10u8]
}

/// Everything one response line map does to the client, short of re-parsing
/// an exception payload: the event or violation it produces, the namespace
/// it leaves behind, or the exception payload still to be examined.
pub enum LineStep {
    Event(ResponseSpec, Seq<char>),
    Fail(ViolationKind, Seq<char>),
    NeedCause(Seq<u8>, Seq<char>),
}

/// The meaning of one response line map for a client whose namespace is
/// `ns0`: a missing required field is rejected before the namespace moves;
/// otherwise the namespace is updated, then the tag decides.
pub open spec fn spec_prepl_step(m: Seq<(EdnVal, EdnVal)>, ns0: Seq<char>) -> LineStep {
    match classify_map(m) {
        PreplMeaning::MissingVal => LineStep::Fail(ViolationKind::MissingVal, ns0),
        PreplMeaning::MissingTag => LineStep::Fail(ViolationKind::MissingTag, ns0),
        other => {
            if spec_get_value(m, ns_key()) matches Some(b) && !valid_utf8(b) {
                LineStep::Fail(ViolationKind::InvalidText, ns0)
            } else {
                let ns1 = match spec_get_value(m, ns_key()) {
                    Some(b) => decode_utf8(b),
                    None => ns0,
                };
                match other {
                    PreplMeaning::ErrLine(v) => if valid_utf8(v) {
                        LineStep::Event(ResponseSpec::StdErr(decode_utf8(v)), ns1)
                    } else {
                        LineStep::Fail(ViolationKind::InvalidText, ns1)
                    },
                    PreplMeaning::OutLine(v) => if valid_utf8(v) {
                        LineStep::Event(ResponseSpec::StdOut(decode_utf8(v)), ns1)
                    } else {
                        LineStep::Fail(ViolationKind::InvalidText, ns1)
                    },
                    PreplMeaning::Ret(v) => if valid_utf8(v) {
                        LineStep::Event(ResponseSpec::Done(Some(decode_utf8(v))), ns1)
                    } else {
                        LineStep::Fail(ViolationKind::InvalidText, ns1)
                    },
                    PreplMeaning::RetException(v) => LineStep::NeedCause(v, ns1),
                    PreplMeaning::UnknownTag => LineStep::Fail(ViolationKind::UnknownTag, ns1),
                    PreplMeaning::MissingVal => LineStep::Fail(ViolationKind::MissingVal, ns1),
                    PreplMeaning::MissingTag => LineStep::Fail(ViolationKind::MissingTag, ns1),
                }
            }
        },
    }
}

/// What an exception map yields: its `cause`, or the violation that it has
/// none.
pub open spec fn spec_cause_step(em: Seq<(EdnVal, EdnVal)>) -> Result<Seq<char>, ViolationKind> {
    match spec_get_value(em, cause_key()) {
        Some(c) => if valid_utf8(c) {
            Ok(decode_utf8(c))
        } else {
            Err(ViolationKind::InvalidText)
        },
        None => Err(ViolationKind::CauseMissing),
    }
}

/// Exec counterpart of `LineStep`'s non-failure outcomes.
#[derive(Debug)]
pub enum LineOutcome {
    Event(Response),
    NeedCause(Vec<u8>),
}

/// Extract the exception summary from a re-parsed exception map. Mirrors
/// `spec_cause_step`.
pub fn cause_event(em: &Vec<(EdnAtom, EdnAtom)>) -> (r: Result<Response, ViolationKind>)
    ensures
        match spec_cause_step(map_view(em@)) {
            Ok(text) => r matches Ok(resp) && resp@ == ResponseSpec::Exception(text),
            Err(k) => r == Err::<Response, ViolationKind>(k),
        },
{
    let causek: [u8; 5] = [99, 97, 117, 115, 101];
    proof {
        assert(causek@ =~= cause_key());
    }
    match get_value(em, causek.as_slice()) {
        Some(c) => match string_from_utf8(c) {
            Some(s) => Ok(Response::Exception(s)),
            None => Err(ViolationKind::InvalidText),
        },
        None => Err(ViolationKind::CauseMissing),
    }
}

/// The structured-text client. It buffers raw transport bytes in both
/// directions; socket handling belongs to the caller.
pub struct Prepl {
    namespace: String,
    inbuf: Vec<u8>,
    outbuf: Vec<u8>,
}

impl Prepl {
    /// A fresh client: namespace `user`, empty buffers.
    pub fn new() -> (r: Prepl)
        ensures
            r.ns_spec() == "user"@,
            r.pending_in() == Seq::<u8>::empty(),
            r.pending_out() == Seq::<u8>::empty(),
    {
        Prepl { namespace: String::from_str("user"), inbuf: Vec::new(), outbuf: Vec::new() }
    }

    /// Apply one parsed response line to the client. Mirrors
    /// `spec_prepl_step`; the buffers are untouched.
    pub fn apply_line_map(&mut self, m: &Vec<(EdnAtom, EdnAtom)>) -> (r: Result<
        LineOutcome,
        ViolationKind,
    >)
        ensures
            final(self).pending_in() == old(self).pending_in(),
            final(self).pending_out() == old(self).pending_out(),
            match spec_prepl_step(map_view(m@), old(self).ns_spec()) {
                LineStep::Event(ev, ns1) => (r matches Ok(LineOutcome::Event(resp)) && resp@
                    == ev) && final(self).ns_spec() == ns1,
                LineStep::Fail(k, ns1) => r == Err::<LineOutcome, ViolationKind>(k)
                    && final(self).ns_spec() == ns1,
                LineStep::NeedCause(v, ns1) => (r matches Ok(LineOutcome::NeedCause(b)) && b@
                    == v) && final(self).ns_spec() == ns1,
            },
    {
        let event = classify_map_entries(m);
        match &event {
            PreplEvent::MissingVal => {
                return Err(ViolationKind::MissingVal);
            },
            PreplEvent::MissingTag => {
                return Err(ViolationKind::MissingTag);
            },
            _ => {},
        }
        let nsk: [u8; 2] = [110, 115];
        proof {
            assert(nsk@ =~= ns_key());
        }
        match get_value(m, nsk.as_slice()) {
            Some(b) => match string_from_utf8(b) {
                Some(s) => {
                    self.namespace = s;
                },
                None => {
                    return Err(ViolationKind::InvalidText);
                },
            },
            None => {},
        }
        match event {
            PreplEvent::ErrLine(v) => match string_from_utf8(v) {
                Some(s) => Ok(LineOutcome::Event(Response::StdErr(s))),
                None => Err(ViolationKind::InvalidText),
            },
            PreplEvent::OutLine(v) => match string_from_utf8(v) {
                Some(s) => Ok(LineOutcome::Event(Response::StdOut(s))),
                None => Err(ViolationKind::InvalidText),
            },
            PreplEvent::Ret(v) => match string_from_utf8(v) {
                Some(s) => Ok(LineOutcome::Event(Response::Done(Some(s)))),
                None => Err(ViolationKind::InvalidText),
            },
            PreplEvent::RetException(v) => Ok(LineOutcome::NeedCause(v)),
            PreplEvent::UnknownTag => Err(ViolationKind::UnknownTag),
            PreplEvent::MissingVal => Err(ViolationKind::MissingVal),
            PreplEvent::MissingTag => Err(ViolationKind::MissingTag),
        }
    }
}

impl Repl for Prepl {
    closed spec fn ns_spec(&self) -> Seq<char> {
        self.namespace@
    }

    closed spec fn pending_in(&self) -> Seq<u8> {
        self.inbuf@
    }

    closed spec fn pending_out(&self) -> Seq<u8> {
        self.outbuf@
    }

    fn send(&mut self, s: &str) -> (r: Result<(), ProtocolError>)
        ensures
            final(self).pending_out() == old(self).pending_out() + s.spec_bytes(),
    {
        write_and_flush(&mut self.outbuf, s)
    }

    fn feed(&mut self, bytes: &[u8]) {
        append_bytes(&mut self.inbuf, bytes);
    }

    fn take_output(&mut self) -> (r: Vec<u8>) {
        let r: Vec<u8> = clone_bytes(&self.outbuf);
        self.outbuf = Vec::new();
        r
    }

    fn recv(&mut self) -> (r: Result<RecvOutcome, ProtocolError>)
        ensures
            line_end(old(self).pending_in(), 0) >= old(self).pending_in().len() ==> r == Ok::<
                RecvOutcome,
                ProtocolError,
            >(RecvOutcome::NeedInput),
            line_end(old(self).pending_in(), 0) < old(self).pending_in().len() ==> ({
                let line = old(self).pending_in().take(line_end(old(self).pending_in(), 0));
                &&& final(self).pending_in() == old(self).pending_in().skip(
                    line_end(old(self).pending_in(), 0) + 1,
                )
                &&& match spec_parse_line(line) {
                    Err(k) => (r matches Err(pe) && pe.kind == k && pe.raw@ == line)
                        && final(self).ns_spec() == old(self).ns_spec(),
                    Ok(m) => match spec_prepl_step(m, old(self).ns_spec()) {
                        LineStep::Event(ev, ns1) => (r matches Ok(RecvOutcome::Event(resp))
                            && resp@ == ev) && final(self).ns_spec() == ns1,
                        LineStep::Fail(k, ns1) => (r matches Err(pe) && pe.kind == k && pe.raw@
                            == line) && final(self).ns_spec() == ns1,
                        LineStep::NeedCause(v, ns1) => final(self).ns_spec() == ns1
                            && match spec_parse_line(v) {
                            Err(u) => r matches Err(pe) && pe.kind
                                == ViolationKind::ExceptionUnparsable && pe.raw@ == v,
                            Ok(em) => match spec_cause_step(em) {
                                Ok(text) => r matches Ok(RecvOutcome::Event(resp)) && resp@
                                    == ResponseSpec::Exception(text),
                                Err(k) => r matches Err(pe) && pe.kind == k && pe.raw@ == v,
                            },
                        },
                    },
                }
            }),
    {
        let nl: usize = find_line_end(self.inbuf.as_slice(), 0);
        if nl >= self.inbuf.len() {
            return Ok(RecvOutcome::NeedInput);
        }
        let line: Vec<u8> = copy_range(self.inbuf.as_slice(), 0, nl);
        proof {
            assert(line@ =~= old(self).pending_in().take(nl as int));
        }
        drop_prefix(&mut self.inbuf, nl + 1);
        let entries = match parse_line_map(line.as_slice()) {
            Err(kind) => {
                return Err(ProtocolError { kind, raw: line });
            },
            Ok(m) => m,
        };
        match self.apply_line_map(&entries) {
            Err(kind) => Err(ProtocolError { kind, raw: line }),
            Ok(LineOutcome::Event(resp)) => Ok(RecvOutcome::Event(resp)),
            Ok(LineOutcome::NeedCause(v)) => {
                let emap = match parse_line_map(v.as_slice()) {
                    Err(u) => {
                        return Err(
                            ProtocolError { kind: ViolationKind::ExceptionUnparsable, raw: v },
                        );
                    },
                    Ok(m) => m,
                };
                match cause_event(&emap) {
                    Ok(resp) => Ok(RecvOutcome::Event(resp)),
                    Err(kind) => Err(ProtocolError { kind, raw: v }),
                }
            },
        }
    }

    fn namespace(&self) -> (r: &str) {
        self.namespace.as_str()
    }

    fn name(&self) -> (r: &str)
        ensures
            r@ == "pREPL"@,
    {
        "pREPL"
    }

    fn quit(&mut self) -> (r: Result<(), ProtocolError>)
        ensures
            final(self).pending_out() == old(self).pending_out() + quit_bytes(),
    {
        let qb: [u8; 11] = [58, 114, 101, 112, 108, 47, 113, 117, 105, 116, 10];
        append_bytes(&mut self.outbuf, qb.as_slice());
        proof {
            assert(qb@ =~= quit_bytes());
        }
        Ok(())
    }
}

/// The namespace is stable between lines: a response map without a
/// readable `ns` field leaves it unchanged, whatever the line yields.
pub proof fn lemma_prepl_ns_stable(m: Seq<(EdnVal, EdnVal)>, ns0: Seq<char>)
    requires
        spec_get_value(m, ns_key()) is None,
    ensures
        spec_prepl_step(m, ns0) matches LineStep::Event(ev, ns1) ==> ns1 == ns0,
        spec_prepl_step(m, ns0) matches LineStep::Fail(k, ns1) ==> ns1 == ns0,
        spec_prepl_step(m, ns0) matches LineStep::NeedCause(v, ns1) ==> ns1 == ns0,
{
}

} // verus!
