//! Client for the length-prefixed binary dictionary protocol.
//!
//! A request is the dictionary `{op -> eval, code -> <code>}`. A response
//! dictionary is read with a fixed field precedence: an `ns` string updates
//! the namespace without producing an event by itself; then the first of
//! `err`, `out`, `value` that is present as a string decides the event; then
//! a `status` list containing `done` marks the evaluation complete, any other
//! `status` list is ignorable; a dictionary with none of these fields is a
//! protocol violation.

use vstd::prelude::*;

verus! {

use vstd::string::{StringExecFns, StringSliceAdditionalSpecFns};
use vstd::utf8::{decode_utf8, valid_utf8};
use crate::bencode::{
    spec_parse_dict, spec_eval_request, parse_message, encode_eval_request, dict_view, atoms_view,
    is_digit, AtomSpec, ItemSpec, ParseStep, ParseFail, BAtom, BItem,
};
use crate::repl::{Repl, Response, ResponseSpec, RecvOutcome, ProtocolError, ViolationKind};
use crate::util::{append_bytes, bytes_eq, clone_bytes, copy_range, drop_prefix, string_from_utf8};

pub open spec fn ns_key() -> Seq<u8> {
    seq![110u8, 115u8]
}

pub open spec fn err_key() -> Seq<u8> {
    seq![101u8, 114u8, 114u8]
}

pub open spec fn out_key() -> Seq<u8> {
    seq![111u8, 117u8, 116u8]
}

pub open spec fn value_key() -> Seq<u8> {
    seq![118u8, 97u8, 108u8, 117u8, 101u8]
}

pub open spec fn status_key() -> Seq<u8> {
    seq![115u8, 116u8, 97u8, 116u8, 117u8, 115u8]
}

pub open spec fn done_bytes() -> Seq<u8> {
    seq![100u8, 111u8, 110u8, 101u8]
}

/// The value stored under `key`: the last entry wins, as with insertion into
/// a map while the message is read.
pub open spec fn lookup(e: Seq<(Seq<u8>, ItemSpec)>, key: Seq<u8>) -> Option<ItemSpec>
    decreases e.len(),
{
    if e.len() == 0 {
        None
    } else if e.last().0 == key {
        Some(e.last().1)
    } else {
        lookup(e.drop_last(), key)
    }
}

/// The string stored under `key`, if the key is present with a string value.
pub open spec fn str_field(e: Seq<(Seq<u8>, ItemSpec)>, key: Seq<u8>) -> Option<Seq<u8>> {
    match lookup(e, key) {
        Some(ItemSpec::Str(s)) => Some(s),
        _ => None,
    }
}

/// Whether a status list contains the string `done`.
pub open spec fn has_done(l: Seq<AtomSpec>) -> bool {
    exists|k: int| 0 <= k < l.len() && (#[trigger] l[k]) == AtomSpec::Str(done_bytes())
}

/// What one response dictionary means, before text decoding: the field
/// precedence the protocol prescribes.
pub enum DictMeaning {
    ErrField(Seq<u8>),
    OutField(Seq<u8>),
    ValueField(Seq<u8>),
    Done,
    Ignore,
    Unexpected,
}

pub open spec fn classify_dict(e: Seq<(Seq<u8>, ItemSpec)>) -> DictMeaning {
    if str_field(e, err_key()) is Some {
        DictMeaning::ErrField(str_field(e, err_key())->Some_0)
    } else if str_field(e, out_key()) is Some {
        DictMeaning::OutField(str_field(e, out_key())->Some_0)
    } else if str_field(e, value_key()) is Some {
        DictMeaning::ValueField(str_field(e, value_key())->Some_0)
    } else {
        match lookup(e, status_key()) {
            Some(ItemSpec::List(l)) => if has_done(l) {
                DictMeaning::Done
            } else {
                DictMeaning::Ignore
            },
            _ => DictMeaning::Unexpected,
        }
    }
}

/// Everything one received dictionary does to the client: the event or the
/// violation it produces, and the namespace it leaves behind.
pub enum StepSpec {
    Event(ResponseSpec, Seq<char>),
    Fail(ViolationKind, Seq<char>),
}

/// The meaning of one response dictionary for a client whose namespace is
/// `ns0`: the namespace is updated first, then the event is chosen; a
/// `value` result is reported as output with a newline appended, so the
/// caller prints it on a line of its own.
pub open spec fn spec_nrepl_step(e: Seq<(Seq<u8>, ItemSpec)>, ns0: Seq<char>) -> StepSpec {
    if str_field(e, ns_key()) matches Some(nsb) && !valid_utf8(nsb) {
        StepSpec::Fail(ViolationKind::InvalidText, ns0)
    } else {
        let ns1 = match str_field(e, ns_key()) {
            Some(nsb) => decode_utf8(nsb),
            None => ns0,
        };
        match classify_dict(e) {
            DictMeaning::ErrField(t) => if valid_utf8(t) {
                StepSpec::Event(ResponseSpec::StdErr(decode_utf8(t)), ns1)
            } else {
                StepSpec::Fail(ViolationKind::InvalidText, ns1)
            },
            DictMeaning::OutField(t) => if valid_utf8(t) {
                StepSpec::Event(ResponseSpec::StdOut(decode_utf8(t)), ns1)
            } else {
                StepSpec::Fail(ViolationKind::InvalidText, ns1)
            },
            DictMeaning::ValueField(t) => if valid_utf8(t) {
                StepSpec::Event(ResponseSpec::StdOut(decode_utf8(t) + seq!['\n']), ns1)
            } else {
                StepSpec::Fail(ViolationKind::InvalidText, ns1)
            },
            DictMeaning::Done => StepSpec::Event(ResponseSpec::Done(None), ns1),
            DictMeaning::Ignore => StepSpec::Event(ResponseSpec::Other(Seq::empty()), ns1),
            DictMeaning::Unexpected => StepSpec::Fail(ViolationKind::UnexpectedFields, ns1),
        }
    }
}

proof fn lemma_lookup_unmatched_suffix(e: Seq<(Seq<u8>, ItemSpec)>, key: Seq<u8>, m: int)
    requires
        0 <= m <= e.len(),
        forall|k: int| m <= k < e.len() ==> e[k].0 != key,
    ensures
        lookup(e, key) == lookup(e.take(m), key),
    decreases e.len(),
{
    if m == e.len() {
        assert(e.take(m) =~= e);
    } else {
        assert(e.last().0 != key);
        assert(e.drop_last() =~= e.take(e.len() - 1));
        lemma_lookup_unmatched_suffix(e.take(e.len() - 1), key, m);
        assert(e.take(e.len() - 1).take(m) =~= e.take(m));
    }
}

/// Find the entry `lookup` speaks of: the last whose key matches.
fn find_field(d: &Vec<(Vec<u8>, BItem)>, key: &[u8]) -> (r: Option<usize>)
    ensures
        match r {
            Some(ix) => ix < d@.len() && d@[ix as int].0@ == key@ && lookup(dict_view(d@), key@)
                == Some(d@[ix as int].1@),
            None => lookup(dict_view(d@), key@) is None,
        },
{
    let mut q: usize = d.len();
    while q > 0
        invariant
            q <= d@.len(),
            forall|k: int| q <= k < d@.len() ==> d@[k].0@ != key@,
        decreases q,
    {
        q = q - 1;
        if bytes_eq(d[q].0.as_slice(), key) {
            proof {
                lemma_lookup_unmatched_suffix(dict_view(d@), key@, q + 1);
                assert(dict_view(d@).take(q + 1).last() == dict_view(d@)[q as int]);
                assert(dict_view(d@)[q as int] == (d@[q as int].0@, d@[q as int].1@));
            }
            return Some(q);
        }
    }
    proof {
        lemma_lookup_unmatched_suffix(dict_view(d@), key@, 0);
        assert(dict_view(d@).take(0) =~= Seq::<(Seq<u8>, ItemSpec)>::empty());
    }
    None
}

/// Exec mirror of `DictMeaning`, carrying the raw payload bytes.
pub enum DictEvent {
    ErrField(Vec<u8>),
    OutField(Vec<u8>),
    ValueField(Vec<u8>),
    Done,
    Ignore,
    Unexpected,
}

impl View for DictEvent {
    type V = DictMeaning;

    open spec fn view(&self) -> DictMeaning {
        match self {
            DictEvent::ErrField(v) => DictMeaning::ErrField(v@),
            DictEvent::OutField(v) => DictMeaning::OutField(v@),
            DictEvent::ValueField(v) => DictMeaning::ValueField(v@),
            DictEvent::Done => DictMeaning::Done,
            DictEvent::Ignore => DictMeaning::Ignore,
            DictEvent::Unexpected => DictMeaning::Unexpected,
        }
    }
}

/// Apply the protocol's field precedence to one parsed dictionary.
pub fn classify_entries(d: &Vec<(Vec<u8>, BItem)>) -> (r: DictEvent)
    ensures
        r@ == classify_dict(dict_view(d@)),
{
    let errk: [u8; 3] = [101, 114, 114];
    if let Some(ix) = find_field(d, errk.as_slice()) {
        proof {
            assert(errk@ =~= err_key());
        }
        if let BItem::Str(v) = &d[ix].1 {
            return DictEvent::ErrField(clone_bytes(v));
        }
    } else {
        proof {
            assert(errk@ =~= err_key());
        }
    }
    let outk: [u8; 3] = [111, 117, 116];
    if let Some(ix) = find_field(d, outk.as_slice()) {
        proof {
            assert(outk@ =~= out_key());
        }
        if let BItem::Str(v) = &d[ix].1 {
            return DictEvent::OutField(clone_bytes(v));
        }
    } else {
        proof {
            assert(outk@ =~= out_key());
        }
    }
    let valk: [u8; 5] = [118, 97, 108, 117, 101];
    if let Some(ix) = find_field(d, valk.as_slice()) {
        proof {
            assert(valk@ =~= value_key());
        }
        if let BItem::Str(v) = &d[ix].1 {
            return DictEvent::ValueField(clone_bytes(v));
        }
    } else {
        proof {
            assert(valk@ =~= value_key());
        }
    }
    let statk: [u8; 6] = [115, 116, 97, 116, 117, 115];
    let six = find_field(d, statk.as_slice());
    proof {
        assert(statk@ =~= status_key());
    }
    if let Some(ix) = six {
        if let BItem::List(l) = &d[ix].1 {
            let donek: [u8; 4] = [100, 111, 110, 101];
            let mut q: usize = 0;
            while q < l.len()
                invariant
                    q <= l@.len(),
                    donek@ == done_bytes(),
                    d@[ix as int].1@ == ItemSpec::List(atoms_view(l@)),
                    lookup(dict_view(d@), status_key()) == Some(d@[ix as int].1@),
                    str_field(dict_view(d@), err_key()) is None,
                    str_field(dict_view(d@), out_key()) is None,
                    str_field(dict_view(d@), value_key()) is None,
                    forall|k: int| 0 <= k < q ==> (#[trigger] l@[k])@ != AtomSpec::Str(
                        done_bytes(),
                    ),
                decreases l@.len() - q,
            {
                if let BAtom::Str(v) = &l[q] {
                    if bytes_eq(v.as_slice(), donek.as_slice()) {
                        proof {
                            assert(atoms_view(l@)[q as int] == AtomSpec::Str(done_bytes()));
                            assert(has_done(atoms_view(l@)));
                            assert(classify_dict(dict_view(d@)) is Done);
                        }
                        return DictEvent::Done;
                    }
                }
                proof {
                    assert(l@[q as int]@ != AtomSpec::Str(done_bytes()));
                }
                q = q + 1;
            }
            proof {
                let lv = atoms_view(l@);
                assert(!has_done(lv)) by {
                    if has_done(lv) {
                        let k = choose|k: int|
                            0 <= k < lv.len() && lv[k] == AtomSpec::Str(done_bytes());
                        assert(l@[k]@ == AtomSpec::Str(done_bytes()));
                    }
                }
            }
            return DictEvent::Ignore;
        }
    }
    DictEvent::Unexpected
}

/// The bencode-protocol client. It buffers raw transport bytes in both
/// directions; socket handling belongs to the caller.
pub struct Nrepl {
    namespace: String,
    inbuf: Vec<u8>,
    outbuf: Vec<u8>,
}

impl Nrepl {
    /// A fresh client: namespace `user`, empty buffers.
    pub fn new() -> (r: Nrepl)
        ensures
            r.ns_spec() == "user"@,
            r.pending_in() == Seq::<u8>::empty(),
            r.pending_out() == Seq::<u8>::empty(),
    {
        Nrepl { namespace: String::from_str("user"), inbuf: Vec::new(), outbuf: Vec::new() }
    }
}

impl Repl for Nrepl {
    closed spec fn ns_spec(&self) -> Seq<char> {
        self.namespace@
    }

    closed spec fn pending_in(&self) -> Seq<u8> {
        self.inbuf@
    }

    closed spec fn pending_out(&self) -> Seq<u8> {
        self.outbuf@
    }

    fn send(&mut self, s: &str) -> (r: Result<(), ProtocolError>)
        ensures
            final(self).pending_out() == old(self).pending_out() + spec_eval_request(
                s.spec_bytes(),
            ),
    {
        let bytes: &[u8] = s.as_bytes();
        let enc: Vec<u8> = encode_eval_request(bytes);
        append_bytes(&mut self.outbuf, enc.as_slice());
        Ok(())
    }

    fn feed(&mut self, bytes: &[u8]) {
        append_bytes(&mut self.inbuf, bytes);
    }

    fn take_output(&mut self) -> (r: Vec<u8>) {
        let r: Vec<u8> = clone_bytes(&self.outbuf);
        self.outbuf = Vec::new();
        r
    }

    fn recv(&mut self) -> (r: Result<RecvOutcome, ProtocolError>)
        ensures
            match spec_parse_dict(old(self).pending_in()) {
                ParseStep::Need => r == Ok::<RecvOutcome, ProtocolError>(RecvOutcome::NeedInput),
                ParseStep::Bad => {
                    &&& r matches Err(pe) && pe.raw@ == old(self).pending_in() && pe.kind == (
                    if is_digit(old(self).pending_in()[0]) || old(self).pending_in()[0] == 105
                        || old(self).pending_in()[0] == 108 {
                        ViolationKind::NotADictionary
                    } else {
                        ViolationKind::MalformedMessage
                    })
                    &&& final(self).pending_in() == old(self).pending_in()
                    &&& final(self).ns_spec() == old(self).ns_spec()
                },
                ParseStep::Found(e, p) => {
                    &&& final(self).pending_in() == old(self).pending_in().skip(p)
                    &&& match spec_nrepl_step(e, old(self).ns_spec()) {
                        StepSpec::Event(ev, ns2) => (r matches Ok(RecvOutcome::Event(resp))
                            && resp@ == ev) && final(self).ns_spec() == ns2,
                        StepSpec::Fail(kind, ns2) => (r matches Err(pe) && pe.kind == kind
                            && pe.raw@ == old(self).pending_in().take(p)) && final(self).ns_spec()
                            == ns2,
                    }
                },
            },
    {
        let parsed = match parse_message(self.inbuf.as_slice()) {
            Err(ParseFail::Incomplete) => {
                return Ok(RecvOutcome::NeedInput);
            },
            Err(ParseFail::Malformed) => {
                let b: u8 = self.inbuf[0];
                let kind: ViolationKind = if (48 <= b && b <= 57) || b == 105 || b == 108 {
                    ViolationKind::NotADictionary
                } else {
                    ViolationKind::MalformedMessage
                };
                return Err(ProtocolError { kind, raw: clone_bytes(&self.inbuf) });
            },
            Ok(p) => p,
        };
        let entries = parsed.0;
        let used: usize = parsed.1;
        let raw: Vec<u8> = copy_range(self.inbuf.as_slice(), 0, used);
        drop_prefix(&mut self.inbuf, used);
        let nsk: [u8; 2] = [110, 115];
        let nsix = find_field(&entries, nsk.as_slice());
        proof {
            assert(nsk@ =~= ns_key());
        }
        if let Some(ix) = nsix {
            if let BItem::Str(v) = &entries[ix].1 {
                match string_from_utf8(clone_bytes(v)) {
                    Some(s) => {
                        self.namespace = s;
                    },
                    None => {
                        return Err(ProtocolError { kind: ViolationKind::InvalidText, raw });
                    },
                }
            }
        }
        match classify_entries(&entries) {
            DictEvent::ErrField(t) => match string_from_utf8(t) {
                Some(s) => Ok(RecvOutcome::Event(Response::StdErr(s))),
                None => Err(ProtocolError { kind: ViolationKind::InvalidText, raw }),
            },
            DictEvent::OutField(t) => match string_from_utf8(t) {
                Some(s) => Ok(RecvOutcome::Event(Response::StdOut(s))),
                None => Err(ProtocolError { kind: ViolationKind::InvalidText, raw }),
            },
            DictEvent::ValueField(t) => match string_from_utf8(t) {
                Some(s) => {
                    let mut line: String = s;
                    proof {
                        reveal_strlit("\n");
                    }
                    line.append("\n");
                    proof {
                        assert(line@ =~= decode_utf8(t@) + seq!['\n']);
                    }
                    Ok(RecvOutcome::Event(Response::StdOut(line)))
                },
                None => Err(ProtocolError { kind: ViolationKind::InvalidText, raw }),
            },
            DictEvent::Done => Ok(RecvOutcome::Event(Response::Done(None))),
            DictEvent::Ignore => {
                proof {
                    reveal_strlit("");
                    assert(""@ =~= Seq::<char>::empty());
                }
                Ok(RecvOutcome::Event(Response::Other(String::from_str(""))))
            },
            DictEvent::Unexpected => Err(
                ProtocolError { kind: ViolationKind::UnexpectedFields, raw },
            ),
        }
    }

    fn namespace(&self) -> (r: &str) {
        self.namespace.as_str()
    }

    fn name(&self) -> (r: &str)
        ensures
            r@ == "nREPL"@,
    {
        "nREPL"
    }

    fn quit(&mut self) -> (r: Result<(), ProtocolError>)
        ensures
            final(self).pending_out() == old(self).pending_out(),
    {
        Ok(())
    }
}

/// If a response carries `out` (and no `err`), it is reported as standard
/// output even when `value` is also present: `value` is only reached on a
/// later message once `out` is absent.
pub proof fn lemma_out_precedes_value(e: Seq<(Seq<u8>, ItemSpec)>)
    requires
        str_field(e, err_key()) is None,
        str_field(e, out_key()) is Some,
    ensures
        classify_dict(e) == DictMeaning::OutField(str_field(e, out_key())->Some_0),
{
}

/// A `status` list containing `done` (with no text fields present) is the
/// terminal event; any other `status` list is ignorable, so the read loop
/// continues.
pub proof fn lemma_status_terminal(e: Seq<(Seq<u8>, ItemSpec)>, l: Seq<AtomSpec>)
    requires
        str_field(e, err_key()) is None,
        str_field(e, out_key()) is None,
        str_field(e, value_key()) is None,
        lookup(e, status_key()) == Some(ItemSpec::List(l)),
    ensures
        has_done(l) ==> classify_dict(e) == DictMeaning::Done,
        !has_done(l) ==> classify_dict(e) == DictMeaning::Ignore,
{
}

/// The namespace is stable between messages: a response without an `ns`
/// string leaves it unchanged, whatever event it produces.
pub proof fn lemma_ns_stable(e: Seq<(Seq<u8>, ItemSpec)>, ns0: Seq<char>)
    requires
        str_field(e, ns_key()) is None,
    ensures
        spec_nrepl_step(e, ns0) matches StepSpec::Event(ev, ns2) ==> ns2 == ns0,
        spec_nrepl_step(e, ns0) matches StepSpec::Fail(k, ns2) ==> ns2 == ns0,
{
}

} // verus!
