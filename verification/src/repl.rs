//! The connection contract shared by both protocol clients, the event and
//! error types it speaks of, and the handshake probe classification.

use vstd::prelude::*;

verus! {

/// One event produced by draining a client after a `send`.
///
/// For every submitted evaluation the stream of events ends in exactly one
/// terminal event: `Done` (carrying the printable result for the
/// structured-text protocol, nothing for the bencode protocol) or
/// `Exception`.
#[derive(Clone, Debug, PartialEq)]
pub enum Response {
    /// The evaluation's event stream is complete; the payload, if present,
    /// is the printable result.
    Done(Option<String>),
    /// The evaluated code raised an error; the payload is the human-readable
    /// cause.
    Exception(String),
    /// Text the evaluated code printed to its output stream.
    StdOut(String),
    /// Text printed to the error stream, or a protocol-level error message.
    StdErr(String),
    /// A protocol-internal status message the caller should skip.
    Other(String),
}

/// Spec-level shape of a `Response`, with every payload as its character
/// sequence.
pub enum ResponseSpec {
    Done(Option<Seq<char>>),
    Exception(Seq<char>),
    StdOut(Seq<char>),
    StdErr(Seq<char>),
    Other(Seq<char>),
}

impl View for Response {
    type V = ResponseSpec;

    open spec fn view(&self) -> ResponseSpec {
        match self {
            Response::Done(o) => ResponseSpec::Done(
                match o {
                    Option::Some(s) => Option::Some(s@),
                    Option::None => Option::None,
                },
            ),
            Response::Exception(s) => ResponseSpec::Exception(s@),
            Response::StdOut(s) => ResponseSpec::StdOut(s@),
            Response::StdErr(s) => ResponseSpec::StdErr(s@),
            Response::Other(s) => ResponseSpec::Other(s@),
        }
    }
}

impl Response {
    /// Whether this event ends the read loop for one evaluation.
    pub fn is_terminal(&self) -> (r: bool)
        ensures
            r == (self is Done || self is Exception),
    {
        match self {
            Response::Done(_) => true,
            Response::Exception(_) => true,
            _ => false,
        }
    }
}

/// Why a message broke the protocol. Always fatal: the connection's buffered
/// state cannot be resumed after a malformed message.
#[derive(Clone, Copy, Debug, PartialEq, Eq, Structural)]
pub enum ViolationKind {
    /// The handshake reply began with a byte that names no known protocol.
    UnknownProbeByte,
    /// The bytes could not be parsed as one value of the wire format.
    MalformedMessage,
    /// The parsed value was not the dictionary / map the protocol requires.
    NotADictionary,
    /// A bencode response carried none of the fields the protocol defines.
    UnexpectedFields,
    /// A structured-text response carried no `val` field.
    MissingVal,
    /// A structured-text response carried no `tag` field.
    MissingTag,
    /// A structured-text response carried a `tag` outside the known set.
    UnknownTag,
    /// The `val` of an exception response was not itself a parseable map.
    ExceptionUnparsable,
    /// The exception map carried no `cause` field.
    CauseMissing,
    /// Bytes in a position that must hold text were not valid UTF-8.
    InvalidText,
}

/// A fatal protocol violation, carrying the offending raw payload for
/// diagnosis.
#[derive(Clone, Debug, PartialEq)]
pub struct ProtocolError {
    pub kind: ViolationKind,
    pub raw: Vec<u8>,
}

/// What a call to `recv` produced: either one response event, or the report
/// that the buffered input does not yet hold one complete message.
#[derive(Clone, Debug, PartialEq)]
pub enum RecvOutcome {
    Event(Response),
    NeedInput,
}

/// The two wire protocols a server may speak.
#[derive(Clone, Copy, Debug, PartialEq, Eq, Structural)]
pub enum ReplKind {
    /// Length-prefixed binary dictionaries (bencode).
    Nrepl,
    /// Line-delimited structured text.
    Prepl,
}

/// The connection contract: one logical interface over two incompatible wire
/// formats. Both clients are transport-free: `feed` hands them raw bytes read
/// from the connection, `take_output` drains the bytes they want written.
pub trait Repl: Sized {
    /// The current namespace, as reported by the server.
    spec fn ns_spec(&self) -> Seq<char>;

    /// Bytes received from the transport and not yet consumed.
    spec fn pending_in(&self) -> Seq<u8>;

    /// Bytes produced for the transport and not yet taken.
    spec fn pending_out(&self) -> Seq<u8>;

    /// Queue one evaluation request for the given code.
    fn send(&mut self, s: &str) -> (r: Result<(), ProtocolError>)
        ensures
            r is Ok,
            final(self).ns_spec() == old(self).ns_spec(),
            final(self).pending_in() == old(self).pending_in(),
    ;

    /// Hand the client bytes read from the transport.
    fn feed(&mut self, bytes: &[u8])
        ensures
            final(self).ns_spec() == old(self).ns_spec(),
            final(self).pending_in() == old(self).pending_in() + bytes@,
            final(self).pending_out() == old(self).pending_out(),
    ;

    /// Drain the bytes the client wants written to the transport.
    fn take_output(&mut self) -> (r: Vec<u8>)
        ensures
            r@ == old(self).pending_out(),
            final(self).pending_out() == Seq::<u8>::empty(),
            final(self).ns_spec() == old(self).ns_spec(),
            final(self).pending_in() == old(self).pending_in(),
    ;

    /// Interpret the next complete message in the buffered input, if any.
    fn recv(&mut self) -> (r: Result<RecvOutcome, ProtocolError>)
        ensures
            final(self).pending_out() == old(self).pending_out(),
            r matches Ok(RecvOutcome::NeedInput) ==> final(self).ns_spec() == old(
                self,
            ).ns_spec() && final(self).pending_in() == old(self).pending_in(),
    ;

    /// The namespace the server last reported; read only to render a prompt.
    fn namespace(&self) -> (r: &str)
        ensures
            r@ == self.ns_spec(),
    ;

    /// A fixed human-readable protocol label.
    fn name(&self) -> (r: &str);

    /// Queue the protocol's parting message, if it defines one.
    fn quit(&mut self) -> (r: Result<(), ProtocolError>)
        ensures
            r is Ok,
            final(self).ns_spec() == old(self).ns_spec(),
            final(self).pending_in() == old(self).pending_in(),
    ;
}

/// The code sent by the handshake probe: `(+ 1 1)`, valid input for either
/// server's language.
pub open spec fn spec_probe_code() -> Seq<u8> {
    seq![40u8, 43u8, 32u8, 49u8, 32u8, 49u8, 41u8]
}

/// The fixed handshake probe: a protocol-A-encoded evaluation request for
/// the probe code, followed by a newline.
pub open spec fn spec_probe_request() -> Seq<u8> {
    crate::bencode::spec_eval_request(spec_probe_code()) + seq![10u8]
}

/// Build the handshake probe bytes.
pub fn probe_request() -> (r: Vec<u8>)
    ensures
        r@ == spec_probe_request(),
{
    let code: [u8; 7] = [40, 43, 32, 49, 32, 49, 41];
    proof {
        assert(code@ =~= spec_probe_code());
    }
    let mut r: Vec<u8> = crate::bencode::encode_eval_request(code.as_slice());
    r.push(10);
    proof {
        assert(crate::bencode::spec_eval_request(spec_probe_code()).push(10u8)
            =~= spec_probe_request());
    }
    r
}

/// Classify the first byte of the handshake reply: structured-text responses
/// always begin with `{`, bencode responses always begin with `d`; any other
/// leading byte means detection has failed.
pub fn classify_probe_byte(b: u8) -> (r: Option<ReplKind>)
    ensures
        r == Some(ReplKind::Prepl) <==> b == 123,
        r == Some(ReplKind::Nrepl) <==> b == 100,
        r is None <==> b != 123 && b != 100,
{
    if b == 123 {
        Some(ReplKind::Prepl)
    } else if b == 100 {
        Some(ReplKind::Nrepl)
    } else {
        None
    }
}

} // verus!
