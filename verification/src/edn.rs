//! Parser for the line-oriented structured-text format.
//!
//! One response is one line holding a map literal such as
//! `{:tag :ret, :val "2", :ns "user"}`. The client only ever reads string,
//! keyword and boolean values stored under keyword keys; every other value
//! (numbers, symbols, nested collections) is parsed past and kept opaque,
//! exactly as a caller that only looks fields up would treat it.

use vstd::prelude::*;

verus! {

use crate::repl::ViolationKind;
use crate::util::bytes_eq;

/// Spec-level shape of one map entry component.
pub enum EdnVal {
    Str(Seq<u8>),
    Kw(Seq<u8>),
    Bool(bool),
    Opaque,
}

/// Exec shape of one map entry component. `Str` holds the string contents
/// with escapes resolved; `Kw` holds the keyword name without its colon.
#[derive(Debug, PartialEq, Clone)]
pub enum EdnAtom {
    Str(Vec<u8>),
    Kw(Vec<u8>),
    Bool(bool),
    Opaque,
}

impl View for EdnAtom {
    type V = EdnVal;

    open spec fn view(&self) -> EdnVal {
        match self {
            EdnAtom::Str(v) => EdnVal::Str(v@),
            EdnAtom::Kw(v) => EdnVal::Kw(v@),
            EdnAtom::Bool(b) => EdnVal::Bool(*b),
            EdnAtom::Opaque => EdnVal::Opaque,
        }
    }
}

/// The view of a parsed map: its entries in wire order.
pub open spec fn map_view(m: Seq<(EdnAtom, EdnAtom)>) -> Seq<(EdnVal, EdnVal)> {
    m.map_values(|e: (EdnAtom, EdnAtom)| (e.0@, e.1@))
}

pub open spec fn val_key() -> Seq<u8> {
    seq![118u8, 97u8, 108u8]
}

pub open spec fn tag_key() -> Seq<u8> {
    seq![116u8, 97u8, 103u8]
}

pub open spec fn ns_key() -> Seq<u8> {
    seq![110u8, 115u8]
}

pub open spec fn exception_key() -> Seq<u8> {
    seq![101u8, 120u8, 99u8, 101u8, 112u8, 116u8, 105u8, 111u8, 110u8]
}

pub open spec fn cause_key() -> Seq<u8> {
    seq![99u8, 97u8, 117u8, 115u8, 101u8]
}

pub open spec fn err_tag() -> Seq<u8> {
    seq![101u8, 114u8, 114u8]
}

pub open spec fn out_tag() -> Seq<u8> {
    seq![111u8, 117u8, 116u8]
}

pub open spec fn ret_tag() -> Seq<u8> {
    seq![114u8, 101u8, 116u8]
}

pub open spec fn true_bytes() -> Seq<u8> {
    seq![116u8, 114u8, 117u8, 101u8]
}

pub open spec fn false_bytes() -> Seq<u8> {
    seq![102u8, 97u8, 108u8, 115u8, 101u8]
}

/// The value stored under the keyword `key`: the last entry wins, as with
/// insertion into a map while the line is read.
pub open spec fn lookup_kw(m: Seq<(EdnVal, EdnVal)>, key: Seq<u8>) -> Option<EdnVal>
    decreases m.len(),
{
    if m.len() == 0 {
        None
    } else if m.last().0 == EdnVal::Kw(key) {
        Some(m.last().1)
    } else {
        lookup_kw(m.drop_last(), key)
    }
}

/// A field read the way the client reads every field: strings and keywords
/// by their text, booleans by their printed form, anything else absent.
pub open spec fn spec_get_value(m: Seq<(EdnVal, EdnVal)>, key: Seq<u8>) -> Option<Seq<u8>> {
    match lookup_kw(m, key) {
        Some(EdnVal::Str(s)) => Some(s),
        Some(EdnVal::Kw(k)) => Some(k),
        Some(EdnVal::Bool(b)) => Some(
            if b {
                true_bytes()
            } else {
                false_bytes()
            },
        ),
        _ => None,
    }
}

/// Whether a map's `exception` field is present and truthy: the boolean
/// `false` does not trigger the exception path, and a value the client
/// cannot read as text (absent, `nil`, a number, a collection) does not
/// either; any other readable value does.
pub open spec fn exception_truthy(m: Seq<(EdnVal, EdnVal)>) -> bool {
    match lookup_kw(m, exception_key()) {
        Some(EdnVal::Bool(b)) => b,
        Some(EdnVal::Str(t)) => true,
        Some(EdnVal::Kw(k)) => true,
        _ => false,
    }
}

/// What one response line means, before text decoding and before any
/// exception payload is re-parsed: `val` is required, then `tag` is
/// required, then the tag decides.
pub enum PreplMeaning {
    ErrLine(Seq<u8>),
    OutLine(Seq<u8>),
    Ret(Seq<u8>),
    RetException(Seq<u8>),
    MissingVal,
    MissingTag,
    UnknownTag,
}

pub open spec fn classify_map(m: Seq<(EdnVal, EdnVal)>) -> PreplMeaning {
    match spec_get_value(m, val_key()) {
        None => PreplMeaning::MissingVal,
        Some(v) => match spec_get_value(m, tag_key()) {
            None => PreplMeaning::MissingTag,
            Some(t) => if t == err_tag() {
                PreplMeaning::ErrLine(v)
            } else if t == out_tag() {
                PreplMeaning::OutLine(v)
            } else if t == ret_tag() {
                if exception_truthy(m) {
                    PreplMeaning::RetException(v)
                } else {
                    PreplMeaning::Ret(v)
                }
            } else {
                PreplMeaning::UnknownTag
            },
        },
    }
}

proof fn lemma_lookup_kw_unmatched_suffix(m: Seq<(EdnVal, EdnVal)>, key: Seq<u8>, w: int)
    requires
        0 <= w <= m.len(),
        forall|k: int| w <= k < m.len() ==> m[k].0 != EdnVal::Kw(key),
    ensures
        lookup_kw(m, key) == lookup_kw(m.take(w), key),
    decreases m.len(),
{
    if w == m.len() {
        assert(m.take(w) =~= m);
    } else {
        assert(m.last().0 != EdnVal::Kw(key));
        assert(m.drop_last() =~= m.take(m.len() - 1));
        lemma_lookup_kw_unmatched_suffix(m.take(m.len() - 1), key, w);
        assert(m.take(m.len() - 1).take(w) =~= m.take(w));
    }
}

/// Find the entry `lookup_kw` speaks of: the last whose key is the keyword.
fn find_kw(m: &Vec<(EdnAtom, EdnAtom)>, key: &[u8]) -> (r: Option<usize>)
    ensures
        match r {
            Some(ix) => ix < m@.len() && lookup_kw(map_view(m@), key@) == Some(
                m@[ix as int].1@,
            ),
            None => lookup_kw(map_view(m@), key@) is None,
        },
{
    let mut q: usize = m.len();
    while q > 0
        invariant
            q <= m@.len(),
            forall|k: int| q <= k < m@.len() ==> (#[trigger] map_view(m@)[k]).0 != EdnVal::Kw(
                key@,
            ),
        decreases q,
    {
        q = q - 1;
        let hit: bool = match &m[q].0 {
            EdnAtom::Kw(name) => bytes_eq(name.as_slice(), key),
            _ => false,
        };
        if hit {
            proof {
                lemma_lookup_kw_unmatched_suffix(map_view(m@), key@, q + 1);
                assert(map_view(m@).take(q + 1).last() == map_view(m@)[q as int]);
            }
            return Some(q);
        }
        proof {
            assert(map_view(m@)[q as int].0 == m@[q as int].0@);
        }
    }
    proof {
        lemma_lookup_kw_unmatched_suffix(map_view(m@), key@, 0);
        assert(map_view(m@).take(0) =~= Seq::<(EdnVal, EdnVal)>::empty());
    }
    None
}

/// Whether the `exception` field is present and truthy. Mirrors
/// `exception_truthy`.
fn exception_flag(m: &Vec<(EdnAtom, EdnAtom)>) -> (r: bool)
    ensures
        r == exception_truthy(map_view(m@)),
{
    let exck: [u8; 9] = [101, 120, 99, 101, 112, 116, 105, 111, 110];
    proof {
        assert(exck@ =~= exception_key());
    }
    match find_kw(m, exck.as_slice()) {
        None => false,
        Some(ix) => match &m[ix].1 {
            EdnAtom::Bool(b) => *b,
            EdnAtom::Str(t) => true,
            EdnAtom::Kw(k) => true,
            EdnAtom::Opaque => false,
        },
    }
}

/// Read one field of a parsed line map. Mirrors `spec_get_value`.
pub fn get_value(m: &Vec<(EdnAtom, EdnAtom)>, key: &[u8]) -> (r: Option<Vec<u8>>)
    ensures
        match r {
            Some(v) => spec_get_value(map_view(m@), key@) == Some(v@),
            None => spec_get_value(map_view(m@), key@) is None,
        },
{
    match find_kw(m, key) {
        None => None,
        Some(q) => {
            return match &m[q].1 {
                EdnAtom::Str(v) => Some(crate::util::clone_bytes(v)),
                EdnAtom::Kw(v) => Some(crate::util::clone_bytes(v)),
                EdnAtom::Bool(b) => {
                    if *b {
                        let t: [u8; 4] = [116, 114, 117, 101];
                        proof {
                            assert(t@ =~= true_bytes());
                        }
                        Some(crate::util::copy_range(t.as_slice(), 0, 4))
                    } else {
                        let f: [u8; 5] = [102, 97, 108, 115, 101];
                        proof {
                            assert(f@ =~= false_bytes());
                        }
                        Some(crate::util::copy_range(f.as_slice(), 0, 5))
                    }
                },
                EdnAtom::Opaque => None,
            };
        },
    }
}

/// Exec mirror of `PreplMeaning`, carrying the raw payload bytes.
pub enum PreplEvent {
    ErrLine(Vec<u8>),
    OutLine(Vec<u8>),
    Ret(Vec<u8>),
    RetException(Vec<u8>),
    MissingVal,
    MissingTag,
    UnknownTag,
}

impl View for PreplEvent {
    type V = PreplMeaning;

    open spec fn view(&self) -> PreplMeaning {
        match self {
            PreplEvent::ErrLine(v) => PreplMeaning::ErrLine(v@),
            PreplEvent::OutLine(v) => PreplMeaning::OutLine(v@),
            PreplEvent::Ret(v) => PreplMeaning::Ret(v@),
            PreplEvent::RetException(v) => PreplMeaning::RetException(v@),
            PreplEvent::MissingVal => PreplMeaning::MissingVal,
            PreplEvent::MissingTag => PreplMeaning::MissingTag,
            PreplEvent::UnknownTag => PreplMeaning::UnknownTag,
        }
    }
}

/// Apply the protocol's tag rules to one parsed line map.
pub fn classify_map_entries(m: &Vec<(EdnAtom, EdnAtom)>) -> (r: PreplEvent)
    ensures
        r@ == classify_map(map_view(m@)),
{
    let valk: [u8; 3] = [118, 97, 108];
    let val = get_value(m, valk.as_slice());
    proof {
        assert(valk@ =~= val_key());
    }
    let val = match val {
        None => {
            return PreplEvent::MissingVal;
        },
        Some(v) => v,
    };
    let tagk: [u8; 3] = [116, 97, 103];
    let tag = get_value(m, tagk.as_slice());
    proof {
        assert(tagk@ =~= tag_key());
    }
    let tag = match tag {
        None => {
            return PreplEvent::MissingTag;
        },
        Some(t) => t,
    };
    let errt: [u8; 3] = [101, 114, 114];
    let outt: [u8; 3] = [111, 117, 116];
    let rett: [u8; 3] = [114, 101, 116];
    proof {
        assert(errt@ =~= err_tag());
        assert(outt@ =~= out_tag());
        assert(rett@ =~= ret_tag());
    }
    if bytes_eq(tag.as_slice(), errt.as_slice()) {
        PreplEvent::ErrLine(val)
    } else if bytes_eq(tag.as_slice(), outt.as_slice()) {
        PreplEvent::OutLine(val)
    } else if bytes_eq(tag.as_slice(), rett.as_slice()) {
        if exception_flag(m) {
            PreplEvent::RetException(val)
        } else {
            PreplEvent::Ret(val)
        }
    } else {
        PreplEvent::UnknownTag
    }
}

pub open spec fn is_ws(b: u8) -> bool {
    b == 32 || b == 9 || b == 13 || b == 44 || b == 10
}

pub open spec fn is_delim(b: u8) -> bool {
    b == 34 || b == 123 || b == 125 || b == 91 || b == 93 || b == 40 || b == 41
}

pub open spec fn is_token_byte(b: u8) -> bool {
    !is_ws(b) && !is_delim(b)
}

/// First position at or after `i` that does not hold whitespace (EDN counts
/// the comma as whitespace).
pub open spec fn ws_run_end(s: Seq<u8>, i: int) -> int
    decreases s.len() - i,
{
    if 0 <= i < s.len() && is_ws(s[i]) {
        ws_run_end(s, i + 1)
    } else {
        i
    }
}

/// First position at or after `i` that does not hold a token byte.
pub open spec fn token_run_end(s: Seq<u8>, i: int) -> int
    decreases s.len() - i,
{
    if 0 <= i < s.len() && is_token_byte(s[i]) {
        token_run_end(s, i + 1)
    } else {
        i
    }
}

/// Skip whitespace. Mirrors `ws_run_end`.
fn skip_ws(s: &[u8], i: usize) -> (r: usize)
    requires
        i <= s@.len(),
    ensures
        r == ws_run_end(s@, i as int),
        i <= r <= s@.len(),
{
    let len: usize = s.len();
    let mut p: usize = i;
    while p < len && (s[p] == 32 || s[p] == 9 || s[p] == 13 || s[p] == 44 || s[p] == 10)
        invariant
            i <= p <= len,
            len == s@.len(),
            ws_run_end(s@, i as int) == ws_run_end(s@, p as int),
        decreases len - p,
    {
        p = p + 1;
    }
    p
}

/// Find the end of a token run. Mirrors `token_run_end`.
fn skip_token(s: &[u8], i: usize) -> (r: usize)
    requires
        i <= s@.len(),
    ensures
        r == token_run_end(s@, i as int),
        i <= r <= s@.len(),
{
    let len: usize = s.len();
    let mut p: usize = i;
    while p < len && !(s[p] == 32 || s[p] == 9 || s[p] == 13 || s[p] == 44 || s[p] == 10) && !(
    s[p] == 34 || s[p] == 123 || s[p] == 125 || s[p] == 91 || s[p] == 93 || s[p] == 40 || s[p]
        == 41)
        invariant
            i <= p <= len,
            len == s@.len(),
            token_run_end(s@, i as int) == token_run_end(s@, p as int),
        decreases len - p,
    {
        p = p + 1;
    }
    p
}

/// The byte an escape sequence denotes.
pub open spec fn escape_of(e: u8) -> u8 {
    if e == 110 {
        10u8
    } else if e == 116 {
        9u8
    } else if e == 114 {
        13u8
    } else {
        e
    }
}

/// Contents and end of a string literal whose opening quote stands just
/// before `p`: the text up to the closing quote, with the protocol's
/// escapes resolved; `None` for an unknown escape or an unterminated
/// string.
pub open spec fn spec_string_body(s: Seq<u8>, p: int) -> Option<(Seq<u8>, int)>
    decreases s.len() - p,
{
    if p < 0 || p >= s.len() {
        None
    } else if s[p] == 34 {
        Some((Seq::empty(), p + 1))
    } else if s[p] == 92 {
        if p + 1 >= s.len() {
            None
        } else if s[p + 1] == 34 || s[p + 1] == 92 || s[p + 1] == 110 || s[p + 1] == 116 || s[p
            + 1] == 114 {
            match spec_string_body(s, p + 2) {
                Some(rest) => Some((seq![escape_of(s[p + 1])] + rest.0, rest.1)),
                None => None,
            }
        } else {
            None
        }
    } else {
        match spec_string_body(s, p + 1) {
            Some(rest) => Some((seq![s[p]] + rest.0, rest.1)),
            None => None,
        }
    }
}

/// Read a string literal at `i` (which must hold `"`). Mirrors
/// `spec_string_body` exactly.
fn parse_string(s: &[u8], i: usize) -> (r: Option<(Vec<u8>, usize)>)
    requires
        i < s@.len(),
    ensures
        match r {
            Some(p) => spec_string_body(s@, i + 1) == Some((p.0@, p.1 as int)) && i < p.1
                <= s@.len(),
            None => spec_string_body(s@, i + 1) is None,
        },
{
    let len: usize = s.len();
    let mut out: Vec<u8> = Vec::new();
    let mut p: usize = i + 1;
    proof {
        if let Some(rest) = spec_string_body(s@, i + 1) {
            assert(out@ + rest.0 =~= rest.0);
        }
    }
    loop
        invariant
            i < p <= len,
            len == s@.len(),
            match spec_string_body(s@, p as int) {
                Some(rest) => spec_string_body(s@, i + 1) == Some((out@ + rest.0, rest.1)),
                None => spec_string_body(s@, i + 1) is None,
            },
        decreases len - p,
    {
        if p >= len {
            return None;
        }
        let b: u8 = s[p];
        if b == 34 {
            proof {
                assert(out@ + Seq::<u8>::empty() =~= out@);
            }
            return Some((out, p + 1));
        }
        if b == 92 {
            if p + 1 >= len {
                return None;
            }
            let e: u8 = s[p + 1];
            let c: u8 = if e == 34 {
                34
            } else if e == 92 {
                92
            } else if e == 110 {
                10
            } else if e == 116 {
                9
            } else if e == 114 {
                13
            } else {
                return None;
            };
            proof {
                assert(c == escape_of(s@[p + 1]));
                if let Some(rest) = spec_string_body(s@, p + 2) {
                    assert(out@.push(c) + rest.0 =~= out@ + (seq![c] + rest.0));
                }
            }
            out.push(c);
            p = p + 2;
        } else {
            proof {
                if let Some(rest) = spec_string_body(s@, p + 1) {
                    assert(out@.push(b) + rest.0 =~= out@ + (seq![b] + rest.0));
                }
            }
            out.push(b);
            p = p + 1;
        }
    }
}

pub proof fn lemma_ws_run_end(s: Seq<u8>, i: int)
    requires
        0 <= i <= s.len(),
    ensures
        i <= ws_run_end(s, i) <= s.len(),
    decreases s.len() - i,
{
    if i < s.len() && is_ws(s[i]) {
        lemma_ws_run_end(s, i + 1);
    }
}

pub proof fn lemma_token_run_end(s: Seq<u8>, i: int)
    requires
        0 <= i <= s.len(),
    ensures
        i <= token_run_end(s, i) <= s.len(),
    decreases s.len() - i,
{
    if i < s.len() && is_token_byte(s[i]) {
        lemma_token_run_end(s, i + 1);
    }
}

pub proof fn lemma_string_body_bounds(s: Seq<u8>, p: int)
    ensures
        spec_string_body(s, p) matches Some(b) ==> p < b.1 <= s.len(),
    decreases s.len() - p,
{
    if 0 <= p < s.len() {
        if s[p] == 34 {
        } else if s[p] == 92 {
            if p + 1 < s.len() {
                lemma_string_body_bounds(s, p + 2);
            }
        } else {
            lemma_string_body_bounds(s, p + 1);
        }
    }
}

/// Outcome of skipping one opaque value: the position after it, a malformed
/// buffer, or the recursion bound ran out (a sufficient bound rules the
/// last case out).
pub enum SkipStep {
    At(int),
    Bad,
    Short,
}

/// A recursion bound sufficient to skip any value at `i`: each nesting
/// level consumes at least its opening byte, so the remaining length bounds
/// the depth.
pub open spec fn skip_fuel(s: Seq<u8>, i: int) -> nat {
    (s.len() - i + 1) as nat
}

/// Where one value of any shape at `i` ends, under a recursion bound.
pub open spec fn spec_skip_value(s: Seq<u8>, i: int, fuel: nat) -> SkipStep
    decreases fuel, 0int,
{
    if fuel == 0 {
        SkipStep::Short
    } else if i < 0 || i >= s.len() {
        SkipStep::Bad
    } else if s[i] == 34 {
        match spec_string_body(s, i + 1) {
            Some(b) => SkipStep::At(b.1),
            None => SkipStep::Bad,
        }
    } else if s[i] == 123 {
        spec_skip_seq(s, i + 1, 125, (fuel - 1) as nat)
    } else if s[i] == 91 {
        spec_skip_seq(s, i + 1, 93, (fuel - 1) as nat)
    } else if s[i] == 40 {
        spec_skip_seq(s, i + 1, 41, (fuel - 1) as nat)
    } else if s[i] == 125 || s[i] == 93 || s[i] == 41 {
        SkipStep::Bad
    } else if token_run_end(s, i) == i {
        SkipStep::Bad
    } else {
        SkipStep::At(token_run_end(s, i))
    }
}

/// Where a collection whose opener stood just before `j` ends: values are
/// skipped until the closing byte.
pub open spec fn spec_skip_seq(s: Seq<u8>, j: int, closer: u8, fuel: nat) -> SkipStep
    decreases fuel, 1int,
{
    if fuel == 0 {
        SkipStep::Short
    } else if j < 0 {
        SkipStep::Bad
    } else {
        let w = ws_run_end(s, j);
        if w >= s.len() {
            SkipStep::Bad
        } else if s[w] == closer {
            SkipStep::At(w + 1)
        } else {
            match spec_skip_value(s, w, fuel) {
                SkipStep::At(p) => spec_skip_seq(s, p, closer, (fuel - 1) as nat),
                o => o,
            }
        }
    }
}

/// Any bound beyond the remaining length is enough: the result is the same,
/// never `Short`, and a skipped value ends after it began.
pub proof fn lemma_skip_value_fuel(s: Seq<u8>, i: int, f1: nat, f2: nat)
    requires
        0 <= i <= s.len(),
        f1 > s.len() - i,
        f2 > s.len() - i,
    ensures
        spec_skip_value(s, i, f1) == spec_skip_value(s, i, f2),
        !(spec_skip_value(s, i, f1) is Short),
        spec_skip_value(s, i, f1) matches SkipStep::At(p) ==> i < p <= s.len(),
    decreases f1 + f2, 0int,
{
    if i < s.len() {
        let b = s[i];
        if b == 34 {
            lemma_string_body_bounds(s, i + 1);
        } else if b == 123 {
            lemma_skip_seq_fuel(s, i + 1, 125, (f1 - 1) as nat, (f2 - 1) as nat);
        } else if b == 91 {
            lemma_skip_seq_fuel(s, i + 1, 93, (f1 - 1) as nat, (f2 - 1) as nat);
        } else if b == 40 {
            lemma_skip_seq_fuel(s, i + 1, 41, (f1 - 1) as nat, (f2 - 1) as nat);
        } else {
            lemma_token_run_end(s, i);
        }
    }
}

pub proof fn lemma_skip_seq_fuel(s: Seq<u8>, j: int, closer: u8, f1: nat, f2: nat)
    requires
        0 <= j <= s.len(),
        f1 > s.len() - j,
        f2 > s.len() - j,
    ensures
        spec_skip_seq(s, j, closer, f1) == spec_skip_seq(s, j, closer, f2),
        !(spec_skip_seq(s, j, closer, f1) is Short),
        spec_skip_seq(s, j, closer, f1) matches SkipStep::At(p) ==> j < p <= s.len(),
    decreases f1 + f2, 1int,
{
    lemma_ws_run_end(s, j);
    let w = ws_run_end(s, j);
    if w < s.len() && s[w] != closer {
        lemma_skip_value_fuel(s, w, f1, f2);
        match spec_skip_value(s, w, f1) {
            SkipStep::At(p) => {
                lemma_skip_seq_fuel(s, p, closer, (f1 - 1) as nat, (f2 - 1) as nat);
            },
            _ => {},
        }
    }
}

/// Skip one value of any shape at `i`. Mirrors `spec_skip_value` under its
/// sufficient bound.
fn skip_value(s: &[u8], i: usize) -> (r: Option<usize>)
    requires
        i <= s@.len(),
    ensures
        match r {
            Some(p) => spec_skip_value(s@, i as int, skip_fuel(s@, i as int)) == SkipStep::At(
                p as int,
            ) && i < p <= s@.len(),
            None => spec_skip_value(s@, i as int, skip_fuel(s@, i as int)) == SkipStep::Bad,
        },
    decreases s@.len() - i, 0int,
{
    let len: usize = s.len();
    if i >= len {
        return None;
    }
    let b: u8 = s[i];
    if b == 34 {
        match parse_string(s, i) {
            Some(p) => Some(p.1),
            None => None,
        }
    } else if b == 123 {
        proof {
            assert((skip_fuel(s@, i as int) - 1) as nat == skip_fuel(s@, i + 1));
        }
        skip_seq(s, i + 1, 125)
    } else if b == 91 {
        proof {
            assert((skip_fuel(s@, i as int) - 1) as nat == skip_fuel(s@, i + 1));
        }
        skip_seq(s, i + 1, 93)
    } else if b == 40 {
        proof {
            assert((skip_fuel(s@, i as int) - 1) as nat == skip_fuel(s@, i + 1));
        }
        skip_seq(s, i + 1, 41)
    } else if b == 125 || b == 93 || b == 41 {
        None
    } else {
        let p: usize = skip_token(s, i);
        if p == i {
            None
        } else {
            Some(p)
        }
    }
}

/// Skip values until the closing byte of a collection whose opener stood
/// just before `j`. Mirrors `spec_skip_seq` under its sufficient bound.
fn skip_seq(s: &[u8], j: usize, closer: u8) -> (r: Option<usize>)
    requires
        j <= s@.len(),
    ensures
        match r {
            Some(p) => spec_skip_seq(s@, j as int, closer, skip_fuel(s@, j as int))
                == SkipStep::At(p as int) && j < p <= s@.len(),
            None => spec_skip_seq(s@, j as int, closer, skip_fuel(s@, j as int))
                == SkipStep::Bad,
        },
    decreases s@.len() - j, 1int,
{
    let len: usize = s.len();
    let mut p: usize = j;
    loop
        invariant
            j <= p <= len,
            len == s@.len(),
            spec_skip_seq(s@, j as int, closer, skip_fuel(s@, j as int)) == spec_skip_seq(
                s@,
                p as int,
                closer,
                skip_fuel(s@, p as int),
            ),
        decreases len - p,
    {
        let w: usize = skip_ws(s, p);
        if w >= len {
            return None;
        }
        if s[w] == closer {
            return Some(w + 1);
        }
        proof {
            lemma_skip_value_fuel(
                s@,
                w as int,
                skip_fuel(s@, p as int),
                skip_fuel(s@, w as int),
            );
        }
        let q: Option<usize> = skip_value(s, w);
        match q {
            None => {
                return None;
            },
            Some(next) => {
                proof {
                    lemma_skip_seq_fuel(
                        s@,
                        next as int,
                        closer,
                        (skip_fuel(s@, p as int) - 1) as nat,
                        skip_fuel(s@, next as int),
                    );
                }
                p = next;
            },
        }
    }
}

/// What one value at `i` means to the client: strings, keywords and the
/// boolean symbols by content, every other well-formed value as opaque.
pub open spec fn spec_parse_value(s: Seq<u8>, i: int) -> Option<(EdnVal, int)> {
    if i < 0 || i >= s.len() {
        None
    } else if s[i] == 34 {
        match spec_string_body(s, i + 1) {
            Some(b) => Some((EdnVal::Str(b.0), b.1)),
            None => None,
        }
    } else if s[i] == 58 {
        if token_run_end(s, i + 1) == i + 1 {
            None
        } else {
            Some(
                (
                    EdnVal::Kw(s.subrange(i + 1, token_run_end(s, i + 1))),
                    token_run_end(s, i + 1),
                ),
            )
        }
    } else if s[i] == 123 {
        match spec_skip_seq(s, i + 1, 125, skip_fuel(s, i + 1)) {
            SkipStep::At(p) => Some((EdnVal::Opaque, p)),
            _ => None,
        }
    } else if s[i] == 91 {
        match spec_skip_seq(s, i + 1, 93, skip_fuel(s, i + 1)) {
            SkipStep::At(p) => Some((EdnVal::Opaque, p)),
            _ => None,
        }
    } else if s[i] == 40 {
        match spec_skip_seq(s, i + 1, 41, skip_fuel(s, i + 1)) {
            SkipStep::At(p) => Some((EdnVal::Opaque, p)),
            _ => None,
        }
    } else if s[i] == 125 || s[i] == 93 || s[i] == 41 {
        None
    } else if token_run_end(s, i) == i {
        None
    } else if s.subrange(i, token_run_end(s, i)) == true_bytes() {
        Some((EdnVal::Bool(true), token_run_end(s, i)))
    } else if s.subrange(i, token_run_end(s, i)) == false_bytes() {
        Some((EdnVal::Bool(false), token_run_end(s, i)))
    } else {
        Some((EdnVal::Opaque, token_run_end(s, i)))
    }
}

pub proof fn lemma_parse_value_bounds(s: Seq<u8>, i: int)
    requires
        0 <= i,
    ensures
        spec_parse_value(s, i) matches Some(p) ==> i < p.1 <= s.len(),
{
    if i < s.len() {
        lemma_string_body_bounds(s, i + 1);
        lemma_token_run_end(s, i);
        lemma_token_run_end(s, i + 1);
        if s[i] == 123 {
            lemma_skip_seq_fuel(s, i + 1, 125, skip_fuel(s, i + 1), skip_fuel(s, i + 1));
        }
        if s[i] == 91 {
            lemma_skip_seq_fuel(s, i + 1, 93, skip_fuel(s, i + 1), skip_fuel(s, i + 1));
        }
        if s[i] == 40 {
            lemma_skip_seq_fuel(s, i + 1, 41, skip_fuel(s, i + 1), skip_fuel(s, i + 1));
        }
    }
}

/// Parse one value at `i`. Mirrors `spec_parse_value` exactly.
fn parse_value(s: &[u8], i: usize) -> (r: Option<(EdnAtom, usize)>)
    requires
        i < s@.len(),
    ensures
        match r {
            Some(p) => spec_parse_value(s@, i as int) == Some((p.0@, p.1 as int)) && i < p.1
                <= s@.len(),
            None => spec_parse_value(s@, i as int) is None,
        },
{
    let len: usize = s.len();
    let b: u8 = s[i];
    if b == 34 {
        match parse_string(s, i) {
            Some(p) => Some((EdnAtom::Str(p.0), p.1)),
            None => None,
        }
    } else if b == 58 {
        let p: usize = skip_token(s, i + 1);
        if p == i + 1 {
            None
        } else {
            Some((EdnAtom::Kw(crate::util::copy_range(s, i + 1, p)), p))
        }
    } else if b == 123 {
        match skip_seq(s, i + 1, 125) {
            Some(p) => Some((EdnAtom::Opaque, p)),
            None => None,
        }
    } else if b == 91 {
        match skip_seq(s, i + 1, 93) {
            Some(p) => Some((EdnAtom::Opaque, p)),
            None => None,
        }
    } else if b == 40 {
        match skip_seq(s, i + 1, 41) {
            Some(p) => Some((EdnAtom::Opaque, p)),
            None => None,
        }
    } else if b == 125 || b == 93 || b == 41 {
        None
    } else {
        let p: usize = skip_token(s, i);
        if p == i {
            None
        } else {
            let tok: Vec<u8> = crate::util::copy_range(s, i, p);
            let t: [u8; 4] = [116, 114, 117, 101];
            let f: [u8; 5] = [102, 97, 108, 115, 101];
            proof {
                assert(t@ =~= true_bytes());
                assert(f@ =~= false_bytes());
            }
            if bytes_eq(tok.as_slice(), t.as_slice()) {
                Some((EdnAtom::Bool(true), p))
            } else if bytes_eq(tok.as_slice(), f.as_slice()) {
                Some((EdnAtom::Bool(false), p))
            } else {
                Some((EdnAtom::Opaque, p))
            }
        }
    }
}

/// The entries of a map literal from `p` up to its closing brace: pairs of
/// values, each key immediately followed by its value.
pub open spec fn spec_map_body(s: Seq<u8>, p: int) -> Option<Seq<(EdnVal, EdnVal)>>
    decreases s.len() - p,
        when 0 <= p
        via spec_map_body_decreases
{
    let w = ws_run_end(s, p);
    if w >= s.len() {
        None
    } else if s[w] == 125 {
        Some(Seq::empty())
    } else {
        match spec_parse_value(s, w) {
            None => None,
            Some(k) => {
                let w2 = ws_run_end(s, k.1);
                if w2 >= s.len() {
                    None
                } else if s[w2] == 125 {
                    None
                } else {
                    match spec_parse_value(s, w2) {
                        None => None,
                        Some(v) => match spec_map_body(s, v.1) {
                            None => None,
                            Some(rest) => Some(seq![(k.0, v.0)] + rest),
                        },
                    }
                }
            },
        }
    }
}

#[via_fn]
proof fn spec_map_body_decreases(s: Seq<u8>, p: int) {
    if 0 <= p <= s.len() {
        lemma_ws_run_end(s, p);
        let w = ws_run_end(s, p);
        if w < s.len() && s[w] != 125 {
            lemma_parse_value_bounds(s, w);
            if let Some(k) = spec_parse_value(s, w) {
                lemma_ws_run_end(s, k.1);
                let w2 = ws_run_end(s, k.1);
                if w2 < s.len() && s[w2] != 125 {
                    lemma_parse_value_bounds(s, w2);
                }
            }
        }
    }
}

/// What one whole response line yields: the entries of its map literal, or
/// the violation it raises — a line holding some other well-formed value is
/// rejected as not a map, an unparseable one as malformed.
pub open spec fn spec_parse_line(s: Seq<u8>) -> Result<Seq<(EdnVal, EdnVal)>, ViolationKind> {
    let start = ws_run_end(s, 0);
    if start >= s.len() {
        Err(ViolationKind::MalformedMessage)
    } else if s[start] != 123 {
        if spec_parse_value(s, start) is Some {
            Err(ViolationKind::NotADictionary)
        } else {
            Err(ViolationKind::MalformedMessage)
        }
    } else {
        match spec_map_body(s, start + 1) {
            Some(m) => Ok(m),
            None => Err(ViolationKind::MalformedMessage),
        }
    }
}

/// Parse one whole line as a map literal. Mirrors `spec_parse_line`
/// exactly; anything after the closing brace is ignored, as a reader that
/// stops after one value would.
pub fn parse_line_map(s: &[u8]) -> (r: Result<Vec<(EdnAtom, EdnAtom)>, ViolationKind>)
    ensures
        match r {
            Ok(m) => spec_parse_line(s@) == Ok::<Seq<(EdnVal, EdnVal)>, ViolationKind>(
                map_view(m@),
            ),
            Err(k) => spec_parse_line(s@) == Err::<Seq<(EdnVal, EdnVal)>, ViolationKind>(k),
        },
{
    let len: usize = s.len();
    let start: usize = skip_ws(s, 0);
    if start >= len {
        return Err(ViolationKind::MalformedMessage);
    }
    if s[start] != 123 {
        return match parse_value(s, start) {
            Some(u) => Err(ViolationKind::NotADictionary),
            None => Err(ViolationKind::MalformedMessage),
        };
    }
    let mut entries: Vec<(EdnAtom, EdnAtom)> = Vec::new();
    let mut p: usize = start + 1;
    proof {
        if let Some(rest) = spec_map_body(s@, p as int) {
            assert(map_view(entries@) + rest =~= rest);
        }
    }
    loop
        invariant
            p <= len,
            len == s@.len(),
            start == ws_run_end(s@, 0),
            start < len,
            s@[start as int] == 123,
            match spec_map_body(s@, p as int) {
                Some(rest) => spec_map_body(s@, start + 1) == Some(map_view(entries@) + rest),
                None => spec_map_body(s@, start + 1) is None,
            },
        decreases len - p,
    {
        let w: usize = skip_ws(s, p);
        if w >= len {
            return Err(ViolationKind::MalformedMessage);
        }
        if s[w] == 125 {
            proof {
                assert(map_view(entries@) + Seq::<(EdnVal, EdnVal)>::empty() =~= map_view(
                    entries@,
                ));
            }
            return Ok(entries);
        }
        let key = match parse_value(s, w) {
            None => {
                return Err(ViolationKind::MalformedMessage);
            },
            Some(k) => k,
        };
        let w2: usize = skip_ws(s, key.1);
        if w2 >= len {
            return Err(ViolationKind::MalformedMessage);
        }
        if s[w2] == 125 {
            // a key without a value
            return Err(ViolationKind::MalformedMessage);
        }
        let val = match parse_value(s, w2) {
            None => {
                return Err(ViolationKind::MalformedMessage);
            },
            Some(v) => v,
        };
        let ghost kspec = key.0@;
        let ghost vspec = val.0@;
        proof {
            if let Some(rest2) = spec_map_body(s@, val.1 as int) {
                assert(map_view(entries@).push((kspec, vspec)) + rest2 =~= map_view(entries@)
                    + (seq![(kspec, vspec)] + rest2));
                assert(map_view(entries@.push((key.0, val.0))) =~= map_view(entries@).push(
                    (kspec, vspec),
                ));
            }
        }
        let kv = (key.0, val.0);
        entries.push(kv);
        p = val.1;
    }
}

/// A missing required field is always rejected, never defaulted: a line map
/// without `val` is a violation, and one with `val` but without `tag` is a
/// violation, whatever else the map holds.
pub proof fn lemma_missing_field_rejected(m: Seq<(EdnVal, EdnVal)>)
    ensures
        spec_get_value(m, val_key()) is None ==> classify_map(m) == PreplMeaning::MissingVal,
        spec_get_value(m, val_key()) is Some && spec_get_value(m, tag_key()) is None
            ==> classify_map(m) == PreplMeaning::MissingTag,
{
}

/// A `ret` line is terminal: without a truthy `exception` field it carries
/// the final result, with one it carries the exception payload to re-parse.
pub proof fn lemma_ret_terminal(m: Seq<(EdnVal, EdnVal)>, v: Seq<u8>)
    requires
        spec_get_value(m, val_key()) == Some(v),
        spec_get_value(m, tag_key()) == Some(ret_tag()),
    ensures
        !exception_truthy(m) ==> classify_map(m) == PreplMeaning::Ret(v),
        exception_truthy(m) ==> classify_map(m) == PreplMeaning::RetException(v),
{
    assert(ret_tag() != err_tag());
    assert(ret_tag() != out_tag());
}

} // verus!
