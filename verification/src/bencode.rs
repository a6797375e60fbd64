//! Wire codec for the length-prefixed binary dictionary format ("bencode").
//!
//! A request is a dictionary with string keys and string values, written as
//! `d` + entries + `e`, each string as `<decimal length>:<bytes>`. A response
//! is a dictionary whose values are strings, integers, or lists of strings
//! and integers; nothing deeper occurs in this protocol.
//!
//! The parsers are total over byte buffers: every exec parser returns exactly
//! what its spec-level mirror says, distinguishing a buffer that merely ends
//! too early (`Incomplete`) from one that can never become a well-formed
//! message (`Malformed`).

use vstd::prelude::*;

verus! {

/// Spec-level outcome of parsing at a position: a value together with the
/// position just past it, a buffer that ends before the value does, or a
/// malformed buffer.
pub enum ParseStep<T> {
    Found(T, int),
    Need,
    Bad,
}

/// Spec-level shape of one element of a bencode list. Integer values are
/// validated but not retained: the protocol never reads them.
pub enum AtomSpec {
    Int,
    Str(Seq<u8>),
}

/// Spec-level shape of one bencode dictionary value.
pub enum ItemSpec {
    Int,
    Str(Seq<u8>),
    List(Seq<AtomSpec>),
}

/// Exec shape of one element of a bencode list.
#[derive(Debug, PartialEq, Clone)]
pub enum BAtom {
    Int,
    Str(Vec<u8>),
}

/// Exec shape of one bencode dictionary value.
#[derive(Debug, PartialEq, Clone)]
pub enum BItem {
    Int,
    Str(Vec<u8>),
    List(Vec<BAtom>),
}

/// The view of a list of parsed atoms.
pub open spec fn atoms_view(l: Seq<BAtom>) -> Seq<AtomSpec> {
    l.map_values(|a: BAtom| a@)
}

impl View for BAtom {
    type V = AtomSpec;

    open spec fn view(&self) -> AtomSpec {
        match self {
            BAtom::Int => AtomSpec::Int,
            BAtom::Str(v) => AtomSpec::Str(v@),
        }
    }
}

impl View for BItem {
    type V = ItemSpec;

    open spec fn view(&self) -> ItemSpec {
        match self {
            BItem::Int => ItemSpec::Int,
            BItem::Str(v) => ItemSpec::Str(v@),
            BItem::List(l) => ItemSpec::List(atoms_view(l@)),
        }
    }
}

/// The view of a parsed dictionary: its entries in wire order.
pub open spec fn dict_view(d: Seq<(Vec<u8>, BItem)>) -> Seq<(Seq<u8>, ItemSpec)> {
    d.map_values(|e: (Vec<u8>, BItem)| (e.0@, e.1@))
}

/// How an exec parser reported failure.
#[derive(Clone, Copy, Debug, PartialEq, Eq, Structural)]
pub enum ParseFail {
    /// The buffer ends before the value does; more input may complete it.
    Incomplete,
    /// No extension of the buffer holds a well-formed value here.
    Malformed,
}

pub open spec fn is_digit(b: u8) -> bool {
    48 <= b <= 57
}

/// First position at or after `i` that does not hold a decimal digit.
pub open spec fn digit_run_end(s: Seq<u8>, i: int) -> int
    decreases s.len() - i,
{
    if 0 <= i < s.len() && is_digit(s[i]) {
        digit_run_end(s, i + 1)
    } else {
        i
    }
}

pub proof fn lemma_digit_run_end(s: Seq<u8>, i: int)
    requires
        0 <= i <= s.len(),
    ensures
        i <= digit_run_end(s, i) <= s.len(),
        forall|k: int| i <= k < digit_run_end(s, i) ==> is_digit(s[k]),
        digit_run_end(s, i) < s.len() ==> !is_digit(s[digit_run_end(s, i)]),
    decreases s.len() - i,
{
    if i < s.len() && is_digit(s[i]) {
        lemma_digit_run_end(s, i + 1);
    }
}

/// The number a run of decimal digit bytes denotes.
pub open spec fn digits_val(d: Seq<u8>) -> int
    decreases d.len(),
{
    if d.len() == 0 {
        0
    } else {
        digits_val(d.drop_last()) * 10 + (d.last() - 48)
    }
}

pub proof fn lemma_digits_val_nonneg(d: Seq<u8>)
    requires
        forall|k: int| 0 <= k < d.len() ==> is_digit(d[k]),
    ensures
        digits_val(d) >= 0,
    decreases d.len(),
{
    if d.len() > 0 {
        lemma_digits_val_nonneg(d.drop_last());
    }
}

/// A decimal length prefix: a run of digits ending before the buffer does.
pub open spec fn spec_parse_len(s: Seq<u8>, i: int) -> ParseStep<int>
    recommends
        0 <= i,
{
    if i >= s.len() {
        ParseStep::Need
    } else if !is_digit(s[i]) {
        ParseStep::Bad
    } else {
        let j = digit_run_end(s, i);
        if j >= s.len() {
            ParseStep::Need
        } else {
            ParseStep::Found(digits_val(s.subrange(i, j)), j)
        }
    }
}

/// A bencode string: `<decimal length>:<that many bytes>`.
pub open spec fn spec_parse_str(s: Seq<u8>, i: int) -> ParseStep<Seq<u8>>
    recommends
        0 <= i,
{
    match spec_parse_len(s, i) {
        ParseStep::Need => ParseStep::Need,
        ParseStep::Bad => ParseStep::Bad,
        ParseStep::Found(n, j) => {
            if s[j] != 58 {
                ParseStep::Bad
            } else if s.len() < j + 1 + n {
                ParseStep::Need
            } else {
                ParseStep::Found(s.subrange(j + 1, j + 1 + n), j + 1 + n)
            }
        },
    }
}

/// A bencode integer: `i`, an optional minus sign, digits, `e`. The value is
/// not retained.
pub open spec fn spec_parse_int(s: Seq<u8>, i: int) -> ParseStep<()>
    recommends
        0 <= i,
{
    if i >= s.len() {
        ParseStep::Need
    } else if s[i] != 105 {
        ParseStep::Bad
    } else {
        let k = if i + 1 < s.len() && s[i + 1] == 45 {
            i + 2
        } else {
            i + 1
        };
        if k >= s.len() {
            ParseStep::Need
        } else if !is_digit(s[k]) {
            ParseStep::Bad
        } else {
            let j = digit_run_end(s, k);
            if j >= s.len() {
                ParseStep::Need
            } else if s[j] != 101 {
                ParseStep::Bad
            } else {
                ParseStep::Found((), j + 1)
            }
        }
    }
}

/// One list element: a string or an integer.
pub open spec fn spec_parse_atom(s: Seq<u8>, i: int) -> ParseStep<AtomSpec>
    recommends
        0 <= i,
{
    if i >= s.len() {
        ParseStep::Need
    } else if is_digit(s[i]) {
        match spec_parse_str(s, i) {
            ParseStep::Need => ParseStep::Need,
            ParseStep::Bad => ParseStep::Bad,
            ParseStep::Found(t, j) => ParseStep::Found(AtomSpec::Str(t), j),
        }
    } else if s[i] == 105 {
        match spec_parse_int(s, i) {
            ParseStep::Need => ParseStep::Need,
            ParseStep::Bad => ParseStep::Bad,
            ParseStep::Found(u, j) => ParseStep::Found(AtomSpec::Int, j),
        }
    } else {
        ParseStep::Bad
    }
}

pub proof fn lemma_parse_len_advances(s: Seq<u8>, i: int)
    requires
        0 <= i,
    ensures
        spec_parse_len(s, i) matches ParseStep::Found(n, j) ==> i < j < s.len() && n >= 0,
{
    if i < s.len() && is_digit(s[i]) {
        lemma_digit_run_end(s, i);
        assert(digit_run_end(s, i) == digit_run_end(s, i + 1));
        lemma_digit_run_end(s, i + 1);
        if digit_run_end(s, i) < s.len() {
            lemma_digits_val_nonneg(s.subrange(i, digit_run_end(s, i)));
        }
    }
}

pub proof fn lemma_parse_str_advances(s: Seq<u8>, i: int)
    requires
        0 <= i,
    ensures
        spec_parse_str(s, i) matches ParseStep::Found(t, j) ==> i < j <= s.len(),
{
    lemma_parse_len_advances(s, i);
}

pub proof fn lemma_parse_int_advances(s: Seq<u8>, i: int)
    requires
        0 <= i,
    ensures
        spec_parse_int(s, i) matches ParseStep::Found(u, j) ==> i < j <= s.len(),
{
    if i < s.len() && s[i] == 105 {
        let k = if i + 1 < s.len() && s[i + 1] == 45 {
            i + 2
        } else {
            i + 1
        };
        if k < s.len() && is_digit(s[k]) {
            lemma_digit_run_end(s, k);
        }
    }
}

pub proof fn lemma_parse_atom_advances(s: Seq<u8>, i: int)
    requires
        0 <= i,
    ensures
        spec_parse_atom(s, i) matches ParseStep::Found(a, j) ==> i < j <= s.len(),
{
    lemma_parse_str_advances(s, i);
    lemma_parse_int_advances(s, i);
}

/// The elements of a list, after its `l`, up to and including its `e`.
pub open spec fn spec_parse_atoms(s: Seq<u8>, i: int) -> ParseStep<Seq<AtomSpec>>
    decreases s.len() - i,
        when 0 <= i
        via spec_parse_atoms_decreases
{
    if i >= s.len() {
        ParseStep::Need
    } else if s[i] == 101 {
        ParseStep::Found(Seq::empty(), i + 1)
    } else {
        match spec_parse_atom(s, i) {
            ParseStep::Need => ParseStep::Need,
            ParseStep::Bad => ParseStep::Bad,
            ParseStep::Found(a, j) => match spec_parse_atoms(s, j) {
                ParseStep::Need => ParseStep::Need,
                ParseStep::Bad => ParseStep::Bad,
                ParseStep::Found(rest, p) => ParseStep::Found(seq![a] + rest, p),
            },
        }
    }
}

#[via_fn]
proof fn spec_parse_atoms_decreases(s: Seq<u8>, i: int) {
    lemma_parse_atom_advances(s, i);
}

pub proof fn lemma_parse_atoms_advances(s: Seq<u8>, i: int)
    requires
        0 <= i,
    ensures
        spec_parse_atoms(s, i) matches ParseStep::Found(l, p) ==> i < p <= s.len(),
    decreases s.len() - i,
{
    if i < s.len() && s[i] != 101 {
        lemma_parse_atom_advances(s, i);
        if let ParseStep::Found(a, j) = spec_parse_atom(s, i) {
            lemma_parse_atoms_advances(s, j);
        }
    }
}

/// One dictionary value: a string, an integer, or a list of atoms.
pub open spec fn spec_parse_item(s: Seq<u8>, i: int) -> ParseStep<ItemSpec>
    recommends
        0 <= i,
{
    if i >= s.len() {
        ParseStep::Need
    } else if is_digit(s[i]) {
        match spec_parse_str(s, i) {
            ParseStep::Need => ParseStep::Need,
            ParseStep::Bad => ParseStep::Bad,
            ParseStep::Found(t, j) => ParseStep::Found(ItemSpec::Str(t), j),
        }
    } else if s[i] == 105 {
        match spec_parse_int(s, i) {
            ParseStep::Need => ParseStep::Need,
            ParseStep::Bad => ParseStep::Bad,
            ParseStep::Found(u, j) => ParseStep::Found(ItemSpec::Int, j),
        }
    } else if s[i] == 108 {
        match spec_parse_atoms(s, i + 1) {
            ParseStep::Need => ParseStep::Need,
            ParseStep::Bad => ParseStep::Bad,
            ParseStep::Found(l, p) => ParseStep::Found(ItemSpec::List(l), p),
        }
    } else {
        ParseStep::Bad
    }
}

pub proof fn lemma_parse_item_advances(s: Seq<u8>, i: int)
    requires
        0 <= i,
    ensures
        spec_parse_item(s, i) matches ParseStep::Found(v, p) ==> i < p <= s.len(),
{
    lemma_parse_str_advances(s, i);
    lemma_parse_int_advances(s, i);
    if 0 <= i < s.len() && s[i] == 108 {
        lemma_parse_atoms_advances(s, i + 1);
    }
}

/// The entries of a dictionary, after its `d`, up to and including its `e`.
pub open spec fn spec_parse_entries(s: Seq<u8>, i: int) -> ParseStep<Seq<(Seq<u8>, ItemSpec)>>
    decreases s.len() - i,
        when 0 <= i
        via spec_parse_entries_decreases
{
    if i >= s.len() {
        ParseStep::Need
    } else if s[i] == 101 {
        ParseStep::Found(Seq::empty(), i + 1)
    } else {
        match spec_parse_str(s, i) {
            ParseStep::Need => ParseStep::Need,
            ParseStep::Bad => ParseStep::Bad,
            ParseStep::Found(k, j) => match spec_parse_item(s, j) {
                ParseStep::Need => ParseStep::Need,
                ParseStep::Bad => ParseStep::Bad,
                ParseStep::Found(v, p) => match spec_parse_entries(s, p) {
                    ParseStep::Need => ParseStep::Need,
                    ParseStep::Bad => ParseStep::Bad,
                    ParseStep::Found(rest, q) => ParseStep::Found(seq![(k, v)] + rest, q),
                },
            },
        }
    }
}

#[via_fn]
proof fn spec_parse_entries_decreases(s: Seq<u8>, i: int) {
    lemma_parse_str_advances(s, i);
    if let ParseStep::Found(k, j) = spec_parse_str(s, i) {
        lemma_parse_item_advances(s, j);
    }
}

/// One whole response message: a dictionary `d` + entries + `e` at the start
/// of the buffer.
pub open spec fn spec_parse_dict(s: Seq<u8>) -> ParseStep<Seq<(Seq<u8>, ItemSpec)>> {
    if s.len() == 0 {
        ParseStep::Need
    } else if s[0] != 100 {
        ParseStep::Bad
    } else {
        spec_parse_entries(s, 1)
    }
}


/// Parse one length-prefixed string at `i`. Mirrors `spec_parse_str` exactly.
pub fn parse_str(s: &[u8], i: usize) -> (r: Result<(Vec<u8>, usize), ParseFail>)
    ensures
        match r {
            Ok(p) => spec_parse_str(s@, i as int) == ParseStep::Found(p.0@, p.1 as int),
            Err(ParseFail::Incomplete) => spec_parse_str(s@, i as int) is Need,
            Err(ParseFail::Malformed) => spec_parse_str(s@, i as int) is Bad,
        },
        r matches Ok(p) ==> i < p.1 <= s@.len(),
{
    let len: usize = s.len();
    if i >= len {
        return Err(ParseFail::Incomplete);
    }
    if !(48 <= s[i] && s[i] <= 57) {
        return Err(ParseFail::Malformed);
    }
    let mut j: usize = i;
    let mut n: usize = 0;
    let mut big: bool = false;
    while j < len && 48 <= s[j] && s[j] <= 57
        invariant
            i <= j <= len,
            len == s@.len(),
            i < len,
            is_digit(s@[i as int]),
            digit_run_end(s@, i as int) == digit_run_end(s@, j as int),
            forall|k: int| i <= k < j ==> is_digit(s@[k]),
            !big ==> n == digits_val(s@.subrange(i as int, j as int)),
            big ==> digits_val(s@.subrange(i as int, j as int)) > usize::MAX,
        decreases len - j,
    {
        let d: usize = (s[j] - 48) as usize;
        proof {
            assert(s@.subrange(i as int, j + 1).drop_last() =~= s@.subrange(i as int, j as int));
            assert(s@.subrange(i as int, j + 1).last() == s@[j as int]);
            lemma_digits_val_nonneg(s@.subrange(i as int, j as int));
        }
        if big {
        } else if n > (usize::MAX - d) / 10 {
            proof {
                vstd::arithmetic::div_mod::lemma_fundamental_div_mod(
                    (usize::MAX - d) as int,
                    10,
                );
            }
            big = true;
        } else {
            proof {
                vstd::arithmetic::div_mod::lemma_fundamental_div_mod(
                    (usize::MAX - d) as int,
                    10,
                );
            }
            n = n * 10 + d;
        }
        j = j + 1;
    }
    if j >= len {
        return Err(ParseFail::Incomplete);
    }
    if s[j] != 58 {
        return Err(ParseFail::Malformed);
    }
    let rem: usize = len - (j + 1);
    if big || n > rem {
        return Err(ParseFail::Incomplete);
    }
    let mut out: Vec<u8> = Vec::new();
    let end: usize = j + 1 + n;
    let mut q: usize = j + 1;
    while q < end
        invariant
            j + 1 <= q <= end,
            end == j + 1 + n,
            end <= len,
            len == s@.len(),
            out@ == s@.subrange(j + 1, q as int),
        decreases end - q,
    {
        let b: u8 = s[q];
        out.push(b);
        proof {
            assert(s@.subrange(j + 1, q + 1) =~= s@.subrange(j + 1, q as int).push(b));
        }
        q = q + 1;
    }
    proof {
        assert(out@ =~= s@.subrange(j + 1, j + 1 + n));
    }
    Ok((out, end))
}

/// Validate one integer at `i`. Mirrors `spec_parse_int` exactly; the value
/// is not retained because the protocol never reads it.
pub fn parse_int(s: &[u8], i: usize) -> (r: Result<usize, ParseFail>)
    ensures
        match r {
            Ok(p) => spec_parse_int(s@, i as int) == ParseStep::Found((), p as int) && i < p
                <= s@.len(),
            Err(ParseFail::Incomplete) => spec_parse_int(s@, i as int) is Need,
            Err(ParseFail::Malformed) => spec_parse_int(s@, i as int) is Bad,
        },
{
    let len: usize = s.len();
    if i >= len {
        return Err(ParseFail::Incomplete);
    }
    if s[i] != 105 {
        return Err(ParseFail::Malformed);
    }
    let k: usize = if i + 1 < len && s[i + 1] == 45 {
        i + 2
    } else {
        i + 1
    };
    if k >= len {
        return Err(ParseFail::Incomplete);
    }
    if !(48 <= s[k] && s[k] <= 57) {
        return Err(ParseFail::Malformed);
    }
    let mut j: usize = k;
    while j < len && 48 <= s[j] && s[j] <= 57
        invariant
            k <= j <= len,
            len == s@.len(),
            digit_run_end(s@, k as int) == digit_run_end(s@, j as int),
        decreases len - j,
    {
        j = j + 1;
    }
    if j >= len {
        return Err(ParseFail::Incomplete);
    }
    if s[j] != 101 {
        return Err(ParseFail::Malformed);
    }
    Ok(j + 1)
}

/// Parse one list element at `i`. Mirrors `spec_parse_atom` exactly.
pub fn parse_atom(s: &[u8], i: usize) -> (r: Result<(BAtom, usize), ParseFail>)
    ensures
        match r {
            Ok(p) => spec_parse_atom(s@, i as int) == ParseStep::Found(p.0@, p.1 as int) && i
                < p.1 <= s@.len(),
            Err(ParseFail::Incomplete) => spec_parse_atom(s@, i as int) is Need,
            Err(ParseFail::Malformed) => spec_parse_atom(s@, i as int) is Bad,
        },
{
    let len: usize = s.len();
    if i >= len {
        return Err(ParseFail::Incomplete);
    }
    if 48 <= s[i] && s[i] <= 57 {
        match parse_str(s, i) {
            Ok(p) => Ok((BAtom::Str(p.0), p.1)),
            Err(e) => Err(e),
        }
    } else if s[i] == 105 {
        match parse_int(s, i) {
            Ok(p) => Ok((BAtom::Int, p)),
            Err(e) => Err(e),
        }
    } else {
        Err(ParseFail::Malformed)
    }
}

/// Parse list elements from `i` up to and including the closing `e`.
/// Mirrors `spec_parse_atoms` exactly.
pub fn parse_atoms(s: &[u8], i: usize) -> (r: Result<(Vec<BAtom>, usize), ParseFail>)
    ensures
        match r {
            Ok(p) => spec_parse_atoms(s@, i as int) == ParseStep::Found(
                atoms_view(p.0@),
                p.1 as int,
            ) && i < p.1 <= s@.len(),
            Err(ParseFail::Incomplete) => spec_parse_atoms(s@, i as int) is Need,
            Err(ParseFail::Malformed) => spec_parse_atoms(s@, i as int) is Bad,
        },
{
    let len: usize = s.len();
    if i > len {
        return Err(ParseFail::Incomplete);
    }
    let mut acc: Vec<BAtom> = Vec::new();
    let mut cur: usize = i;
    proof {
        if let ParseStep::Found(rest, p) = spec_parse_atoms(s@, i as int) {
            assert(atoms_view(acc@) + rest =~= rest);
        }
    }
    loop
        invariant
            i <= cur <= len,
            len == s@.len(),
            match spec_parse_atoms(s@, cur as int) {
                ParseStep::Found(rest, p) => spec_parse_atoms(s@, i as int) == ParseStep::Found(
                    atoms_view(acc@) + rest,
                    p,
                ),
                ParseStep::Need => spec_parse_atoms(s@, i as int) is Need,
                ParseStep::Bad => spec_parse_atoms(s@, i as int) is Bad,
            },
        decreases len - cur,
    {
        if cur >= len {
            return Err(ParseFail::Incomplete);
        }
        if s[cur] == 101 {
            proof {
                assert(atoms_view(acc@) + Seq::<AtomSpec>::empty() =~= atoms_view(acc@));
            }
            return Ok((acc, cur + 1));
        }
        match parse_atom(s, cur) {
            Err(e) => {
                return Err(e);
            },
            Ok(p) => {
                let ghost a_spec = p.0@;
                let ghost j_spec = p.1 as int;
                proof {
                    lemma_parse_atom_advances(s@, cur as int);
                    if let ParseStep::Found(rest, q) = spec_parse_atoms(s@, j_spec) {
                        assert(atoms_view(acc@).push(a_spec) + rest =~= atoms_view(acc@) + (seq![
                            a_spec,
                        ] + rest));
                        assert(atoms_view(acc@.push(p.0)) =~= atoms_view(acc@).push(a_spec));
                    }
                }
                acc.push(p.0);
                cur = p.1;
            },
        }
    }
}

/// Parse one dictionary value at `i`. Mirrors `spec_parse_item` exactly.
pub fn parse_item(s: &[u8], i: usize) -> (r: Result<(BItem, usize), ParseFail>)
    ensures
        match r {
            Ok(p) => spec_parse_item(s@, i as int) == ParseStep::Found(p.0@, p.1 as int) && i
                < p.1 <= s@.len(),
            Err(ParseFail::Incomplete) => spec_parse_item(s@, i as int) is Need,
            Err(ParseFail::Malformed) => spec_parse_item(s@, i as int) is Bad,
        },
{
    let len: usize = s.len();
    if i >= len {
        return Err(ParseFail::Incomplete);
    }
    if 48 <= s[i] && s[i] <= 57 {
        match parse_str(s, i) {
            Ok(p) => Ok((BItem::Str(p.0), p.1)),
            Err(e) => Err(e),
        }
    } else if s[i] == 105 {
        match parse_int(s, i) {
            Ok(p) => Ok((BItem::Int, p)),
            Err(e) => Err(e),
        }
    } else if s[i] == 108 {
        match parse_atoms(s, i + 1) {
            Ok(p) => Ok((BItem::List(p.0), p.1)),
            Err(e) => Err(e),
        }
    } else {
        Err(ParseFail::Malformed)
    }
}

/// Parse dictionary entries from `i` up to and including the closing `e`.
/// Mirrors `spec_parse_entries` exactly.
pub fn parse_entries(s: &[u8], i: usize) -> (r: Result<(Vec<(Vec<u8>, BItem)>, usize), ParseFail>)
    ensures
        match r {
            Ok(p) => spec_parse_entries(s@, i as int) == ParseStep::Found(
                dict_view(p.0@),
                p.1 as int,
            ) && i < p.1 <= s@.len(),
            Err(ParseFail::Incomplete) => spec_parse_entries(s@, i as int) is Need,
            Err(ParseFail::Malformed) => spec_parse_entries(s@, i as int) is Bad,
        },
{
    let len: usize = s.len();
    if i > len {
        return Err(ParseFail::Incomplete);
    }
    let mut acc: Vec<(Vec<u8>, BItem)> = Vec::new();
    let mut cur: usize = i;
    proof {
        if let ParseStep::Found(rest, p) = spec_parse_entries(s@, i as int) {
            assert(dict_view(acc@) + rest =~= rest);
        }
    }
    loop
        invariant
            i <= cur <= len,
            len == s@.len(),
            match spec_parse_entries(s@, cur as int) {
                ParseStep::Found(rest, p) => spec_parse_entries(s@, i as int) == ParseStep::Found(
                    dict_view(acc@) + rest,
                    p,
                ),
                ParseStep::Need => spec_parse_entries(s@, i as int) is Need,
                ParseStep::Bad => spec_parse_entries(s@, i as int) is Bad,
            },
        decreases len - cur,
    {
        if cur >= len {
            return Err(ParseFail::Incomplete);
        }
        if s[cur] == 101 {
            proof {
                assert(dict_view(acc@) + Seq::<(Seq<u8>, ItemSpec)>::empty() =~= dict_view(acc@));
            }
            return Ok((acc, cur + 1));
        }
        let key = match parse_str(s, cur) {
            Err(e) => {
                return Err(e);
            },
            Ok(p) => p,
        };
        proof {
            lemma_parse_str_advances(s@, cur as int);
        }
        let val = match parse_item(s, key.1) {
            Err(e) => {
                return Err(e);
            },
            Ok(p) => p,
        };
        let ghost k_spec = key.0@;
        let ghost v_spec = val.0@;
        proof {
            lemma_parse_item_advances(s@, key.1 as int);
            if let ParseStep::Found(rest, q) = spec_parse_entries(s@, val.1 as int) {
                assert(dict_view(acc@).push((k_spec, v_spec)) + rest =~= dict_view(acc@) + (seq![
                    (k_spec, v_spec),
                ] + rest));
                assert(dict_view(acc@.push((key.0, val.0))) =~= dict_view(acc@).push(
                    (k_spec, v_spec),
                ));
            }
        }
        let kv = (key.0, val.0);
        acc.push(kv);
        cur = val.1;
    }
}

/// Parse one whole response message at the start of the buffer. Mirrors
/// `spec_parse_dict` exactly.
pub fn parse_message(s: &[u8]) -> (r: Result<(Vec<(Vec<u8>, BItem)>, usize), ParseFail>)
    ensures
        match r {
            Ok(p) => spec_parse_dict(s@) == ParseStep::Found(dict_view(p.0@), p.1 as int) && 0
                < p.1 <= s@.len(),
            Err(ParseFail::Incomplete) => spec_parse_dict(s@) is Need,
            Err(ParseFail::Malformed) => spec_parse_dict(s@) is Bad,
        },
{
    if s.len() == 0 {
        return Err(ParseFail::Incomplete);
    }
    if s[0] != 100 {
        return Err(ParseFail::Malformed);
    }
    parse_entries(s, 1)
}


/// The shortest decimal digit run denoting `n`.
pub open spec fn dec_digits(n: int) -> Seq<u8>
    recommends
        0 <= n,
    decreases n,
        when 0 <= n
        via dec_digits_decreases
{
    if n < 10 {
        seq![(48 + n) as u8]
    } else {
        dec_digits(n / 10) + seq![(48 + n % 10) as u8]
    }
}

#[via_fn]
proof fn dec_digits_decreases(n: int) {
    if n >= 10 {
        assert(0 <= n / 10 < n) by (nonlinear_arith)
            requires
                n >= 10,
        ;
    }
}

/// The wire form of one string: decimal length, `:`, the bytes themselves.
pub open spec fn spec_enc_str(t: Seq<u8>) -> Seq<u8> {
    dec_digits(t.len() as int) + seq![58u8] + t
}

pub open spec fn code_key() -> Seq<u8> {
    seq![99u8, 111u8, 100u8, 101u8]
}

pub open spec fn op_key() -> Seq<u8> {
    seq![111u8, 112u8]
}

pub open spec fn eval_bytes() -> Seq<u8> {
    seq![101u8, 118u8, 97u8, 108u8]
}

/// The wire form of one evaluation request: a dictionary with the entries
/// `code -> code` and `op -> eval`, keys in sorted order as the format asks.
pub open spec fn spec_eval_request(code: Seq<u8>) -> Seq<u8> {
    seq![100u8] + spec_enc_str(code_key()) + spec_enc_str(code) + spec_enc_str(op_key())
        + spec_enc_str(eval_bytes()) + seq![101u8]
}

/// Append the decimal digits of `n` to `out`.
pub fn push_decimal(out: &mut Vec<u8>, n: usize)
    ensures
        final(out)@ == old(out)@ + dec_digits(n as int),
    decreases n,
{
    if n < 10 {
        let b: u8 = 48 + (n as u8);
        out.push(b);
        proof {
            assert(old(out)@.push(b) =~= old(out)@ + seq![(48 + n as int) as u8]);
        }
    } else {
        proof {
            assert(0 <= n as int / 10 < n as int) by (nonlinear_arith)
                requires
                    n as int >= 10,
            ;
        }
        let rest: usize = n / 10;
        push_decimal(out, rest);
        let b: u8 = 48 + ((n % 10) as u8);
        out.push(b);
        proof {
            assert((old(out)@ + dec_digits(n as int / 10)).push(b) =~= old(out)@ + (dec_digits(
                n as int / 10,
            ) + seq![(48 + n as int % 10) as u8]));
        }
    }
}

/// Append the wire form of one string to `out`.
pub fn push_str_encoding(out: &mut Vec<u8>, t: &[u8])
    ensures
        final(out)@ == old(out)@ + spec_enc_str(t@),
{
    push_decimal(out, t.len());
    out.push(58);
    let mut q: usize = 0;
    while q < t.len()
        invariant
            q <= t@.len(),
            out@ == old(out)@ + dec_digits(t@.len() as int) + seq![58u8] + t@.subrange(
                0,
                q as int,
            ),
        decreases t@.len() - q,
    {
        let b: u8 = t[q];
        out.push(b);
        proof {
            assert(t@.subrange(0, q + 1) =~= t@.subrange(0, q as int).push(b));
            assert((old(out)@ + dec_digits(t@.len() as int) + seq![58u8] + t@.subrange(
                0,
                q as int,
            )).push(b) =~= old(out)@ + dec_digits(t@.len() as int) + seq![58u8] + t@.subrange(
                0,
                q + 1,
            ));
        }
        q = q + 1;
    }
    proof {
        assert(t@.subrange(0, t@.len() as int) =~= t@);
        assert(old(out)@ + dec_digits(t@.len() as int) + seq![58u8] + t@ =~= old(out)@
            + spec_enc_str(t@));
    }
}

/// Encode one evaluation request for the given code bytes.
pub fn encode_eval_request(code: &[u8]) -> (r: Vec<u8>)
    ensures
        r@ == spec_eval_request(code@),
{
    let mut out: Vec<u8> = Vec::new();
    out.push(100);
    let ck: [u8; 4] = [99, 111, 100, 101];
    push_str_encoding(&mut out, ck.as_slice());
    push_str_encoding(&mut out, code);
    let ok: [u8; 2] = [111, 112];
    push_str_encoding(&mut out, ok.as_slice());
    let ev: [u8; 4] = [101, 118, 97, 108];
    push_str_encoding(&mut out, ev.as_slice());
    out.push(101);
    proof {
        assert(ck@ =~= code_key());
        assert(ok@ =~= op_key());
        assert(ev@ =~= eval_bytes());
        assert(Seq::<u8>::empty().push(100u8) =~= seq![100u8]);
        assert(out@ =~= spec_eval_request(code@));
    }
    out
}


pub proof fn lemma_dec_digits_are_digits(n: int)
    requires
        0 <= n,
    ensures
        dec_digits(n).len() >= 1,
        forall|k: int| 0 <= k < dec_digits(n).len() ==> is_digit(#[trigger] dec_digits(n)[k]),
    decreases n,
{
    if n < 10 {
    } else {
        assert(0 <= n / 10 < n) by (nonlinear_arith)
            requires
                n >= 10,
        ;
        assert(0 <= n % 10 < 10) by (nonlinear_arith)
            requires
                n >= 10,
        ;
        lemma_dec_digits_are_digits(n / 10);
        let d = dec_digits(n / 10);
        assert forall|k: int| 0 <= k < dec_digits(n).len() implies is_digit(
            #[trigger] dec_digits(n)[k],
        ) by {
            if k < d.len() {
                assert(dec_digits(n)[k] == d[k]);
            } else {
                assert(dec_digits(n)[k] == (48 + n % 10) as u8);
            }
        };
    }
}

pub proof fn lemma_digits_val_of_dec(n: int)
    requires
        0 <= n,
    ensures
        digits_val(dec_digits(n)) == n,
    decreases n,
{
    if n < 10 {
        let c = (48 + n) as u8;
        assert(dec_digits(n) == seq![c]);
        assert(seq![c].drop_last() =~= Seq::<u8>::empty());
        assert(digits_val(Seq::<u8>::empty()) == 0);
        assert(seq![c].last() == c);
        assert(c == 48 + n);
        assert(digits_val(seq![c]) == 0 * 10 + (c - 48));
    } else {
        assert(0 <= n / 10 < n) by (nonlinear_arith)
            requires
                n >= 10,
        ;
        assert(0 <= n % 10 < 10) by (nonlinear_arith)
            requires
                n >= 10,
        ;
        lemma_digits_val_of_dec(n / 10);
        let d = dec_digits(n);
        assert(d.drop_last() =~= dec_digits(n / 10));
        assert(d.last() == (48 + n % 10) as u8);
        vstd::arithmetic::div_mod::lemma_fundamental_div_mod(n, 10);
        assert(digits_val(d) == (n / 10) * 10 + n % 10);
    }
}

pub proof fn lemma_digit_run_exact(s: Seq<u8>, i: int, j: int)
    requires
        0 <= i <= j <= s.len(),
        forall|k: int| i <= k < j ==> is_digit(s[k]),
        j == s.len() || !is_digit(s[j]),
    ensures
        digit_run_end(s, i) == j,
    decreases j - i,
{
    if i < j {
        lemma_digit_run_exact(s, i + 1, j);
    }
}

/// Wherever the wire form of a string `t` stands in a buffer, the string
/// parser finds exactly `t` and stops exactly at its end.
pub proof fn lemma_parse_str_at(s: Seq<u8>, i: int, t: Seq<u8>)
    requires
        0 <= i,
        i + spec_enc_str(t).len() <= s.len(),
        s.subrange(i, i + spec_enc_str(t).len() as int) == spec_enc_str(t),
    ensures
        spec_parse_str(s, i) == ParseStep::Found(t, i + spec_enc_str(t).len() as int),
{
    let d = dec_digits(t.len() as int);
    let dl = d.len() as int;
    let el = spec_enc_str(t).len() as int;
    lemma_dec_digits_are_digits(t.len() as int);
    lemma_digits_val_of_dec(t.len() as int);
    assert(el == dl + 1 + t.len());
    assert forall|k: int| i <= k < i + dl implies is_digit(s[k]) by {
        assert(s[k] == spec_enc_str(t)[k - i]);
        assert(spec_enc_str(t)[k - i] == d[k - i]);
    };
    assert(s[i + dl] == spec_enc_str(t)[dl]);
    assert(s[i + dl] == 58);
    assert(!is_digit(s[i + dl]));
    lemma_digit_run_exact(s, i, i + dl);
    assert(s.subrange(i, i + dl) =~= d);
    assert(dl >= 1);
    assert(is_digit(s[i]));
    assert(i < s.len());
    assert(i + dl < s.len());
    assert(digit_run_end(s, i) == i + dl);
    assert(digits_val(s.subrange(i, i + dl)) == t.len());
    assert(spec_parse_len(s, i) == ParseStep::Found(t.len() as int, i + dl));
    assert forall|k: int| 0 <= k < t.len() implies s[i + dl + 1 + k] == t[k] by {
        assert(s.subrange(i, i + el)[dl + 1 + k] == s[i + (dl + 1 + k)]);
        assert(spec_enc_str(t)[dl + 1 + k] == t[k]);
    };
    assert(s.subrange(i + dl + 1, i + dl + 1 + t.len()) =~= t);
}

/// The wire layout of one evaluation request: its five segments and the
/// bytes around them.
proof fn lemma_eval_request_layout(code: Seq<u8>)
    ensures
        spec_enc_str(code_key()).len() == 6,
        spec_enc_str(op_key()).len() == 4,
        spec_enc_str(eval_bytes()).len() == 6,
        spec_eval_request(code).len() == 18 + spec_enc_str(code).len(),
        spec_eval_request(code)[0] == 100,
        spec_eval_request(code).subrange(1, 7) =~= spec_enc_str(code_key()),
        spec_eval_request(code).subrange(7, 7 + spec_enc_str(code).len() as int) =~= spec_enc_str(
            code,
        ),
        spec_eval_request(code).subrange(
            7 + spec_enc_str(code).len() as int,
            11 + spec_enc_str(code).len() as int,
        ) =~= spec_enc_str(op_key()),
        spec_eval_request(code).subrange(
            11 + spec_enc_str(code).len() as int,
            17 + spec_enc_str(code).len() as int,
        ) =~= spec_enc_str(eval_bytes()),
        spec_eval_request(code)[17 + spec_enc_str(code).len() as int] == 101,
{
    assert(dec_digits(4) =~= seq![52u8]);
    assert(dec_digits(2) =~= seq![50u8]);
}

/// The tail of the request parses as the single `op -> eval` entry.
proof fn lemma_eval_request_tail(code: Seq<u8>)
    ensures
        spec_parse_entries(spec_eval_request(code), 7 + spec_enc_str(code).len() as int)
            == ParseStep::Found(
            seq![(op_key(), ItemSpec::Str(eval_bytes()))],
            spec_eval_request(code).len() as int,
        ),
{
    let s = spec_eval_request(code);
    let p2 = 7 + spec_enc_str(code).len() as int;
    lemma_eval_request_layout(code);
    lemma_parse_str_at(s, p2, op_key());
    lemma_parse_str_at(s, p2 + 4, eval_bytes());
    lemma_dec_digits_are_digits(4);
    assert(s[p2 + 4] == spec_enc_str(eval_bytes())[0]);
    assert(s[p2 + 4] == 52);
    assert(is_digit(s[p2 + 4]));
    assert(spec_parse_item(s, p2 + 4) == ParseStep::Found(
        ItemSpec::Str(eval_bytes()),
        p2 + 10,
    ));
    assert(s[p2 + 10] == 101);
    assert(spec_parse_entries(s, p2 + 10) == ParseStep::Found(
        Seq::<(Seq<u8>, ItemSpec)>::empty(),
        p2 + 11,
    ));
    assert(s[p2] == spec_enc_str(op_key())[0]);
    assert(s[p2] == 50);
    assert(seq![(op_key(), ItemSpec::Str(eval_bytes()))] + Seq::<(Seq<u8>, ItemSpec)>::empty()
        =~= seq![(op_key(), ItemSpec::Str(eval_bytes()))]);
    assert(spec_parse_entries(s, p2) == ParseStep::Found(
        seq![(op_key(), ItemSpec::Str(eval_bytes()))],
        p2 + 11,
    ));
}

/// Round trip: parsing an encoded evaluation request yields exactly the two
/// entries that were encoded, `code` and `op`, consuming the whole request.
pub proof fn lemma_eval_request_round_trip(code: Seq<u8>)
    ensures
        spec_parse_dict(spec_eval_request(code)) == ParseStep::Found(
            seq![(code_key(), ItemSpec::Str(code)), (op_key(), ItemSpec::Str(eval_bytes()))],
            spec_eval_request(code).len() as int,
        ),
{
    let s = spec_eval_request(code);
    let p2 = 7 + spec_enc_str(code).len() as int;
    lemma_eval_request_layout(code);
    lemma_parse_str_at(s, 1, code_key());
    lemma_parse_str_at(s, 7, code);
    lemma_dec_digits_are_digits(code.len() as int);
    assert(s[7] == spec_enc_str(code)[0]);
    assert(spec_enc_str(code)[0] == dec_digits(code.len() as int)[0]);
    assert(is_digit(s[7]));
    assert(spec_parse_item(s, 7) == ParseStep::Found(ItemSpec::Str(code), p2));
    lemma_eval_request_tail(code);
    assert(s[1] == spec_enc_str(code_key())[0]);
    assert(s[1] == 52);
    assert(spec_parse_entries(s, 1) == ParseStep::Found(
        seq![(code_key(), ItemSpec::Str(code))] + seq![(op_key(), ItemSpec::Str(eval_bytes()))],
        s.len() as int,
    ));
    assert(seq![(code_key(), ItemSpec::Str(code))] + seq![(op_key(), ItemSpec::Str(eval_bytes()))]
        =~= seq![(code_key(), ItemSpec::Str(code)), (op_key(), ItemSpec::Str(eval_bytes()))]);
}

} // verus!



