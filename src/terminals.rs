//! Labels, symbols and compressed-proof tokens.
use vstd::prelude::*;

use crate::{
    agrees, byte_at, is_space, label_byte, lemma_run_end, outcome, rest_from, run_end, scan_run,
    skip_space, symbol_byte, view_of, ws_end, AsciiSequence, ByteClass, ParseError, DOLLAR,
};

verus! {

pub const BACK_REFERENCE: u8 = 90;

#[derive(Debug, Clone, Copy, PartialEq, Eq, Hash)]
pub struct Label<'a>(pub AsciiSequence<'a>);

#[derive(Debug, Clone, Copy, PartialEq, Eq, Hash)]
pub struct Symbol<'a>(pub AsciiSequence<'a>);

/// One step of a compressed proof, kept as the bytes that spell it.
#[derive(Debug, Clone, Copy, PartialEq, Eq, Hash)]
pub struct CompressedProof<'a>(pub AsciiSequence<'a>);

impl<'a> View for Label<'a> {
    type V = Seq<u8>;

    open spec fn view(&self) -> Seq<u8> {
        self.0@
    }
}

impl<'a> View for Symbol<'a> {
    type V = Seq<u8>;

    open spec fn view(&self) -> Seq<u8> {
        self.0@
    }
}

impl<'a> View for CompressedProof<'a> {
    type V = Seq<u8>;

    open spec fn view(&self) -> Seq<u8> {
        self.0@
    }
}

pub open spec fn proof_heading_byte(c: u8) -> bool {
    85 <= c <= 89
}

pub open spec fn proof_digit_byte(c: u8) -> bool {
    65 <= c <= 84
}

/// A token of class `k` at `p`: the maximal run, which must not be empty.
pub open spec fn token_at(s: Seq<u8>, p: int, k: ByteClass) -> Option<(int, Seq<u8>)> {
    let e = run_end(s, p, k);
    if e > p {
        Some((e, s.subrange(p, e)))
    } else {
        None
    }
}

/// End of the heading digits (`U`..`Y`, each after optional whitespace) from `p`.
pub open spec fn heading_digits_end(s: Seq<u8>, p: int) -> int
    decreases s.len() - p,
{
    let w = ws_end(s, p);
    if p <= w < s.len() && proof_heading_byte(s[w]) {
        heading_digits_end(s, w + 1)
    } else {
        p
    }
}

/// A compressed-proof token at `p`: `Z`, or heading digits then one final digit.
pub open spec fn compressed_proof_at(s: Seq<u8>, p: int) -> Option<(int, Seq<u8>)> {
    if byte_at(s, p, BACK_REFERENCE) {
        Some((p + 1, s.subrange(p, p + 1)))
    } else {
        let w = ws_end(s, heading_digits_end(s, p));
        if 0 <= p <= w < s.len() && proof_digit_byte(s[w]) {
            Some((w + 1, s.subrange(p, w + 1)))
        } else {
            None
        }
    }
}

/// The shape of a compressed-proof token: `Z`, or heading digits and whitespace ending in
/// one final digit.
pub open spec fn compressed_proof_shape(t: Seq<u8>) -> bool {
    ||| t == seq![BACK_REFERENCE]
    ||| (t.len() >= 1 && proof_digit_byte(t[t.len() - 1]) && forall|i: int|
        0 <= i < t.len() - 1 ==> is_space(#[trigger] t[i]) || proof_heading_byte(t[i]))
}

proof fn lemma_heading_digits_bytes(s: Seq<u8>, p: int)
    requires
        0 <= p <= s.len(),
    ensures
        p <= heading_digits_end(s, p) <= s.len(),
        forall|i: int|
            p <= i < heading_digits_end(s, p) ==> is_space(#[trigger] s[i]) || proof_heading_byte(
                s[i],
            ),
    decreases s.len() - p,
{
    lemma_run_end(s, p, ByteClass::Space);
    let w = ws_end(s, p);
    if p <= w < s.len() && proof_heading_byte(s[w]) {
        lemma_heading_digits_bytes(s, w + 1);
    }
}

proof fn lemma_heading_digits_reach(s: Seq<u8>, p: int, d: int)
    requires
        0 <= p <= d < s.len(),
        forall|i: int| p <= i < d ==> is_space(#[trigger] s[i]) || proof_heading_byte(s[i]),
        proof_digit_byte(s[d]),
    ensures
        ws_end(s, heading_digits_end(s, p)) == d,
    decreases d - p,
{
    lemma_run_end(s, p, ByteClass::Space);
    let w = ws_end(s, p);
    if w > d {
        assert(crate::in_class(ByteClass::Space, s[d]));
    }
    if w < d {
        assert(proof_heading_byte(s[w]));
        lemma_heading_digits_reach(s, w + 1, d);
    }
}

proof fn lemma_compressed_proof_longest(s: Seq<u8>)
    ensures
        compressed_proof_at(s, 0) is Some <==> exists|e: int|
            1 <= e <= s.len() && compressed_proof_shape(#[trigger] s.subrange(0, e)),
        compressed_proof_at(s, 0) matches Some((e, t)) ==> {
            &&& 1 <= e <= s.len()
            &&& t == s.subrange(0, e)
            &&& compressed_proof_shape(t)
            &&& forall|f: int| e < f <= s.len() ==> !compressed_proof_shape(#[trigger] s.subrange(0, f))
        },
{
    if byte_at(s, 0, BACK_REFERENCE) {
        let t = s.subrange(0, 1);
        assert(t =~= seq![BACK_REFERENCE]);
        assert forall|f: int| 1 < f <= s.len() implies !compressed_proof_shape(
            #[trigger] s.subrange(0, f),
        ) by {
            let u = s.subrange(0, f);
            assert(u[0] == BACK_REFERENCE);
            assert(u.len() != 1);
        }
    } else {
        lemma_heading_digits_bytes(s, 0);
        let q = heading_digits_end(s, 0);
        lemma_run_end(s, q, ByteClass::Space);
        let w = ws_end(s, q);
        if w < s.len() && proof_digit_byte(s[w]) {
            let t = s.subrange(0, w + 1);
            assert forall|i: int| 0 <= i < t.len() - 1 implies is_space(#[trigger] t[i])
                || proof_heading_byte(t[i]) by {
                assert(t[i] == s[i]);
                if i >= q {
                    assert(crate::in_class(ByteClass::Space, s[i]));
                }
            }
            assert(compressed_proof_shape(t));
            assert forall|f: int| w + 1 < f <= s.len() implies !compressed_proof_shape(
                #[trigger] s.subrange(0, f),
            ) by {
                let u = s.subrange(0, f);
                assert(u[w] == s[w]);
                assert(u.len() != 1);
            }
        } else {
            assert forall|e: int| 1 <= e <= s.len() implies !compressed_proof_shape(
                #[trigger] s.subrange(0, e),
            ) by {
                let u = s.subrange(0, e);
                if compressed_proof_shape(u) {
                    if u == seq![BACK_REFERENCE] {
                        assert(u[0] == s[0]);
                    } else {
                        assert forall|i: int| 0 <= i < e - 1 implies is_space(#[trigger] s[i])
                            || proof_heading_byte(s[i]) by {
                            assert(u[i] == s[i]);
                        }
                        assert(u[e - 1] == s[e - 1]);
                        lemma_heading_digits_reach(s, 0, e - 1);
                    }
                }
            }
        }
    }
}

/// `r` is the split that a run tokenizer of class `k` owes on `input`.
pub open spec fn maximal_split<'a>(
    input: &'a [u8],
    r: Result<(&'a [u8], Seq<u8>), ParseError<'a>>,
    k: ByteClass,
) -> bool {
    &&& r is Ok <==> (input@.len() > 0 && crate::in_class(k, input@[0]))
    &&& r matches Ok((rest, t)) ==> {
        &&& input@ == t + rest@
        &&& t.len() >= 1
        &&& forall|i: int| 0 <= i < t.len() ==> crate::in_class(k, #[trigger] t[i])
        &&& rest@.len() == 0 || !crate::in_class(k, rest@[0])
    }
}

pub open spec fn token_split<'a, T: View<V = Seq<u8>>>(
    r: Result<(&'a [u8], T), ParseError<'a>>,
) -> Result<(&'a [u8], Seq<u8>), ParseError<'a>> {
    match r {
        Ok((rest, t)) => Ok((rest, t@)),
        Err(e) => Err(e),
    }
}

pub fn is_label_token(c: u8) -> (r: bool)
    ensures
        r == label_byte(c),
{
    (48 <= c && c <= 57) || (65 <= c && c <= 90) || (97 <= c && c <= 122) || c == 95 || c == 45
        || c == 46
}

pub fn is_symbol_token(c: u8) -> (r: bool)
    ensures
        r == symbol_byte(c),
{
    if c == DOLLAR {
        return false;
    }
    (48 <= c && c <= 57) || (65 <= c && c <= 90) || (97 <= c && c <= 122) || (33 <= c && c <= 47)
        || (58 <= c && c <= 64) || (91 <= c && c <= 96) || (123 <= c && c <= 126)
}

pub fn is_compressed_proof_heading_token(c: u8) -> (r: bool)
    ensures
        r == proof_heading_byte(c),
{
    85 <= c && c <= 89
}

pub fn is_compressed_proof_token(c: u8) -> (r: bool)
    ensures
        r == proof_digit_byte(c),
{
    65 <= c && c <= 84
}

pub fn is_later_occuring_compressed_proof_token(c: u8) -> (r: bool)
    ensures
        r == (c == BACK_REFERENCE),
{
    c == BACK_REFERENCE
}

proof fn lemma_token_split(s: Seq<u8>, k: ByteClass)
    ensures
        token_at(s, 0, k) matches Some((e, t)) ==> {
            &&& s == t + s.subrange(e, s.len() as int)
            &&& t.len() >= 1
            &&& forall|i: int| 0 <= i < t.len() ==> crate::in_class(k, #[trigger] t[i])
            &&& e == s.len() || !crate::in_class(k, s.subrange(e, s.len() as int)[0])
        },
        token_at(s, 0, k) is Some <==> (s.len() > 0 && crate::in_class(k, s[0])),
{
    lemma_run_end(s, 0, k);
    let e = run_end(s, 0, k);
    if e > 0 {
        assert(s =~= s.subrange(0, e) + s.subrange(e, s.len() as int));
        assert forall|i: int| 0 <= i < e implies crate::in_class(k, #[trigger] s.subrange(0, e)[i]) by {
            assert(s.subrange(0, e)[i] == s[i]);
        }
    } else if s.len() > 0 {
        assert(!crate::in_class(k, s[0]));
    }
}

/// Reads a token of class `k` at `p`.
pub(crate) fn token_from<'a>(input: &'a [u8], p: usize, k: ByteClass) -> (r: Option<
    (usize, AsciiSequence<'a>),
>)
    requires
        p <= input@.len(),
    ensures
        agrees(r, token_at(input@, p as int, k)),
        r matches Some((e, _)) ==> p < e <= input@.len(),
{
    let e = scan_run(input, p, k);
    if e > p {
        Some((e, view_of(input, p, e)))
    } else {
        None
    }
}

pub(crate) fn label_from<'a>(input: &'a [u8], p: usize) -> (r: Option<(usize, Label<'a>)>)
    requires
        p <= input@.len(),
    ensures
        agrees(r, token_at(input@, p as int, ByteClass::Label)),
        r matches Some((e, _)) ==> p < e <= input@.len(),
{
    match token_from(input, p, ByteClass::Label) {
        Some((e, t)) => Some((e, Label(t))),
        None => None,
    }
}

pub(crate) fn symbol_from<'a>(input: &'a [u8], p: usize) -> (r: Option<(usize, Symbol<'a>)>)
    requires
        p <= input@.len(),
    ensures
        agrees(r, token_at(input@, p as int, ByteClass::Symbol)),
        r matches Some((e, _)) ==> p < e <= input@.len(),
{
    match token_from(input, p, ByteClass::Symbol) {
        Some((e, t)) => Some((e, Symbol(t))),
        None => None,
    }
}

pub(crate) fn compressed_proof_from<'a>(input: &'a [u8], p: usize) -> (r: Option<
    (usize, CompressedProof<'a>),
>)
    requires
        p <= input@.len(),
    ensures
        agrees(r, compressed_proof_at(input@, p as int)),
        r matches Some((e, _)) ==> p < e <= input@.len(),
{
    if p < input.len() && is_later_occuring_compressed_proof_token(input[p]) {
        return Some((p + 1, CompressedProof(view_of(input, p, p + 1))));
    }
    let mut q: usize = p;
    loop
        invariant
            p <= q <= input@.len(),
            heading_digits_end(input@, q as int) == heading_digits_end(input@, p as int),
            !byte_at(input@, p as int, BACK_REFERENCE),
        decreases input@.len() - q,
    {
        let w = skip_space(input, q);
        if w < input.len() && is_compressed_proof_heading_token(input[w]) {
            q = w + 1;
        } else {
            assert(heading_digits_end(input@, q as int) == q as int);
            if w < input.len() && is_compressed_proof_token(input[w]) {
                return Some((w + 1, CompressedProof(view_of(input, p, w + 1))));
            } else {
                return None;
            }
        }
    }
}

/// Reads a label: the maximal non-empty run of letters, digits, `_`, `-` and `.`.
pub fn label<'a>(input: &'a [u8]) -> (r: Result<(&'a [u8], Label<'a>), ParseError<'a>>)
    ensures
        outcome(input, r, token_at(input@, 0, ByteClass::Label)),
        maximal_split(input, token_split(r), ByteClass::Label),
{
    proof { lemma_token_split(input@, ByteClass::Label); }
    match label_from(input, 0) {
        Some((e, l)) => Ok((rest_from(input, e), l)),
        None => Err(ParseError { input }),
    }
}

/// Reads a symbol: the maximal non-empty run of printable bytes other than `$`.
pub fn symbol<'a>(input: &'a [u8]) -> (r: Result<(&'a [u8], Symbol<'a>), ParseError<'a>>)
    ensures
        outcome(input, r, token_at(input@, 0, ByteClass::Symbol)),
        maximal_split(input, token_split(r), ByteClass::Symbol),
{
    proof { lemma_token_split(input@, ByteClass::Symbol); }
    match symbol_from(input, 0) {
        Some((e, s)) => Ok((rest_from(input, e), s)),
        None => Err(ParseError { input }),
    }
}

/// Reads one compressed-proof token.
pub fn compressed_proof<'a>(input: &'a [u8]) -> (r: Result<
    (&'a [u8], CompressedProof<'a>),
    ParseError<'a>,
>)
    ensures
        outcome(input, r, compressed_proof_at(input@, 0)),
        r is Ok <==> exists|e: int|
            1 <= e <= input@.len() && compressed_proof_shape(#[trigger] input@.subrange(0, e)),
        r matches Ok((rest, c)) ==> {
            &&& input@ == c@ + rest@
            &&& compressed_proof_shape(c@)
            &&& forall|f: int|
                c@.len() < f <= input@.len() ==> !compressed_proof_shape(
                    #[trigger] input@.subrange(0, f),
                )
        },
{
    proof {
        lemma_compressed_proof_longest(input@);
    }
    match compressed_proof_from(input, 0) {
        Some((e, c)) => {
            proof {
                assert(input@ =~= input@.subrange(0, e as int) + input@.subrange(
                    e as int,
                    input@.len() as int,
                ));
            }
            Ok((rest_from(input, e), c))
        },
        None => Err(ParseError { input }),
    }
}

} // verus!
