//! A verified parser for proof databases: byte-level tokenizers, the statement grammar,
//! heading comments, and the tree of major parts, sections, subsections and
//! subsubsections. Every node borrows its text from the parsed buffer.
use vstd::prelude::*;

pub mod comment;
pub mod document;
pub mod outline;
pub mod statement;
pub mod terminals;

verus! {

pub const SPACE: u8 = 32;
pub const TAB: u8 = 9;
pub const NEWLINE: u8 = 10;
pub const RETURN: u8 = 13;
pub const DOLLAR: u8 = 36;
pub const OPEN_PAREN: u8 = 40;
pub const CLOSE_PAREN: u8 = 41;
pub const DOT: u8 = 46;

/// A view over a contiguous range of the parsed buffer; compared by content.
#[derive(Clone, Copy, PartialEq, Eq, Hash, Debug)]
pub struct AsciiSequence<'a>(pub &'a [u8]);

impl<'a> View for AsciiSequence<'a> {
    type V = Seq<u8>;

    open spec fn view(&self) -> Seq<u8> {
        self.0@
    }
}

impl<'a> From<&'a [u8]> for AsciiSequence<'a> {
    fn from(s: &'a [u8]) -> (r: Self)
        ensures
            r@ == s@,
    {
        AsciiSequence(s)
    }
}

impl<'a> vstd::std_specs::convert::FromSpecImpl<&'a [u8]> for AsciiSequence<'a> {
    open spec fn obeys_from_spec() -> bool {
        true
    }

    open spec fn from_spec(v: &'a [u8]) -> Self {
        AsciiSequence(v)
    }
}

impl<'a> AsciiSequence<'a> {
    pub fn as_bytes(&self) -> (r: &'a [u8])
        ensures
            r@ == self@,
    {
        self.0
    }
}

/// The single failure kind of every grammar rule: nothing matched at `input`.
#[derive(Clone, Copy, PartialEq, Eq, Debug)]
pub struct ParseError<'a> {
    pub input: &'a [u8],
}

/// The byte classes that the tokenizers scan for.
#[derive(Clone, Copy, PartialEq, Eq, Debug)]
pub enum ByteClass {
    Space,
    Label,
    Symbol,
    NotNewline,
    NotCloseParen,
}

pub open spec fn is_space(c: u8) -> bool {
    c == SPACE || c == TAB || c == NEWLINE || c == RETURN
}

pub open spec fn is_alphanumeric(c: u8) -> bool {
    (48 <= c <= 57) || (65 <= c <= 90) || (97 <= c <= 122)
}

pub open spec fn label_byte(c: u8) -> bool {
    is_alphanumeric(c) || c == 95 || c == 45 || c == DOT
}

/// Printable ASCII other than space and `$`.
pub open spec fn symbol_byte(c: u8) -> bool {
    c != DOLLAR && (is_alphanumeric(c) || (33 <= c <= 47) || (58 <= c <= 64) || (91 <= c <= 96) || (
    123 <= c <= 126))
}

pub open spec fn in_class(k: ByteClass, c: u8) -> bool {
    match k {
        ByteClass::Space => is_space(c),
        ByteClass::Label => label_byte(c),
        ByteClass::Symbol => symbol_byte(c),
        ByteClass::NotNewline => c != NEWLINE,
        ByteClass::NotCloseParen => c != CLOSE_PAREN,
    }
}

/// End of the maximal run of bytes of class `k` that starts at `p`.
pub open spec fn run_end(s: Seq<u8>, p: int, k: ByteClass) -> int
    decreases s.len() - p,
{
    if 0 <= p < s.len() && in_class(k, s[p]) {
        run_end(s, p + 1, k)
    } else {
        p
    }
}

pub open spec fn ws_end(s: Seq<u8>, p: int) -> int {
    run_end(s, p, ByteClass::Space)
}

/// The two bytes `a b` stand at `p`.
pub open spec fn pair_at(s: Seq<u8>, p: int, a: u8, b: u8) -> bool {
    0 <= p && p + 1 < s.len() && s[p] == a && s[p + 1] == b
}

pub open spec fn byte_at(s: Seq<u8>, p: int, a: u8) -> bool {
    0 <= p < s.len() && s[p] == a
}

/// Position of the first `$)` at or after `p`.
pub open spec fn find_close(s: Seq<u8>, p: int) -> Option<int>
    decreases s.len() - p,
{
    if p < 0 || p + 1 >= s.len() {
        None
    } else if s[p] == DOLLAR && s[p + 1] == CLOSE_PAREN {
        Some(p)
    } else {
        find_close(s, p + 1)
    }
}

/// End of `s[lo..hi]` once trailing whitespace is cut off.
pub open spec fn trim_end(s: Seq<u8>, lo: int, hi: int) -> int
    decreases hi - lo,
{
    if lo < hi && is_space(s[hi - 1]) {
        trim_end(s, lo, hi - 1)
    } else {
        hi
    }
}

pub open spec fn views<T: View>(v: Seq<T>) -> Seq<T::V> {
    v.map_values(|x: T| x@)
}

/// `r` is what a grammar rule owes on `input` when its spec parse gives `m`
/// (the end offset of the match and the model of what was read).
pub open spec fn outcome<'a, T: View>(
    input: &'a [u8],
    r: Result<(&'a [u8], T), ParseError<'a>>,
    m: Option<(int, T::V)>,
) -> bool {
    match m {
        None => r is Err && r->Err_0.input@ == input@,
        Some((e, v)) => match r {
            Ok((rest, t)) => rest@ == input@.subrange(e, input@.len() as int) && t@ == v,
            Err(_) => false,
        },
    }
}

/// Positional form of `outcome`, used by the rules inside the crate.
pub open spec fn agrees<T: View>(r: Option<(usize, T)>, m: Option<(int, T::V)>) -> bool {
    match m {
        None => r is None,
        Some((e, v)) => match r {
            Some((q, t)) => q == e && t@ == v,
            None => false,
        },
    }
}

pub proof fn lemma_views_push<T: View>(v: Seq<T>, x: T)
    ensures
        views(v.push(x)) == views(v).push(x@),
{
    assert(views(v.push(x)) =~= views(v).push(x@));
}

pub proof fn lemma_run_end(s: Seq<u8>, p: int, k: ByteClass)
    requires
        0 <= p <= s.len(),
    ensures
        p <= run_end(s, p, k) <= s.len(),
        forall|i: int| p <= i < run_end(s, p, k) ==> in_class(k, #[trigger] s[i]),
        run_end(s, p, k) == s.len() || !in_class(k, s[run_end(s, p, k)]),
    decreases s.len() - p,
{
    if p < s.len() && in_class(k, s[p]) {
        lemma_run_end(s, p + 1, k);
    }
}

pub proof fn lemma_find_close(s: Seq<u8>, p: int)
    requires
        0 <= p,
    ensures
        find_close(s, p) matches Some(c) ==> p <= c && c + 1 < s.len() && s[c] == DOLLAR && s[c
            + 1] == CLOSE_PAREN,
    decreases s.len() - p,
{
    if p + 1 < s.len() && !(s[p] == DOLLAR && s[p + 1] == CLOSE_PAREN) {
        lemma_find_close(s, p + 1);
    }
}

pub proof fn lemma_trim_end(s: Seq<u8>, lo: int, hi: int)
    requires
        lo <= hi,
    ensures
        lo <= trim_end(s, lo, hi) <= hi,
    decreases hi - lo,
{
    if lo < hi && is_space(s[hi - 1]) {
        lemma_trim_end(s, lo, hi - 1);
    }
}

pub(crate) fn in_class_exec(k: ByteClass, c: u8) -> (r: bool)
    ensures
        r == in_class(k, c),
{
    match k {
        ByteClass::Space => c == SPACE || c == TAB || c == NEWLINE || c == RETURN,
        ByteClass::Label => terminals::is_label_token(c),
        ByteClass::Symbol => terminals::is_symbol_token(c),
        ByteClass::NotNewline => c != NEWLINE,
        ByteClass::NotCloseParen => c != CLOSE_PAREN,
    }
}

/// Scans the maximal run of class `k` from `p`.
pub(crate) fn scan_run(input: &[u8], p: usize, k: ByteClass) -> (r: usize)
    requires
        p <= input@.len(),
    ensures
        r == run_end(input@, p as int, k),
        p <= r <= input@.len(),
{
    proof { lemma_run_end(input@, p as int, k); }
    let mut i: usize = p;
    while i < input.len() && in_class_exec(k, input[i])
        invariant
            p <= i <= input@.len(),
            run_end(input@, i as int, k) == run_end(input@, p as int, k),
        decreases input@.len() - i,
    {
        i = i + 1;
    }
    i
}

pub(crate) fn skip_space(input: &[u8], p: usize) -> (r: usize)
    requires
        p <= input@.len(),
    ensures
        r == ws_end(input@, p as int),
        p <= r <= input@.len(),
{
    scan_run(input, p, ByteClass::Space)
}

pub(crate) fn has_pair(input: &[u8], p: usize, a: u8, b: u8) -> (r: bool)
    ensures
        r == pair_at(input@, p as int, a, b),
        r ==> p + 2 <= input.len(),
{
    p < input.len() && input.len() - p >= 2 && input[p] == a && input[p + 1] == b
}

pub(crate) fn has_byte(input: &[u8], p: usize, a: u8) -> (r: bool)
    ensures
        r == byte_at(input@, p as int, a),
        r ==> p + 1 <= input.len(),
{
    p < input.len() && input[p] == a
}

/// Looks for the first `$)` at or after `p`.
pub(crate) fn scan_close(input: &[u8], p: usize) -> (r: Option<usize>)
    ensures
        r matches Some(c) ==> find_close(input@, p as int) == Some(c as int),
        r is None ==> find_close(input@, p as int) is None,
        r matches Some(c) ==> p <= c && c + 2 <= input.len(),
{
    let mut i: usize = p;
    while i < input.len() && input.len() - i >= 2
        invariant
            p <= i,
            find_close(input@, i as int) == find_close(input@, p as int),
        decreases input@.len() - i,
    {
        if input[i] == DOLLAR && input[i + 1] == CLOSE_PAREN {
            return Some(i);
        }
        i = i + 1;
    }
    None
}

/// Cuts trailing whitespace off `input[lo..hi]`.
pub(crate) fn trim_trailing(input: &[u8], lo: usize, hi: usize) -> (r: usize)
    requires
        lo <= hi <= input@.len(),
    ensures
        r == trim_end(input@, lo as int, hi as int),
        lo <= r <= hi,
{
    proof { lemma_trim_end(input@, lo as int, hi as int); }
    let mut j: usize = hi;
    while lo < j && in_class_exec(ByteClass::Space, input[j - 1])
        invariant
            lo <= j <= hi,
            hi <= input@.len(),
            trim_end(input@, lo as int, j as int) == trim_end(input@, lo as int, hi as int),
        decreases j,
    {
        j = j - 1;
    }
    j
}

/// The bytes `input[lo..hi]` as a view.
pub(crate) fn view_of<'a>(input: &'a [u8], lo: usize, hi: usize) -> (r: AsciiSequence<'a>)
    requires
        lo <= hi <= input@.len(),
    ensures
        r@ == input@.subrange(lo as int, hi as int),
{
    AsciiSequence(vstd::slice::slice_subrange(input, lo, hi))
}

/// What is left of `input` from `p` on.
pub(crate) fn rest_from<'a>(input: &'a [u8], p: usize) -> (r: &'a [u8])
    requires
        p <= input@.len(),
    ensures
        r@ == input@.subrange(p as int, input@.len() as int),
{
    vstd::slice::slice_subrange(input, p, input.len())
}

} // verus!
