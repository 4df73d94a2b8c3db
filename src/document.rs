//! Heading comments of the four levels and the document tree they open.
use vstd::prelude::*;

use crate::statement::{
    lemma_heading_is_never_a_comment, lemma_run_end_exact, lemma_stands_at_bytes,
    lemma_statements_laid_out, stands_at, statement_at,
    statements_text, writable_statement, comment_at, heading_comment_at, statement_list_from,
    statements_more, Statement, StatementModel,
};
use crate::{
    agrees, find_close, has_pair, lemma_find_close, lemma_views_push, outcome, pair_at,
    rest_from, run_end, scan_close, scan_run, skip_space, trim_end, trim_trailing, view_of,
    views, ws_end, AsciiSequence, ByteClass, ParseError, CLOSE_PAREN, DOLLAR, DOT, NEWLINE,
    OPEN_PAREN, SPACE, in_class, is_space, lemma_run_end,
};

verus! {

pub const HASH: u8 = 35;
pub const STAR: u8 = 42;
pub const DASH: u8 = 45;
pub const EQUALS: u8 = 61;

/// The (inner, outer) delimiter bytes of a major-part heading: `####`.
pub open spec fn major_part_delimiters() -> (u8, u8) {
    (HASH, HASH)
}

/// The (inner, outer) delimiter bytes of a section heading: `#*#*`.
pub open spec fn section_delimiters() -> (u8, u8) {
    (STAR, HASH)
}

/// The (inner, outer) delimiter bytes of a subsection heading: `=-=-`.
pub open spec fn sub_section_delimiters() -> (u8, u8) {
    (DASH, EQUALS)
}

/// The (inner, outer) delimiter bytes of a subsubsection heading: `-.-.`.
pub open spec fn sub_sub_section_delimiters() -> (u8, u8) {
    (DOT, DASH)
}

/// End of the run `want other want other ...` that starts at `p`.
pub open spec fn delimiter_end(s: Seq<u8>, p: int, want: u8, other: u8) -> int
    decreases s.len() - p,
{
    if 0 <= p < s.len() && s[p] == want {
        delimiter_end(s, p + 1, other, want)
    } else {
        p
    }
}

/// A delimiter line, the title line (whitespace trimmed), and the same delimiter line again.
pub open spec fn delimited_title_at(s: Seq<u8>, p: int, d: (u8, u8)) -> Option<(int, Seq<u8>)> {
    let d1 = delimiter_end(s, p, d.1, d.0);
    let t0 = ws_end(s, d1);
    let t1 = run_end(s, t0, ByteClass::NotNewline);
    let b = ws_end(s, t1);
    let d2 = delimiter_end(s, b, d.1, d.0);
    if p < d1 && b < d2 {
        Some((d2, s.subrange(t0, trim_end(s, t0, t1))))
    } else {
        None
    }
}

/// `$(`, a delimited title, the remaining text up to the first `$)` (whitespace trimmed),
/// and `$)`. The model is the title and the remaining text.
pub open spec fn heading_at(s: Seq<u8>, p: int, d: (u8, u8)) -> Option<
    (int, (Seq<u8>, Seq<u8>)),
> {
    if pair_at(s, p, DOLLAR, OPEN_PAREN) {
        match delimited_title_at(s, ws_end(s, p + 2), d) {
            Some((q, title)) => {
                let c0 = ws_end(s, q);
                match find_close(s, c0) {
                    Some(c) => Some((c + 2, (title, s.subrange(c0, trim_end(s, c0, c))))),
                    None => None,
                }
            },
            None => None,
        }
    } else {
        None
    }
}

proof fn lemma_delimiter_end(s: Seq<u8>, p: int, want: u8, other: u8)
    requires
        0 <= p <= s.len(),
    ensures
        p <= delimiter_end(s, p, want, other) <= s.len(),
    decreases s.len() - p,
{
    if p < s.len() && s[p] == want {
        lemma_delimiter_end(s, p + 1, other, want);
    }
}

fn scan_delimiter(input: &[u8], p: usize, want: u8, other: u8) -> (r: usize)
    requires
        p <= input@.len(),
    ensures
        r == delimiter_end(input@, p as int, want, other),
        p <= r <= input@.len(),
{
    proof { lemma_delimiter_end(input@, p as int, want, other); }
    let mut i: usize = p;
    let mut w: u8 = want;
    let mut o: u8 = other;
    while i < input.len() && input[i] == w
        invariant
            p <= i <= input@.len(),
            delimiter_end(input@, i as int, w, o) == delimiter_end(input@, p as int, want, other),
        decreases input@.len() - i,
    {
        i = i + 1;
        let t = w;
        w = o;
        o = t;
    }
    i
}

fn delimited_title_from<'a>(input: &'a [u8], p: usize, inner: u8, outer: u8) -> (r: Option<
    (usize, AsciiSequence<'a>),
>)
    requires
        p <= input@.len(),
    ensures
        agrees(r, delimited_title_at(input@, p as int, (inner, outer))),
        r matches Some((e, _)) ==> p < e <= input@.len(),
{
    let d1 = scan_delimiter(input, p, outer, inner);
    let t0 = skip_space(input, d1);
    let t1 = scan_run(input, t0, ByteClass::NotNewline);
    let b = skip_space(input, t1);
    let d2 = scan_delimiter(input, b, outer, inner);
    if p < d1 && b < d2 {
        let te = trim_trailing(input, t0, t1);
        Some((d2, view_of(input, t0, te)))
    } else {
        None
    }
}

pub(crate) fn heading_from<'a>(input: &'a [u8], p: usize, inner: u8, outer: u8) -> (r: Option<
    (usize, (AsciiSequence<'a>, AsciiSequence<'a>)),
>)
    requires
        p <= input@.len(),
    ensures
        agrees(r, heading_at(input@, p as int, (inner, outer))),
        r matches Some((e, _)) ==> p < e <= input@.len(),
{
    if !has_pair(input, p, DOLLAR, OPEN_PAREN) {
        return None;
    }
    let a = skip_space(input, p + 2);
    match delimited_title_from(input, a, inner, outer) {
        Some((q, title)) => {
            let c0 = skip_space(input, q);
            proof { lemma_find_close(input@, c0 as int); }
            match scan_close(input, c0) {
                Some(c) => {
                    let ce = trim_trailing(input, c0, c);
                    Some((c + 2, (title, view_of(input, c0, ce))))
                },
                None => None,
            }
        },
        None => None,
    }
}

/// Reads a delimiter line, a title line and the delimiter line again; returns the title.
pub fn delimited_separated_list1<'a>(input: &'a [u8], inner: u8, outer: u8) -> (r: Result<
    (&'a [u8], AsciiSequence<'a>),
    ParseError<'a>,
>)
    ensures
        outcome(input, r, delimited_title_at(input@, 0, (inner, outer))),
{
    match delimited_title_from(input, 0, inner, outer) {
        Some((e, t)) => Ok((rest_from(input, e), t)),
        None => Err(ParseError { input }),
    }
}

/// Reads a heading comment whose delimiter lines alternate `outer` and `inner`;
/// returns its title and the text after the second delimiter line.
pub fn heading_comment<'a>(input: &'a [u8], inner: u8, outer: u8) -> (r: Result<
    (&'a [u8], (AsciiSequence<'a>, AsciiSequence<'a>)),
    ParseError<'a>,
>)
    ensures
        outcome(input, r, heading_at(input@, 0, (inner, outer))),
{
    match heading_from(input, 0, inner, outer) {
        Some((e, h)) => Ok((rest_from(input, e), h)),
        None => Err(ParseError { input }),
    }
}

pub fn major_part_heading_comment<'a>(input: &'a [u8]) -> (r: Result<
    (&'a [u8], (AsciiSequence<'a>, AsciiSequence<'a>)),
    ParseError<'a>,
>)
    ensures
        outcome(input, r, heading_at(input@, 0, major_part_delimiters())),
{
    heading_comment(input, HASH, HASH)
}

pub fn section_heading_comment<'a>(input: &'a [u8]) -> (r: Result<
    (&'a [u8], (AsciiSequence<'a>, AsciiSequence<'a>)),
    ParseError<'a>,
>)
    ensures
        outcome(input, r, heading_at(input@, 0, section_delimiters())),
{
    heading_comment(input, STAR, HASH)
}

pub fn sub_section_heading_comment<'a>(input: &'a [u8]) -> (r: Result<
    (&'a [u8], (AsciiSequence<'a>, AsciiSequence<'a>)),
    ParseError<'a>,
>)
    ensures
        outcome(input, r, heading_at(input@, 0, sub_section_delimiters())),
{
    heading_comment(input, DASH, EQUALS)
}

pub fn sub_sub_section_heading_comment<'a>(input: &'a [u8]) -> (r: Result<
    (&'a [u8], (AsciiSequence<'a>, AsciiSequence<'a>)),
    ParseError<'a>,
>)
    ensures
        outcome(input, r, heading_at(input@, 0, sub_sub_section_delimiters())),
{
    heading_comment(input, DOT, DASH)
}

pub open spec fn level_delimiters(l: int) -> (u8, u8) {
    if l == 0 {
        major_part_delimiters()
    } else if l == 1 {
        section_delimiters()
    } else if l == 2 {
        sub_section_delimiters()
    } else {
        sub_sub_section_delimiters()
    }
}

/// What a structural unit holds. Level 0 is a major part, 1 a section, 2 a subsection and
/// 3 a subsubsection; `parts` are the units of the next level.
pub struct PartModel {
    pub title: Seq<u8>,
    pub text: Seq<u8>,
    pub statements: Seq<StatementModel>,
    pub parts: Seq<PartModel>,
}

/// What a document holds: the statements before its first heading and its major parts.
pub struct DocumentModel {
    pub statements: Seq<StatementModel>,
    pub parts: Seq<PartModel>,
}

/// What to do with a heading met before any heading of the level above it.
#[derive(Clone, Copy, PartialEq, Eq, Debug)]
pub enum HeadingPolicy {
    /// Open an untitled unit of each missing level above it.
    ImplicitParents,
    /// Stop there; the document rule then fails at that heading.
    Reject,
}

pub open spec fn implicit_parents(policy: HeadingPolicy) -> bool {
    policy == HeadingPolicy::ImplicitParents
}

/// A heading of a level deeper than `l` starts at `p`.
pub open spec fn deeper_heading_at(s: Seq<u8>, p: int, l: int) -> bool {
    ||| (l < 1 && heading_at(s, p, level_delimiters(1)) is Some)
    ||| (l < 2 && heading_at(s, p, level_delimiters(2)) is Some)
    ||| (l < 3 && heading_at(s, p, level_delimiters(3)) is Some)
}

/// A heading of level `l`, the statements under it, then the units of level `l + 1`. With
/// `implicit`, a heading of a deeper level opens an untitled unit of level `l` (empty title
/// and text, no statements) that holds the units read from there.
pub open spec fn part_at(s: Seq<u8>, p: int, l: int, implicit: bool) -> Option<(int, PartModel)>
    decreases 4 - l, s.len() - p, 0int,
{
    if 0 <= l <= 3 {
        match heading_at(s, p, level_delimiters(l)) {
            Some((e, (title, text))) => {
                let (q, statements) = statements_more(s, e, Seq::empty());
                let (r, parts) = if l < 3 {
                    parts_more(s, q, l + 1, Seq::empty(), implicit)
                } else {
                    (q, Seq::empty())
                };
                Some((r, PartModel { title, text, statements, parts }))
            },
            None => if implicit && l < 3 && deeper_heading_at(s, p, l) {
                let (r, parts) = parts_more(s, p, l + 1, Seq::empty(), implicit);
                Some(
                    (
                        r,
                        PartModel {
                            title: Seq::empty(),
                            text: Seq::empty(),
                            statements: Seq::empty(),
                            parts,
                        },
                    ),
                )
            } else {
                None
            },
        }
    } else {
        None
    }
}

/// Units of level `l`, each after optional whitespace, appended to `acc`.
pub open spec fn parts_more(
    s: Seq<u8>,
    p: int,
    l: int,
    acc: Seq<PartModel>,
    implicit: bool,
) -> (int, Seq<PartModel>)
    decreases 4 - l, s.len() - p, 1int,
{
    let w = ws_end(s, p);
    if p <= w <= s.len() && 0 <= l <= 3 {
        match part_at(s, w, l, implicit) {
            Some((e, m)) => if w < e <= s.len() {
                parts_more(s, e, l, acc.push(m), implicit)
            } else {
                (p, acc)
            },
            None => (p, acc),
        }
    } else {
        (p, acc)
    }
}

/// Leading statements (comments among them), then major parts; this always matches.
pub open spec fn document_at(s: Seq<u8>, implicit: bool) -> (int, DocumentModel) {
    let (c, statements) = statements_more(s, 0, Seq::empty());
    let (e, parts) = parts_more(s, c, 0, Seq::empty(), implicit);
    (e, DocumentModel { statements, parts })
}

/// What the document rule owes under `policy`: the tree of `document_at`, except that with
/// `Reject` it fails where a heading is left unread, handing back the input from there.
pub open spec fn document_outcome<'a>(
    input: &'a [u8],
    policy: HeadingPolicy,
    r: Result<(&'a [u8], Document<'a>), ParseError<'a>>,
) -> bool {
    let (e, m) = document_at(input@, implicit_parents(policy));
    let w = ws_end(input@, e);
    if policy == HeadingPolicy::Reject && heading_comment_at(input@, w) {
        r is Err && r->Err_0.input@ == input@.subrange(w, input@.len() as int)
    } else {
        outcome(input, r, Some((e, m)))
    }
}

#[derive(Debug, Clone, PartialEq, Eq, Hash)]
pub struct Document<'a> {
    /// The statements, comments among them, that come before the first heading.
    pub statements: Vec<Statement<'a>>,
    pub major_parts: Vec<MajorPart<'a>>,
}

#[derive(Debug, Clone, PartialEq, Eq, Hash)]
pub struct MajorPart<'a> {
    pub title: AsciiSequence<'a>,
    pub heading_comments: AsciiSequence<'a>,
    pub statements: Vec<Statement<'a>>,
    pub sections: Vec<Section<'a>>,
}

#[derive(Debug, Clone, PartialEq, Eq, Hash)]
pub struct Section<'a> {
    pub title: AsciiSequence<'a>,
    pub heading_comments: AsciiSequence<'a>,
    pub statements: Vec<Statement<'a>>,
    pub subsections: Vec<SubSection<'a>>,
}

#[derive(Debug, Clone, PartialEq, Eq, Hash)]
pub struct SubSection<'a> {
    pub title: AsciiSequence<'a>,
    pub heading_comments: AsciiSequence<'a>,
    pub statements: Vec<Statement<'a>>,
    pub subsubsections: Vec<SubSubSection<'a>>,
}

#[derive(Debug, Clone, PartialEq, Eq, Hash)]
pub struct SubSubSection<'a> {
    pub title: AsciiSequence<'a>,
    pub heading_comments: AsciiSequence<'a>,
    pub statements: Vec<Statement<'a>>,
}

impl<'a> View for Document<'a> {
    type V = DocumentModel;

    open spec fn view(&self) -> DocumentModel {
        DocumentModel { statements: views(self.statements@), parts: views(self.major_parts@) }
    }
}

impl<'a> View for MajorPart<'a> {
    type V = PartModel;

    open spec fn view(&self) -> PartModel {
        PartModel {
            title: self.title@,
            text: self.heading_comments@,
            statements: views(self.statements@),
            parts: views(self.sections@),
        }
    }
}

impl<'a> View for Section<'a> {
    type V = PartModel;

    open spec fn view(&self) -> PartModel {
        PartModel {
            title: self.title@,
            text: self.heading_comments@,
            statements: views(self.statements@),
            parts: views(self.subsections@),
        }
    }
}

impl<'a> View for SubSection<'a> {
    type V = PartModel;

    open spec fn view(&self) -> PartModel {
        PartModel {
            title: self.title@,
            text: self.heading_comments@,
            statements: views(self.statements@),
            parts: views(self.subsubsections@),
        }
    }
}

impl<'a> View for SubSubSection<'a> {
    type V = PartModel;

    open spec fn view(&self) -> PartModel {
        PartModel {
            title: self.title@,
            text: self.heading_comments@,
            statements: views(self.statements@),
            parts: Seq::empty(),
        }
    }
}

fn deeper_heading_from(input: &[u8], p: usize, l: usize) -> (r: bool)
    requires
        p <= input@.len(),
        l <= 3,
    ensures
        r == deeper_heading_at(input@, p as int, l as int),
{
    (l < 1 && heading_from(input, p, STAR, HASH).is_some()) || (l < 2 && heading_from(
        input,
        p,
        DASH,
        EQUALS,
    ).is_some()) || (l < 3 && heading_from(input, p, DOT, DASH).is_some())
}

fn major_part_from<'a>(input: &'a [u8], p: usize, implicit: bool) -> (r: Option<(usize, MajorPart<'a>)>)
    requires
        p <= input@.len(),
    ensures
        agrees(r, part_at(input@, p as int, 0, implicit)),
        r matches Some((e, _)) ==> p <= e <= input@.len(),
{
    match heading_from(input, p, HASH, HASH) {
        Some((e, heading)) => {
            let (q, statements) = statement_list_from(input, e);
            let (r, parts) = sections_from(input, q, implicit);
            Some((r, MajorPart::new((heading, statements, parts))))
        },
        None => {
            if implicit && deeper_heading_from(input, p, 0) {
                let (r, parts) = sections_from(input, p, implicit);
                let untitled = (view_of(input, p, p), view_of(input, p, p));
                let none: Vec<Statement<'a>> = Vec::new();
                proof {
                    assert(untitled.0@ =~= Seq::<u8>::empty());
                    assert(views(none@) =~= Seq::<StatementModel>::empty());
                }
                Some((r, MajorPart::new((untitled, none, parts))))
            } else {
                None
            }
        },
    }
}

fn major_parts_from<'a>(input: &'a [u8], p: usize, implicit: bool) -> (r: (usize, Vec<MajorPart<'a>>))
    requires
        p <= input@.len(),
    ensures
        parts_more(input@, p as int, 0, Seq::empty(), implicit) == (r.0 as int, views(r.1@)),
        p <= r.0 <= input@.len(),
{
    let mut v: Vec<MajorPart<'a>> = Vec::new();
    proof { assert(views(v@) =~= Seq::<PartModel>::empty()); }
    let mut pos: usize = p;
    loop
        invariant
            p <= pos <= input@.len(),
            parts_more(input@, pos as int, 0, views(v@), implicit) == parts_more(
                input@,
                p as int,
                0,
                Seq::empty(),
                implicit,
            ),
        decreases input@.len() - pos,
    {
        let w = skip_space(input, pos);
        match major_part_from(input, w, implicit) {
            Some((e, x)) => {
                if w < e {
                    proof { lemma_views_push(v@, x); }
                    v.push(x);
                    pos = e;
                } else {
                    return (pos, v);
                }
            },
            None => {
                return (pos, v);
            },
        }
    }
}

/// Reads a major part heading, the statements under it, and the units below it; a deeper heading met first opens an untitled major part.
pub fn major_part<'a>(input: &'a [u8]) -> (r: Result<(&'a [u8], MajorPart<'a>), ParseError<'a>>)
    ensures
        outcome(input, r, part_at(input@, 0, 0, true)),
{
    match major_part_from(input, 0, true) {
        Some((e, x)) => Ok((rest_from(input, e), x)),
        None => Err(ParseError { input }),
    }
}

fn section_from<'a>(input: &'a [u8], p: usize, implicit: bool) -> (r: Option<(usize, Section<'a>)>)
    requires
        p <= input@.len(),
    ensures
        agrees(r, part_at(input@, p as int, 1, implicit)),
        r matches Some((e, _)) ==> p <= e <= input@.len(),
{
    match heading_from(input, p, STAR, HASH) {
        Some((e, heading)) => {
            let (q, statements) = statement_list_from(input, e);
            let (r, parts) = sub_sections_from(input, q, implicit);
            Some((r, Section::new((heading, statements, parts))))
        },
        None => {
            if implicit && deeper_heading_from(input, p, 1) {
                let (r, parts) = sub_sections_from(input, p, implicit);
                let untitled = (view_of(input, p, p), view_of(input, p, p));
                let none: Vec<Statement<'a>> = Vec::new();
                proof {
                    assert(untitled.0@ =~= Seq::<u8>::empty());
                    assert(views(none@) =~= Seq::<StatementModel>::empty());
                }
                Some((r, Section::new((untitled, none, parts))))
            } else {
                None
            }
        },
    }
}

fn sections_from<'a>(input: &'a [u8], p: usize, implicit: bool) -> (r: (usize, Vec<Section<'a>>))
    requires
        p <= input@.len(),
    ensures
        parts_more(input@, p as int, 1, Seq::empty(), implicit) == (r.0 as int, views(r.1@)),
        p <= r.0 <= input@.len(),
{
    let mut v: Vec<Section<'a>> = Vec::new();
    proof { assert(views(v@) =~= Seq::<PartModel>::empty()); }
    let mut pos: usize = p;
    loop
        invariant
            p <= pos <= input@.len(),
            parts_more(input@, pos as int, 1, views(v@), implicit) == parts_more(
                input@,
                p as int,
                1,
                Seq::empty(),
                implicit,
            ),
        decreases input@.len() - pos,
    {
        let w = skip_space(input, pos);
        match section_from(input, w, implicit) {
            Some((e, x)) => {
                if w < e {
                    proof { lemma_views_push(v@, x); }
                    v.push(x);
                    pos = e;
                } else {
                    return (pos, v);
                }
            },
            None => {
                return (pos, v);
            },
        }
    }
}

/// Reads a section heading, the statements under it, and the units below it; a deeper heading met first opens an untitled section.
pub fn section<'a>(input: &'a [u8]) -> (r: Result<(&'a [u8], Section<'a>), ParseError<'a>>)
    ensures
        outcome(input, r, part_at(input@, 0, 1, true)),
{
    match section_from(input, 0, true) {
        Some((e, x)) => Ok((rest_from(input, e), x)),
        None => Err(ParseError { input }),
    }
}

fn sub_section_from<'a>(input: &'a [u8], p: usize, implicit: bool) -> (r: Option<(usize, SubSection<'a>)>)
    requires
        p <= input@.len(),
    ensures
        agrees(r, part_at(input@, p as int, 2, implicit)),
        r matches Some((e, _)) ==> p <= e <= input@.len(),
{
    match heading_from(input, p, DASH, EQUALS) {
        Some((e, heading)) => {
            let (q, statements) = statement_list_from(input, e);
            let (r, parts) = sub_sub_sections_from(input, q, implicit);
            Some((r, SubSection::new((heading, statements, parts))))
        },
        None => {
            if implicit && deeper_heading_from(input, p, 2) {
                let (r, parts) = sub_sub_sections_from(input, p, implicit);
                let untitled = (view_of(input, p, p), view_of(input, p, p));
                let none: Vec<Statement<'a>> = Vec::new();
                proof {
                    assert(untitled.0@ =~= Seq::<u8>::empty());
                    assert(views(none@) =~= Seq::<StatementModel>::empty());
                }
                Some((r, SubSection::new((untitled, none, parts))))
            } else {
                None
            }
        },
    }
}

fn sub_sections_from<'a>(input: &'a [u8], p: usize, implicit: bool) -> (r: (usize, Vec<SubSection<'a>>))
    requires
        p <= input@.len(),
    ensures
        parts_more(input@, p as int, 2, Seq::empty(), implicit) == (r.0 as int, views(r.1@)),
        p <= r.0 <= input@.len(),
{
    let mut v: Vec<SubSection<'a>> = Vec::new();
    proof { assert(views(v@) =~= Seq::<PartModel>::empty()); }
    let mut pos: usize = p;
    loop
        invariant
            p <= pos <= input@.len(),
            parts_more(input@, pos as int, 2, views(v@), implicit) == parts_more(
                input@,
                p as int,
                2,
                Seq::empty(),
                implicit,
            ),
        decreases input@.len() - pos,
    {
        let w = skip_space(input, pos);
        match sub_section_from(input, w, implicit) {
            Some((e, x)) => {
                if w < e {
                    proof { lemma_views_push(v@, x); }
                    v.push(x);
                    pos = e;
                } else {
                    return (pos, v);
                }
            },
            None => {
                return (pos, v);
            },
        }
    }
}

/// Reads a sub section heading, the statements under it, and the units below it; a deeper heading met first opens an untitled sub section.
pub fn sub_section<'a>(input: &'a [u8]) -> (r: Result<(&'a [u8], SubSection<'a>), ParseError<'a>>)
    ensures
        outcome(input, r, part_at(input@, 0, 2, true)),
{
    match sub_section_from(input, 0, true) {
        Some((e, x)) => Ok((rest_from(input, e), x)),
        None => Err(ParseError { input }),
    }
}

fn sub_sub_section_from<'a>(input: &'a [u8], p: usize, implicit: bool) -> (r: Option<(usize, SubSubSection<'a>)>)
    requires
        p <= input@.len(),
    ensures
        agrees(r, part_at(input@, p as int, 3, implicit)),
        r matches Some((e, _)) ==> p <= e <= input@.len(),
{
    match heading_from(input, p, DOT, DASH) {
        Some((e, heading)) => {
            let (q, statements) = statement_list_from(input, e);
            Some((q, SubSubSection::new((heading, statements))))
        },
        None => None,
    }
}

fn sub_sub_sections_from<'a>(input: &'a [u8], p: usize, implicit: bool) -> (r: (usize, Vec<SubSubSection<'a>>))
    requires
        p <= input@.len(),
    ensures
        parts_more(input@, p as int, 3, Seq::empty(), implicit) == (r.0 as int, views(r.1@)),
        p <= r.0 <= input@.len(),
{
    let mut v: Vec<SubSubSection<'a>> = Vec::new();
    proof { assert(views(v@) =~= Seq::<PartModel>::empty()); }
    let mut pos: usize = p;
    loop
        invariant
            p <= pos <= input@.len(),
            parts_more(input@, pos as int, 3, views(v@), implicit) == parts_more(
                input@,
                p as int,
                3,
                Seq::empty(),
                implicit,
            ),
        decreases input@.len() - pos,
    {
        let w = skip_space(input, pos);
        match sub_sub_section_from(input, w, implicit) {
            Some((e, x)) => {
                if w < e {
                    proof { lemma_views_push(v@, x); }
                    v.push(x);
                    pos = e;
                } else {
                    return (pos, v);
                }
            },
            None => {
                return (pos, v);
            },
        }
    }
}

/// Reads a sub sub section heading, the statements under it.
pub fn sub_sub_section<'a>(input: &'a [u8]) -> (r: Result<(&'a [u8], SubSubSection<'a>), ParseError<'a>>)
    ensures
        outcome(input, r, part_at(input@, 0, 3, true)),
{
    match sub_sub_section_from(input, 0, true) {
        Some((e, x)) => Ok((rest_from(input, e), x)),
        None => Err(ParseError { input }),
    }
}

/// Reads a whole document, opening untitled parents for headings met before their level's
/// parent. It always succeeds; what cannot be read is handed back.
pub fn document<'a>(input: &'a [u8]) -> (r: Result<(&'a [u8], Document<'a>), ParseError<'a>>)
    ensures
        document_outcome(input, HeadingPolicy::ImplicitParents, r),
{
    document_with(input, HeadingPolicy::ImplicitParents)
}

/// Reads a whole document: leading statements, then major parts, with `policy` deciding what
/// a heading met before its level's parent does.
pub fn document_with<'a>(input: &'a [u8], policy: HeadingPolicy) -> (r: Result<
    (&'a [u8], Document<'a>),
    ParseError<'a>,
>)
    ensures
        document_outcome(input, policy, r),
{
    let implicit = match policy {
        HeadingPolicy::ImplicitParents => true,
        HeadingPolicy::Reject => false,
    };
    let (c, statements) = statement_list_from(input, 0);
    let (e, parts) = major_parts_from(input, c, implicit);
    let w = skip_space(input, e);
    if !implicit && (heading_from(input, w, HASH, HASH).is_some() || heading_from(
        input,
        w,
        STAR,
        HASH,
    ).is_some() || heading_from(input, w, DASH, EQUALS).is_some() || heading_from(
        input,
        w,
        DOT,
        DASH,
    ).is_some()) {
        return Err(ParseError { input: rest_from(input, w) });
    }
    Ok((rest_from(input, e), Document::new((statements, parts))))
}

impl<'a> Document<'a> {
    pub fn new(parts: (Vec<Statement<'a>>, Vec<MajorPart<'a>>)) -> (r: Self)
        ensures
            r.statements == parts.0 && r.major_parts == parts.1,
    {
        let (statements, major_parts) = parts;
        Self { statements, major_parts }
    }
}

impl<'a> MajorPart<'a> {
    pub fn new(
        parts: ((AsciiSequence<'a>, AsciiSequence<'a>), Vec<Statement<'a>>, Vec<Section<'a>>),
    ) -> (r: Self)
        ensures
            r.title == parts.0.0 && r.heading_comments == parts.0.1 && r.statements == parts.1
                && r.sections == parts.2,
    {
        let ((title, heading_comments), statements, sections) = parts;
        Self { title, heading_comments, statements, sections }
    }
}

impl<'a> Section<'a> {
    pub fn new(
        parts: ((AsciiSequence<'a>, AsciiSequence<'a>), Vec<Statement<'a>>, Vec<SubSection<'a>>),
    ) -> (r: Self)
        ensures
            r.title == parts.0.0 && r.heading_comments == parts.0.1 && r.statements == parts.1
                && r.subsections == parts.2,
    {
        let ((title, heading_comments), statements, subsections) = parts;
        Self { title, heading_comments, statements, subsections }
    }
}

impl<'a> SubSection<'a> {
    pub fn new(
        parts: ((AsciiSequence<'a>, AsciiSequence<'a>), Vec<Statement<'a>>, Vec<SubSubSection<'a>>),
    ) -> (r: Self)
        ensures
            r.title == parts.0.0 && r.heading_comments == parts.0.1 && r.statements == parts.1
                && r.subsubsections == parts.2,
    {
        let ((title, heading_comments), statements, subsubsections) = parts;
        Self { title, heading_comments, statements, subsubsections }
    }
}

impl<'a> SubSubSection<'a> {
    pub fn new(parts: ((AsciiSequence<'a>, AsciiSequence<'a>), Vec<Statement<'a>>)) -> (r: Self)
        ensures
            r.title == parts.0.0 && r.heading_comments == parts.0.1 && r.statements == parts.1,
    {
        let ((title, heading_comments), statements) = parts;
        Self { title, heading_comments, statements }
    }
}

// ----- writing a document back out -----

/// A delimiter line of three bytes: outer, inner, outer.
pub open spec fn delimiter_line(d: (u8, u8)) -> Seq<u8> {
    seq![d.1, d.0, d.1]
}

/// `$( `, a delimiter line, the title on a line of its own, the delimiter line again, the
/// text, and ` $)`.
pub open spec fn heading_text(d: (u8, u8), title: Seq<u8>, text: Seq<u8>) -> Seq<u8> {
    seq![DOLLAR, OPEN_PAREN, SPACE] + delimiter_line(d) + seq![NEWLINE] + title + seq![NEWLINE]
        + delimiter_line(d) + seq![SPACE] + text + seq![SPACE, DOLLAR, CLOSE_PAREN]
}

/// A title that a heading carries unchanged: one line, not empty, no whitespace at either
/// end, and not starting with `#`.
pub open spec fn writable_title(t: Seq<u8>) -> bool {
    &&& t.len() >= 1
    &&& forall|i: int| 0 <= i < t.len() ==> #[trigger] t[i] != NEWLINE
    &&& !is_space(t[0]) && !is_space(t[t.len() - 1])
    &&& t[0] != HASH
}

/// Heading text that a heading carries unchanged: no whitespace at either end, no `$)`.
pub open spec fn writable_text(b: Seq<u8>) -> bool {
    &&& b.len() == 0 || (!is_space(b[0]) && !is_space(b[b.len() - 1]))
    &&& forall|i: int| 0 <= i < b.len() - 1 ==> !(#[trigger] b[i] == DOLLAR && b[i + 1] == CLOSE_PAREN)
}

/// A unit of level `l` written out: its heading, its statements, then its units, each
/// statement and unit after one space.
pub open spec fn part_text(p: PartModel, l: int) -> Seq<u8>
    decreases p, 0int,
{
    heading_text(level_delimiters(l), p.title, p.text) + statements_text(p.statements, 0)
        + parts_text(p.parts, 0, l + 1)
}

/// The units `ps[i..]` of level `l` written out, each after one space.
pub open spec fn parts_text(ps: Seq<PartModel>, i: int, l: int) -> Seq<u8>
    decreases ps, ps.len() - i,
{
    if 0 <= i < ps.len() {
        seq![SPACE] + part_text(ps[i], l) + parts_text(ps, i + 1, l)
    } else {
        Seq::empty()
    }
}

/// A unit of level `l` that `part_text` writes out faithfully.
pub open spec fn writable_part(p: PartModel, l: int) -> bool
    decreases p,
{
    &&& 0 <= l <= 3
    &&& writable_title(p.title)
    &&& writable_text(p.text)
    &&& forall|i: int| 0 <= i < p.statements.len() ==> writable_statement(#[trigger] p.statements[i])
    &&& l == 3 ==> p.parts.len() == 0
    &&& forall|i: int| 0 <= i < p.parts.len() ==> writable_part(#[trigger] p.parts[i], l + 1)
}

/// A document written out: its leading statements, then its major parts, each after one
/// space.
pub open spec fn document_text(d: DocumentModel) -> Seq<u8> {
    statements_text(d.statements, 0) + parts_text(d.parts, 0, 0)
}

/// Nothing that a list of units deeper than `l`, or of statements, could take up starts at
/// the first non-blank byte from `x`.
pub open spec fn closes(s: Seq<u8>, x: int, l: int, implicit: bool) -> bool {
    &&& statement_at(s, ws_end(s, x)) is None
    &&& forall|k: int| l < k <= 3 ==> #[trigger] part_at(s, ws_end(s, x), k, implicit) is None
}

pub proof fn lemma_stands_at_split(s: Seq<u8>, o: int, a: Seq<u8>, b: Seq<u8>)
    requires
        stands_at(s, o, a + b),
    ensures
        stands_at(s, o, a),
        stands_at(s, o + a.len(), b),
{
    lemma_stands_at_bytes(s, o, a + b);
    assert(s.subrange(o, o + a.len()) =~= a) by {
        assert forall|j: int| 0 <= j < a.len() implies s.subrange(o, o + a.len())[j] == a[j] by {
            assert(s[o + j] == (a + b)[j]);
        }
    }
    assert(s.subrange(o + a.len(), o + a.len() + b.len()) =~= b) by {
        assert forall|j: int| 0 <= j < b.len() implies s.subrange(
            o + a.len(),
            o + a.len() + b.len(),
        )[j] == b[j] by {
            assert(s[o + a.len() + j] == (a + b)[a.len() + j]);
        }
    }
}

proof fn lemma_find_close_exact(s: Seq<u8>, p: int, c: int)
    requires
        0 <= p <= c,
        c + 1 < s.len(),
        s[c] == DOLLAR && s[c + 1] == CLOSE_PAREN,
        forall|i: int| p <= i < c ==> !(#[trigger] s[i] == DOLLAR && s[i + 1] == CLOSE_PAREN),
    ensures
        find_close(s, p) == Some(c),
    decreases c - p,
{
    if p < c {
        lemma_find_close_exact(s, p + 1, c);
    }
}

proof fn lemma_trim_end_exact(s: Seq<u8>, lo: int, hi: int, e: int)
    requires
        lo <= e <= hi <= s.len(),
        0 <= lo,
        forall|i: int| e <= i < hi ==> is_space(#[trigger] s[i]),
        e == lo || !is_space(s[e - 1]),
    ensures
        trim_end(s, lo, hi) == e,
    decreases hi - lo,
{
    if e < hi {
        lemma_trim_end_exact(s, lo, hi - 1, e);
    }
}

#[verifier::rlimit(60)]
proof fn lemma_heading_text_at(s: Seq<u8>, o: int, l: int, title: Seq<u8>, text: Seq<u8>)
    requires
        0 <= l <= 3,
        writable_title(title),
        writable_text(text),
        stands_at(s, o, heading_text(level_delimiters(l), title, text)),
    ensures
        heading_at(s, o, level_delimiters(l)) == Some(
            (o + heading_text(level_delimiters(l), title, text).len(), (title, text)),
        ),
        forall|k: int| 0 <= k <= 3 && k != l ==> #[trigger] heading_at(s, o, level_delimiters(k)) is None,
{
    let d = level_delimiters(l);
    let h = heading_text(d, title, text);
    let tl = title.len() as int;
    let xl = text.len() as int;
    lemma_stands_at_bytes(s, o, h);
    let a = o + 3;
    assert(s[o] == DOLLAR && s[o + 1] == OPEN_PAREN && s[o + 2] == SPACE) by {
        assert(s[o] == h[0]);
        assert(s[o + 1] == h[1]);
        assert(s[o + 2] == h[2]);
    }
    assert(s[a] == d.1 && s[a + 1] == d.0 && s[a + 2] == d.1 && s[a + 3] == NEWLINE) by {
        assert(s[a] == h[3]);
        assert(s[a + 1] == h[4]);
        assert(s[a + 2] == h[5]);
        assert(s[a + 3] == h[6]);
    }
    let t0 = a + 4;
    assert forall|j: int| 0 <= j < tl implies s[t0 + j] == #[trigger] title[j] by {
        assert(s[t0 + j] == h[7 + j]);
    }
    let t1 = t0 + tl;
    let b = t1 + 1;
    assert(s[t1] == NEWLINE && s[b] == d.1 && s[b + 1] == d.0 && s[b + 2] == d.1 && s[b + 3]
        == SPACE) by {
        assert(s[t1] == h[7 + tl]);
        assert(s[b] == h[8 + tl]);
        assert(s[b + 1] == h[9 + tl]);
        assert(s[b + 2] == h[10 + tl]);
        assert(s[b + 3] == h[11 + tl]);
    }
    let x0 = b + 4;
    assert forall|j: int| 0 <= j < xl implies s[x0 + j] == #[trigger] text[j] by {
        assert(s[x0 + j] == h[12 + tl + j]);
    }
    let c = x0 + xl + 1;
    assert(s[x0 + xl] == SPACE && s[c] == DOLLAR && s[c + 1] == CLOSE_PAREN) by {
        assert(s[x0 + xl] == h[12 + tl + xl]);
        assert(s[c] == h[13 + tl + xl]);
        assert(s[c + 1] == h[14 + tl + xl]);
    }
    assert(h.len() == 15 + tl + xl);
    // the heading's own level
    lemma_run_end_exact(s, o + 2, a, ByteClass::Space);
    assert(delimiter_end(s, a + 3, d.0, d.1) == a + 3);
    assert(delimiter_end(s, a + 2, d.1, d.0) == a + 3);
    assert(delimiter_end(s, a + 1, d.0, d.1) == a + 3);
    assert(delimiter_end(s, a, d.1, d.0) == a + 3);
    lemma_run_end_exact(s, a + 3, t0, ByteClass::Space);
    assert forall|i: int| t0 <= i < t1 implies in_class(ByteClass::NotNewline, #[trigger] s[i]) by {
        assert(s[t0 + (i - t0)] == title[i - t0]);
    }
    lemma_run_end_exact(s, t0, t1, ByteClass::NotNewline);
    assert(s[t1 - 1] == title[tl - 1]);
    lemma_trim_end_exact(s, t0, t1, t1);
    assert(s.subrange(t0, t1) =~= title);
    lemma_run_end_exact(s, t1, b, ByteClass::Space);
    assert(delimiter_end(s, b + 3, d.0, d.1) == b + 3);
    assert(delimiter_end(s, b + 2, d.1, d.0) == b + 3);
    assert(delimiter_end(s, b + 1, d.0, d.1) == b + 3);
    assert(delimiter_end(s, b, d.1, d.0) == b + 3);
    assert(delimited_title_at(s, a, d) == Some((b + 3, title)));
    if xl == 0 {
        lemma_run_end_exact(s, b + 3, c, ByteClass::Space);
        lemma_find_close_exact(s, c, c);
        lemma_trim_end_exact(s, c, c, c);
        assert(s.subrange(c, c) =~= text);
    } else {
        assert(s[x0] == text[0]);
        lemma_run_end_exact(s, b + 3, x0, ByteClass::Space);
        assert forall|i: int| x0 <= i < c implies !(#[trigger] s[i] == DOLLAR && s[i + 1]
            == CLOSE_PAREN) by {
            if i < x0 + xl - 1 {
                assert(s[x0 + (i - x0)] == text[i - x0]);
                assert(s[x0 + (i - x0 + 1)] == text[i - x0 + 1]);
            } else if i == x0 + xl - 1 {
                assert(s[i + 1] == SPACE);
            }
        }
        lemma_find_close_exact(s, x0, c);
        assert(s[x0 + xl - 1] == text[xl - 1]);
        lemma_trim_end_exact(s, x0, c, x0 + xl);
        assert(s.subrange(x0, x0 + xl) =~= text);
    }
    // other levels
    assert forall|k: int| 0 <= k <= 3 && k != l implies #[trigger] heading_at(
        s,
        o,
        level_delimiters(k),
    ) is None by {
        let e = level_delimiters(k);
        if e.1 != d.1 {
            assert(delimiter_end(s, a, e.1, e.0) == a);
        } else {
            assert(delimiter_end(s, a + 1, e.0, e.1) == a + 1);
            assert(delimiter_end(s, a, e.1, e.0) == a + 1);
            lemma_run_end_exact(s, a + 1, a + 1, ByteClass::Space);
            assert(s[a + 2] != NEWLINE);
            assert(run_end(s, a + 1, ByteClass::NotNewline) == a + 3) by {
                lemma_run_end_exact(s, a + 1, a + 3, ByteClass::NotNewline);
            }
            lemma_run_end_exact(s, a + 3, t0, ByteClass::Space);
            assert(s[t0] == title[0]);
            assert(delimiter_end(s, t0, e.1, e.0) == t0);
        }
    }
}

/// What starts a unit written out by `part_text`: its heading, which no statement, comment
/// or unit of a deeper level takes up.
proof fn lemma_part_start(s: Seq<u8>, o: int, p: PartModel, l: int, implicit: bool)
    requires
        writable_part(p, l),
        stands_at(s, o, part_text(p, l)),
    ensures
        statement_at(s, o) is None,
        comment_at(s, o) is None,
        forall|k: int| l < k <= 3 ==> #[trigger] part_at(s, o, k, implicit) is None,
        s[o] == DOLLAR,
        heading_at(s, o, level_delimiters(l)) is Some,
{
    let ht = heading_text(level_delimiters(l), p.title, p.text);
    let rest = statements_text(p.statements, 0) + parts_text(p.parts, 0, l + 1);
    assert(part_text(p, l) =~= ht + rest);
    lemma_stands_at_split(s, o, ht, rest);
    lemma_heading_text_at(s, o, l, p.title, p.text);
    lemma_stands_at_bytes(s, o, ht);
    assert(s[o] == ht[0]);
    assert(s[o + 1] == ht[1]);
    let d = level_delimiters(l);
    assert(heading_at(s, o, d) is Some);
    assert(d == major_part_delimiters() || d == section_delimiters() || d
        == sub_section_delimiters() || d == sub_sub_section_delimiters());
    lemma_heading_is_never_a_comment(s, o);
    lemma_run_end_exact(s, o, o, ByteClass::Label);
    assert(crate::terminals::token_at(s, o, ByteClass::Label) is None);
    assert forall|k: int| l < k <= 3 implies #[trigger] part_at(s, o, k, implicit) is None by {
        assert(heading_at(s, o, level_delimiters(k)) is None);
        assert(!deeper_heading_at(s, o, k));
    }
}

proof fn lemma_parts_text_head(s: Seq<u8>, q: int, ps: Seq<PartModel>, i: int, l: int)
    requires
        0 <= i < ps.len(),
        stands_at(s, q, parts_text(ps, i, l)),
    ensures
        s[q] == SPACE,
        parts_text(ps, i, l).len() == 1 + part_text(ps[i], l).len() + parts_text(ps, i + 1, l).len(),
        stands_at(s, q + 1, part_text(ps[i], l)),
        stands_at(s, q + 1 + part_text(ps[i], l).len(), parts_text(ps, i + 1, l)),
{
    let t = part_text(ps[i], l);
    let r = parts_text(ps, i + 1, l);
    assert(parts_text(ps, i, l) == (seq![SPACE] + t) + r);
    lemma_stands_at_split(s, q, seq![SPACE] + t, r);
    lemma_stands_at_split(s, q, seq![SPACE], t);
    lemma_stands_at_bytes(s, q, seq![SPACE]);
    assert(s[q] == seq![SPACE][0]);
}

proof fn lemma_part_text_at(s: Seq<u8>, o: int, p: PartModel, l: int, implicit: bool)
    requires
        writable_part(p, l),
        stands_at(s, o, part_text(p, l)),
        closes(s, o + part_text(p, l).len(), l, implicit),
    ensures
        part_at(s, o, l, implicit) == Some((o + part_text(p, l).len(), p)),
    decreases part_text(p, l).len(), 1int,
{
    let ht = heading_text(level_delimiters(l), p.title, p.text);
    let st = statements_text(p.statements, 0);
    let pt = parts_text(p.parts, 0, l + 1);
    assert(part_text(p, l) == (ht + st) + pt);
    lemma_stands_at_split(s, o, ht + st, pt);
    lemma_stands_at_split(s, o, ht, st);
    lemma_heading_text_at(s, o, l, p.title, p.text);
    let e = o + ht.len();
    let y = e + st.len();
    if p.parts.len() > 0 {
        lemma_parts_text_head(s, y, p.parts, 0, l + 1);
        lemma_part_start(s, y + 1, p.parts[0], l + 1, implicit);
        lemma_run_end_exact(s, y, y + 1, ByteClass::Space);
    } else {
        assert(pt.len() == 0);
    }
    assert(statement_at(s, ws_end(s, y)) is None);
    lemma_statements_laid_out(s, e, p.statements, 0, Seq::empty());
    assert(Seq::<crate::statement::StatementModel>::empty() + p.statements.subrange(
        0,
        p.statements.len() as int,
    ) =~= p.statements);
    if l < 3 {
        lemma_parts_laid_out(s, y, p.parts, 0, l + 1, Seq::empty(), implicit);
        assert(Seq::<PartModel>::empty() + p.parts.subrange(0, p.parts.len() as int) =~= p.parts);
    } else {
        assert(p.parts =~= Seq::<PartModel>::empty());
    }
}

pub proof fn lemma_parts_laid_out(
    s: Seq<u8>,
    q: int,
    ps: Seq<PartModel>,
    i: int,
    l: int,
    acc: Seq<PartModel>,
    implicit: bool,
)
    requires
        0 <= l <= 3,
        0 <= i <= ps.len(),
        forall|j: int| 0 <= j < ps.len() ==> writable_part(#[trigger] ps[j], l),
        stands_at(s, q, parts_text(ps, i, l)),
        closes(s, q + parts_text(ps, i, l).len(), l - 1, implicit),
    ensures
        parts_more(s, q, l, acc, implicit) == (
            q + parts_text(ps, i, l).len(),
            acc + ps.subrange(i, ps.len() as int),
        ),
    decreases parts_text(ps, i, l).len(), 2int,
{
    if i == ps.len() {
        lemma_run_end(s, q, ByteClass::Space);
        assert(part_at(s, ws_end(s, q), l, implicit) is None);
        assert(acc + ps.subrange(i, ps.len() as int) =~= acc);
    } else {
        let t = part_text(ps[i], l);
        lemma_parts_text_head(s, q, ps, i, l);
        lemma_part_start(s, q + 1, ps[i], l, implicit);
        lemma_run_end_exact(s, q, q + 1, ByteClass::Space);
        let x = q + 1 + t.len();
        if i + 1 < ps.len() {
            lemma_parts_text_head(s, x, ps, i + 1, l);
            lemma_part_start(s, x + 1, ps[i + 1], l, implicit);
            lemma_run_end_exact(s, x, x + 1, ByteClass::Space);
        } else {
            assert(parts_text(ps, i + 1, l).len() == 0);
        }
        assert(closes(s, x, l, implicit));
        lemma_part_text_at(s, q + 1, ps[i], l, implicit);
        lemma_parts_laid_out(s, x, ps, i + 1, l, acc.push(ps[i]), implicit);
        assert(acc.push(ps[i]) + ps.subrange(i + 1, ps.len() as int) =~= acc + ps.subrange(
            i,
            ps.len() as int,
        ));
    }
}

/// A document written back out from its tree (its leading statements, then its major parts,
/// each heading with its title and text, the statements and the units under it, one space
/// apart) reads back as the same tree under either heading policy, and the whole text is
/// consumed. Its statements are declarations, hypotheses, axioms and blocks of them; its
/// titles are single lines that do not start with `#`, and no heading text holds `$)`.
#[verifier::rlimit(80)]
pub proof fn lemma_document_round_trip(d: DocumentModel, implicit: bool)
    requires
        forall|i: int| 0 <= i < d.statements.len() ==> writable_statement(#[trigger] d.statements[i]),
        forall|i: int| 0 <= i < d.parts.len() ==> writable_part(#[trigger] d.parts[i], 0),
    ensures
        document_at(document_text(d), implicit) == (document_text(d).len() as int, d),
        !heading_comment_at(document_text(d), ws_end(document_text(d), document_text(d).len() as int)),
{
    let s = document_text(d);
    let n = s.len() as int;
    let st = statements_text(d.statements, 0);
    let pt = parts_text(d.parts, 0, 0);
    let c = st.len() as int;
    assert(s.subrange(0, n) =~= s);
    lemma_stands_at_split(s, 0, st, pt);
    lemma_run_end_exact(s, n, n, ByteClass::Space);
    lemma_run_end_exact(s, n, n, ByteClass::Label);
    assert(statement_at(s, n) is None);
    assert(closes(s, n, -1, implicit));
    if d.parts.len() > 0 {
        lemma_parts_text_head(s, c, d.parts, 0, 0);
        lemma_part_start(s, c + 1, d.parts[0], 0, implicit);
        lemma_run_end_exact(s, c, c + 1, ByteClass::Space);
    } else {
        assert(pt.len() == 0);
    }
    assert(statement_at(s, ws_end(s, c)) is None);
    lemma_statements_laid_out(s, 0, d.statements, 0, Seq::empty());
    assert(Seq::<crate::statement::StatementModel>::empty() + d.statements.subrange(
        0,
        d.statements.len() as int,
    ) =~= d.statements);
    assert(statements_more(s, 0, Seq::empty()) == (c, d.statements));
    lemma_parts_laid_out(s, c, d.parts, 0, 0, Seq::empty(), implicit);
    assert(Seq::<PartModel>::empty() + d.parts.subrange(0, d.parts.len() as int) =~= d.parts);
    assert(c + pt.len() == n);
    assert(parts_more(s, c, 0, Seq::empty(), implicit) == (n, d.parts));
    assert(!heading_comment_at(s, n)) by {
        assert(!pair_at(s, n, DOLLAR, OPEN_PAREN));
    }
}

// ----- a major-part heading opens the tree -----

proof fn lemma_statements_more_bounds(s: Seq<u8>, p: int, acc: Seq<StatementModel>)
    requires
        0 <= p <= s.len(),
    ensures
        p <= statements_more(s, p, acc).0 <= s.len(),
    decreases s.len() - p,
{
    lemma_run_end(s, p, ByteClass::Space);
    let w = ws_end(s, p);
    if let Some((e, m)) = statement_at(s, w) {
        if w < e <= s.len() {
            lemma_statements_more_bounds(s, e, acc.push(m));
        }
    }
}

proof fn lemma_parts_more_bounds(s: Seq<u8>, p: int, l: int, acc: Seq<PartModel>, implicit: bool)
    requires
        0 <= p <= s.len(),
    ensures
        p <= parts_more(s, p, l, acc, implicit).0 <= s.len(),
        parts_more(s, p, l, acc, implicit).1.len() >= acc.len(),
        forall|i: int| 0 <= i < acc.len() ==> parts_more(s, p, l, acc, implicit).1[i] == acc[i],
    decreases s.len() - p,
{
    lemma_run_end(s, p, ByteClass::Space);
    let w = ws_end(s, p);
    if 0 <= l <= 3 {
        if let Some((e, m)) = part_at(s, w, l, implicit) {
            if w < e <= s.len() {
                lemma_parts_more_bounds(s, e, l, acc.push(m), implicit);
                assert forall|i: int| 0 <= i < acc.len() implies parts_more(
                    s,
                    p,
                    l,
                    acc,
                    implicit,
                ).1[i] == acc[i] by {
                    assert(acc.push(m)[i] == acc[i]);
                }
            }
        }
    }
}

/// Where the first non-blank byte of the input starts a major-part heading, that heading
/// opens the first major part, under its title, and nothing is read before it: no leading
/// statement and no plain comment.
pub proof fn lemma_major_heading_opens_document(s: Seq<u8>, implicit: bool)
    requires
        heading_at(s, ws_end(s, 0), major_part_delimiters()) is Some,
    ensures
        document_at(s, implicit).1.statements.len() == 0,
        document_at(s, implicit).1.parts.len() >= 1,
        document_at(s, implicit).1.parts[0].title == heading_at(
            s,
            ws_end(s, 0),
            major_part_delimiters(),
        )->Some_0.1.0,
{
    let w = ws_end(s, 0);
    lemma_run_end(s, 0, ByteClass::Space);
    let (e, (title, text)) = heading_at(s, w, major_part_delimiters())->Some_0;
    assert(pair_at(s, w, DOLLAR, OPEN_PAREN));
    assert(w < e <= s.len()) by {
        lemma_run_end(s, w + 2, ByteClass::Space);
        let a = ws_end(s, w + 2);
        lemma_delimiter_end(s, a, HASH, HASH);
        let d1 = delimiter_end(s, a, HASH, HASH);
        lemma_run_end(s, d1, ByteClass::Space);
        let t0 = ws_end(s, d1);
        lemma_run_end(s, t0, ByteClass::NotNewline);
        let t1 = run_end(s, t0, ByteClass::NotNewline);
        lemma_run_end(s, t1, ByteClass::Space);
        let b = ws_end(s, t1);
        lemma_delimiter_end(s, b, HASH, HASH);
        let d2 = delimiter_end(s, b, HASH, HASH);
        lemma_run_end(s, d2, ByteClass::Space);
        lemma_find_close(s, ws_end(s, d2));
    }
    lemma_heading_is_never_a_comment(s, w);
    lemma_run_end_exact(s, w, w, ByteClass::Label);
    assert(crate::terminals::token_at(s, w, ByteClass::Label) is None);
    assert(statement_at(s, w) is None);
    assert(statements_more(s, 0, Seq::empty()) == (0int, Seq::<StatementModel>::empty()));
    lemma_statements_more_bounds(s, e, Seq::empty());
    let q = statements_more(s, e, Seq::empty()).0;
    lemma_parts_more_bounds(s, q, 1, Seq::empty(), implicit);
    let (r, m) = part_at(s, w, 0, implicit)->Some_0;
    assert(w < r <= s.len());
    assert(m.title == title);
    lemma_parts_more_bounds(s, r, 0, seq![m], implicit);
    assert(parts_more(s, 0, 0, Seq::empty(), implicit) == parts_more(
        s,
        r,
        0,
        Seq::empty().push(m),
        implicit,
    ));
    assert(Seq::<PartModel>::empty().push(m) =~= seq![m]);
    let ps = parts_more(s, r, 0, seq![m], implicit).1;
    assert(ps[0] == seq![m][0]);
    assert(document_at(s, implicit).1.parts == ps);
    assert(m.title == heading_at(s, w, major_part_delimiters())->Some_0.1.0);
}

} // verus!
