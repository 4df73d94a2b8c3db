//! Attributions inside comments.
use vstd::prelude::*;

use crate::{
    byte_at, has_byte, rest_from, run_end, scan_run, view_of, AsciiSequence, ByteClass,
    ParseError, CLOSE_PAREN, OPEN_PAREN,
};

verus! {

#[derive(Debug)]
pub struct AdditionalInformationComment<'a>(pub AsciiSequence<'a>);

#[derive(Debug)]
pub struct TypesettingComment<'a>(pub AsciiSequence<'a>);

#[derive(Debug)]
pub struct TitleComment<'a>(pub AsciiSequence<'a>);

#[derive(Debug)]
pub struct DescriptionComment<'a>(pub AsciiSequence<'a>);

/// An attribution in parentheses inside a comment.
#[derive(Debug, PartialEq, Eq)]
pub enum AuthorComment<'a> {
    ContributedBy(AsciiSequence<'a>),
    ProofShortenedBy(AsciiSequence<'a>),
}

pub enum AuthorModel {
    ContributedBy(Seq<u8>),
    ProofShortenedBy(Seq<u8>),
}

impl<'a> View for AuthorComment<'a> {
    type V = AuthorModel;

    open spec fn view(&self) -> AuthorModel {
        match self {
            AuthorComment::ContributedBy(x) => AuthorModel::ContributedBy(x@),
            AuthorComment::ProofShortenedBy(x) => AuthorModel::ProofShortenedBy(x@),
        }
    }
}

/// `Contributed by`
pub open spec fn contributed_by() -> Seq<u8> {
    seq![67u8, 111, 110, 116, 114, 105, 98, 117, 116, 101, 100, 32, 98, 121]
}

/// `Proof shortened by`
pub open spec fn proof_shortened_by() -> Seq<u8> {
    seq![80u8, 114, 111, 111, 102, 32, 115, 104, 111, 114, 116, 101, 110, 101, 100, 32, 98, 121]
}

/// `start` at `p`, then everything up to the next `)`; the match includes `start`.
pub open spec fn until_paren_close_at(s: Seq<u8>, p: int, start: Seq<u8>) -> Option<
    (int, Seq<u8>),
> {
    if 0 <= p && p + start.len() <= s.len() && s.subrange(p, p + start.len()) == start {
        let e = run_end(s, p + start.len(), ByteClass::NotCloseParen);
        Some((e, s.subrange(p, e)))
    } else {
        None
    }
}

/// `(`, `Contributed by ...` or `Proof shortened by ...`, `)`.
pub open spec fn author_comment_at(s: Seq<u8>, p: int) -> Option<(int, AuthorModel)> {
    if byte_at(s, p, OPEN_PAREN) {
        match until_paren_close_at(s, p + 1, contributed_by()) {
            Some((e, t)) => if byte_at(s, e, CLOSE_PAREN) {
                Some((e + 1, AuthorModel::ContributedBy(t)))
            } else {
                None
            },
            None => match until_paren_close_at(s, p + 1, proof_shortened_by()) {
                Some((e, t)) => if byte_at(s, e, CLOSE_PAREN) {
                    Some((e + 1, AuthorModel::ProofShortenedBy(t)))
                } else {
                    None
                },
                None => None,
            },
        }
    } else {
        None
    }
}

fn starts_with(input: &[u8], p: usize, start: &[u8]) -> (r: bool)
    requires
        p <= input@.len(),
    ensures
        r == (p + start@.len() <= input@.len() && input@.subrange(
            p as int,
            p + start@.len(),
        ) == start@),
        r ==> p + start@.len() <= input.len(),
{
    if input.len() - p < start.len() {
        return false;
    }
    let mut i: usize = 0;
    while i < start.len()
        invariant
            i <= start@.len(),
            p + start@.len() <= input.len(),
            forall|j: int| 0 <= j < i ==> input@[p + j] == start@[j],
        decreases start@.len() - i,
    {
        if input[p + i] != start[i] {
            proof {
                assert(input@.subrange(p as int, p + start@.len())[i as int] != start@[i as int]);
            }
            return false;
        }
        i = i + 1;
    }
    proof {
        assert(input@.subrange(p as int, p + start@.len()) =~= start@);
    }
    true
}

fn until_paren_close_from<'a>(input: &'a [u8], p: usize, start: &[u8]) -> (r: Option<
    (usize, AsciiSequence<'a>),
>)
    requires
        p <= input@.len(),
    ensures
        crate::agrees(r, until_paren_close_at(input@, p as int, start@)),
        r matches Some((e, _)) ==> p <= e <= input@.len(),
{
    if !starts_with(input, p, start) {
        return None;
    }
    let e = scan_run(input, p + start.len(), ByteClass::NotCloseParen);
    Some((e, view_of(input, p, e)))
}

impl<'a> AuthorComment<'a> {
    /// Reads `(Contributed by ...)` or `(Proof shortened by ...)`.
    pub fn db_parse(input: &'a [u8]) -> (r: Result<(&'a [u8], Self), ParseError<'a>>)
        ensures
            crate::outcome(input, r, author_comment_at(input@, 0)),
    {
        if !has_byte(input, 0, OPEN_PAREN) {
            return Err(ParseError { input });
        }
        let contributed = vec![67u8, 111, 110, 116, 114, 105, 98, 117, 116, 101, 100, 32, 98, 121];
        let shortened = vec![80u8, 114, 111, 111, 102, 32, 115, 104, 111, 114, 116, 101, 110, 101, 100, 32, 98, 121];
        proof {
            assert(contributed@ =~= contributed_by());
            assert(shortened@ =~= proof_shortened_by());
        }
        match until_paren_close_from(input, 1, contributed.as_slice()) {
            Some((e, t)) => {
                if has_byte(input, e, CLOSE_PAREN) {
                    Ok((rest_from(input, e + 1), AuthorComment::ContributedBy(t)))
                } else {
                    Err(ParseError { input })
                }
            },
            None => match until_paren_close_from(input, 1, shortened.as_slice()) {
                Some((e, t)) => {
                    if has_byte(input, e, CLOSE_PAREN) {
                        Ok((rest_from(input, e + 1), AuthorComment::ProofShortenedBy(t)))
                    } else {
                        Err(ParseError { input })
                    }
                },
                None => Err(ParseError { input }),
            },
        }
    }

    /// Reads `start` and everything after it up to the next `)`; the match includes `start`.
    pub fn start_with_until_paren_close(input: &'a [u8], start: &[u8]) -> (r: Result<
        (&'a [u8], AsciiSequence<'a>),
        ParseError<'a>,
    >)
        ensures
            crate::outcome(input, r, until_paren_close_at(input@, 0, start@)),
    {
        match until_paren_close_from(input, 0, start) {
            Some((e, t)) => Ok((rest_from(input, e), t)),
            None => Err(ParseError { input }),
        }
    }
}

} // verus!
