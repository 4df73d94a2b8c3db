//! The nine statement forms, proofs, comments and blocks, and the laws that writing a
//! statement back out reads back as the same statement.
use vstd::prelude::*;

use crate::document::{
    heading_at, heading_from, DASH, EQUALS, HASH, STAR, major_part_delimiters,
    section_delimiters, sub_section_delimiters, sub_sub_section_delimiters,
};
use crate::terminals::{
    compressed_proof_at, compressed_proof_from, label_from, symbol_from, token_at,
    CompressedProof, Label, Symbol,
};
use crate::{
    agrees, byte_at, lemma_run_end, lemma_views_push, find_close, has_byte, has_pair,
    lemma_find_close, outcome, pair_at, rest_from, run_end, scan_close, skip_space, view_of,
    views, ws_end, AsciiSequence, ByteClass, ParseError, CLOSE_PAREN, DOLLAR, DOT, OPEN_PAREN,
    SPACE, label_byte, symbol_byte, in_class, is_space,
};

verus! {

pub const KEY_CONSTANT: u8 = 99;
pub const KEY_VARIABLE: u8 = 118;
pub const KEY_DISJOINT: u8 = 100;
pub const KEY_FLOATING: u8 = 102;
pub const KEY_ESSENTIAL: u8 = 101;
pub const KEY_AXIOM: u8 = 97;
pub const KEY_PROVABLE: u8 = 112;
pub const KEY_PROOF: u8 = 61;
pub const OPEN_BRACE: u8 = 123;
pub const CLOSE_BRACE: u8 = 125;

/// What a proof holds: the label dictionary and the compressed steps.
pub struct ProofModel {
    pub labels: Seq<Seq<u8>>,
    pub steps: Seq<Seq<u8>>,
}

/// What a statement holds, as byte strings.
pub enum StatementModel {
    ConstantDeclaration { symbols: Seq<Seq<u8>> },
    VariableDeclaration { symbols: Seq<Seq<u8>> },
    DisjoinVariableDeclaration { symbols: Seq<Seq<u8>> },
    FloatingHypothesis { label: Seq<u8>, symbols: Seq<Seq<u8>> },
    EssentialHypothesis { label: Seq<u8>, symbols: Seq<Seq<u8>> },
    AxiomaticAssertion { label: Seq<u8>, symbols: Seq<Seq<u8>> },
    ProvableAssertion { label: Seq<u8>, symbols: Seq<Seq<u8>>, proof: ProofModel },
    Block { statements: Seq<StatementModel> },
    Comment { text: Seq<u8> },
}

#[derive(Debug, PartialEq, Eq, Hash)]
pub enum Statement<'a> {
    ConstantDeclaration(ConstantDeclaration<'a>),
    VariableDeclaration(VariableDeclaration<'a>),
    DisjoinVariableDeclaration(DisjoinVariableDeclaration<'a>),
    FloatingHypothesis(FloatingHypothesis<'a>),
    EssentialHypothesis(EssentialHypothesis<'a>),
    AxiomaticAssertion(AxiomaticAssertion<'a>),
    ProvableAssertion(ProvableAssertion<'a>),
    Block(Vec<Box<Statement<'a>>>),
    Comment(Comment<'a>),
}

#[derive(Debug, Clone, PartialEq, Eq, Hash)]
pub struct ConstantDeclaration<'a> {
    pub symbol_list: Vec<Symbol<'a>>,
}

#[derive(Debug, Clone, PartialEq, Eq, Hash)]
pub struct VariableDeclaration<'a> {
    pub symbol_list: Vec<Symbol<'a>>,
}

#[derive(Debug, Clone, PartialEq, Eq, Hash)]
pub struct DisjoinVariableDeclaration<'a> {
    pub symbol_list: Vec<Symbol<'a>>,
}

#[derive(Debug, Clone, PartialEq, Eq, Hash)]
pub struct FloatingHypothesis<'a> {
    pub label: Label<'a>,
    pub symbol_list: Vec<Symbol<'a>>,
}

#[derive(Debug, Clone, PartialEq, Eq, Hash)]
pub struct EssentialHypothesis<'a> {
    pub label: Label<'a>,
    pub symbol_list: Vec<Symbol<'a>>,
}

#[derive(Debug, Clone, PartialEq, Eq, Hash)]
pub struct AxiomaticAssertion<'a> {
    pub label: Label<'a>,
    pub symbol_list: Vec<Symbol<'a>>,
}

#[derive(Debug, Clone, PartialEq, Eq, Hash)]
pub struct ProvableAssertion<'a> {
    pub label: Label<'a>,
    pub symbol_list: Vec<Symbol<'a>>,
    pub proof: Proof<'a>,
}

#[derive(Debug, Clone, PartialEq, Eq, Hash)]
pub struct Proof<'a> {
    pub labels: Vec<Label<'a>>,
    pub compressed_proofs: Vec<CompressedProof<'a>>,
}

#[derive(Debug, Clone, PartialEq, Eq, Hash)]
pub struct Comment<'a> {
    pub comment: AsciiSequence<'a>,
}

impl<'a> View for ConstantDeclaration<'a> {
    type V = StatementModel;

    open spec fn view(&self) -> StatementModel {
        StatementModel::ConstantDeclaration { symbols: views(self.symbol_list@) }
    }
}

impl<'a> View for VariableDeclaration<'a> {
    type V = StatementModel;

    open spec fn view(&self) -> StatementModel {
        StatementModel::VariableDeclaration { symbols: views(self.symbol_list@) }
    }
}

impl<'a> View for DisjoinVariableDeclaration<'a> {
    type V = StatementModel;

    open spec fn view(&self) -> StatementModel {
        StatementModel::DisjoinVariableDeclaration { symbols: views(self.symbol_list@) }
    }
}

impl<'a> View for FloatingHypothesis<'a> {
    type V = StatementModel;

    open spec fn view(&self) -> StatementModel {
        StatementModel::FloatingHypothesis { label: self.label@, symbols: views(self.symbol_list@) }
    }
}

impl<'a> View for EssentialHypothesis<'a> {
    type V = StatementModel;

    open spec fn view(&self) -> StatementModel {
        StatementModel::EssentialHypothesis {
            label: self.label@,
            symbols: views(self.symbol_list@),
        }
    }
}

impl<'a> View for AxiomaticAssertion<'a> {
    type V = StatementModel;

    open spec fn view(&self) -> StatementModel {
        StatementModel::AxiomaticAssertion { label: self.label@, symbols: views(self.symbol_list@) }
    }
}

impl<'a> View for ProvableAssertion<'a> {
    type V = StatementModel;

    open spec fn view(&self) -> StatementModel {
        StatementModel::ProvableAssertion {
            label: self.label@,
            symbols: views(self.symbol_list@),
            proof: self.proof@,
        }
    }
}

impl<'a> View for Proof<'a> {
    type V = ProofModel;

    open spec fn view(&self) -> ProofModel {
        ProofModel { labels: views(self.labels@), steps: views(self.compressed_proofs@) }
    }
}

impl<'a> View for Comment<'a> {
    type V = StatementModel;

    open spec fn view(&self) -> StatementModel {
        StatementModel::Comment { text: self.comment@ }
    }
}

impl<'a> View for Statement<'a> {
    type V = StatementModel;

    open spec fn view(&self) -> StatementModel
        decreases self,
    {
        match self {
            Statement::ConstantDeclaration(x) => x@,
            Statement::VariableDeclaration(x) => x@,
            Statement::DisjoinVariableDeclaration(x) => x@,
            Statement::FloatingHypothesis(x) => x@,
            Statement::EssentialHypothesis(x) => x@,
            Statement::AxiomaticAssertion(x) => x@,
            Statement::ProvableAssertion(x) => x@,
            Statement::Block(v) => StatementModel::Block {
                statements: Seq::new(
                    v@.len(),
                    |i: int|
                        {
                            if 0 <= i < v@.len() {
                                proof {
                                    broadcast use vstd::std_specs::vec::axiom_vec_index_decreases;
                                }
                                (*v@[i]).view()
                            } else {
                                StatementModel::Block { statements: Seq::empty() }
                            }
                        },
                ),
            },
            Statement::Comment(x) => x@,
        }
    }
}

impl<'a> Clone for Statement<'a> {
    fn clone(&self) -> Self {
        clone_statement(self)
    }
}

/// A copy of `st`, its nested blocks copied one child at a time.
fn clone_statement<'a>(st: &Statement<'a>) -> Statement<'a>
    decreases st,
{
    match st {
        Statement::ConstantDeclaration(x) => Statement::ConstantDeclaration(x.clone()),
        Statement::VariableDeclaration(x) => Statement::VariableDeclaration(x.clone()),
        Statement::DisjoinVariableDeclaration(x) => Statement::DisjoinVariableDeclaration(x.clone()),
        Statement::FloatingHypothesis(x) => Statement::FloatingHypothesis(x.clone()),
        Statement::EssentialHypothesis(x) => Statement::EssentialHypothesis(x.clone()),
        Statement::AxiomaticAssertion(x) => Statement::AxiomaticAssertion(x.clone()),
        Statement::ProvableAssertion(x) => Statement::ProvableAssertion(x.clone()),
        Statement::Block(children) => Statement::Block(clone_children(children)),
        Statement::Comment(x) => Statement::Comment(x.clone()),
    }
}

fn clone_children<'a>(children: &Vec<Box<Statement<'a>>>) -> Vec<Box<Statement<'a>>>
    decreases children,
{
    let mut out: Vec<Box<Statement<'a>>> = Vec::new();
    let mut i: usize = 0;
    while i < children.len()
        decreases children@.len() - i,
    {
        proof {
            broadcast use vstd::std_specs::vec::axiom_vec_index_decreases;
        }
        out.push(Box::new(clone_statement(&children[i])));
        i = i + 1;
    }
    out
}

// ----- the grammar, over the bytes `s` from offset `p` -----

/// More symbols, each after mandatory whitespace, appended to `acc`.
pub open spec fn symbols_more(s: Seq<u8>, p: int, acc: Seq<Seq<u8>>) -> (int, Seq<Seq<u8>>)
    decreases s.len() - p,
{
    let w = ws_end(s, p);
    let e = run_end(s, w, ByteClass::Symbol);
    if p < w && w < e && e <= s.len() {
        symbols_more(s, e, acc.push(s.subrange(w, e)))
    } else {
        (p, acc)
    }
}

/// One or more symbols separated by whitespace.
pub open spec fn symbol_list_at(s: Seq<u8>, p: int) -> Option<(int, Seq<Seq<u8>>)> {
    match token_at(s, p, ByteClass::Symbol) {
        Some((e, t)) => Some(symbols_more(s, e, seq![t])),
        None => None,
    }
}

/// `$k`, whitespace, symbols, whitespace, `$.`.
pub open spec fn keyword_body_at(s: Seq<u8>, p: int, k: u8) -> Option<(int, Seq<Seq<u8>>)> {
    if pair_at(s, p, DOLLAR, k) && p + 2 < ws_end(s, p + 2) {
        match symbol_list_at(s, ws_end(s, p + 2)) {
            Some((q, syms)) => {
                let t = ws_end(s, q);
                if q < t && pair_at(s, t, DOLLAR, DOT) {
                    Some((t + 2, syms))
                } else {
                    None
                }
            },
            None => None,
        }
    } else {
        None
    }
}

/// A label, whitespace, then `keyword_body_at` with `k`.
pub open spec fn labelled_body_at(s: Seq<u8>, p: int, k: u8) -> Option<
    (int, (Seq<u8>, Seq<Seq<u8>>)),
> {
    match token_at(s, p, ByteClass::Label) {
        Some((l, lab)) => if l < ws_end(s, l) {
            match keyword_body_at(s, ws_end(s, l), k) {
                Some((e, syms)) => Some((e, (lab, syms))),
                None => None,
            }
        } else {
            None
        },
        None => None,
    }
}

pub open spec fn constant_declaration_at(s: Seq<u8>, p: int) -> Option<(int, StatementModel)> {
    match keyword_body_at(s, p, KEY_CONSTANT) {
        Some((e, syms)) => Some((e, StatementModel::ConstantDeclaration { symbols: syms })),
        None => None,
    }
}

pub open spec fn variable_declaration_at(s: Seq<u8>, p: int) -> Option<(int, StatementModel)> {
    match keyword_body_at(s, p, KEY_VARIABLE) {
        Some((e, syms)) => Some((e, StatementModel::VariableDeclaration { symbols: syms })),
        None => None,
    }
}

pub open spec fn disjoin_variable_declaration_at(s: Seq<u8>, p: int) -> Option<
    (int, StatementModel),
> {
    match keyword_body_at(s, p, KEY_DISJOINT) {
        Some((e, syms)) => Some((e, StatementModel::DisjoinVariableDeclaration { symbols: syms })),
        None => None,
    }
}

pub open spec fn floating_hypothesis_at(s: Seq<u8>, p: int) -> Option<(int, StatementModel)> {
    match labelled_body_at(s, p, KEY_FLOATING) {
        Some((e, (l, syms))) => Some(
            (e, StatementModel::FloatingHypothesis { label: l, symbols: syms }),
        ),
        None => None,
    }
}

pub open spec fn essential_hypothesis_at(s: Seq<u8>, p: int) -> Option<(int, StatementModel)> {
    match labelled_body_at(s, p, KEY_ESSENTIAL) {
        Some((e, (l, syms))) => Some(
            (e, StatementModel::EssentialHypothesis { label: l, symbols: syms }),
        ),
        None => None,
    }
}

pub open spec fn axiomatic_assertion_at(s: Seq<u8>, p: int) -> Option<(int, StatementModel)> {
    match labelled_body_at(s, p, KEY_AXIOM) {
        Some((e, (l, syms))) => Some(
            (e, StatementModel::AxiomaticAssertion { label: l, symbols: syms }),
        ),
        None => None,
    }
}

/// More labels of a proof's dictionary, each after mandatory whitespace.
pub open spec fn labels_more(s: Seq<u8>, p: int, acc: Seq<Seq<u8>>) -> (int, Seq<Seq<u8>>)
    decreases s.len() - p,
{
    let w = ws_end(s, p);
    let e = run_end(s, w, ByteClass::Label);
    if p < w && w < e && e <= s.len() {
        labels_more(s, e, acc.push(s.subrange(w, e)))
    } else {
        (p, acc)
    }
}

/// More compressed-proof tokens, each after optional whitespace.
pub open spec fn steps_more(s: Seq<u8>, p: int, acc: Seq<Seq<u8>>) -> (int, Seq<Seq<u8>>)
    decreases s.len() - p,
{
    let w = ws_end(s, p);
    match compressed_proof_at(s, w) {
        Some((e, t)) => if p <= w && w < e && e <= s.len() {
            steps_more(s, e, acc.push(t))
        } else {
            (p, acc)
        },
        None => (p, acc),
    }
}

/// One or more compressed-proof tokens from `w`, each after optional whitespace, with the
/// label dictionary `labels`.
pub open spec fn proof_steps_at(s: Seq<u8>, w: int, labels: Seq<Seq<u8>>) -> Option<
    (int, ProofModel),
> {
    match compressed_proof_at(s, ws_end(s, w)) {
        Some((e, t)) => {
            let (f, steps) = steps_more(s, e, seq![t]);
            Some((f, ProofModel { labels, steps }))
        },
        None => None,
    }
}

/// An optional label dictionary `(` labels `)`, then one or more compressed-proof tokens;
/// without a dictionary the label list is empty.
pub open spec fn proof_at(s: Seq<u8>, p: int) -> Option<(int, ProofModel)> {
    if byte_at(s, p, OPEN_PAREN) {
        let (q, labels) = labels_more(s, p + 1, Seq::empty());
        let r = ws_end(s, q);
        if byte_at(s, r, CLOSE_PAREN) {
            proof_steps_at(s, r + 1, labels)
        } else {
            None
        }
    } else {
        proof_steps_at(s, p, Seq::empty())
    }
}

/// The part of a provable assertion after its label and `$p`: symbols, `$=`, proof, `$.`.
pub open spec fn provable_tail_at(s: Seq<u8>, a: int) -> Option<
    (int, (Seq<Seq<u8>>, ProofModel)),
> {
    match symbol_list_at(s, a) {
        Some((q, syms)) => {
            let b = ws_end(s, q);
            let c = ws_end(s, b + 2);
            if q < b && pair_at(s, b, DOLLAR, KEY_PROOF) && b + 2 < c {
                match proof_at(s, c) {
                    Some((d, pm)) => {
                        let e = ws_end(s, d);
                        if pair_at(s, e, DOLLAR, DOT) {
                            Some((e + 2, (syms, pm)))
                        } else {
                            None
                        }
                    },
                    None => None,
                }
            } else {
                None
            }
        },
        None => None,
    }
}

pub open spec fn provable_assertion_at(s: Seq<u8>, p: int) -> Option<(int, StatementModel)> {
    match token_at(s, p, ByteClass::Label) {
        Some((l, lab)) => {
            let w = ws_end(s, l);
            if l < w && pair_at(s, w, DOLLAR, KEY_PROVABLE) && w + 2 < ws_end(s, w + 2) {
                match provable_tail_at(s, ws_end(s, w + 2)) {
                    Some((e, (syms, pm))) => Some(
                        (e, StatementModel::ProvableAssertion { label: lab, symbols: syms, proof: pm }),
                    ),
                    None => None,
                }
            } else {
                None
            }
        },
        None => None,
    }
}

/// Some heading comment, of any of the four levels, starts at `p`.
pub open spec fn heading_comment_at(s: Seq<u8>, p: int) -> bool {
    heading_at(s, p, major_part_delimiters()) is Some || heading_at(s, p, section_delimiters()) is Some
        || heading_at(s, p, sub_section_delimiters()) is Some || heading_at(
        s,
        p,
        sub_sub_section_delimiters(),
    ) is Some
}

/// `$(`, whitespace, the text up to the first `$)`, then `$)`; never a heading.
pub open spec fn comment_at(s: Seq<u8>, p: int) -> Option<(int, StatementModel)> {
    if !heading_comment_at(s, p) && pair_at(s, p, DOLLAR, OPEN_PAREN) {
        let w = ws_end(s, p + 2);
        match find_close(s, w) {
            Some(c) => Some((c + 2, StatementModel::Comment { text: s.subrange(w, c) })),
            None => None,
        }
    } else {
        None
    }
}

/// Statements, each after optional whitespace, appended to `acc`.
pub open spec fn statements_more(s: Seq<u8>, p: int, acc: Seq<StatementModel>) -> (
    int,
    Seq<StatementModel>,
)
    decreases s.len() - p, 2int,
{
    let w = ws_end(s, p);
    if p <= w <= s.len() {
        match statement_at(s, w) {
            Some((e, m)) => if w < e <= s.len() {
                statements_more(s, e, acc.push(m))
            } else {
                (p, acc)
            },
            None => (p, acc),
        }
    } else {
        (p, acc)
    }
}

/// `${`, statements, optional whitespace, `$}`.
pub open spec fn block_at(s: Seq<u8>, p: int) -> Option<(int, StatementModel)>
    decreases s.len() - p, 0int,
{
    if pair_at(s, p, DOLLAR, OPEN_BRACE) {
        let (q, body) = statements_more(s, p + 2, Seq::empty());
        let w = ws_end(s, q);
        if pair_at(s, w, DOLLAR, CLOSE_BRACE) {
            Some((w + 2, StatementModel::Block { statements: body }))
        } else {
            None
        }
    } else {
        None
    }
}

/// The first of the nine forms that matches at `p`.
pub open spec fn statement_at(s: Seq<u8>, p: int) -> Option<(int, StatementModel)>
    decreases s.len() - p, 1int,
{
    if constant_declaration_at(s, p) is Some {
        constant_declaration_at(s, p)
    } else if variable_declaration_at(s, p) is Some {
        variable_declaration_at(s, p)
    } else if disjoin_variable_declaration_at(s, p) is Some {
        disjoin_variable_declaration_at(s, p)
    } else if floating_hypothesis_at(s, p) is Some {
        floating_hypothesis_at(s, p)
    } else if essential_hypothesis_at(s, p) is Some {
        essential_hypothesis_at(s, p)
    } else if axiomatic_assertion_at(s, p) is Some {
        axiomatic_assertion_at(s, p)
    } else if provable_assertion_at(s, p) is Some {
        provable_assertion_at(s, p)
    } else if block_at(s, p) is Some {
        block_at(s, p)
    } else {
        comment_at(s, p)
    }
}

// ----- the rules, reading `input` from offset `p` -----

fn symbol_list_from<'a>(input: &'a [u8], p: usize) -> (r: Option<(usize, Vec<Symbol<'a>>)>)
    requires
        p <= input@.len(),
    ensures
        match symbol_list_at(input@, p as int) {
            None => r is None,
            Some((e, syms)) => match r {
                Some((q, v)) => q == e && views(v@) == syms && p < q <= input@.len(),
                None => false,
            },
        },
{
    let (e0, first) = match symbol_from(input, p) {
        Some(x) => x,
        None => return None,
    };
    let mut v: Vec<Symbol<'a>> = Vec::new();
    v.push(first);
    proof { assert(views(v@) =~= seq![first@]); }
    let mut pos: usize = e0;
    loop
        invariant
            p < pos <= input@.len(),
            symbols_more(input@, pos as int, views(v@)) == symbols_more(input@, e0 as int, seq![first@]),
            symbol_list_at(input@, p as int) == Some(symbols_more(input@, e0 as int, seq![first@])),
        decreases input@.len() - pos,
    {
        let w = skip_space(input, pos);
        let next = if pos < w { symbol_from(input, w) } else { None };
        match next {
            Some((e, sym)) => {
                proof { lemma_views_push(v@, sym); }
                v.push(sym);
                pos = e;
            },
            None => {
                return Some((pos, v));
            },
        }
    }
}

fn keyword_body_from<'a>(input: &'a [u8], p: usize, k: u8) -> (r: Option<(usize, Vec<Symbol<'a>>)>)
    requires
        p <= input@.len(),
    ensures
        match keyword_body_at(input@, p as int, k) {
            None => r is None,
            Some((e, syms)) => match r {
                Some((q, v)) => q == e && views(v@) == syms && p < q <= input@.len(),
                None => false,
            },
        },
{
    if !has_pair(input, p, DOLLAR, k) {
        return None;
    }
    let a = skip_space(input, p + 2);
    if a == p + 2 {
        return None;
    }
    let (q, syms) = match symbol_list_from(input, a) {
        Some(x) => x,
        None => return None,
    };
    let t = skip_space(input, q);
    if q < t && has_pair(input, t, DOLLAR, DOT) {
        Some((t + 2, syms))
    } else {
        None
    }
}

fn labelled_body_from<'a>(input: &'a [u8], p: usize, k: u8) -> (r: Option<
    (usize, (Label<'a>, Vec<Symbol<'a>>)),
>)
    requires
        p <= input@.len(),
    ensures
        match labelled_body_at(input@, p as int, k) {
            None => r is None,
            Some((e, (l, syms))) => match r {
                Some((q, (lab, v))) => q == e && lab@ == l && views(v@) == syms && p < q
                    <= input@.len(),
                None => false,
            },
        },
{
    let (l, lab) = match label_from(input, p) {
        Some(x) => x,
        None => return None,
    };
    let w = skip_space(input, l);
    if w == l {
        return None;
    }
    match keyword_body_from(input, w, k) {
        Some((e, syms)) => Some((e, (lab, syms))),
        None => None,
    }
}

fn constant_declaration_from<'a>(input: &'a [u8], p: usize) -> (r: Option<
    (usize, ConstantDeclaration<'a>),
>)
    requires
        p <= input@.len(),
    ensures
        agrees(r, constant_declaration_at(input@, p as int)),
        r matches Some((e, _)) ==> p < e <= input@.len(),
{
    match keyword_body_from(input, p, KEY_CONSTANT) {
        Some((e, syms)) => Some((e, ConstantDeclaration::new(syms))),
        None => None,
    }
}

fn variable_declaration_from<'a>(input: &'a [u8], p: usize) -> (r: Option<
    (usize, VariableDeclaration<'a>),
>)
    requires
        p <= input@.len(),
    ensures
        agrees(r, variable_declaration_at(input@, p as int)),
        r matches Some((e, _)) ==> p < e <= input@.len(),
{
    match keyword_body_from(input, p, KEY_VARIABLE) {
        Some((e, syms)) => Some((e, VariableDeclaration::new(syms))),
        None => None,
    }
}

fn disjoin_variable_declaration_from<'a>(input: &'a [u8], p: usize) -> (r: Option<
    (usize, DisjoinVariableDeclaration<'a>),
>)
    requires
        p <= input@.len(),
    ensures
        agrees(r, disjoin_variable_declaration_at(input@, p as int)),
        r matches Some((e, _)) ==> p < e <= input@.len(),
{
    match keyword_body_from(input, p, KEY_DISJOINT) {
        Some((e, syms)) => Some((e, DisjoinVariableDeclaration::new(syms))),
        None => None,
    }
}

fn floating_hypothesis_from<'a>(input: &'a [u8], p: usize) -> (r: Option<
    (usize, FloatingHypothesis<'a>),
>)
    requires
        p <= input@.len(),
    ensures
        agrees(r, floating_hypothesis_at(input@, p as int)),
        r matches Some((e, _)) ==> p < e <= input@.len(),
{
    match labelled_body_from(input, p, KEY_FLOATING) {
        Some((e, parts)) => Some((e, FloatingHypothesis::new(parts))),
        None => None,
    }
}

fn essential_hypothesis_from<'a>(input: &'a [u8], p: usize) -> (r: Option<
    (usize, EssentialHypothesis<'a>),
>)
    requires
        p <= input@.len(),
    ensures
        agrees(r, essential_hypothesis_at(input@, p as int)),
        r matches Some((e, _)) ==> p < e <= input@.len(),
{
    match labelled_body_from(input, p, KEY_ESSENTIAL) {
        Some((e, parts)) => Some((e, EssentialHypothesis::new(parts))),
        None => None,
    }
}

fn axiomatic_assertion_from<'a>(input: &'a [u8], p: usize) -> (r: Option<
    (usize, AxiomaticAssertion<'a>),
>)
    requires
        p <= input@.len(),
    ensures
        agrees(r, axiomatic_assertion_at(input@, p as int)),
        r matches Some((e, _)) ==> p < e <= input@.len(),
{
    match labelled_body_from(input, p, KEY_AXIOM) {
        Some((e, parts)) => Some((e, AxiomaticAssertion::new(parts))),
        None => None,
    }
}

fn labels_from<'a>(input: &'a [u8], p: usize) -> (r: (usize, Vec<Label<'a>>))
    requires
        p <= input@.len(),
    ensures
        labels_more(input@, p as int, Seq::empty()) == (r.0 as int, views(r.1@)),
        p <= r.0 <= input@.len(),
{
    let mut v: Vec<Label<'a>> = Vec::new();
    proof { assert(views(v@) =~= Seq::<Seq<u8>>::empty()); }
    let mut pos: usize = p;
    loop
        invariant
            p <= pos <= input@.len(),
            labels_more(input@, pos as int, views(v@)) == labels_more(input@, p as int, Seq::empty()),
        decreases input@.len() - pos,
    {
        let w = skip_space(input, pos);
        let next = if pos < w { label_from(input, w) } else { None };
        match next {
            Some((e, lab)) => {
                proof { lemma_views_push(v@, lab); }
                v.push(lab);
                pos = e;
            },
            None => {
                return (pos, v);
            },
        }
    }
}

fn steps_from<'a>(input: &'a [u8], p: usize, first: CompressedProof<'a>) -> (r: (
    usize,
    Vec<CompressedProof<'a>>,
))
    requires
        p <= input@.len(),
    ensures
        steps_more(input@, p as int, seq![first@]) == (r.0 as int, views(r.1@)),
        p <= r.0 <= input@.len(),
{
    let mut v: Vec<CompressedProof<'a>> = Vec::new();
    v.push(first);
    proof { assert(views(v@) =~= seq![first@]); }
    let mut pos: usize = p;
    loop
        invariant
            p <= pos <= input@.len(),
            steps_more(input@, pos as int, views(v@)) == steps_more(input@, p as int, seq![first@]),
        decreases input@.len() - pos,
    {
        let w = skip_space(input, pos);
        match compressed_proof_from(input, w) {
            Some((e, step)) => {
                proof { lemma_views_push(v@, step); }
                v.push(step);
                pos = e;
            },
            None => {
                return (pos, v);
            },
        }
    }
}

fn proof_steps_from<'a>(input: &'a [u8], p: usize, labels: Vec<Label<'a>>) -> (r: Option<
    (usize, Proof<'a>),
>)
    requires
        p <= input@.len(),
    ensures
        agrees(r, proof_steps_at(input@, p as int, views(labels@))),
        r matches Some((e, _)) ==> p < e <= input@.len(),
{
    let w = skip_space(input, p);
    match compressed_proof_from(input, w) {
        Some((e, first)) => {
            let (f, steps) = steps_from(input, e, first);
            Some((f, Proof::new((labels, steps))))
        },
        None => None,
    }
}

fn proof_from<'a>(input: &'a [u8], p: usize) -> (r: Option<(usize, Proof<'a>)>)
    requires
        p <= input@.len(),
    ensures
        agrees(r, proof_at(input@, p as int)),
        r matches Some((e, _)) ==> p < e <= input@.len(),
{
    if !has_byte(input, p, OPEN_PAREN) {
        let labels: Vec<Label<'a>> = Vec::new();
        proof {
            assert(views(labels@) =~= Seq::<Seq<u8>>::empty());
        }
        return proof_steps_from(input, p, labels);
    }
    let (q, labels) = labels_from(input, p + 1);
    let c = skip_space(input, q);
    if !has_byte(input, c, CLOSE_PAREN) {
        return None;
    }
    proof_steps_from(input, c + 1, labels)
}

fn provable_assertion_from<'a>(input: &'a [u8], p: usize) -> (r: Option<
    (usize, ProvableAssertion<'a>),
>)
    requires
        p <= input@.len(),
    ensures
        agrees(r, provable_assertion_at(input@, p as int)),
        r matches Some((e, _)) ==> p < e <= input@.len(),
{
    let (l, lab) = match label_from(input, p) {
        Some(x) => x,
        None => return None,
    };
    let w = skip_space(input, l);
    if w == l || !has_pair(input, w, DOLLAR, KEY_PROVABLE) {
        return None;
    }
    let a = skip_space(input, w + 2);
    if a == w + 2 {
        return None;
    }
    let (q, syms) = match symbol_list_from(input, a) {
        Some(x) => x,
        None => return None,
    };
    let b = skip_space(input, q);
    if b == q || !has_pair(input, b, DOLLAR, KEY_PROOF) {
        return None;
    }
    let c = skip_space(input, b + 2);
    if c == b + 2 {
        return None;
    }
    let (d, pr) = match proof_from(input, c) {
        Some(x) => x,
        None => return None,
    };
    let e = skip_space(input, d);
    if has_pair(input, e, DOLLAR, DOT) {
        Some((e + 2, ProvableAssertion::new((lab, syms, pr))))
    } else {
        None
    }
}

pub(crate) fn comment_from<'a>(input: &'a [u8], p: usize) -> (r: Option<(usize, Comment<'a>)>)
    requires
        p <= input@.len(),
    ensures
        agrees(r, comment_at(input@, p as int)),
        r matches Some((e, _)) ==> p < e <= input@.len(),
{
    if heading_from(input, p, HASH, HASH).is_some() || heading_from(input, p, STAR, HASH).is_some()
        || heading_from(input, p, DASH, EQUALS).is_some() || heading_from(input, p, DOT, DASH)
        .is_some() {
        return None;
    }
    if !has_pair(input, p, DOLLAR, OPEN_PAREN) {
        return None;
    }
    let w = skip_space(input, p + 2);
    proof { lemma_find_close(input@, w as int); }
    match scan_close(input, w) {
        Some(c) => Some((c + 2, Comment::new(view_of(input, w, c)))),
        None => None,
    }
}

pub proof fn lemma_block_view<'a>(v: Vec<Box<Statement<'a>>>)
    ensures
        Statement::Block(v)@ == (StatementModel::Block { statements: views(v@) }),
{
    let m = Statement::Block(v)@;
    if let StatementModel::Block { statements } = m {
        assert(statements.len() == views(v@).len());
        assert forall|i: int| 0 <= i < statements.len() implies statements[i] == views(v@)[i] by {
        }
        assert(statements =~= views(v@));
    }
}

fn block_from<'a>(input: &'a [u8], p: usize) -> (r: Option<(usize, Vec<Box<Statement<'a>>>)>)
    requires
        p <= input@.len(),
    ensures
        match block_at(input@, p as int) {
            None => r is None,
            Some((e, m)) => match r {
                Some((q, v)) => q == e && Statement::Block(v)@ == m && p < q <= input@.len(),
                None => false,
            },
        },
    decreases input@.len() - p, 0int,
{
    if !has_pair(input, p, DOLLAR, OPEN_BRACE) {
        return None;
    }
    let mut v: Vec<Box<Statement<'a>>> = Vec::new();
    proof { assert(views(v@) =~= Seq::<StatementModel>::empty()); }
    let mut pos: usize = p + 2;
    loop
        invariant
            p + 2 <= pos <= input@.len(),
            pair_at(input@, p as int, DOLLAR, OPEN_BRACE),
            statements_more(input@, pos as int, views(v@)) == statements_more(
                input@,
                p + 2,
                Seq::empty(),
            ),
        decreases input@.len() - pos,
    {
        let w = skip_space(input, pos);
        match statement_from(input, w) {
            Some((e, st)) => {
                let b = Box::new(st);
                proof { lemma_views_push(v@, b); }
                v.push(b);
                pos = e;
            },
            None => {
                let c = skip_space(input, pos);
                if has_pair(input, c, DOLLAR, CLOSE_BRACE) {
                    proof { lemma_block_view(v); }
                    return Some((c + 2, v));
                } else {
                    return None;
                }
            },
        }
    }
}

fn statement_from<'a>(input: &'a [u8], p: usize) -> (r: Option<(usize, Statement<'a>)>)
    requires
        p <= input@.len(),
    ensures
        agrees(r, statement_at(input@, p as int)),
        r matches Some((e, _)) ==> p < e <= input@.len(),
    decreases input@.len() - p, 1int,
{
    if let Some((e, x)) = constant_declaration_from(input, p) {
        return Some((e, Statement::ConstantDeclaration(x)));
    }
    if let Some((e, x)) = variable_declaration_from(input, p) {
        return Some((e, Statement::VariableDeclaration(x)));
    }
    if let Some((e, x)) = disjoin_variable_declaration_from(input, p) {
        return Some((e, Statement::DisjoinVariableDeclaration(x)));
    }
    if let Some((e, x)) = floating_hypothesis_from(input, p) {
        return Some((e, Statement::FloatingHypothesis(x)));
    }
    if let Some((e, x)) = essential_hypothesis_from(input, p) {
        return Some((e, Statement::EssentialHypothesis(x)));
    }
    if let Some((e, x)) = axiomatic_assertion_from(input, p) {
        return Some((e, Statement::AxiomaticAssertion(x)));
    }
    if let Some((e, x)) = provable_assertion_from(input, p) {
        return Some((e, Statement::ProvableAssertion(x)));
    }
    if let Some((e, x)) = block_from(input, p) {
        return Some((e, Statement::Block(x)));
    }
    if let Some((e, x)) = comment_from(input, p) {
        return Some((e, Statement::Comment(x)));
    }
    None
}

/// Reads statements, each after optional whitespace, for as long as one matches.
pub(crate) fn statement_list_from<'a>(input: &'a [u8], p: usize) -> (r: (usize, Vec<Statement<'a>>))
    requires
        p <= input@.len(),
    ensures
        statements_more(input@, p as int, Seq::empty()) == (r.0 as int, views(r.1@)),
        p <= r.0 <= input@.len(),
{
    let mut v: Vec<Statement<'a>> = Vec::new();
    proof { assert(views(v@) =~= Seq::<StatementModel>::empty()); }
    let mut pos: usize = p;
    loop
        invariant
            p <= pos <= input@.len(),
            statements_more(input@, pos as int, views(v@)) == statements_more(
                input@,
                p as int,
                Seq::empty(),
            ),
        decreases input@.len() - pos,
    {
        let w = skip_space(input, pos);
        match statement_from(input, w) {
            Some((e, st)) => {
                proof { lemma_views_push(v@, st); }
                v.push(st);
                pos = e;
            },
            None => {
                return (pos, v);
            },
        }
    }
}

// ----- constructors -----

impl<'a> ConstantDeclaration<'a> {
    pub fn new(symbol_list: Vec<Symbol<'a>>) -> (r: Self)
        ensures
            r.symbol_list == symbol_list,
    {
        Self { symbol_list }
    }
}

impl<'a> VariableDeclaration<'a> {
    pub fn new(symbol_list: Vec<Symbol<'a>>) -> (r: Self)
        ensures
            r.symbol_list == symbol_list,
    {
        Self { symbol_list }
    }
}

impl<'a> DisjoinVariableDeclaration<'a> {
    pub fn new(symbol_list: Vec<Symbol<'a>>) -> (r: Self)
        ensures
            r.symbol_list == symbol_list,
    {
        Self { symbol_list }
    }
}

impl<'a> FloatingHypothesis<'a> {
    pub fn new(parts: (Label<'a>, Vec<Symbol<'a>>)) -> (r: Self)
        ensures
            r.label == parts.0 && r.symbol_list == parts.1,
    {
        let (label, symbol_list) = parts;
        Self { label, symbol_list }
    }
}

impl<'a> EssentialHypothesis<'a> {
    pub fn new(parts: (Label<'a>, Vec<Symbol<'a>>)) -> (r: Self)
        ensures
            r.label == parts.0 && r.symbol_list == parts.1,
    {
        let (label, symbol_list) = parts;
        Self { label, symbol_list }
    }
}

impl<'a> AxiomaticAssertion<'a> {
    pub fn new(parts: (Label<'a>, Vec<Symbol<'a>>)) -> (r: Self)
        ensures
            r.label == parts.0 && r.symbol_list == parts.1,
    {
        let (label, symbol_list) = parts;
        Self { label, symbol_list }
    }
}

impl<'a> ProvableAssertion<'a> {
    pub fn new(parts: (Label<'a>, Vec<Symbol<'a>>, Proof<'a>)) -> (r: Self)
        ensures
            r.label == parts.0 && r.symbol_list == parts.1 && r.proof == parts.2,
    {
        let (label, symbol_list, proof) = parts;
        Self { label, symbol_list, proof }
    }
}

impl<'a> Proof<'a> {
    pub fn new(parts: (Vec<Label<'a>>, Vec<CompressedProof<'a>>)) -> (r: Self)
        ensures
            r.labels == parts.0 && r.compressed_proofs == parts.1,
    {
        let (labels, compressed_proofs) = parts;
        Self { labels, compressed_proofs }
    }
}

impl<'a> Comment<'a> {
    pub fn new(comment: AsciiSequence<'a>) -> (r: Self)
        ensures
            r.comment == comment,
    {
        Self { comment }
    }
}

// ----- the rules on a whole input -----

/// Reads one statement: the first of the nine forms that matches.
pub fn statement<'a>(input: &'a [u8]) -> (r: Result<(&'a [u8], Statement<'a>), ParseError<'a>>)
    ensures
        outcome(input, r, statement_at(input@, 0)),
{
    match statement_from(input, 0) {
        Some((e, x)) => Ok((rest_from(input, e), x)),
        None => Err(ParseError { input }),
    }
}

/// Reads `$c` symbols `$.`.
pub fn constant_declaration<'a>(input: &'a [u8]) -> (r: Result<(&'a [u8], ConstantDeclaration<'a>), ParseError<'a>>)
    ensures
        outcome(input, r, constant_declaration_at(input@, 0)),
{
    match constant_declaration_from(input, 0) {
        Some((e, x)) => Ok((rest_from(input, e), x)),
        None => Err(ParseError { input }),
    }
}

/// Reads `$v` symbols `$.`.
pub fn variable_declaration<'a>(input: &'a [u8]) -> (r: Result<(&'a [u8], VariableDeclaration<'a>), ParseError<'a>>)
    ensures
        outcome(input, r, variable_declaration_at(input@, 0)),
{
    match variable_declaration_from(input, 0) {
        Some((e, x)) => Ok((rest_from(input, e), x)),
        None => Err(ParseError { input }),
    }
}

/// Reads `$d` symbols `$.`.
pub fn disjoin_variable_declaration<'a>(input: &'a [u8]) -> (r: Result<(&'a [u8], DisjoinVariableDeclaration<'a>), ParseError<'a>>)
    ensures
        outcome(input, r, disjoin_variable_declaration_at(input@, 0)),
{
    match disjoin_variable_declaration_from(input, 0) {
        Some((e, x)) => Ok((rest_from(input, e), x)),
        None => Err(ParseError { input }),
    }
}

/// Reads label `$f` symbols `$.`.
pub fn floating_hypothesis<'a>(input: &'a [u8]) -> (r: Result<(&'a [u8], FloatingHypothesis<'a>), ParseError<'a>>)
    ensures
        outcome(input, r, floating_hypothesis_at(input@, 0)),
{
    match floating_hypothesis_from(input, 0) {
        Some((e, x)) => Ok((rest_from(input, e), x)),
        None => Err(ParseError { input }),
    }
}

/// Reads label `$e` symbols `$.`.
pub fn essential_hypothesis<'a>(input: &'a [u8]) -> (r: Result<(&'a [u8], EssentialHypothesis<'a>), ParseError<'a>>)
    ensures
        outcome(input, r, essential_hypothesis_at(input@, 0)),
{
    match essential_hypothesis_from(input, 0) {
        Some((e, x)) => Ok((rest_from(input, e), x)),
        None => Err(ParseError { input }),
    }
}

/// Reads label `$a` symbols `$.`.
pub fn axiomatic_assertion<'a>(input: &'a [u8]) -> (r: Result<(&'a [u8], AxiomaticAssertion<'a>), ParseError<'a>>)
    ensures
        outcome(input, r, axiomatic_assertion_at(input@, 0)),
{
    match axiomatic_assertion_from(input, 0) {
        Some((e, x)) => Ok((rest_from(input, e), x)),
        None => Err(ParseError { input }),
    }
}

/// Reads label `$p` symbols `$=` proof `$.`.
pub fn provable_assertion<'a>(input: &'a [u8]) -> (r: Result<(&'a [u8], ProvableAssertion<'a>), ParseError<'a>>)
    ensures
        outcome(input, r, provable_assertion_at(input@, 0)),
{
    match provable_assertion_from(input, 0) {
        Some((e, x)) => Ok((rest_from(input, e), x)),
        None => Err(ParseError { input }),
    }
}

/// Reads a proof: `(` labels `)` and one or more compressed-proof tokens.
pub fn parse_proof<'a>(input: &'a [u8]) -> (r: Result<(&'a [u8], Proof<'a>), ParseError<'a>>)
    ensures
        outcome(input, r, proof_at(input@, 0)),
{
    match proof_from(input, 0) {
        Some((e, x)) => Ok((rest_from(input, e), x)),
        None => Err(ParseError { input }),
    }
}

/// Reads a plain comment; a heading comment of any level is refused.
pub fn comment<'a>(input: &'a [u8]) -> (r: Result<(&'a [u8], Comment<'a>), ParseError<'a>>)
    ensures
        outcome(input, r, comment_at(input@, 0)),
{
    match comment_from(input, 0) {
        Some((e, x)) => Ok((rest_from(input, e), x)),
        None => Err(ParseError { input }),
    }
}

/// Reads a scoping block `${` statements `$}`.
pub fn block<'a>(input: &'a [u8]) -> (r: Result<(&'a [u8], Vec<Box<Statement<'a>>>), ParseError<'a>>)
    ensures
        match block_at(input@, 0) {
            None => r is Err && r->Err_0.input@ == input@,
            Some((e, m)) => match r {
                Ok((rest, v)) => rest@ == input@.subrange(e, input@.len() as int)
                    && Statement::Block(v)@ == m,
                Err(_) => false,
            },
        },
{
    match block_from(input, 0) {
        Some((e, v)) => Ok((rest_from(input, e), v)),
        None => Err(ParseError { input }),
    }
}

// ----- laws -----

/// Input that reads as a heading comment of any level, a major-part heading first of all,
/// is never read as a plain comment, nor as a comment statement.
pub proof fn lemma_heading_is_never_a_comment(s: Seq<u8>, p: int)
    requires
        heading_at(s, p, major_part_delimiters()) is Some || heading_at(s, p, section_delimiters()) is Some
            || heading_at(s, p, sub_section_delimiters()) is Some || heading_at(
            s,
            p,
            sub_sub_section_delimiters(),
        ) is Some,
    ensures
        comment_at(s, p) is None,
        !(statement_at(s, p) matches Some((_, StatementModel::Comment { .. }))),
{
    if statement_at(s, p) matches Some((_, StatementModel::Comment { .. })) {
        if constant_declaration_at(s, p) is Some {
        } else if variable_declaration_at(s, p) is Some {
        } else if disjoin_variable_declaration_at(s, p) is Some {
        } else if floating_hypothesis_at(s, p) is Some {
        } else if essential_hypothesis_at(s, p) is Some {
        } else if axiomatic_assertion_at(s, p) is Some {
        } else if provable_assertion_at(s, p) is Some {
        } else if block_at(s, p) is Some {
        }
    }
}

// ----- writing statements back out -----

/// Each word after one space: ` w1 w2 ... wn`.
pub open spec fn spaced(words: Seq<Seq<u8>>) -> Seq<u8>
    decreases words.len(),
{
    if words.len() == 0 {
        Seq::empty()
    } else {
        seq![SPACE] + words[0] + spaced(words.drop_first())
    }
}

pub open spec fn symbol_word(t: Seq<u8>) -> bool {
    t.len() >= 1 && forall|i: int| 0 <= i < t.len() ==> symbol_byte(#[trigger] t[i])
}

pub open spec fn label_word(t: Seq<u8>) -> bool {
    t.len() >= 1 && forall|i: int| 0 <= i < t.len() ==> label_byte(#[trigger] t[i])
}

pub open spec fn symbol_words(words: Seq<Seq<u8>>) -> bool {
    words.len() >= 1 && forall|i: int| 0 <= i < words.len() ==> symbol_word(#[trigger] words[i])
}

/// `$k`, the symbols, and `$.`, each after one space.
pub open spec fn keyword_text(k: u8, syms: Seq<Seq<u8>>) -> Seq<u8> {
    seq![DOLLAR, k] + spaced(syms) + seq![SPACE, DOLLAR, DOT]
}

/// The label, one space, then `keyword_text`.
pub open spec fn labelled_text(label: Seq<u8>, k: u8, syms: Seq<Seq<u8>>) -> Seq<u8> {
    label + seq![SPACE] + keyword_text(k, syms)
}

/// The text of a statement without a proof, written from its fields: a declaration,
/// hypothesis or axiom, or a block of such statements.
pub open spec fn statement_text(m: StatementModel) -> Seq<u8>
    decreases m, 0int,
{
    match m {
        StatementModel::ConstantDeclaration { symbols } => keyword_text(KEY_CONSTANT, symbols),
        StatementModel::VariableDeclaration { symbols } => keyword_text(KEY_VARIABLE, symbols),
        StatementModel::DisjoinVariableDeclaration { symbols } => keyword_text(KEY_DISJOINT, symbols),
        StatementModel::FloatingHypothesis { label, symbols } => labelled_text(label, KEY_FLOATING, symbols),
        StatementModel::EssentialHypothesis { label, symbols } => labelled_text(label, KEY_ESSENTIAL, symbols),
        StatementModel::AxiomaticAssertion { label, symbols } => labelled_text(label, KEY_AXIOM, symbols),
        StatementModel::Block { statements } => seq![DOLLAR, OPEN_BRACE] + statements_text(
            statements,
            0,
        ) + seq![SPACE, DOLLAR, CLOSE_BRACE],
        _ => Seq::empty(),
    }
}

/// The statements `ms[i..]` written out, each after one space.
pub open spec fn statements_text(ms: Seq<StatementModel>, i: int) -> Seq<u8>
    decreases ms, ms.len() - i,
{
    if 0 <= i < ms.len() {
        seq![SPACE] + statement_text(ms[i]) + statements_text(ms, i + 1)
    } else {
        Seq::empty()
    }
}

/// A statement that `statement_text` writes out faithfully: its label and symbols are tokens
/// of their classes, and a block holds only such statements.
pub open spec fn writable_statement(m: StatementModel) -> bool
    decreases m,
{
    match m {
        StatementModel::ConstantDeclaration { symbols } => symbol_words(symbols),
        StatementModel::VariableDeclaration { symbols } => symbol_words(symbols),
        StatementModel::DisjoinVariableDeclaration { symbols } => symbol_words(symbols),
        StatementModel::FloatingHypothesis { label, symbols } => label_word(label) && symbol_words(symbols),
        StatementModel::EssentialHypothesis { label, symbols } => label_word(label) && symbol_words(symbols),
        StatementModel::AxiomaticAssertion { label, symbols } => label_word(label) && symbol_words(symbols),
        StatementModel::Block { statements } => forall|i: int|
            0 <= i < statements.len() ==> {
                writable_statement(#[trigger] statements[i])
            },
        _ => false,
    }
}

pub proof fn lemma_run_end_exact(s: Seq<u8>, p: int, e: int, k: ByteClass)
    requires
        0 <= p <= e <= s.len(),
        forall|i: int| p <= i < e ==> in_class(k, #[trigger] s[i]),
        e == s.len() || !in_class(k, s[e]),
    ensures
        run_end(s, p, k) == e,
    decreases e - p,
{
    if p < e {
        lemma_run_end_exact(s, p + 1, e, k);
    }
}

/// What `spaced` laid out at `q` says of the bytes there.
proof fn lemma_spaced_bytes(s: Seq<u8>, q: int, rest: Seq<Seq<u8>>)
    requires
        0 <= q,
        q + spaced(rest).len() <= s.len(),
        s.subrange(q, q + spaced(rest).len()) == spaced(rest),
        rest.len() >= 1,
    ensures
        s[q] == SPACE,
        spaced(rest).len() == 1 + rest[0].len() + spaced(rest.drop_first()).len(),
        forall|j: int| 0 <= j < rest[0].len() ==> s[q + 1 + j] == #[trigger] rest[0][j],
        s.subrange(q + 1 + rest[0].len(), q + spaced(rest).len()) == spaced(rest.drop_first()),
        rest.drop_first().len() >= 1 ==> s[q + 1 + rest[0].len()] == SPACE,
{
    let w = rest[0];
    let tail = rest.drop_first();
    let sp = spaced(rest);
    assert(sp == seq![SPACE] + w + spaced(tail));
    assert(s[q] == s.subrange(q, q + sp.len())[0]);
    assert forall|j: int| 0 <= j < w.len() implies s[q + 1 + j] == #[trigger] w[j] by {
        assert(s[q + 1 + j] == s.subrange(q, q + sp.len())[1 + j]);
    }
    assert(s.subrange(q + 1 + w.len(), q + sp.len()) =~= spaced(tail)) by {
        assert forall|j: int| 0 <= j < spaced(tail).len() implies s.subrange(
            q + 1 + w.len(),
            q + sp.len(),
        )[j] == spaced(tail)[j] by {
            assert(s[q + 1 + w.len() + j] == s.subrange(q, q + sp.len())[1 + w.len() + j]);
        }
    }
    if tail.len() >= 1 {
        assert(spaced(tail) == seq![SPACE] + tail[0] + spaced(tail.drop_first()));
        assert(s[q + 1 + w.len()] == s.subrange(q + 1 + w.len(), q + sp.len())[0]);
    }
}

/// Symbols laid out by `spaced` at `q` and followed by ` $` are read back one by one.
proof fn lemma_symbols_laid_out(s: Seq<u8>, q: int, rest: Seq<Seq<u8>>, acc: Seq<Seq<u8>>)
    requires
        0 <= q,
        q + spaced(rest).len() + 1 < s.len(),
        s.subrange(q, q + spaced(rest).len()) == spaced(rest),
        s[q + spaced(rest).len()] == SPACE,
        s[q + spaced(rest).len() + 1] == DOLLAR,
        forall|i: int| 0 <= i < rest.len() ==> symbol_word(#[trigger] rest[i]),
    ensures
        symbols_more(s, q, acc) == (q + spaced(rest).len(), acc + rest),
    decreases rest.len(),
{
    if rest.len() == 0 {
        lemma_run_end_exact(s, q, q + 1, ByteClass::Space);
        lemma_run_end_exact(s, q + 1, q + 1, ByteClass::Symbol);
        assert(acc + rest =~= acc);
    } else {
        let w = rest[0];
        let tail = rest.drop_first();
        lemma_spaced_bytes(s, q, rest);
        let e = q + 1 + w.len();
        assert(symbol_word(rest[0]));
        assert(symbol_byte(w[0]));
        assert(s[q + 1] == w[0]);
        lemma_run_end_exact(s, q, q + 1, ByteClass::Space);
        assert forall|i: int| q + 1 <= i < e implies in_class(ByteClass::Symbol, #[trigger] s[i]) by {
            assert(s[q + 1 + (i - q - 1)] == w[i - q - 1]);
        }
        assert(s[e] == SPACE);
        lemma_run_end_exact(s, q + 1, e, ByteClass::Symbol);
        assert(s.subrange(q + 1, e) =~= w);
        assert forall|i: int| 0 <= i < tail.len() implies symbol_word(#[trigger] tail[i]) by {
            assert(tail[i] == rest[i + 1]);
        }
        lemma_symbols_laid_out(s, e, tail, acc.push(w));
        assert(acc.push(w) + tail =~= acc + rest);
    }
}

proof fn lemma_keyword_text_at(s: Seq<u8>, o: int, k: u8, syms: Seq<Seq<u8>>)
    requires
        symbol_words(syms),
        0 <= o,
        o + keyword_text(k, syms).len() <= s.len(),
        s.subrange(o, o + keyword_text(k, syms).len()) == keyword_text(k, syms),
    ensures
        keyword_body_at(s, o, k) == Some((o + keyword_text(k, syms).len(), syms)),
{
    let kt = keyword_text(k, syms);
    let sp = spaced(syms);
    let n = sp.len() as int;
    assert forall|j: int| 0 <= j < kt.len() implies s[o + j] == #[trigger] kt[j] by {
        assert(s[o + j] == s.subrange(o, o + kt.len())[j]);
    }
    assert(s.subrange(o + 2, o + 2 + n) =~= sp) by {
        assert forall|j: int| 0 <= j < n implies s.subrange(o + 2, o + 2 + n)[j] == sp[j] by {
            assert(s[o + 2 + j] == kt[2 + j]);
        }
    }
    assert(s[o] == DOLLAR && s[o + 1] == k) by {
        assert(s[o] == kt[0]);
        assert(s[o + 1] == kt[1]);
    }
    assert(s[o + 2 + n] == SPACE && s[o + 3 + n] == DOLLAR && s[o + 4 + n] == DOT) by {
        assert(s[o + 2 + n] == kt[2 + n]);
        assert(s[o + 3 + n] == kt[3 + n]);
        assert(s[o + 4 + n] == kt[4 + n]);
    }
    let w = syms[0];
    let tail = syms.drop_first();
    lemma_spaced_bytes(s, o + 2, syms);
    assert(symbol_word(syms[0]));
    assert(s[o + 3] == w[0]);
    lemma_run_end_exact(s, o + 2, o + 3, ByteClass::Space);
    let e = o + 3 + w.len();
    assert forall|i: int| o + 3 <= i < e implies in_class(ByteClass::Symbol, #[trigger] s[i]) by {
        assert(s[o + 2 + 1 + (i - o - 3)] == w[i - o - 3]);
    }
    assert(s[e] == SPACE);
    lemma_run_end_exact(s, o + 3, e, ByteClass::Symbol);
    assert forall|i: int| 0 <= i < tail.len() implies symbol_word(#[trigger] tail[i]) by {
        assert(tail[i] == syms[i + 1]);
    }
    assert(s.subrange(o + 3, e) =~= w);
    lemma_symbols_laid_out(s, e, tail, seq![w]);
    assert(seq![w] + tail =~= syms);
    lemma_run_end_exact(s, o + 2 + n, o + 3 + n, ByteClass::Space);
}

/// The bytes of `t` stand in `s` at `o`.
pub open spec fn stands_at(s: Seq<u8>, o: int, t: Seq<u8>) -> bool {
    0 <= o && o + t.len() <= s.len() && s.subrange(o, o + t.len()) == t
}

pub proof fn lemma_stands_at_bytes(s: Seq<u8>, o: int, t: Seq<u8>)
    requires
        stands_at(s, o, t),
    ensures
        forall|j: int| 0 <= j < t.len() ==> s[o + j] == #[trigger] t[j],
{
    assert forall|j: int| 0 <= j < t.len() implies s[o + j] == #[trigger] t[j] by {
        assert(s[o + j] == s.subrange(o, o + t.len())[j]);
    }
}

proof fn lemma_labelled_text_at(s: Seq<u8>, o: int, label: Seq<u8>, k: u8, syms: Seq<Seq<u8>>)
    requires
        label_word(label),
        symbol_words(syms),
        stands_at(s, o, labelled_text(label, k, syms)),
    ensures
        labelled_body_at(s, o, k) == Some(
            (o + labelled_text(label, k, syms).len(), (label, syms)),
        ),
        forall|other: u8| other != k ==> #[trigger] labelled_body_at(s, o, other) is None,
        !pair_at(s, o, DOLLAR, KEY_CONSTANT) && !pair_at(s, o, DOLLAR, KEY_VARIABLE) && !pair_at(
            s,
            o,
            DOLLAR,
            KEY_DISJOINT,
        ),
        label_byte(s[o]),
{
    let t = labelled_text(label, k, syms);
    let kt = keyword_text(k, syms);
    let l = label.len() as int;
    lemma_stands_at_bytes(s, o, t);
    assert(s[o + l] == t[l]);
    assert(s[o + l + 1] == t[l + 1]);
    assert(s[o + l + 2] == t[l + 2]);
    assert(s[o] == t[0]);
    assert forall|i: int| o <= i < o + l implies in_class(ByteClass::Label, #[trigger] s[i]) by {
        assert(s[o + (i - o)] == t[i - o]);
    }
    lemma_run_end_exact(s, o, o + l, ByteClass::Label);
    assert(s.subrange(o, o + l) =~= label) by {
        assert forall|j: int| 0 <= j < l implies s.subrange(o, o + l)[j] == label[j] by {
            assert(s[o + j] == t[j]);
        }
    }
    lemma_run_end_exact(s, o + l, o + l + 1, ByteClass::Space);
    assert(s.subrange(o + l + 1, o + l + 1 + kt.len()) =~= kt) by {
        assert forall|j: int| 0 <= j < kt.len() implies s.subrange(o + l + 1, o + l + 1 + kt.len())[j]
            == kt[j] by {
            assert(s[o + l + 1 + j] == t[l + 1 + j]);
        }
    }
    lemma_keyword_text_at(s, o + l + 1, k, syms);
}

/// A statement written out from its fields, wherever it stands, is read there as the same
/// statement, up to its last byte.
pub proof fn lemma_statement_text_at(s: Seq<u8>, o: int, m: StatementModel)
    requires
        writable_statement(m),
        stands_at(s, o, statement_text(m)),
    ensures
        statement_at(s, o) == Some((o + statement_text(m).len(), m)),
        statement_text(m).len() >= 1,
        !is_space(statement_text(m)[0]),
    decreases statement_text(m).len(), 1int,
{
    let t = statement_text(m);
    match m {
        StatementModel::ConstantDeclaration { symbols } => {
            assert(t == keyword_text(KEY_CONSTANT, symbols));
            lemma_keyword_text_at(s, o, KEY_CONSTANT, symbols);
        },
        StatementModel::VariableDeclaration { symbols } => {
            assert(t == keyword_text(KEY_VARIABLE, symbols));
            lemma_keyword_text_at(s, o, KEY_VARIABLE, symbols);
            lemma_stands_at_bytes(s, o, t);
            assert(s[o + 1] == t[1]);
        },
        StatementModel::DisjoinVariableDeclaration { symbols } => {
            assert(t == keyword_text(KEY_DISJOINT, symbols));
            lemma_keyword_text_at(s, o, KEY_DISJOINT, symbols);
            lemma_stands_at_bytes(s, o, t);
            assert(s[o + 1] == t[1]);
        },
        StatementModel::FloatingHypothesis { label, symbols } => {
            assert(t == labelled_text(label, KEY_FLOATING, symbols));
            lemma_labelled_text_at(s, o, label, KEY_FLOATING, symbols);
            assert(t[0] == label[0]);
        },
        StatementModel::EssentialHypothesis { label, symbols } => {
            assert(t == labelled_text(label, KEY_ESSENTIAL, symbols));
            lemma_labelled_text_at(s, o, label, KEY_ESSENTIAL, symbols);
            assert(labelled_body_at(s, o, KEY_FLOATING) is None);
            assert(t[0] == label[0]);
        },
        StatementModel::AxiomaticAssertion { label, symbols } => {
            assert(t == labelled_text(label, KEY_AXIOM, symbols));
            lemma_labelled_text_at(s, o, label, KEY_AXIOM, symbols);
            assert(labelled_body_at(s, o, KEY_FLOATING) is None);
            assert(labelled_body_at(s, o, KEY_ESSENTIAL) is None);
            assert(t[0] == label[0]);
        },
        StatementModel::Block { statements } => {
            assert(t == block_text(statements));
            lemma_block_text_at(s, o, statements);
        },
        _ => {},
    }
}

/// A declaration, hypothesis or axiom written back out from its fields (its keyword, its
/// label if it has one, its symbols and `$.`, one space apart), or a block of such
/// statements, reads back as the same statement, and the whole text is consumed.
pub proof fn lemma_statement_round_trip(m: StatementModel)
    requires
        writable_statement(m),
    ensures
        statement_at(statement_text(m), 0) == Some((statement_text(m).len() as int, m)),
{
    let t = statement_text(m);
    assert(t.subrange(0, t.len() as int) =~= t);
    lemma_statement_text_at(t, 0, m);
}

/// `${`, the statements written out one space apart, and `$}`.
pub open spec fn block_text(ms: Seq<StatementModel>) -> Seq<u8> {
    seq![DOLLAR, OPEN_BRACE] + statements_text(ms, 0) + seq![SPACE, DOLLAR, CLOSE_BRACE]
}

/// What `statements_text` laid out at `q` says of the bytes there.
proof fn lemma_statements_text_bytes(s: Seq<u8>, q: int, ms: Seq<StatementModel>, i: int)
    requires
        0 <= i < ms.len(),
        stands_at(s, q, statements_text(ms, i)),
    ensures
        s[q] == SPACE,
        statements_text(ms, i).len() == 1 + statement_text(ms[i]).len() + statements_text(
            ms,
            i + 1,
        ).len(),
        stands_at(s, q + 1, statement_text(ms[i])),
        stands_at(s, q + 1 + statement_text(ms[i]).len(), statements_text(ms, i + 1)),
{
    let t = statement_text(ms[i]);
    let r = statements_text(ms, i + 1);
    let all = statements_text(ms, i);
    assert(all == seq![SPACE] + t + r);
    lemma_stands_at_bytes(s, q, all);
    assert(s[q] == all[0]);
    assert(s.subrange(q + 1, q + 1 + t.len()) =~= t) by {
        assert forall|j: int| 0 <= j < t.len() implies s.subrange(q + 1, q + 1 + t.len())[j]
            == t[j] by {
            assert(s[q + 1 + j] == all[1 + j]);
        }
    }
    assert(s.subrange(q + 1 + t.len(), q + 1 + t.len() + r.len()) =~= r) by {
        assert forall|j: int| 0 <= j < r.len() implies s.subrange(
            q + 1 + t.len(),
            q + 1 + t.len() + r.len(),
        )[j] == r[j] by {
            assert(s[q + 1 + t.len() + j] == all[1 + t.len() + j]);
        }
    }
}

pub proof fn lemma_statements_laid_out(
    s: Seq<u8>,
    q: int,
    ms: Seq<StatementModel>,
    i: int,
    acc: Seq<StatementModel>,
)
    requires
        0 <= i <= ms.len(),
        forall|j: int| 0 <= j < ms.len() ==> writable_statement(#[trigger] ms[j]),
        stands_at(s, q, statements_text(ms, i)),
        statement_at(s, ws_end(s, q + statements_text(ms, i).len())) is None,
    ensures
        statements_more(s, q, acc) == (
            q + statements_text(ms, i).len(),
            acc + ms.subrange(i, ms.len() as int),
        ),
    decreases statements_text(ms, i).len(), 2int,
{
    if i == ms.len() {
        lemma_run_end(s, q, ByteClass::Space);
        assert(acc + ms.subrange(i, ms.len() as int) =~= acc);
    } else {
        let m = ms[i];
        let t = statement_text(m);
        lemma_statements_text_bytes(s, q, ms, i);
        let e = q + 1 + t.len();
        lemma_statement_text_at(s, q + 1, m);
        assert(s[q + 1] == t[0]) by {
            lemma_stands_at_bytes(s, q + 1, t);
        }
        lemma_run_end_exact(s, q, q + 1, ByteClass::Space);
        lemma_statements_laid_out(s, e, ms, i + 1, acc.push(m));
        assert(acc.push(m) + ms.subrange(i + 1, ms.len() as int) =~= acc + ms.subrange(
            i,
            ms.len() as int,
        ));
    }
}

#[verifier::rlimit(40)]
proof fn lemma_block_text_at(s: Seq<u8>, o: int, ms: Seq<StatementModel>)
    requires
        forall|i: int| 0 <= i < ms.len() ==> writable_statement(#[trigger] ms[i]),
        stands_at(s, o, block_text(ms)),
    ensures
        statement_at(s, o) == Some(
            (o + block_text(ms).len(), StatementModel::Block { statements: ms }),
        ),
        block_at(s, o) == Some(
            (o + block_text(ms).len(), StatementModel::Block { statements: ms }),
        ),
    decreases block_text(ms).len(), 0int,
{
    let t = block_text(ms);
    let sp = statements_text(ms, 0);
    let n = sp.len() as int;
    lemma_stands_at_bytes(s, o, t);
    assert(t.len() == n + 5);
    assert(s.subrange(o + 2, o + 2 + n) =~= sp) by {
        assert forall|j: int| 0 <= j < n implies s.subrange(o + 2, o + 2 + n)[j] == sp[j] by {
            assert(s[o + 2 + j] == t[2 + j]);
        }
    }
    assert(s[o] == t[0]);
    assert(s[o + 1] == t[1]);
    assert(s[o + 2 + n] == t[2 + n]);
    assert(s[o + 3 + n] == t[3 + n]);
    assert(s[o + 4 + n] == t[4 + n]);
    lemma_run_end_exact(s, o + 2 + n, o + 3 + n, ByteClass::Space);
    lemma_run_end_exact(s, o + 3 + n, o + 3 + n, ByteClass::Label);
    assert(statement_at(s, o + 3 + n) is None);
    lemma_statements_laid_out(s, o + 2, ms, 0, Seq::empty());
    assert(Seq::<StatementModel>::empty() + ms.subrange(0, ms.len() as int) =~= ms);
    assert(statements_more(s, o + 2, Seq::empty()) == (o + 2 + n, ms));
    lemma_run_end_exact(s, o + 2 + n, o + 3 + n, ByteClass::Space);
    assert(pair_at(s, o + 3 + n, DOLLAR, CLOSE_BRACE));
    assert(pair_at(s, o, DOLLAR, OPEN_BRACE));
    assert(block_at(s, o) == Some((o + n + 5, StatementModel::Block { statements: ms })));
    lemma_run_end_exact(s, o, o, ByteClass::Label);
    assert(token_at(s, o, ByteClass::Label) is None);
    assert(constant_declaration_at(s, o) is None);
    assert(variable_declaration_at(s, o) is None);
    assert(disjoin_variable_declaration_at(s, o) is None);
    assert(floating_hypothesis_at(s, o) is None);
    assert(essential_hypothesis_at(s, o) is None);
    assert(axiomatic_assertion_at(s, o) is None);
    assert(provable_assertion_at(s, o) is None);
}

/// A block written out from declarations, hypotheses, axioms and blocks of them, wherever
/// it stands and whatever follows it, reads back as a block with exactly those statements as
/// children, one for each and in order, and so does every block among them.
pub proof fn lemma_block_children(s: Seq<u8>, o: int, ms: Seq<StatementModel>)
    requires
        forall|i: int| 0 <= i < ms.len() ==> writable_statement(#[trigger] ms[i]),
        stands_at(s, o, block_text(ms)),
    ensures
        block_at(s, o) == Some((o + block_text(ms).len(), StatementModel::Block { statements: ms })),
        statement_at(s, o) == Some(
            (o + block_text(ms).len(), StatementModel::Block { statements: ms }),
        ),
{
    lemma_block_text_at(s, o, ms);
}

} // verus!
