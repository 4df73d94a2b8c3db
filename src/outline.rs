//! An owned outline of a database, with assertions tagged by their label.
use vstd::prelude::*;

verus! {

/// An owned outline of a database: titles and the statements filed under them.
#[derive(Clone, Debug, Default)]
pub struct Document {
    pub major_parts: Vec<MajorPart>,
}

#[derive(Clone, Debug, Default)]
pub struct MajorPart {
    pub title: String,
    pub statements: Vec<Statement>,
    pub sections: Vec<Section>,
}

#[derive(Clone, Debug, Default)]
pub struct Section {
    pub title: String,
    pub statements: Vec<Statement>,
    pub subsections: Vec<SubSection>,
}

#[derive(Clone, Debug, Default)]
pub struct SubSection {
    pub title: String,
    pub statements: Vec<Statement>,
    pub subsubsections: Vec<SubsubSection>,
}

#[derive(Clone, Debug, Default)]
pub struct SubsubSection {
    pub title: String,
    pub statements: Vec<Statement>,
}

/// A statement of the outline; assertions are tagged by what their label says they are.
#[derive(Clone, Debug)]
pub enum Statement {
    ConstantDeclaration(ConstantDeclaration),
    AxiomaticAssertion(AxiomaticAssertion),
    DefinitionAssertion(AxiomaticAssertion),
    WffAssertion(AxiomaticAssertion),
    ClassAssertion(AxiomaticAssertion),
    OtherAssertion(AxiomaticAssertion),
}

#[derive(Clone, Debug, Default)]
pub struct ConstantDeclaration {
    pub symbol_list: Vec<String>,
}

#[derive(Clone, Debug, Default)]
pub struct AxiomaticAssertion {
    pub label: String,
    pub symbol_list: Vec<String>,
}

pub open spec fn starts_with_pair(b: Seq<u8>, x: u8, y: u8) -> bool {
    b.len() >= 2 && b[0] == x && b[1] == y
}

pub open spec fn starts_with_byte(b: Seq<u8>, x: u8) -> bool {
    b.len() >= 1 && b[0] == x
}

/// The tag that an assertion's label gives it: `ax...` an axiom, `df...` a definition,
/// `w...` a well-formedness rule, `c...` a class rule, anything else other.
pub open spec fn tagged(a: AxiomaticAssertion) -> Statement {
    let b = vstd::utf8::encode_utf8(a.label@);
    if starts_with_pair(b, 97, 120) {
        Statement::AxiomaticAssertion(a)
    } else if starts_with_pair(b, 100, 102) {
        Statement::DefinitionAssertion(a)
    } else if starts_with_byte(b, 119) {
        Statement::WffAssertion(a)
    } else if starts_with_byte(b, 99) {
        Statement::ClassAssertion(a)
    } else {
        Statement::OtherAssertion(a)
    }
}

/// Files an assertion under the tag that its label gives it.
pub fn classify(assertion: AxiomaticAssertion) -> (r: Statement)
    ensures
        r == tagged(assertion),
{
    let b = assertion.label.as_str().as_bytes();
    let ax = b.len() >= 2 && b[0] == 97 && b[1] == 120;
    let df = b.len() >= 2 && b[0] == 100 && b[1] == 102;
    let w = b.len() >= 1 && b[0] == 119;
    let c = b.len() >= 1 && b[0] == 99;
    if ax {
        Statement::AxiomaticAssertion(assertion)
    } else if df {
        Statement::DefinitionAssertion(assertion)
    } else if w {
        Statement::WffAssertion(assertion)
    } else if c {
        Statement::ClassAssertion(assertion)
    } else {
        Statement::OtherAssertion(assertion)
    }
}

} // verus!
