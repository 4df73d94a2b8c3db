use db_parser::document::{
    delimited_separated_list1, document, document_with, HeadingPolicy, heading_comment, major_part, major_part_heading_comment,
    section, section_heading_comment, sub_section_heading_comment, sub_sub_section,
    sub_sub_section_heading_comment,
};
use db_parser::statement::{
    axiomatic_assertion, block, comment, constant_declaration, disjoin_variable_declaration,
    essential_hypothesis, floating_hypothesis, parse_proof, provable_assertion, statement,
    variable_declaration, AxiomaticAssertion, Comment, ConstantDeclaration, Statement,
};
use db_parser::terminals::{
    compressed_proof, is_compressed_proof_heading_token, is_compressed_proof_token,
    is_label_token, is_later_occuring_compressed_proof_token, is_symbol_token, label, symbol,
    CompressedProof, Label, Symbol,
};
use db_parser::AsciiSequence;

fn sym(s: &'static str) -> Symbol<'static> {
    Symbol(AsciiSequence(s.as_bytes()))
}

fn lab(s: &'static str) -> Label<'static> {
    Label(AsciiSequence(s.as_bytes()))
}

fn text(a: AsciiSequence) -> String {
    String::from_utf8(a.as_bytes().to_vec()).unwrap()
}

#[test]
fn constant_declaration_of_two_symbols() {
    let (rest, c) = constant_declaration(b"$c wff cls $.").unwrap();
    assert!(rest.is_empty());
    assert_eq!(c, ConstantDeclaration::new(vec![sym("wff"), sym("cls")]));
    let (_, st) = statement(b"$c wff cls $.").unwrap();
    assert_eq!(st, Statement::ConstantDeclaration(ConstantDeclaration::new(vec![sym("wff"), sym("cls")])));
}

#[test]
fn axiom_with_nested_parentheses() {
    let input = b"ax-1 $a wff ( ph -> ( ps -> ph ) ) $.";
    let (rest, a) = axiomatic_assertion(input).unwrap();
    assert!(rest.is_empty());
    let expected: Vec<Symbol> = ["wff", "(", "ph", "->", "(", "ps", "->", "ph", ")", ")"]
        .iter()
        .map(|s| sym(s))
        .collect();
    assert_eq!(a, AxiomaticAssertion::new((lab("ax-1"), expected.clone())));
    let (_, st) = statement(input).unwrap();
    assert_eq!(st, Statement::AxiomaticAssertion(AxiomaticAssertion::new((lab("ax-1"), expected))));
}

#[test]
fn block_with_one_declaration() {
    let (rest, st) = statement(b"${ $c x $. $}").unwrap();
    assert!(rest.is_empty());
    match st {
        Statement::Block(children) => {
            assert_eq!(children.len(), 1);
            assert_eq!(
                *children[0],
                Statement::ConstantDeclaration(ConstantDeclaration::new(vec![sym("x")]))
            );
        }
        _ => panic!("expected a block"),
    }
}

#[test]
fn major_part_heading_alone() {
    let input = b"$( #### \n Title \n #### $)";
    let (rest, (title, body)) = major_part_heading_comment(input).unwrap();
    assert!(rest.is_empty());
    assert_eq!(text(title), "Title");
    assert_eq!(text(body), "");
    let (rest, doc) = document(input).unwrap();
    assert!(rest.is_empty());
    assert!(doc.statements.is_empty());
    assert_eq!(doc.major_parts.len(), 1);
    assert_eq!(text(doc.major_parts[0].title), "Title");
    assert!(doc.major_parts[0].statements.is_empty());
    assert!(doc.major_parts[0].sections.is_empty());
}

#[test]
fn compressed_proof_token_stream() {
    let input = b"UAZB";
    let (rest, t1) = compressed_proof(input).unwrap();
    assert_eq!(t1, CompressedProof(AsciiSequence(b"UA")));
    let (rest, t2) = compressed_proof(rest).unwrap();
    assert_eq!(t2, CompressedProof(AsciiSequence(b"Z")));
    let (rest, t3) = compressed_proof(rest).unwrap();
    assert_eq!(t3, CompressedProof(AsciiSequence(b"B")));
    assert!(rest.is_empty());
    assert!(compressed_proof(rest).is_err());
}

#[test]
fn compressed_proof_with_spaces_and_errors() {
    let (rest, t) = compressed_proof(b"U V\nC rest").unwrap();
    assert_eq!(t, CompressedProof(AsciiSequence(b"U V\nC")));
    assert_eq!(rest, b" rest");
    assert!(compressed_proof(b"UV").is_err());
    assert!(compressed_proof(b"a").is_err());
    assert_eq!(compressed_proof(b"").unwrap_err().input, b"");
}

#[test]
fn label_takes_maximal_run() {
    let (rest, l) = label(b"ax-1.2_b $a").unwrap();
    assert_eq!(l, lab("ax-1.2_b"));
    assert_eq!(rest, b" $a");
    let (rest, l) = label(b"x").unwrap();
    assert_eq!(l, lab("x"));
    assert!(rest.is_empty());
    let e = label(b"$a").unwrap_err();
    assert_eq!(e.input, b"$a");
    assert!(label(b"").is_err());
}

#[test]
fn symbol_takes_maximal_run() {
    let (rest, s) = symbol(b"|-(ph->ps)$. x").unwrap();
    assert_eq!(s, sym("|-(ph->ps)"));
    assert_eq!(rest, b"$. x");
    assert!(symbol(b" a").is_err());
    assert!(symbol(b"$").is_err());
}

#[test]
fn byte_classes() {
    assert!(is_label_token(b'a') && is_label_token(b'Z') && is_label_token(b'7'));
    assert!(is_label_token(b'_') && is_label_token(b'-') && is_label_token(b'.'));
    assert!(!is_label_token(b'(') && !is_label_token(b' ') && !is_label_token(b'$'));
    assert!(is_symbol_token(b'!') && is_symbol_token(b'~') && is_symbol_token(b'|'));
    assert!(!is_symbol_token(b'$') && !is_symbol_token(b' ') && !is_symbol_token(0x7f));
    assert!(is_compressed_proof_heading_token(b'U') && is_compressed_proof_heading_token(b'Y'));
    assert!(!is_compressed_proof_heading_token(b'T') && !is_compressed_proof_heading_token(b'Z'));
    assert!(is_compressed_proof_token(b'A') && is_compressed_proof_token(b'T'));
    assert!(!is_compressed_proof_token(b'U'));
    assert!(is_later_occuring_compressed_proof_token(b'Z'));
    assert!(!is_later_occuring_compressed_proof_token(b'Y'));
}

#[test]
fn declarations_need_whitespace_and_terminator() {
    assert!(constant_declaration(b"$cwff $.").is_err());
    assert!(constant_declaration(b"$c wff$.").is_err());
    assert!(constant_declaration(b"$c $.").is_err());
    assert!(constant_declaration(b"$c wff").is_err());
    let (rest, _) = variable_declaration(b"$v ph ps $. tail").unwrap();
    assert_eq!(rest, b" tail");
    assert!(disjoin_variable_declaration(b"$d x y $.").is_ok());
    assert!(variable_declaration(b"$c x $.").is_err());
}

#[test]
fn hypotheses() {
    let (_, f) = floating_hypothesis(b"wph $f wff ph $.").unwrap();
    assert_eq!(f.label, lab("wph"));
    assert_eq!(f.symbol_list, vec![sym("wff"), sym("ph")]);
    let (_, e) = essential_hypothesis(b"min $e |- ph $.").unwrap();
    assert_eq!(e.label, lab("min"));
    assert!(floating_hypothesis(b"wph $e wff ph $.").is_err());
    assert!(essential_hypothesis(b"min$e |- ph $.").is_err());
    let (_, st) = statement(b"wph $f wff ph $.").unwrap();
    assert!(matches!(st, Statement::FloatingHypothesis(_)));
}

#[test]
fn provable_assertion_with_compressed_proof() {
    let input = b"idi $p |- ph $= ( wi ax-mp ) ABZC $.";
    let (rest, p) = provable_assertion(input).unwrap();
    assert!(rest.is_empty());
    assert_eq!(p.label, lab("idi"));
    assert_eq!(p.symbol_list, vec![sym("|-"), sym("ph")]);
    assert_eq!(p.proof.labels, vec![lab("wi"), lab("ax-mp")]);
    assert_eq!(
        p.proof.compressed_proofs,
        vec![
            CompressedProof(AsciiSequence(b"A")),
            CompressedProof(AsciiSequence(b"B")),
            CompressedProof(AsciiSequence(b"Z")),
            CompressedProof(AsciiSequence(b"C")),
        ]
    );
    let (_, st) = statement(input).unwrap();
    assert!(matches!(st, Statement::ProvableAssertion(_)));
}

#[test]
fn proof_dictionary_may_be_empty_but_steps_may_not() {
    let (rest, p) = parse_proof(b"( ) UA $.").unwrap();
    assert!(p.labels.is_empty());
    assert_eq!(p.compressed_proofs, vec![CompressedProof(AsciiSequence(b"UA"))]);
    assert_eq!(rest, b" $.");
    assert!(parse_proof(b"( a ) $.").is_err());
    assert!(parse_proof(b"( a ) ").is_err());
    assert!(parse_proof(b"$.").is_err());
}

#[test]
fn proof_without_dictionary() {
    let (rest, p) = parse_proof(b"AB").unwrap();
    assert!(rest.is_empty());
    assert!(p.labels.is_empty());
    assert_eq!(
        p.compressed_proofs,
        vec![CompressedProof(AsciiSequence(b"A")), CompressedProof(AsciiSequence(b"B"))]
    );
    let (rest, st) = provable_assertion(b"th1 $p |- ph $= UAZB $.").unwrap();
    assert!(rest.is_empty());
    assert!(st.proof.labels.is_empty());
    assert_eq!(st.proof.compressed_proofs.len(), 3);
}

#[test]
fn nested_blocks_keep_their_children() {
    let input = b"${ $c a $. ${ $v x $. $c b $. $} $( note $) $}";
    let (rest, children) = block(input).unwrap();
    assert!(rest.is_empty());
    assert_eq!(children.len(), 3);
    match &*children[1] {
        Statement::Block(inner) => assert_eq!(inner.len(), 2),
        _ => panic!("expected a nested block"),
    }
    assert!(matches!(&*children[2], Statement::Comment(_)));
    let (_, empty) = block(b"${ $}").unwrap();
    assert!(empty.is_empty());
    assert!(block(b"${ $c a $.").is_err());
}

#[test]
fn comments_and_headings() {
    let (rest, c) = comment(b"$( plain words $) x").unwrap();
    assert_eq!(c, Comment::new(AsciiSequence(b"plain words ")));
    assert_eq!(rest, b" x");
    assert!(comment(b"$( #### \n Title \n #### $)").is_err());
    assert!(comment(b"$( #*#*#\n Sec \n#*#*# $)").is_err());
    assert!(comment(b"$( never closed").is_err());
    let (_, (t, body)) = section_heading_comment(b"$(\n#*#*#*\n  A section\n#*#*#*\n  more text\n$)").unwrap();
    assert_eq!(text(t), "A section");
    assert_eq!(text(body), "more text");
    let (_, (t, _)) = sub_section_heading_comment(b"$( =-=-=- \n Sub \n =-=-=- $)").unwrap();
    assert_eq!(text(t), "Sub");
    let (_, (t, _)) = sub_sub_section_heading_comment(b"$( -.-.-. \n Subsub \n -.-.-. $)").unwrap();
    assert_eq!(text(t), "Subsub");
    let (_, (t, _)) = heading_comment(b"$( #### \n Title \n #### $)", b'#', b'#').unwrap();
    assert_eq!(text(t), "Title");
    let (rest, t) = delimited_separated_list1(b"=-=\nName\n=-= tail", b'-', b'=').unwrap();
    assert_eq!(text(t), "Name");
    assert_eq!(rest, b" tail");
}

#[test]
fn document_tree() {
    let input = b"$( intro $)\n\
$( #### \n Part one \n #### $)\n\
$c wff $.\n\
$( #*#*# \n Sec \n #*#*# $)\n\
$v ph $.\n\
$( =-=-= \n Sub \n =-=-= $)\n\
$( -.-.- \n Subsub \n -.-.- $)\n\
wph $f wff ph $.\n\
$( #### \n Part two \n #### $)\n";
    let (rest, doc) = document(input).unwrap();
    assert_eq!(rest, b"\n");
    assert_eq!(doc.statements.len(), 1);
    assert_eq!(doc.major_parts.len(), 2);
    let one = &doc.major_parts[0];
    assert_eq!(text(one.title), "Part one");
    assert_eq!(one.statements.len(), 1);
    assert_eq!(one.sections.len(), 1);
    let sec = &one.sections[0];
    assert_eq!(text(sec.title), "Sec");
    assert_eq!(sec.statements.len(), 1);
    assert_eq!(sec.subsections.len(), 1);
    let sub = &sec.subsections[0];
    assert!(sub.statements.is_empty());
    assert_eq!(sub.subsubsections.len(), 1);
    assert_eq!(sub.subsubsections[0].statements.len(), 1);
    assert_eq!(text(doc.major_parts[1].title), "Part two");
}

#[test]
fn section_before_any_major_part_opens_an_untitled_one() {
    let input = b"$(\n#*#\nB\n#*#\n$)\n$c y $.";
    let (rest, doc) = document(input).unwrap();
    assert!(rest.is_empty());
    assert!(doc.statements.is_empty());
    assert_eq!(doc.major_parts.len(), 1);
    let part = &doc.major_parts[0];
    assert_eq!(text(part.title), "");
    assert!(part.statements.is_empty());
    assert_eq!(part.sections.len(), 1);
    assert_eq!(text(part.sections[0].title), "B");
    assert_eq!(
        part.sections[0].statements,
        vec![Statement::ConstantDeclaration(ConstantDeclaration::new(vec![sym("y")]))]
    );
    let (rest, s) = section(input).unwrap();
    assert!(rest.is_empty());
    assert_eq!(s.statements.len(), 1);
}

#[test]
fn subsubsection_first_opens_every_missing_parent() {
    let input = b"$( -.- \n Deep \n -.- $) $c a $. $( #### \n Real \n #### $)";
    let (rest, doc) = document(input).unwrap();
    assert!(rest.is_empty());
    assert_eq!(doc.major_parts.len(), 2);
    let sub = &doc.major_parts[0].sections[0].subsections[0];
    assert_eq!(text(doc.major_parts[0].sections[0].title), "");
    assert_eq!(text(sub.title), "");
    assert_eq!(text(sub.subsubsections[0].title), "Deep");
    assert_eq!(sub.subsubsections[0].statements.len(), 1);
    assert_eq!(text(doc.major_parts[1].title), "Real");
}

#[test]
fn reject_policy_fails_at_an_orphan_heading() {
    let input = b"$c a $. $(\n#*#\nB\n#*#\n$)\n$c y $.";
    let e = document_with(input, HeadingPolicy::Reject).unwrap_err();
    assert_eq!(e.input, &input[8..]);
    let nested = b"$( #### \n P \n #### $) $( -.- \n Deep \n -.- $)";
    let e = document_with(nested, HeadingPolicy::Reject).unwrap_err();
    assert_eq!(e.input, &nested[22..]);
    let (rest, doc) = document_with(b"$( #### \n P \n #### $) $c a $.", HeadingPolicy::Reject).unwrap();
    assert!(rest.is_empty());
    assert_eq!(doc.major_parts[0].statements.len(), 1);
}

#[test]
fn statements_before_the_first_heading_lead_the_document() {
    let input = b"$c wff $. $( note $) ${ $v x $. $} $( #### \n P \n #### $)";
    let (rest, doc) = document(input).unwrap();
    assert!(rest.is_empty());
    assert_eq!(doc.statements.len(), 3);
    assert!(matches!(doc.statements[1], Statement::Comment(_)));
    assert_eq!(doc.major_parts.len(), 1);
}

#[test]
fn parts_need_their_own_heading() {
    let (_, m) = major_part(b"$( #*#*# \n Sec \n #*#*# $)").unwrap();
    assert_eq!(text(m.title), "");
    assert_eq!(m.sections.len(), 1);
    assert!(major_part(b"$( plain $)").is_err());
    assert!(sub_sub_section(b"$( #### \n P \n #### $)").is_err());
    let (_, ss) = sub_sub_section(b"$( -.-. \n T \n -.-. $) $c a $.").unwrap();
    assert_eq!(ss.statements.len(), 1);
}

#[test]
fn trees_clone_equal() {
    let (_, st) = statement(b"${ $c a $. ${ $v x $. $} $}").unwrap();
    assert_eq!(st.clone(), st);
    let (_, doc) = document(b"$( #### \n P \n #### $) ${ $c a $. $}").unwrap();
    assert_eq!(doc.clone(), doc);
}
