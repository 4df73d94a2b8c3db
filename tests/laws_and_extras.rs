use db_parser::comment::AuthorComment;
use db_parser::document::document;
use db_parser::outline::{classify, AxiomaticAssertion, Statement as OutlineStatement};
use db_parser::statement::{
    axiomatic_assertion, comment, constant_declaration, essential_hypothesis, statement,
    variable_declaration, Statement,
};
use db_parser::terminals::{label, symbol, Symbol};
use db_parser::AsciiSequence;

fn words(v: &[Symbol]) -> Vec<String> {
    v.iter().map(|s| String::from_utf8(s.0.as_bytes().to_vec()).unwrap()).collect()
}

#[test]
fn constant_declaration_round_trip() {
    let (_, first) = constant_declaration(b"$c   wff\n\tcls  |- $.").unwrap();
    let text = format!("$c {} $.", words(&first.symbol_list).join(" "));
    let (rest, again) = constant_declaration(text.as_bytes()).unwrap();
    assert!(rest.is_empty());
    assert_eq!(words(&again.symbol_list), vec!["wff", "cls", "|-"]);
    assert_eq!(words(&again.symbol_list), words(&first.symbol_list));
}

#[test]
fn assertion_and_hypothesis_round_trip() {
    let (_, a) = axiomatic_assertion(b"ax-1  $a\nwff ( ph -> ps ) $.").unwrap();
    let text = format!(
        "{} $a {} $.",
        String::from_utf8(a.label.0.as_bytes().to_vec()).unwrap(),
        words(&a.symbol_list).join(" ")
    );
    assert_eq!(text, "ax-1 $a wff ( ph -> ps ) $.");
    let (rest, again) = statement(text.as_bytes()).unwrap();
    assert!(rest.is_empty());
    assert_eq!(again, Statement::AxiomaticAssertion(a));

    let (_, e) = essential_hypothesis(b"maj $e |- ( ph -> ps ) $.").unwrap();
    let (_, again) = statement(b"maj $e |- ( ph -> ps ) $.").unwrap();
    assert_eq!(again, Statement::EssentialHypothesis(e));
}

#[test]
fn document_reparse_is_stable() {
    let input = b"$( #### \n Part \n #### $) $c a $. $( #*#*# \n Sec \n #*#*# $) $v x $.";
    let (_, first) = document(input).unwrap();
    let rebuilt = b"$( ####\nPart\n#### $)\n$c a $.\n$( #*#*#\nSec\n#*#*# $)\n$v x $.";
    let (rest, second) = document(rebuilt).unwrap();
    assert!(rest.is_empty());
    assert_eq!(first, second);
}

#[test]
fn heading_never_a_comment_statement() {
    let input = b"$( #### \n Title \n #### $)";
    assert!(comment(input).is_err());
    assert!(statement(input).is_err());
    let (_, st) = statement(b"$( #### is not framed $)").unwrap();
    assert!(matches!(st, Statement::Comment(_)));
}

#[test]
fn tokenizers_leave_the_rest() {
    let (rest, l) = label(b"mp2b\n").unwrap();
    assert_eq!(l.0.as_bytes(), b"mp2b");
    assert_eq!(rest, b"\n");
    let (rest, s) = symbol(b"(/)").unwrap();
    assert_eq!(s.0.as_bytes(), b"(/)");
    assert!(rest.is_empty());
    let v = AsciiSequence::from(&b"abc"[..]);
    assert_eq!(v.as_bytes(), b"abc");
}

#[test]
fn variable_declaration_error_keeps_input() {
    let e = variable_declaration(b"$v $.").unwrap_err();
    assert_eq!(e.input, b"$v $.");
}

#[test]
fn author_comments() {
    let (rest, a) = AuthorComment::db_parse(b"(Contributed by NM, 5-Aug-1993.) more").unwrap();
    assert_eq!(a, AuthorComment::ContributedBy(AsciiSequence(b"Contributed by NM, 5-Aug-1993.")));
    assert_eq!(rest, b" more");
    let (_, a) = AuthorComment::db_parse(b"(Proof shortened by AV, 1-Jan-2020.)").unwrap();
    assert_eq!(a, AuthorComment::ProofShortenedBy(AsciiSequence(b"Proof shortened by AV, 1-Jan-2020.")));
    assert!(AuthorComment::db_parse(b"(Revised by X.)").is_err());
    assert!(AuthorComment::db_parse(b"(Contributed by NM").is_err());
    let (rest, t) = AuthorComment::start_with_until_paren_close(b"by me) x", b"by").unwrap();
    assert_eq!(t.as_bytes(), b"by me");
    assert_eq!(rest, b") x");
}

fn tag_of(label: &str) -> &'static str {
    let a = AxiomaticAssertion { label: label.to_string(), symbol_list: vec!["wff".to_string()] };
    match classify(a) {
        OutlineStatement::AxiomaticAssertion(_) => "axiom",
        OutlineStatement::DefinitionAssertion(_) => "definition",
        OutlineStatement::WffAssertion(_) => "wff",
        OutlineStatement::ClassAssertion(_) => "class",
        OutlineStatement::OtherAssertion(_) => "other",
        OutlineStatement::ConstantDeclaration(_) => "constant",
    }
}

#[test]
fn assertions_are_tagged_by_label() {
    assert_eq!(tag_of("ax-mp"), "axiom");
    assert_eq!(tag_of("df-bi"), "definition");
    assert_eq!(tag_of("wi"), "wff");
    assert_eq!(tag_of("cv"), "class");
    assert_eq!(tag_of("idi"), "other");
    assert_eq!(tag_of("a"), "other");
    assert_eq!(tag_of(""), "other");
}

fn bytes_of(a: AsciiSequence) -> String {
    String::from_utf8(a.as_bytes().to_vec()).unwrap()
}

fn statement_text(st: &Statement) -> String {
    match st {
        Statement::ConstantDeclaration(c) => format!("$c {} $.", words(&c.symbol_list).join(" ")),
        Statement::VariableDeclaration(v) => format!("$v {} $.", words(&v.symbol_list).join(" ")),
        Statement::AxiomaticAssertion(a) => format!(
            "{} $a {} $.",
            bytes_of(a.label.0),
            words(&a.symbol_list).join(" ")
        ),
        Statement::Block(children) => {
            let inner: Vec<String> = children.iter().map(|c| format!(" {}", statement_text(c))).collect();
            format!("${{{} $}}", inner.concat())
        }
        _ => panic!("not written in this test"),
    }
}

fn heading(outer: char, inner: char, title: AsciiSequence, text: AsciiSequence) -> String {
    let line = format!("{outer}{inner}{outer}");
    format!("$( {line}\n{}\n{line} {} $)", bytes_of(title), bytes_of(text))
}

#[test]
fn document_written_from_its_tree_reads_back() {
    let input = b"$(\n####\n  Part one\n####\n  about it\n$)\n$c wff $.\n\
$( #*#*#*#*\n  Sec\n#*#*#*#* $)\n${ $v x $. ${ $c y $. $} $}\n\
$( =-=-= \n Sub \n =-=-= $) ax-1 $a wff x $.\n\
$(\n####\n  Part two\n####\n$)";
    let (rest, doc) = document(input).unwrap();
    assert!(rest.is_empty());
    let mut text = String::new();
    for part in &doc.major_parts {
        text.push(' ');
        text.push_str(&heading('#', '#', part.title, part.heading_comments));
        for st in &part.statements {
            text.push(' ');
            text.push_str(&statement_text(st));
        }
        for sec in &part.sections {
            text.push(' ');
            text.push_str(&heading('#', '*', sec.title, sec.heading_comments));
            for st in &sec.statements {
                text.push(' ');
                text.push_str(&statement_text(st));
            }
            for sub in &sec.subsections {
                text.push(' ');
                text.push_str(&heading('=', '-', sub.title, sub.heading_comments));
                for st in &sub.statements {
                    text.push(' ');
                    text.push_str(&statement_text(st));
                }
            }
        }
    }
    let (rest, again) = document(text.as_bytes()).unwrap();
    assert!(rest.is_empty());
    assert_eq!(again, doc);
    assert_eq!(bytes_of(again.major_parts[0].heading_comments), "about it");
    assert_eq!(again.major_parts[0].sections[0].subsections[0].statements.len(), 1);
}

#[test]
fn major_heading_after_blanks_opens_a_major_part() {
    let input = b" \n\t$( #### \n Title \n #### $) $c a $.";
    let (rest, doc) = document(input).unwrap();
    assert!(rest.is_empty());
    assert!(doc.statements.is_empty());
    assert_eq!(doc.major_parts.len(), 1);
    assert_eq!(doc.major_parts[0].title.as_bytes(), b"Title");
}

#[test]
fn block_followed_by_more_text() {
    let (rest, children) = db_parser::statement::block(b"${ $c a $. ${ $} $} wph $f wff ph $.").unwrap();
    assert_eq!(rest, b" wph $f wff ph $.");
    assert_eq!(children.len(), 2);
}
