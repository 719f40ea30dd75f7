use dicelang::dot::DotWriter;
use dicelang::graph::GraphWriter;
use dicelang::lexer::{Error as LexError, Lexer, Token, Word};
use dicelang::lookahead::Lookahead;
use dicelang::parser::parse;
use dicelang::pp::PP;

fn pretty(input: &str) -> String {
    let root = parse(input).expect("parse failed");
    let mut pp = PP::new();
    pp.write(&root);
    pp.output()
}

#[test]
fn pretty_prints_canonical_text() {
    assert_eq!(pretty("4d6kh3+2"), "4d6kh3 + 2");
    assert_eq!(pretty("d%"), "1d100");
    assert_eq!(pretty("2d"), "2d6");
    assert_eq!(pretty("2\u{d7}3"), "2 \u{d7} 3");
    assert_eq!(pretty("6\u{f7}2"), "6 / 2");
    assert_eq!(pretty("(1+2)*3"), "(1 + 2) \u{d7} 3");
    assert_eq!(pretty("-(1+2)"), "-(1 + 2)");
    assert_eq!(pretty("1-2+3"), "1 - 2 + 3");
    assert_eq!(pretty("4d6k2"), "4d6kh2");
    assert_eq!(pretty("5d8d2"), "5d8dl2");
    assert_eq!(pretty("d20ad"), "1d20adv");
    assert_eq!(pretty("d20da"), "1d20dis");
    assert_eq!(pretty("4d6kh kl2"), "4d6kh kl2");
}

#[test]
fn reparsing_pretty_text_gives_the_same_tree() {
    let inputs = [
        "42",
        "-7",
        "4d6kh3+2",
        "2d20adv",
        "(1d4+1)*3",
        "d%",
        "2d",
        "1 - 2 + 3",
        "-(1+2)",
        "--5",
        "4d6kh kl2",
        "8d6dh2kl3",
        "1d6*2",
        "[1+2]*3",
        "7/2/3",
        "2d20adv kh",
        "1d6 + 2d8kl - 3",
    ];
    for input in inputs {
        let first = parse(input).expect("parse failed");
        let text = {
            let mut pp = PP::new();
            pp.write(&first);
            pp.output()
        };
        let second = parse(text.as_str()).expect("re-parse failed");
        assert!(first.same_as(&second), "round trip changed {input} via {text}");
    }
}

#[test]
fn dot_writer_emits_a_document() {
    let root = parse("3").unwrap();
    let mut writer = DotWriter::new();
    writer.write(&root);
    assert_eq!(
        writer.output(),
        "graph {\n    node [shape=\"rect\"]\n    edge [fontsize=\"10\"]\n    node0001 [label=\"3\"]\n}\n"
    );
}

#[test]
fn dot_writer_swaps_roll_edge_labels() {
    let root = parse("1d6").unwrap();
    let mut writer = DotWriter::new();
    writer.write(&root);
    let text = writer.output();
    assert!(text.contains("    node0001 [label=\"Roll\"]\n"));
    assert!(text.contains("    node0002 [label=\"1\"]\n"));
    assert!(text.contains("    node0003 [label=\"6\"]\n"));
    assert!(text.contains("    node0001 -- node0003 [label=\"count\"]\n"));
    assert!(text.contains("    node0001 -- node0002 [label=\"sides\"]\n"));
}

#[test]
fn graph_writer_dot_labels_roll_edges_in_order() {
    let root = parse("1d6").unwrap();
    let mut writer = GraphWriter::new_dot();
    writer.write(&root);
    let text = writer.output();
    assert!(text.starts_with(
        "graph {\n    graph [rankdir=TB]\n    node [shape=rect]\n    edge [fontsize=10]\n"
    ));
    assert!(text.ends_with("}\n"));
    assert!(text.contains("    node0001 -- node0002 [label=\"count\"]\n"));
    assert!(text.contains("    node0001 -- node0003 [label=\"sides\"]\n"));
}

#[test]
fn graph_writer_mermaid_format() {
    let root = parse("1+2").unwrap();
    let mut writer = GraphWriter::new_mermaid();
    writer.write(&root);
    assert_eq!(
        writer.output(),
        "graph TB\n    node0001(\"Add\")\n    node0002(\"1\")\n    node0003(\"2\")\n    node0001 --left--- node0002\n    node0001 --right--- node0003\n"
    );
}

#[test]
fn lexer_produces_tokens_in_order() {
    let mut lexer = Lexer::new("4d6kh3 + 2");
    assert_eq!(lexer.next(), Some(Ok(Token::Integer(4))));
    assert_eq!(lexer.next(), Some(Ok(Token::Word(Word::D))));
    assert_eq!(lexer.next(), Some(Ok(Token::Integer(6))));
    assert_eq!(lexer.next(), Some(Ok(Token::Word(Word::Kh))));
    assert_eq!(lexer.next(), Some(Ok(Token::Integer(3))));
    assert_eq!(lexer.next(), Some(Ok(Token::Plus)));
    assert_eq!(lexer.next(), Some(Ok(Token::Integer(2))));
    assert_eq!(lexer.next(), None);
    assert_eq!(lexer.next(), None);
}

#[test]
fn lexer_normalizes_arithmetic_signs() {
    let mut lexer = Lexer::new("\u{d7}\u{f7}*/%()[]");
    assert_eq!(lexer.next(), Some(Ok(Token::Times)));
    assert_eq!(lexer.next(), Some(Ok(Token::Divide)));
    assert_eq!(lexer.next(), Some(Ok(Token::Times)));
    assert_eq!(lexer.next(), Some(Ok(Token::Divide)));
    assert_eq!(lexer.next(), Some(Ok(Token::Percent)));
    assert_eq!(lexer.next(), Some(Ok(Token::Open('('))));
    assert_eq!(lexer.next(), Some(Ok(Token::Close(')'))));
    assert_eq!(lexer.next(), Some(Ok(Token::Open('['))));
    assert_eq!(lexer.next(), Some(Ok(Token::Close(']'))));
    assert_eq!(lexer.next(), None);
}

#[test]
fn lexer_reports_errors_and_continues() {
    let mut lexer = Lexer::new("foo 3");
    assert_eq!(lexer.next(), Some(Err(LexError::InvalidWord(String::from("foo")))));
    assert_eq!(lexer.next(), Some(Ok(Token::Integer(3))));
    assert_eq!(lexer.next(), None);
}

#[test]
fn lookahead_peeks_without_consuming() {
    let lexer = Lexer::new("1 + 2");
    let mut ahead = Lookahead::new(lexer);
    assert_eq!(ahead.peek(), Some(&Ok(Token::Integer(1))));
    assert_eq!(ahead.peek(), Some(&Ok(Token::Integer(1))));
    assert_eq!(ahead.next(), Some(Ok(Token::Integer(1))));
    assert_eq!(ahead.peek(), Some(&Ok(Token::Plus)));
    assert_eq!(ahead.next(), Some(Ok(Token::Plus)));
    assert_eq!(ahead.next(), Some(Ok(Token::Integer(2))));
    assert_eq!(ahead.peek(), None);
    assert_eq!(ahead.next(), None);
}
