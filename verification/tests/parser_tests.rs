use mustache::parser::{parse, Node};
use mustache::scanner::{Scanner, Token};

fn t(s: &str) -> String {
    s.to_string()
}

fn dbg(nodes: &[Node]) -> String {
    format!("{:?}", nodes)
}

#[test]
fn parses_nested_sections() {
    let nodes = parse(Scanner::scan("a{{#x}}b{{^y}}c{{/y}}{{/x}}{{!n}}{{>p}}")).unwrap();
    assert_eq!(
        dbg(&nodes),
        r#"[Text("a"), Section { name: "x", children: [Text("b"), Section { name: "y", children: [Text("c")], inverted: true }], inverted: false }, Comment("n"), Partial("p")]"#
    );
}

#[test]
fn parses_empty_token_list() {
    let nodes = parse(Vec::new()).unwrap();
    assert!(nodes.is_empty());
}

#[test]
fn rejects_unopened_close() {
    assert_eq!(
        parse(vec![Token::SectionClose(t("a"))]).unwrap_err(),
        "Unopened section closing tag: a"
    );
}

#[test]
fn rejects_mismatched_close() {
    assert_eq!(
        parse(Scanner::scan("{{#a}}{{/b}}")).unwrap_err(),
        "Mismatched closing tag: expected a, found b"
    );
}

#[test]
fn rejects_unclosed_section_innermost_first() {
    assert_eq!(parse(Scanner::scan("{{#a}}{{^b}}")).unwrap_err(), "Unclosed section: b");
    assert_eq!(parse(Scanner::scan("{{#a}}x")).unwrap_err(), "Unclosed section: a");
}

#[test]
fn first_error_wins() {
    assert_eq!(
        parse(Scanner::scan("{{/z}}{{#a}}")).unwrap_err(),
        "Unopened section closing tag: z"
    );
}

#[test]
fn parse_keeps_all_leaf_tokens_in_order() {
    let nodes = parse(vec![
        Token::Variable(t("v")),
        Token::UnescapedVariable(t("u")),
        Token::Text(t("t")),
    ])
    .unwrap();
    assert_eq!(dbg(&nodes), r#"[Variable("v"), UnescapedVariable("u"), Text("t")]"#);
}

#[test]
fn parsing_tokens_of_a_tree_gives_the_tree() {
    // The tokens of [Section a [Text x, Section b (inverted) []], Variable y].
    let tokens = vec![
        Token::SectionOpen(t("a")),
        Token::Text(t("x")),
        Token::InvertedOpen(t("b")),
        Token::SectionClose(t("b")),
        Token::SectionClose(t("a")),
        Token::Variable(t("y")),
    ];
    let nodes = parse(tokens).unwrap();
    assert_eq!(
        dbg(&nodes),
        r#"[Section { name: "a", children: [Text("x"), Section { name: "b", children: [], inverted: true }], inverted: false }, Variable("y")]"#
    );
}

#[test]
fn cloned_tree_is_equal() {
    let nodes = parse(Scanner::scan("a{{#x}}b{{^y}}{{c}}{{/y}}{{/x}}")).unwrap();
    let copy: Vec<Node> = nodes.iter().map(|n| n.clone()).collect();
    assert_eq!(dbg(&copy), dbg(&nodes));
}
