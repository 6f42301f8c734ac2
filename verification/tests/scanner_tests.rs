use mustache::scanner::{Scanner, Token};

fn t(s: &str) -> String {
    s.to_string()
}

#[test]
fn scans_text_and_variable() {
    assert_eq!(
        Scanner::scan("Hello, {{name}}!"),
        vec![Token::Text(t("Hello, ")), Token::Variable(t("name")), Token::Text(t("!"))]
    );
}

#[test]
fn scans_empty_template() {
    assert_eq!(Scanner::scan(""), Vec::<Token>::new());
}

#[test]
fn scans_plain_text_as_one_token() {
    assert_eq!(Scanner::scan("no tags here"), vec![Token::Text(t("no tags here"))]);
}

#[test]
fn scans_triple_mustache_as_unescaped() {
    assert_eq!(Scanner::scan("{{{raw}}}"), vec![Token::UnescapedVariable(t("raw"))]);
}

#[test]
fn scans_ampersand_as_unescaped() {
    assert_eq!(Scanner::scan("{{& raw }}"), vec![Token::UnescapedVariable(t("raw"))]);
}

#[test]
fn scans_sections_and_trims_names() {
    assert_eq!(
        Scanner::scan("{{# list }}x{{/list}}{{^ none}}y{{/ none }}"),
        vec![
            Token::SectionOpen(t("list")),
            Token::Text(t("x")),
            Token::SectionClose(t("list")),
            Token::InvertedOpen(t("none")),
            Token::Text(t("y")),
            Token::SectionClose(t("none")),
        ]
    );
}

#[test]
fn scans_comment_and_partial() {
    assert_eq!(
        Scanner::scan("{{!  a comment }}{{> part}}"),
        vec![Token::Comment(t("a comment")), Token::Partial(t("part"))]
    );
}

#[test]
fn scans_empty_tag_as_empty_variable() {
    assert_eq!(Scanner::scan("{{}}"), vec![Token::Variable(t(""))]);
    assert_eq!(Scanner::scan("{{{}}}"), vec![Token::UnescapedVariable(t(""))]);
}

#[test]
fn changes_delimiters() {
    assert_eq!(
        Scanner::scan("{{=<% %>=}}<% name %> {{name}}"),
        vec![Token::Variable(t("name")), Token::Text(t(" {{name}}"))]
    );
}

#[test]
fn ignores_delimiter_change_without_two_words() {
    assert_eq!(Scanner::scan("{{= a b c =}}{{x}}"), vec![Token::Variable(t("x"))]);
}

#[test]
fn no_triple_after_delimiter_change() {
    assert_eq!(Scanner::scan("{{=[ ]=}}[{x}]"), vec![Token::Variable(t("{x}"))]);
}

#[test]
fn keeps_unclosed_tag_as_text() {
    assert_eq!(
        Scanner::scan("abc {{name"),
        vec![Token::Text(t("abc ")), Token::Text(t("{{name"))]
    );
    assert_eq!(Scanner::scan("{{{name}}"), vec![Token::Text(t("{{{name}}"))]);
}

#[test]
fn lone_equals_tag_changes_nothing() {
    assert_eq!(Scanner::scan("{{=}}x"), vec![Token::Text(t("x"))]);
    assert_eq!(Scanner::scan("a{{ = }}b"), vec![Token::Text(t("a")), Token::Text(t("b"))]);
    assert_eq!(Scanner::scan("{{==}}b"), vec![Token::Text(t("b"))]);
    assert_eq!(Scanner::scan("{{=}}{{x}}"), vec![Token::Variable(t("x"))]);
}

#[test]
fn standalone_comment_line_is_removed() {
    assert_eq!(
        Scanner::scan("Begin.\n{{! Comment Block! }}\nEnd.\n"),
        vec![
            Token::Text(t("Begin.\n")),
            Token::Comment(t("Comment Block!")),
            Token::Text(t("End.\n")),
        ]
    );
}

#[test]
fn standalone_lines_lose_their_whitespace() {
    assert_eq!(
        Scanner::scan("  {{#a}}  \r\nx\n  {{/a}}"),
        vec![
            Token::SectionOpen(t("a")),
            Token::Text(t("x\n")),
            Token::SectionClose(t("a")),
        ]
    );
    assert_eq!(
        Scanner::scan("| {{#a}} |\n"),
        vec![Token::Text(t("| ")), Token::SectionOpen(t("a")), Token::Text(t(" |\n"))]
    );
    assert_eq!(
        Scanner::scan(" {{x}} {{! c }}\n"),
        vec![
            Token::Text(t(" ")),
            Token::Variable(t("x")),
            Token::Text(t(" ")),
            Token::Comment(t("c")),
            Token::Text(t("\n")),
        ]
    );
    assert_eq!(
        Scanner::scan("a\n{{=<% %>=}}\n<%x%>"),
        vec![Token::Text(t("a\n")), Token::Variable(t("x"))]
    );
}

#[test]
fn keeps_unicode_text() {
    assert_eq!(
        Scanner::scan("héllo {{ nämé }} ✓"),
        vec![Token::Text(t("héllo ")), Token::Variable(t("nämé")), Token::Text(t(" ✓"))]
    );
}

#[test]
fn text_tokens_are_never_empty() {
    for template in ["", "{{a}}{{b}}", "x{{a}}", "{{a}}x", "{{=| |=}}|a||b|", "{{", "{{{", "a{{#b}}{{/b}}"] {
        for tok in Scanner::scan(template) {
            if let Token::Text(s) = tok {
                assert!(!s.is_empty(), "empty text in {:?}", template);
            }
        }
    }
}

#[test]
fn names_are_trimmed() {
    assert_eq!(
        Scanner::scan("{{#  a  }}{{ b\t}}{{{ c }}}{{/ a }}"),
        vec![
            Token::SectionOpen(t("a")),
            Token::Variable(t("b")),
            Token::UnescapedVariable(t("c")),
            Token::SectionClose(t("a")),
        ]
    );
}

#[test]
fn scanning_the_source_of_tokens_gives_them_back() {
    let tokens = vec![
        Token::Text(t("Hi ")),
        Token::Variable(t("user.name")),
        Token::Text(t("! ")),
        Token::SectionOpen(t("items")),
        Token::UnescapedVariable(t("raw")),
        Token::Comment(t("note")),
        Token::Partial(t("p")),
        Token::SectionClose(t("items")),
        Token::InvertedOpen(t("none")),
        Token::Text(t(" x")),
        Token::SectionClose(t("none")),
    ];
    assert_eq!(
        Scanner::scan("Hi {{user.name}}! {{#items}}{{{raw}}}{{!note}}{{>p}}{{/items}}{{^none}} x{{/none}}"),
        tokens
    );
}

#[test]
fn source_with_line_breaks_scans_back() {
    assert_eq!(
        Scanner::scan("a\n{{x}}"),
        vec![Token::Text(t("a\n")), Token::Variable(t("x"))]
    );
    assert_eq!(
        Scanner::scan("{{x}} {{y}}\n{{#s}}b\n{{/s}}c"),
        vec![
            Token::Variable(t("x")),
            Token::Text(t(" ")),
            Token::Variable(t("y")),
            Token::Text(t("\n")),
            Token::SectionOpen(t("s")),
            Token::Text(t("b\n")),
            Token::SectionClose(t("s")),
            Token::Text(t("c")),
        ]
    );
}

#[test]
fn partial_lines_keep_their_whitespace() {
    assert_eq!(
        Scanner::scan("a\n  {{>p}}\nb"),
        vec![Token::Text(t("a\n  ")), Token::Partial(t("p")), Token::Text(t("\nb"))]
    );
}
