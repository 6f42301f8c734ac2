use mustache::explainer::{explain_lines, result_line, ExplainLine};
use mustache::json::{JsonNumber, JsonValue};
use mustache::parser::{parse, Node};
use mustache::scanner::Scanner;

fn show(lines: &[ExplainLine]) -> Vec<String> {
    lines
        .iter()
        .map(|l| match l {
            ExplainLine::Text(s) => s.clone(),
            ExplainLine::Value { head, .. } => format!("{}<value>", head),
        })
        .collect()
}

#[test]
fn explains_each_node() {
    let data = JsonValue::Object(vec![
        ("name".to_string(), JsonValue::String("World".to_string())),
        ("n".to_string(), JsonValue::Number(JsonNumber { text: "3".to_string(), nonzero: true })),
    ]);
    let nodes = parse(Scanner::scan(
        "Hello, {{name}}! {{{n}}}{{#s}} {{x}}{{/s}}{{^t}}{{/t}}{{! c }}{{> p}}",
    ))
    .unwrap();
    let lines = explain_lines(&nodes, &data);
    assert_eq!(
        show(&lines),
        vec![
            "[TEXT]     \"Hello, \"",
            "[VARIABLE] {{name}} → \"World\"",
            "[TEXT]     \"! \"",
            "{{{n}}} -> raw variable (no HTML escape) -> found <value>",
            "{{#s}} -> section -> checking if truthy...",
            " [VARIABLE] {{x}} → not found",
            "{{/s}} -> end section",
            "{{^t}} -> inverted section -> checking if falsy...",
            "{{/t}} -> end section",
            "{{! c }} -> comment, not rendered",
            "{{> p}} -> partial template 'p'",
        ]
    );
    match &lines[3] {
        ExplainLine::Value { value, .. } => match value {
            JsonValue::Number(n) => assert_eq!(n.text, "3"),
            _ => panic!("expected the number"),
        },
        _ => panic!("expected a value line"),
    }
}

#[test]
fn trace_of_hello_world() {
    let data = JsonValue::Object(vec![("name".to_string(), JsonValue::String("World".to_string()))]);
    let nodes = vec![
        Node::Text("Hello, ".to_string()),
        Node::Variable("name".to_string()),
        Node::Text("!".to_string()),
    ];
    let lines = explain_lines(&nodes, &data);
    assert_eq!(
        show(&lines),
        vec!["[TEXT]     \"Hello, \"", "[VARIABLE] {{name}} → \"World\"", "[TEXT]     \"!\""]
    );
    assert_eq!(result_line("Hello, World!"), "→ \"Hello, World!\"");
}

#[test]
fn empty_template_has_empty_trace() {
    let data = JsonValue::Null;
    assert!(explain_lines(&[], &data).is_empty());
}
