use mustache::json::{JsonNumber, JsonValue};
use mustache::parser::parse;
use mustache::renderer::{html_escape, partial_names, render, render_within};
use mustache::scanner::Scanner;

fn s(x: &str) -> JsonValue {
    JsonValue::String(x.to_string())
}
fn num(text: &str, nonzero: bool) -> JsonValue {
    JsonValue::Number(JsonNumber { text: text.to_string(), nonzero })
}
fn obj(entries: Vec<(&str, JsonValue)>) -> JsonValue {
    JsonValue::Object(entries.into_iter().map(|(k, v)| (k.to_string(), v)).collect())
}
fn run(template: &str, data: &JsonValue) -> String {
    run_with(template, data, &[])
}
fn run_with(template: &str, data: &JsonValue, partials: &[(String, String)]) -> String {
    let nodes = parse(Scanner::scan(template)).unwrap();
    render(&nodes, data, partials)
}

#[test]
fn hello_world() {
    assert_eq!(run("Hello, {{name}}!", &obj(vec![("name", s("World"))])), "Hello, World!");
}

#[test]
fn escapes_six_characters() {
    assert_eq!(html_escape("<b>&'\"/x"), "&lt;b&gt;&amp;&#39;&quot;&#x2F;x");
    assert_eq!(html_escape("&amp;"), "&amp;amp;");
    assert_eq!(html_escape(""), "");
}

#[test]
fn variables_escape_and_unescaped_do_not() {
    let data = obj(vec![("x", s("<a href=\"/\">"))]);
    assert_eq!(run("{{x}}", &data), "&lt;a href=&quot;&#x2F;&quot;&gt;");
    assert_eq!(run("{{{x}}}", &data), "<a href=\"/\">");
    assert_eq!(run("{{&x}}", &data), "<a href=\"/\">");
}

#[test]
fn missing_variable_renders_nothing() {
    assert_eq!(run("[{{nope}}]", &obj(vec![])), "[]");
}

#[test]
fn comments_render_nothing() {
    assert_eq!(run("a{{! hidden }}b", &obj(vec![])), "ab");
}

#[test]
fn list_section_repeats() {
    let data = obj(vec![("list", JsonValue::Array(vec![num("1", true), num("2", true), num("3", true)]))]);
    assert_eq!(run("{{#list}}{{.}},{{/list}}", &data), "1,2,3,");
    assert_eq!(run("{{list}}", &data), "1,2,3");
}

#[test]
fn object_section_pushes_context() {
    let data = obj(vec![("greeting", s("Hi")), ("person", obj(vec![("name", s("Ann"))]))]);
    assert_eq!(run("{{#person}}{{greeting}} {{name}}{{/person}}", &data), "Hi Ann");
    assert_eq!(run("{{person}}", &data), "[object Object]");
}

#[test]
fn falsy_sections_are_skipped() {
    let data = obj(vec![
        ("zero", num("0", false)),
        ("empty", s("")),
        ("none", JsonValue::Null),
        ("no", JsonValue::Bool(false)),
        ("list", JsonValue::Array(vec![])),
    ]);
    assert_eq!(run("{{#zero}}a{{/zero}}{{#empty}}b{{/empty}}{{#none}}c{{/none}}{{#no}}d{{/no}}{{#list}}e{{/list}}{{#missing}}f{{/missing}}", &data), "");
    assert_eq!(run("{{^zero}}a{{/zero}}{{^empty}}b{{/empty}}{{^none}}c{{/none}}{{^no}}d{{/no}}{{^list}}e{{/list}}{{^missing}}f{{/missing}}", &data), "abcdef");
}

#[test]
fn truthy_scalar_section_renders_once() {
    let data = obj(vec![("yes", JsonValue::Bool(true)), ("n", num("7", true))]);
    assert_eq!(run("{{#yes}}[{{.}}]{{/yes}}{{#n}}<{{.}}>{{/n}}", &data), "[true]<7>");
    assert_eq!(run("{{^yes}}x{{/yes}}", &data), "");
}

#[test]
fn dotted_names() {
    let data = obj(vec![("a", obj(vec![("b", obj(vec![("c", s("deep"))]))]))]);
    assert_eq!(run("{{a.b.c}}", &data), "deep");
    assert_eq!(run("[{{a.x.c}}]", &data), "[]");
}

#[test]
fn custom_delimiters_render() {
    assert_eq!(run("{{=| |=}}|x| {{x}}", &obj(vec![("x", s("v"))])), "v {{x}}");
}

#[test]
fn partials_render_in_same_context() {
    let partials = vec![("p".to_string(), "Hi {{name}}".to_string())];
    let data = obj(vec![("name", s("World"))]);
    assert_eq!(run_with("<{{> p}}>", &data, &partials), "<Hi World>");
    assert_eq!(run_with("<{{> missing}}>", &data, &partials), "<>");
}

#[test]
fn unparsable_partial_renders_nothing() {
    let partials = vec![("p".to_string(), "{{#a}}".to_string())];
    assert_eq!(run_with("<{{>p}}>", &obj(vec![]), &partials), "<>");
}

#[test]
fn recursive_partial_over_data_ends() {
    let partials = vec![(
        "node".to_string(),
        "{{name}}({{#kids}}{{>node}}{{/kids}})".to_string(),
    )];
    let data = obj(vec![
        ("name", s("a")),
        ("kids", JsonValue::Array(vec![obj(vec![("name", s("b")), ("kids", JsonValue::Array(vec![]))])])),
    ]);
    assert_eq!(run_with("{{>node}}", &data, &partials), "a(b())");
}

#[test]
fn render_within_reports_too_deep_nesting() {
    let partials = vec![("p".to_string(), "x{{>p}}".to_string())];
    let nodes = parse(Scanner::scan("{{>p}}")).unwrap();
    assert_eq!(render_within(&nodes, &obj(vec![]), &partials, 5), None);
    let partials2 = vec![("p".to_string(), "x{{>q}}".to_string()), ("q".to_string(), "y".to_string())];
    assert_eq!(render_within(&nodes, &obj(vec![]), &partials2, 1), None);
    assert_eq!(render_within(&nodes, &obj(vec![]), &partials2, 2), Some("xy".to_string()));
    assert_eq!(render_within(&nodes, &obj(vec![]), &partials2, 9), Some("xy".to_string()));
}

#[test]
fn partial_with_lone_equals_tag_renders() {
    let partials = vec![("p".to_string(), "{{=}}b".to_string())];
    let nodes = parse(Scanner::scan("a{{>p}}")).unwrap();
    assert_eq!(render_within(&nodes, &obj(vec![]), &partials, 10), Some("ab".to_string()));
}

#[test]
fn standalone_comment_renders_without_its_line() {
    let nodes = parse(Scanner::scan("Begin.\n{{! Comment Block! }}\nEnd.\n")).unwrap();
    assert_eq!(render(&nodes, &obj(vec![]), &[]), "Begin.\nEnd.\n");
}

#[test]
fn standalone_section_lines_render_without_them() {
    let data = obj(vec![("list", JsonValue::Array(vec![num("1", true), num("2", true)]))]);
    let nodes = parse(Scanner::scan("{{#list}}\n- {{.}}\n{{/list}}\n")).unwrap();
    assert_eq!(render(&nodes, &data, &[]), "- 1\n- 2\n");
}

#[test]
fn names_partials_in_order() {
    let nodes = parse(Scanner::scan("{{>a}}{{#s}}{{>b}}{{^t}}{{>c}}{{/t}}{{/s}}{{>a}}")).unwrap();
    assert_eq!(partial_names(&nodes), vec!["a", "b", "c", "a"]);
}

#[test]
fn plain_text_renders_as_itself() {
    assert_eq!(run("just } text { here", &obj(vec![])), "just } text { here");
}

#[test]
fn escaped_output_has_no_specials() {
    let out = html_escape("<script>alert('x' + \"y\")</script> a/b & c");
    for c in ['<', '>', '"', '\'', '/'] {
        assert!(!out.contains(c));
    }
    assert_eq!(html_escape("plain text 123"), "plain text 123");
}

#[test]
fn depth_bound_does_not_change_output() {
    let partials = vec![("p".to_string(), "[{{>q}}]".to_string()), ("q".to_string(), "{{x}}".to_string())];
    let nodes = parse(Scanner::scan("{{>p}}{{>p}}")).unwrap();
    let data = obj(vec![("x", s("v"))]);
    let a = render_within(&nodes, &data, &partials, 2).unwrap();
    let b = render_within(&nodes, &data, &partials, 1000).unwrap();
    assert_eq!(a, "[v][v]");
    assert_eq!(a, b);
    assert_eq!(render(&nodes, &data, &partials), a);
}

#[test]
fn rendering_a_concatenation_concatenates() {
    let data = obj(vec![("x", s("<1>")), ("list", JsonValue::Array(vec![s("a"), s("b")]))]);
    let a = parse(Scanner::scan("ab {{x}}")).unwrap();
    let b = parse(Scanner::scan("{{#list}}[{{.}}]{{/list}}")).unwrap();
    let mut both = parse(Scanner::scan("ab {{x}}")).unwrap();
    both.extend(parse(Scanner::scan("{{#list}}[{{.}}]{{/list}}")).unwrap());
    let whole = render(&both, &data, &[]);
    assert_eq!(whole, format!("{}{}", render(&a, &data, &[]), render(&b, &data, &[])));
    assert_eq!(whole, "ab &lt;1&gt;[a][b]");
}

#[test]
fn escaping_keeps_texts_apart() {
    assert_ne!(html_escape("<"), html_escape("&lt;"));
    assert_eq!(html_escape("&lt;"), "&amp;lt;");
    assert_eq!(html_escape("a/b"), "a&#x2F;b");
}

#[test]
fn partial_line_keeps_its_indentation_and_break() {
    let partials = vec![("p".to_string(), "x".to_string())];
    assert_eq!(run_with("a\n  {{>p}}\nb", &obj(vec![]), &partials), "a\n  x\nb");
}
