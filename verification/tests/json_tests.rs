use mustache::json::{is_truthy, lookup, parse_data, val_to_string, JsonNumber, JsonValue};

fn s(x: &str) -> JsonValue {
    JsonValue::String(x.to_string())
}
fn num(text: &str, nonzero: bool) -> JsonValue {
    JsonValue::Number(JsonNumber { text: text.to_string(), nonzero })
}
fn obj(entries: Vec<(&str, JsonValue)>) -> JsonValue {
    JsonValue::Object(entries.into_iter().map(|(k, v)| (k.to_string(), v)).collect())
}

#[test]
fn truthiness_follows_javascript() {
    assert!(!is_truthy(&JsonValue::Null));
    assert!(!is_truthy(&JsonValue::Bool(false)));
    assert!(is_truthy(&JsonValue::Bool(true)));
    assert!(!is_truthy(&s("")));
    assert!(is_truthy(&s("x")));
    assert!(!is_truthy(&num("0", false)));
    assert!(!is_truthy(&num("0.0", false)));
    assert!(is_truthy(&num("1.5", true)));
    assert!(!is_truthy(&JsonValue::Array(vec![])));
    assert!(is_truthy(&JsonValue::Array(vec![JsonValue::Null])));
    assert!(is_truthy(&obj(vec![])));
}

#[test]
fn text_of_values() {
    assert_eq!(val_to_string(&JsonValue::Null), "");
    assert_eq!(val_to_string(&JsonValue::Bool(true)), "true");
    assert_eq!(val_to_string(&JsonValue::Bool(false)), "false");
    assert_eq!(val_to_string(&num("42", true)), "42");
    assert_eq!(val_to_string(&s("hi")), "hi");
    assert_eq!(
        val_to_string(&JsonValue::Array(vec![num("1", true), s("a"), JsonValue::Array(vec![num("2", true), num("3", true)])])),
        "1,a,2,3"
    );
    assert_eq!(val_to_string(&JsonValue::Array(vec![])), "");
    assert_eq!(val_to_string(&obj(vec![("a", s("b"))])), "[object Object]");
}

#[test]
fn lookup_dot_is_innermost_context() {
    let a = s("outer");
    let b = s("inner");
    assert_eq!(val_to_string(lookup(&[&a, &b], ".").unwrap()), "inner");
    assert!(lookup(&[], ".").is_none());
}

#[test]
fn lookup_searches_outward() {
    let root = obj(vec![("greeting", s("hi")), ("name", s("root"))]);
    let inner = obj(vec![("name", s("inner"))]);
    let stack = [&root, &inner];
    assert_eq!(val_to_string(lookup(&stack, "name").unwrap()), "inner");
    assert_eq!(val_to_string(lookup(&stack, "greeting").unwrap()), "hi");
    assert!(lookup(&stack, "missing").is_none());
}

#[test]
fn lookup_follows_dots_from_first_context_with_head() {
    let root = obj(vec![("a", obj(vec![("b", obj(vec![("c", s("deep"))])), ("x", s("rx"))]))]);
    let inner = obj(vec![("a", obj(vec![("b", s("shallow"))]))]);
    assert_eq!(val_to_string(lookup(&[&root], "a.b.c").unwrap()), "deep");
    // The innermost context has `a`, so the lookup stays there and fails.
    assert!(lookup(&[&root, &inner], "a.x").is_none());
    assert_eq!(val_to_string(lookup(&[&root, &inner], "a.b").unwrap()), "shallow");
}

#[test]
fn lookup_on_null_does_not_crash() {
    let root = obj(vec![("a", JsonValue::Null)]);
    assert!(lookup(&[&root], "a.b").is_none());
    assert_eq!(val_to_string(lookup(&[&root], "a").unwrap()), "");
}

#[test]
fn lookup_first_member_wins() {
    let root = obj(vec![("k", s("first")), ("k", s("second"))]);
    assert_eq!(val_to_string(lookup(&[&root], "k").unwrap()), "first");
}

fn number_of(v: &JsonValue, key: &str) -> (String, bool) {
    match v {
        JsonValue::Object(entries) => {
            for (k, x) in entries {
                if k == key {
                    if let JsonValue::Number(n) = x {
                        return (n.text.clone(), n.nonzero);
                    }
                }
            }
            panic!("no number {}", key)
        }
        _ => panic!("not an object"),
    }
}

#[test]
fn parses_data_and_reads_numbers() {
    let v = parse_data(r#"{"zero": 0, "fz": 0.0, "two": 2, "half": 0.5, "neg": -3, "big": 1e2}"#).unwrap();
    assert_eq!(number_of(&v, "zero"), ("0".to_string(), false));
    assert_eq!(number_of(&v, "fz"), ("0.0".to_string(), false));
    assert_eq!(number_of(&v, "two"), ("2".to_string(), true));
    assert_eq!(number_of(&v, "half").1, true);
    assert_eq!(number_of(&v, "neg"), ("-3".to_string(), true));
    assert_eq!(number_of(&v, "big").1, true);
}

#[test]
fn parses_nested_data() {
    let v = parse_data(r#"{"b": [true, null, "x"], "a": {"c": "d"}}"#).unwrap();
    match &v {
        JsonValue::Object(entries) => {
            assert_eq!(entries.len(), 2);
            assert_eq!(entries[0].0, "a");
            assert_eq!(entries[1].0, "b");
            match &entries[1].1 {
                JsonValue::Array(items) => {
                    assert_eq!(items.len(), 3);
                    assert!(matches!(items[0], JsonValue::Bool(true)));
                    assert!(matches!(items[1], JsonValue::Null));
                    assert!(matches!(&items[2], JsonValue::String(s) if s == "x"));
                }
                _ => panic!("expected an array"),
            }
        }
        _ => panic!("expected an object"),
    }
    let nodes = mustache::parser::parse(mustache::scanner::Scanner::scan("{{a.c}}{{#b}}[{{.}}]{{/b}}")).unwrap();
    assert_eq!(mustache::renderer::render(&nodes, &v, &[]), "d[true][][x]");
}

#[test]
fn refuses_text_that_is_not_json() {
    assert!(parse_data("{\"a\": ").is_err());
    assert!(parse_data("").is_err());
    assert!(parse_data("nul").is_err());
}

#[test]
fn zero_number_closes_section() {
    let v = parse_data(r#"{"n": 0.0, "m": 7}"#).unwrap();
    let nodes = mustache::parser::parse(mustache::scanner::Scanner::scan("{{#n}}yes{{/n}}{{^n}}no{{/n}}{{#m}}{{m}}{{/m}}")).unwrap();
    assert_eq!(mustache::renderer::render(&nodes, &v, &[]), "no7");
}
