use mustache::json::JsonValue;
use mustache::jugaad::jugaad_fix;
use mustache::parser::parse;
use mustache::renderer::render;
use mustache::scanner::Scanner;

#[test]
fn closes_unclosed_tag_at_end() {
    let r = jugaad_fix("Hello {{name");
    assert_eq!(r.fixed_template, "Hello {{name}}");
    assert_eq!(r.fixes, vec!["Unclosed { tag at position 6... theek kar diya (fixed it)"]);
}

#[test]
fn closes_unclosed_tag_before_next_open() {
    let r = jugaad_fix("{{a {{b}}");
    assert_eq!(r.fixed_template, "{{a}}{{b}}");
    assert_eq!(r.fixes, vec![
        "Unclosed { tag at position 0... theek kar diya (fixed it)",
        "Whitespace in tag name... saaf kar diya (cleaned it up)",
    ]);
}

#[test]
fn lone_brace_is_completed() {
    let r = jugaad_fix("Hello, {{name}!");
    assert_eq!(r.fixed_template, "Hello, {{name}}!");
    assert_eq!(r.fixes, vec!["Unclosed { tag at position 7... theek kar diya (fixed it)"]);
    let r2 = jugaad_fix("{{a} {{b}}");
    assert_eq!(r2.fixed_template, "{{a}} {{b}}");
    assert_eq!(r2.fixes.len(), 1);
}

#[test]
fn repaired_lone_brace_renders() {
    let r = jugaad_fix("Hello, {{name}!");
    let data = JsonValue::Object(vec![("name".to_string(), JsonValue::String("World".to_string()))]);
    let nodes = parse(Scanner::scan(&r.fixed_template)).unwrap();
    assert_eq!(render(&nodes, &data, &[]), "Hello, World!");
}

#[test]
fn positions_are_in_bytes() {
    let r = jugaad_fix("{{é}}{{x");
    assert_eq!(r.fixed_template, "{{é}}{{x}}");
    assert_eq!(r.fixes, vec!["Unclosed { tag at position 6... theek kar diya (fixed it)"]);
}

#[test]
fn strips_whitespace_in_tags() {
    let r = jugaad_fix("{{ name }} {{# items }}x{{/ items }}{{> p }}{{& u }}");
    assert_eq!(r.fixed_template, "{{name}} {{#items}}x{{/items}}{{>p}}{{&u}}");
    assert_eq!(r.fixes.len(), 5);
    assert!(r.fixes.iter().all(|f| f == "Whitespace in tag name... saaf kar diya (cleaned it up)"));
}

#[test]
fn strips_whitespace_in_triple_tags() {
    let r = jugaad_fix("{{{ raw }}}");
    assert_eq!(r.fixed_template, "{{{ raw}}}");
    assert_eq!(r.fixes, vec!["Whitespace in tag name... saaf kar diya (cleaned it up)"]);
    let r2 = jugaad_fix("{{ { raw } }}");
    assert_eq!(r2.fixed_template, "{{{raw}}}");
}

#[test]
fn leaves_comments_and_delimiter_changes() {
    let r = jugaad_fix("{{!  note  }}{{= <% %> =}}");
    assert_eq!(r.fixed_template, "{{!  note  }}{{= <% %> =}}");
    assert!(r.fixes.is_empty());
}

#[test]
fn removes_orphan_close_tags() {
    let r = jugaad_fix("a{{/x}}b");
    assert_eq!(r.fixed_template, "ab");
    assert_eq!(r.fixes, vec!["Orphan closing tag 'x'... hata diya (removed it)"]);
}

#[test]
fn closes_open_sections_innermost_first() {
    let r = jugaad_fix("{{#a}}{{^b}}x");
    assert_eq!(r.fixed_template, "{{#a}}{{^b}}x{{/b}}{{/a}}");
    assert_eq!(r.fixes, vec![
        "Unclosed section 'b'... band kar diya (closed it)",
        "Unclosed section 'a'... band kar diya (closed it)",
    ]);
}

#[test]
fn close_tag_closes_inner_sections_first() {
    let r = jugaad_fix("{{#a}}{{#b}}x{{/a}}");
    assert_eq!(r.fixed_template, "{{#a}}{{#b}}x{{/b}}{{/a}}");
    assert_eq!(r.fixes, vec!["Unclosed section 'b'... band kar diya (closed it)"]);
    let r2 = jugaad_fix("{{#a}}{{#b}}{{^c}}{{/a}}y");
    assert_eq!(r2.fixed_template, "{{#a}}{{#b}}{{^c}}{{/c}}{{/b}}{{/a}}y");
    assert_eq!(r2.fixes, vec![
        "Unclosed section 'c'... band kar diya (closed it)",
        "Unclosed section 'b'... band kar diya (closed it)",
    ]);
}

#[test]
fn repaired_interleaved_sections_parse() {
    let r = jugaad_fix("{{#a}}{{#b}}x{{/a}}");
    assert!(parse(Scanner::scan(&r.fixed_template)).is_ok());
}

#[test]
fn good_template_is_untouched() {
    let template = "Hello {{name}}! {{#list}}{{.}}{{/list}} {{{raw}}}";
    let r = jugaad_fix(template);
    assert_eq!(r.fixed_template, template);
    assert!(r.fixes.is_empty());
}

#[test]
fn empty_template() {
    let r = jugaad_fix("");
    assert_eq!(r.fixed_template, "");
    assert!(r.fixes.is_empty());
}

#[test]
fn non_ascii_text_is_repaired_too() {
    let r = jugaad_fix("é {{x}}");
    assert_eq!(r.fixed_template, "é {{x}}");
    assert!(r.fixes.is_empty());
    let r2 = jugaad_fix("héllo {{x");
    assert_eq!(r2.fixed_template, "héllo {{x}}");
    assert_eq!(r2.fixes, vec!["Unclosed { tag at position 7... theek kar diya (fixed it)"]);
    let r3 = jugaad_fix("{{ ñame }} ✓");
    assert_eq!(r3.fixed_template, "{{ñame}} ✓");
}

#[test]
fn template_without_tags_is_untouched() {
    let r = jugaad_fix("plain → text }} here");
    assert_eq!(r.fixed_template, "plain → text }} here");
    assert!(r.fixes.is_empty());
}

#[test]
fn every_report_has_a_known_form() {
    let r = jugaad_fix("{{#a}}{{ b }}{{/c}}{{#d}}{{x");
    assert!(!r.fixes.is_empty());
    for f in &r.fixes {
        let known = (f.starts_with("Unclosed { tag at position ")
            && f.ends_with("... theek kar diya (fixed it)"))
            || f == "Whitespace in tag name... saaf kar diya (cleaned it up)"
            || (f.starts_with("Orphan closing tag '") && f.ends_with("'... hata diya (removed it)"))
            || (f.starts_with("Unclosed section '") && f.ends_with("'... band kar diya (closed it)"));
        assert!(known, "unexpected report {}", f);
    }
}

#[test]
fn repaired_sections_parse() {
    for template in [
        "{{#a}}x",
        "a{{/x}}b{{#b}}",
        "{{#a}}{{#b}}x{{/a}}{{^c}}y",
        "{{^a}}{{/b}}{{#c}}{{/a}}{{/c}}",
        "{ {{#list}}{{.}}{{/nope}}",
    ] {
        let r = jugaad_fix(template);
        assert!(parse(Scanner::scan(&r.fixed_template)).is_ok(), "{}", r.fixed_template);
    }
}
