//! The explanation of a template: a trace with one line per node (none for
//! text that is only whitespace), the children of a section indented one
//! space further, and for variables what their name finds in the data.

use vstd::prelude::*;
use crate::json::{JsonValue, lookup, lookup_spec, deref_all};
use crate::parser::{Node, NodeView, lemma_section_view, node_view, nodes_view};
use crate::text::{chars_of, push_char, push_range, push_str, string_of, trim, trim_range};

verus! {

broadcast use vstd::string::group_string_axioms;

/// A line of the explanation: a finished text, or a text to be followed by the
/// JSON text of a value that the data holds.
#[derive(Debug)]
pub enum ExplainLine<'a> {
    Text(String),
    Value { head: String, value: &'a JsonValue },
}

/// A line of the explanation, as characters and values.
pub enum ExplainLineView {
    Text(Seq<char>),
    Value(Seq<char>, JsonValue),
}

/// The view of an explanation line.
pub open spec fn line_view(l: ExplainLine) -> ExplainLineView {
    match l {
        ExplainLine::Text(s) => ExplainLineView::Text(s@),
        ExplainLine::Value { head, value } => ExplainLineView::Value(head@, *value),
    }
}

/// The views of explanation lines.
pub open spec fn lines_view(ls: Seq<ExplainLine>) -> Seq<ExplainLineView> {
    ls.map_values(|l: ExplainLine| line_view(l))
}

/// The line for a variable: `head` followed by what the name finds in `data`:
/// `found` and a string in quotes, or `found` and another value as JSON, or
/// `not found`.
pub open spec fn value_line(head: Seq<char>, found: Seq<char>, data: JsonValue, name: Seq<char>) -> ExplainLineView {
    match lookup_spec(seq![data], name) {
        Some(JsonValue::String(s)) => ExplainLineView::Text(head + found + "\""@ + s@ + "\""@),
        Some(v) => ExplainLineView::Value(head + found, v),
        None => ExplainLineView::Text(head + "not found"@),
    }
}

/// The lines for one node, indented by `indent`. Text and variables are shown
/// as tagged lines (`[TEXT]     "..."`, `[VARIABLE] {{name}} → "..."`); the
/// other tags as written, followed by what they do.
pub open spec fn explain_node(n: NodeView, data: JsonValue, indent: Seq<char>) -> Seq<
    ExplainLineView,
>
    decreases n,
{
    match n {
        NodeView::Text(t) => if trim(t).len() > 0 {
            seq![ExplainLineView::Text(indent + "[TEXT]     \""@ + t + "\""@)]
        } else {
            seq![]
        },
        NodeView::Variable(name) => seq![
            value_line(indent + "[VARIABLE] {{"@ + name + "}} → "@, seq![], data, name),
        ],
        NodeView::UnescapedVariable(name) => seq![
            value_line(
                indent + "{{{"@ + name + "}}} -> raw variable (no HTML escape) -> "@,
                "found "@,
                data,
                name,
            ),
        ],
        NodeView::Section { name, children, inverted } => {
            let opening = if inverted {
                indent + "{{^"@ + name + "}} -> inverted section -> checking if falsy..."@
            } else {
                indent + "{{#"@ + name + "}} -> section -> checking if truthy..."@
            };
            seq![ExplainLineView::Text(opening)] + explain_list(children, data, indent.push(' '))
                + seq![ExplainLineView::Text(indent + "{{/"@ + name + "}} -> end section"@)]
        },
        NodeView::Comment(c) => seq![
            ExplainLineView::Text(indent + "{{! "@ + trim(c) + " }} -> comment, not rendered"@),
        ],
        NodeView::Partial(name) => seq![
            ExplainLineView::Text(
                indent + "{{> "@ + name + "}} -> partial template '"@ + name + "'"@,
            ),
        ],
    }
}

/// The line for a variable reports what the renderer's lookup finds for its
/// name in the data: `not found` where it finds nothing, a string in quotes,
/// or any other value itself.
pub proof fn lemma_value_line_reports_lookup(
    head: Seq<char>,
    found: Seq<char>,
    data: JsonValue,
    name: Seq<char>,
)
    ensures
        lookup_spec(seq![data], name) is None ==> value_line(head, found, data, name)
            == ExplainLineView::Text(head + "not found"@),
        lookup_spec(seq![data], name) is Some && lookup_spec(seq![data], name)->0 is String
            ==> value_line(head, found, data, name) == ExplainLineView::Text(
            head + found + "\""@ + lookup_spec(seq![data], name)->0->String_0@ + "\""@,
        ),
        lookup_spec(seq![data], name) is Some && !(lookup_spec(seq![data], name)->0 is String)
            ==> value_line(head, found, data, name) == ExplainLineView::Value(
            head + found,
            lookup_spec(seq![data], name)->0,
        ),
{
}

/// The lines for a list of nodes, indented by `indent`.
pub open spec fn explain_list(ns: Seq<NodeView>, data: JsonValue, indent: Seq<char>) -> Seq<
    ExplainLineView,
>
    decreases ns,
{
    if ns.len() == 0 {
        seq![]
    } else {
        explain_list(ns.drop_last(), data, indent) + explain_node(ns.last(), data, indent)
    }
}

/// The whole trace: the lines of the nodes, from the left margin.
pub open spec fn explain_spec(ns: Seq<NodeView>, data: JsonValue) -> Seq<ExplainLineView> {
    explain_list(ns, data, seq![])
}

/// The last line of a trace: the output, in quotes.
pub open spec fn result_line_spec(output: Seq<char>) -> Seq<char> {
    "→ \""@ + output + "\""@
}

proof fn lemma_lines_push(ls: Seq<ExplainLine>, l: ExplainLine)
    ensures
        lines_view(ls.push(l)) == lines_view(ls).push(line_view(l)),
{
    assert(lines_view(ls.push(l)) =~= lines_view(ls).push(line_view(l)));
}

/// The line for a variable; see `value_line`.
fn value_line_exec<'a>(head: String, found: &str, data: &'a JsonValue, name: &String) -> (r: ExplainLine<'a>)
    ensures
        line_view(r) == value_line(head@, found@, *data, name@),
{
    let stack: Vec<&'a JsonValue> = vec![data];
    assert(deref_all(stack@) =~= seq![*data]);
    let mut head = head;
    match lookup(stack.as_slice(), name.as_str()) {
        Some(v) => {
            match v {
                JsonValue::String(s) => {
                    push_str(&mut head, found);
                    push_str(&mut head, "\"");
                    push_str(&mut head, s.as_str());
                    push_str(&mut head, "\"");
                    ExplainLine::Text(head)
                },
                _ => {
                    push_str(&mut head, found);
                    ExplainLine::Value { head, value: v }
                },
            }
        },
        None => {
            push_str(&mut head, "not found");
            ExplainLine::Text(head)
        },
    }
}

/// `indent` followed by `a`, `name` and `b`.
fn line_of(indent: &String, a: &str, name: &String, b: &str) -> (r: String)
    ensures
        r@ == indent@ + a@ + name@ + b@,
{
    let mut r = string_of(indent.as_str());
    push_str(&mut r, a);
    push_str(&mut r, name.as_str());
    push_str(&mut r, b);
    r
}

/// Appends the lines of `nodes` to `out`; see `explain_list`.
fn explain_into<'a>(
    nodes: &'a [Node],
    data: &'a JsonValue,
    indent: &String,
    out: &mut Vec<ExplainLine<'a>>,
)
    ensures
        lines_view(final(out)@) == lines_view(old(out)@) + explain_list(
            nodes_view(nodes@),
            *data,
            indent@,
        ),
    decreases nodes_view(nodes@),
{
    let ghost nv = nodes_view(nodes@);
    let ghost start = lines_view(out@);
    assert(nv.take(0) =~= Seq::<NodeView>::empty());
    assert(start + explain_list(nv.take(0), *data, indent@) =~= start);
    let mut i: usize = 0;
    while i < nodes.len()
        invariant
            i <= nodes.len(),
            nv == nodes_view(nodes@),
            lines_view(out@) == start + explain_list(nv.take(i as int), *data, indent@),
        decreases nodes.len() - i,
    {
        let ghost nd = node_view(nodes@[i as int]);
        assert(nv[i as int] == nd);
        assert(nv.take(i + 1).drop_last() =~= nv.take(i as int));
        assert(nv.take(i + 1).last() == nd);
        let ghost before = lines_view(out@);
        match &nodes[i] {
            Node::Text(t) => {
                let tc = chars_of(t.as_str());
                let (a, b) = trim_range(&tc, 0, tc.len());
                assert(tc@.subrange(0, tc.len() as int) =~= t@);
                if a < b {
                    let l = ExplainLine::Text(line_of(indent, "[TEXT]     \"", t, "\""));
                    proof {
                        lemma_lines_push(out@, l);
                    }
                    out.push(l);
                } else {
                    assert(before + explain_node(nd, *data, indent@) =~= before);
                }
            },
            Node::Variable(name) => {
                let head = line_of(indent, "[VARIABLE] {{", name, "}} → ");
                let l = value_line_exec(head, "", data, name);
                assert(""@ =~= Seq::<char>::empty()) by {
                    reveal_strlit("");
                }
                proof {
                    lemma_lines_push(out@, l);
                }
                out.push(l);
            },
            Node::UnescapedVariable(name) => {
                let head = line_of(
                    indent,
                    "{{{",
                    name,
                    "}}} -> raw variable (no HTML escape) -> ",
                );
                let l = value_line_exec(head, "found ", data, name);
                proof {
                    lemma_lines_push(out@, l);
                }
                out.push(l);
            },
            Node::Section { name, children, inverted } => {
                proof {
                    lemma_section_view(nodes@[i as int]);
                    assert(decreases_to!(nv => nv[i as int]));
                    assert(decreases_to!(nd => nd->children));
                }
                let opening = if *inverted {
                    line_of(indent, "{{^", name, "}} -> inverted section -> checking if falsy...")
                } else {
                    line_of(indent, "{{#", name, "}} -> section -> checking if truthy...")
                };
                let l = ExplainLine::Text(opening);
                proof {
                    lemma_lines_push(out@, l);
                }
                out.push(l);
                let mut inner = string_of(indent.as_str());
                push_char(&mut inner, ' ');
                explain_into(children.as_slice(), data, &inner, out);
                assert(inner@ == indent@.push(' '));
                let closing = line_of(indent, "{{/", name, "}} -> end section");
                let l2 = ExplainLine::Text(closing);
                proof {
                    lemma_lines_push(out@, l2);
                }
                out.push(l2);
            },
            Node::Comment(c) => {
                let cc = chars_of(c.as_str());
                let (a, b) = trim_range(&cc, 0, cc.len());
                assert(cc@.subrange(0, cc.len() as int) =~= c@);
                let mut line = string_of(indent.as_str());
                push_str(&mut line, "{{! ");
                push_range(&mut line, &cc, a, b);
                push_str(&mut line, " }} -> comment, not rendered");
                let l = ExplainLine::Text(line);
                proof {
                    lemma_lines_push(out@, l);
                }
                out.push(l);
            },
            Node::Partial(name) => {
                let mut line = line_of(indent, "{{> ", name, "}} -> partial template '");
                push_str(&mut line, name.as_str());
                push_str(&mut line, "'");
                let l = ExplainLine::Text(line);
                proof {
                    lemma_lines_push(out@, l);
                }
                out.push(l);
            },
        }
        assert(lines_view(out@) =~= before + explain_node(nd, *data, indent@));
        assert(lines_view(out@) =~= start + explain_list(nv.take(i + 1), *data, indent@));
        i = i + 1;
    }
    assert(nv.take(i as int) =~= nv);
}

/// The trace of `nodes` against `data`; see `explain_spec`.
pub fn explain_lines<'a>(nodes: &'a [Node], data: &'a JsonValue) -> (r: Vec<ExplainLine<'a>>)
    ensures
        lines_view(r@) == explain_spec(nodes_view(nodes@), *data),
{
    let mut out: Vec<ExplainLine<'a>> = Vec::new();
    let indent = String::new();
    assert(indent@ =~= Seq::<char>::empty());
    explain_into(nodes, data, &indent, &mut out);
    assert(lines_view(out@) =~= explain_spec(nodes_view(nodes@), *data));
    out
}

/// The last line of a trace, for the output `output`; see `result_line_spec`.
pub fn result_line(output: &str) -> (r: String)
    ensures
        r@ == result_line_spec(output@),
{
    let mut r = string_of("→ \"");
    push_str(&mut r, output);
    push_str(&mut r, "\"");
    r
}

} // verus!
