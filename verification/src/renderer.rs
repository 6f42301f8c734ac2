//! The renderer: walks a parsed template against a JSON value and builds the
//! output text.

use vstd::prelude::*;
use crate::json::{
    JsonValue, deref_all, is_truthy, lookup, lookup_spec, string_is, truthy, val_to_string,
    value_text,
};
use crate::parser::{
    Node, NodeView, lemma_section_view, node_view, nodes_view, parse, parse_from, parse_spec,
};
use crate::scanner::{Scanner, TokenView, default_open, lemma_scan_plain, scan_spec};
use crate::text::{chars_of, find, push_char, push_str};

verus! {

broadcast use vstd::string::group_string_axioms;

// ---------------------------------------------------------------------------
// HTML escaping
// ---------------------------------------------------------------------------

/// What one character becomes in escaped output.
pub open spec fn escape_char(c: char) -> Seq<char> {
    if c == '&' {
        "&amp;"@
    } else if c == '<' {
        "&lt;"@
    } else if c == '>' {
        "&gt;"@
    } else if c == '"' {
        "&quot;"@
    } else if c == '\'' {
        "&#39;"@
    } else if c == '/' {
        "&#x2F;"@
    } else {
        seq![c]
    }
}

/// `s` with each of `& < > " ' /` replaced by its HTML entity.
pub open spec fn html_escape_spec(s: Seq<char>) -> Seq<char>
    decreases s.len(),
{
    if s.len() == 0 {
        seq![]
    } else {
        html_escape_spec(s.drop_last()) + escape_char(s.last())
    }
}

/// Appends `s` to `out` with each of `& < > " ' /` replaced by its HTML entity.
fn push_escaped(out: &mut String, s: &str)
    ensures
        final(out)@ == old(out)@ + html_escape_spec(s@),
{
    let v = chars_of(s);
    let ghost start = out@;
    let mut k: usize = 0;
    assert(v@.take(0) =~= Seq::<char>::empty());
    assert(start + html_escape_spec(v@.take(0)) =~= start);
    while k < v.len()
        invariant
            k <= v.len(),
            v@ == s@,
            out@ == start + html_escape_spec(v@.take(k as int)),
        decreases v.len() - k,
    {
        let c = v[k];
        if c == '&' {
            push_str(out, "&amp;");
        } else if c == '<' {
            push_str(out, "&lt;");
        } else if c == '>' {
            push_str(out, "&gt;");
        } else if c == '"' {
            push_str(out, "&quot;");
        } else if c == '\'' {
            push_str(out, "&#39;");
        } else if c == '/' {
            push_str(out, "&#x2F;");
        } else {
            push_char(out, c);
        }
        let ghost tk = v@.take(k + 1);
        assert(tk.drop_last() =~= v@.take(k as int));
        assert(tk.last() == c);
        assert(start + html_escape_spec(tk) =~= start + html_escape_spec(v@.take(k as int))
            + escape_char(c));
        k = k + 1;
    }
    assert(v@.take(k as int) =~= s@);
}

/// `s` with each of `& < > " ' /` replaced by its HTML entity (`&amp;`,
/// `&lt;`, `&gt;`, `&quot;`, `&#39;`, `&#x2F;`).
pub fn html_escape(s: &str) -> (r: String)
    ensures
        r@ == html_escape_spec(s@),
{
    let mut r = String::new();
    push_escaped(&mut r, s);
    assert(r@ =~= html_escape_spec(s@));
    r
}

/// The text that escaped output stands for: each entity that
/// `escape_char` writes read back as its character, every other character as
/// itself.
pub open spec fn html_unescape_spec(s: Seq<char>) -> Seq<char>
    decreases s.len(),
{
    if s.len() == 0 {
        seq![]
    } else if s.len() >= 5 && s.take(5) == "&amp;"@ {
        seq!['&'] + html_unescape_spec(s.skip(5))
    } else if s.len() >= 4 && s.take(4) == "&lt;"@ {
        seq!['<'] + html_unescape_spec(s.skip(4))
    } else if s.len() >= 4 && s.take(4) == "&gt;"@ {
        seq!['>'] + html_unescape_spec(s.skip(4))
    } else if s.len() >= 6 && s.take(6) == "&quot;"@ {
        seq!['"'] + html_unescape_spec(s.skip(6))
    } else if s.len() >= 5 && s.take(5) == "&#39;"@ {
        seq!['\''] + html_unescape_spec(s.skip(5))
    } else if s.len() >= 6 && s.take(6) == "&#x2F;"@ {
        seq!['/'] + html_unescape_spec(s.skip(6))
    } else {
        seq![s[0]] + html_unescape_spec(s.drop_first())
    }
}

/// `html_escape_spec`, taken from the front.
proof fn lemma_escape_front(s: Seq<char>)
    requires
        s.len() > 0,
    ensures
        html_escape_spec(s) == escape_char(s[0]) + html_escape_spec(s.drop_first()),
    decreases s.len(),
{
    if s.len() == 1 {
        assert(s.drop_last() =~= Seq::<char>::empty());
        assert(s.drop_first() =~= Seq::<char>::empty());
        assert(escape_char(s[0]) + Seq::<char>::empty() =~= escape_char(s[0]));
        assert(Seq::<char>::empty() + escape_char(s[0]) =~= escape_char(s[0]));
    } else {
        lemma_escape_front(s.drop_last());
        assert(s.drop_last().drop_first() =~= s.drop_first().drop_last());
        assert(s.drop_first().last() == s.last());
        assert(s.drop_last()[0] == s[0]);
        assert(escape_char(s[0]) + html_escape_spec(s.drop_first().drop_last()) + escape_char(
            s.last(),
        ) =~= escape_char(s[0]) + (html_escape_spec(s.drop_first().drop_last()) + escape_char(
            s.last(),
        )));
    }
}

/// Reading back what `escape_char(c)` wrote, in front of anything, gives `c`
/// in front of the rest read back.
proof fn lemma_unescape_char(c: char, rest: Seq<char>)
    ensures
        html_unescape_spec(escape_char(c) + rest) == seq![c] + html_unescape_spec(rest),
{
    reveal_strlit("&amp;");
    reveal_strlit("&lt;");
    reveal_strlit("&gt;");
    reveal_strlit("&quot;");
    reveal_strlit("&#39;");
    reveal_strlit("&#x2F;");
    let e = escape_char(c);
    let t = e + rest;
    assert(t.skip(e.len() as int) =~= rest);
    if c == '&' || c == '<' || c == '>' || c == '"' || c == '\'' || c == '/' {
        assert(t.take(e.len() as int) =~= e);
        assert(t[0] == '&');
        if c != '&' && t.len() >= 5 {
            assert(t.take(5)[1] != "&amp;"@[1]);
        }
        if c != '<' && c != '&' && t.len() >= 4 {
            assert(t.take(4)[1] != "&lt;"@[1]);
        }
        if c != '>' && c != '<' && c != '&' && t.len() >= 4 {
            assert(t.take(4)[1] != "&gt;"@[1]);
        }
        if (c == '\'' || c == '/') && t.len() >= 6 {
            assert(t.take(6)[1] != "&quot;"@[1]);
        }
        if c == '/' {
            assert(t.take(5)[2] != "&#39;"@[2]);
        }
    } else {
        assert(e == seq![c]);
        assert(t[0] == c);
        assert(t.drop_first() =~= rest);
        if t.len() >= 4 {
            assert(t.take(4)[0] == c);
        }
        if t.len() >= 5 {
            assert(t.take(5)[0] == c);
        }
        if t.len() >= 6 {
            assert(t.take(6)[0] == c);
        }
    }
}

/// Escaping loses nothing: reading escaped text back gives the text.
pub proof fn lemma_unescape_escape(s: Seq<char>)
    ensures
        html_unescape_spec(html_escape_spec(s)) == s,
    decreases s.len(),
{
    if s.len() > 0 {
        lemma_escape_front(s);
        lemma_unescape_escape(s.drop_first());
        lemma_unescape_char(s[0], html_escape_spec(s.drop_first()));
        assert(seq![s[0]] + s.drop_first() =~= s);
    }
}

/// The characters that escaped output never holds bare.
pub open spec fn is_html_special(c: char) -> bool {
    c == '<' || c == '>' || c == '"' || c == '\'' || c == '/'
}

proof fn lemma_escape_char_safe(c: char)
    ensures
        forall|i: int|
            0 <= i < escape_char(c).len() ==> !is_html_special(#[trigger] escape_char(c)[i]),
        !(c == '&' || is_html_special(c)) ==> escape_char(c) == seq![c],
{
    reveal_strlit("&amp;");
    reveal_strlit("&lt;");
    reveal_strlit("&gt;");
    reveal_strlit("&quot;");
    reveal_strlit("&#39;");
    reveal_strlit("&#x2F;");
}

/// Escaped text holds none of `< > " ' /`.
pub proof fn lemma_escaped_is_safe(s: Seq<char>)
    ensures
        forall|i: int|
            0 <= i < html_escape_spec(s).len() ==> !is_html_special(
                #[trigger] html_escape_spec(s)[i],
            ),
    decreases s.len(),
{
    if s.len() > 0 {
        lemma_escaped_is_safe(s.drop_last());
        lemma_escape_char_safe(s.last());
        let a = html_escape_spec(s.drop_last());
        let b = escape_char(s.last());
        assert forall|i: int| 0 <= i < (a + b).len() implies !is_html_special(
            #[trigger] (a + b)[i],
        ) by {
            if i < a.len() {
                assert((a + b)[i] == a[i]);
            } else {
                assert((a + b)[i] == b[i - a.len()]);
            }
        }
    }
}

/// Escaping leaves text without `& < > " ' /` as it is.
pub proof fn lemma_escape_plain(s: Seq<char>)
    requires
        forall|i: int| 0 <= i < s.len() ==> !(s[i] == '&' || is_html_special(#[trigger] s[i])),
    ensures
        html_escape_spec(s) == s,
    decreases s.len(),
{
    if s.len() > 0 {
        lemma_escape_plain(s.drop_last());
        lemma_escape_char_safe(s.last());
        assert(s.drop_last().push(s.last()) =~= s);
    }
}

// ---------------------------------------------------------------------------
// What rendering produces
// ---------------------------------------------------------------------------

/// The source of the partial `name`: the first of `partials` with that name.
pub open spec fn partial_source(partials: Seq<(String, String)>, name: Seq<char>) -> Option<
    Seq<char>,
>
    decreases partials.len(),
{
    if partials.len() == 0 {
        None
    } else if partials[0].0@ == name {
        Some(partials[0].1@)
    } else {
        partial_source(partials.drop_first(), name)
    }
}

/// The output of `nodes` rendered in the context stack `stack` (innermost
/// last), with the partial templates `partials`, where partials nest at most
/// `fuel` deep. `None` where they nest deeper.
pub open spec fn render_list(
    nodes: Seq<NodeView>,
    stack: Seq<JsonValue>,
    partials: Seq<(String, String)>,
    fuel: nat,
) -> Option<Seq<char>>
    decreases fuel, nodes, 0nat,
{
    if nodes.len() == 0 {
        Some(seq![])
    } else {
        match render_list(nodes.drop_last(), stack, partials, fuel) {
            Some(a) => match render_node(nodes.last(), stack, partials, fuel) {
                Some(b) => Some(a + b),
                None => None,
            },
            None => None,
        }
    }
}

/// The output of `children` rendered once for each of `items`, each time with
/// the item as the innermost context.
pub open spec fn render_items(
    children: Seq<NodeView>,
    stack: Seq<JsonValue>,
    items: Seq<JsonValue>,
    partials: Seq<(String, String)>,
    fuel: nat,
) -> Option<Seq<char>>
    decreases fuel, children, items.len(),
{
    if items.len() == 0 {
        Some(seq![])
    } else {
        match render_items(children, stack, items.drop_last(), partials, fuel) {
            Some(a) => match render_list(children, stack.push(items.last()), partials, fuel) {
                Some(b) => Some(a + b),
                None => None,
            },
            None => None,
        }
    }
}

/// The output of one node: text as it is; a comment as nothing; a variable as
/// the text of its value, HTML-escaped unless it is unescaped, and nothing
/// where it has no value; a section over a truthy value as its children, once
/// per item of an array and else once with the value as innermost context; an
/// inverted section as its children where its value is missing or falsy; a
/// partial as its template, parsed, rendered in the same contexts (nothing
/// where there is no such partial or it does not parse).
pub open spec fn render_node(
    n: NodeView,
    stack: Seq<JsonValue>,
    partials: Seq<(String, String)>,
    fuel: nat,
) -> Option<Seq<char>>
    decreases fuel, n, 0nat,
{
    match n {
        NodeView::Text(t) => Some(t),
        NodeView::Comment(_) => Some(seq![]),
        NodeView::Variable(name) => match lookup_spec(stack, name) {
            Some(v) => Some(html_escape_spec(value_text(v))),
            None => Some(seq![]),
        },
        NodeView::UnescapedVariable(name) => match lookup_spec(stack, name) {
            Some(v) => Some(value_text(v)),
            None => Some(seq![]),
        },
        NodeView::Partial(name) => match partial_source(partials, name) {
            None => Some(seq![]),
            Some(src) => match parse_spec(scan_spec(src)) {
                Err(_) => Some(seq![]),
                Ok(ns) => if fuel == 0 {
                    None
                } else {
                    render_list(ns, stack, partials, (fuel - 1) as nat)
                },
            },
        },
        NodeView::Section { name, children, inverted } => {
            let val = lookup_spec(stack, name);
            let is_true = val is Some && truthy(val->0);
            if inverted {
                if !is_true {
                    render_list(children, stack, partials, fuel)
                } else {
                    Some(seq![])
                }
            } else if is_true {
                match val->0 {
                    JsonValue::Array(arr) => render_items(children, stack, arr@, partials, fuel),
                    v => render_list(children, stack.push(v), partials, fuel),
                }
            } else {
                Some(seq![])
            }
        },
    }
}

// ---------------------------------------------------------------------------
// The renderer
// ---------------------------------------------------------------------------

/// The source of the partial `name` in `partials`.
fn find_partial<'a>(partials: &'a [(String, String)], name: &String) -> (r: Option<&'a String>)
    ensures
        match r {
            Some(s) => partial_source(partials@, name@) == Some(s@),
            None => partial_source(partials@, name@) is None,
        },
{
    let nc = chars_of(name.as_str());
    let mut k: usize = 0;
    assert(partials@.skip(0) =~= partials@);
    while k < partials.len()
        invariant
            k <= partials.len(),
            nc@ == name@,
            partial_source(partials@, name@) == partial_source(partials@.skip(k as int), name@),
        decreases partials.len() - k,
    {
        assert(partials@.skip(k as int)[0] == partials@[k as int]);
        assert(partials@.skip(k as int).drop_first() =~= partials@.skip(k + 1));
        if string_is(&partials[k].0, &nc) {
            return Some(&partials[k].1);
        }
        k = k + 1;
    }
    None
}

/// `stack` with `top` pushed on it.
fn pushed<'a>(stack: &Vec<&'a JsonValue>, top: &'a JsonValue) -> (r: Vec<&'a JsonValue>)
    ensures
        deref_all(r@) == deref_all(stack@).push(*top),
{
    let mut r: Vec<&'a JsonValue> = Vec::new();
    let mut k: usize = 0;
    while k < stack.len()
        invariant
            k <= stack.len(),
            r@ == stack@.take(k as int),
        decreases stack.len() - k,
    {
        r.push(stack[k]);
        assert(r@ =~= stack@.take(k + 1));
        k = k + 1;
    }
    r.push(top);
    assert(r@ =~= stack@.push(top));
    assert(deref_all(r@) =~= deref_all(stack@).push(*top));
    r
}

/// `render_list` grows one node at a time.
proof fn lemma_render_list_step(
    nodes: Seq<NodeView>,
    k: int,
    stack: Seq<JsonValue>,
    partials: Seq<(String, String)>,
    fuel: nat,
)
    requires
        0 <= k < nodes.len(),
    ensures
        render_list(nodes.take(k + 1), stack, partials, fuel) == match render_list(
            nodes.take(k),
            stack,
            partials,
            fuel,
        ) {
            Some(a) => match render_node(nodes[k], stack, partials, fuel) {
                Some(b) => Some(a + b),
                None => None,
            },
            None => None,
        },
{
    assert(nodes.take(k + 1).drop_last() =~= nodes.take(k));
    assert(nodes.take(k + 1).last() == nodes[k]);
}

/// `render_items` grows one item at a time.
proof fn lemma_render_items_step(
    children: Seq<NodeView>,
    stack: Seq<JsonValue>,
    items: Seq<JsonValue>,
    k: int,
    partials: Seq<(String, String)>,
    fuel: nat,
)
    requires
        0 <= k < items.len(),
    ensures
        render_items(children, stack, items.take(k + 1), partials, fuel) == match render_items(
            children,
            stack,
            items.take(k),
            partials,
            fuel,
        ) {
            Some(a) => match render_list(children, stack.push(items[k]), partials, fuel) {
                Some(b) => Some(a + b),
                None => None,
            },
            None => None,
        },
{
    assert(items.take(k + 1).drop_last() =~= items.take(k));
    assert(items.take(k + 1).last() == items[k]);
}

/// Renders `nodes` in the context stack `stack` onto `out`, with partials
/// nesting at most `fuel` deep. Returns whether that was enough.
fn render_nodes(
    nodes: &[Node],
    stack: &Vec<&JsonValue>,
    partials: &[(String, String)],
    out: &mut String,
    fuel: usize,
) -> (ok: bool)
    ensures
        ok == render_list(nodes_view(nodes@), deref_all(stack@), partials@, fuel as nat) is Some,
        ok ==> final(out)@ == old(out)@ + render_list(
            nodes_view(nodes@),
            deref_all(stack@),
            partials@,
            fuel as nat,
        )->0,
    decreases fuel, nodes_view(nodes@), 1nat,
{
    let ghost nv = nodes_view(nodes@);
    let ghost st = deref_all(stack@);
    let ghost ps = partials@;
    let ghost f = fuel as nat;
    let ghost start = out@;
    assert(nv.take(0) =~= Seq::<NodeView>::empty());
    let mut i: usize = 0;
    while i < nodes.len()
        invariant
            i <= nodes.len(),
            nv == nodes_view(nodes@),
            nv.len() == nodes.len(),
            st == deref_all(stack@),
            ps == partials@,
            f == fuel as nat,
            render_list(nv.take(i as int), st, ps, f) is Some,
            out@ == start + render_list(nv.take(i as int), st, ps, f)->0,
        decreases nodes.len() - i,
    {
        proof {
            lemma_render_list_step(nv, i as int, st, ps, f);
        }
        let ghost before = out@;
        let ghost nd = nv[i as int];
        assert(nd == node_view(nodes@[i as int]));
        let ok = render_node_at(nodes, i, stack, partials, out, fuel);
        if !ok {
            proof {
                lemma_render_list_none_extends(nv, i as int + 1, st, ps, f);
            }
            return false;
        }
        assert(out@ =~= start + render_list(nv.take(i + 1), st, ps, f)->0);
        i = i + 1;
    }
    assert(nv.take(i as int) =~= nv);
    true
}

/// Where a prefix of a node list does not render, neither does the list.
proof fn lemma_render_list_none_extends(
    nodes: Seq<NodeView>,
    k: int,
    stack: Seq<JsonValue>,
    partials: Seq<(String, String)>,
    fuel: nat,
)
    requires
        0 <= k <= nodes.len(),
        render_list(nodes.take(k), stack, partials, fuel) is None,
    ensures
        render_list(nodes, stack, partials, fuel) is None,
    decreases nodes.len() - k,
{
    if k < nodes.len() {
        lemma_render_list_step(nodes, k, stack, partials, fuel);
        lemma_render_list_none_extends(nodes, k + 1, stack, partials, fuel);
    } else {
        assert(nodes.take(k) =~= nodes);
    }
}

/// Renders node `nodes[i]` onto `out`; see `render_nodes`.
fn render_node_at(
    nodes: &[Node],
    i: usize,
    stack: &Vec<&JsonValue>,
    partials: &[(String, String)],
    out: &mut String,
    fuel: usize,
) -> (ok: bool)
    requires
        i < nodes.len(),
    ensures
        ok == render_node(node_view(nodes@[i as int]), deref_all(stack@), partials@, fuel as nat) is Some,
        ok ==> final(out)@ == old(out)@ + render_node(
            node_view(nodes@[i as int]),
            deref_all(stack@),
            partials@,
            fuel as nat,
        )->0,
    decreases fuel, nodes_view(nodes@), 0nat,
{
    let ghost st = deref_all(stack@);
    let ghost nd = node_view(nodes@[i as int]);
    assert(nodes_view(nodes@)[i as int] == nd);
    match &nodes[i] {
        Node::Text(t) => {
            push_str(out, t.as_str());
            true
        },
        Node::Comment(_) => {
            assert(out@ =~= old(out)@ + Seq::<char>::empty());
            true
        },
        Node::Variable(name) => {
            match lookup(stack.as_slice(), name.as_str()) {
                Some(val) => {
                    let s = val_to_string(val);
                    push_escaped(out, s.as_str());
                },
                None => {
                    assert(out@ =~= old(out)@ + Seq::<char>::empty());
                },
            }
            true
        },
        Node::UnescapedVariable(name) => {
            match lookup(stack.as_slice(), name.as_str()) {
                Some(val) => {
                    let s = val_to_string(val);
                    push_str(out, s.as_str());
                },
                None => {
                    assert(out@ =~= old(out)@ + Seq::<char>::empty());
                },
            }
            true
        },
        Node::Partial(name) => {
            match load_partial(name, partials) {
                None => {
                    assert(out@ =~= old(out)@ + Seq::<char>::empty());
                    true
                },
                Some(ns) => {
                    if fuel == 0 {
                        false
                    } else {
                        render_nodes(ns.as_slice(), stack, partials, out, fuel - 1)
                    }
                },
            }
        },
        Node::Section { name, children, inverted } => {
            proof {
                lemma_section_view(nodes@[i as int]);
                assert(decreases_to!(nodes_view(nodes@) => nodes_view(nodes@)[i as int]));
                assert(decreases_to!(nd => nd->children));
            }
            let val_opt = lookup(stack.as_slice(), name.as_str());
            let is_true = match val_opt {
                Some(v) => is_truthy(v),
                None => false,
            };
            if *inverted {
                if !is_true {
                    render_nodes(children.as_slice(), stack, partials, out, fuel)
                } else {
                    assert(out@ =~= old(out)@ + Seq::<char>::empty());
                    true
                }
            } else if is_true {
                let val = match val_opt {
                    Some(v) => v,
                    None => {
                        return false;
                    },
                };
                match val {
                    JsonValue::Array(arr) => {
                        render_section_items(children, stack, arr, partials, out, fuel)
                    },
                    _ => {
                        let new_stack = pushed(stack, val);
                        render_nodes(children.as_slice(), &new_stack, partials, out, fuel)
                    },
                }
            } else {
                assert(out@ =~= old(out)@ + Seq::<char>::empty());
                true
            }
        },
    }
}

/// Renders `children` once for each item of `arr`; see `render_items`.
fn render_section_items<'a>(
    children: &Vec<Node>,
    stack: &Vec<&'a JsonValue>,
    arr: &'a Vec<JsonValue>,
    partials: &[(String, String)],
    out: &mut String,
    fuel: usize,
) -> (ok: bool)
    ensures
        ok == render_items(
            nodes_view(children@),
            deref_all(stack@),
            arr@,
            partials@,
            fuel as nat,
        ) is Some,
        ok ==> final(out)@ == old(out)@ + render_items(
            nodes_view(children@),
            deref_all(stack@),
            arr@,
            partials@,
            fuel as nat,
        )->0,
    decreases fuel, nodes_view(children@), arr@.len() + 2,
{
    let ghost cv = nodes_view(children@);
    let ghost st = deref_all(stack@);
    let ghost ps = partials@;
    let ghost f = fuel as nat;
    let ghost start = out@;
    let mut k: usize = 0;
    assert(arr@.take(0) =~= Seq::<JsonValue>::empty());
    while k < arr.len()
        invariant
            k <= arr.len(),
            cv == nodes_view(children@),
            st == deref_all(stack@),
            ps == partials@,
            f == fuel as nat,
            render_items(cv, st, arr@.take(k as int), ps, f) is Some,
            out@ == start + render_items(cv, st, arr@.take(k as int), ps, f)->0,
        decreases arr.len() - k,
    {
        proof {
            lemma_render_items_step(cv, st, arr@, k as int, ps, f);
        }
        let new_stack = pushed(stack, &arr[k]);
        let ok = render_nodes(children.as_slice(), &new_stack, partials, out, fuel);
        if !ok {
            proof {
                lemma_render_items_none_extends(cv, st, arr@, k as int + 1, ps, f);
            }
            return false;
        }
        assert(out@ =~= start + render_items(cv, st, arr@.take(k + 1), ps, f)->0);
        k = k + 1;
    }
    assert(arr@.take(k as int) =~= arr@);
    true
}

/// Where a prefix of the items does not render, neither do all of them.
proof fn lemma_render_items_none_extends(
    children: Seq<NodeView>,
    stack: Seq<JsonValue>,
    items: Seq<JsonValue>,
    k: int,
    partials: Seq<(String, String)>,
    fuel: nat,
)
    requires
        0 <= k <= items.len(),
        render_items(children, stack, items.take(k), partials, fuel) is None,
    ensures
        render_items(children, stack, items, partials, fuel) is None,
    decreases items.len() - k,
{
    if k < items.len() {
        lemma_render_items_step(children, stack, items, k, partials, fuel);
        lemma_render_items_none_extends(children, stack, items, k + 1, partials, fuel);
    } else {
        assert(items.take(k) =~= items);
    }
}

/// The parsed template of the partial `name`: `None` where there is no such
/// partial or its source does not parse.
fn load_partial(name: &String, partials: &[(String, String)]) -> (r: Option<Vec<Node>>)
    ensures
        match r {
            None => partial_source(partials@, name@) is None || (partial_source(
                partials@,
                name@,
            ) matches Some(src) && parse_spec(scan_spec(src)) is Err),
            Some(ns) => partial_source(partials@, name@) matches Some(src) && parse_spec(
                scan_spec(src),
            ) == Ok::<Seq<NodeView>, Seq<char>>(nodes_view(ns@)),
        },
{
    match find_partial(partials, name) {
        None => None,
        Some(content) => {
            let tokens = Scanner::scan(content.as_str());
            match parse(tokens) {
                Err(_) => None,
                Ok(ns) => Some(ns),
            }
        },
    }
}

/// Renders `nodes` against `data` with the partial templates `partials`
/// (name, source), where partials nest at most `depth` deep. `None` where they
/// nest deeper.
pub fn render_within(
    nodes: &[Node],
    data: &JsonValue,
    partials: &[(String, String)],
    depth: usize,
) -> (r: Option<String>)
    ensures
        r is Some <==> render_list(nodes_view(nodes@), seq![*data], partials@, depth as nat) is Some,
        r matches Some(s) ==> s@ == render_list(
            nodes_view(nodes@),
            seq![*data],
            partials@,
            depth as nat,
        )->0,
{
    let mut output = String::new();
    let context_stack: Vec<&JsonValue> = vec![data];
    assert(deref_all(context_stack@) =~= seq![*data]);
    if render_nodes(nodes, &context_stack, partials, &mut output, depth) {
        assert(output@ =~= render_list(nodes_view(nodes@), seq![*data], partials@, depth as nat)->0);
        Some(output)
    } else {
        None
    }
}

/// Renders `nodes` against `data` with the partial templates `partials`
/// (name, source). Its `requires` holds where rendering ends: where partials
/// do not include themselves without end.
pub fn render(nodes: &[Node], data: &JsonValue, partials: &[(String, String)]) -> (r: String)
    requires
        render_list(nodes_view(nodes@), seq![*data], partials@, usize::MAX as nat) is Some,
    ensures
        r@ == render_list(nodes_view(nodes@), seq![*data], partials@, usize::MAX as nat)->0,
{
    match render_within(nodes, data, partials, usize::MAX) {
        Some(s) => s,
        None => String::new(),
    }
}

// ---------------------------------------------------------------------------
// The partials a template names
// ---------------------------------------------------------------------------

/// The names of the partials that a node names, in order, sections included.
pub open spec fn node_partials(n: NodeView) -> Seq<Seq<char>>
    decreases n,
{
    match n {
        NodeView::Partial(name) => seq![name],
        NodeView::Section { children, .. } => list_partials(children),
        _ => seq![],
    }
}

/// The names of the partials that a list of nodes names, in order.
pub open spec fn list_partials(ns: Seq<NodeView>) -> Seq<Seq<char>>
    decreases ns,
{
    if ns.len() == 0 {
        seq![]
    } else {
        list_partials(ns.drop_last()) + node_partials(ns.last())
    }
}

/// The texts of a list of strings.
pub open spec fn string_texts(v: Seq<String>) -> Seq<Seq<char>> {
    v.map_values(|s: String| s@)
}

fn collect_partials(nodes: &[Node], out: &mut Vec<String>)
    ensures
        string_texts(final(out)@) == string_texts(old(out)@) + list_partials(nodes_view(nodes@)),
    decreases nodes_view(nodes@),
{
    let ghost nv = nodes_view(nodes@);
    let ghost start = string_texts(out@);
    assert(nv.take(0) =~= Seq::<NodeView>::empty());
    assert(start + list_partials(nv.take(0)) =~= start);
    let mut i: usize = 0;
    while i < nodes.len()
        invariant
            i <= nodes.len(),
            nv == nodes_view(nodes@),
            string_texts(out@) == start + list_partials(nv.take(i as int)),
        decreases nodes.len() - i,
    {
        let ghost nd = node_view(nodes@[i as int]);
        assert(nv[i as int] == nd);
        assert(nv.take(i + 1).drop_last() =~= nv.take(i as int));
        assert(nv.take(i + 1).last() == nd);
        let ghost before = string_texts(out@);
        match &nodes[i] {
            Node::Partial(name) => {
                let copy = crate::text::string_of(name.as_str());
                out.push(copy);
                assert(string_texts(out@) =~= before.push(name@));
            },
            Node::Section { children, .. } => {
                proof {
                    lemma_section_view(nodes@[i as int]);
                    assert(decreases_to!(nv => nv[i as int]));
                    assert(decreases_to!(nd => nd->children));
                }
                collect_partials(children.as_slice(), out);
            },
            _ => {
                assert(before + node_partials(nd) =~= before);
            },
        }
        assert(string_texts(out@) =~= before + node_partials(nd));
        assert(string_texts(out@) =~= start + list_partials(nv.take(i + 1)));
        i = i + 1;
    }
    assert(nv.take(i as int) =~= nv);
}

/// The names of the partials that `nodes` name, in order, sections included;
/// the sources that rendering may need.
pub fn partial_names(nodes: &[Node]) -> (r: Vec<String>)
    ensures
        string_texts(r@) == list_partials(nodes_view(nodes@)),
{
    let mut r: Vec<String> = Vec::new();
    assert(string_texts(r@) =~= Seq::<Seq<char>>::empty());
    collect_partials(nodes, &mut r);
    assert(string_texts(r@) =~= list_partials(nodes_view(nodes@)));
    r
}

// ---------------------------------------------------------------------------
// Laws of rendering
// ---------------------------------------------------------------------------

/// The output of a variable holds none of `< > " ' /` bare.
pub proof fn lemma_variable_output_is_safe(
    name: Seq<char>,
    stack: Seq<JsonValue>,
    partials: Seq<(String, String)>,
    fuel: nat,
)
    ensures
        render_node(NodeView::Variable(name), stack, partials, fuel) matches Some(out) ==> forall|
            i: int,
        |
            0 <= i < out.len() ==> !is_html_special(#[trigger] out[i]),
{
    match lookup_spec(stack, name) {
        Some(v) => lemma_escaped_is_safe(value_text(v)),
        None => {},
    }
}

/// A template without `{{` is one text token, one text node, and renders as
/// itself, whatever the data.
pub proof fn lemma_plain_template(
    t: Seq<char>,
    data: JsonValue,
    partials: Seq<(String, String)>,
    fuel: nat,
)
    requires
        find(t, seq!['{', '{']) is None,
    ensures
        scan_spec(t) == (if t.len() == 0 {
            Seq::<TokenView>::empty()
        } else {
            seq![TokenView::Text(t)]
        }),
        parse_spec(scan_spec(t)) == Ok::<Seq<NodeView>, Seq<char>>(if t.len() == 0 {
            Seq::<NodeView>::empty()
        } else {
            seq![NodeView::Text(t)]
        }),
        render_list(parse_spec(scan_spec(t))->Ok_0, seq![data], partials, fuel) == Some(t),
{
    assert(default_open() =~= seq!['{', '{']);
    lemma_scan_plain(t);
    if t.len() == 0 {
        assert(t =~= Seq::<char>::empty());
    } else {
        let toks = seq![TokenView::Text(t)];
        assert(toks.drop_first() =~= Seq::<TokenView>::empty());
        let ns = seq![NodeView::Text(t)];
        assert(Seq::<NodeView>::empty().push(NodeView::Text(t)) =~= ns);
        assert(toks[0] == TokenView::Text(t));
        assert(parse_from(toks, seq![], seq![]) == parse_from(
            Seq::<TokenView>::empty(),
            seq![],
            ns,
        ));
        assert(parse_spec(toks) == Ok::<Seq<NodeView>, Seq<char>>(ns));
        assert(ns.drop_last() =~= Seq::<NodeView>::empty());
        assert(Seq::<char>::empty() + t =~= t);
        assert(render_list(ns.drop_last(), seq![data], partials, fuel) == Some(Seq::<char>::empty()));
        assert(render_node(ns.last(), seq![data], partials, fuel) == Some(t));
        assert(render_list(ns, seq![data], partials, fuel) == Some(t));
    }
}

/// A section over a non-empty list renders its children once for each
/// item, each time with the item on top of the enclosing contexts (so names
/// that the item lacks are still found in the contexts around it).
pub proof fn lemma_section_over_list(
    name: Seq<char>,
    children: Seq<NodeView>,
    stack: Seq<JsonValue>,
    arr: Vec<JsonValue>,
    partials: Seq<(String, String)>,
    fuel: nat,
)
    requires
        lookup_spec(stack, name) == Some(JsonValue::Array(arr)),
        arr@.len() > 0,
    ensures
        render_node(NodeView::Section { name, children, inverted: false }, stack, partials, fuel)
            == render_items(children, stack, arr@, partials, fuel),
        arr@.len() == 1 ==> render_node(
            NodeView::Section { name, children, inverted: false },
            stack,
            partials,
            fuel,
        ) == render_list(children, stack.push(arr@[0]), partials, fuel),
{
    if arr@.len() == 1 {
        lemma_render_items_push(children, stack, arr@.drop_last(), arr@[0], partials, fuel);
        assert(arr@.drop_last().push(arr@[0]) =~= arr@);
        match render_list(children, stack.push(arr@[0]), partials, fuel) {
            Some(y) => {
                assert(Seq::<char>::empty() + y =~= y);
            },
            None => {},
        }
    }
}

/// Rendering children once per item: the output for the items before, then
/// the output of the children with the last item on top of the contexts.
pub proof fn lemma_render_items_push(
    children: Seq<NodeView>,
    stack: Seq<JsonValue>,
    items: Seq<JsonValue>,
    x: JsonValue,
    partials: Seq<(String, String)>,
    fuel: nat,
)
    ensures
        render_items(children, stack, Seq::<JsonValue>::empty(), partials, fuel) == Some(
            Seq::<char>::empty(),
        ),
        render_items(children, stack, items.push(x), partials, fuel) == join_output(
            render_items(children, stack, items, partials, fuel),
            render_list(children, stack.push(x), partials, fuel),
        ),
{
    assert(items.push(x).drop_last() =~= items);
    assert(items.push(x).last() == x);
}

/// A section over a value that is truthy and no list renders its children
/// once, with the value on top of the enclosing contexts; a section over a
/// missing or falsy value renders nothing.
pub proof fn lemma_section_over_value(
    name: Seq<char>,
    children: Seq<NodeView>,
    stack: Seq<JsonValue>,
    partials: Seq<(String, String)>,
    fuel: nat,
)
    ensures
        lookup_spec(stack, name) is Some && truthy(lookup_spec(stack, name)->0) && !(lookup_spec(
            stack,
            name,
        )->0 is Array) ==> render_node(
            NodeView::Section { name, children, inverted: false },
            stack,
            partials,
            fuel,
        ) == render_list(children, stack.push(lookup_spec(stack, name)->0), partials, fuel),
        !(lookup_spec(stack, name) matches Some(v) && truthy(v)) ==> render_node(
            NodeView::Section { name, children, inverted: false },
            stack,
            partials,
            fuel,
        ) == Some(Seq::<char>::empty()),
{
}

/// An inverted section renders its children, in the same contexts, exactly
/// where its value is missing or falsy, and nothing otherwise.
pub proof fn lemma_inverted_section(
    name: Seq<char>,
    children: Seq<NodeView>,
    stack: Seq<JsonValue>,
    partials: Seq<(String, String)>,
    fuel: nat,
)
    ensures
        render_node(NodeView::Section { name, children, inverted: true }, stack, partials, fuel)
            == if lookup_spec(stack, name) matches Some(v) && truthy(v) {
            Some(Seq::<char>::empty())
        } else {
            render_list(children, stack, partials, fuel)
        },
{
}

/// A variable renders the text of the value its name finds, HTML-escaped,
/// and nothing where the name finds no value; an unescaped variable renders
/// the text as it is.
pub proof fn lemma_variable_render(
    name: Seq<char>,
    stack: Seq<JsonValue>,
    partials: Seq<(String, String)>,
    fuel: nat,
)
    ensures
        render_node(NodeView::Variable(name), stack, partials, fuel) == Some(
            match lookup_spec(stack, name) {
                Some(v) => html_escape_spec(value_text(v)),
                None => Seq::<char>::empty(),
            },
        ),
        render_node(NodeView::UnescapedVariable(name), stack, partials, fuel) == Some(
            match lookup_spec(stack, name) {
                Some(v) => value_text(v),
                None => Seq::<char>::empty(),
            },
        ),
{
}

/// Two outputs one after the other, where both were produced.
pub open spec fn join_output(a: Option<Seq<char>>, b: Option<Seq<char>>) -> Option<Seq<char>> {
    match (a, b) {
        (Some(x), Some(y)) => Some(x + y),
        _ => None,
    }
}

/// Rendering two node lists one after the other gives the output of their
/// concatenation.
pub proof fn lemma_render_concat(
    a: Seq<NodeView>,
    b: Seq<NodeView>,
    stack: Seq<JsonValue>,
    partials: Seq<(String, String)>,
    fuel: nat,
)
    ensures
        render_list(a + b, stack, partials, fuel) == join_output(
            render_list(a, stack, partials, fuel),
            render_list(b, stack, partials, fuel),
        ),
    decreases b.len(),
{
    if b.len() == 0 {
        assert(a + b =~= a);
        match render_list(a, stack, partials, fuel) {
            Some(x) => {
                assert(x + Seq::<char>::empty() =~= x);
            },
            None => {},
        }
    } else {
        lemma_render_concat(a, b.drop_last(), stack, partials, fuel);
        assert((a + b).drop_last() =~= a + b.drop_last());
        assert((a + b).last() == b.last());
        match (
            render_list(a, stack, partials, fuel),
            render_list(b.drop_last(), stack, partials, fuel),
            render_node(b.last(), stack, partials, fuel),
        ) {
            (Some(x), Some(y), Some(z)) => {
                assert(x + y + z =~= x + (y + z));
            },
            _ => {},
        }
    }
}

// ---------------------------------------------------------------------------
// Nesting room
// ---------------------------------------------------------------------------

/// Once partials have room enough to nest, more room changes nothing: the
/// output of a node list is the same for every depth bound at which it renders.
pub proof fn lemma_render_list_depth(
    nodes: Seq<NodeView>,
    stack: Seq<JsonValue>,
    partials: Seq<(String, String)>,
    f: nat,
    g: nat,
)
    requires
        f <= g,
        render_list(nodes, stack, partials, f) is Some,
    ensures
        render_list(nodes, stack, partials, g) == render_list(nodes, stack, partials, f),
    decreases f, nodes, 0nat,
{
    if nodes.len() > 0 {
        lemma_render_list_depth(nodes.drop_last(), stack, partials, f, g);
        lemma_render_node_depth(nodes.last(), stack, partials, f, g);
    }
}

/// See `lemma_render_list_depth`.
pub proof fn lemma_render_node_depth(
    n: NodeView,
    stack: Seq<JsonValue>,
    partials: Seq<(String, String)>,
    f: nat,
    g: nat,
)
    requires
        f <= g,
        render_node(n, stack, partials, f) is Some,
    ensures
        render_node(n, stack, partials, g) == render_node(n, stack, partials, f),
    decreases f, n, 0nat,
{
    match n {
        NodeView::Partial(name) => {
            match partial_source(partials, name) {
                Some(src) => match parse_spec(scan_spec(src)) {
                    Ok(ns) => {
                        lemma_render_list_depth(ns, stack, partials, (f - 1) as nat, (g - 1) as nat);
                    },
                    Err(_) => {},
                },
                None => {},
            }
        },
        NodeView::Section { name, children, inverted } => {
            let val = lookup_spec(stack, name);
            let is_true = val is Some && truthy(val->0);
            if inverted {
                if !is_true {
                    lemma_render_list_depth(children, stack, partials, f, g);
                }
            } else if is_true {
                match val->0 {
                    JsonValue::Array(arr) => {
                        lemma_render_items_depth(children, stack, arr@, partials, f, g);
                    },
                    v => {
                        lemma_render_list_depth(children, stack.push(v), partials, f, g);
                    },
                }
            }
        },
        _ => {},
    }
}

/// See `lemma_render_list_depth`.
pub proof fn lemma_render_items_depth(
    children: Seq<NodeView>,
    stack: Seq<JsonValue>,
    items: Seq<JsonValue>,
    partials: Seq<(String, String)>,
    f: nat,
    g: nat,
)
    requires
        f <= g,
        render_items(children, stack, items, partials, f) is Some,
    ensures
        render_items(children, stack, items, partials, g) == render_items(
            children,
            stack,
            items,
            partials,
            f,
        ),
    decreases f, children, items.len(),
{
    if items.len() > 0 {
        lemma_render_items_depth(children, stack, items.drop_last(), partials, f, g);
        lemma_render_list_depth(children, stack.push(items.last()), partials, f, g);
    }
}

} // verus!
