//! The parser: turns the flat token list into a tree in which every section
//! holds the nodes between its open and its close tag.

use vstd::prelude::*;
use crate::scanner::{Token, TokenView, tokens_view};
use crate::text::{push_str, string_of};

verus! {

broadcast use vstd::string::group_string_axioms;

/// A node of a parsed template.
#[derive(Debug)]
pub enum Node {
    Text(String),
    Variable(String),
    UnescapedVariable(String),
    Section { name: String, children: Vec<Node>, inverted: bool },
    Comment(String),
    Partial(String),
}

/// A node, with its text as sequences of characters.
pub enum NodeView {
    Text(Seq<char>),
    Variable(Seq<char>),
    UnescapedVariable(Seq<char>),
    Section { name: Seq<char>, children: Seq<NodeView>, inverted: bool },
    Comment(Seq<char>),
    Partial(Seq<char>),
}

/// The view of a node.
pub open spec fn node_view(n: Node) -> NodeView
    decreases n,
{
    match n {
        Node::Text(s) => NodeView::Text(s@),
        Node::Variable(s) => NodeView::Variable(s@),
        Node::UnescapedVariable(s) => NodeView::UnescapedVariable(s@),
        Node::Section { name, children, inverted } => NodeView::Section {
            name: name@,
            children: Seq::new(
                children.len() as nat,
                |i: int|
                    if 0 <= i < children.len() {
                        proof {
                            assert(decreases_to!(children => children@));
                            assert(decreases_to!(children@ => children@[i]));
                        }
                        node_view(children@[i])
                    } else {
                        NodeView::Text(seq![])
                    },
            ),
            inverted,
        },
        Node::Comment(s) => NodeView::Comment(s@),
        Node::Partial(s) => NodeView::Partial(s@),
    }
}

/// The views of a sequence of nodes.
pub open spec fn nodes_view(ns: Seq<Node>) -> Seq<NodeView> {
    ns.map_values(|n: Node| node_view(n))
}

/// A copy of `v[k]`.
fn clone_at(v: &Vec<Node>, k: usize) -> (r: Node)
    requires
        k < v.len(),
    ensures
        node_view(r) == node_view(v@[k as int]),
    decreases v@[k as int], 1nat,
{
    v[k].clone()
}

impl Clone for Node {
    #[verifier::loop_isolation(false)]
    fn clone(&self) -> (r: Node)
        ensures
            node_view(r) == node_view(*self),
        decreases *self, 0nat,
    {
        match self {
            Node::Text(s) => Node::Text(s.clone()),
            Node::Variable(s) => Node::Variable(s.clone()),
            Node::UnescapedVariable(s) => Node::UnescapedVariable(s.clone()),
            Node::Comment(s) => Node::Comment(s.clone()),
            Node::Partial(s) => Node::Partial(s.clone()),
            Node::Section { name, children, inverted } => {
                let mut copy: Vec<Node> = Vec::new();
                let mut k: usize = 0;
                while k < children.len()
                    invariant
                        k <= children.len(),
                        nodes_view(copy@) == nodes_view(children@).take(k as int),
                    decreases children.len() - k,
                {
                    assert(decreases_to!(*self => (*self)->children));
                    assert(decreases_to!(*children => children@));
                    assert(decreases_to!(children@ => children@[k as int]));
                    let c = clone_at(children, k);
                    proof {
                        lemma_nodes_view_push(copy@, c);
                    }
                    copy.push(c);
                    assert(nodes_view(copy@) =~= nodes_view(children@).take(k + 1));
                    k = k + 1;
                }
                assert(nodes_view(children@).take(k as int) =~= nodes_view(children@));
                let r = Node::Section { name: name.clone(), children: copy, inverted: *inverted };
                proof {
                    lemma_section_view(r);
                    lemma_section_view(*self);
                }
                r
            },
        }
    }
}

impl View for Node {
    type V = NodeView;

    open spec fn view(&self) -> NodeView {
        node_view(*self)
    }
}


// ---------------------------------------------------------------------------
// What the parser computes
// ---------------------------------------------------------------------------

/// An open section on the parser's stack: its name, the nodes before it at
/// its level, and whether it is inverted.
pub struct Frame {
    pub name: Seq<char>,
    pub siblings: Seq<NodeView>,
    pub inverted: bool,
}

/// The message for a close tag that does not match the innermost open section.
pub open spec fn mismatch_message(open_name: Seq<char>, name: Seq<char>) -> Seq<char> {
    "Mismatched closing tag: expected "@ + open_name + ", found "@ + name
}

/// The message for a close tag with no open section.
pub open spec fn unopened_message(name: Seq<char>) -> Seq<char> {
    "Unopened section closing tag: "@ + name
}

/// The message for a section left open at the end.
pub open spec fn unclosed_message(name: Seq<char>) -> Seq<char> {
    "Unclosed section: "@ + name
}

/// The parse of `tokens`, given the open sections `stack` and the nodes `cur`
/// built so far at the innermost level.
pub open spec fn parse_from(tokens: Seq<TokenView>, stack: Seq<Frame>, cur: Seq<NodeView>) -> Result<
    Seq<NodeView>,
    Seq<char>,
>
    decreases tokens.len(),
{
    if tokens.len() == 0 {
        if stack.len() > 0 {
            Err(unclosed_message(stack.last().name))
        } else {
            Ok(cur)
        }
    } else {
        let rest = tokens.drop_first();
        match tokens[0] {
            TokenView::Text(s) => parse_from(rest, stack, cur.push(NodeView::Text(s))),
            TokenView::Variable(s) => parse_from(rest, stack, cur.push(NodeView::Variable(s))),
            TokenView::UnescapedVariable(s) => parse_from(
                rest,
                stack,
                cur.push(NodeView::UnescapedVariable(s)),
            ),
            TokenView::Comment(s) => parse_from(rest, stack, cur.push(NodeView::Comment(s))),
            TokenView::Partial(s) => parse_from(rest, stack, cur.push(NodeView::Partial(s))),
            TokenView::SectionOpen(n) => parse_from(
                rest,
                stack.push(Frame { name: n, siblings: cur, inverted: false }),
                seq![],
            ),
            TokenView::InvertedOpen(n) => parse_from(
                rest,
                stack.push(Frame { name: n, siblings: cur, inverted: true }),
                seq![],
            ),
            TokenView::SectionClose(n) => {
                if stack.len() == 0 {
                    Err(unopened_message(n))
                } else if stack.last().name == n {
                    let f = stack.last();
                    parse_from(
                        rest,
                        stack.drop_last(),
                        f.siblings.push(
                            NodeView::Section { name: n, children: cur, inverted: f.inverted },
                        ),
                    )
                } else {
                    Err(mismatch_message(stack.last().name, n))
                }
            },
        }
    }
}

/// The tree of a token list, or the message for its first nesting error.
pub open spec fn parse_spec(tokens: Seq<TokenView>) -> Result<Seq<NodeView>, Seq<char>> {
    parse_from(tokens, seq![], seq![])
}

// ---------------------------------------------------------------------------
// The parser
// ---------------------------------------------------------------------------

/// The frames of the parser's stack, as views.
pub open spec fn stack_view(stack: Seq<(String, Vec<Node>, bool)>) -> Seq<Frame> {
    stack.map_values(
        |f: (String, Vec<Node>, bool)|
            Frame { name: f.0@, siblings: nodes_view(f.1@), inverted: f.2 },
    )
}

/// The view of a section holds the views of its children.
pub proof fn lemma_section_view(n: Node)
    ensures
        (n matches Node::Section { name, children, inverted } ==> node_view(n) == (
        NodeView::Section { name: name@, children: nodes_view(children@), inverted })),
{
    match n {
        Node::Section { name, children, inverted } => {
            match node_view(n) {
                NodeView::Section { name: nm, children: c, inverted: iv } => {
                    assert(c =~= nodes_view(children@));
                },
                _ => {},
            }
        },
        _ => {},
    }
}

proof fn lemma_nodes_view_push(ns: Seq<Node>, n: Node)
    ensures
        nodes_view(ns.push(n)) == nodes_view(ns).push(node_view(n)),
{
    assert(nodes_view(ns.push(n)) =~= nodes_view(ns).push(node_view(n)));
}

/// Builds the tree of `tokens`: every section holds the nodes between its open
/// tag and its close tag. Fails with the message for the first close tag that
/// matches no open section, or for a section left open.
pub fn parse(tokens: Vec<Token>) -> (r: Result<Vec<Node>, String>)
    ensures
        match r {
            Ok(nodes) => parse_spec(tokens_view(tokens@)) == Ok::<Seq<NodeView>, Seq<char>>(
                nodes_view(nodes@),
            ),
            Err(e) => parse_spec(tokens_view(tokens@)) == Err::<Seq<NodeView>, Seq<char>>(e@),
        },
{
    let ghost tv = tokens_view(tokens@);
    let mut stack: Vec<(String, Vec<Node>, bool)> = Vec::new();
    let mut current_children: Vec<Node> = Vec::new();
    assert(tv.skip(0) =~= tv);
    assert(stack_view(stack@) =~= Seq::<Frame>::empty());
    assert(nodes_view(current_children@) =~= Seq::<NodeView>::empty());
    for token in it: tokens
        invariant
            tv == tokens_view(it.seq()),
            it.index() <= it.seq().len(),
            parse_spec(tv) == parse_from(
                tv.skip(it.index()),
                stack_view(stack@),
                nodes_view(current_children@),
            ),
    {
        let ghost k = it.index();
        let ghost rest = tv.skip(k + 1);
        let ghost sv = stack_view(stack@);
        let ghost cv = nodes_view(current_children@);
        assert(tv.skip(k).drop_first() =~= rest);
        assert(tv.skip(k)[0] == token@);
        match token {
            Token::Text(t) => {
                proof {
                    lemma_nodes_view_push(current_children@, Node::Text(t));
                }
                current_children.push(Node::Text(t));
            },
            Token::Variable(v) => {
                proof {
                    lemma_nodes_view_push(current_children@, Node::Variable(v));
                }
                current_children.push(Node::Variable(v));
            },
            Token::UnescapedVariable(uv) => {
                proof {
                    lemma_nodes_view_push(current_children@, Node::UnescapedVariable(uv));
                }
                current_children.push(Node::UnescapedVariable(uv));
            },
            Token::Comment(c) => {
                proof {
                    lemma_nodes_view_push(current_children@, Node::Comment(c));
                }
                current_children.push(Node::Comment(c));
            },
            Token::Partial(p) => {
                proof {
                    lemma_nodes_view_push(current_children@, Node::Partial(p));
                }
                current_children.push(Node::Partial(p));
            },
            Token::SectionOpen(name) => {
                let ghost nv = name@;
                stack.push((name, current_children, false));
                current_children = Vec::new();
                assert(stack_view(stack@) =~= sv.push(
                    Frame { name: nv, siblings: cv, inverted: false },
                ));
                assert(nodes_view(current_children@) =~= Seq::<NodeView>::empty());
            },
            Token::InvertedOpen(name) => {
                let ghost nv = name@;
                stack.push((name, current_children, true));
                current_children = Vec::new();
                assert(stack_view(stack@) =~= sv.push(
                    Frame { name: nv, siblings: cv, inverted: true },
                ));
                assert(nodes_view(current_children@) =~= Seq::<NodeView>::empty());
            },
            Token::SectionClose(name) => {
                let ghost old_stack = stack@;
                match stack.pop() {
                    Some((open_name, parent_children, inverted)) => {
                        assert(stack_view(stack@) =~= sv.drop_last());
                        assert(sv.last() == Frame {
                            name: open_name@,
                            siblings: nodes_view(parent_children@),
                            inverted,
                        });
                        if open_name == name {
                            let ghost ch = current_children@;
                            let section_node = Node::Section {
                                name,
                                children: current_children,
                                inverted,
                            };
                            proof {
                                lemma_section_view(section_node);
                            }
                            current_children = parent_children;
                            proof {
                                lemma_nodes_view_push(current_children@, section_node);
                            }
                            current_children.push(section_node);
                        } else {
                            let mut e = string_of("Mismatched closing tag: expected ");
                            push_str(&mut e, open_name.as_str());
                            push_str(&mut e, ", found ");
                            push_str(&mut e, name.as_str());
                            assert(e@ =~= mismatch_message(open_name@, name@));
                            return Err(e);
                        }
                    },
                    None => {
                        let mut e = string_of("Unopened section closing tag: ");
                        push_str(&mut e, name.as_str());
                        assert(e@ =~= unopened_message(name@));
                        return Err(e);
                    },
                }
            },
        }
    }
    assert(tv.skip(tv.len() as int) =~= Seq::<TokenView>::empty());
    match stack.pop() {
        Some((unclosed_name, _, _)) => {
            let mut e = string_of("Unclosed section: ");
            push_str(&mut e, unclosed_name.as_str());
            assert(e@ =~= unclosed_message(unclosed_name@));
            Err(e)
        },
        None => Ok(current_children),
    }
}


// ---------------------------------------------------------------------------
// Trees and token lists
// ---------------------------------------------------------------------------

/// The tag that opens a section.
pub open spec fn open_token(name: Seq<char>, inverted: bool) -> TokenView {
    if inverted {
        TokenView::InvertedOpen(name)
    } else {
        TokenView::SectionOpen(name)
    }
}

/// The tokens that a node stands for: a section is its open tag, its
/// children's tokens and its close tag.
pub open spec fn node_tokens(n: NodeView) -> Seq<TokenView>
    decreases n,
{
    match n {
        NodeView::Text(s) => seq![TokenView::Text(s)],
        NodeView::Variable(s) => seq![TokenView::Variable(s)],
        NodeView::UnescapedVariable(s) => seq![TokenView::UnescapedVariable(s)],
        NodeView::Comment(s) => seq![TokenView::Comment(s)],
        NodeView::Partial(s) => seq![TokenView::Partial(s)],
        NodeView::Section { name, children, inverted } => seq![open_token(name, inverted)]
            + flatten(children) + seq![TokenView::SectionClose(name)],
    }
}

/// The tokens that a list of nodes stands for.
pub open spec fn flatten(ns: Seq<NodeView>) -> Seq<TokenView>
    decreases ns,
{
    if ns.len() == 0 {
        seq![]
    } else {
        flatten(ns.drop_last()) + node_tokens(ns.last())
    }
}

/// The tokens that the parser has consumed when it holds the open sections
/// `stack` and the nodes `cur` at the innermost level.
pub open spec fn consumed(stack: Seq<Frame>, cur: Seq<NodeView>) -> Seq<TokenView>
    decreases stack.len(),
{
    if stack.len() == 0 {
        flatten(cur)
    } else {
        let f = stack.last();
        consumed(stack.drop_last(), f.siblings) + seq![open_token(f.name, f.inverted)] + flatten(
            cur,
        )
    }
}

proof fn lemma_flatten_push(ns: Seq<NodeView>, n: NodeView)
    ensures
        flatten(ns.push(n)) == flatten(ns) + node_tokens(n),
{
    assert(ns.push(n).drop_last() =~= ns);
}

proof fn lemma_consumed_push(stack: Seq<Frame>, cur: Seq<NodeView>, n: NodeView)
    ensures
        consumed(stack, cur.push(n)) == consumed(stack, cur) + node_tokens(n),
{
    lemma_flatten_push(cur, n);
    if stack.len() > 0 {
        let f = stack.last();
        let a = consumed(stack.drop_last(), f.siblings) + seq![open_token(f.name, f.inverted)];
        assert(a + (flatten(cur) + node_tokens(n)) =~= (a + flatten(cur)) + node_tokens(n));
    }
}

/// Where the parser succeeds from a state, the tokens it consumed, followed by
/// the rest, are the tokens of the tree it returns.
proof fn lemma_parse_from_tokens(ts: Seq<TokenView>, stack: Seq<Frame>, cur: Seq<NodeView>)
    ensures
        parse_from(ts, stack, cur) matches Ok(nodes) ==> consumed(stack, cur) + ts == flatten(
            nodes,
        ),
    decreases ts.len(),
{
    if ts.len() == 0 {
        assert(consumed(stack, cur) + ts =~= consumed(stack, cur));
    } else {
        let rest = ts.drop_first();
        let t = ts[0];
        assert(ts =~= seq![t] + rest);
        match t {
            TokenView::SectionOpen(n) => {
                let f = Frame { name: n, siblings: cur, inverted: false };
                lemma_parse_from_tokens(rest, stack.push(f), seq![]);
                assert(stack.push(f).drop_last() =~= stack);
                assert(flatten(Seq::<NodeView>::empty()) =~= Seq::<TokenView>::empty());
                assert(consumed(stack.push(f), seq![]) =~= consumed(stack, cur) + seq![t]);
                assert(consumed(stack, cur) + seq![t] + rest =~= consumed(stack, cur) + ts);
            },
            TokenView::InvertedOpen(n) => {
                let f = Frame { name: n, siblings: cur, inverted: true };
                lemma_parse_from_tokens(rest, stack.push(f), seq![]);
                assert(stack.push(f).drop_last() =~= stack);
                assert(flatten(Seq::<NodeView>::empty()) =~= Seq::<TokenView>::empty());
                assert(consumed(stack.push(f), seq![]) =~= consumed(stack, cur) + seq![t]);
                assert(consumed(stack, cur) + seq![t] + rest =~= consumed(stack, cur) + ts);
            },
            TokenView::SectionClose(n) => {
                if stack.len() > 0 && stack.last().name == n {
                    let f = stack.last();
                    let sec = NodeView::Section { name: n, children: cur, inverted: f.inverted };
                    lemma_parse_from_tokens(rest, stack.drop_last(), f.siblings.push(sec));
                    lemma_consumed_push(stack.drop_last(), f.siblings, sec);
                    assert(consumed(stack.drop_last(), f.siblings.push(sec)) =~= consumed(
                        stack,
                        cur,
                    ) + seq![t]);
                    assert(consumed(stack, cur) + seq![t] + rest =~= consumed(stack, cur) + ts);
                }
            },
            _ => {
                let leaf = match t {
                    TokenView::Text(s) => NodeView::Text(s),
                    TokenView::Variable(s) => NodeView::Variable(s),
                    TokenView::UnescapedVariable(s) => NodeView::UnescapedVariable(s),
                    TokenView::Comment(s) => NodeView::Comment(s),
                    _ => NodeView::Partial(t->Partial_0),
                };
                lemma_parse_from_tokens(rest, stack, cur.push(leaf));
                lemma_consumed_push(stack, cur, leaf);
                assert(node_tokens(leaf) =~= seq![t]);
                assert(consumed(stack, cur) + seq![t] + rest =~= consumed(stack, cur) + ts);
            },
        }
    }
}

/// Parsing the tokens of a list of nodes, followed by `rest`, continues with
/// those nodes added at the current level.
proof fn lemma_parse_flatten(
    ns: Seq<NodeView>,
    rest: Seq<TokenView>,
    stack: Seq<Frame>,
    cur: Seq<NodeView>,
)
    ensures
        parse_from(flatten(ns) + rest, stack, cur) == parse_from(rest, stack, cur + ns),
    decreases ns,
{
    if ns.len() == 0 {
        assert(flatten(ns) + rest =~= rest);
        assert(cur + ns =~= cur);
    } else {
        let dl = ns.drop_last();
        let x = ns.last();
        assert(flatten(ns) + rest =~= flatten(dl) + (node_tokens(x) + rest));
        lemma_parse_flatten(dl, node_tokens(x) + rest, stack, cur);
        lemma_parse_node(x, rest, stack, cur + dl);
        assert((cur + dl).push(x) =~= cur + ns);
    }
}

/// Parsing the tokens of one node, followed by `rest`, continues with the
/// node added at the current level.
proof fn lemma_parse_node(x: NodeView, rest: Seq<TokenView>, stack: Seq<Frame>, cur: Seq<NodeView>)
    ensures
        parse_from(node_tokens(x) + rest, stack, cur) == parse_from(rest, stack, cur.push(x)),
    decreases x,
{
    let all = node_tokens(x) + rest;
    match x {
        NodeView::Section { name, children, inverted } => {
            let f = Frame { name, siblings: cur, inverted };
            let after_open = flatten(children) + (seq![TokenView::SectionClose(name)] + rest);
            assert(all[0] == open_token(name, inverted));
            assert(all.drop_first() =~= after_open);
            lemma_parse_flatten(children, seq![TokenView::SectionClose(name)] + rest, stack.push(f), seq![]);
            let close_rest = seq![TokenView::SectionClose(name)] + rest;
            assert(close_rest[0] == TokenView::SectionClose(name));
            assert(close_rest.drop_first() =~= rest);
            assert(Seq::<NodeView>::empty() + children =~= children);
            assert(stack.push(f).drop_last() =~= stack);
        },
        _ => {
            assert(all[0] == node_tokens(x)[0]);
            assert(all.drop_first() =~= rest);
        },
    }
}

/// Parsing the tokens of any tree gives that tree back.
pub proof fn lemma_parse_of_flatten(ns: Seq<NodeView>)
    ensures
        parse_spec(flatten(ns)) == Ok::<Seq<NodeView>, Seq<char>>(ns),
{
    lemma_parse_flatten(ns, seq![], seq![], seq![]);
    assert(flatten(ns) + Seq::<TokenView>::empty() =~= flatten(ns));
    assert(Seq::<NodeView>::empty() + ns =~= ns);
}

/// Where a token list parses, the tokens of its tree are that token list.
pub proof fn lemma_flatten_of_parse(ts: Seq<TokenView>)
    ensures
        parse_spec(ts) matches Ok(nodes) ==> flatten(nodes) == ts,
{
    lemma_parse_from_tokens(ts, seq![], seq![]);
    assert(flatten(Seq::<NodeView>::empty()) =~= Seq::<TokenView>::empty());
    assert(Seq::<TokenView>::empty() + ts =~= ts);
}


/// A token list parses exactly where it is the token list of some tree: the
/// parser refuses just the lists whose sections are not properly nested.
pub proof fn lemma_parses_iff_nested(ts: Seq<TokenView>)
    ensures
        parse_spec(ts) is Ok <==> exists|ns: Seq<NodeView>| #[trigger] flatten(ns) == ts,
{
    lemma_flatten_of_parse(ts);
    if parse_spec(ts) is Ok {
        assert(flatten(parse_spec(ts)->Ok_0) == ts);
    }
    if exists|ns: Seq<NodeView>| #[trigger] flatten(ns) == ts {
        let ns = choose|ns: Seq<NodeView>| #[trigger] flatten(ns) == ts;
        lemma_parse_of_flatten(ns);
    }
}

} // verus!
