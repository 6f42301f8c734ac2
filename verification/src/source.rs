//! The source text of a token list, and the law that scanning it gives the
//! list back.

use vstd::prelude::*;
use crate::scanner::{
    TokenView, default_close, default_open, lemma_find, scan_raw, scan_spec, tag_effect,
    tag_token, is_delimiter_tag,
};
use crate::standalone::{
    Piece, char_piece, flat, keep_chars, lemma_keep_all, lemma_line_len, lemma_mask_len,
    line_len, mask, quiet, standalone, strip, text_pieces, token_pieces,
};
use crate::text::{char_is_whitespace, find, occurs_at, trim, trim_end, trim_start};

verus! {

/// The characters that, first in a tag, mark its kind.
pub open spec fn is_tag_sigil(c: char) -> bool {
    c == '!' || c == '#' || c == '^' || c == '/' || c == '>' || c == '&'
}

/// A name that a tag can carry and the tokenizer read back as it is: not
/// empty, not starting with a sigil, and without whitespace, braces or `=`.
pub open spec fn name_ok(n: Seq<char>) -> bool {
    &&& n.len() > 0
    &&& !is_tag_sigil(n[0])
    &&& forall|k: int|
        0 <= k < n.len() ==> !char_is_whitespace(#[trigger] n[k]) && n[k] != '{' && n[k] != '}'
            && n[k] != '='
}

/// A text that the tokenizer reads back as one token: not empty, and without
/// `{`.
pub open spec fn text_ok(s: Seq<char>) -> bool {
    &&& s.len() > 0
    &&& forall|k: int| 0 <= k < s.len() ==> #[trigger] s[k] != '{'
}

/// Every text of `ts` lies on one line and holds a character that is not
/// whitespace.
pub open spec fn single_line_texts(ts: Seq<TokenView>) -> bool {
    forall|i: int|
        0 <= i < ts.len() ==> (#[trigger] ts[i] matches TokenView::Text(s) ==> (forall|k: int|
            0 <= k < s.len() ==> s[k] != '\n') && (exists|k: int|
            0 <= k < s.len() && !char_is_whitespace(s[k])))
}

/// The name of a tag token, and the mark that follows its `{{`.
pub open spec fn tag_parts(t: TokenView) -> (Seq<char>, Seq<char>) {
    match t {
        TokenView::Text(s) => (seq![], s),
        TokenView::Variable(n) => (seq![], n),
        TokenView::UnescapedVariable(n) => (seq![], n),
        TokenView::SectionOpen(n) => (seq!['#'], n),
        TokenView::SectionClose(n) => (seq!['/'], n),
        TokenView::InvertedOpen(n) => (seq!['^'], n),
        TokenView::Comment(n) => (seq!['!'], n),
        TokenView::Partial(n) => (seq!['>'], n),
    }
}

/// A token whose source the tokenizer reads back as it is.
pub open spec fn token_ok(t: TokenView) -> bool {
    match t {
        TokenView::Text(s) => text_ok(s),
        _ => name_ok(tag_parts(t).1),
    }
}

/// A token list whose source the tokenizer reads back as it is: each token
/// is, and no two texts stand side by side.
pub open spec fn tokens_ok(ts: Seq<TokenView>) -> bool {
    &&& forall|i: int| 0 <= i < ts.len() ==> token_ok(#[trigger] ts[i])
    &&& forall|i: int|
        0 <= i < ts.len() - 1 ==> !(#[trigger] ts[i] is Text && ts[i + 1] is Text)
}

/// The source text of a token: a text as it is, a tag in the default
/// delimiters with no whitespace, `{{{name}}}` for an unescaped variable.
pub open spec fn token_source(t: TokenView) -> Seq<char> {
    match t {
        TokenView::Text(s) => s,
        TokenView::UnescapedVariable(n) => seq!['{', '{', '{'] + n + seq!['}', '}', '}'],
        _ => seq!['{', '{'] + tag_parts(t).0 + tag_parts(t).1 + seq!['}', '}'],
    }
}

/// The source text of a token list.
pub open spec fn tokens_source(ts: Seq<TokenView>) -> Seq<char>
    decreases ts.len(),
{
    if ts.len() == 0 {
        seq![]
    } else {
        token_source(ts[0]) + tokens_source(ts.drop_first())
    }
}

/// `find` gives the first occurrence.
pub proof fn lemma_find_first(s: Seq<char>, p: Seq<char>, k: int)
    requires
        occurs_at(s, k, p),
        forall|j: int| 0 <= j < k ==> !occurs_at(s, j, p),
    ensures
        find(s, p) == Some(k),
{
    lemma_find(s, p);
}

/// A sequence that neither starts nor ends with whitespace is its own trim.
pub proof fn lemma_trim_self(s: Seq<char>)
    requires
        s.len() > 0,
        !char_is_whitespace(s[0]),
        !char_is_whitespace(s.last()),
    ensures
        trim(s) == s,
{
    assert(trim_start(s) == s);
    assert(trim_end(s) == s);
}

/// Scanning a text without `{` (or nothing), a tag, and more, in the default
/// delimiters, gives the text, the tag, and what scanning the rest gives.
proof fn lemma_scan_tag(pre: Seq<char>, t: TokenView, more: Seq<char>)
    requires
        forall|k: int| 0 <= k < pre.len() ==> #[trigger] pre[k] != '{',
        !(t is Text),
        token_ok(t),
    ensures
        scan_raw(pre + token_source(t) + more, default_open(), default_close()) == (if pre.len()
            > 0 {
            seq![Some(TokenView::Text(pre))]
        } else {
            seq![]
        }) + seq![Some(t)] + scan_raw(more, default_open(), default_close()),
{
    let op = default_open();
    let cl = default_close();
    let (lead, name) = tag_parts(t);
    let src = token_source(t);
    let rem = pre + src + more;
    let n = pre.len() as int;
    let triple = t is UnescapedVariable;
    // The first `{{` is the tag's.
    assert(rem.subrange(n, n + 2) =~= op);
    assert forall|j: int| 0 <= j < n implies !occurs_at(rem, j, op) by {
        assert(rem[j] == pre[j]);
        if occurs_at(rem, j, op) {
            assert(rem.subrange(j, j + 2)[0] == rem[j]);
        }
    }
    lemma_find_first(rem, op, n);
    let after_open = rem.skip(n + 2);
    let search = if triple {
        seq!['}'] + cl
    } else {
        cl
    };
    let body = if triple {
        after_open.drop_first()
    } else {
        after_open
    };
    let content = lead + name;
    if triple {
        assert(after_open =~= seq!['{'] + name + search + more);
        assert(body =~= content + search + more);
    } else {
        assert(after_open =~= content + search + more);
        assert(after_open[0] == content[0]);
        assert(body =~= content + search + more);
    }
    assert(after_open.len() > 0 && (after_open[0] == '{') == triple);
    // The first close delimiter is the tag's.
    let ci = content.len() as int;
    assert(body.subrange(ci, ci + search.len()) =~= search);
    assert forall|j: int| 0 <= j < ci implies !occurs_at(body, j, search) by {
        assert(body[j] == content[j]);
        if j >= lead.len() {
            assert(content[j] == name[j - lead.len()]);
        }
        if occurs_at(body, j, search) {
            assert(body.subrange(j, j + search.len())[0] == body[j]);
        }
    }
    lemma_find_first(body, search, ci);
    assert(body.take(ci) =~= content);
    assert(body.skip(ci + search.len()) =~= more);
    // The tag reads back as the token.
    assert(content.last() == name.last());
    assert(!char_is_whitespace(name[name.len() - 1]));
    lemma_trim_self(content);
    lemma_trim_self(name);
    if lead.len() > 0 {
        assert(content.drop_first() =~= name);
    }
    assert(!is_delimiter_tag(content));
    assert(tag_token(content, triple) == t);
    assert(tag_effect(content, triple, op, cl) == (Some(t), op, cl));
    assert(rem.take(n) =~= pre);
    assert(rem.len() > 0);
    assert(op.len() == 2);
    assert(search.len() == if triple { 3int } else { 2int });
    assert(after_open == rem.skip(n + op.len()));
}

/// Each token, present.
pub open spec fn present(ts: Seq<TokenView>) -> Seq<Option<TokenView>> {
    Seq::new(ts.len(), |i: int| Some(ts[i]))
}

proof fn lemma_tokens_ok_tail(ts: Seq<TokenView>, k: int)
    requires
        tokens_ok(ts),
        0 <= k <= ts.len(),
    ensures
        tokens_ok(ts.skip(k)),
{
    let r = ts.skip(k);
    assert forall|i: int| 0 <= i < r.len() implies token_ok(#[trigger] r[i]) by {
        assert(r[i] == ts[i + k]);
    }
    assert forall|i: int| 0 <= i < r.len() - 1 implies !(#[trigger] r[i] is Text && r[i
        + 1] is Text) by {
        assert(r[i] == ts[i + k]);
        assert(r[i + 1] == ts[i + 1 + k]);
    }
}

/// Before standalone lines are removed, scanning the source of a token list
/// that the tokenizer reads back gives each token of the list.
proof fn lemma_scan_raw_source(ts: Seq<TokenView>)
    requires
        tokens_ok(ts),
    ensures
        scan_raw(tokens_source(ts), default_open(), default_close()) == present(ts),
    decreases ts.len(),
{
    let op = default_open();
    let cl = default_close();
    if ts.len() == 0 {
        assert(present(ts) =~= Seq::<Option<TokenView>>::empty());
    } else {
        assert(token_ok(ts[0]));
        match ts[0] {
            TokenView::Text(s) => {
                if ts.len() == 1 {
                    assert(ts.drop_first() =~= Seq::<TokenView>::empty());
                    assert(tokens_source(ts.drop_first()) == Seq::<char>::empty());
                    assert(tokens_source(ts) =~= s);
                    assert forall|j: int| 0 <= j implies !occurs_at(s, j, op) by {
                        if occurs_at(s, j, op) {
                            assert(s.subrange(j, j + 2)[0] == s[j]);
                        }
                    }
                    lemma_find(s, op);
                    assert(present(ts) =~= seq![Some(TokenView::Text(s))]);
                } else {
                    assert(ts[1] is Text == false) by {
                        assert(!(ts[0] is Text && ts[1] is Text));
                    }
                    assert(token_ok(ts[1]));
                    let rest = ts.skip(2);
                    assert(ts.drop_first().drop_first() =~= rest);
                    assert(ts.drop_first()[0] == ts[1]);
                    assert(tokens_source(ts) =~= s + token_source(ts[1]) + tokens_source(rest));
                    lemma_scan_tag(s, ts[1], tokens_source(rest));
                    lemma_tokens_ok_tail(ts, 2);
                    lemma_scan_raw_source(rest);
                    assert(present(ts) =~= seq![Some(TokenView::Text(s))] + seq![Some(ts[1])]
                        + present(rest));
                }
            },
            _ => {
                let rest = ts.drop_first();
                assert(tokens_source(ts) =~= Seq::<char>::empty() + token_source(ts[0])
                    + tokens_source(rest));
                lemma_scan_tag(Seq::<char>::empty(), ts[0], tokens_source(rest));
                lemma_tokens_ok_tail(ts, 1);
                assert(ts.skip(1) =~= rest);
                lemma_scan_raw_source(rest);
                assert(present(ts) =~= seq![Some(ts[0])] + present(rest));
            },
        }
    }
}

/// No standalone line of the source of `ts` holds a character of its text:
/// the lines that standalone stripping takes out hold nothing but tags.
pub open spec fn no_standalone_text(ts: Seq<TokenView>) -> bool {
    let p = flat(present(ts));
    forall|j: int| 0 <= j < p.len() && !(#[trigger] p[j] is Tag) ==> !mask(p)[j]
}

/// The pieces of a list whose texts lie on one line and hold more than
/// whitespace hold no line break; they hold a character that is not
/// whitespace where the list holds a text, and only tags where it does not.
proof fn lemma_flat_present(ts: Seq<TokenView>)
    requires
        tokens_ok(ts),
        single_line_texts(ts),
    ensures
        forall|j: int|
            0 <= j < flat(present(ts)).len() ==> #[trigger] flat(present(ts))[j] != Piece::Newline,
        (exists|i: int| 0 <= i < ts.len() && ts[i] is Text) ==> (exists|j: int|
            0 <= j < flat(present(ts)).len() && #[trigger] flat(present(ts))[j] == Piece::Ink),
        (forall|i: int| 0 <= i < ts.len() ==> !(#[trigger] ts[i] is Text)) ==> (forall|j: int|
            0 <= j < flat(present(ts)).len() ==> #[trigger] flat(present(ts))[j] is Tag),
    decreases ts.len(),
{
    if ts.len() > 0 {
        let rest = ts.drop_first();
        lemma_tokens_ok_tail(ts, 1);
        assert(ts.skip(1) =~= rest);
        assert forall|i: int| 0 <= i < rest.len() implies (#[trigger] rest[i] matches TokenView::Text(s) ==> (forall|k: int|
            0 <= k < s.len() ==> s[k] != '\n') && (exists|k: int|
            0 <= k < s.len() && !char_is_whitespace(s[k]))) by {
            assert(rest[i] == ts[i + 1]);
        }
        lemma_flat_present(rest);
        assert(present(ts).drop_first() =~= present(rest));
        let head = token_pieces(Some(ts[0]));
        let f = flat(present(ts));
        let fr = flat(present(rest));
        assert(f == head + fr);
        assert(token_ok(ts[0]));
        assert(ts[0] matches TokenView::Text(s) ==> (forall|k: int|
            0 <= k < s.len() ==> s[k] != '\n') && (exists|k: int|
            0 <= k < s.len() && !char_is_whitespace(s[k])));
        assert forall|j: int| 0 <= j < f.len() implies #[trigger] f[j] != Piece::Newline by {
            if j < head.len() {
                if let TokenView::Text(s) = ts[0] {
                    assert(f[j] == char_piece(s[j]));
                    assert(s[j] != '\n');
                }
            } else {
                assert(f[j] == fr[j - head.len()]);
            }
        }
        if exists|i: int| 0 <= i < ts.len() && ts[i] is Text {
            let i = choose|i: int| 0 <= i < ts.len() && ts[i] is Text;
            if let TokenView::Text(s) = ts[0] {
                let k = choose|k: int| 0 <= k < s.len() && !char_is_whitespace(s[k]);
                assert(s[k] != '\n');
                assert(f[k] == char_piece(s[k]));
                assert(f[k] == Piece::Ink);
            } else {
                assert(i > 0);
                assert(rest[i - 1] is Text);
                let j = choose|j: int| 0 <= j < fr.len() && #[trigger] fr[j] == Piece::Ink;
                assert(f[j + head.len()] == fr[j]);
            }
        }
        if forall|i: int| 0 <= i < ts.len() ==> !(#[trigger] ts[i] is Text) {
            assert(!(ts[0] is Text));
            assert forall|i: int| 0 <= i < rest.len() implies !(#[trigger] rest[i] is Text) by {
                assert(rest[i] == ts[i + 1]);
            }
            assert forall|j: int| 0 <= j < f.len() implies #[trigger] f[j] is Tag by {
                if j >= head.len() {
                    assert(f[j] == fr[j - head.len()]);
                }
            }
        }
    }
}

/// Without a line break, the first line is the whole sequence.
proof fn lemma_one_line(p: Seq<Piece>)
    requires
        forall|j: int| 0 <= j < p.len() ==> p[j] != Piece::Newline,
    ensures
        line_len(p) == p.len(),
    decreases p.len(),
{
    if p.len() > 0 {
        assert forall|j: int| 0 <= j < p.drop_first().len() implies p.drop_first()[j]
            != Piece::Newline by {
            assert(p.drop_first()[j] == p[j + 1]);
        }
        lemma_one_line(p.drop_first());
    }
}

/// Where no character of text is marked, `strip` gives back each token of a
/// list whose texts are not empty.
proof fn lemma_strip_present(ts: Seq<TokenView>, m: Seq<bool>)
    requires
        forall|i: int| 0 <= i < ts.len() ==> (#[trigger] ts[i] matches TokenView::Text(s) ==> s.len()
            > 0),
        m.len() >= flat(present(ts)).len(),
        forall|j: int|
            0 <= j < flat(present(ts)).len() && !(#[trigger] flat(present(ts))[j] is Tag) ==> !m[j],
    ensures
        strip(present(ts), m) == ts,
    decreases ts.len(),
{
    if ts.len() == 0 {
        assert(strip(present(ts), m) =~= ts);
    } else {
        let rest = ts.drop_first();
        let raw = present(ts);
        assert(raw.drop_first() =~= present(rest));
        assert(raw[0] == Some(ts[0]));
        let head = token_pieces(raw[0]);
        let n = head.len();
        let f = flat(raw);
        let fr = flat(present(rest));
        assert(f == head + fr);
        let m2 = m.skip(n as int);
        assert forall|i: int| 0 <= i < rest.len() implies (#[trigger] rest[i] matches TokenView::Text(
            s,
        ) ==> s.len() > 0) by {
            assert(rest[i] == ts[i + 1]);
        }
        assert forall|j: int| 0 <= j < fr.len() && !(#[trigger] fr[j] is Tag) implies !m2[j] by {
            assert(f[j + n] == fr[j]);
            assert(m2[j] == m[j + n]);
        }
        lemma_strip_present(rest, m2);
        match ts[0] {
            TokenView::Text(s) => {
                assert forall|k: int| 0 <= k < s.len() implies !m.take(n as int)[k] by {
                    assert(f[k] == char_piece(s[k]));
                }
                lemma_keep_all(s, m.take(n as int));
                assert(strip(raw, m) =~= seq![TokenView::Text(s)] + rest);
            },
            _ => {
                assert(strip(raw, m) =~= seq![ts[0]] + rest);
            },
        }
    }
}

/// Scanning the source of a token list that the tokenizer reads back gives
/// the list: tags in the default delimiters with names that are not empty
/// and hold no whitespace, braces or `=` and do not start with a sigil;
/// texts that are not empty and hold no `{`, no two side by side; and no
/// standalone line that holds text, which standalone stripping would take
/// out.
pub proof fn lemma_scan_source(ts: Seq<TokenView>)
    requires
        tokens_ok(ts),
        no_standalone_text(ts),
    ensures
        scan_spec(tokens_source(ts)) == ts,
{
    lemma_scan_raw_source(ts);
    let p = flat(present(ts));
    lemma_mask_len(p);
    assert forall|i: int| 0 <= i < ts.len() implies (#[trigger] ts[i] matches TokenView::Text(s)
        ==> s.len() > 0) by {
        assert(token_ok(ts[i]));
    }
    lemma_strip_present(ts, mask(p));
}

/// Where every text lies on one line and holds more than whitespace, no
/// standalone line holds text: the source is one line, and it is standalone
/// only where it holds no text at all.
pub proof fn lemma_single_line_source(ts: Seq<TokenView>)
    requires
        tokens_ok(ts),
        single_line_texts(ts),
    ensures
        no_standalone_text(ts),
        scan_spec(tokens_source(ts)) == ts,
{
    let p = flat(present(ts));
    lemma_flat_present(ts);
    lemma_mask_len(p);
    if p.len() > 0 {
        lemma_one_line(p);
        assert(p.take(p.len() as int) =~= p);
        assert(p.skip(p.len() as int) =~= Seq::<Piece>::empty());
        assert(mask(p) =~= Seq::new(p.len(), |i: int| standalone(p)));
        if exists|i: int| 0 <= i < ts.len() && ts[i] is Text {
            let j = choose|j: int| 0 <= j < p.len() && #[trigger] p[j] == Piece::Ink;
            assert(!quiet(p[j]));
            assert(!standalone(p));
        }
    }
    lemma_scan_source(ts);
}

} // verus!
