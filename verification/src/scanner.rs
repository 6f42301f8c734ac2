//! The tokenizer: splits a template into literal text and tags.
//!
//! Tags open with the current open delimiter (`{{` at first) and close with the
//! current close delimiter (`}}` at first); `{{{name}}}` is the unescaped form
//! while the delimiters are the default ones, and `{{=<% %>=}}` changes them.

use vstd::prelude::*;
use crate::text::{
    char_is_whitespace, lemma_trim_idempotent, find, find_at, find_from, is_whitespace, occurs_at, push_char, push_chars,
    push_range, string_of_range, trim, trim_range, chars_of_range,
};
use crate::standalone::{Piece, flat, token_pieces, lemma_mask_len, mask, text_pieces, lemma_mask_unmarked, lemma_keep_all, mask_of, pieces_of, strip, strip_tokens, lemma_strip_texts_nonempty, lemma_strip_trimmed};

verus! {

broadcast use vstd::string::group_string_axioms;

/// A token of a template.
#[derive(Debug, Clone, PartialEq)]
pub enum Token {
    Text(String),
    Variable(String),
    UnescapedVariable(String),
    SectionOpen(String),
    SectionClose(String),
    InvertedOpen(String),
    Comment(String),
    Partial(String),
}

/// A token, with its text as a sequence of characters.
pub enum TokenView {
    Text(Seq<char>),
    Variable(Seq<char>),
    UnescapedVariable(Seq<char>),
    SectionOpen(Seq<char>),
    SectionClose(Seq<char>),
    InvertedOpen(Seq<char>),
    Comment(Seq<char>),
    Partial(Seq<char>),
}

impl View for Token {
    type V = TokenView;

    open spec fn view(&self) -> TokenView {
        match self {
            Token::Text(s) => TokenView::Text(s@),
            Token::Variable(s) => TokenView::Variable(s@),
            Token::UnescapedVariable(s) => TokenView::UnescapedVariable(s@),
            Token::SectionOpen(s) => TokenView::SectionOpen(s@),
            Token::SectionClose(s) => TokenView::SectionClose(s@),
            Token::InvertedOpen(s) => TokenView::InvertedOpen(s@),
            Token::Comment(s) => TokenView::Comment(s@),
            Token::Partial(s) => TokenView::Partial(s@),
        }
    }
}

/// The views of a sequence of tokens.
pub open spec fn tokens_view(ts: Seq<Token>) -> Seq<TokenView> {
    ts.map_values(|t: Token| t@)
}

/// The tokenizer. Its one field holds tokens for callers that keep them.
pub struct Scanner {
    pub tokens: Vec<Token>,
}

// ---------------------------------------------------------------------------
// Splitting on whitespace, as `str::split_whitespace` does it
// ---------------------------------------------------------------------------

/// The word being built, as a list of zero or one words.
pub open spec fn flush(cur: Seq<char>) -> Seq<Seq<char>> {
    if cur.len() > 0 {
        seq![cur]
    } else {
        seq![]
    }
}

/// The whitespace-separated words of `cur + s`, where `cur` is a word that has
/// been started and not yet ended.
pub open spec fn split_ws(s: Seq<char>, cur: Seq<char>) -> Seq<Seq<char>>
    decreases s.len(),
{
    if s.len() == 0 {
        flush(cur)
    } else if char_is_whitespace(s[0]) {
        flush(cur) + split_ws(s.drop_first(), seq![])
    } else {
        split_ws(s.drop_first(), cur.push(s[0]))
    }
}

/// The whitespace-separated words of `s`.
pub open spec fn words(s: Seq<char>) -> Seq<Seq<char>> {
    split_ws(s, seq![])
}

/// Every word that `split_ws` gives is non-empty.
pub proof fn lemma_split_ws_nonempty(s: Seq<char>, cur: Seq<char>)
    ensures
        forall|i: int|
            0 <= i < split_ws(s, cur).len() ==> #[trigger] split_ws(s, cur)[i].len() > 0,
    decreases s.len(),
{
    if s.len() == 0 {
        if cur.len() > 0 {
            assert(flush(cur)[0] == cur);
        }
    } else {
        if char_is_whitespace(s[0]) {
            lemma_split_ws_nonempty(s.drop_first(), seq![]);
            let a = flush(cur);
            let b = split_ws(s.drop_first(), seq![]);
            assert(split_ws(s, cur) == a + b);
            assert forall|i: int| 0 <= i < (a + b).len() implies #[trigger] (a + b)[i].len()
                > 0 by {
                if i < a.len() {
                    assert(a[i] == cur);
                } else {
                    assert((a + b)[i] == b[i - a.len()]);
                }
            }
        } else {
            lemma_split_ws_nonempty(s.drop_first(), cur.push(s[0]));
            assert(split_ws(s, cur) == split_ws(s.drop_first(), cur.push(s[0])));
        }
    }
}

// ---------------------------------------------------------------------------
// The meaning of one tag
// ---------------------------------------------------------------------------

/// A trimmed tag content of the form `=...=`: a change of delimiters.
pub open spec fn is_delimiter_tag(tr: Seq<char>) -> bool {
    tr.len() > 0 && tr[0] == '=' && tr.last() == '='
}

/// The token that a tag with trimmed content `tr` stands for, when it is not a
/// change of delimiters; `triple` when it was opened with `{{{`.
pub open spec fn tag_token(tr: Seq<char>, triple: bool) -> TokenView {
    let rest = trim(tr.drop_first());
    if tr.len() > 0 && tr[0] == '!' {
        TokenView::Comment(rest)
    } else if tr.len() > 0 && tr[0] == '#' {
        TokenView::SectionOpen(rest)
    } else if tr.len() > 0 && tr[0] == '^' {
        TokenView::InvertedOpen(rest)
    } else if tr.len() > 0 && tr[0] == '/' {
        TokenView::SectionClose(rest)
    } else if tr.len() > 0 && tr[0] == '>' {
        TokenView::Partial(rest)
    } else if tr.len() > 0 && tr[0] == '&' {
        TokenView::UnescapedVariable(rest)
    } else if triple {
        TokenView::UnescapedVariable(tr)
    } else {
        TokenView::Variable(tr)
    }
}

/// The default open delimiter.
pub open spec fn default_open() -> Seq<char> {
    seq!['{', '{']
}

/// The default close delimiter.
pub open spec fn default_close() -> Seq<char> {
    seq!['}', '}']
}

/// What follows one tag: the token it yields, if any, and the delimiters after
/// it. A change of delimiters yields no token; it sets the two words between
/// its `=` signs, and where there are not exactly two (as in `{{=}}`) it
/// leaves the delimiters as they are.
pub open spec fn tag_effect(content: Seq<char>, triple: bool, open: Seq<char>, close: Seq<char>) -> (
    Option<TokenView>,
    Seq<char>,
    Seq<char>,
) {
    let tr = trim(content);
    if is_delimiter_tag(tr) {
        if tr.len() < 2 {
            (None, open, close)
        } else {
            let parts = words(tr.subrange(1, tr.len() - 1));
            if parts.len() == 2 {
                (None, parts[0], parts[1])
            } else {
                (None, open, close)
            }
        }
    } else {
        (Some(tag_token(tr, triple)), open, close)
    }
}

/// `find` returns an occurrence, and the first one.
pub proof fn lemma_find(s: Seq<char>, p: Seq<char>)
    ensures
        find(s, p) matches Some(i) ==> occurs_at(s, i, p) && (forall|j: int|
            0 <= j < i ==> !occurs_at(s, j, p)),
        find(s, p) is None ==> forall|j: int| !occurs_at(s, j, p),
{
    lemma_find_from(s, p, 0);
}

proof fn lemma_find_from(s: Seq<char>, p: Seq<char>, k: int)
    requires
        0 <= k,
    ensures
        find_from(s, p, k) matches Some(i) ==> k <= i && occurs_at(s, i, p) && (forall|j: int|
            k <= j < i ==> !occurs_at(s, j, p)),
        find_from(s, p, k) is None ==> forall|j: int| k <= j ==> !occurs_at(s, j, p),
    decreases s.len() + 1 - k,
{
    if k + p.len() > s.len() {
    } else if occurs_at(s, k, p) {
    } else {
        lemma_find_from(s, p, k + 1);
    }
}

/// The tokens of the rest `rem` of a template, scanned with the delimiters
/// `open` and `close`, before standalone lines are removed; `None` marks a
/// change of delimiters.
pub open spec fn scan_raw(rem: Seq<char>, open: Seq<char>, close: Seq<char>) -> Seq<Option<TokenView>>
    decreases rem.len(),
    when open.len() > 0
{
    if rem.len() == 0 {
        seq![]
    } else {
        match find(rem, open) {
            None => seq![Some(TokenView::Text(rem))],
            Some(oi) => {
                let before = if oi > 0 {
                    seq![Some(TokenView::Text(rem.take(oi)))]
                } else {
                    seq![]
                };
                let after_open = rem.skip(oi + open.len());
                let triple = open == default_open() && after_open.len() > 0 && after_open[0]
                    == '{';
                let body = if triple {
                    after_open.drop_first()
                } else {
                    after_open
                };
                let search = if triple {
                    seq!['}'] + close
                } else {
                    close
                };
                match find(body, search) {
                    None => {
                        let opener = if triple {
                            open.push('{')
                        } else {
                            open
                        };
                        before + seq![Some(TokenView::Text(opener + body))]
                    },
                    Some(ci) => {
                        let eff = tag_effect(body.take(ci), triple, open, close);
                        proof {
                            lemma_find(rem, open);
                            lemma_find(body, search);
                        }
                        before + seq![eff.0] + scan_raw(
                            body.skip(ci + search.len()),
                            eff.1,
                            eff.2,
                        )
                    },
                }
            },
        }
    }
}

/// No text token of `ts` is empty.
pub open spec fn texts_nonempty(ts: Seq<TokenView>) -> bool {
    forall|i: int| 0 <= i < ts.len() ==> (#[trigger] ts[i] matches TokenView::Text(s) ==> s.len() > 0)
}

/// A change of delimiters sets non-empty delimiters.
proof fn lemma_tag_effect_delimiters(content: Seq<char>, triple: bool, open: Seq<char>, close: Seq<char>)
    requires
        open.len() > 0,
    ensures
        tag_effect(content, triple, open, close).1.len() > 0,
{
    let tr = trim(content);
    if is_delimiter_tag(tr) && tr.len() >= 2 {
        let inner = tr.subrange(1, tr.len() - 1);
        lemma_split_ws_nonempty(inner, seq![]);
        if words(inner).len() == 2 {
            assert(words(inner)[0].len() > 0);
        }
    }
}

/// The tokens of a template: the raw tokens, with the lines that hold only
/// standalone tags and whitespace removed.
pub open spec fn scan_spec(template: Seq<char>) -> Seq<TokenView> {
    let raw = scan_raw(template, default_open(), default_close());
    strip(raw, mask(flat(raw)))
}

/// No text token of a scanned template is empty.
pub proof fn lemma_scan_texts_nonempty(template: Seq<char>)
    ensures
        texts_nonempty(scan_spec(template)),
{
    let raw = scan_raw(template, default_open(), default_close());
    lemma_strip_texts_nonempty(raw, mask(flat(raw)));
}

/// The name that a token carries, where it is a tag, has no whitespace at
/// either end.
pub open spec fn name_trimmed(t: TokenView) -> bool {
    match t {
        TokenView::Text(_) => true,
        TokenView::Variable(n) => trim(n) == n,
        TokenView::UnescapedVariable(n) => trim(n) == n,
        TokenView::SectionOpen(n) => trim(n) == n,
        TokenView::SectionClose(n) => trim(n) == n,
        TokenView::InvertedOpen(n) => trim(n) == n,
        TokenView::Comment(n) => trim(n) == n,
        TokenView::Partial(n) => trim(n) == n,
    }
}

/// Every raw token that is present has a trimmed name.
pub open spec fn raw_names_trimmed(raw: Seq<Option<TokenView>>) -> bool {
    forall|i: int| 0 <= i < raw.len() ==> (#[trigger] raw[i] matches Some(t) ==> name_trimmed(t))
}

proof fn lemma_tag_token_trimmed(content: Seq<char>, triple: bool)
    ensures
        name_trimmed(tag_token(trim(content), triple)),
{
    lemma_trim_idempotent(content);
    lemma_trim_idempotent(trim(content).drop_first());
}

proof fn lemma_scan_raw_trimmed(rem: Seq<char>, open: Seq<char>, close: Seq<char>)
    requires
        open.len() > 0,
    ensures
        raw_names_trimmed(scan_raw(rem, open, close)),
    decreases rem.len(),
{
    if rem.len() > 0 {
        lemma_find(rem, open);
        match find(rem, open) {
            None => {},
            Some(oi) => {
                let before = if oi > 0 {
                    seq![Some(TokenView::Text(rem.take(oi)))]
                } else {
                    seq![]
                };
                let after_open = rem.skip(oi + open.len());
                let triple = open == default_open() && after_open.len() > 0 && after_open[0]
                    == '{';
                let body = if triple {
                    after_open.drop_first()
                } else {
                    after_open
                };
                let search = if triple {
                    seq!['}'] + close
                } else {
                    close
                };
                lemma_find(body, search);
                match find(body, search) {
                    None => {
                        let opener = if triple {
                            open.push('{')
                        } else {
                            open
                        };
                        let ts = before + seq![Some(TokenView::Text(opener + body))];
                        assert forall|i: int| 0 <= i < ts.len() implies (#[trigger] ts[i] matches Some(
                            t,
                        ) ==> name_trimmed(t)) by {
                            if i < before.len() {
                                assert(ts[i] == before[i]);
                            }
                        }
                    },
                    Some(ci) => {
                        lemma_tag_effect_delimiters(body.take(ci), triple, open, close);
                        lemma_tag_token_trimmed(body.take(ci), triple);
                        let eff = tag_effect(body.take(ci), triple, open, close);
                        let next = body.skip(ci + search.len());
                        lemma_scan_raw_trimmed(next, eff.1, eff.2);
                        let rest = scan_raw(next, eff.1, eff.2);
                        let head = before + seq![eff.0];
                        let ts = head + rest;
                        assert forall|i: int| 0 <= i < ts.len() implies (#[trigger] ts[i] matches Some(
                            t,
                        ) ==> name_trimmed(t)) by {
                            if i < before.len() {
                                assert(ts[i] == before[i]);
                            } else if i < head.len() {
                                assert(ts[i] == eff.0);
                            } else {
                                assert(ts[i] == rest[i - head.len()]);
                            }
                        }
                    },
                }
            },
        }
    }
}

/// No tag token of a scanned template carries whitespace at either end of
/// its name.
pub proof fn lemma_scan_names_trimmed(template: Seq<char>)
    ensures
        forall|i: int|
            0 <= i < scan_spec(template).len() ==> name_trimmed(#[trigger] scan_spec(template)[i]),
{
    let raw = scan_raw(template, default_open(), default_close());
    lemma_scan_raw_trimmed(template, default_open(), default_close());
    lemma_strip_trimmed(raw, mask(flat(raw)));
}

/// A template without the open delimiter `{{` is one text token, or none
/// when it is empty.
pub proof fn lemma_scan_plain(t: Seq<char>)
    requires
        find(t, default_open()) is None,
    ensures
        scan_spec(t) == (if t.len() == 0 {
            Seq::<TokenView>::empty()
        } else {
            seq![TokenView::Text(t)]
        }),
{
    let raw = scan_raw(t, default_open(), default_close());
    if t.len() > 0 {
        assert(raw == seq![Some(TokenView::Text(t))]);
        assert(raw.drop_first() =~= Seq::<Option<TokenView>>::empty());
        let p = text_pieces(t);
        assert(flat(raw.drop_first()) == Seq::<Piece>::empty());
        assert(flat(raw) =~= p);
        lemma_mask_unmarked(p);
        lemma_mask_len(p);
        let m = mask(p);
        lemma_keep_all(t, m.take(t.len() as int));
        assert(m.take(t.len() as int) =~= m);
        assert(token_pieces(raw[0]).len() == t.len());
        assert(strip(raw.drop_first(), m.skip(t.len() as int)) == Seq::<TokenView>::empty());
        assert(strip(raw, m) =~= seq![TokenView::Text(t)]);
    }
}

/// The token that the tag with trimmed content `t[a..b]` stands for.
fn token_of(t: &Vec<char>, a: usize, b: usize, triple: bool) -> (tok: Token)
    requires
        a <= b <= t.len(),
    ensures
        tok@ == tag_token(t@.subrange(a as int, b as int), triple),
{
    let ghost tr = t@.subrange(a as int, b as int);
    if a < b {
        let c = t[a];
        assert(tr[0] == c);
        if c == '!' || c == '#' || c == '^' || c == '/' || c == '>' || c == '&' {
            let (x, y) = trim_range(t, a + 1, b);
            assert(tr.drop_first() =~= t@.subrange(a + 1, b as int));
            let name = string_of_range(t, x, y);
            return if c == '!' {
                Token::Comment(name)
            } else if c == '#' {
                Token::SectionOpen(name)
            } else if c == '^' {
                Token::InvertedOpen(name)
            } else if c == '/' {
                Token::SectionClose(name)
            } else if c == '>' {
                Token::Partial(name)
            } else {
                Token::UnescapedVariable(name)
            };
        }
    }
    let whole = string_of_range(t, a, b);
    if triple {
        Token::UnescapedVariable(whole)
    } else {
        Token::Variable(whole)
    }
}

/// Where `words(t[lo..hi])` has exactly two words, their bounds in `t`.
fn two_words(t: &Vec<char>, lo: usize, hi: usize) -> (r: Option<(usize, usize, usize, usize)>)
    requires
        lo <= hi <= t.len(),
    ensures
        match r {
            Some((a0, b0, a1, b1)) => {
                &&& words(t@.subrange(lo as int, hi as int)).len() == 2
                &&& a0 <= b0 <= t.len() && a1 <= b1 <= t.len()
                &&& words(t@.subrange(lo as int, hi as int))[0] == t@.subrange(a0 as int, b0 as int)
                &&& words(t@.subrange(lo as int, hi as int))[1] == t@.subrange(a1 as int, b1 as int)
            },
            None => words(t@.subrange(lo as int, hi as int)).len() != 2,
        },
{
    let ghost mut done: Seq<Seq<char>> = seq![];
    let mut count: usize = 0;
    let mut in_word = false;
    let mut cs: usize = lo;
    let mut w: (usize, usize, usize, usize) = (0, 0, 0, 0);
    let mut k = lo;
    while k < hi
        invariant
            lo <= k <= hi <= t.len(),
            lo <= cs <= k,
            in_word ==> cs < k,
            words(t@.subrange(lo as int, hi as int)) == done + split_ws(
                t@.subrange(k as int, hi as int),
                if in_word {
                    t@.subrange(cs as int, k as int)
                } else {
                    seq![]
                },
            ),
            count == if done.len() < 3 {
                done.len()
            } else {
                3
            },
            done.len() >= 1 ==> w.0 <= w.1 <= t.len() && done[0] == t@.subrange(
                w.0 as int,
                w.1 as int,
            ),
            done.len() >= 2 ==> w.2 <= w.3 <= t.len() && done[1] == t@.subrange(
                w.2 as int,
                w.3 as int,
            ),
        decreases hi - k,
    {
        let ghost cur = if in_word {
            t@.subrange(cs as int, k as int)
        } else {
            seq![]
        };
        let ghost s = t@.subrange(k as int, hi as int);
        assert(s[0] == t@[k as int]);
        assert(s.drop_first() =~= t@.subrange(k + 1, hi as int));
        let c = t[k];
        if is_whitespace(c) {
            assert(split_ws(s, cur) == flush(cur) + split_ws(s.drop_first(), seq![]));
            if in_word {
                proof {
                    assert(flush(cur) =~= seq![cur]);
                    assert(done + split_ws(s, cur) =~= done.push(cur) + split_ws(
                        s.drop_first(),
                        seq![],
                    ));
                    done = done.push(cur);
                }
                if count == 0 {
                    w.0 = cs;
                    w.1 = k;
                } else if count == 1 {
                    w.2 = cs;
                    w.3 = k;
                }
                if count < 3 {
                    count = count + 1;
                }
                in_word = false;
            } else {
                assert(flush(cur) =~= Seq::<Seq<char>>::empty());
                assert(done + split_ws(s, cur) =~= done + split_ws(s.drop_first(), seq![]));
            }
        } else {
            if !in_word {
                cs = k;
                in_word = true;
            }
            assert(cur.push(c) =~= t@.subrange(cs as int, k + 1));
        }
        k = k + 1;
    }
    let ghost cur = if in_word {
        t@.subrange(cs as int, k as int)
    } else {
        seq![]
    };
    assert(t@.subrange(k as int, hi as int) =~= Seq::<char>::empty());
    let ghost all = words(t@.subrange(lo as int, hi as int));
    if in_word {
        assert(all =~= done.push(cur));
        if count == 1 {
            assert(all[1] == cur);
            Some((w.0, w.1, cs, k))
        } else {
            None
        }
    } else {
        assert(all =~= done);
        if count == 2 {
            Some(w)
        } else {
            None
        }
    }
}

/// Whether `d` is the default open delimiter `{{`.
fn is_default_open(d: &Vec<char>) -> (r: bool)
    ensures
        r == (d@ == default_open()),
{
    if d.len() == 2 && d[0] == '{' && d[1] == '{' {
        assert(d@ =~= default_open());
        true
    } else {
        false
    }
}

/// `lead` (where given) followed by the characters of `v`.
fn with_lead(lead: Option<char>, v: &Vec<char>) -> (r: Vec<char>)
    ensures
        r@ == match lead {
            Some(c) => seq![c] + v@,
            None => v@,
        },
{
    let mut r: Vec<char> = Vec::new();
    match lead {
        Some(c) => r.push(c),
        None => {},
    }
    let ghost start = r@;
    let mut k: usize = 0;
    while k < v.len()
        invariant
            k <= v.len(),
            r@ == start + v@.subrange(0, k as int),
        decreases v.len() - k,
    {
        r.push(v[k]);
        assert(r@ =~= start + v@.subrange(0, k + 1));
        k = k + 1;
    }
    assert(v@.subrange(0, v.len() as int) =~= v@);
    r
}

/// The view of an optional token.
pub open spec fn opt_view(t: Option<Token>) -> Option<TokenView> {
    match t {
        Some(t) => Some(t@),
        None => None,
    }
}

/// The views of a sequence of optional tokens.
pub open spec fn raw_view(ts: Seq<Option<Token>>) -> Seq<Option<TokenView>> {
    ts.map_values(|t: Option<Token>| opt_view(t))
}

proof fn lemma_raw_view_push(ts: Seq<Option<Token>>, t: Option<Token>)
    ensures
        raw_view(ts.push(t)) == raw_view(ts).push(opt_view(t)),
{
    assert(raw_view(ts.push(t)) =~= raw_view(ts).push(opt_view(t)));
}

/// What one step of the tokenizer yields: the raw tokens it adds, the
/// position after them, and the delimiters in force from there.
struct ScanStep {
    tokens: Vec<Option<Token>>,
    pos: usize,
    open: Vec<char>,
    close: Vec<char>,
}

/// One step of the tokenizer at `pos`: the text up to the next tag and the
/// tag, or the rest of the template.
#[verifier::rlimit(40)]
fn scan_step(t: &Vec<char>, pos: usize, open: &Vec<char>, close: &Vec<char>) -> (st: ScanStep)
    requires
        pos < t.len(),
        open@.len() > 0,
    ensures
        pos < st.pos <= t.len(),
        st.open@.len() > 0,
        scan_raw(t@.skip(pos as int), open@, close@) == raw_view(st.tokens@) + scan_raw(
            t@.skip(st.pos as int),
            st.open@,
            st.close@,
        ),
{
    let len = t.len();
    let ghost rem = t@.skip(pos as int);
    let mut tokens: Vec<Option<Token>> = Vec::new();
    assert(raw_view(tokens@) =~= Seq::<Option<TokenView>>::empty());
    proof {
        lemma_find(rem, open@);
    }
    match find_at(t, pos, open) {
        None => {
            let text = string_of_range(t, pos, len);
            assert(text@ =~= rem);
            proof {
                lemma_raw_view_push(tokens@, Some(Token::Text(text)));
            }
            tokens.push(Some(Token::Text(text)));
            assert(t@.skip(len as int) =~= Seq::<char>::empty());
            assert(scan_raw(rem, open@, close@) == seq![Some(TokenView::Text(rem))]);
            assert(raw_view(tokens@) =~= seq![Some(TokenView::Text(rem))]);
            assert(raw_view(tokens@) + Seq::<Option<TokenView>>::empty() =~= raw_view(tokens@));
            ScanStep { tokens, pos: len, open: with_lead(None, open), close: with_lead(None, close) }
        },
        Some(oi) => {
            let ghost before = if oi > 0 {
                seq![Some(TokenView::Text(rem.take(oi as int)))]
            } else {
                seq![]
            };
            if oi > 0 {
                let text = string_of_range(t, pos, pos + oi);
                assert(text@ =~= rem.take(oi as int));
                proof {
                    lemma_raw_view_push(tokens@, Some(Token::Text(text)));
                }
                tokens.push(Some(Token::Text(text)));
            }
            assert(raw_view(tokens@) =~= before);
            let mut p2 = pos + oi + open.len();
            let ghost after_open = rem.skip(oi + open@.len());
            assert(after_open =~= t@.skip(p2 as int));
            let triple = is_default_open(open) && p2 < len && t[p2] == '{';
            if triple {
                assert(after_open.drop_first() =~= t@.skip(p2 + 1));
                p2 = p2 + 1;
            }
            let ghost body = t@.skip(p2 as int);
            let search = if triple {
                with_lead(Some('}'), close)
            } else {
                with_lead(None, close)
            };
            proof {
                lemma_find(body, search@);
            }
            match find_at(t, p2, &search) {
                None => {
                    let mut text = String::new();
                    push_chars(&mut text, open);
                    if triple {
                        push_char(&mut text, '{');
                    }
                    push_range(&mut text, t, p2, len);
                    let ghost opener = if triple {
                        open@.push('{')
                    } else {
                        open@
                    };
                    assert(t@.subrange(p2 as int, len as int) =~= body);
                    assert(text@ =~= opener + body);
                    proof {
                        lemma_raw_view_push(tokens@, Some(Token::Text(text)));
                    }
                    tokens.push(Some(Token::Text(text)));
                    assert(t@.skip(len as int) =~= Seq::<char>::empty());
                    assert(scan_raw(rem, open@, close@) == before + seq![
                        Some(TokenView::Text(opener + body)),
                    ]);
                    assert(raw_view(tokens@) =~= before + seq![Some(TokenView::Text(opener + body))]);
                    assert(raw_view(tokens@) + Seq::<Option<TokenView>>::empty() =~= raw_view(
                        tokens@,
                    ));
                    ScanStep { tokens, pos: len, open: with_lead(None, open), close: with_lead(None, close) }
                },
                Some(ci) => {
                    let ghost content = body.take(ci as int);
                    assert(content =~= t@.subrange(p2 as int, p2 + ci));
                    let (a, b) = trim_range(t, p2, p2 + ci);
                    let ghost tr = trim(content);
                    let next = p2 + ci + search.len();
                    assert(body.skip(ci + search@.len()) =~= t@.skip(next as int));
                    if a < b && t[a] == '=' && t[b - 1] == '=' {
                        assert(is_delimiter_tag(tr));
                        let mut new_open = with_lead(None, open);
                        let mut new_close = with_lead(None, close);
                        if b - a >= 2 {
                            assert(tr.subrange(1, tr.len() - 1) =~= t@.subrange(a + 1, b - 1));
                            match two_words(t, a + 1, b - 1) {
                                Some((a0, b0, a1, b1)) => {
                                    proof {
                                        lemma_split_ws_nonempty(t@.subrange(a + 1, b - 1), seq![]);
                                        assert(words(t@.subrange(a + 1, b - 1))[0].len() > 0);
                                    }
                                    new_open = chars_of_range(t, a0, b0);
                                    new_close = chars_of_range(t, a1, b1);
                                },
                                None => {},
                            }
                        }
                        assert(tag_effect(content, triple, open@, close@) == (
                            None::<TokenView>,
                            new_open@,
                            new_close@,
                        ));
                        proof {
                            lemma_raw_view_push(tokens@, None);
                        }
                        tokens.push(None);
                        assert(raw_view(tokens@) =~= before + seq![None::<TokenView>]);
                        ScanStep { tokens, pos: next, open: new_open, close: new_close }
                    } else {
                        assert(!is_delimiter_tag(tr));
                        let tok = token_of(t, a, b, triple);
                        let ghost tv = tok@;
                        proof {
                            lemma_raw_view_push(tokens@, Some(tok));
                        }
                        tokens.push(Some(tok));
                        assert(tag_effect(content, triple, open@, close@) == (
                            Some(tag_token(tr, triple)),
                            open@,
                            close@,
                        ));
                        assert(raw_view(tokens@) =~= before + seq![Some(tag_token(tr, triple))]);
                        ScanStep { tokens, pos: next, open: with_lead(None, open), close: with_lead(None, close) }
                    }
                },
            }
        },
    }
}

/// Moves the tokens of `more` to the end of `tokens`.
fn append_raw(tokens: &mut Vec<Option<Token>>, more: Vec<Option<Token>>)
    ensures
        raw_view(final(tokens)@) == raw_view(old(tokens)@) + raw_view(more@),
{
    let ghost m = more@;
    let mut more = more;
    let mut rest: Vec<Option<Token>> = Vec::new();
    // Reverse `more` into `rest`, then pop from `rest` in order.
    while more.len() > 0
        invariant
            m == more@ + rest@.reverse(),
        decreases more.len(),
    {
        let x = more.pop().unwrap();
        proof {
            assert(rest@.push(x).reverse() =~= seq![x] + rest@.reverse());
        }
        rest.push(x);
        assert(m =~= more@ + rest@.reverse());
    }
    assert(m =~= rest@.reverse());
    let ghost start = tokens@;
    while rest.len() > 0
        invariant
            raw_view(tokens@) + raw_view(rest@.reverse()) == raw_view(start) + raw_view(m),
            start == old(tokens)@,
        decreases rest.len(),
    {
        let ghost r0 = rest@;
        let x = rest.pop().unwrap();
        proof {
            assert(r0 == rest@.push(x));
            assert(r0.reverse() =~= seq![x] + rest@.reverse());
            assert(raw_view(seq![x] + rest@.reverse()) =~= seq![opt_view(x)] + raw_view(
                rest@.reverse(),
            ));
            lemma_raw_view_push(tokens@, x);
        }
        tokens.push(x);
        assert(raw_view(tokens@) + raw_view(rest@.reverse()) =~= raw_view(start) + raw_view(m));
    }
    assert(rest@.reverse() =~= Seq::<Option<Token>>::empty());
    assert(raw_view(tokens@) + raw_view(rest@.reverse()) =~= raw_view(tokens@));
}

/// The raw tokens of `template`; see `scan_raw`.
fn raw_tokens(t: &Vec<char>) -> (tokens: Vec<Option<Token>>)
    ensures
        raw_view(tokens@) == scan_raw(t@, default_open(), default_close()),
{
    let len = t.len();
    let mut tokens: Vec<Option<Token>> = Vec::new();
    let mut open: Vec<char> = vec!['{', '{'];
    let mut close: Vec<char> = vec!['}', '}'];
    let mut pos: usize = 0;
    let ghost whole = scan_raw(t@, default_open(), default_close());
    assert(open@ =~= default_open());
    assert(close@ =~= default_close());
    assert(t@.skip(0) =~= t@);
    assert(raw_view(tokens@) =~= Seq::<Option<TokenView>>::empty());
    assert(whole =~= raw_view(tokens@) + scan_raw(t@, open@, close@));
    while pos < len
        invariant
            len == t.len(),
            pos <= len,
            open@.len() > 0,
            whole == raw_view(tokens@) + scan_raw(t@.skip(pos as int), open@, close@),
        decreases len - pos,
    {
        let st = scan_step(t, pos, &open, &close);
        let ghost tv0 = raw_view(tokens@);
        let ghost tv1 = raw_view(st.tokens@);
        let ghost after = scan_raw(t@.skip(st.pos as int), st.open@, st.close@);
        append_raw(&mut tokens, st.tokens);
        assert(tv0 + (tv1 + after) =~= (tv0 + tv1) + after);
        pos = st.pos;
        open = st.open;
        close = st.close;
    }
    assert(t@.skip(pos as int) =~= Seq::<char>::empty());
    assert(raw_view(tokens@) + Seq::<Option<TokenView>>::empty() =~= raw_view(tokens@));
    tokens
}

impl Scanner {
    /// The tokens of `template`; see `scan_spec`.
    pub fn scan(template: &str) -> (tokens: Vec<Token>)
        ensures
            tokens_view(tokens@) == scan_spec(template@),
    {
        let t = crate::text::chars_of(template);
        let raw = raw_tokens(&t);
        let pieces = pieces_of(&raw);
        let m = mask_of(&pieces);
        strip_tokens(&raw, &m)
    }
}

} // verus!
