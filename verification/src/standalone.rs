//! Standalone lines. A line that holds nothing but whitespace and tags that
//! print nothing (sections, inverted sections, section closes, comments and
//! changes of delimiters) is taken out of the template's text, line break
//! included; the tags on it stay. A partial prints its template, so a line
//! that holds one keeps its whitespace and its line break, as a variable's
//! line does.

use vstd::prelude::*;
use crate::scanner::{Token, TokenView, name_trimmed, raw_names_trimmed, opt_view, raw_view, texts_nonempty, tokens_view};
use crate::text::{char_is_whitespace, chars_of, is_whitespace, push_char};

verus! {

broadcast use vstd::string::group_string_axioms;

/// The layout of a template by lines: a line break, another whitespace
/// character, any other character, or a tag; a tag that prints nothing is
/// `Tag(true)`, a variable or a partial `Tag(false)`.
pub enum Piece {
    Newline,
    Blank,
    Ink,
    Tag(bool),
}

/// The piece that a character of text is.
pub open spec fn char_piece(c: char) -> Piece {
    if c == '\n' {
        Piece::Newline
    } else if char_is_whitespace(c) {
        Piece::Blank
    } else {
        Piece::Ink
    }
}

/// The pieces of a text.
pub open spec fn text_pieces(s: Seq<char>) -> Seq<Piece> {
    Seq::new(s.len(), |i: int| char_piece(s[i]))
}

/// The pieces of one raw token; `None` is a change of delimiters.
pub open spec fn token_pieces(t: Option<TokenView>) -> Seq<Piece> {
    match t {
        None => seq![Piece::Tag(true)],
        Some(TokenView::Text(s)) => text_pieces(s),
        Some(TokenView::Variable(_)) => seq![Piece::Tag(false)],
        Some(TokenView::UnescapedVariable(_)) => seq![Piece::Tag(false)],
        Some(TokenView::Partial(_)) => seq![Piece::Tag(false)],
        Some(_) => seq![Piece::Tag(true)],
    }
}

/// The pieces of a sequence of raw tokens.
pub open spec fn flat(raw: Seq<Option<TokenView>>) -> Seq<Piece>
    decreases raw.len(),
{
    if raw.len() == 0 {
        seq![]
    } else {
        token_pieces(raw[0]) + flat(raw.drop_first())
    }
}

/// The length of the first line of `p`: up to and including the first line
/// break, or all of `p`.
pub open spec fn line_len(p: Seq<Piece>) -> nat
    decreases p.len(),
{
    if p.len() == 0 {
        0
    } else if p[0] == Piece::Newline {
        1
    } else {
        1 + line_len(p.drop_first())
    }
}

/// A piece that a standalone line may hold: whitespace, or a tag that prints
/// nothing.
pub open spec fn quiet(x: Piece) -> bool {
    match x {
        Piece::Newline => true,
        Piece::Blank => true,
        Piece::Ink => false,
        Piece::Tag(b) => b,
    }
}

/// A line with at least one tag that prints nothing, and nothing but such
/// tags and whitespace.
pub open spec fn standalone(line: Seq<Piece>) -> bool {
    &&& exists|i: int| 0 <= i < line.len() && line[i] == Piece::Tag(true)
    &&& forall|i: int| 0 <= i < line.len() ==> quiet(#[trigger] line[i])
}

/// The first line of a non-empty sequence of pieces is non-empty.
pub proof fn lemma_line_len(p: Seq<Piece>)
    ensures
        p.len() > 0 ==> 1 <= line_len(p) <= p.len(),
        p.len() == 0 ==> line_len(p) == 0,
    decreases p.len(),
{
    if p.len() > 0 && p[0] != Piece::Newline {
        lemma_line_len(p.drop_first());
    }
}

/// For each piece of `p`, whether it lies on a standalone line.
pub open spec fn mask(p: Seq<Piece>) -> Seq<bool>
    decreases p.len(),
{
    if p.len() == 0 {
        seq![]
    } else {
        let n = line_len(p);
        proof {
            lemma_line_len(p);
        }
        Seq::new(n, |i: int| standalone(p.take(n as int))) + mask(p.skip(n as int))
    }
}

/// `mask` gives one mark per piece.
pub proof fn lemma_mask_len(p: Seq<Piece>)
    ensures
        mask(p).len() == p.len(),
    decreases p.len(),
{
    if p.len() > 0 {
        lemma_line_len(p);
        lemma_mask_len(p.skip(line_len(p) as int));
    }
}

/// The characters of `s` whose mark in `m` is false.
pub open spec fn keep_chars(s: Seq<char>, m: Seq<bool>) -> Seq<char>
    decreases s.len(),
{
    if s.len() == 0 {
        seq![]
    } else {
        (if m[0] {
            seq![]
        } else {
            seq![s[0]]
        }) + keep_chars(s.drop_first(), m.drop_first())
    }
}

/// The tokens of `raw` with the characters marked in `m` taken out of their
/// texts; texts left empty and changes of delimiters are dropped.
pub open spec fn strip(raw: Seq<Option<TokenView>>, m: Seq<bool>) -> Seq<TokenView>
    decreases raw.len(),
{
    if raw.len() == 0 {
        seq![]
    } else {
        let n = token_pieces(raw[0]).len();
        let head = match raw[0] {
            None => seq![],
            Some(TokenView::Text(s)) => {
                let k = keep_chars(s, m.take(n as int));
                if k.len() == 0 {
                    seq![]
                } else {
                    seq![TokenView::Text(k)]
                }
            },
            Some(t) => seq![t],
        };
        head + strip(raw.drop_first(), m.skip(n as int))
    }
}

/// No text token that `strip` gives is empty.
pub proof fn lemma_strip_texts_nonempty(raw: Seq<Option<TokenView>>, m: Seq<bool>)
    ensures
        texts_nonempty(strip(raw, m)),
    decreases raw.len(),
{
    if raw.len() > 0 {
        let n = token_pieces(raw[0]).len();
        lemma_strip_texts_nonempty(raw.drop_first(), m.skip(n as int));
        let rest = strip(raw.drop_first(), m.skip(n as int));
        let all = strip(raw, m);
        let head = all.take(all.len() - rest.len());
        assert(all =~= head + rest);
        assert forall|i: int| 0 <= i < all.len() implies (#[trigger] all[i] matches TokenView::Text(
            s,
        ) ==> s.len() > 0) by {
            if i >= head.len() {
                assert(all[i] == rest[i - head.len()]);
            }
        }
    }
}

/// `strip` keeps each tag token as it is, so names stay trimmed.
pub proof fn lemma_strip_trimmed(raw: Seq<Option<TokenView>>, m: Seq<bool>)
    requires
        raw_names_trimmed(raw),
    ensures
        forall|i: int| 0 <= i < strip(raw, m).len() ==> name_trimmed(#[trigger] strip(raw, m)[i]),
    decreases raw.len(),
{
    if raw.len() > 0 {
        let n = token_pieces(raw[0]).len();
        assert forall|i: int| 0 <= i < raw.drop_first().len() implies (#[trigger] raw.drop_first()[i] matches Some(
            t,
        ) ==> name_trimmed(t)) by {
            assert(raw.drop_first()[i] == raw[i + 1]);
        }
        lemma_strip_trimmed(raw.drop_first(), m.skip(n as int));
        let rest = strip(raw.drop_first(), m.skip(n as int));
        let all = strip(raw, m);
        let head = all.take(all.len() - rest.len());
        assert(all =~= head + rest);
        assert(raw[0] matches Some(t) ==> name_trimmed(t));
        assert forall|i: int| 0 <= i < all.len() implies name_trimmed(#[trigger] all[i]) by {
            if i >= head.len() {
                assert(all[i] == rest[i - head.len()]);
            } else {
                assert(all[i] == head[i]);
            }
        }
    }
}

/// Where no piece is a tag that prints nothing, no line is standalone and
/// nothing is marked.
pub proof fn lemma_mask_unmarked(p: Seq<Piece>)
    requires
        forall|i: int| 0 <= i < p.len() ==> p[i] != Piece::Tag(true),
    ensures
        mask(p) == Seq::new(p.len(), |i: int| false),
    decreases p.len(),
{
    if p.len() > 0 {
        lemma_line_len(p);
        let n = line_len(p) as int;
        let line = p.take(n);
        assert(!standalone(line)) by {
            if standalone(line) {
                let j = choose|j: int| 0 <= j < line.len() && line[j] == Piece::Tag(true);
                assert(line[j] == p[j]);
            }
        }
        let rest = p.skip(n);
        assert forall|i: int| 0 <= i < rest.len() implies rest[i] != Piece::Tag(true) by {
            assert(rest[i] == p[n + i]);
        }
        lemma_mask_unmarked(rest);
        assert(mask(p) =~= Seq::new(p.len(), |i: int| false));
    }
}

/// With no character marked, `keep_chars` keeps them all.
pub proof fn lemma_keep_all(s: Seq<char>, m: Seq<bool>)
    requires
        s.len() <= m.len(),
        forall|i: int| 0 <= i < s.len() ==> !m[i],
    ensures
        keep_chars(s, m) == s,
    decreases s.len(),
{
    if s.len() > 0 {
        assert forall|i: int| 0 <= i < s.len() - 1 implies !m.drop_first()[i] by {
            assert(m.drop_first()[i] == m[i + 1]);
        }
        lemma_keep_all(s.drop_first(), m.drop_first());
        assert(seq![s[0]] + s.drop_first() =~= s);
    }
}

proof fn lemma_tokens_view_push(ts: Seq<Token>, t: Token)
    ensures
        tokens_view(ts.push(t)) == tokens_view(ts).push(t@),
{
    assert(tokens_view(ts.push(t)) =~= tokens_view(ts).push(t@));
}

/// The pieces of `raw`; see `flat`.
pub(crate) fn pieces_of(raw: &Vec<Option<Token>>) -> (p: Vec<Piece>)
    ensures
        p@ == flat(raw_view(raw@)),
{
    let ghost rv = raw_view(raw@);
    let mut p: Vec<Piece> = Vec::new();
    let mut j: usize = 0;
    assert(rv.skip(0) =~= rv);
    assert(p@ + flat(rv.skip(0)) =~= flat(rv));
    while j < raw.len()
        invariant
            j <= raw.len(),
            rv == raw_view(raw@),
            p@ + flat(rv.skip(j as int)) == flat(rv),
        decreases raw.len() - j,
    {
        let ghost p0 = p@;
        assert(rv.skip(j as int).drop_first() =~= rv.skip(j + 1));
        assert(rv.skip(j as int)[0] == opt_view(raw@[j as int]));
        assert(rv[j as int] == opt_view(raw@[j as int]));
        match &raw[j] {
            None => {
                p.push(Piece::Tag(true));
            },
            Some(Token::Text(s)) => {
                let cs = chars_of(s.as_str());
                let mut k: usize = 0;
                assert(text_pieces(cs@.take(0)) =~= Seq::<Piece>::empty());
                assert(p@ =~= p0 + text_pieces(cs@.take(0)));
                while k < cs.len()
                    invariant
                        k <= cs.len(),
                        p@ == p0 + text_pieces(cs@.take(k as int)),
                    decreases cs.len() - k,
                {
                    p.push(piece_of(cs[k]));
                    assert(text_pieces(cs@.take(k + 1)) =~= text_pieces(cs@.take(k as int)).push(
                        char_piece(cs@[k as int]),
                    ));
                    k = k + 1;
                }
                assert(cs@.take(k as int) =~= s@);
                assert(p@ =~= p0 + text_pieces(s@));
            },
            Some(Token::Variable(_)) => {
                p.push(Piece::Tag(false));
            },
            Some(Token::UnescapedVariable(_)) => {
                p.push(Piece::Tag(false));
            },
            Some(Token::Partial(_)) => {
                p.push(Piece::Tag(false));
            },
            Some(_) => {
                p.push(Piece::Tag(true));
            },
        }
        assert(p@ == p0 + token_pieces(rv[j as int]));
        assert(p@ + flat(rv.skip(j + 1)) =~= p0 + flat(rv.skip(j as int)));
        j = j + 1;
    }
    assert(rv.skip(j as int) =~= Seq::<Option<TokenView>>::empty());
    assert(p@ + flat(rv.skip(j as int)) =~= p@);
    p
}

fn piece_of(c: char) -> (r: Piece)
    ensures
        r == char_piece(c),
{
    if c == '\n' {
        Piece::Newline
    } else if is_whitespace(c) {
        Piece::Blank
    } else {
        Piece::Ink
    }
}

fn is_newline(x: &Piece) -> (r: bool)
    ensures
        r == (*x == Piece::Newline),
{
    match x {
        Piece::Newline => true,
        _ => false,
    }
}

fn is_quiet_tag(x: &Piece) -> (r: bool)
    ensures
        r == (*x == Piece::Tag(true)),
{
    match x {
        Piece::Tag(b) => *b,
        _ => false,
    }
}

fn is_quiet(x: &Piece) -> (r: bool)
    ensures
        r == quiet(*x),
{
    match x {
        Piece::Tag(b) => *b,
        Piece::Ink => false,
        _ => true,
    }
}

/// For each piece of `p`, whether it lies on a standalone line; see `mask`.
pub(crate) fn mask_of(p: &Vec<Piece>) -> (m: Vec<bool>)
    ensures
        m@ == mask(p@),
        m@.len() == p@.len(),
{
    let mut m: Vec<bool> = Vec::new();
    let mut i: usize = 0;
    assert(p@.skip(0) =~= p@);
    while i < p.len()
        invariant
            i <= p.len(),
            m@ + mask(p@.skip(i as int)) == mask(p@),
        decreases p.len() - i,
    {
        let mut k = i;
        let mut has = false;
        let mut ok = true;
        while k < p.len() && !is_newline(&p[k])
            invariant
                i <= k <= p.len(),
                line_len(p@.skip(i as int)) == (k - i) + line_len(p@.skip(k as int)),
                has == exists|j: int| i <= j < k && p@[j] == Piece::Tag(true),
                ok == forall|j: int| i <= j < k ==> quiet(#[trigger] p@[j]),
            decreases p.len() - k,
        {
            assert(p@.skip(k as int).drop_first() =~= p@.skip(k + 1));
            if is_quiet_tag(&p[k]) {
                has = true;
            }
            if !is_quiet(&p[k]) {
                ok = false;
            }
            k = k + 1;
        }
        let e = if k < p.len() {
            if !is_quiet(&p[k]) {
                ok = false;
            }
            k + 1
        } else {
            k
        };
        proof {
            if k < p.len() {
                assert(line_len(p@.skip(k as int)) == 1);
            } else {
                assert(p@.skip(k as int).len() == 0);
            }
            assert(line_len(p@.skip(i as int)) == e - i);
            let line = p@.skip(i as int).take(e - i);
            assert(line =~= p@.subrange(i as int, e as int));
            if has {
                let j = choose|j: int| i <= j < k && p@[j] == Piece::Tag(true);
                assert(line[j - i] == Piece::Tag(true));
            }
            if standalone(line) {
                let j = choose|j: int| 0 <= j < line.len() && line[j] == Piece::Tag(true);
                assert(p@[i + j] == Piece::Tag(true));
                assert(i + j < k) by {
                    if i + j >= k {
                        assert(p@[k as int] == Piece::Newline);
                    }
                }
                assert forall|x: int| i <= x < e implies quiet(#[trigger] p@[x]) by {
                    assert(p@[x] == line[x - i]);
                }
            }
            if ok {
                assert forall|x: int| 0 <= x < line.len() implies quiet(#[trigger] line[x]) by {
                    assert(line[x] == p@[i + x]);
                }
            }
            assert(standalone(line) == (has && ok));
            assert(p@.skip(i as int).skip(e - i) =~= p@.skip(e as int));
        }
        let sa = has && ok;
        let ghost m0 = m@;
        let mut x = i;
        while x < e
            invariant
                i <= x <= e,
                m@ == m0 + Seq::new((x - i) as nat, |y: int| sa),
            decreases e - x,
        {
            m.push(sa);
            assert(m@ =~= m0 + Seq::new((x + 1 - i) as nat, |y: int| sa));
            x = x + 1;
        }
        proof {
            let line = p@.skip(i as int).take(e - i);
            assert(Seq::new((e - i) as nat, |y: int| sa) =~= Seq::new(
                line_len(p@.skip(i as int)),
                |y: int| standalone(line),
            ));
            assert(m@ + mask(p@.skip(e as int)) =~= m0 + mask(p@.skip(i as int)));
        }
        i = e;
    }
    assert(p@.skip(i as int) =~= Seq::<Piece>::empty());
    assert(m@ + mask(p@.skip(i as int)) =~= m@);
    proof {
        lemma_mask_len(p@);
    }
    m
}

/// A copy of a token, with the same view.
fn copy_token(t: &Token) -> (r: Token)
    ensures
        r@ == t@,
{
    match t {
        Token::Text(s) => Token::Text(s.clone()),
        Token::Variable(s) => Token::Variable(s.clone()),
        Token::UnescapedVariable(s) => Token::UnescapedVariable(s.clone()),
        Token::SectionOpen(s) => Token::SectionOpen(s.clone()),
        Token::SectionClose(s) => Token::SectionClose(s.clone()),
        Token::InvertedOpen(s) => Token::InvertedOpen(s.clone()),
        Token::Comment(s) => Token::Comment(s.clone()),
        Token::Partial(s) => Token::Partial(s.clone()),
    }
}

proof fn lemma_flat_step(rv: Seq<Option<TokenView>>, j: int)
    requires
        0 <= j < rv.len(),
    ensures
        flat(rv.skip(j)) == token_pieces(rv[j]) + flat(rv.skip(j + 1)),
{
    assert(rv.skip(j).drop_first() =~= rv.skip(j + 1));
    assert(rv.skip(j)[0] == rv[j]);
}

/// The tokens of `raw` with the characters marked in `m` taken out; see
/// `strip`.
pub(crate) fn strip_tokens(raw: &Vec<Option<Token>>, m: &Vec<bool>) -> (out: Vec<Token>)
    requires
        m@.len() == flat(raw_view(raw@)).len(),
    ensures
        tokens_view(out@) == strip(raw_view(raw@), m@),
{
    let ghost rv = raw_view(raw@);
    let mut out: Vec<Token> = Vec::new();
    let mut j: usize = 0;
    let mut c: usize = 0;
    let mlen = m.len();
    assert(rv.skip(0) =~= rv);
    assert(m@.skip(0) =~= m@);
    assert(tokens_view(out@) =~= Seq::<TokenView>::empty());
    assert(tokens_view(out@) + strip(rv.skip(0), m@.skip(0)) =~= strip(rv, m@));
    while j < raw.len()
        invariant
            j <= raw.len(),
            rv == raw_view(raw@),
            mlen == m@.len(),
            c <= m@.len(),
            c + flat(rv.skip(j as int)).len() == m@.len(),
            tokens_view(out@) + strip(rv.skip(j as int), m@.skip(c as int)) == strip(rv, m@),
        decreases raw.len() - j,
    {
        let ghost o0 = tokens_view(out@);
        let ghost ms = m@.skip(c as int);
        proof {
            lemma_flat_step(rv, j as int);
            assert(rv.skip(j as int).drop_first() =~= rv.skip(j + 1));
            assert(rv.skip(j as int)[0] == opt_view(raw@[j as int]));
            assert(rv[j as int] == opt_view(raw@[j as int]));
        }
        let ghost n = token_pieces(rv[j as int]).len();
        assert(c + n <= m@.len());
        let ghost head = strip(rv.skip(j as int), ms).take(
            strip(rv.skip(j as int), ms).len() - strip(rv.skip(j + 1), ms.skip(n as int)).len(),
        );
        assert(strip(rv.skip(j as int), ms) =~= head + strip(rv.skip(j + 1), ms.skip(n as int)));
        match &raw[j] {
            None => {
                assert(n == 1);
                assert(head =~= Seq::<TokenView>::empty());
                c = c + 1;
            },
            Some(Token::Text(s)) => {
                let cs = chars_of(s.as_str());
                let ghost mm = ms.take(n as int);
                let mut text = String::new();
                let mut kept = false;
                let mut k: usize = 0;
                assert(cs@.skip(0) =~= cs@);
                assert(mm.skip(0) =~= mm);
                while k < cs.len()
                    invariant
                        k <= cs.len(),
                        cs@ == s@,
                        n == s@.len(),
                        kept == (text@.len() > 0),
                        c + n <= m@.len(),
                        mlen == m@.len(),
                        ms == m@.skip(c as int),
                        mm == ms.take(n as int),
                        text@ + keep_chars(cs@.skip(k as int), mm.skip(k as int)) == keep_chars(
                            cs@,
                            mm,
                        ),
                    decreases cs.len() - k,
                {
                    assert(cs@.skip(k as int).drop_first() =~= cs@.skip(k + 1));
                    assert(mm.skip(k as int).drop_first() =~= mm.skip(k + 1));
                    assert(mm.skip(k as int)[0] == m@[c + k]);
                    let ghost t0 = text@;
                    if !m[c + k] {
                        push_char(&mut text, cs[k]);
                        kept = true;
                    }
                    assert(text@ + keep_chars(cs@.skip(k + 1), mm.skip(k + 1)) =~= t0
                        + keep_chars(cs@.skip(k as int), mm.skip(k as int)));
                    k = k + 1;
                }
                assert(cs@.skip(k as int) =~= Seq::<char>::empty());
                assert(text@ =~= keep_chars(s@, mm));
                if kept {
                    proof {
                        lemma_tokens_view_push(out@, Token::Text(text));
                    }
                    out.push(Token::Text(text));
                    assert(head =~= seq![TokenView::Text(keep_chars(s@, mm))]);
                } else {
                    assert(head =~= Seq::<TokenView>::empty());
                }
                c = c + cs.len();
            },
            Some(t) => {
                let r = copy_token(t);
                proof {
                    lemma_tokens_view_push(out@, r);
                }
                out.push(r);
                assert(head =~= seq![t@]);
                c = c + 1;
            },
        }
        assert(ms.skip(n as int) =~= m@.skip(c as int));
        assert(tokens_view(out@) + strip(rv.skip(j + 1), m@.skip(c as int)) =~= o0 + strip(
            rv.skip(j as int),
            ms,
        ));
        j = j + 1;
    }
    assert(rv.skip(j as int) =~= Seq::<Option<TokenView>>::empty());
    assert(tokens_view(out@) + strip(rv.skip(j as int), m@.skip(c as int)) =~= tokens_view(
        out@,
    ));
    out
}

} // verus!
