//! What the repair pass promises of its output: a template whose tags are
//! closed, stripped and free of braces comes out with its sections nested, so
//! that it scans and parses.

use vstd::prelude::*;
use crate::jugaad::{
    close_braces, close_reports, close_tag, close_tags, drop_orphans, insert_at, last_index_of,
    lemma_close_after_open, lemma_last_index_of, open_braces, replace_range,
};
use crate::jugaad::{
    jugaad_spec, lemma_close_open_tags_none, lemma_strip_tags_none, tags_closed, tags_stripped,
};
use crate::parser::{Frame, parse_from, parse_spec};
use crate::scanner::{
    TokenView, default_close, default_open, is_delimiter_tag, lemma_find, scan_raw, scan_spec,
    tag_effect, tag_token,
};
use crate::standalone::{flat, mask, strip, token_pieces};
use crate::source::{lemma_find_first, lemma_trim_self};
use crate::text::{
    char_is_whitespace, find, lemma_trim_end_shape, lemma_trim_idempotent, lemma_trim_start_shape,
    occurs_at, trim, trim_start,
};

verus! {

/// `c` holds no brace.
pub open spec fn brace_free(c: Seq<char>) -> bool {
    forall|k: int| 0 <= k < c.len() ==> #[trigger] c[k] != '{' && c[k] != '}'
}

/// The names of open sections as the repair pass keeps them: trimmed, and
/// free of braces.
pub open spec fn good_names(names: Seq<Seq<char>>) -> bool {
    forall|k: int| 0 <= k < names.len() ==> trim(#[trigger] names[k]) == names[k] && brace_free(names[k])
}

/// Reading `r` from its start as the repair pass does, each tag (`{{` up to
/// the first `}}`) is closed, holds no brace, and is no change of delimiters.
pub open spec fn clean_tags(r: Seq<char>) -> bool
    decreases r.len(),
{
    if r.len() == 0 {
        true
    } else if occurs_at(r, 0, open_braces()) {
        match find(r, close_braces()) {
            None => false,
            Some(ci) => {
                proof {
                    lemma_close_at(r, ci);
                }
                let tr = trim(r.subrange(2, ci));
                brace_free(r.subrange(2, ci)) && !(tr.len() > 0 && tr[0] == '=') && clean_tags(
                    r.skip(ci + 2),
                )
            },
        }
    } else {
        clean_tags(r.drop_first())
    }
}

/// Reading `r` from its start as the repair pass does, with the sections
/// `open` open: each tag is closed, holds no brace and is no change of
/// delimiters; each close tag closes the innermost open section; and no
/// section is left open at the end.
pub open spec fn clean_nest(r: Seq<char>, open: Seq<Seq<char>>) -> bool
    decreases r.len(),
{
    if r.len() == 0 {
        open.len() == 0
    } else if occurs_at(r, 0, open_braces()) {
        match find(r, close_braces()) {
            None => false,
            Some(ci) => {
                proof {
                    lemma_close_at(r, ci);
                }
                let tr = trim(r.subrange(2, ci));
                let rest = r.skip(ci + 2);
                brace_free(r.subrange(2, ci)) && !(tr.len() > 0 && tr[0] == '=') && if tr.len()
                    > 0 && (tr[0] == '#' || tr[0] == '^') {
                    clean_nest(rest, open.push(trim(tr.drop_first())))
                } else if tr.len() > 0 && tr[0] == '/' {
                    open.len() > 0 && open.last() == trim(tr.drop_first()) && clean_nest(
                        rest,
                        open.drop_last(),
                    )
                } else {
                    clean_nest(rest, open)
                }
            },
        }
    } else {
        clean_nest(r.drop_first(), open)
    }
}

/// The first `}}` after a `{{` at the start comes two or more past it.
pub proof fn lemma_close_at(r: Seq<char>, ci: int)
    requires
        occurs_at(r, 0, open_braces()),
        find(r, close_braces()) == Some(ci),
    ensures
        2 <= ci,
        ci + 2 <= r.len(),
{
    assert(r.skip(0) =~= r);
    lemma_close_after_open(r, 0, ci);
    lemma_find(r, close_braces());
}

/// `close_tags`, taken from the innermost section.
proof fn lemma_close_tags_back(names: Seq<Seq<char>>)
    requires
        names.len() > 0,
    ensures
        close_tags(names) == close_tag(names.last()) + close_tags(names.drop_last()),
    decreases names.len(),
{
    if names.len() == 1 {
        assert(names.drop_first() =~= Seq::<Seq<char>>::empty());
        assert(names.drop_last() =~= Seq::<Seq<char>>::empty());
        assert(close_tags(names.drop_first()) == Seq::<char>::empty());
        assert(close_tags(names.drop_last()) == Seq::<char>::empty());
        assert(close_tags(names) =~= close_tag(names.last()) + close_tags(names.drop_last()));
    } else {
        lemma_close_tags_back(names.drop_first());
        assert(names.drop_first().drop_last() =~= names.drop_last().drop_first());
        assert(names.drop_first().last() == names.last());
        assert(names.drop_last()[0] == names[0]);
        assert(close_tags(names) =~= close_tag(names.last()) + close_tags(names.drop_last()));
    }
}

/// A section's close tag, read as a tag.
proof fn lemma_close_tag_read(n: Seq<char>, rest: Seq<char>)
    requires
        trim(n) == n,
        brace_free(n),
    ensures
        occurs_at(close_tag(n) + rest, 0, open_braces()),
        find(close_tag(n) + rest, close_braces()) == Some(n.len() + 3 as int),
        (close_tag(n) + rest).subrange(2, n.len() + 3 as int) == seq!['/'] + n,
        trim(seq!['/'] + n) == seq!['/'] + n,
        (close_tag(n) + rest).skip(n.len() + 5 as int) == rest,
{
    reveal_strlit("{{/");
    reveal_strlit("}}");
    let x = close_tag(n) + rest;
    let c: int = n.len() as int + 3;
    assert(x.subrange(0, 2) =~= open_braces());
    assert(x.subrange(c, c + 2) =~= close_braces());
    assert forall|j: int| 0 <= j < c implies !occurs_at(x, j, close_braces()) by {
        if j >= 3 {
            assert(x[j] == n[j - 3]);
        }
        if occurs_at(x, j, close_braces()) {
            assert(x.subrange(j, j + 2)[0] == x[j]);
        }
    }
    lemma_find_first(x, close_braces(), c);
    assert(x.subrange(2, c) =~= seq!['/'] + n);
    assert(x.skip(c + 2) =~= rest);
    let sn = seq!['/'] + n;
    if n.len() == 0 {
        assert(trim_start(sn) == sn);
        assert(trim(sn) == sn);
    } else {
        lemma_trim_start_shape(n);
        lemma_trim_end_shape(trim_start(n));
        assert(!char_is_whitespace(n[0])) by {
            lemma_trim_nonblank_ends(n);
        }
        assert(sn.last() == n.last());
        assert(!char_is_whitespace(n.last())) by {
            lemma_trim_nonblank_ends(n);
        }
        lemma_trim_self(sn);
    }
}

/// A non-empty trimmed sequence neither starts nor ends with whitespace.
pub proof fn lemma_trim_nonblank_ends(n: Seq<char>)
    requires
        trim(n) == n,
        n.len() > 0,
    ensures
        !char_is_whitespace(n[0]),
        !char_is_whitespace(n.last()),
{
    lemma_trim_start_shape(n);
    lemma_trim_end_shape(trim_start(n));
    let u = trim_start(n);
    assert(trim(n) == u.take(trim(n).len() as int));
    assert(u.len() >= n.len());
    assert(u == n);
}

/// Walking a run of close tags for the sections `names` closes them, the
/// innermost first.
proof fn lemma_close_walk(names: Seq<Seq<char>>, base: Seq<Seq<char>>, rest: Seq<char>)
    requires
        good_names(names),
    ensures
        clean_nest(close_tags(names) + rest, base + names) == clean_nest(rest, base),
    decreases names.len(),
{
    if names.len() == 0 {
        assert(close_tags(names) == Seq::<char>::empty());
        assert(close_tags(names) + rest =~= rest);
        assert(base + names =~= base);
    } else {
        let n = names.last();
        let dl = names.drop_last();
        lemma_close_tags_back(names);
        assert(trim(names[names.len() - 1]) == n && brace_free(n));
        let tail = close_tags(dl) + rest;
        let x = close_tag(n) + tail;
        assert(close_tags(names) + rest =~= x);
        lemma_close_tag_read(n, tail);
        let tr = seq!['/'] + n;
        assert(tr.drop_first() =~= n);
        assert(brace_free(tr)) by {
            assert forall|k: int| 0 <= k < tr.len() implies #[trigger] tr[k] != '{' && tr[k]
                != '}' by {
                if k > 0 {
                    assert(tr[k] == n[k - 1]);
                }
            }
        }
        assert((base + names).last() == n);
        assert((base + names).drop_last() =~= base + dl);
        assert(good_names(dl)) by {
            assert forall|k: int| 0 <= k < dl.len() implies trim(#[trigger] dl[k]) == dl[k]
                && brace_free(dl[k]) by {
                assert(dl[k] == names[k]);
            }
        }
        lemma_close_walk(dl, base, rest);
        assert(x.len() > 0);
    }
}

/// Trimming keeps a sequence free of braces.
proof fn lemma_trim_brace_free(x: Seq<char>)
    requires
        brace_free(x),
    ensures
        brace_free(trim(x)),
{
    lemma_trim_start_shape(x);
    let u = trim_start(x);
    lemma_trim_end_shape(u);
    let t = trim(x);
    assert forall|k: int| 0 <= k < t.len() implies #[trigger] t[k] != '{' && t[k] != '}' by {
        assert(t[k] == u[k]);
        assert(u[k] == x[k + x.len() - u.len()]);
    }
}

/// The output of the third pass from index `i`, with the sections it leaves
/// open closed at the end.
pub open spec fn pass3_output(
    s: Seq<char>,
    i: int,
    open: Seq<Seq<char>>,
    fixes: Seq<Seq<char>>,
) -> Seq<char> {
    let r = drop_orphans(s, i, open, fixes);
    r.0 + close_tags(r.1)
}

/// `p` occurs at `i` of `s` exactly where it occurs at the start of the rest.
proof fn lemma_occurs_skip(s: Seq<char>, i: int, p: Seq<char>)
    requires
        0 <= i <= s.len(),
    ensures
        occurs_at(s, i, p) == occurs_at(s.skip(i), 0, p),
{
    if i + p.len() <= s.len() {
        assert(s.skip(i).subrange(0, p.len() as int) =~= s.subrange(i, i + p.len()));
    }
}

/// Where `f` and `s` agree up to the end of a tag at `i`, the tag is read
/// alike in both.
proof fn lemma_same_tag(s: Seq<char>, f: Seq<char>, i: int, ci: int)
    requires
        0 <= i,
        occurs_at(s, i, open_braces()),
        find(s.skip(i), close_braces()) == Some(ci),
        i + ci + 2 <= s.len(),
        i + ci + 2 <= f.len(),
        f.take(i + ci + 2) == s.take(i + ci + 2),
    ensures
        occurs_at(f.skip(i), 0, open_braces()),
        find(f.skip(i), close_braces()) == Some(ci),
        f.skip(i).subrange(2, ci) == s.skip(i).subrange(2, ci),
{
    let a = s.skip(i);
    let b = f.skip(i);
    lemma_occurs_skip(s, i, open_braces());
    lemma_close_at(a, ci);
    lemma_find(a, close_braces());
    assert forall|k: int| 0 <= k < ci + 2 implies #[trigger] b[k] == a[k] by {
        assert(b[k] == f.take(i + ci + 2)[i + k]);
        assert(a[k] == s.take(i + ci + 2)[i + k]);
    }
    assert(b.subrange(0, 2) =~= a.subrange(0, 2));
    assert(b.subrange(ci, ci + 2) =~= a.subrange(ci, ci + 2));
    assert forall|j: int| 0 <= j < ci implies !occurs_at(b, j, close_braces()) by {
        if occurs_at(b, j, close_braces()) {
            assert(j + 2 <= a.len());
            assert(b[j] == a[j]);
            assert(b[j + 1] == a[j + 1]);
            assert(a.subrange(j, j + 2) =~= b.subrange(j, j + 2));
            assert(occurs_at(a, j, close_braces()));
        }
    }
    lemma_find_first(b, close_braces(), ci);
    assert(b.subrange(2, ci) =~= a.subrange(2, ci));
}

/// What the third pass gives from `i`: the text before `i` as it was, the
/// character at `i` where it is no brace, and, with the sections it leaves
/// open closed at the end, sections that nest from `i` on.
pub open spec fn pass3_ok(s: Seq<char>, i: int, open: Seq<Seq<char>>, fixes: Seq<Seq<char>>) -> bool {
    let f = pass3_output(s, i, open, fixes);
    &&& i <= f.len()
    &&& f.take(i) == s.take(i)
    &&& i < s.len() && s[i] != '{' ==> i < f.len() && f[i] == s[i]
    &&& clean_nest(f.skip(i), open)
}

/// What the third pass needs from `i`: clean tags, well-kept names, no `{`
/// just before a tag at `i`, and no `{` at the very end.
pub open spec fn pass3_pre(s: Seq<char>, i: int, open: Seq<Seq<char>>) -> bool {
    &&& 0 <= i <= s.len()
    &&& clean_tags(s.skip(i))
    &&& good_names(open)
    &&& i > 0 && occurs_at(s, i, open_braces()) ==> s[i - 1] != '{'
    &&& s.len() > 0 ==> s.last() != '{'
}

/// The third pass, on a template whose tags are clean from `i` on, leaves the
/// text before `i` as it is and, with the sections it leaves open closed at
/// the end, nests its sections from `i` on.
proof fn lemma_pass3_nests(s: Seq<char>, i: int, open: Seq<Seq<char>>, fixes: Seq<Seq<char>>)
    requires
        pass3_pre(s, i, open),
    ensures
        pass3_ok(s, i, open, fixes),
    decreases s.len() - i, 3nat,
{
    let f = pass3_output(s, i, open, fixes);
    if i >= s.len() {
        assert(f == s + close_tags(open));
        assert(f.take(i) =~= s.take(i));
        assert(f.skip(i) =~= close_tags(open) + Seq::<char>::empty());
        lemma_close_walk(open, Seq::<Seq<char>>::empty(), Seq::<char>::empty());
        assert(Seq::<Seq<char>>::empty() + open =~= open);
    } else if occurs_at(s, i, open_braces()) {
        lemma_pass3_tag(s, i, open, fixes);
    } else {
        lemma_pass3_step(s, i, open, fixes);
    }
}

/// The third pass past a character that starts no tag.
proof fn lemma_pass3_step(s: Seq<char>, i: int, open: Seq<Seq<char>>, fixes: Seq<Seq<char>>)
    requires
        pass3_pre(s, i, open),
        i < s.len(),
        !occurs_at(s, i, open_braces()),
    ensures
        pass3_ok(s, i, open, fixes),
    decreases s.len() - i, 0nat,
{
    let f = pass3_output(s, i, open, fixes);
    let r = s.skip(i);
    lemma_occurs_skip(s, i, open_braces());
    assert(r.drop_first() =~= s.skip(i + 1));
    if i + 1 < s.len() && s[i] == '{' {
        assert(s[i + 1] != '{') by {
            if s[i + 1] == '{' {
                assert(s.subrange(i, i + 2) =~= open_braces());
            }
        }
    }
    if i + 1 < s.len() && occurs_at(s, i + 1, open_braces()) {
        assert(s[i + 1] == s.subrange(i + 1, i + 3)[0]);
        assert(s[i] != '{');
    }
    lemma_pass3_nests(s, i + 1, open, fixes);
    assert(f == pass3_output(s, i + 1, open, fixes));
    assert(f.take(i) =~= f.take(i + 1).take(i));
    assert(s.take(i) =~= s.take(i + 1).take(i));
    assert(f[i] == f.take(i + 1)[i]);
    assert(s[i] == s.take(i + 1)[i]);
    assert(f.skip(i)[0] == f[i]);
    if s[i] == '{' {
        assert(s.last() != '{');
        assert(i + 1 < s.len());
    }
    assert(!occurs_at(f.skip(i), 0, open_braces())) by {
        if occurs_at(f.skip(i), 0, open_braces()) {
            assert(f.skip(i).subrange(0, 2)[0] == f[i]);
            assert(f.skip(i).subrange(0, 2)[1] == f[i + 1]);
        }
    }
    assert(f.skip(i).drop_first() =~= f.skip(i + 1));
}

/// The facts about a tag at `i` that the third pass reads.
proof fn lemma_tag_facts(s: Seq<char>, i: int, open: Seq<Seq<char>>)
    requires
        pass3_pre(s, i, open),
        i < s.len(),
        occurs_at(s, i, open_braces()),
    ensures
        find(s.skip(i), close_braces()) is Some,
        ({
            let ci = find(s.skip(i), close_braces())->0;
            let content = s.subrange(i + 2, i + ci);
            &&& 2 <= ci
            &&& i + ci + 2 <= s.len()
            &&& s[i + ci + 1] == '}'
            &&& s.skip(i).subrange(2, ci) == content
            &&& brace_free(content)
            &&& brace_free(trim(content))
            &&& !(trim(content).len() > 0 && trim(content)[0] == '=')
            &&& clean_tags(s.skip(i + ci + 2))
        }),
{
    let r = s.skip(i);
    lemma_occurs_skip(s, i, open_braces());
    let ci = find(r, close_braces())->0;
    lemma_close_at(r, ci);
    lemma_find(r, close_braces());
    assert(r.subrange(ci, ci + 2) =~= close_braces());
    assert(r[ci + 1] == '}');
    let content = s.subrange(i + 2, i + ci);
    assert(r.subrange(2, ci) =~= content);
    assert(r.skip(ci + 2) =~= s.skip(i + ci + 2));
    lemma_trim_brace_free(content);
}

/// The name that a tag's trimmed content `tr` gives after its sigil is kept
/// well.
proof fn lemma_tag_name(tr: Seq<char>)
    requires
        brace_free(tr),
        tr.len() > 0,
    ensures
        trim(trim(tr.drop_first())) == trim(tr.drop_first()),
        brace_free(trim(tr.drop_first())),
{
    lemma_trim_idempotent(tr.drop_first());
    assert(brace_free(tr.drop_first())) by {
        assert forall|k: int| 0 <= k < tr.drop_first().len() implies #[trigger] tr.drop_first()[k]
            != '{' && tr.drop_first()[k] != '}' by {
            assert(tr.drop_first()[k] == tr[k + 1]);
        }
    }
    lemma_trim_brace_free(tr.drop_first());
}

/// The third pass over a tag at `i`.
proof fn lemma_pass3_tag(s: Seq<char>, i: int, open: Seq<Seq<char>>, fixes: Seq<Seq<char>>)
    requires
        pass3_pre(s, i, open),
        i < s.len(),
        occurs_at(s, i, open_braces()),
    ensures
        pass3_ok(s, i, open, fixes),
    decreases s.len() - i, 2nat,
{
    lemma_tag_facts(s, i, open);
    lemma_occurs_skip(s, i, open_braces());
    lemma_close_at(s.skip(i), find(s.skip(i), close_braces())->0);
    let ci = find(s.skip(i), close_braces())->0;
    let content = s.subrange(i + 2, i + ci);
    let tr = trim(content);
    let f = pass3_output(s, i, open, fixes);
    if tr.len() > 0 && tr[0] == '/' {
        let name = trim(tr.drop_first());
        match last_index_of(open, name) {
            Some(p) => lemma_pass3_close(s, i, open, fixes),
            None => lemma_pass3_orphan(s, i, open, fixes),
        }
    } else {
        let op2 = if tr.len() > 0 && (tr[0] == '#' || tr[0] == '^') {
            open.push(trim(tr.drop_first()))
        } else {
            open
        };
        if tr.len() > 0 && (tr[0] == '#' || tr[0] == '^') {
            lemma_tag_name(tr);
            assert(good_names(op2)) by {
                assert forall|k: int| 0 <= k < op2.len() implies trim(#[trigger] op2[k]) == op2[k]
                    && brace_free(op2[k]) by {
                    if k < open.len() {
                        assert(op2[k] == open[k]);
                    }
                }
            }
        }
        lemma_pass3_nests(s, i + ci + 2, op2, fixes);
        assert(f == pass3_output(s, i + ci + 2, op2, fixes));
        let g = f;
        assert(i + ci + 2 <= g.len());
        lemma_same_tag(s, g, i, ci);
        assert(g.take(i) =~= g.take(i + ci + 2).take(i));
        assert(s.take(i) =~= s.take(i + ci + 2).take(i));
        assert(g.skip(i).skip(ci + 2) =~= g.skip(i + ci + 2));
    }
}

/// The third pass over a close tag whose section is open.
proof fn lemma_pass3_close(s: Seq<char>, i: int, open: Seq<Seq<char>>, fixes: Seq<Seq<char>>)
    requires
        pass3_pre(s, i, open),
        i < s.len(),
        occurs_at(s, i, open_braces()),
        find(s.skip(i), close_braces()) is Some,
        ({
            let ci = find(s.skip(i), close_braces())->0;
            let tr = trim(s.subrange(i + 2, i + ci));
            tr.len() > 0 && tr[0] == '/' && last_index_of(open, trim(tr.drop_first())) is Some
        }),
    ensures
        pass3_ok(s, i, open, fixes),
    decreases s.len() - i, 1nat,
{
    lemma_tag_facts(s, i, open);
    let ci = find(s.skip(i), close_braces())->0;
    lemma_occurs_skip(s, i, open_braces());
    lemma_close_at(s.skip(i), ci);
    let content = s.subrange(i + 2, i + ci);
    let tr = trim(content);
    let name = trim(tr.drop_first());
    let p = last_index_of(open, name)->0;
    lemma_last_index_of(open, name);
    let inner = open.skip(p + 1);
    let ins = close_tags(inner);
    let l = ins.len() as int;
    let s2 = insert_at(s, i, ins);
    let i2 = i + l + ci + 2;
    let f2 = fixes + close_reports(inner);
    let op2 = open.take(p);
    let f = pass3_output(s, i, open, fixes);
    assert(f == pass3_output(s2, i2, op2, f2));
    assert(s2.skip(i2) =~= s.skip(i + ci + 2));
    assert(s2[i2 - 1] == s[i + ci + 1]);
    assert(s2.last() == s.last());
    assert(good_names(op2)) by {
        assert forall|k: int| 0 <= k < op2.len() implies trim(#[trigger] op2[k]) == op2[k]
            && brace_free(op2[k]) by {
            assert(op2[k] == open[k]);
        }
    }
    assert(good_names(inner)) by {
        assert forall|k: int| 0 <= k < inner.len() implies trim(#[trigger] inner[k]) == inner[k]
            && brace_free(inner[k]) by {
            assert(inner[k] == open[k + p + 1]);
        }
    }
    lemma_pass3_nests(s2, i2, op2, f2);
    assert(s2.skip(i + l) =~= s.skip(i));
    assert(f.take(i + l) =~= f.take(i2).take(i + l));
    assert(f.skip(i) =~= ins + f.skip(i + l)) by {
        assert forall|k: int| 0 <= k < l implies #[trigger] f.skip(i)[k] == ins[k] by {
            assert(f.skip(i)[k] == f.take(i2)[i + k]);
            assert(s2.take(i2)[i + k] == s2[i + k]);
        }
    }
    lemma_close_walk(inner, open.take(p + 1), f.skip(i + l));
    assert(open.take(p + 1) + inner =~= open);
    lemma_occurs_skip(s2, i + l, open_braces());
    lemma_occurs_skip(s, i, open_braces());
    lemma_same_tag(s2, f, i + l, ci);
    assert(f.skip(i + l).subrange(2, ci) =~= content);
    assert(open.take(p + 1).last() == name);
    assert(open.take(p + 1).drop_last() =~= op2);
    assert(f.skip(i + l).skip(ci + 2) =~= f.skip(i2));
    assert(f.take(i) =~= f.take(i2).take(i));
    assert(s2.take(i) =~= s.take(i));
    assert(s2.take(i) =~= s2.take(i2).take(i));
}

/// The third pass over a close tag that matches no open section.
proof fn lemma_pass3_orphan(s: Seq<char>, i: int, open: Seq<Seq<char>>, fixes: Seq<Seq<char>>)
    requires
        pass3_pre(s, i, open),
        i < s.len(),
        occurs_at(s, i, open_braces()),
        find(s.skip(i), close_braces()) is Some,
        ({
            let ci = find(s.skip(i), close_braces())->0;
            let tr = trim(s.subrange(i + 2, i + ci));
            tr.len() > 0 && tr[0] == '/' && last_index_of(open, trim(tr.drop_first())) is None
        }),
    ensures
        pass3_ok(s, i, open, fixes),
    decreases s.len() - i, 1nat,
{
    lemma_tag_facts(s, i, open);
    let ci = find(s.skip(i), close_braces())->0;
    lemma_occurs_skip(s, i, open_braces());
    lemma_close_at(s.skip(i), ci);
    let tr = trim(s.subrange(i + 2, i + ci));
    let name = trim(tr.drop_first());
    let s2 = replace_range(s, i, i + ci + 2, seq![]);
    let f2 = fixes.push(crate::jugaad::orphan_message(name));
    let f = pass3_output(s, i, open, fixes);
    assert(f == pass3_output(s2, i, open, f2));
    assert(s2.skip(i) =~= s.skip(i + ci + 2));
    assert(s2.take(i) =~= s.take(i));
    if i > 0 {
        assert(s2[i - 1] == s[i - 1]);
    }
    if s2.len() > 0 {
        if i + ci + 2 < s.len() {
            assert(s2.last() == s.last());
        } else {
            assert(s2.last() == s[i - 1]);
        }
    }
    lemma_pass3_nests(s2, i, open, f2);
}

/// Raw tokens whose section tags nest, with the sections `open` open: each
/// close tag closes the innermost open section, and none is left open.
pub open spec fn raw_nest(raw: Seq<Option<TokenView>>, open: Seq<Seq<char>>) -> bool
    decreases raw.len(),
{
    if raw.len() == 0 {
        open.len() == 0
    } else {
        let rest = raw.drop_first();
        match raw[0] {
            Some(TokenView::SectionOpen(n)) => raw_nest(rest, open.push(n)),
            Some(TokenView::InvertedOpen(n)) => raw_nest(rest, open.push(n)),
            Some(TokenView::SectionClose(n)) => open.len() > 0 && open.last() == n && raw_nest(
                rest,
                open.drop_last(),
            ),
            _ => raw_nest(rest, open),
        }
    }
}

/// Tokens whose section tags nest, with the sections `open` open.
pub open spec fn tokens_nest(ts: Seq<TokenView>, open: Seq<Seq<char>>) -> bool
    decreases ts.len(),
{
    if ts.len() == 0 {
        open.len() == 0
    } else {
        let rest = ts.drop_first();
        match ts[0] {
            TokenView::SectionOpen(n) => tokens_nest(rest, open.push(n)),
            TokenView::InvertedOpen(n) => tokens_nest(rest, open.push(n)),
            TokenView::SectionClose(n) => open.len() > 0 && open.last() == n && tokens_nest(
                rest,
                open.drop_last(),
            ),
            _ => tokens_nest(rest, open),
        }
    }
}

/// Stepping over text that holds no `{{` changes nothing of the walk.
proof fn lemma_nest_skip(r: Seq<char>, k: int, open: Seq<Seq<char>>)
    requires
        0 <= k <= r.len(),
        forall|j: int| 0 <= j < k ==> !occurs_at(r, j, open_braces()),
    ensures
        clean_nest(r, open) == clean_nest(r.skip(k), open),
    decreases k,
{
    if k == 0 {
        assert(r.skip(0) =~= r);
    } else {
        let d = r.drop_first();
        assert forall|j: int| 0 <= j < k - 1 implies !occurs_at(d, j, open_braces()) by {
            if occurs_at(d, j, open_braces()) {
                assert(d.subrange(j, j + 2) =~= r.subrange(j + 1, j + 3));
                assert(occurs_at(r, j + 1, open_braces()));
            }
        }
        lemma_nest_skip(d, k - 1, open);
        assert(d.skip(k - 1) =~= r.skip(k));
    }
}

/// Scanning text whose tags are clean and nest gives raw tokens whose
/// section tags nest alike.
proof fn lemma_scan_nest(r: Seq<char>, open: Seq<Seq<char>>)
    requires
        clean_nest(r, open),
    ensures
        raw_nest(scan_raw(r, default_open(), default_close()), open),
    decreases r.len(),
{
    let op = default_open();
    let cl = default_close();
    assert(op == open_braces());
    assert(cl == close_braces());
    if r.len() == 0 {
    } else {
        lemma_find(r, op);
        match find(r, op) {
            None => {
                lemma_nest_skip(r, r.len() as int, open);
                assert(r.skip(r.len() as int) =~= Seq::<char>::empty());
                let raw = scan_raw(r, op, cl);
                assert(raw == seq![Some(TokenView::Text(r))]);
                assert(raw.drop_first() =~= Seq::<Option<TokenView>>::empty());
                assert(clean_nest(Seq::<char>::empty(), open) == (open.len() == 0));
                assert(raw_nest(raw.drop_first(), open) == (open.len() == 0));
                assert(raw_nest(raw, open));
            },
            Some(oi) => {
                lemma_nest_skip(r, oi, open);
                let r2 = r.skip(oi);
                assert(r2.subrange(0, 2) =~= r.subrange(oi, oi + 2));
                assert(occurs_at(r2, 0, open_braces()));
                let ci = find(r2, close_braces())->0;
                lemma_close_at(r2, ci);
                lemma_find(r2, close_braces());
                let content = r2.subrange(2, ci);
                let tr = trim(content);
                let after_open = r.skip(oi + 2);
                assert(after_open =~= r2.skip(2));
                assert(r2.subrange(ci, ci + 2) =~= close_braces());
                if ci > 2 {
                    assert(content[0] == r2[2]);
                } else {
                    assert(r2[2] == '}');
                }
                assert(!(after_open.len() > 0 && after_open[0] == '{'));
                let body = after_open;
                assert(body.subrange(ci - 2, ci) =~= r2.subrange(ci, ci + 2));
                assert forall|j: int| 0 <= j < ci - 2 implies !occurs_at(body, j, cl) by {
                    if occurs_at(body, j, cl) {
                        assert(body.subrange(j, j + 2) =~= r2.subrange(j + 2, j + 4));
                        assert(occurs_at(r2, j + 2, close_braces()));
                    }
                }
                lemma_find_first(body, cl, ci - 2);
                assert(body.take(ci - 2) =~= content);
                let next = r.skip(oi + ci + 2);
                assert(body.skip(ci - 2 + cl.len()) =~= next);
                assert(r2.skip(ci + 2) =~= next);
                assert(!is_delimiter_tag(tr));
                let tok = tag_token(tr, false);
                assert(tag_effect(content, false, op, cl) == (Some(tok), op, cl));
                assert(r.take(oi) =~= r.take(oi));
                let before = if oi > 0 {
                    seq![Some(TokenView::Text(r.take(oi)))]
                } else {
                    Seq::<Option<TokenView>>::empty()
                };
                let rest = scan_raw(next, op, cl);
                assert(scan_raw(r, op, cl) == before + seq![Some(tok)] + rest);
                let open2 = if tr.len() > 0 && (tr[0] == '#' || tr[0] == '^') {
                    open.push(trim(tr.drop_first()))
                } else if tr.len() > 0 && tr[0] == '/' {
                    open.drop_last()
                } else {
                    open
                };
                assert(clean_nest(next, open2));
                lemma_scan_nest(next, open2);
                let tail = seq![Some(tok)] + rest;
                assert(tail[0] == Some(tok));
                assert(tail.drop_first() =~= rest);
                assert(raw_nest(tail, open));
                if oi > 0 {
                    let all = before + tail;
                    assert(all[0] == Some(TokenView::Text(r.take(oi))));
                    assert(all.drop_first() =~= tail);
                    assert(scan_raw(r, op, cl) =~= all);
                    assert(raw_nest(all, open));
                } else {
                    assert(scan_raw(r, op, cl) =~= tail);
                }
            },
        }
    }
}

/// Taking text out of raw tokens, and dropping changes of delimiters, keeps
/// their section tags nesting.
proof fn lemma_strip_nest(raw: Seq<Option<TokenView>>, m: Seq<bool>, open: Seq<Seq<char>>)
    requires
        raw_nest(raw, open),
    ensures
        tokens_nest(strip(raw, m), open),
    decreases raw.len(),
{
    if raw.len() > 0 {
        let n = token_pieces(raw[0]).len();
        let rest = strip(raw.drop_first(), m.skip(n as int));
        let all = strip(raw, m);
        match raw[0] {
            None => {
                lemma_strip_nest(raw.drop_first(), m.skip(n as int), open);
                assert(all =~= rest);
            },
            Some(TokenView::Text(_)) => {
                lemma_strip_nest(raw.drop_first(), m.skip(n as int), open);
                if all.len() > rest.len() {
                    assert(all[0] is Text);
                    assert(all.drop_first() =~= rest);
                } else {
                    assert(all =~= rest);
                }
            },
            Some(t) => {
                let open2 = match t {
                    TokenView::SectionOpen(x) => open.push(x),
                    TokenView::InvertedOpen(x) => open.push(x),
                    TokenView::SectionClose(_) => open.drop_last(),
                    _ => open,
                };
                lemma_strip_nest(raw.drop_first(), m.skip(n as int), open2);
                assert(all[0] == t);
                assert(all.drop_first() =~= rest);
            },
        }
    }
}

/// The names of the open sections of a parse.
pub open spec fn frame_names(stack: Seq<Frame>) -> Seq<Seq<char>> {
    Seq::new(stack.len(), |k: int| stack[k].name)
}

/// Tokens whose section tags nest parse without error.
proof fn lemma_parse_nest(ts: Seq<TokenView>, stack: Seq<Frame>, cur: Seq<crate::parser::NodeView>)
    requires
        tokens_nest(ts, frame_names(stack)),
    ensures
        parse_from(ts, stack, cur) is Ok,
    decreases ts.len(),
{
    let names = frame_names(stack);
    if ts.len() > 0 {
        let rest = ts.drop_first();
        match ts[0] {
            TokenView::SectionOpen(n) => {
                let st2 = stack.push(Frame { name: n, siblings: cur, inverted: false });
                assert(frame_names(st2) =~= names.push(n));
                lemma_parse_nest(rest, st2, seq![]);
            },
            TokenView::InvertedOpen(n) => {
                let st2 = stack.push(Frame { name: n, siblings: cur, inverted: true });
                assert(frame_names(st2) =~= names.push(n));
                lemma_parse_nest(rest, st2, seq![]);
            },
            TokenView::SectionClose(n) => {
                let f = stack.last();
                assert(names.last() == f.name);
                assert(frame_names(stack.drop_last()) =~= names.drop_last());
                lemma_parse_nest(
                    rest,
                    stack.drop_last(),
                    f.siblings.push(
                        crate::parser::NodeView::Section {
                            name: n,
                            children: cur,
                            inverted: f.inverted,
                        },
                    ),
                );
            },
            TokenView::Text(x) => lemma_parse_nest(rest, stack, cur.push(crate::parser::NodeView::Text(x))),
            TokenView::Variable(x) => lemma_parse_nest(
                rest,
                stack,
                cur.push(crate::parser::NodeView::Variable(x)),
            ),
            TokenView::UnescapedVariable(x) => lemma_parse_nest(
                rest,
                stack,
                cur.push(crate::parser::NodeView::UnescapedVariable(x)),
            ),
            TokenView::Comment(x) => lemma_parse_nest(
                rest,
                stack,
                cur.push(crate::parser::NodeView::Comment(x)),
            ),
            TokenView::Partial(x) => lemma_parse_nest(
                rest,
                stack,
                cur.push(crate::parser::NodeView::Partial(x)),
            ),
        }
    }
}

/// A repaired template parses. This holds of a template whose tags are all
/// closed (each `{{` has a `}}` before the next `{{`), already stripped of
/// whitespace, free of braces inside, and not changes of delimiters, and
/// which does not end with `{`: whatever its sections, left open, closed
/// where none is open, or closed across one another, the repair pass leaves a
/// template that scans into tokens that parse.
pub proof fn lemma_repaired_parses(template: Seq<char>)
    requires
        tags_closed(template),
        tags_stripped(template),
        clean_tags(template),
        template.len() > 0 ==> template.last() != '{',
    ensures
        parse_spec(scan_spec(jugaad_spec(template).0)) is Ok,
{
    lemma_close_open_tags_none(template, 0, seq![]);
    lemma_strip_tags_none(template, 0, seq![]);
    assert(template.skip(0) =~= template);
    assert(good_names(Seq::<Seq<char>>::empty()));
    lemma_pass3_nests(template, 0, seq![], seq![]);
    let out = pass3_output(template, 0, seq![], seq![]);
    assert(jugaad_spec(template).0 == out);
    assert(out.skip(0) =~= out);
    lemma_scan_nest(out, seq![]);
    let raw = scan_raw(out, default_open(), default_close());
    lemma_strip_nest(raw, mask(flat(raw)), seq![]);
    assert(frame_names(Seq::<Frame>::empty()) =~= Seq::<Seq<char>>::empty());
    lemma_parse_nest(scan_spec(out), seq![], seq![]);
}

} // verus!
