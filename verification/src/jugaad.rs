//! The repair pass ("jugaad"): fixes common mistakes in a template before it
//! is parsed, and reports each fix.
//!
//! It makes three passes over the template: it closes `{{` tags left open
//! (where a lone `}` ends the tag, by doubling it), it strips whitespace inside
//! tags (`{{ name }}` becomes `{{name}}`), and it matches close tags to open
//! sections, closing first the sections left open inside the one a close tag
//! ends and removing close tags that match no open section; then it closes,
//! innermost first, the sections left open at the end. Positions in reports
//! are byte offsets in UTF-8.

use vstd::prelude::*;
use crate::scanner::{is_delimiter_tag, lemma_find};
use crate::repaired::lemma_trim_nonblank_ends;
use crate::source::lemma_trim_self;
use crate::text::{
    char_is_whitespace, chars_of, decimal, find, find_at, occurs_at, push_chars, push_decimal,
    push_str, starts_with_at, string_of, trim, trim_end, trim_range, trim_start, chars_of_range,
    lemma_trim_len, lemma_trim_idempotent,
};

verus! {

broadcast use vstd::string::group_string_axioms;

/// The repaired template and the fixes made, in order.
pub struct JugaadResult {
    pub fixed_template: String,
    pub fixes: Vec<String>,
}

/// The texts of a list of strings.
pub open spec fn texts(v: Seq<String>) -> Seq<Seq<char>> {
    v.map_values(|s: String| s@)
}

// ---------------------------------------------------------------------------
// Positions in bytes
// ---------------------------------------------------------------------------

/// The number of bytes of `c` in UTF-8.
pub open spec fn utf8_width(c: char) -> nat {
    if (c as u32) < 0x80 {
        1
    } else if (c as u32) < 0x800 {
        2
    } else if (c as u32) < 0x10000 {
        3
    } else {
        4
    }
}

/// The number of bytes of `s` in UTF-8.
pub open spec fn utf8_len(s: Seq<char>) -> nat
    decreases s.len(),
{
    if s.len() == 0 {
        0
    } else {
        utf8_len(s.drop_last()) + utf8_width(s.last())
    }
}

/// The byte position of index `i` of `s`: the UTF-8 length of `s[..i]`.
fn byte_offset(s: &Vec<char>, i: usize) -> (r: usize)
    requires
        i <= s.len(),
        i <= usize::MAX / 4,
    ensures
        r == utf8_len(s@.take(i as int)),
{
    let mut r: usize = 0;
    let mut k: usize = 0;
    assert(s@.take(0) =~= Seq::<char>::empty());
    while k < i
        invariant
            k <= i <= s.len(),
            i <= usize::MAX / 4,
            r == utf8_len(s@.take(k as int)),
            r <= 4 * k,
        decreases i - k,
    {
        let c = s[k];
        let w: usize = if (c as u32) < 0x80 {
            1
        } else if (c as u32) < 0x800 {
            2
        } else if (c as u32) < 0x10000 {
            3
        } else {
            4
        };
        assert(s@.take(k + 1).drop_last() =~= s@.take(k as int));
        assert(s@.take(k + 1).last() == c);
        r = r + w;
        k = k + 1;
    }
    r
}

// ---------------------------------------------------------------------------
// The fixes
// ---------------------------------------------------------------------------

/// `{{`.
pub open spec fn open_braces() -> Seq<char> {
    seq!['{', '{']
}

/// `}}`.
pub open spec fn close_braces() -> Seq<char> {
    seq!['}', '}']
}

/// `s` with `t` inserted at index `k`.
pub open spec fn insert_at(s: Seq<char>, k: int, t: Seq<char>) -> Seq<char> {
    s.take(k) + t + s.skip(k)
}

/// `s` with `s[a..b]` replaced by `t`.
pub open spec fn replace_range(s: Seq<char>, a: int, b: int, t: Seq<char>) -> Seq<char> {
    s.take(a) + t + s.skip(b)
}

/// The report of a `{{` closed at byte position `pos`.
pub open spec fn unclosed_tag_message(pos: nat) -> Seq<char> {
    "Unclosed { tag at position "@ + decimal(pos) + "... theek kar diya (fixed it)"@
}

/// The report of a tag stripped of whitespace.
pub open spec fn whitespace_message() -> Seq<char> {
    "Whitespace in tag name... saaf kar diya (cleaned it up)"@
}

/// The report of a removed close tag.
pub open spec fn orphan_message(name: Seq<char>) -> Seq<char> {
    "Orphan closing tag '"@ + name + "'... hata diya (removed it)"@
}

/// The report of a section closed at the end.
pub open spec fn unclosed_section_message(name: Seq<char>) -> Seq<char> {
    "Unclosed section '"@ + name + "'... band kar diya (closed it)"@
}

/// `}`.
pub open spec fn close_brace() -> Seq<char> {
    seq!['}']
}

/// The first pass, from index `i` of `s`: at each `{{` whose next `}}` does
/// not come before the next `{{` (or does not come at all), the tag is closed
/// and the fix reported with the byte position of the `{{`. Where a single `}`
/// comes before the next `{{` (or the end), the tag is closed there, by a
/// second `}` after it; else `}}` is inserted before the next `{{`, or at the
/// end.
pub open spec fn close_open_tags(s: Seq<char>, i: int, fixes: Seq<Seq<char>>) -> (
    Seq<char>,
    Seq<Seq<char>>,
)
    decreases s.len() - i,
{
    if i < 0 || i >= s.len() {
        (s, fixes)
    } else if occurs_at(s, i, open_braces()) {
        let rest = s.skip(i + 2);
        let next_open = find(rest, open_braces());
        let next_close = find(rest, close_braces());
        let first_brace = find(rest, close_brace());
        proof {
            lemma_find(rest, open_braces());
            lemma_find(rest, close_braces());
            lemma_find(rest, close_brace());
        }
        if next_close is Some && (next_open is None || next_close->0 < next_open->0) {
            close_open_tags(s, i + 2 + next_close->0 + 2, fixes)
        } else {
            let lim = if next_open is Some {
                next_open->0
            } else {
                rest.len() as int
            };
            let fixes2 = fixes.push(unclosed_tag_message(utf8_len(s.take(i))));
            if first_brace is Some && first_brace->0 < lim {
                let b = first_brace->0;
                close_open_tags(insert_at(s, i + 3 + b, close_brace()), i + 4 + b, fixes2)
            } else {
                close_open_tags(insert_at(s, i + 2 + lim, close_braces()), i + 4 + lim, fixes2)
            }
        }
    } else {
        close_open_tags(s, i + 1, fixes)
    }
}

/// Whether `c` marks a tag kind: section, inverted section, close, partial or
/// unescaped variable.
pub open spec fn is_sigil(c: char) -> bool {
    c == '#' || c == '^' || c == '/' || c == '>' || c == '&'
}

/// The content a tag with content `content` has once stripped of whitespace,
/// or `None` for a comment, which is left as it is.
pub open spec fn canonical_content(content: Seq<char>) -> Option<Seq<char>> {
    let tr = trim(content);
    if tr.len() > 0 && is_sigil(tr[0]) {
        Some(seq![tr[0]] + trim(tr.drop_first()))
    } else if tr.len() > 0 && tr[0] == '!' {
        None
    } else if tr.len() > 0 && tr[0] == '{' && tr.last() == '}' {
        Some(seq!['{'] + trim(tr.subrange(1, tr.len() - 1)) + seq!['}'])
    } else {
        Some(tr)
    }
}

/// A tag whose trimmed content is one of the sigils `# ^ / > &` and a name
/// is rewritten to the sigil followed directly by the trimmed name.
pub proof fn lemma_canonical_sigil(content: Seq<char>, c: char, n: Seq<char>)
    requires
        c == '#' || c == '^' || c == '/' || c == '>' || c == '&',
        trim(content) == seq![c] + n,
    ensures
        canonical_content(content) == Some(seq![c] + trim(n)),
{
    let tr = trim(content);
    assert(tr[0] == c);
    assert(tr.drop_first() =~= n);
}

/// The stripped form of a tag has no whitespace at either end, and none
/// right after a leading sigil `# ^ / > &`.
pub proof fn lemma_canonical_stripped(content: Seq<char>)
    ensures
        canonical_content(content) matches Some(c) ==> trim(c) == c && (c.len() > 1 && (c[0]
            == '#' || c[0] == '^' || c[0] == '/' || c[0] == '>' || c[0] == '&')
            ==> !char_is_whitespace(c[1])),
{
    let tr = trim(content);
    lemma_trim_idempotent(content);
    if tr.len() > 0 && is_sigil(tr[0]) {
        let rest = trim(tr.drop_first());
        let c = seq![tr[0]] + rest;
        lemma_trim_idempotent(tr.drop_first());
        if rest.len() > 0 {
            lemma_trim_nonblank_ends(rest);
            assert(c[1] == rest[0]);
            assert(c.last() == rest.last());
        }
        assert(!char_is_whitespace(c[0]));
        assert(!char_is_whitespace(c.last()));
        lemma_trim_self(c);
    } else if tr.len() > 0 && tr[0] == '!' {
    } else if tr.len() > 0 && tr[0] == '{' && tr.last() == '}' {
        let inner = trim(tr.subrange(1, tr.len() - 1));
        let c = seq!['{'] + inner + seq!['}'];
        assert(c[0] == '{');
        assert(c.last() == '}');
        lemma_trim_self(c);
    }
}

/// The second pass, from index `i` of `s`: each `{{...}}` tag that is not a
/// comment or a change of delimiters and whose content differs from its
/// stripped form is rewritten to the stripped form, and reported.
pub open spec fn strip_tags(s: Seq<char>, i: int, fixes: Seq<Seq<char>>) -> (
    Seq<char>,
    Seq<Seq<char>>,
)
    decreases s.len() - i,
{
    if i < 0 || i >= s.len() {
        (s, fixes)
    } else if occurs_at(s, i, open_braces()) {
        match find(s.skip(i), close_braces()) {
            None => strip_tags(s, i + 2, fixes),
            Some(ci) => {
                proof {
                    lemma_find(s.skip(i), close_braces());
                }
                let content = s.subrange(i + 2, i + ci);
                if is_delimiter_tag(trim(content)) {
                    strip_tags(s, i + ci + 2, fixes)
                } else {
                    match canonical_content(content) {
                        Some(c) if c != content => {
                            let rw = open_braces() + c + close_braces();
                            proof {
                                lemma_canonical_len(content);
                            }
                            strip_tags(
                                replace_range(s, i, i + ci + 2, rw),
                                i + rw.len(),
                                fixes.push(whitespace_message()),
                            )
                        },
                        _ => strip_tags(s, i + ci + 2, fixes),
                    }
                }
            },
        }
    } else {
        strip_tags(s, i + 1, fixes)
    }
}

/// The index of the last of `names` equal to `name`.
pub open spec fn last_index_of(names: Seq<Seq<char>>, name: Seq<char>) -> Option<int>
    decreases names.len(),
{
    if names.len() == 0 {
        None
    } else if names.last() == name {
        Some(names.len() - 1)
    } else {
        last_index_of(names.drop_last(), name)
    }
}

/// The close tag of a section.
pub open spec fn close_tag(name: Seq<char>) -> Seq<char> {
    "{{/"@ + name + "}}"@
}

/// The close tags of the sections `names`, the last (innermost) first.
pub open spec fn close_tags(names: Seq<Seq<char>>) -> Seq<char>
    decreases names.len(),
{
    if names.len() == 0 {
        seq![]
    } else {
        close_tags(names.drop_first()) + close_tag(names[0])
    }
}

/// The reports of the sections `names` closed by `close_tags`, in the same
/// order.
pub open spec fn close_reports(names: Seq<Seq<char>>) -> Seq<Seq<char>>
    decreases names.len(),
{
    if names.len() == 0 {
        seq![]
    } else {
        close_reports(names.drop_first()).push(unclosed_section_message(names[0]))
    }
}

/// The third pass, from index `i` of `s`, with the sections `open` still
/// open, innermost last. A close tag closes the last open section of its
/// name: the sections opened inside that one and still open are closed first,
/// by close tags inserted before it, innermost first, each reported. A close
/// tag with no open section of its name is removed and reported.
pub open spec fn drop_orphans(
    s: Seq<char>,
    i: int,
    open: Seq<Seq<char>>,
    fixes: Seq<Seq<char>>,
) -> (Seq<char>, Seq<Seq<char>>, Seq<Seq<char>>)
    decreases s.len() - i,
{
    if i < 0 || i >= s.len() {
        (s, open, fixes)
    } else if occurs_at(s, i, open_braces()) {
        match find(s.skip(i), close_braces()) {
            None => drop_orphans(s, i + 2, open, fixes),
            Some(ci) => {
                proof {
                    lemma_find(s.skip(i), close_braces());
                    lemma_close_after_open(s, i, ci);
                }
                let tr = trim(s.subrange(i + 2, i + ci));
                if tr.len() > 0 && (tr[0] == '#' || tr[0] == '^') {
                    drop_orphans(s, i + ci + 2, open.push(trim(tr.drop_first())), fixes)
                } else if tr.len() > 0 && tr[0] == '/' {
                    let name = trim(tr.drop_first());
                    match last_index_of(open, name) {
                        Some(p) => {
                            let inner = open.skip(p + 1);
                            let ins = close_tags(inner);
                            drop_orphans(
                                insert_at(s, i, ins),
                                i + ins.len() + ci + 2,
                                open.take(p),
                                fixes + close_reports(inner),
                            )
                        },
                        None => drop_orphans(
                            replace_range(s, i, i + ci + 2, seq![]),
                            i,
                            open,
                            fixes.push(orphan_message(name)),
                        ),
                    }
                } else {
                    drop_orphans(s, i + ci + 2, open, fixes)
                }
            },
        }
    } else {
        drop_orphans(s, i + 1, open, fixes)
    }
}

/// `s` with the sections `open` closed at its end, the last first, each
/// reported.
pub open spec fn close_sections(s: Seq<char>, open: Seq<Seq<char>>, fixes: Seq<Seq<char>>) -> (
    Seq<char>,
    Seq<Seq<char>>,
) {
    (s + close_tags(open), fixes + close_reports(open))
}

/// The repaired template and the fixes made, in order.
pub open spec fn jugaad_spec(template: Seq<char>) -> (Seq<char>, Seq<Seq<char>>) {
    let (s1, f1) = close_open_tags(template, 0, seq![]);
    let (s2, f2) = strip_tags(s1, 0, f1);
    let (s3, open, f3) = drop_orphans(s2, 0, seq![], f2);
    close_sections(s3, open, f3)
}

// ---------------------------------------------------------------------------
// Lemmas
// ---------------------------------------------------------------------------

/// The stripped form of a tag is no longer than the tag.
pub proof fn lemma_canonical_len(content: Seq<char>)
    ensures
        canonical_content(content) matches Some(c) ==> c.len() <= content.len(),
{
    let tr = trim(content);
    lemma_trim_len(content);
    if tr.len() > 0 {
        lemma_trim_len(tr.drop_first());
        if tr.len() >= 2 {
            lemma_trim_len(tr.subrange(1, tr.len() - 1));
        }
    }
}

/// A `}}` found after a `{{` at `i` starts at least two past it.
pub proof fn lemma_close_after_open(s: Seq<char>, i: int, ci: int)
    requires
        occurs_at(s, i, open_braces()),
        find(s.skip(i), close_braces()) == Some(ci),
    ensures
        ci >= 2,
{
    lemma_find(s.skip(i), close_braces());
    let t = s.skip(i);
    assert(t.subrange(0, 2) =~= s.subrange(i, i + 2));
    if ci == 0 {
        assert(t.subrange(0, 2)[0] == '{');
        assert(t.subrange(ci, ci + 2)[0] == '}');
    } else if ci == 1 {
        assert(t.subrange(0, 2)[1] == '{');
        assert(t.subrange(ci, ci + 2)[0] == '}');
    }
}


/// `last_index_of` gives an index of `names`.
pub proof fn lemma_last_index_of(names: Seq<Seq<char>>, name: Seq<char>)
    ensures
        last_index_of(names, name) matches Some(p) ==> 0 <= p < names.len() && names[p] == name,
    decreases names.len(),
{
    if names.len() > 0 && names.last() != name {
        lemma_last_index_of(names.drop_last(), name);
    }
}

/// A report in one of the four forms of fix.
pub open spec fn is_report(f: Seq<char>) -> bool {
    ||| exists|pos: nat| f == unclosed_tag_message(pos)
    ||| f == whitespace_message()
    ||| exists|name: Seq<char>| f == orphan_message(name)
    ||| exists|name: Seq<char>| f == unclosed_section_message(name)
}

/// Every entry of `fs` is a report in one of the four forms of fix.
pub open spec fn all_reports(fs: Seq<Seq<char>>) -> bool {
    forall|k: int| 0 <= k < fs.len() ==> is_report(#[trigger] fs[k])
}

proof fn lemma_all_reports_push(fs: Seq<Seq<char>>, f: Seq<char>)
    requires
        all_reports(fs),
        is_report(f),
    ensures
        all_reports(fs.push(f)),
{
    assert forall|k: int| 0 <= k < fs.push(f).len() implies is_report(#[trigger] fs.push(f)[k]) by {
        if k < fs.len() {
            assert(fs.push(f)[k] == fs[k]);
        }
    }
}

proof fn lemma_all_reports_append(a: Seq<Seq<char>>, b: Seq<Seq<char>>)
    requires
        all_reports(a),
        all_reports(b),
    ensures
        all_reports(a + b),
{
    assert forall|k: int| 0 <= k < (a + b).len() implies is_report(#[trigger] (a + b)[k]) by {
        if k < a.len() {
            assert((a + b)[k] == a[k]);
        } else {
            assert((a + b)[k] == b[k - a.len()]);
        }
    }
}

/// Closing sections reports each of them, and closes nothing where there is
/// nothing to close.
proof fn lemma_close_reports(names: Seq<Seq<char>>)
    ensures
        close_reports(names).len() == names.len(),
        all_reports(close_reports(names)),
        names.len() == 0 ==> close_tags(names) == Seq::<char>::empty(),
    decreases names.len(),
{
    if names.len() > 0 {
        lemma_close_reports(names.drop_first());
        let m = unclosed_section_message(names[0]);
        assert(is_report(m));
        lemma_all_reports_push(close_reports(names.drop_first()), m);
    }
}

/// The first pass only adds reports, each in one of the four forms, and
/// changes the template only where it adds one.
proof fn lemma_close_open_tags_reports(s: Seq<char>, i: int, fixes: Seq<Seq<char>>)
    ensures
        close_open_tags(s, i, fixes).1.len() >= fixes.len(),
        close_open_tags(s, i, fixes).1.len() == fixes.len() ==> close_open_tags(s, i, fixes).0
            == s,
        all_reports(fixes) ==> all_reports(close_open_tags(s, i, fixes).1),
    decreases s.len() - i,
{
    if i < 0 || i >= s.len() {
    } else if occurs_at(s, i, open_braces()) {
        let rest = s.skip(i + 2);
        let next_open = find(rest, open_braces());
        let next_close = find(rest, close_braces());
        let first_brace = find(rest, close_brace());
        lemma_find(rest, open_braces());
        lemma_find(rest, close_braces());
        lemma_find(rest, close_brace());
        if next_close is Some && (next_open is None || next_close->0 < next_open->0) {
            lemma_close_open_tags_reports(s, i + 2 + next_close->0 + 2, fixes);
        } else {
            let lim = if next_open is Some {
                next_open->0
            } else {
                rest.len() as int
            };
            let m = unclosed_tag_message(utf8_len(s.take(i)));
            assert(is_report(m));
            if all_reports(fixes) {
                lemma_all_reports_push(fixes, m);
            }
            let fixes2 = fixes.push(m);
            if first_brace is Some && first_brace->0 < lim {
                let b = first_brace->0;
                lemma_close_open_tags_reports(insert_at(s, i + 3 + b, close_brace()), i + 4 + b, fixes2);
            } else {
                lemma_close_open_tags_reports(
                    insert_at(s, i + 2 + lim, close_braces()),
                    i + 4 + lim,
                    fixes2,
                );
            }
        }
    } else {
        lemma_close_open_tags_reports(s, i + 1, fixes);
    }
}

/// The second pass only adds reports, each in one of the four forms, and
/// changes the template only where it adds one.
proof fn lemma_strip_tags_reports(s: Seq<char>, i: int, fixes: Seq<Seq<char>>)
    ensures
        strip_tags(s, i, fixes).1.len() >= fixes.len(),
        strip_tags(s, i, fixes).1.len() == fixes.len() ==> strip_tags(s, i, fixes).0 == s,
        all_reports(fixes) ==> all_reports(strip_tags(s, i, fixes).1),
    decreases s.len() - i,
{
    if i < 0 || i >= s.len() {
    } else if occurs_at(s, i, open_braces()) {
        match find(s.skip(i), close_braces()) {
            None => lemma_strip_tags_reports(s, i + 2, fixes),
            Some(ci) => {
                lemma_find(s.skip(i), close_braces());
                let content = s.subrange(i + 2, i + ci);
                if is_delimiter_tag(trim(content)) {
                    lemma_strip_tags_reports(s, i + ci + 2, fixes);
                } else {
                    match canonical_content(content) {
                        Some(c) if c != content => {
                            let rw = open_braces() + c + close_braces();
                            lemma_canonical_len(content);
                            assert(is_report(whitespace_message()));
                            if all_reports(fixes) {
                                lemma_all_reports_push(fixes, whitespace_message());
                            }
                            lemma_strip_tags_reports(
                                replace_range(s, i, i + ci + 2, rw),
                                i + rw.len(),
                                fixes.push(whitespace_message()),
                            );
                        },
                        _ => lemma_strip_tags_reports(s, i + ci + 2, fixes),
                    }
                }
            },
        }
    } else {
        lemma_strip_tags_reports(s, i + 1, fixes);
    }
}

/// The third pass only adds reports, each in one of the four forms, and
/// changes the template only where it adds one.
proof fn lemma_drop_orphans_reports(
    s: Seq<char>,
    i: int,
    open: Seq<Seq<char>>,
    fixes: Seq<Seq<char>>,
)
    ensures
        drop_orphans(s, i, open, fixes).2.len() >= fixes.len(),
        drop_orphans(s, i, open, fixes).2.len() == fixes.len() ==> drop_orphans(
            s,
            i,
            open,
            fixes,
        ).0 == s,
        all_reports(fixes) ==> all_reports(drop_orphans(s, i, open, fixes).2),
    decreases s.len() - i,
{
    if i < 0 || i >= s.len() {
    } else if occurs_at(s, i, open_braces()) {
        match find(s.skip(i), close_braces()) {
            None => lemma_drop_orphans_reports(s, i + 2, open, fixes),
            Some(ci) => {
                lemma_find(s.skip(i), close_braces());
                lemma_close_after_open(s, i, ci);
                let tr = trim(s.subrange(i + 2, i + ci));
                if tr.len() > 0 && (tr[0] == '#' || tr[0] == '^') {
                    lemma_drop_orphans_reports(s, i + ci + 2, open.push(trim(tr.drop_first())), fixes);
                } else if tr.len() > 0 && tr[0] == '/' {
                    let name = trim(tr.drop_first());
                    match last_index_of(open, name) {
                        Some(p) => {
                            let inner = open.skip(p + 1);
                            let ins = close_tags(inner);
                            lemma_close_reports(inner);
                            if all_reports(fixes) {
                                lemma_all_reports_append(fixes, close_reports(inner));
                            }
                            if inner.len() == 0 {
                                assert(insert_at(s, i, ins) =~= s);
                                assert(fixes + close_reports(inner) =~= fixes);
                            }
                            lemma_drop_orphans_reports(
                                insert_at(s, i, ins),
                                i + ins.len() + ci + 2,
                                open.take(p),
                                fixes + close_reports(inner),
                            );
                        },
                        None => {
                            assert(is_report(orphan_message(name)));
                            if all_reports(fixes) {
                                lemma_all_reports_push(fixes, orphan_message(name));
                            }
                            lemma_drop_orphans_reports(
                                replace_range(s, i, i + ci + 2, seq![]),
                                i,
                                open,
                                fixes.push(orphan_message(name)),
                            );
                        },
                    }
                } else {
                    lemma_drop_orphans_reports(s, i + ci + 2, open, fixes);
                }
            },
        }
    } else {
        lemma_drop_orphans_reports(s, i + 1, open, fixes);
    }
}

/// The repair pass changes a template only where it reports a fix, and each
/// report is in one of the four forms: a `{{` tag closed, whitespace stripped
/// from a tag, an orphan close tag removed, a section closed.
pub proof fn lemma_jugaad_reports(template: Seq<char>)
    ensures
        jugaad_spec(template).1.len() == 0 ==> jugaad_spec(template).0 == template,
        all_reports(jugaad_spec(template).1),
{
    let (s1, f1) = close_open_tags(template, 0, seq![]);
    lemma_close_open_tags_reports(template, 0, seq![]);
    let (s2, f2) = strip_tags(s1, 0, f1);
    lemma_strip_tags_reports(s1, 0, f1);
    let (s3, open, f3) = drop_orphans(s2, 0, seq![], f2);
    lemma_drop_orphans_reports(s2, 0, seq![], f2);
    lemma_close_reports(open);
    lemma_all_reports_append(f3, close_reports(open));
    if open.len() == 0 {
        assert(s3 + close_tags(open) =~= s3);
    }
}

/// Where no `{{` occurs from `i` on, the first pass changes nothing.
proof fn lemma_close_open_tags_plain(s: Seq<char>, i: int, fixes: Seq<Seq<char>>)
    requires
        0 <= i,
        forall|j: int| i <= j ==> !occurs_at(s, j, open_braces()),
    ensures
        close_open_tags(s, i, fixes) == (s, fixes),
    decreases s.len() - i,
{
    if i < s.len() {
        lemma_close_open_tags_plain(s, i + 1, fixes);
    }
}

/// Where no `{{` occurs from `i` on, the second pass changes nothing.
proof fn lemma_strip_tags_plain(s: Seq<char>, i: int, fixes: Seq<Seq<char>>)
    requires
        0 <= i,
        forall|j: int| i <= j ==> !occurs_at(s, j, open_braces()),
    ensures
        strip_tags(s, i, fixes) == (s, fixes),
    decreases s.len() - i,
{
    if i < s.len() {
        lemma_strip_tags_plain(s, i + 1, fixes);
    }
}

/// Where no `{{` occurs from `i` on, the third pass changes nothing.
proof fn lemma_drop_orphans_plain(
    s: Seq<char>,
    i: int,
    open: Seq<Seq<char>>,
    fixes: Seq<Seq<char>>,
)
    requires
        0 <= i,
        forall|j: int| i <= j ==> !occurs_at(s, j, open_braces()),
    ensures
        drop_orphans(s, i, open, fixes) == (s, open, fixes),
    decreases s.len() - i,
{
    if i < s.len() {
        lemma_drop_orphans_plain(s, i + 1, open, fixes);
    }
}

/// The repair pass leaves a template without `{{` as it is, and reports
/// nothing.
pub proof fn lemma_jugaad_plain(template: Seq<char>)
    requires
        find(template, open_braces()) is None,
    ensures
        jugaad_spec(template) == (template, Seq::<Seq<char>>::empty()),
{
    lemma_find(template, open_braces());
    lemma_close_open_tags_plain(template, 0, seq![]);
    lemma_strip_tags_plain(template, 0, seq![]);
    lemma_drop_orphans_plain(template, 0, seq![], seq![]);
    lemma_close_reports(Seq::<Seq<char>>::empty());
    assert(template + close_tags(Seq::<Seq<char>>::empty()) =~= template);
    assert(Seq::<Seq<char>>::empty() + close_reports(Seq::<Seq<char>>::empty()) =~= Seq::<
        Seq<char>,
    >::empty());
}

/// Each `{{` of `s` has a `}}` after it, before the next `{{`.
pub open spec fn tags_closed(s: Seq<char>) -> bool {
    forall|j: int|
        #[trigger] occurs_at(s, j, open_braces()) ==> find(s.skip(j + 2), close_braces()) is Some
            && (find(s.skip(j + 2), open_braces()) is None || find(
            s.skip(j + 2),
            close_braces(),
        )->0 < find(s.skip(j + 2), open_braces())->0)
}

/// Each tag of `s` is a comment, a change of delimiters, or already in its
/// stripped form.
pub open spec fn tags_stripped(s: Seq<char>) -> bool {
    forall|j: int|
        #[trigger] occurs_at(s, j, open_braces()) ==> match find(s.skip(j), close_braces()) {
            Some(ci) => {
                let content = s.subrange(j + 2, j + ci);
                is_delimiter_tag(trim(content)) || canonical_content(content) is None
                    || canonical_content(content) == Some(content)
            },
            None => true,
        }
}

/// From index `i` of `s`, with the sections `open` open, each close tag
/// closes the innermost open section, and no section is left open at the
/// end.
pub open spec fn sections_nest(s: Seq<char>, i: int, open: Seq<Seq<char>>) -> bool
    decreases s.len() - i,
{
    if i < 0 || i >= s.len() {
        open.len() == 0
    } else if occurs_at(s, i, open_braces()) {
        match find(s.skip(i), close_braces()) {
            None => sections_nest(s, i + 2, open),
            Some(ci) => {
                proof {
                    lemma_find(s.skip(i), close_braces());
                    lemma_close_after_open(s, i, ci);
                }
                let tr = trim(s.subrange(i + 2, i + ci));
                if tr.len() > 0 && (tr[0] == '#' || tr[0] == '^') {
                    sections_nest(s, i + ci + 2, open.push(trim(tr.drop_first())))
                } else if tr.len() > 0 && tr[0] == '/' {
                    open.len() > 0 && open.last() == trim(tr.drop_first()) && sections_nest(
                        s,
                        i + ci + 2,
                        open.drop_last(),
                    )
                } else {
                    sections_nest(s, i + ci + 2, open)
                }
            },
        }
    } else {
        sections_nest(s, i + 1, open)
    }
}

pub(crate) proof fn lemma_close_open_tags_none(s: Seq<char>, i: int, fixes: Seq<Seq<char>>)
    requires
        0 <= i,
        tags_closed(s),
    ensures
        close_open_tags(s, i, fixes) == (s, fixes),
    decreases s.len() - i,
{
    if i < s.len() {
        if occurs_at(s, i, open_braces()) {
            let rest = s.skip(i + 2);
            lemma_find(rest, close_braces());
            lemma_close_open_tags_none(s, i + 2 + find(rest, close_braces())->0 + 2, fixes);
        } else {
            lemma_close_open_tags_none(s, i + 1, fixes);
        }
    }
}

pub(crate) proof fn lemma_strip_tags_none(s: Seq<char>, i: int, fixes: Seq<Seq<char>>)
    requires
        0 <= i,
        tags_stripped(s),
    ensures
        strip_tags(s, i, fixes) == (s, fixes),
    decreases s.len() - i,
{
    if i < s.len() {
        if occurs_at(s, i, open_braces()) {
            match find(s.skip(i), close_braces()) {
                None => lemma_strip_tags_none(s, i + 2, fixes),
                Some(ci) => {
                    lemma_find(s.skip(i), close_braces());
                    lemma_close_after_open(s, i, ci);
                    lemma_strip_tags_none(s, i + ci + 2, fixes);
                },
            }
        } else {
            lemma_strip_tags_none(s, i + 1, fixes);
        }
    }
}

proof fn lemma_drop_orphans_none(s: Seq<char>, i: int, open: Seq<Seq<char>>, fixes: Seq<Seq<char>>)
    requires
        0 <= i,
        sections_nest(s, i, open),
    ensures
        drop_orphans(s, i, open, fixes) == (s, Seq::<Seq<char>>::empty(), fixes),
    decreases s.len() - i,
{
    if i >= s.len() {
        assert(open =~= Seq::<Seq<char>>::empty());
    } else if occurs_at(s, i, open_braces()) {
        match find(s.skip(i), close_braces()) {
            None => lemma_drop_orphans_none(s, i + 2, open, fixes),
            Some(ci) => {
                lemma_find(s.skip(i), close_braces());
                lemma_close_after_open(s, i, ci);
                let tr = trim(s.subrange(i + 2, i + ci));
                if tr.len() > 0 && (tr[0] == '#' || tr[0] == '^') {
                    lemma_drop_orphans_none(s, i + ci + 2, open.push(trim(tr.drop_first())), fixes);
                } else if tr.len() > 0 && tr[0] == '/' {
                    let p = open.len() - 1;
                    assert(last_index_of(open, trim(tr.drop_first())) == Some(p));
                    let inner = open.skip(p + 1);
                    assert(inner =~= Seq::<Seq<char>>::empty());
                    lemma_close_reports(inner);
                    assert(insert_at(s, i, close_tags(inner)) =~= s);
                    assert(fixes + close_reports(inner) =~= fixes);
                    assert(open.take(p) =~= open.drop_last());
                    lemma_drop_orphans_none(s, i + ci + 2, open.drop_last(), fixes);
                } else {
                    lemma_drop_orphans_none(s, i + ci + 2, open, fixes);
                }
            },
        }
    } else {
        lemma_drop_orphans_none(s, i + 1, open, fixes);
    }
}

/// The repair pass leaves a well-formed template as it is and reports
/// nothing: one where each `{{` has a `}}` before the next `{{`, each tag is
/// in its stripped form (or a comment or a change of delimiters), and the
/// sections nest, each close tag closing the innermost open section.
pub proof fn lemma_jugaad_well_formed(template: Seq<char>)
    requires
        tags_closed(template),
        tags_stripped(template),
        sections_nest(template, 0, seq![]),
    ensures
        jugaad_spec(template) == (template, Seq::<Seq<char>>::empty()),
{
    lemma_close_open_tags_none(template, 0, seq![]);
    lemma_strip_tags_none(template, 0, seq![]);
    lemma_drop_orphans_none(template, 0, seq![], seq![]);
    lemma_close_reports(Seq::<Seq<char>>::empty());
    assert(template + close_tags(Seq::<Seq<char>>::empty()) =~= template);
    assert(Seq::<Seq<char>>::empty() + close_reports(Seq::<Seq<char>>::empty()) =~= Seq::<
        Seq<char>,
    >::empty());
}

// ---------------------------------------------------------------------------
// The repair pass
// ---------------------------------------------------------------------------

/// `s[..a] + mid + s[b..]`.
fn splice(s: &Vec<char>, a: usize, b: usize, mid: &Vec<char>) -> (r: Vec<char>)
    requires
        a <= b <= s.len(),
    ensures
        r@ == replace_range(s@, a as int, b as int, mid@),
{
    let mut r: Vec<char> = Vec::new();
    let mut k: usize = 0;
    while k < a
        invariant
            k <= a <= b <= s.len(),
            r@ == s@.take(k as int),
        decreases a - k,
    {
        r.push(s[k]);
        assert(r@ =~= s@.take(k + 1));
        k = k + 1;
    }
    let ghost r1 = r@;
    k = 0;
    while k < mid.len()
        invariant
            k <= mid.len(),
            r@ == r1 + mid@.take(k as int),
        decreases mid.len() - k,
    {
        r.push(mid[k]);
        assert(r@ =~= r1 + mid@.take(k + 1));
        k = k + 1;
    }
    assert(mid@.take(k as int) =~= mid@);
    let ghost r2 = r@;
    k = b;
    while k < s.len()
        invariant
            b <= k <= s.len(),
            r@ == r2 + s@.subrange(b as int, k as int),
        decreases s.len() - k,
    {
        r.push(s[k]);
        assert(r@ =~= r2 + s@.subrange(b as int, k + 1));
        k = k + 1;
    }
    assert(s@.subrange(b as int, k as int) =~= s@.skip(b as int));
    assert(r@ =~= replace_range(s@, a as int, b as int, mid@));
    r
}

proof fn lemma_texts_push(v: Seq<String>, x: String)
    ensures
        texts(v.push(x)) == texts(v).push(x@),
{
    assert(texts(v.push(x)) =~= texts(v).push(x@));
}

/// The first pass; see `close_open_tags`.
#[verifier::loop_isolation(false)]
fn close_open_tags_exec(s0: Vec<char>) -> (r: (Vec<char>, Vec<String>))
    requires
        s0.len() <= usize::MAX / 8,
    ensures
        close_open_tags(s0@, 0, seq![]) == (r.0@, texts(r.1@)),
        r.0.len() <= 2 * s0.len(),
{
    let n = s0.len();
    let ghost orig = s0@;
    let mut s = s0;
    let mut fixes: Vec<String> = Vec::new();
    let ob: Vec<char> = vec!['{', '{'];
    let cb: Vec<char> = vec!['}', '}'];
    let rb: Vec<char> = vec!['}'];
    assert(ob@ =~= open_braces());
    assert(cb@ =~= close_braces());
    assert(rb@ =~= close_brace());
    assert(texts(fixes@) =~= Seq::<Seq<char>>::empty());
    let mut i: usize = 0;
    while i < s.len()
        invariant
            i <= s.len(),
            n <= s.len(),
            2 * (s.len() - n) <= i,
            n <= usize::MAX / 8,
            ob@ == open_braces(),
            cb@ == close_braces(),
            rb@ == close_brace(),
            close_open_tags(orig, 0, seq![]) == close_open_tags(s@, i as int, texts(fixes@)),
        decreases s.len() - i,
    {
        if starts_with_at(&s, i, &ob) {
            let ghost rest = s@.skip(i + 2);
            let no = find_at(&s, i + 2, &ob);
            let nc = find_at(&s, i + 2, &cb);
            let jump = match nc {
                Some(c) => match no {
                    None => true,
                    Some(o) => c < o,
                },
                None => false,
            };
            if jump {
                let c = match nc {
                    Some(c) => c,
                    None => 0,
                };
                i = i + 2 + c + 2;
            } else {
                let lim = match no {
                    Some(o) => o,
                    None => s.len() - (i + 2),
                };
                assert(s@.skip(i + 2).len() == s.len() - (i + 2));
                let pos = byte_offset(&s, i);
                let mut msg = string_of("Unclosed { tag at position ");
                push_decimal(&mut msg, pos);
                push_str(&mut msg, "... theek kar diya (fixed it)");
                assert(msg@ =~= unclosed_tag_message(utf8_len(s@.take(i as int))));
                let fb = find_at(&s, i + 2, &rb);
                let single = match fb {
                    Some(b) => b < lim,
                    None => false,
                };
                proof {
                    lemma_texts_push(fixes@, msg);
                }
                fixes.push(msg);
                if single {
                    let b = match fb {
                        Some(b) => b,
                        None => 0,
                    };
                    s = splice(&s, i + 3 + b, i + 3 + b, &rb);
                    i = i + 4 + b;
                } else {
                    let ip = i + 2 + lim;
                    s = splice(&s, ip, ip, &cb);
                    i = ip + 2;
                }
            }
        } else {
            i = i + 1;
        }
    }
    (s, fixes)
}

/// The stripped content of the tag content `s[lo..hi]`; see
/// `canonical_content`.
fn canonical_exec(s: &Vec<char>, lo: usize, hi: usize) -> (r: Option<Vec<char>>)
    requires
        lo <= hi <= s.len(),
    ensures
        match r {
            Some(c) => canonical_content(s@.subrange(lo as int, hi as int)) == Some(c@),
            None => canonical_content(s@.subrange(lo as int, hi as int)) is None,
        },
{
    let ghost content = s@.subrange(lo as int, hi as int);
    let (a, b) = trim_range(s, lo, hi);
    let ghost tr = trim(content);
    let mut c: Vec<char> = Vec::new();
    if a < b {
        let first = s[a];
        assert(tr[0] == first);
        if first == '#' || first == '^' || first == '/' || first == '>' || first == '&' {
            let (x, y) = trim_range(s, a + 1, b);
            assert(tr.drop_first() =~= s@.subrange(a + 1, b as int));
            c.push(first);
            let mut k = x;
            while k < y
                invariant
                    x <= k <= y <= s.len(),
                    c@ == seq![first] + s@.subrange(x as int, k as int),
                decreases y - k,
            {
                c.push(s[k]);
                assert(c@ =~= seq![first] + s@.subrange(x as int, k + 1));
                k = k + 1;
            }
            return Some(c);
        } else if first == '!' {
            return None;
        } else if first == '{' && s[b - 1] == '}' {
            assert(tr.last() == '}');
            let (x, y) = trim_range(s, a + 1, b - 1);
            assert(tr.subrange(1, tr.len() - 1) =~= s@.subrange(a + 1, b - 1));
            c.push('{');
            let mut k = x;
            while k < y
                invariant
                    x <= k <= y <= s.len(),
                    c@ == seq!['{'] + s@.subrange(x as int, k as int),
                decreases y - k,
            {
                c.push(s[k]);
                assert(c@ =~= seq!['{'] + s@.subrange(x as int, k + 1));
                k = k + 1;
            }
            c.push('}');
            return Some(c);
        }
    }
    let mut k = a;
    while k < b
        invariant
            a <= k <= b <= s.len(),
            c@ == s@.subrange(a as int, k as int),
        decreases b - k,
    {
        c.push(s[k]);
        assert(c@ =~= s@.subrange(a as int, k + 1));
        k = k + 1;
    }
    Some(c)
}

/// Whether `s[lo..hi]` is `c`.
fn range_is(s: &Vec<char>, lo: usize, hi: usize, c: &Vec<char>) -> (r: bool)
    requires
        lo <= hi <= s.len(),
    ensures
        r == (s@.subrange(lo as int, hi as int) == c@),
{
    if hi - lo != c.len() {
        return false;
    }
    let mut k: usize = 0;
    while k < c.len()
        invariant
            k <= c.len(),
            hi - lo == c.len(),
            lo <= hi <= s.len(),
            forall|j: int| 0 <= j < k ==> s@[lo + j] == c@[j],
        decreases c.len() - k,
    {
        if s[lo + k] != c[k] {
            assert(s@.subrange(lo as int, hi as int)[k as int] != c@[k as int]);
            return false;
        }
        k = k + 1;
    }
    assert(s@.subrange(lo as int, hi as int) =~= c@);
    true
}

/// `{{` + `c` + `}}`.
fn braced(c: &Vec<char>) -> (r: Vec<char>)
    ensures
        r@ == open_braces() + c@ + close_braces(),
{
    let mut r: Vec<char> = vec!['{', '{'];
    let mut k: usize = 0;
    while k < c.len()
        invariant
            k <= c.len(),
            r@ == seq!['{', '{'] + c@.take(k as int),
        decreases c.len() - k,
    {
        r.push(c[k]);
        assert(r@ =~= seq!['{', '{'] + c@.take(k + 1));
        k = k + 1;
    }
    r.push('}');
    r.push('}');
    assert(c@.take(k as int) =~= c@);
    assert(r@ =~= open_braces() + c@ + close_braces());
    r
}

/// The second pass; see `strip_tags`.
#[verifier::loop_isolation(false)]
fn strip_tags_exec(s0: Vec<char>, fixes0: Vec<String>) -> (r: (Vec<char>, Vec<String>))
    ensures
        strip_tags(s0@, 0, texts(fixes0@)) == (r.0@, texts(r.1@)),
{
    let ghost orig = s0@;
    let ghost f0 = texts(fixes0@);
    let n = s0.len();
    let mut s = s0;
    let mut fixes = fixes0;
    let ob: Vec<char> = vec!['{', '{'];
    let cb: Vec<char> = vec!['}', '}'];
    assert(ob@ =~= open_braces());
    assert(cb@ =~= close_braces());
    let mut i: usize = 0;
    while i < s.len()
        invariant
            i <= s.len() <= n,
            ob@ == open_braces(),
            cb@ == close_braces(),
            strip_tags(orig, 0, f0) == strip_tags(s@, i as int, texts(fixes@)),
        decreases s.len() - i,
    {
        if starts_with_at(&s, i, &ob) {
            match find_at(&s, i, &cb) {
                None => {
                    i = i + 2;
                },
                Some(ci) => {
                    proof {
                        lemma_close_after_open(s@, i as int, ci as int);
                    }
                    let ghost content = s@.subrange(i + 2, i + ci);
                    let (a, b) = trim_range(&s, i + 2, i + ci);
                    if a < b && s[a] == '=' && s[b - 1] == '=' {
                        assert(is_delimiter_tag(trim(content)));
                        i = i + ci + 2;
                    } else {
                        assert(!is_delimiter_tag(trim(content)));
                        match canonical_exec(&s, i + 2, i + ci) {
                            None => {
                                i = i + ci + 2;
                            },
                            Some(c) => {
                                if range_is(&s, i + 2, i + ci, &c) {
                                    i = i + ci + 2;
                                } else {
                                    proof {
                                        lemma_canonical_len(content);
                                    }
                                    let rw = braced(&c);
                                    s = splice(&s, i, i + ci + 2, &rw);
                                    let msg = string_of(
                                        "Whitespace in tag name... saaf kar diya (cleaned it up)",
                                    );
                                    proof {
                                        lemma_texts_push(fixes@, msg);
                                    }
                                    fixes.push(msg);
                                    i = i + rw.len();
                                }
                            },
                        }
                    }
                },
            }
        } else {
            i = i + 1;
        }
    }
    (s, fixes)
}

/// The texts of a list of character vectors.
pub open spec fn names_view(v: Seq<Vec<char>>) -> Seq<Seq<char>> {
    v.map_values(|x: Vec<char>| x@)
}

/// Whether `a` and `b` hold the same characters.
fn same_chars(a: &Vec<char>, b: &Vec<char>) -> (r: bool)
    ensures
        r == (a@ == b@),
{
    if a.len() != b.len() {
        return false;
    }
    let r = range_is(a, 0, a.len(), b);
    assert(a@.subrange(0, a.len() as int) =~= a@);
    r
}

/// The index of the last of `names` equal to `name`; see `last_index_of`.
fn last_index_exec(names: &Vec<Vec<char>>, name: &Vec<char>) -> (r: Option<usize>)
    ensures
        match r {
            Some(p) => last_index_of(names_view(names@), name@) == Some(p as int) && p
                < names.len(),
            None => last_index_of(names_view(names@), name@) is None,
        },
{
    let ghost nv = names_view(names@);
    let mut k = names.len();
    assert(nv.take(k as int) =~= nv);
    while k > 0
        invariant
            k <= names.len(),
            nv == names_view(names@),
            last_index_of(nv, name@) == last_index_of(nv.take(k as int), name@),
        decreases k,
    {
        let ghost t = nv.take(k as int);
        assert(t.last() == names@[k - 1]@);
        assert(t.drop_last() =~= nv.take(k - 1));
        if same_chars(&names[k - 1], name) {
            return Some(k - 1);
        }
        k = k - 1;
    }
    None
}

proof fn lemma_close_step(ov: Seq<Seq<char>>, m: int)
    requires
        0 < m <= ov.len(),
    ensures
        close_tags(ov.subrange(m - 1, ov.len() as int)) == close_tags(
            ov.subrange(m, ov.len() as int),
        ) + close_tag(ov[m - 1]),
        close_reports(ov.subrange(m - 1, ov.len() as int)) == close_reports(
            ov.subrange(m, ov.len() as int),
        ).push(unclosed_section_message(ov[m - 1])),
{
    assert(ov.subrange(m - 1, ov.len() as int).drop_first() =~= ov.subrange(m, ov.len() as int));
}

/// Appends the close tag of section `name` to `out`.
fn push_close_tag(out: &mut Vec<char>, name: &Vec<char>)
    ensures
        final(out)@ == old(out)@ + close_tag(name@),
{
    proof {
        reveal_strlit("{{/");
        reveal_strlit("}}");
    }
    out.push('{');
    out.push('{');
    out.push('/');
    let ghost start = out@;
    let mut k: usize = 0;
    while k < name.len()
        invariant
            k <= name.len(),
            out@ == start + name@.take(k as int),
        decreases name.len() - k,
    {
        out.push(name[k]);
        assert(out@ =~= start + name@.take(k + 1));
        k = k + 1;
    }
    out.push('}');
    out.push('}');
    assert(name@.take(k as int) =~= name@);
    assert(out@ =~= old(out)@ + close_tag(name@));
}

/// The report of section `name` closed.
fn section_message(name: &Vec<char>) -> (msg: String)
    ensures
        msg@ == unclosed_section_message(name@),
{
    let mut msg = string_of("Unclosed section '");
    push_chars(&mut msg, name);
    push_str(&mut msg, "'... band kar diya (closed it)");
    assert(msg@ =~= unclosed_section_message(name@));
    msg
}

/// The third pass; see `drop_orphans`.
#[verifier::loop_isolation(false)]
fn drop_orphans_exec(s0: Vec<char>, fixes0: Vec<String>) -> (r: (
    Vec<char>,
    Vec<Vec<char>>,
    Vec<String>,
))
    ensures
        drop_orphans(s0@, 0, seq![], texts(fixes0@)) == (r.0@, names_view(r.1@), texts(r.2@)),
{
    let ghost orig = s0@;
    let ghost f0 = texts(fixes0@);
    let mut s = s0;
    let mut fixes = fixes0;
    let mut open: Vec<Vec<char>> = Vec::new();
    let ob: Vec<char> = vec!['{', '{'];
    let cb: Vec<char> = vec!['}', '}'];
    assert(ob@ =~= open_braces());
    assert(cb@ =~= close_braces());
    assert(names_view(open@) =~= Seq::<Seq<char>>::empty());
    let mut i: usize = 0;
    while i < s.len()
        invariant
            i <= s.len(),
            ob@ == open_braces(),
            cb@ == close_braces(),
            drop_orphans(orig, 0, seq![], f0) == drop_orphans(
                s@,
                i as int,
                names_view(open@),
                texts(fixes@),
            ),
        decreases s.len() - i,
    {
        if starts_with_at(&s, i, &ob) {
            match find_at(&s, i, &cb) {
                None => {
                    i = i + 2;
                },
                Some(ci) => {
                    proof {
                        lemma_close_after_open(s@, i as int, ci as int);
                    }
                    let ghost content = s@.subrange(i + 2, i + ci);
                    let ghost tr = trim(content);
                    let (a, b) = trim_range(&s, i + 2, i + ci);
                    if a < b && (s[a] == '#' || s[a] == '^') {
                        assert(tr[0] == s@[a as int]);
                        let (x, y) = trim_range(&s, a + 1, b);
                        assert(tr.drop_first() =~= s@.subrange(a + 1, b as int));
                        let name = chars_of_range(&s, x, y);
                        let ghost ov = names_view(open@);
                        open.push(name);
                        assert(names_view(open@) =~= ov.push(trim(tr.drop_first())));
                        i = i + ci + 2;
                    } else if a < b && s[a] == '/' {
                        assert(tr[0] == s@[a as int]);
                        let (x, y) = trim_range(&s, a + 1, b);
                        assert(tr.drop_first() =~= s@.subrange(a + 1, b as int));
                        let name = chars_of_range(&s, x, y);
                        match last_index_exec(&open, &name) {
                            Some(p) => {
                                let ghost ov = names_view(open@);
                                let ghost len = ov.len();
                                let ghost fb = texts(fixes@);
                                let mut ins: Vec<char> = Vec::new();
                                assert(ov.subrange(len as int, len as int) =~= Seq::<
                                    Seq<char>,
                                >::empty());
                                assert(ov.take(len as int) =~= ov);
                                assert(fb + Seq::<Seq<char>>::empty() =~= fb);
                                while open.len() > p + 1
                                    invariant
                                        p < open.len() <= len,
                                        len == ov.len(),
                                        names_view(open@) == ov.take(open.len() as int),
                                        ins@ == close_tags(
                                            ov.subrange(open.len() as int, len as int),
                                        ),
                                        texts(fixes@) == fb + close_reports(
                                            ov.subrange(open.len() as int, len as int),
                                        ),
                                    decreases open.len(),
                                {
                                    let ghost m = open.len() as int;
                                    let name = match open.pop() {
                                        Some(x) => x,
                                        None => Vec::new(),
                                    };
                                    proof {
                                        assert(ov.take(m)[m - 1] == name@);
                                        assert(names_view(open@) =~= ov.take(m - 1));
                                        lemma_close_step(ov, m);
                                    }
                                    push_close_tag(&mut ins, &name);
                                    let msg = section_message(&name);
                                    let ghost f1 = texts(fixes@);
                                    proof {
                                        lemma_texts_push(fixes@, msg);
                                    }
                                    fixes.push(msg);
                                    assert(texts(fixes@) =~= fb + close_reports(
                                        ov.subrange(m - 1, len as int),
                                    ));
                                }
                                let ghost m = open.len() as int;
                                let _ = open.pop();
                                assert(names_view(open@) =~= ov.take(p as int));
                                assert(ov.subrange(p + 1, len as int) =~= ov.skip(p + 1));
                                let ghost sl = s@;
                                assert(i + ci + 2 <= sl.len());
                                s = splice(&s, i, i, &ins);
                                let total = s.len();
                                assert(total == sl.len() + ins@.len());
                                i = i + ins.len() + ci + 2;
                            },
                            None => {
                                let empty: Vec<char> = Vec::new();
                                s = splice(&s, i, i + ci + 2, &empty);
                                let mut msg = string_of("Orphan closing tag '");
                                push_chars(&mut msg, &name);
                                push_str(&mut msg, "'... hata diya (removed it)");
                                assert(msg@ =~= orphan_message(name@));
                                proof {
                                    lemma_texts_push(fixes@, msg);
                                }
                                fixes.push(msg);
                            },
                        }
                    } else {
                        if a < b {
                            assert(tr[0] == s@[a as int]);
                        }
                        i = i + ci + 2;
                    }
                },
            }
        } else {
            i = i + 1;
        }
    }
    (s, open, fixes)
}

/// Repairs `template`: closes `{{` tags left open, strips whitespace inside
/// tags, closes sections left open inside a section that a close tag ends,
/// removes close tags that match no open section, and closes the sections
/// left open at the end; reports each fix in order. See `jugaad_spec`.
pub fn jugaad_fix(template: &str) -> (r: JugaadResult)
    requires
        template@.len() <= usize::MAX / 8,
    ensures
        jugaad_spec(template@) == (r.fixed_template@, texts(r.fixes@)),
{
    let t = chars_of(template);
    let (s1, f1) = close_open_tags_exec(t);
    let (s2, f2) = strip_tags_exec(s1, f1);
    let (s3, mut open, mut fixes) = drop_orphans_exec(s2, f2);
    let mut result = String::new();
    push_chars(&mut result, &s3);
    let ghost ov = names_view(open@);
    let ghost len = ov.len();
    let ghost f3 = texts(fixes@);
    assert(result@ =~= s3@);
    assert(ov.subrange(len as int, len as int) =~= Seq::<Seq<char>>::empty());
    assert(ov.take(len as int) =~= ov);
    assert(s3@ + Seq::<char>::empty() =~= s3@);
    assert(f3 + Seq::<Seq<char>>::empty() =~= f3);
    while open.len() > 0
        invariant
            open.len() <= len,
            len == ov.len(),
            names_view(open@) == ov.take(open.len() as int),
            result@ == s3@ + close_tags(ov.subrange(open.len() as int, len as int)),
            texts(fixes@) == f3 + close_reports(ov.subrange(open.len() as int, len as int)),
        decreases open.len(),
    {
        let ghost m = open.len() as int;
        let name = match open.pop() {
            Some(x) => x,
            None => Vec::new(),
        };
        proof {
            assert(ov.take(m)[m - 1] == name@);
            assert(names_view(open@) =~= ov.take(m - 1));
            lemma_close_step(ov, m);
        }
        let ghost before = result@;
        push_str(&mut result, "{{/");
        push_chars(&mut result, &name);
        push_str(&mut result, "}}");
        assert(result@ =~= s3@ + close_tags(ov.subrange(m - 1, len as int)));
        let msg = section_message(&name);
        proof {
            lemma_texts_push(fixes@, msg);
        }
        fixes.push(msg);
        assert(texts(fixes@) =~= f3 + close_reports(ov.subrange(m - 1, len as int)));
    }
    assert(ov.subrange(0, len as int) =~= ov);
    JugaadResult { fixed_template: result, fixes }
}

} // verus!
