//! The data a template is rendered against: JSON values, and how the renderer
//! reads them (name lookup through a stack of contexts, truthiness, and the
//! text of a value).

use vstd::prelude::*;
use crate::text::{chars_of, decimal, digit_char, push_char, push_str};

verus! {

broadcast use vstd::string::group_string_axioms;

/// A JSON number as the renderer reads it: the text that JSON output gives
/// for it, and whether it is non-zero (as a 64-bit float).
#[derive(Debug)]
pub struct JsonNumber {
    pub text: String,
    pub nonzero: bool,
}

/// A JSON value. An object lists its members in order; where a key occurs
/// more than once, the first member with it is the one that is read. An
/// object parsed by `parse_data` never repeats a key: serde_json's map keeps
/// one member per key, the last that the text gives.
#[derive(Debug)]
pub enum JsonValue {
    Null,
    Bool(bool),
    Number(JsonNumber),
    String(String),
    Array(Vec<JsonValue>),
    Object(Vec<(String, JsonValue)>),
}

// ---------------------------------------------------------------------------
// Reading members
// ---------------------------------------------------------------------------

/// The value of the first member of `entries` whose key is `key`.
pub open spec fn member(entries: Seq<(String, JsonValue)>, key: Seq<char>) -> Option<JsonValue>
    decreases entries.len(),
{
    if entries.len() == 0 {
        None
    } else if entries[0].0@ == key {
        Some(entries[0].1)
    } else {
        member(entries.drop_first(), key)
    }
}

/// The member `key` of `v`, where `v` is an object that has one.
pub open spec fn get_spec(v: JsonValue, key: Seq<char>) -> Option<JsonValue> {
    match v {
        JsonValue::Object(entries) => member(entries@, key),
        _ => None,
    }
}

/// `member` reads the first member with the key: where it finds a value,
/// some member has the key and that value and no member before it has the
/// key; where it finds none, no member has the key.
pub proof fn lemma_member_first(entries: Seq<(String, JsonValue)>, key: Seq<char>)
    ensures
        member(entries, key) is Some ==> exists|i: int|
            0 <= i < entries.len() && entries[i].0@ == key && entries[i].1 == member(
                entries,
                key,
            )->0 && forall|j: int| 0 <= j < i ==> entries[j].0@ != key,
        member(entries, key) is None ==> forall|j: int|
            0 <= j < entries.len() ==> entries[j].0@ != key,
    decreases entries.len(),
{
    if entries.len() > 0 {
        let rest = entries.drop_first();
        lemma_member_first(rest, key);
        if entries[0].0@ == key {
            assert(entries[0].1 == member(entries, key)->0);
        } else {
            if member(rest, key) is Some {
                let i = choose|i: int|
                    0 <= i < rest.len() && rest[i].0@ == key && rest[i].1 == member(rest, key)->0
                        && forall|j: int| 0 <= j < i ==> rest[j].0@ != key;
                assert(entries[i + 1] == rest[i]);
                assert forall|j: int| 0 <= j < i + 1 implies entries[j].0@ != key by {
                    if j > 0 {
                        assert(entries[j] == rest[j - 1]);
                    }
                }
            } else {
                assert forall|j: int| 0 <= j < entries.len() implies entries[j].0@ != key by {
                    if j > 0 {
                        assert(entries[j] == rest[j - 1]);
                    }
                }
            }
        }
    }
}

/// Whether the string `s` has the characters `c`.
pub fn string_is(s: &String, c: &Vec<char>) -> (r: bool)
    ensures
        r == (s@ == c@),
{
    let v = chars_of(s.as_str());
    if v.len() != c.len() {
        return false;
    }
    let mut k: usize = 0;
    while k < v.len()
        invariant
            v@ == s@,
            v.len() == c.len(),
            k <= v.len(),
            forall|j: int| 0 <= j < k ==> v@[j] == c@[j],
        decreases v.len() - k,
    {
        if v[k] != c[k] {
            return false;
        }
        k = k + 1;
    }
    assert(v@ =~= c@);
    true
}

/// The member `key` of `v`, as `serde_json::Value::get` reads it with a
/// string index.
pub fn get<'a>(v: &'a JsonValue, key: &Vec<char>) -> (r: Option<&'a JsonValue>)
    ensures
        match r {
            Some(x) => get_spec(*v, key@) == Some(*x),
            None => get_spec(*v, key@) is None,
        },
{
    match v {
        JsonValue::Object(entries) => {
            let mut k: usize = 0;
            assert(entries@.skip(0) =~= entries@);
            while k < entries.len()
                invariant
                    k <= entries.len(),
                    *v == JsonValue::Object(*entries),
                    member(entries@, key@) == member(entries@.skip(k as int), key@),
                decreases entries.len() - k,
            {
                assert(entries@.skip(k as int)[0] == entries@[k as int]);
                assert(entries@.skip(k as int).drop_first() =~= entries@.skip(k + 1));
                if string_is(&entries[k].0, key) {
                    assert(member(entries@.skip(k as int), key@) == Some(entries@[k as int].1));
                    return Some(&entries[k].1);
                }
                k = k + 1;
            }
            assert(entries@.skip(k as int).len() == 0);
            None
        },
        _ => None,
    }
}

// ---------------------------------------------------------------------------
// Names
// ---------------------------------------------------------------------------

/// The pieces of `cur + s` between dots, where `cur` is the piece begun.
pub open spec fn split_dots(s: Seq<char>, cur: Seq<char>) -> Seq<Seq<char>>
    decreases s.len(),
{
    if s.len() == 0 {
        seq![cur]
    } else if s[0] == '.' {
        seq![cur] + split_dots(s.drop_first(), seq![])
    } else {
        split_dots(s.drop_first(), cur.push(s[0]))
    }
}

/// The pieces of a dotted name, as `str::split('.')` gives them: never none.
pub open spec fn name_parts(key: Seq<char>) -> Seq<Seq<char>> {
    split_dots(key, seq![])
}

/// The value reached from `v` through the members `parts`, in order.
pub open spec fn descend(v: JsonValue, parts: Seq<Seq<char>>) -> Option<JsonValue>
    decreases parts.len(),
{
    if parts.len() == 0 {
        Some(v)
    } else {
        match get_spec(v, parts[0]) {
            Some(w) => descend(w, parts.drop_first()),
            None => None,
        }
    }
}

/// The value of the name `parts` in the innermost context of `stack` that has
/// a member `parts[0]`.
pub open spec fn lookup_parts(stack: Seq<JsonValue>, parts: Seq<Seq<char>>) -> Option<JsonValue>
    decreases stack.len(),
{
    if stack.len() == 0 {
        None
    } else {
        match get_spec(stack.last(), parts[0]) {
            Some(v) => descend(v, parts.drop_first()),
            None => lookup_parts(stack.drop_last(), parts),
        }
    }
}

/// The value of the name `key` in the context stack `stack` (innermost last):
/// `.` is the innermost context; any other name is looked up by its first
/// piece from the innermost context out, and the rest of its pieces are read
/// in the first context that has the first.
pub open spec fn lookup_spec(stack: Seq<JsonValue>, key: Seq<char>) -> Option<JsonValue> {
    if key == seq!['.'] {
        if stack.len() > 0 {
            Some(stack.last())
        } else {
            None
        }
    } else {
        lookup_parts(stack, name_parts(key))
    }
}

/// A name without dots is one piece.
pub proof fn lemma_name_one_piece(x: Seq<char>)
    requires
        forall|k: int| 0 <= k < x.len() ==> x[k] != '.',
    ensures
        name_parts(x) == seq![x],
{
    lemma_split_plain(x, seq![]);
    assert(Seq::<char>::empty() + x =~= x);
}

proof fn lemma_split_plain(x: Seq<char>, cur: Seq<char>)
    requires
        forall|k: int| 0 <= k < x.len() ==> x[k] != '.',
    ensures
        split_dots(x, cur) == seq![cur + x],
    decreases x.len(),
{
    if x.len() == 0 {
        assert(cur + x =~= cur);
    } else {
        assert(x[0] != '.');
        lemma_split_plain(x.drop_first(), cur.push(x[0]));
        assert(cur.push(x[0]) + x.drop_first() =~= cur + x);
    }
}

proof fn lemma_split_dot(x: Seq<char>, y: Seq<char>, cur: Seq<char>)
    requires
        forall|k: int| 0 <= k < x.len() ==> x[k] != '.',
    ensures
        split_dots(x + seq!['.'] + y, cur) == seq![cur + x] + split_dots(y, seq![]),
    decreases x.len(),
{
    let s = x + seq!['.'] + y;
    if x.len() == 0 {
        assert(s[0] == '.');
        assert(s.drop_first() =~= y);
        assert(cur + x =~= cur);
    } else {
        assert(s[0] == x[0]);
        assert(s.drop_first() =~= x.drop_first() + seq!['.'] + y);
        lemma_split_dot(x.drop_first(), y, cur.push(x[0]));
        assert(cur.push(x[0]) + x.drop_first() =~= cur + x);
    }
}

/// A dotted name splits at its first dot: its first piece is what comes
/// before, and the rest are the pieces of what comes after.
pub proof fn lemma_name_first_dot(x: Seq<char>, y: Seq<char>)
    requires
        forall|k: int| 0 <= k < x.len() ==> x[k] != '.',
    ensures
        name_parts(x + seq!['.'] + y) == seq![x] + name_parts(y),
{
    lemma_split_dot(x, y, seq![]);
    assert(Seq::<char>::empty() + x =~= x);
}

/// A name other than `.` whose first piece the innermost context lacks is
/// looked up in the contexts around it, as if the innermost were not there.
pub proof fn lemma_lookup_outer(stack: Seq<JsonValue>, key: Seq<char>)
    requires
        key != seq!['.'],
        stack.len() > 0,
        get_spec(stack.last(), name_parts(key)[0]) is None,
    ensures
        lookup_spec(stack, key) == lookup_spec(stack.drop_last(), key),
{
}

/// A name other than `.` whose first piece the innermost context has is read
/// there: its remaining pieces are followed from that member.
pub proof fn lemma_lookup_inner(stack: Seq<JsonValue>, key: Seq<char>, v: JsonValue)
    requires
        key != seq!['.'],
        stack.len() > 0,
        get_spec(stack.last(), name_parts(key)[0]) == Some(v),
    ensures
        lookup_spec(stack, key) == descend(v, name_parts(key).drop_first()),
{
}

/// `.` is the innermost context.
pub proof fn lemma_lookup_dot(stack: Seq<JsonValue>)
    requires
        stack.len() > 0,
    ensures
        lookup_spec(stack, seq!['.']) == Some(stack.last()),
{
}

/// Following members one at a time: no members leave the value, and the
/// first member leads on to the rest.
pub proof fn lemma_descend_step(v: JsonValue, p: Seq<char>, rest: Seq<Seq<char>>)
    ensures
        descend(v, seq![]) == Some(v),
        descend(v, seq![p] + rest) == match get_spec(v, p) {
            Some(w) => descend(w, rest),
            None => None,
        },
{
    assert((seq![p] + rest)[0] == p);
    assert((seq![p] + rest).drop_first() =~= rest);
}

/// A dotted name `a.b` inside a context that lacks `a`, over a root that has
/// it, is the member `b` of the root's `a`.
pub proof fn lemma_lookup_dotted_outer(root: JsonValue, inner: JsonValue, a: Seq<char>, b: Seq<char>)
    requires
        a.len() > 0,
        forall|k: int| 0 <= k < a.len() ==> a[k] != '.',
        forall|k: int| 0 <= k < b.len() ==> b[k] != '.',
        get_spec(inner, a) is None,
    ensures
        lookup_spec(seq![root, inner], a + seq!['.'] + b) == match get_spec(root, a) {
            Some(w) => get_spec(w, b),
            None => None,
        },
{
    let key = a + seq!['.'] + b;
    lemma_name_first_dot(a, b);
    lemma_name_one_piece(b);
    let parts = name_parts(key);
    assert(parts =~= seq![a, b]);
    assert(key.len() > a.len());
    assert(key != seq!['.']) by {
        if key == seq!['.'] {
            assert(key.len() == 1);
            assert(a.len() == 0 && b.len() == 0);
        }
    }
    let st = seq![root, inner];
    assert(st.last() == inner);
    assert(st.drop_last() =~= seq![root]);
    assert(seq![root].last() == root);
    assert(seq![root].drop_last() =~= Seq::<JsonValue>::empty());
    assert(parts.drop_first() =~= seq![b]);
    assert(parts[0] == a);
    assert(lookup_spec(st, key) == lookup_parts(st, parts));
    assert(lookup_parts(st, parts) == lookup_parts(seq![root], parts));
    assert(lookup_parts(Seq::<JsonValue>::empty(), parts) is None);
    match get_spec(root, a) {
        Some(w) => {
            assert(seq![b].drop_first() =~= Seq::<Seq<char>>::empty());
            match get_spec(w, b) {
                Some(z) => {
                    assert(descend(z, Seq::<Seq<char>>::empty()) == Some(z));
                    assert(descend(w, seq![b]) == Some(z));
                },
                None => {
                    assert(descend(w, seq![b]) is None);
                },
            }
        },
        None => {},
    }
}

/// The values that a stack of references refers to.
pub open spec fn deref_all(stack: Seq<&JsonValue>) -> Seq<JsonValue> {
    stack.map_values(|r: &JsonValue| *r)
}

/// The pieces of `key` between dots.
fn split_name(key: &Vec<char>) -> (parts: Vec<Vec<char>>)
    ensures
        parts@.map_values(|p: Vec<char>| p@) == name_parts(key@),
        parts.len() > 0,
{
    let mut parts: Vec<Vec<char>> = Vec::new();
    let mut cur: Vec<char> = Vec::new();
    let mut k: usize = 0;
    assert(key@.skip(0) =~= key@);
    assert(parts@.map_values(|p: Vec<char>| p@) =~= Seq::<Seq<char>>::empty());
    while k < key.len()
        invariant
            k <= key.len(),
            name_parts(key@) == parts@.map_values(|p: Vec<char>| p@) + split_dots(
                key@.skip(k as int),
                cur@,
            ),
        decreases key.len() - k,
    {
        let ghost s = key@.skip(k as int);
        let ghost pv = parts@.map_values(|p: Vec<char>| p@);
        assert(s[0] == key@[k as int]);
        assert(s.drop_first() =~= key@.skip(k + 1));
        if key[k] == '.' {
            let ghost cv = cur@;
            parts.push(cur);
            cur = Vec::new();
            assert(parts@.map_values(|p: Vec<char>| p@) =~= pv.push(cv));
            assert(pv + (seq![cv] + split_dots(s.drop_first(), seq![])) =~= pv.push(cv)
                + split_dots(s.drop_first(), cur@));
        } else {
            cur.push(key[k]);
        }
        k = k + 1;
    }
    let ghost pv = parts@.map_values(|p: Vec<char>| p@);
    let ghost cv = cur@;
    assert(key@.skip(k as int) =~= Seq::<char>::empty());
    parts.push(cur);
    assert(parts@.map_values(|p: Vec<char>| p@) =~= pv + seq![cv]);
    parts
}

/// The value of the name `key` in the context stack `context_stack`
/// (innermost last). See `lookup_spec`.
pub fn lookup<'a>(context_stack: &[&'a JsonValue], key: &str) -> (r: Option<&'a JsonValue>)
    ensures
        match r {
            Some(v) => lookup_spec(deref_all(context_stack@), key@) == Some(*v),
            None => lookup_spec(deref_all(context_stack@), key@) is None,
        },
{
    let ghost st = deref_all(context_stack@);
    let kc = chars_of(key);
    if kc.len() == 1 && kc[0] == '.' {
        assert(key@ =~= seq!['.']);
        if context_stack.len() > 0 {
            return Some(context_stack[context_stack.len() - 1]);
        } else {
            return None;
        }
    }
    assert(key@ != seq!['.']) by {
        if key@ == seq!['.'] {
            assert(kc@.len() == 1 && kc@[0] == '.');
        }
    }
    let parts = split_name(&kc);
    let ghost pv = parts@.map_values(|p: Vec<char>| p@);
    assert(pv[0] == parts@[0]@);
    let mut i = context_stack.len();
    assert(st.subrange(0, i as int) =~= st);
    while i > 0
        invariant
            i <= context_stack.len(),
            pv == parts@.map_values(|p: Vec<char>| p@),
            pv.len() == parts.len(),
            parts.len() > 0,
            pv == name_parts(key@),
            st == deref_all(context_stack@),
            lookup_spec(st, key@) == lookup_parts(st.subrange(0, i as int), pv),
        decreases i,
    {
        let ctx = context_stack[i - 1];
        let ghost sub = st.subrange(0, i as int);
        assert(sub.last() == *ctx);
        assert(sub.drop_last() =~= st.subrange(0, i - 1));
        assert(pv[0] == parts@[0]@);
        match get(ctx, &parts[0]) {
            Some(first) => {
                assert(lookup_parts(sub, pv) == descend(*first, pv.drop_first()));
                let mut val = first;
                let mut j: usize = 1;
                assert(pv.drop_first().skip(0) =~= pv.skip(1));
                while j < parts.len()
                    invariant
                        1 <= j <= parts.len(),
                        pv == parts@.map_values(|p: Vec<char>| p@),
                        pv.len() == parts.len(),
                        descend(*first, pv.drop_first()) == descend(*val, pv.skip(j as int)),
                        lookup_spec(st, key@) == descend(*first, pv.drop_first()),
                        st == deref_all(context_stack@),
                    decreases parts.len() - j,
                {
                    assert(pv.skip(j as int)[0] == parts@[j as int]@);
                    assert(pv.skip(j as int).drop_first() =~= pv.skip(j + 1));
                    match get(val, &parts[j]) {
                        Some(next) => {
                            val = next;
                        },
                        None => {
                            return None;
                        },
                    }
                    j = j + 1;
                }
                assert(pv.skip(j as int).len() == 0);
                return Some(val);
            },
            None => {},
        }
        i = i - 1;
    }
    assert(st.subrange(0, 0).len() == 0);
    None
}

// ---------------------------------------------------------------------------
// Truthiness and text
// ---------------------------------------------------------------------------

/// Whether a section over `v` is shown: `null`, `false`, `0`, the empty
/// string and the empty array are falsy; everything else is truthy.
pub open spec fn truthy(v: JsonValue) -> bool {
    match v {
        JsonValue::Null => false,
        JsonValue::Bool(b) => b,
        JsonValue::String(s) => s@.len() > 0,
        JsonValue::Array(a) => a@.len() > 0,
        JsonValue::Number(n) => n.nonzero,
        JsonValue::Object(_) => true,
    }
}

/// Whether a section over `val` is shown. See `truthy`.
pub fn is_truthy(val: &JsonValue) -> (r: bool)
    ensures
        r == truthy(*val),
{
    match val {
        JsonValue::Null => false,
        JsonValue::Bool(b) => *b,
        JsonValue::String(s) => !s.as_str().is_empty(),
        JsonValue::Array(arr) => arr.len() != 0,
        JsonValue::Number(n) => n.nonzero,
        JsonValue::Object(_) => true,
    }
}

/// The text of a value: nothing for `null`; `true` or `false` for a boolean;
/// a number's JSON text; a string's own characters; the texts of an array's
/// items joined by commas; and `[object Object]` for an object.
pub open spec fn value_text(v: JsonValue) -> Seq<char>
    decreases v,
{
    match v {
        JsonValue::Null => seq![],
        JsonValue::Bool(b) => if b {
            "true"@
        } else {
            "false"@
        },
        JsonValue::Number(n) => n.text@,
        JsonValue::String(s) => s@,
        JsonValue::Array(a) => {
            proof {
                assert(decreases_to!(a => a@));
            }
            joined_text(a@)
        },
        JsonValue::Object(_) => "[object Object]"@,
    }
}

/// The texts of `items` joined by commas.
pub open spec fn joined_text(items: Seq<JsonValue>) -> Seq<char>
    decreases items,
{
    if items.len() == 0 {
        seq![]
    } else if items.len() == 1 {
        value_text(items[0])
    } else {
        joined_text(items.drop_last()) + seq![','] + value_text(items.last())
    }
}

/// The text of a list is the texts of its items, in order, with a comma
/// between each two: one item gives its own text, and one more item adds a
/// comma and its text.
pub proof fn lemma_list_text(items: Seq<JsonValue>, x: JsonValue)
    ensures
        joined_text(Seq::<JsonValue>::empty()) == Seq::<char>::empty(),
        joined_text(seq![x]) == value_text(x),
        items.len() > 0 ==> joined_text(items.push(x)) == joined_text(items) + seq![','] + value_text(x),
{
    assert(items.push(x).drop_last() =~= items);
    assert(items.push(x).last() == x);
}

/// Appends the text of `val` to `out`.
fn push_value_text(out: &mut String, val: &JsonValue)
    ensures
        final(out)@ == old(out)@ + value_text(*val),
    decreases *val,
{
    match val {
        JsonValue::Null => {
            assert(old(out)@ + Seq::<char>::empty() =~= old(out)@);
        },
        JsonValue::Bool(b) => {
            if *b {
                push_str(out, "true");
            } else {
                push_str(out, "false");
            }
        },
        JsonValue::Number(n) => {
            push_str(out, n.text.as_str());
        },
        JsonValue::String(s) => {
            push_str(out, s.as_str());
        },
        JsonValue::Array(arr) => {
            let ghost start = out@;
            let mut k: usize = 0;
            assert(arr@.take(0) =~= Seq::<JsonValue>::empty());
            assert(start + joined_text(arr@.take(0)) =~= start);
            while k < arr.len()
                invariant
                    k <= arr.len(),
                    *val == JsonValue::Array(*arr),
                    out@ == start + joined_text(arr@.take(k as int)),
                decreases arr.len() - k,
            {
                assert(decreases_to!(*val => (*val)->Array_0));
                assert(decreases_to!(*arr => arr@));
                assert(decreases_to!(arr@ => arr@[k as int]));
                if k > 0 {
                    push_char(out, ',');
                }
                push_value_text(out, &arr[k]);
                let ghost tk = arr@.take(k + 1);
                assert(tk.drop_last() =~= arr@.take(k as int));
                if k > 0 {
                    assert(start + joined_text(tk) =~= start + joined_text(arr@.take(k as int))
                        + seq![','] + value_text(arr@[k as int]));
                } else {
                    assert(start + joined_text(tk) =~= start + value_text(arr@[0]));
                }
                k = k + 1;
            }
            assert(arr@.take(k as int) =~= arr@);
        },
        JsonValue::Object(_) => {
            push_str(out, "[object Object]");
        },
    }
}

/// The text of `val`. See `value_text`.
pub fn val_to_string(val: &JsonValue) -> (r: String)
    ensures
        r@ == value_text(*val),
{
    let mut r = String::new();
    push_value_text(&mut r, val);
    assert(r@ =~= value_text(*val));
    r
}

// ---------------------------------------------------------------------------
// Parsing the data
// ---------------------------------------------------------------------------

/// A JSON value as serde_json parses it, before the renderer reads it: each
/// number is held as the text that serde_json prints for it, and an object
/// lists its members in the order of serde_json's map, by key.
#[derive(Debug)]
pub enum JsonTree {
    Null,
    Bool(bool),
    Number(String),
    String(String),
    Array(Vec<JsonTree>),
    Object(Vec<(String, JsonTree)>),
}

/// The tree that `serde_json::from_str` parses from `text`, or `None` where
/// it refuses the text.
pub uninterp spec fn json_parse(text: Seq<char>) -> Option<JsonTree>;

/// The value type that `serde_json::from_str` parses into.
#[verifier::external_type_specification]
#[verifier::external_body]
pub struct ExJsonValue(serde_json::Value);

/// Converts a `serde_json::Value` into a `JsonTree` variant for variant: a
/// number by the text its `Display` prints, an array item by item, an object
/// member by member in the map's order.
#[verifier::external_body]
fn tree_of(v: serde_json::Value) -> JsonTree {
    match v {
        serde_json::Value::Null => JsonTree::Null,
        serde_json::Value::Bool(b) => JsonTree::Bool(b),
        serde_json::Value::Number(n) => JsonTree::Number(n.to_string()),
        serde_json::Value::String(s) => JsonTree::String(s),
        serde_json::Value::Array(a) => JsonTree::Array(a.into_iter().map(tree_of).collect()),
        serde_json::Value::Object(m) => JsonTree::Object(
            m.into_iter().map(|(k, x)| (k, tree_of(x))).collect(),
        ),
    }
}

/// Calls `serde_json::from_str` for a `serde_json::Value` on `text`. Its
/// result is a function of the text alone (named `json_parse`); the error's
/// message is serde_json's, and nothing is claimed of it.
#[verifier::external_body]
fn parse_json(text: &str) -> (r: Result<JsonTree, String>)
    ensures
        match r {
            Ok(t) => json_parse(text@) == Some(t),
            Err(_) => json_parse(text@) is None,
        },
{
    match serde_json::from_str::<serde_json::Value>(text) {
        Ok(v) => Ok(tree_of(v)),
        Err(e) => Err(e.to_string()),
    }
}

/// Whether a number's JSON text stands for zero: every digit before the
/// exponent, if any, is `0`.
pub open spec fn number_is_zero(s: Seq<char>) -> bool
    decreases s.len(),
{
    if s.len() == 0 {
        true
    } else if s[0] == 'e' || s[0] == 'E' {
        true
    } else if '1' <= s[0] && s[0] <= '9' {
        false
    } else {
        number_is_zero(s.drop_first())
    }
}

/// A text with no exponent marker, followed by more, stands for zero
/// exactly when both parts do.
proof fn lemma_number_is_zero_append(x: Seq<char>, y: Seq<char>)
    requires
        forall|k: int| 0 <= k < x.len() ==> x[k] != 'e' && x[k] != 'E',
    ensures
        number_is_zero(x + y) == (number_is_zero(x) && number_is_zero(y)),
    decreases x.len(),
{
    if x.len() == 0 {
        assert(x + y =~= y);
    } else {
        assert((x + y)[0] == x[0]);
        assert((x + y).drop_first() =~= x.drop_first() + y);
        lemma_number_is_zero_append(x.drop_first(), y);
    }
}

proof fn lemma_decimal_digits(n: nat)
    ensures
        forall|k: int| 0 <= k < decimal(n).len() ==> '0' <= #[trigger] decimal(n)[k] && decimal(n)[k]
            <= '9',
    decreases n,
{
    if n >= 10 {
        lemma_decimal_digits(n / 10);
        let d = decimal(n / 10);
        assert forall|k: int| 0 <= k < decimal(n).len() implies '0' <= #[trigger] decimal(n)[k]
            && decimal(n)[k] <= '9' by {
            if k < d.len() {
                assert(decimal(n)[k] == d[k]);
            }
        }
    }
}

/// The decimal numeral of a natural number stands for zero exactly when the
/// number is zero.
pub proof fn lemma_number_is_zero_decimal(n: nat)
    ensures
        number_is_zero(decimal(n)) == (n == 0),
    decreases n,
{
    if n < 10 {
        let c = digit_char(n);
        assert(decimal(n) == seq![c]);
        assert(seq![c].drop_first() =~= Seq::<char>::empty());
        assert(number_is_zero(Seq::<char>::empty()));
        if n == 0 {
            assert(c == '0');
        } else {
            assert('1' <= c && c <= '9') by {
                if n == 1 {} else if n == 2 {} else if n == 3 {} else if n == 4 {} else if n == 5 {}
                else if n == 6 {} else if n == 7 {} else if n == 8 {} else {}
            }
        }
    } else {
        lemma_number_is_zero_decimal(n / 10);
        lemma_decimal_digits(n / 10);
        let d = decimal(n / 10);
        let c = digit_char(n % 10);
        assert(decimal(n) =~= d + seq![c]);
        lemma_number_is_zero_append(d, seq![c]);
        assert(n / 10 > 0);
    }
}

/// A sign, and a fraction after a zero integer part, do not change whether a
/// numeral stands for zero: `-n`, `n`, `0.n` and `-0.n` are zero exactly when
/// the natural number `n` is.
pub proof fn lemma_number_is_zero_forms(n: nat)
    ensures
        number_is_zero(seq!['-'] + decimal(n)) == (n == 0),
        number_is_zero(seq!['0', '.'] + decimal(n)) == (n == 0),
        number_is_zero(seq!['-', '0', '.'] + decimal(n)) == (n == 0),
{
    lemma_number_is_zero_decimal(n);
    lemma_number_is_zero_append(seq!['-'], decimal(n));
    lemma_number_is_zero_append(seq!['0', '.'], decimal(n));
    lemma_number_is_zero_append(seq!['-', '0', '.'], decimal(n));
    assert(seq!['-'].drop_first() =~= Seq::<char>::empty());
    assert(seq!['0', '.'].drop_first() =~= seq!['.']);
    assert(seq!['.'].drop_first() =~= Seq::<char>::empty());
    assert(seq!['-', '0', '.'].drop_first() =~= seq!['0', '.']);
    assert(number_is_zero(Seq::<char>::empty()));
    assert(number_is_zero(seq!['.']));
    assert(number_is_zero(seq!['0', '.']));
    assert(number_is_zero(seq!['-']));
    assert(number_is_zero(seq!['-', '0', '.']));
}

/// `v` is what the renderer reads of the tree `t`: the same shape, strings and
/// number texts, with each number non-zero where its text is.
pub open spec fn tree_matches(t: JsonTree, v: JsonValue) -> bool
    decreases t,
{
    match t {
        JsonTree::Null => v is Null,
        JsonTree::Bool(b) => v == JsonValue::Bool(b),
        JsonTree::Number(s) => match v {
            JsonValue::Number(n) => n.text@ == s@ && n.nonzero == !number_is_zero(s@),
            _ => false,
        },
        JsonTree::String(s) => match v {
            JsonValue::String(x) => x@ == s@,
            _ => false,
        },
        JsonTree::Array(xs) => match v {
            JsonValue::Array(ys) => {
                proof {
                    assert(decreases_to!(xs => xs@));
                }
                items_match(xs@, ys@)
            },
            _ => false,
        },
        JsonTree::Object(xs) => match v {
            JsonValue::Object(ys) => {
                proof {
                    assert(decreases_to!(xs => xs@));
                }
                members_match(xs@, ys@)
            },
            _ => false,
        },
    }
}

/// Item for item, `ys` is what the renderer reads of `xs`.
pub open spec fn items_match(xs: Seq<JsonTree>, ys: Seq<JsonValue>) -> bool
    decreases xs,
{
    if xs.len() == 0 {
        ys.len() == 0
    } else {
        ys.len() == xs.len() && items_match(xs.drop_last(), ys.drop_last()) && tree_matches(
            xs.last(),
            ys.last(),
        )
    }
}

/// Member for member, with the same keys, `ys` is what the renderer reads of
/// `xs`.
pub open spec fn members_match(xs: Seq<(String, JsonTree)>, ys: Seq<(String, JsonValue)>) -> bool
    decreases xs,
{
    if xs.len() == 0 {
        ys.len() == 0
    } else {
        proof {
            assert(decreases_to!(xs => xs.last()));
        }
        ys.len() == xs.len() && members_match(xs.drop_last(), ys.drop_last()) && ys.last().0@
            == xs.last().0@ && tree_matches(xs.last().1, ys.last().1)
    }
}

/// Whether a number's text stands for zero; see `number_is_zero`.
fn text_is_zero(s: &String) -> (r: bool)
    ensures
        r == number_is_zero(s@),
{
    let v = chars_of(s.as_str());
    let mut k: usize = 0;
    assert(v@.skip(0) =~= v@);
    while k < v.len()
        invariant
            k <= v.len(),
            v@ == s@,
            number_is_zero(s@) == number_is_zero(v@.skip(k as int)),
        decreases v.len() - k,
    {
        let c = v[k];
        assert(v@.skip(k as int)[0] == c);
        assert(v@.skip(k as int).drop_first() =~= v@.skip(k + 1));
        if c == 'e' || c == 'E' {
            return true;
        }
        if '1' <= c && c <= '9' {
            return false;
        }
        k = k + 1;
    }
    assert(v@.skip(k as int).len() == 0);
    true
}

/// What the renderer reads of a parsed tree: the same value, with each number
/// marked non-zero where its text is; see `tree_matches`.
pub fn to_value(t: &JsonTree) -> (r: JsonValue)
    ensures
        tree_matches(*t, r),
    decreases *t,
{
    match t {
        JsonTree::Null => JsonValue::Null,
        JsonTree::Bool(b) => JsonValue::Bool(*b),
        JsonTree::Number(s) => {
            let nonzero = !text_is_zero(s);
            JsonValue::Number(JsonNumber { text: s.clone(), nonzero })
        },
        JsonTree::String(s) => JsonValue::String(s.clone()),
        JsonTree::Array(xs) => {
            let mut out: Vec<JsonValue> = Vec::new();
            let mut k: usize = 0;
            assert(xs@.take(0) =~= Seq::<JsonTree>::empty());
            while k < xs.len()
                invariant
                    k <= xs.len(),
                    *t == JsonTree::Array(*xs),
                    out@.len() == k,
                    items_match(xs@.take(k as int), out@),
                decreases xs.len() - k,
            {
                assert(decreases_to!(*t => (*t)->Array_0));
                assert(decreases_to!(*xs => xs@));
                assert(decreases_to!(xs@ => xs@[k as int]));
                let y = to_value(&xs[k]);
                let ghost o0 = out@;
                out.push(y);
                assert(xs@.take(k + 1).drop_last() =~= xs@.take(k as int));
                assert(out@.drop_last() =~= o0);
                k = k + 1;
            }
            assert(xs@.take(k as int) =~= xs@);
            JsonValue::Array(out)
        },
        JsonTree::Object(xs) => {
            let mut out: Vec<(String, JsonValue)> = Vec::new();
            let mut k: usize = 0;
            assert(xs@.take(0) =~= Seq::<(String, JsonTree)>::empty());
            while k < xs.len()
                invariant
                    k <= xs.len(),
                    *t == JsonTree::Object(*xs),
                    out@.len() == k,
                    members_match(xs@.take(k as int), out@),
                decreases xs.len() - k,
            {
                assert(decreases_to!(*t => (*t)->Object_0));
                assert(decreases_to!(*xs => xs@));
                assert(decreases_to!(xs@ => xs@[k as int]));
                assert(decreases_to!(xs@[k as int] => xs@[k as int].1));
                let y = to_value(&xs[k].1);
                let key = xs[k].0.clone();
                let ghost o0 = out@;
                out.push((key, y));
                assert(xs@.take(k + 1).drop_last() =~= xs@.take(k as int));
                assert(out@.drop_last() =~= o0);
                k = k + 1;
            }
            assert(xs@.take(k as int) =~= xs@);
            JsonValue::Object(out)
        },
    }
}

/// The data of a template, parsed from its JSON text with serde_json and read
/// as the renderer reads it; the error is serde_json's message where it
/// refuses the text.
pub fn parse_data(text: &str) -> (r: Result<JsonValue, String>)
    ensures
        match r {
            Ok(v) => json_parse(text@) matches Some(t) && tree_matches(t, v),
            Err(_) => json_parse(text@) is None,
        },
{
    match parse_json(text) {
        Ok(t) => Ok(to_value(&t)),
        Err(e) => Err(e),
    }
}

} // verus!
