//! Canonical form of a JSON document: object members sorted by key.

use vstd::prelude::*;
use crate::json::{JsonMember, JsonModel, JsonValue, json_model, members_model, lemma_array_model, lemma_object_model};
use crate::text::{text_lt, text_less};

verus! {

/// The position at which a member with key `key` is inserted into `s`:
/// after every member whose key does not sort after `key`, scanning from the front.
pub open spec fn insert_position(key: Seq<char>, s: Seq<(Seq<char>, JsonModel)>) -> int
    decreases s.len(),
{
    if s.len() == 0 {
        0
    } else if text_lt(key, s[0].0) {
        0
    } else {
        1 + insert_position(key, s.drop_first())
    }
}

/// Inserts `x` in front of the first member whose key sorts after `x`'s key.
pub open spec fn insert_member(x: (Seq<char>, JsonModel), s: Seq<(Seq<char>, JsonModel)>) -> Seq<
    (Seq<char>, JsonModel),
>
    decreases s.len(),
{
    if s.len() == 0 {
        seq![x]
    } else if text_lt(x.0, s[0].0) {
        seq![x] + s
    } else {
        seq![s[0]] + insert_member(x, s.drop_first())
    }
}

/// Stable insertion sort of members by key.
pub open spec fn sort_members(ms: Seq<(Seq<char>, JsonModel)>) -> Seq<(Seq<char>, JsonModel)>
    decreases ms.len(),
{
    if ms.len() == 0 {
        ms
    } else {
        insert_member(ms.last(), sort_members(ms.drop_last()))
    }
}

/// The canonical form of a document: every object's members sorted by key,
/// recursively; arrays keep their order.
pub open spec fn canonical(m: JsonModel) -> JsonModel
    decreases m,
{
    match m {
        JsonModel::Array(xs) => JsonModel::Array(
            Seq::new(
                xs.len(),
                |i: int|
                    if 0 <= i < xs.len() {
                        canonical(xs[i])
                    } else {
                        JsonModel::Null
                    },
            ),
        ),
        JsonModel::Object(ms) => JsonModel::Object(sort_members(canonical_members(ms))),
        _ => m,
    }
}

/// The members of an object with their values in canonical form, in their given order.
pub open spec fn canonical_members(ms: Seq<(Seq<char>, JsonModel)>) -> Seq<(Seq<char>, JsonModel)>
    decreases ms,
{
    Seq::new(
        ms.len(),
        |i: int|
            if 0 <= i < ms.len() {
                (ms[i].0, canonical(ms[i].1))
            } else {
                (Seq::empty(), JsonModel::Null)
            },
    )
}

proof fn lemma_insert_member_at(x: (Seq<char>, JsonModel), s: Seq<(Seq<char>, JsonModel)>)
    ensures
        0 <= insert_position(x.0, s) <= s.len(),
        insert_member(x, s) == s.insert(insert_position(x.0, s), x),
    decreases s.len(),
{
    if s.len() == 0 {
        assert(s.insert(0, x) =~= seq![x]);
    } else if text_lt(x.0, s[0].0) {
        assert(s.insert(0, x) =~= seq![x] + s);
    } else {
        lemma_insert_member_at(x, s.drop_first());
        let p = insert_position(x.0, s.drop_first());
        assert(seq![s[0]] + s.drop_first().insert(p, x) =~= s.insert(p + 1, x));
    }
}

/// The position at which a member with key `key` enters the sorted members `out`.
fn find_insert_position(out: &Vec<JsonMember>, key: &String) -> (p: usize)
    ensures
        p as int == insert_position(key@, members_model(out@)),
        p <= out@.len(),
{
    let ghost s = members_model(out@);
    let mut i: usize = 0;
    assert(s.skip(0) =~= s);
    while i < out.len()
        invariant
            i <= out@.len(),
            s == members_model(out@),
            insert_position(key@, s) == i + insert_position(key@, s.skip(i as int)),
        decreases out@.len() - i,
    {
        if text_less(key.as_str(), out[i].key.as_str()) {
            return i;
        }
        assert(s.skip(i as int).drop_first() =~= s.skip(i + 1));
        i = i + 1;
    }
    i
}

/// A copy of `v` in canonical form.
#[verifier::loop_isolation(false)]
pub fn canonical_copy(v: &JsonValue) -> (r: JsonValue)
    ensures
        r@ == canonical(v@),
    decreases v,
{
    match v {
        JsonValue::Array(items) => {
            let mut out: Vec<JsonValue> = Vec::new();
            let mut i: usize = 0;
            while i < items.len()
                invariant
                    i <= items@.len(),
                    out@.len() == i,
                    forall|j: int|
                        0 <= j < i ==> #[trigger] json_model(out@[j]) == canonical(
                            json_model(items@[j]),
                        ),
                decreases items@.len() - i,
            {
                proof {
                    assert(decreases_to!(v => items@[i as int]));
                }
                let c = canonical_copy(&items[i]);
                out.push(c);
                i = i + 1;
            }
            let r = JsonValue::Array(out);
            proof {
                lemma_array_model(out);
                lemma_array_model(*items);
                assert(json_model(r)->Array_0 =~= canonical(json_model(*v))->Array_0);
            }
            r
        },
        JsonValue::Object(members) => {
            let ghost cm = canonical_members(members_model(members@));
            let mut out: Vec<JsonMember> = Vec::new();
            let mut i: usize = 0;
            assert(sort_members(cm.take(0)) =~= members_model(out@));
            while i < members.len()
                invariant
                    i <= members@.len(),
                    cm == canonical_members(members_model(members@)),
                    members_model(out@) == sort_members(cm.take(i as int)),
                decreases members@.len() - i,
            {
                proof {
                    assert(decreases_to!(v => members@[i as int].value));
                }
                let value = canonical_copy(&members[i].value);
                let key = members[i].key.clone();
                let p = find_insert_position(&out, &key);
                let ghost before = out@;
                out.insert(p, JsonMember { key, value });
                proof {
                    let x = (key@, json_model(value));
                    assert(x == cm[i as int]);
                    lemma_insert_member_at(x, members_model(before));
                    assert(members_model(out@) =~= members_model(before).insert(p as int, x));
                    assert(cm.take(i + 1).drop_last() =~= cm.take(i as int));
                    assert(cm.take(i + 1).last() == x);
                }
                i = i + 1;
            }
            let r = JsonValue::Object(out);
            proof {
                lemma_object_model(out);
                lemma_object_model(*members);
                assert(cm.take(members@.len() as int) =~= cm);
                assert(canonical(json_model(*v)) == JsonModel::Object(sort_members(cm)));
            }
            r
        },
        JsonValue::Null => JsonValue::Null,
        JsonValue::Bool(b) => JsonValue::Bool(*b),
        JsonValue::Number(n) => JsonValue::Number(n.deep_copy()),
        JsonValue::String(s) => JsonValue::String(s.clone()),
    }
}

/// The canonical form of `value`: object members ordered by key, recursively.
pub fn canonicalize_value(value: JsonValue) -> (r: JsonValue)
    ensures
        r@ == canonical(value@),
        crate::laws::ordered_everywhere(r@),
        crate::json::well_keyed(value@) ==> crate::laws::sorted_everywhere(r@),
{
    proof {
        crate::laws::law_canonical_form_is_ordered(value@);
        if crate::json::well_keyed(value@) {
            crate::laws::law_canonical_form_is_sorted(value@);
        }
    }
    canonical_copy(&value)
}

} // verus!
