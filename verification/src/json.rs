//! A JSON document model and its mathematical view.

use vstd::prelude::*;
use serde_json::Value;

verus! {

/// A JSON number as the JSON data model holds it: a non-negative integer,
/// a negative integer, or a finite float kept as its shortest decimal text.
#[derive(Debug)]
pub enum JsonNumber {
    PosInt(u64),
    NegInt(i64),
    Float(String),
}

/// One member of a JSON object.
#[derive(Debug)]
pub struct JsonMember {
    pub key: String,
    pub value: JsonValue,
}

/// A JSON document.
#[derive(Debug)]
pub enum JsonValue {
    Null,
    Bool(bool),
    Number(JsonNumber),
    String(String),
    Array(Vec<JsonValue>),
    Object(Vec<JsonMember>),
}

/// The mathematical view of a JSON number.
pub enum NumberModel {
    PosInt(u64),
    NegInt(i64),
    Float(Seq<char>),
}

/// The mathematical view of a JSON document.
pub enum JsonModel {
    Null,
    Bool(bool),
    Number(NumberModel),
    Str(Seq<char>),
    Array(Seq<JsonModel>),
    Object(Seq<(Seq<char>, JsonModel)>),
}

pub open spec fn number_model(n: JsonNumber) -> NumberModel {
    match n {
        JsonNumber::PosInt(u) => NumberModel::PosInt(u),
        JsonNumber::NegInt(i) => NumberModel::NegInt(i),
        JsonNumber::Float(t) => NumberModel::Float(t@),
    }
}

pub open spec fn json_model(v: JsonValue) -> JsonModel
    decreases v,
{
    match v {
        JsonValue::Null => JsonModel::Null,
        JsonValue::Bool(b) => JsonModel::Bool(b),
        JsonValue::Number(n) => JsonModel::Number(number_model(n)),
        JsonValue::String(s) => JsonModel::Str(s@),
        JsonValue::Array(items) => JsonModel::Array(
            Seq::new(
                items@.len(),
                |i: int|
                    if 0 <= i < items@.len() {
                        json_model(items@[i])
                    } else {
                        JsonModel::Null
                    },
            ),
        ),
        JsonValue::Object(members) => JsonModel::Object(
            Seq::new(
                members@.len(),
                |i: int|
                    if 0 <= i < members@.len() {
                        (members@[i].key@, json_model(members@[i].value))
                    } else {
                        (Seq::empty(), JsonModel::Null)
                    },
            ),
        ),
    }
}

impl View for JsonValue {
    type V = JsonModel;

    open spec fn view(&self) -> JsonModel {
        json_model(*self)
    }
}

/// Whether a float text is the rendering of positive or negative zero.
pub open spec fn is_zero_float_text(t: Seq<char>) -> bool {
    t == seq!['0', '.', '0'] || t == seq!['-', '0', '.', '0']
}

/// Equality of JSON numbers: integers by value within the same sign class,
/// floats by value (shortest texts coincide, and both zeros are equal).
pub open spec fn number_equal(a: NumberModel, b: NumberModel) -> bool {
    match (a, b) {
        (NumberModel::PosInt(x), NumberModel::PosInt(y)) => x == y,
        (NumberModel::NegInt(x), NumberModel::NegInt(y)) => x == y,
        (NumberModel::Float(x), NumberModel::Float(y)) => x == y || (is_zero_float_text(x)
            && is_zero_float_text(y)),
        _ => false,
    }
}

/// Equality of two JSON values where at least one of them is not a container
/// of the same kind as the other: scalars compare by value, and values of
/// different kinds are unequal.
pub open spec fn leaf_equal(a: JsonModel, b: JsonModel) -> bool {
    match (a, b) {
        (JsonModel::Null, JsonModel::Null) => true,
        (JsonModel::Bool(x), JsonModel::Bool(y)) => x == y,
        (JsonModel::Number(x), JsonModel::Number(y)) => number_equal(x, y),
        (JsonModel::Str(x), JsonModel::Str(y)) => x == y,
        _ => false,
    }
}

/// The value of the first member whose key is `key`.
pub open spec fn lookup(ms: Seq<(Seq<char>, JsonModel)>, key: Seq<char>) -> Option<JsonModel>
    decreases ms.len(),
{
    if ms.len() == 0 {
        None
    } else if ms[0].0 == key {
        Some(ms[0].1)
    } else {
        lookup(ms.drop_first(), key)
    }
}

/// Some member has the key `key`.
pub open spec fn has_key(ms: Seq<(Seq<char>, JsonModel)>, key: Seq<char>) -> bool {
    exists|i: int| 0 <= i < ms.len() && #[trigger] ms[i].0 == key
}

/// A float text is `0.0` or `-0.0`.
fn is_zero_float(t: &String) -> (r: bool)
    ensures
        r == is_zero_float_text(t@),
{
    let cs = crate::text::chars_of(t.as_str());
    let plain = cs.len() == 3 && cs[0] == '0' && cs[1] == '.' && cs[2] == '0';
    let negative = cs.len() == 4 && cs[0] == '-' && cs[1] == '0' && cs[2] == '.' && cs[3] == '0';
    proof {
        if plain {
            assert(t@ =~= seq!['0', '.', '0']);
        }
        if negative {
            assert(t@ =~= seq!['-', '0', '.', '0']);
        }
    }
    plain || negative
}

impl JsonNumber {
    /// A copy with the same view.
    pub fn deep_copy(&self) -> (r: JsonNumber)
        ensures
            number_model(r) == number_model(*self),
    {
        match self {
            JsonNumber::PosInt(u) => JsonNumber::PosInt(*u),
            JsonNumber::NegInt(i) => JsonNumber::NegInt(*i),
            JsonNumber::Float(t) => JsonNumber::Float(t.clone()),
        }
    }

    /// Number equality as the JSON data model defines it.
    pub fn equals(&self, other: &JsonNumber) -> (r: bool)
        ensures
            r == number_equal(number_model(*self), number_model(*other)),
    {
        match (self, other) {
            (JsonNumber::PosInt(x), JsonNumber::PosInt(y)) => *x == *y,
            (JsonNumber::NegInt(x), JsonNumber::NegInt(y)) => *x == *y,
            (JsonNumber::Float(x), JsonNumber::Float(y)) => *x == *y || (is_zero_float(x)
                && is_zero_float(y)),
            _ => false,
        }
    }
}

impl JsonValue {
    /// A copy with the same view.
    #[verifier::loop_isolation(false)]
    pub fn deep_copy(&self) -> (r: JsonValue)
        ensures
            r@ == self@,
        decreases self,
    {
        match self {
            JsonValue::Null => JsonValue::Null,
            JsonValue::Bool(b) => JsonValue::Bool(*b),
            JsonValue::Number(n) => JsonValue::Number(n.deep_copy()),
            JsonValue::String(s) => JsonValue::String(s.clone()),
            JsonValue::Array(items) => {
                let mut out: Vec<JsonValue> = Vec::new();
                let mut i: usize = 0;
                while i < items.len()
                    invariant
                        i <= items@.len(),
                        out@.len() == i,
                        forall|j: int| 0 <= j < i ==> #[trigger] json_model(out@[j]) == json_model(items@[j]),
                    decreases items@.len() - i,
                {
                    proof {
                        assert(decreases_to!(self => items@[i as int]));
                    }
                    let c = items[i].deep_copy();
                    out.push(c);
                    i = i + 1;
                }
                let r = JsonValue::Array(out);
                assert(out@.len() == items@.len());
                assert(*self == JsonValue::Array(*items));
                assert(json_model(r)->Array_0.len() == json_model(*self)->Array_0.len());
                assert(forall|k: int| 0 <= k < items@.len() ==> json_model(r)->Array_0[k] == json_model(out@[k]));
                assert(json_model(r)->Array_0 =~= json_model(*self)->Array_0);
                r
            },
            JsonValue::Object(members) => {
                let mut out: Vec<JsonMember> = Vec::new();
                let mut i: usize = 0;
                while i < members.len()
                    invariant
                        i <= members@.len(),
                        out@.len() == i,
                        forall|j: int| 0 <= j < i ==> #[trigger] out@[j].key@ == members@[j].key@ && json_model(out@[j].value) == json_model(members@[j].value),
                    decreases members@.len() - i,
                {
                    proof {
                        assert(decreases_to!(self => members@[i as int].value));
                    }
                    let v = members[i].value.deep_copy();
                    out.push(JsonMember { key: members[i].key.clone(), value: v });
                    i = i + 1;
                }
                let r = JsonValue::Object(out);
                assert(json_model(r)->Object_0 =~= json_model(*self)->Object_0);
                r
            },
        }
    }

    /// Equality for the cases [`leaf_equal`] describes.
    pub fn leaf_equals(&self, other: &JsonValue) -> (r: bool)
        ensures
            r == leaf_equal(self@, other@),
    {
        match (self, other) {
            (JsonValue::Null, JsonValue::Null) => true,
            (JsonValue::Bool(x), JsonValue::Bool(y)) => *x == *y,
            (JsonValue::Number(x), JsonValue::Number(y)) => x.equals(y),
            (JsonValue::String(x), JsonValue::String(y)) => *x == *y,
            _ => false,
        }
    }
}

/// The view of a sequence of members, key by key.
pub open spec fn members_model(ms: Seq<JsonMember>) -> Seq<(Seq<char>, JsonModel)> {
    Seq::new(ms.len(), |i: int| (ms[i].key@, json_model(ms[i].value)))
}

/// The view of an object is the view of its members.
pub proof fn lemma_object_model(ms: Vec<JsonMember>)
    ensures
        json_model(JsonValue::Object(ms)) == JsonModel::Object(members_model(ms@)),
{
    assert(json_model(JsonValue::Object(ms))->Object_0 =~= members_model(ms@));
}

/// The view of an array is the view of its items, item by item.
pub proof fn lemma_array_model(items: Vec<JsonValue>)
    ensures
        json_model(JsonValue::Array(items)) is Array,
        json_model(JsonValue::Array(items))->Array_0.len() == items@.len(),
        forall|i: int|
            0 <= i < items@.len() ==> #[trigger] json_model(JsonValue::Array(items))->Array_0[i]
                == json_model(items@[i]),
{
}

/// The position of the first member with key `key`, if any.
pub fn find_member(members: &Vec<JsonMember>, key: &String) -> (r: Option<usize>)
    ensures
        match r {
            Some(i) => i < members@.len() && members@[i as int].key@ == key@
                && has_key(members_model(members@), key@)
                && lookup(members_model(members@), key@) == Some(json_model(members@[i as int].value)),
            None => !has_key(members_model(members@), key@)
                && lookup(members_model(members@), key@) is None,
        },
{
    let ghost ms = members_model(members@);
    let mut i: usize = 0;
    assert(ms.skip(0) =~= ms);
    while i < members.len()
        invariant
            i <= members@.len(),
            ms == members_model(members@),
            ms.len() == members@.len(),
            forall|k: int| 0 <= k < i ==> #[trigger] ms[k].0 != key@,
            lookup(ms, key@) == lookup(ms.skip(i as int), key@),
        decreases members@.len() - i,
    {
        if members[i].key == *key {
            assert(ms[i as int].0 == key@);
            return Some(i);
        }
        assert(ms.skip(i as int).drop_first() =~= ms.skip(i + 1));
        i = i + 1;
    }
    None
}

/// No two members of an object share a key.
pub open spec fn keys_distinct(ms: Seq<(Seq<char>, JsonModel)>) -> bool {
    forall|i: int, j: int| 0 <= i < j < ms.len() ==> #[trigger] ms[i].0 != #[trigger] ms[j].0
}

/// No object anywhere in the document has two members with the same key,
/// as in every document a JSON parser builds into a map.
pub open spec fn well_keyed(m: JsonModel) -> bool
    decreases m,
{
    match m {
        JsonModel::Object(ms) => keys_distinct(ms) && forall|i: int|
            0 <= i < ms.len() ==> well_keyed(#[trigger] ms[i].1),
        JsonModel::Array(xs) => forall|i: int| 0 <= i < xs.len() ==> well_keyed(#[trigger] xs[i]),
        _ => true,
    }
}

/// The outcome of reading `text` as one JSON document with `serde_json`:
/// the document, or the parser's error message.
pub uninterp spec fn parsed_json(text: Seq<char>) -> Result<JsonModel, Seq<char>>;

/// The JSON value type of `serde_json`, carried opaquely.
#[verifier::external_type_specification]
#[verifier::external_body]
pub struct ExSerdeJsonValue(serde_json::Value);

/// Converts a `serde_json` value into a document, one value for one value:
/// integers by their sign class, floats by `serde_json`'s text for them,
/// object members in the map's order. Part of [`parse_json_text`].
#[verifier::external_body]
fn json_of_serde(v: &Value) -> JsonValue {
    match v {
        Value::Null => JsonValue::Null,
        Value::Bool(b) => JsonValue::Bool(*b),
        Value::Number(n) => JsonValue::Number(match (n.as_u64(), n.as_i64()) {
            (Some(u), _) => JsonNumber::PosInt(u),
            (None, Some(i)) => JsonNumber::NegInt(i),
            _ => JsonNumber::Float(n.to_string()),
        }),
        Value::String(s) => JsonValue::String(s.clone()),
        Value::Array(xs) => JsonValue::Array(xs.iter().map(json_of_serde).collect()),
        Value::Object(m) => JsonValue::Object(m.iter().map(|(k, x)| JsonMember { key: k.clone(), value: json_of_serde(x) }).collect()),
    }
}

/// `serde_json::from_str` into a `serde_json::Value`, converted to a
/// document. The result is named by [`parsed_json`]; besides, the keys of
/// every object it builds are distinct, as `serde_json` keeps objects in a
/// map. What the parser accepts, and its error texts, are left unstated.
#[verifier::external_body]
pub fn parse_json_text(text: &str) -> (r: Result<JsonValue, String>)
    ensures
        match parsed_json(text@) {
            Ok(m) => r matches Ok(v) && v@ == m,
            Err(e) => r matches Err(s) && s@ == e,
        },
        r matches Ok(v) ==> well_keyed(v@),
{
    match serde_json::from_str::<serde_json::Value>(text) {
        Ok(v) => Ok(json_of_serde(&v)),
        Err(e) => Err(e.to_string()),
    }
}

/// The outcome of reading the JSON file at `path` whose text is `content`.
pub open spec fn file_document(path: Seq<char>, content: Seq<char>) -> Result<JsonModel, Seq<char>> {
    match parsed_json(content) {
        Ok(m) => Ok(m),
        Err(e) => Err("Failed to parse JSON in "@ + path + ": "@ + e),
    }
}

/// Reads the text `content` of the JSON file at `path` as a document.
pub fn load_json_file(path: &str, content: &str) -> (r: Result<JsonValue, String>)
    ensures
        match file_document(path@, content@) {
            Ok(m) => r matches Ok(v) && v@ == m,
            Err(e) => r matches Err(s) && s@ == e,
        },
        r matches Ok(v) ==> well_keyed(v@),
{
    match parse_json_text(content) {
        Ok(v) => Ok(v),
        Err(e) => {
            let mut m = String::from_str("Failed to parse JSON in ");
            m.append(path);
            m.append(": ");
            m.append(e.as_str());
            Err(m)
        },
    }
}

} // verus!
