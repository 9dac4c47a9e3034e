//! JSON values of `serde_json`, and what the library relies on of them.

use crate::label_map;
use crate::label_map::LabelMap;
use crate::scalar::Scalar;
use crate::text;
use serde_json::Value;
use vstd::prelude::*;

verus! {

broadcast use LabelMap::lemma_keys;

/// The JSON values of `serde_json`.
#[verifier::external_type_specification]
#[verifier::external_body]
pub struct ExValue(serde_json::Value);

/// What a JSON number answers to `as_i64`, `as_u64` and `as_f64`, the last as
/// the bits of the double.
pub struct NumberView {
    pub signed: Option<i64>,
    pub unsigned: Option<u64>,
    pub float_bits: u64,
}

/// The contents of a JSON value.
pub enum JsonView {
    Null,
    Bool(bool),
    Number(NumberView),
    Text(Seq<char>),
    Array(Seq<JsonView>),
    Object(Map<Seq<char>, JsonView>),
}

/// The contents of a `serde_json::Value`.
pub uninterp spec fn json_of(v: Value) -> JsonView;

/// What `serde_json::from_str` makes of a text, where the text is JSON.
pub uninterp spec fn parsed_json(text: Seq<char>) -> Option<JsonView>;

/// The contents of a list of values.
pub open spec fn jsons_of(v: Seq<Value>) -> Seq<JsonView> {
    v.map_values(|x: Value| json_of(x))
}

/// The members of an object; a value that is none has no members.
pub open spec fn members_of(j: JsonView) -> Map<Seq<char>, JsonView> {
    match j {
        JsonView::Object(m) => m,
        _ => Map::empty(),
    }
}

/// The elements of an array; a value that is none has no elements.
pub open spec fn elements_of(j: JsonView) -> Seq<JsonView> {
    match j {
        JsonView::Array(a) => a,
        _ => Seq::empty(),
    }
}

/// The member `key`, where there is one.
pub open spec fn member_of(j: JsonView, key: Seq<char>) -> Option<JsonView> {
    if members_of(j).contains_key(key) {
        Some(members_of(j)[key])
    } else {
        None
    }
}

/// The text of a string value.
pub open spec fn text_of(j: Option<JsonView>) -> Option<Seq<char>> {
    match j {
        Some(JsonView::Text(s)) => Some(s),
        _ => None,
    }
}

/// The array that a value is.
pub open spec fn array_of(j: Option<JsonView>) -> Option<Seq<JsonView>> {
    match j {
        Some(JsonView::Array(a)) => Some(a),
        _ => None,
    }
}

/// The double that a number value is, as bits.
pub open spec fn float_of(j: Option<JsonView>) -> Option<u64> {
    match j {
        Some(JsonView::Number(n)) => Some(n.float_bits),
        _ => None,
    }
}

/// The integer that a number value is.
pub open spec fn integer_of(j: Option<JsonView>) -> Option<i64> {
    match j {
        Some(JsonView::Number(n)) => n.signed,
        _ => None,
    }
}

/// The JSON number that a whole number which is not negative is.
pub open spec fn count_json(n: u32) -> JsonView {
    JsonView::Number(
        NumberView {
            signed: Some(n as i64),
            unsigned: Some(n as u64),
            float_bits: Scalar::whole(n as nat).bits,
        },
    )
}

/// The member `key` of a value, where there is one of each.
pub open spec fn inner(j: Option<JsonView>, key: Seq<char>) -> Option<JsonView> {
    match j {
        Some(v) => member_of(v, key),
        None => None,
    }
}

/// The element of an array at position `i`, where there is one of each.
pub open spec fn nth_of(j: Option<JsonView>, i: int) -> Option<JsonView> {
    match array_of(j) {
        Some(a) => if 0 <= i < a.len() {
            Some(a[i])
        } else {
            None
        },
        None => None,
    }
}

/// The text that a value is; no text where it is none.
pub open spec fn text_or_empty(j: Option<JsonView>) -> Seq<char> {
    match text_of(j) {
        Some(s) => s,
        None => Seq::empty(),
    }
}

/// The number zero, written as a double.
pub open spec fn zero_json() -> JsonView {
    JsonView::Number(NumberView { signed: None, unsigned: None, float_bits: 0 })
}

/// The members that a map of values adds to an object.
pub open spec fn extra_members(m: LabelMap<Value>) -> Map<Seq<char>, JsonView> {
    m@.map_values(|v: Value| json_of(v))
}

/// What a list of texts is as JSON.
pub open spec fn texts_json(v: Seq<Seq<char>>) -> JsonView {
    JsonView::Array(v.map_values(|s: Seq<char>| JsonView::Text(s)))
}

/// `serde_json::from_str`, read into a `Value`: what the text is as JSON, or
/// nothing where it is not JSON. The result depends on the text alone.
#[verifier::external_body]
pub(crate) fn parse_json(text: &str) -> (r: Option<Value>)
    ensures
        match r {
            Some(v) => parsed_json(text@) == Some(json_of(v)),
            None => parsed_json(text@) is None,
        },
{
    serde_json::from_str(text).ok()
}

/// `Value::get` with a text: the member of that name, where the value is an
/// object that has it.
#[verifier::external_body]
pub(crate) fn member<'a>(v: &'a Value, key: &str) -> (r: Option<&'a Value>)
    ensures
        match r {
            Some(m) => member_of(json_of(*v), key@) == Some(json_of(*m)),
            None => member_of(json_of(*v), key@) is None,
        },
{
    v.get(key)
}

/// `Value::as_str`: the text, where the value is a string.
#[verifier::external_body]
pub(crate) fn as_text(v: &Value) -> (r: Option<&str>)
    ensures
        match r {
            Some(s) => text_of(Some(json_of(*v))) == Some(s@),
            None => text_of(Some(json_of(*v))) is None,
        },
{
    v.as_str()
}

/// `Value::as_array`: the elements, where the value is an array.
#[verifier::external_body]
pub(crate) fn as_array(v: &Value) -> (r: Option<&Vec<Value>>)
    ensures
        match r {
            Some(a) => array_of(Some(json_of(*v))) == Some(jsons_of(a@)),
            None => array_of(Some(json_of(*v))) is None,
        },
{
    v.as_array()
}

/// `Value::as_f64`: the double nearest to the number, where the value is a
/// number; handed on as its bits.
#[verifier::external_body]
pub(crate) fn as_float_bits(v: &Value) -> (r: Option<u64>)
    ensures
        r == float_of(Some(json_of(*v))),
{
    v.as_f64().map(|x| x.to_bits())
}

/// `Value::as_i64`: the integer, where the value is a number that fits.
#[verifier::external_body]
pub(crate) fn as_integer(v: &Value) -> (r: Option<i64>)
    ensures
        r == integer_of(Some(json_of(*v))),
{
    v.as_i64()
}

/// `Value::from` on a text: the string value.
#[verifier::external_body]
pub(crate) fn text_value(s: String) -> (r: Value)
    ensures
        json_of(r) == JsonView::Text(s@),
{
    Value::from(s)
}

/// `Value::from` on a truth value.
#[verifier::external_body]
pub(crate) fn bool_value(b: bool) -> (r: Value)
    ensures
        json_of(r) == JsonView::Bool(b),
{
    Value::from(b)
}

/// `Value::from` on an unsigned integer: the number that reports it as an
/// integer, and as the double that it is exactly.
#[verifier::external_body]
pub(crate) fn count_value(n: u32) -> (r: Value)
    ensures
        json_of(r) == count_json(n),
{
    Value::from(n)
}

/// `Value::as_f64` on a value, handed to `Value::from`: the number that reports
/// the same double, and is no integer to `as_i64` and `as_u64`.
#[verifier::external_body]
pub(crate) fn float_value(v: &Value) -> (r: Value)
    requires
        json_of(*v) matches JsonView::Number(n) && n.unsigned is Some,
    ensures
        json_of(*v) matches JsonView::Number(n) ==> json_of(r) == JsonView::Number(
            NumberView { signed: None, unsigned: None, float_bits: n.float_bits },
        ),
{
    Value::from(v.as_f64())
}

/// The number zero as a double.
pub(crate) fn zero_value() -> (r: Value)
    ensures
        json_of(r) == zero_json(),
{
    float_value(&count_value(0))
}

/// `Value::from` on a list of values: the array of them.
#[verifier::external_body]
pub(crate) fn array_value(items: Vec<Value>) -> (r: Value)
    ensures
        json_of(r) == JsonView::Array(jsons_of(items@)),
{
    Value::from(items)
}

/// `Value::from` on an empty `serde_json::Map`: the object without members.
#[verifier::external_body]
pub(crate) fn empty_object() -> (r: Value)
    ensures
        json_of(r) == JsonView::Object(Map::empty()),
{
    Value::from(serde_json::Map::new())
}

/// Assignment through `IndexMut` with a text: sets the member, new or not.
/// Null counts as an empty object; every other value but an object panics.
#[verifier::external_body]
pub(crate) fn set_member(body: &mut Value, key: &str, v: Value)
    requires
        json_of(*old(body)) is Object || json_of(*old(body)) is Null,
    ensures
        json_of(*final(body)) == JsonView::Object(
            members_of(json_of(*old(body))).insert(key@, json_of(v)),
        ),
{
    body[key] = v;
}

/// `Value::clone`: a value with the same contents.
pub assume_specification[ <Value as Clone>::clone ](v: &Value) -> (r: Value)
    ensures
        json_of(r) == json_of(*v),
;

/// The array of the given texts.
pub fn texts_value(labels: &[String]) -> (r: Value)
    ensures
        json_of(r) == texts_json(text::texts(labels@)),
{
    let mut items: Vec<Value> = Vec::new();
    let n: usize = labels.len();
    for i in 0..n
        invariant
            n == labels@.len(),
            items@.len() == i,
            forall|j: int|
                0 <= j < i ==> json_of(#[trigger] items@[j]) == JsonView::Text(labels@[j]@),
    {
        items.push(text_value(labels[i].clone()));
    }
    assert(jsons_of(items@) =~= text::texts(labels@).map_values(
        |s: Seq<char>| JsonView::Text(s),
    ));
    array_value(items)
}

/// The member `key` of a value, where there is one of each.
pub(crate) fn inner_member<'a>(v: Option<&'a Value>, key: &str) -> (r: Option<&'a Value>)
    ensures
        optional_json(r) == inner(optional_json(v), key@),
{
    match v {
        Some(v) => member(v, key),
        None => None,
    }
}

/// The contents of a value that may be missing.
pub open spec fn optional_json(v: Option<&Value>) -> Option<JsonView> {
    match v {
        Some(v) => Some(json_of(*v)),
        None => None,
    }
}

/// The array that a value is, where there is one.
pub(crate) fn inner_array<'a>(v: Option<&'a Value>) -> (r: Option<&'a Vec<Value>>)
    ensures
        match r {
            Some(a) => array_of(optional_json(v)) == Some(jsons_of(a@)),
            None => array_of(optional_json(v)) is None,
        },
{
    match v {
        Some(v) => as_array(v),
        None => None,
    }
}

/// The element of an array at position `i`, where there is one of each.
pub(crate) fn nth_element<'a>(v: Option<&'a Value>, i: usize) -> (r: Option<&'a Value>)
    ensures
        optional_json(r) == nth_of(optional_json(v), i as int),
{
    match inner_array(v) {
        Some(a) => if i < a.len() {
            assert(jsons_of(a@)[i as int] == json_of(a@[i as int]));
            Some(&a[i])
        } else {
            None
        },
        None => None,
    }
}

/// The text that a value is; no text where it is none.
pub(crate) fn inner_text(v: Option<&Value>) -> (r: String)
    ensures
        r@ == text_or_empty(optional_json(v)),
{
    let none = String::new();
    assert(none@ =~= Seq::<char>::empty());
    match v {
        Some(v) => match as_text(v) {
            Some(s) => s.to_owned(),
            None => none,
        },
        None => none,
    }
}

/// The bits of the double that a value is; those of zero where it is none.
pub(crate) fn inner_float(v: Option<&Value>) -> (r: u64)
    ensures
        r == match float_of(optional_json(v)) {
            Some(b) => b,
            None => 0,
        },
{
    match v {
        Some(v) => match as_float_bits(v) {
            Some(b) => b,
            None => 0,
        },
        None => 0,
    }
}

/// The integer that a value is; `-1` where it is none.
pub(crate) fn inner_integer(v: Option<&Value>) -> (r: i64)
    ensures
        r == match integer_of(optional_json(v)) {
            Some(n) => n as int,
            None => -1,
        },
{
    match v {
        Some(v) => match as_integer(v) {
            Some(n) => n,
            None => -1,
        },
        None => -1,
    }
}

/// Sets a member for each entry of a map, over one that is there.
pub(crate) fn merge_extra(body: &mut Value, extra_body: &LabelMap<Value>)
    requires
        json_of(*old(body)) is Object,
    ensures
        json_of(*final(body)) == JsonView::Object(
            members_of(json_of(*old(body))).union_prefer_right(extra_members(*extra_body)),
        ),
{
    let n: usize = extra_body.len();
    let ghost keys = extra_body.keys();
    let ghost first = members_of(json_of(*body));
    let ghost extra = extra_members(*extra_body);
    for i in 0..n
        invariant
            n == keys.len(),
            keys == extra_body.keys(),
            extra == extra_members(*extra_body),
            json_of(*body) is Object,
            forall|k: Seq<char>| #[trigger]
                members_of(json_of(*body)).contains_key(k) <==> first.contains_key(k) || keys.take(
                    i as int,
                ).contains(k),
            forall|k: Seq<char>| #[trigger]
                members_of(json_of(*body)).contains_key(k) ==> members_of(json_of(*body))[k]
                    == if keys.take(i as int).contains(k) {
                    extra[k]
                } else {
                    first[k]
                },
    {
        let key = extra_body.key_at(i);
        proof {
            assert(keys.take(i + 1) =~= keys.take(i as int).push(key@));
            label_map::lemma_distinct_push(keys.take(i as int), key@);
            assert(keys.contains(key@));
            assert(extra_body@.contains_key(key@));
        }
        let value = extra_body.value_at(i).clone();
        set_member(body, key.as_str(), value);
    }
    assert(keys.take(n as int) =~= keys);
    assert(members_of(json_of(*body)) =~= first.union_prefer_right(extra));
}

// ---------------------------------------------------------------------------
// Laws of reading and writing
// ---------------------------------------------------------------------------

/// A value is read as a text, an array or a number exactly where it is one, and
/// as what it is.
pub proof fn law_values_are_read_as_they_are(j: JsonView, s: Seq<char>, a: Seq<JsonView>)
    ensures
        text_of(Some(j)) == Some(s) <==> j == JsonView::Text(s),
        array_of(Some(j)) == Some(a) <==> j == JsonView::Array(a),
        j matches JsonView::Number(n) ==> float_of(Some(j)) == Some(n.float_bits) && integer_of(
            Some(j),
        ) == n.signed,
        !(j is Number) ==> float_of(Some(j)) is None && integer_of(Some(j)) is None,
        text_of(None) is None,
        array_of(None) is None,
        float_of(None) is None,
        integer_of(None) is None,
        text_or_empty(Some(JsonView::Text(s))) == s,
        !(j is Text) ==> text_or_empty(Some(j)).len() == 0,
        text_or_empty(None).len() == 0,
        elements_of(JsonView::Array(a)) == a,
        !(j is Array) ==> elements_of(j).len() == 0,
{
}

/// A member is found exactly where the object has it, and an element exactly
/// where the array is long enough.
pub proof fn law_members_and_elements_are_found(
    m: Map<Seq<char>, JsonView>,
    a: Seq<JsonView>,
    key: Seq<char>,
    i: int,
)
    ensures
        m.contains_key(key) ==> member_of(JsonView::Object(m), key) == Some(m[key]) && inner(
            Some(JsonView::Object(m)),
            key,
        ) == Some(m[key]),
        !m.contains_key(key) ==> member_of(JsonView::Object(m), key) is None && inner(
            Some(JsonView::Object(m)),
            key,
        ) is None,
        inner(None, key) is None,
        0 <= i < a.len() ==> nth_of(Some(JsonView::Array(a)), i) == Some(a[i]),
        !(0 <= i < a.len()) ==> nth_of(Some(JsonView::Array(a)), i) is None,
        nth_of(None, i) is None,
        member_of(JsonView::Array(a), key) is None,
{
}

/// The contents of a list of values are those of the values, each in its place.
pub proof fn law_contents_are_those_of_the_values(v: Seq<Value>, x: &Value)
    ensures
        jsons_of(v).len() == v.len(),
        forall|i: int| 0 <= i < v.len() ==> #[trigger] jsons_of(v)[i] == json_of(v[i]),
        optional_json(Some(x)) == Some(json_of(*x)),
        optional_json(None) is None,
{
}

/// A list of texts becomes an array of as many strings, each its own text in
/// its own place.
pub proof fn law_texts_become_strings(v: Seq<Seq<char>>)
    ensures
        texts_json(v) is Array,
        elements_of(texts_json(v)).len() == v.len(),
        forall|i: int|
            0 <= i < v.len() ==> #[trigger] elements_of(texts_json(v))[i] == JsonView::Text(v[i]),
{
}

/// What is added to a request is every entry of the map, each under its own
/// key, and nothing else.
pub proof fn law_every_extra_is_added(m: LabelMap<Value>, key: Seq<char>)
    ensures
        extra_members(m).contains_key(key) <==> m.keys().contains(key),
        m.keys().contains(key) ==> extra_members(m)[key] == json_of(m@[key]),
{
}

/// A count is a number that reports itself as an integer; zero as a double
/// reports no integer.
pub proof fn law_counts_report_themselves(n: u32)
    ensures
        count_json(n) matches JsonView::Number(v) && v.signed == Some(n as i64) && v.unsigned
            == Some(n as u64),
        float_of(Some(zero_json())) == Some(0u64),
        integer_of(Some(zero_json())) is None,
{
}

} // verus!
