//! JSON texts, as `serde_json` builds and prints them.

use serde_json::Value;
use vstd::prelude::*;

use crate::text::{opt_text, texts};

verus! {

/// What a JSON value is. The members of an object have no order.
pub enum JsonModel {
    Null,
    Bool(bool),
    Number(nat),
    /// A number that is no natural number, as it is written.
    OtherNumber(Seq<char>),
    Text(Seq<char>),
    List(Seq<JsonModel>),
    Object(Map<Seq<char>, JsonModel>),
}

/// What the value holds.
pub uninterp spec fn json_content(v: Value) -> JsonModel;

/// The text that `serde_json` prints for a value, with line breaks and indentation.
pub uninterp spec fn pretty_form(content: JsonModel) -> Option<Seq<char>>;

/// What the values hold.
pub open spec fn json_contents(values: Seq<Value>) -> Seq<JsonModel> {
    values.map_values(|v: Value| json_content(v))
}

/// The members of an object, by their names.
pub open spec fn members(fields: Seq<(String, Value)>) -> Map<Seq<char>, JsonModel>
    decreases fields.len(),
{
    if fields.len() == 0 {
        Map::empty()
    } else {
        members(fields.drop_last()).insert(fields.last().0@, json_content(fields.last().1))
    }
}

/// No two members have the same name.
pub open spec fn names_differ(fields: Seq<(String, Value)>) -> bool {
    forall|i: int, j: int|
        0 <= i < fields.len() && 0 <= j < fields.len() && (#[trigger] fields[i]).0@ == (
        #[trigger] fields[j]).0@ ==> i == j
}

/// A list of texts.
pub open spec fn text_list(list: Seq<Seq<char>>) -> JsonModel {
    JsonModel::List(list.map_values(|t: Seq<char>| JsonModel::Text(t)))
}

/// A text, or null if there is none.
pub open spec fn text_or_null(text: Option<Seq<char>>) -> JsonModel {
    match text {
        Some(t) => JsonModel::Text(t),
        None => JsonModel::Null,
    }
}

/// `serde_json::Value::Null`.
#[verifier::external_body]
fn json_null() -> (v: Value)
    ensures
        json_content(v) == JsonModel::Null,
{
    Value::Null
}

/// `serde_json::Value::from` of a `bool`: that truth value.
#[verifier::external_body]
pub(crate) fn json_bool(b: bool) -> (v: Value)
    ensures
        json_content(v) == JsonModel::Bool(b),
{
    Value::from(b)
}

/// `serde_json::Value::from` of a `u64`: that number.
#[verifier::external_body]
pub(crate) fn json_number(n: u64) -> (v: Value)
    ensures
        json_content(v) == JsonModel::Number(n as nat),
{
    Value::from(n)
}

/// `serde_json::Value::from` of a `str`: that text.
#[verifier::external_body]
pub(crate) fn json_text(text: &str) -> (v: Value)
    ensures
        json_content(v) == JsonModel::Text(text@),
{
    Value::from(text)
}

/// `serde_json::Value::from` of a vector: an array of the values, in order.
#[verifier::external_body]
pub(crate) fn json_list(values: Vec<Value>) -> (v: Value)
    ensures
        json_content(v) == JsonModel::List(json_contents(values@)),
{
    Value::from(values)
}

/// `serde_json::Value::from_iter` of pairs: an object with these members. With two members of one
/// name, one of them would be lost.
#[verifier::external_body]
pub(crate) fn json_object(fields: Vec<(String, Value)>) -> (v: Value)
    requires
        names_differ(fields@),
    ensures
        json_content(v) == JsonModel::Object(members(fields@)),
{
    Value::from_iter(fields)
}

/// `serde_json::to_string_pretty` of a value: its text, which what the value holds determines. A
/// value can always be printed: its objects have texts for names, and the text is written to
/// memory. How it looks is not spelled out.
#[verifier::external_body]
pub(crate) fn pretty(v: &Value) -> (text: Option<String>)
    ensures
        opt_text(text) == pretty_form(json_content(*v)),
        text is Some,
{
    serde_json::to_string_pretty(v).ok()
}

/// A text, or null if there is none.
pub(crate) fn json_optional(text: &Option<String>) -> (v: Value)
    ensures
        json_content(v) == text_or_null(opt_text(*text)),
{
    match text {
        Some(t) => json_text(t.as_str()),
        None => json_null(),
    }
}

/// A list of texts.
pub(crate) fn json_text_list(list: &Vec<String>) -> (v: Value)
    ensures
        json_content(v) == text_list(texts(list@)),
{
    let mut values: Vec<Value> = Vec::new();
    let ghost all = texts(list@).map_values(|t: Seq<char>| JsonModel::Text(t));
    let mut k: usize = 0;
    while k < list.len()
        invariant
            k <= list@.len(),
            all == texts(list@).map_values(|t: Seq<char>| JsonModel::Text(t)),
            values@.len() == k,
            forall|i: int| 0 <= i < k ==> json_content(#[trigger] values@[i]) == all[i],
        decreases list@.len() - k,
    {
        values.push(json_text(list[k].as_str()));
        k += 1;
    }
    assert(json_contents(values@) =~= all);
    json_list(values)
}

/// The members of an object, one after the other.
pub(crate) proof fn members_of_push(fields: Seq<(String, Value)>, field: (String, Value))
    ensures
        members(fields.push(field)) == members(fields).insert(field.0@, json_content(field.1)),
{
    assert(fields.push(field).drop_last() =~= fields);
}

} // verus!
