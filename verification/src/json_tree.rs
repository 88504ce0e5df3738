//! JSON documents as trees, and their text through `serde_json`.

use vstd::prelude::*;

verus! {

#[verifier::external_type_specification]
#[verifier::external_body]
pub struct ExJsonValue(serde_json::Value);

/// A JSON document. A number is held by the text that it is written with.
#[derive(Debug)]
pub enum Json {
    Null,
    Bool(bool),
    Number(String),
    Text(String),
    Array(Vec<Json>),
    Object(Vec<(String, Json)>),
}

/// What a [`Json`] is, as a mathematical value.
pub enum JsonTree {
    Null,
    Bool(bool),
    Number(Seq<char>),
    Text(Seq<char>),
    Array(Seq<JsonTree>),
    Object(Seq<(Seq<char>, JsonTree)>),
}

/// The trees that the items of an array hold, in order.
pub open spec fn trees(items: Seq<Json>) -> Seq<JsonTree>
    decreases items,
{
    Seq::new(
        items.len(),
        |i: int|
            if 0 <= i < items.len() {
                items[i].model()
            } else {
                JsonTree::Null
            },
    )
}

/// The names and trees that the members of an object hold, in order.
pub open spec fn member_trees(members: Seq<(String, Json)>) -> Seq<(Seq<char>, JsonTree)>
    decreases members,
{
    Seq::new(
        members.len(),
        |i: int|
            if 0 <= i < members.len() {
                (members[i].0@, members[i].1.model())
            } else {
                (Seq::empty(), JsonTree::Null)
            },
    )
}

impl Json {
    /// The tree that `self` holds.
    pub open spec fn model(&self) -> JsonTree
        decreases self,
    {
        match self {
            Json::Null => JsonTree::Null,
            Json::Bool(truth) => JsonTree::Bool(*truth),
            Json::Number(text) => JsonTree::Number(text@),
            Json::Text(text) => JsonTree::Text(text@),
            Json::Array(items) => JsonTree::Array(trees(items@)),
            Json::Object(members) => JsonTree::Object(member_trees(members@)),
        }
    }
}

impl View for Json {
    type V = JsonTree;

    open spec fn view(&self) -> JsonTree {
        self.model()
    }
}

/// The JSON text that `serde_json::to_string` writes for `tree`; `None`
/// where it writes none.
pub uninterp spec fn json_text(tree: JsonTree) -> Option<Seq<char>>;

/// The tree that `serde_json::from_str` reads from `text`, with the members
/// of each object in the order in which their names first came; `None` where
/// `text` is not one JSON document.
pub uninterp spec fn json_tree(text: Seq<char>) -> Option<JsonTree>;

/// The JSON text that `serde_json` writes for the number whose decimal text
/// is `decimal`; `None` where `decimal` is the text of no finite number.
pub uninterp spec fn json_number_text(decimal: Seq<char>) -> Option<Seq<char>>;

/// The converting half of [`write_json`]: the `serde_json::Value` with the
/// shape of `j`, one variant for one, with each number read from its text by
/// `serde_json::from_str`, and `Null` in the place of a number that cannot
/// be read.
#[verifier::external_body]
pub(crate) fn to_outside(j: &Json) -> serde_json::Value {
    match j {
        Json::Null => serde_json::Value::Null,
        Json::Bool(b) => serde_json::Value::Bool(*b),
        Json::Number(t) => {
            serde_json::from_str(t).map_or(serde_json::Value::Null, serde_json::Value::Number)
        },
        Json::Text(t) => serde_json::Value::String(t.clone()),
        Json::Array(a) => serde_json::Value::Array(a.iter().map(to_outside).collect()),
        Json::Object(m) => {
            serde_json::Value::Object(m.iter().map(|e| (e.0.clone(), to_outside(&e.1))).collect())
        },
    }
}

/// The converting half of [`read_json`]: the [`Json`] with the shape of `v`,
/// one variant for one, with each number written by its `to_string`.
#[verifier::external_body]
pub(crate) fn from_outside(v: serde_json::Value) -> Json {
    match v {
        serde_json::Value::Null => Json::Null,
        serde_json::Value::Bool(b) => Json::Bool(b),
        serde_json::Value::Number(n) => Json::Number(n.to_string()),
        serde_json::Value::String(t) => Json::Text(t),
        serde_json::Value::Array(a) => Json::Array(a.into_iter().map(from_outside).collect()),
        serde_json::Value::Object(m) => {
            Json::Object(m.into_iter().map(|e| (e.0, from_outside(e.1))).collect())
        },
    }
}

/// `serde_json::to_string` on the `serde_json::Value` with the shape of `j`.
#[verifier::external_body]
pub(crate) fn write_json(j: &Json) -> (r: Option<String>)
    ensures
        match r {
            Some(text) => json_text(j@) == Some(text@),
            None => json_text(j@) is None,
        },
{
    serde_json::to_string(&to_outside(j)).ok()
}

/// `serde_json::from_str` to a `serde_json::Value`, handed back as the
/// [`Json`] with its shape.
#[verifier::external_body]
pub(crate) fn read_json(text: &str) -> (r: Option<Json>)
    ensures
        match r {
            Some(j) => json_tree(text@) == Some(j@),
            None => json_tree(text@) is None,
        },
{
    serde_json::from_str::<serde_json::Value>(text).ok().map(from_outside)
}

/// `serde_json::Number::from_f64` on the number that `str::parse` reads from
/// `decimal`, written by its `to_string`. A text that is not a number, or is
/// not finite, gives `None`.
#[verifier::external_body]
pub(crate) fn number_to_json(decimal: &str) -> (r: Option<String>)
    ensures
        match r {
            Some(text) => json_number_text(decimal@) == Some(text@),
            None => json_number_text(decimal@) is None,
        },
{
    serde_json::Number::from_f64(decimal.parse().ok()?).map(|n| n.to_string())
}

} // verus!
