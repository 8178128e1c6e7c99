//! Documents in JSON: the values a document is made of, and the reading of
//! a document from its text.

use vstd::prelude::*;

verus! {

/// A JSON value. A number is held as its numeral: decimal digits for a
/// whole number that is not negative, a leading `-` for a negative one, and
/// a fraction or an exponent for any other.
#[derive(Debug, PartialEq, Eq)]
pub enum Json {
    Null,
    Bool(bool),
    Number(String),
    Text(String),
    Array(Vec<Json>),
    Object(Vec<(String, Json)>),
}

/// What a JSON value holds: the texts as sequences of characters, the items
/// and members as sequences.
pub enum JsonView {
    Null,
    Bool(bool),
    Number(Seq<char>),
    Text(Seq<char>),
    Array(Seq<JsonView>),
    Object(Seq<(Seq<char>, JsonView)>),
}

/// The view of a JSON value, part by part.
pub open spec fn view_of(doc: Json) -> JsonView
    decreases doc,
{
    match doc {
        Json::Null => JsonView::Null,
        Json::Bool(b) => JsonView::Bool(b),
        Json::Number(numeral) => JsonView::Number(numeral@),
        Json::Text(text) => JsonView::Text(text@),
        Json::Array(items) => JsonView::Array(
            Seq::new(
                items@.len(),
                |i: int|
                    if 0 <= i < items@.len() {
                        view_of(items@[i])
                    } else {
                        JsonView::Null
                    },
            ),
        ),
        Json::Object(members) => JsonView::Object(
            Seq::new(
                members@.len(),
                |i: int|
                    if 0 <= i < members@.len() {
                        (members@[i].0@, view_of(members@[i].1))
                    } else {
                        (Seq::<char>::empty(), JsonView::Null)
                    },
            ),
        ),
    }
}

impl View for Json {
    type V = JsonView;

    open spec fn view(&self) -> JsonView {
        view_of(*self)
    }
}

/// What the members of an object hold.
pub open spec fn members_view(members: Seq<(String, Json)>) -> Seq<(Seq<char>, JsonView)> {
    Seq::new(members.len(), |i: int| (members[i].0@, members[i].1@))
}

/// What the items of an array hold.
pub open spec fn items_view(items: Seq<Json>) -> Seq<JsonView> {
    Seq::new(items.len(), |i: int| items[i]@)
}

/// An object holds what its members hold, and an array what its items hold.
pub proof fn lemma_view_of_parts(doc: Json)
    ensures
        doc matches Json::Object(members) ==> doc@ == JsonView::Object(members_view(members@)),
        doc matches Json::Array(items) ==> doc@ == JsonView::Array(items_view(items@)),
{
    match doc {
        Json::Object(members) => {
            assert(doc@->Object_0 =~= members_view(members@));
        },
        Json::Array(items) => {
            assert(doc@->Array_0 =~= items_view(items@));
        },
        _ => {},
    }
}

/// `serde_json::Value`: a parsed document, as the parser holds it.
#[verifier::external_type_specification]
#[verifier::external_body]
pub struct ExValue(serde_json::Value);

/// The document that `serde_json::from_str` reads from a text, where it
/// reads one.
pub uninterp spec fn json_of_text(text: Seq<char>) -> Option<JsonView>;

/// The document that a `serde_json::Value` holds.
pub uninterp spec fn json_of_value(value: serde_json::Value) -> JsonView;

/// Calls `serde_json::from_str` for a `serde_json::Value`. The contract
/// claims that the outcome depends on the text alone: whether the text is
/// read, and which document comes of it.
#[verifier::external_body]
fn parse_value(text: &str) -> (parsed: Option<serde_json::Value>)
    ensures
        match parsed {
            Some(value) => json_of_text(text@) == Some(json_of_value(value)),
            None => json_of_text(text@) is None,
        },
{
    serde_json::from_str::<serde_json::Value>(text).ok()
}

/// Takes a `serde_json::Value` apart, variant by variant, and writes each
/// number as `serde_json::Number` displays it. The contract claims that the
/// outcome depends on the value alone.
#[verifier::external_body]
fn json_from_value(value: serde_json::Value) -> (doc: Json)
    ensures
        doc@ == json_of_value(value),
{
    match value {
        serde_json::Value::Null => Json::Null,
        serde_json::Value::Bool(b) => Json::Bool(b),
        serde_json::Value::Number(n) => Json::Number(n.to_string()),
        serde_json::Value::String(s) => Json::Text(s),
        serde_json::Value::Array(a) => Json::Array(a.into_iter().map(json_from_value).collect()),
        serde_json::Value::Object(m) => Json::Object(
            m.into_iter().map(|(k, v)| (k, json_from_value(v))).collect(),
        ),
    }
}

impl Json {
    /// Reads a document from its text; `None` where the text is not JSON.
    pub fn parse(text: &str) -> (doc: Option<Json>)
        ensures
            match doc {
                Some(d) => json_of_text(text@) == Some(d@),
                None => json_of_text(text@) is None,
            },
    {
        match parse_value(text) {
            Some(value) => Some(json_from_value(value)),
            None => None,
        }
    }
}

} // verus!
