//! JSON values as the configuration logic sees them.

use vstd::prelude::*;

verus! {

/// The mathematical model of a JSON document.
///
/// Numbers are kept as their decimal text; an object is the list of its
/// members in iteration order.
pub enum Json {
    Null,
    Bool(bool),
    Number(Seq<char>),
    Str(Seq<char>),
    Array(Seq<Json>),
    Object(Seq<(Seq<char>, Json)>),
}

/// A JSON value.
///
/// `Number` holds the number's text as serde_json prints it.
/// `Object` holds the members of an object in iteration order. A list can
/// hold a key twice; `unique_keys` says when no object does, and the
/// functions of this library that build values say when their results are
/// such.
#[derive(Debug, PartialEq)]
pub enum Value {
    Null,
    Bool(bool),
    Number(String),
    String(String),
    Array(Vec<Value>),
    Object(Vec<(String, Value)>),
}

/// The model of a value.
pub open spec fn json_of(v: Value) -> Json
    decreases v,
{
    match v {
        Value::Null => Json::Null,
        Value::Bool(b) => Json::Bool(b),
        Value::Number(n) => Json::Number(n@),
        Value::String(s) => Json::Str(s@),
        Value::Array(items) => Json::Array(
            Seq::new(
                items@.len(),
                |i: int|
                    if 0 <= i < items@.len() {
                        proof {
                            assert(decreases_to!(items => items@));
                        }
                        json_of(items@[i])
                    } else {
                        Json::Null
                    },
            ),
        ),
        Value::Object(members) => Json::Object(
            Seq::new(
                members@.len(),
                |i: int|
                    if 0 <= i < members@.len() {
                        proof {
                            assert(decreases_to!(members => members@));
                            assert(decreases_to!(members@ => members@[i]));
                        }
                        (members@[i].0@, json_of(members@[i].1))
                    } else {
                        (Seq::empty(), Json::Null)
                    },
            ),
        ),
    }
}

impl View for Value {
    type V = Json;

    open spec fn view(&self) -> Json {
        json_of(*self)
    }
}

/// Whether no object in `j`, at any depth, has two members with one key.
pub open spec fn unique_keys(j: Json) -> bool
    decreases j,
{
    match j {
        Json::Array(items) => forall|i: int|
            0 <= i < items.len() ==> unique_keys(
                if 0 <= i < items.len() {
                    proof {
                        assert(decreases_to!(items => items[i]));
                    }
                    items[i]
                } else {
                    Json::Null
                },
            ),
        Json::Object(m) => (forall|i: int, k: int| 0 <= i < k < m.len() ==> m[i].0 != m[k].0)
            && forall|i: int|
            0 <= i < m.len() ==> unique_keys(
                if 0 <= i < m.len() {
                    proof {
                        assert(decreases_to!(m => m[i]));
                    }
                    m[i].1
                } else {
                    Json::Null
                },
            ),
        _ => true,
    }
}

/// The model of a list of object members.
pub open spec fn members_view(m: Seq<(String, Value)>) -> Seq<(Seq<char>, Json)> {
    Seq::new(m.len(), |i: int| (m[i].0@, m[i].1@))
}

/// The model of a list of array items.
pub open spec fn items_view(s: Seq<Value>) -> Seq<Json> {
    Seq::new(s.len(), |i: int| s[i]@)
}

pub proof fn lemma_object_view(m: Vec<(String, Value)>)
    ensures
        Value::Object(m)@ == Json::Object(members_view(m@)),
{
    if let Json::Object(s) = Value::Object(m)@ {
        assert(s =~= members_view(m@));
    }
}

pub proof fn lemma_array_view(a: Vec<Value>)
    ensures
        Value::Array(a)@ == Json::Array(items_view(a@)),
{
    if let Json::Array(s) = Value::Array(a)@ {
        assert(s =~= items_view(a@));
    }
}

/// An array whose items have unique keys has unique keys.
pub proof fn lemma_unique_array(items: Seq<Json>)
    requires
        forall|i: int| 0 <= i < items.len() ==> #[trigger] unique_keys(items[i]),
    ensures
        unique_keys(Json::Array(items)),
{
    assert forall|i: int| 0 <= i < items.len() implies unique_keys(
        if 0 <= i < items.len() { items[i] } else { Json::Null },
    ) by {
        assert(unique_keys(items[i]));
    }
}

/// An object with distinct keys whose values have unique keys has unique
/// keys.
pub proof fn lemma_unique_members(m: Seq<(Seq<char>, Json)>)
    requires
        forall|i: int, k: int| 0 <= i < k < m.len() ==> m[i].0 != m[k].0,
        forall|i: int| 0 <= i < m.len() ==> #[trigger] unique_keys(m[i].1),
    ensures
        unique_keys(Json::Object(m)),
{
    assert forall|i: int| 0 <= i < m.len() implies unique_keys(
        if 0 <= i < m.len() { m[i].1 } else { Json::Null },
    ) by {
        assert(unique_keys(m[i].1));
    }
}

} // verus!
