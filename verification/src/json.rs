//! Reading command-line and environment values as JSON.

use vstd::prelude::*;
use serde_json::value::RawValue;
use serde_json::Value as Doc;
use std::collections::BTreeMap;
use crate::value::{
    items_view, lemma_array_view, lemma_object_view, lemma_unique_array, lemma_unique_members,
    members_view, unique_keys, Json, Value,
};

verus! {

/// One level of a JSON text: scalars with their contents, arrays and objects
/// with the text of each element.
pub enum JsonShape {
    Null,
    Bool(bool),
    /// The number's text as serde_json prints it.
    Number(String),
    Str(String),
    /// The text of each element, in order.
    Array(Vec<String>),
    /// Each key with the text of its value, in the order serde_json's map
    /// iterates them (by key); of repeated keys only the last one counts.
    Object(Vec<(String, String)>),
}

/// The model of a `JsonShape`.
pub enum ShapeModel {
    Null,
    Bool(bool),
    Number(Seq<char>),
    Str(Seq<char>),
    Array(Seq<Seq<char>>),
    Object(Seq<(Seq<char>, Seq<char>)>),
}

impl View for JsonShape {
    type V = ShapeModel;

    open spec fn view(&self) -> ShapeModel {
        match self {
            JsonShape::Null => ShapeModel::Null,
            JsonShape::Bool(b) => ShapeModel::Bool(*b),
            JsonShape::Number(n) => ShapeModel::Number(n@),
            JsonShape::Str(s) => ShapeModel::Str(s@),
            JsonShape::Array(a) => ShapeModel::Array(Seq::new(a@.len(), |i: int| a@[i]@)),
            JsonShape::Object(m) => ShapeModel::Object(
                Seq::new(m@.len(), |i: int| (m@[i].0@, m@[i].1@)),
            ),
        }
    }
}

/// What serde_json reads from `text`, one level deep: `None` when `text` is
/// not a JSON document.
pub uninterp spec fn json_shape_of(text: Seq<char>) -> Option<ShapeModel>;

/// Parses `text` with `serde_json::from_str` into a `serde_json::Value` and
/// reports its top level; the elements of an array and the members of an
/// object are read again with `serde_json::from_str`, as
/// `serde_json::value::RawValue`s, to give the exact text of each.
///
/// Claimed of serde_json: the result is a function of `text` alone
/// (`json_shape_of`), the text of each element or member value is a part
/// of `text` that leaves out at least the enclosing bracket, so it is shorter,
/// and the keys of an object come out of a `BTreeMap`, so no key twice.
#[verifier::external_body]
fn json_shape(text: &str) -> (r: Option<JsonShape>)
    ensures
        match r {
            Some(s) => json_shape_of(text@) == Some(s@),
            None => json_shape_of(text@) is None,
        },
        r matches Some(JsonShape::Array(a)) ==> forall|i: int|
            0 <= i < a@.len() ==> a@[i]@.len() < text@.len(),
        r matches Some(JsonShape::Object(m)) ==> forall|i: int|
            0 <= i < m@.len() ==> m@[i].1@.len() < text@.len(),
        r matches Some(JsonShape::Object(m)) ==> forall|i: int, k: int|
            0 <= i < k < m@.len() ==> m@[i].0@ != m@[k].0@,
{
    let raw = |r: &RawValue| r.get().to_owned();
    Some(match serde_json::from_str(text).ok()? {
        Doc::Null => JsonShape::Null,
        Doc::Bool(b) => JsonShape::Bool(b),
        Doc::Number(n) => JsonShape::Number(n.to_string()),
        Doc::String(s) => JsonShape::Str(s),
        Doc::Array(_) => JsonShape::Array(
            serde_json::from_str::<Vec<&RawValue>>(text).ok()?.into_iter().map(raw).collect(),
        ),
        Doc::Object(_) => JsonShape::Object(
            serde_json::from_str::<BTreeMap<String, &RawValue>>(text).ok()?.into_iter().map(
                |(k, r)| (k, raw(r)),
            ).collect(),
        ),
    })
}

/// The JSON document in `text`, or `None` when `text` is not one.
pub open spec fn json_of_text(text: Seq<char>) -> Option<Json>
    decreases text.len(), 1nat, 0nat,
{
    match json_shape_of(text) {
        None => None,
        Some(ShapeModel::Null) => Some(Json::Null),
        Some(ShapeModel::Bool(b)) => Some(Json::Bool(b)),
        Some(ShapeModel::Number(n)) => Some(Json::Number(n)),
        Some(ShapeModel::Str(s)) => Some(Json::Str(s)),
        Some(ShapeModel::Array(items)) => match json_of_texts(items, text.len()) {
            Some(js) => Some(Json::Array(js)),
            None => None,
        },
        Some(ShapeModel::Object(members)) => match json_of_members(members, text.len()) {
            Some(ms) => Some(Json::Object(ms)),
            None => None,
        },
    }
}

/// The documents in the element texts `items`, each shorter than `bound`.
pub open spec fn json_of_texts(items: Seq<Seq<char>>, bound: nat) -> Option<Seq<Json>>
    decreases bound, 0nat, items.len(),
{
    if items.len() == 0 {
        Some(Seq::empty())
    } else if items.last().len() < bound {
        match json_of_texts(items.drop_last(), bound) {
            Some(js) => match json_of_text(items.last()) {
                Some(j) => Some(js.push(j)),
                None => None,
            },
            None => None,
        }
    } else {
        None
    }
}

/// The members whose value texts are in `members`, each shorter than `bound`.
pub open spec fn json_of_members(members: Seq<(Seq<char>, Seq<char>)>, bound: nat) -> Option<
    Seq<(Seq<char>, Json)>,
>
    decreases bound, 0nat, members.len(),
{
    if members.len() == 0 {
        Some(Seq::empty())
    } else if members.last().1.len() < bound {
        match json_of_members(members.drop_last(), bound) {
            Some(ms) => match json_of_text(members.last().1) {
                Some(j) => Some(ms.push((members.last().0, j))),
                None => None,
            },
            None => None,
        }
    } else {
        None
    }
}

/// The value a command-line or environment setting stands for: the JSON
/// document in `text` when there is one, otherwise `text` itself as a string.
pub open spec fn value_of_text(text: Seq<char>) -> Json {
    match json_of_text(text) {
        Some(j) => j,
        None => Json::Str(text),
    }
}

proof fn lemma_texts_prefix_none(items: Seq<Seq<char>>, bound: nat, j: int)
    requires
        0 <= j <= items.len(),
        json_of_texts(items.take(j), bound) is None,
    ensures
        json_of_texts(items, bound) is None,
    decreases items.len() - j,
{
    if j < items.len() {
        assert(items.take(j + 1).drop_last() =~= items.take(j));
        lemma_texts_prefix_none(items, bound, j + 1);
    } else {
        assert(items.take(j) =~= items);
    }
}

proof fn lemma_members_prefix_none(members: Seq<(Seq<char>, Seq<char>)>, bound: nat, j: int)
    requires
        0 <= j <= members.len(),
        json_of_members(members.take(j), bound) is None,
    ensures
        json_of_members(members, bound) is None,
    decreases members.len() - j,
{
    if j < members.len() {
        assert(members.take(j + 1).drop_last() =~= members.take(j));
        lemma_members_prefix_none(members, bound, j + 1);
    } else {
        assert(members.take(j) =~= members);
    }
}

/// Parses the JSON document in `text`.
pub fn parse_json(text: &str) -> (r: Option<Value>)
    ensures
        match r {
            Some(v) => json_of_text(text@) == Some(v@) && unique_keys(v@),
            None => json_of_text(text@) is None,
        },
        r matches Some(v) ==> (json_shape_of(text@) matches Some(s) && follows_shape(s, v@)),
        r is Some <==> (json_shape_of(text@) matches Some(s) && parts_parse(s)),
    decreases text@.len(),
{
    let shape = json_shape(text);
    let ghost sh = shape;
    proof {
        match sh {
            Some(JsonShape::Array(a)) => {
                let iv = Seq::new(a@.len(), |k: int| a@[k]@);
                assert forall|i: int| 0 <= i < iv.len() implies (#[trigger] iv[i]).len()
                    < text@.len() by {
                    assert(a@[i]@.len() < text@.len());
                }
            },
            _ => {},
        }
        law_document_follows_shape(text@);
    }
    match shape {
        None => None,
        Some(JsonShape::Null) => Some(Value::Null),
        Some(JsonShape::Bool(b)) => Some(Value::Bool(b)),
        Some(JsonShape::Number(n)) => Some(Value::Number(n)),
        Some(JsonShape::Str(s)) => Some(Value::String(s)),
        Some(JsonShape::Array(items)) => {
            let ghost iv = Seq::new(items@.len(), |i: int| items@[i]@);
            let ghost bound = text@.len();
            assert(sh == Some(JsonShape::Array(items)));
            assert(json_shape_of(text@) == Some(ShapeModel::Array(iv)));
            let mut out: Vec<Value> = Vec::new();
            let mut i: usize = 0;
            proof {
                assert(iv.take(0) =~= Seq::<Seq<char>>::empty());
                assert(items_view(out@) =~= Seq::<Json>::empty());
            }
            while i < items.len()
                invariant
                    0 <= i <= items@.len(),
                    iv == Seq::new(items@.len(), |k: int| items@[k]@),
                    bound == text@.len(),
                    json_shape_of(text@) == Some(ShapeModel::Array(iv)),
                    forall|k: int| 0 <= k < items@.len() ==> items@[k]@.len() < text@.len(),
                    json_of_texts(iv.take(i as int), bound) == Some(items_view(out@)),
                    forall|k: int| 0 <= k < out@.len() ==> #[trigger] unique_keys(out@[k]@),
                decreases items.len() - i,
            {
                let child = parse_json(items[i].as_str());
                proof {
                    assert(iv.take(i + 1).drop_last() =~= iv.take(i as int));
                    assert(iv.take(i + 1).last() == items@[i as int]@);
                }
                match child {
                    Some(c) => {
                        let ghost cv = c@;
                        let ghost prev = items_view(out@);
                        out.push(c);
                        assert(items_view(out@) =~= prev.push(cv));
                    },
                    None => {
                        proof {
                            lemma_texts_prefix_none(iv, bound, i + 1);
                        }
                        return None;
                    },
                }
                i = i + 1;
            }
            proof {
                assert(iv.take(items@.len() as int) =~= iv);
                lemma_array_view(out);
                lemma_unique_array(items_view(out@));
            }
            Some(Value::Array(out))
        },
        Some(JsonShape::Object(members)) => {
            let ghost mv = Seq::new(members@.len(), |i: int| (members@[i].0@, members@[i].1@));
            let ghost m0 = members@;
            let ghost bound = text@.len();
            assert(sh == Some(JsonShape::Object(members)));
            assert(json_shape_of(text@) == Some(ShapeModel::Object(mv)));
            let mut out: Vec<(String, Value)> = Vec::new();
            proof {
                assert(mv.take(0) =~= Seq::<(Seq<char>, Seq<char>)>::empty());
                assert(members_view(out@) =~= Seq::<(Seq<char>, Json)>::empty());
            }
            for member in it: members
                invariant
                    it.seq() == m0,
                    mv == Seq::new(m0.len(), |k: int| (m0[k].0@, m0[k].1@)),
                    bound == text@.len(),
                    json_shape_of(text@) == Some(ShapeModel::Object(mv)),
                    forall|k: int| 0 <= k < m0.len() ==> m0[k].1@.len() < text@.len(),
                    json_of_members(mv.take(it.index() as int), bound) == Some(
                        members_view(out@),
                    ),
                    out@.len() == it.index(),
                    forall|i: int, k: int| 0 <= i < k < m0.len() ==> m0[i].0@ != m0[k].0@,
                    forall|k: int| 0 <= k < out@.len() ==> #[trigger] out@[k].0@ == m0[k].0@,
                    forall|k: int| 0 <= k < out@.len() ==> #[trigger] unique_keys(out@[k].1@),
            {
                let ghost i = it.index();
                assert(i < m0.len());
                assert(member == m0[i as int]);
                let (key, child_text) = member;
                let child = parse_json(child_text.as_str());
                proof {
                    assert(mv.take(i + 1).drop_last() =~= mv.take(i as int));
                    assert(mv.take(i + 1).last() == mv[i as int]);
                }
                match child {
                    Some(c) => {
                        let ghost cv = c@;
                        let ghost kv = key@;
                        let ghost prev = members_view(out@);
                        out.push((key, c));
                        assert(members_view(out@) =~= prev.push((kv, cv)));
                    },
                    None => {
                        proof {
                            lemma_members_prefix_none(mv, bound, i + 1);
                        }
                        return None;
                    },
                }
            }
            proof {
                assert(mv.take(m0.len() as int) =~= mv);
                lemma_object_view(out);
                let ov = members_view(out@);
                assert forall|i: int, k: int| 0 <= i < k < ov.len() implies ov[i].0 != ov[k].0 by {
                    assert(out@[i].0@ == m0[i].0@ && out@[k].0@ == m0[k].0@);
                }
                assert forall|i: int| 0 <= i < ov.len() implies #[trigger] unique_keys(ov[i].1) by {
                    assert(unique_keys(out@[i].1@));
                }
                lemma_unique_members(ov);
            }
            Some(Value::Object(out))
        },
    }
}


/// The value a command-line or environment setting stands for: parsed as
/// JSON where possible, otherwise kept as a string.
pub fn parse_value(text: &str) -> (r: Value)
    ensures
        r@ == value_of_text(text@),
        unique_keys(r@),
{
    match parse_json(text) {
        Some(v) => v,
        None => Value::String(text.to_owned()),
    }
}

// ---------------------------------------------------------------------------
// What a document is made of
// ---------------------------------------------------------------------------

/// Whether `j` is the document that the one-level reading `shape` describes:
/// the same scalar, or as many elements (members, with the same keys in the
/// same order) as `shape` has texts, each the document in its text.
pub open spec fn follows_shape(shape: ShapeModel, j: Json) -> bool {
    match shape {
        ShapeModel::Null => j == Json::Null,
        ShapeModel::Bool(b) => j == Json::Bool(b),
        ShapeModel::Number(n) => j == Json::Number(n),
        ShapeModel::Str(s) => j == Json::Str(s),
        ShapeModel::Array(items) => match j {
            Json::Array(js) => js.len() == items.len() && forall|i: int|
                0 <= i < items.len() ==> json_of_text(#[trigger] items[i]) == Some(js[i]),
            _ => false,
        },
        ShapeModel::Object(members) => match j {
            Json::Object(ms) => ms.len() == members.len() && forall|i: int|
                0 <= i < members.len() ==> (#[trigger] ms[i]).0 == members[i].0 && json_of_text(
                    members[i].1,
                ) == Some(ms[i].1),
            _ => false,
        },
    }
}

/// Whether every element or member text of `shape` holds a document.
pub open spec fn parts_parse(shape: ShapeModel) -> bool {
    match shape {
        ShapeModel::Array(items) => forall|i: int|
            0 <= i < items.len() ==> json_of_text(#[trigger] items[i]) is Some,
        ShapeModel::Object(members) => forall|i: int|
            0 <= i < members.len() ==> json_of_text(#[trigger] members[i].1) is Some,
        _ => true,
    }
}

/// Whether every element or member text of `shape` is shorter than `n`.
pub open spec fn parts_shorter(shape: ShapeModel, n: nat) -> bool {
    match shape {
        ShapeModel::Array(items) => forall|i: int|
            0 <= i < items.len() ==> (#[trigger] items[i]).len() < n,
        ShapeModel::Object(members) => forall|i: int|
            0 <= i < members.len() ==> (#[trigger] members[i]).1.len() < n,
        _ => true,
    }
}

proof fn lemma_texts_follow(items: Seq<Seq<char>>, bound: nat)
    requires
        forall|i: int| 0 <= i < items.len() ==> (#[trigger] items[i]).len() < bound,
    ensures
        json_of_texts(items, bound) matches Some(js) ==> js.len() == items.len() && forall|i: int|
            0 <= i < items.len() ==> json_of_text(#[trigger] items[i]) == Some(js[i]),
        (forall|i: int| 0 <= i < items.len() ==> json_of_text(#[trigger] items[i]) is Some)
            ==> json_of_texts(items, bound) is Some,
    decreases items.len(),
{
    if items.len() > 0 {
        let i1 = items.drop_last();
        assert forall|i: int| 0 <= i < i1.len() implies (#[trigger] i1[i]).len() < bound by {
            assert(i1[i] == items[i]);
        }
        lemma_texts_follow(i1, bound);
        assert(items[items.len() - 1] == items.last());
        if let Some(js) = json_of_texts(items, bound) {
            let js1 = json_of_texts(i1, bound)->0;
            assert forall|i: int| 0 <= i < items.len() implies json_of_text(#[trigger] items[i])
                == Some(js[i]) by {
                if i < i1.len() {
                    assert(i1[i] == items[i]);
                }
            }
        }
        if forall|i: int| 0 <= i < items.len() ==> json_of_text(#[trigger] items[i]) is Some {
            assert forall|i: int| 0 <= i < i1.len() implies json_of_text(#[trigger] i1[i]) is Some by {
                assert(i1[i] == items[i]);
            }
        }
    }
}

proof fn lemma_members_follow(members: Seq<(Seq<char>, Seq<char>)>, bound: nat)
    requires
        forall|i: int| 0 <= i < members.len() ==> (#[trigger] members[i]).1.len() < bound,
    ensures
        json_of_members(members, bound) matches Some(ms) ==> ms.len() == members.len()
            && forall|i: int|
            0 <= i < members.len() ==> (#[trigger] ms[i]).0 == members[i].0 && json_of_text(
                members[i].1,
            ) == Some(ms[i].1),
        (forall|i: int| 0 <= i < members.len() ==> json_of_text(#[trigger] members[i].1) is Some)
            ==> json_of_members(members, bound) is Some,
    decreases members.len(),
{
    if members.len() > 0 {
        let m1 = members.drop_last();
        assert forall|i: int| 0 <= i < m1.len() implies (#[trigger] m1[i]).1.len() < bound by {
            assert(m1[i] == members[i]);
        }
        lemma_members_follow(m1, bound);
        assert(members[members.len() - 1] == members.last());
        if let Some(ms) = json_of_members(members, bound) {
            assert forall|i: int| 0 <= i < members.len() implies (#[trigger] ms[i]).0
                == members[i].0 && json_of_text(members[i].1) == Some(ms[i].1) by {
                if i < m1.len() {
                    assert(m1[i] == members[i]);
                }
            }
        }
        if forall|i: int| 0 <= i < members.len() ==> json_of_text(#[trigger] members[i].1) is Some {
            assert forall|i: int| 0 <= i < m1.len() implies json_of_text(#[trigger] m1[i].1)
                is Some by {
                assert(m1[i] == members[i]);
            }
        }
    }
}

/// The document in a text is what the reading of its top level describes:
/// a scalar is that scalar, and an array or object has one element or member
/// per text, in order, each the document in its text. A text holds a
/// document exactly when its top level reads and every part holds one.
pub proof fn law_document_follows_shape(text: Seq<char>)
    requires
        json_shape_of(text) matches Some(s) ==> parts_shorter(s, text.len()),
    ensures
        json_of_text(text) matches Some(j) ==> (json_shape_of(text) matches Some(s) && follows_shape(
            s,
            j,
        )),
        json_of_text(text) is Some <==> (json_shape_of(text) matches Some(s) && parts_parse(s)),
{
    match json_shape_of(text) {
        Some(ShapeModel::Array(items)) => {
            lemma_texts_follow(items, text.len());
            if let Some(Json::Array(js)) = json_of_text(text) {
                assert forall|i: int| 0 <= i < items.len() implies json_of_text(
                    #[trigger] items[i],
                ) is Some by {
                    assert(json_of_text(items[i]) == Some(js[i]));
                }
            }
        },
        Some(ShapeModel::Object(members)) => {
            lemma_members_follow(members, text.len());
            if let Some(Json::Object(ms)) = json_of_text(text) {
                assert forall|i: int| 0 <= i < members.len() implies json_of_text(
                    #[trigger] members[i].1,
                ) is Some by {
                    assert(ms[i].0 == members[i].0);
                }
            }
        },
        _ => {},
    }
}

} // verus!
