//! Layering configuration values: the merge behind `Configurable::update`.

use vstd::prelude::*;
use crate::nesting::{
    assoc_put, flatten, flatten_spec, key_index, lemma_key_index, nest, nest_spec, put_all,
    FlatModel,
};
use crate::laws::{lemma_flatten_values_unique, lemma_put_all_values_unique};
use crate::value::{unique_keys, Json, Value};

verus! {

/// Why an update was refused.
#[derive(Debug, PartialEq)]
pub enum UpdateError {
    /// The update sets a dotted path that the configuration does not have.
    UnknownKey(String),
    /// The merged value does not describe a configuration; holds the reason.
    Invalid(String),
}

/// The first path of `extra` (in its order) that `known` does not have.
pub open spec fn first_unknown(known: FlatModel, extra: FlatModel) -> Option<Seq<char>>
    decreases extra.len(),
{
    if extra.len() == 0 {
        None
    } else {
        match first_unknown(known, extra.drop_last()) {
            Some(k) => Some(k),
            None => if key_index(known, extra.last().0) < 0 {
                Some(extra.last().0)
            } else {
                None
            },
        }
    }
}

/// Overriding `base` with `incoming`: both are flattened to dotted paths;
/// a path of `incoming` that `base` lacks is refused; otherwise the values of
/// `incoming` replace those of `base` and the result is nested again.
pub open spec fn merge_spec(base: Json, incoming: Json) -> Result<Json, Seq<char>> {
    let known = flatten_spec(base);
    let extra = flatten_spec(incoming);
    match first_unknown(known, extra) {
        Some(k) => Err(k),
        None => Ok(nest_spec(put_all(known, extra))),
    }
}

/// Whether two member lists have the same keys in the same places.
pub open spec fn same_keys(a: FlatModel, b: FlatModel) -> bool {
    a.len() == b.len() && forall|i: int| 0 <= i < a.len() ==> a[i].0 == b[i].0
}

pub proof fn lemma_same_keys_index(a: FlatModel, b: FlatModel, k: Seq<char>)
    requires
        same_keys(a, b),
    ensures
        key_index(a, k) == key_index(b, k),
    decreases a.len(),
{
    if a.len() > 0 {
        assert(a[0].0 == b[0].0);
        lemma_same_keys_index(a.drop_first(), b.drop_first(), k);
    }
}

/// Putting a known path keeps the keys.
pub proof fn lemma_put_known_same_keys(m: FlatModel, k: Seq<char>, v: Json)
    requires
        key_index(m, k) >= 0,
    ensures
        same_keys(assoc_put(m, k, v), m),
{
    lemma_key_index(m, k);
}

proof fn lemma_first_unknown_prefix(known: FlatModel, extra: FlatModel, j: int)
    requires
        0 <= j <= extra.len(),
        first_unknown(known, extra.take(j)) is Some,
    ensures
        first_unknown(known, extra) == first_unknown(known, extra.take(j)),
    decreases extra.len() - j,
{
    if j < extra.len() {
        assert(extra.take(j + 1).drop_last() =~= extra.take(j));
        lemma_first_unknown_prefix(known, extra, j + 1);
    } else {
        assert(extra.take(j) =~= extra);
    }
}

/// Overrides `base` with `incoming` (see `merge_spec`).
pub fn merge(base: Value, incoming: Value) -> (r: Result<Value, UpdateError>)
    ensures
        match r {
            Ok(v) => merge_spec(base@, incoming@) == Ok::<Json, Seq<char>>(v@),
            Err(e) => e matches UpdateError::UnknownKey(k) && merge_spec(base@, incoming@) == Err::<
                Json,
                Seq<char>,
            >(k@),
        },
        unique_keys(base@) && unique_keys(incoming@) ==> (r matches Ok(v) ==> unique_keys(v@)),
{
    let mut flat = flatten(base);
    let extra = flatten(incoming);
    let ghost known = flat@;
    let ghost ev = extra@;
    let entries = extra.into_entries();
    let ghost e0 = entries@;
    proof {
        assert(ev.take(0) =~= Seq::<(Seq<char>, Json)>::empty());
    }
    for entry in it: entries
        invariant
            it.seq() == e0,
            ev == crate::value::members_view(e0),
            known == flatten_spec(base@),
            ev == flatten_spec(incoming@),
            flat@ == put_all(known, ev.take(it.index() as int)),
            first_unknown(known, ev.take(it.index() as int)) is None,
            same_keys(flat@, known),
    {
        let ghost idx = it.index();
        assert(idx < e0.len());
        assert(entry == e0[idx as int]);
        let (key, value) = entry;
        proof {
            assert(ev.take(idx + 1).drop_last() =~= ev.take(idx as int));
            assert(ev.take(idx + 1).last() == ev[idx as int]);
            lemma_same_keys_index(flat@, known, key@);
        }
        let found = flat.get(key.as_str());
        if found.is_none() {
            proof {
                assert(key_index(flat@, key@) < 0);
                assert(key_index(known, key@) < 0);
                assert(ev[idx as int].0 == key@);
                assert(ev.take(idx + 1).last().0 == key@);
                assert(first_unknown(known, ev.take(idx + 1)) == Some(key@));
                lemma_first_unknown_prefix(known, ev, idx + 1);
                assert(first_unknown(known, ev) == Some(key@));
                assert(known == flatten_spec(base@));
                assert(ev == flatten_spec(incoming@));
                assert(merge_spec(base@, incoming@) == Err::<Json, Seq<char>>(key@));
            }
            return Err(UpdateError::UnknownKey(key));
        }
        proof {
            lemma_put_known_same_keys(flat@, key@, value@);
        }
        flat.insert(key, value);
    }
    proof {
        assert(ev.take(e0.len() as int) =~= ev);
        if unique_keys(base@) && unique_keys(incoming@) {
            lemma_flatten_values_unique(base@);
            lemma_flatten_values_unique(incoming@);
            lemma_put_all_values_unique(known, ev);
        }
    }
    Ok(nest(flat))
}

/// The first unknown path is a path of `extra` that `known` lacks, and there
/// is none exactly when `known` has every path of `extra`.
proof fn lemma_first_unknown(known: FlatModel, extra: FlatModel)
    ensures
        first_unknown(known, extra) is None <==> forall|i: int|
            0 <= i < extra.len() ==> key_index(known, #[trigger] extra[i].0) >= 0,
        first_unknown(known, extra) matches Some(k) ==> key_index(known, k) < 0 && exists|i: int|
            0 <= i < extra.len() && #[trigger] extra[i].0 == k,
    decreases extra.len(),
{
    if extra.len() > 0 {
        let e1 = extra.drop_last();
        lemma_first_unknown(known, e1);
        assert(extra[extra.len() - 1] == extra.last());
        if first_unknown(known, e1) is None {
            assert forall|i: int| 0 <= i < e1.len() implies key_index(known, #[trigger] e1[i].0)
                >= 0 by {
                assert(e1[i] == extra[i]);
            }
        }
        if forall|i: int| 0 <= i < extra.len() ==> key_index(known, #[trigger] extra[i].0) >= 0 {
            assert forall|i: int| 0 <= i < e1.len() implies key_index(known, #[trigger] e1[i].0)
                >= 0 by {
                assert(e1[i] == extra[i]);
            }
        }
        if let Some(k) = first_unknown(known, e1) {
            let i = choose|i: int| 0 <= i < e1.len() && #[trigger] e1[i].0 == k;
            assert(extra[i] == e1[i]);
        }
        if first_unknown(known, extra) is None {
            assert(first_unknown(known, e1) is None);
            assert(key_index(known, extra.last().0) >= 0);
            assert forall|i: int| 0 <= i < extra.len() implies key_index(
                known,
                #[trigger] extra[i].0,
            ) >= 0 by {
                if i < e1.len() {
                    assert(e1[i] == extra[i]);
                    assert(key_index(known, e1[i].0) >= 0);
                }
            }
        }
    }
}

/// A merge refuses only paths that the incoming value sets and the base
/// lacks, and succeeds whenever the base has every path the incoming value
/// sets, whatever values they hold.
pub proof fn law_merge_refuses_only_unknown(base: Json, incoming: Json)
    ensures
        merge_spec(base, incoming) matches Err(k) ==> key_index(flatten_spec(base), k) < 0
            && key_index(flatten_spec(incoming), k) >= 0,
        (forall|i: int|
            0 <= i < flatten_spec(incoming).len() ==> key_index(
                flatten_spec(base),
                #[trigger] flatten_spec(incoming)[i].0,
            ) >= 0) ==> merge_spec(base, incoming) is Ok,
{
    let known = flatten_spec(base);
    let extra = flatten_spec(incoming);
    lemma_first_unknown(known, extra);
    if let Some(k) = first_unknown(known, extra) {
        let i = choose|i: int| 0 <= i < extra.len() && #[trigger] extra[i].0 == k;
        lemma_key_index(extra, k);
        if key_index(extra, k) < 0 {
            assert(extra[i].0 != k);
        }
    }
}

/// A configuration that can be overridden, layer by layer, from JSON values.
///
/// `to_value` and `from_value` convert between the configuration and its
/// JSON form (serde does this for the structs of the `config!` macro).
pub trait Configurable: Sized {
    /// This configuration as a JSON value.
    fn to_value(&self) -> Value;

    /// The configuration that `value` describes, or why it describes none.
    fn from_value(value: Value) -> Result<Self, String>;

    /// A new configuration with the fields that `json` sets overridden and all
    /// others kept (see `merge`): nested sections are merged path by path,
    /// dotted keys and nested objects name the same fields, and a path the
    /// configuration lacks is refused.
    ///
    /// Whatever `to_value` and `from_value` do, the result is theirs: a
    /// refused path is one that `json` sets and the value `to_value` gave
    /// lacks; otherwise `from_value` was handed that value merged with `json`,
    /// and its answer is returned (its reason wrapped in `Invalid`).
    fn update(&self, json: Value) -> (r: Result<Self, UpdateError>)
        ensures
            match r {
                Err(UpdateError::UnknownKey(k)) => exists|base: Value|
                    call_ensures(Self::to_value, (self,), base) && merge_spec(base@, json@)
                        == Err::<Json, Seq<char>>(k@),
                Err(UpdateError::Invalid(reason)) => exists|base: Value, merged: Value|
                    call_ensures(Self::to_value, (self,), base) && merge_spec(base@, json@)
                        == Ok::<Json, Seq<char>>(merged@) && call_ensures(
                        Self::from_value,
                        (merged,),
                        Err::<Self, String>(reason),
                    ),
                Ok(config) => exists|base: Value, merged: Value|
                    call_ensures(Self::to_value, (self,), base) && merge_spec(base@, json@)
                        == Ok::<Json, Seq<char>>(merged@) && call_ensures(
                        Self::from_value,
                        (merged,),
                        Ok::<Self, String>(config),
                    ),
            },
    {
        let to_value = Self::to_value;
        let from_value = Self::from_value;
        let base = to_value(self);
        match merge(base, json) {
            Ok(merged) => match from_value(merged) {
                Ok(config) => Ok(config),
                Err(reason) => Err(UpdateError::Invalid(reason)),
            },
            Err(e) => Err(e),
        }
    }
}

} // verus!
