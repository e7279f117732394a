//! Converting between nested JSON objects and flat maps keyed by dotted paths.

use vstd::prelude::*;
use crate::text::{char_index, find_char, lemma_char_index};
use crate::laws::{
    keys_distinct, lemma_flatten_values_unique, lemma_nest_unique, lemma_put_distinct,
    values_unique,
};
use crate::value::{lemma_object_view, members_view, unique_keys, Json, Value};

verus! {

/// The model of a flat map: dotted paths with their values, in insertion order.
pub type FlatModel = Seq<(Seq<char>, Json)>;

// ---------------------------------------------------------------------------
// Specification
// ---------------------------------------------------------------------------

/// Index of the first `'.'` in `p`, or -1 when there is none.
pub open spec fn dot_index(p: Seq<char>) -> int {
    char_index(p, '.')
}

/// Index of the first member of `m` whose key is `k`, or -1 when there is none.
pub open spec fn key_index(m: FlatModel, k: Seq<char>) -> int
    decreases m.len(),
{
    if m.len() == 0 {
        -1
    } else if m[0].0 == k {
        0
    } else {
        let r = key_index(m.drop_first(), k);
        if r < 0 {
            -1
        } else {
            r + 1
        }
    }
}

/// Map insertion on a member list: the first member with key `k` gets the
/// value `v`; when there is none, `(k, v)` is appended.
pub open spec fn assoc_put(m: FlatModel, k: Seq<char>, v: Json) -> FlatModel {
    let i = key_index(m, k);
    if i >= 0 {
        m.update(i, (k, v))
    } else {
        m.push((k, v))
    }
}

/// Inserting every pair of `pairs`, in order.
pub open spec fn put_all(m: FlatModel, pairs: FlatModel) -> FlatModel
    decreases pairs.len(),
{
    if pairs.len() == 0 {
        m
    } else {
        assoc_put(put_all(m, pairs.drop_last()), pairs.last().0, pairs.last().1)
    }
}

/// The dotted path of member `key` below `prefix`; an empty prefix adds no dot.
pub open spec fn join_path(prefix: Seq<char>, key: Seq<char>) -> Seq<char> {
    if prefix.len() == 0 {
        key
    } else {
        prefix + seq!['.'] + key
    }
}

/// The leaves below the members `m` of an object at path `prefix`, in
/// iteration order: a member whose value is an object contributes the leaves
/// below it, any other member contributes itself.
pub open spec fn leaf_paths(m: FlatModel, prefix: Seq<char>) -> FlatModel
    decreases m,
{
    if m.len() == 0 {
        Seq::empty()
    } else {
        leaf_paths(m.drop_last(), prefix) + member_leaves(m.last(), prefix)
    }
}

/// The leaves that one member `e` of an object at path `prefix` contributes.
pub open spec fn member_leaves(e: (Seq<char>, Json), prefix: Seq<char>) -> FlatModel
    decreases e,
{
    match e.1 {
        Json::Object(inner) => leaf_paths(inner, join_path(prefix, e.0)),
        _ => seq![(join_path(prefix, e.0), e.1)],
    }
}

/// The flat map of a value: the leaves of an object keyed by their dotted
/// paths, later leaves replacing earlier ones with the same path; nothing for
/// any other value.
pub open spec fn flatten_spec(j: Json) -> FlatModel {
    match j {
        Json::Object(m) => put_all(Seq::empty(), leaf_paths(m, Seq::empty())),
        _ => Seq::empty(),
    }
}

/// The members of the object stored under `k` in `m`; empty when `k` is
/// missing or holds something else than an object.
pub open spec fn child_members(m: FlatModel, k: Seq<char>) -> FlatModel {
    let i = key_index(m, k);
    if i >= 0 {
        match m[i].1 {
            Json::Object(inner) => inner,
            _ => Seq::empty(),
        }
    } else {
        Seq::empty()
    }
}

/// Storing `v` at the dotted `path` in the members `m`: the path is split at
/// its first dot; the part before it names a member that becomes an object
/// (keeping its members when it already is one) into which the rest of the
/// path is stored.
pub open spec fn insert_path(m: FlatModel, path: Seq<char>, v: Json) -> FlatModel
    decreases path.len(),
{
    let d = dot_index(path);
    if d < 0 {
        assoc_put(m, path, v)
    } else {
        let head = path.take(d);
        let rest = path.skip(d + 1);
        proof {
            lemma_char_index(path, '.');
        }
        assoc_put(m, head, Json::Object(insert_path(child_members(m, head), rest, v)))
    }
}

/// Storing every pair of `flat`, in order, into the members `root`.
pub open spec fn insert_all(root: FlatModel, flat: FlatModel) -> FlatModel
    decreases flat.len(),
{
    if flat.len() == 0 {
        root
    } else {
        insert_path(insert_all(root, flat.drop_last()), flat.last().0, flat.last().1)
    }
}

/// The value that `nest` builds from a flat map.
pub open spec fn nest_spec(flat: FlatModel) -> Json {
    Json::Object(insert_all(Seq::empty(), flat))
}

// ---------------------------------------------------------------------------
// Basic facts
// ---------------------------------------------------------------------------

pub proof fn lemma_key_index(m: FlatModel, k: Seq<char>)
    ensures
        -1 <= key_index(m, k) < m.len(),
        key_index(m, k) >= 0 ==> m[key_index(m, k)].0 == k,
        forall|j: int|
            0 <= j < m.len() && (key_index(m, k) < 0 || j < key_index(m, k)) ==> m[j].0 != k,
    decreases m.len(),
{
    if m.len() > 0 {
        lemma_key_index(m.drop_first(), k);
        assert forall|j: int|
            0 <= j < m.len() && (key_index(m, k) < 0 || j < key_index(m, k)) implies m[j].0
                != k by {
            if j > 0 {
                assert(m[j] == m.drop_first()[j - 1]);
            }
        }
    }
}

pub proof fn lemma_put_all_concat(m: FlatModel, a: FlatModel, b: FlatModel)
    ensures
        put_all(m, a + b) == put_all(put_all(m, a), b),
    decreases b.len(),
{
    if b.len() == 0 {
        assert(a + b =~= a);
    } else {
        assert((a + b).drop_last() =~= a + b.drop_last());
        lemma_put_all_concat(m, a, b.drop_last());
    }
}

// ---------------------------------------------------------------------------
// Flat maps
// ---------------------------------------------------------------------------

/// A map from dotted paths to values, in insertion order; a later insertion
/// under a path replaces the earlier value, so no path occurs twice.
pub struct FlatMap {
    entries: Vec<(String, Value)>,
}

impl View for FlatMap {
    type V = FlatModel;

    closed spec fn view(&self) -> FlatModel {
        members_view(self.entries@)
    }
}

/// The position of the first member with key `key`.
fn members_find(m: &Vec<(String, Value)>, key: &String) -> (r: Option<usize>)
    ensures
        match r {
            Some(i) => i == key_index(members_view(m@), key@) && i < m@.len(),
            None => key_index(members_view(m@), key@) == -1,
        },
{
    let ghost mv = members_view(m@);
    proof {
        lemma_key_index(mv, key@);
    }
    let mut i: usize = 0;
    while i < m.len()
        invariant
            0 <= i <= m.len(),
            mv == members_view(m@),
            forall|j: int| 0 <= j < i ==> mv[j].0 != key@,
        decreases m.len() - i,
    {
        if m[i].0 == *key {
            assert(mv[i as int].0 == key@);
            proof {
                lemma_key_index(mv, key@);
                let ki = key_index(mv, key@);
                if ki >= 0 && ki < i {
                    assert(mv[ki].0 == key@);
                }
            }
            return Some(i);
        }
        i = i + 1;
    }
    None
}

/// Map insertion into a member list (see `assoc_put`).
fn members_put(m: &mut Vec<(String, Value)>, key: String, value: Value)
    ensures
        members_view(final(m)@) == assoc_put(members_view(old(m)@), key@, value@),
{
    let ghost k = key@;
    let ghost v = value@;
    match members_find(m, &key) {
        Some(i) => {
            m.remove(i);
            m.insert(i, (key, value));
            assert(members_view(m@) =~= members_view(old(m)@).update(i as int, (k, v)));
        },
        None => {
            m.push((key, value));
            assert(members_view(m@) =~= members_view(old(m)@).push((k, v)));
        },
    }
}

impl FlatMap {
    /// No path is stored twice.
    #[verifier::type_invariant]
    spec fn paths_distinct(self) -> bool {
        keys_distinct(members_view(self.entries@))
    }

    /// An empty map.
    pub fn new() -> (r: FlatMap)
        ensures
            r@ == Seq::<(Seq<char>, Json)>::empty(),
    {
        let r = FlatMap { entries: Vec::new() };
        assert(r@ =~= Seq::<(Seq<char>, Json)>::empty());
        r
    }

    /// Stores `value` under `key`, replacing the value stored there before.
    pub fn insert(&mut self, key: String, value: Value)
        ensures
            final(self)@ == assoc_put(old(self)@, key@, value@),
    {
        proof {
            use_type_invariant(&*self);
            lemma_put_distinct(self@, key@, value@);
        }
        let mut entries: Vec<(String, Value)> = Vec::new();
        std::mem::swap(&mut entries, &mut self.entries);
        members_put(&mut entries, key, value);
        self.entries = entries;
    }

    /// The value stored under `key`.
    pub fn get(&self, key: &str) -> (r: Option<&Value>)
        ensures
            match r {
                Some(v) => key_index(self@, key@) >= 0 && v@ == self@[key_index(self@, key@)].1,
                None => key_index(self@, key@) < 0,
            },
    {
        let k = key.to_owned();
        match members_find(&self.entries, &k) {
            Some(i) => Some(&self.entries[i].1),
            None => None,
        }
    }

    /// The number of paths stored.
    pub fn len(&self) -> (r: usize)
        ensures
            r == self@.len(),
    {
        self.entries.len()
    }

    /// Whether no path is stored.
    pub fn is_empty(&self) -> (r: bool)
        ensures
            r == (self@.len() == 0),
    {
        self.entries.len() == 0
    }

    /// The stored paths with their values, in insertion order; no path
    /// occurs twice.
    pub fn into_entries(self) -> (r: Vec<(String, Value)>)
        ensures
            members_view(r@) == self@,
            keys_distinct(members_view(r@)),
    {
        proof {
            use_type_invariant(&self);
        }
        self.entries
    }
}


// ---------------------------------------------------------------------------
// Flatten
// ---------------------------------------------------------------------------

/// `prefix` and `key` joined by a dot; just `key` when `prefix` is empty.
fn join_key(prefix: &String, key: String) -> (r: String)
    ensures
        r@ == join_path(prefix@, key@),
{
    if prefix.as_str().is_empty() {
        key
    } else {
        let mut path = prefix.clone();
        let dot = ".";
        proof {
            reveal_strlit(".");
        }
        path.append(dot);
        path.append(key.as_str());
        path
    }
}

/// Adds to `result` the leaves below the members `map` of an object found at
/// path `prefix`.
fn flatten_object(map: Vec<(String, Value)>, prefix: String, result: &mut FlatMap)
    ensures
        final(result)@ == put_all(old(result)@, leaf_paths(members_view(map@), prefix@)),
    decreases map,
{
    let ghost mv = members_view(map@);
    let ghost r0 = result@;
    let ghost m0 = map@;
    proof {
        assert(mv.take(0) =~= Seq::<(Seq<char>, Json)>::empty());
        assert(put_all(r0, Seq::empty()) == r0);
    }
    for entry in it: map
        invariant
            it.seq() == m0,
            mv == members_view(m0),
            m0 == map@,
            result@ == put_all(r0, leaf_paths(mv.take(it.index() as int), prefix@)),
    {
        let ghost idx = it.index();
        let ghost e = entry;
        assert(idx < m0.len());
        assert(e == m0[idx as int]);
        let (key, value) = entry;
        let path = join_key(&prefix, key);
        proof {
            assert(mv.take(idx + 1).drop_last() =~= mv.take(idx as int));
            assert(mv.take(idx + 1).last() == mv[idx as int]);
            assert(mv[idx as int] == (e.0@, e.1@));
            lemma_put_all_concat(
                r0,
                leaf_paths(mv.take(idx as int), prefix@),
                member_leaves(mv[idx as int], prefix@),
            );
        }
        match value {
            Value::Object(inner) => {
                proof {
                    lemma_object_view(inner);
                    assert(decreases_to!(map => map@));
                    assert(decreases_to!(map@ => map@[idx as int]));
                }
                flatten_object(inner, path, result);
                assert(result@ == put_all(r0, leaf_paths(mv.take(idx + 1), prefix@)));
            },
            leaf => {
                let ghost lv = leaf@;
                let ghost old_result = result@;
                let ghost path_view = path@;
                assert(!(lv is Object)) by {
                    assert(leaf !is Object);
                }
                result.insert(path, leaf);
                assert(member_leaves(mv[idx as int], prefix@) =~= seq![
                    (join_path(prefix@, e.0@), lv),
                ]);
                let ghost single = seq![(join_path(prefix@, e.0@), lv)];
                assert(single.drop_last() =~= Seq::<(Seq<char>, Json)>::empty());
                assert(put_all(old_result, single.drop_last()) == old_result);
                assert(single.last() == (path_view, lv));
                assert(put_all(old_result, single) == assoc_put(old_result, path_view, lv));
                assert(result@ == put_all(r0, leaf_paths(mv.take(idx + 1), prefix@)));
            },
        }
    }
    proof {
        assert(mv.take(m0.len() as int) =~= mv);
    }
}

/// The flat map of `value`: each leaf of an object under its dotted path.
/// Anything but an object gives the empty map.
pub fn flatten(value: Value) -> (r: FlatMap)
    ensures
        r@ == flatten_spec(value@),
        unique_keys(value@) ==> values_unique(r@),
{
    proof {
        if unique_keys(value@) {
            lemma_flatten_values_unique(value@);
        }
    }
    let mut result = FlatMap::new();
    match value {
        Value::Object(map) => {
            proof {
                lemma_object_view(map);
            }
            flatten_object(map, String::new(), &mut result);
        },
        _ => {},
    }
    result
}


// ---------------------------------------------------------------------------
// Nest
// ---------------------------------------------------------------------------

/// Stores `value` at the dotted `path` inside the members `map` (see
/// `insert_path`).
fn insert_nested(map: &mut Vec<(String, Value)>, path: &str, value: Value)
    ensures
        members_view(final(map)@) == insert_path(members_view(old(map)@), path@, value@),
    decreases path@.len(),
{
    let ghost m0 = members_view(map@);
    let ghost v = value@;
    match find_char(path, '.') {
        None => {
            members_put(map, path.to_owned(), value);
        },
        Some(d) => {
            let n = path.unicode_len();
            let head = path.substring_char(0, d).to_owned();
            let rest = path.substring_char(d + 1, n);
            assert(head@ == path@.take(d as int));
            assert(rest@ == path@.skip(d + 1));
            match members_find(map, &head) {
                Some(i) => {
                    proof {
                        lemma_key_index(m0, head@);
                    }
                    let (k, old) = map.remove(i);
                    assert(k@ == head@);
                    let mut inner = match old {
                        Value::Object(e) => e,
                        _ => Vec::new(),
                    };
                    proof {
                        lemma_object_view(inner);
                        assert(members_view(inner@) == child_members(m0, head@)) by {
                            if old is Object {
                                lemma_object_view(old->Object_0);
                            } else {
                                assert(members_view(inner@) =~= Seq::<(Seq<char>, Json)>::empty());
                            }
                        }
                    }
                    insert_nested(&mut inner, rest, value);
                    let ghost iv = Value::Object(inner)@;
                    proof {
                        lemma_object_view(inner);
                    }
                    map.insert(i, (k, Value::Object(inner)));
                    assert(members_view(map@) =~= m0.update(i as int, (head@, iv)));
                },
                None => {
                    let mut inner: Vec<(String, Value)> = Vec::new();
                    assert(members_view(inner@) =~= Seq::<(Seq<char>, Json)>::empty());
                    insert_nested(&mut inner, rest, value);
                    let ghost iv = Value::Object(inner)@;
                    proof {
                        lemma_object_view(inner);
                    }
                    let ghost hv = head@;
                    map.push((head, Value::Object(inner)));
                    assert(members_view(map@) =~= m0.push((hv, iv)));
                },
            }
        },
    }
}

/// The object built from a flat map: each value stored at its dotted path,
/// in the map's order.
pub fn nest(flat: FlatMap) -> (r: Value)
    ensures
        r@ == nest_spec(flat@),
        values_unique(flat@) ==> unique_keys(r@),
{
    let ghost fv = flat@;
    let entries = flat.into_entries();
    let ghost f0 = entries@;
    let mut root: Vec<(String, Value)> = Vec::new();
    proof {
        assert(members_view(root@) =~= Seq::<(Seq<char>, Json)>::empty());
        assert(fv.take(0) =~= Seq::<(Seq<char>, Json)>::empty());
    }
    for entry in it: entries
        invariant
            it.seq() == f0,
            fv == members_view(f0),
            members_view(root@) == insert_all(Seq::empty(), fv.take(it.index() as int)),
    {
        let ghost idx = it.index();
        let ghost e = entry;
        assert(idx < f0.len());
        assert(e == f0[idx as int]);
        let (path, value) = entry;
        insert_nested(&mut root, path.as_str(), value);
        proof {
            assert(fv.take(idx + 1).drop_last() =~= fv.take(idx as int));
            assert(fv.take(idx + 1).last() == fv[idx as int]);
        }
    }
    proof {
        assert(fv.take(f0.len() as int) =~= fv);
        lemma_object_view(root);
        if values_unique(fv) {
            lemma_nest_unique(fv);
        }
    }
    Value::Object(root)
}

} // verus!
