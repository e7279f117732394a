//! What holds of flattening, nesting and merging as a whole.

use vstd::prelude::*;
use crate::nesting::{
    assoc_put, child_members, dot_index, flatten_spec, insert_all, insert_path, join_path,
    key_index, leaf_paths, lemma_key_index, member_leaves, nest_spec, put_all, FlatModel,
};
use crate::text::{char_index, lemma_char_index};
use crate::value::{unique_keys, Json};

verus! {

// ---------------------------------------------------------------------------
// Plain objects
// ---------------------------------------------------------------------------

/// Whether `k` can stand as one step of a dotted path: not empty, no dot.
pub open spec fn is_segment(k: Seq<char>) -> bool {
    k.len() > 0 && dot_index(k) < 0
}

/// Whether no two members of `m` share a key.
pub open spec fn keys_distinct(m: FlatModel) -> bool {
    forall|i: int, j: int| 0 <= i < j < m.len() ==> m[i].0 != m[j].0
}

/// An object such as a configuration struct serializes to: its keys are
/// distinct segments, and each member holding an object holds a non-empty,
/// plain one.
pub open spec fn plain(m: FlatModel) -> bool
    decreases m,
{
    if m.len() == 0 {
        true
    } else {
        plain(m.drop_last()) && key_index(m.drop_last(), m.last().0) < 0 && plain_member(m.last())
    }
}

/// A member of a plain object.
pub open spec fn plain_member(e: (Seq<char>, Json)) -> bool
    decreases e,
{
    is_segment(e.0) && match e.1 {
        Json::Object(inner) => inner.len() > 0 && plain(inner),
        _ => true,
    }
}

/// The first step of a dotted path.
pub open spec fn path_head(p: Seq<char>) -> Seq<char> {
    if dot_index(p) < 0 {
        p
    } else {
        p.take(dot_index(p))
    }
}

/// `pairs` with every path put below `q`.
pub open spec fn prefixed(q: Seq<char>, pairs: FlatModel) -> FlatModel {
    Seq::new(pairs.len(), |i: int| (q + seq!['.'] + pairs[i].0, pairs[i].1))
}

// ---------------------------------------------------------------------------
// Lemmas on indices
// ---------------------------------------------------------------------------

proof fn lemma_char_index_at(p: Seq<char>, c: char, j: int)
    requires
        0 <= j < p.len(),
        p[j] == c,
        forall|i: int| 0 <= i < j ==> p[i] != c,
    ensures
        char_index(p, c) == j,
{
    lemma_char_index(p, c);
    let ci = char_index(p, c);
    if ci < 0 {
        assert(p[j] != c);
    } else if ci < j {
        assert(p[ci] == c);
    } else if ci > j {
        assert(p[j] != c);
    }
}

/// A segment followed by a dot: the dot is the first one.
proof fn lemma_segment_then_dot(k: Seq<char>, s: Seq<char>)
    requires
        is_segment(k),
    ensures
        dot_index(k + seq!['.'] + s) == k.len(),
        (k + seq!['.'] + s).take(k.len() as int) == k,
        (k + seq!['.'] + s).skip(k.len() as int + 1) == s,
        path_head(k + seq!['.'] + s) == k,
{
    let p = k + seq!['.'] + s;
    lemma_char_index(k, '.');
    assert forall|i: int| 0 <= i < k.len() implies p[i] != '.' by {
        assert(p[i] == k[i]);
    }
    assert(p[k.len() as int] == '.');
    lemma_char_index_at(p, '.', k.len() as int);
    assert(p.take(k.len() as int) =~= k);
    assert(p.skip(k.len() as int + 1) =~= s);
}

proof fn lemma_key_index_at(m: FlatModel, k: Seq<char>, j: int)
    requires
        0 <= j < m.len(),
        m[j].0 == k,
        forall|i: int| 0 <= i < j ==> m[i].0 != k,
    ensures
        key_index(m, k) == j,
{
    lemma_key_index(m, k);
    let ki = key_index(m, k);
    if ki < 0 {
        assert(m[j].0 != k);
    } else if ki < j {
        assert(m[ki].0 == k);
    } else if ki > j {
        assert(m[j].0 != k);
    }
}

proof fn lemma_key_absent(m: FlatModel, k: Seq<char>)
    requires
        forall|i: int| 0 <= i < m.len() ==> m[i].0 != k,
    ensures
        key_index(m, k) == -1,
{
    lemma_key_index(m, k);
    if key_index(m, k) >= 0 {
        assert(m[key_index(m, k)].0 == k);
    }
}

/// Appending a member with a new key.
proof fn lemma_put_new(m: FlatModel, k: Seq<char>, v: Json)
    requires
        key_index(m, k) < 0,
    ensures
        assoc_put(m, k, v) == m.push((k, v)),
        key_index(m.push((k, v)), k) == m.len(),
{
    lemma_key_index(m, k);
    lemma_key_index_at(m.push((k, v)), k, m.len() as int);
}

/// Keys of a prefix keep their index.
proof fn lemma_key_index_push(m: FlatModel, e: (Seq<char>, Json), k: Seq<char>)
    requires
        key_index(m, k) >= 0,
    ensures
        key_index(m.push(e), k) == key_index(m, k),
{
    lemma_key_index(m, k);
    lemma_key_index_at(m.push(e), k, key_index(m, k));
}

// ---------------------------------------------------------------------------
// Inserting distinct keys
// ---------------------------------------------------------------------------

pub proof fn lemma_put_all_fresh(m: FlatModel, pairs: FlatModel)
    requires
        keys_distinct(m + pairs),
    ensures
        put_all(m, pairs) == m + pairs,
    decreases pairs.len(),
{
    if pairs.len() == 0 {
        assert(m + pairs =~= m);
    } else {
        let p2 = pairs.drop_last();
        assert(m + p2 =~= (m + pairs).drop_last());
        lemma_put_all_fresh(m, p2);
        let k = pairs.last().0;
        assert forall|i: int| 0 <= i < (m + p2).len() implies (m + p2)[i].0 != k by {
            assert((m + p2)[i] == (m + pairs)[i]);
            assert((m + pairs)[(m + pairs).len() - 1] == pairs.last());
        }
        lemma_key_absent(m + p2, k);
        lemma_put_new(m + p2, k, pairs.last().1);
        assert((m + p2).push(pairs.last()) =~= m + pairs);
    }
}


// ---------------------------------------------------------------------------
// Leaves of plain objects
// ---------------------------------------------------------------------------

proof fn lemma_prefixed_concat(q: Seq<char>, a: FlatModel, b: FlatModel)
    ensures
        prefixed(q, a + b) == prefixed(q, a) + prefixed(q, b),
{
    assert(prefixed(q, a + b) =~= prefixed(q, a) + prefixed(q, b));
}

proof fn lemma_prefixed_twice(q: Seq<char>, k: Seq<char>, x: FlatModel)
    ensures
        prefixed(q, prefixed(k, x)) == prefixed(q + seq!['.'] + k, x),
{
    assert forall|i: int| 0 <= i < x.len() implies prefixed(q, prefixed(k, x))[i] == prefixed(
        q + seq!['.'] + k,
        x,
    )[i] by {
        assert(q + seq!['.'] + (k + seq!['.'] + x[i].0) =~= (q + seq!['.'] + k) + seq!['.']
            + x[i].0);
    }
    assert(prefixed(q, prefixed(k, x)) =~= prefixed(q + seq!['.'] + k, x));
}

/// Below a non-empty prefix, the leaves of a plain object are its top-level
/// leaves with the prefix and a dot in front.
pub proof fn lemma_leaf_paths_prefixed(m: FlatModel, q: Seq<char>)
    requires
        plain(m),
        q.len() > 0,
    ensures
        leaf_paths(m, q) == prefixed(q, leaf_paths(m, Seq::empty())),
    decreases m,
{
    if m.len() == 0 {
        assert(prefixed(q, Seq::<(Seq<char>, Json)>::empty()) =~= Seq::<(Seq<char>, Json)>::empty());
    } else {
        lemma_leaf_paths_prefixed(m.drop_last(), q);
        lemma_member_leaves_prefixed(m.last(), q);
        lemma_prefixed_concat(
            q,
            leaf_paths(m.drop_last(), Seq::empty()),
            member_leaves(m.last(), Seq::empty()),
        );
    }
}

pub proof fn lemma_member_leaves_prefixed(e: (Seq<char>, Json), q: Seq<char>)
    requires
        plain_member(e),
        q.len() > 0,
    ensures
        member_leaves(e, q) == prefixed(q, member_leaves(e, Seq::empty())),
    decreases e,
{
    let k = e.0;
    assert(join_path(Seq::empty(), k) == k);
    match e.1 {
        Json::Object(inner) => {
            let qk = q + seq!['.'] + k;
            lemma_leaf_paths_prefixed(inner, qk);
            lemma_leaf_paths_prefixed(inner, k);
            lemma_prefixed_twice(q, k, leaf_paths(inner, Seq::empty()));
        },
        _ => {
            assert(member_leaves(e, q) =~= prefixed(q, member_leaves(e, Seq::empty())));
        },
    }
}

/// A non-empty plain object has leaves.
pub proof fn lemma_leaf_paths_nonempty(m: FlatModel, p: Seq<char>)
    requires
        plain(m),
        m.len() > 0,
    ensures
        leaf_paths(m, p).len() > 0,
    decreases m,
{
    assert(plain_member(m.last()));
    assert(leaf_paths(m, p) == leaf_paths(m.drop_last(), p) + member_leaves(m.last(), p));
    match m.last().1 {
        Json::Object(inner) => {
            lemma_leaf_paths_nonempty(inner, join_path(p, m.last().0));
        },
        _ => {},
    }
}

// ---------------------------------------------------------------------------
// Nesting the leaves again
// ---------------------------------------------------------------------------

pub proof fn lemma_insert_all_concat(root: FlatModel, a: FlatModel, b: FlatModel)
    ensures
        insert_all(root, a + b) == insert_all(insert_all(root, a), b),
    decreases b.len(),
{
    if b.len() == 0 {
        assert(a + b =~= a);
    } else {
        assert((a + b).drop_last() =~= a + b.drop_last());
        lemma_insert_all_concat(root, a, b.drop_last());
    }
}

/// Storing paths that all lie below a new segment `k` appends one member `k`
/// holding the object those paths build.
proof fn lemma_insert_below_new_key(root: FlatModel, k: Seq<char>, x: FlatModel)
    requires
        is_segment(k),
        key_index(root, k) < 0,
        x.len() > 0,
    ensures
        insert_all(root, prefixed(k, x)) == root.push(
            (k, Json::Object(insert_all(Seq::empty(), x))),
        ),
    decreases x.len(),
{
    let px = prefixed(k, x);
    let last = x.last();
    lemma_segment_then_dot(k, last.0);
    let path = k + seq!['.'] + last.0;
    assert(px.last() == (path, last.1));
    assert(px.drop_last() =~= prefixed(k, x.drop_last()));
    if x.len() == 1 {
        assert(x.drop_last() =~= Seq::<(Seq<char>, Json)>::empty());
        assert(px.drop_last() =~= Seq::<(Seq<char>, Json)>::empty());
        assert(insert_all(root, px.drop_last()) == root);
        assert(insert_all(Seq::empty(), x.drop_last()) == Seq::<(Seq<char>, Json)>::empty());
        assert(insert_all(root, px) == insert_path(root, path, last.1));
        assert(child_members(root, k) == Seq::<(Seq<char>, Json)>::empty());
        lemma_put_new(
            root,
            k,
            Json::Object(insert_path(Seq::empty(), last.0, last.1)),
        );
    } else {
        lemma_insert_below_new_key(root, k, x.drop_last());
        let f = insert_all(Seq::empty(), x.drop_last());
        let r1 = root.push((k, Json::Object(f)));
        assert(insert_all(root, px) == insert_path(r1, path, last.1));
        lemma_put_new(root, k, Json::Object(f));
        assert(key_index(r1, k) == root.len());
        assert(child_members(r1, k) == f);
        let obj = Json::Object(insert_path(f, last.0, last.1));
        assert(assoc_put(r1, k, obj) == r1.update(root.len() as int, (k, obj)));
        assert(r1.update(root.len() as int, (k, obj)) =~= root.push((k, obj)));
    }
}

/// Nesting the leaves of a plain object gives the object back.
pub proof fn lemma_nest_leaf_paths(m: FlatModel)
    requires
        plain(m),
    ensures
        insert_all(Seq::empty(), leaf_paths(m, Seq::empty())) == m,
    decreases m,
{
    if m.len() == 0 {
        assert(m =~= Seq::<(Seq<char>, Json)>::empty());
    } else {
        let m1 = m.drop_last();
        let e = m.last();
        let k = e.0;
        assert(plain_member(e));
        assert(is_segment(k));
        lemma_nest_leaf_paths(m1);
        lemma_insert_all_concat(
            Seq::empty(),
            leaf_paths(m1, Seq::empty()),
            member_leaves(e, Seq::empty()),
        );
        assert(m1.push(e) =~= m);
        assert(join_path(Seq::empty(), k) == k);
        match e.1 {
            Json::Object(inner) => {
                lemma_leaf_paths_prefixed(inner, k);
                lemma_leaf_paths_nonempty(inner, Seq::empty());
                lemma_insert_below_new_key(m1, k, leaf_paths(inner, Seq::empty()));
                lemma_nest_leaf_paths(inner);
            },
            _ => {
                let single = member_leaves(e, Seq::empty());
                assert(single =~= seq![(k, e.1)]);
                assert(single.drop_last() =~= Seq::<(Seq<char>, Json)>::empty());
                assert(insert_all(m1, single.drop_last()) == m1);
                assert(single.last() == (k, e.1));
                assert(insert_all(m1, single) == insert_path(m1, k, e.1));
                lemma_put_new(m1, k, e.1);
            },
        }
    }
}


// ---------------------------------------------------------------------------
// Distinct leaf paths
// ---------------------------------------------------------------------------

proof fn lemma_member_leaves_heads(e: (Seq<char>, Json))
    requires
        plain_member(e),
    ensures
        forall|i: int|
            0 <= i < member_leaves(e, Seq::empty()).len() ==> path_head(
                #[trigger] member_leaves(e, Seq::empty())[i].0,
            ) == e.0,
{
    let k = e.0;
    assert(join_path(Seq::empty(), k) == k);
    match e.1 {
        Json::Object(inner) => {
            lemma_leaf_paths_prefixed(inner, k);
            let x = leaf_paths(inner, Seq::empty());
            assert forall|i: int| 0 <= i < member_leaves(e, Seq::empty()).len() implies path_head(
                #[trigger] member_leaves(e, Seq::empty())[i].0,
            ) == k by {
                lemma_segment_then_dot(k, x[i].0);
            }
        },
        _ => {},
    }
}

proof fn lemma_leaf_paths_heads(m: FlatModel)
    requires
        plain(m),
    ensures
        forall|i: int|
            0 <= i < leaf_paths(m, Seq::empty()).len() ==> key_index(
                m,
                path_head(#[trigger] leaf_paths(m, Seq::empty())[i].0),
            ) >= 0,
    decreases m,
{
    if m.len() > 0 {
        let m1 = m.drop_last();
        let e = m.last();
        let a = leaf_paths(m1, Seq::empty());
        let b = member_leaves(e, Seq::empty());
        lemma_leaf_paths_heads(m1);
        lemma_member_leaves_heads(e);
        assert(m1.push(e) =~= m);
        assert forall|i: int| 0 <= i < leaf_paths(m, Seq::empty()).len() implies key_index(
            m,
            path_head(#[trigger] leaf_paths(m, Seq::empty())[i].0),
        ) >= 0 by {
            if i < a.len() {
                assert(leaf_paths(m, Seq::empty())[i] == a[i]);
                lemma_key_index_push(m1, e, path_head(a[i].0));
            } else {
                assert(leaf_paths(m, Seq::empty())[i] == b[i - a.len()]);
                lemma_key_index(m, e.0);
                if key_index(m, e.0) < 0 {
                    assert(m[m.len() - 1].0 == e.0);
                }
            }
        }
    }
}

/// The leaf paths of a plain object are distinct.
pub proof fn lemma_leaf_paths_distinct(m: FlatModel)
    requires
        plain(m),
    ensures
        keys_distinct(leaf_paths(m, Seq::empty())),
    decreases m,
{
    if m.len() > 0 {
        let m1 = m.drop_last();
        let e = m.last();
        let k = e.0;
        assert(plain_member(e));
        let a = leaf_paths(m1, Seq::empty());
        let b = member_leaves(e, Seq::empty());
        lemma_leaf_paths_distinct(m1);
        lemma_leaf_paths_heads(m1);
        lemma_member_leaves_heads(e);
        lemma_key_index(m1, k);
        assert(join_path(Seq::empty(), k) == k);
        let all = leaf_paths(m, Seq::empty());
        assert(all == a + b);
        match e.1 {
            Json::Object(inner) => {
                lemma_leaf_paths_distinct(inner);
                lemma_leaf_paths_prefixed(inner, k);
                let x = leaf_paths(inner, Seq::empty());
                assert forall|i: int, j: int| 0 <= i < j < b.len() implies b[i].0 != b[j].0 by {
                    if b[i].0 == b[j].0 {
                        lemma_segment_then_dot(k, x[i].0);
                        lemma_segment_then_dot(k, x[j].0);
                        assert(x[i].0 != x[j].0);
                    }
                }
            },
            _ => {},
        }
        assert forall|i: int, j: int| 0 <= i < j < all.len() implies all[i].0 != all[j].0 by {
            if j < a.len() {
                assert(all[i] == a[i] && all[j] == a[j]);
            } else if i >= a.len() {
                assert(all[i] == b[i - a.len()] && all[j] == b[j - a.len()]);
            } else {
                assert(all[i] == a[i] && all[j] == b[j - a.len()]);
                assert(path_head(b[j - a.len()].0) == k);
                assert(key_index(m1, path_head(a[i].0)) >= 0);
            }
        }
    }
}

/// The flat map of a plain object is the list of its leaves.
pub proof fn lemma_flatten_plain(m: FlatModel)
    requires
        plain(m),
    ensures
        flatten_spec(Json::Object(m)) == leaf_paths(m, Seq::empty()),
{
    let lp = leaf_paths(m, Seq::empty());
    lemma_leaf_paths_distinct(m);
    assert(Seq::<(Seq<char>, Json)>::empty() + lp =~= lp);
    lemma_put_all_fresh(Seq::empty(), lp);
}

/// Flattening a plain object and nesting the flat map again gives the object
/// back.
pub proof fn law_nest_flatten_roundtrip(m: FlatModel)
    requires
        plain(m),
    ensures
        nest_spec(flatten_spec(Json::Object(m))) == Json::Object(m),
{
    lemma_flatten_plain(m);
    lemma_nest_leaf_paths(m);
}


// ---------------------------------------------------------------------------
// Reading values at dotted paths
// ---------------------------------------------------------------------------

/// The value of the first member of `m` with key `k`.
pub open spec fn lookup(m: FlatModel, k: Seq<char>) -> Option<Json> {
    let i = key_index(m, k);
    if i >= 0 {
        Some(m[i].1)
    } else {
        None
    }
}

/// The value found at the dotted `path` in the members `m`, following the
/// path's steps as `insert_path` does; `None` when a step is missing or
/// holds something else than an object.
pub open spec fn get_path(m: FlatModel, path: Seq<char>) -> Option<Json>
    decreases path.len(),
{
    let d = dot_index(path);
    if d < 0 {
        lookup(m, path)
    } else {
        let rest = path.skip(d + 1);
        proof {
            lemma_char_index(path, '.');
        }
        match lookup(m, path.take(d)) {
            Some(Json::Object(inner)) => get_path(inner, rest),
            _ => None,
        }
    }
}

/// The value found at the dotted `path` in `j`.
pub open spec fn value_at(j: Json, path: Seq<char>) -> Option<Json> {
    match j {
        Json::Object(m) => get_path(m, path),
        _ => None,
    }
}

/// Whether storing at `q` leaves what is found at `p` alone: the two paths
/// part at some step, neither being the other or lying below it.
pub open spec fn independent(p: Seq<char>, q: Seq<char>) -> bool
    decreases p.len(),
{
    let dp = dot_index(p);
    let dq = dot_index(q);
    if path_head(p) != path_head(q) {
        true
    } else if dp >= 0 && dq >= 0 {
        proof {
            lemma_char_index(p, '.');
        }
        independent(p.skip(dp + 1), q.skip(dq + 1))
    } else {
        false
    }
}

pub proof fn lemma_lookup_put_same(m: FlatModel, k: Seq<char>, v: Json)
    ensures
        lookup(assoc_put(m, k, v), k) == Some(v),
{
    lemma_key_index(m, k);
    let i = key_index(m, k);
    if i >= 0 {
        let m2 = m.update(i, (k, v));
        lemma_key_index_at(m2, k, i);
    } else {
        lemma_put_new(m, k, v);
    }
}

proof fn lemma_lookup_put_other(m: FlatModel, k: Seq<char>, v: Json, k2: Seq<char>)
    requires
        k2 != k,
    ensures
        lookup(assoc_put(m, k, v), k2) == lookup(m, k2),
{
    lemma_key_index(m, k);
    lemma_key_index(m, k2);
    let i = key_index(m, k);
    let j = key_index(m, k2);
    if i >= 0 {
        let m2 = m.update(i, (k, v));
        if j >= 0 {
            lemma_key_index_at(m2, k2, j);
        } else {
            lemma_key_absent(m2, k2);
        }
    } else {
        if j >= 0 {
            lemma_key_index_push(m, (k, v), k2);
        } else {
            lemma_key_absent(m.push((k, v)), k2);
        }
    }
}

proof fn lemma_get_path_empty(p: Seq<char>)
    ensures
        get_path(Seq::empty(), p) is None,
{
    assert(key_index(Seq::<(Seq<char>, Json)>::empty(), p) == -1);
    let d = dot_index(p);
    if d >= 0 {
        assert(key_index(Seq::<(Seq<char>, Json)>::empty(), p.take(d)) == -1);
    }
}

/// What is stored at a path is found there.
pub proof fn lemma_get_path_insert_same(m: FlatModel, p: Seq<char>, v: Json)
    ensures
        get_path(insert_path(m, p, v), p) == Some(v),
    decreases p.len(),
{
    lemma_char_index(p, '.');
    let d = dot_index(p);
    if d < 0 {
        lemma_lookup_put_same(m, p, v);
    } else {
        let head = p.take(d);
        let rest = p.skip(d + 1);
        let inner = insert_path(child_members(m, head), rest, v);
        lemma_lookup_put_same(m, head, Json::Object(inner));
        lemma_get_path_insert_same(child_members(m, head), rest, v);
    }
}

/// Storing at `q` does not change what is found at an independent path `p`.
pub proof fn lemma_get_path_insert_other(m: FlatModel, p: Seq<char>, q: Seq<char>, w: Json)
    requires
        independent(p, q),
    ensures
        get_path(insert_path(m, q, w), p) == get_path(m, p),
    decreases p.len(),
{
    lemma_char_index(p, '.');
    lemma_char_index(q, '.');
    let dp = dot_index(p);
    let dq = dot_index(q);
    let hp = path_head(p);
    let hq = path_head(q);
    if dq < 0 {
        assert(hp != hq);
        lemma_lookup_put_other(m, q, w, hp);
    } else {
        let rq = q.skip(dq + 1);
        let c = child_members(m, hq);
        let obj = Json::Object(insert_path(c, rq, w));
        assert(insert_path(m, q, w) == assoc_put(m, hq, obj));
        if hp != hq {
            lemma_lookup_put_other(m, hq, obj, hp);
        } else {
            let rp = p.skip(dp + 1);
            lemma_lookup_put_same(m, hq, obj);
            lemma_get_path_insert_other(c, rp, rq, w);
            match lookup(m, hp) {
                Some(Json::Object(inner)) => {
                    assert(c == inner);
                },
                _ => {
                    assert(c == Seq::<(Seq<char>, Json)>::empty());
                    lemma_get_path_empty(rp);
                },
            }
        }
    }
}

/// After nesting a flat map whose paths are pairwise independent, each value
/// is found at its path.
pub proof fn lemma_nest_get_path(flat: FlatModel)
    requires
        forall|i: int, j: int|
            0 <= i < flat.len() && 0 <= j < flat.len() && i != j ==> independent(
                flat[i].0,
                flat[j].0,
            ),
    ensures
        forall|i: int|
            0 <= i < flat.len() ==> get_path(insert_all(Seq::empty(), flat), #[trigger] flat[i].0)
                == Some(flat[i].1),
    decreases flat.len(),
{
    if flat.len() > 0 {
        let f1 = flat.drop_last();
        let last = flat.last();
        let r1 = insert_all(Seq::empty(), f1);
        assert forall|i: int, j: int|
            0 <= i < f1.len() && 0 <= j < f1.len() && i != j implies independent(
            f1[i].0,
            f1[j].0,
        ) by {
            assert(f1[i] == flat[i] && f1[j] == flat[j]);
        }
        lemma_nest_get_path(f1);
        assert forall|i: int| 0 <= i < flat.len() implies get_path(
            insert_all(Seq::empty(), flat),
            #[trigger] flat[i].0,
        ) == Some(flat[i].1) by {
            if i == flat.len() - 1 {
                lemma_get_path_insert_same(r1, last.0, last.1);
            } else {
                assert(flat[i] == f1[i]);
                assert(independent(flat[i].0, flat[flat.len() - 1].0));
                lemma_get_path_insert_other(r1, flat[i].0, last.0, last.1);
            }
        }
    }
}


// ---------------------------------------------------------------------------
// Leaf paths are independent
// ---------------------------------------------------------------------------

/// The leaf paths of a plain object are pairwise independent.
pub proof fn lemma_leaf_paths_independent(m: FlatModel)
    requires
        plain(m),
    ensures
        forall|i: int, j: int|
            0 <= i < leaf_paths(m, Seq::empty()).len() && 0 <= j < leaf_paths(
                m,
                Seq::empty(),
            ).len() && i != j ==> independent(
                #[trigger] leaf_paths(m, Seq::empty())[i].0,
                #[trigger] leaf_paths(m, Seq::empty())[j].0,
            ),
    decreases m,
{
    if m.len() > 0 {
        let m1 = m.drop_last();
        let e = m.last();
        let k = e.0;
        assert(plain_member(e));
        let a = leaf_paths(m1, Seq::empty());
        let b = member_leaves(e, Seq::empty());
        let all = leaf_paths(m, Seq::empty());
        assert(all == a + b);
        lemma_leaf_paths_independent(m1);
        lemma_leaf_paths_heads(m1);
        lemma_member_leaves_heads(e);
        lemma_key_index(m1, k);
        assert(join_path(Seq::empty(), k) == k);
        match e.1 {
            Json::Object(inner) => {
                lemma_leaf_paths_independent(inner);
                lemma_leaf_paths_prefixed(inner, k);
                let x = leaf_paths(inner, Seq::empty());
                assert forall|i: int, j: int|
                    0 <= i < b.len() && 0 <= j < b.len() && i != j implies independent(
                    b[i].0,
                    b[j].0,
                ) by {
                    lemma_segment_then_dot(k, x[i].0);
                    lemma_segment_then_dot(k, x[j].0);
                    assert(independent(x[i].0, x[j].0));
                }
            },
            _ => {
                assert(b.len() == 1);
            },
        }
        assert forall|i: int, j: int|
            0 <= i < all.len() && 0 <= j < all.len() && i != j implies independent(
            #[trigger] all[i].0,
            #[trigger] all[j].0,
        ) by {
            if i < a.len() && j < a.len() {
                assert(all[i] == a[i] && all[j] == a[j]);
            } else if i >= a.len() && j >= a.len() {
                assert(all[i] == b[i - a.len()] && all[j] == b[j - a.len()]);
            } else if i < a.len() {
                assert(all[i] == a[i] && all[j] == b[j - a.len()]);
                assert(path_head(b[j - a.len()].0) == k);
                assert(key_index(m1, path_head(a[i].0)) >= 0);
            } else {
                assert(all[j] == a[j] && all[i] == b[i - a.len()]);
                assert(path_head(b[i - a.len()].0) == k);
                assert(key_index(m1, path_head(a[j].0)) >= 0);
            }
        }
    }
}

// ---------------------------------------------------------------------------
// Overriding known paths
// ---------------------------------------------------------------------------

/// Inserting into a map with distinct keys keeps them distinct.
pub proof fn lemma_put_distinct(m: FlatModel, k: Seq<char>, v: Json)
    requires
        keys_distinct(m),
    ensures
        keys_distinct(assoc_put(m, k, v)),
{
    lemma_key_index(m, k);
    if key_index(m, k) < 0 {
        lemma_put_new(m, k, v);
    }
}

proof fn lemma_put_all_distinct(m: FlatModel, pairs: FlatModel)
    requires
        keys_distinct(m),
    ensures
        keys_distinct(put_all(m, pairs)),
    decreases pairs.len(),
{
    if pairs.len() > 0 {
        lemma_put_all_distinct(m, pairs.drop_last());
        lemma_put_distinct(put_all(m, pairs.drop_last()), pairs.last().0, pairs.last().1);
    }
}

/// Flat maps have distinct paths.
pub proof fn lemma_flatten_distinct(j: Json)
    ensures
        keys_distinct(flatten_spec(j)),
{
    if let Json::Object(m) = j {
        lemma_put_all_distinct(Seq::empty(), leaf_paths(m, Seq::empty()));
    }
}

/// The value that overriding `known` with `extra` leaves at the member `k`
/// whose old value is `old`.
pub open spec fn override_value(extra: FlatModel, k: Seq<char>, old: Json) -> Json {
    match lookup(extra, k) {
        Some(v) => v,
        None => old,
    }
}

proof fn lemma_put_all_known(known: FlatModel, extra: FlatModel)
    requires
        keys_distinct(known),
        keys_distinct(extra),
        crate::config::first_unknown(known, extra) is None,
    ensures
        crate::config::same_keys(put_all(known, extra), known),
        forall|i: int|
            0 <= i < known.len() ==> (#[trigger] put_all(known, extra)[i]).1 == override_value(
                extra,
                known[i].0,
                known[i].1,
            ),
    decreases extra.len(),
{
    if extra.len() == 0 {
        assert forall|i: int| 0 <= i < known.len() implies (#[trigger] put_all(
            known,
            extra,
        )[i]).1 == override_value(extra, known[i].0, known[i].1) by {
            assert(key_index(extra, known[i].0) == -1);
        }
    } else {
        let e1 = extra.drop_last();
        let last = extra.last();
        assert(keys_distinct(e1)) by {
            assert forall|i: int, j: int| 0 <= i < j < e1.len() implies e1[i].0 != e1[j].0 by {
                assert(e1[i] == extra[i] && e1[j] == extra[j]);
            }
        }
        lemma_put_all_known(known, e1);
        let p1 = put_all(known, e1);
        assert(key_index(known, last.0) >= 0);
        crate::config::lemma_same_keys_index(p1, known, last.0);
        lemma_key_index(known, last.0);
        let j = key_index(known, last.0);
        assert(put_all(known, extra) == p1.update(j, (last.0, last.1)));
        assert forall|i: int| 0 <= i < extra.len() - 1 implies e1[i].0 != last.0 by {
            assert(e1[i] == extra[i]);
        }
        lemma_key_absent(e1, last.0);
        lemma_key_index_at(extra, last.0, extra.len() - 1);
        assert forall|i: int| 0 <= i < known.len() implies (#[trigger] put_all(
            known,
            extra,
        )[i]).1 == override_value(extra, known[i].0, known[i].1) by {
            if i != j {
                assert(known[i].0 != last.0);
                lemma_key_index(e1, known[i].0);
                if key_index(e1, known[i].0) >= 0 {
                    assert(e1 == extra.drop_last());
                    lemma_key_index_push(e1, last, known[i].0);
                    assert(extra == e1.push(last));
                } else {
                    assert(extra == e1.push(last));
                    assert forall|t: int| 0 <= t < extra.len() implies extra[t].0 != known[i].0 by {
                        if t < e1.len() {
                            assert(extra[t] == e1[t]);
                        }
                    }
                    lemma_key_absent(extra, known[i].0);
                }
            }
        }
    }
}

// ---------------------------------------------------------------------------
// Laws of the merge
// ---------------------------------------------------------------------------

/// Merging an empty object into a plain configuration changes nothing.
pub proof fn law_update_empty_is_noop(base: FlatModel)
    requires
        plain(base),
    ensures
        crate::config::merge_spec(Json::Object(base), Json::Object(Seq::empty())) == Ok::<
            Json,
            Seq<char>,
        >(Json::Object(base)),
{
    law_nest_flatten_roundtrip(base);
    let extra = flatten_spec(Json::Object(Seq::empty()));
    assert(leaf_paths(Seq::empty(), Seq::empty()) == Seq::<(Seq<char>, Json)>::empty());
    assert(extra == Seq::<(Seq<char>, Json)>::empty());
}

/// After merging `incoming` into a plain configuration `base`, every leaf
/// path of `base` holds the value `incoming` gives it, and keeps its old
/// value where `incoming` gives none.
pub proof fn law_update_overrides_paths(base: FlatModel, incoming: Json)
    requires
        plain(base),
    ensures
        crate::config::merge_spec(Json::Object(base), incoming) matches Ok(r) ==> forall|i: int|
            0 <= i < flatten_spec(Json::Object(base)).len() ==> value_at(
                r,
                (#[trigger] flatten_spec(Json::Object(base))[i]).0,
            ) == Some(
                override_value(
                    flatten_spec(incoming),
                    flatten_spec(Json::Object(base))[i].0,
                    flatten_spec(Json::Object(base))[i].1,
                ),
            ),
{
    let known = flatten_spec(Json::Object(base));
    let extra = flatten_spec(incoming);
    if crate::config::first_unknown(known, extra) is None {
        lemma_flatten_plain(base);
        lemma_leaf_paths_distinct(base);
        lemma_leaf_paths_independent(base);
        lemma_flatten_distinct(incoming);
        lemma_put_all_known(known, extra);
        let merged = put_all(known, extra);
        assert forall|i: int, j: int|
            0 <= i < merged.len() && 0 <= j < merged.len() && i != j implies independent(
            merged[i].0,
            merged[j].0,
        ) by {
            assert(merged[i].0 == known[i].0 && merged[j].0 == known[j].0);
        }
        lemma_nest_get_path(merged);
        assert forall|i: int| 0 <= i < known.len() implies value_at(
            Json::Object(insert_all(Seq::empty(), merged)),
            (#[trigger] known[i]).0,
        ) == Some(override_value(extra, known[i].0, known[i].1)) by {
            assert(merged[i].0 == known[i].0);
        }
    }
}


// ---------------------------------------------------------------------------
// Nesting new values at the leaf paths of a plain object
// ---------------------------------------------------------------------------

/// Whether no value of `m` is an object.
pub open spec fn scalar_values(m: FlatModel) -> bool {
    forall|i: int| 0 <= i < m.len() ==> !(#[trigger] m[i].1 is Object)
}

/// Nesting a flat map that has the leaf paths of a plain object `b`, in the
/// same order, with values that are not objects, gives a plain object with
/// the top-level keys of `b` whose leaves are exactly that flat map.
pub proof fn lemma_nest_relabeled(b: FlatModel, flat: FlatModel)
    requires
        plain(b),
        crate::config::same_keys(flat, leaf_paths(b, Seq::empty())),
        scalar_values(flat),
    ensures
        plain(insert_all(Seq::empty(), flat)),
        crate::config::same_keys(insert_all(Seq::empty(), flat), b),
        leaf_paths(insert_all(Seq::empty(), flat), Seq::empty()) == flat,
    decreases b,
{
    if b.len() == 0 {
        assert(flat =~= Seq::<(Seq<char>, Json)>::empty());
        assert(leaf_paths(Seq::<(Seq<char>, Json)>::empty(), Seq::empty()) =~= flat);
    } else {
        let b1 = b.drop_last();
        let e = b.last();
        let k = e.0;
        assert(plain_member(e));
        let a = leaf_paths(b1, Seq::empty());
        let bl = member_leaves(e, Seq::empty());
        assert(leaf_paths(b, Seq::empty()) == a + bl);
        let fa = flat.take(a.len() as int);
        let fb = flat.skip(a.len() as int);
        assert(fa + fb =~= flat);
        assert(crate::config::same_keys(fa, a)) by {
            assert forall|i: int| 0 <= i < fa.len() implies fa[i].0 == a[i].0 by {
                assert(fa[i] == flat[i]);
                assert(leaf_paths(b, Seq::empty())[i] == a[i]);
            }
        }
        assert(scalar_values(fa)) by {
            assert forall|i: int| 0 <= i < fa.len() implies !(#[trigger] fa[i].1 is Object) by {
                assert(fa[i] == flat[i]);
            }
        }
        lemma_nest_relabeled(b1, fa);
        let t1 = insert_all(Seq::empty(), fa);
        lemma_insert_all_concat(Seq::empty(), fa, fb);
        lemma_key_index(b1, k);
        crate::config::lemma_same_keys_index(t1, b1, k);
        assert(join_path(Seq::empty(), k) == k);
        assert forall|i: int| 0 <= i < fb.len() implies fb[i].0 == bl[i].0 && !(fb[i].1 is Object) by {
            assert(fb[i] == flat[i + a.len()]);
            assert(leaf_paths(b, Seq::empty())[i + a.len()] == bl[i]);
        }
        let t = insert_all(Seq::empty(), flat);
        match e.1 {
            Json::Object(inner) => {
                lemma_leaf_paths_prefixed(inner, k);
                let x = leaf_paths(inner, Seq::empty());
                let fx = Seq::new(fb.len(), |i: int| (x[i].0, fb[i].1));
                assert(fb =~= prefixed(k, fx));
                assert(crate::config::same_keys(fx, x));
                assert(scalar_values(fx));
                lemma_nest_relabeled(inner, fx);
                let ti = insert_all(Seq::empty(), fx);
                lemma_leaf_paths_nonempty(inner, Seq::empty());
                lemma_insert_below_new_key(t1, k, fx);
                assert(t == t1.push((k, Json::Object(ti))));
                assert(t.drop_last() =~= t1);
                assert(ti.len() > 0) by {
                    assert(ti.len() == inner.len());
                }
                assert(plain_member(t.last()));
                assert(key_index(t.drop_last(), t.last().0) < 0);
                assert(plain(t));
                lemma_leaf_paths_prefixed(ti, k);
                assert(member_leaves(t.last(), Seq::empty()) == leaf_paths(ti, k));
                assert(leaf_paths(t, Seq::empty()) == fa + fb);
                assert(crate::config::same_keys(t, b)) by {
                    assert forall|i: int| 0 <= i < t.len() implies t[i].0 == b[i].0 by {
                        if i < t1.len() {
                            assert(t[i] == t1[i]);
                            assert(b[i] == b1[i]);
                        }
                    }
                }
            },
            _ => {
                assert(bl =~= seq![(k, e.1)]);
                assert(fb.len() == 1);
                let w = fb[0].1;
                assert(fb =~= seq![(k, w)]);
                assert(fb.drop_last() =~= Seq::<(Seq<char>, Json)>::empty());
                assert(insert_all(t1, fb.drop_last()) == t1);
                assert(insert_all(t1, fb) == insert_path(t1, k, w));
                lemma_put_new(t1, k, w);
                assert(t == t1.push((k, w)));
                assert(t.drop_last() =~= t1);
                assert(plain_member(t.last()));
                assert(key_index(t.drop_last(), t.last().0) < 0);
                assert(plain(t));
                assert(member_leaves(t.last(), Seq::empty()) =~= fb);
                assert(crate::config::same_keys(t, b)) by {
                    assert forall|i: int| 0 <= i < t.len() implies t[i].0 == b[i].0 by {
                        if i < t1.len() {
                            assert(t[i] == t1[i]);
                            assert(b[i] == b1[i]);
                        }
                    }
                }
            },
        }
    }
}


proof fn lemma_leaf_paths_scalar(m: FlatModel, p: Seq<char>)
    ensures
        scalar_values(leaf_paths(m, p)),
    decreases m,
{
    if m.len() > 0 {
        let a = leaf_paths(m.drop_last(), p);
        let b = member_leaves(m.last(), p);
        lemma_leaf_paths_scalar(m.drop_last(), p);
        match m.last().1 {
            Json::Object(inner) => {
                lemma_leaf_paths_scalar(inner, join_path(p, m.last().0));
            },
            _ => {},
        }
        assert forall|i: int| 0 <= i < (a + b).len() implies !(#[trigger] (a + b)[i].1 is Object) by {
            if i < a.len() {
                assert((a + b)[i] == a[i]);
            } else {
                assert((a + b)[i] == b[i - a.len()]);
            }
        }
    }
}

proof fn lemma_put_all_scalar(m: FlatModel, pairs: FlatModel)
    requires
        scalar_values(m),
        scalar_values(pairs),
    ensures
        scalar_values(put_all(m, pairs)),
    decreases pairs.len(),
{
    if pairs.len() > 0 {
        let p1 = pairs.drop_last();
        assert(scalar_values(p1)) by {
            assert forall|i: int| 0 <= i < p1.len() implies !(#[trigger] p1[i].1 is Object) by {
                assert(p1[i] == pairs[i]);
            }
        }
        lemma_put_all_scalar(m, p1);
        assert(!(pairs[pairs.len() - 1].1 is Object));
        lemma_key_index(put_all(m, p1), pairs.last().0);
    }
}

/// No value of a flat map is an object.
pub proof fn lemma_flatten_scalar(j: Json)
    ensures
        scalar_values(flatten_spec(j)),
{
    if let Json::Object(m) = j {
        lemma_leaf_paths_scalar(m, Seq::empty());
        lemma_put_all_scalar(Seq::empty(), leaf_paths(m, Seq::empty()));
    }
}

/// Two merges in a row into a plain configuration: every leaf path of
/// `base` holds the value `second` gives it, else the value `first` gives
/// it, else its old value; the later update wins.
pub proof fn law_layered_updates(base: FlatModel, first: Json, second: Json)
    requires
        plain(base),
    ensures
        crate::config::merge_spec(Json::Object(base), first) matches Ok(r1) ==> (
        crate::config::merge_spec(r1, second) matches Ok(r2) ==> forall|i: int|
            0 <= i < flatten_spec(Json::Object(base)).len() ==> value_at(
                r2,
                (#[trigger] flatten_spec(Json::Object(base))[i]).0,
            ) == Some(
                override_value(
                    flatten_spec(second),
                    flatten_spec(Json::Object(base))[i].0,
                    override_value(
                        flatten_spec(first),
                        flatten_spec(Json::Object(base))[i].0,
                        flatten_spec(Json::Object(base))[i].1,
                    ),
                ),
            )),
{
    let known = flatten_spec(Json::Object(base));
    let extra = flatten_spec(first);
    if crate::config::first_unknown(known, extra) is None {
        lemma_flatten_plain(base);
        lemma_leaf_paths_distinct(base);
        lemma_flatten_distinct(first);
        lemma_put_all_known(known, extra);
        lemma_flatten_scalar(Json::Object(base));
        lemma_flatten_scalar(first);
        lemma_put_all_scalar(known, extra);
        let merged = put_all(known, extra);
        lemma_nest_relabeled(base, merged);
        let t = insert_all(Seq::empty(), merged);
        lemma_flatten_plain(t);
        law_update_overrides_paths(t, second);
        let r1 = Json::Object(t);
        assert(crate::config::merge_spec(Json::Object(base), first) == Ok::<Json, Seq<char>>(r1));
        assert(flatten_spec(r1) == merged);
        assert forall|i: int| 0 <= i < known.len() implies merged[i].0 == known[i].0
            && merged[i].1 == override_value(extra, known[i].0, known[i].1) by {
            assert((#[trigger] put_all(known, extra)[i]).1 == override_value(
                extra,
                known[i].0,
                known[i].1,
            ));
        }
    }
}


/// Nesting a flat map whose paths are pairwise independent puts each value
/// at its dotted path.
pub proof fn law_nest_places_values(flat: FlatModel)
    requires
        forall|i: int, j: int|
            0 <= i < flat.len() && 0 <= j < flat.len() && i != j ==> independent(
                flat[i].0,
                flat[j].0,
            ),
    ensures
        forall|i: int|
            0 <= i < flat.len() ==> value_at(nest_spec(flat), #[trigger] flat[i].0) == Some(
                flat[i].1,
            ),
{
    lemma_nest_get_path(flat);
}

/// Each entry of the flat map of a plain object is the leaf found at its
/// dotted path in the object.
pub proof fn law_flatten_finds_leaves(m: FlatModel)
    requires
        plain(m),
    ensures
        forall|i: int|
            0 <= i < flatten_spec(Json::Object(m)).len() ==> value_at(
                Json::Object(m),
                (#[trigger] flatten_spec(Json::Object(m))[i]).0,
            ) == Some(flatten_spec(Json::Object(m))[i].1),
{
    lemma_flatten_plain(m);
    lemma_leaf_paths_independent(m);
    lemma_nest_get_path(leaf_paths(m, Seq::empty()));
    lemma_nest_leaf_paths(m);
}


// ---------------------------------------------------------------------------
// Flattening what was nested
// ---------------------------------------------------------------------------

/// Whether `p` is a dotted path whose steps are all non-empty.
pub open spec fn is_path(p: Seq<char>) -> bool
    decreases p.len(),
{
    let d = dot_index(p);
    if d < 0 {
        p.len() > 0
    } else {
        proof {
            lemma_char_index(p, '.');
        }
        d > 0 && is_path(p.skip(d + 1))
    }
}

/// A plain object is one with distinct keys and plain members.
proof fn lemma_plain_members(m: FlatModel)
    ensures
        plain(m) <==> (keys_distinct(m) && forall|i: int|
            0 <= i < m.len() ==> plain_member(#[trigger] m[i])),
    decreases m.len(),
{
    if m.len() > 0 {
        let m1 = m.drop_last();
        let e = m.last();
        lemma_plain_members(m1);
        lemma_key_index(m1, e.0);
        if keys_distinct(m) {
            assert forall|i: int, j: int| 0 <= i < j < m1.len() implies m1[i].0 != m1[j].0 by {
                assert(m1[i] == m[i] && m1[j] == m[j]);
            }
            if key_index(m1, e.0) >= 0 {
                assert(m[key_index(m1, e.0)] == m1[key_index(m1, e.0)]);
                assert(m[m.len() - 1] == e);
            }
        }
        if keys_distinct(m1) && key_index(m1, e.0) < 0 {
            assert forall|i: int, j: int| 0 <= i < j < m.len() implies m[i].0 != m[j].0 by {
                assert(m[i] == m1[i]);
                if j < m1.len() {
                    assert(m[j] == m1[j]);
                }
            }
        }
        assert((forall|i: int| 0 <= i < m.len() ==> plain_member(#[trigger] m[i])) <==> (
        (forall|i: int| 0 <= i < m1.len() ==> plain_member(#[trigger] m1[i])) && plain_member(e)))
            by {
            if forall|i: int| 0 <= i < m.len() ==> plain_member(#[trigger] m[i]) {
                assert forall|i: int| 0 <= i < m1.len() implies plain_member(#[trigger] m1[i]) by {
                    assert(m1[i] == m[i]);
                }
                assert(m[m.len() - 1] == e);
            }
            if (forall|i: int| 0 <= i < m1.len() ==> plain_member(#[trigger] m1[i]))
                && plain_member(e) {
                assert forall|i: int| 0 <= i < m.len() implies plain_member(#[trigger] m[i]) by {
                    if i < m1.len() {
                        assert(m1[i] == m[i]);
                    }
                }
            }
        }
    }
}

/// Putting a plain member into a plain object keeps it plain.
proof fn lemma_put_plain(m: FlatModel, k: Seq<char>, v: Json)
    requires
        plain(m),
        plain_member((k, v)),
    ensures
        plain(assoc_put(m, k, v)),
        assoc_put(m, k, v).len() > 0,
{
    lemma_plain_members(m);
    lemma_put_distinct(m, k, v);
    lemma_key_index(m, k);
    let r = assoc_put(m, k, v);
    assert forall|i: int| 0 <= i < r.len() implies plain_member(#[trigger] r[i]) by {
        if i < m.len() && r[i] != (k, v) {
            assert(r[i] == m[i]);
        }
    }
    lemma_plain_members(r);
}

/// Storing a value that is not an object at a dotted path keeps an object
/// plain.
proof fn lemma_insert_path_plain(m: FlatModel, p: Seq<char>, v: Json)
    requires
        plain(m),
        is_path(p),
        !(v is Object),
    ensures
        plain(insert_path(m, p, v)),
        insert_path(m, p, v).len() > 0,
    decreases p.len(),
{
    lemma_char_index(p, '.');
    let d = dot_index(p);
    if d < 0 {
        assert(is_segment(p));
        lemma_put_plain(m, p, v);
    } else {
        let head = p.take(d);
        let rest = p.skip(d + 1);
        assert(dot_index(head) < 0) by {
            lemma_char_index(head, '.');
            if dot_index(head) >= 0 {
                assert(head[dot_index(head)] == p[dot_index(head)]);
            }
        }
        let c = child_members(m, head);
        lemma_key_index(m, head);
        lemma_plain_members(m);
        assert(plain(c)) by {
            if key_index(m, head) >= 0 {
                assert(plain_member(m[key_index(m, head)]));
            }
        }
        lemma_insert_path_plain(c, rest, v);
        lemma_put_plain(m, head, Json::Object(insert_path(c, rest, v)));
    }
}

/// Nesting a flat map of dotted paths with values that are not objects
/// gives a plain object.
proof fn lemma_insert_all_plain(flat: FlatModel)
    requires
        forall|i: int| 0 <= i < flat.len() ==> is_path(#[trigger] flat[i].0),
        scalar_values(flat),
    ensures
        plain(insert_all(Seq::empty(), flat)),
    decreases flat.len(),
{
    if flat.len() > 0 {
        let f1 = flat.drop_last();
        assert forall|i: int| 0 <= i < f1.len() implies is_path(#[trigger] f1[i].0) by {
            assert(f1[i] == flat[i]);
        }
        assert forall|i: int| 0 <= i < f1.len() implies !(#[trigger] f1[i].1 is Object) by {
            assert(f1[i] == flat[i]);
        }
        lemma_insert_all_plain(f1);
        assert(flat[flat.len() - 1] == flat.last());
        lemma_insert_path_plain(insert_all(Seq::empty(), f1), flat.last().0, flat.last().1);
    }
}

/// Storing a value that is not an object at `q` leaves, at a different path
/// `p` that `q` is not independent of, nothing but an object or nothing.
proof fn lemma_get_path_insert_overlap(m: FlatModel, p: Seq<char>, q: Seq<char>, w: Json)
    requires
        !independent(p, q),
        p != q,
        !(w is Object),
    ensures
        get_path(insert_path(m, q, w), p) matches Some(x) ==> x is Object,
    decreases p.len(),
{
    lemma_char_index(p, '.');
    lemma_char_index(q, '.');
    let dp = dot_index(p);
    let dq = dot_index(q);
    let h = path_head(q);
    assert(path_head(p) == h);
    if dq < 0 {
        lemma_lookup_put_same(m, q, w);
        assert(insert_path(m, q, w) == assoc_put(m, q, w));
        if dp >= 0 {
            assert(p.take(dp) == q);
        }
    } else {
        let rq = q.skip(dq + 1);
        let c = child_members(m, h);
        let obj = Json::Object(insert_path(c, rq, w));
        assert(insert_path(m, q, w) == assoc_put(m, h, obj));
        lemma_lookup_put_same(m, h, obj);
        if dp >= 0 {
            let rp = p.skip(dp + 1);
            assert(p =~= p.take(dp) + seq!['.'] + rp);
            assert(q =~= q.take(dq) + seq!['.'] + rq);
            assert(!independent(rp, rq));
            lemma_get_path_insert_overlap(c, rp, rq, w);
        }
    }
}

/// A value that is not an object, found in what a flat map of such values
/// nests to, is one of the map's pairs.
proof fn lemma_get_path_nested(flat: FlatModel, p: Seq<char>, v: Json)
    requires
        scalar_values(flat),
        get_path(insert_all(Seq::empty(), flat), p) == Some(v),
        !(v is Object),
    ensures
        flat.contains((p, v)),
    decreases flat.len(),
{
    if flat.len() == 0 {
        lemma_get_path_empty(p);
    } else {
        let f1 = flat.drop_last();
        let q = flat.last().0;
        let w = flat.last().1;
        let r1 = insert_all(Seq::empty(), f1);
        assert(flat[flat.len() - 1] == flat.last());
        assert(!(w is Object));
        if p == q {
            lemma_get_path_insert_same(r1, q, w);
        } else if independent(p, q) {
            lemma_get_path_insert_other(r1, p, q, w);
            assert forall|i: int| 0 <= i < f1.len() implies !(#[trigger] f1[i].1 is Object) by {
                assert(f1[i] == flat[i]);
            }
            lemma_get_path_nested(f1, p, v);
            let i = choose|i: int| 0 <= i < f1.len() && f1[i] == (p, v);
            assert(flat[i] == f1[i]);
        } else {
            lemma_get_path_insert_overlap(r1, p, q, w);
        }
    }
}

/// A value that is not an object, found at a path of a plain object, is one
/// of its leaves.
proof fn lemma_get_path_leaf(t: FlatModel, p: Seq<char>, v: Json)
    requires
        plain(t),
        get_path(t, p) == Some(v),
        !(v is Object),
    ensures
        leaf_paths(t, Seq::empty()).contains((p, v)),
    decreases t,
{
    if t.len() == 0 {
        lemma_get_path_empty(p);
    } else {
        let t1 = t.drop_last();
        let e = t.last();
        let k = e.0;
        assert(t =~= t1.push(e));
        lemma_put_new(t1, k, e.1);
        lemma_char_index(p, '.');
        let d = dot_index(p);
        let h = path_head(p);
        let a = leaf_paths(t1, Seq::empty());
        let b = member_leaves(e, Seq::empty());
        assert(leaf_paths(t, Seq::empty()) == a + b);
        assert(join_path(Seq::empty(), k) == k);
        if h == k {
            assert(lookup(t, k) == Some(e.1));
            if d < 0 {
                assert(p == k);
                assert(b =~= seq![(k, e.1)]);
                assert((a + b)[a.len() as int] == (p, v));
            } else {
                let rest = p.skip(d + 1);
                match e.1 {
                    Json::Object(inner) => {
                        assert(plain_member(e));
                        assert(get_path(inner, rest) == Some(v));
                        lemma_get_path_leaf(inner, rest, v);
                        let x = leaf_paths(inner, Seq::empty());
                        let i = choose|i: int| 0 <= i < x.len() && x[i] == (rest, v);
                        lemma_leaf_paths_prefixed(inner, k);
                        assert(p =~= k + seq!['.'] + rest);
                        assert(b[i] == (p, v));
                        assert((a + b)[a.len() + i] == (p, v));
                    },
                    _ => {},
                }
            }
        } else {
            lemma_lookup_put_other(t1, k, e.1, h);
            assert(get_path(t1, p) == Some(v));
            lemma_get_path_leaf(t1, p, v);
            let i = choose|i: int| 0 <= i < a.len() && a[i] == (p, v);
            assert((a + b)[i] == (p, v));
        }
    }
}

/// No path is independent of itself.
proof fn lemma_independent_irreflexive(p: Seq<char>)
    ensures
        !independent(p, p),
    decreases p.len(),
{
    lemma_char_index(p, '.');
    if dot_index(p) >= 0 {
        lemma_independent_irreflexive(p.skip(dot_index(p) + 1));
    }
}

/// A member list with distinct keys has no repeated member.
proof fn lemma_distinct_no_duplicates(m: FlatModel)
    requires
        keys_distinct(m),
    ensures
        m.no_duplicates(),
{
    assert forall|i: int, j: int| 0 <= i < m.len() && 0 <= j < m.len() && i != j implies m[i]
        != m[j] by {
        if i < j {
            assert(m[i].0 != m[j].0);
        } else {
            assert(m[j].0 != m[i].0);
        }
    }
}

/// Flattening what a flat map nests to gives the map's pairs back, when its
/// paths have non-empty steps, no two of them are one path or one below the
/// other, and no value is an object: the same pairs, as many, each path once.
pub proof fn law_flatten_nest_roundtrip(flat: FlatModel)
    requires
        forall|i: int| 0 <= i < flat.len() ==> is_path(#[trigger] flat[i].0),
        forall|i: int, j: int|
            0 <= i < flat.len() && 0 <= j < flat.len() && i != j ==> independent(
                flat[i].0,
                flat[j].0,
            ),
        scalar_values(flat),
    ensures
        flatten_spec(nest_spec(flat)).to_set() == flat.to_set(),
        flatten_spec(nest_spec(flat)).len() == flat.len(),
        keys_distinct(flatten_spec(nest_spec(flat))),
        keys_distinct(flat),
{
    let t = insert_all(Seq::empty(), flat);
    let out = flatten_spec(nest_spec(flat));
    lemma_insert_all_plain(flat);
    lemma_flatten_plain(t);
    assert(out == leaf_paths(t, Seq::empty()));
    law_flatten_finds_leaves(t);
    lemma_leaf_paths_scalar(t, Seq::empty());
    lemma_nest_get_path(flat);
    assert forall|e: (Seq<char>, Json)| out.contains(e) implies flat.contains(e) by {
        let i = choose|i: int| 0 <= i < out.len() && out[i] == e;
        assert(value_at(Json::Object(t), out[i].0) == Some(out[i].1));
        assert(!(out[i].1 is Object));
        lemma_get_path_nested(flat, e.0, e.1);
    }
    assert forall|e: (Seq<char>, Json)| flat.contains(e) implies out.contains(e) by {
        let i = choose|i: int| 0 <= i < flat.len() && flat[i] == e;
        assert(get_path(t, flat[i].0) == Some(flat[i].1));
        assert(!(flat[i].1 is Object));
        lemma_get_path_leaf(t, e.0, e.1);
    }
    assert(out.to_set() =~= flat.to_set());
    lemma_flatten_distinct(nest_spec(flat));
    assert forall|i: int, j: int| 0 <= i < j < flat.len() implies flat[i].0 != flat[j].0 by {
        assert(independent(flat[i].0, flat[j].0));
        if flat[i].0 == flat[j].0 {
            lemma_independent_irreflexive(flat[i].0);
        }
    }
    lemma_distinct_no_duplicates(out);
    lemma_distinct_no_duplicates(flat);
    out.unique_seq_to_set();
    flat.unique_seq_to_set();
}

// ---------------------------------------------------------------------------
// No key twice
// ---------------------------------------------------------------------------

/// Putting a member with unique keys into an object with unique keys keeps
/// its keys unique.
proof fn lemma_put_unique(m: FlatModel, k: Seq<char>, v: Json)
    requires
        unique_keys(Json::Object(m)),
        unique_keys(v),
    ensures
        unique_keys(Json::Object(assoc_put(m, k, v))),
{
    lemma_unique_object(m);
    lemma_put_distinct(m, k, v);
    lemma_key_index(m, k);
    let r = assoc_put(m, k, v);
    assert forall|i: int| 0 <= i < r.len() implies #[trigger] unique_keys(r[i].1) by {
        if i < m.len() && r[i] != (k, v) {
            assert(r[i] == m[i]);
        }
    }
    lemma_unique_object(r);
}

/// What unique keys mean for an object.
proof fn lemma_unique_object(m: FlatModel)
    ensures
        unique_keys(Json::Object(m)) <==> (keys_distinct(m) && forall|i: int|
            0 <= i < m.len() ==> #[trigger] unique_keys(m[i].1)),
{
    if unique_keys(Json::Object(m)) {
        assert forall|i: int| 0 <= i < m.len() implies #[trigger] unique_keys(m[i].1) by {
            assert(unique_keys(if 0 <= i < m.len() { m[i].1 } else { Json::Null }));
        }
    }
    if keys_distinct(m) && forall|i: int| 0 <= i < m.len() ==> #[trigger] unique_keys(m[i].1) {
        assert forall|i: int| 0 <= i < m.len() implies unique_keys(
            if 0 <= i < m.len() { m[i].1 } else { Json::Null },
        ) by {
            assert(unique_keys(m[i].1));
        }
    }
}

/// Storing a value with unique keys at a dotted path keeps keys unique.
proof fn lemma_insert_path_unique(m: FlatModel, p: Seq<char>, v: Json)
    requires
        unique_keys(Json::Object(m)),
        unique_keys(v),
    ensures
        unique_keys(Json::Object(insert_path(m, p, v))),
    decreases p.len(),
{
    lemma_char_index(p, '.');
    let d = dot_index(p);
    if d < 0 {
        lemma_put_unique(m, p, v);
    } else {
        let head = p.take(d);
        let rest = p.skip(d + 1);
        let c = child_members(m, head);
        lemma_key_index(m, head);
        lemma_unique_object(m);
        assert(unique_keys(Json::Object(c))) by {
            if key_index(m, head) >= 0 {
                assert(unique_keys(m[key_index(m, head)].1));
            }
        }
        lemma_insert_path_unique(c, rest, v);
        lemma_put_unique(m, head, Json::Object(insert_path(c, rest, v)));
    }
}

/// Nesting a flat map whose values have unique keys gives an object with
/// unique keys.
pub proof fn lemma_nest_unique(flat: FlatModel)
    requires
        forall|i: int| 0 <= i < flat.len() ==> #[trigger] unique_keys(flat[i].1),
    ensures
        unique_keys(nest_spec(flat)),
    decreases flat.len(),
{
    if flat.len() > 0 {
        let f1 = flat.drop_last();
        assert forall|i: int| 0 <= i < f1.len() implies #[trigger] unique_keys(f1[i].1) by {
            assert(f1[i] == flat[i]);
        }
        lemma_nest_unique(f1);
        assert(unique_keys(flat[flat.len() - 1].1));
        lemma_insert_path_unique(insert_all(Seq::empty(), f1), flat.last().0, flat.last().1);
    }
}

/// Whether every value of `m` has unique keys.
pub open spec fn values_unique(m: FlatModel) -> bool {
    forall|i: int| 0 <= i < m.len() ==> #[trigger] unique_keys(m[i].1)
}

/// Putting a value with unique keys keeps all values so.
pub proof fn lemma_put_values_unique(m: FlatModel, k: Seq<char>, v: Json)
    requires
        values_unique(m),
        unique_keys(v),
    ensures
        values_unique(assoc_put(m, k, v)),
{
    lemma_key_index(m, k);
    let r = assoc_put(m, k, v);
    assert forall|i: int| 0 <= i < r.len() implies #[trigger] unique_keys(r[i].1) by {
        if i < m.len() && r[i] != (k, v) {
            assert(r[i] == m[i]);
        }
    }
}

pub proof fn lemma_put_all_values_unique(m: FlatModel, pairs: FlatModel)
    requires
        values_unique(m),
        values_unique(pairs),
    ensures
        values_unique(put_all(m, pairs)),
    decreases pairs.len(),
{
    if pairs.len() > 0 {
        let p1 = pairs.drop_last();
        assert forall|i: int| 0 <= i < p1.len() implies #[trigger] unique_keys(p1[i].1) by {
            assert(p1[i] == pairs[i]);
        }
        lemma_put_all_values_unique(m, p1);
        assert(unique_keys(pairs[pairs.len() - 1].1));
        lemma_put_values_unique(put_all(m, p1), pairs.last().0, pairs.last().1);
    }
}

proof fn lemma_leaf_values_unique(m: FlatModel, p: Seq<char>)
    requires
        unique_keys(Json::Object(m)),
    ensures
        values_unique(leaf_paths(m, p)),
    decreases m,
{
    if m.len() > 0 {
        let m1 = m.drop_last();
        let e = m.last();
        lemma_unique_object(m);
        lemma_unique_object(m1);
        assert(keys_distinct(m1)) by {
            assert forall|i: int, j: int| 0 <= i < j < m1.len() implies m1[i].0 != m1[j].0 by {
                assert(m1[i] == m[i] && m1[j] == m[j]);
            }
        }
        assert forall|i: int| 0 <= i < m1.len() implies #[trigger] unique_keys(m1[i].1) by {
            assert(m1[i] == m[i]);
        }
        lemma_leaf_values_unique(m1, p);
        assert(unique_keys(m[m.len() - 1].1));
        let a = leaf_paths(m1, p);
        let b = member_leaves(e, p);
        match e.1 {
            Json::Object(inner) => {
                lemma_leaf_values_unique(inner, join_path(p, e.0));
            },
            _ => {
                assert(b =~= seq![(join_path(p, e.0), e.1)]);
            },
        }
        assert forall|i: int| 0 <= i < (a + b).len() implies #[trigger] unique_keys((a + b)[i].1) by {
            if i < a.len() {
                assert((a + b)[i] == a[i]);
            } else {
                assert((a + b)[i] == b[i - a.len()]);
            }
        }
    }
}

/// The values of the flat map of a value with unique keys have unique keys.
pub proof fn lemma_flatten_values_unique(j: Json)
    requires
        unique_keys(j),
    ensures
        values_unique(flatten_spec(j)),
{
    if let Json::Object(m) = j {
        lemma_leaf_values_unique(m, Seq::empty());
        lemma_put_all_values_unique(Seq::empty(), leaf_paths(m, Seq::empty()));
    }
}

} // verus!
