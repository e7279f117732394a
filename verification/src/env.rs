//! Environment variables named `{PREFIX}_{KEY}`.

use vstd::prelude::*;
use crate::json::{parse_value, value_of_text};
use crate::laws::{lemma_put_values_unique, values_unique};
use crate::nesting::{assoc_put, nest, nest_spec, FlatMap, FlatModel};
use crate::text::{
    ends_with_underscore, has_prefix, law_replace_each_pair, lowercase, replace_double_underscore, replace_double_underscore_exec, starts_with,
    to_lowercase,
};
use crate::value::{unique_keys, Value};

verus! {

/// The configuration path that variable `key` sets, when its name starts
/// with `prefix` and `_`: the rest of the name with each `__` turned into a
/// dot, then lowercased.
pub open spec fn env_path(key: Seq<char>, prefix: Seq<char>) -> Option<Seq<char>> {
    let needle = prefix + seq!['_'];
    if has_prefix(key, needle) {
        Some(lowercase(replace_double_underscore(key.skip(needle.len() as int))))
    } else {
        None
    }
}

/// The flat map that the variables `vars` give for `prefix`, in order; a
/// later variable for the same path replaces an earlier one.
pub open spec fn env_flat(prefix: Seq<char>, vars: Seq<(Seq<char>, Seq<char>)>) -> FlatModel
    decreases vars.len(),
{
    if vars.len() == 0 {
        Seq::empty()
    } else {
        let flat = env_flat(prefix, vars.drop_last());
        match env_path(vars.last().0, prefix) {
            Some(p) => assoc_put(flat, p, value_of_text(vars.last().1)),
            None => flat,
        }
    }
}

/// The model of a list of variables.
pub open spec fn vars_view(vars: Seq<(String, String)>) -> Seq<(Seq<char>, Seq<char>)> {
    Seq::new(vars.len(), |i: int| (vars[i].0@, vars[i].1@))
}

/// The configuration held by the variables whose names start with `prefix`
/// and `_` (see `env_path`); values are parsed as JSON where possible,
/// otherwise kept as strings.
pub fn from_vars(prefix: &str, vars: Vec<(String, String)>) -> (r: Value)
    ensures
        r@ == nest_spec(env_flat(prefix@, vars_view(vars@))),
        unique_keys(r@),
{
    let ghost vv = vars_view(vars@);
    let ghost v0 = vars@;
    let mut needle = prefix.to_owned();
    let underscore = "_";
    proof {
        reveal_strlit("_");
    }
    needle.append(underscore);
    assert(needle@ =~= prefix@ + seq!['_']);
    let mut flat = FlatMap::new();
    assert(values_unique(flat@));
    proof {
        assert(vv.take(0) =~= Seq::<(Seq<char>, Seq<char>)>::empty());
    }
    for var in it: vars
        invariant
            it.seq() == v0,
            vv == vars_view(v0),
            needle@ == prefix@ + seq!['_'],
            flat@ == env_flat(prefix@, vv.take(it.index() as int)),
            values_unique(flat@),
    {
        let ghost idx = it.index();
        assert(idx < v0.len());
        assert(var == v0[idx as int]);
        let (key, value) = var;
        proof {
            assert(vv.take(idx + 1).drop_last() =~= vv.take(idx as int));
            assert(vv.take(idx + 1).last() == vv[idx as int]);
        }
        if starts_with(key.as_str(), needle.as_str()) {
            let len = key.as_str().unicode_len();
            let rest = key.as_str().substring_char(needle.as_str().unicode_len(), len);
            let path = to_lowercase(replace_double_underscore_exec(rest).as_str());
            let parsed = parse_value(value.as_str());
            proof {
                lemma_put_values_unique(flat@, path@, parsed@);
            }
            flat.insert(path, parsed);
        }
    }
    proof {
        assert(vv.take(v0.len() as int) =~= vv);
    }
    nest(flat)
}


/// A variable whose name does not start with the prefix and `_` changes
/// nothing.
pub proof fn law_other_variables_ignored(
    prefix: Seq<char>,
    vars: Seq<(Seq<char>, Seq<char>)>,
    name: Seq<char>,
    value: Seq<char>,
)
    requires
        !has_prefix(name, prefix + seq!['_']),
    ensures
        env_flat(prefix, vars.push((name, value))) == env_flat(prefix, vars),
{
    assert(vars.push((name, value)).drop_last() =~= vars);
}

/// A later variable for the same path wins.
pub proof fn law_later_variable_wins(
    prefix: Seq<char>,
    vars: Seq<(Seq<char>, Seq<char>)>,
    name: Seq<char>,
    value: Seq<char>,
)
    requires
        env_path(name, prefix) is Some,
    ensures
        crate::laws::lookup(env_flat(prefix, vars.push((name, value))), env_path(name, prefix)->0)
            == Some(value_of_text(value)),
{
    assert(vars.push((name, value)).drop_last() =~= vars);
    crate::laws::lemma_lookup_put_same(
        env_flat(prefix, vars),
        env_path(name, prefix)->0,
        value_of_text(value),
    );
}

/// The path of a variable named with the prefix, `_`, and a name with a
/// `"__"` in it: what comes before and after the `"__"` are two steps of the
/// path, each read the same way.
pub proof fn law_env_path_steps(prefix: Seq<char>, a: Seq<char>, b: Seq<char>)
    requires
        !ends_with_underscore(a),
    ensures
        env_path(prefix + seq!['_'] + a + seq!['_', '_'] + b, prefix) == Some(
            lowercase(replace_double_underscore(a) + seq!['.'] + replace_double_underscore(b)),
        ),
{
    let needle = prefix + seq!['_'];
    let key = needle + (a + seq!['_', '_'] + b);
    assert(prefix + seq!['_'] + a + seq!['_', '_'] + b =~= key);
    assert(key.take(needle.len() as int) =~= needle);
    assert(key.skip(needle.len() as int) =~= a + seq!['_', '_'] + b);
    law_replace_each_pair(a, b);
}

} // verus!
