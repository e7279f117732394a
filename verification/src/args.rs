//! Command-line arguments: positional actions followed by `--key value` flags.

use vstd::prelude::*;
use crate::json::{parse_value, value_of_text};
use crate::laws::{lemma_put_values_unique, values_unique};
use crate::nesting::{assoc_put, nest, nest_spec, FlatMap, FlatModel};
use crate::text::{char_index, find_char, has_prefix, lemma_char_index, starts_with};
use crate::value::{unique_keys, Json, Value};

verus! {

/// Why a command line was rejected.
#[derive(Debug, PartialEq)]
pub enum ArgsError {
    /// A bare word starting with a single `-` among the positionals.
    ShortFlag(String),
    /// A `--key` flag without `=` that is last or followed by a word starting with `-`;
    /// holds the key.
    MissingValue(String),
    /// A word after the first flag that is neither a flag nor a flag's value.
    PositionalAfterFlags(String),
}

/// The model of an `ArgsError`.
pub enum ArgsErrorModel {
    ShortFlag(Seq<char>),
    MissingValue(Seq<char>),
    PositionalAfterFlags(Seq<char>),
}

impl View for ArgsError {
    type V = ArgsErrorModel;

    open spec fn view(&self) -> ArgsErrorModel {
        match self {
            ArgsError::ShortFlag(s) => ArgsErrorModel::ShortFlag(s@),
            ArgsError::MissingValue(s) => ArgsErrorModel::MissingValue(s@),
            ArgsError::PositionalAfterFlags(s) => ArgsErrorModel::PositionalAfterFlags(s@),
        }
    }
}

/// Whether `s` is a long flag: it starts with `--`.
pub open spec fn is_long_flag(s: Seq<char>) -> bool {
    has_prefix(s, seq!['-', '-'])
}

/// Whether `s` starts with `-`.
pub open spec fn is_dashed(s: Seq<char>) -> bool {
    has_prefix(s, seq!['-'])
}

/// Reading positionals from position `i`: they run up to the first long flag;
/// a word starting with `-` before it is refused.
/// Gives the position of the first flag (or the end).
pub open spec fn scan_positionals(args: Seq<Seq<char>>, i: int) -> Result<int, ArgsErrorModel>
    decreases args.len() - i,
{
    if i < 0 || i >= args.len() || is_long_flag(args[i]) {
        Ok(i)
    } else if is_dashed(args[i]) {
        Err(ArgsErrorModel::ShortFlag(args[i]))
    } else {
        scan_positionals(args, i + 1)
    }
}

/// Reading flags from position `i` into `flat`: `--key=value` sets `key`;
/// `--key value` sets `key` when `value` does not start with `-`; anything
/// else is refused.
pub open spec fn scan_flags(args: Seq<Seq<char>>, i: int, flat: FlatModel) -> Result<
    FlatModel,
    ArgsErrorModel,
>
    decreases args.len() - i,
{
    if i < 0 || i >= args.len() {
        Ok(flat)
    } else if is_long_flag(args[i]) {
        let rest = args[i].skip(2);
        let e = char_index(rest, '=');
        if e >= 0 {
            scan_flags(args, i + 1, assoc_put(flat, rest.take(e), value_of_text(rest.skip(e + 1))))
        } else if i + 1 >= args.len() || is_dashed(args[i + 1]) {
            Err(ArgsErrorModel::MissingValue(rest))
        } else {
            scan_flags(args, i + 2, assoc_put(flat, rest, value_of_text(args[i + 1])))
        }
    } else {
        Err(ArgsErrorModel::PositionalAfterFlags(args[i]))
    }
}

/// The positionals and the flags of a command line, the flags nested by
/// their dotted keys.
pub open spec fn parse_args_spec(args: Seq<Seq<char>>) -> Result<
    (Seq<Seq<char>>, Json),
    ArgsErrorModel,
> {
    match scan_positionals(args, 0) {
        Err(e) => Err(e),
        Ok(n) => match scan_flags(args, n, Seq::empty()) {
            Err(e) => Err(e),
            Ok(flat) => Ok((args.take(n), nest_spec(flat))),
        },
    }
}

/// The model of a list of strings.
pub open spec fn strings_view(v: Seq<String>) -> Seq<Seq<char>> {
    Seq::new(v.len(), |i: int| v[i]@)
}

/// Splits command-line arguments (without the program name) into positional
/// actions and the configuration given by `--key value` / `--key=value`
/// flags. Values are parsed as JSON where possible, otherwise kept as
/// strings; dotted keys become nested objects.
pub fn parse_from(args: Vec<String>) -> (r: Result<(Vec<String>, Value), ArgsError>)
    ensures
        match r {
            Ok((positionals, flags)) => parse_args_spec(strings_view(args@)) == Ok::<
                _,
                ArgsErrorModel,
            >((strings_view(positionals@), flags@)) && unique_keys(flags@),
            Err(e) => parse_args_spec(strings_view(args@)) == Err::<(Seq<Seq<char>>, Json), _>(
                e@,
            ),
        },
{
    let ghost av = strings_view(args@);
    let n = args.len();
    let two_dashes = "--";
    let one_dash = "-";
    proof {
        reveal_strlit("--");
        reveal_strlit("-");
        assert(two_dashes@ =~= seq!['-', '-']);
        assert(one_dash@ =~= seq!['-']);
    }
    let mut positionals: Vec<String> = Vec::new();
    let mut i: usize = 0;
    proof {
        assert(strings_view(positionals@) =~= av.take(0));
    }
    while i < n && !starts_with(args[i].as_str(), two_dashes)
        invariant
            n == args@.len(),
            av == strings_view(args@),
            two_dashes@ == seq!['-', '-'],
            one_dash@ == seq!['-'],
            0 <= i <= n,
            scan_positionals(av, i as int) == scan_positionals(av, 0),
            strings_view(positionals@) == av.take(i as int),
        decreases n - i,
    {
        if starts_with(args[i].as_str(), one_dash) {
            return Err(ArgsError::ShortFlag(args[i].clone()));
        }
        let word = args[i].clone();
        assert(word@ == av[i as int]);
        let ghost before = strings_view(positionals@);
        positionals.push(word);
        proof {
            assert(before =~= av.take(i as int));
            assert(strings_view(positionals@) =~= before.push(av[i as int]));
            assert(strings_view(positionals@) =~= av.take(i + 1));
        }
        i = i + 1;
    }
    let ghost first_flag = i as int;
    assert(scan_positionals(av, 0) == Ok::<int, ArgsErrorModel>(first_flag));
    let mut flat = FlatMap::new();
    assert(values_unique(flat@));
    while i < n
        invariant
            n == args@.len(),
            av == strings_view(args@),
            two_dashes@ == seq!['-', '-'],
            one_dash@ == seq!['-'],
            0 <= i <= n,
            scan_positionals(av, 0) == Ok::<int, ArgsErrorModel>(first_flag),
            strings_view(positionals@) == av.take(first_flag),
            scan_flags(av, i as int, flat@) == scan_flags(av, first_flag, Seq::empty()),
            values_unique(flat@),
        decreases n - i,
    {
        let arg = args[i].as_str();
        if starts_with(arg, two_dashes) {
            let len = arg.unicode_len();
            let rest = arg.substring_char(2, len);
            assert(rest@ == av[i as int].skip(2));
            match find_char(rest, '=') {
                Some(e) => {
                    let rest_len = rest.unicode_len();
                    let key = rest.substring_char(0, e).to_owned();
                    let value = parse_value(rest.substring_char(e + 1, rest_len));
                    assert(key@ == rest@.take(e as int));
                    proof {
                        lemma_put_values_unique(flat@, key@, value@);
                    }
                    flat.insert(key, value);
                    i = i + 1;
                },
                None => {
                    let key = rest.to_owned();
                    if i + 1 >= n || starts_with(args[i + 1].as_str(), one_dash) {
                        return Err(ArgsError::MissingValue(key));
                    }
                    let value = parse_value(args[i + 1].as_str());
                    proof {
                        lemma_put_values_unique(flat@, key@, value@);
                    }
                    flat.insert(key, value);
                    i = i + 2;
                },
            }
        } else {
            return Err(ArgsError::PositionalAfterFlags(args[i].clone()));
        }
    }
    (Ok((positionals, nest(flat))))
}


proof fn lemma_scan_positionals(args: Seq<Seq<char>>, i: int)
    requires
        0 <= i <= args.len(),
    ensures
        scan_positionals(args, i) matches Ok(n) ==> {
            &&& i <= n <= args.len()
            &&& forall|j: int| i <= j < n ==> !is_dashed(#[trigger] args[j])
            &&& n < args.len() ==> is_long_flag(args[n])
        },
    decreases args.len() - i,
{
    if i < args.len() && !is_long_flag(args[i]) && !is_dashed(args[i]) {
        lemma_scan_positionals(args, i + 1);
    }
}

/// The positionals of an accepted command line are the words before its
/// first flag, in order, and none of them starts with `-`.
pub proof fn law_positionals_lead(args: Seq<Seq<char>>)
    ensures
        parse_args_spec(args) matches Ok((positionals, _)) ==> {
            &&& positionals == args.take(positionals.len() as int)
            &&& forall|i: int| 0 <= i < positionals.len() ==> !is_dashed(#[trigger] positionals[i])
            &&& positionals.len() < args.len() ==> is_long_flag(args[positionals.len() as int])
        },
{
    lemma_scan_positionals(args, 0);
    if let Ok(n) = scan_positionals(args, 0) {
        let p = args.take(n);
        assert(p.len() == n);
        assert(p.take(n) =~= p);
        assert forall|i: int| 0 <= i < p.len() implies !is_dashed(#[trigger] p[i]) by {
            assert(p[i] == args[i]);
        }
    }
}

/// Whether flags can be read from position `i`, whatever was read before:
/// acceptance does not depend on the flags already read.
proof fn lemma_scan_ok_any_flat(args: Seq<Seq<char>>, i: int, f: FlatModel, g: FlatModel)
    ensures
        scan_flags(args, i, f) is Ok <==> scan_flags(args, i, g) is Ok,
    decreases args.len() - i,
{
    if 0 <= i < args.len() && is_long_flag(args[i]) {
        let rest = args[i].skip(2);
        let e = char_index(rest, '=');
        if e >= 0 {
            let k = rest.take(e);
            let v = value_of_text(rest.skip(e + 1));
            lemma_scan_ok_any_flat(args, i + 1, assoc_put(f, k, v), assoc_put(g, k, v));
        } else if !(i + 1 >= args.len() || is_dashed(args[i + 1])) {
            let v = value_of_text(args[i + 1]);
            lemma_scan_ok_any_flat(args, i + 2, assoc_put(f, rest, v), assoc_put(g, rest, v));
        }
    }
}

/// Reading flags after one more word in front is reading them where they
/// were.
proof fn lemma_scan_shift(w: Seq<char>, rest: Seq<Seq<char>>, i: int, f: FlatModel)
    requires
        0 <= i,
    ensures
        scan_flags(seq![w] + rest, i + 1, f) == scan_flags(rest, i, f),
    decreases rest.len() - i,
{
    let args = seq![w] + rest;
    if i < rest.len() {
        assert(args[i + 1] == rest[i]);
        if i + 1 < rest.len() {
            assert(args[i + 2] == rest[i + 1]);
        }
        if is_long_flag(rest[i]) {
            let r = rest[i].skip(2);
            let e = char_index(r, '=');
            if e >= 0 {
                lemma_scan_shift(w, rest, i + 1, assoc_put(f, r.take(e), value_of_text(r.skip(e + 1))));
            } else if !(i + 1 >= rest.len() || is_dashed(rest[i + 1])) {
                lemma_scan_shift(w, rest, i + 2, assoc_put(f, r, value_of_text(rest[i + 1])));
            }
        }
    }
}

/// A `--key=value` word sets `key` to the value of the text after the first
/// `=` and takes that one word: reading goes on with the next word.
pub proof fn law_key_value_flag_takes_one_word(
    key: Seq<char>,
    text: Seq<char>,
    rest: Seq<Seq<char>>,
    flat: FlatModel,
)
    requires
        char_index(key, '=') < 0,
    ensures
        scan_flags(seq![seq!['-', '-'] + key + seq!['='] + text] + rest, 0, flat) == scan_flags(
            rest,
            0,
            assoc_put(flat, key, value_of_text(text)),
        ),
{
    let w = seq!['-', '-'] + key + seq!['='] + text;
    let args = seq![w] + rest;
    let r = w.skip(2);
    assert(r =~= key + seq!['='] + text);
    assert(w.take(2) =~= seq!['-', '-']);
    assert(args[0] == w);
    lemma_char_index(key, '=');
    lemma_char_index(r, '=');
    let e = char_index(r, '=');
    assert(r[key.len() as int] == '=');
    if e < key.len() {
        assert(r[e] == key[e]);
    }
    assert(e == key.len());
    assert(r.take(e) =~= key);
    assert(r.skip(e + 1) =~= text);
    lemma_scan_shift(w, rest, 0, assoc_put(flat, key, value_of_text(text)));
}

/// A `--key=value` word put in front of an accepted command line without
/// positionals gives an accepted command line without positionals.
pub proof fn law_key_value_flag_in_front(key: Seq<char>, text: Seq<char>, rest: Seq<Seq<char>>)
    requires
        char_index(key, '=') < 0,
        parse_args_spec(rest) matches Ok((p, _)) && p.len() == 0,
    ensures
        parse_args_spec(seq![seq!['-', '-'] + key + seq!['='] + text] + rest) matches Ok((p, _))
            && p.len() == 0,
{
    let w = seq!['-', '-'] + key + seq!['='] + text;
    let args = seq![w] + rest;
    assert(args[0] == w);
    assert(w.take(2) =~= seq!['-', '-']);
    assert(scan_positionals(args, 0) == Ok::<int, ArgsErrorModel>(0));
    lemma_scan_positionals_start(rest);
    law_key_value_flag_takes_one_word(key, text, rest, Seq::empty());
    lemma_scan_ok_any_flat(
        rest,
        0,
        Seq::empty(),
        assoc_put(Seq::empty(), key, value_of_text(text)),
    );
    assert(args.take(0) =~= Seq::<Seq<char>>::empty());
}

/// An accepted command line without positionals reads its flags from the
/// start.
proof fn lemma_scan_positionals_start(args: Seq<Seq<char>>)
    requires
        parse_args_spec(args) matches Ok((p, _)) && p.len() == 0,
    ensures
        scan_positionals(args, 0) == Ok::<int, ArgsErrorModel>(0),
        scan_flags(args, 0, Seq::empty()) is Ok,
{
    lemma_scan_positionals(args, 0);
}

} // verus!
