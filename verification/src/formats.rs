//! Configuration documents: JSON, TOML and YAML texts as values.

use vstd::prelude::*;
use crate::json::{json_of_text, parse_json};
use crate::nesting::{flatten, flatten_spec, nest, nest_spec};
use crate::value::Value;

verus! {

/// The JSON document in `text` with its dotted keys turned into nested
/// objects, as a JSON configuration file is read; `None` when `text` is not
/// JSON.
pub fn nested_json_of_text(text: &str) -> (r: Option<Value>)
    ensures
        match r {
            Some(v) => json_of_text(text@) matches Some(j) && v@ == nest_spec(flatten_spec(j)),
            None => json_of_text(text@) is None,
        },
{
    match parse_json(text) {
        Some(v) => Some(nest(flatten(v))),
        None => None,
    }
}

/// The JSON text of the document that the `toml` crate reads from `text`,
/// or `None` when `text` is not a TOML document.
pub uninterp spec fn toml_json_text_of(text: Seq<char>) -> Option<Seq<char>>;

/// Reads `text` with `toml::from_str` into a `serde_json::Value` and prints
/// it with `serde_json`'s `to_string`.
///
/// Claimed of the two crates: the result is a function of `text` alone
/// (`toml_json_text_of`); nothing more is said of it.
#[verifier::external_body]
fn toml_to_json_text(text: &str) -> (r: Option<String>)
    ensures
        match r {
            Some(s) => toml_json_text_of(text@) == Some(s@),
            None => toml_json_text_of(text@) is None,
        },
{
    match ::toml::from_str::<serde_json::Value>(text) {
        Ok(v) => Some(v.to_string()),
        Err(_) => None,
    }
}

/// The TOML document in `text` as a value; `None` when `text` is not TOML.
pub fn parse_toml(text: &str) -> (r: Option<Value>)
    ensures
        match r {
            Some(v) => toml_json_text_of(text@) matches Some(t) && json_of_text(t) == Some(v@),
            None => toml_json_text_of(text@) is None || (toml_json_text_of(text@) matches Some(t)
                && json_of_text(t) is None),
        },
{
    match toml_to_json_text(text) {
        Some(t) => parse_json(t.as_str()),
        None => None,
    }
}

/// The JSON text of the document that the `serde_yml` crate reads from
/// `text`, or `None` when `text` is not a YAML document.
pub uninterp spec fn yaml_json_text_of(text: Seq<char>) -> Option<Seq<char>>;

/// Reads `text` with `serde_yml::from_str` into a `serde_json::Value` and
/// prints it with `serde_json`'s `to_string`.
///
/// Claimed of the two crates: the result is a function of `text` alone
/// (`yaml_json_text_of`); nothing more is said of it.
#[verifier::external_body]
fn yaml_to_json_text(text: &str) -> (r: Option<String>)
    ensures
        match r {
            Some(s) => yaml_json_text_of(text@) == Some(s@),
            None => yaml_json_text_of(text@) is None,
        },
{
    match serde_yml::from_str::<serde_json::Value>(text) {
        Ok(v) => Some(v.to_string()),
        Err(_) => None,
    }
}

/// The YAML document in `text` as a value; `None` when `text` is not YAML.
pub fn parse_yaml(text: &str) -> (r: Option<Value>)
    ensures
        match r {
            Some(v) => yaml_json_text_of(text@) matches Some(t) && json_of_text(t) == Some(v@),
            None => yaml_json_text_of(text@) is None || (yaml_json_text_of(text@) matches Some(t)
                && json_of_text(t) is None),
        },
{
    match yaml_to_json_text(text) {
        Some(t) => parse_json(t.as_str()),
        None => None,
    }
}

} // verus!
