//! Trusted declarations for the outside functions the library calls.
//!
//! Every item here is believed, not verified: each wrapper's contract
//! states what the named outside function returns, and nothing more.

use vstd::prelude::*;

use rayon::iter::{IntoParallelRefIterator, ParallelIterator};

use crate::splitter::{body_views, group_frags};
use crate::types::{def_views, entry_views, APIDef, ProcessError, RawDocument, RouteBody};

verus! {

/// Relies on String::push: appends one character to the string.
#[verifier::external_body]
pub(crate) fn push_char(s: &mut String, c: char)
    ensures
        final(s)@ == old(s)@.push(c),
{
    s.push(c)
}

/// The generic document tree of serde_json, held opaquely: the library
/// carries values of it through, and reads them only through the named
/// functions below.
#[verifier::external_type_specification]
#[verifier::external_body]
pub struct ExValue(serde_json::Value);

/// The entries a tree exposes when it is an object, in the object's own
/// (deterministic) iteration order; `None` when it is not an object.
pub uninterp spec fn entries_of(v: serde_json::Value) -> Option<
    Seq<(Seq<char>, serde_json::Value)>,
>;

/// Relies on serde_json::Value: matching on `Object` and walking
/// `serde_json::Map::iter` yields the object's entries in the map's
/// iteration order, a function of the value alone.
#[verifier::external_body]
pub(crate) fn object_entries(v: &serde_json::Value) -> (r: Option<
    Vec<(String, serde_json::Value)>,
>)
    ensures
        r is Some <==> entries_of(*v) is Some,
        r matches Some(es) ==> entries_of(*v) == Some(entry_views(es@)),
{
    match v {
        serde_json::Value::Object(m) => {
            let mut out: Vec<(String, serde_json::Value)> = Vec::new();
            for (k, val) in m.iter() {
                out.push((k.clone(), val.clone()));
            }
            Some(out)
        },
        _ => None,
    }
}

/// The object built from an entry list (on a repeated key, the later entry
/// wins, as map insertion does).
pub uninterp spec fn object_of(entries: Seq<(Seq<char>, serde_json::Value)>) -> serde_json::Value;

/// Relies on serde_json::Map's FromIterator and Value::Object: collecting
/// an entry list builds the object holding those entries.
#[verifier::external_body]
pub(crate) fn object_value(entries: Vec<(String, serde_json::Value)>) -> (r: serde_json::Value)
    ensures
        r == object_of(entry_views(entries@)),
{
    let m: serde_json::Map<String, serde_json::Value> = entries.into_iter().collect();
    serde_json::Value::Object(m)
}

/// The YAML text of a tree; `None` when the tree cannot be serialized.
pub uninterp spec fn yaml_of(v: serde_json::Value) -> Option<Seq<char>>;

/// Relies on serde_yaml::to_string: serializes a tree to YAML text; success
/// and the text are functions of the tree alone.
#[verifier::external_body]
pub(crate) fn to_yaml(v: &serde_json::Value) -> (r: Result<String, ProcessError>)
    ensures
        r is Ok <==> yaml_of(*v) is Some,
        r matches Ok(s) ==> yaml_of(*v) == Some(s@),
        r matches Err(e) ==> e is Render,
{
    match serde_yaml::to_string(v) {
        Ok(s) => Ok(s),
        Err(e) => Err(ProcessError::Render { message: format!("Error converting to YAML: {}", e) }),
    }
}

/// The tree a YAML text parses to; `None` when the text does not parse.
pub uninterp spec fn yaml_value_of(text: Seq<char>) -> Option<serde_json::Value>;

/// Relies on serde_yaml::from_str: parses YAML text into a tree; success
/// and the tree are functions of the text alone.
#[verifier::external_body]
pub(crate) fn parse_yaml(s: &str) -> (r: Result<serde_json::Value, ProcessError>)
    ensures
        r is Ok <==> yaml_value_of(s@) is Some,
        r matches Ok(v) ==> yaml_value_of(s@) == Some(v),
        r matches Err(e) ==> e is Parse,
{
    match serde_yaml::from_str::<serde_json::Value>(s) {
        Ok(v) => Ok(v),
        Err(e) => Err(ProcessError::Parse { message: format!("Error parsing YAML: {}", e) }),
    }
}

/// Relies on serde_json::Value::clone: a structural copy equal to the
/// original.
pub assume_specification[ <serde_json::Value as Clone>::clone ](v: &serde_json::Value) -> (r:
    serde_json::Value)
    ensures
        r == *v,
;

/// Relies on rayon's par_iter, map and collect: they apply the given
/// closure — here the verified per-group splitter — to every element and
/// collect the results in input order, so each element of the result
/// satisfies that function's contract for its group.
#[verifier::external_body]
pub(crate) fn par_process_groups(
    doc: &RawDocument,
    groups: &Vec<(String, Vec<RouteBody>)>,
) -> (r: Vec<Result<Vec<APIDef>, ProcessError>>)
    ensures
        r@.len() == groups@.len(),
        forall|i: int|
            0 <= i < r@.len() ==> ((#[trigger] r@[i]) is Ok <==> group_frags(
                doc@.skeleton,
                groups@[i].0@,
                body_views(groups@[i].1@),
            ) is Some),
        forall|i: int|
            0 <= i < r@.len() ==> ((#[trigger] r@[i]) matches Ok(ds) ==> group_frags(
                doc@.skeleton,
                groups@[i].0@,
                body_views(groups@[i].1@),
            ) == Some(def_views(ds@))),
        forall|i: int|
            0 <= i < r@.len() ==> ((#[trigger] r@[i]) matches Err(e) ==> e is Render),
{
    groups.par_iter().map(|g| crate::splitter::process_path_group(doc, &g.0, &g.1)).collect()
}

/// The uppercase form of a string's characters.
pub uninterp spec fn upper_of(s: Seq<char>) -> Seq<char>;

/// Relies on str::to_uppercase: the result depends on the characters alone.
#[verifier::external_body]
pub(crate) fn to_upper(s: &str) -> (r: String)
    ensures
        r@ == upper_of(s@),
{
    s.to_uppercase()
}

} // verus!
