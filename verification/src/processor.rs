//! The whole pipeline: split a document into fragments, then merge them.

use vstd::prelude::*;

use crate::ext::{object_value, to_yaml, yaml_of};
use crate::merger::{merge_definitions, merge_spec};
use crate::splitter::{clone_entries, split_definition, split_spec};
use crate::types::{def_views, entry_views, APIDef, DefV, DocV, ProcessError, RawDocument};

verus! {

/// What processing a document yields: the split fragments, merged.
pub open spec fn process_spec(d: DocV) -> Option<Seq<DefV>> {
    match split_spec(d) {
        None => None,
        Some(fs) => merge_spec(fs),
    }
}

/// Process a definition document: split it into per-route fragments, then
/// merge the fragments by resource root and operation key.
pub fn process_document(doc: &RawDocument) -> (r: Result<Vec<APIDef>, ProcessError>)
    ensures
        r is Ok <==> process_spec(doc@) is Some,
        r matches Ok(ds) ==> process_spec(doc@) == Some(def_views(ds@)),
        r matches Err(e) ==> e is Parse || e is Render,
{
    let frags = match split_definition(doc) {
        Ok(f) => f,
        Err(e) => {
            return Err(e);
        },
    };
    merge_definitions(frags)
}

/// Render the base skeleton once: the document's top-level members other
/// than "paths", serialized.
pub fn render_skeleton(doc: &RawDocument) -> (r: Result<String, ProcessError>)
    ensures
        r is Ok <==> yaml_of(crate::ext::object_of(doc@.skeleton)) is Some,
        r matches Ok(s) ==> yaml_of(crate::ext::object_of(doc@.skeleton)) == Some(s@),
        r matches Err(e) ==> e is Render,
{
    let entries = clone_entries(&doc.skeleton);
    proof {
        assert(entry_views(entries@) == doc@.skeleton);
    }
    let w = object_value(entries);
    to_yaml(&w)
}

} // verus!
