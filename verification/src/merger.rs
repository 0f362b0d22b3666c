//! Merging a fragment stream.
//!
//! Operation fragments are keyed by (canonical path, method); a later
//! fragment with the same key overwrites the earlier one.  Path fragments
//! are keyed by resource root; fragments sharing a root are combined into
//! one path fragment keyed by the root, whose routes are unioned with the
//! first-seen entry winning.

use vstd::prelude::*;

use crate::ext::{
    entries_of, object_entries, object_value, parse_yaml, to_yaml, yaml_of, yaml_value_of,
};
use crate::paths::root_spec;
use crate::splitter::{
    add_absent, clone_def, clone_entries, clone_error, first_seen_keys, has_key, has_method,
    lemma_first_seen_keys_contains, paths_string,
};
use crate::types::{
    def_views, entry_views, paths_key, APIDef, APIPath, APIVerb, DefV, ProcessError, route_views,
};

verus! {

broadcast use vstd::seq::Seq::group_seq_extra;

// ---------------------------------------------------------------------------
// Specification model
// ---------------------------------------------------------------------------

/// The path fragments of a stream, in order.
pub open spec fn path_defs(ds: Seq<DefV>) -> Seq<DefV>
    decreases ds.len(),
{
    if ds.len() == 0 {
        Seq::empty()
    } else {
        let prev = path_defs(ds.drop_last());
        if ds.last() is Path {
            prev.push(ds.last())
        } else {
            prev
        }
    }
}

/// The operation fragments of a stream, in order.
pub open spec fn verb_defs(ds: Seq<DefV>) -> Seq<DefV>
    decreases ds.len(),
{
    if ds.len() == 0 {
        Seq::empty()
    } else {
        let prev = verb_defs(ds.drop_last());
        if ds.last() is Verb {
            prev.push(ds.last())
        } else {
            prev
        }
    }
}

/// The resource root of a fragment's path.
pub open spec fn root_of(d: DefV) -> Seq<char> {
    match d {
        DefV::Path { path, .. } => root_spec(path),
        DefV::Verb { path, .. } => root_spec(path),
    }
}

/// The resource roots of the path fragments, deduplicated, in order of
/// first appearance.
pub open spec fn root_keys(ps: Seq<DefV>) -> Seq<Seq<char>> {
    first_seen_keys(ps.map_values(|d: DefV| root_of(d)))
}

/// The path fragments whose root is `key`, in order.
pub open spec fn root_group(ps: Seq<DefV>, key: Seq<char>) -> Seq<DefV>
    decreases ps.len(),
{
    if ps.len() == 0 {
        Seq::empty()
    } else {
        let prev = root_group(ps.drop_last(), key);
        if root_of(ps.last()) == key {
            prev.push(ps.last())
        } else {
            prev
        }
    }
}

/// A fragment with its path replaced (operation fragments are unchanged).
pub open spec fn set_path(d: DefV, p: Seq<char>) -> DefV {
    match d {
        DefV::Path { path: _, yaml } => DefV::Path { path: p, yaml },
        DefV::Verb { .. } => d,
    }
}

/// The first index holding the key `k`, or -1.
pub open spec fn find_key(es: Seq<(Seq<char>, serde_json::Value)>, k: Seq<char>) -> int
    decreases es.len(),
{
    if es.len() == 0 {
        -1
    } else if es[0].0 == k {
        0
    } else {
        let r = find_key(es.drop_first(), k);
        if r == -1 {
            -1
        } else {
            r + 1
        }
    }
}

/// The route entries one parsed fragment document contributes: the entries
/// of its "paths" object, or nothing when the shapes do not fit.
pub open spec fn paths_entries_of(v: serde_json::Value) -> Seq<(Seq<char>, serde_json::Value)> {
    match entries_of(v) {
        None => Seq::empty(),
        Some(es) => {
            let i = find_key(es, paths_key());
            if i < 0 {
                Seq::empty()
            } else {
                match entries_of(es[i].1) {
                    None => Seq::empty(),
                    Some(pes) => pes,
                }
            }
        },
    }
}

/// Route entries accumulated over later fragments, first seen winning.
pub open spec fn add_paths_from(
    base: Seq<(Seq<char>, serde_json::Value)>,
    vals: Seq<serde_json::Value>,
) -> Seq<(Seq<char>, serde_json::Value)>
    decreases vals.len(),
{
    if vals.len() == 0 {
        base
    } else {
        add_paths_from(add_absent(base, paths_entries_of(vals[0])), vals.drop_first())
    }
}

/// The parsed documents of a stream's path fragments, in order; `None`
/// when any of them does not parse.
pub open spec fn parsed_yamls(ds: Seq<DefV>) -> Option<Seq<serde_json::Value>>
    decreases ds.len(),
{
    if ds.len() == 0 {
        Some(Seq::empty())
    } else {
        match parsed_yamls(ds.drop_last()) {
            None => None,
            Some(acc) => match ds.last() {
                DefV::Verb { .. } => Some(acc),
                DefV::Path { path: _, yaml } => match yaml_value_of(yaml) {
                    None => None,
                    Some(v) => Some(acc.push(v)),
                },
            },
        }
    }
}

/// The merged working document of a group's parsed fragments: the first
/// document, with the route entries of the later ones added under its
/// "paths" member where one exists as an object; absent or ill-shaped
/// members leave the first document as it stands.
pub open spec fn merged_value(vals: Seq<serde_json::Value>) -> serde_json::Value {
    if vals.len() == 0 {
        crate::ext::object_of(Seq::empty())
    } else {
        match entries_of(vals[0]) {
            None => vals[0],
            Some(es) => {
                let i = find_key(es, paths_key());
                if i < 0 {
                    vals[0]
                } else {
                    match entries_of(es[i].1) {
                        None => vals[0],
                        Some(pes) => crate::ext::object_of(
                            es.update(
                                i,
                                (
                                    paths_key(),
                                    crate::ext::object_of(
                                        add_paths_from(pes, vals.drop_first()),
                                    ),
                                ),
                            ),
                        ),
                    }
                }
            },
        }
    }
}

/// What merging one root group yields: the group's fragment texts parsed,
/// merged, and re-serialized under the root key; `None` when a text does
/// not parse or the merged document cannot be serialized.
pub open spec fn merge_group_spec(root: Seq<char>, ds: Seq<DefV>) -> Option<DefV> {
    match parsed_yamls(ds) {
        None => None,
        Some(vals) => match yaml_of(merged_value(vals)) {
            None => None,
            Some(y) => Some(DefV::Path { path: root, yaml: y }),
        },
    }
}

/// The merged path fragments, one per root key: a singleton group keeps its
/// text and takes the root as its path; a larger group is merged.
pub open spec fn merged_paths(ps: Seq<DefV>, keys: Seq<Seq<char>>) -> Option<Seq<DefV>>
    decreases keys.len(),
{
    if keys.len() == 0 {
        Some(Seq::empty())
    } else {
        match merged_paths(ps, keys.drop_last()) {
            None => None,
            Some(acc) => {
                let grp = root_group(ps, keys.last());
                if grp.len() == 1 {
                    Some(acc.push(set_path(grp[0], keys.last())))
                } else {
                    match merge_group_spec(keys.last(), grp) {
                        None => None,
                        Some(d) => Some(acc.push(d)),
                    }
                }
            },
        }
    }
}

/// Whether a fragment is an operation fragment with the given key.
pub open spec fn verb_matches(d: DefV, p: Seq<char>, vb: Seq<char>) -> bool {
    match d {
        DefV::Verb { verb, path, .. } => path == p && verb == vb,
        DefV::Path { .. } => false,
    }
}

/// Whether the stream holds an operation fragment keyed (p, vb).
pub open spec fn has_verb_key(vs: Seq<DefV>, p: Seq<char>, vb: Seq<char>) -> bool {
    exists|j: int| 0 <= j < vs.len() && verb_matches(#[trigger] vs[j], p, vb)
}

/// Operation fragments deduplicated by (canonical path, method): of several
/// fragments with one key, the last applied wins.
pub open spec fn dedup_verbs(vs: Seq<DefV>) -> Seq<DefV>
    decreases vs.len(),
{
    if vs.len() == 0 {
        Seq::empty()
    } else {
        let rest = dedup_verbs(vs.drop_first());
        match vs[0] {
            DefV::Verb { verb, path, .. } => if has_verb_key(vs.drop_first(), path, verb) {
                rest
            } else {
                seq![vs[0]] + rest
            },
            DefV::Path { .. } => seq![vs[0]] + rest,
        }
    }
}

/// What merging a fragment stream yields: the merged path fragments in
/// first-seen root order, then the surviving operation fragments.
pub open spec fn merge_spec(ds: Seq<DefV>) -> Option<Seq<DefV>> {
    let ps = path_defs(ds);
    match merged_paths(ps, root_keys(ps)) {
        None => None,
        Some(ms) => Some(ms + dedup_verbs(verb_defs(ds))),
    }
}

// ---------------------------------------------------------------------------
// Lemmas
// ---------------------------------------------------------------------------

proof fn lemma_find_key_at(es: Seq<(Seq<char>, serde_json::Value)>, k: Seq<char>, idx: int)
    requires
        0 <= idx < es.len(),
        es[idx].0 == k,
        forall|j: int| 0 <= j < idx ==> (#[trigger] es[j]).0 != k,
    ensures
        find_key(es, k) == idx,
    decreases idx,
{
    if idx == 0 {
    } else {
        assert(es[0].0 != k);
        let tail = es.drop_first();
        assert(tail[idx - 1] == es[idx]);
        assert(forall|j: int| 0 <= j < idx - 1 ==> (#[trigger] tail[j]) == es[j + 1]);
        lemma_find_key_at(tail, k, idx - 1);
    }
}

proof fn lemma_find_key_none(es: Seq<(Seq<char>, serde_json::Value)>, k: Seq<char>)
    requires
        forall|j: int| 0 <= j < es.len() ==> (#[trigger] es[j]).0 != k,
    ensures
        find_key(es, k) == -1,
    decreases es.len(),
{
    if es.len() == 0 {
    } else {
        let tail = es.drop_first();
        assert(forall|j: int| 0 <= j < tail.len() ==> (#[trigger] tail[j]) == es[j + 1]);
        lemma_find_key_none(tail, k);
    }
}

proof fn lemma_parsed_yamls_take(ds: Seq<DefV>, t: int)
    requires
        0 <= t <= ds.len(),
        parsed_yamls(ds) is Some,
    ensures
        parsed_yamls(ds.take(t)) is Some,
    decreases ds.len(),
{
    if t == ds.len() {
        assert(ds.take(t) =~= ds);
    } else {
        assert(parsed_yamls(ds.drop_last()) is Some);
        assert(ds.drop_last().take(t) =~= ds.take(t));
        lemma_parsed_yamls_take(ds.drop_last(), t);
    }
}

proof fn lemma_merged_paths_take(ps: Seq<DefV>, keys: Seq<Seq<char>>, t: int)
    requires
        0 <= t <= keys.len(),
        merged_paths(ps, keys) is Some,
    ensures
        merged_paths(ps, keys.take(t)) is Some,
    decreases keys.len(),
{
    if t == keys.len() {
        assert(keys.take(t) =~= keys);
    } else {
        assert(merged_paths(ps, keys.drop_last()) is Some);
        assert(keys.drop_last().take(t) =~= keys.take(t));
        lemma_merged_paths_take(ps, keys.drop_last(), t);
    }
}

proof fn lemma_root_group_empty_when_absent(ps: Seq<DefV>, key: Seq<char>)
    requires
        !ps.map_values(|d: DefV| root_of(d)).contains(key),
    ensures
        root_group(ps, key) == Seq::<DefV>::empty(),
    decreases ps.len(),
{
    let mk = ps.map_values(|d: DefV| root_of(d));
    if ps.len() == 0 {
    } else {
        assert(mk.last() == root_of(ps.last()));
        assert(root_of(ps.last()) != key);
        let mkd = ps.drop_last().map_values(|d: DefV| root_of(d));
        assert(mkd =~= mk.drop_last());
        assert(!mkd.contains(key)) by {
            if mkd.contains(key) {
                let j = choose|j: int| 0 <= j < mkd.len() && mkd[j] == key;
                assert(mk[j] == key);
            }
        }
        lemma_root_group_empty_when_absent(ps.drop_last(), key);
    }
}

// ---------------------------------------------------------------------------
// Executable helpers
// ---------------------------------------------------------------------------

/// The first position of the key `k` in an entry list.
fn find_entry(es: &Vec<(String, serde_json::Value)>, k: &String) -> (r: Option<usize>)
    ensures
        r matches Some(idx) ==> idx < es@.len() && find_key(entry_views(es@), k@) == idx as int,
        r is None ==> find_key(entry_views(es@), k@) == -1,
{
    let ghost ev = entry_views(es@);
    let mut idx: usize = 0;
    while idx < es.len()
        invariant
            idx <= es.len(),
            ev == entry_views(es@),
            forall|j: int| 0 <= j < idx ==> (#[trigger] ev[j]).0 != k@,
        decreases es.len() - idx,
    {
        if es[idx].0.eq(k) {
            proof {
                assert(ev[idx as int].0 == k@);
                lemma_find_key_at(ev, k@, idx as int);
            }
            return Some(idx);
        }
        idx += 1;
    }
    proof {
        lemma_find_key_none(ev, k@);
    }
    None
}

/// The position of the root group keyed `k`, if one exists.
fn find_root_group(gs: &Vec<(String, Vec<APIDef>)>, k: &String) -> (r: Option<usize>)
    ensures
        match r {
            Some(idx) => idx < gs@.len() && gs@[idx as int].0@ == k@,
            None => forall|j: int| 0 <= j < gs@.len() ==> (#[trigger] gs@[j].0)@ != k@,
        },
{
    let mut idx: usize = 0;
    while idx < gs.len()
        invariant
            idx <= gs.len(),
            forall|j: int| 0 <= j < idx ==> (#[trigger] gs@[j].0)@ != k@,
        decreases gs.len() - idx,
    {
        if gs[idx].0.eq(k) {
            return Some(idx);
        }
        idx += 1;
    }
    None
}

// ---------------------------------------------------------------------------
// Merger stages
// ---------------------------------------------------------------------------

/// Merge one group of path fragments sharing a resource root: each
/// fragment's text is parsed back (an unparsable text fails the merge); the
/// first document wins wholesale, later documents contribute only route
/// entries absent so far; the merged document is re-serialized under the
/// root key.
pub fn merge_path_group(base_path: String, paths_to_merge: Vec<APIDef>) -> (r: Result<
    APIDef,
    ProcessError,
>)
    ensures
        r is Ok <==> merge_group_spec(base_path@, def_views(paths_to_merge@)) is Some,
        r matches Ok(d) ==> merge_group_spec(base_path@, def_views(paths_to_merge@)) == Some(d@),
        r matches Err(e) ==> e is Parse || e is Render,
{
    let ghost dv = def_views(paths_to_merge@);
    let mut vals: Vec<serde_json::Value> = Vec::new();
    let mut i: usize = 0;
    proof {
        assert(dv.take(0) =~= Seq::<DefV>::empty());
        assert(vals@ =~= Seq::<serde_json::Value>::empty());
    }
    while i < paths_to_merge.len()
        invariant
            i <= paths_to_merge.len(),
            dv == def_views(paths_to_merge@),
            dv.len() == paths_to_merge@.len(),
            parsed_yamls(dv.take(i as int)) == Some(vals@),
        decreases paths_to_merge.len() - i,
    {
        proof {
            assert(dv.take(i + 1).drop_last() =~= dv.take(i as int));
            assert(dv.take(i + 1).last() == dv[i as int]);
        }
        match &paths_to_merge[i] {
            APIDef::Path(p) => {
                match parse_yaml(p.yaml.as_str()) {
                    Ok(v) => {
                        vals.push(v);
                    },
                    Err(e) => {
                        proof {
                            assert(parsed_yamls(dv.take(i + 1)) is None);
                            if parsed_yamls(dv) is Some {
                                lemma_parsed_yamls_take(dv, i + 1);
                            }
                        }
                        return Err(e);
                    },
                }
            },
            APIDef::Verb(_) => {},
        }
        i += 1;
    }
    proof {
        assert(dv.take(paths_to_merge@.len() as int) =~= dv);
    }
    // all fragments parsed; build the merged document
    let merged: serde_json::Value = build_merged_value(&vals);
    let yaml = match to_yaml(&merged) {
        Ok(s) => s,
        Err(e) => {
            return Err(e);
        },
    };
    Ok(APIDef::Path(APIPath { path: base_path, yaml }))
}

/// The merged working document of the parsed fragments.
fn build_merged_value(vals: &Vec<serde_json::Value>) -> (r: serde_json::Value)
    ensures
        r == merged_value(vals@),
{
    if vals.len() == 0 {
        let empty: Vec<(String, serde_json::Value)> = Vec::new();
        proof {
            assert(entry_views(empty@) =~= Seq::<(Seq<char>, serde_json::Value)>::empty());
        }
        return object_value(empty);
    }
    let first = &vals[0];
    let es_opt = object_entries(first);
    match es_opt {
        None => first.clone(),
        Some(es) => {
            let pk = paths_string();
            match find_entry(&es, &pk) {
                None => first.clone(),
                Some(idx) => {
                    let pes_opt = object_entries(&es[idx].1);
                    proof {
                        assert(entry_views(es@)[idx as int].1 == es@[idx as int].1);
                    }
                    match pes_opt {
                        None => first.clone(),
                        Some(pes) => {
                            let ghost base0 = entry_views(pes@);
                            let mut merged_entries = pes;
                            let mut j: usize = 1;
                            proof {
                                assert(vals@.skip(1).skip(0) =~= vals@.skip(1));
                            }
                            while j < vals.len()
                                invariant
                                    1 <= j <= vals@.len(),
                                    add_paths_from(base0, vals@.skip(1)) == add_paths_from(
                                        entry_views(merged_entries@),
                                        vals@.skip(j as int),
                                    ),
                                decreases vals@.len() - j,
                            {
                                proof {
                                    assert(vals@.skip(j as int)[0] == vals@[j as int]);
                                    assert(vals@.skip(j as int).drop_first() =~= vals@.skip(
                                        j + 1,
                                    ));
                                }
                                add_entry_paths(&mut merged_entries, &vals[j]);
                                j += 1;
                            }
                            proof {
                                assert(vals@.skip(vals@.len() as int) =~= Seq::<
                                    serde_json::Value,
                                >::empty());
                            }
                            let pv = object_value(merged_entries);
                            let ghost orig_es = entry_views(es@);
                            let mut es2 = es;
                            let _old = es2.remove(idx);
                            es2.insert(idx, (paths_string(), pv));
                            proof {
                                assert(entry_views(es2@) =~= orig_es.update(
                                    idx as int,
                                    (
                                        paths_key(),
                                        crate::ext::object_of(
                                            add_paths_from(base0, vals@.skip(1)),
                                        ),
                                    ),
                                ));
                            }
                            object_value(es2)
                        },
                    }
                },
            }
        },
    }
}

/// Add the route entries one later fragment contributes, first seen
/// winning.
fn add_entry_paths(merged: &mut Vec<(String, serde_json::Value)>, v: &serde_json::Value)
    ensures
        entry_views(final(merged)@) == add_absent(entry_views(old(merged)@), paths_entries_of(*v)),
{
    let ghost base = entry_views(merged@);
    let ves_opt = object_entries(v);
    match ves_opt {
        None => {
            proof {
                assert(paths_entries_of(*v) =~= Seq::<(Seq<char>, serde_json::Value)>::empty());
            }
        },
        Some(ves) => {
            let pk = paths_string();
            match find_entry(&ves, &pk) {
                None => {
                    proof {
                        assert(paths_entries_of(*v) =~= Seq::<
                            (Seq<char>, serde_json::Value),
                        >::empty());
                    }
                },
                Some(pi) => {
                    let vpes_opt = object_entries(&ves[pi].1);
                    proof {
                        assert(entry_views(ves@)[pi as int].1 == ves@[pi as int].1);
                    }
                    match vpes_opt {
                        None => {
                            proof {
                                assert(paths_entries_of(*v) =~= Seq::<
                                    (Seq<char>, serde_json::Value),
                                >::empty());
                            }
                        },
                        Some(vpes) => {
                            let ghost more = entry_views(vpes@);
                            proof {
                                assert(paths_entries_of(*v) == more);
                                assert(more.skip(0) =~= more);
                            }
                            let mut t: usize = 0;
                            while t < vpes.len()
                                invariant
                                    t <= vpes.len(),
                                    more == entry_views(vpes@),
                                    add_absent(base, more) == add_absent(
                                        entry_views(merged@),
                                        more.skip(t as int),
                                    ),
                                decreases vpes.len() - t,
                            {
                                proof {
                                    assert(more.skip(t as int)[0] == more[t as int]);
                                    assert(more.skip(t as int).drop_first() =~= more.skip(t + 1));
                                }
                                let present = has_method(merged, &vpes[t].0);
                                if !present {
                                    let k = vpes[t].0.clone();
                                    let val = vpes[t].1.clone();
                                    let ghost merged0 = entry_views(merged@);
                                    merged.push((k, val));
                                    proof {
                                        assert(entry_views(merged@) =~= merged0.push(
                                            more[t as int],
                                        ));
                                    }
                                }
                                t += 1;
                            }
                            proof {
                                assert(more.skip(vpes@.len() as int) =~= Seq::<
                                    (Seq<char>, serde_json::Value),
                                >::empty());
                            }
                        },
                    }
                },
            }
        },
    }
}

/// Whether a later operation fragment carries the same key as `vs[i]`.
pub open spec fn dup_later(dv: Seq<DefV>, i: int) -> bool {
    match dv[i] {
        DefV::Verb { verb, path, .. } => has_verb_key(dv.skip(i + 1), path, verb),
        DefV::Path { .. } => false,
    }
}

fn has_later_dup(vs: &Vec<APIDef>, i: usize) -> (b: bool)
    requires
        i < vs@.len(),
    ensures
        b == dup_later(def_views(vs@), i as int),
{
    let ghost dvv = def_views(vs@);
    let n = vs.len();
    match &vs[i] {
        APIDef::Path(_) => false,
        APIDef::Verb(v) => {
            let ghost vpath = v.path@;
            let ghost vverb = v.verb@;
            proof {
                assert(dvv[i as int] == vs@[i as int]@);
            }
            let mut j: usize = i + 1;
            while j < n
                invariant
                    i < j <= vs@.len(),
                    n == vs@.len(),
                    dvv == def_views(vs@),
                    dvv.len() == vs@.len(),
                    i < dvv.len(),
                    dvv[i as int] matches DefV::Verb { verb, path, .. } && verb == vverb && path
                        == vpath,
                    v.path@ == vpath,
                    v.verb@ == vverb,
                    forall|j2: int| i < j2 < j ==> !verb_matches(#[trigger] dvv[j2], vpath, vverb),
                decreases vs@.len() - j,
            {
                proof {
                    assert(dvv[j as int] == vs@[j as int]@);
                }
                match &vs[j] {
                    APIDef::Verb(w) => {
                        let same = w.path.eq(&v.path) && w.verb.eq(&v.verb);
                        proof {
                            assert(dvv[j as int] == DefV::Verb {
                                verb: w.verb@,
                                path: w.path@,
                                root: w.root_path@,
                                yaml: w.yaml@,
                            });
                        }
                        if same {
                            proof {
                                assert(verb_matches(dvv[j as int], vpath, vverb));
                                assert(dvv.skip(i + 1)[j - i - 1] == dvv[j as int]);
                            }
                            return true;
                        }
                    },
                    APIDef::Path(_) => {},
                }
                j += 1;
            }
            proof {
                assert(!has_verb_key(dvv.skip(i + 1), vpath, vverb)) by {
                    if has_verb_key(dvv.skip(i + 1), vpath, vverb) {
                        let jj = choose|jj: int|
                            0 <= jj < dvv.skip(i + 1).len() && verb_matches(
                                #[trigger] dvv.skip(i + 1)[jj],
                                vpath,
                                vverb,
                            );
                        assert(dvv.skip(i + 1)[jj] == dvv[i + 1 + jj]);
                    }
                }
            }
            false
        },
    }
}

/// Split a fragment stream into its path and operation fragments.
fn partition_defs(defs: &Vec<APIDef>) -> (r: (Vec<APIDef>, Vec<APIDef>))
    ensures
        def_views(r.0@) == path_defs(def_views(defs@)),
        def_views(r.1@) == verb_defs(def_views(defs@)),
{
    let ghost dv = def_views(defs@);
    let mut ps: Vec<APIDef> = Vec::new();
    let mut vs: Vec<APIDef> = Vec::new();
    let mut i: usize = 0;
    proof {
        assert(dv.take(0) =~= Seq::<DefV>::empty());
        assert(def_views(ps@) =~= Seq::<DefV>::empty());
        assert(def_views(vs@) =~= Seq::<DefV>::empty());
    }
    while i < defs.len()
        invariant
            i <= defs.len(),
            dv == def_views(defs@),
            dv.len() == defs@.len(),
            def_views(ps@) == path_defs(dv.take(i as int)),
            def_views(vs@) == verb_defs(dv.take(i as int)),
        decreases defs.len() - i,
    {
        proof {
            assert(dv.take(i + 1).drop_last() =~= dv.take(i as int));
            assert(dv.take(i + 1).last() == dv[i as int]);
        }
        let d = clone_def(&defs[i]);
        match &defs[i] {
            APIDef::Path(_) => {
                let ghost p0 = def_views(ps@);
                ps.push(d);
                proof {
                    assert(def_views(ps@) =~= p0.push(dv[i as int]));
                }
            },
            APIDef::Verb(_) => {
                let ghost v0 = def_views(vs@);
                vs.push(d);
                proof {
                    assert(def_views(vs@) =~= v0.push(dv[i as int]));
                }
            },
        }
        i += 1;
    }
    proof {
        assert(dv.take(defs@.len() as int) =~= dv);
    }
    (ps, vs)
}

/// The resource root of a fragment, as a string.
fn root_of_def(d: &APIDef) -> (r: String)
    ensures
        r@ == root_of(d@),
{
    match d {
        APIDef::Path(p) => crate::paths::get_root_path(p.path.as_str()),
        APIDef::Verb(v) => crate::paths::get_root_path(v.path.as_str()),
    }
}

/// Group path fragments by resource root: keys in order of first
/// appearance, each group's fragments in stream order.
fn group_paths(ps: &Vec<APIDef>) -> (r: Vec<(String, Vec<APIDef>)>)
    ensures
        r@.len() == root_keys(def_views(ps@)).len(),
        forall|g: int|
            0 <= g < r@.len() ==> (#[trigger] r@[g].0)@ == root_keys(def_views(ps@))[g],
        forall|g: int|
            0 <= g < r@.len() ==> def_views((#[trigger] r@[g].1)@) == root_group(
                def_views(ps@),
                r@[g].0@,
            ),
{
    let ghost pv = def_views(ps@);
    let mut out: Vec<(String, Vec<APIDef>)> = Vec::new();
    let mut i: usize = 0;
    proof {
        assert(pv.take(0) =~= Seq::<DefV>::empty());
    }
    while i < ps.len()
        invariant
            i <= ps.len(),
            pv == def_views(ps@),
            pv.len() == ps@.len(),
            out@.len() == root_keys(pv.take(i as int)).len(),
            forall|g: int|
                0 <= g < out@.len() ==> (#[trigger] out@[g].0)@ == root_keys(pv.take(i as int))[g],
            forall|g: int|
                0 <= g < out@.len() ==> def_views((#[trigger] out@[g].1)@) == root_group(
                    pv.take(i as int),
                    out@[g].0@,
                ),
            forall|g1: int, g2: int|
                0 <= g1 < g2 < out@.len() ==> (#[trigger] out@[g1].0)@ != (#[trigger] out@[g2].0)@,
        decreases ps.len() - i,
    {
        let k = root_of_def(&ps[i]);
        let body = clone_def(&ps[i]);
        let ghost pre = pv.take(i as int);
        let ghost post = pv.take(i + 1);
        let ghost mk_pre = pre.map_values(|d0: DefV| root_of(d0));
        let ghost mk_post = post.map_values(|d0: DefV| root_of(d0));
        proof {
            assert(post.drop_last() =~= pre);
            assert(post.last() == pv[i as int]);
            assert(mk_post.drop_last() =~= mk_pre);
            assert(mk_post.last() == root_of(pv[i as int]));
            assert(k@ == root_of(pv[i as int]));
            assert(root_keys(post) == if mk_pre.contains(k@) {
                root_keys(pre)
            } else {
                root_keys(pre).push(k@)
            }) by {
                assert(first_seen_keys(mk_post) == if first_seen_keys(mk_pre).contains(k@) {
                    first_seen_keys(mk_pre)
                } else {
                    first_seen_keys(mk_pre).push(k@)
                });
                lemma_first_seen_keys_contains(mk_pre);
            }
            assert(forall|key: Seq<char>|
                root_group(post, key) == if root_of(pv[i as int]) == key {
                    root_group(pre, key).push(pv[i as int])
                } else {
                    root_group(pre, key)
                });
        }
        let found = find_root_group(&out, &k);
        match found {
            Some(idx) => {
                proof {
                    assert(root_keys(pre).contains(k@)) by {
                        assert(root_keys(pre)[idx as int] == out@[idx as int].0@);
                    }
                    lemma_first_seen_keys_contains(mk_pre);
                    assert(root_keys(post) == root_keys(pre));
                }
                let ghost orig = out@;
                let ghost oldkey = out@[idx as int].0@;
                let entry = out.remove(idx);
                let (key_s, mut bodies_v) = entry;
                let ghost bodies0 = bodies_v@;
                bodies_v.push(body);
                proof {
                    assert(def_views(bodies_v@) =~= def_views(bodies0).push(pv[i as int]));
                }
                let ghost ne = (key_s, bodies_v);
                out.insert(idx, (key_s, bodies_v));
                proof {
                    assert(out@ =~= orig.update(idx as int, ne));
                    assert(ne.0@ == oldkey);
                    assert(oldkey == k@);
                    assert forall|g: int| 0 <= g < out@.len() implies def_views(
                        (#[trigger] out@[g].1)@,
                    ) == root_group(post, out@[g].0@) by {
                        if g == idx {
                            assert(out@[g] == ne);
                            assert(def_views(bodies0) == root_group(pre, k@));
                            assert(root_group(post, k@) == root_group(pre, k@).push(pv[i as int]));
                        } else {
                            assert(out@[g] == orig[g]);
                            assert(out@[g].0@ != k@);
                        }
                    }
                }
            },
            None => {
                let mut bodies: Vec<APIDef> = Vec::new();
                bodies.push(body);
                proof {
                    assert(def_views(bodies@) =~= seq![pv[i as int]]);
                    assert(!root_keys(pre).contains(k@)) by {
                        if root_keys(pre).contains(k@) {
                            let g = choose|g: int|
                                0 <= g < root_keys(pre).len() && root_keys(pre)[g] == k@;
                            assert(out@[g].0@ == k@);
                        }
                    }
                    lemma_first_seen_keys_contains(mk_pre);
                }
                out.push((k, bodies));
                proof {
                    assert forall|g: int| 0 <= g < out@.len() implies def_views(
                        (#[trigger] out@[g].1)@,
                    ) == root_group(post, out@[g].0@) by {
                        if g < out@.len() - 1 {
                            assert(out@[g].0@ != k@);
                        } else {
                            assert(root_group(pre, k@) =~= Seq::<DefV>::empty()) by {
                                lemma_root_group_empty_when_absent(pre, k@);
                            }
                        }
                    }
                }
            },
        }
        i += 1;
    }
    proof {
        assert(pv.take(ps@.len() as int) =~= pv);
    }
    out
}

/// Merge a fragment stream: path fragments are merged by resource root,
/// one surviving fragment per root, in first-seen root order; operation
/// fragments are deduplicated by (canonical path, method), the last one
/// with a key surviving; the merged paths come first, the operations after
/// them.  The only failures are a fragment text that does not parse back
/// and a merged document that cannot be serialized.
pub fn merge_definitions(defs: Vec<APIDef>) -> (r: Result<Vec<APIDef>, ProcessError>)
    ensures
        r is Ok <==> merge_spec(def_views(defs@)) is Some,
        r matches Ok(ds) ==> merge_spec(def_views(defs@)) == Some(def_views(ds@)),
        r matches Err(e) ==> e is Parse || e is Render,
{
    let ghost dv = def_views(defs@);
    let ghost pd = path_defs(dv);
    let ghost rk = root_keys(pd);
    let (paths_vec, verbs_vec) = partition_defs(&defs);
    let groups = group_paths(&paths_vec);
    let mut out: Vec<APIDef> = Vec::new();
    let mut g: usize = 0;
    proof {
        assert(rk.take(0) =~= Seq::<Seq<char>>::empty());
        assert(def_views(out@) =~= Seq::<DefV>::empty());
    }
    while g < groups.len()
        invariant
            g <= groups.len(),
            dv == def_views(defs@),
            pd == path_defs(dv),
            rk == root_keys(pd),
            groups@.len() == rk.len(),
            forall|g2: int| 0 <= g2 < groups@.len() ==> (#[trigger] groups@[g2].0)@ == rk[g2],
            forall|g2: int|
                0 <= g2 < groups@.len() ==> def_views((#[trigger] groups@[g2].1)@) == root_group(
                    pd,
                    groups@[g2].0@,
                ),
            merged_paths(pd, rk.take(g as int)) matches Some(acc) && def_views(out@) == acc,
        decreases groups.len() - g,
    {
        proof {
            assert(rk.take(g + 1).drop_last() =~= rk.take(g as int));
            assert(rk.take(g + 1).last() == rk[g as int]);
        }
        let glen = groups[g].1.len();
        if glen == 1 {
            let ghost o0 = def_views(out@);
            match &groups[g].1[0] {
                APIDef::Path(p) => {
                    out.push(
                        APIDef::Path(APIPath { path: groups[g].0.clone(), yaml: p.yaml.clone() }),
                    );
                },
                APIDef::Verb(_) => {
                    let d = clone_def(&groups[g].1[0]);
                    out.push(d);
                },
            }
            proof {
                assert(def_views(groups@[g as int].1@)[0] == root_group(pd, rk[g as int])[0]);
                assert(def_views(out@) =~= o0.push(
                    set_path(root_group(pd, rk[g as int])[0], rk[g as int]),
                ));
            }
        } else {
            // clone the group to hand it to the group merge
            let mut grp: Vec<APIDef> = Vec::new();
            let ghost gv = def_views(groups@[g as int].1@);
            let mut t: usize = 0;
            proof {
                assert(gv.take(0) =~= Seq::<DefV>::empty());
                assert(def_views(grp@) =~= Seq::<DefV>::empty());
            }
            while t < groups[g].1.len()
                invariant
                    t <= groups@[g as int].1@.len(),
                    g < groups@.len(),
                    gv == def_views(groups@[g as int].1@),
                    gv.len() == groups@[g as int].1@.len(),
                    def_views(grp@) == gv.take(t as int),
                decreases groups@[g as int].1@.len() - t,
            {
                let ghost g0 = def_views(grp@);
                let d = clone_def(&groups[g].1[t]);
                grp.push(d);
                proof {
                    assert(def_views(grp@) =~= g0.push(gv[t as int]));
                    assert(gv.take(t + 1) =~= gv.take(t as int).push(gv[t as int]));
                }
                t += 1;
            }
            proof {
                assert(gv.take(groups@[g as int].1@.len() as int) =~= gv);
            }
            let ghost o0 = def_views(out@);
            match merge_path_group(groups[g].0.clone(), grp) {
                Ok(d) => {
                    let ghost dview = d@;
                    out.push(d);
                    proof {
                        assert(def_views(out@) =~= o0.push(dview));
                    }
                },
                Err(e) => {
                    proof {
                        assert(merged_paths(pd, rk.take(g + 1)) is None);
                        if merged_paths(pd, rk) is Some {
                            lemma_merged_paths_take(pd, rk, g + 1);
                        }
                    }
                    return Err(e);
                },
            }
        }
        g += 1;
    }
    proof {
        assert(rk.take(rk.len() as int) =~= rk);
    }
    // deduplicate the operation fragments and append the survivors
    let ghost vd = verb_defs(dv);
    let ghost base_out = def_views(out@);
    let mut i: usize = 0;
    proof {
        assert(vd.skip(0) =~= vd);
    }
    while i < verbs_vec.len()
        invariant
            i <= verbs_vec.len(),
            vd == def_views(verbs_vec@),
            vd.len() == verbs_vec@.len(),
            base_out + dedup_verbs(vd) == def_views(out@) + dedup_verbs(vd.skip(i as int)),
        decreases verbs_vec.len() - i,
    {
        proof {
            assert(vd.skip(i as int)[0] == vd[i as int]);
            assert(vd.skip(i as int).drop_first() =~= vd.skip(i + 1));
        }
        let keep: bool = match &verbs_vec[i] {
            APIDef::Verb(_) => !has_later_dup(&verbs_vec, i),
            APIDef::Path(_) => true,
        };
        proof {
            assert(dup_later(vd, i as int) == (vd[i as int] matches DefV::Verb {
                verb,
                path,
                ..
            } && has_verb_key(vd.skip(i + 1), path, verb)));
        }
        if keep {
            let ghost o0 = def_views(out@);
            let d = clone_def(&verbs_vec[i]);
            out.push(d);
            proof {
                assert(def_views(out@) =~= o0.push(vd[i as int]));
                assert(dedup_verbs(vd.skip(i as int)) == seq![vd[i as int]] + dedup_verbs(
                    vd.skip(i + 1),
                ));
                assert(o0.push(vd[i as int]) + dedup_verbs(vd.skip(i + 1)) =~= o0 + (seq![
                    vd[i as int],
                ] + dedup_verbs(vd.skip(i + 1))));
            }
        } else {
            proof {
                assert(dedup_verbs(vd.skip(i as int)) == dedup_verbs(vd.skip(i + 1)));
            }
        }
        i += 1;
    }
    proof {
        assert(vd.skip(verbs_vec@.len() as int) =~= Seq::<DefV>::empty());
        assert(base_out + Seq::<DefV>::empty() =~= base_out);
        assert(def_views(out@) + Seq::<DefV>::empty() =~= def_views(out@));
    }
    Ok(out)
}

} // verus!
