//! Splitting a parsed definition document into fragments.
//!
//! Raw routes are grouped by canonical path; each group's method maps are
//! unioned (first seen wins on a repeated method); one path fragment and one
//! operation fragment per method are emitted, each rendered against the
//! document's skeleton.

use vstd::prelude::*;

use crate::ext::{object_value, par_process_groups, to_upper, to_yaml, upper_of, yaml_of};
use crate::paths::{normalize_path, normalize_spec, root_spec};
use crate::types::{
    entry_views, paths_key, APIDef, APIPath, APIVerb, BodyV, DefV, ProcessError, RawDocument,
    RouteBody, def_views,
};

verus! {

broadcast use vstd::seq::Seq::group_seq_extra;

// ---------------------------------------------------------------------------
// Specification model
// ---------------------------------------------------------------------------

pub open spec fn body_views(bs: Seq<RouteBody>) -> Seq<BodyV> {
    bs.map_values(|b: RouteBody| b@)
}

/// Whether an entry list holds the key `k`.
pub open spec fn has_key(es: Seq<(Seq<char>, serde_json::Value)>, k: Seq<char>) -> bool {
    exists|i: int| 0 <= i < es.len() && es[i].0 == k
}

/// `base` extended by those entries of `more` whose key it does not hold
/// yet: the first entry seen for a key wins.
pub open spec fn add_absent(
    base: Seq<(Seq<char>, serde_json::Value)>,
    more: Seq<(Seq<char>, serde_json::Value)>,
) -> Seq<(Seq<char>, serde_json::Value)>
    decreases more.len(),
{
    if more.len() == 0 {
        base
    } else {
        let b2 = if has_key(base, more[0].0) {
            base
        } else {
            base.push(more[0])
        };
        add_absent(b2, more.drop_first())
    }
}

/// The union of the method maps of a group of route bodies, in order;
/// bodies that are not method maps contribute nothing.
pub open spec fn methods_union(bodies: Seq<BodyV>) -> Seq<(Seq<char>, serde_json::Value)>
    decreases bodies.len(),
{
    if bodies.len() == 0 {
        Seq::empty()
    } else {
        let prev = methods_union(bodies.drop_last());
        match bodies.last() {
            BodyV::Methods(m) => add_absent(prev, m),
            BodyV::Opaque(_) => prev,
        }
    }
}

/// The merged body of a canonical-route group: a single body passes through
/// unchanged; several bodies become the union of their method maps.
pub open spec fn merged_body(bodies: Seq<BodyV>) -> BodyV {
    if bodies.len() == 1 {
        bodies[0]
    } else {
        BodyV::Methods(methods_union(bodies))
    }
}

/// The keys of a route list after canonicalization, deduplicated, in order
/// of first appearance.
pub open spec fn first_seen_keys(keys: Seq<Seq<char>>) -> Seq<Seq<char>>
    decreases keys.len(),
{
    if keys.len() == 0 {
        Seq::empty()
    } else {
        let rest = first_seen_keys(keys.drop_last());
        if rest.contains(keys.last()) {
            rest
        } else {
            rest.push(keys.last())
        }
    }
}

pub open spec fn canon_keys(routes: Seq<(Seq<char>, BodyV)>) -> Seq<Seq<char>> {
    first_seen_keys(routes.map_values(|r: (Seq<char>, BodyV)| normalize_spec(r.0)))
}

/// The bodies of the routes that canonicalize to `k`, in document order.
pub open spec fn group_of(routes: Seq<(Seq<char>, BodyV)>, k: Seq<char>) -> Seq<BodyV>
    decreases routes.len(),
{
    if routes.len() == 0 {
        Seq::empty()
    } else {
        let prev = group_of(routes.drop_last(), k);
        if normalize_spec(routes.last().0) == k {
            prev.push(routes.last().1)
        } else {
            prev
        }
    }
}

/// The tree a route body stands for: a method map as an object, anything
/// else as itself.
pub open spec fn body_value(b: BodyV) -> serde_json::Value {
    match b {
        BodyV::Methods(m) => crate::ext::object_of(m),
        BodyV::Opaque(v) => v,
    }
}

/// The working document of a fragment: the skeleton entries plus a single
/// "paths" member.
pub open spec fn fragment_doc(
    skel: Seq<(Seq<char>, serde_json::Value)>,
    paths_value: serde_json::Value,
) -> serde_json::Value {
    crate::ext::object_of(skel.push((paths_key(), paths_value)))
}

/// The text of a path fragment: skeleton plus `{path: body}` under "paths".
pub open spec fn path_yaml_spec(
    skel: Seq<(Seq<char>, serde_json::Value)>,
    path: Seq<char>,
    b: BodyV,
) -> Option<Seq<char>> {
    yaml_of(fragment_doc(skel, crate::ext::object_of(seq![(path, body_value(b))])))
}

/// The text of an operation fragment: skeleton plus `{path: {verb: body}}`
/// under "paths".
pub open spec fn verb_yaml_spec(
    skel: Seq<(Seq<char>, serde_json::Value)>,
    path: Seq<char>,
    verb: Seq<char>,
    vb: serde_json::Value,
) -> Option<Seq<char>> {
    yaml_of(
        fragment_doc(
            skel,
            crate::ext::object_of(seq![(path, crate::ext::object_of(seq![(verb, vb)]))]),
        ),
    )
}

/// The operation fragments of a merged method map, in map order; `None`
/// when any of them cannot be rendered.
pub open spec fn verb_frags(
    skel: Seq<(Seq<char>, serde_json::Value)>,
    k: Seq<char>,
    ms: Seq<(Seq<char>, serde_json::Value)>,
) -> Option<Seq<DefV>>
    decreases ms.len(),
{
    if ms.len() == 0 {
        Some(Seq::empty())
    } else {
        match verb_frags(skel, k, ms.drop_last()) {
            None => None,
            Some(acc) => match verb_yaml_spec(skel, k, ms.last().0, ms.last().1) {
                None => None,
                Some(y) => Some(
                    acc.push(
                        DefV::Verb {
                            verb: upper_of(ms.last().0),
                            path: k,
                            root: root_spec(k),
                            yaml: y,
                        },
                    ),
                ),
            },
        }
    }
}

/// The fragments of one canonical-route group: its path fragment, then one
/// operation fragment per method of the merged body.
pub open spec fn group_frags(
    skel: Seq<(Seq<char>, serde_json::Value)>,
    k: Seq<char>,
    bodies: Seq<BodyV>,
) -> Option<Seq<DefV>> {
    let mb = merged_body(bodies);
    match path_yaml_spec(skel, k, mb) {
        None => None,
        Some(py) => {
            let pf = DefV::Path { path: k, yaml: py };
            match mb {
                BodyV::Methods(ms) => match verb_frags(skel, k, ms) {
                    None => None,
                    Some(vs) => Some(seq![pf] + vs),
                },
                BodyV::Opaque(_) => Some(seq![pf]),
            }
        },
    }
}

/// The fragments of the groups named by `keys`, concatenated in key order.
pub open spec fn groups_frags(
    skel: Seq<(Seq<char>, serde_json::Value)>,
    routes: Seq<(Seq<char>, BodyV)>,
    keys: Seq<Seq<char>>,
) -> Option<Seq<DefV>>
    decreases keys.len(),
{
    if keys.len() == 0 {
        Some(Seq::empty())
    } else {
        match groups_frags(skel, routes, keys.drop_last()) {
            None => None,
            Some(acc) => match group_frags(skel, keys.last(), group_of(routes, keys.last())) {
                None => None,
                Some(fs) => Some(acc + fs),
            },
        }
    }
}

/// What splitting a document yields: nothing when it has no routes,
/// otherwise every group's fragments in first-seen key order; `None` when
/// some fragment cannot be rendered.
pub open spec fn split_spec(d: crate::types::DocV) -> Option<Seq<DefV>> {
    match d.routes {
        None => Some(Seq::empty()),
        Some(routes) => groups_frags(d.skeleton, routes, canon_keys(routes)),
    }
}

// ---------------------------------------------------------------------------
// Executable helpers
// ---------------------------------------------------------------------------

/// A copy of an entry list, entry by entry.
pub(crate) fn clone_entries(es: &Vec<(String, serde_json::Value)>) -> (r: Vec<(String, serde_json::Value)>)
    ensures
        entry_views(r@) == entry_views(es@),
{
    let mut r: Vec<(String, serde_json::Value)> = Vec::new();
    let mut i: usize = 0;
    while i < es.len()
        invariant
            i <= es.len(),
            entry_views(r@) == entry_views(es@.take(i as int)),
        decreases es.len() - i,
    {
        let k = es[i].0.clone();
        let v = es[i].1.clone();
        r.push((k, v));
        proof {
            assert(entry_views(r@) =~= entry_views(es@.take(i + 1)));
        }
        i += 1;
    }
    proof {
        assert(es@.take(es@.len() as int) =~= es@);
    }
    r
}

/// A copy of a route body.
pub(crate) fn clone_body(b: &RouteBody) -> (r: RouteBody)
    ensures
        r@ == b@,
{
    match b {
        RouteBody::Methods(m) => RouteBody::Methods(clone_entries(m)),
        RouteBody::Opaque(v) => RouteBody::Opaque(v.clone()),
    }
}

/// The string "paths".
pub(crate) fn paths_string() -> (r: String)
    ensures
        r@ == paths_key(),
{
    let r = "paths".to_owned();
    proof {
        reveal_strlit("paths");
        assert(r@ =~= paths_key());
    }
    r
}

/// Whether the entry list holds the method `k`.
pub(crate) fn has_method(es: &Vec<(String, serde_json::Value)>, k: &String) -> (b: bool)
    ensures
        b == has_key(entry_views(es@), k@),
{
    let mut i: usize = 0;
    while i < es.len()
        invariant
            i <= es.len(),
            forall|j: int| 0 <= j < i ==> entry_views(es@)[j].0 != k@,
        decreases es.len() - i,
    {
        if es[i].0.eq(k) {
            assert(entry_views(es@)[i as int].0 == k@);
            return true;
        }
        i += 1;
    }
    false
}

// ---------------------------------------------------------------------------
// Splitter stages
// ---------------------------------------------------------------------------

/// The merged body of one canonical-route group: a single entry is passed
/// through unchanged; several entries have their method maps unioned, the
/// first occurrence of a method winning.
pub fn merge_path_data(group: &Vec<RouteBody>) -> (r: RouteBody)
    ensures
        r@ == merged_body(body_views(group@)),
{
    let ghost bv = body_views(group@);
    if group.len() == 1 {
        let r = clone_body(&group[0]);
        proof {
            assert(bv[0] == group@[0]@);
        }
        r
    } else {
        let mut merged: Vec<(String, serde_json::Value)> = Vec::new();
        let mut g: usize = 0;
        proof {
            assert(bv.take(0) =~= Seq::<BodyV>::empty());
            assert(entry_views(merged@) =~= Seq::<(Seq<char>, serde_json::Value)>::empty());
        }
        while g < group.len()
            invariant
                g <= group.len(),
                bv == body_views(group@),
                entry_views(merged@) == methods_union(bv.take(g as int)),
            decreases group.len() - g,
        {
            proof {
                assert(bv.take(g + 1).drop_last() =~= bv.take(g as int));
                assert(bv.take(g + 1).last() == bv[g as int]);
                assert(bv[g as int] == group@[g as int]@);
            }
            match &group[g] {
                RouteBody::Methods(m) => {
                    let ghost base = entry_views(merged@);
                    let ghost more = entry_views(m@);
                    let mut t: usize = 0;
                    proof {
                        assert(more.skip(0) =~= more);
                    }
                    while t < m.len()
                        invariant
                            t <= m.len(),
                            more == entry_views(m@),
                            add_absent(base, more) == add_absent(
                                entry_views(merged@),
                                more.skip(t as int),
                            ),
                        decreases m.len() - t,
                    {
                        proof {
                            assert(more.skip(t as int)[0] == more[t as int]);
                            assert(more.skip(t as int).drop_first() =~= more.skip(t + 1));
                        }
                        let present = has_method(&merged, &m[t].0);
                        if !present {
                            let k = m[t].0.clone();
                            let v = m[t].1.clone();
                            let ghost merged0 = entry_views(merged@);
                            merged.push((k, v));
                            proof {
                                assert(entry_views(merged@) =~= merged0.push(more[t as int]));
                            }
                        }
                        t += 1;
                    }
                    proof {
                        assert(more.skip(m@.len() as int) =~= Seq::<
                            (Seq<char>, serde_json::Value),
                        >::empty());
                    }
                },
                RouteBody::Opaque(_) => {},
            }
            g += 1;
        }
        proof {
            assert(bv.take(group@.len() as int) =~= bv);
        }
        RouteBody::Methods(merged)
    }
}

/// The text of a path fragment: the document's skeleton plus a "paths"
/// member holding `{path: body}`.
pub fn create_path_yaml(doc: &RawDocument, path: &String, body: &RouteBody) -> (r: Result<
    String,
    ProcessError,
>)
    ensures
        r is Ok <==> path_yaml_spec(doc@.skeleton, path@, body@) is Some,
        r matches Ok(s) ==> path_yaml_spec(doc@.skeleton, path@, body@) == Some(s@),
        r matches Err(e) ==> e is Render,
{
    let bv = body_to_value(body);
    let mut inner: Vec<(String, serde_json::Value)> = Vec::new();
    inner.push((path.clone(), bv));
    proof {
        assert(entry_views(inner@) =~= seq![(path@, body_value(body@))]);
    }
    let inner_obj = object_value(inner);
    let mut entries = clone_entries(&doc.skeleton);
    let pk = paths_string();
    let ghost skel = doc@.skeleton;
    let ghost entries0 = entry_views(entries@);
    entries.push((pk, inner_obj));
    proof {
        assert(entry_views(entries@) =~= skel.push(
            (paths_key(), crate::ext::object_of(seq![(path@, body_value(body@))])),
        ));
    }
    let w = object_value(entries);
    to_yaml(&w)
}

/// The tree a route body stands for.
fn body_to_value(b: &RouteBody) -> (r: serde_json::Value)
    ensures
        r == body_value(b@),
{
    match b {
        RouteBody::Methods(m) => {
            let es = clone_entries(m);
            object_value(es)
        },
        RouteBody::Opaque(v) => v.clone(),
    }
}

/// The text of an operation fragment: the document's skeleton plus a
/// "paths" member holding `{path: {verb: body}}`.
pub fn create_verb_yaml(
    doc: &RawDocument,
    path: &String,
    verb: &String,
    verb_data: &serde_json::Value,
) -> (r: Result<String, ProcessError>)
    ensures
        r is Ok <==> verb_yaml_spec(doc@.skeleton, path@, verb@, *verb_data) is Some,
        r matches Ok(s) ==> verb_yaml_spec(doc@.skeleton, path@, verb@, *verb_data) == Some(s@),
        r matches Err(e) ==> e is Render,
{
    let mut verb_entries: Vec<(String, serde_json::Value)> = Vec::new();
    verb_entries.push((verb.clone(), verb_data.clone()));
    proof {
        assert(entry_views(verb_entries@) =~= seq![(verb@, *verb_data)]);
    }
    let verb_obj = object_value(verb_entries);
    let mut inner: Vec<(String, serde_json::Value)> = Vec::new();
    inner.push((path.clone(), verb_obj));
    proof {
        assert(entry_views(inner@) =~= seq![
            (path@, crate::ext::object_of(seq![(verb@, *verb_data)])),
        ]);
    }
    let inner_obj = object_value(inner);
    let mut entries = clone_entries(&doc.skeleton);
    let pk = paths_string();
    let ghost skel = doc@.skeleton;
    entries.push((pk, inner_obj));
    proof {
        assert(entry_views(entries@) =~= skel.push(
            (
                paths_key(),
                crate::ext::object_of(
                    seq![(path@, crate::ext::object_of(seq![(verb@, *verb_data)]))],
                ),
            ),
        ));
    }
    let w = object_value(entries);
    to_yaml(&w)
}

/// A copy of a fragment.
pub(crate) fn clone_def(d: &APIDef) -> (r: APIDef)
    ensures
        r@ == d@,
{
    match d {
        APIDef::Path(p) => APIDef::Path(APIPath { path: p.path.clone(), yaml: p.yaml.clone() }),
        APIDef::Verb(v) => APIDef::Verb(
            APIVerb {
                verb: v.verb.clone(),
                path: v.path.clone(),
                root_path: v.root_path.clone(),
                yaml: v.yaml.clone(),
            },
        ),
    }
}

/// A copy of an error.
pub(crate) fn clone_error(e: &ProcessError) -> (r: ProcessError)
    ensures
        r is Render <==> *e is Render,
        r is Parse <==> *e is Parse,
{
    match e {
        ProcessError::Parse { message } => ProcessError::Parse { message: message.clone() },
        ProcessError::Render { message } => ProcessError::Render { message: message.clone() },
    }
}

/// The position of the group keyed `k`, if one exists.
fn find_group(gs: &Vec<(String, Vec<RouteBody>)>, k: &String) -> (r: Option<usize>)
    ensures
        match r {
            Some(idx) => idx < gs@.len() && gs@[idx as int].0@ == k@,
            None => forall|j: int| 0 <= j < gs@.len() ==> (#[trigger] gs@[j].0)@ != k@,
        },
{
    let mut idx: usize = 0;
    while idx < gs.len()
        invariant
            idx <= gs.len(),
            forall|j: int| 0 <= j < idx ==> (#[trigger] gs@[j].0)@ != k@,
        decreases gs.len() - idx,
    {
        if gs[idx].0.eq(k) {
            return Some(idx);
        }
        idx += 1;
    }
    None
}

/// Group the raw routes by canonical path: keys in order of first
/// appearance, each group's bodies in document order.
fn group_routes(routes: &Vec<(String, RouteBody)>) -> (r: Vec<(String, Vec<RouteBody>)>)
    ensures
        r@.len() == canon_keys(crate::types::route_views(routes@)).len(),
        forall|g: int|
            0 <= g < r@.len() ==> (#[trigger] r@[g].0)@ == canon_keys(
                crate::types::route_views(routes@),
            )[g],
        forall|g: int|
            0 <= g < r@.len() ==> body_views((#[trigger] r@[g].1)@) == group_of(
                crate::types::route_views(routes@),
                r@[g].0@,
            ),
{
    let ghost rv = crate::types::route_views(routes@);
    let mut out: Vec<(String, Vec<RouteBody>)> = Vec::new();
    let mut i: usize = 0;
    proof {
        assert(rv.take(0) =~= Seq::<(Seq<char>, BodyV)>::empty());
    }
    while i < routes.len()
        invariant
            i <= routes.len(),
            rv == crate::types::route_views(routes@),
            rv.len() == routes@.len(),
            out@.len() == canon_keys(rv.take(i as int)).len(),
            forall|g: int|
                0 <= g < out@.len() ==> (#[trigger] out@[g].0)@ == canon_keys(rv.take(i as int))[g],
            forall|g: int|
                0 <= g < out@.len() ==> body_views((#[trigger] out@[g].1)@) == group_of(
                    rv.take(i as int),
                    out@[g].0@,
                ),
            forall|g1: int, g2: int|
                0 <= g1 < g2 < out@.len() ==> (#[trigger] out@[g1].0)@ != (#[trigger] out@[g2].0)@,
        decreases routes.len() - i,
    {
        let k = normalize_path(routes[i].0.as_str());
        let body = clone_body(&routes[i].1);
        let ghost pre = rv.take(i as int);
        let ghost post = rv.take(i + 1);
        let ghost mk_pre = pre.map_values(|r0: (Seq<char>, BodyV)| normalize_spec(r0.0));
        let ghost mk_post = post.map_values(|r0: (Seq<char>, BodyV)| normalize_spec(r0.0));
        proof {
            assert(rv[i as int] == (routes@[i as int].0@, routes@[i as int].1@));
            assert(post.drop_last() =~= pre);
            assert(post.last() == rv[i as int]);
            assert(mk_post.drop_last() =~= mk_pre);
            assert(mk_post.last() == normalize_spec(rv[i as int].0));
            assert(k@ == normalize_spec(rv[i as int].0));
            // canon_keys over the longer prefix
            assert(canon_keys(post) == if mk_pre.contains(k@) {
                canon_keys(pre)
            } else {
                canon_keys(pre).push(k@)
            }) by {
                assert(first_seen_keys(mk_post) == if first_seen_keys(mk_pre).contains(k@) {
                    first_seen_keys(mk_pre)
                } else {
                    first_seen_keys(mk_pre).push(k@)
                });
                lemma_first_seen_keys_contains(mk_pre);
            }
            // each group over the longer prefix
            assert(forall|key: Seq<char>|
                group_of(post, key) == if normalize_spec(rv[i as int].0) == key {
                    group_of(pre, key).push(rv[i as int].1)
                } else {
                    group_of(pre, key)
                });
        }
        let found = find_group(&out, &k);
        match found {
            Some(idx) => {
                proof {
                    // the key is already present, so canon_keys is unchanged
                    assert(canon_keys(pre).contains(k@)) by {
                        assert(canon_keys(pre)[idx as int] == out@[idx as int].0@);
                    }
                    lemma_first_seen_keys_contains(mk_pre);
                    assert(canon_keys(post) == canon_keys(pre));
                }
                let ghost orig = out@;
                let ghost oldkey = out@[idx as int].0@;
                let entry = out.remove(idx);
                let (key_s, mut bodies_v) = entry;
                let ghost bodies0 = bodies_v@;
                bodies_v.push(body);
                proof {
                    assert(body_views(bodies_v@) =~= body_views(bodies0).push(body@));
                }
                let ghost ne = (key_s, bodies_v);
                out.insert(idx, (key_s, bodies_v));
                proof {
                    assert(out@ =~= orig.update(idx as int, ne));
                    assert(ne.0@ == oldkey);
                    assert(oldkey == k@);
                    assert forall|g: int| 0 <= g < out@.len() implies body_views(
                        (#[trigger] out@[g].1)@,
                    ) == group_of(post, out@[g].0@) by {
                        if g == idx {
                            assert(out@[g] == ne);
                            assert(body_views(bodies0) == group_of(pre, k@));
                            assert(group_of(post, k@) == group_of(pre, k@).push(rv[i as int].1));
                        } else {
                            assert(out@[g] == orig[g]);
                            assert(out@[g].0@ != k@);
                        }
                    }
                }
            },
            None => {
                let mut bodies: Vec<RouteBody> = Vec::new();
                bodies.push(body);
                proof {
                    assert(body_views(bodies@) =~= seq![body@]);
                    assert(!canon_keys(pre).contains(k@)) by {
                        if canon_keys(pre).contains(k@) {
                            let g = choose|g: int|
                                0 <= g < canon_keys(pre).len() && canon_keys(pre)[g] == k@;
                            assert(out@[g].0@ == k@);
                        }
                    }
                    lemma_first_seen_keys_contains(mk_pre);
                }
                out.push((k, bodies));
                proof {
                    assert forall|g: int| 0 <= g < out@.len() implies body_views(
                        (#[trigger] out@[g].1)@,
                    ) == group_of(post, out@[g].0@) by {
                        if g < out@.len() - 1 {
                            assert(out@[g].0@ != k@);
                        } else {
                            assert(group_of(pre, k@) =~= Seq::<BodyV>::empty()) by {
                                lemma_group_of_empty_when_absent(pre, k@);
                            }
                        }
                    }
                }
            },
        }
        i += 1;
    }
    proof {
        assert(rv.take(routes@.len() as int) =~= rv);
    }
    out
}

/// The canonical keys of a prefix contain exactly the canonicalized raw
/// keys seen so far.
pub(crate) proof fn lemma_first_seen_keys_contains(keys: Seq<Seq<char>>)
    ensures
        forall|x: Seq<char>|
            first_seen_keys(keys).contains(x) <==> keys.contains(x),
    decreases keys.len(),
{
    if keys.len() == 0 {
    } else {
        lemma_first_seen_keys_contains(keys.drop_last());
        assert forall|x: Seq<char>| keys.contains(x) implies first_seen_keys(keys).contains(
            x,
        ) by {
            let j = choose|j: int| 0 <= j < keys.len() && keys[j] == x;
            if j < keys.len() - 1 {
                assert(keys.drop_last()[j] == x);
                assert(keys.drop_last().contains(x));
                let r = first_seen_keys(keys.drop_last());
                let jj = choose|jj: int| 0 <= jj < r.len() && r[jj] == x;
                if r.contains(keys.last()) {
                } else {
                    assert(first_seen_keys(keys)[jj] == x);
                }
            } else {
                let r = first_seen_keys(keys.drop_last());
                if r.contains(x) {
                } else {
                    assert(first_seen_keys(keys).last() == x);
                }
            }
        }
        assert forall|x: Seq<char>| first_seen_keys(keys).contains(x) implies keys.contains(
            x,
        ) by {
            let r = first_seen_keys(keys.drop_last());
            if r.contains(x) {
                assert(keys.drop_last().contains(x));
                let j = choose|j: int| 0 <= j < keys.drop_last().len() && keys.drop_last()[j] == x;
                assert(keys[j] == x);
            } else {
                let fk = first_seen_keys(keys);
                let j = choose|j: int| 0 <= j < fk.len() && fk[j] == x;
                if r.contains(keys.last()) {
                } else {
                    if j < fk.len() - 1 {
                        assert(r[j] == x);
                    } else {
                        assert(x == keys.last());
                    }
                }
            }
        }
    }
}

proof fn lemma_group_of_empty_when_absent(routes: Seq<(Seq<char>, BodyV)>, k: Seq<char>)
    requires
        !routes.map_values(|r0: (Seq<char>, BodyV)| normalize_spec(r0.0)).contains(k),
    ensures
        group_of(routes, k) == Seq::<BodyV>::empty(),
    decreases routes.len(),
{
    let mk = routes.map_values(|r0: (Seq<char>, BodyV)| normalize_spec(r0.0));
    if routes.len() == 0 {
    } else {
        assert(mk.last() == normalize_spec(routes.last().0));
        assert(normalize_spec(routes.last().0) != k);
        let mkd = routes.drop_last().map_values(|r0: (Seq<char>, BodyV)| normalize_spec(r0.0));
        assert(mkd =~= mk.drop_last());
        assert(!mkd.contains(k)) by {
            if mkd.contains(k) {
                let j = choose|j: int| 0 <= j < mkd.len() && mkd[j] == k;
                assert(mk[j] == k);
            }
        }
        lemma_group_of_empty_when_absent(routes.drop_last(), k);
    }
}

proof fn lemma_verb_frags_take(
    skel: Seq<(Seq<char>, serde_json::Value)>,
    k: Seq<char>,
    ms: Seq<(Seq<char>, serde_json::Value)>,
    t: int,
)
    requires
        0 <= t <= ms.len(),
        verb_frags(skel, k, ms) is Some,
    ensures
        verb_frags(skel, k, ms.take(t)) is Some,
    decreases ms.len(),
{
    if t == ms.len() {
        assert(ms.take(t) =~= ms);
    } else {
        assert(verb_frags(skel, k, ms.drop_last()) is Some);
        assert(ms.drop_last().take(t) =~= ms.take(t));
        lemma_verb_frags_take(skel, k, ms.drop_last(), t);
    }
}

proof fn lemma_groups_frags_take(
    skel: Seq<(Seq<char>, serde_json::Value)>,
    routes: Seq<(Seq<char>, BodyV)>,
    keys: Seq<Seq<char>>,
    t: int,
)
    requires
        0 <= t <= keys.len(),
        groups_frags(skel, routes, keys) is Some,
    ensures
        groups_frags(skel, routes, keys.take(t)) is Some,
    decreases keys.len(),
{
    if t == keys.len() {
        assert(keys.take(t) =~= keys);
    } else {
        assert(groups_frags(skel, routes, keys.drop_last()) is Some);
        assert(keys.drop_last().take(t) =~= keys.take(t));
        lemma_groups_frags_take(skel, routes, keys.drop_last(), t);
    }
}

/// The fragments of one canonical-route group: a path fragment for the
/// merged body, then one operation fragment per method.
pub fn process_path_group(doc: &RawDocument, path: &String, group: &Vec<RouteBody>) -> (r: Result<
    Vec<APIDef>,
    ProcessError,
>)
    ensures
        r is Ok <==> group_frags(doc@.skeleton, path@, body_views(group@)) is Some,
        r matches Ok(ds) ==> group_frags(doc@.skeleton, path@, body_views(group@)) == Some(
            def_views(ds@),
        ),
        r matches Err(e) ==> e is Render,
{
    let ghost skel = doc@.skeleton;
    let ghost mb = merged_body(body_views(group@));
    let merged = merge_path_data(group);
    let path_yaml = match create_path_yaml(doc, path, &merged) {
        Ok(s) => s,
        Err(e) => {
            return Err(e);
        },
    };
    let ghost pf = DefV::Path { path: path@, yaml: path_yaml@ };
    let mut out: Vec<APIDef> = Vec::new();
    out.push(APIDef::Path(APIPath { path: path.clone(), yaml: path_yaml }));
    proof {
        assert(def_views(out@) =~= seq![pf]);
    }
    match &merged {
        RouteBody::Methods(ms) => {
            let ghost mv = entry_views(ms@);
            proof {
                assert(mv.take(0) =~= Seq::<(Seq<char>, serde_json::Value)>::empty());
                assert(seq![pf] + Seq::<DefV>::empty() =~= seq![pf]);
            }
            let mut t: usize = 0;
            while t < ms.len()
                invariant
                    t <= ms.len(),
                    mv == entry_views(ms@),
                    mv.len() == ms@.len(),
                    skel == doc@.skeleton,
                    mb == BodyV::Methods(mv),
                    mb == merged_body(body_views(group@)),
                    path_yaml_spec(skel, path@, mb) is Some,
                    verb_frags(skel, path@, mv.take(t as int)) matches Some(vf) && def_views(out@)
                        == seq![pf] + vf,
                decreases ms.len() - t,
            {
                proof {
                    assert(mv.take(t + 1).drop_last() =~= mv.take(t as int));
                    assert(mv.take(t + 1).last() == mv[t as int]);
                    assert(mv[t as int] == (ms@[t as int].0@, ms@[t as int].1));
                }
                let vy = match create_verb_yaml(doc, path, &ms[t].0, &ms[t].1) {
                    Ok(s) => s,
                    Err(e) => {
                        proof {
                            assert(verb_frags(skel, path@, mv.take(t + 1)) is None);
                            if verb_frags(skel, path@, mv) is Some {
                                lemma_verb_frags_take(skel, path@, mv, t + 1);
                            }
                        }
                        return Err(e);
                    },
                };
                let upper = to_upper(ms[t].0.as_str());
                let root = crate::paths::get_root_path(path.as_str());
                let ghost out0 = def_views(out@);
                out.push(
                    APIDef::Verb(
                        APIVerb { verb: upper, path: path.clone(), root_path: root, yaml: vy },
                    ),
                );
                proof {
                    let vd = DefV::Verb {
                        verb: upper_of(mv[t as int].0),
                        path: path@,
                        root: root_spec(path@),
                        yaml: vy@,
                    };
                    assert(def_views(out@) =~= out0.push(vd));
                    let vf_old = verb_frags(skel, path@, mv.take(t as int)).unwrap();
                    assert(verb_frags(skel, path@, mv.take(t + 1)) == Some(vf_old.push(vd)));
                    assert(seq![pf] + vf_old.push(vd) =~= (seq![pf] + vf_old).push(vd));
                }
                t += 1;
            }
            proof {
                assert(mv.take(ms@.len() as int) =~= mv);
            }
            Ok(out)
        },
        RouteBody::Opaque(_) => {
            proof {
                assert(mb is Opaque);
            }
            Ok(out)
        },
    }
}

/// Split a document into fragments: routes are grouped by canonical path,
/// and every group yields its path fragment and operation fragments, in
/// first-seen key order.  A document without a routes object yields no
/// fragments.  The only failure is a fragment that cannot be rendered.
pub fn split_definition(doc: &RawDocument) -> (r: Result<Vec<APIDef>, ProcessError>)
    ensures
        r is Ok <==> split_spec(doc@) is Some,
        r matches Ok(ds) ==> split_spec(doc@) == Some(def_views(ds@)),
        r matches Err(e) ==> e is Render,
{
    let routes = match &doc.routes {
        None => {
            let out: Vec<APIDef> = Vec::new();
            proof {
                assert(def_views(out@) =~= Seq::<DefV>::empty());
            }
            return Ok(out);
        },
        Some(rs) => rs,
    };
    let ghost skel = doc@.skeleton;
    let ghost rv = crate::types::route_views(routes@);
    let ghost ck = canon_keys(rv);
    let groups = group_routes(routes);
    let results = par_process_groups(doc, &groups);
    let mut out: Vec<APIDef> = Vec::new();
    let mut i: usize = 0;
    proof {
        assert(ck.take(0) =~= Seq::<Seq<char>>::empty());
        assert(def_views(out@) =~= Seq::<DefV>::empty());
    }
    while i < results.len()
        invariant
            i <= results.len(),
            results@.len() == groups@.len(),
            groups@.len() == ck.len(),
            skel == doc@.skeleton,
            rv == crate::types::route_views(routes@),
            ck == canon_keys(rv),
            doc@.routes == Some(rv),
            forall|g: int| 0 <= g < groups@.len() ==> (#[trigger] groups@[g].0)@ == ck[g],
            forall|g: int|
                0 <= g < groups@.len() ==> body_views((#[trigger] groups@[g].1)@) == group_of(
                    rv,
                    groups@[g].0@,
                ),
            forall|g: int|
                0 <= g < groups@.len() ==> {
                    let gf = group_frags(skel, groups@[g].0@, body_views(groups@[g].1@));
                    &&& ((#[trigger] results@[g]) is Ok <==> gf is Some)
                    &&& (results@[g] matches Ok(ds) ==> gf == Some(def_views(ds@)))
                    &&& (results@[g] matches Err(e) ==> e is Render)
                },
            groups_frags(skel, rv, ck.take(i as int)) matches Some(acc) && def_views(out@) == acc,
        decreases results.len() - i,
    {
        proof {
            assert(ck.take(i + 1).drop_last() =~= ck.take(i as int));
            assert(ck.take(i + 1).last() == ck[i as int]);
        }
        match &results[i] {
            Ok(ds) => {
                let ghost acc0 = def_views(out@);
                let ghost dv = def_views(ds@);
                let mut t: usize = 0;
                proof {
                    assert(dv.take(0) =~= Seq::<DefV>::empty());
                    assert(acc0 + Seq::<DefV>::empty() =~= acc0);
                }
                while t < ds.len()
                    invariant
                        t <= ds.len(),
                        dv == def_views(ds@),
                        dv.len() == ds@.len(),
                        def_views(out@) == acc0 + dv.take(t as int),
                    decreases ds.len() - t,
                {
                    let ghost o0 = def_views(out@);
                    let d = clone_def(&ds[t]);
                    out.push(d);
                    proof {
                        assert(def_views(out@) =~= o0.push(dv[t as int]));
                        assert(dv.take(t + 1) =~= dv.take(t as int).push(dv[t as int]));
                        assert(acc0 + dv.take(t as int).push(dv[t as int]) =~= (acc0 + dv.take(
                            t as int,
                        )).push(dv[t as int]));
                    }
                    t += 1;
                }
                proof {
                    assert(dv.take(ds@.len() as int) =~= dv);
                    assert(groups_frags(skel, rv, ck.take(i + 1)) == Some(acc0 + dv));
                }
            },
            Err(e) => {
                let r = clone_error(e);
                proof {
                    assert(groups_frags(skel, rv, ck.take(i + 1)) is None);
                    if groups_frags(skel, rv, ck) is Some {
                        lemma_groups_frags_take(skel, rv, ck, i + 1);
                    }
                }
                return Err(r);
            },
        }
        i += 1;
    }
    proof {
        assert(ck.take(ck.len() as int) =~= ck);
    }
    Ok(out)
}

} // verus!
