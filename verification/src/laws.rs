//! Laws of the splitter and the merger.
//!
//! The first group of lemmas shows that the first-seen-wins union of
//! method maps is associative, so that merging a fragment stream split
//! into batches, batch by batch, yields the same map as one sequential
//! pass; the second shows the same for last-wins deduplication of
//! operation fragments; the last shows that no duplicate operations
//! survive a split.

use vstd::prelude::*;

use crate::splitter::{
    add_absent, canon_keys, first_seen_keys, group_frags, group_of, groups_frags, has_key,
    merged_body, methods_union, split_spec, verb_frags,
};
use crate::merger::{dedup_verbs, has_verb_key, verb_defs, verb_matches};
use crate::types::{BodyV, DefV, DocV};

verus! {

broadcast use vstd::seq::Seq::group_seq_extra;

// ---------------------------------------------------------------------------
// First-seen-wins union: associativity
// ---------------------------------------------------------------------------

proof fn lemma_has_key_push(
    es: Seq<(Seq<char>, serde_json::Value)>,
    e: (Seq<char>, serde_json::Value),
    k: Seq<char>,
)
    ensures
        has_key(es.push(e), k) <==> (has_key(es, k) || e.0 == k),
{
    if has_key(es, k) {
        let i = choose|i: int| 0 <= i < es.len() && es[i].0 == k;
        assert(es.push(e)[i].0 == k);
    }
    if e.0 == k {
        assert(es.push(e)[es.len() as int].0 == k);
    }
    if has_key(es.push(e), k) {
        let i = choose|i: int| 0 <= i < es.push(e).len() && es.push(e)[i].0 == k;
        if i < es.len() {
            assert(es[i].0 == k);
        }
    }
}

proof fn lemma_has_key_uncons(es: Seq<(Seq<char>, serde_json::Value)>, k: Seq<char>)
    requires
        es.len() > 0,
    ensures
        has_key(es, k) <==> (es[0].0 == k || has_key(es.drop_first(), k)),
{
    if has_key(es, k) {
        let i = choose|i: int| 0 <= i < es.len() && es[i].0 == k;
        if i > 0 {
            assert(es.drop_first()[i - 1].0 == k);
        }
    }
    if has_key(es.drop_first(), k) {
        let i = choose|i: int| 0 <= i < es.drop_first().len() && es.drop_first()[i].0 == k;
        assert(es[i + 1].0 == k);
    }
}

/// The union holds a key exactly when one of its operands does.
pub proof fn lemma_add_absent_keys(
    x: Seq<(Seq<char>, serde_json::Value)>,
    y: Seq<(Seq<char>, serde_json::Value)>,
    k: Seq<char>,
)
    ensures
        has_key(add_absent(x, y), k) <==> (has_key(x, k) || has_key(y, k)),
    decreases y.len(),
{
    if y.len() == 0 {
    } else {
        let b2 = if has_key(x, y[0].0) {
            x
        } else {
            x.push(y[0])
        };
        lemma_add_absent_keys(b2, y.drop_first(), k);
        lemma_has_key_push(x, y[0], k);
        lemma_has_key_uncons(y, k);
    }
}

proof fn lemma_add_absent_snoc(
    x: Seq<(Seq<char>, serde_json::Value)>,
    y: Seq<(Seq<char>, serde_json::Value)>,
    e: (Seq<char>, serde_json::Value),
)
    ensures
        add_absent(x, y.push(e)) == (if has_key(add_absent(x, y), e.0) {
            add_absent(x, y)
        } else {
            add_absent(x, y).push(e)
        }),
    decreases y.len(),
{
    if y.len() == 0 {
        reveal_with_fuel(add_absent, 3);
        assert(y.push(e)[0] == e);
        assert(y.push(e).drop_first() =~= Seq::<(Seq<char>, serde_json::Value)>::empty());
    } else {
        assert(y.push(e)[0] == y[0]);
        assert(y.push(e).drop_first() =~= y.drop_first().push(e));
        let b2 = if has_key(x, y[0].0) {
            x
        } else {
            x.push(y[0])
        };
        lemma_add_absent_snoc(b2, y.drop_first(), e);
    }
}

/// First-seen-wins union is associative.
pub proof fn lemma_add_absent_assoc(
    x: Seq<(Seq<char>, serde_json::Value)>,
    y: Seq<(Seq<char>, serde_json::Value)>,
    z: Seq<(Seq<char>, serde_json::Value)>,
)
    ensures
        add_absent(add_absent(x, y), z) == add_absent(x, add_absent(y, z)),
    decreases z.len(),
{
    if z.len() == 0 {
    } else {
        let e = z[0];
        let w = add_absent(x, y);
        let y2 = if has_key(y, e.0) {
            y
        } else {
            y.push(e)
        };
        lemma_add_absent_keys(x, y, e.0);
        if has_key(y, e.0) {
            assert(add_absent(x, y2) == w);
            assert(has_key(w, e.0));
        } else {
            lemma_add_absent_snoc(x, y, e);
        }
        lemma_add_absent_assoc(x, y2, z.drop_first());
    }
}

/// Partition consistency of the method-map union: merging a group of route
/// bodies split into two batches, by unioning each batch and then unioning
/// the two results, yields exactly the sequential union of the whole group.
/// Whatever the batching, the key set and the winning entry per method are
/// those of the single-pass union in document order.
pub proof fn lemma_methods_union_partition(a: Seq<BodyV>, b: Seq<BodyV>)
    ensures
        methods_union(a + b) == add_absent(methods_union(a), methods_union(b)),
    decreases b.len(),
{
    if b.len() == 0 {
        assert(a + b =~= a);
    } else {
        assert((a + b).drop_last() =~= a + b.drop_last());
        assert((a + b).last() == b.last());
        lemma_methods_union_partition(a, b.drop_last());
        match b.last() {
            BodyV::Methods(m) => {
                lemma_add_absent_assoc(methods_union(a), methods_union(b.drop_last()), m);
            },
            BodyV::Opaque(_) => {},
        }
    }
}

// ---------------------------------------------------------------------------
// Last-wins deduplication: partition consistency
// ---------------------------------------------------------------------------

/// Whether a fragment is an operation fragment whose key some fragment of
/// `b` also carries.
pub open spec fn key_in(d: DefV, b: Seq<DefV>) -> bool {
    match d {
        DefV::Verb { verb, path, .. } => has_verb_key(b, path, verb),
        DefV::Path { .. } => false,
    }
}

/// The fragments of `xs` whose key no fragment of `b` carries.
pub open spec fn strip_in(xs: Seq<DefV>, b: Seq<DefV>) -> Seq<DefV>
    decreases xs.len(),
{
    if xs.len() == 0 {
        Seq::empty()
    } else if key_in(xs[0], b) {
        strip_in(xs.drop_first(), b)
    } else {
        seq![xs[0]] + strip_in(xs.drop_first(), b)
    }
}

proof fn lemma_has_verb_key_concat(a: Seq<DefV>, b: Seq<DefV>, p: Seq<char>, vb: Seq<char>)
    ensures
        has_verb_key(a + b, p, vb) <==> (has_verb_key(a, p, vb) || has_verb_key(b, p, vb)),
{
    if has_verb_key(a, p, vb) {
        let j = choose|j: int| 0 <= j < a.len() && verb_matches(#[trigger] a[j], p, vb);
        assert((a + b)[j] == a[j]);
        assert(verb_matches((a + b)[j], p, vb));
    }
    if has_verb_key(b, p, vb) {
        let j = choose|j: int| 0 <= j < b.len() && verb_matches(#[trigger] b[j], p, vb);
        assert((a + b)[a.len() + j] == b[j]);
        assert(verb_matches((a + b)[a.len() + j], p, vb));
    }
    if has_verb_key(a + b, p, vb) {
        let j = choose|j: int| 0 <= j < (a + b).len() && verb_matches(#[trigger] (a + b)[j], p, vb);
        if j < a.len() {
            assert(a[j] == (a + b)[j]);
            assert(verb_matches(a[j], p, vb));
        } else {
            assert(b[j - a.len()] == (a + b)[j]);
            assert(verb_matches(b[j - a.len()], p, vb));
        }
    }
}

/// Partition consistency of operation deduplication: deduplicating a
/// fragment stream split into two batches equals deduplicating the first
/// batch, dropping its survivors whose key the second batch also carries,
/// and appending the deduplicated second batch.  The surviving key set and
/// the winning fragment per key are those of the sequential pass.
#[verifier::rlimit(60)]
pub proof fn lemma_dedup_verbs_partition(a: Seq<DefV>, b: Seq<DefV>)
    ensures
        dedup_verbs(a + b) == strip_in(dedup_verbs(a), b) + dedup_verbs(b),
    decreases a.len(),
{
    if a.len() == 0 {
        assert(a + b =~= b);
        assert(strip_in(dedup_verbs(a), b) + dedup_verbs(b) =~= dedup_verbs(b));
    } else {
        let x = a[0];
        let a2 = a.drop_first();
        assert((a + b)[0] == x);
        assert((a + b).drop_first() =~= a2 + b);
        lemma_dedup_verbs_partition(a2, b);
        match x {
            DefV::Path { .. } => {
                assert(dedup_verbs(a) == seq![x] + dedup_verbs(a2));
                assert((seq![x] + dedup_verbs(a2)).drop_first() =~= dedup_verbs(a2));
                assert(strip_in(seq![x] + dedup_verbs(a2), b) == seq![x] + strip_in(
                    dedup_verbs(a2),
                    b,
                ));
                assert(dedup_verbs(a + b) == seq![x] + dedup_verbs(a2 + b));
                assert(seq![x] + (strip_in(dedup_verbs(a2), b) + dedup_verbs(b)) =~= (seq![x]
                    + strip_in(dedup_verbs(a2), b)) + dedup_verbs(b));
            },
            DefV::Verb { verb, path, .. } => {
                lemma_has_verb_key_concat(a2, b, path, verb);
                if has_verb_key(a2, path, verb) {
                    assert(dedup_verbs(a + b) == dedup_verbs(a2 + b));
                    assert(dedup_verbs(a) == dedup_verbs(a2));
                } else if has_verb_key(b, path, verb) {
                    assert(dedup_verbs(a + b) == dedup_verbs(a2 + b));
                    assert(dedup_verbs(a) == seq![x] + dedup_verbs(a2));
                    assert((seq![x] + dedup_verbs(a2)).drop_first() =~= dedup_verbs(a2));
                    assert(key_in(x, b));
                    assert(strip_in(seq![x] + dedup_verbs(a2), b) == strip_in(
                        dedup_verbs(a2),
                        b,
                    ));
                } else {
                    assert(dedup_verbs(a + b) == seq![x] + dedup_verbs(a2 + b));
                    assert(dedup_verbs(a) == seq![x] + dedup_verbs(a2));
                    assert((seq![x] + dedup_verbs(a2)).drop_first() =~= dedup_verbs(a2));
                    assert(!key_in(x, b));
                    assert(strip_in(seq![x] + dedup_verbs(a2), b) == seq![x] + strip_in(
                        dedup_verbs(a2),
                        b,
                    ));
                    assert(seq![x] + (strip_in(dedup_verbs(a2), b) + dedup_verbs(b)) =~= (seq![x]
                        + strip_in(dedup_verbs(a2), b)) + dedup_verbs(b));
                }
            },
        }
    }
}

// ---------------------------------------------------------------------------
// No duplicate operations survive a split
// ---------------------------------------------------------------------------

/// All keys of an entry list differ.
pub open spec fn distinct_keys(es: Seq<(Seq<char>, serde_json::Value)>) -> bool {
    forall|i: int, j: int| 0 <= i < j < es.len() ==> (#[trigger] es[i]).0 != (#[trigger] es[j]).0
}

proof fn lemma_add_absent_distinct(
    base: Seq<(Seq<char>, serde_json::Value)>,
    more: Seq<(Seq<char>, serde_json::Value)>,
)
    requires
        distinct_keys(base),
    ensures
        distinct_keys(add_absent(base, more)),
    decreases more.len(),
{
    if more.len() == 0 {
    } else {
        if has_key(base, more[0].0) {
            lemma_add_absent_distinct(base, more.drop_first());
        } else {
            assert(distinct_keys(base.push(more[0]))) by {
                assert forall|i: int, j: int|
                    0 <= i < j < base.push(more[0]).len() implies (#[trigger] base.push(
                    more[0],
                )[i]).0 != (#[trigger] base.push(more[0])[j]).0 by {
                    if j == base.len() {
                        assert(base.push(more[0])[i] == base[i]);
                        if base[i].0 == more[0].0 {
                            assert(has_key(base, more[0].0));
                        }
                    }
                }
            }
            lemma_add_absent_distinct(base.push(more[0]), more.drop_first());
        }
    }
}

/// The union of a group's method maps holds each method once.
pub proof fn lemma_methods_union_distinct(bodies: Seq<BodyV>)
    ensures
        distinct_keys(methods_union(bodies)),
    decreases bodies.len(),
{
    if bodies.len() == 0 {
    } else {
        lemma_methods_union_distinct(bodies.drop_last());
        match bodies.last() {
            BodyV::Methods(m) => {
                lemma_add_absent_distinct(methods_union(bodies.drop_last()), m);
            },
            BodyV::Opaque(_) => {},
        }
    }
}

/// First-seen key lists hold no duplicates.
pub proof fn lemma_first_seen_keys_no_dup(keys: Seq<Seq<char>>)
    ensures
        first_seen_keys(keys).no_duplicates(),
    decreases keys.len(),
{
    if keys.len() == 0 {
    } else {
        lemma_first_seen_keys_no_dup(keys.drop_last());
        let rest = first_seen_keys(keys.drop_last());
        if rest.contains(keys.last()) {
        } else {
            assert(rest.push(keys.last()).no_duplicates()) by {
                assert forall|i: int, j: int|
                    0 <= i < j < rest.push(keys.last()).len() implies rest.push(keys.last())[i]
                    != rest.push(keys.last())[j] by {
                    if j == rest.len() {
                        assert(rest.push(keys.last())[i] == rest[i]);
                        if rest[i] == keys.last() {
                            assert(rest.contains(keys.last()));
                        }
                    }
                }
            }
        }
    }
}

/// The methods of the merged body of the group keyed `k`.
pub open spec fn merged_methods(routes: Seq<(Seq<char>, BodyV)>, k: Seq<char>) -> Seq<
    (Seq<char>, serde_json::Value),
> {
    match merged_body(group_of(routes, k)) {
        BodyV::Methods(m) => m,
        BodyV::Opaque(_) => Seq::empty(),
    }
}

/// The (canonical path, method) pairs of one group's operation fragments.
pub open spec fn group_op_pairs(routes: Seq<(Seq<char>, BodyV)>, k: Seq<char>) -> Seq<
    (Seq<char>, Seq<char>),
> {
    merged_methods(routes, k).map_values(|m: (Seq<char>, serde_json::Value)| (k, m.0))
}

pub open spec fn op_pairs_keys(routes: Seq<(Seq<char>, BodyV)>, keys: Seq<Seq<char>>) -> Seq<
    (Seq<char>, Seq<char>),
>
    decreases keys.len(),
{
    if keys.len() == 0 {
        Seq::empty()
    } else {
        op_pairs_keys(routes, keys.drop_last()) + group_op_pairs(routes, keys.last())
    }
}

/// The (canonical path, method) pairs of every operation fragment a split
/// emits, in emission order.
pub open spec fn op_pairs(routes: Seq<(Seq<char>, BodyV)>) -> Seq<(Seq<char>, Seq<char>)> {
    op_pairs_keys(routes, canon_keys(routes))
}

proof fn lemma_group_of_element(routes: Seq<(Seq<char>, BodyV)>, k: Seq<char>, i: int)
    requires
        0 <= i < group_of(routes, k).len(),
    ensures
        exists|j: int| 0 <= j < routes.len() && (#[trigger] routes[j]).1 == group_of(routes, k)[i],
    decreases routes.len(),
{
    if routes.len() == 0 {
    } else {
        let prev = group_of(routes.drop_last(), k);
        if i < prev.len() {
            lemma_group_of_element(routes.drop_last(), k, i);
            let j = choose|j: int|
                0 <= j < routes.drop_last().len() && (#[trigger] routes.drop_last()[j]).1 == prev[i];
            assert(routes[j].1 == group_of(routes, k)[i]);
        } else {
            assert(group_of(routes, k)[i] == routes.last().1);
            assert(routes[routes.len() - 1].1 == group_of(routes, k)[i]);
        }
    }
}

proof fn lemma_op_pairs_keys_no_dup(routes: Seq<(Seq<char>, BodyV)>, keys: Seq<Seq<char>>)
    requires
        keys.no_duplicates(),
        forall|i: int|
            0 <= i < routes.len() ==> ((#[trigger] routes[i]).1 matches BodyV::Methods(m)
                ==> distinct_keys(m)),
    ensures
        op_pairs_keys(routes, keys).no_duplicates(),
        forall|i: int|
            0 <= i < op_pairs_keys(routes, keys).len() ==> keys.contains(
                (#[trigger] op_pairs_keys(routes, keys)[i]).0,
            ),
    decreases keys.len(),
{
    if keys.len() == 0 {
    } else {
        let kd = keys.drop_last();
        let k = keys.last();
        assert(kd.no_duplicates()) by {
            assert(forall|i: int| 0 <= i < kd.len() ==> kd[i] == keys[i]);
        }
        lemma_op_pairs_keys_no_dup(routes, kd);
        let prev = op_pairs_keys(routes, kd);
        let gp = group_op_pairs(routes, k);
        // the group's own pairs are distinct
        assert(distinct_keys(merged_methods(routes, k))) by {
            let grp = group_of(routes, k);
            if grp.len() == 1 {
                match merged_body(grp) {
                    BodyV::Methods(m) => {
                        lemma_group_of_element(routes, k, 0);
                    },
                    BodyV::Opaque(_) => {},
                }
            } else {
                lemma_methods_union_distinct(grp);
            }
        }
        assert forall|i: int, j: int|
            0 <= i < j < op_pairs_keys(routes, keys).len() implies op_pairs_keys(routes, keys)[i]
            != op_pairs_keys(routes, keys)[j] by {
            let whole = op_pairs_keys(routes, keys);
            if j < prev.len() {
                assert(whole[i] == prev[i] && whole[j] == prev[j]);
            } else if i >= prev.len() {
                assert(whole[i] == gp[i - prev.len()] && whole[j] == gp[j - prev.len()]);
                assert(merged_methods(routes, k)[i - prev.len()].0 != merged_methods(
                    routes,
                    k,
                )[j - prev.len()].0);
            } else {
                assert(whole[i] == prev[i] && whole[j] == gp[j - prev.len()]);
                assert(kd.contains(prev[i].0));
                assert(gp[j - prev.len()].0 == k);
                if prev[i].0 == k {
                    let ii = choose|ii: int| 0 <= ii < kd.len() && kd[ii] == k;
                    assert(keys[ii] == keys[keys.len() - 1]);
                }
            }
        }
        assert forall|i: int|
            0 <= i < op_pairs_keys(routes, keys).len() implies keys.contains(
            (#[trigger] op_pairs_keys(routes, keys)[i]).0,
        ) by {
            let whole = op_pairs_keys(routes, keys);
            if i < prev.len() {
                assert(whole[i] == prev[i]);
                assert(kd.contains(prev[i].0));
                let ii = choose|ii: int| 0 <= ii < kd.len() && kd[ii] == prev[i].0;
                assert(keys[ii] == prev[i].0);
            } else {
                assert(whole[i] == gp[i - prev.len()]);
                assert(keys[keys.len() - 1] == k);
            }
        }
    }
}

/// No duplicate operations survive: when every raw route's method map
/// holds each method once (as any parsed object does), the operation
/// fragments a split emits carry pairwise-distinct (canonical path,
/// method) keys — their number is the number of distinct pairs left after
/// intra-route merging.
pub proof fn lemma_no_duplicate_operations(routes: Seq<(Seq<char>, BodyV)>)
    requires
        forall|i: int|
            0 <= i < routes.len() ==> ((#[trigger] routes[i]).1 matches BodyV::Methods(m)
                ==> distinct_keys(m)),
    ensures
        op_pairs(routes).no_duplicates(),
{
    lemma_first_seen_keys_no_dup(
        routes.map_values(|r: (Seq<char>, BodyV)| crate::paths::normalize_spec(r.0)),
    );
    lemma_op_pairs_keys_no_dup(routes, canon_keys(routes));
}

proof fn lemma_verb_defs_concat(a: Seq<DefV>, b: Seq<DefV>)
    ensures
        verb_defs(a + b) == verb_defs(a) + verb_defs(b),
    decreases b.len(),
{
    if b.len() == 0 {
        assert(a + b =~= a);
        assert(verb_defs(a) + verb_defs(b) =~= verb_defs(a));
    } else {
        assert((a + b).drop_last() =~= a + b.drop_last());
        assert((a + b).last() == b.last());
        lemma_verb_defs_concat(a, b.drop_last());
        if b.last() is Verb {
            assert(verb_defs(a) + verb_defs(b.drop_last()).push(b.last()) =~= (verb_defs(a)
                + verb_defs(b.drop_last())).push(b.last()));
        }
    }
}

proof fn lemma_verb_frags_shape(
    skel: Seq<(Seq<char>, serde_json::Value)>,
    k: Seq<char>,
    ms: Seq<(Seq<char>, serde_json::Value)>,
)
    requires
        verb_frags(skel, k, ms) is Some,
    ensures
        verb_frags(skel, k, ms).unwrap().len() == ms.len(),
        forall|i: int|
            0 <= i < ms.len() ==> (#[trigger] verb_frags(skel, k, ms).unwrap()[i]) is Verb,
    decreases ms.len(),
{
    if ms.len() == 0 {
    } else {
        lemma_verb_frags_shape(skel, k, ms.drop_last());
    }
}

proof fn lemma_verb_defs_of_verbs(vs: Seq<DefV>)
    requires
        forall|i: int| 0 <= i < vs.len() ==> (#[trigger] vs[i]) is Verb,
    ensures
        verb_defs(vs) == vs,
    decreases vs.len(),
{
    if vs.len() == 0 {
    } else {
        assert(vs.last() is Verb);
        assert(forall|i: int| 0 <= i < vs.drop_last().len() ==> #[trigger] vs.drop_last()[i]
            == vs[i]);
        lemma_verb_defs_of_verbs(vs.drop_last());
        assert(vs.drop_last().push(vs.last()) =~= vs);
    }
}

proof fn lemma_group_frags_verb_count(
    skel: Seq<(Seq<char>, serde_json::Value)>,
    routes: Seq<(Seq<char>, BodyV)>,
    k: Seq<char>,
)
    requires
        group_frags(skel, k, group_of(routes, k)) is Some,
    ensures
        verb_defs(group_frags(skel, k, group_of(routes, k)).unwrap()).len() == group_op_pairs(
            routes,
            k,
        ).len(),
{
    let bodies = group_of(routes, k);
    let mb = merged_body(bodies);
    let fs = group_frags(skel, k, bodies).unwrap();
    let pf = DefV::Path { path: k, yaml: crate::splitter::path_yaml_spec(skel, k, mb).unwrap() };
    match mb {
        BodyV::Methods(ms) => {
            let vs = verb_frags(skel, k, ms).unwrap();
            lemma_verb_frags_shape(skel, k, ms);
            lemma_verb_defs_concat(seq![pf], vs);
            assert(verb_defs(seq![pf]) =~= Seq::<DefV>::empty()) by {
                reveal_with_fuel(verb_defs, 3);
                assert(seq![pf].drop_last() =~= Seq::<DefV>::empty());
                assert(seq![pf].last() == pf);
            }
            lemma_verb_defs_of_verbs(vs);
            assert(verb_defs(fs) =~= vs);
        },
        BodyV::Opaque(_) => {
            assert(fs =~= seq![pf]);
            assert(verb_defs(fs) =~= Seq::<DefV>::empty()) by {
                reveal_with_fuel(verb_defs, 3);
                assert(seq![pf].drop_last() =~= Seq::<DefV>::empty());
                assert(seq![pf].last() == pf);
            }
        },
    }
}

proof fn lemma_groups_frags_verb_count(
    skel: Seq<(Seq<char>, serde_json::Value)>,
    routes: Seq<(Seq<char>, BodyV)>,
    keys: Seq<Seq<char>>,
)
    requires
        groups_frags(skel, routes, keys) is Some,
    ensures
        verb_defs(groups_frags(skel, routes, keys).unwrap()).len() == op_pairs_keys(
            routes,
            keys,
        ).len(),
    decreases keys.len(),
{
    if keys.len() == 0 {
    } else {
        let k = keys.last();
        let acc = groups_frags(skel, routes, keys.drop_last()).unwrap();
        let fs = group_frags(skel, k, group_of(routes, k)).unwrap();
        lemma_groups_frags_verb_count(skel, routes, keys.drop_last());
        lemma_group_frags_verb_count(skel, routes, k);
        lemma_verb_defs_concat(acc, fs);
    }
}

/// The number of operation fragments a successful split emits is exactly
/// the number of (canonical path, method) pairs left after intra-route
/// merging.
pub proof fn lemma_split_operation_count(d: DocV, routes: Seq<(Seq<char>, BodyV)>)
    requires
        d.routes == Some(routes),
        split_spec(d) is Some,
    ensures
        verb_defs(split_spec(d).unwrap()).len() == op_pairs(routes).len(),
{
    lemma_groups_frags_verb_count(d.skeleton, routes, canon_keys(routes));
}

} // verus!
