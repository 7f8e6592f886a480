//! Graph construction from a serialized plan: an ordered list of raw
//! invocation records whose dependencies are indices into the same list.
//!
//! Every dependency index must resolve to a record of the list; a plan
//! with any index out of range is rejected whole, and no partial graph
//! exists. Records are deduplicated by identity: when two records carry
//! the same identity only the first is kept, and dependencies on either
//! are linked to that shared unit, so a build script discovered both on
//! its own and as someone's dependency coalesces into one node.
//! Self-edges that the coalescing would create are dropped.

use vstd::prelude::*;

use crate::graph::BuildGraph;
use crate::unit::RawInvocation;
use crate::unit::RawInvocationView;
use crate::unit::RawPlan;
use crate::unit::UnitKeyView;
use crate::unit::raw_key_view;
use crate::unit::unit_view_of_raw;

verus! {

broadcast use vstd::std_specs::vec::group_vec_axioms;

/// The views of a record list.
pub open spec fn raw_views(s: Seq<RawInvocation>) -> Seq<RawInvocationView> {
    s.map_values(|r: RawInvocation| r@)
}

/// Every dependency index of every record resolves within the list.
pub open spec fn raw_deps_ok(raws: Seq<RawInvocationView>) -> bool {
    forall|i: int, k: int|
        0 <= i < raws.len() && 0 <= k < raws[i].deps.len() ==> ((#[trigger] raws[i].deps[k]) as int)
            < raws.len()
}

/// No earlier record carries the identity of record `i`.
pub open spec fn first_occurrence(raws: Seq<RawInvocationView>, i: int) -> bool {
    forall|j: int| 0 <= j < i ==> raw_key_view(#[trigger] raws[j]) != raw_key_view(raws[i])
}

/// The records that survive deduplication: the first record of each
/// identity, in order.
pub open spec fn dedup_by_key(raws: Seq<RawInvocationView>) -> Seq<RawInvocationView>
    decreases raws.len(),
{
    if raws.len() == 0 {
        Seq::empty()
    } else {
        let prefix = dedup_by_key(raws.drop_last());
        if first_occurrence(raws, raws.len() - 1) {
            prefix.push(raws.last())
        } else {
            prefix
        }
    }
}

/// The plan links identity `k1` to identity `k2`: some record with
/// identity `k1` lists a (resolvable) dependency index whose record has
/// identity `k2`, and the identities differ.
pub open spec fn raw_edge(raws: Seq<RawInvocationView>, k1: UnitKeyView, k2: UnitKeyView) -> bool {
    &&& k1 != k2
    &&& exists|i: int, k: int|
        #![trigger raws[i].deps[k]]
        0 <= i < raws.len() && 0 <= k < raws[i].deps.len() && (raws[i].deps[k] as int)
            < raws.len() && raw_key_view(raws[i]) == k1 && raw_key_view(
            raws[raws[i].deps[k] as int],
        ) == k2
}

/// Like [`raw_edge`], restricted to the dependency entries before
/// position `up_k` of record `up_i` (records before `up_i` count whole).
pub open spec fn raw_edge_upto(
    raws: Seq<RawInvocationView>,
    up_i: int,
    up_k: int,
    k1: UnitKeyView,
    k2: UnitKeyView,
) -> bool {
    &&& k1 != k2
    &&& exists|i: int, k: int|
        #![trigger raws[i].deps[k]]
        0 <= i < raws.len() && 0 <= k < raws[i].deps.len() && (i < up_i || (i == up_i
            && k < up_k)) && (raws[i].deps[k] as int) < raws.len() && raw_key_view(raws[i]) == k1
            && raw_key_view(raws[raws[i].deps[k] as int]) == k2
}

/// All record identities are pairwise distinct.
pub open spec fn distinct_keys(raws: Seq<RawInvocationView>) -> bool {
    forall|i: int, j: int|
        0 <= i < j < raws.len() ==> raw_key_view(#[trigger] raws[i]) != raw_key_view(
            #[trigger] raws[j],
        )
}

/// Dependency lists carry no duplicates and no self-references.
pub open spec fn plain_deps(raws: Seq<RawInvocationView>) -> bool {
    &&& forall|i: int| 0 <= i < raws.len() ==> (#[trigger] raws[i].deps).no_duplicates()
    &&& forall|i: int, k: int|
        0 <= i < raws.len() && 0 <= k < raws[i].deps.len() ==> ((#[trigger] raws[i].deps[k]) as int)
            != i
}

/// A plan whose unit and edge counts the loaded graph preserves exactly.
pub open spec fn plain_plan(raws: Seq<RawInvocationView>) -> bool {
    distinct_keys(raws) && plain_deps(raws)
}

/// Total number of dependency entries of a plan.
pub open spec fn total_dep_count(raws: Seq<RawInvocationView>) -> int
    decreases raws.len(),
{
    if raws.len() == 0 {
        0
    } else {
        total_dep_count(raws.drop_last()) + raws.last().deps.len()
    }
}

/// Total number of forward edges stored in adjacency rows.
pub open spec fn total_edges(rows: Seq<Vec<usize>>) -> int
    decreases rows.len(),
{
    if rows.len() == 0 {
        0
    } else {
        total_edges(rows.drop_last()) + rows.last()@.len()
    }
}

/// Rows of pointwise equal lengths have equal totals.
proof fn lemma_counts_eq(rows: Seq<Vec<usize>>, raws: Seq<RawInvocationView>)
    requires
        rows.len() == raws.len(),
        forall|i: int| 0 <= i < rows.len() ==> (#[trigger] rows[i])@.len() == raws[i].deps.len(),
    ensures
        total_edges(rows) == total_dep_count(raws),
    decreases rows.len(),
{
    if rows.len() > 0 {
        assert forall|i: int| 0 <= i < rows.drop_last().len() implies (
        #[trigger] rows.drop_last()[i])@.len() == raws.drop_last()[i].deps.len() by {
            assert(rows.drop_last()[i] == rows[i]);
            assert(raws.drop_last()[i] == raws[i]);
        }
        lemma_counts_eq(rows.drop_last(), raws.drop_last());
        assert(rows.last()@.len() == raws.last().deps.len());
    }
}

/// An identity occurs among the deduplicated records exactly when it
/// occurs among the original records.
proof fn lemma_dedup_key_presence(raws: Seq<RawInvocationView>, k: UnitKeyView)
    ensures
        (exists|i: int|
            0 <= i < dedup_by_key(raws).len() && raw_key_view(#[trigger] dedup_by_key(raws)[i])
                == k) <==> (exists|j: int| 0 <= j < raws.len() && raw_key_view(#[trigger] raws[j]) == k),
    decreases raws.len(),
{
    if raws.len() == 0 {
    } else {
        let prefix = raws.drop_last();
        lemma_dedup_key_presence(prefix, k);
        let d = dedup_by_key(raws);
        let dp = dedup_by_key(prefix);
        if first_occurrence(raws, raws.len() - 1) {
            assert(d == dp.push(raws.last()));
            if exists|i: int| 0 <= i < d.len() && raw_key_view(#[trigger] d[i]) == k {
                let i = choose|i: int| 0 <= i < d.len() && raw_key_view(#[trigger] d[i]) == k;
                if i < dp.len() {
                    assert(d[i] == dp[i]);
                    let j = choose|j: int|
                        0 <= j < prefix.len() && raw_key_view(#[trigger] prefix[j]) == k;
                    assert(prefix[j] == raws[j]);
                } else {
                    assert(d[i] == raws.last());
                    assert(raw_key_view(raws[raws.len() - 1]) == k);
                }
            }
            if exists|j: int| 0 <= j < raws.len() && raw_key_view(#[trigger] raws[j]) == k {
                let j = choose|j: int| 0 <= j < raws.len() && raw_key_view(#[trigger] raws[j]) == k;
                if j < raws.len() - 1 {
                    assert(prefix[j] == raws[j]);
                    let i = choose|i: int|
                        0 <= i < dp.len() && raw_key_view(#[trigger] dp[i]) == k;
                    assert(d[i] == dp[i]);
                } else {
                    assert(d[d.len() - 1] == raws.last());
                }
            }
        } else {
            assert(d == dp);
            let je = choose|j: int|
                0 <= j < raws.len() - 1 && raw_key_view(#[trigger] raws[j]) == raw_key_view(
                    raws[raws.len() - 1],
                );
            if exists|i: int| 0 <= i < d.len() && raw_key_view(#[trigger] d[i]) == k {
                let i = choose|i: int| 0 <= i < d.len() && raw_key_view(#[trigger] d[i]) == k;
                let j = choose|j: int|
                    0 <= j < prefix.len() && raw_key_view(#[trigger] prefix[j]) == k;
                assert(prefix[j] == raws[j]);
            }
            if exists|j: int| 0 <= j < raws.len() && raw_key_view(#[trigger] raws[j]) == k {
                let j = choose|j: int| 0 <= j < raws.len() && raw_key_view(#[trigger] raws[j]) == k;
                if j < raws.len() - 1 {
                    assert(prefix[j] == raws[j]);
                } else {
                    assert(prefix[je] == raws[je]);
                    assert(raw_key_view(prefix[je]) == k);
                }
            }
        }
    }
}

/// With pairwise distinct identities nothing is deduplicated.
proof fn lemma_dedup_distinct_id(raws: Seq<RawInvocationView>)
    requires
        distinct_keys(raws),
    ensures
        dedup_by_key(raws) == raws,
    decreases raws.len(),
{
    if raws.len() > 0 {
        let prefix = raws.drop_last();
        assert(distinct_keys(prefix)) by {
            assert forall|i: int, j: int|
                0 <= i < j < prefix.len() implies raw_key_view(#[trigger] prefix[i])
                != raw_key_view(#[trigger] prefix[j]) by {
                assert(prefix[i] == raws[i]);
                assert(prefix[j] == raws[j]);
            }
        }
        lemma_dedup_distinct_id(prefix);
        assert(first_occurrence(raws, raws.len() - 1)) by {
            assert forall|j: int| 0 <= j < raws.len() - 1 implies raw_key_view(#[trigger] raws[j])
                != raw_key_view(raws[raws.len() - 1]) by {}
        }
        assert(dedup_by_key(raws) == prefix.push(raws.last()));
        assert(prefix.push(raws.last()) =~= raws);
    }
}

impl BuildGraph {
    /// Builds the graph of a record list whose dependency indices are all
    /// in range. Records are deduplicated by identity (first kept); every
    /// resolvable dependency becomes an edge between the two identities,
    /// self-edges dropped. For a plan with pairwise distinct identities
    /// and plain dependency lists (no duplicates, no self-references) the
    /// counts are preserved exactly: one unit per record, one edge per
    /// dependency entry.
    pub fn with_units(invocations: &Vec<RawInvocation>) -> (g: BuildGraph)
        requires
            raw_deps_ok(raw_views(invocations@)),
        ensures
            g.wf(),
            g.n() == dedup_by_key(raw_views(invocations@)).len(),
            forall|t: int|
                0 <= t < g.n() ==> #[trigger] g.unit_at_spec(t) == unit_view_of_raw(
                    dedup_by_key(raw_views(invocations@))[t],
                ),
            forall|k1: UnitKeyView, k2: UnitKeyView|
                #[trigger] g.edge_between(k1, k2) <==> raw_edge(raw_views(invocations@), k1, k2),
            plain_plan(raw_views(invocations@)) ==> g.n() == invocations@.len(),
            plain_plan(raw_views(invocations@)) ==> forall|i: int|
                0 <= i < g.n() ==> #[trigger] g.deps@[i]@ == raw_views(invocations@)[i].deps,
            plain_plan(raw_views(invocations@)) ==> total_edges(g.deps@) == total_dep_count(
                raw_views(invocations@),
            ),
    {
        let ghost raws = raw_views(invocations@);
        let n = invocations.len();
        let mut g = BuildGraph::new();
        let mut map: Vec<usize> = Vec::new();
        let mut i: usize = 0;
        while i < n
            invariant
                raws == raw_views(invocations@),
                n == invocations@.len(),
                raws.len() == n,
                raw_deps_ok(raws),
                g.wf(),
                i <= n,
                map@.len() == i,
                g.n() == dedup_by_key(raws.take(i as int)).len(),
                forall|t: int|
                    0 <= t < g.n() ==> #[trigger] g.unit_at_spec(t) == unit_view_of_raw(
                        dedup_by_key(raws.take(i as int))[t],
                    ),
                forall|j: int|
                    0 <= j < i ==> (#[trigger] map@[j] as int) < g.n() && g.key_at(map@[j] as int)
                        == raw_key_view(raws[j]),
                forall|p: int, q: int| !g.dep_edge(p, q),
                forall|p: int| 0 <= p < g.n() ==> (#[trigger] g.deps@[p]@).len() == 0,
                distinct_keys(raws) ==> g.n() == i && (forall|j: int|
                    0 <= j < i ==> #[trigger] map@[j] == j),
            decreases n - i,
        {
            let ghost prev_units = dedup_by_key(raws.take(i as int));
            proof {
                assert(invocations@[i as int]@ == raws[i as int]);
                assert(raws.take(i as int + 1).drop_last() =~= raws.take(i as int));
                assert(raws.take(i as int + 1).last() == raws[i as int]);
                assert(raws.take(i as int + 1)[i as int] == raws[i as int]);
                assert forall|j: int| 0 <= j < i implies #[trigger] raws.take(i as int + 1)[j]
                    == raws[j] by {}
                if (forall|j: int|
                    0 <= j < i ==> raw_key_view(#[trigger] raws[j]) != raw_key_view(
                        raws[i as int],
                    )) {
                    assert forall|j: int| 0 <= j < i as int implies raw_key_view(
                        #[trigger] raws.take(i as int + 1)[j],
                    ) != raw_key_view(raws.take(i as int + 1)[i as int]) by {
                        assert(raws.take(i as int + 1)[j] == raws[j]);
                    }
                    assert(first_occurrence(raws.take(i as int + 1), i as int));
                }
                if first_occurrence(raws.take(i as int + 1), i as int) {
                    assert forall|j: int| 0 <= j < i implies raw_key_view(#[trigger] raws[j])
                        != raw_key_view(raws[i as int]) by {
                        assert(raw_key_view(raws.take(i as int + 1)[j]) != raw_key_view(
                            raws.take(i as int + 1)[i as int],
                        ));
                    }
                }
            }
            let key = invocations[i].key();
            match g.find_key(&key) {
                Some(gi) => {
                    map.push(gi);
                    proof {
                        // the identity already sits in the graph, so some
                        // earlier record carries it
                        assert(g.key_at(gi as int) == raw_key_view(raws[i as int]));
                        assert(g.unit_at_spec(gi as int) == unit_view_of_raw(
                            prev_units[gi as int],
                        ));
                        assert(raw_key_view(prev_units[gi as int]) == raw_key_view(
                            raws[i as int],
                        ));
                        lemma_dedup_key_presence(raws.take(i as int), raw_key_view(raws[i as int]));
                        let j = choose|j: int|
                            0 <= j < raws.take(i as int).len() && raw_key_view(
                                #[trigger] raws.take(i as int)[j],
                            ) == raw_key_view(raws[i as int]);
                        assert(raws.take(i as int)[j] == raws[j]);
                        assert(!first_occurrence(raws.take(i as int + 1), i as int));
                        assert(dedup_by_key(raws.take(i as int + 1)) == prev_units);
                        if distinct_keys(raws) {
                            assert(raw_key_view(raws[j]) != raw_key_view(raws[i as int]));
                            assert(false);
                        }
                    }
                },
                None => {
                    let gi = g.unit_count();
                    let u = invocations[i].to_unit();
                    proof {
                        assert(u@ == unit_view_of_raw(raws[i as int]));
                        assert(u@.key == raw_key_view(raws[i as int]));
                        assert(!g.has_key(u@.key));
                        // no earlier record carries this identity
                        assert forall|j: int| 0 <= j < i implies raw_key_view(#[trigger] raws[j])
                            != raw_key_view(raws[i as int]) by {
                            if raw_key_view(raws[j]) == raw_key_view(raws[i as int]) {
                                assert(g.key_at(map@[j] as int) == raw_key_view(raws[j]));
                                assert(g.has_key(raw_key_view(raws[i as int])));
                            }
                        }
                        assert(first_occurrence(raws.take(i as int + 1), i as int));
                        assert(dedup_by_key(raws.take(i as int + 1)) == prev_units.push(
                            raws[i as int],
                        ));
                    }
                    let ghost g_before = g;
                    g.push_node(u);
                    map.push(gi);
                    proof {
                        assert forall|t: int|
                            0 <= t < g.n() implies #[trigger] g.unit_at_spec(t) == unit_view_of_raw(
                            dedup_by_key(raws.take(i as int + 1))[t],
                        ) by {
                            if t < prev_units.len() {
                                assert(g.units@[t] == g_before.units@[t]);
                                assert(g.unit_at_spec(t) == g_before.unit_at_spec(t));
                                assert(g_before.unit_at_spec(t) == unit_view_of_raw(
                                    prev_units[t],
                                ));
                                assert(dedup_by_key(raws.take(i as int + 1))[t] == prev_units[t]);
                            } else {
                                assert(g.units@[t] == u);
                                assert(dedup_by_key(raws.take(i as int + 1))[t] == raws[i as int]);
                            }
                        }
                        assert forall|p: int, q: int| !g.dep_edge(p, q) by {}
                    }
                },
            }
            i = i + 1;
        }
        proof {
            assert(raws.take(n as int) =~= raws);
            if distinct_keys(raws) {
                assert forall|j: int| 0 <= j < n implies #[trigger] map@[j] == j by {}
            }
            assert forall|k1: UnitKeyView, k2: UnitKeyView| !(#[trigger] g.edge_between(
                k1,
                k2,
            )) by {
                if g.edge_between(k1, k2) {
                    let (p, q) = choose|p: int, q: int|
                        #[trigger] g.dep_edge(p, q) && g.key_at(p) == k1 && g.key_at(q) == k2;
                }
            }
            assert forall|k1: UnitKeyView, k2: UnitKeyView| !raw_edge_upto(raws, 0, 0, k1, k2) by {
                if raw_edge_upto(raws, 0, 0, k1, k2) {
                    let (p, q) = choose|p: int, q: int|
                        #![trigger raws[p].deps[q]]
                        0 <= p < raws.len() && 0 <= q < raws[p].deps.len() && (p < 0
                            || (p == 0 && q < 0)) && (raws[p].deps[q] as int) < raws.len()
                            && raw_key_view(raws[p]) == k1 && raw_key_view(
                            raws[raws[p].deps[q] as int],
                        ) == k2;
                }
            }
        }
        // Link every resolvable dependency, coalescing by identity.
        let mut i: usize = 0;
        while i < n
            invariant
                raws == raw_views(invocations@),
                n == invocations@.len(),
                raws.len() == n,
                raw_deps_ok(raws),
                g.wf(),
                i <= n,
                map@.len() == n,
                g.n() == dedup_by_key(raws).len(),
                forall|t: int|
                    0 <= t < g.n() ==> #[trigger] g.unit_at_spec(t) == unit_view_of_raw(
                        dedup_by_key(raws)[t],
                    ),
                forall|j: int|
                    0 <= j < n ==> (#[trigger] map@[j] as int) < g.n() && g.key_at(map@[j] as int)
                        == raw_key_view(raws[j]),
                forall|k1: UnitKeyView, k2: UnitKeyView|
                    #[trigger] g.edge_between(k1, k2) <==> raw_edge_upto(raws, i as int, 0, k1, k2),
                plain_plan(raws) ==> g.n() == n && (forall|j: int|
                    0 <= j < n ==> #[trigger] map@[j] == j) && (forall|p: int|
                    0 <= p < g.n() ==> #[trigger] g.deps@[p]@ == (if p < i {
                        raws[p].deps
                    } else {
                        Seq::<usize>::empty()
                    })),
            decreases n - i,
        {
            let dl = invocations[i].deps.len();
            let a = map[i];
            let mut kk: usize = 0;
            while kk < dl
                invariant
                    raws == raw_views(invocations@),
                    n == invocations@.len(),
                    raws.len() == n,
                    raw_deps_ok(raws),
                    g.wf(),
                    i < n,
                    kk <= dl,
                    dl == raws[i as int].deps.len(),
                    map@.len() == n,
                    a == map@[i as int],
                    g.n() == dedup_by_key(raws).len(),
                    forall|t: int|
                        0 <= t < g.n() ==> #[trigger] g.unit_at_spec(t) == unit_view_of_raw(
                            dedup_by_key(raws)[t],
                        ),
                    forall|j: int|
                        0 <= j < n ==> (#[trigger] map@[j] as int) < g.n() && g.key_at(
                            map@[j] as int,
                        ) == raw_key_view(raws[j]),
                    forall|k1: UnitKeyView, k2: UnitKeyView|
                        #[trigger] g.edge_between(k1, k2) <==> raw_edge_upto(
                            raws,
                            i as int,
                            kk as int,
                            k1,
                            k2,
                        ),
                    plain_plan(raws) ==> g.n() == n && (forall|j: int|
                        0 <= j < n ==> #[trigger] map@[j] == j) && (forall|p: int|
                        0 <= p < g.n() ==> #[trigger] g.deps@[p]@ == (if p < i {
                            raws[p].deps
                        } else if p == i {
                            raws[p].deps.take(kk as int)
                        } else {
                            Seq::<usize>::empty()
                        })),
                decreases dl - kk,
            {
                let ghost old_g = g;
                let d = invocations[i].deps[kk];
                proof {
                    assert(invocations@[i as int]@ == raws[i as int]);
                    assert(invocations@[i as int].deps@ == raws[i as int].deps);
                    assert(raws[i as int].deps[kk as int] == d);
                    assert((d as int) < n);
                }
                let b = map[d];
                if a != b {
                    g.add_edge(a, b);
                }
                proof {
                    let ka = g.key_at(a as int);
                    let kb = g.key_at(b as int);
                    assert(ka == raw_key_view(raws[i as int]));
                    assert(kb == raw_key_view(raws[d as int]));
                    if a != b {
                        assert(ka != kb);
                        // the edge relations gained exactly (identity of
                        // record i, identity of record d)
                        assert forall|k1: UnitKeyView, k2: UnitKeyView| #[trigger] g.edge_between(
                            k1,
                            k2,
                        ) <==> raw_edge_upto(raws, i as int, kk as int + 1, k1, k2) by {
                            if g.edge_between(k1, k2) {
                                let (p, q) = choose|p: int, q: int|
                                    #[trigger] g.dep_edge(p, q) && g.key_at(p) == k1 && g.key_at(q)
                                        == k2;
                                if old_g.dep_edge(p, q) {
                                    assert(old_g.edge_between(k1, k2));
                                    assert(raw_edge_upto(raws, i as int, kk as int, k1, k2));
                                    let (pi, pk) = choose|pi: int, pk: int|
                                        #![trigger raws[pi].deps[pk]]
                                        0 <= pi < raws.len() && 0 <= pk < raws[pi].deps.len() && (pi < i as int || (pi
                                            == i as int && pk < kk as int)) && (
                                        raws[pi].deps[pk] as int) < raws.len() && raw_key_view(
                                            raws[pi],
                                        ) == k1 && raw_key_view(raws[raws[pi].deps[pk] as int])
                                            == k2;
                                    assert(raw_edge_upto(raws, i as int, kk as int + 1, k1, k2));
                                } else {
                                    assert(p == a as int && q == b as int);
                                    assert(k1 == ka && k2 == kb);
                                    assert(raw_edge_upto(raws, i as int, kk as int + 1, k1, k2));
                                }
                            }
                            if raw_edge_upto(raws, i as int, kk as int + 1, k1, k2) {
                                let (pi, pk) = choose|pi: int, pk: int|
                                    #![trigger raws[pi].deps[pk]]
                                    0 <= pi < raws.len() && 0 <= pk < raws[pi].deps.len()
                                        && (pi < i as int || (pi == i as int && pk < kk as int + 1))
                                        && (raws[pi].deps[pk] as int) < raws.len() && raw_key_view(
                                        raws[pi],
                                    ) == k1 && raw_key_view(raws[raws[pi].deps[pk] as int]) == k2;
                                if pi == i as int && pk == kk as int {
                                    assert(k1 == ka && k2 == kb);
                                    assert(g.dep_edge(a as int, b as int));
                                    assert(g.edge_between(k1, k2));
                                } else {
                                    assert(raw_edge_upto(raws, i as int, kk as int, k1, k2));
                                    assert(old_g.edge_between(k1, k2));
                                    let (p, q) = choose|p: int, q: int|
                                        #[trigger] old_g.dep_edge(p, q) && old_g.key_at(p) == k1
                                            && old_g.key_at(q) == k2;
                                    assert(g.dep_edge(p, q));
                                    assert(g.edge_between(k1, k2));
                                }
                            }
                        }
                    } else {
                        // a self-reference after coalescing adds nothing
                        assert(ka == kb);
                        assert forall|k1: UnitKeyView, k2: UnitKeyView| #[trigger] g.edge_between(
                            k1,
                            k2,
                        ) <==> raw_edge_upto(raws, i as int, kk as int + 1, k1, k2) by {
                            if raw_edge_upto(raws, i as int, kk as int + 1, k1, k2) {
                                let (pi, pk) = choose|pi: int, pk: int|
                                    #![trigger raws[pi].deps[pk]]
                                    0 <= pi < raws.len() && 0 <= pk < raws[pi].deps.len()
                                        && (pi < i as int || (pi == i as int && pk < kk as int + 1))
                                        && (raws[pi].deps[pk] as int) < raws.len() && raw_key_view(
                                        raws[pi],
                                    ) == k1 && raw_key_view(raws[raws[pi].deps[pk] as int]) == k2;
                                if pi == i as int && pk == kk as int {
                                    assert(k1 == ka && k2 == kb);
                                    assert(k1 != k2);
                                    assert(false);
                                } else {
                                    assert(raw_edge_upto(raws, i as int, kk as int, k1, k2));
                                }
                            }
                            if g.edge_between(k1, k2) {
                                assert(raw_edge_upto(raws, i as int, kk as int, k1, k2));
                                let (pi, pk) = choose|pi: int, pk: int|
                                    #![trigger raws[pi].deps[pk]]
                                    0 <= pi < raws.len() && 0 <= pk < raws[pi].deps.len()
                                        && (pi < i as int || (pi == i as int && pk < kk as int))
                                        && (raws[pi].deps[pk] as int) < raws.len() && raw_key_view(
                                        raws[pi],
                                    ) == k1 && raw_key_view(raws[raws[pi].deps[pk] as int]) == k2;
                                assert(raw_edge_upto(raws, i as int, kk as int + 1, k1, k2));
                            }
                        }
                    }
                    if plain_plan(raws) {
                        assert(map@[i as int] == i as int);
                        assert(map@[d as int] == d as int);
                        assert(a == i && b == d);
                        assert((d as int) != i as int);
                        assert(a != b);
                        assert(!old_g.deps@[a as int]@.contains(b)) by {
                            assert(old_g.deps@[a as int]@ == raws[i as int].deps.take(kk as int));
                            if raws[i as int].deps.take(kk as int).contains(d) {
                                let w = choose|w: int|
                                    0 <= w < kk && raws[i as int].deps.take(kk as int)[w] == d;
                                assert(raws[i as int].deps[w] == d);
                                assert(raws[i as int].deps[kk as int] == d);
                                assert(!raws[i as int].deps.no_duplicates());
                            }
                        }
                        assert(!old_g.dep_edge(a as int, b as int));
                        assert(g.deps@[a as int]@ == old_g.deps@[a as int]@.push(b));
                        assert forall|p: int|
                            0 <= p < g.n() implies #[trigger] g.deps@[p]@ == (if p < i as int {
                            raws[p].deps
                        } else if p == i as int {
                            raws[p].deps.take(kk as int + 1)
                        } else {
                            Seq::<usize>::empty()
                        }) by {
                            if p == i as int {
                                assert(raws[p].deps.take(kk as int).push(
                                    raws[p].deps[kk as int],
                                ) =~= raws[p].deps.take(kk as int + 1));
                            } else {
                                assert(g.deps@[p]@ == old_g.deps@[p]@);
                            }
                        }
                    }
                }
                proof {
                    assert(g.units@ == old_g.units@);
                    assert forall|t: int|
                        0 <= t < g.n() implies #[trigger] g.unit_at_spec(t) == unit_view_of_raw(
                        dedup_by_key(raws)[t],
                    ) by {
                        assert(g.unit_at_spec(t) == old_g.unit_at_spec(t));
                        assert(old_g.unit_at_spec(t) == unit_view_of_raw(dedup_by_key(raws)[t]));
                    }
                }
                kk = kk + 1;
            }
            proof {
                assert forall|k1: UnitKeyView, k2: UnitKeyView| raw_edge_upto(
                    raws,
                    i as int,
                    dl as int,
                    k1,
                    k2,
                ) <==> raw_edge_upto(raws, i as int + 1, 0, k1, k2) by {
                    if raw_edge_upto(raws, i as int, dl as int, k1, k2) {
                        let (pi, pk) = choose|pi: int, pk: int|
                            #![trigger raws[pi].deps[pk]]
                            0 <= pi < raws.len() && 0 <= pk < raws[pi].deps.len() && (
                            pi < i as int || (pi == i as int && pk < dl as int)) && (
                            raws[pi].deps[pk] as int) < raws.len() && raw_key_view(raws[pi]) == k1
                                && raw_key_view(raws[raws[pi].deps[pk] as int]) == k2;
                        assert(pi < i as int + 1);
                        assert(raw_edge_upto(raws, i as int + 1, 0, k1, k2));
                    }
                    if raw_edge_upto(raws, i as int + 1, 0, k1, k2) {
                        let (pi, pk) = choose|pi: int, pk: int|
                            #![trigger raws[pi].deps[pk]]
                            0 <= pi < raws.len() && 0 <= pk < raws[pi].deps.len() && (
                            pi < i as int + 1 || (pi == i as int + 1 && pk < 0)) && (
                            raws[pi].deps[pk] as int) < raws.len() && raw_key_view(raws[pi]) == k1
                                && raw_key_view(raws[raws[pi].deps[pk] as int]) == k2;
                        if pi == i as int {
                            assert(pk < dl as int);
                        }
                        assert(raw_edge_upto(raws, i as int, dl as int, k1, k2));
                    }
                }
                if plain_plan(raws) {
                    assert forall|p: int|
                        0 <= p < g.n() implies #[trigger] g.deps@[p]@ == (if p < i as int + 1 {
                        raws[p].deps
                    } else {
                        Seq::<usize>::empty()
                    }) by {
                        if p == i as int {
                            assert(raws[p].deps.take(dl as int) =~= raws[p].deps);
                        }
                    }
                }
            }
            i = i + 1;
        }
        proof {
            assert forall|k1: UnitKeyView, k2: UnitKeyView| #[trigger] g.edge_between(k1, k2)
                <==> raw_edge(raws, k1, k2) by {
                if g.edge_between(k1, k2) {
                    let (pi, pk) = choose|pi: int, pk: int|
                        #![trigger raws[pi].deps[pk]]
                        0 <= pi < raws.len() && 0 <= pk < raws[pi].deps.len() && (pi
                            < n as int || (pi == n as int && pk < 0)) && (raws[pi].deps[pk] as int)
                            < raws.len() && raw_key_view(raws[pi]) == k1 && raw_key_view(
                            raws[raws[pi].deps[pk] as int],
                        ) == k2;
                    assert(raw_edge(raws, k1, k2));
                }
                if raw_edge(raws, k1, k2) {
                    let (pi, pk) = choose|pi: int, pk: int|
                        #![trigger raws[pi].deps[pk]]
                        0 <= pi < raws.len() && 0 <= pk < raws[pi].deps.len() && (
                        raws[pi].deps[pk] as int) < raws.len() && raw_key_view(raws[pi]) == k1
                            && raw_key_view(raws[raws[pi].deps[pk] as int]) == k2;
                    assert(raw_edge_upto(raws, n as int, 0, k1, k2));
                }
            }
            if plain_plan(raws) {
                lemma_dedup_distinct_id(raws);
                assert forall|p: int| 0 <= p < g.deps@.len() implies (#[trigger] g.deps@[p])@.len()
                    == raws[p].deps.len() by {
                    assert(g.deps@[p]@ == raws[p].deps);
                }
                lemma_counts_eq(g.deps@, raws);
            }
        }
        g
    }

    /// Loads a serialized plan. The whole plan is rejected — no partial
    /// graph — exactly when some dependency index does not resolve to a
    /// record of the list; otherwise the graph is built as
    /// [`BuildGraph::with_units`] describes, which for a plan with
    /// distinct identities and plain dependency lists preserves the unit
    /// count and the edge count (the round trip).
    pub fn try_from_raw(raw: RawPlan) -> (r: Result<BuildGraph, ()>)
        ensures
            r is Err <==> !raw_deps_ok(raw_views(raw.invocations@)),
            r matches Ok(g) ==> {
                &&& g.wf()
                &&& g.n() == dedup_by_key(raw_views(raw.invocations@)).len()
                &&& forall|t: int|
                    0 <= t < g.n() ==> #[trigger] g.unit_at_spec(t) == unit_view_of_raw(
                        dedup_by_key(raw_views(raw.invocations@))[t],
                    )
                &&& forall|k1: UnitKeyView, k2: UnitKeyView|
                    #[trigger] g.edge_between(k1, k2) <==> raw_edge(
                        raw_views(raw.invocations@),
                        k1,
                        k2,
                    )
                &&& plain_plan(raw_views(raw.invocations@)) ==> g.n() == raw.invocations@.len()
                &&& plain_plan(raw_views(raw.invocations@)) ==> total_edges(g.deps@)
                    == total_dep_count(raw_views(raw.invocations@))
            },
    {
        let ghost raws = raw_views(raw.invocations@);
        let n = raw.invocations.len();
        let mut i: usize = 0;
        while i < n
            invariant
                raws == raw_views(raw.invocations@),
                n == raw.invocations@.len(),
                raws.len() == n,
                i <= n,
                forall|p: int, q: int|
                    0 <= p < i && 0 <= q < raws[p].deps.len() ==> ((#[trigger] raws[p].deps[q]) as int)
                        < n,
            decreases n - i,
        {
            let dl = raw.invocations[i].deps.len();
            let mut k: usize = 0;
            while k < dl
                invariant
                    raws == raw_views(raw.invocations@),
                    n == raw.invocations@.len(),
                    raws.len() == n,
                    i < n,
                    k <= dl,
                    dl == raws[i as int].deps.len(),
                    forall|p: int, q: int|
                        0 <= p < i && 0 <= q < raws[p].deps.len() ==> ((
                        #[trigger] raws[p].deps[q]) as int) < n,
                    forall|q: int|
                        0 <= q < k ==> ((#[trigger] raws[i as int].deps[q]) as int) < n,
                decreases dl - k,
            {
                proof {
                    assert(raw.invocations@[i as int]@ == raws[i as int]);
                }
                if raw.invocations[i].deps[k] >= n {
                    proof {
                        assert((raws[i as int].deps[k as int] as int) >= n);
                        assert(!raw_deps_ok(raws));
                    }
                    return Err(());
                }
                k = k + 1;
            }
            proof {
                assert forall|p: int, q: int|
                    0 <= p < i + 1 && 0 <= q < raws[p].deps.len() implies ((
                #[trigger] raws[p].deps[q]) as int) < n by {}
            }
            i = i + 1;
        }
        Ok(BuildGraph::with_units(&raw.invocations))
    }
}

} // verus!
