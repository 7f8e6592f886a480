//! Topological ordering of a subset of units.
//!
//! Convention, applied to the job-queue builder as well: dependencies
//! appear **before** their dependents in the returned sequence, so a
//! queue can be executed front to back. The sorter is a worklist
//! algorithm — no recursion, so its depth does not grow with the graph:
//! it repeatedly emits every unit of the subset whose in-subset
//! dependencies are already emitted. A dependency outside the requested
//! subset is not traversed; callers pass a transitively closed set. On a
//! subset whose restricted edges are acyclic this emits everything in a
//! valid order; leftovers of a dependency cycle are appended at the end
//! rather than dropped, so the result is always a permutation of the
//! request.

use vstd::prelude::*;

use crate::closure::count_true;
use crate::closure::lemma_push_contains;
use crate::closure::lemma_push_no_dup;
use crate::graph::BuildGraph;

verus! {

broadcast use vstd::std_specs::vec::group_vec_axioms;

impl BuildGraph {
    /// Forward edge between units given as indices.
    pub open spec fn dep_edge_u(self, i: usize, j: usize) -> bool {
        self.dep_edge(i as int, j as int)
    }

    /// `rank` witnesses that the forward edges restricted to `sub` run
    /// strictly downhill — the restriction of the graph to `sub` is a DAG.
    pub open spec fn rank_respects(self, sub: Seq<usize>, rank: spec_fn(usize) -> nat) -> bool {
        forall|i: usize, j: usize|
            sub.contains(i) && sub.contains(j) && #[trigger] self.dep_edge_u(i, j) ==> rank(j)
                < rank(i)
    }

    /// The forward edges restricted to `sub` are acyclic.
    pub open spec fn acyclic_in(self, sub: Seq<usize>) -> bool {
        exists|rank: spec_fn(usize) -> nat| #[trigger] self.rank_respects(sub, rank)
    }

    /// Every in-subset dependency of `u` is already emitted.
    fn ready_exec(&self, u: usize, sub: &Vec<bool>, in_out: &Vec<bool>) -> (r: bool)
        requires
            self.wf(),
            (u as int) < self.n(),
            sub@.len() == self.n(),
            in_out@.len() == self.n(),
        ensures
            r <==> forall|w: usize|
                #[trigger] self.dep_edge_u(u, w) && sub@[w as int] ==> in_out@[w as int],
    {
        let row_len = self.deps[u].len();
        let mut d: usize = 0;
        let mut ready = true;
        while d < row_len
            invariant
                self.wf(),
                (u as int) < self.n(),
                sub@.len() == self.n(),
                in_out@.len() == self.n(),
                d <= row_len,
                row_len == self.deps@[u as int]@.len(),
                ready <==> forall|k: int|
                    0 <= k < d ==> !sub@[#[trigger] self.deps@[u as int]@[k] as int]
                        || in_out@[self.deps@[u as int]@[k] as int],
            decreases row_len - d,
        {
            let w = self.deps[u][d];
            proof {
                assert(self.deps@[u as int]@[d as int] == w);
                assert((w as int) < self.n());
            }
            if sub[w] && !in_out[w] {
                ready = false;
            }
            proof {
                assert forall|k: int|
                    0 <= k < d + 1 implies (!sub@[#[trigger] self.deps@[u as int]@[k] as int]
                    || in_out@[self.deps@[u as int]@[k] as int]) == (if k < d {
                    !sub@[self.deps@[u as int]@[k] as int] || in_out@[self.deps@[u as int]@[k] as int]
                } else {
                    !sub@[w as int] || in_out@[w as int]
                }) by {}
            }
            d = d + 1;
        }
        proof {
            if ready {
                assert forall|w: usize|
                    #[trigger] self.dep_edge_u(u, w) && sub@[w as int] implies in_out@[w as int] by {
                    let k = choose|k: int|
                        0 <= k < self.deps@[u as int]@.len() && self.deps@[u as int]@[k]
                            == w as usize;
                    assert(!sub@[self.deps@[u as int]@[k] as int] || in_out@[self.deps@[u as int]@[k] as int]);
                }
            } else {
                let k = choose|k: int|
                    0 <= k < row_len && !(!sub@[#[trigger] self.deps@[u as int]@[k] as int]
                        || in_out@[self.deps@[u as int]@[k] as int]);
                let w = self.deps@[u as int]@[k];
                assert(self.deps@[u as int]@.contains(w));
                assert(self.dep_edge_u(u, w));
                assert(sub@[w as int] && !in_out@[w as int]);
            }
        }
        ready
    }

    /// Orders the requested units so that, whenever unit `a` of the subset
    /// depends on unit `b` of the subset, `b` comes first — provided the
    /// subset's edges are acyclic, which a dependency graph's are. The
    /// result is always a permutation of the request (members of a cycle
    /// are appended rather than dropped, in request order).
    pub fn topological_sort(&self, units: &Vec<usize>) -> (r: Vec<usize>)
        requires
            self.wf(),
            units@.no_duplicates(),
            forall|k: int| 0 <= k < units@.len() ==> (#[trigger] units@[k] as int) < self.n(),
        ensures
            r@.no_duplicates(),
            forall|u: usize| #[trigger] r@.contains(u) <==> units@.contains(u),
            self.acyclic_in(units@) ==> forall|a: int, b: int|
                0 <= a < r@.len() && 0 <= b < r@.len() && #[trigger] self.dep_edge_u(
                    r@[a],
                    r@[b],
                ) ==> b < a,
    {
        let nn = self.units.len();
        proof {
            assert forall|u: usize| #[trigger] units@.contains(u) implies (u as int) < self.n() by {
                let k = choose|k: int| 0 <= k < units@.len() && units@[k] == u;
            }
        }
        // membership flags for the requested subset
        let mut sub: Vec<bool> = vec![false; nn];
        let m = units.len();
        let mut k: usize = 0;
        while k < m
            invariant
                k <= m,
                m == units@.len(),
                nn == self.n(),
                sub@.len() == nn,
                forall|j: int| 0 <= j < m ==> (#[trigger] units@[j] as int) < self.n(),
                forall|u: usize|
                    (u as int) < nn ==> (#[trigger] sub@[u as int] <==> units@.take(
                        k as int,
                    ).contains(u)),
            decreases m - k,
        {
            let u = units[k];
            let ghost old_sub = sub@;
            sub[u] = true;
            proof {
                assert(units@.take(k as int).push(units@[k as int]) =~= units@.take(k as int + 1));
                lemma_push_contains(units@.take(k as int), u);
                assert forall|v: usize|
                    (v as int) < nn implies (#[trigger] sub@[v as int] <==> units@.take(
                        k as int + 1,
                    ).contains(v)) by {
                    if v != u {
                        assert(sub@[v as int] == old_sub[v as int]);
                    }
                }
            }
            k = k + 1;
        }
        proof {
            assert(units@.take(m as int) =~= units@);
        }
        let mut in_out: Vec<bool> = vec![false; nn];
        let mut count: usize = 0;
        let mut output: Vec<usize> = Vec::new();
        let mut progress = true;
        proof {
            crate::closure::lemma_count_true_all_false(in_out@);
        }
        while progress
            invariant
                self.wf(),
                nn == self.n(),
                m == units@.len(),
                sub@.len() == nn,
                in_out@.len() == nn,
                units@.no_duplicates(),
                forall|j: int| 0 <= j < m ==> (#[trigger] units@[j] as int) < self.n(),
                forall|u: usize| #[trigger] units@.contains(u) ==> (u as int) < nn,
                forall|u: usize| (u as int) < nn ==> (#[trigger] sub@[u as int] <==> units@.contains(u)),
                count == count_true(in_out@),
                count <= nn,
                output@.no_duplicates(),
                forall|u: usize| #[trigger] output@.contains(u) ==> units@.contains(u),
                forall|u: usize|
                    (u as int) < nn ==> (#[trigger] in_out@[u as int] <==> output@.contains(u)),
                forall|x: usize, w: usize|
                    #[trigger] output@.contains(x) && #[trigger] self.dep_edge_u(x, w)
                        && units@.contains(w) ==> output@.contains(w),
                forall|a: int, b: int|
                    0 <= a < output@.len() && 0 <= b < output@.len() && #[trigger] self.dep_edge_u(
                        output@[a],
                        output@[b],
                    ) ==> b < a,
                !progress ==> forall|s: int|
                    0 <= s < m ==> in_out@[#[trigger] units@[s] as int] || (exists|w: usize|
                        #[trigger] self.dep_edge_u(units@[s], w) && units@.contains(w)
                            && !in_out@[w as int]),
            decreases nn - count, (if progress { 1int } else { 0int }),
        {
            progress = false;
            let ghost snap = in_out@;
            let ghost snap_count = count;
            let mut t: usize = 0;
            while t < m
                invariant
                    self.wf(),
                    nn == self.n(),
                    m == units@.len(),
                    sub@.len() == nn,
                    in_out@.len() == nn,
                    t <= m,
                    units@.no_duplicates(),
                    forall|j: int| 0 <= j < m ==> (#[trigger] units@[j] as int) < self.n(),
                    forall|u: usize| #[trigger] units@.contains(u) ==> (u as int) < nn,
                    forall|u: usize|
                        (u as int) < nn ==> (#[trigger] sub@[u as int] <==> units@.contains(u)),
                    count == count_true(in_out@),
                    count <= nn,
                    count >= snap_count,
                    progress ==> count > snap_count,
                    output@.no_duplicates(),
                    forall|u: usize| #[trigger] output@.contains(u) ==> units@.contains(u),
                    forall|u: usize|
                        (u as int) < nn ==> (#[trigger] in_out@[u as int] <==> output@.contains(u)),
                    forall|x: usize, w: usize|
                        #[trigger] output@.contains(x) && #[trigger] self.dep_edge_u(x, w)
                            && units@.contains(w) ==> output@.contains(w),
                    forall|a: int, b: int|
                        0 <= a < output@.len() && 0 <= b < output@.len()
                            && #[trigger] self.dep_edge_u(output@[a], output@[b]) ==> b < a,
                    !progress ==> in_out@ == snap,
                    !progress ==> forall|s: int|
                        0 <= s < t ==> in_out@[#[trigger] units@[s] as int] || (exists|w: usize|
                            #[trigger] self.dep_edge_u(units@[s], w) && units@.contains(w)
                                && !in_out@[w as int]),
                decreases m - t,
            {
                let u = units[t];
                if !in_out[u] {
                    let ready = self.ready_exec(u, &sub, &in_out);
                    if ready {
                        let ghost old_output = output@;
                        let ghost old_in_out = in_out@;
                        output.push(u);
                        in_out[u] = true;
                        proof {
                            crate::closure::lemma_count_true_update(old_in_out, u as int);
                            crate::closure::lemma_count_true_le(in_out@);
                        }
                        count = count + 1;
                        progress = true;
                        proof {
                            lemma_push_contains(old_output, u);
                            assert(!old_output.contains(u));
                            lemma_push_no_dup(old_output, u);
                            assert(units@.contains(u)) by {
                                assert(units@[t as int] == u);
                            }
                            // emitted set stays synchronized with the flags
                            assert forall|v: usize|
                                (v as int) < nn implies (#[trigger] in_out@[v as int]
                                <==> output@.contains(v)) by {
                                if v != u {
                                    assert(in_out@[v as int] == old_in_out[v as int]);
                                }
                            }
                            // emitted set stays closed under in-subset dependencies
                            assert forall|x: usize, w: usize|
                                #[trigger] output@.contains(x) && #[trigger] self.dep_edge_u(x, w)
                                    && units@.contains(w) implies output@.contains(w) by {
                                if x == u {
                                    assert(sub@[w as int]);
                                    assert(old_in_out[w as int]);
                                    assert(old_output.contains(w));
                                } else {
                                    assert(old_output.contains(x));
                                    assert(old_output.contains(w));
                                }
                            }
                            // the order stays dependency-first
                            assert forall|a: int, b: int|
                                0 <= a < output@.len() && 0 <= b < output@.len()
                                    && #[trigger] self.dep_edge_u(output@[a], output@[b])
                                implies b < a by {
                                let ll = old_output.len() as int;
                                if a < ll && b < ll {
                                    assert(output@[a] == old_output[a]);
                                    assert(output@[b] == old_output[b]);
                                } else if b == ll && a < ll {
                                    assert(output@[a] == old_output[a]);
                                    assert(output@[b] == u);
                                    assert(old_output.contains(old_output[a]));
                                    assert(old_output.contains(u));
                                    assert(old_in_out[u as int]);
                                } else if a == ll && b == ll {
                                    assert(self.dep_edge_u(u, u));
                                    assert(!self.deps@[u as int]@.contains(u));
                                }
                            }
                        }
                    } else {
                        proof {
                            let w = choose|w: usize|
                                #[trigger] self.dep_edge_u(u, w) && sub@[w as int]
                                    && !in_out@[w as int];
                            assert(units@.contains(w));
                        }
                    }
                }
                proof {
                    if !progress {
                        assert forall|s: int|
                            0 <= s < t + 1 implies in_out@[#[trigger] units@[s] as int] || (exists|
                                w: usize,
                            |
                                #[trigger] self.dep_edge_u(units@[s], w) && units@.contains(w)
                                    && !in_out@[w as int]) by {
                            if s == t {
                                if !in_out@[units@[s] as int] {
                                    let w = choose|w: usize|
                                        #[trigger] self.dep_edge_u(u, w) && sub@[w as int]
                                            && !in_out@[w as int];
                                    assert(self.dep_edge_u(units@[s], w) && units@.contains(w)
                                        && !in_out@[w as int]);
                                }
                            }
                        }
                    }
                }
                t = t + 1;
            }
        }
        // On an acyclic subset the worklist has emitted everything.
        proof {
            if self.acyclic_in(units@) {
                lemma_stuck_schedules_all(*self, units@, in_out@);
            }
        }
        // Members of a dependency cycle are appended in request order.
        let ghost phase_one = output@;
        let mut t: usize = 0;
        while t < m
            invariant
                self.wf(),
                nn == self.n(),
                m == units@.len(),
                in_out@.len() == nn,
                t <= m,
                units@.no_duplicates(),
                forall|j: int| 0 <= j < m ==> (#[trigger] units@[j] as int) < self.n(),
                forall|u: usize| #[trigger] units@.contains(u) ==> (u as int) < nn,
                output@.no_duplicates(),
                forall|u: usize| #[trigger] output@.contains(u) ==> units@.contains(u),
                forall|u: usize|
                    (u as int) < nn ==> (#[trigger] in_out@[u as int] <==> output@.contains(u)),
                forall|s: int| 0 <= s < t ==> in_out@[#[trigger] units@[s] as int],
                self.acyclic_in(units@) ==> forall|s: int|
                    0 <= s < m ==> in_out@[#[trigger] units@[s] as int],
                self.acyclic_in(units@) ==> output@ == phase_one,
                self.acyclic_in(units@) ==> forall|a: int, b: int|
                    0 <= a < output@.len() && 0 <= b < output@.len() && #[trigger] self.dep_edge_u(
                        output@[a],
                        output@[b],
                    ) ==> b < a,
            decreases m - t,
        {
            let u = units[t];
            if !in_out[u] {
                proof {
                    if self.acyclic_in(units@) {
                        assert(in_out@[units@[t as int] as int]);
                    }
                }
                let ghost old_output = output@;
                let ghost old_in_out = in_out@;
                output.push(u);
                in_out[u] = true;
                proof {
                    lemma_push_contains(old_output, u);
                    lemma_push_no_dup(old_output, u);
                    assert(units@.contains(u)) by {
                        assert(units@[t as int] == u);
                    }
                    assert forall|v: usize|
                        (v as int) < nn implies (#[trigger] in_out@[v as int] <==> output@.contains(
                        v,
                    )) by {
                        if v != u {
                            assert(in_out@[v as int] == old_in_out[v as int]);
                        }
                    }
                }
            }
            t = t + 1;
        }
        proof {
            assert forall|u: usize| #[trigger] output@.contains(u) <==> units@.contains(u) by {
                if units@.contains(u) {
                    let s = choose|s: int| 0 <= s < m && units@[s] == u;
                    assert(in_out@[units@[s] as int]);
                }
            }
        }
        output
    }
}

/// A stuck worklist has emitted every unit of an acyclic subset: if each
/// unscheduled unit is blocked by an unscheduled in-subset dependency,
/// and a rank orders the subset's edges downhill, an unscheduled unit of
/// minimal rank would be blocked by one of even smaller rank.
proof fn lemma_stuck_schedules_all(g: BuildGraph, units: Seq<usize>, in_out: Seq<bool>)
    requires
        forall|k: int| 0 <= k < units.len() ==> (#[trigger] units[k] as int) < g.n(),
        in_out.len() == g.n(),
        g.acyclic_in(units),
        forall|s: int|
            0 <= s < units.len() ==> in_out[#[trigger] units[s] as int] || (exists|w: usize|
                #[trigger] g.dep_edge_u(units[s], w) && units.contains(w) && !in_out[w as int]),
    ensures
        forall|s: int| 0 <= s < units.len() ==> in_out[#[trigger] units[s] as int],
{
    let rank = choose|rank: spec_fn(usize) -> nat| #[trigger] g.rank_respects(units, rank);
    assert forall|s: int| 0 <= s < units.len() implies in_out[#[trigger] units[s] as int] by {
        if !in_out[units[s] as int] {
            let pred = |u: usize| (u as int) < in_out.len() && !in_out[u as int];
            assert(pred(units[s]));
            let tm = lemma_exists_min(units, pred, rank);
            let um = units[tm];
            assert(!in_out[um as int]);
            let w = choose|w: usize|
                #[trigger] g.dep_edge_u(um, w) && units.contains(w) && !in_out[w as int];
            assert(units.contains(um)) by {
                assert(units[tm] == um);
            }
            assert(rank(w) < rank(um));
            let sw = choose|sw: int| 0 <= sw < units.len() && units[sw] == w;
            assert((w as int) < g.n());
            assert(pred(units[sw]));
            assert(rank(units[tm]) <= rank(units[sw]));
        }
    }
}

/// Among the entries of `units` satisfying `pred` (there is at least
/// one), some index attains the minimal rank.
proof fn lemma_exists_min(units: Seq<usize>, pred: spec_fn(usize) -> bool, rank: spec_fn(usize) -> nat) -> (tm: int)
    requires
        exists|t: int| 0 <= t < units.len() && pred(#[trigger] units[t]),
    ensures
        0 <= tm < units.len(),
        pred(units[tm]),
        forall|s: int| 0 <= s < units.len() && pred(#[trigger] units[s]) ==> rank(units[tm]) <= rank(
            units[s],
        ),
    decreases units.len(),
{
    let last = units.len() - 1;
    let prefix = units.drop_last();
    if exists|t: int| 0 <= t < prefix.len() && pred(#[trigger] prefix[t]) {
        let t1 = lemma_exists_min(prefix, pred, rank);
        assert(prefix[t1] == units[t1]);
        if pred(units[last]) && rank(units[last]) < rank(units[t1]) {
            assert forall|s: int|
                0 <= s < units.len() && pred(#[trigger] units[s]) implies rank(units[last]) <= rank(
                units[s],
            ) by {
                if s < last {
                    assert(prefix[s] == units[s]);
                    assert(rank(units[t1]) <= rank(units[s]));
                }
            }
            last
        } else {
            assert forall|s: int|
                0 <= s < units.len() && pred(#[trigger] units[s]) implies rank(units[t1]) <= rank(
                units[s],
            ) by {
                if s < last {
                    assert(prefix[s] == units[s]);
                }
            }
            t1
        }
    } else {
        let t0 = choose|t: int| 0 <= t < units.len() && pred(#[trigger] units[t]);
        assert(t0 == last) by {
            if t0 < last {
                assert(prefix[t0] == units[t0]);
            }
        }
        assert forall|s: int|
            0 <= s < units.len() && pred(#[trigger] units[s]) implies rank(units[last]) <= rank(
            units[s],
        ) by {
            if s < last {
                assert(prefix[s] == units[s]);
            }
        }
        last
    }
}

} // verus!
