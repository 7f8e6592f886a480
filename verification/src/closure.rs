//! Transitive closure of a dirty set along reverse-dependency edges: every
//! unit that depends, directly or transitively, on a dirty unit.
//!
//! The closure is computed with an explicit work stack — no recursion —
//! and is characterized exactly: it contains the initial set, it is closed
//! under reverse edges, and it contains only units reachable from the
//! initial set. Those three clauses pin the result down as the least such
//! set, which is what the determinism law at the bottom states.

use vstd::prelude::*;

use crate::dirty::paths_view;
use crate::graph::BuildGraph;
use crate::path::AbsPath;

verus! {

broadcast use vstd::std_specs::vec::group_vec_axioms;

/// How many entries of a flag sequence are set.
pub open spec fn count_true(s: Seq<bool>) -> int
    decreases s.len(),
{
    if s.len() == 0 {
        0
    } else {
        count_true(s.drop_last()) + (if s.last() {
            1int
        } else {
            0int
        })
    }
}

/// A flag count never exceeds the number of flags.
pub(crate) proof fn lemma_count_true_le(s: Seq<bool>)
    ensures
        0 <= count_true(s) <= s.len(),
    decreases s.len(),
{
    if s.len() > 0 {
        lemma_count_true_le(s.drop_last());
    }
}

/// A flag sequence with nothing set counts zero.
pub(crate) proof fn lemma_count_true_all_false(s: Seq<bool>)
    requires
        forall|i: int| 0 <= i < s.len() ==> !s[i],
    ensures
        count_true(s) == 0,
    decreases s.len(),
{
    if s.len() > 0 {
        lemma_count_true_all_false(s.drop_last());
    }
}

/// Setting a clear flag raises the count by one.
pub(crate) proof fn lemma_count_true_update(s: Seq<bool>, i: int)
    requires
        0 <= i < s.len(),
        !s[i],
    ensures
        count_true(s.update(i, true)) == count_true(s) + 1,
    decreases s.len(),
{
    let t = s.update(i, true);
    if i == s.len() - 1 {
        assert(t.drop_last() =~= s.drop_last());
    } else {
        assert(t.drop_last() =~= s.drop_last().update(i, true));
        lemma_count_true_update(s.drop_last(), i);
        assert(t.last() == s.last());
    }
}

impl BuildGraph {
    /// Reverse edge between units given as indices.
    pub open spec fn rev_edge_u(self, u: usize, w: usize) -> bool {
        self.rev_edge(u as int, w as int)
    }

    /// `p` walks along reverse-dependency edges of this graph.
    pub open spec fn rev_path(self, p: Seq<usize>) -> bool {
        &&& p.len() >= 1
        &&& forall|k: int| 0 <= k < p.len() ==> (#[trigger] p[k] as int) < self.n()
        &&& forall|k: int| 0 <= k < p.len() - 1 ==> self.rev_edge_u(#[trigger] p[k], p[k + 1])
    }

    /// `x` is reachable along reverse edges from some member of `init`.
    pub open spec fn rev_reachable_from(self, init: Seq<usize>, x: usize) -> bool {
        exists|p: Seq<usize>|
            #[trigger] self.rev_path(p) && init.contains(p[0]) && p.last() == x
    }

    /// `x` is reachable along reverse edges from some unit that `files`
    /// make dirty.
    pub open spec fn reachable_from_dirty(
        self,
        files: Seq<Seq<Seq<char>>>,
        x: usize,
    ) -> bool {
        exists|p: Seq<usize>|
            #[trigger] self.rev_path(p) && self.dirty_for(files, p[0] as int) && p.last() == x
    }

    /// A one-step extension of a reverse path stays reachable.
    proof fn lemma_reach_step(self, init: Seq<usize>, u: usize, w: usize)
        requires
            self.rev_reachable_from(init, u),
            self.rev_edge_u(u, w),
        ensures
            self.rev_reachable_from(init, w),
    {
        let p = choose|p: Seq<usize>|
            #[trigger] self.rev_path(p) && init.contains(p[0]) && p.last() == u;
        let q = p.push(w);
        assert(q[0] == p[0]);
        assert(q.last() == w);
        assert forall|k: int| 0 <= k < q.len() - 1 implies self.rev_edge_u(
            #[trigger] q[k],
            q[k + 1],
        ) by {
            if k < p.len() - 1 {
                assert(q[k] == p[k]);
                assert(q[k + 1] == p[k + 1]);
            } else {
                assert(q[k] == p.last());
                assert(q[k + 1] == w);
            }
        }
        assert(self.rev_path(q));
    }

    /// A member of the initial set is reachable from it.
    proof fn lemma_reach_base(self, init: Seq<usize>, u: usize)
        requires
            init.contains(u),
            (u as int) < self.n(),
        ensures
            self.rev_reachable_from(init, u),
    {
        let p = seq![u];
        assert(p[0] == u);
        assert(p.last() == u);
        assert(self.rev_path(p));
    }

    /// For a set of directly dirty units, the set of all units that have
    /// to be rebuilt: the closure of the dirty set along reverse edges.
    /// The result contains the given set, is closed under reverse edges,
    /// holds only units reachable from the given set, and lists each unit
    /// once. A diamond — one unit reachable on two paths — is therefore
    /// included exactly once, and the walk terminates on any graph.
    pub fn transitive_dirty_units(&self, dirties: &Vec<usize>) -> (r: Vec<usize>)
        requires
            self.wf(),
            forall|k: int| 0 <= k < dirties@.len() ==> (#[trigger] dirties@[k] as int) < self.n(),
        ensures
            r@.no_duplicates(),
            forall|u: usize| #[trigger] r@.contains(u) ==> (u as int) < self.n(),
            forall|k: int| 0 <= k < dirties@.len() ==> r@.contains(#[trigger] dirties@[k]),
            forall|u: usize, w: usize|
                #[trigger] r@.contains(u) && #[trigger] self.rev_edge_u(u, w) ==> r@.contains(w),
            forall|u: usize| #[trigger] r@.contains(u) ==> self.rev_reachable_from(dirties@, u),
    {
        let nn = self.units.len();
        let mut visited: Vec<bool> = vec![false; nn];
        let mut count: usize = 0;
        let mut result: Vec<usize> = Vec::new();
        let mut stack: Vec<usize> = Vec::new();
        let mut k: usize = 0;
        let m = dirties.len();
        while k < m
            invariant
                k <= m,
                m == dirties@.len(),
                forall|j: int| 0 <= j < m ==> (#[trigger] dirties@[j] as int) < self.n(),
                stack@ =~= dirties@.take(k as int),
            decreases m - k,
        {
            stack.push(dirties[k]);
            proof {
                assert(stack@ =~= dirties@.take(k as int).push(dirties@[k as int]));
                assert(dirties@.take(k as int).push(dirties@[k as int]) =~= dirties@.take(
                    k as int + 1,
                ));
            }
            k = k + 1;
        }
        proof {
            lemma_count_true_all_false(visited@);
            assert(stack@ =~= dirties@);
            assert forall|j: int| 0 <= j < stack@.len() implies self.rev_reachable_from(
                dirties@,
                #[trigger] stack@[j],
            ) by {
                assert(dirties@.contains(stack@[j]));
                self.lemma_reach_base(dirties@, stack@[j]);
            }
        }
        while stack.len() > 0
            invariant
                self.wf(),
                nn == self.n(),
                visited@.len() == nn,
                forall|j: int| 0 <= j < dirties@.len() ==> (#[trigger] dirties@[j] as int) < self.n(),
                count == count_true(visited@),
                count <= nn,
                result@.no_duplicates(),
                forall|u: usize| #[trigger] result@.contains(u) ==> (u as int) < self.n(),
                forall|u: usize|
                    (u as int) < nn ==> (#[trigger] result@.contains(u) <==> visited@[u as int]),
                forall|j: int| 0 <= j < stack@.len() ==> (#[trigger] stack@[j] as int) < self.n(),
                forall|j: int|
                    0 <= j < stack@.len() ==> self.rev_reachable_from(
                        dirties@,
                        #[trigger] stack@[j],
                    ),
                forall|u: usize| #[trigger] result@.contains(u) ==> self.rev_reachable_from(
                    dirties@,
                    u,
                ),
                forall|j: int|
                    0 <= j < dirties@.len() ==> visited@[#[trigger] dirties@[j] as int]
                        || stack@.contains(dirties@[j]),
                forall|u: usize, w: usize|
                    (u as int) < nn && visited@[u as int] && #[trigger] self.rev_edge_u(u, w)
                        ==> visited@[w as int] || stack@.contains(w),
            decreases nn - count, stack@.len(),
        {
            let ghost old_stack = stack@;
            let u = match stack.pop() {
                Some(x) => x,
                None => {
                    proof {
                        assert(false);
                    }
                    0
                },
            };
            proof {
                assert(old_stack == stack@.push(u));
                assert(old_stack[old_stack.len() - 1] == u);
                assert(old_stack.contains(u));
                assert forall|w: usize| stack@.contains(w) implies old_stack.contains(w) by {
                    let j = choose|j: int| 0 <= j < stack@.len() && stack@[j] == w;
                    assert(old_stack[j] == w);
                }
            }
            if !visited[u] {
                let ghost old_visited = visited@;
                visited[u] = true;
                proof {
                    lemma_count_true_update(old_visited, u as int);
                    lemma_count_true_le(visited@);
                }
                count = count + 1;
                let ghost before_result = result@;
                result.push(u);
                proof {
                    crate::closure::lemma_push_contains(before_result, u);
                    assert(result@.no_duplicates()) by {
                        assert(!before_result.contains(u));
                        crate::closure::lemma_push_no_dup(before_result, u);
                    }
                }
                // push every unit that depends on `u`
                let row_len = self.rev_deps[u].len();
                let mut t: usize = 0;
                while t < row_len
                    invariant
                        self.wf(),
                        nn == self.n(),
                        (u as int) < nn,
                        row_len == self.rev_deps@[u as int]@.len(),
                        t <= row_len,
                        forall|j: int|
                            0 <= j < stack@.len() ==> (#[trigger] stack@[j] as int) < self.n(),
                        forall|j: int|
                            0 <= j < stack@.len() ==> self.rev_reachable_from(
                                dirties@,
                                #[trigger] stack@[j],
                            ),
                        self.rev_reachable_from(dirties@, u),
                        forall|w: usize|
                            #[trigger] self.rev_edge_u(u, w) ==> stack@.contains(w) || exists|
                                s: int,
                            |
                                t <= s < row_len && self.rev_deps@[u as int]@[s] == w,
                        forall|w: usize| old_stack.drop_last().contains(w) ==> stack@.contains(w),
                    decreases row_len - t,
                {
                    let w = self.rev_deps[u][t];
                    let ghost stack_before = stack@;
                    stack.push(w);
                    proof {
                        assert(self.rev_deps@[u as int]@.contains(w));
                        assert(self.rev_edge_u(u, w));
                        self.lemma_reach_step(dirties@, u, w);
                        crate::closure::lemma_push_contains(stack_before, w);
                        assert forall|w2: usize| #[trigger] self.rev_edge_u(u, w2) implies stack@.contains(w2)
                            || exists|s: int|
                            t + 1 <= s < row_len && self.rev_deps@[u as int]@[s] == w2 by {
                            if !stack@.contains(w2) {
                                assert(!stack_before.contains(w2));
                                let s = choose|s: int|
                                    t <= s < row_len && self.rev_deps@[u as int]@[s] == w2;
                                assert(s != t);
                            }
                        }
                    }
                    t = t + 1;
                }
                proof {
                    assert forall|v: usize, w: usize|
                        (v as int) < nn && visited@[v as int] && #[trigger] self.rev_edge_u(v, w)
                            implies visited@[w as int] || stack@.contains(w) by {
                        if v == u {
                            assert(stack@.contains(w) || exists|s: int|
                                row_len <= s < row_len && self.rev_deps@[u as int]@[s] == w);
                        } else {
                            assert(old_visited[v as int]);
                            if !old_visited[w as int] {
                                if old_stack.contains(w) {
                                    if w == u {
                                        assert(visited@[w as int]);
                                    } else {
                                        let j = choose|j: int|
                                            0 <= j < old_stack.len() && old_stack[j] == w;
                                        assert(j < old_stack.len() - 1);
                                        assert(old_stack.drop_last()[j] == w);
                                        assert(old_stack.drop_last().contains(w));
                                    }
                                }
                            }
                        }
                    }
                    assert forall|j: int|
                        0 <= j < dirties@.len() implies visited@[#[trigger] dirties@[j] as int]
                            || stack@.contains(dirties@[j]) by {
                        let d = dirties@[j];
                        if !visited@[d as int] {
                            assert(!old_visited[d as int]);
                            assert(old_stack.contains(d));
                            assert(d != u);
                            let jj = choose|jj: int| 0 <= jj < old_stack.len() && old_stack[jj] == d;
                            assert(jj < old_stack.len() - 1);
                            assert(old_stack.drop_last()[jj] == d);
                            assert(old_stack.drop_last().contains(d));
                        }
                    }
                }
            } else {
                proof {
                    assert forall|j: int|
                        0 <= j < dirties@.len() implies visited@[#[trigger] dirties@[j] as int]
                            || stack@.contains(dirties@[j]) by {
                        let d = dirties@[j];
                        if !visited@[d as int] {
                            assert(old_stack.contains(d));
                            assert(d != u);
                            let jj = choose|jj: int| 0 <= jj < old_stack.len() && old_stack[jj] == d;
                            assert(jj < old_stack.len() - 1);
                            assert(old_stack.drop_last()[jj] == d);
                        }
                    }
                    assert forall|v: usize, w: usize|
                        (v as int) < nn && visited@[v as int] && #[trigger] self.rev_edge_u(v, w)
                            implies visited@[w as int] || stack@.contains(w) by {
                        if !visited@[w as int] {
                            assert(old_stack.contains(w));
                            if w == u {
                                assert(visited@[u as int]);
                            } else {
                                let j = choose|j: int|
                                    0 <= j < old_stack.len() && old_stack[j] == w;
                                assert(j < old_stack.len() - 1);
                                assert(old_stack.drop_last()[j] == w);
                            }
                        }
                    }
                }
            }
        }
        proof {
            assert forall|j: int| 0 <= j < dirties@.len() implies result@.contains(
                #[trigger] dirties@[j],
            ) by {
                assert(visited@[dirties@[j] as int]);
            }
        }
        result
    }

    /// The units to rebuild for a set of changed files: the dirty set
    /// (see [`BuildGraph::dirties`]) closed along reverse edges. The
    /// initial dirty set is always a subset of the result.
    pub fn dirties_transitive(&self, files: &Vec<AbsPath>) -> (r: Vec<usize>)
        requires
            self.wf(),
        ensures
            r@.no_duplicates(),
            forall|u: usize| #[trigger] r@.contains(u) ==> (u as int) < self.n(),
            forall|u: usize|
                self.dirty_for(paths_view(files@), u as int) ==> #[trigger] r@.contains(u),
            forall|u: usize, w: usize|
                #[trigger] r@.contains(u) && #[trigger] self.rev_edge_u(u, w) ==> r@.contains(w),
            forall|u: usize| #[trigger] r@.contains(u) ==> self.reachable_from_dirty(
                paths_view(files@),
                u,
            ),
    {
        let d = self.dirties(files);
        proof {
            assert forall|k: int| 0 <= k < d@.len() implies (#[trigger] d@[k] as int) < self.n() by {
                assert(d@.contains(d@[k]));
            }
        }
        let r = self.transitive_dirty_units(&d);
        proof {
            let pv = paths_view(files@);
            assert forall|u: usize| self.dirty_for(pv, u as int) implies #[trigger] r@.contains(
                u,
            ) by {
                assert(d@.contains(u));
                let j = choose|j: int| 0 <= j < d@.len() && d@[j] == u;
                assert(r@.contains(d@[j]));
            }
            assert forall|u: usize| #[trigger] r@.contains(u) implies self.reachable_from_dirty(
                pv,
                u,
            ) by {
                assert(self.rev_reachable_from(d@, u));
                let p = choose|p: Seq<usize>|
                    #[trigger] self.rev_path(p) && d@.contains(p[0]) && p.last() == u;
                assert(self.dirty_for(pv, p[0] as int));
            }
        }
        r
    }
}

/// Membership after a push: the pushed element, and everything already
/// there.
pub(crate) proof fn lemma_push_contains(s: Seq<usize>, x: usize)
    ensures
        forall|u: usize| #[trigger] s.push(x).contains(u) <==> s.contains(u) || u == x,
{
    assert forall|u: usize| #[trigger] s.push(x).contains(u) implies s.contains(u) || u == x by {
        let k = choose|k: int| 0 <= k < s.push(x).len() && s.push(x)[k] == u;
        if k < s.len() {
            assert(s[k] == u);
        }
    }
    assert forall|u: usize| s.contains(u) || u == x implies #[trigger] s.push(x).contains(u) by {
        if s.contains(u) {
            let k = choose|k: int| 0 <= k < s.len() && s[k] == u;
            assert(s.push(x)[k] == u);
        } else {
            assert(s.push(x)[s.len() as int] == x);
        }
    }
}

/// Pushing a fresh element keeps a sequence duplicate-free.
pub(crate) proof fn lemma_push_no_dup(s: Seq<usize>, x: usize)
    requires
        s.no_duplicates(),
        !s.contains(x),
    ensures
        s.push(x).no_duplicates(),
{
    let t = s.push(x);
    assert forall|i: int, j: int| 0 <= i < t.len() && 0 <= j < t.len() && i != j implies t[i]
        != t[j] by {
        if i < s.len() && j < s.len() {
            assert(s[i] != s[j]);
        } else if i < s.len() {
            assert(t[j] == x);
            assert(s[i] != x) by {
                if s[i] == x {
                    assert(s.contains(x));
                }
            }
        } else {
            assert(t[i] == x);
            assert(s[j] != x) by {
                if s[j] == x {
                    assert(s.contains(x));
                }
            }
        }
    }
}

/// A reverse path from a dirty unit stays inside any set that contains
/// every dirty unit and is closed under reverse edges.
pub(crate) proof fn lemma_path_in_closed(
    g: BuildGraph,
    files: Seq<Seq<Seq<char>>>,
    s: Seq<usize>,
    p: Seq<usize>,
)
    requires
        g.rev_path(p),
        g.dirty_for(files, p[0] as int),
        forall|u: usize| g.dirty_for(files, u as int) ==> #[trigger] s.contains(u),
        forall|u: usize, w: usize|
            #[trigger] s.contains(u) && #[trigger] g.rev_edge_u(u, w) ==> s.contains(w),
    ensures
        s.contains(p.last()),
    decreases p.len(),
{
    if p.len() == 1 {
        assert(p.last() == p[0]);
        assert(s.contains(p[0]));
    } else {
        let q = p.drop_last();
        assert(q[0] == p[0]);
        assert forall|k: int| 0 <= k < q.len() - 1 implies g.rev_edge_u(
            #[trigger] q[k],
            q[k + 1],
        ) by {
            assert(q[k] == p[k]);
            assert(q[k + 1] == p[k + 1]);
        }
        assert forall|k: int| 0 <= k < q.len() implies (#[trigger] q[k] as int) < g.n() by {
            assert(q[k] == p[k]);
        }
        assert(g.rev_path(q));
        lemma_path_in_closed(g, files, s, q);
        assert(g.rev_edge_u(p[p.len() - 2], p[p.len() - 1]));
        assert(q.last() == p[p.len() - 2]);
    }
}

/// Dirty-set resolution and transitive closure are deterministic: any two
/// sets that satisfy the closure characterization for the same graph and
/// the same changed files — they contain every dirty unit, are closed
/// under reverse edges, and hold only units reachable from the dirty set —
/// have exactly the same members. Re-running on an unchanged graph with
/// the same input therefore yields the same result set on every call.
pub proof fn lemma_closure_deterministic(
    g: BuildGraph,
    files: Seq<Seq<Seq<char>>>,
    r1: Seq<usize>,
    r2: Seq<usize>,
)
    requires
        forall|u: usize| g.dirty_for(files, u as int) ==> #[trigger] r1.contains(u),
        forall|u: usize, w: usize|
            #[trigger] r1.contains(u) && #[trigger] g.rev_edge_u(u, w) ==> r1.contains(w),
        forall|u: usize| #[trigger] r1.contains(u) ==> g.reachable_from_dirty(files, u),
        forall|u: usize| g.dirty_for(files, u as int) ==> #[trigger] r2.contains(u),
        forall|u: usize, w: usize|
            #[trigger] r2.contains(u) && #[trigger] g.rev_edge_u(u, w) ==> r2.contains(w),
        forall|u: usize| #[trigger] r2.contains(u) ==> g.reachable_from_dirty(files, u),
    ensures
        forall|u: usize| r1.contains(u) <==> r2.contains(u),
{
    assert forall|u: usize| r1.contains(u) implies r2.contains(u) by {
        if r1.contains(u) {
            let p = choose|p: Seq<usize>|
                #[trigger] g.rev_path(p) && g.dirty_for(files, p[0] as int) && p.last() == u;
            lemma_path_in_closed(g, files, r2, p);
        }
    }
    assert forall|u: usize| r2.contains(u) implies r1.contains(u) by {
        if r2.contains(u) {
            let p = choose|p: Seq<usize>|
                #[trigger] g.rev_path(p) && g.dirty_for(files, p[0] as int) && p.last() == u;
            lemma_path_in_closed(g, files, r1, p);
        }
    }
}

} // verus!
