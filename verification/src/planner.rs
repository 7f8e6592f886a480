//! The planner: the package-scope decision procedure over the cached
//! graph.
//!
//! `prepare_work` decides between replaying cached invocations and
//! delegating to the external build tool. The cache is insufficient — and
//! the answer is a rebuild request — when no invocations are cached yet,
//! when a changed file's package lies outside the packages the plan was
//! built for (the scope then grows by the newly seen packages), when a
//! build script itself changed (its side effects are not safely
//! incrementalizable by a path heuristic), or when some affected unit has
//! no cached invocation. Otherwise the answer is the ordered job queue:
//! the cached commands of the transitively affected units, dependencies
//! first, copied unchanged.

use vstd::prelude::*;

use crate::closure::lemma_path_in_closed;
use crate::dirty::paths_view;
use crate::graph::BuildGraph;
use crate::package_map::PackageMap;
use crate::package_map::contains_name;
use crate::package_map::has_name;
use crate::package_map::owned_by_first;
use crate::package_map::roots_view;
use crate::path::AbsPath;
use crate::path::clone_strings;
use crate::unit::ProcessSpec;

verus! {

broadcast use vstd::std_specs::vec::group_vec_axioms;

/// Which packages the external build tool should be invoked with.
pub enum PackageArg {
    /// The workspace default.
    Default,
    /// An explicit package set.
    Packages(Vec<String>),
}

/// An ordered list of replayable process specifications; the first
/// element runs first, and every unit's dependencies come before it.
pub struct JobQueue {
    pub cmds: Vec<ProcessSpec>,
}

impl JobQueue {
    /// Wraps an already ordered command list.
    pub fn with_commands(cmds: Vec<ProcessSpec>) -> (r: JobQueue)
        ensures
            r.cmds@ == cmds@,
    {
        JobQueue { cmds }
    }

    /// The commands, in execution order.
    pub fn commands(&self) -> (r: &Vec<ProcessSpec>)
        ensures
            r@ == self.cmds@,
    {
        &self.cmds
    }
}

/// The planner's answer for a set of changed files.
pub enum WorkStatus {
    /// The cache cannot answer; run the external build tool with these
    /// packages and rebuild the plan from its output.
    NeedsCargo(PackageArg),
    /// Replay this job queue.
    Execute(JobQueue),
}

impl BuildGraph {
    /// Some changed file makes some unit dirty.
    pub open spec fn any_dirty(self, pv: Seq<Seq<Seq<char>>>) -> bool {
        exists|i: int| #[trigger] self.dirty_for(pv, i)
    }

    /// Every unit affected by the change has a cached invocation.
    pub open spec fn all_reachable_cached(self, pv: Seq<Seq<Seq<char>>>) -> bool {
        forall|u: usize|
            #[trigger] self.reachable_from_dirty(pv, u) ==> (self.unit_at_spec(
                u as int,
            ).command is Some)
    }

    /// `q` replays, in order `order`, exactly the units affected by the
    /// change: `order` lists each affected unit once, dependencies before
    /// dependents (the graph being a DAG on that set), and `q` holds their
    /// cached commands unchanged.
    pub open spec fn queue_for(
        self,
        pv: Seq<Seq<Seq<char>>>,
        q: JobQueue,
        order: Seq<usize>,
    ) -> bool {
        &&& order.no_duplicates()
        &&& forall|u: usize| #[trigger] order.contains(u) <==> self.reachable_from_dirty(pv, u)
        &&& self.acyclic_in(order) ==> forall|a: int, b: int|
            0 <= a < order.len() && 0 <= b < order.len() && #[trigger] self.dep_edge_u(
                order[a],
                order[b],
            ) ==> b < a
        &&& q.cmds@.len() == order.len()
        &&& forall|t: int|
            0 <= t < order.len() ==> self.unit_at_spec(#[trigger] order[t] as int).command == Some(
                q.cmds@[t]@,
            )
    }

    /// The work for a set of changed files, from the graph alone (no
    /// package scope): the cached commands of the transitively affected
    /// units in dependency-first order, or a rebuild request when nothing
    /// is dirty (the cache answers nothing useful) or when some affected
    /// unit's invocation was never cached (a unit must not be silently
    /// skipped).
    pub fn prepare_work(&self, files: &Vec<AbsPath>) -> (r: WorkStatus)
        requires
            self.wf(),
        ensures
            !self.any_dirty(paths_view(files@)) ==> r == WorkStatus::NeedsCargo(
                PackageArg::Default,
            ),
            self.any_dirty(paths_view(files@)) && !self.all_reachable_cached(paths_view(files@))
                ==> r == WorkStatus::NeedsCargo(PackageArg::Default),
            self.any_dirty(paths_view(files@)) && self.all_reachable_cached(paths_view(files@))
                ==> (r matches WorkStatus::Execute(q) && (exists|order: Seq<usize>|
                #[trigger] self.queue_for(paths_view(files@), q, order))),
    {
        let ghost pv = paths_view(files@);
        let closure = self.dirties_transitive(files);
        proof {
            assert(self.units.len() == self.units@.len());
            // members of the closure are exactly the affected units
            assert forall|u: usize| self.reachable_from_dirty(pv, u) implies #[trigger] closure@.contains(u) by {
                let p = choose|p: Seq<usize>|
                    #[trigger] self.rev_path(p) && self.dirty_for(pv, p[0] as int) && p.last() == u;
                lemma_path_in_closed(*self, pv, closure@, p);
            }
        }
        if closure.len() == 0 {
            proof {
                assert forall|i: int| !(#[trigger] self.dirty_for(pv, i)) by {
                    if self.dirty_for(pv, i) {
                        assert(0 <= i < self.n()) by {
                            let k = choose|k: int|
                                0 <= k < pv.len() && #[trigger] self.file_dirties(pv[k], i);
                        }
                        assert(closure@.contains(i as usize));
                    }
                }
            }
            return WorkStatus::NeedsCargo(PackageArg::Default);
        }
        proof {
            assert(closure@.contains(closure@[0]));
            assert(self.reachable_from_dirty(pv, closure@[0]));
            let p = choose|p: Seq<usize>|
                #[trigger] self.rev_path(p) && self.dirty_for(pv, p[0] as int) && p.last()
                    == closure@[0];
            assert(self.any_dirty(pv));
        }
        proof {
            assert forall|k: int| 0 <= k < closure@.len() implies ((#[trigger] closure@[k]) as int)
                < self.n() by {
                assert(closure@.contains(closure@[k]));
            }
        }
        let order = self.topological_sort(&closure);
        let n = order.len();
        let mut cmds: Vec<ProcessSpec> = Vec::new();
        let mut t: usize = 0;
        while t < n
            invariant
                self.wf(),
                pv == paths_view(files@),
                t <= n,
                n == order@.len(),
                order@.no_duplicates(),
                forall|u: usize| #[trigger] order@.contains(u) <==> closure@.contains(u),
                forall|u: usize| #[trigger] closure@.contains(u) ==> (u as int) < self.n(),
                forall|u: usize| #[trigger] closure@.contains(u) ==> self.reachable_from_dirty(
                    pv,
                    u,
                ),
                cmds@.len() == t,
                forall|s: int|
                    0 <= s < t ==> self.unit_at_spec(#[trigger] order@[s] as int).command == Some(
                        cmds@[s]@,
                    ),
            decreases n - t,
        {
            let u = order[t];
            proof {
                assert(order@.contains(u));
            }
            match &self.units[u].command {
                Some(c) => {
                    let ghost before = cmds@;
                    cmds.push(c.clone_spec());
                    proof {
                        assert(cmds@[t as int]@ == c@);
                        assert forall|s: int|
                            0 <= s < t + 1 implies self.unit_at_spec(
                            #[trigger] order@[s] as int,
                        ).command == Some(cmds@[s]@) by {
                            if s < t {
                                assert(cmds@[s] == before[s]);
                            }
                        }
                    }
                },
                None => {
                    proof {
                        assert(self.reachable_from_dirty(pv, u));
                        assert(self.unit_at_spec(u as int).command is None);
                        assert(!self.all_reachable_cached(pv));
                    }
                    return WorkStatus::NeedsCargo(PackageArg::Default);
                },
            }
            t = t + 1;
        }
        proof {
            assert forall|u: usize|
                #[trigger] self.reachable_from_dirty(pv, u) implies (self.unit_at_spec(
                u as int,
            ).command is Some) by {
                assert(closure@.contains(u));
                assert(order@.contains(u));
                let s = choose|s: int| 0 <= s < order@.len() && order@[s] == u;
                assert(self.unit_at_spec(order@[s] as int).command == Some(cmds@[s]@));
            }
            assert forall|u: usize| #[trigger] order@.contains(u) <==> self.reachable_from_dirty(
                pv,
                u,
            ) by {
                if order@.contains(u) {
                    assert(closure@.contains(u));
                }
                if self.reachable_from_dirty(pv, u) {
                    assert(closure@.contains(u));
                }
            }
            if self.acyclic_in(order@) {
                let rank = choose|rank: spec_fn(usize) -> nat|
                    #[trigger] self.rank_respects(order@, rank);
                assert(self.rank_respects(closure@, rank)) by {
                    assert forall|i: usize, j: usize|
                        closure@.contains(i) && closure@.contains(j) && #[trigger] self.dep_edge_u(
                            i,
                            j,
                        ) implies rank(j) < rank(i) by {
                        assert(order@.contains(i));
                        assert(order@.contains(j));
                    }
                }
                assert(self.acyclic_in(closure@));
            }
        }
        let q = JobQueue::with_commands(cmds);
        proof {
            assert(q.cmds@ == cmds@);
            assert(pv == paths_view(files@));
            assert(self.queue_for(paths_view(files@), q, order@));
            assert(self.all_reachable_cached(paths_view(files@)));
            assert(self.any_dirty(paths_view(files@)));
            assert(exists|order2: Seq<usize>|
                #[trigger] self.queue_for(paths_view(files@), q, order2));
        }
        let result = WorkStatus::Execute(q);
        proof {
            assert(result is Execute);
            assert(result->Execute_0 == q);
            assert(exists|order2: Seq<usize>|
                #[trigger] self.queue_for(paths_view(files@), result->Execute_0, order2));
        }
        result
    }
}

/// The planner: the cached graph, the package scope it was built for, and
/// the path-to-package map used to check that scope. The planner owns all
/// three; a structurally different scope gets a fresh planner via
/// `install`, never a mutation of the old graph.
pub struct Planner {
    pub graph: BuildGraph,
    pub package_map: Option<PackageMap>,
    pub built_packages: Vec<String>,
}

impl Planner {
    /// The class invariant.
    pub open spec fn wf(self) -> bool {
        &&& self.graph.wf()
        &&& match self.package_map {
            Some(pm) => pm.wf(),
            None => true,
        }
        &&& forall|i: int, j: int|
            0 <= i < j < self.built_packages@.len() ==> (#[trigger] self.built_packages@[i])@ != (
            #[trigger] self.built_packages@[j])@
    }

    /// Some invocation is cached, so `prepare_work` can answer at all.
    pub open spec fn ready_spec(self) -> bool {
        exists|i: int|
            0 <= i < self.graph.n() && (#[trigger] self.graph.unit_at_spec(i)).command is Some
    }

    /// The recorded package roots.
    pub open spec fn roots(self) -> Seq<(Seq<Seq<char>>, Seq<char>)> {
        match self.package_map {
            Some(pm) => roots_view(pm.package_paths@),
            None => Seq::empty(),
        }
    }

    /// Every package owning a changed file is inside the built scope.
    pub open spec fn scope_ok(self, files: Seq<AbsPath>) -> bool {
        forall|n: Seq<char>|
            #[trigger] owned_by_first(self.roots(), files, files.len() as int, n) ==> has_name(
                self.built_packages@,
                n,
            )
    }

    /// Some changed file makes a build-script unit dirty.
    pub open spec fn build_script_dirty(self, pv: Seq<Seq<Seq<char>>>) -> bool {
        exists|i: int|
            #[trigger] self.graph.dirty_for(pv, i) && self.graph.unit_at_spec(i).build_script
    }

    /// An empty planner: no cache, no scope.
    pub fn new() -> (r: Planner)
        ensures
            r.wf(),
            r.graph.n() == 0,
            r.package_map is None,
            r.built_packages@.len() == 0,
    {
        Planner { graph: BuildGraph::new(), package_map: None, built_packages: Vec::new() }
    }

    /// A planner with a package map and nothing built yet.
    pub fn with_package_map(package_map: PackageMap) -> (r: Planner)
        requires
            package_map.wf(),
        ensures
            r.wf(),
            r.graph.n() == 0,
            r.package_map == Some(package_map),
            r.built_packages@.len() == 0,
    {
        Planner { graph: BuildGraph::new(), package_map: Some(package_map), built_packages: Vec::new() }
    }

    /// A planner prepared for the given packages (each name once).
    pub fn with_packages(package_map: PackageMap, pkgs: Vec<String>) -> (r: Planner)
        requires
            package_map.wf(),
            forall|i: int, j: int|
                0 <= i < j < pkgs@.len() ==> (#[trigger] pkgs@[i])@ != (#[trigger] pkgs@[j])@,
        ensures
            r.wf(),
            r.graph.n() == 0,
            r.package_map == Some(package_map),
            r.built_packages@ == pkgs@,
    {
        Planner { graph: BuildGraph::new(), package_map: Some(package_map), built_packages: pkgs }
    }

    /// Installs a freshly built graph and the packages it represents,
    /// atomically replacing the previous cache.
    pub fn install(&mut self, graph: BuildGraph, built_packages: Vec<String>)
        requires
            old(self).wf(),
            graph.wf(),
            forall|i: int, j: int|
                0 <= i < j < built_packages@.len() ==> (#[trigger] built_packages@[i])@ != (
                #[trigger] built_packages@[j])@,
        ensures
            final(self).wf(),
            final(self).graph == graph,
            final(self).built_packages@ == built_packages@,
            final(self).package_map == old(self).package_map,
    {
        self.graph = graph;
        self.built_packages = built_packages;
    }

    /// Whether the plan has cached invocations at all.
    pub fn is_ready(&self) -> (r: bool)
        ensures
            r == self.ready_spec(),
    {
        let n = self.graph.units.len();
        let mut i: usize = 0;
        while i < n
            invariant
                i <= n,
                n == self.graph.n(),
                forall|j: int|
                    0 <= j < i ==> !((#[trigger] self.graph.unit_at_spec(j)).command is Some),
            decreases n - i,
        {
            if self.graph.units[i].command.is_some() {
                proof {
                    assert(self.graph.unit_at_spec(i as int).command is Some);
                }
                return true;
            }
            i = i + 1;
        }
        false
    }

    /// Caches the replayable invocation of one unit.
    pub fn cache_compiler_job(&mut self, key: &crate::unit::UnitKey, cmd: &ProcessSpec) -> (r:
        bool)
        requires
            old(self).wf(),
        ensures
            final(self).wf(),
            r == old(self).graph.has_key(key@),
            final(self).package_map == old(self).package_map,
            final(self).built_packages@ == old(self).built_packages@,
    {
        self.graph.cache_compiler_job(key, cmd)
    }

    /// Decides between replaying cached invocations and
    /// delegating to the external build tool, conservatively treating an
    /// out-of-scope package, a changed build script, or a missing cached
    /// invocation as grounds for a full rebuild. Queries only read the
    /// graph; only the per-file package lookup cache is written.
    pub fn prepare_work(&mut self, modified: &Vec<AbsPath>) -> (r: WorkStatus)
        requires
            old(self).wf(),
        ensures
            final(self).wf(),
            final(self).graph == old(self).graph,
            final(self).built_packages@ == old(self).built_packages@,
            final(self).roots() == old(self).roots(),
            (!old(self).ready_spec() || old(self).package_map is None) ==> r
                == WorkStatus::NeedsCargo(PackageArg::Default),
            (old(self).ready_spec() && old(self).package_map is Some && !old(self).scope_ok(
                modified@,
            )) ==> (r matches WorkStatus::NeedsCargo(PackageArg::Packages(p)) && (forall|
                n: Seq<char>,
            |
                #[trigger] has_name(p@, n) <==> has_name(old(self).built_packages@, n)
                    || owned_by_first(
                    old(self).roots(),
                    modified@,
                    modified@.len() as int,
                    n,
                ))),
            (old(self).ready_spec() && old(self).package_map is Some && old(self).scope_ok(
                modified@,
            ) && old(self).build_script_dirty(paths_view(modified@))) ==> (r
                matches WorkStatus::NeedsCargo(PackageArg::Packages(p)) && (forall|n: Seq<char>|
                #[trigger] has_name(p@, n) <==> has_name(old(self).built_packages@, n)
                    || owned_by_first(
                    old(self).roots(),
                    modified@,
                    modified@.len() as int,
                    n,
                ))),
            (old(self).ready_spec() && old(self).package_map is Some && old(self).scope_ok(
                modified@,
            ) && !old(self).build_script_dirty(paths_view(modified@)) && !old(
                self,
            ).graph.any_dirty(paths_view(modified@))) ==> r == WorkStatus::NeedsCargo(
                PackageArg::Default,
            ),
            (old(self).ready_spec() && old(self).package_map is Some && old(self).scope_ok(
                modified@,
            ) && !old(self).build_script_dirty(paths_view(modified@)) && old(self).graph.any_dirty(
                paths_view(modified@),
            ) && !old(self).graph.all_reachable_cached(paths_view(modified@))) ==> r
                == WorkStatus::NeedsCargo(PackageArg::Default),
            (old(self).ready_spec() && old(self).package_map is Some && old(self).scope_ok(
                modified@,
            ) && !old(self).build_script_dirty(paths_view(modified@)) && old(self).graph.any_dirty(
                paths_view(modified@),
            ) && old(self).graph.all_reachable_cached(paths_view(modified@))) ==> (r
                matches WorkStatus::Execute(q) && (exists|order: Seq<usize>|
                #[trigger] old(self).graph.queue_for(paths_view(modified@), q, order))),
    {
        let ghost pv = paths_view(modified@);
        if !self.is_ready() {
            return WorkStatus::NeedsCargo(PackageArg::Default);
        }
        let mut pm_opt: Option<PackageMap> = None;
        core::mem::swap(&mut pm_opt, &mut self.package_map);
        let mut pm = match pm_opt {
            Some(pm) => pm,
            None => {
                self.package_map = None;
                proof {
                    assert(*self == *old(self));
                }
                return WorkStatus::NeedsCargo(PackageArg::Default);
            },
        };
        let dirty_packages = pm.compute_dirty_packages(modified);
        self.package_map = Some(pm);
        proof {
            assert(final(self).roots() == old(self).roots());
        }
        // does some changed file belong to a package outside the scope?
        let dn = dirty_packages.len();
        let mut needs_more = false;
        let mut k: usize = 0;
        while k < dn
            invariant
                k <= dn,
                dn == dirty_packages@.len(),
                needs_more <==> exists|i: int|
                    0 <= i < k && !has_name(
                        self.built_packages@,
                        (#[trigger] dirty_packages@[i])@,
                    ),
            decreases dn - k,
        {
            if !contains_name(&self.built_packages, &dirty_packages[k]) {
                needs_more = true;
                proof {
                    assert(!has_name(self.built_packages@, dirty_packages@[k as int]@));
                }
            } else {
                proof {
                    assert(has_name(self.built_packages@, dirty_packages@[k as int]@));
                    if exists|i: int|
                        0 <= i < k + 1 && !has_name(
                            self.built_packages@,
                            (#[trigger] dirty_packages@[i])@,
                        ) {
                        let i = choose|i: int|
                            0 <= i < k + 1 && !has_name(
                                self.built_packages@,
                                (#[trigger] dirty_packages@[i])@,
                            );
                        assert(i != k);
                    }
                }
            }
            k = k + 1;
        }
        proof {
            // the scope is fine exactly when every dirty package is built
            assert(old(self).scope_ok(modified@) <==> !needs_more) by {
                if needs_more {
                    let i = choose|i: int|
                        0 <= i < dn && !has_name(
                            self.built_packages@,
                            (#[trigger] dirty_packages@[i])@,
                        );
                    assert(has_name(dirty_packages@, dirty_packages@[i]@));
                    assert(owned_by_first(
                        old(self).roots(),
                        modified@,
                        modified@.len() as int,
                        dirty_packages@[i]@,
                    ));
                } else {
                    assert forall|n: Seq<char>|
                        #[trigger] owned_by_first(
                            old(self).roots(),
                            modified@,
                            modified@.len() as int,
                            n,
                        ) implies has_name(old(self).built_packages@, n) by {
                        assert(has_name(dirty_packages@, n));
                        let i = choose|i: int|
                            0 <= i < dirty_packages@.len() && (#[trigger] dirty_packages@[i])@
                                == n;
                        assert(has_name(self.built_packages@, dirty_packages@[i]@));
                    }
                }
            }
        }
        if needs_more {
            let needed = union_names(&self.built_packages, &dirty_packages);
            proof {
                assert forall|n: Seq<char>| #[trigger] has_name(needed@, n) <==> has_name(
                    old(self).built_packages@,
                    n,
                ) || owned_by_first(
                    old(self).roots(),
                    modified@,
                    modified@.len() as int,
                    n,
                ) by {}
            }
            return WorkStatus::NeedsCargo(PackageArg::Packages(needed));
        }
        // a changed build script is not safely incrementalizable
        let dirties = self.graph.dirties(modified);
        let dl = dirties.len();
        let mut bs = false;
        let mut k: usize = 0;
        while k < dl
            invariant
                k <= dl,
                dl == dirties@.len(),
                self.graph == old(self).graph,
                self.graph.wf(),
                forall|u: usize| #[trigger] dirties@.contains(u) ==> (u as int) < self.graph.n(),
                bs <==> exists|j: int|
                    0 <= j < k && self.graph.unit_at_spec(
                        (#[trigger] dirties@[j]) as int,
                    ).build_script,
            decreases dl - k,
        {
            let u = dirties[k];
            proof {
                assert(dirties@.contains(u));
            }
            if self.graph.units[u].build_script {
                bs = true;
                proof {
                    assert(self.graph.unit_at_spec(dirties@[k as int] as int).build_script);
                }
            } else {
                proof {
                    if exists|j: int|
                        0 <= j < k + 1 && self.graph.unit_at_spec(
                            (#[trigger] dirties@[j]) as int,
                        ).build_script {
                        let j = choose|j: int|
                            0 <= j < k + 1 && self.graph.unit_at_spec(
                                (#[trigger] dirties@[j]) as int,
                            ).build_script;
                        assert(j != k);
                    }
                }
            }
            k = k + 1;
        }
        proof {
            assert(self.graph.units.len() == self.graph.units@.len());
            assert(old(self).build_script_dirty(pv) <==> bs) by {
                if bs {
                    let j = choose|j: int|
                        0 <= j < dl && self.graph.unit_at_spec(
                            (#[trigger] dirties@[j]) as int,
                        ).build_script;
                    assert(dirties@.contains(dirties@[j]));
                    assert(self.graph.dirty_for(pv, dirties@[j] as int));
                }
                if old(self).build_script_dirty(pv) {
                    let i = choose|i: int|
                        #[trigger] self.graph.dirty_for(pv, i) && self.graph.unit_at_spec(
                            i,
                        ).build_script;
                    assert(0 <= i < self.graph.n()) by {
                        let kk = choose|kk: int|
                            0 <= kk < pv.len() && #[trigger] self.graph.file_dirties(pv[kk], i);
                    }
                    assert(dirties@.contains(i as usize));
                    let j = choose|j: int| 0 <= j < dirties@.len() && dirties@[j] == i as usize;
                }
            }
        }
        if bs {
            let needed = union_names(&self.built_packages, &dirty_packages);
            return WorkStatus::NeedsCargo(PackageArg::Packages(needed));
        }
        self.graph.prepare_work(modified)
    }
}

/// The union of two name lists, first list's order kept, no repeats.
fn union_names(base: &Vec<String>, extra: &Vec<String>) -> (r: Vec<String>)
    requires
        forall|i: int, j: int|
            0 <= i < j < base@.len() ==> (#[trigger] base@[i])@ != (#[trigger] base@[j])@,
    ensures
        forall|i: int, j: int| 0 <= i < j < r@.len() ==> (#[trigger] r@[i])@ != (#[trigger] r@[j])@,
        forall|n: Seq<char>| #[trigger] has_name(r@, n) <==> has_name(base@, n) || has_name(
            extra@,
            n,
        ),
{
    let mut r = clone_strings(base);
    proof {
        assert forall|n: Seq<char>| #[trigger] has_name(r@, n) <==> has_name(base@, n) by {
            if has_name(r@, n) {
                let i = choose|i: int| 0 <= i < r@.len() && (#[trigger] r@[i])@ == n;
                assert(r.deep_view()[i] == base.deep_view()[i]);
                assert(base@[i]@ == n);
            }
            if has_name(base@, n) {
                let i = choose|i: int| 0 <= i < base@.len() && (#[trigger] base@[i])@ == n;
                assert(r.deep_view()[i] == base.deep_view()[i]);
                assert(r@[i]@ == n);
            }
        }
        assert forall|i: int, j: int|
            0 <= i < j < r@.len() implies (#[trigger] r@[i])@ != (#[trigger] r@[j])@ by {
            assert(r.deep_view()[i] == base.deep_view()[i]);
            assert(r.deep_view()[j] == base.deep_view()[j]);
        }
    }
    let m = extra.len();
    let mut k: usize = 0;
    while k < m
        invariant
            k <= m,
            m == extra@.len(),
            forall|i: int, j: int|
                0 <= i < j < r@.len() ==> (#[trigger] r@[i])@ != (#[trigger] r@[j])@,
            forall|n: Seq<char>| #[trigger] has_name(r@, n) <==> has_name(base@, n) || (exists|
                i: int,
            |
                0 <= i < k && (#[trigger] extra@[i])@ == n),
        decreases m - k,
    {
        let ghost r_old = r@;
        if !contains_name(&r, &extra[k]) {
            r.push(extra[k].clone());
        }
        proof {
            assert forall|n: Seq<char>| #[trigger] has_name(r@, n) <==> has_name(base@, n) || (
            exists|i: int| 0 <= i < k + 1 && (#[trigger] extra@[i])@ == n) by {
                if has_name(r@, n) {
                    let i = choose|i: int| 0 <= i < r@.len() && (#[trigger] r@[i])@ == n;
                    if i < r_old.len() {
                        assert(r@[i] == r_old[i]);
                        assert(has_name(r_old, n));
                        if !has_name(base@, n) {
                            let e = choose|e: int|
                                0 <= e < k && (#[trigger] extra@[e])@ == n;
                        }
                    } else {
                        assert(r@[i]@ == extra@[k as int]@);
                    }
                }
                if has_name(base@, n) || (exists|i: int|
                    0 <= i < k + 1 && (#[trigger] extra@[i])@ == n) {
                    if has_name(base@, n) {
                        assert(has_name(r_old, n));
                        let i = choose|i: int|
                            0 <= i < r_old.len() && (#[trigger] r_old[i])@ == n;
                        assert(r@[i] == r_old[i]);
                        assert(has_name(r@, n));
                    } else {
                        let e = choose|e: int| 0 <= e < k + 1 && (#[trigger] extra@[e])@ == n;
                        if e < k {
                            assert(has_name(r_old, n));
                            let i = choose|i: int|
                                0 <= i < r_old.len() && (#[trigger] r_old[i])@ == n;
                            assert(r@[i] == r_old[i]);
                            assert(has_name(r@, n));
                        } else {
                            if r@ == r_old {
                                assert(has_name(r_old, extra@[k as int]@));
                            } else {
                                assert(r@[r_old.len() as int]@ == extra@[k as int]@);
                            }
                            assert(has_name(r@, n));
                        }
                    }
                }
            }
            assert forall|i: int, j: int|
                0 <= i < j < r@.len() implies (#[trigger] r@[i])@ != (#[trigger] r@[j])@ by {
                if j < r_old.len() {
                    assert(r@[i] == r_old[i]);
                    assert(r@[j] == r_old[j]);
                } else if r@ != r_old {
                    assert(r@[i] == r_old[i]);
                    assert(r@[j]@ == extra@[k as int]@);
                    assert(!has_name(r_old, extra@[k as int]@));
                    assert(r_old[i]@ != extra@[k as int]@);
                }
            }
        }
        k = k + 1;
    }
    proof {
        assert forall|n: Seq<char>| (exists|i: int| 0 <= i < m && (#[trigger] extra@[i])@ == n)
            <==> has_name(extra@, n) by {}
    }
    r
}

} // verus!
