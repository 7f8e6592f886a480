//! The dirty-set resolver: maps changed absolute file paths to the units
//! whose source they belong to.
//!
//! For every unit with a resolved source path the resolver derives a
//! matching directory, the parent of that path. A changed file makes a
//! unit a *candidate* when it lies at or below the unit's directory;
//! among the candidates for one file only those with the deepest
//! directory are kept (most specific enclosing directory wins), and ties
//! all stay. Build-script units are matched by exact file equality
//! instead and take priority for a file that hits one. A file matching
//! nothing contributes nothing.

use vstd::prelude::*;

use crate::graph::BuildGraph;
use crate::graph::contains_idx;
use crate::path::AbsPath;
use crate::path::is_prefix_of;

verus! {

broadcast use vstd::std_specs::vec::group_vec_axioms;

/// The views of a list of paths.
pub open spec fn paths_view(s: Seq<AbsPath>) -> Seq<Seq<Seq<char>>> {
    s.map_values(|p: AbsPath| p@)
}

impl BuildGraph {
    /// The matching directory of unit `i`: the parent of its resolved
    /// source path, if it has one.
    pub open spec fn unit_dir(self, i: int) -> Option<Seq<Seq<char>>> {
        match self.unit_at_spec(i).src_path {
            Some(sp) => if sp.len() > 0 {
                Some(sp.drop_last())
            } else {
                None
            },
            None => None,
        }
    }

    /// Depth of the matching directory; `-1` when there is none.
    pub open spec fn dir_len(self, i: int) -> int {
        match self.unit_dir(i) {
            Some(d) => d.len() as int,
            None => -1,
        }
    }

    /// A build-script unit whose source file is exactly the changed file.
    pub open spec fn exact_hit(self, f: Seq<Seq<char>>, i: int) -> bool {
        &&& 0 <= i < self.n()
        &&& self.unit_at_spec(i).build_script
        &&& self.unit_at_spec(i).src_path == Some(f)
    }

    /// Some build-script unit matches the changed file exactly.
    pub open spec fn any_exact_hit(self, f: Seq<Seq<char>>) -> bool {
        exists|i: int| self.exact_hit(f, i)
    }

    /// A non-build-script unit whose matching directory lies at or above
    /// the changed file.
    pub open spec fn candidate(self, f: Seq<Seq<char>>, i: int) -> bool {
        &&& 0 <= i < self.n()
        &&& !self.unit_at_spec(i).build_script
        &&& match self.unit_dir(i) {
            Some(d) => is_prefix_of(d, f),
            None => false,
        }
    }

    /// A candidate whose directory is as deep as any candidate's for this
    /// file (most specific enclosing directory; ties all qualify).
    pub open spec fn best_candidate(self, f: Seq<Seq<char>>, i: int) -> bool {
        &&& self.candidate(f, i)
        &&& forall|j: int| #[trigger] self.candidate(f, j) ==> self.dir_len(j) <= self.dir_len(i)
    }

    /// The changed file `f` makes unit `i` dirty: by exact build-script
    /// match when `f` hits one, by deepest directory prefix otherwise.
    pub open spec fn file_dirties(self, f: Seq<Seq<char>>, i: int) -> bool {
        if self.any_exact_hit(f) {
            self.exact_hit(f, i)
        } else {
            self.best_candidate(f, i)
        }
    }

    /// Some changed file makes unit `i` dirty.
    pub open spec fn dirty_for(self, files: Seq<Seq<Seq<char>>>, i: int) -> bool {
        exists|k: int| 0 <= k < files.len() && #[trigger] self.file_dirties(files[k], i)
    }

    /// Executable form of [`BuildGraph::exact_hit`].
    fn exact_hit_exec(&self, f: &AbsPath, i: usize) -> (r: bool)
        requires
            self.wf(),
            i < self.n(),
        ensures
            r == self.exact_hit(f@, i as int),
    {
        let u = &self.units[i];
        if !u.build_script {
            return false;
        }
        match &u.src_path {
            Some(sp) => sp.path_eq(f),
            None => false,
        }
    }

    /// Executable form of [`BuildGraph::candidate`].
    fn candidate_exec(&self, f: &AbsPath, i: usize) -> (r: bool)
        requires
            self.wf(),
            i < self.n(),
        ensures
            r == self.candidate(f@, i as int),
    {
        let u = &self.units[i];
        if u.build_script {
            return false;
        }
        match &u.src_path {
            Some(sp) => {
                if sp.components.len() == 0 {
                    proof {
                        assert(sp@.len() == sp.components@.len());
                    }
                    false
                } else {
                    dir_prefix(sp, f)
                }
            },
            None => false,
        }
    }

    /// Depth of the matching directory of unit `i`.
    fn dir_len_exec(&self, i: usize) -> (r: usize)
        requires
            self.wf(),
            i < self.n(),
            self.unit_dir(i as int) is Some,
        ensures
            r as int == self.dir_len(i as int),
    {
        match &self.units[i].src_path {
            Some(sp) => {
                proof {
                    assert(sp@.len() == sp.components@.len());
                }
                sp.components.len() - 1
            },
            None => 0,
        }
    }

    /// Adds to `acc` every unit that the changed file `f` makes dirty.
    fn add_dirty_for_file(&self, f: &AbsPath, acc: Vec<usize>) -> (r: Vec<usize>)
        requires
            self.wf(),
            acc@.no_duplicates(),
            forall|u: usize| #[trigger] acc@.contains(u) ==> (u as int) < self.n(),
        ensures
            r@.no_duplicates(),
            forall|u: usize| #[trigger] r@.contains(u) ==> (u as int) < self.n(),
            forall|u: usize| #[trigger] r@.contains(u) <==> acc@.contains(u) || self.file_dirties(
                f@,
                u as int,
            ),
    {
        let ghost base = acc@;
        let ghost fv = f@;
        let mut result = acc;
        let nn = self.units.len();
        // Exact build-script matches take priority.
        let mut any_exact = false;
        let mut i: usize = 0;
        while i < nn
            invariant
                self.wf(),
                i <= nn,
                nn == self.n(),
                fv == f@,
                result@.no_duplicates(),
                forall|u: usize| #[trigger] result@.contains(u) ==> (u as int) < self.n(),
                any_exact <==> exists|j: int| 0 <= j < i && self.exact_hit(fv, j),
                forall|u: usize| #[trigger] result@.contains(u) <==> base.contains(u) || (
                self.exact_hit(fv, u as int) && (u as int) < i),
            decreases nn - i,
        {
            let ghost entry = result@;
            let hit = self.exact_hit_exec(f, i);
            if hit {
                any_exact = true;
                if !contains_idx(&result, i) {
                    let ghost before = result@;
                    result.push(i);
                    proof {
                        lemma_push_grows(before, i);
                    }
                }
            }
            proof {
                if hit {
                    assert(self.exact_hit(fv, i as int));
                    assert(exists|j: int| 0 <= j < i + 1 && self.exact_hit(fv, j));
                } else {
                    assert(any_exact <==> exists|j: int| 0 <= j < i + 1 && self.exact_hit(
                        fv,
                        j,
                    )) by {
                        if exists|j: int| 0 <= j < i + 1 && self.exact_hit(fv, j) {
                            let j = choose|j: int| 0 <= j < i + 1 && self.exact_hit(fv, j);
                            assert(j != i);
                            assert(exists|j2: int| 0 <= j2 < i && self.exact_hit(fv, j2));
                        }
                        if any_exact {
                            let j = choose|j: int| 0 <= j < i && self.exact_hit(fv, j);
                            assert(0 <= j < i + 1 && self.exact_hit(fv, j));
                        }
                    }
                }
                assert forall|u: usize| #[trigger] result@.contains(u) <==> base.contains(u) || (
                self.exact_hit(fv, u as int) && (u as int) < i + 1) by {
                    if u == i {
                        if hit {
                            assert(result@.contains(i));
                        } else {
                            assert(result@ == entry);
                            assert(result@.contains(u) <==> base.contains(u) || (self.exact_hit(
                                fv,
                                u as int,
                            ) && (u as int) < i));
                        }
                    } else {
                        assert(entry.contains(u) <==> base.contains(u) || (self.exact_hit(
                            fv,
                            u as int,
                        ) && (u as int) < i));
                        if result@ != entry {
                            assert(result@.contains(u) <==> entry.contains(u) || u == i);
                        }
                    }
                }
            }
            i = i + 1;
        }
        if any_exact {
            proof {
                assert(self.any_exact_hit(fv));
                assert forall|u: usize| #[trigger] result@.contains(u) <==> base.contains(u)
                    || self.file_dirties(fv, u as int) by {
                    if self.exact_hit(fv, u as int) {
                        assert((u as int) < nn);
                    }
                }
            }
            return result;
        }
        proof {
            assert(!self.any_exact_hit(fv));
            assert forall|u: usize| #[trigger] result@.contains(u) <==> base.contains(u) by {
                if result@.contains(u) {
                    assert(!(self.exact_hit(fv, u as int) && (u as int) < nn));
                }
            }
        }
        // Deepest matching directory among the prefix candidates.
        let mut found = false;
        let mut max_len: usize = 0;
        let mut i: usize = 0;
        while i < nn
            invariant
                self.wf(),
                i <= nn,
                nn == self.n(),
                fv == f@,
                found <==> exists|j: int| 0 <= j < i && self.candidate(fv, j),
                found ==> exists|j: int|
                    0 <= j < i && #[trigger] self.candidate(fv, j) && self.dir_len(j)
                        == max_len as int,
                forall|j: int|
                    0 <= j < i && #[trigger] self.candidate(fv, j) ==> self.dir_len(j)
                        <= max_len as int,
            decreases nn - i,
        {
            let is_cand = self.candidate_exec(f, i);
            if is_cand {
                let dl = self.dir_len_exec(i);
                if !found || dl > max_len {
                    proof {
                        assert forall|j: int|
                            0 <= j < i + 1 && #[trigger] self.candidate(fv, j) implies self.dir_len(
                            j,
                        ) <= dl as int by {
                            if j < i {
                                if !found {
                                    assert(exists|j2: int| 0 <= j2 < i && self.candidate(fv, j2));
                                } else {
                                    assert(self.dir_len(j) <= max_len as int);
                                }
                            }
                        }
                    }
                    found = true;
                    max_len = dl;
                    proof {
                        assert(self.candidate(fv, i as int) && self.dir_len(i as int)
                            == max_len as int);
                        assert(exists|j: int|
                            0 <= j < i + 1 && #[trigger] self.candidate(fv, j) && self.dir_len(j)
                                == max_len as int);
                    }
                } else {
                    proof {
                        let jw = choose|j: int|
                            0 <= j < i && #[trigger] self.candidate(fv, j) && self.dir_len(j)
                                == max_len as int;
                        assert(0 <= jw < i + 1 && self.candidate(fv, jw) && self.dir_len(jw)
                            == max_len as int);
                        assert(self.dir_len(i as int) == dl as int <= max_len as int);
                    }
                }
                proof {
                    assert(exists|j: int| 0 <= j < i + 1 && self.candidate(fv, j));
                }
            } else {
                proof {
                    assert(found <==> exists|j: int| 0 <= j < i + 1 && self.candidate(fv, j)) by {
                        if exists|j: int| 0 <= j < i + 1 && self.candidate(fv, j) {
                            let j = choose|j: int| 0 <= j < i + 1 && self.candidate(fv, j);
                            assert(j != i);
                            assert(exists|j2: int| 0 <= j2 < i && self.candidate(fv, j2));
                        }
                        if found {
                            let j = choose|j: int| 0 <= j < i && self.candidate(fv, j);
                            assert(0 <= j < i + 1 && self.candidate(fv, j));
                        }
                    }
                    if found {
                        let jw = choose|j: int|
                            0 <= j < i && #[trigger] self.candidate(fv, j) && self.dir_len(j)
                                == max_len as int;
                        assert(0 <= jw < i + 1 && self.candidate(fv, jw) && self.dir_len(jw)
                            == max_len as int);
                    }
                }
            }
            i = i + 1;
        }
        if !found {
            proof {
                assert forall|u: usize| #[trigger] result@.contains(u) <==> base.contains(u)
                    || self.file_dirties(fv, u as int) by {
                    if self.best_candidate(fv, u as int) {
                        assert(self.candidate(fv, u as int));
                    }
                }
            }
            return result;
        }
        // Collect every candidate at the maximal depth.
        let mut i: usize = 0;
        while i < nn
            invariant
                self.wf(),
                i <= nn,
                nn == self.n(),
                fv == f@,
                result@.no_duplicates(),
                forall|u: usize| #[trigger] result@.contains(u) ==> (u as int) < self.n(),
                found <==> exists|j: int| 0 <= j < nn && self.candidate(fv, j),
                found,
                exists|j: int|
                    0 <= j < nn && #[trigger] self.candidate(fv, j) && self.dir_len(j)
                        == max_len as int,
                forall|j: int|
                    0 <= j < nn && #[trigger] self.candidate(fv, j) ==> self.dir_len(j)
                        <= max_len as int,
                forall|u: usize| #[trigger] result@.contains(u) <==> base.contains(u) || (
                self.candidate(fv, u as int) && self.dir_len(u as int) == max_len as int && (
                u as int) < i),
            decreases nn - i,
        {
            let ghost entry = result@;
            let is_cand = self.candidate_exec(f, i);
            let mut is_best = false;
            if is_cand {
                let dl = self.dir_len_exec(i);
                if dl == max_len {
                    is_best = true;
                    if !contains_idx(&result, i) {
                        let ghost before = result@;
                        result.push(i);
                        proof {
                            lemma_push_grows(before, i);
                        }
                    }
                }
            }
            proof {
                assert forall|u: usize| #[trigger] result@.contains(u) <==> base.contains(u) || (
                self.candidate(fv, u as int) && self.dir_len(u as int) == max_len as int && (
                u as int) < i + 1) by {
                    if u == i {
                        if is_best {
                            assert(result@.contains(i));
                        } else {
                            assert(result@ == entry);
                            assert(entry.contains(u) <==> base.contains(u) || (self.candidate(
                                fv,
                                u as int,
                            ) && self.dir_len(u as int) == max_len as int && (u as int) < i));
                        }
                    } else {
                        assert(entry.contains(u) <==> base.contains(u) || (self.candidate(
                            fv,
                            u as int,
                        ) && self.dir_len(u as int) == max_len as int && (u as int) < i));
                        if result@ != entry {
                            assert(result@.contains(u) <==> entry.contains(u) || u == i);
                        }
                    }
                }
            }
            i = i + 1;
        }
        proof {
            assert forall|u: usize| #[trigger] result@.contains(u) <==> base.contains(u)
                || self.file_dirties(fv, u as int) by {
                let jw = choose|j: int|
                    0 <= j < nn && #[trigger] self.candidate(fv, j) && self.dir_len(j)
                        == max_len as int;
                if self.candidate(fv, u as int) && self.dir_len(u as int) == max_len as int {
                    assert(self.best_candidate(fv, u as int));
                }
                if self.best_candidate(fv, u as int) {
                    assert(self.dir_len(jw) <= self.dir_len(u as int));
                    assert(self.dir_len(u as int) == max_len as int);
                }
            }
        }
        result
    }

    /// The units made dirty by a set of changed files: for each file, its
    /// exact build-script matches, or else the candidates rooted at the
    /// deepest matching directory. A file matching nothing contributes
    /// nothing. The result lists each dirty unit's index exactly once.
    pub fn dirties(&self, files: &Vec<AbsPath>) -> (r: Vec<usize>)
        requires
            self.wf(),
        ensures
            r@.no_duplicates(),
            forall|u: usize| #[trigger] r@.contains(u) ==> (u as int) < self.n(),
            forall|u: usize| #[trigger] r@.contains(u) <==> self.dirty_for(
                paths_view(files@),
                u as int,
            ),
    {
        let ghost pv = paths_view(files@);
        let mut result: Vec<usize> = Vec::new();
        let m = files.len();
        let mut fi: usize = 0;
        while fi < m
            invariant
                self.wf(),
                fi <= m,
                m == files@.len(),
                pv == paths_view(files@),
                result@.no_duplicates(),
                forall|u: usize| #[trigger] result@.contains(u) ==> (u as int) < self.n(),
                forall|u: usize| #[trigger] result@.contains(u) <==> self.dirty_for(
                    pv.take(fi as int),
                    u as int,
                ),
            decreases m - fi,
        {
            let ghost prev = result@;
            result = self.add_dirty_for_file(&files[fi], result);
            proof {
                let fv = files@[fi as int]@;
                assert(pv[fi as int] == fv);
                assert forall|u: usize| #[trigger] result@.contains(u) <==> self.dirty_for(
                    pv.take(fi as int + 1),
                    u as int,
                ) by {
                    if result@.contains(u) {
                        if prev.contains(u) {
                            let k = choose|k: int|
                                0 <= k < fi && #[trigger] self.file_dirties(
                                    pv.take(fi as int)[k],
                                    u as int,
                                );
                            assert(pv.take(fi as int + 1)[k] == pv.take(fi as int)[k]);
                            assert(self.file_dirties(pv.take(fi as int + 1)[k], u as int));
                        } else {
                            assert(self.file_dirties(fv, u as int));
                            assert(pv.take(fi as int + 1)[fi as int] == fv);
                            assert(self.file_dirties(pv.take(fi as int + 1)[fi as int], u as int));
                        }
                    }
                    if self.dirty_for(pv.take(fi as int + 1), u as int) {
                        let k = choose|k: int|
                            0 <= k < fi + 1 && #[trigger] self.file_dirties(
                                pv.take(fi as int + 1)[k],
                                u as int,
                            );
                        if k < fi {
                            assert(pv.take(fi as int)[k] == pv.take(fi as int + 1)[k]);
                            assert(self.file_dirties(pv.take(fi as int)[k], u as int));
                            assert(self.dirty_for(pv.take(fi as int), u as int));
                        } else {
                            assert(pv.take(fi as int + 1)[k] == fv);
                        }
                    }
                }
            }
            fi = fi + 1;
        }
        proof {
            assert(pv.take(m as int) =~= pv);
        }
        result
    }
}

/// Does the changed file lie at or below the directory containing `sp`?
fn dir_prefix(sp: &AbsPath, f: &AbsPath) -> (r: bool)
    requires
        sp@.len() > 0,
    ensures
        r == is_prefix_of(sp@.drop_last(), f@),
{
    proof {
        assert(sp@.len() == sp.components@.len());
        assert(f@.len() == f.components@.len());
    }
    let n = sp.components.len() - 1;
    if n > f.components.len() {
        return false;
    }
    let mut i: usize = 0;
    while i < n
        invariant
            i <= n,
            n == sp.components@.len() - 1,
            n <= f.components@.len(),
            forall|k: int| 0 <= k < i ==> sp@[k] == f@[k],
        decreases n - i,
    {
        if !(sp.components[i] == f.components[i]) {
            proof {
                assert(sp@[i as int] != f@[i as int]);
                assert(sp@.drop_last()[i as int] == sp@[i as int]);
            }
            return false;
        }
        i = i + 1;
    }
    proof {
        assert forall|k: int| 0 <= k < sp@.drop_last().len() implies sp@.drop_last()[k]
            == f@[k] by {
            assert(sp@.drop_last()[k] == sp@[k]);
        }
    }
    true
}

/// Pushing a fresh element keeps a sequence duplicate-free and adds
/// exactly that element to its membership.
proof fn lemma_push_grows(s: Seq<usize>, x: usize)
    requires
        s.no_duplicates(),
        !s.contains(x),
    ensures
        s.push(x).no_duplicates(),
        forall|u: usize| #[trigger] s.push(x).contains(u) <==> s.contains(u) || u == x,
{
    assert forall|u: usize| #[trigger] s.push(x).contains(u) implies s.contains(u) || u == x by {
        let k = choose|k: int| 0 <= k < s.push(x).len() && s.push(x)[k] == u;
        if k < s.len() {
            assert(s[k] == u);
        }
    }
    assert forall|u: usize| s.contains(u) || u == x implies #[trigger] s.push(x).contains(u) by {
        if s.contains(u) {
            let k = choose|k: int| 0 <= k < s.len() && s[k] == u;
            assert(s.push(x)[k] == u);
        } else {
            assert(s.push(x)[s.len() as int] == x);
        }
    }
}

/// Dirty-set resolution is deterministic: any two result sets whose
/// membership matches the dirty characterization for the same graph and
/// the same changed files have exactly the same members, so re-running
/// on an unchanged graph with the same input yields the same set.
pub proof fn lemma_dirty_set_deterministic(
    g: BuildGraph,
    files: Seq<Seq<Seq<char>>>,
    r1: Seq<usize>,
    r2: Seq<usize>,
)
    requires
        forall|u: usize| #[trigger] r1.contains(u) <==> g.dirty_for(files, u as int),
        forall|u: usize| #[trigger] r2.contains(u) <==> g.dirty_for(files, u as int),
    ensures
        forall|u: usize| r1.contains(u) <==> r2.contains(u),
{
}

/// A changed file that no unit matches — neither exactly as a build
/// script's source nor under any unit's directory — contributes nothing
/// to the dirty set.
pub proof fn lemma_no_match(g: BuildGraph, files: Seq<Seq<Seq<char>>>)
    requires
        forall|k: int, i: int| 0 <= k < files.len() ==> !(#[trigger] g.exact_hit(files[k], i)),
        forall|k: int, i: int| 0 <= k < files.len() ==> !(#[trigger] g.candidate(files[k], i)),
    ensures
        forall|i: int| !g.dirty_for(files, i),
{
    assert forall|i: int| !g.dirty_for(files, i) by {
        if g.dirty_for(files, i) {
            let k = choose|k: int| 0 <= k < files.len() && #[trigger] g.file_dirties(files[k], i);
            if g.any_exact_hit(files[k]) {
                assert(g.exact_hit(files[k], i));
            } else {
                assert(g.best_candidate(files[k], i));
                assert(g.candidate(files[k], i));
            }
        }
    }
}

/// The most specific enclosing directory wins: of two prefix candidates
/// for one file, a unit rooted strictly shallower than the deepest
/// candidate is not in the dirty set, while a deepest candidate is — so
/// for units rooted at `/repo` and `/repo/src` and a file under
/// `/repo/src`, only the latter is dirty.
pub proof fn lemma_most_specific_wins(g: BuildGraph, f: Seq<Seq<char>>, a: int, b: int)
    requires
        g.candidate(f, a),
        g.candidate(f, b),
        g.dir_len(a) < g.dir_len(b),
        forall|j: int| #[trigger] g.candidate(f, j) ==> g.dir_len(j) <= g.dir_len(b),
        !g.any_exact_hit(f),
    ensures
        g.file_dirties(f, b),
        !g.file_dirties(f, a),
{
    assert(g.best_candidate(f, b));
    assert(!g.best_candidate(f, a));
}

/// Ties are kept: two candidates rooted at the identical directory are
/// either both in the dirty set for a file or both out of it.
pub proof fn lemma_tie(g: BuildGraph, f: Seq<Seq<char>>, a: int, b: int)
    requires
        g.candidate(f, a),
        g.candidate(f, b),
        g.unit_dir(a) == g.unit_dir(b),
    ensures
        g.file_dirties(f, a) <==> g.file_dirties(f, b),
{
    if g.any_exact_hit(f) {
        assert(!g.exact_hit(f, a));
        assert(!g.exact_hit(f, b));
    } else {
        assert(g.dir_len(a) == g.dir_len(b));
        if g.best_candidate(f, a) {
            assert forall|j: int| #[trigger] g.candidate(f, j) implies g.dir_len(j) <= g.dir_len(
                b,
            ) by {
                assert(g.dir_len(j) <= g.dir_len(a));
            }
        }
        if g.best_candidate(f, b) {
            assert forall|j: int| #[trigger] g.candidate(f, j) implies g.dir_len(j) <= g.dir_len(
                a,
            ) by {
                assert(g.dir_len(j) <= g.dir_len(b));
            }
        }
    }
}

} // verus!
