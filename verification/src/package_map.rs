//! Maps file paths to the packages that own them.
//!
//! The planner uses this to detect when a changed file belongs to a
//! package outside the cached plan: the cache then has to be rebuilt with
//! that package included. A file is owned by the package whose root
//! directory is the longest recorded prefix of the file's path —
//! equivalently, the first package root found walking up from the file.
//! Lookups are cached per file path.

use vstd::prelude::*;

use crate::path::AbsPath;
use crate::path::is_prefix_of;

verus! {

broadcast use vstd::std_specs::vec::group_vec_axioms;

/// The views of a root-directory/package-name table.
pub open spec fn roots_view(s: Seq<(AbsPath, String)>) -> Seq<(Seq<Seq<char>>, Seq<char>)> {
    s.map_values(|p: (AbsPath, String)| (p.0@, p.1@))
}

/// `name` is the package owning `path`: some table entry whose root is a
/// prefix of `path`, no prefix entry deeper than it.
pub open spec fn owner_is(
    pp: Seq<(Seq<Seq<char>>, Seq<char>)>,
    path: Seq<Seq<char>>,
    name: Seq<char>,
) -> bool {
    exists|i: int|
        #![trigger pp[i]]
        0 <= i < pp.len() && is_prefix_of(pp[i].0, path) && pp[i].1 == name && (forall|j: int|
            0 <= j < pp.len() && is_prefix_of(#[trigger] pp[j].0, path) ==> pp[j].0.len()
                <= pp[i].0.len())
}

/// No recorded package root lies at or above `path`.
pub open spec fn no_owner(pp: Seq<(Seq<Seq<char>>, Seq<char>)>, path: Seq<Seq<char>>) -> bool {
    forall|j: int| 0 <= j < pp.len() ==> !is_prefix_of((#[trigger] pp[j]).0, path)
}

/// A file has at most one owning package when the roots are distinct:
/// two prefixes of one path with maximal length are the same root.
pub proof fn lemma_owner_unique(
    pp: Seq<(Seq<Seq<char>>, Seq<char>)>,
    path: Seq<Seq<char>>,
    n1: Seq<char>,
    n2: Seq<char>,
)
    requires
        forall|i: int, j: int| 0 <= i < j < pp.len() ==> (#[trigger] pp[i]).0 != (#[trigger] pp[j]).0,
        owner_is(pp, path, n1),
        owner_is(pp, path, n2),
    ensures
        n1 == n2,
{
    let i1 = choose|i: int|
        #![trigger pp[i]]
        0 <= i < pp.len() && is_prefix_of(pp[i].0, path) && pp[i].1 == n1 && (forall|j: int|
            0 <= j < pp.len() && is_prefix_of(#[trigger] pp[j].0, path) ==> pp[j].0.len()
                <= pp[i].0.len());
    let i2 = choose|i: int|
        #![trigger pp[i]]
        0 <= i < pp.len() && is_prefix_of(pp[i].0, path) && pp[i].1 == n2 && (forall|j: int|
            0 <= j < pp.len() && is_prefix_of(#[trigger] pp[j].0, path) ==> pp[j].0.len()
                <= pp[i].0.len());
    assert(pp[i1].0.len() <= pp[i2].0.len());
    assert(pp[i2].0.len() <= pp[i1].0.len());
    assert(pp[i1].0 =~= pp[i2].0) by {
        assert forall|k: int| 0 <= k < pp[i1].0.len() implies pp[i1].0[k] == pp[i2].0[k] by {
            assert(pp[i1].0[k] == path[k]);
            assert(pp[i2].0[k] == path[k]);
        }
    }
    if i1 != i2 {
        assert(pp[i1].0 != pp[i2].0);
    }
}

/// Some collected name reads `n`.
pub open spec fn has_name(s: Seq<String>, n: Seq<char>) -> bool {
    exists|i: int| 0 <= i < s.len() && (#[trigger] s[i])@ == n
}

/// One of the first `k` files is owned by the package named `n`.
pub open spec fn owned_by_first(
    pp: Seq<(Seq<Seq<char>>, Seq<char>)>,
    files: Seq<AbsPath>,
    k: int,
    n: Seq<char>,
) -> bool {
    exists|kk: int| 0 <= kk < k && owner_is(pp, (#[trigger] files[kk])@, n)
}

/// Maps paths to packages: a table of package root directories and a
/// per-file lookup cache.
pub struct PackageMap {
    pub package_paths: Vec<(AbsPath, String)>,
    pub map_cache: Vec<(AbsPath, String)>,
}

impl PackageMap {
    /// Distinct roots, and every cache entry agrees with an uncached
    /// lookup.
    pub open spec fn wf(self) -> bool {
        &&& forall|i: int, j: int|
            0 <= i < j < self.package_paths@.len() ==> (#[trigger] self.package_paths@[i]).0@ != (
            #[trigger] self.package_paths@[j]).0@
        &&& forall|c: int|
            0 <= c < self.map_cache@.len() ==> owner_is(
                roots_view(self.package_paths@),
                (#[trigger] self.map_cache@[c]).0@,
                self.map_cache@[c].1@,
            )
    }

    /// Builds the map from discovered package roots (each root once).
    pub fn new(package_paths: Vec<(AbsPath, String)>) -> (r: PackageMap)
        requires
            forall|i: int, j: int|
                0 <= i < j < package_paths@.len() ==> (#[trigger] package_paths@[i]).0@ != (
                #[trigger] package_paths@[j]).0@,
        ensures
            r.wf(),
            r.package_paths@ == package_paths@,
            r.map_cache@.len() == 0,
    {
        PackageMap { package_paths, map_cache: Vec::new() }
    }

    /// Uncached lookup: the package whose recorded root is the deepest
    /// prefix of `path` (the first root met walking up from the file).
    pub fn map_uncached(path: &AbsPath, package_paths: &Vec<(AbsPath, String)>) -> (r: Option<
        String,
    >)
        ensures
            match r {
                Some(name) => owner_is(roots_view(package_paths@), path@, name@),
                None => no_owner(roots_view(package_paths@), path@),
            },
    {
        let ghost pp = roots_view(package_paths@);
        let n = package_paths.len();
        let mut best: Option<usize> = None;
        let mut i: usize = 0;
        while i < n
            invariant
                i <= n,
                n == package_paths@.len(),
                pp == roots_view(package_paths@),
                match best {
                    Some(b) => (b as int) < i && is_prefix_of(pp[b as int].0, path@) && (forall|
                        j: int,
                    |
                        0 <= j < i && is_prefix_of(#[trigger] pp[j].0, path@) ==> pp[j].0.len()
                            <= pp[b as int].0.len()),
                    None => forall|j: int| 0 <= j < i ==> !is_prefix_of((#[trigger] pp[j]).0, path@),
                },
            decreases n - i,
        {
            proof {
                assert(pp[i as int].0 == package_paths@[i as int].0@);
            }
            if package_paths[i].0.is_prefix(path) {
                match best {
                    None => {
                        best = Some(i);
                    },
                    Some(b) => {
                        proof {
                            assert(pp[b as int].0 == package_paths@[b as int].0@);
                        }
                        if package_paths[i].0.components.len()
                            > package_paths[b].0.components.len() {
                            proof {
                                assert(package_paths@[i as int].0@.len()
                                    == package_paths@[i as int].0.components@.len());
                                assert(package_paths@[b as int].0@.len()
                                    == package_paths@[b as int].0.components@.len());
                            }
                            best = Some(i);
                        } else {
                            proof {
                                assert(package_paths@[i as int].0@.len()
                                    == package_paths@[i as int].0.components@.len());
                                assert(package_paths@[b as int].0@.len()
                                    == package_paths@[b as int].0.components@.len());
                            }
                        }
                    },
                }
            }
            i = i + 1;
        }
        match best {
            Some(b) => {
                proof {
                    assert(pp[b as int].1 == package_paths@[b as int].1@);
                }
                Some(package_paths[b].1.clone())
            },
            None => None,
        }
    }

    /// Cached lookup of the package owning `path`; a fresh result is
    /// remembered for repeated queries.
    pub fn map(&mut self, path: &AbsPath) -> (r: Option<String>)
        requires
            old(self).wf(),
        ensures
            final(self).wf(),
            final(self).package_paths@ == old(self).package_paths@,
            match r {
                Some(name) => owner_is(roots_view(old(self).package_paths@), path@, name@),
                None => no_owner(roots_view(old(self).package_paths@), path@),
            },
    {
        let cn = self.map_cache.len();
        let mut c: usize = 0;
        while c < cn
            invariant
                c <= cn,
                cn == self.map_cache@.len(),
                self.wf(),
            decreases cn - c,
        {
            if self.map_cache[c].0.path_eq(path) {
                proof {
                    assert(owner_is(
                        roots_view(self.package_paths@),
                        self.map_cache@[c as int].0@,
                        self.map_cache@[c as int].1@,
                    ));
                }
                return Some(self.map_cache[c].1.clone());
            }
            c = c + 1;
        }
        match Self::map_uncached(path, &self.package_paths) {
            Some(name) => {
                let ghost old_cache = self.map_cache@;
                self.map_cache.push((path.clone_path(), name.clone()));
                proof {
                    assert forall|cc: int| 0 <= cc < self.map_cache@.len() implies owner_is(
                        roots_view(self.package_paths@),
                        (#[trigger] self.map_cache@[cc]).0@,
                        self.map_cache@[cc].1@,
                    ) by {
                        if cc < old_cache.len() {
                            assert(self.map_cache@[cc] == old_cache[cc]);
                        }
                    }
                }
                Some(name)
            },
            None => None,
        }
    }

    /// The packages owning any of the modified files, each name once. A
    /// file owned by no known package contributes nothing.
    pub fn compute_dirty_packages(&mut self, modified_files: &Vec<AbsPath>) -> (r: Vec<String>)
        requires
            old(self).wf(),
        ensures
            final(self).wf(),
            final(self).package_paths@ == old(self).package_paths@,
            forall|i: int, j: int|
                0 <= i < j < r@.len() ==> (#[trigger] r@[i])@ != (#[trigger] r@[j])@,
            forall|n: Seq<char>|
                #[trigger] has_name(r@, n) <==> owned_by_first(
                    roots_view(old(self).package_paths@),
                    modified_files@,
                    modified_files@.len() as int,
                    n,
                ),
    {
        let ghost pp = roots_view(self.package_paths@);
        let m = modified_files.len();
        let mut r: Vec<String> = Vec::new();
        let mut k: usize = 0;
        while k < m
            invariant
                k <= m,
                m == modified_files@.len(),
                self.wf(),
                self.package_paths@ == old(self).package_paths@,
                pp == roots_view(self.package_paths@),
                forall|i: int, j: int|
                    0 <= i < j < r@.len() ==> (#[trigger] r@[i])@ != (#[trigger] r@[j])@,
                forall|n: Seq<char>|
                    #[trigger] has_name(r@, n) <==> owned_by_first(pp, modified_files@, k as int, n),
            decreases m - k,
        {
            let ghost r_old = r@;
            match self.map(&modified_files[k]) {
                Some(name) => {
                    if !contains_name(&r, &name) {
                        proof {
                            assert(!has_name(r@, name@));
                        }
                        r.push(name);
                    } else {
                        proof {
                            assert(has_name(r@, name@));
                        }
                    }
                    proof {
                        assert(owner_is(pp, modified_files@[k as int]@, name@));
                        assert(has_name(r@, name@)) by {
                            if r@ != r_old {
                                assert(r@[r_old.len() as int]@ == name@);
                            }
                        }
                        assert forall|n: Seq<char>| #[trigger] has_name(r@, n) <==> owned_by_first(
                            pp,
                            modified_files@,
                            k as int + 1,
                            n,
                        ) by {
                            if has_name(r@, n) {
                                let i = choose|i: int|
                                    0 <= i < r@.len() && (#[trigger] r@[i])@ == n;
                                if i < r_old.len() {
                                    assert(r@[i] == r_old[i]);
                                    assert(has_name(r_old, n));
                                    let kk = choose|kk: int|
                                        0 <= kk < k && owner_is(
                                            pp,
                                            (#[trigger] modified_files@[kk])@,
                                            n,
                                        );
                                    assert(owned_by_first(pp, modified_files@, k as int + 1, n));
                                } else {
                                    assert(r@[i]@ == name@);
                                    assert(owner_is(pp, (modified_files@[k as int])@, n));
                                    assert(owned_by_first(pp, modified_files@, k as int + 1, n));
                                }
                            }
                            if owned_by_first(pp, modified_files@, k as int + 1, n) {
                                let kk = choose|kk: int|
                                    0 <= kk < k + 1 && owner_is(
                                        pp,
                                        (#[trigger] modified_files@[kk])@,
                                        n,
                                    );
                                if kk < k {
                                    assert(owned_by_first(pp, modified_files@, k as int, n));
                                    assert(has_name(r_old, n));
                                    let i = choose|i: int|
                                        0 <= i < r_old.len() && (#[trigger] r_old[i])@ == n;
                                    assert(r@[i] == r_old[i]);
                                    assert(r@[i]@ == n);
                                    assert(has_name(r@, n));
                                } else {
                                    lemma_owner_unique(pp, modified_files@[k as int]@, name@, n);
                                    assert(has_name(r@, name@));
                                }
                            }
                        }
                        assert forall|i: int, j: int|
                            0 <= i < j < r@.len() implies (#[trigger] r@[i])@ != (
                        #[trigger] r@[j])@ by {
                            if j < r_old.len() {
                                assert(r@[i] == r_old[i]);
                                assert(r@[j] == r_old[j]);
                            } else if r@ != r_old {
                                assert(r@[i] == r_old[i]);
                                assert(r@[j]@ == name@);
                                assert(!has_name(r_old, name@));
                                assert(r_old[i]@ != name@);
                            }
                        }
                    }
                },
                None => {
                    proof {
                        assert forall|n: Seq<char>| #[trigger] has_name(r@, n) <==> owned_by_first(
                            pp,
                            modified_files@,
                            k as int + 1,
                            n,
                        ) by {
                            if has_name(r@, n) {
                                let kk = choose|kk: int|
                                    0 <= kk < k && owner_is(
                                        pp,
                                        (#[trigger] modified_files@[kk])@,
                                        n,
                                    );
                                assert(owned_by_first(pp, modified_files@, k as int + 1, n));
                            }
                            if owned_by_first(pp, modified_files@, k as int + 1, n) {
                                let kk = choose|kk: int|
                                    0 <= kk < k + 1 && owner_is(
                                        pp,
                                        (#[trigger] modified_files@[kk])@,
                                        n,
                                    );
                                if kk == k {
                                    let i = choose|i: int|
                                        #![trigger pp[i]]
                                        0 <= i < pp.len() && is_prefix_of(
                                            pp[i].0,
                                            modified_files@[k as int]@,
                                        ) && pp[i].1 == n && (forall|j: int|
                                            0 <= j < pp.len() && is_prefix_of(
                                                #[trigger] pp[j].0,
                                                modified_files@[k as int]@,
                                            ) ==> pp[j].0.len() <= pp[i].0.len());
                                    assert(!is_prefix_of(pp[i].0, modified_files@[k as int]@));
                                } else {
                                    assert(owned_by_first(pp, modified_files@, k as int, n));
                                }
                            }
                        }
                    }
                },
            }
            k = k + 1;
        }
        r
    }
}

/// Is a name already collected (by contents)?
pub(crate) fn contains_name(v: &Vec<String>, s: &String) -> (r: bool)
    ensures
        r == exists|i: int| 0 <= i < v@.len() && (#[trigger] v@[i])@ == s@,
{
    let n = v.len();
    let mut i: usize = 0;
    while i < n
        invariant
            i <= n,
            n == v@.len(),
            forall|j: int| 0 <= j < i ==> (#[trigger] v@[j])@ != s@,
        decreases n - i,
    {
        if v[i] == *s {
            return true;
        }
        i = i + 1;
    }
    false
}

} // verus!
