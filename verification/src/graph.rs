//! The graph store: a unit table with forward and reverse dependency
//! adjacency.
//!
//! The well-formedness invariant [`BuildGraph::wf`] holds after every
//! public mutation: the reverse map is the exact transpose of the forward
//! map, every edge points at a unit of the table, adjacency rows carry no
//! duplicates and no self-edges, and unit identities are pairwise
//! distinct. Units are never deleted; a structurally different scope is a
//! new graph instance.
//!
//! The fields are public so that the contracts can speak about them
//! directly; they are meant to be read, not written — every operation of
//! this crate requires the graph it is handed to be well-formed, and only
//! the constructors and methods here establish that.

use vstd::prelude::*;

use crate::unit::ProcessSpec;
use crate::unit::Unit;
use crate::unit::UnitKey;
use crate::unit::UnitKeyView;
use crate::unit::UnitView;

verus! {

broadcast use vstd::std_specs::vec::group_vec_axioms;

/// Forward and reverse adjacency between units, plus the unit table.
/// Adjacency is by table index: `deps[i]` are the indices unit `i` depends
/// on, `rev_deps[i]` the indices that depend on unit `i`.
pub struct BuildGraph {
    pub units: Vec<Unit>,
    pub deps: Vec<Vec<usize>>,
    pub rev_deps: Vec<Vec<usize>>,
}

impl BuildGraph {
    /// Number of units in the table.
    pub open spec fn n(self) -> nat {
        self.units@.len()
    }

    /// The identity of the unit at index `i`.
    pub open spec fn key_at(self, i: int) -> UnitKeyView {
        self.units@[i]@.key
    }

    /// The view of the unit at index `i`.
    pub open spec fn unit_at_spec(self, i: int) -> UnitView {
        self.units@[i]@
    }

    /// Unit `i` depends directly on unit `j`.
    pub open spec fn dep_edge(self, i: int, j: int) -> bool {
        &&& 0 <= i < self.n()
        &&& 0 <= j < self.n()
        &&& self.deps@[i]@.contains(j as usize)
    }

    /// Unit `j` depends directly on unit `i` (the transposed relation).
    pub open spec fn rev_edge(self, i: int, j: int) -> bool {
        &&& 0 <= i < self.n()
        &&& 0 <= j < self.n()
        &&& self.rev_deps@[i]@.contains(j as usize)
    }

    /// Some unit of the table has identity `k`.
    pub open spec fn has_key(self, k: UnitKeyView) -> bool {
        exists|i: int| 0 <= i < self.n() && self.key_at(i) == k
    }

    /// There is an edge between the units with these identities.
    pub open spec fn edge_between(self, k1: UnitKeyView, k2: UnitKeyView) -> bool {
        exists|i: int, j: int|
            #[trigger] self.dep_edge(i, j) && self.key_at(i) == k1 && self.key_at(j) == k2
    }

    /// The class invariant; it holds after every public mutation.
    pub open spec fn wf(self) -> bool {
        &&& self.deps@.len() == self.n()
        &&& self.rev_deps@.len() == self.n()
        &&& forall|i: int, k: int|
            0 <= i < self.n() && 0 <= k < self.deps@[i]@.len() ==> (#[trigger] self.deps@[i]@[k])
                < self.n()
        &&& forall|i: int, k: int|
            0 <= i < self.n() && 0 <= k < self.rev_deps@[i]@.len() ==> (#[trigger] self.rev_deps@[i]@[k]) < self.n()
        &&& forall|i: int| 0 <= i < self.n() ==> (#[trigger] self.deps@[i]@).no_duplicates()
        &&& forall|i: int| 0 <= i < self.n() ==> (#[trigger] self.rev_deps@[i]@).no_duplicates()
        &&& forall|i: int| 0 <= i < self.n() ==> !(#[trigger] self.deps@[i]@).contains(i as usize)
        &&& forall|i: int, j: int|
            #![trigger self.dep_edge(i, j)]
            #![trigger self.rev_edge(j, i)]
            self.dep_edge(i, j) <==> self.rev_edge(j, i)
        &&& forall|i: int, j: int|
            0 <= i < self.n() && 0 <= j < self.n() && i != j ==> #[trigger] self.key_at(i)
                != #[trigger] self.key_at(j)
    }

    /// An empty graph.
    pub fn new() -> (g: BuildGraph)
        ensures
            g.wf(),
            g.n() == 0,
    {
        BuildGraph { units: Vec::new(), deps: Vec::new(), rev_deps: Vec::new() }
    }

    /// Number of units, as an executable value.
    pub fn unit_count(&self) -> (r: usize)
        ensures
            r == self.n(),
    {
        self.units.len()
    }

    /// The unit table.
    pub fn units(&self) -> (r: &Vec<Unit>)
        ensures
            r@ == self.units@,
    {
        &self.units
    }

    /// The unit at a table index.
    pub fn unit_at(&self, i: usize) -> (r: Option<&Unit>)
        ensures
            match r {
                Some(u) => i < self.n() && u@ == self.unit_at_spec(i as int),
                None => i >= self.n(),
            },
    {
        if i < self.units.len() {
            Some(&self.units[i])
        } else {
            None
        }
    }

    /// The forward-dependency indices of the unit at `i`.
    pub fn deps(&self, i: usize) -> (r: &Vec<usize>)
        requires
            self.wf(),
            i < self.n(),
        ensures
            r@ == self.deps@[i as int]@,
    {
        &self.deps[i]
    }

    /// Looks a unit up by identity; the table index is unique when it
    /// exists.
    pub fn find_key(&self, key: &UnitKey) -> (r: Option<usize>)
        ensures
            match r {
                Some(i) => i < self.n() && self.key_at(i as int) == key@,
                None => !self.has_key(key@),
            },
    {
        let n = self.units.len();
        let mut i: usize = 0;
        while i < n
            invariant
                i <= n,
                n == self.units@.len(),
                forall|j: int| 0 <= j < i ==> self.key_at(j) != key@,
            decreases n - i,
        {
            if self.units[i].key.key_eq(key) {
                return Some(i);
            }
            i = i + 1;
        }
        None
    }

    /// Looks a unit up by identity.
    pub fn get(&self, key: &UnitKey) -> (r: Option<&Unit>)
        ensures
            match r {
                Some(u) => self.has_key(key@) && u@.key == key@ && exists|i: int|
                    0 <= i < self.n() && self.unit_at_spec(i) == u@,
                None => !self.has_key(key@),
            },
    {
        match self.find_key(key) {
            Some(i) => {
                let u = &self.units[i];
                proof {
                    assert(0 <= i < self.n() && self.unit_at_spec(i as int) == u@);
                }
                Some(u)
            },
            None => None,
        }
    }

    /// Appends a unit with a fresh identity and no edges. Internal: the
    /// public insertion paths (`with_units`, `try_from_raw`, `add`) call
    /// it.
    pub(crate) fn push_node(&mut self, u: Unit)
        requires
            old(self).wf(),
            !old(self).has_key(u@.key),
        ensures
            final(self).wf(),
            final(self).n() == old(self).n() + 1,
            final(self).units@ == old(self).units@.push(u),
            forall|i: int, j: int| #[trigger] final(self).dep_edge(i, j) <==> old(self).dep_edge(
                i,
                j,
            ),
            forall|i: int|
                0 <= i < final(self).n() ==> final(self).deps@[i]@.len() == (if i < old(self).n() {
                    old(self).deps@[i]@.len()
                } else {
                    0
                }),
    {
        let ghost old_g = *self;
        self.units.push(u);
        self.deps.push(Vec::new());
        self.rev_deps.push(Vec::new());
        proof {
            let n = old_g.n() as int;
            assert(old_g.units.len() == old_g.units@.len());
            assert forall|i: int, j: int| #[trigger] self.dep_edge(i, j) implies old_g.dep_edge(
                i,
                j,
            ) by {
                if self.dep_edge(i, j) {
                    if i == n {
                        assert(self.deps@[i]@.len() == 0);
                        assert(!self.deps@[i]@.contains(j as usize));
                    } else {
                        assert(self.deps@[i]@ == old_g.deps@[i]@);
                        if j == n {
                            assert(old_g.deps@[i]@.contains(n as usize));
                            let k = choose|k: int|
                                0 <= k < old_g.deps@[i]@.len() && old_g.deps@[i]@[k] == n as usize;
                            assert(old_g.deps@[i]@[k] < old_g.n());
                        }
                    }
                }
            }
            assert forall|i: int, j: int| old_g.dep_edge(i, j) implies #[trigger] self.dep_edge(
                i,
                j,
            ) by {
                if old_g.dep_edge(i, j) {
                    assert(self.deps@[i]@ == old_g.deps@[i]@);
                }
            }
            assert forall|i: int, j: int| #[trigger] self.rev_edge(i, j) implies old_g.rev_edge(
                i,
                j,
            ) by {
                if self.rev_edge(i, j) {
                    if i == n {
                        assert(self.rev_deps@[i]@.len() == 0);
                        assert(!self.rev_deps@[i]@.contains(j as usize));
                    } else {
                        assert(self.rev_deps@[i]@ == old_g.rev_deps@[i]@);
                        if j == n {
                            let k = choose|k: int|
                                0 <= k < old_g.rev_deps@[i]@.len() && old_g.rev_deps@[i]@[k]
                                    == n as usize;
                            assert(old_g.rev_deps@[i]@[k] < old_g.n());
                        }
                    }
                }
            }
            assert forall|i: int, j: int| old_g.rev_edge(i, j) implies #[trigger] self.rev_edge(
                i,
                j,
            ) by {
                if old_g.rev_edge(i, j) {
                    assert(self.rev_deps@[i]@ == old_g.rev_deps@[i]@);
                }
            }
            assert forall|i: int| 0 <= i < self.n() implies !(#[trigger] self.deps@[i]@).contains(
                i as usize,
            ) by {
                if i < n {
                    assert(self.deps@[i]@ == old_g.deps@[i]@);
                } else {
                    assert(self.deps@[i]@.len() == 0);
                }
            }
            assert forall|i: int, j: int|
                0 <= i < self.n() && 0 <= j < self.n() && i != j implies #[trigger] self.key_at(i)
                != #[trigger] self.key_at(j) by {
                if i < n && j < n {
                    assert(old_g.key_at(i) != old_g.key_at(j));
                } else if i == n && j < n {
                    assert(!old_g.has_key(u@.key));
                    assert(old_g.key_at(j) == self.key_at(j));
                } else if j == n && i < n {
                    assert(old_g.key_at(i) == self.key_at(i));
                }
            }
        }
    }

    /// Records that unit `a` depends on unit `b`; idempotent. Internal.
    pub(crate) fn add_edge(&mut self, a: usize, b: usize)
        requires
            old(self).wf(),
            a < old(self).n(),
            b < old(self).n(),
            a != b,
        ensures
            final(self).wf(),
            final(self).n() == old(self).n(),
            final(self).units@ == old(self).units@,
            forall|i: int, j: int| #[trigger] final(self).dep_edge(i, j) <==> (old(self).dep_edge(
                i,
                j,
            ) || (i == a && j == b)),
            forall|i: int|
                0 <= i < final(self).n() && i != a
                    ==> final(self).deps@[i]@ == old(self).deps@[i]@,
            final(self).deps@[a as int]@.len() == old(self).deps@[a as int]@.len() + (if old(self).dep_edge(a as int, b as int) {
                0int
            } else {
                1int
            }),
            !old(self).dep_edge(a as int, b as int) ==> final(self).deps@[a as int]@ == old(self).deps@[a as int]@.push(b),
            old(self).dep_edge(a as int, b as int) ==> final(self).deps@ == old(self).deps@,
    {
        let ghost old_g = *self;
        if !contains_idx(&self.deps[a], b) {
            self.deps[a].push(b);
            self.rev_deps[b].push(a);
            proof {
                assert(old_g.units.len() == old_g.units@.len());
                assert(self.deps@[a as int]@ =~= old_g.deps@[a as int]@.push(b));
                assert(self.rev_deps@[b as int]@ =~= old_g.rev_deps@[b as int]@.push(a));
                assert forall|i: int| 0 <= i < self.n() && i != a implies self.deps@[i]@ == old_g.deps@[i]@ by {}
                assert forall|i: int| 0 <= i < self.n() && i != b implies self.rev_deps@[i]@
                    == old_g.rev_deps@[i]@ by {}
                // bounds and duplicate-freedom of the two touched rows
                assert(self.deps@[a as int]@.no_duplicates()) by {
                    assert(!old_g.deps@[a as int]@.contains(b));
                }
                assert(self.rev_deps@[b as int]@.no_duplicates()) by {
                    assert(!old_g.rev_edge(b as int, a as int));
                    assert(!old_g.rev_deps@[b as int]@.contains(a));
                }
                // the edge relations gain exactly (a, b)
                assert forall|i: int, j: int| #[trigger] self.dep_edge(i, j) implies (
                old_g.dep_edge(i, j) || (i == a && j == b)) by {
                    if self.dep_edge(i, j) && i != a {
                        assert(self.deps@[i]@ == old_g.deps@[i]@);
                    } else if self.dep_edge(i, j) && i == a {
                        if j != b {
                            let k = choose|k: int|
                                0 <= k < self.deps@[i]@.len() && self.deps@[i]@[k] == j as usize;
                            if k < old_g.deps@[a as int]@.len() {
                                assert(old_g.deps@[a as int]@.contains(j as usize));
                            } else {
                                assert(self.deps@[i]@[k] == b);
                            }
                        }
                    }
                }
                assert forall|i: int, j: int| (old_g.dep_edge(i, j) || (i == a && j == b))
                    implies #[trigger] self.dep_edge(i, j) by {
                    if old_g.dep_edge(i, j) {
                        if i == a {
                            assert(self.deps@[i]@.contains(j as usize)) by {
                                let k = choose|k: int|
                                    0 <= k < old_g.deps@[i]@.len() && old_g.deps@[i]@[k]
                                        == j as usize;
                                assert(self.deps@[i]@[k] == j as usize);
                            }
                        } else {
                            assert(self.deps@[i]@ == old_g.deps@[i]@);
                        }
                    } else {
                        assert(self.deps@[a as int]@[old_g.deps@[a as int]@.len() as int] == b);
                    }
                }
                assert forall|i: int, j: int| #[trigger] self.rev_edge(i, j) implies (
                old_g.rev_edge(i, j) || (i == b && j == a)) by {
                    if self.rev_edge(i, j) && i != b {
                        assert(self.rev_deps@[i]@ == old_g.rev_deps@[i]@);
                    } else if self.rev_edge(i, j) && i == b {
                        if j != a {
                            let k = choose|k: int|
                                0 <= k < self.rev_deps@[i]@.len() && self.rev_deps@[i]@[k]
                                    == j as usize;
                            if k < old_g.rev_deps@[b as int]@.len() {
                                assert(old_g.rev_deps@[b as int]@.contains(j as usize));
                            } else {
                                assert(self.rev_deps@[i]@[k] == a);
                            }
                        }
                    }
                }
                assert forall|i: int, j: int| (old_g.rev_edge(i, j) || (i == b && j == a))
                    implies #[trigger] self.rev_edge(i, j) by {
                    if old_g.rev_edge(i, j) {
                        if i == b {
                            assert(self.rev_deps@[i]@.contains(j as usize)) by {
                                let k = choose|k: int|
                                    0 <= k < old_g.rev_deps@[i]@.len() && old_g.rev_deps@[i]@[k]
                                        == j as usize;
                                assert(self.rev_deps@[i]@[k] == j as usize);
                            }
                        } else {
                            assert(self.rev_deps@[i]@ == old_g.rev_deps@[i]@);
                        }
                    } else {
                        assert(self.rev_deps@[b as int]@[old_g.rev_deps@[b as int]@.len() as int]
                            == a);
                    }
                }
                assert forall|i: int, j: int| #[trigger] self.dep_edge(i, j) <==> #[trigger] self.rev_edge(j, i) by {
                    assert(old_g.dep_edge(i, j) <==> old_g.rev_edge(j, i));
                }
                assert forall|i: int, k: int|
                    0 <= i < self.n() && 0 <= k < self.deps@[i]@.len() implies (
                #[trigger] self.deps@[i]@[k]) < self.n() by {
                    if i == a as int {
                        if k < old_g.deps@[a as int]@.len() {
                            assert(self.deps@[i]@[k] == old_g.deps@[i]@[k]);
                        } else {
                            assert(self.deps@[i]@[k] == b);
                        }
                    } else {
                        assert(self.deps@[i]@ == old_g.deps@[i]@);
                    }
                }
                assert forall|i: int, k: int|
                    0 <= i < self.n() && 0 <= k < self.rev_deps@[i]@.len() implies (
                #[trigger] self.rev_deps@[i]@[k]) < self.n() by {
                    if i == b as int {
                        if k < old_g.rev_deps@[b as int]@.len() {
                            assert(self.rev_deps@[i]@[k] == old_g.rev_deps@[i]@[k]);
                        } else {
                            assert(self.rev_deps@[i]@[k] == a);
                        }
                    } else {
                        assert(self.rev_deps@[i]@ == old_g.rev_deps@[i]@);
                    }
                }
                assert forall|i: int| 0 <= i < self.n() implies !(#[trigger] self.deps@[i]@).contains(i as usize) by {
                    if self.deps@[i]@.contains(i as usize) {
                        assert(self.dep_edge(i, i));
                        assert(old_g.dep_edge(i, i) || (i == a as int && i == b as int));
                        assert(!old_g.deps@[i]@.contains(i as usize));
                    }
                }
                assert(self.deps@.len() == self.n());
                assert(self.rev_deps@.len() == self.n());
                assert forall|i: int| 0 <= i < self.n() implies (
                #[trigger] self.deps@[i]@).no_duplicates() by {
                    if i != a as int {
                        assert(self.deps@[i]@ == old_g.deps@[i]@);
                    }
                }
                assert forall|i: int| 0 <= i < self.n() implies (
                #[trigger] self.rev_deps@[i]@).no_duplicates() by {
                    if i != b as int {
                        assert(self.rev_deps@[i]@ == old_g.rev_deps@[i]@);
                    }
                }
                assert forall|i: int, j: int|
                    0 <= i < self.n() && 0 <= j < self.n() && i != j implies #[trigger] self.key_at(
                    i,
                ) != #[trigger] self.key_at(j) by {
                    assert(old_g.key_at(i) != old_g.key_at(j));
                }
            }
        } else {
            proof {
                assert(old_g.units.len() == old_g.units@.len());
                assert(old_g.dep_edge(a as int, b as int));
                assert forall|i: int, j: int| #[trigger] self.dep_edge(i, j) <==> (old_g.dep_edge(
                    i,
                    j,
                ) || (i == a && j == b)) by {}
            }
        }
    }

    /// Ensures a unit with this identity is in the table (first insertion
    /// wins) and returns its index. Internal.
    fn ensure_unit(&mut self, u: Unit) -> (r: usize)
        requires
            old(self).wf(),
        ensures
            final(self).wf(),
            final(self).n() >= old(self).n(),
            (r as int) < final(self).n(),
            final(self).key_at(r as int) == u@.key,
            forall|t: int|
                0 <= t < old(self).n() ==> #[trigger] final(self).unit_at_spec(t) == old(self).unit_at_spec(t),
            forall|k: UnitKeyView|
                #[trigger] final(self).has_key(k) <==> old(self).has_key(k) || k == u@.key,
            !old(self).has_key(u@.key) ==> final(self).n() == old(self).n() + 1 && final(self).unit_at_spec(old(self).n() as int) == u@,
            old(self).has_key(u@.key) ==> *final(self) == *old(self),
            forall|i: int, j: int| #[trigger] final(self).dep_edge(i, j) <==> old(self).dep_edge(
                i,
                j,
            ),
            forall|k1: UnitKeyView, k2: UnitKeyView|
                #[trigger] final(self).edge_between(k1, k2) <==> old(self).edge_between(k1, k2),
    {
        let ghost g0 = *self;
        let ghost uview = u@;
        let r = match self.find_key(&u.key) {
            Some(i) => i,
            None => {
                let i = self.units.len();
                self.push_node(u);
                proof {
                    assert forall|k: UnitKeyView| #[trigger] self.has_key(k) <==> g0.has_key(k)
                        || k == uview.key by {
                        if self.has_key(k) {
                            let t = choose|t: int| 0 <= t < self.n() && self.key_at(t) == k;
                            if t < g0.n() {
                                assert(g0.key_at(t) == k);
                            } else {
                                assert(self.key_at(t) == uview.key);
                            }
                        }
                        if g0.has_key(k) {
                            let t = choose|t: int| 0 <= t < g0.n() && g0.key_at(t) == k;
                            assert(self.key_at(t) == k);
                        }
                        if k == uview.key {
                            assert(self.key_at(g0.n() as int) == uview.key);
                        }
                    }
                }
                i
            },
        };
        proof {
            assert forall|k1: UnitKeyView, k2: UnitKeyView| #[trigger] self.edge_between(k1, k2)
                <==> g0.edge_between(k1, k2) by {
                if self.edge_between(k1, k2) {
                    let (p, q) = choose|p: int, q: int|
                        #[trigger] self.dep_edge(p, q) && self.key_at(p) == k1 && self.key_at(q)
                            == k2;
                    assert(g0.dep_edge(p, q));
                    assert(g0.edge_between(k1, k2));
                }
                if g0.edge_between(k1, k2) {
                    let (p, q) = choose|p: int, q: int|
                        #[trigger] g0.dep_edge(p, q) && g0.key_at(p) == k1 && g0.key_at(q) == k2;
                    assert(self.dep_edge(p, q));
                    assert(self.edge_between(k1, k2));
                }
            }
        }
        r
    }

    /// Inserts one dependency unit of the unit at `a` and the edge to it,
    /// dropping a self-edge when the identities coalesce. Internal.
    fn add_dep_unit(&mut self, a: usize, d: Unit)
        requires
            old(self).wf(),
            a < old(self).n(),
        ensures
            final(self).wf(),
            final(self).n() >= old(self).n(),
            forall|t: int|
                0 <= t < old(self).n() ==> #[trigger] final(self).unit_at_spec(t) == old(self).unit_at_spec(t),
            forall|k: UnitKeyView|
                #[trigger] final(self).has_key(k) <==> old(self).has_key(k) || k == d@.key,
            forall|k1: UnitKeyView, k2: UnitKeyView|
                #[trigger] final(self).edge_between(k1, k2) <==> old(self).edge_between(k1, k2) || (
                k1 == old(self).key_at(a as int) && k2 == d@.key && k1 != k2),
    {
        let ghost g0 = *self;
        let ghost dview = d@;
        let b = self.ensure_unit(d);
        let ghost mid = *self;
        proof {
            assert(self.unit_at_spec(a as int) == g0.unit_at_spec(a as int));
            assert(self.key_at(a as int) == g0.key_at(a as int));
        }
        if a != b {
            self.add_edge(a, b);
            proof {
                assert forall|k1: UnitKeyView, k2: UnitKeyView| #[trigger] self.edge_between(
                    k1,
                    k2,
                ) <==> mid.edge_between(k1, k2) || (k1 == g0.key_at(a as int) && k2 == dview.key
                    && k1 != k2) by {
                    if self.edge_between(k1, k2) {
                        let (p, q) = choose|p: int, q: int|
                            #[trigger] self.dep_edge(p, q) && self.key_at(p) == k1 && self.key_at(
                                q,
                            ) == k2;
                        if mid.dep_edge(p, q) {
                            assert(mid.edge_between(k1, k2));
                        } else {
                            assert(p == a as int && q == b as int);
                            assert(mid.key_at(a as int) != mid.key_at(b as int));
                        }
                    }
                    if mid.edge_between(k1, k2) {
                        let (p, q) = choose|p: int, q: int|
                            #[trigger] mid.dep_edge(p, q) && mid.key_at(p) == k1 && mid.key_at(q)
                                == k2;
                        assert(self.dep_edge(p, q));
                        assert(self.edge_between(k1, k2));
                    }
                    if k1 == g0.key_at(a as int) && k2 == dview.key && k1 != k2 {
                        assert(self.dep_edge(a as int, b as int));
                        assert(self.edge_between(k1, k2));
                    }
                }
            }
        } else {
            proof {
                assert(g0.key_at(a as int) == dview.key);
            }
        }
        proof {
            assert forall|t: int|
                0 <= t < g0.n() implies #[trigger] self.unit_at_spec(t) == g0.unit_at_spec(t) by {
                assert(mid.unit_at_spec(t) == g0.unit_at_spec(t));
                assert(self.units@ == mid.units@);
            }
            assert forall|k: UnitKeyView| #[trigger] self.has_key(k) <==> mid.has_key(k) by {
                assert(self.units@ == mid.units@);
                if self.has_key(k) {
                    let t = choose|t: int| 0 <= t < self.n() && self.key_at(t) == k;
                    assert(mid.key_at(t) == k);
                }
                if mid.has_key(k) {
                    let t = choose|t: int| 0 <= t < mid.n() && mid.key_at(t) == k;
                    assert(self.key_at(t) == k);
                }
            }
        }
    }

    /// Streaming insertion from build-tool introspection: one unit along
    /// with its direct dependency units, which may be unseen so far. A
    /// unit whose identity is new is appended as given; an identity
    /// already in the table keeps the unit stored first. An edge is
    /// recorded from `unit` to each dependency, self-edges (identities
    /// coalescing) dropped. The class invariant holds after every call,
    /// existing units keep their indices, and nothing is ever deleted.
    pub fn add(&mut self, unit: Unit, deps: Vec<Unit>)
        requires
            old(self).wf(),
        ensures
            final(self).wf(),
            final(self).n() >= old(self).n(),
            forall|t: int|
                0 <= t < old(self).n() ==> #[trigger] final(self).unit_at_spec(t) == old(self).unit_at_spec(t),
            forall|k: UnitKeyView|
                #[trigger] final(self).has_key(k) <==> old(self).has_key(k) || k == unit@.key || (
                exists|d: int| 0 <= d < deps@.len() && (#[trigger] deps@[d])@.key == k),
            !old(self).has_key(unit@.key) ==> final(self).unit_at_spec(old(self).n() as int)
                == unit@,
            forall|k1: UnitKeyView, k2: UnitKeyView|
                #[trigger] final(self).edge_between(k1, k2) <==> old(self).edge_between(k1, k2) || (
                k1 == unit@.key && k1 != k2 && (exists|d: int|
                    0 <= d < deps@.len() && (#[trigger] deps@[d])@.key == k2)),
    {
        let ghost g0 = *self;
        let ghost uview = unit@;
        let ghost dv = deps@;
        let a = self.ensure_unit(unit);
        let mut rest = deps;
        let mut di: usize = 0;
        let ghost m = dv.len();
        proof {
            assert(rest.len() == rest@.len());
            assert(m <= usize::MAX);
            assert(dv.skip(0) =~= dv);
        }
        while rest.len() > 0
            invariant
                self.wf(),
                m == dv.len(),
                m <= usize::MAX,
                di <= m,
                rest@ =~= dv.skip(di as int),
                rest@.len() == m - di,
                self.n() >= g0.n(),
                (a as int) < self.n(),
                self.key_at(a as int) == uview.key,
                forall|t: int|
                    0 <= t < g0.n() ==> #[trigger] self.unit_at_spec(t) == g0.unit_at_spec(t),
                forall|k: UnitKeyView|
                    #[trigger] self.has_key(k) <==> g0.has_key(k) || k == uview.key || (exists|
                        e: int,
                    |
                        0 <= e < di && (#[trigger] dv[e])@.key == k),
                !g0.has_key(uview.key) ==> self.unit_at_spec(g0.n() as int) == uview,
                forall|k1: UnitKeyView, k2: UnitKeyView|
                    #[trigger] self.edge_between(k1, k2) <==> g0.edge_between(k1, k2) || (k1
                        == uview.key && k1 != k2 && (exists|e: int|
                        0 <= e < di && (#[trigger] dv[e])@.key == k2)),
            decreases rest@.len(),
        {
            let ghost pre = *self;
            let ghost rest_before = rest@;
            let d = rest.remove(0);
            proof {
                assert(rest_before == dv.skip(di as int));
                assert(dv.skip(di as int) == dv.subrange(di as int, dv.len() as int));
                assert(dv.subrange(di as int, dv.len() as int)[0] == dv[di as int]);
                assert(d == dv[di as int]);
                assert(rest@ == rest_before.remove(0));
                assert(rest_before.remove(0) =~= dv.skip(di as int + 1)) by {
                    assert(rest_before.remove(0).len() == m - di - 1);
                    assert(dv.skip(di as int + 1).len() == m - di - 1);
                    assert forall|j: int|
                        0 <= j < m - di - 1 implies rest_before.remove(0)[j] == dv.skip(
                        di as int + 1,
                    )[j] by {
                        assert(rest_before.remove(0)[j] == rest_before[j + 1]);
                        assert(rest_before[j + 1] == dv.subrange(di as int, dv.len() as int)[j
                            + 1]);
                        assert(dv.subrange(di as int, dv.len() as int)[j + 1] == dv[di + 1 + j]);
                        assert(dv.skip(di as int + 1)[j] == dv.subrange(
                            di as int + 1,
                            dv.len() as int,
                        )[j]);
                        assert(dv.subrange(di as int + 1, dv.len() as int)[j] == dv[di + 1 + j]);
                    }
                }
            }
            let ghost dview = d@;
            self.add_dep_unit(a, d);
            proof {
                assert(pre.key_at(a as int) == uview.key);
                assert(self.unit_at_spec(a as int) == pre.unit_at_spec(a as int));
                assert(self.key_at(a as int) == uview.key);
                if !g0.has_key(uview.key) {
                    assert((g0.n() as int) < pre.n()) by {
                        if pre.n() == g0.n() {
                            assert(pre.unit_at_spec(a as int) == g0.unit_at_spec(a as int));
                            assert(g0.key_at(a as int) == uview.key);
                        }
                    }
                    assert(self.unit_at_spec(g0.n() as int) == pre.unit_at_spec(g0.n() as int));
                }
                assert forall|k: UnitKeyView| #[trigger] self.has_key(k) <==> g0.has_key(k) || k
                    == uview.key || (exists|e: int|
                    0 <= e < di + 1 && (#[trigger] dv[e])@.key == k) by {
                    if self.has_key(k) && k != dview.key {
                        assert(pre.has_key(k));
                    }
                    if self.has_key(k) && k == dview.key {
                        assert(dv[di as int]@.key == k);
                    }
                    if exists|e: int| 0 <= e < di + 1 && (#[trigger] dv[e])@.key == k {
                        let e = choose|e: int| 0 <= e < di + 1 && (#[trigger] dv[e])@.key == k;
                        if e < di {
                            assert(pre.has_key(k));
                        } else {
                            assert(k == dview.key);
                        }
                    }
                    if g0.has_key(k) || k == uview.key {
                        assert(pre.has_key(k));
                    }
                }
                assert forall|k1: UnitKeyView, k2: UnitKeyView| #[trigger] self.edge_between(
                    k1,
                    k2,
                ) <==> g0.edge_between(k1, k2) || (k1 == uview.key && k1 != k2 && (exists|e: int|
                    0 <= e < di + 1 && (#[trigger] dv[e])@.key == k2)) by {
                    if self.edge_between(k1, k2) && !pre.edge_between(k1, k2) {
                        assert(k1 == uview.key && k2 == dview.key && k1 != k2);
                        assert(dv[di as int]@.key == k2);
                    }
                    if g0.edge_between(k1, k2) {
                        assert(pre.edge_between(k1, k2));
                    }
                    if k1 == uview.key && k1 != k2 && (exists|e: int|
                        0 <= e < di + 1 && (#[trigger] dv[e])@.key == k2) {
                        let e = choose|e: int| 0 <= e < di + 1 && (#[trigger] dv[e])@.key == k2;
                        if e < di {
                            assert(pre.edge_between(k1, k2));
                        } else {
                            assert(k2 == dview.key);
                        }
                    }
                }
            }
            di = di + 1;
        }
        proof {
            assert(dv.skip(m as int) =~= Seq::<Unit>::empty());
            assert(di == m);
        }
    }

    /// Caches the replayable invocation of the unit with identity `key`.
    /// Returns whether the unit exists; nothing else of the graph changes.
    pub fn cache_compiler_job(&mut self, key: &UnitKey, cmd: &ProcessSpec) -> (r: bool)
        requires
            old(self).wf(),
        ensures
            final(self).wf(),
            r == old(self).has_key(key@),
            final(self).n() == old(self).n(),
            final(self).deps@ == old(self).deps@,
            final(self).rev_deps@ == old(self).rev_deps@,
            forall|i: int|
                0 <= i < final(self).n() && old(self).key_at(i) != key@
                    ==> #[trigger] final(self).unit_at_spec(i) == old(self).unit_at_spec(i),
            forall|i: int|
                0 <= i < final(self).n() && old(self).key_at(i) == key@
                    ==> #[trigger] final(self).unit_at_spec(i) == (UnitView {
                    command: Some(cmd@),
                    ..old(self).unit_at_spec(i)
                }),
    {
        let ghost old_g = *self;
        match self.find_key(key) {
            Some(i) => {
                self.units[i].command = Some(cmd.clone_spec());
                proof {
                    assert(self.units@ =~= old_g.units@.update(i as int, self.units@[i as int]));
                    assert forall|p: int, q: int| #[trigger] self.dep_edge(p, q) <==> old_g.dep_edge(p, q) by {}
                    assert forall|p: int, q: int| #[trigger] self.rev_edge(p, q) <==> old_g.rev_edge(p, q) by {}
                    assert forall|p: int|
                        0 <= p < self.n() implies #[trigger] self.key_at(p) == old_g.key_at(p) by {}
                    assert forall|p: int|
                        0 <= p < self.n() && old_g.key_at(p) == key@ implies p == i as int by {
                        if p != i as int {
                            assert(old_g.key_at(p) != old_g.key_at(i as int));
                        }
                    }
                }
                true
            },
            None => false,
        }
    }
}

/// Membership of an index in an adjacency row.
pub fn contains_idx(v: &Vec<usize>, x: usize) -> (r: bool)
    ensures
        r == v@.contains(x),
{
    let n = v.len();
    let mut i: usize = 0;
    while i < n
        invariant
            i <= n,
            n == v@.len(),
            forall|k: int| 0 <= k < i ==> v@[k] != x,
        decreases n - i,
    {
        if v[i] == x {
            return true;
        }
        i = i + 1;
    }
    false
}

} // verus!
