//! Reconstructing a serialized plan from per-crate compiler output.
//!
//! After a full build, the build tool reports for every compiled crate
//! its identity (a disambiguator pair), the identities of the external
//! crates it depends on, and the invocation that produced it. This
//! module turns that report into plan records: each crate becomes one
//! record whose dependency indices point at the first reported crate
//! carrying the referenced identity (a reference to an unreported crate
//! — one outside the report, such as the standard library — contributes
//! no edge), and whose working directory is made absolute against the
//! build directory.

use vstd::prelude::*;
use vstd::string::StrSliceExecFns;
use vstd::string::StringExecFns;

use crate::graph::BuildGraph;
use crate::load::dedup_by_key;
use crate::load::raw_deps_ok;
use crate::load::raw_edge;
use crate::load::raw_views;
use crate::path::AbsPath;
use crate::path::clone_strings;
use crate::path::is_absolute_text;
use crate::unit::RawInvocation;
use crate::unit::RawInvocationView;
use crate::unit::RawPlan;
use crate::unit::UnitKeyView;
use crate::unit::unit_view_of_raw;

verus! {

broadcast use vstd::std_specs::vec::group_vec_axioms;

/// Spec-level value of a [`CrateAnalysis`].
pub ghost struct CrateAnalysisView {
    pub disambiguator: (u64, u64),
    pub external_crates: Seq<(u64, u64)>,
    pub directory: Seq<char>,
    pub program: Seq<char>,
    pub arguments: Seq<Seq<char>>,
    pub output: Seq<char>,
}

/// What the planner reads of one crate's compiler output: the crate's
/// identity, the identities of its external dependencies, and the
/// invocation that compiled it.
pub struct CrateAnalysis {
    pub disambiguator: (u64, u64),
    pub external_crates: Vec<(u64, u64)>,
    pub directory: String,
    pub program: String,
    pub arguments: Vec<String>,
    pub output: String,
}

impl View for CrateAnalysis {
    type V = CrateAnalysisView;

    open spec fn view(&self) -> CrateAnalysisView {
        CrateAnalysisView {
            disambiguator: self.disambiguator,
            external_crates: self.external_crates@,
            directory: self.directory@,
            program: self.program@,
            arguments: self.arguments.deep_view(),
            output: self.output@,
        }
    }
}

/// The views of a report.
pub open spec fn analysis_views(s: Seq<CrateAnalysis>) -> Seq<CrateAnalysisView> {
    s.map_values(|a: CrateAnalysis| a@)
}

/// Some reported crate carries identity `d`.
pub open spec fn has_id(all: Seq<CrateAnalysisView>, d: (u64, u64)) -> bool {
    exists|j: int| 0 <= j < all.len() && (#[trigger] all[j]).disambiguator == d
}

/// `i` is the first report index carrying identity `d`.
pub open spec fn is_first_with_id(all: Seq<CrateAnalysisView>, d: (u64, u64), i: int) -> bool {
    &&& 0 <= i < all.len()
    &&& all[i].disambiguator == d
    &&& forall|j: int| 0 <= j < i ==> (#[trigger] all[j]).disambiguator != d
}

/// Index of the first report carrying identity `d` (meaningful when some
/// report carries it).
pub open spec fn id_index(all: Seq<CrateAnalysisView>, d: (u64, u64)) -> int
    decreases all.len(),
{
    if all.len() == 0 {
        0
    } else if all[0].disambiguator == d {
        0
    } else {
        1 + id_index(all.skip(1), d)
    }
}

/// When some report carries `d`, `id_index` lands on it.
proof fn lemma_id_index_bound(all: Seq<CrateAnalysisView>, d: (u64, u64))
    requires
        has_id(all, d),
    ensures
        0 <= id_index(all, d) < all.len(),
        all[id_index(all, d)].disambiguator == d,
    decreases all.len(),
{
    if all[0].disambiguator == d {
    } else {
        assert(has_id(all.skip(1), d)) by {
            let j = choose|j: int| 0 <= j < all.len() && (#[trigger] all[j]).disambiguator == d;
            assert(j != 0);
            assert(all.skip(1)[j - 1] == all[j]);
        }
        lemma_id_index_bound(all.skip(1), d);
        assert(all[1 + id_index(all.skip(1), d)] == all.skip(1)[id_index(all.skip(1), d)]);
    }
}

/// The first matching index is the one `id_index` names.
proof fn lemma_id_index_first(all: Seq<CrateAnalysisView>, d: (u64, u64), i: int)
    requires
        is_first_with_id(all, d, i),
    ensures
        id_index(all, d) == i,
        has_id(all, d),
    decreases all.len(),
{
    if i == 0 {
    } else {
        assert(all[0].disambiguator != d);
        assert(is_first_with_id(all.skip(1), d, i - 1)) by {
            assert(all.skip(1)[i - 1] == all[i]);
            assert forall|j: int|
                0 <= j < i - 1 implies (#[trigger] all.skip(1)[j]).disambiguator != d by {
                assert(all.skip(1)[j] == all[j + 1]);
            }
        }
        lemma_id_index_first(all.skip(1), d, i - 1);
    }
}

/// The dependency indices a report's external crates resolve to: the
/// first report of each referenced identity, references to unreported
/// crates dropped.
pub open spec fn dep_indices(ext: Seq<(u64, u64)>, all: Seq<CrateAnalysisView>) -> Seq<usize>
    decreases ext.len(),
{
    if ext.len() == 0 {
        Seq::empty()
    } else {
        (if has_id(all, ext[0]) {
            seq![id_index(all, ext[0]) as usize]
        } else {
            Seq::<usize>::empty()
        }) + dep_indices(ext.skip(1), all)
    }
}

/// Every resolved dependency index points into the report.
proof fn lemma_dep_indices_bound(ext: Seq<(u64, u64)>, all: Seq<CrateAnalysisView>)
    requires
        all.len() <= usize::MAX,
    ensures
        forall|k: int|
            0 <= k < dep_indices(ext, all).len() ==> (#[trigger] dep_indices(ext, all)[k] as int)
                < all.len(),
    decreases ext.len(),
{
    if ext.len() > 0 {
        lemma_dep_indices_bound(ext.skip(1), all);
        if has_id(all, ext[0]) {
            lemma_id_index_bound(all, ext[0]);
        }
        assert forall|k: int|
            0 <= k < dep_indices(ext, all).len() implies (#[trigger] dep_indices(ext, all)[k]
            as int) < all.len() by {
            let head: Seq<usize> = if has_id(all, ext[0]) {
                seq![id_index(all, ext[0]) as usize]
            } else {
                Seq::<usize>::empty()
            };
            if k >= head.len() {
                assert(dep_indices(ext, all)[k] == dep_indices(ext.skip(1), all)[k - head.len()]);
            }
        }
    }
}

/// One unfolding step of `dep_indices`, phrased over an index.
proof fn lemma_dep_indices_step(ext: Seq<(u64, u64)>, all: Seq<CrateAnalysisView>, t: int)
    requires
        0 <= t < ext.len(),
    ensures
        dep_indices(ext.skip(t), all) == (if has_id(all, ext[t]) {
            seq![id_index(all, ext[t]) as usize]
        } else {
            Seq::<usize>::empty()
        }) + dep_indices(ext.skip(t + 1), all),
{
    assert(ext.skip(t).len() == ext.len() - t);
    assert(ext.skip(t)[0] == ext[t]);
    assert(ext.skip(t).skip(1) =~= ext.skip(t + 1));
}

/// The text of an absolute path: `/c0/c1/...` (empty for the root).
pub open spec fn render_path(p: Seq<Seq<char>>) -> Seq<char>
    decreases p.len(),
{
    if p.len() == 0 {
        Seq::empty()
    } else {
        render_path(p.drop_last()) + seq!['/'] + p.last()
    }
}

/// The record a report converts to.
pub open spec fn raw_record_of(
    a: CrateAnalysisView,
    all: Seq<CrateAnalysisView>,
    build_dir: Seq<Seq<char>>,
) -> RawInvocationView {
    RawInvocationView {
        deps: dep_indices(a.external_crates, all),
        outputs: seq![a.output],
        links: Seq::empty(),
        program: a.program,
        args: a.arguments,
        env: Seq::empty(),
        cwd: Some(
            if is_absolute_text(a.directory) {
                a.directory
            } else {
                render_path(build_dir) + seq!['/'] + a.directory
            },
        ),
    }
}

/// The records of a whole report.
pub open spec fn records_of_analysis(
    all: Seq<CrateAnalysisView>,
    build_dir: Seq<Seq<char>>,
) -> Seq<RawInvocationView> {
    Seq::new(all.len(), |i: int| raw_record_of(all[i], all, build_dir))
}

/// Renders an absolute path as text.
fn render_path_text(p: &AbsPath) -> (r: String)
    ensures
        r@ == render_path(p@),
{
    let mut r = String::new();
    let n = p.components.len();
    let mut i: usize = 0;
    proof {
        assert(p@.take(0) =~= Seq::<Seq<char>>::empty());
    }
    while i < n
        invariant
            i <= n,
            n == p.components@.len(),
            n == p@.len(),
            r@ == render_path(p@.take(i as int)),
        decreases n - i,
    {
        proof {
            reveal_strlit("/");
        }
        r.append("/");
        r.append(p.components[i].as_str());
        proof {
            assert(p@.take(i as int + 1).drop_last() =~= p@.take(i as int));
            assert(p@.take(i as int + 1).last() == p@[i as int]);
            assert(r@ =~= render_path(p@.take(i as int)) + seq!['/'] + p@[i as int]);
        }
        i = i + 1;
    }
    proof {
        assert(p@.take(n as int) =~= p@);
    }
    r
}

/// Is the text written in absolute form?
fn text_is_absolute(text: &str) -> (r: bool)
    ensures
        r == is_absolute_text(text@),
{
    let n = text.unicode_len();
    n > 0 && text.get_char(0) == '/'
}

/// Finds the first report carrying identity `d`.
fn find_crate(analysis: &Vec<CrateAnalysis>, d: (u64, u64)) -> (r: Option<usize>)
    ensures
        match r {
            Some(i) => is_first_with_id(analysis_views(analysis@), d, i as int),
            None => !has_id(analysis_views(analysis@), d),
        },
{
    let ghost all = analysis_views(analysis@);
    let n = analysis.len();
    let mut i: usize = 0;
    while i < n
        invariant
            i <= n,
            n == analysis@.len(),
            all == analysis_views(analysis@),
            forall|j: int| 0 <= j < i ==> (#[trigger] all[j]).disambiguator != d,
        decreases n - i,
    {
        let (a, b) = analysis[i].disambiguator;
        if a == d.0 && b == d.1 {
            proof {
                assert(all[i as int].disambiguator == d);
            }
            return Some(i);
        }
        proof {
            assert(all[i as int].disambiguator != d);
        }
        i = i + 1;
    }
    None
}

/// Converts a report into plan records, as [`raw_record_of`] describes.
/// Every dependency index of the result resolves within the record list.
pub fn analysis_to_plan(analysis: &Vec<CrateAnalysis>, build_dir: &AbsPath) -> (r: RawPlan)
    ensures
        raw_views(r.invocations@) == records_of_analysis(analysis_views(analysis@), build_dir@),
        raw_deps_ok(raw_views(r.invocations@)),
{
    let ghost all = analysis_views(analysis@);
    let n = analysis.len();
    let mut invocations: Vec<RawInvocation> = Vec::new();
    let mut i: usize = 0;
    while i < n
        invariant
            i <= n,
            n == analysis@.len(),
            all == analysis_views(analysis@),
            all.len() == n,
            invocations@.len() == i,
            forall|t: int|
                0 <= t < i ==> (#[trigger] invocations@[t])@ == records_of_analysis(
                    all,
                    build_dir@,
                )[t],
        decreases n - i,
    {
        let a = &analysis[i];
        proof {
            assert(a@ == all[i as int]);
        }
        // resolve dependency identities to record indices
        let ghost ext = a@.external_crates;
        let m = a.external_crates.len();
        let mut deps: Vec<usize> = Vec::new();
        let mut t: usize = 0;
        proof {
            assert(ext.skip(0) =~= ext);
        }
        while t < m
            invariant
                t <= m,
                m == a.external_crates@.len(),
                ext == a@.external_crates,
                all == analysis_views(analysis@),
                a@ == all[i as int],
                i < n,
                n == analysis@.len(),
                deps@ + dep_indices(ext.skip(t as int), all) == dep_indices(ext, all),
            decreases m - t,
        {
            proof {
                lemma_dep_indices_step(ext, all, t as int);
            }
            let d = a.external_crates[t];
            match find_crate(analysis, d) {
                Some(j) => {
                    proof {
                        lemma_id_index_first(all, d, j as int);
                        assert(has_id(all, d));
                    }
                    let ghost before = deps@;
                    deps.push(j);
                    proof {
                        assert(deps@ =~= before + seq![id_index(all, ext[t as int]) as usize]);
                        assert(deps@ + dep_indices(ext.skip(t as int + 1), all) =~= before + (seq![
                            id_index(all, ext[t as int]) as usize,
                        ] + dep_indices(ext.skip(t as int + 1), all)));
                    }
                },
                None => {
                    proof {
                        assert(Seq::<usize>::empty() + dep_indices(ext.skip(t as int + 1), all)
                            =~= dep_indices(ext.skip(t as int + 1), all));
                    }
                },
            }
            t = t + 1;
        }
        proof {
            assert(ext.skip(m as int) =~= Seq::<(u64, u64)>::empty());
            assert(deps@ + Seq::<usize>::empty() =~= deps@);
            assert(deps@ == dep_indices(ext, all));
        }
        // make the working directory absolute against the build directory
        let cwd: String = if text_is_absolute(a.directory.as_str()) {
            a.directory.clone()
        } else {
            let mut joined = render_path_text(build_dir);
            proof {
                reveal_strlit("/");
            }
            joined.append("/");
            joined.append(a.directory.as_str());
            proof {
                assert(joined@ =~= render_path(build_dir@) + seq!['/'] + a@.directory);
            }
            joined
        };
        let mut outputs: Vec<String> = Vec::new();
        outputs.push(a.output.clone());
        let record = RawInvocation {
            deps,
            outputs,
            links: Vec::new(),
            program: a.program.clone(),
            args: clone_strings(&a.arguments),
            env: Vec::new(),
            cwd: Some(cwd),
        };
        proof {
            assert(record@.outputs =~= seq![a@.output]);
            assert(record@.links =~= Seq::<(Seq<char>, Seq<char>)>::empty());
            assert(record@.env =~= Seq::<(Seq<char>, Seq<char>)>::empty());
            assert(record@ == raw_record_of(a@, all, build_dir@));
        }
        let ghost before = invocations@;
        invocations.push(record);
        proof {
            assert forall|tt: int|
                0 <= tt < i + 1 implies (#[trigger] invocations@[tt])@ == records_of_analysis(
                all,
                build_dir@,
            )[tt] by {
                if tt < i {
                    assert(invocations@[tt] == before[tt]);
                }
            }
        }
        i = i + 1;
    }
    proof {
        assert(raw_views(invocations@) =~= records_of_analysis(all, build_dir@));
        assert forall|p: int, q: int|
            0 <= p < raw_views(invocations@).len() && 0 <= q < raw_views(
                invocations@,
            )[p].deps.len() implies ((#[trigger] raw_views(invocations@)[p].deps[q]) as int)
            < raw_views(invocations@).len() by {
            assert(analysis.len() == analysis@.len());
            lemma_dep_indices_bound(all[p].external_crates, all);
            assert(raw_views(invocations@)[p].deps == dep_indices(all[p].external_crates, all));
        }
    }
    RawPlan { invocations }
}

impl BuildGraph {
    /// Builds the graph of a full build's per-crate compiler output: the
    /// report becomes plan records ([`raw_record_of`]) and the records a
    /// graph. Every dependency index resolves by construction, so the
    /// load always succeeds.
    pub fn plan_from_analysis(analysis: &Vec<CrateAnalysis>, build_dir: &AbsPath) -> (r: Result<
        BuildGraph,
        (),
    >)
        ensures
            r is Ok,
            r matches Ok(g) ==> {
                &&& g.wf()
                &&& g.n() == dedup_by_key(
                    records_of_analysis(analysis_views(analysis@), build_dir@),
                ).len()
                &&& forall|t: int|
                    0 <= t < g.n() ==> #[trigger] g.unit_at_spec(t) == unit_view_of_raw(
                        dedup_by_key(
                            records_of_analysis(analysis_views(analysis@), build_dir@),
                        )[t],
                    )
                &&& forall|k1: UnitKeyView, k2: UnitKeyView|
                    #[trigger] g.edge_between(k1, k2) <==> raw_edge(
                        records_of_analysis(analysis_views(analysis@), build_dir@),
                        k1,
                        k2,
                    )
            },
    {
        let plan = analysis_to_plan(analysis, build_dir);
        match BuildGraph::try_from_raw(plan) {
            Ok(g) => Ok(g),
            Err(e) => {
                proof {
                    assert(false);
                }
                Err(e)
            },
        }
    }
}

} // verus!
