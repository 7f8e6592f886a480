//! The unit model: one schedulable compiler invocation.
//!
//! A [`Unit`] pairs a stable identity ([`UnitKey`]) with an optional cached
//! process specification ([`ProcessSpec`]) and the data the dirty-file
//! resolver needs (a resolved primary source path and a build-script flag).
//! [`RawInvocation`] is one record of a serialized plan, whose dependencies
//! are indices into the same record list.

use vstd::prelude::*;
use vstd::string::StrSliceExecFns;

use crate::path::AbsPath;
use crate::path::clone_strings;
use crate::path::is_absolute_text;
use crate::path::segments_of;
use crate::path::split_segments;

verus! {

/// Spec-level value of a [`ProcessSpec`].
pub ghost struct ProcessSpecView {
    pub program: Seq<char>,
    pub args: Seq<Seq<char>>,
    pub env: Seq<(Seq<char>, Seq<char>)>,
    pub cwd: Option<Seq<char>>,
}

/// A replayable process specification: program, ordered argument list,
/// environment entries in a canonical order, optional working directory.
/// Nothing in this crate ever alters a cached specification.
pub struct ProcessSpec {
    pub program: String,
    pub args: Vec<String>,
    pub env: Vec<(String, String)>,
    pub cwd: Option<String>,
}

impl View for ProcessSpec {
    type V = ProcessSpecView;

    open spec fn view(&self) -> ProcessSpecView {
        ProcessSpecView {
            program: self.program@,
            args: self.args.deep_view(),
            env: self.env.deep_view(),
            cwd: self.cwd.deep_view(),
        }
    }
}

/// Spec-level value of a [`UnitKey`].
pub ghost struct UnitKeyView {
    pub parts: Seq<Seq<char>>,
    pub env: Seq<(Seq<char>, Seq<char>)>,
}

/// The stable identity of a unit. For a unit loaded from a serialized plan
/// the identity is content-derived: `parts` holds the program followed by
/// the argument list, and `env` the environment entries. A caller feeding
/// the graph from build-tool introspection may instead put any stable
/// token list here (for example package identity, target and compile mode).
pub struct UnitKey {
    pub parts: Vec<String>,
    pub env: Vec<(String, String)>,
}

impl View for UnitKey {
    type V = UnitKeyView;

    open spec fn view(&self) -> UnitKeyView {
        UnitKeyView { parts: self.parts.deep_view(), env: self.env.deep_view() }
    }
}

/// Spec-level value of a [`Unit`].
pub ghost struct UnitView {
    pub key: UnitKeyView,
    pub command: Option<ProcessSpecView>,
    pub outputs: Seq<Seq<char>>,
    pub links: Seq<(Seq<char>, Seq<char>)>,
    pub src_path: Option<Seq<Seq<char>>>,
    pub build_script: bool,
}

/// One schedulable build step. `command` is the cached invocation, absent
/// for a unit that was only ever seen as somebody's dependency; `src_path`
/// is the resolved primary source file used by the dirty-file heuristic;
/// `build_script` marks units that are matched by exact file equality and
/// force delegation to the external build tool when dirty.
pub struct Unit {
    pub key: UnitKey,
    pub command: Option<ProcessSpec>,
    pub outputs: Vec<String>,
    pub links: Vec<(String, String)>,
    pub src_path: Option<AbsPath>,
    pub build_script: bool,
}

/// The view of an optional path.
pub open spec fn opt_path_view(p: Option<AbsPath>) -> Option<Seq<Seq<char>>> {
    match p {
        Some(q) => Some(q@),
        None => None,
    }
}

/// The view of an optional process specification.
pub open spec fn opt_spec_view(c: Option<ProcessSpec>) -> Option<ProcessSpecView> {
    match c {
        Some(s) => Some(s@),
        None => None,
    }
}

impl View for Unit {
    type V = UnitView;

    open spec fn view(&self) -> UnitView {
        UnitView {
            key: self.key@,
            command: opt_spec_view(self.command),
            outputs: self.outputs.deep_view(),
            links: self.links.deep_view(),
            src_path: opt_path_view(self.src_path),
            build_script: self.build_script,
        }
    }
}

/// Spec-level value of a [`RawInvocation`].
pub ghost struct RawInvocationView {
    pub deps: Seq<usize>,
    pub outputs: Seq<Seq<char>>,
    pub links: Seq<(Seq<char>, Seq<char>)>,
    pub program: Seq<char>,
    pub args: Seq<Seq<char>>,
    pub env: Seq<(Seq<char>, Seq<char>)>,
    pub cwd: Option<Seq<char>>,
}

/// One record of a serialized plan. `deps` are indices into the list of
/// records the plan was made of.
pub struct RawInvocation {
    pub deps: Vec<usize>,
    pub outputs: Vec<String>,
    pub links: Vec<(String, String)>,
    pub program: String,
    pub args: Vec<String>,
    pub env: Vec<(String, String)>,
    pub cwd: Option<String>,
}

impl View for RawInvocation {
    type V = RawInvocationView;

    open spec fn view(&self) -> RawInvocationView {
        RawInvocationView {
            deps: self.deps@,
            outputs: self.outputs.deep_view(),
            links: self.links.deep_view(),
            program: self.program@,
            args: self.args.deep_view(),
            env: self.env.deep_view(),
            cwd: self.cwd.deep_view(),
        }
    }
}

/// A serialized plan: an ordered list of raw invocation records.
pub struct RawPlan {
    pub invocations: Vec<RawInvocation>,
}

/// The content-derived identity of a raw record.
pub open spec fn raw_key_view(r: RawInvocationView) -> UnitKeyView {
    UnitKeyView { parts: seq![r.program] + r.args, env: r.env }
}

/// A component ends in the `.rs` extension (and has a stem).
pub open spec fn ends_with_rs(c: Seq<char>) -> bool {
    c.len() > 3 && c[c.len() - 3] == '.' && c[c.len() - 2] == 'r' && c[c.len() - 1] == 's'
}

/// The token names a `.rs` file (its last path component has the extension).
pub open spec fn is_rs_arg(a: Seq<char>) -> bool {
    segments_of(a).len() > 0 && ends_with_rs(segments_of(a).last())
}

/// The program token names the compiler (its last path component).
pub open spec fn is_rustc_program(p: Seq<char>) -> bool {
    segments_of(p).len() > 0 && segments_of(p).last() == "rustc"@
}

/// The first argument naming a `.rs` file, if any.
pub open spec fn first_rs(args: Seq<Seq<char>>) -> Option<Seq<char>>
    decreases args.len(),
{
    if args.len() == 0 {
        None
    } else if is_rs_arg(args[0]) {
        Some(args[0])
    } else {
        first_rs(args.skip(1))
    }
}

/// The resolved primary source path of an invocation: for a compiler call,
/// the first `.rs` argument, made absolute against the working directory.
/// A relative argument without an absolute working directory resolves to
/// nothing rather than to a guess.
pub open spec fn spec_guess_src_path(
    program: Seq<char>,
    args: Seq<Seq<char>>,
    cwd: Option<Seq<char>>,
) -> Option<Seq<Seq<char>>> {
    if !is_rustc_program(program) {
        None
    } else {
        match first_rs(args) {
            None => None,
            Some(a) => if is_absolute_text(a) {
                Some(segments_of(a))
            } else {
                match cwd {
                    Some(c) => if is_absolute_text(c) {
                        Some(segments_of(c) + segments_of(a))
                    } else {
                        None
                    },
                    None => None,
                }
            },
        }
    }
}

/// The unit a raw record converts to: command cached as given, identity
/// derived from the content, source path resolved by the heuristic. A unit
/// from a serialized plan is never a build-script kind; that flag only
/// arrives through build-tool introspection.
pub open spec fn unit_view_of_raw(r: RawInvocationView) -> UnitView {
    UnitView {
        key: raw_key_view(r),
        command: Some(
            ProcessSpecView { program: r.program, args: r.args, env: r.env, cwd: r.cwd },
        ),
        outputs: r.outputs,
        links: r.links,
        src_path: spec_guess_src_path(r.program, r.args, r.cwd),
        build_script: false,
    }
}

/// Character-wise string equality.
pub fn str_eq(a: &str, b: &str) -> (r: bool)
    ensures
        r == (a@ == b@),
{
    let n = a.unicode_len();
    let m = b.unicode_len();
    if n != m {
        return false;
    }
    let mut i: usize = 0;
    while i < n
        invariant
            i <= n,
            n == a@.len() == b@.len(),
            forall|k: int| 0 <= k < i ==> a@[k] == b@[k],
        decreases n - i,
    {
        if a.get_char(i) != b.get_char(i) {
            return false;
        }
        i = i + 1;
    }
    proof {
        assert(a@ =~= b@);
    }
    true
}

/// A deep copy of environment-style pairs.
pub fn clone_pairs(v: &Vec<(String, String)>) -> (r: Vec<(String, String)>)
    ensures
        r.deep_view() == v.deep_view(),
{
    let mut r: Vec<(String, String)> = Vec::new();
    let mut i: usize = 0;
    let n = v.len();
    while i < n
        invariant
            i <= n,
            n == v@.len(),
            r.deep_view() =~= v.deep_view().subrange(0, i as int),
        decreases n - i,
    {
        let ghost before = r.deep_view();
        let first = v[i].0.clone();
        let second = v[i].1.clone();
        r.push((first, second));
        proof {
            assert(r.deep_view() =~= before.push(v.deep_view()[i as int]));
            assert(before.push(v.deep_view()[i as int]) =~= v.deep_view().subrange(0, i as int + 1));
        }
        i = i + 1;
    }
    proof {
        assert(v.deep_view().subrange(0, n as int) =~= v.deep_view());
    }
    r
}

/// A deep copy of an optional string.
pub fn clone_opt_string(v: &Option<String>) -> (r: Option<String>)
    ensures
        r.deep_view() == v.deep_view(),
{
    match v {
        Some(s) => Some(s.clone()),
        None => None,
    }
}

impl ProcessSpec {
    /// A deep copy; replaying a cached invocation copies it unchanged.
    pub fn clone_spec(&self) -> (r: ProcessSpec)
        ensures
            r@ == self@,
    {
        ProcessSpec {
            program: self.program.clone(),
            args: clone_strings(&self.args),
            env: clone_pairs(&self.env),
            cwd: clone_opt_string(&self.cwd),
        }
    }
}

impl UnitKey {
    /// Identity comparison.
    pub fn key_eq(&self, other: &UnitKey) -> (r: bool)
        ensures
            r == (self@ == other@),
    {
        if self.parts.len() != other.parts.len() || self.env.len() != other.env.len() {
            proof {
                assert(self@.parts.len() == self.parts@.len());
                assert(other@.parts.len() == other.parts@.len());
                assert(self@.env.len() == self.env@.len());
                assert(other@.env.len() == other.env@.len());
            }
            return false;
        }
        let n = self.parts.len();
        let mut i: usize = 0;
        while i < n
            invariant
                i <= n,
                n == self.parts@.len() == other.parts@.len(),
                forall|k: int| 0 <= k < i ==> self@.parts[k] == other@.parts[k],
            decreases n - i,
        {
            if !(self.parts[i] == other.parts[i]) {
                assert(self@.parts[i as int] != other@.parts[i as int]);
                return false;
            }
            i = i + 1;
        }
        let m = self.env.len();
        let mut j: usize = 0;
        while j < m
            invariant
                j <= m,
                m == self.env@.len() == other.env@.len(),
                forall|k: int| 0 <= k < j ==> self@.env[k] == other@.env[k],
            decreases m - j,
        {
            if !(self.env[j].0 == other.env[j].0) || !(self.env[j].1 == other.env[j].1) {
                assert(self@.env[j as int] != other@.env[j as int]);
                return false;
            }
            j = j + 1;
        }
        proof {
            assert(self@.parts =~= other@.parts);
            assert(self@.env =~= other@.env);
        }
        true
    }
}

/// One unfolding step of `first_rs`, phrased over an index.
proof fn lemma_first_rs_step(args: Seq<Seq<char>>, i: int)
    requires
        0 <= i < args.len(),
    ensures
        is_rs_arg(args[i]) ==> first_rs(args.skip(i)) == Some(args[i]),
        !is_rs_arg(args[i]) ==> first_rs(args.skip(i)) == first_rs(args.skip(i + 1)),
{
    assert(args.skip(i).len() == args.len() - i);
    assert(args.skip(i)[0] == args[i]);
    assert(args.skip(i).skip(1) =~= args.skip(i + 1));
}

/// Does the component end in `.rs`?
fn ends_with_dot_rs(c: &str) -> (r: bool)
    ensures
        r == ends_with_rs(c@),
{
    let l = c.unicode_len();
    if l <= 3 {
        return false;
    }
    c.get_char(l - 3) == '.' && c.get_char(l - 2) == 'r' && c.get_char(l - 1) == 's'
}

/// Does the token name a `.rs` file?
fn arg_is_rs(a: &str) -> (r: bool)
    ensures
        r == is_rs_arg(a@),
{
    let segs = split_segments(a);
    if segs.len() == 0 {
        proof {
            assert(segments_of(a@).len() == segs.deep_view().len());
        }
        return false;
    }
    let last = segs.len() - 1;
    proof {
        assert(segs.deep_view()[last as int] == segments_of(a@).last());
    }
    ends_with_dot_rs(segs[last].as_str())
}

/// Resolves the primary source file of an invocation, as
/// [`spec_guess_src_path`] describes.
pub fn guess_src_path(program: &str, args: &Vec<String>, cwd: &Option<String>) -> (r: Option<
    AbsPath,
>)
    ensures
        opt_path_view(r) == spec_guess_src_path(program@, args.deep_view(), cwd.deep_view()),
{
    let segs = split_segments(program);
    if segs.len() == 0 {
        proof {
            assert(segments_of(program@).len() == segs.deep_view().len());
        }
        return None;
    }
    let last = segs.len() - 1;
    proof {
        assert(segs.deep_view()[last as int] == segments_of(program@).last());
    }
    if !str_eq(segs[last].as_str(), "rustc") {
        return None;
    }
    let n = args.len();
    let mut i: usize = 0;
    proof {
        assert(args.deep_view().skip(0) =~= args.deep_view());
    }
    while i < n
        invariant
            i <= n,
            n == args@.len(),
            args.deep_view().len() == n,
            first_rs(args.deep_view().skip(i as int)) == first_rs(args.deep_view()),
            is_rustc_program(program@),
        decreases n - i,
    {
        proof {
            lemma_first_rs_step(args.deep_view(), i as int);
        }
        if arg_is_rs(args[i].as_str()) {
            proof {
                assert(first_rs(args.deep_view()) == Some(args.deep_view()[i as int]));
            }
            match AbsPath::parse(args[i].as_str()) {
                Some(p) => {
                    return Some(p);
                },
                None => {
                    match cwd {
                        Some(c) => {
                            match AbsPath::parse(c.as_str()) {
                                Some(base) => {
                                    let rest = split_segments(args[i].as_str());
                                    return Some(base.join(&rest));
                                },
                                None => {
                                    return None;
                                },
                            }
                        },
                        None => {
                            return None;
                        },
                    }
                },
            }
        }
        i = i + 1;
    }
    proof {
        assert(args.deep_view().skip(n as int) =~= Seq::<Seq<char>>::empty());
    }
    None
}

impl RawInvocation {
    /// The content-derived identity of this record.
    pub fn key(&self) -> (k: UnitKey)
        ensures
            k@ == raw_key_view(self@),
    {
        let mut parts: Vec<String> = Vec::new();
        parts.push(self.program.clone());
        let mut rest = clone_strings(&self.args);
        parts.append(&mut rest);
        proof {
            assert(parts.deep_view() =~= seq![self.program@] + self.args.deep_view());
        }
        UnitKey { parts, env: clone_pairs(&self.env) }
    }

    /// Converts the record into a graph unit, resolving its source path.
    /// The record's dependency indices are not part of the unit; the graph
    /// keeps them as edges.
    pub fn to_unit(&self) -> (u: Unit)
        ensures
            u@ == unit_view_of_raw(self@),
    {
        let src_path = guess_src_path(self.program.as_str(), &self.args, &self.cwd);
        Unit {
            key: self.key(),
            command: Some(
                ProcessSpec {
                    program: self.program.clone(),
                    args: clone_strings(&self.args),
                    env: clone_pairs(&self.env),
                    cwd: clone_opt_string(&self.cwd),
                },
            ),
            outputs: clone_strings(&self.outputs),
            links: clone_pairs(&self.links),
            src_path,
            build_script: false,
        }
    }
}

} // verus!
