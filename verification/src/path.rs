//! Path model used by the planner.
//!
//! The planner never touches the file system; it only compares paths. A
//! path is modelled as its sequence of `/`-separated components, and an
//! [`AbsPath`] is a path that was written in absolute form (leading `/`).
//! All of the dirty-file matching in this crate is defined over these
//! component sequences.

use vstd::prelude::*;
use vstd::string::StrSliceExecFns;
use vstd::string::StringExecFns;

verus! {

/// Splitting a character sequence into `/`-separated segments, carrying the
/// segment accumulated so far. Empty segments (from doubled or trailing
/// separators) are dropped.
pub open spec fn split_acc(s: Seq<char>, cur: Seq<char>) -> Seq<Seq<char>>
    decreases s.len(),
{
    if s.len() == 0 {
        if cur.len() == 0 {
            Seq::empty()
        } else {
            seq![cur]
        }
    } else if s[0] == '/' {
        (if cur.len() == 0 {
            Seq::<Seq<char>>::empty()
        } else {
            seq![cur]
        }) + split_acc(s.skip(1), Seq::empty())
    } else {
        split_acc(s.skip(1), cur.push(s[0]))
    }
}

/// The `/`-separated components of a piece of path text.
pub open spec fn segments_of(s: Seq<char>) -> Seq<Seq<char>> {
    split_acc(s, Seq::empty())
}

/// Path text is absolute when it starts with a separator.
pub open spec fn is_absolute_text(s: Seq<char>) -> bool {
    s.len() > 0 && s[0] == '/'
}

/// `a` names a directory at or above the file or directory named by `b`.
pub open spec fn is_prefix_of(a: Seq<Seq<char>>, b: Seq<Seq<char>>) -> bool {
    a.len() <= b.len() && (forall|i: int| 0 <= i < a.len() ==> a[i] == b[i])
}

/// An absolute file-system path, stored as its list of components.
/// `/my/repo/src/lib.rs` is stored as `["my", "repo", "src", "lib.rs"]`.
pub struct AbsPath {
    pub components: Vec<String>,
}

impl View for AbsPath {
    type V = Seq<Seq<char>>;

    open spec fn view(&self) -> Seq<Seq<char>> {
        self.components.deep_view()
    }
}

/// One unfolding step of `split_acc`, phrased over an index into the
/// original text so that a scanning loop can consume it directly.
proof fn lemma_split_acc_step(s: Seq<char>, i: int, cur: Seq<char>)
    requires
        0 <= i < s.len(),
    ensures
        s[i] == '/' ==> split_acc(s.skip(i), cur) == (if cur.len() == 0 {
            Seq::<Seq<char>>::empty()
        } else {
            seq![cur]
        }) + split_acc(s.skip(i + 1), Seq::empty()),
        s[i] != '/' ==> split_acc(s.skip(i), cur) == split_acc(s.skip(i + 1), cur.push(s[i])),
{
    assert(s.skip(i).len() == s.len() - i);
    assert(s.skip(i)[0] == s[i]);
    assert(s.skip(i).skip(1) =~= s.skip(i + 1));
}

/// A deep copy of a component list.
pub fn clone_strings(v: &Vec<String>) -> (r: Vec<String>)
    ensures
        r.deep_view() == v.deep_view(),
        r@.len() == v@.len(),
{
    let mut r: Vec<String> = Vec::new();
    let mut i: usize = 0;
    let n = v.len();
    while i < n
        invariant
            i <= n,
            n == v@.len(),
            r@.len() == i,
            r.deep_view() =~= v.deep_view().subrange(0, i as int),
        decreases n - i,
    {
        let ghost before = r.deep_view();
        r.push(v[i].clone());
        proof {
            assert(r.deep_view() =~= before.push(v.deep_view()[i as int]));
            assert(before.push(v.deep_view()[i as int]) =~= v.deep_view().subrange(0, i as int + 1));
        }
        i = i + 1;
    }
    proof {
        assert(v.deep_view().subrange(0, n as int) =~= v.deep_view());
    }
    r
}

/// Splits path text into its non-empty `/`-separated components.
pub fn split_segments(text: &str) -> (r: Vec<String>)
    ensures
        r.deep_view() == segments_of(text@),
{
    let n = text.unicode_len();
    let mut comps: Vec<String> = Vec::new();
    let mut cur: String = String::new();
    let mut i: usize = 0;
    proof {
        assert(text@.skip(0) =~= text@);
        assert(comps.deep_view() =~= Seq::<Seq<char>>::empty());
        assert(Seq::<Seq<char>>::empty() + split_acc(text@, Seq::empty())
            =~= split_acc(text@, Seq::empty()));
    }
    while i < n
        invariant
            i <= n,
            n == text@.len(),
            segments_of(text@) == comps.deep_view() + split_acc(text@.skip(i as int), cur@),
        decreases n - i,
    {
        proof {
            lemma_split_acc_step(text@, i as int, cur@);
        }
        let c = text.get_char(i);
        if c == '/' {
            if cur.as_str().unicode_len() > 0 {
                let ghost old_comps = comps.deep_view();
                let ghost pushed = cur@;
                comps.push(cur);
                cur = String::new();
                proof {
                    assert(comps.deep_view() =~= old_comps.push(pushed));
                    assert(old_comps + (seq![pushed] + split_acc(
                        text@.skip(i as int + 1),
                        Seq::empty(),
                    )) =~= comps.deep_view() + split_acc(text@.skip(i as int + 1), cur@));
                }
            } else {
                proof {
                    assert(cur@ =~= Seq::<char>::empty());
                    assert(Seq::<Seq<char>>::empty() + split_acc(
                        text@.skip(i as int + 1),
                        Seq::empty(),
                    ) =~= split_acc(text@.skip(i as int + 1), cur@));
                }
            }
        } else {
            let ghost cur_before = cur@;
            let piece = text.substring_char(i, i + 1);
            proof {
                assert(text@.subrange(i as int, i as int + 1) =~= seq![text@[i as int]]);
            }
            cur.append(piece);
            proof {
                assert(cur@ =~= cur_before.push(text@[i as int]));
            }
        }
        i = i + 1;
    }
    proof {
        assert(text@.skip(n as int) =~= Seq::<char>::empty());
    }
    if cur.as_str().unicode_len() > 0 {
        let ghost old_comps = comps.deep_view();
        let ghost pushed = cur@;
        comps.push(cur);
        proof {
            assert(comps.deep_view() =~= old_comps.push(pushed));
            assert(old_comps.push(pushed) =~= old_comps + seq![pushed]);
        }
    } else {
        proof {
            assert(comps.deep_view() + (if cur@.len() == 0 {
                Seq::<Seq<char>>::empty()
            } else {
                seq![cur@]
            }) =~= comps.deep_view());
        }
    }
    comps
}

impl AbsPath {
    /// Parses absolute path text into its components; relative text is
    /// rejected, never silently mis-read.
    pub fn parse(text: &str) -> (r: Option<AbsPath>)
        ensures
            match r {
                Some(p) => is_absolute_text(text@) && p@ == segments_of(text@),
                None => !is_absolute_text(text@),
            },
    {
        let n = text.unicode_len();
        if n == 0 {
            return None;
        }
        if text.get_char(0) != '/' {
            return None;
        }
        Some(AbsPath { components: split_segments(text) })
    }

    /// Wraps an already-split component list.
    pub fn from_components(components: Vec<String>) -> (r: AbsPath)
        ensures
            r@ == components.deep_view(),
    {
        AbsPath { components }
    }

    /// The directory containing this path: everything but the last
    /// component. The root (no components) has no parent.
    pub fn parent(&self) -> (r: Option<AbsPath>)
        ensures
            match r {
                Some(p) => self@.len() > 0 && p@ == self@.drop_last(),
                None => self@.len() == 0,
            },
    {
        if self.components.len() == 0 {
            return None;
        }
        let mut components = clone_strings(&self.components);
        components.pop();
        proof {
            assert(components.deep_view() =~= self@.drop_last());
        }
        Some(AbsPath { components })
    }

    /// Componentwise equality.
    pub fn path_eq(&self, other: &AbsPath) -> (r: bool)
        ensures
            r == (self@ == other@),
    {
        if self.components.len() != other.components.len() {
            proof {
                assert(self@.len() == self.components@.len());
                assert(other@.len() == other.components@.len());
            }
            return false;
        }
        let n = self.components.len();
        let mut i: usize = 0;
        while i < n
            invariant
                i <= n,
                n == self.components@.len() == other.components@.len(),
                forall|k: int| 0 <= k < i ==> self@[k] == other@[k],
            decreases n - i,
        {
            if !(self.components[i] == other.components[i]) {
                assert(self@[i as int] != other@[i as int]);
                return false;
            }
            i = i + 1;
        }
        proof {
            assert(self@ =~= other@);
        }
        true
    }

    /// Does this path name a directory at or above `other`?
    pub fn is_prefix(&self, other: &AbsPath) -> (r: bool)
        ensures
            r == is_prefix_of(self@, other@),
    {
        if self.components.len() > other.components.len() {
            return false;
        }
        let n = self.components.len();
        let mut i: usize = 0;
        while i < n
            invariant
                i <= n,
                n == self.components@.len() <= other.components@.len(),
                forall|k: int| 0 <= k < i ==> self@[k] == other@[k],
            decreases n - i,
        {
            if !(self.components[i] == other.components[i]) {
                assert(self@[i as int] != other@[i as int]);
                return false;
            }
            i = i + 1;
        }
        true
    }

    /// This path extended by further components (`self/c0/c1/...`).
    pub fn join(&self, rest: &Vec<String>) -> (r: AbsPath)
        ensures
            r@ == self@ + rest.deep_view(),
    {
        let mut components = clone_strings(&self.components);
        let m = rest.len();
        let mut j: usize = 0;
        proof {
            assert(self@ + rest.deep_view().subrange(0, 0) =~= self@);
        }
        while j < m
            invariant
                j <= m,
                m == rest@.len(),
                components.deep_view() =~= self@ + rest.deep_view().subrange(0, j as int),
            decreases m - j,
        {
            let ghost before = components.deep_view();
            components.push(rest[j].clone());
            proof {
                assert(components.deep_view() =~= before.push(rest.deep_view()[j as int]));
                assert(before.push(rest.deep_view()[j as int]) =~= self@ + rest.deep_view().subrange(
                    0,
                    j as int + 1,
                ));
            }
            j = j + 1;
        }
        proof {
            assert(rest.deep_view().subrange(0, m as int) =~= rest.deep_view());
        }
        AbsPath { components }
    }

    /// A deep copy.
    pub fn clone_path(&self) -> (r: AbsPath)
        ensures
            r@ == self@,
    {
        AbsPath { components: clone_strings(&self.components) }
    }
}

} // verus!
