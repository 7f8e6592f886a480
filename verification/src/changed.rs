//! An overlay of changed-but-unsaved file contents.
//!
//! While a rebuild runs out of process, the editor's unsaved buffers
//! stand in for what is on disk: a file loader first consults this
//! overlay and only falls back to the file system (outside this crate)
//! when the overlay holds nothing for the path.

use vstd::prelude::*;

use crate::path::AbsPath;

verus! {

/// Unsaved contents keyed by absolute path, each path at most once.
pub struct ChangedFiles {
    pub entries: Vec<(AbsPath, String)>,
}

impl ChangedFiles {
    /// Paths are distinct, so a lookup has one answer.
    pub open spec fn wf(self) -> bool {
        forall|i: int, j: int|
            0 <= i < j < self.entries@.len() ==> (#[trigger] self.entries@[i]).0@ != (
            #[trigger] self.entries@[j]).0@
    }

    /// The overlay holds contents `c` for path `p`.
    pub open spec fn stores(self, p: Seq<Seq<char>>, c: Seq<char>) -> bool {
        exists|i: int|
            0 <= i < self.entries@.len() && (#[trigger] self.entries@[i]).0@ == p
                && self.entries@[i].1@ == c
    }

    /// An empty overlay.
    pub fn new() -> (r: ChangedFiles)
        ensures
            r.wf(),
            r.entries@.len() == 0,
    {
        ChangedFiles { entries: Vec::new() }
    }

    /// Wraps a snapshot of unsaved buffers (each path once).
    pub fn from_entries(entries: Vec<(AbsPath, String)>) -> (r: ChangedFiles)
        requires
            forall|i: int, j: int|
                0 <= i < j < entries@.len() ==> (#[trigger] entries@[i]).0@ != (
                #[trigger] entries@[j]).0@,
        ensures
            r.wf(),
            r.entries@ == entries@,
    {
        ChangedFiles { entries }
    }

    /// The overlay contents for a path, if any; `None` sends the caller
    /// to the file system.
    pub fn get(&self, path: &AbsPath) -> (r: Option<&String>)
        requires
            self.wf(),
        ensures
            match r {
                Some(c) => self.stores(path@, c@),
                None => forall|c: Seq<char>| !self.stores(path@, c),
            },
    {
        let n = self.entries.len();
        let mut i: usize = 0;
        while i < n
            invariant
                i <= n,
                n == self.entries@.len(),
                forall|j: int| 0 <= j < i ==> (#[trigger] self.entries@[j]).0@ != path@,
            decreases n - i,
        {
            if self.entries[i].0.path_eq(path) {
                return Some(&self.entries[i].1);
            }
            i = i + 1;
        }
        proof {
            assert forall|c: Seq<char>| !self.stores(path@, c) by {
                if self.stores(path@, c) {
                    let j = choose|j: int|
                        0 <= j < self.entries@.len() && (#[trigger] self.entries@[j]).0@ == path@
                            && self.entries@[j].1@ == c;
                }
            }
        }
        None
    }
}

} // verus!
