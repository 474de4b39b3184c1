use vstd::prelude::*;

verus! {

/// The change statistics of one commit against its parent: files changed,
/// lines inserted, lines deleted.
#[derive(Clone, Copy, Debug, PartialEq, Eq, Structural)]
pub struct ShortStat {
    pub files_changed: usize,
    pub insertions: usize,
    pub deletions: usize,
}

impl ShortStat {
    /// The statistics with the given counts.
    pub fn new(files_changed: usize, insertions: usize, deletions: usize) -> (r: ShortStat)
        ensures
            r.files_changed == files_changed,
            r.insertions == insertions,
            r.deletions == deletions,
    {
        ShortStat { files_changed, insertions, deletions }
    }
}

} // verus!
