use vstd::prelude::*;

use crate::args::Args;

verus! {

/// A parent count `n` lies within the bounds: at least `min`, and below
/// `max` where there is one.
pub open spec fn within_parent_bounds(min: nat, max: Option<nat>, n: nat) -> bool {
    &&& min <= n
    &&& match max {
        Some(m) => n < m,
        None => true,
    }
}

/// Whether a commit passes the path filter. A root commit has no parent
/// diffs and passes iff its tree matches; any other commit passes iff the
/// path-restricted diff against every parent was computed and changed
/// something. `parent_deltas[i]` is the number of changed entries against
/// parent `i`, or `None` where that diff could not be had.
pub open spec fn path_relevant_spec(root_matches: bool, parent_deltas: Seq<Option<usize>>) -> bool {
    if parent_deltas.len() == 0 {
        root_matches
    } else {
        forall|i: int|
            0 <= i < parent_deltas.len() ==> match #[trigger] parent_deltas[i] {
                Some(d) => d > 0,
                None => false,
            }
    }
}

/// Whether a commit with the given path evidence passes the path filter.
pub fn path_relevant(root_matches: bool, parent_deltas: &Vec<Option<usize>>) -> (r: bool)
    ensures
        r == path_relevant_spec(root_matches, parent_deltas@),
{
    if parent_deltas.len() == 0 {
        return root_matches;
    }
    let mut i: usize = 0;
    while i < parent_deltas.len()
        invariant
            i <= parent_deltas.len(),
            forall|j: int|
                0 <= j < i ==> match #[trigger] parent_deltas@[j] {
                    Some(d) => d > 0,
                    None => false,
                },
        decreases parent_deltas.len() - i,
    {
        match parent_deltas[i] {
            Some(d) => {
                if d == 0 {
                    return false;
                }
            },
            None => {
                return false;
            },
        }
        i = i + 1;
    }
    true
}

impl Args {
    /// A commit with `n` parents passes the parent-count filter.
    pub open spec fn keeps_parent_count_spec(&self, n: nat) -> bool {
        within_parent_bounds(self.min_parents_spec(), self.max_parents_spec(), n)
    }

    /// A commit with `n` parents and the given path evidence is kept: it
    /// passes the parent-count filter, and the path filter where path specs
    /// are given.
    pub open spec fn keeps_spec(&self, n: nat, root_matches: bool, parent_deltas: Seq<Option<usize>>) -> bool {
        &&& self.keeps_parent_count_spec(n)
        &&& (self.arg_spec.len() == 0 || path_relevant_spec(root_matches, parent_deltas))
    }

    /// Whether a commit with `n` parents passes the parent-count filter.
    pub fn keeps_parent_count(&self, n: usize) -> (r: bool)
        ensures
            r == self.keeps_parent_count_spec(n as nat),
    {
        if n < self.min_parents() {
            return false;
        }
        match self.max_parents() {
            Some(m) => n < m,
            None => true,
        }
    }

    /// Whether the path evidence of a commit with `n` parents is needed to
    /// decide on it: it passes the parent-count filter and path specs are
    /// given.
    pub fn needs_path_check(&self, n: usize) -> (r: bool)
        ensures
            r == (self.keeps_parent_count_spec(n as nat) && self.arg_spec.len() > 0),
    {
        self.keeps_parent_count(n) && self.arg_spec.len() > 0
    }

    /// Whether a commit with `n` parents and the given path evidence is
    /// kept. The evidence is a diff count for each parent, so a commit with
    /// parents has as many counts as parents.
    pub fn keeps(&self, n: usize, root_matches: bool, parent_deltas: &Vec<Option<usize>>) -> (r: bool)
        requires
            parent_deltas.len() == n,
        ensures
            r == self.keeps_spec(n as nat, root_matches, parent_deltas@),
    {
        self.keeps_parent_count(n) && (self.arg_spec.len() == 0 || path_relevant(
            root_matches,
            parent_deltas,
        ))
    }

    /// Whether change statistics are shown for a kept commit with `n`
    /// parents: in patch mode, for every commit that is not a merge.
    pub fn shows_stats(&self, n: usize) -> (r: bool)
        ensures
            r == (self.flag_patch && n <= 1),
    {
        self.flag_patch && n <= 1
    }
}

/// Every commit kept has a parent count within the bounds.
pub proof fn lemma_kept_within_bounds(
    args: &Args,
    n: nat,
    root_matches: bool,
    parent_deltas: Seq<Option<usize>>,
)
    requires
        args.keeps_spec(n, root_matches, parent_deltas),
    ensures
        args.min_parents_spec() <= n,
        match args.max_parents_spec() {
            Some(m) => n < m,
            None => true,
        },
{
}

/// In merges-only mode, with no explicit minimum and the minimum not
/// switched off, no commit with fewer than two parents is kept; in
/// no-merges mode, with no explicit maximum and the maximum not switched
/// off, no commit with more than one parent is kept.
pub proof fn lemma_merge_modes(args: &Args, n: nat)
    ensures
        args.flag_merges && args.flag_min_parents.is_none() && !args.flag_no_min_parents && n < 2
            ==> !args.keeps_parent_count_spec(n),
        args.flag_no_merges && args.flag_max_parents.is_none() && !args.flag_no_max_parents && n > 1
            ==> !args.keeps_parent_count_spec(n),
{
}

/// A merge commit under a path filter is kept only where the diff against
/// every parent changed something: one changed parent diff is not enough.
pub proof fn lemma_merge_needs_every_parent(
    args: &Args,
    n: nat,
    root_matches: bool,
    parent_deltas: Seq<Option<usize>>,
)
    requires
        args.arg_spec.len() > 0,
        parent_deltas.len() == n,
        n >= 2,
    ensures
        args.keeps_spec(n, root_matches, parent_deltas) <==> (args.keeps_parent_count_spec(n)
            && forall|i: int|
            0 <= i < n ==> (#[trigger] parent_deltas[i]).is_some() && parent_deltas[i].unwrap() > 0),
{
    assert forall|i: int| 0 <= i < n implies (match #[trigger] parent_deltas[i] {
        Some(d) => d > 0,
        None => false,
    }) == (parent_deltas[i].is_some() && parent_deltas[i].unwrap() > 0) by {}
}

} // verus!
