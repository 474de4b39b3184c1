use vstd::prelude::*;

use crate::graph::CommitGraph;

verus! {

/// A revision expression with its names already resolved to commits.
#[derive(Clone, Copy, Debug, PartialEq, Eq, Structural)]
pub enum Revision {
    /// A single commit: walk from it.
    Include(usize),
    /// A commit named with the exclusion marker: hide it.
    Exclude(usize),
    /// `from..to`: walk from `to`, hide `from`.
    Range { from: usize, to: usize },
    /// `from...to` with the merge base of the two: walk from `to` and from
    /// `base`, hide `from`.
    SymmetricRange { from: usize, to: usize, base: usize },
}

/// The start commits that one revision adds, in order.
pub open spec fn starts_of_one(r: Revision) -> Seq<usize> {
    match r {
        Revision::Include(c) => seq![c],
        Revision::Exclude(_) => Seq::empty(),
        Revision::Range { from: _, to } => seq![to],
        Revision::SymmetricRange { from: _, to, base } => seq![to, base],
    }
}

/// The hidden commits that one revision adds.
pub open spec fn hides_of_one(r: Revision) -> Seq<usize> {
    match r {
        Revision::Include(_) => Seq::empty(),
        Revision::Exclude(c) => seq![c],
        Revision::Range { from, to: _ } => seq![from],
        Revision::SymmetricRange { from, to: _, base: _ } => seq![from],
    }
}

/// The start commits of a list of revisions, in order.
pub open spec fn starts_of(revs: Seq<Revision>) -> Seq<usize>
    decreases revs.len(),
{
    if revs.len() == 0 {
        Seq::empty()
    } else {
        starts_of(revs.drop_last()) + starts_of_one(revs.last())
    }
}

/// The hidden commits of a list of revisions, in order.
pub open spec fn hides_of(revs: Seq<Revision>) -> Seq<usize>
    decreases revs.len(),
{
    if revs.len() == 0 {
        Seq::empty()
    } else {
        hides_of(revs.drop_last()) + hides_of_one(revs.last())
    }
}

/// Where a walk starts and what it hides.
pub struct WalkPlan {
    pub starts: Vec<usize>,
    pub hides: Vec<usize>,
}

/// The start and hide sets of a walk over `revs`; with no revision at all
/// the walk starts from `head`, the current head commit where there is one.
pub fn plan_walk(revs: &Vec<Revision>, head: Option<usize>) -> (r: WalkPlan)
    ensures
        revs.len() > 0 ==> r.starts@ == starts_of(revs@) && r.hides@ == hides_of(revs@),
        revs.len() == 0 ==> r.hides@.len() == 0 && r.starts@ == match head {
            Some(h) => seq![h],
            None => Seq::<usize>::empty(),
        },
{
    let mut starts: Vec<usize> = Vec::new();
    let mut hides: Vec<usize> = Vec::new();
    let mut i: usize = 0;
    while i < revs.len()
        invariant
            i <= revs.len(),
            starts@ == starts_of(revs@.subrange(0, i as int)),
            hides@ == hides_of(revs@.subrange(0, i as int)),
        decreases revs.len() - i,
    {
        proof {
            assert(revs@.subrange(0, i + 1).drop_last() == revs@.subrange(0, i as int));
        }
        match revs[i] {
            Revision::Include(c) => {
                starts.push(c);
            },
            Revision::Exclude(c) => {
                hides.push(c);
            },
            Revision::Range { from, to } => {
                starts.push(to);
                hides.push(from);
            },
            Revision::SymmetricRange { from, to, base } => {
                starts.push(to);
                starts.push(base);
                hides.push(from);
            },
        }
        proof {
            let pre = revs@.subrange(0, i as int);
            let post = revs@.subrange(0, i + 1);
            assert(post.last() == revs@[i as int]);
            assert(starts@ =~= starts_of(pre) + starts_of_one(revs@[i as int]));
            assert(hides@ =~= hides_of(pre) + hides_of_one(revs@[i as int]));
        }
        i = i + 1;
    }
    assert(revs@.subrange(0, i as int) == revs@);
    if revs.len() == 0 {
        match head {
            Some(h) => {
                starts.push(h);
            },
            None => {},
        }
    }
    WalkPlan { starts, hides }
}

impl CommitGraph {
    /// Reaching `m` from `srcs` and then `c` from `m` reaches `c` from `srcs`.
    pub proof fn lemma_reach_trans(&self, srcs: Seq<usize>, m: usize, c: usize, k: nat)
        requires
            self.reachable(srcs, m),
            self.reaches_within(seq![m], c, k),
        ensures
            self.reachable(srcs, c),
        decreases k,
    {
        if seq![m].contains(c) {
            assert(seq![m][0] == m);
            assert(c == m);
        } else {
            let d = choose|d: usize|
                #[trigger] self.is_parent(c, d) && self.reaches_within(seq![m], d, (k - 1) as nat);
            self.lemma_reach_trans(srcs, m, d, (k - 1) as nat);
            let j = choose|j: nat| #[trigger] self.reaches_within(srcs, d, j);
            assert(self.reaches_within(srcs, c, j + 1));
        }
    }
}

/// A symmetric range `a...b` walks from `b` and from the merge base `m`
/// and hides `a`. Since the merge base is an ancestor of `a`, what the walk
/// yields is what `a..b` yields: the commits reachable from `b` and not
/// from `a`.
pub proof fn lemma_symmetric_range(g: &CommitGraph, a: usize, b: usize, m: usize, c: usize)
    requires
        g.reachable(seq![a], m),
    ensures
        starts_of(seq![Revision::SymmetricRange { from: a, to: b, base: m }]) == seq![b, m],
        hides_of(seq![Revision::SymmetricRange { from: a, to: b, base: m }]) == seq![a],
        (g.reachable(seq![b, m], c) && !g.reachable(seq![a], c)) <==> (g.reachable(seq![b], c)
            && !g.reachable(seq![a], c)),
{
    let one = seq![Revision::SymmetricRange { from: a, to: b, base: m }];
    assert(one.drop_last() =~= Seq::<Revision>::empty());
    assert(one.last() == Revision::SymmetricRange { from: a, to: b, base: m });
    assert(starts_of(one) == starts_of(Seq::<Revision>::empty()) + seq![b, m]);
    assert(hides_of(one) == hides_of(Seq::<Revision>::empty()) + seq![a]);
    assert(starts_of(one) =~= seq![b, m]);
    assert(hides_of(one) =~= seq![a]);
    assert(g.reachable(seq![b, m], c) && !g.reachable(seq![a], c) ==> g.reachable(seq![b], c)) by {
        if g.reachable(seq![b, m], c) && !g.reachable(seq![a], c) {
            let bm = seq![b, m];
            let k = choose|k: nat| #[trigger] g.reaches_within(bm, c, k);
            g.lemma_split_two(b, m, c, k);
            if g.reaches_within(seq![m], c, k) {
                g.lemma_reach_trans(seq![a], m, c, k);
            }
        }
    }
    assert(g.reachable(seq![b], c) ==> g.reachable(seq![b, m], c)) by {
        if g.reachable(seq![b], c) {
            let sb = seq![b];
            let k = choose|k: nat| #[trigger] g.reaches_within(sb, c, k);
            g.lemma_widen(seq![b], seq![b, m], c, k);
        }
    }
}

impl CommitGraph {
    /// What is reached from two commits is reached from one of them.
    proof fn lemma_split_two(&self, b: usize, m: usize, c: usize, k: nat)
        requires
            self.reaches_within(seq![b, m], c, k),
        ensures
            self.reaches_within(seq![b], c, k) || self.reaches_within(seq![m], c, k),
        decreases k,
    {
        if seq![b, m].contains(c) {
            let i = choose|i: int| 0 <= i < 2 && seq![b, m][i] == c;
            if i == 0 {
                assert(seq![b][0] == c);
            } else {
                assert(seq![m][0] == c);
            }
        } else {
            let d = choose|d: usize|
                #[trigger] self.is_parent(c, d) && self.reaches_within(seq![b, m], d, (k - 1) as nat);
            self.lemma_split_two(b, m, d, (k - 1) as nat);
        }
    }

    /// What is reached from `s` is reached from any sequence that holds
    /// all of `s`.
    proof fn lemma_widen(&self, s: Seq<usize>, t: Seq<usize>, c: usize, k: nat)
        requires
            forall|x: usize| s.contains(x) ==> t.contains(x),
            self.reaches_within(s, c, k),
        ensures
            self.reaches_within(t, c, k),
        decreases k,
    {
        if !s.contains(c) {
            let d = choose|d: usize|
                #[trigger] self.is_parent(c, d) && self.reaches_within(s, d, (k - 1) as nat);
            self.lemma_widen(s, t, d, (k - 1) as nat);
        }
    }
}

} // verus!
