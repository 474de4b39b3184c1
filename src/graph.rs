use vstd::prelude::*;
use vstd::set_lib::{lemma_int_range, lemma_len_subset, set_int_range};

verus! {

/// A commit graph: commit `c` has the parents `parents[c]`, in order, and
/// the commit time `times[c]`. Commits are named by their index.
pub struct CommitGraph {
    pub parents: Vec<Vec<usize>>,
    pub times: Vec<i64>,
}

impl CommitGraph {
    /// Every commit has a time and every parent names a commit of the graph.
    pub open spec fn wf(&self) -> bool {
        &&& self.parents.len() == self.times.len()
        &&& forall|c: int, j: int|
            0 <= c < self.parents.len() && 0 <= j < self.parents@[c].len()
                ==> (#[trigger] self.parents@[c]@[j]) < self.parents.len()
    }

    /// The number of commits.
    pub open spec fn len_spec(&self) -> nat {
        self.parents.len() as nat
    }

    /// `p` is a parent of `c`.
    pub open spec fn is_parent(&self, p: usize, c: usize) -> bool {
        &&& c < self.parents.len()
        &&& self.parents@[c as int]@.contains(p)
    }

    /// `c` is reached from one of `srcs` by at most `k` steps from a commit
    /// to one of its parents.
    pub open spec fn reaches_within(&self, srcs: Seq<usize>, c: usize, k: nat) -> bool
        decreases k,
    {
        srcs.contains(c) || (k > 0 && exists|d: usize|
            #[trigger] self.is_parent(c, d) && self.reaches_within(srcs, d, (k - 1) as nat))
    }

    /// `c` is an ancestor of one of `srcs`, or one of them.
    pub open spec fn reachable(&self, srcs: Seq<usize>, c: usize) -> bool {
        exists|k: nat| #[trigger] self.reaches_within(srcs, c, k)
    }

    /// `c` was reached by one more step from `d`, which was reached.
    proof fn lemma_step(&self, srcs: Seq<usize>, d: usize, c: usize)
        requires
            self.reachable(srcs, d),
            self.is_parent(c, d),
        ensures
            self.reachable(srcs, c),
    {
        let k = choose|k: nat| #[trigger] self.reaches_within(srcs, d, k);
        assert(self.reaches_within(srcs, c, k + 1));
    }

    /// The commits reached from `srcs` by parent steps through commits that
    /// are not `blocked`, in the order in which a breadth-first expansion
    /// finds them. A blocked commit is never listed, and nothing is reached
    /// through one.
    pub fn discover(&self, srcs: &Vec<usize>, blocked: &Vec<bool>) -> (r: Vec<usize>)
        requires
            self.wf(),
            blocked.len() == self.len_spec(),
            forall|i: int| 0 <= i < srcs.len() ==> (#[trigger] srcs@[i]) < self.len_spec(),
        ensures
            r@.no_duplicates(),
            forall|i: int|
                0 <= i < r.len() ==> {
                    &&& (#[trigger] r@[i]) < self.len_spec()
                    &&& !blocked@[r@[i] as int]
                    &&& self.reachable(srcs@, r@[i])
                },
            forall|i: int|
                0 <= i < srcs.len() && !blocked@[(#[trigger] srcs@[i]) as int] ==> r@.contains(
                    srcs@[i],
                ),
            forall|x: usize, p: usize|
                r@.contains(x) && #[trigger] self.is_parent(p, x) && !blocked@[p as int]
                    ==> r@.contains(p),
    {
        let n = self.parents.len();
        let mut seen: Vec<bool> = Vec::new();
        while seen.len() < n
            invariant
                seen.len() <= n,
                forall|x: int| 0 <= x < seen.len() ==> !(#[trigger] seen@[x]),
            decreases n - seen.len(),
        {
            seen.push(false);
        }
        let mut out: Vec<usize> = Vec::new();
        let mut s: usize = 0;
        while s < srcs.len()
            invariant
                self.wf(),
                n == self.len_spec(),
                blocked.len() == n,
                seen.len() == n,
                s <= srcs.len(),
                forall|i: int| 0 <= i < srcs.len() ==> (#[trigger] srcs@[i]) < n,
                out@.no_duplicates(),
                forall|i: int|
                    0 <= i < out.len() ==> {
                        &&& (#[trigger] out@[i]) < n
                        &&& !blocked@[out@[i] as int]
                        &&& self.reachable(srcs@, out@[i])
                    },
                forall|x: usize| x < n ==> (#[trigger] seen@[x as int] <==> out@.contains(x)),
                forall|i: int|
                    0 <= i < s && !blocked@[(#[trigger] srcs@[i]) as int] ==> out@.contains(
                        srcs@[i],
                    ),
            decreases srcs.len() - s,
        {
            let c = srcs[s];
            if !blocked[c] && !seen[c] {
                assert(self.reaches_within(srcs@, c, 0));
                proof {
                    lemma_push_contains(out@, c);
                }
                seen.set(c, true);
                out.push(c);
            }
            s = s + 1;
        }
        let mut i: usize = 0;
        while i < out.len()
            invariant
                self.wf(),
                n == self.len_spec(),
                blocked.len() == n,
                seen.len() == n,
                i <= out.len(),
                out@.no_duplicates(),
                forall|i: int|
                    0 <= i < out.len() ==> {
                        &&& (#[trigger] out@[i]) < n
                        &&& !blocked@[out@[i] as int]
                        &&& self.reachable(srcs@, out@[i])
                    },
                forall|x: usize| x < n ==> (#[trigger] seen@[x as int] <==> out@.contains(x)),
                forall|i: int|
                    0 <= i < srcs.len() && !blocked@[(#[trigger] srcs@[i]) as int] ==> out@.contains(
                        srcs@[i],
                    ),
                forall|j: int, p: usize|
                    0 <= j < i && #[trigger] self.is_parent(p, out@[j]) && !blocked@[p as int]
                        ==> out@.contains(p),
            decreases n - i,
        {
            proof {
                lemma_distinct_below(out@, n as nat);
            }
            let c = out[i];
            let ps = &self.parents[c];
            let mut k: usize = 0;
            while k < ps.len()
                invariant
                    self.wf(),
                    n == self.len_spec(),
                    blocked.len() == n,
                    seen.len() == n,
                    i < out.len(),
                    c == out@[i as int],
                    c < n,
                    self.reachable(srcs@, c),
                    ps@ == self.parents@[c as int]@,
                    k <= ps.len(),
                    out@.no_duplicates(),
                    forall|i: int|
                        0 <= i < out.len() ==> {
                            &&& (#[trigger] out@[i]) < n
                            &&& !blocked@[out@[i] as int]
                            &&& self.reachable(srcs@, out@[i])
                        },
                    forall|x: usize| x < n ==> (#[trigger] seen@[x as int] <==> out@.contains(x)),
                    forall|i: int|
                        0 <= i < srcs.len() && !blocked@[(#[trigger] srcs@[i]) as int]
                            ==> out@.contains(srcs@[i]),
                    forall|j: int, p: usize|
                        0 <= j < i && #[trigger] self.is_parent(p, out@[j]) && !blocked@[p as int]
                            ==> out@.contains(p),
                    forall|m: int|
                        0 <= m < k && !blocked@[(#[trigger] ps@[m]) as int] ==> out@.contains(ps@[m]),
                decreases ps.len() - k,
            {
                let p = ps[k];
                assert(self.parents@[c as int]@[k as int] == p);
                if !blocked[p] && !seen[p] {
                    proof {
                        assert(self.is_parent(p, c));
                        self.lemma_step(srcs@, c, p);
                    }
                    proof {
                        lemma_push_contains(out@, p);
                    }
                    seen.set(p, true);
                    out.push(p);
                }
                k = k + 1;
            }
            proof {
                assert forall|j: int, p: usize|
                    0 <= j < i + 1 && #[trigger] self.is_parent(p, out@[j]) && !blocked@[p as int]
                        implies out@.contains(p) by {
                    if j == i {
                        let m = choose|m: int| 0 <= m < ps.len() && ps@[m] == p;
                        assert(!blocked@[ps@[m] as int]);
                    }
                }
            }
            i = i + 1;
        }
        out
    }

    /// A set of commits that holds `srcs` and every parent of each of its
    /// members holds every commit reachable from `srcs`.
    proof fn lemma_closed_holds_reachable(&self, srcs: Seq<usize>, m: Seq<usize>, c: usize, k: nat)
        requires
            forall|i: int| 0 <= i < srcs.len() ==> m.contains(#[trigger] srcs[i]),
            forall|x: usize, p: usize| m.contains(x) && #[trigger] self.is_parent(p, x) ==> m.contains(p),
            self.reaches_within(srcs, c, k),
        ensures
            m.contains(c),
        decreases k,
    {
        if srcs.contains(c) {
            let i = choose|i: int| 0 <= i < srcs.len() && srcs[i] == c;
            assert(m.contains(srcs[i]));
        } else {
            let d = choose|d: usize|
                #[trigger] self.is_parent(c, d) && self.reaches_within(srcs, d, (k - 1) as nat);
            self.lemma_closed_holds_reachable(srcs, m, d, (k - 1) as nat);
        }
    }

    /// The commits that are ancestors of a start commit, or start commits,
    /// and are neither a hidden commit nor an ancestor of one, in discovery
    /// order, each once.
    pub fn visible(&self, starts: &Vec<usize>, hides: &Vec<usize>) -> (r: Vec<usize>)
        requires
            self.wf(),
            forall|i: int| 0 <= i < starts.len() ==> (#[trigger] starts@[i]) < self.len_spec(),
            forall|i: int| 0 <= i < hides.len() ==> (#[trigger] hides@[i]) < self.len_spec(),
        ensures
            r@.no_duplicates(),
            forall|i: int|
                0 <= i < r.len() ==> {
                    &&& (#[trigger] r@[i]) < self.len_spec()
                    &&& self.reachable(starts@, r@[i])
                    &&& !self.reachable(hides@, r@[i])
                },
            forall|i: int|
                0 <= i < starts.len() && !self.reachable(hides@, #[trigger] starts@[i])
                    ==> r@.contains(starts@[i]),
            forall|x: usize, p: usize|
                r@.contains(x) && #[trigger] self.is_parent(p, x) && !self.reachable(hides@, p)
                    ==> r@.contains(p),
    {
        let n = self.parents.len();
        let mut none: Vec<bool> = Vec::new();
        while none.len() < n
            invariant
                none.len() <= n,
                forall|x: int| 0 <= x < none.len() ==> !(#[trigger] none@[x]),
            decreases n - none.len(),
        {
            none.push(false);
        }
        let hidden = self.discover(hides, &none);
        let mut blocked = none;
        let mut j: usize = 0;
        while j < hidden.len()
            invariant
                blocked.len() == n,
                n == self.len_spec(),
                j <= hidden.len(),
                forall|i: int| 0 <= i < hidden.len() ==> (#[trigger] hidden@[i]) < n,
                forall|x: usize|
                    x < n ==> (#[trigger] blocked@[x as int] <==> hidden@.subrange(0, j as int).contains(x)),
            decreases hidden.len() - j,
        {
            proof {
                assert(hidden@.subrange(0, j + 1) == hidden@.subrange(0, j as int).push(hidden@[j as int]));
                lemma_push_contains(hidden@.subrange(0, j as int), hidden@[j as int]);
            }
            blocked.set(hidden[j], true);
            j = j + 1;
        }
        proof {
            assert(hidden@.subrange(0, j as int) == hidden@);
            assert forall|x: usize| x < n implies (blocked@[x as int] <==> self.reachable(hides@, x)) by {
                if self.reachable(hides@, x) {
                    let k = choose|k: nat| #[trigger] self.reaches_within(hides@, x, k);
                    self.lemma_closed_holds_reachable(hides@, hidden@, x, k);
                }
                if hidden@.contains(x) {
                    let i = choose|i: int| 0 <= i < hidden.len() && hidden@[i] == x;
                    assert(self.reachable(hides@, hidden@[i]));
                }
            }
        }
        let r = self.discover(starts, &blocked);
        proof {
            assert forall|x: usize, p: usize|
                r@.contains(x) && #[trigger] self.is_parent(p, x) && !self.reachable(hides@, p)
                    implies r@.contains(p) by {
                let i = choose|i: int| 0 <= i < self.parents@[x as int].len() && self.parents@[x as int]@[i] == p;
                assert(p < n);
            }
        }
        r
    }

    /// The number of commits.
    pub fn len(&self) -> (r: usize)
        ensures
            r as nat == self.len_spec(),
    {
        self.parents.len()
    }
}

/// What a sequence holds after a push.
proof fn lemma_push_contains(s: Seq<usize>, v: usize)
    ensures
        forall|x: usize| #[trigger] s.push(v).contains(x) <==> (s.contains(x) || x == v),
{
    assert forall|x: usize| s.contains(x) implies #[trigger] s.push(v).contains(x) by {
        let j = choose|j: int| 0 <= j < s.len() && s[j] == x;
        assert(s.push(v)[j] == x);
    }
    assert(s.push(v)[s.len() as int] == v);
}

/// A sequence without repeats whose items are all below `n` has at most `n`
/// items.
pub proof fn lemma_distinct_below(s: Seq<usize>, n: nat)
    requires
        s.no_duplicates(),
        forall|i: int| 0 <= i < s.len() ==> (#[trigger] s[i]) < n,
    ensures
        s.len() <= n,
{
    let t = s.map_values(|x: usize| x as int);
    assert(t.no_duplicates()) by {
        assert forall|i: int, j: int| 0 <= i < t.len() && 0 <= j < t.len() && i != j
            implies t[i] != t[j] by {
            assert(s[i] != s[j]);
        }
    }
    t.unique_seq_to_set();
    lemma_int_range(0, n as int);
    assert(t.to_set().subset_of(set_int_range(0, n as int))) by {
        assert forall|x: int| t.to_set().contains(x) implies set_int_range(0, n as int).contains(
            x,
        ) by {
            let i = choose|i: int| 0 <= i < t.len() && t[i] == x;
            assert(s[i] < n);
        }
    }
    lemma_len_subset(t.to_set(), set_int_range(0, n as int));
}

} // verus!
