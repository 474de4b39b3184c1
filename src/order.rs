use vstd::prelude::*;
use vstd::seq_lib::{group_to_multiset_ensures, lemma_multiset_commutative, seq_to_set_is_finite};
use vstd::set_lib::lemma_set_empty_equivalency_len;

use crate::args::Args;
use crate::graph::CommitGraph;

verus! {

/// The base order of a walk.
#[derive(Clone, Copy, Debug, PartialEq, Eq, Structural)]
pub enum Order {
    /// The order in which the walk finds the commits.
    Discovery,
    /// Every commit after all of its children.
    Topological,
    /// Newest commit time first.
    Chronological,
}

/// How the commits of a walk are ordered: a base order, optionally reversed.
#[derive(Clone, Copy, Debug, PartialEq, Eq, Structural)]
pub struct Sorting {
    pub order: Order,
    pub reverse: bool,
}

/// Moving the item at `k` from `rem` to the end of `out` keeps the items of
/// the two together.
proof fn lemma_move(out: Seq<usize>, rem: Seq<usize>, k: int)
    requires
        0 <= k < rem.len(),
    ensures
        (out.push(rem[k]) + rem.remove(k)).to_multiset() == (out + rem).to_multiset(),
{
    broadcast use group_to_multiset_ensures;

    lemma_multiset_commutative(out.push(rem[k]), rem.remove(k));
    lemma_multiset_commutative(out, rem);
    assert(rem.to_multiset().count(rem[k]) > 0);
    assert((out.push(rem[k]) + rem.remove(k)).to_multiset() =~= (out + rem).to_multiset());
}

/// Every item of `rem` is an item of `items` when `out` and `rem` together
/// hold the items of `items`.
proof fn lemma_part_of(out: Seq<usize>, rem: Seq<usize>, items: Seq<usize>)
    requires
        (out + rem).to_multiset() == items.to_multiset(),
    ensures
        rem.to_set().subset_of(items.to_set()),
{
    broadcast use group_to_multiset_ensures;

    lemma_multiset_commutative(out, rem);
    assert forall|x: usize| rem.to_set().contains(x) implies items.to_set().contains(x) by {
        assert(rem.contains(x));
        assert(items.to_multiset().count(x) > 0);
    }
}

/// `s` in reverse order.
pub fn reversed(s: &Vec<usize>) -> (r: Vec<usize>)
    ensures
        r@ == s@.reverse(),
{
    let mut r: Vec<usize> = Vec::new();
    let mut i: usize = s.len();
    while i > 0
        invariant
            i <= s.len(),
            r@ == s@.subrange(i as int, s.len() as int).reverse(),
        decreases i,
    {
        i = i - 1;
        proof {
            assert(s@.subrange(i as int, s.len() as int).reverse() =~= s@.subrange(i + 1, s.len() as int).reverse().push(s@[i as int]));
        }
        r.push(s[i]);
    }
    assert(s@.subrange(0, s.len() as int) == s@);
    r
}

/// Reversing a sequence twice gives it back.
pub proof fn lemma_reverse_twice(s: Seq<usize>)
    ensures
        s.reverse().reverse() == s,
{
    assert(s.reverse().reverse() =~= s);
}

/// Two sequences with the same items hold the same values.
proof fn lemma_same_items(a: Seq<usize>, b: Seq<usize>)
    requires
        a.to_multiset() == b.to_multiset(),
    ensures
        forall|x: usize| a.contains(x) <==> b.contains(x),
        a.to_set() == b.to_set(),
{
    broadcast use group_to_multiset_ensures;

    assert forall|x: usize| a.contains(x) <==> b.contains(x) by {
        a.to_multiset_ensures();
        b.to_multiset_ensures();
        assert(a.contains(x) == (a.to_multiset().count(x) > 0));
        assert(b.contains(x) == (b.to_multiset().count(x) > 0));
    }
    assert(a.to_set() =~= b.to_set());
}

impl CommitGraph {
    /// No commit of `s` is a parent of a commit that comes after it.
    pub open spec fn is_topological(&self, s: Seq<usize>) -> bool {
        forall|i: int, j: int| 0 <= i < j < s.len() ==> !#[trigger] self.is_parent(s[i], s[j])
    }

    /// Some commits of `s`, at least one, each of which is a parent of
    /// another of them: a cycle, which no topological order can place.
    pub open spec fn has_cycle_among(&self, s: Seq<usize>) -> bool {
        exists|m: Set<usize>|
            {
                &&& #[trigger] m.len() > 0
                &&& m.finite()
                &&& m.subset_of(s.to_set())
                &&& forall|x: usize| m.contains(x) ==> exists|y: usize| m.contains(y) && #[trigger] self.is_parent(x, y)
            }
    }

    /// `x` is a parent of some commit of `s`.
    pub open spec fn has_child_in(&self, x: usize, s: Seq<usize>) -> bool {
        exists|j: int| 0 <= j < s.len() && #[trigger] self.is_parent(x, s[j])
    }

    /// Commit times never rise along `s`.
    pub open spec fn is_chronological(&self, s: Seq<usize>) -> bool {
        forall|i: int, j: int|
            0 <= i < j < s.len() ==> self.times@[#[trigger] s[i] as int] >= self.times@[#[trigger] s[j] as int]
    }

    /// Whether `p` is a parent of `c`.
    pub fn has_parent(&self, c: usize, p: usize) -> (r: bool)
        requires
            c < self.len_spec(),
        ensures
            r == self.is_parent(p, c),
    {
        let ps = &self.parents[c];
        let mut k: usize = 0;
        while k < ps.len()
            invariant
                k <= ps.len(),
                c < self.len_spec(),
                ps@ == self.parents@[c as int]@,
                forall|m: int| 0 <= m < k ==> ps@[m] != p,
            decreases ps.len() - k,
        {
            if ps[k] == p {
                assert(self.parents@[c as int]@[k as int] == p);
                return true;
            }
            k = k + 1;
        }
        false
    }

    /// The position of an item of `rem` that is a parent of no item of
    /// `rem`, if there is one.
    fn find_childless(&self, rem: &Vec<usize>) -> (r: Option<usize>)
        requires
            self.wf(),
            forall|i: int| 0 <= i < rem.len() ==> (#[trigger] rem@[i]) < self.len_spec(),
        ensures
            r.is_some() ==> r.unwrap() < rem.len() && forall|j: int|
                0 <= j < rem.len() ==> !#[trigger] self.is_parent(rem@[r.unwrap() as int], rem@[j]),
            r.is_none() ==> forall|m: int| 0 <= m < rem.len() ==> self.has_child_in(#[trigger] rem@[m], rem@),
    {
        let mut k: usize = 0;
        while k < rem.len()
            invariant
                self.wf(),
                k <= rem.len(),
                forall|i: int| 0 <= i < rem.len() ==> (#[trigger] rem@[i]) < self.len_spec(),
                forall|m: int| 0 <= m < k ==> self.has_child_in(#[trigger] rem@[m], rem@),
            decreases rem.len() - k,
        {
            let x = rem[k];
            let mut j: usize = 0;
            let mut childless = true;
            while j < rem.len()
                invariant
                    self.wf(),
                    k < rem.len(),
                    x == rem@[k as int],
                    j <= rem.len(),
                    forall|i: int| 0 <= i < rem.len() ==> (#[trigger] rem@[i]) < self.len_spec(),
                    childless ==> forall|m: int| 0 <= m < j ==> !#[trigger] self.is_parent(x, rem@[m]),
                    !childless ==> self.has_child_in(x, rem@),
                    forall|m: int| 0 <= m < k ==> self.has_child_in(#[trigger] rem@[m], rem@),
                decreases rem.len() - j,
            {
                if childless && self.has_parent(rem[j], x) {
                    childless = false;
                }
                j = j + 1;
            }
            if childless {
                return Some(k);
            }
            assert(self.has_child_in(rem@[k as int], rem@));
            k = k + 1;
        }
        None
    }

    /// The commits of `items` in an order in which every commit comes after
    /// all of its children; where `items` holds a cycle, the commits that the
    /// order could not place follow in their given order.
    pub fn topological(&self, items: &Vec<usize>) -> (r: Vec<usize>)
        requires
            self.wf(),
            forall|i: int| 0 <= i < items.len() ==> (#[trigger] items@[i]) < self.len_spec(),
        ensures
            r@.to_multiset() == items@.to_multiset(),
            self.is_topological(r@) || self.has_cycle_among(items@),
    {
        let mut out: Vec<usize> = Vec::new();
        let mut rem: Vec<usize> = Vec::new();
        let mut i: usize = 0;
        while i < items.len()
            invariant
                i <= items.len(),
                rem@ == items@.subrange(0, i as int),
            decreases items.len() - i,
        {
            rem.push(items[i]);
            i = i + 1;
        }
        assert(out@ + rem@ == items@);
        while rem.len() > 0
            invariant
                self.wf(),
                forall|i: int| 0 <= i < items.len() ==> (#[trigger] items@[i]) < self.len_spec(),
                forall|i: int| 0 <= i < rem.len() ==> (#[trigger] rem@[i]) < self.len_spec(),
                (out@ + rem@).to_multiset() == items@.to_multiset(),
                self.is_topological(out@),
                forall|i: int, j: int|
                    0 <= i < out.len() && 0 <= j < rem.len() ==> !#[trigger] self.is_parent(
                        out@[i],
                        rem@[j],
                    ),
            decreases rem.len(),
        {
            match self.find_childless(&rem) {
                Some(k) => {
                    proof {
                        lemma_move(out@, rem@, k as int);
                    }
                    let ghost old_out = out@;
                    let ghost old_rem = rem@;
                    let x = rem.remove(k);
                    out.push(x);
                    proof {
                        assert forall|i: int, j: int| 0 <= i < j < out.len() implies !#[trigger] self.is_parent(out@[i], out@[j]) by {
                            if j == out.len() - 1 {
                                assert(!self.is_parent(old_out[i], old_rem[k as int]));
                            } else {
                                assert(!self.is_parent(old_out[i], old_out[j]));
                            }
                        }
                        assert forall|i: int, j: int|
                            0 <= i < out.len() && 0 <= j < rem.len() implies !#[trigger] self.is_parent(out@[i], rem@[j]) by {
                            let jj = if j < k { j } else { j + 1 };
                            assert(rem@[j] == old_rem[jj]);
                            if i < out.len() - 1 {
                                assert(!self.is_parent(old_out[i], old_rem[jj]));
                            } else {
                                assert(!self.is_parent(old_rem[k as int], old_rem[jj]));
                            }
                        }
                    }
                },
                None => {
                    proof {
                        broadcast use seq_to_set_is_finite;

                        lemma_part_of(out@, rem@, items@);
                        let m = rem@.to_set();
                        assert(m.contains(rem@[0]));
                        lemma_set_empty_equivalency_len(m);
                        assert forall|x: usize| m.contains(x) implies exists|y: usize| m.contains(y) && #[trigger] self.is_parent(x, y) by {
                            let a = choose|a: int| 0 <= a < rem.len() && rem@[a] == x;
                            let b = choose|b: int| 0 <= b < rem.len() && #[trigger] self.is_parent(rem@[a], rem@[b]);
                            assert(m.contains(rem@[b]));
                        }
                        assert(self.has_cycle_among(items@));
                    }
                    let ghost old_out = out@;
                    let ghost old_rem = rem@;
                    out.append(&mut rem);
                    assert(out@ == old_out + old_rem);
                    return out;
                },
            }
        }
        assert(out@ + rem@ == out@);
        out
    }
    /// The position of the first item of `rem` with the latest time.
    fn find_latest(&self, rem: &Vec<usize>) -> (r: usize)
        requires
            self.wf(),
            rem.len() > 0,
            forall|i: int| 0 <= i < rem.len() ==> (#[trigger] rem@[i]) < self.len_spec(),
        ensures
            r < rem.len(),
            forall|j: int|
                0 <= j < rem.len() ==> self.times@[rem@[r as int] as int] >= self.times@[#[trigger] rem@[j] as int],
    {
        let mut best: usize = 0;
        let mut k: usize = 1;
        while k < rem.len()
            invariant
                self.wf(),
                best < k <= rem.len(),
                forall|i: int| 0 <= i < rem.len() ==> (#[trigger] rem@[i]) < self.len_spec(),
                forall|j: int|
                    0 <= j < k ==> self.times@[rem@[best as int] as int] >= self.times@[#[trigger] rem@[j] as int],
            decreases rem.len() - k,
        {
            if self.times[rem[k]] > self.times[rem[best]] {
                best = k;
            }
            k = k + 1;
        }
        best
    }

    /// The commits of `items`, latest commit time first; commits of equal
    /// time keep their given order.
    pub fn chronological(&self, items: &Vec<usize>) -> (r: Vec<usize>)
        requires
            self.wf(),
            forall|i: int| 0 <= i < items.len() ==> (#[trigger] items@[i]) < self.len_spec(),
        ensures
            r@.to_multiset() == items@.to_multiset(),
            self.is_chronological(r@),
    {
        let mut out: Vec<usize> = Vec::new();
        let mut rem: Vec<usize> = Vec::new();
        let mut i: usize = 0;
        while i < items.len()
            invariant
                i <= items.len(),
                rem@ == items@.subrange(0, i as int),
            decreases items.len() - i,
        {
            rem.push(items[i]);
            i = i + 1;
        }
        assert(out@ + rem@ == items@);
        while rem.len() > 0
            invariant
                self.wf(),
                forall|i: int| 0 <= i < rem.len() ==> (#[trigger] rem@[i]) < self.len_spec(),
                forall|i: int| 0 <= i < out.len() ==> (#[trigger] out@[i]) < self.len_spec(),
                (out@ + rem@).to_multiset() == items@.to_multiset(),
                self.is_chronological(out@),
                forall|i: int, j: int|
                    0 <= i < out.len() && 0 <= j < rem.len() ==> self.times@[#[trigger] out@[i] as int]
                        >= self.times@[#[trigger] rem@[j] as int],
            decreases rem.len(),
        {
            let k = self.find_latest(&rem);
            proof {
                lemma_move(out@, rem@, k as int);
            }
            let ghost old_out = out@;
            let ghost old_rem = rem@;
            let x = rem.remove(k);
            out.push(x);
            proof {
                assert forall|i: int, j: int| 0 <= i < j < out.len() implies self.times@[#[trigger] out@[i] as int]
                    >= self.times@[#[trigger] out@[j] as int] by {
                    if j == out.len() - 1 {
                        assert(self.times@[old_out[i] as int] >= self.times@[old_rem[k as int] as int]);
                    } else {
                        assert(self.times@[old_out[i] as int] >= self.times@[old_out[j] as int]);
                    }
                }
                assert forall|i: int, j: int| 0 <= i < out.len() && 0 <= j < rem.len() implies self.times@[#[trigger] out@[i] as int]
                    >= self.times@[#[trigger] rem@[j] as int] by {
                    let jj = if j < k { j } else { j + 1 };
                    assert(rem@[j] == old_rem[jj]);
                    if i < out.len() - 1 {
                        assert(self.times@[old_out[i] as int] >= self.times@[old_rem[jj] as int]);
                    } else {
                        assert(self.times@[old_rem[k as int] as int] >= self.times@[old_rem[jj] as int]);
                    }
                }
            }
        }
        assert(out@ + rem@ == out@);
        out
    }
    /// The commits that a walk from `starts` that hides `hides` yields, in
    /// the order that `sorting` asks for: each commit that is an ancestor of
    /// a start commit, or one, and neither a hidden commit nor an ancestor
    /// of one, exactly once.
    pub fn walk(&self, starts: &Vec<usize>, hides: &Vec<usize>, sorting: Sorting) -> (r: Vec<usize>)
        requires
            self.wf(),
            forall|i: int| 0 <= i < starts.len() ==> (#[trigger] starts@[i]) < self.len_spec(),
            forall|i: int| 0 <= i < hides.len() ==> (#[trigger] hides@[i]) < self.len_spec(),
        ensures
            r@.no_duplicates(),
            forall|i: int|
                0 <= i < r.len() ==> {
                    &&& (#[trigger] r@[i]) < self.len_spec()
                    &&& self.reachable(starts@, r@[i])
                    &&& !self.reachable(hides@, r@[i])
                },
            forall|i: int|
                0 <= i < starts.len() && !self.reachable(hides@, #[trigger] starts@[i])
                    ==> r@.contains(starts@[i]),
            forall|x: usize, p: usize|
                r@.contains(x) && #[trigger] self.is_parent(p, x) && !self.reachable(hides@, p)
                    ==> r@.contains(p),
            ({
                let base = if sorting.reverse { r@.reverse() } else { r@ };
                &&& sorting.order == Order::Topological ==> self.is_topological(base)
                    || self.has_cycle_among(base)
                &&& sorting.order == Order::Chronological ==> self.is_chronological(base)
            }),
    {
        let seen = self.visible(starts, hides);
        let ordered = match sorting.order {
            Order::Discovery => {
                let ordered = seen;
                ordered
            },
            Order::Topological => self.topological(&seen),
            Order::Chronological => self.chronological(&seen),
        };
        let ghost seen_v = seen@;
        assert(ordered@.to_multiset() == seen_v.to_multiset());
        let r = if sorting.reverse {
            reversed(&ordered)
        } else {
            ordered
        };
        proof {
            lemma_reverse_twice(ordered@);
            ordered@.lemma_reverse_to_multiset();
            let base = if sorting.reverse { r@.reverse() } else { r@ };
            assert(base == ordered@);
            lemma_same_items(r@, seen_v);
            seen_v.lemma_multiset_has_no_duplicates();
            r@.lemma_multiset_has_no_duplicates_conv();
            assert forall|i: int| 0 <= i < r.len() implies {
                &&& (#[trigger] r@[i]) < self.len_spec()
                &&& self.reachable(starts@, r@[i])
                &&& !self.reachable(hides@, r@[i])
            } by {
                assert(r@.contains(r@[i]));
                let j = choose|j: int| 0 <= j < seen_v.len() && seen_v[j] == r@[i];
                assert(seen_v[j] < self.len_spec());
            }
        }
        r
    }
}

impl Args {
    /// The order that the options ask for: topological before date order,
    /// discovery order where neither is asked for, reversed on request.
    pub fn sorting(&self) -> (r: Sorting)
        ensures
            r.order == if self.flag_topo_order {
                Order::Topological
            } else if self.flag_date_order {
                Order::Chronological
            } else {
                Order::Discovery
            },
            r.reverse == self.flag_reverse,
    {
        let order = if self.flag_topo_order {
            Order::Topological
        } else if self.flag_date_order {
            Order::Chronological
        } else {
            Order::Discovery
        };
        Sorting { order, reverse: self.flag_reverse }
    }
}

} // verus!
