use vstd::prelude::*;

use crate::args::Args;
use crate::window::{window, window_spec};

verus! {

/// A commit as the filters see it: its id, its number of parents, whether
/// its tree matches the path specs, and the number of path-restricted
/// changes against each parent (`None` where that diff could not be had).
pub struct Candidate {
    pub id: usize,
    pub parents: usize,
    pub root_matches: bool,
    pub parent_deltas: Vec<Option<usize>>,
}

/// The ids of the candidates that the filters keep, in order.
pub open spec fn kept_ids(args: &Args, cs: Seq<Candidate>) -> Seq<usize>
    decreases cs.len(),
{
    if cs.len() == 0 {
        Seq::empty()
    } else {
        let rest = kept_ids(args, cs.drop_last());
        let c = cs.last();
        if args.keeps_spec(c.parents as nat, c.root_matches, c.parent_deltas@) {
            rest.push(c.id)
        } else {
            rest
        }
    }
}

/// The skip option as a number, zero by default.
pub open spec fn skip_spec(args: &Args) -> nat {
    match args.flag_skip {
        Some(s) => s as nat,
        None => 0,
    }
}

/// The limit option, none by default.
pub open spec fn max_count_spec(args: &Args) -> Option<nat> {
    match args.flag_max_count {
        Some(m) => Some(m as nat),
        None => None,
    }
}

/// The ids of the candidates that are listed: those that pass the
/// parent-count and path filters, then windowed by the skip and limit
/// options.
pub fn select(args: &Args, cands: &Vec<Candidate>) -> (r: Vec<usize>)
    requires
        forall|i: int| 0 <= i < cands.len() ==> (#[trigger] cands@[i]).parent_deltas.len() == cands@[i].parents,
    ensures
        r@ == window_spec(kept_ids(args, cands@), skip_spec(args), max_count_spec(args)),
{
    let mut kept: Vec<usize> = Vec::new();
    let mut i: usize = 0;
    while i < cands.len()
        invariant
            i <= cands.len(),
            forall|i: int| 0 <= i < cands.len() ==> (#[trigger] cands@[i]).parent_deltas.len() == cands@[i].parents,
            kept@ == kept_ids(args, cands@.subrange(0, i as int)),
        decreases cands.len() - i,
    {
        let c = &cands[i];
        proof {
            assert(cands@.subrange(0, i + 1).drop_last() == cands@.subrange(0, i as int));
        }
        if args.keeps(c.parents, c.root_matches, &c.parent_deltas) {
            kept.push(c.id);
        }
        i = i + 1;
    }
    assert(cands@.subrange(0, i as int) == cands@);
    let skip = match args.flag_skip {
        Some(s) => s,
        None => 0,
    };
    window(&kept, skip, args.flag_max_count)
}

} // verus!
