use vstd::prelude::*;

use crate::args::Args;

verus! {

/// What is left of `s` after its first `skip` items are dropped and the
/// rest is cut to at most `max` items.
pub open spec fn window_spec(s: Seq<usize>, skip: nat, max: Option<nat>) -> Seq<usize> {
    let rest = if skip >= s.len() { Seq::empty() } else { s.subrange(skip as int, s.len() as int) };
    match max {
        Some(m) => if m >= rest.len() { rest } else { rest.subrange(0, m as int) },
        None => rest,
    }
}

/// The skip/limit window over the commits that pass the filters, applied
/// one commit at a time.
pub struct Window {
    skip_left: usize,
    remaining: Option<usize>,
}

impl Window {
    /// The commits still to be skipped.
    pub closed spec fn skip_left_spec(&self) -> nat {
        self.skip_left as nat
    }

    /// The commits still to be let through, where there is a limit.
    pub closed spec fn remaining_spec(&self) -> Option<nat> {
        match self.remaining {
            Some(m) => Some(m as nat),
            None => None,
        }
    }

    /// The state of a window with the given skip and limit after it has
    /// been offered `n` commits.
    pub open spec fn after(&self, skip: nat, max: Option<nat>, n: nat) -> bool {
        &&& self.skip_left_spec() == if n >= skip { 0 } else { (skip - n) as nat }
        &&& self.remaining_spec() == match max {
            Some(m) => {
                let passed: nat = if n >= skip { (n - skip) as nat } else { 0 };
                Some(if passed >= m { 0 } else { (m - passed) as nat })
            },
            None => None,
        }
    }

    /// A window that skips `skip` commits and then lets at most `max`
    /// through.
    pub fn new(skip: usize, max: Option<usize>) -> (r: Window)
        ensures
            r.skip_left_spec() == skip,
            r.remaining_spec() == match max {
                Some(m) => Some(m as nat),
                None => None::<nat>,
            },
    {
        Window { skip_left: skip, remaining: max }
    }

    /// A window from the skip and limit options, with no skip and no limit
    /// by default.
    pub fn from_args(args: &Args) -> (r: Window)
        ensures
            r.skip_left_spec() == match args.flag_skip {
                Some(s) => s as nat,
                None => 0,
            },
            r.remaining_spec() == match args.flag_max_count {
                Some(m) => Some(m as nat),
                None => None::<nat>,
            },
    {
        let skip = match args.flag_skip {
            Some(s) => s,
            None => 0,
        };
        Window::new(skip, args.flag_max_count)
    }

    /// No commit offered from now on is let through.
    pub fn is_done(&self) -> (r: bool)
        ensures
            r == (self.remaining_spec() == Some(0nat)),
    {
        match self.remaining {
            Some(m) => m == 0,
            None => false,
        }
    }

    /// Offers the next commit that passed the filters: it is skipped while
    /// skips are left, else let through while the limit allows.
    pub fn offer(&mut self) -> (r: bool)
        ensures
            r == (old(self).skip_left_spec() == 0 && old(self).remaining_spec() != Some(0nat)),
            final(self).skip_left_spec() == if old(self).skip_left_spec() > 0 {
                (old(self).skip_left_spec() - 1) as nat
            } else {
                0
            },
            final(self).remaining_spec() == if r {
                match old(self).remaining_spec() {
                    Some(m) => Some((m - 1) as nat),
                    None => None,
                }
            } else {
                old(self).remaining_spec()
            },
    {
        if self.skip_left > 0 {
            self.skip_left = self.skip_left - 1;
            return false;
        }
        match self.remaining {
            Some(m) => {
                if m == 0 {
                    false
                } else {
                    self.remaining = Some(m - 1);
                    true
                }
            },
            None => true,
        }
    }
}

/// Windows the sequence `items`: drops the first `skip` and keeps at most
/// `max` of the rest, in order.
pub fn window(items: &Vec<usize>, skip: usize, max: Option<usize>) -> (r: Vec<usize>)
    ensures
        r@ == window_spec(
            items@,
            skip as nat,
            match max {
                Some(m) => Some(m as nat),
                None => None,
            },
        ),
{
    let ghost mx = match max {
        Some(m) => Some(m as nat),
        None => None::<nat>,
    };
    let mut w = Window::new(skip, max);
    let mut out: Vec<usize> = Vec::new();
    let mut i: usize = 0;
    while i < items.len()
        invariant
            i <= items.len(),
            w.after(skip as nat, mx, i as nat),
            out@ == window_spec(items@.subrange(0, i as int), skip as nat, mx),
        decreases items.len() - i,
    {
        let ghost pre = items@.subrange(0, i as int);
        let keep = w.offer();
        if keep {
            out.push(items[i]);
        }
        proof {
            let post = items@.subrange(0, i + 1);
            assert(post == pre.push(items@[i as int]));
            if i >= skip {
                assert(post.subrange(skip as int, post.len() as int) =~= if i == skip {
                    Seq::empty().push(items@[i as int])
                } else {
                    pre.subrange(skip as int, pre.len() as int).push(items@[i as int])
                });
            }
            if keep {
                match mx {
                    Some(m) => {
                        assert(window_spec(post, skip as nat, mx) =~= window_spec(pre, skip as nat, mx).push(items@[i as int]));
                    },
                    None => {},
                }
            } else if i >= skip {
                match mx {
                    Some(m) => {
                        assert(window_spec(post, skip as nat, mx) =~= window_spec(pre, skip as nat, mx));
                    },
                    None => {},
                }
            }
        }
        i = i + 1;
    }
    assert(items@.subrange(0, i as int) == items@);
    out
}

} // verus!
