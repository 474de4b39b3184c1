use vstd::prelude::*;

verus! {

/// The options of a history listing, as given on the command line.
pub struct Args {
    pub arg_commit: Vec<String>,
    pub arg_spec: Vec<String>,
    pub flag_topo_order: bool,
    pub flag_date_order: bool,
    pub flag_reverse: bool,
    pub flag_git_dir: Option<String>,
    pub flag_skip: Option<usize>,
    pub flag_max_count: Option<usize>,
    pub flag_merges: bool,
    pub flag_no_merges: bool,
    pub flag_no_min_parents: bool,
    pub flag_no_max_parents: bool,
    pub flag_max_parents: Option<usize>,
    pub flag_min_parents: Option<usize>,
    pub flag_patch: bool,
}

impl Args {
    /// The least number of parents a listed commit has: none when the
    /// minimum is switched off, else the explicit minimum, else two in
    /// merges-only mode, else zero.
    pub open spec fn min_parents_spec(&self) -> nat {
        if self.flag_no_min_parents {
            0
        } else {
            match self.flag_min_parents {
                Some(n) => n as nat,
                None => if self.flag_merges { 2 } else { 0 },
            }
        }
    }

    /// The exclusive upper bound on the number of parents, if any: none when
    /// the maximum is switched off, else the explicit maximum, else one in
    /// no-merges mode, else none.
    pub open spec fn max_parents_spec(&self) -> Option<nat> {
        if self.flag_no_max_parents {
            None
        } else {
            match self.flag_max_parents {
                Some(n) => Some(n as nat),
                None => if self.flag_no_merges { Some(1) } else { None },
            }
        }
    }

    /// The least number of parents that a listed commit has.
    pub fn min_parents(&self) -> (r: usize)
        ensures
            r as nat == self.min_parents_spec(),
    {
        if self.flag_no_min_parents {
            return 0;
        }
        match self.flag_min_parents {
            Some(n) => n,
            None => if self.flag_merges { 2 } else { 0 },
        }
    }

    /// The number of parents that a listed commit stays below, if any.
    pub fn max_parents(&self) -> (r: Option<usize>)
        ensures
            r.is_some() == self.max_parents_spec().is_some(),
            r.is_some() ==> r.unwrap() as nat == self.max_parents_spec().unwrap(),
    {
        if self.flag_no_max_parents {
            return None;
        }
        match self.flag_max_parents {
            Some(n) => Some(n),
            None => if self.flag_no_merges { Some(1) } else { None },
        }
    }
}

} // verus!
