use git_log::filter::path_relevant;
use git_log::order::reversed;
use git_log::window::window;
use git_log::{
    plan_walk, select, Args, Candidate, CommitGraph, Order, Revision, ShortStat, Sorting, Window,
};

fn args() -> Args {
    Args {
        arg_commit: Vec::new(),
        arg_spec: Vec::new(),
        flag_topo_order: false,
        flag_date_order: false,
        flag_reverse: false,
        flag_git_dir: None,
        flag_skip: None,
        flag_max_count: None,
        flag_merges: false,
        flag_no_merges: false,
        flag_no_min_parents: false,
        flag_no_max_parents: false,
        flag_max_parents: None,
        flag_min_parents: None,
        flag_patch: false,
    }
}

fn sorting(order: Order, reverse: bool) -> Sorting {
    Sorting { order, reverse }
}

// R1 <- R2 <- R3, with R1 = 0, R2 = 1, R3 = 2.
fn linear() -> CommitGraph {
    CommitGraph { parents: vec![vec![], vec![0], vec![1]], times: vec![10, 20, 30] }
}

// R1 <- R2, R1 <- R3, R4 merges R2 and R3.
fn merged() -> CommitGraph {
    CommitGraph {
        parents: vec![vec![], vec![0], vec![0], vec![1, 2]],
        times: vec![10, 30, 20, 40],
    }
}

fn cand(id: usize, deltas: Vec<Option<usize>>, root_matches: bool) -> Candidate {
    Candidate { id, parents: deltas.len(), root_matches, parent_deltas: deltas }
}

#[test]
fn parent_bounds_default() {
    let a = args();
    assert_eq!(a.min_parents(), 0);
    assert_eq!(a.max_parents(), None);
}

#[test]
fn parent_bounds_merges_modes() {
    let mut a = args();
    a.flag_merges = true;
    assert_eq!(a.min_parents(), 2);
    a.flag_no_merges = true;
    assert_eq!(a.max_parents(), Some(1));
    a.flag_min_parents = Some(3);
    a.flag_max_parents = Some(5);
    assert_eq!(a.min_parents(), 3);
    assert_eq!(a.max_parents(), Some(5));
    a.flag_no_min_parents = true;
    a.flag_no_max_parents = true;
    assert_eq!(a.min_parents(), 0);
    assert_eq!(a.max_parents(), None);
}

#[test]
fn parent_count_filter() {
    let mut a = args();
    a.flag_merges = true;
    assert!(!a.keeps_parent_count(0));
    assert!(!a.keeps_parent_count(1));
    assert!(a.keeps_parent_count(2));
    let mut b = args();
    b.flag_no_merges = true;
    // The no-merges maximum of one is exclusive: only root commits pass.
    assert!(b.keeps_parent_count(0));
    assert!(!b.keeps_parent_count(1));
    assert!(!b.keeps_parent_count(2));
    let mut c = args();
    c.flag_min_parents = Some(1);
    c.flag_max_parents = Some(3);
    assert!(!c.keeps_parent_count(0));
    assert!(c.keeps_parent_count(2));
    assert!(!c.keeps_parent_count(3));
}

#[test]
fn path_filter_needs_every_parent() {
    assert!(path_relevant(true, &vec![]));
    assert!(!path_relevant(false, &vec![]));
    assert!(path_relevant(false, &vec![Some(1), Some(4)]));
    assert!(!path_relevant(true, &vec![Some(1), Some(0)]));
    assert!(!path_relevant(true, &vec![Some(0), Some(2)]));
    assert!(!path_relevant(true, &vec![Some(3), None]));
}

#[test]
fn path_filter_only_with_specs() {
    let mut a = args();
    assert!(a.keeps(2, false, &vec![Some(0), Some(0)]));
    assert!(!a.needs_path_check(2));
    a.arg_spec = vec!["src".to_string()];
    assert!(a.needs_path_check(2));
    assert!(!a.keeps(2, false, &vec![Some(0), Some(0)]));
    assert!(a.keeps(0, true, &vec![]));
    assert!(!a.keeps(0, false, &vec![]));
}

#[test]
fn window_skip_two_max_one() {
    assert_eq!(window(&vec![1, 2, 3, 4], 2, Some(1)), vec![3]);
    assert_eq!(window(&vec![1, 2, 3, 4], 5, None), Vec::<usize>::new());
    assert_eq!(window(&vec![1, 2, 3, 4], 1, None), vec![2, 3, 4]);
    assert_eq!(window(&vec![1, 2, 3, 4], 0, Some(0)), Vec::<usize>::new());
}

#[test]
fn window_one_at_a_time() {
    let mut w = Window::new(1, Some(2));
    assert!(!w.is_done());
    assert!(!w.offer());
    assert!(w.offer());
    assert!(w.offer());
    assert!(w.is_done());
    assert!(!w.offer());
}

#[test]
fn window_after_filters() {
    // Six candidates; the parent-count filter drops the merges 1 and 4,
    // leaving [0, 2, 3, 5]; skip 2 and limit 1 leave [3].
    let mut a = args();
    a.flag_max_parents = Some(2);
    a.flag_skip = Some(2);
    a.flag_max_count = Some(1);
    let cands = vec![
        cand(0, vec![Some(1)], false),
        cand(1, vec![Some(1), Some(1)], false),
        cand(2, vec![Some(1)], false),
        cand(3, vec![Some(1)], false),
        cand(4, vec![Some(1), Some(2)], false),
        cand(5, vec![], false),
    ];
    assert_eq!(select(&a, &cands), vec![3]);
}

#[test]
fn walk_linear_discovery() {
    let g = linear();
    assert_eq!(g.walk(&vec![2], &vec![], sorting(Order::Discovery, false)), vec![2, 1, 0]);
    assert_eq!(g.walk(&vec![2], &vec![], sorting(Order::Discovery, true)), vec![0, 1, 2]);
}

#[test]
fn walk_hides_ancestors() {
    let g = linear();
    assert_eq!(g.walk(&vec![2], &vec![1], sorting(Order::Discovery, false)), vec![2]);
    assert_eq!(g.walk(&vec![1], &vec![2], sorting(Order::Discovery, false)), Vec::<usize>::new());
    assert_eq!(g.walk(&vec![], &vec![], sorting(Order::Discovery, false)), Vec::<usize>::new());
}

#[test]
fn walk_topological_merge() {
    let g = merged();
    let r = g.walk(&vec![3], &vec![], sorting(Order::Topological, false));
    assert_eq!(r.len(), 4);
    let pos = |c: usize| r.iter().position(|&x| x == c).unwrap();
    assert!(pos(3) < pos(1));
    assert!(pos(3) < pos(2));
    assert!(pos(1) < pos(0));
    assert!(pos(2) < pos(0));
    let rev = g.walk(&vec![3], &vec![], sorting(Order::Topological, true));
    assert_eq!(rev, reversed(&r));
}

#[test]
fn walk_topological_cycle_keeps_all() {
    let g = CommitGraph { parents: vec![vec![1], vec![0]], times: vec![1, 2] };
    let mut r = g.walk(&vec![0], &vec![], sorting(Order::Topological, false));
    r.sort();
    assert_eq!(r, vec![0, 1]);
}

#[test]
fn walk_chronological() {
    let g = merged();
    assert_eq!(g.walk(&vec![3], &vec![], sorting(Order::Chronological, false)), vec![3, 1, 2, 0]);
    assert_eq!(g.walk(&vec![3], &vec![], sorting(Order::Chronological, true)), vec![0, 2, 1, 3]);
}

#[test]
fn walk_chronological_ties_keep_discovery_order() {
    let g = CommitGraph { parents: vec![vec![], vec![0], vec![0], vec![1, 2]], times: vec![5, 7, 7, 9] };
    assert_eq!(g.walk(&vec![3], &vec![], sorting(Order::Chronological, false)), vec![3, 1, 2, 0]);
}

#[test]
fn reverse_twice_is_identity() {
    let s = vec![4, 1, 3, 1];
    assert_eq!(reversed(&s), vec![1, 3, 1, 4]);
    assert_eq!(reversed(&reversed(&s)), s);
}

#[test]
fn sorting_from_options() {
    let mut a = args();
    assert_eq!(a.sorting(), sorting(Order::Discovery, false));
    a.flag_date_order = true;
    a.flag_reverse = true;
    assert_eq!(a.sorting(), sorting(Order::Chronological, true));
    a.flag_topo_order = true;
    assert_eq!(a.sorting(), sorting(Order::Topological, true));
}

#[test]
fn plan_single_and_excluded() {
    let p = plan_walk(&vec![Revision::Include(4), Revision::Exclude(2)], Some(9));
    assert_eq!(p.starts, vec![4]);
    assert_eq!(p.hides, vec![2]);
}

#[test]
fn plan_ranges() {
    let p = plan_walk(&vec![Revision::Range { from: 1, to: 3 }], None);
    assert_eq!(p.starts, vec![3]);
    assert_eq!(p.hides, vec![1]);
    let q = plan_walk(&vec![Revision::SymmetricRange { from: 1, to: 3, base: 0 }], None);
    assert_eq!(q.starts, vec![3, 0]);
    assert_eq!(q.hides, vec![1]);
}

#[test]
fn plan_defaults_to_head() {
    let p = plan_walk(&vec![], Some(7));
    assert_eq!(p.starts, vec![7]);
    assert!(p.hides.is_empty());
    let q = plan_walk(&vec![], None);
    assert!(q.starts.is_empty());
}

#[test]
fn symmetric_range_walk() {
    // a = 1 (R2), b = 2 (R3), merge base 0 (R1): the walk yields R3 alone.
    let g = merged();
    let p = plan_walk(&vec![Revision::SymmetricRange { from: 1, to: 2, base: 0 }], None);
    assert_eq!(g.walk(&p.starts, &p.hides, sorting(Order::Discovery, false)), vec![2]);
}

#[test]
fn linear_history_patch_lists_three_stats() {
    let g = linear();
    let mut a = args();
    a.flag_patch = true;
    let order = g.walk(&vec![2], &vec![], a.sorting());
    assert_eq!(order, vec![2, 1, 0]);
    let cands: Vec<Candidate> = order
        .iter()
        .map(|&c| cand(c, g.parents[c].iter().map(|_| Some(1)).collect(), true))
        .collect();
    let listed = select(&a, &cands);
    assert_eq!(listed, vec![2, 1, 0]);
    for &c in &listed {
        assert!(a.shows_stats(g.parents[c].len()));
    }
}

#[test]
fn no_merges_max_count_one() {
    let g = linear();
    let mut a = args();
    a.flag_patch = true;
    a.flag_no_merges = true;
    a.flag_max_count = Some(1);
    let order = g.walk(&vec![2], &vec![], a.sorting());
    let cands: Vec<Candidate> = order
        .iter()
        .map(|&c| cand(c, g.parents[c].iter().map(|_| Some(1)).collect(), true))
        .collect();
    // The no-merges maximum of one parent is exclusive, so of the linear
    // history only the root commit R1 is listed, and one stats line comes.
    let listed = select(&a, &cands);
    assert_eq!(listed, vec![0]);
    assert!(a.shows_stats(g.parents[listed[0]].len()));
    a.flag_max_parents = Some(2);
    assert_eq!(select(&a, &cands), vec![2]);
}

#[test]
fn merges_with_path_needs_both_parents() {
    let mut a = args();
    a.flag_merges = true;
    a.flag_patch = true;
    a.arg_spec = vec!["f".to_string()];
    // The file differs from R2 but not from R3.
    let one = vec![cand(3, vec![Some(1), Some(0)], false)];
    assert_eq!(select(&a, &one), Vec::<usize>::new());
    // The file differs from both.
    let both = vec![cand(3, vec![Some(1), Some(1)], false)];
    assert_eq!(select(&a, &both), vec![3]);
    assert!(!a.shows_stats(2));
}

#[test]
fn short_stat_fields() {
    let s = ShortStat::new(2, 10, 3);
    assert_eq!(s.files_changed, 2);
    assert_eq!(s.insertions, 10);
    assert_eq!(s.deletions, 3);
    assert_eq!(s, ShortStat { files_changed: 2, insertions: 10, deletions: 3 });
}
