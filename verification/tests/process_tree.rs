use std::collections::HashSet;
use viy::process_tree::{discovery_step, TreeTracker};

fn set(v: &[i32]) -> HashSet<i32> {
    v.iter().copied().collect()
}

#[test]
fn discovery_adds_children_of_known_processes() {
    let mut pids = set(&[100]);
    // A grandchild listed after its parent joins in the same pass.
    let procs = vec![(1, 0), (101, 100), (102, 101), (200, 1)];
    assert!(discovery_step(&mut pids, &procs));
    assert_eq!(pids, set(&[100, 101, 102]));
    assert!(!discovery_step(&mut pids, &procs));
    assert_eq!(pids, set(&[100, 101, 102]));
}

#[test]
fn discovery_needs_another_pass_for_children_listed_first() {
    let mut pids = set(&[100]);
    let procs = vec![(102, 101), (101, 100)];
    assert!(discovery_step(&mut pids, &procs));
    assert_eq!(pids, set(&[100, 101]));
    assert!(discovery_step(&mut pids, &procs));
    assert_eq!(pids, set(&[100, 101, 102]));
    // A pass that adds nothing: every process whose parent is known is known.
    assert!(!discovery_step(&mut pids, &procs));
    for (pid, ppid) in &procs {
        if pids.contains(ppid) {
            assert!(pids.contains(pid));
        }
    }
}

#[test]
fn tracker_counts_unique_children_excluding_root() {
    let mut t = TreeTracker::new(100);
    assert_eq!(t.total_children_seen(), 0);
    let back = t.update(set(&[100, 101, 102]));
    assert_eq!(back, set(&[100, 101, 102]));
    assert_eq!(t.total_children_seen(), 2);
    // 101 exited, 103 appeared: both stay counted.
    t.update(set(&[100, 102, 103]));
    assert_eq!(t.total_children_seen(), 3);
    t.update(set(&[100]));
    assert_eq!(t.total_children_seen(), 3);
}

#[test]
fn tracker_counts_the_union_of_all_trees_seen() {
    let mut t = TreeTracker::new(7);
    let trees = [set(&[7, 8]), set(&[7, 8, 9]), set(&[7]), set(&[7, 9, 10, 11]), set(&[7, 8])];
    let mut last = 0;
    for tree in trees.iter() {
        let back = t.update(tree.clone());
        assert!(back.contains(&7));
        assert!(t.total_children_seen() >= last);
        last = t.total_children_seen();
    }
    assert_eq!(t.total_children_seen(), 4);
}

#[test]
fn discovery_reaches_exactly_the_descendants() {
    let mut pids = set(&[10]);
    // 13 descends from 10 through 12 and 11; 20 and 21 form another tree.
    let procs = vec![(13, 12), (21, 20), (12, 11), (11, 10), (20, 1), (14, 10)];
    while discovery_step(&mut pids, &procs) {}
    assert_eq!(pids, set(&[10, 11, 12, 13, 14]));
}
