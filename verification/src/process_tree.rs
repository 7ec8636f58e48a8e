//! The process tree under a root process: discovery of descendants from a
//! listing of `(pid, ppid)` pairs, and the count of children ever seen.
use vstd::prelude::*;
use std::collections::HashSet;

verus! {

broadcast use vstd::std_specs::hash::group_hash_axioms;

/// One step of a discovery pass: a process whose parent is already in the
/// tree joins it.
pub open spec fn adopt(tree: Set<i32>, entry: (i32, i32)) -> Set<i32> {
    if tree.contains(entry.1) && !tree.contains(entry.0) {
        tree.insert(entry.0)
    } else {
        tree
    }
}

/// The tree after one pass over `procs` (pairs `(pid, ppid)`), in order.
pub open spec fn discovery_pass(tree: Set<i32>, procs: Seq<(i32, i32)>) -> Set<i32>
    decreases procs.len(),
{
    if procs.len() == 0 {
        tree
    } else {
        adopt(discovery_pass(tree, procs.drop_last()), procs.last())
    }
}

/// Every process whose parent is in `tree` is in `tree` too.
pub open spec fn closed_under_parents(tree: Set<i32>, procs: Seq<(i32, i32)>) -> bool {
    forall|i: int|
        0 <= i < procs.len() && tree.contains(#[trigger] procs[i].1) ==> tree.contains(procs[i].0)
}

/// A pass only ever adds processes.
pub(crate) proof fn lemma_pass_grows(tree: Set<i32>, procs: Seq<(i32, i32)>)
    ensures
        tree.subset_of(discovery_pass(tree, procs)),
    decreases procs.len(),
{
    if procs.len() > 0 {
        lemma_pass_grows(tree, procs.drop_last());
    }
}

/// A pass over a prefix of the listing yields a subset of the full pass.
proof fn lemma_pass_prefix(tree: Set<i32>, procs: Seq<(i32, i32)>, k: int)
    requires
        0 <= k <= procs.len(),
    ensures
        discovery_pass(tree, procs.take(k)).subset_of(discovery_pass(tree, procs)),
    decreases procs.len(),
{
    if k == procs.len() {
        assert(procs.take(k) =~= procs);
    } else {
        lemma_pass_prefix(tree, procs.drop_last(), k);
        assert(procs.drop_last().take(k) =~= procs.take(k));
    }
}

/// Discovery is complete once a pass finds nothing new: the tree then holds
/// every process whose parent it holds.
pub proof fn law_stable_pass_is_closed(tree: Set<i32>, procs: Seq<(i32, i32)>)
    requires
        discovery_pass(tree, procs) == tree,
    ensures
        closed_under_parents(tree, procs),
{
    assert forall|i: int| 0 <= i < procs.len() && tree.contains(#[trigger] procs[i].1) implies tree.contains(
        procs[i].0,
    ) by {
        let before = discovery_pass(tree, procs.take(i));
        let after = discovery_pass(tree, procs.take(i + 1));
        assert(procs.take(i + 1).drop_last() =~= procs.take(i));
        assert(procs.take(i + 1).last() == procs[i]);
        lemma_pass_grows(tree, procs.take(i));
        lemma_pass_prefix(tree, procs, i + 1);
        assert(before.contains(procs[i].1));
        assert(after.contains(procs[i].0));
    }
}

/// Every process a pass adds is listed with a parent that the resulting
/// tree holds: a pass adds children of members and nothing else.
pub proof fn law_pass_adds_only_children(tree: Set<i32>, procs: Seq<(i32, i32)>)
    ensures
        forall|p: i32|
            #[trigger] discovery_pass(tree, procs).contains(p) && !tree.contains(p) ==> exists|i: int|
                0 <= i < procs.len() && procs[i].0 == p && discovery_pass(tree, procs).contains(
                    procs[i].1,
                ),
    decreases procs.len(),
{
    if procs.len() > 0 {
        let before = procs.drop_last();
        let prev = discovery_pass(tree, before);
        let next = discovery_pass(tree, procs);
        law_pass_adds_only_children(tree, before);
        assert(prev.subset_of(next));
        assert forall|p: i32| #[trigger] next.contains(p) && !tree.contains(p) implies exists|i: int|
            0 <= i < procs.len() && procs[i].0 == p && next.contains(procs[i].1) by {
            if prev.contains(p) {
                let i = choose|i: int| 0 <= i < before.len() && before[i].0 == p && prev.contains(before[i].1);
                assert(procs[i] == before[i]);
            } else {
                assert(procs[procs.len() - 1] == procs.last());
            }
        }
    }
}

/// A pass never leaves a set that holds the tree it starts from and every
/// process whose parent it holds.
pub proof fn law_pass_stays_in_closed_sets(tree: Set<i32>, procs: Seq<(i32, i32)>, d: Set<i32>)
    requires
        tree.subset_of(d),
        closed_under_parents(d, procs),
    ensures
        discovery_pass(tree, procs).subset_of(d),
    decreases procs.len(),
{
    if procs.len() > 0 {
        let before = procs.drop_last();
        assert forall|i: int| 0 <= i < before.len() && d.contains(#[trigger] before[i].1) implies d.contains(
            before[i].0,
        ) by {
            assert(before[i] == procs[i]);
        }
        law_pass_stays_in_closed_sets(tree, before, d);
        assert(procs[procs.len() - 1] == procs.last());
    }
}

/// `p` is `root` or descends from it through the parent links of `procs`:
/// every set that holds `root` and every process whose parent it holds,
/// holds `p`.
pub open spec fn in_tree_of(root: i32, procs: Seq<(i32, i32)>, p: i32) -> bool {
    forall|d: Set<i32>| d.contains(root) && closed_under_parents(d, procs) ==> #[trigger] d.contains(p)
}

/// A pass over a tree of `root` and its descendants adds only descendants
/// of `root`. Discovery starts from `root` alone, so every tree it reaches
/// holds nothing else.
pub proof fn law_pass_keeps_to_the_tree(root: i32, tree: Set<i32>, procs: Seq<(i32, i32)>)
    requires
        forall|p: i32| #[trigger] tree.contains(p) ==> in_tree_of(root, procs, p),
    ensures
        forall|p: i32| #[trigger] discovery_pass(tree, procs).contains(p) ==> in_tree_of(root, procs, p),
{
    assert forall|p: i32| #[trigger] discovery_pass(tree, procs).contains(p) implies in_tree_of(root, procs, p) by {
        assert forall|d: Set<i32>| d.contains(root) && closed_under_parents(d, procs) implies #[trigger] d.contains(
            p,
        ) by {
            assert forall|q: i32| tree.contains(q) implies d.contains(q) by {
                assert(in_tree_of(root, procs, q));
            }
            law_pass_stays_in_closed_sets(tree, procs, d);
        }
    }
}

/// Once a pass finds nothing new, a tree that holds `root` and only its
/// descendants holds exactly `root` and all of its descendants.
pub proof fn law_discovery_finds_the_tree(root: i32, tree: Set<i32>, procs: Seq<(i32, i32)>)
    requires
        tree.contains(root),
        forall|p: i32| #[trigger] tree.contains(p) ==> in_tree_of(root, procs, p),
        discovery_pass(tree, procs) == tree,
    ensures
        forall|p: i32| #[trigger] tree.contains(p) <==> in_tree_of(root, procs, p),
{
    law_stable_pass_is_closed(tree, procs);
    assert forall|p: i32| in_tree_of(root, procs, p) implies #[trigger] tree.contains(p) by {
        assert(tree.contains(root) && closed_under_parents(tree, procs));
    }
}

/// One discovery pass: every listed process whose parent is in `pids` is
/// added (a process added here can bring in its own children listed after
/// it). Returns whether anything was added.
pub fn discovery_step(pids: &mut HashSet<i32>, procs: &Vec<(i32, i32)>) -> (changed: bool)
    ensures
        final(pids)@ == discovery_pass(old(pids)@, procs@),
        changed == (final(pids)@ != old(pids)@),
{
    let ghost start = pids@;
    let mut changed = false;
    let n = procs.len();
    let mut i: usize = 0;
    while i < n
        invariant
            n == procs@.len(),
            i <= n,
            pids@ == discovery_pass(start, procs@.take(i as int)),
            start.subset_of(pids@),
            changed == (pids@ != start),
        decreases n - i,
    {
        let (pid, ppid) = procs[i];
        assert(procs@.take(i + 1).drop_last() =~= procs@.take(i as int));
        if pids.contains(&ppid) && !pids.contains(&pid) {
            pids.insert(pid);
            changed = true;
            assert(!start.contains(pid));
            assert(pids@.contains(pid));
        }
        i = i + 1;
    }
    assert(procs@.take(n as int) =~= procs@);
    changed
}

/// The count of children only grows, every non-root process of every tree
/// seen is counted, and the root is never counted.
pub proof fn law_children_seen_accumulate(seen: Set<i32>, tree: Set<i32>, root: i32)
    requires
        !seen.contains(root),
    ensures
        seen.subset_of(seen + tree.remove(root)),
        tree.remove(root).subset_of(seen + tree.remove(root)),
        !(seen + tree.remove(root)).contains(root),
{
}

/// The children recorded once `tree` is seen, `seen` having been recorded
/// before: every process of `tree` but the root joins them.
pub open spec fn record_tree(seen: Set<i32>, tree: Set<i32>, root: i32) -> Set<i32> {
    seen + tree.remove(root)
}

/// The children recorded by a fresh tracker for `root` that has seen the
/// trees of `trees`, in order.
pub open spec fn seen_after(root: i32, trees: Seq<Set<i32>>) -> Set<i32>
    decreases trees.len(),
{
    if trees.len() == 0 {
        Set::empty()
    } else {
        record_tree(seen_after(root, trees.drop_last()), trees.last(), root)
    }
}

/// Every process that occurs in any of `trees`.
pub open spec fn union_of(trees: Seq<Set<i32>>) -> Set<i32>
    decreases trees.len(),
{
    if trees.len() == 0 {
        Set::empty()
    } else {
        union_of(trees.drop_last()) + trees.last()
    }
}

/// After any run of updates, the children seen are exactly the processes
/// that occurred in some tree handed over, the root excepted: each counted
/// once however often it was seen. An update only adds children, so where
/// they are finitely many their count never goes down.
pub proof fn law_children_seen_over_updates(root: i32, trees: Seq<Set<i32>>)
    ensures
        seen_after(root, trees) == union_of(trees).remove(root),
        trees.len() > 0 ==> seen_after(root, trees.drop_last()).subset_of(seen_after(root, trees)),
        trees.len() > 0 && seen_after(root, trees).finite() ==> seen_after(
            root,
            trees.drop_last(),
        ).len() <= seen_after(root, trees).len(),
    decreases trees.len(),
{
    if trees.len() > 0 {
        let before = trees.drop_last();
        law_children_seen_over_updates(root, before);
        assert(seen_after(root, trees) =~= union_of(trees).remove(root));
        if seen_after(root, trees).finite() {
            vstd::set_lib::lemma_len_subset(seen_after(root, before), seen_after(root, trees));
        }
    }
}

/// Counts unique child PIDs seen (excluding the root).
pub struct TreeTracker {
    root_pid: i32,
    seen_pids: HashSet<i32>,
    /// The trees handed to `update` so far, in order.
    trees: Ghost<Seq<Set<i32>>>,
}

impl TreeTracker {
    /// The children seen are those of the trees handed over so far.
    #[verifier::type_invariant]
    spec fn records_its_trees(&self) -> bool {
        &&& self.seen_pids@ == seen_after(self.root_pid, self.trees@)
        &&& self.seen_pids@.finite()
    }

    /// The process whose tree is tracked.
    pub closed spec fn root(&self) -> i32 {
        self.root_pid
    }

    /// The children seen so far.
    pub closed spec fn seen(&self) -> Set<i32> {
        self.seen_pids@
    }

    /// The trees handed to `update` so far, in order.
    pub closed spec fn history(&self) -> Seq<Set<i32>> {
        self.trees@
    }

    /// A tracker for the tree under `root_pid` that has seen no child yet.
    pub fn new(root_pid: i32) -> (r: Self)
        ensures
            r.root() == root_pid,
            r.history() == Seq::<Set<i32>>::empty(),
            r.seen() == seen_after(root_pid, Seq::empty()),
    {
        TreeTracker { root_pid, seen_pids: HashSet::new(), trees: Ghost(Seq::empty()) }
    }

    /// Records the processes of a freshly discovered tree (all but the root)
    /// as seen, and hands the tree back: the live processes of the tree,
    /// the root among them.
    pub fn update(&mut self, tree: HashSet<i32>) -> (r: HashSet<i32>)
        requires
            tree@.contains(old(self).root()),
        ensures
            r@ == tree@,
            r@.contains(old(self).root()),
            final(self).root() == old(self).root(),
            final(self).history() == old(self).history().push(tree@),
            final(self).seen() == record_tree(old(self).seen(), tree@, old(self).root()),
            final(self).seen() == seen_after(final(self).root(), final(self).history()),
            old(self).seen().subset_of(final(self).seen()),
            old(self).seen().len() <= final(self).seen().len(),
    {
        proof {
            use_type_invariant(&*self);
        }
        let ghost start = self.seen_pids@;
        let ghost trees = self.trees@;
        let root = self.root_pid;
        let mut held = TreeTracker::new(root);
        std::mem::swap(&mut held, self);
        let TreeTracker { seen_pids: mut seen, .. } = held;
        assert(seen@ == start);
        for pid in it: tree.iter()
            invariant
                it.seq().unref().to_set() == tree@,
                start.finite(),
                seen@.finite(),
                seen@ == start + it.seq().unref().take(it.index() as int).to_set().remove(root),
                it.index() == it.seq().len() ==> seen@ == start + tree@.remove(root),
        {
            let ghost idx = it.index() as int;
            let ghost before = it.seq().unref().take(idx);
            assert(it.seq().unref().take(idx + 1) =~= before.push(*pid));
            if *pid != root {
                seen.insert(*pid);
            }
            proof {
                before.lemma_push_to_set_commute(*pid);
            }
            assert(seen@ =~= start + before.push(*pid).to_set().remove(root));
            assert(it.seq().unref().take(it.seq().len() as int) =~= it.seq().unref());
        }
        let ghost next = trees.push(tree@);
        assert(next.drop_last() =~= trees);
        *self = TreeTracker { root_pid: root, seen_pids: seen, trees: Ghost(next) };
        proof {
            vstd::set_lib::lemma_len_subset(start, seen@);
        }
        tree
    }

    /// Total unique child processes ever seen: those of the trees handed
    /// over so far, the root excepted (see `law_children_seen_over_updates`).
    pub fn total_children_seen(&self) -> (r: u32)
        ensures
            r == self.seen().len() as u32,
            r == union_of(self.history()).remove(self.root()).len() as u32,
    {
        proof {
            use_type_invariant(self);
            law_children_seen_over_updates(self.root_pid, self.trees@);
        }
        self.seen_pids.len() as u32
    }
}

} // verus!
