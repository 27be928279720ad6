//! A fixed, in-memory copy of a remote block tree, and drivers that run the
//! traversals against it to the end.
use vstd::prelude::*;
use crate::block::{Block, Timestamp};
use crate::traversal::TraversalStep;
use crate::roots::{BlockRootFinder, FinderView, finder_step, requested, is_fetch_path, is_reached};
use crate::expand::{BlockRootExpander, expander_step, expander_requested};

verus! {

/// The children that a block holds.
pub struct SnapshotEntry {
    pub parent_id: String,
    pub children: Vec<Block>,
}

/// A remote block tree frozen in memory: for some block ids, their children
/// in order. A block with no entry has no children.
pub struct BlockSnapshot {
    pub entries: Vec<SnapshotEntry>,
}

/// The children of `id` in `entries`: those of the first entry for it.
pub open spec fn snapshot_children(entries: Seq<SnapshotEntry>, id: Seq<char>) -> Seq<Block>
    decreases entries.len(),
{
    if entries.len() == 0 {
        Seq::empty()
    } else if entries[0].parent_id@ == id {
        entries[0].children@
    } else {
        snapshot_children(entries.drop_first(), id)
    }
}

/// The ids that have an entry.
pub open spec fn snapshot_keys(entries: Seq<SnapshotEntry>) -> Set<Seq<char>> {
    entries.map_values(|e: SnapshotEntry| e.parent_id@).to_set()
}

/// Whether every child list in `fetched` is the one that `entries` holds.
pub open spec fn agrees_with(fetched: Map<Seq<char>, Seq<Block>>, entries: Seq<SnapshotEntry>) -> bool {
    forall|id: Seq<char>|
        #[trigger] fetched.dom().contains(id) ==> fetched[id] == snapshot_children(entries, id)
}

proof fn lemma_no_entry(entries: Seq<SnapshotEntry>, id: Seq<char>)
    requires
        !snapshot_keys(entries).contains(id),
    ensures
        snapshot_children(entries, id) == Seq::<Block>::empty(),
    decreases entries.len(),
{
    if entries.len() > 0 {
        assert(entries.map_values(|e: SnapshotEntry| e.parent_id@)[0] == entries[0].parent_id@);
        assert forall|x: Seq<char>| #[trigger] snapshot_keys(entries.drop_first()).contains(x)
            implies snapshot_keys(entries).contains(x) by {
            let m = entries.drop_first().map_values(|e: SnapshotEntry| e.parent_id@);
            let j = choose|j: int| 0 <= j < m.len() && m[j] == x;
            assert(entries.map_values(|e: SnapshotEntry| e.parent_id@)[j + 1] == x);
        }
        lemma_no_entry(entries.drop_first(), id);
    }
}

impl BlockSnapshot {
    /// The children of the block `id`, as a fresh list.
    pub fn children_of(&self, id: &String) -> (r: Vec<Block>)
        ensures
            r@ == snapshot_children(self.entries@, id@),
    {
        let mut k: usize = 0;
        proof {
            assert(self.entries@.subrange(0, self.entries@.len() as int) =~= self.entries@);
        }
        while k < self.entries.len()
            invariant
                k <= self.entries@.len(),
                snapshot_children(self.entries@, id@) == snapshot_children(
                    self.entries@.subrange(k as int, self.entries@.len() as int),
                    id@,
                ),
            decreases self.entries.len() - k,
        {
            proof {
                let rest = self.entries@.subrange(k as int, self.entries@.len() as int);
                assert(rest.drop_first() =~= self.entries@.subrange(
                    k + 1,
                    self.entries@.len() as int,
                ));
                assert(rest[0] == self.entries@[k as int]);
            }
            if self.entries[k].parent_id == *id {
                let src = &self.entries[k].children;
                let mut out: Vec<Block> = Vec::new();
                let mut j: usize = 0;
                while j < src.len()
                    invariant
                        j <= src@.len(),
                        out@ == src@.subrange(0, j as int),
                    decreases src.len() - j,
                {
                    out.push(src[j].copy());
                    proof {
                        assert(out@ =~= src@.subrange(0, j + 1));
                    }
                    j += 1;
                }
                proof {
                    assert(out@ =~= src@);
                }
                return out;
            }
            k += 1;
        }
        proof {
            assert(self.entries@.subrange(k as int, self.entries@.len() as int).len() == 0);
        }
        Vec::new()
    }
}

/// The ids with an entry whose children have not been asked for.
pub open spec fn keys_left(entries: Seq<SnapshotEntry>, asked: Set<Seq<char>>) -> nat {
    snapshot_keys(entries).difference(asked).len()
}

proof fn lemma_keys_left_shrinks(entries: Seq<SnapshotEntry>, asked: Set<Seq<char>>, id: Seq<char>)
    requires
        !asked.contains(id),
    ensures
        snapshot_keys(entries).contains(id) ==> keys_left(entries, asked.insert(id)) < keys_left(
            entries,
            asked,
        ),
        !snapshot_keys(entries).contains(id) ==> keys_left(entries, asked.insert(id)) == keys_left(
            entries,
            asked,
        ),
{
    let keys = snapshot_keys(entries);
    let m = entries.map_values(|e: SnapshotEntry| e.parent_id@);
    vstd::seq_lib::seq_to_set_is_finite(m);
    vstd::set::axiom_set_difference_finite(keys, asked);
    if keys.contains(id) {
        assert(keys.difference(asked.insert(id)) =~= keys.difference(asked).remove(id));
        vstd::set::axiom_set_remove_len(keys.difference(asked), id);
    } else {
        assert(keys.difference(asked.insert(id)) =~= keys.difference(asked));
    }
}

impl BlockSnapshot {
    /// Runs `finder` against this snapshot at time `now` until it is done,
    /// answering each fetch with the children that the snapshot holds.
    /// Terminates on every snapshot, cycles and repeated ids included.
    pub fn run_finder(&self, finder: &mut BlockRootFinder, now: Timestamp)
        requires
            old(finder).inv(),
            agrees_with(old(finder)@.fetched, self.entries@),
        ensures
            final(finder).inv(),
            agrees_with(final(finder)@.fetched, self.entries@),
            finder_step(final(finder)@, now).1 is Done,
    {
        loop
            invariant
                finder.inv(),
                agrees_with(finder@.fetched, self.entries@),
            ensures
                finder.inv(),
                agrees_with(finder@.fetched, self.entries@),
                finder_step(finder@, now).1 is Done,
            decreases
                keys_left(self.entries@, requested(finder@)),
                if finder@.awaiting is Some {
                    1nat
                } else {
                    0nat
                },
                finder@.queue.len(),
        {
            let ghost before = finder@;
            let step = finder.next_step(now);
            match step {
                TraversalStep::Fetch(id) => {
                    let ghost mid = finder@;
                    let children = self.children_of(&id);
                    finder.deliver_children(children);
                    proof {
                        let after = finder@;
                        assert(requested(after) =~= mid.fetched.dom().insert(id@));
                        assert forall|x: Seq<char>| #[trigger] after.fetched.dom().contains(x) implies after.fetched[x]
                            == snapshot_children(self.entries@, x) by {
                            if x != id@ {
                                assert(before.fetched.dom().contains(x));
                            }
                        }
                        if before.awaiting is None {
                            assert(requested(before) =~= before.fetched.dom());
                            assert(!before.visited.contains(id@));
                            assert(!requested(before).contains(id@));
                            assert(requested(after) =~= requested(before).insert(id@));
                            lemma_keys_left_shrinks(self.entries@, requested(before), id@);
                            if !snapshot_keys(self.entries@).contains(id@) {
                                lemma_no_entry(self.entries@, id@);
                                assert(after.queue =~= before.queue.drop_first());
                            }
                        } else {
                            assert(requested(after) =~= requested(before));
                        }
                    }
                },
                TraversalStep::Continue => {},
                TraversalStep::Done => {
                    break ;
                },
            }
        }
    }

    /// Runs `expander` against this snapshot until it is done, answering each
    /// fetch with the children that the snapshot holds. Terminates on every
    /// snapshot, cycles and repeated ids included.
    pub fn run_expander(&self, expander: &mut BlockRootExpander)
        requires
            old(expander).inv(),
            agrees_with(old(expander)@.fetched, self.entries@),
        ensures
            final(expander).inv(),
            agrees_with(final(expander)@.fetched, self.entries@),
            expander_step(final(expander)@).1 is Done,
    {
        loop
            invariant
                expander.inv(),
                agrees_with(expander@.fetched, self.entries@),
            ensures
                expander.inv(),
                agrees_with(expander@.fetched, self.entries@),
                expander_step(expander@).1 is Done,
            decreases
                keys_left(self.entries@, expander_requested(expander@)),
                if expander@.awaiting is Some {
                    1nat
                } else {
                    0nat
                },
                expander@.pending.len(),
                if expander@.current is Some {
                    1nat
                } else {
                    0nat
                },
                expander@.queue.len(),
        {
            let ghost before = expander@;
            let step = expander.next_step();
            match step {
                TraversalStep::Fetch(id) => {
                    let ghost mid = expander@;
                    let children = self.children_of(&id);
                    expander.deliver_children(children);
                    proof {
                        let after = expander@;
                        let key = mid.current->Some_0[mid.awaiting->Some_0 as int].block.id@;
                        assert(key == id@);
                        assert(expander_requested(after) =~= mid.fetched.dom().insert(id@));
                        assert forall|x: Seq<char>| #[trigger] after.fetched.dom().contains(x) implies after.fetched[x]
                            == snapshot_children(self.entries@, x) by {
                            if x != id@ {
                                assert(before.fetched.dom().contains(x));
                            }
                        }
                        if before.awaiting is None {
                            assert(expander_requested(before) =~= before.fetched.dom());
                            assert(!before.visited.contains(id@));
                            assert(!expander_requested(before).contains(id@));
                            assert(expander_requested(after) =~= expander_requested(before).insert(
                                id@,
                            ));
                            lemma_keys_left_shrinks(self.entries@, expander_requested(before), id@);
                            if !snapshot_keys(self.entries@).contains(id@) {
                                lemma_no_entry(self.entries@, id@);
                                assert(after.queue =~= before.queue.drop_first());
                            }
                        } else {
                            assert(expander_requested(after) =~= expander_requested(before));
                        }
                    }
                },
                TraversalStep::Continue => {},
                TraversalStep::Done => {
                    break ;
                },
            }
        }
    }
}
/// Whether the snapshot holds a forest under `origin`: no child shares its
/// id with a block of `origin`, and children sharing an id hang under the
/// same parent id. A cycle reachable from `origin` breaks this.
pub open spec fn is_forest(entries: Seq<SnapshotEntry>, origin: Seq<Block>) -> bool {
    &&& forall|a: Seq<char>, c: Block, o: Block|
        #![trigger snapshot_children(entries, a).contains(c), origin.contains(o)]
        snapshot_children(entries, a).contains(c) && origin.contains(o) ==> c.id@ != o.id@
    &&& forall|a1: Seq<char>, a2: Seq<char>, c1: Block, c2: Block|
        #![trigger snapshot_children(entries, a1).contains(c1), snapshot_children(entries, a2).contains(c2)]
        snapshot_children(entries, a1).contains(c1) && snapshot_children(entries, a2).contains(c2)
            && c1.id@ == c2.id@ ==> a1 == a2
}

/// Whether `path` runs down the snapshot's own parent/child links, so that
/// its first block is an ancestor of its last.
pub open spec fn is_snapshot_path(entries: Seq<SnapshotEntry>, path: Seq<Block>) -> bool {
    &&& path.len() >= 2
    &&& forall|k: int|
        0 <= k < path.len() - 1 ==> #[trigger] snapshot_children(entries, path[k].id@).contains(
            path[k + 1],
        )
}

/// Walking up from a common last block, a snapshot path and a fetch path
/// meet the same ids, and the fetch path is at least as long.
proof fn lemma_paths_agree(
    entries: Seq<SnapshotEntry>,
    s: FinderView,
    p: Seq<Block>,
    q: Seq<Block>,
    k: int,
)
    requires
        agrees_with(s.fetched, entries),
        is_forest(entries, s.origin),
        is_fetch_path(s.origin, s.fetched, p),
        is_snapshot_path(entries, q),
        p.last().id@ == q.last().id@,
        0 <= k < q.len(),
    ensures
        p.len() - 1 - k >= 0,
        p[p.len() - 1 - k].id@ == q[q.len() - 1 - k].id@,
    decreases k,
{
    if k > 0 {
        lemma_paths_agree(entries, s, p, q, k - 1);
        let i = p.len() - k;
        let j = q.len() - k;
        let up = j - 1;
        assert(snapshot_children(entries, q[up].id@).contains(q[up + 1]));
        if i == 0 {
            assert(s.origin.contains(p[0]));
            assert(q[j].id@ != p[0].id@);
        } else {
            let above = i - 1;
            assert(s.fetched.dom().contains(p[above].id@) && s.fetched[p[above].id@].contains(
                p[above + 1],
            ));
            assert(snapshot_children(entries, p[above].id@).contains(p[above + 1]));
        }
    }
}

/// No root found is an ancestor of another root in the remote tree itself:
/// when the snapshot that answered the search is a forest under the page's
/// child blocks, no path of its parent/child links leads from a root to
/// another root.
pub proof fn lemma_roots_not_nested_in_snapshot(
    snapshot: &BlockSnapshot,
    finder: &BlockRootFinder,
    path: Seq<Block>,
)
    requires
        finder.inv(),
        agrees_with(finder@.fetched, snapshot.entries@),
        is_forest(snapshot.entries@, finder@.origin),
        is_snapshot_path(snapshot.entries@, path),
        finder@.roots.contains(path.last()),
    ensures
        !finder@.roots.contains(path[0]),
{
    let s = finder@;
    let entries = snapshot.entries@;
    let r = choose|i: int| 0 <= i < s.roots.len() && s.roots[i] == path.last();
    assert(is_reached(s, s.roots[r]));
    let p = choose|p: Seq<Block>| #[trigger] is_fetch_path(s.origin, s.fetched, p) && p.last() == path.last();
    lemma_paths_agree(entries, s, p, path, path.len() - 1);
    let i0 = p.len() - path.len();
    assert(s.fetched.dom().contains(p[i0].id@));
    if s.roots.contains(path[0]) {
        let j = choose|j: int| 0 <= j < s.roots.len() && s.roots[j] == path[0];
        assert(!requested(s).contains(s.roots[j].id@));
    }
}
} // verus!
