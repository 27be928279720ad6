//! The subtree expander: grows one tree per root, breadth-first, holding every
//! descendant that carries text, whatever its edit time.
//!
//! Like the root finder it does no I/O: its driver fetches the children it
//! asks for and hands them back.
use vstd::prelude::*;
use crate::block::Block;
use crate::tree::{Tree, NodeView, wf_nodes};
use crate::traversal::{TraversalStep, StepView, ids_view, contains_id, lemma_push_keeps};

verus! {

/// The state of an expander, seen by the contracts.
pub struct ExpanderView {
    /// Roots whose trees are not begun yet, in order.
    pub pending: Seq<Block>,
    /// The trees completed so far, in the order of their roots.
    pub trees: Seq<Seq<NodeView>>,
    /// The tree being grown.
    pub current: Option<Seq<NodeView>>,
    /// Nodes of the current tree waiting to be expanded, in order.
    pub queue: Seq<usize>,
    /// Ids already expanded in this run, over all roots.
    pub visited: Seq<Seq<char>>,
    /// The node whose children were asked for and not yet handed back.
    pub awaiting: Option<usize>,
    /// Every child list handed back so far, by the id of its parent.
    pub fetched: Map<Seq<char>, Seq<Block>>,
}

/// `v` with `b` appended as the last child of node `parent`.
pub open spec fn add_node(v: Seq<NodeView>, parent: usize, b: Block) -> Seq<NodeView> {
    v.update(
        parent as int,
        NodeView { children: v[parent as int].children.push(v.len() as usize), ..v[parent as int] },
    ).push(NodeView { block: b, parent: Some(parent), children: Seq::empty() })
}

/// Attaches, in order, each of `children` that carries text and whose id was
/// not expanded yet under node `parent`, queueing each new node.
pub open spec fn attach_children(
    v: Seq<NodeView>,
    queue: Seq<usize>,
    visited: Seq<Seq<char>>,
    parent: usize,
    children: Seq<Block>,
) -> (Seq<NodeView>, Seq<usize>)
    decreases children.len(),
{
    if children.len() == 0 {
        (v, queue)
    } else {
        let (v1, q1) = attach_children(v, queue, visited, parent, children.drop_last());
        let c = children.last();
        if !visited.contains(c.id@) && c.text@.len() > 0 {
            (add_node(v1, parent, c), q1.push(v1.len() as usize))
        } else {
            (v1, q1)
        }
    }
}

/// One step of the expansion: the state after it and what the driver is
/// asked to do.
pub open spec fn expander_step(s: ExpanderView) -> (ExpanderView, StepView) {
    if s.awaiting is Some && s.current is Some {
        (s, StepView::Fetch(s.current->Some_0[s.awaiting->Some_0 as int].block.id@))
    } else if s.queue.len() > 0 && s.current is Some {
        let i = s.queue[0];
        let b = s.current->Some_0[i as int].block;
        let popped = ExpanderView { queue: s.queue.drop_first(), ..s };
        if s.visited.contains(b.id@) {
            (popped, StepView::Continue)
        } else {
            let seen = ExpanderView { visited: s.visited.push(b.id@), ..popped };
            if b.has_children {
                (ExpanderView { awaiting: Some(i), ..seen }, StepView::Fetch(b.id@))
            } else {
                (seen, StepView::Continue)
            }
        }
    } else if s.current is Some {
        (
            ExpanderView {
                trees: s.trees.push(s.current->Some_0),
                current: None,
                queue: Seq::empty(),
                ..s
            },
            StepView::Continue,
        )
    } else if s.pending.len() > 0 {
        (
            ExpanderView {
                pending: s.pending.drop_first(),
                current: Some(
                    seq![NodeView { block: s.pending[0], parent: None, children: Seq::empty() }],
                ),
                queue: seq![0usize],
                ..s
            },
            StepView::Continue,
        )
    } else {
        (s, StepView::Done)
    }
}

/// The state after the children of the awaited node are handed back; a
/// hand-back that nothing awaits changes nothing.
pub open spec fn expander_deliver(s: ExpanderView, children: Seq<Block>) -> ExpanderView {
    if s.awaiting is Some && s.current is Some {
        let n = s.awaiting->Some_0;
        let c = s.current->Some_0;
        let (c2, q2) = attach_children(c, s.queue, s.visited, n, children);
        ExpanderView {
            current: Some(c2),
            queue: q2,
            awaiting: None,
            fetched: s.fetched.insert(c[n as int].block.id@, children),
            ..s
        }
    } else {
        s
    }
}

/// The ids whose children have been asked for in this run.
pub open spec fn expander_requested(s: ExpanderView) -> Set<Seq<char>> {
    if s.awaiting is Some && s.current is Some {
        s.fetched.dom().insert(s.current->Some_0[s.awaiting->Some_0 as int].block.id@)
    } else {
        s.fetched.dom()
    }
}

/// A tree that is well formed and whose size fits an index.
pub open spec fn sound_tree(v: Seq<NodeView>) -> bool {
    wf_nodes(v) && v.len() <= usize::MAX
}

/// What holds of every state that a run reaches.
pub open spec fn expander_inv(s: ExpanderView) -> bool {
    &&& forall|j: int| 0 <= j < s.trees.len() ==> sound_tree(#[trigger] s.trees[j])
    &&& forall|id: Seq<char>| #[trigger] s.fetched.dom().contains(id) ==> s.visited.contains(id)
    &&& match s.current {
        Some(c) => {
            &&& sound_tree(c)
            &&& forall|k: int| 0 <= k < s.queue.len() ==> #[trigger] s.queue[k] < c.len()
            &&& s.awaiting matches Some(n) ==> {
                &&& n < c.len()
                &&& s.visited.contains(c[n as int].block.id@)
                &&& !s.fetched.dom().contains(c[n as int].block.id@)
            }
        },
        None => s.queue.len() == 0 && s.awaiting is None,
    }
}

/// The state at the start of an expansion of `roots`.
pub open spec fn expander_start(roots: Seq<Block>) -> ExpanderView {
    ExpanderView {
        pending: roots,
        trees: Seq::empty(),
        current: None,
        queue: Seq::empty(),
        visited: Seq::empty(),
        awaiting: None,
        fetched: Map::empty(),
    }
}

/// Grows one tree per root block, breadth-first, with one duplicate guard
/// shared by all of them.
pub struct BlockRootExpander {
    pending: std::collections::VecDeque<Block>,
    trees: Vec<Tree>,
    current: Option<Tree>,
    queue: std::collections::VecDeque<usize>,
    visited: Vec<String>,
    awaiting: Option<usize>,
    fetched: Ghost<Map<Seq<char>, Seq<Block>>>,
}

/// The views of `trees`.
pub open spec fn trees_view(trees: Seq<Tree>) -> Seq<Seq<NodeView>> {
    trees.map_values(|t: Tree| t@)
}

impl View for BlockRootExpander {
    type V = ExpanderView;

    closed spec fn view(&self) -> ExpanderView {
        ExpanderView {
            pending: self.pending@,
            trees: trees_view(self.trees@),
            current: match self.current {
                Some(t) => Some(t@),
                None => None,
            },
            queue: self.queue@,
            visited: ids_view(self.visited@),
            awaiting: self.awaiting,
            fetched: self.fetched@,
        }
    }
}

impl BlockRootExpander {
    pub open spec fn inv(&self) -> bool {
        expander_inv(self@)
    }

    /// An expansion of `block_roots`, one tree per root, in order.
    pub fn new(block_roots: Vec<Block>) -> (e: BlockRootExpander)
        ensures
            e@ == expander_start(block_roots@),
            e.inv(),
    {
        let mut pending = std::collections::VecDeque::new();
        let mut rest = block_roots;
        while rest.len() > 0
            invariant
                rest@ + pending@ == block_roots@,
            decreases rest.len(),
        {
            let ghost before = rest@;
            let ghost queued = pending@;
            let b = rest.pop().unwrap();
            pending.push_front(b);
            proof {
                assert(rest@ + pending@ =~= before + queued);
            }
        }
        let e = BlockRootExpander {
            pending,
            trees: Vec::new(),
            current: None,
            queue: std::collections::VecDeque::new(),
            visited: Vec::new(),
            awaiting: None,
            fetched: Ghost(Map::empty()),
        };
        proof {
            assert(ids_view(e.visited@) =~= Seq::<Seq<char>>::empty());
            assert(trees_view(e.trees@) =~= Seq::<Seq<NodeView>>::empty());
            assert(e@ == expander_start(block_roots@));
        }
        e
    }

    /// Takes one step of the expansion; see `expander_step`.
    pub fn next_step(&mut self) -> (r: TraversalStep)
        requires
            old(self).inv(),
        ensures
            (final(self)@, r@) == expander_step(old(self)@),
            final(self).inv(),
    {
        let ghost s = self@;
        if let Some(n) = self.awaiting {
            match &self.current {
                Some(t) => {
                    return TraversalStep::Fetch(t.block(n).id.clone());
                },
                None => {},
            }
        }
        if self.queue.len() > 0 && self.current.is_some() {
            let i = self.queue.pop_front().unwrap();
            proof {
                assert(s.queue[0] < s.current->Some_0.len());
            }
            let (id, has_children) = match &self.current {
                Some(t) => (t.block(i).id.clone(), t.block(i).has_children),
                None => {
                    return TraversalStep::Done;
                },
            };
            if contains_id(&self.visited, &id) {
                proof {
                    assert(self@ == expander_step(s).0);
                }
                return TraversalStep::Continue;
            }
            self.visited.push(id.clone());
            proof {
                assert(ids_view(self.visited@) =~= s.visited.push(id@));
                assert forall|x: Seq<char>| #[trigger] s.fetched.dom().contains(x) implies self@.visited.contains(x) by {
                    lemma_push_keeps(s.visited, id@, x);
                }
            }
            if has_children {
                self.awaiting = Some(i);
                proof {
                    let c = s.current->Some_0;
                    assert(self@.visited[self@.visited.len() - 1] == c[i as int].block.id@);
                    assert(self@ == expander_step(s).0);
                }
                return TraversalStep::Fetch(id);
            }
            proof {
                assert(self@ == expander_step(s).0);
            }
            return TraversalStep::Continue;
        }
        if self.current.is_some() {
            let t = self.current.take().unwrap();
            self.trees.push(t);
            proof {
                assert(self.queue@ =~= Seq::<usize>::empty());
                assert(trees_view(self.trees@) =~= s.trees.push(t@));
                assert(self@ == expander_step(s).0);
            }
            return TraversalStep::Continue;
        }
        if self.pending.len() > 0 {
            let root = self.pending.pop_front().unwrap();
            self.current = Some(Tree::new(root));
            let mut q = std::collections::VecDeque::new();
            q.push_back(0);
            self.queue = q;
            proof {
                assert(self.queue@ =~= seq![0usize]);
                assert(self@ == expander_step(s).0);
            }
            return TraversalStep::Continue;
        }
        TraversalStep::Done
    }

    /// Hands back the children of the node last asked for, in the source's
    /// order. Each that carries text and was not expanded yet becomes the last
    /// child of that node and waits for its own expansion.
    pub fn deliver_children(&mut self, children: Vec<Block>)
        requires
            old(self).inv(),
        ensures
            final(self)@ == expander_deliver(old(self)@, children@),
            final(self).inv(),
    {
        if self.awaiting.is_some() && self.current.is_some() {
            let ghost s = self@;
            let n = self.awaiting.unwrap();
            let mut t = self.current.take().unwrap();
            let ghost c0 = t@;
            let mut incoming = std::collections::VecDeque::new();
            let mut rest = children;
            while rest.len() > 0
                invariant
                    rest@ + incoming@ == children@,
                decreases rest.len(),
            {
                let ghost before = rest@;
                let ghost queued = incoming@;
                let b = rest.pop().unwrap();
                incoming.push_front(b);
                proof {
                    assert(rest@ + incoming@ =~= before + queued);
                }
            }
            proof {
                assert(incoming@ =~= children@.subrange(0, children@.len() as int));
                assert(children@.subrange(0, 0) =~= Seq::<Block>::empty());
            }
            let ghost mut k: int = 0;
            while incoming.len() > 0
                invariant
                    t.wf(),
                    n < t@.len(),
                    0 <= k <= children@.len(),
                    incoming@ == children@.subrange(k, children@.len() as int),
                    ids_view(self.visited@) == s.visited,
                    self.fetched@ == s.fetched,
                    trees_view(self.trees@) == s.trees,
                    self.pending@ == s.pending,
                    (t@, self.queue@) == attach_children(
                        c0,
                        s.queue,
                        s.visited,
                        n,
                        children@.subrange(0, k),
                    ),
                    forall|j: int| 0 <= j < self.queue@.len() ==> #[trigger] self.queue@[j] < t@.len(),
                decreases incoming.len(),
            {
                let c = incoming.pop_front().unwrap();
                proof {
                    assert(children@.subrange(0, k + 1).drop_last() =~= children@.subrange(0, k));
                    assert(children@.subrange(0, k + 1).last() == c);
                }
                if !contains_id(&self.visited, &c.id) && !c.is_empty() {
                    let idx = t.add_child(n, c);
                    self.queue.push_back(idx);
                }
                proof {
                    k = k + 1;
                }
            }
            proof {
                assert(children@.subrange(0, k) =~= children@);
            }
            self.current = Some(t);
            self.awaiting = None;
            self.fetched = Ghost(self.fetched@.insert(c0[n as int].block.id@, children@));
            proof {
                assert(self@ == expander_deliver(s, children@));
            }
        }
    }

    /// Whether the expansion is over.
    pub fn is_done(&self) -> (r: bool)
        requires
            self.inv(),
        ensures
            r == (expander_step(self@).1 is Done),
    {
        self.awaiting.is_none() && self.current.is_none() && self.pending.len() == 0
    }

    /// Ends the expansion and hands over the completed trees, in the order of
    /// their roots.
    pub fn into_trees(self) -> (r: Vec<Tree>)
        requires
            self.inv(),
        ensures
            trees_view(r@) == self@.trees,
            forall|j: int| 0 <= j < r@.len() ==> (#[trigger] r@[j]).wf(),
    {
        proof {
            assert forall|j: int| 0 <= j < self.trees@.len() implies (#[trigger] self.trees@[j]).wf() by {
                assert(sound_tree(self@.trees[j]));
            }
        }
        self.trees
    }
}

/// The expansion asks for the children of an id at most once per run, over
/// all its roots: a fetch that a step starts is for an id not asked for
/// before, and handing the children back asks for nothing new.
pub proof fn lemma_expand_fetch_at_most_once(s: ExpanderView, children: Seq<Block>)
    requires
        expander_inv(s),
    ensures
        s.awaiting is None && expander_step(s).1 is Fetch ==> {
            let id = expander_step(s).1->Fetch_0;
            &&& !expander_requested(s).contains(id)
            &&& expander_requested(expander_step(s).0) == expander_requested(s).insert(id)
        },
        s.awaiting is None && !(expander_step(s).1 is Fetch) ==> expander_requested(
            expander_step(s).0,
        ) == expander_requested(s),
        s.awaiting is Some ==> expander_step(s).0 == s,
        expander_requested(expander_deliver(s, children)) == expander_requested(s),
{
    if s.awaiting is None && expander_step(s).1 is Fetch {
        let id = expander_step(s).1->Fetch_0;
        assert(!s.visited.contains(id));
        assert(expander_requested(expander_step(s).0) =~= expander_requested(s).insert(id));
    }
    if s.awaiting is None && !(expander_step(s).1 is Fetch) {
        assert(expander_requested(expander_step(s).0) =~= expander_requested(s));
    }
    assert(expander_requested(expander_deliver(s, children)) =~= expander_requested(s));
}
} // verus!
