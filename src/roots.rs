//! The change-scoped root finder: a breadth-first search down a page's
//! blocks that stops at the first block edited at or after the cutoff on each
//! path, and keeps those of them that carry text.
//!
//! The finder does no I/O. Its driver steps it, fetches the children it asks
//! for, and hands them back.
use vstd::prelude::*;
use crate::block::{Block, Timestamp};
use crate::traversal::{TraversalStep, StepView, ids_view, contains_id, lemma_push_keeps};

verus! {

/// How long a finder searches by default, in milliseconds.
pub const DEFAULT_SEARCH_BUDGET_MS: u32 = 30000;

/// The state of a finder, seen by the contracts.
pub struct FinderView {
    /// Blocks waiting to be looked at, in order.
    pub queue: Seq<Block>,
    /// Ids already looked at in this run.
    pub visited: Seq<Seq<char>>,
    /// The roots found so far, in the order found.
    pub roots: Seq<Block>,
    pub cutoff: Timestamp,
    /// After this time no further block is taken from the queue.
    pub deadline: Timestamp,
    /// The id of the block whose children were asked for and not yet
    /// handed back.
    pub awaiting: Option<Seq<char>>,
    /// Whether the search stopped at the deadline.
    pub truncated: bool,
    /// Every child list handed back so far, by the id of its parent.
    pub fetched: Map<Seq<char>, Seq<Block>>,
    /// The page's child blocks that the search started from.
    pub origin: Seq<Block>,
}

/// A block is recent when it was edited at or after the cutoff.
pub open spec fn is_recent(b: Block, cutoff: Timestamp) -> bool {
    b.update_date >= cutoff
}

/// One step of the search, taken at time `now`: the state after it and what
/// the driver is asked to do.
pub open spec fn finder_step(s: FinderView, now: Timestamp) -> (FinderView, StepView) {
    if s.awaiting is Some {
        (s, StepView::Fetch(s.awaiting->Some_0))
    } else if s.truncated || s.queue.len() == 0 {
        (s, StepView::Done)
    } else if now > s.deadline {
        (FinderView { truncated: true, ..s }, StepView::Done)
    } else {
        let b = s.queue[0];
        let popped = FinderView { queue: s.queue.drop_first(), ..s };
        if s.visited.contains(b.id@) {
            (popped, StepView::Continue)
        } else {
            let seen = FinderView { visited: s.visited.push(b.id@), ..popped };
            if is_recent(b, s.cutoff) {
                let roots = if b.text@.len() > 0 {
                    s.roots.push(b)
                } else {
                    s.roots
                };
                (FinderView { roots: roots, ..seen }, StepView::Continue)
            } else if b.has_children {
                (FinderView { awaiting: Some(b.id@), ..seen }, StepView::Fetch(b.id@))
            } else {
                (seen, StepView::Continue)
            }
        }
    }
}

/// The state after the children of the awaited block are handed back; a
/// hand-back that nothing awaits changes nothing.
pub open spec fn finder_deliver(s: FinderView, children: Seq<Block>) -> FinderView {
    match s.awaiting {
        Some(id) => FinderView {
            queue: s.queue + children,
            fetched: s.fetched.insert(id, children),
            awaiting: None,
            ..s
        },
        None => s,
    }
}

/// The ids whose children have been asked for in this run.
pub open spec fn requested(s: FinderView) -> Set<Seq<char>> {
    match s.awaiting {
        Some(id) => s.fetched.dom().insert(id),
        None => s.fetched.dom(),
    }
}

/// Whether `path` leads from a block of `origin` down links of `fetched`:
/// the children handed back for each block but the last hold the next one.
pub open spec fn is_fetch_path(
    origin: Seq<Block>,
    fetched: Map<Seq<char>, Seq<Block>>,
    path: Seq<Block>,
) -> bool {
    &&& path.len() >= 1
    &&& origin.contains(path[0])
    &&& forall|k: int|
        0 <= k < path.len() - 1 ==> #[trigger] fetched.dom().contains(path[k].id@)
            && fetched[path[k].id@].contains(path[k + 1])
}

/// Whether the search has reached `b`: some fetch path ends at it.
pub open spec fn is_reached(s: FinderView, b: Block) -> bool {
    exists|path: Seq<Block>| #[trigger] is_fetch_path(s.origin, s.fetched, path) && path.last() == b
}

proof fn lemma_reached_frame(s: FinderView, t: FinderView)
    requires
        s.origin == t.origin,
        s.fetched == t.fetched,
    ensures
        forall|b: Block| is_reached(s, b) ==> #[trigger] is_reached(t, b),
{
}

proof fn lemma_reached_pop(s: FinderView, t: FinderView)
    requires
        finder_inv(s),
        s.queue.len() > 0,
        t.queue == s.queue.drop_first(),
        s.origin == t.origin,
        s.fetched == t.fetched,
    ensures
        is_reached(t, s.queue[0]),
        forall|i: int| 0 <= i < t.queue.len() ==> is_reached(t, #[trigger] t.queue[i]),
        forall|b: Block| is_reached(s, b) ==> #[trigger] is_reached(t, b),
{
    lemma_reached_frame(s, t);
    assert(is_reached(s, s.queue[0]));
    assert forall|i: int| 0 <= i < t.queue.len() implies is_reached(t, #[trigger] t.queue[i]) by {
        assert(t.queue[i] == s.queue[i + 1]);
        assert(is_reached(s, s.queue[i + 1]));
    }
}

/// Handing back the children of a block not fetched before keeps every block
/// reached, and reaches those children through the block.
proof fn lemma_reached_deliver(s: FinderView, t: FinderView, parent: Block, children: Seq<Block>)
    requires
        is_reached(s, parent),
        !s.fetched.dom().contains(parent.id@),
        t.origin == s.origin,
        t.fetched == s.fetched.insert(parent.id@, children),
    ensures
        forall|b: Block| is_reached(s, b) ==> #[trigger] is_reached(t, b),
        forall|c: Block| children.contains(c) ==> #[trigger] is_reached(t, c),
{
    assert forall|b: Block| is_reached(s, b) implies #[trigger] is_reached(t, b) by {
        let path = choose|path: Seq<Block>|
            #[trigger] is_fetch_path(s.origin, s.fetched, path) && path.last() == b;
        assert forall|k: int| 0 <= k < path.len() - 1 implies #[trigger] t.fetched.dom().contains(
            path[k].id@,
        ) && t.fetched[path[k].id@].contains(path[k + 1]) by {
            assert(s.fetched.dom().contains(path[k].id@));
        }
        assert(is_fetch_path(t.origin, t.fetched, path));
    }
    assert forall|c: Block| children.contains(c) implies #[trigger] is_reached(t, c) by {
        let path = choose|path: Seq<Block>|
            #[trigger] is_fetch_path(s.origin, s.fetched, path) && path.last() == parent;
        let longer = path.push(c);
        assert forall|k: int| 0 <= k < longer.len() - 1 implies #[trigger] t.fetched.dom().contains(
            longer[k].id@,
        ) && t.fetched[longer[k].id@].contains(longer[k + 1]) by {
            if k < path.len() - 1 {
                assert(s.fetched.dom().contains(path[k].id@));
                assert(longer[k] == path[k] && longer[k + 1] == path[k + 1]);
            } else {
                assert(longer[k] == parent);
            }
        }
        assert(longer[0] == path[0]);
        assert(is_fetch_path(t.origin, t.fetched, longer));
    }
}

/// What holds of every state that a run reaches.
pub open spec fn finder_inv(s: FinderView) -> bool {
    &&& forall|id: Seq<char>| #[trigger] s.fetched.dom().contains(id) ==> s.visited.contains(id)
    &&& s.awaiting matches Some(id) ==> s.visited.contains(id) && !s.fetched.dom().contains(id)
    &&& forall|i: int|
        #![trigger s.roots[i]]
        0 <= i < s.roots.len() ==> {
            &&& is_recent(s.roots[i], s.cutoff)
            &&& s.roots[i].text@.len() > 0
            &&& s.visited.contains(s.roots[i].id@)
            &&& !requested(s).contains(s.roots[i].id@)
            &&& is_reached(s, s.roots[i])
        }
    &&& forall|i: int| 0 <= i < s.queue.len() ==> is_reached(s, #[trigger] s.queue[i])
    &&& s.awaiting matches Some(id) ==> exists|b: Block| b.id@ == id && #[trigger] is_reached(s, b)
}

/// `min(start + budget, i64::MAX)`.
pub open spec fn deadline_after(start: Timestamp, budget_ms: u32) -> Timestamp {
    if start + budget_ms > i64::MAX {
        i64::MAX
    } else {
        (start + budget_ms) as Timestamp
    }
}

/// The state at the start of a search.
pub open spec fn finder_start(
    child_blocks: Seq<Block>,
    cutoff: Timestamp,
    deadline: Timestamp,
) -> FinderView {
    FinderView {
        queue: child_blocks,
        visited: Seq::empty(),
        roots: Seq::empty(),
        cutoff: cutoff,
        deadline: deadline,
        awaiting: None,
        truncated: false,
        fetched: Map::empty(),
        origin: child_blocks,
    }
}

/// Relies on chrono's `Utc::now` and `DateTime::timestamp_millis`: the
/// current time, in milliseconds since the epoch. Nothing is promised of the
/// value. `Utc::now` panics only when the system clock reads before 1970.
#[verifier::external_body]
fn clock_now() -> (t: Timestamp) {
    chrono::Utc::now().timestamp_millis()
}

/// A breadth-first search for the highest recently edited blocks of a page.
pub struct BlockRootFinder {
    queue: std::collections::VecDeque<Block>,
    visited: Vec<String>,
    roots: Vec<Block>,
    cutoff: Timestamp,
    deadline: Timestamp,
    awaiting: Option<String>,
    truncated: bool,
    fetched: Ghost<Map<Seq<char>, Seq<Block>>>,
    origin: Ghost<Seq<Block>>,
}

impl View for BlockRootFinder {
    type V = FinderView;

    closed spec fn view(&self) -> FinderView {
        FinderView {
            queue: self.queue@,
            visited: ids_view(self.visited@),
            roots: self.roots@,
            cutoff: self.cutoff,
            deadline: self.deadline,
            awaiting: match self.awaiting {
                Some(id) => Some(id@),
                None => None,
            },
            truncated: self.truncated,
            fetched: self.fetched@,
            origin: self.origin@,
        }
    }
}

impl BlockRootFinder {
    pub open spec fn inv(&self) -> bool {
        finder_inv(self@)
    }

    /// A search over `child_blocks`, the immediate children of a page, that
    /// takes no block from its queue after `start + budget_ms`.
    pub fn with_deadline(
        child_blocks: Vec<Block>,
        cutoff: Timestamp,
        start: Timestamp,
        budget_ms: u32,
    ) -> (f: BlockRootFinder)
        ensures
            f@ == finder_start(child_blocks@, cutoff, deadline_after(start, budget_ms)),
            f.inv(),
    {
        let deadline = if start > i64::MAX - budget_ms as i64 {
            i64::MAX
        } else {
            start + budget_ms as i64
        };
        let mut queue = std::collections::VecDeque::new();
        let mut rest = child_blocks;
        while rest.len() > 0
            invariant
                rest@ + queue@ == child_blocks@,
            decreases rest.len(),
        {
            let ghost before = rest@;
            let ghost queued = queue@;
            let b = rest.pop().unwrap();
            queue.push_front(b);
            proof {
                assert(rest@ + queue@ =~= before + queued);
            }
        }
        let f = BlockRootFinder {
            queue,
            visited: Vec::new(),
            roots: Vec::new(),
            cutoff,
            deadline,
            awaiting: None,
            truncated: false,
            fetched: Ghost(Map::empty()),
            origin: Ghost(child_blocks@),
        };
        proof {
            assert(ids_view(f.visited@) =~= Seq::<Seq<char>>::empty());
            assert(f@ == finder_start(child_blocks@, cutoff, deadline_after(start, budget_ms)));
            assert forall|i: int| 0 <= i < f@.queue.len() implies is_reached(f@, #[trigger] f@.queue[i]) by {
                let path = seq![f@.queue[i]];
                assert(f@.origin[i] == path[0]);
                assert(is_fetch_path(f@.origin, f@.fetched, path));
            }
        }
        f
    }

    /// A search over `child_blocks` that starts now and gives up taking blocks
    /// from its queue once `DEFAULT_SEARCH_BUDGET_MS` have passed.
    pub fn new(child_blocks: Vec<Block>, cutoff: Timestamp) -> (f: BlockRootFinder)
        ensures
            exists|start: Timestamp|
                f@ == finder_start(
                    child_blocks@,
                    cutoff,
                    deadline_after(start, DEFAULT_SEARCH_BUDGET_MS),
                ),
            f.inv(),
    {
        let start = clock_now();
        Self::with_deadline(child_blocks, cutoff, start, DEFAULT_SEARCH_BUDGET_MS)
    }

    /// Takes one step of the search at time `now`; see `finder_step`.
    pub fn next_step(&mut self, now: Timestamp) -> (r: TraversalStep)
        requires
            old(self).inv(),
        ensures
            (final(self)@, r@) == finder_step(old(self)@, now),
            final(self).inv(),
    {
        if let Some(id) = &self.awaiting {
            return TraversalStep::Fetch(id.clone());
        }
        if self.truncated || self.queue.len() == 0 {
            return TraversalStep::Done;
        }
        if now > self.deadline {
            let ghost s0 = self@;
            self.truncated = true;
            proof {
                lemma_reached_frame(s0, self@);
            }
            return TraversalStep::Done;
        }
        let ghost s = self@;
        let b = self.queue.pop_front().unwrap();
        proof {
            lemma_reached_pop(s, finder_step(s, now).0);
        }
        if contains_id(&self.visited, &b.id) {
            proof {
                assert(self@ == finder_step(s, now).0);
            }
            return TraversalStep::Continue;
        }
        self.visited.push(b.id.clone());
        proof {
            assert(ids_view(self.visited@) =~= s.visited.push(b.id@));
        }
        if b.update_date >= self.cutoff {
            if !b.is_empty() {
                self.roots.push(b);
            }
            proof {
                let t = finder_step(s, now).0;
                assert(self@ == t);
                assert forall|id: Seq<char>| #[trigger] t.fetched.dom().contains(id) implies t.visited.contains(id) by {
                    lemma_push_keeps(s.visited, b.id@, id);
                }
                assert forall|i: int| #![trigger t.roots[i]] 0 <= i < t.roots.len() implies {
                    &&& is_recent(t.roots[i], t.cutoff)
                    &&& t.roots[i].text@.len() > 0
                    &&& t.visited.contains(t.roots[i].id@)
                    &&& !requested(t).contains(t.roots[i].id@)
                    &&& is_reached(t, t.roots[i])
                } by {
                    if i < s.roots.len() {
                        assert(s.roots[i] == t.roots[i]);
                        lemma_push_keeps(s.visited, b.id@, t.roots[i].id@);
                    } else {
                        assert(t.visited[t.visited.len() - 1] == t.roots[i].id@);
                        assert(!s.fetched.dom().contains(b.id@));
                    }
                }
            }
            TraversalStep::Continue
        } else if b.has_children {
            let id = b.id.clone();
            self.awaiting = Some(b.id);
            proof {
                let t = finder_step(s, now).0;
                assert(self@ == t);
                assert(t.visited[t.visited.len() - 1] == b.id@);
                assert(is_reached(t, b));
                assert forall|id: Seq<char>| #[trigger] t.fetched.dom().contains(id) implies t.visited.contains(id) by {
                    lemma_push_keeps(s.visited, b.id@, id);
                }
                assert forall|i: int| #![trigger t.roots[i]] 0 <= i < t.roots.len() implies {
                    &&& t.visited.contains(t.roots[i].id@)
                    &&& !requested(t).contains(t.roots[i].id@)
                    &&& is_reached(t, t.roots[i])
                } by {
                    assert(s.roots[i] == t.roots[i]);
                    lemma_push_keeps(s.visited, b.id@, t.roots[i].id@);
                }
            }
            TraversalStep::Fetch(id)
        } else {
            proof {
                let t = finder_step(s, now).0;
                assert(self@ == t);
                assert forall|id: Seq<char>| #[trigger] t.fetched.dom().contains(id) implies t.visited.contains(id) by {
                    lemma_push_keeps(s.visited, b.id@, id);
                }
                assert forall|i: int| #![trigger t.roots[i]] 0 <= i < t.roots.len() implies {
                    t.visited.contains(t.roots[i].id@) && is_reached(t, t.roots[i])
                } by {
                    assert(s.roots[i] == t.roots[i]);
                    lemma_push_keeps(s.visited, b.id@, t.roots[i].id@);
                }
            }
            TraversalStep::Continue
        }
    }

    /// Takes one step of the search at the current time.
    pub fn poll(&mut self) -> (r: TraversalStep)
        requires
            old(self).inv(),
        ensures
            exists|now: Timestamp| (final(self)@, r@) == finder_step(old(self)@, now),
            final(self).inv(),
    {
        let now = clock_now();
        self.next_step(now)
    }

    /// Hands back the children of the block last asked for, in the source's
    /// order; they join the back of the queue.
    pub fn deliver_children(&mut self, children: Vec<Block>)
        requires
            old(self).inv(),
        ensures
            final(self)@ == finder_deliver(old(self)@, children@),
            final(self).inv(),
    {
        if self.awaiting.is_some() {
            let ghost s = self@;
            let ghost id = s.awaiting->Some_0;
            let mut rest = children;
            let mut tail = std::collections::VecDeque::new();
            while rest.len() > 0
                invariant
                    rest@ + tail@ == children@,
                decreases rest.len(),
            {
                let ghost before = rest@;
                let ghost queued = tail@;
                let b = rest.pop().unwrap();
                tail.push_front(b);
                proof {
                    assert(rest@ + tail@ =~= before + queued);
                }
            }
            self.queue.append(&mut tail);
            self.awaiting = None;
            self.fetched = Ghost(self.fetched@.insert(id, children@));
            proof {
                let t = finder_deliver(s, children@);
                assert(self@ == t);
                let parent = choose|b: Block| b.id@ == id && #[trigger] is_reached(s, b);
                lemma_reached_deliver(s, t, parent, children@);
                assert forall|i: int| #![trigger t.roots[i]] 0 <= i < t.roots.len() implies {
                    !requested(t).contains(t.roots[i].id@) && is_reached(t, t.roots[i])
                } by {
                    assert(s.roots[i] == t.roots[i]);
                    assert(requested(t) =~= requested(s));
                }
                assert forall|i: int| 0 <= i < t.queue.len() implies is_reached(t, #[trigger] t.queue[i]) by {
                    if i < s.queue.len() {
                        assert(t.queue[i] == s.queue[i]);
                    } else {
                        assert(t.queue[i] == children@[i - s.queue.len()]);
                        assert(children@.contains(t.queue[i]));
                    }
                }
            }
        }
    }

    /// The roots found so far.
    pub fn roots(&self) -> (r: &Vec<Block>)
        ensures
            r@ == self@.roots,
    {
        &self.roots
    }

    /// Whether the search stopped at its deadline.
    pub fn was_truncated(&self) -> (r: bool)
        ensures
            r == self@.truncated,
    {
        self.truncated
    }

    /// Ends the search and hands over the roots found, in the order found.
    pub fn into_roots(self) -> (r: Vec<Block>)
        requires
            self.inv(),
        ensures
            r@ == self@.roots,
            forall|i: int|
                0 <= i < r@.len() ==> is_recent(#[trigger] r@[i], self@.cutoff) && r@[i].text@.len()
                    > 0,
    {
        proof {
            assert forall|i: int| 0 <= i < self@.roots.len() implies is_recent(
                #[trigger] self@.roots[i],
                self@.cutoff,
            ) && self@.roots[i].text@.len() > 0 by {
                assert(is_recent(self@.roots[i], self@.cutoff));
            }
        }
        self.roots
    }
}

/// Whether `path` runs down parent/child links that the source reported in
/// the run: the children handed back for each block hold the next one.
pub open spec fn is_reported_path(fetched: Map<Seq<char>, Seq<Block>>, path: Seq<Block>) -> bool {
    &&& path.len() >= 2
    &&& forall|k: int|
        0 <= k < path.len() - 1 ==> #[trigger] fetched.dom().contains(path[k].id@)
            && fetched[path[k].id@].contains(path[k + 1])
}

/// No root found is an ancestor of another root: the search never descends
/// below a root, so no path of reported links starts at one.
pub proof fn lemma_roots_not_nested(finder: &BlockRootFinder, path: Seq<Block>)
    requires
        finder.inv(),
        is_reported_path(finder@.fetched, path),
    ensures
        !finder@.roots.contains(path[0]),
        finder@.roots.contains(path[0]) ==> !finder@.roots.contains(path.last()),
{
    let s = finder@;
    assert(s.fetched.dom().contains(path[0].id@));
    if s.roots.contains(path[0]) {
        let i = choose|i: int| 0 <= i < s.roots.len() && s.roots[i] == path[0];
        assert(!requested(s).contains(s.roots[i].id@));
    }
}

/// The search asks for the children of an id at most once per run: a fetch
/// that a step starts is for an id not asked for before, and handing the
/// children back asks for nothing new.
pub proof fn lemma_fetch_at_most_once(s: FinderView, now: Timestamp, children: Seq<Block>)
    requires
        finder_inv(s),
    ensures
        s.awaiting is None && finder_step(s, now).1 is Fetch ==> {
            let id = finder_step(s, now).1->Fetch_0;
            &&& !requested(s).contains(id)
            &&& requested(finder_step(s, now).0) == requested(s).insert(id)
        },
        s.awaiting is None && !(finder_step(s, now).1 is Fetch) ==> requested(finder_step(s, now).0)
            == requested(s),
        s.awaiting is Some ==> finder_step(s, now).0 == s,
        requested(finder_deliver(s, children)) == requested(s),
{
    if s.awaiting is None && finder_step(s, now).1 is Fetch {
        let id = finder_step(s, now).1->Fetch_0;
        assert(!s.visited.contains(id));
        assert(requested(finder_step(s, now).0) =~= requested(s).insert(id));
    }
    if s.awaiting is None && !(finder_step(s, now).1 is Fetch) {
        assert(requested(finder_step(s, now).0) =~= requested(s));
    }
    assert(requested(finder_deliver(s, children)) =~= requested(s));
}

/// With a budget of zero and blocks queued, the first step taken after the
/// start returns at once: it reports the search done, fetches nothing, finds
/// no root and leaves the queue as it was.
pub proof fn lemma_zero_budget_stops(
    child_blocks: Seq<Block>,
    cutoff: Timestamp,
    start: Timestamp,
    now: Timestamp,
)
    requires
        child_blocks.len() > 0,
        now > start,
    ensures
        ({
            let s = finder_start(child_blocks, cutoff, deadline_after(start, 0));
            let (t, step) = finder_step(s, now);
            &&& step is Done
            &&& t.roots.len() == 0
            &&& t.queue == child_blocks
            &&& t.truncated
            &&& t.fetched == s.fetched
        }),
{
}
/// Two searches driven alike, the second with a cutoff no earlier than the
/// first: they stand at the same point, and every root of the second is a
/// root of the first.
pub open spec fn in_lockstep(s1: FinderView, s2: FinderView) -> bool {
    &&& s1.cutoff <= s2.cutoff
    &&& s1.queue == s2.queue
    &&& s1.visited == s2.visited
    &&& s1.deadline == s2.deadline
    &&& s1.awaiting == s2.awaiting
    &&& s1.truncated == s2.truncated
    &&& s1.fetched == s2.fetched
    &&& forall|i: int| 0 <= i < s2.roots.len() ==> s1.roots.contains(#[trigger] s2.roots[i])
}

/// Whether the next block to be looked at is one that only the search with
/// the later cutoff would descend into: a block with children edited at or
/// after the earlier cutoff and before the later one.
pub open spec fn splits_searches(s1: FinderView, s2: FinderView) -> bool {
    s1.queue.len() > 0 && !s1.visited.contains(s1.queue[0].id@) && s1.cutoff
        <= s1.queue[0].update_date < s2.cutoff && s1.queue[0].has_children
}

/// Raising the cutoff only removes roots. Two searches over the same blocks,
/// the second with the later cutoff, start in lockstep.
pub proof fn lemma_raised_cutoff_start(
    child_blocks: Seq<Block>,
    cutoff: Timestamp,
    raised: Timestamp,
    deadline: Timestamp,
)
    requires
        cutoff <= raised,
    ensures
        in_lockstep(
            finder_start(child_blocks, cutoff, deadline),
            finder_start(child_blocks, raised, deadline),
        ),
{
}

/// Raising the cutoff only removes roots. Searches in lockstep stay so
/// through each step taken at the same time, asking for the same fetch, and
/// through each hand-back of the same children, unless the step looks at a
/// block that only the later cutoff descends into: below such a block the
/// later search may find roots that the earlier one never reaches.
pub proof fn lemma_raised_cutoff_step(
    s1: FinderView,
    s2: FinderView,
    now: Timestamp,
    children: Seq<Block>,
)
    requires
        in_lockstep(s1, s2),
        !splits_searches(s1, s2),
    ensures
        finder_step(s1, now).1 == finder_step(s2, now).1,
        in_lockstep(finder_step(s1, now).0, finder_step(s2, now).0),
        in_lockstep(finder_deliver(s1, children), finder_deliver(s2, children)),
{
    let t1 = finder_step(s1, now).0;
    let t2 = finder_step(s2, now).0;
    if s1.awaiting is None && !s1.truncated && s1.queue.len() > 0 && now <= s1.deadline {
        let b = s1.queue[0];
        assert forall|i: int| 0 <= i < t2.roots.len() implies t1.roots.contains(
            #[trigger] t2.roots[i],
        ) by {
            if i < s2.roots.len() {
                assert(s1.roots.contains(s2.roots[i]));
                let j = choose|j: int| 0 <= j < s1.roots.len() && s1.roots[j] == s2.roots[i];
                assert(t1.roots[j] == s1.roots[j]);
            } else {
                assert(t1.roots[t1.roots.len() - 1] == b);
            }
        }
    }
}
} // verus!
