//! What the traversals share: the step they report and the set of block ids
//! that one run has already seen.
use vstd::prelude::*;

verus! {

/// What a traversal asks of its driver after one step.
#[derive(Debug, PartialEq, Eq)]
pub enum TraversalStep {
    /// Fetch every child of the block with this id and hand them back.
    Fetch(String),
    /// Nothing to fetch; step again.
    Continue,
    /// The traversal is over.
    Done,
}

/// A step, seen by the contracts.
pub enum StepView {
    Fetch(Seq<char>),
    Continue,
    Done,
}

impl View for TraversalStep {
    type V = StepView;

    open spec fn view(&self) -> StepView {
        match self {
            TraversalStep::Fetch(id) => StepView::Fetch(id@),
            TraversalStep::Continue => StepView::Continue,
            TraversalStep::Done => StepView::Done,
        }
    }
}

/// The ids held in `ids`.
pub open spec fn ids_view(ids: Seq<String>) -> Seq<Seq<char>> {
    ids.map_values(|s: String| s@)
}

/// An id stays among `ids` when another is added.
pub proof fn lemma_push_keeps(ids: Seq<Seq<char>>, added: Seq<char>, id: Seq<char>)
    ensures
        ids.contains(id) ==> ids.push(added).contains(id),
{
    if ids.contains(id) {
        let j = choose|j: int| 0 <= j < ids.len() && ids[j] == id;
        assert(ids.push(added)[j] == id);
    }
}

/// Whether `id` is among `ids`.
pub fn contains_id(ids: &Vec<String>, id: &String) -> (r: bool)
    ensures
        r == ids_view(ids@).contains(id@),
{
    let mut k: usize = 0;
    while k < ids.len()
        invariant
            k <= ids.len(),
            forall|j: int| 0 <= j < k ==> ids@[j]@ != id@,
        decreases ids.len() - k,
    {
        if ids[k] == *id {
            proof {
                assert(ids_view(ids@)[k as int] == id@);
            }
            return true;
        }
        k += 1;
    }
    proof {
        if ids_view(ids@).contains(id@) {
            let j = choose|j: int| 0 <= j < ids_view(ids@).len() && ids_view(ids@)[j] == id@;
            assert(ids@[j]@ == id@);
        }
    }
    false
}

} // verus!
