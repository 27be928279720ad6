//! Decisions of the page listing: which pages of a result batch were edited
//! recently enough, and when to stop asking for more.
use vstd::prelude::*;
use crate::block::Timestamp;

verus! {

/// One day, in milliseconds.
pub const DAY_MS: i64 = 86400000;

/// `days` days before `now`, or the earliest representable time when that
/// lies further back.
pub fn window_cutoff(now: Timestamp, days: u32) -> (r: Timestamp)
    ensures
        r == if now - days * DAY_MS < i64::MIN {
            i64::MIN as int
        } else {
            now - days * DAY_MS
        },
{
    assert(0 <= days as int * 86400000 <= 4294967295 * 86400000) by (nonlinear_arith)
        requires
            0 <= days <= 4294967295,
    ;
    let span: i128 = days as i128 * DAY_MS as i128;
    let back: i128 = now as i128 - span;
    if back < i64::MIN as i128 {
        i64::MIN
    } else {
        back as i64
    }
}

/// What to do with one batch of listed pages.
#[derive(Clone, Copy, Debug, PartialEq, Eq, Structural)]
pub struct BatchDecision {
    /// How many pages, from the front of the batch, to keep.
    pub keep: usize,
    /// Whether the listing is over.
    pub done: bool,
}

/// Decides on a batch of pages listed newest edit first, given their edit
/// times: the pages before the first one edited before `cutoff` are kept, and
/// the listing ends at such a page or when the source has no more.
pub fn decide_page_batch(update_dates: &Vec<Timestamp>, cutoff: Timestamp, has_more: bool) -> (r:
    BatchDecision)
    ensures
        r.keep <= update_dates@.len(),
        forall|j: int| 0 <= j < r.keep ==> update_dates@[j] >= cutoff,
        r.keep < update_dates@.len() ==> update_dates@[r.keep as int] < cutoff,
        r.done == (!has_more || r.keep < update_dates@.len()),
{
    let mut k: usize = 0;
    while k < update_dates.len() && update_dates[k] >= cutoff
        invariant
            k <= update_dates@.len(),
            forall|j: int| 0 <= j < k ==> update_dates@[j] >= cutoff,
        decreases update_dates.len() - k,
    {
        k += 1;
    }
    BatchDecision { keep: k, done: !has_more || k < update_dates.len() }
}

} // verus!
