//! The report of the status endpoint.

use crate::clock::now_millis;
use crate::juggler::{status_views, statuses, KeyJuggler, KeyStatus};
use crate::model::expire;
use vstd::prelude::*;

verus! {

/// The state of the pool as the status endpoint shows it.
pub struct StatusReport {
    /// One entry for each credential, in pool order.
    pub keys: Vec<KeyStatus>,
    /// How many credentials the pool holds.
    pub total_keys: usize,
    /// How many of them are free.
    pub active_keys: usize,
    /// How many of them are blocked.
    pub ratelimited_keys: usize,
}

/// The entries of the list that are blocked.
pub open spec fn ratelimited_among(list: Seq<KeyStatus>) -> Seq<KeyStatus> {
    list.filter(|status: KeyStatus| status.is_ratelimited)
}

/// The entries of the list that are free.
pub open spec fn active_among(list: Seq<KeyStatus>) -> Seq<KeyStatus> {
    list.filter(|status: KeyStatus| !status.is_ratelimited)
}

/// Every entry is either blocked or free.
pub proof fn lemma_counts_add_up(list: Seq<KeyStatus>)
    ensures
        ratelimited_among(list).len() + active_among(list).len() == list.len(),
    decreases list.len(),
{
    reveal(Seq::filter);
    if list.len() > 0 {
        lemma_counts_add_up(list.drop_last());
    }
}

/// The report over a list of statuses.
pub fn summarize(keys: Vec<KeyStatus>) -> (report: StatusReport)
    ensures
        report.keys == keys,
        report.total_keys == keys@.len(),
        report.active_keys == active_among(keys@).len(),
        report.ratelimited_keys == ratelimited_among(keys@).len(),
{
    let mut ratelimited: usize = 0;
    let mut idx: usize = 0;
    while idx < keys.len()
        invariant
            idx <= keys@.len(),
            ratelimited == ratelimited_among(keys@.take(idx as int)).len(),
            ratelimited <= idx,
        decreases keys@.len() - idx,
    {
        proof {
            reveal(Seq::filter);
            assert(keys@.take(idx + 1).drop_last() =~= keys@.take(idx as int));
        }
        if keys[idx].is_ratelimited {
            ratelimited += 1;
        }
        idx += 1;
    }
    proof {
        assert(keys@.take(idx as int) =~= keys@);
        lemma_counts_add_up(keys@);
    }
    let total = keys.len();
    StatusReport {
        keys,
        total_keys: total,
        active_keys: total - ratelimited,
        ratelimited_keys: ratelimited,
    }
}

/// The report of the pool at the time `now`.
pub fn report_at(juggler: &mut KeyJuggler, now: i64) -> (report: StatusReport)
    ensures
        final(juggler)@ == expire(old(juggler)@, now as int),
        status_views(report.keys@) == statuses(old(juggler)@, now as int),
        report.total_keys == report.keys@.len(),
        report.active_keys == active_among(report.keys@).len(),
        report.ratelimited_keys == ratelimited_among(report.keys@).len(),
{
    summarize(juggler.get_status_at(now))
}

/// [`report_at`] at the current time.
pub fn report(juggler: &mut KeyJuggler) -> (report: StatusReport)
    ensures
        exists|now: int|
            {
                &&& final(juggler)@ == #[trigger] expire(old(juggler)@, now)
                &&& status_views(report.keys@) == statuses(old(juggler)@, now)
            },
        report.total_keys == report.keys@.len(),
        report.active_keys == active_among(report.keys@).len(),
        report.ratelimited_keys == ratelimited_among(report.keys@).len(),
{
    let now = now_millis();
    report_at(juggler, now)
}

} // verus!
