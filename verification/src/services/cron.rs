//! Which remote entries are due for a refresh.

use vstd::prelude::*;
use crate::models::hosts::{HostsListObject, HostsType, strings_view};
use crate::text::chars_of;

verus! {

/// The text starts with `http`.
pub open spec fn starts_with_http(s: Seq<char>) -> bool {
    s.len() >= 4 && s.subrange(0, 4) == "http"@
}

/// A remote entry is due when it is on, has a positive refresh interval
/// (seconds) and an `http` URL, and at least that many whole seconds have
/// passed since its last refresh (never refreshed counting as time 0).
pub open spec fn is_due(e: HostsListObject, now_ms: i64) -> bool {
    &&& e.type_ == HostsType::Remote
    &&& e.on
    &&& e.refresh_interval matches Some(i) && i > 0
    &&& e.url matches Some(u) && starts_with_http(u@)
    &&& {
        let last = match e.last_refresh_ms { Some(t) => t as int, None => 0 };
        let elapsed_ms = now_ms as int - last;
        elapsed_ms >= 0 && elapsed_ms / 1000 >= e.refresh_interval->0 as int
    }
}

/// Both times are milliseconds and the interval is in seconds: a
/// switched-on remote entry with interval `i > 0` and an `http` address,
/// last refreshed at `t` (or never, counting as 0), is due at `now_ms`
/// exactly when at least `1000 * i` milliseconds have passed since `t`.
pub proof fn lemma_due_after_interval(e: HostsListObject, now_ms: i64, t: i64, i: i64)
    requires
        e.type_ == HostsType::Remote,
        e.on,
        e.refresh_interval == Some(i),
        i > 0,
        e.url matches Some(u) && starts_with_http(u@),
        e.last_refresh_ms == Some(t) || (e.last_refresh_ms is None && t == 0),
    ensures
        is_due(e, now_ms) <==> now_ms - t >= 1000 * i,
{
    let elapsed = now_ms as int - t as int;
    if elapsed >= 0 {
        assert(elapsed / 1000 >= i <==> elapsed >= 1000 * i) by (nonlinear_arith)
            requires
                elapsed >= 0,
        {
        }
    }
}

/// The ids of the due entries among the first `k`.
pub open spec fn due_ids(list: Seq<HostsListObject>, now_ms: i64, k: nat) -> Seq<Seq<char>>
    decreases k,
{
    if k == 0 || k > list.len() {
        Seq::empty()
    } else {
        let prev = due_ids(list, now_ms, (k - 1) as nat);
        if is_due(list[k - 1], now_ms) { prev.push(list[k - 1].id@) } else { prev }
    }
}

/// Whether a text starts with `http`.
pub fn has_http_prefix(s: &str) -> (res: bool)
    ensures
        res == starts_with_http(s@),
{
    let cs = chars_of(s);
    if cs.len() < 4 {
        return false;
    }
    let ok = cs[0] == 'h' && cs[1] == 't' && cs[2] == 't' && cs[3] == 'p';
    proof {
        reveal_strlit("http");
        if ok {
            assert(cs@.subrange(0, 4) =~= "http"@);
        } else {
            assert(cs@.subrange(0, 4) != "http"@) by {
                if cs@.subrange(0, 4) == "http"@ {
                    assert(cs@.subrange(0, 4)[0] == 'h');
                    assert(cs@.subrange(0, 4)[1] == 't');
                    assert(cs@.subrange(0, 4)[2] == 't');
                    assert(cs@.subrange(0, 4)[3] == 'p');
                }
            }
        }
    }
    ok
}

/// The ids of the remote entries due for a refresh at `now_ms`, in list
/// order.
pub fn ids_due_for_refresh(list: &[HostsListObject], now_ms: i64) -> (res: Vec<String>)
    ensures
        strings_view(res@) == due_ids(list@, now_ms, list@.len()),
{
    let mut ids: Vec<String> = Vec::new();
    let n = list.len();
    let mut k: usize = 0;
    while k < n
        invariant
            n == list@.len(),
            k <= n,
            strings_view(ids@) == due_ids(list@, now_ms, k as nat),
        decreases n - k,
    {
        let item = &list[k];
        let mut due = false;
        if item.type_ == HostsType::Remote && item.on {
            match (item.refresh_interval, &item.url) {
                (Some(interval), Some(url)) => {
                    if interval > 0 && has_http_prefix(url.as_str()) {
                        let last: i64 = match item.last_refresh_ms {
                            Some(t) => t,
                            None => 0,
                        };
                        let elapsed: i128 = (now_ms as i128) - (last as i128);
                        due = elapsed >= 0 && elapsed / 1000 >= interval as i128;
                    }
                },
                _ => {},
            }
        }
        assert(due == is_due(list@[k as int], now_ms));
        if due {
            let ghost before = ids@;
            ids.push(item.id.clone());
            assert(strings_view(ids@) =~= strings_view(before).push(list@[k as int].id@));
        }
        k = k + 1;
    }
    ids
}

// ---------------------------------------------------------------------
// One round of the scheduler
// ---------------------------------------------------------------------

/// The progress of one round of the scheduler: how many entries are due,
/// how many have been refreshed (in order), whether any refresh succeeded,
/// and whether the result was applied to the system hosts file.
#[derive(Debug, Clone, Copy, PartialEq, Eq, Structural)]
pub struct CronRound {
    pub due: usize,
    pub done: usize,
    pub any_refreshed: bool,
    pub applied: bool,
}

/// What the scheduler does next.
#[derive(Debug, Clone, Copy, PartialEq, Eq, Structural)]
pub enum CronAction {
    /// Nothing is due: report a tick with nothing pending, and stop.
    Idle,
    /// Refresh the due entry at this index, reporting success or failure.
    Refresh(usize),
    /// Apply the list to the system hosts file (reporting a failure), then
    /// ask the user interface to reload the list.
    ApplyToSystem,
    /// Report a tick with the number of due entries and whether any
    /// refresh succeeded, and stop.
    Finish { pending: usize, refreshed: bool },
}

/// The next action of a round: refresh the due entries one after the
/// other, then apply once if any refresh succeeded, then finish.
pub open spec fn next_cron_action(r: CronRound) -> CronAction {
    if r.due == 0 {
        CronAction::Idle
    } else if r.done < r.due {
        CronAction::Refresh(r.done)
    } else if r.any_refreshed && !r.applied {
        CronAction::ApplyToSystem
    } else {
        CronAction::Finish { pending: r.due, refreshed: r.any_refreshed }
    }
}

/// The round after the pending refresh ended, successfully or not.
pub open spec fn refreshed_round(r: CronRound, ok: bool) -> CronRound {
    if r.done < r.due {
        CronRound { done: (r.done + 1) as usize, any_refreshed: r.any_refreshed || ok, ..r }
    } else {
        r
    }
}

fn next_action(r: CronRound) -> (res: CronAction)
    ensures
        res == next_cron_action(r),
{
    if r.due == 0 {
        CronAction::Idle
    } else if r.done < r.due {
        CronAction::Refresh(r.done)
    } else if r.any_refreshed && !r.applied {
        CronAction::ApplyToSystem
    } else {
        CronAction::Finish { pending: r.due, refreshed: r.any_refreshed }
    }
}

/// Starts a round with this many due entries.
pub fn cron_start(due: usize) -> (res: (CronRound, CronAction))
    ensures
        res.0 == (CronRound { due, done: 0, any_refreshed: false, applied: false }),
        res.1 == next_cron_action(res.0),
{
    let r = CronRound { due, done: 0, any_refreshed: false, applied: false };
    (r, next_action(r))
}

/// Steps a round after a refresh ended.
pub fn cron_refreshed(round: CronRound, ok: bool) -> (res: (CronRound, CronAction))
    ensures
        res.0 == refreshed_round(round, ok),
        res.1 == next_cron_action(res.0),
{
    let r = if round.done < round.due {
        CronRound { done: round.done + 1, any_refreshed: round.any_refreshed || ok, ..round }
    } else {
        round
    };
    (r, next_action(r))
}

/// Steps a round after the list was applied to the system (whether or not
/// the write succeeded).
pub fn cron_applied(round: CronRound) -> (res: (CronRound, CronAction))
    ensures
        res.0 == (CronRound { applied: true, ..round }),
        res.1 == next_cron_action(res.0),
{
    let r = CronRound { applied: true, ..round };
    (r, next_action(r))
}

/// The round after the first `k` refreshes, with these outcomes.
pub open spec fn round_after(oks: Seq<bool>, k: nat) -> CronRound
    decreases k,
{
    if k == 0 {
        CronRound { due: oks.len() as usize, done: 0, any_refreshed: false, applied: false }
    } else {
        refreshed_round(round_after(oks, (k - 1) as nat), oks[k - 1])
    }
}

/// A round over `n > 0` due entries refreshes them in order, then applies
/// to the system exactly once if and only if some refresh succeeded, and
/// then finishes reporting `n` pending and whether any succeeded.
pub proof fn lemma_cron_round(oks: Seq<bool>)
    requires
        0 < oks.len() <= usize::MAX,
    ensures
        forall|k: nat| k < oks.len() ==> #[trigger] next_cron_action(round_after(oks, k)) == CronAction::Refresh(k as usize),
        ({
            let last = round_after(oks, oks.len());
            let any = exists|i: int| 0 <= i < oks.len() && oks[i];
            &&& last.any_refreshed == any
            &&& next_cron_action(last) == if any {
                CronAction::ApplyToSystem
            } else {
                CronAction::Finish { pending: oks.len() as usize, refreshed: false }
            }
            &&& next_cron_action(CronRound { applied: true, ..last })
                == (CronAction::Finish { pending: oks.len() as usize, refreshed: any })
        }),
{
    lemma_round_after(oks, oks.len());
}

proof fn lemma_round_after(oks: Seq<bool>, k: nat)
    requires
        0 < oks.len() <= usize::MAX,
        k <= oks.len(),
    ensures
        forall|j: nat| j <= k ==> {
            let r = #[trigger] round_after(oks, j);
            &&& r.due == oks.len()
            &&& r.done == j
            &&& !r.applied
            &&& r.any_refreshed == exists|i: int| 0 <= i < j && oks[i]
        },
        forall|j: nat| j < k ==> #[trigger] next_cron_action(round_after(oks, j)) == CronAction::Refresh(j as usize),
    decreases k,
{
    if k > 0 {
        lemma_round_after(oks, (k - 1) as nat);
        let prev = round_after(oks, (k - 1) as nat);
        let r = round_after(oks, k);
        assert(r == refreshed_round(prev, oks[k - 1]));
        if r.any_refreshed {
            if !prev.any_refreshed {
                assert(0 <= k - 1 < k && oks[k - 1]);
            }
        } else {
            assert forall|i: int| 0 <= i < k implies !oks[i] by {
                if i < k - 1 {
                    assert(!prev.any_refreshed);
                }
            }
        }
    }
}

} // verus!
