//! The decision to reclaim an idle or archived runtime: a cancelable drain is
//! started when the protocol is quiet and reliable, and the runtime is
//! reclaimed only when the drain ran its full length undisturbed.
use vstd::prelude::*;

use crate::clock::Duration;

verus! {

/// What the protocol observer reports at one evaluation.
#[derive(Clone, Copy, Debug)]
pub struct ReclaimSnapshot {
    pub active_turns: usize,
    pub reliable: bool,
    pub client_activity_generation: u64,
    pub client_idle: Duration,
    pub archive_empty_epoch: u64,
}

/// Why a drain was started.
#[derive(Clone, Copy, Debug, PartialEq, Eq, Structural)]
pub enum ReclaimReason {
    Archive,
    Idle,
}

/// What one evaluation decided.
#[derive(Clone, Copy, Debug, PartialEq, Eq, Structural)]
pub enum ReclaimAction {
    NoAction,
    DrainStarted(ReclaimReason),
    DrainCancelled(ReclaimReason),
    Reclaim(ReclaimReason),
}

#[derive(Clone, Copy, Debug)]
struct Drain {
    reason: ReclaimReason,
    started_at: Duration,
    client_activity_generation: u64,
}

/// A drain in progress: why, when it started, and the client activity
/// generation it started under.
pub struct DrainState {
    pub reason: ReclaimReason,
    pub started_at: nat,
    pub generation: u64,
}

/// The controller's state: its two periods, the newest archive epoch it has
/// acted on, and the drain in progress, if any.
pub struct ReclaimState {
    pub idle_after: nat,
    pub drain_for: nat,
    pub seen_archive_epoch: u64,
    pub drain: Option<DrainState>,
}

/// Decides when a quiet runtime is drained and reclaimed.
pub struct ReclaimController {
    idle_after: Duration,
    drain_for: Duration,
    seen_archive_epoch: u64,
    drain: Option<Drain>,
}

/// No turn is running and the turn count can be trusted.
pub open spec fn quiet(snap: ReclaimSnapshot) -> bool {
    snap.reliable && snap.active_turns == 0
}

/// The time from `start` to `now`, or zero when `now` is earlier.
pub open spec fn since(now: nat, start: nat) -> nat {
    if now >= start {
        (now - start) as nat
    } else {
        0
    }
}

/// The state and action after evaluating `snap` at time `now` in state `s`.
///
/// A drain in progress is cancelled by an unreliable protocol, a running turn
/// or new client activity; otherwise it reclaims once `drain_for` has passed
/// since it started. Without a drain, a quiet protocol starts one for an
/// archive epoch not acted on before, or else for a client idle for at least
/// `idle_after`.
pub open spec fn next(s: ReclaimState, now: nat, snap: ReclaimSnapshot) -> (ReclaimState, ReclaimAction) {
    match s.drain {
        Some(d) => {
            if !quiet(snap) || snap.client_activity_generation != d.generation {
                (ReclaimState { drain: None, ..s }, ReclaimAction::DrainCancelled(d.reason))
            } else if since(now, d.started_at) >= s.drain_for {
                (s, ReclaimAction::Reclaim(d.reason))
            } else {
                (s, ReclaimAction::NoAction)
            }
        },
        None => {
            if !quiet(snap) {
                (s, ReclaimAction::NoAction)
            } else {
                let reason = if snap.archive_empty_epoch > s.seen_archive_epoch {
                    Some(ReclaimReason::Archive)
                } else if snap.client_idle@ >= s.idle_after {
                    Some(ReclaimReason::Idle)
                } else {
                    None
                };
                let seen = if snap.archive_empty_epoch > s.seen_archive_epoch {
                    snap.archive_empty_epoch
                } else {
                    s.seen_archive_epoch
                };
                match reason {
                    Some(r) => (
                        ReclaimState {
                            seen_archive_epoch: seen,
                            drain: Some(
                                DrainState {
                                    reason: r,
                                    started_at: now,
                                    generation: snap.client_activity_generation,
                                },
                            ),
                            ..s
                        },
                        ReclaimAction::DrainStarted(r),
                    ),
                    None => (ReclaimState { seen_archive_epoch: seen, ..s }, ReclaimAction::NoAction),
                }
            }
        },
    }
}

impl View for ReclaimController {
    type V = ReclaimState;

    closed spec fn view(&self) -> ReclaimState {
        ReclaimState {
            idle_after: self.idle_after@,
            drain_for: self.drain_for@,
            seen_archive_epoch: self.seen_archive_epoch,
            drain: match self.drain {
                Some(d) => Some(
                    DrainState {
                        reason: d.reason,
                        started_at: d.started_at@,
                        generation: d.client_activity_generation,
                    },
                ),
                None => None,
            },
        }
    }
}

impl ReclaimController {
    /// A controller with no drain in progress and no archive epoch acted on.
    pub fn new(idle_after: Duration, drain_for: Duration) -> (c: Self)
        ensures
            c@ == (ReclaimState {
                idle_after: idle_after@,
                drain_for: drain_for@,
                seen_archive_epoch: 0,
                drain: None,
            }),
    {
        ReclaimController { idle_after, drain_for, seen_archive_epoch: 0, drain: None }
    }

    /// Evaluates the observer's snapshot at time `now`.
    pub fn evaluate(&mut self, now: Duration, snapshot: ReclaimSnapshot) -> (r: ReclaimAction)
        ensures
            (final(self)@, r) == next(old(self)@, now@, snapshot),
    {
        match self.drain {
            Some(drain) => {
                if !snapshot.reliable || snapshot.active_turns > 0
                    || snapshot.client_activity_generation != drain.client_activity_generation {
                    self.drain = None;
                    return ReclaimAction::DrainCancelled(drain.reason);
                }
                if now.saturating_sub(drain.started_at).at_least(&self.drain_for) {
                    return ReclaimAction::Reclaim(drain.reason);
                }
                return ReclaimAction::NoAction;
            },
            None => {},
        }
        if !snapshot.reliable || snapshot.active_turns > 0 {
            return ReclaimAction::NoAction;
        }
        let unseen_archive = snapshot.archive_empty_epoch > self.seen_archive_epoch;
        if unseen_archive {
            self.seen_archive_epoch = snapshot.archive_empty_epoch;
        }
        let reason = if unseen_archive {
            ReclaimReason::Archive
        } else if snapshot.client_idle.at_least(&self.idle_after) {
            ReclaimReason::Idle
        } else {
            return ReclaimAction::NoAction;
        };
        self.drain = Some(
            Drain {
                reason,
                started_at: now,
                client_activity_generation: snapshot.client_activity_generation,
            },
        );
        ReclaimAction::DrainStarted(reason)
    }
}

/// A busy or unreliable protocol never starts a drain and never reclaims.
pub proof fn lemma_busy_never_reclaims(s: ReclaimState, now: nat, snap: ReclaimSnapshot)
    requires
        !quiet(snap),
    ensures
        !(next(s, now, snap).1 is DrainStarted),
        !(next(s, now, snap).1 is Reclaim),
{
}

/// New client activity, a running turn or an unreliable protocol cancels a
/// drain in progress, naming its reason.
pub proof fn lemma_disturbance_cancels_drain(s: ReclaimState, now: nat, snap: ReclaimSnapshot)
    requires
        s.drain is Some,
        !quiet(snap) || snap.client_activity_generation != s.drain->0.generation,
    ensures
        next(s, now, snap).1 == ReclaimAction::DrainCancelled(s.drain->0.reason),
        next(s, now, snap).0.drain is None,
{
}

/// A runtime is reclaimed only at the end of an undisturbed drain: one that
/// was started for the same reason at least `drain_for` earlier, under the
/// current client activity generation, with the protocol still quiet.
pub proof fn lemma_reclaim_only_after_full_drain(
    s: ReclaimState,
    now: nat,
    snap: ReclaimSnapshot,
    reason: ReclaimReason,
)
    requires
        next(s, now, snap).1 == ReclaimAction::Reclaim(reason),
    ensures
        s.drain is Some,
        s.drain->0.reason == reason,
        s.drain->0.generation == snap.client_activity_generation,
        quiet(snap),
        since(now, s.drain->0.started_at) >= s.drain_for,
        next(s, now, snap).0 == s,
{
}

/// The archive epoch acted on never decreases, and the two periods never
/// change.
pub proof fn lemma_state_progress(s: ReclaimState, now: nat, snap: ReclaimSnapshot)
    ensures
        next(s, now, snap).0.seen_archive_epoch >= s.seen_archive_epoch,
        next(s, now, snap).0.idle_after == s.idle_after,
        next(s, now, snap).0.drain_for == s.drain_for,
{
}

/// An archive drain starts only for an epoch newer than every one acted on
/// before, and that epoch is then recorded; so each epoch starts at most one
/// archive drain.
pub proof fn lemma_archive_epoch_acted_on_once(s: ReclaimState, now: nat, snap: ReclaimSnapshot)
    requires
        next(s, now, snap).1 == ReclaimAction::DrainStarted(ReclaimReason::Archive),
    ensures
        snap.archive_empty_epoch > s.seen_archive_epoch,
        next(s, now, snap).0.seen_archive_epoch == snap.archive_empty_epoch,
{
}

/// The state after evaluating each time and snapshot of `steps` in turn.
pub open spec fn after(s: ReclaimState, steps: Seq<(nat, ReclaimSnapshot)>) -> ReclaimState
    decreases steps.len(),
{
    if steps.len() == 0 {
        s
    } else {
        after(next(s, steps[0].0, steps[0].1).0, steps.drop_first())
    }
}

/// The archive epoch acted on never decreases over any number of evaluations.
pub proof fn lemma_seen_epoch_monotone(s: ReclaimState, steps: Seq<(nat, ReclaimSnapshot)>)
    ensures
        after(s, steps).seen_archive_epoch >= s.seen_archive_epoch,
    decreases steps.len(),
{
    if steps.len() > 0 {
        lemma_seen_epoch_monotone(next(s, steps[0].0, steps[0].1).0, steps.drop_first());
    }
}

/// Once an archive drain has started for an epoch, no later evaluation, after
/// any number of others, starts an archive drain for that epoch or an older
/// one.
pub proof fn lemma_no_second_archive_drain(
    s: ReclaimState,
    now: nat,
    snap: ReclaimSnapshot,
    steps: Seq<(nat, ReclaimSnapshot)>,
    later: nat,
    later_snap: ReclaimSnapshot,
)
    requires
        next(s, now, snap).1 == ReclaimAction::DrainStarted(ReclaimReason::Archive),
        later_snap.archive_empty_epoch <= snap.archive_empty_epoch,
    ensures
        next(after(next(s, now, snap).0, steps), later, later_snap).1
            != ReclaimAction::DrainStarted(ReclaimReason::Archive),
{
    lemma_seen_epoch_monotone(next(s, now, snap).0, steps);
}


proof fn lemma_after_push(s: ReclaimState, steps: Seq<(nat, ReclaimSnapshot)>, x: (nat, ReclaimSnapshot))
    ensures
        after(s, steps.push(x)) == next(after(s, steps), x.0, x.1).0,
    decreases steps.len(),
{
    let p = steps.push(x);
    assert(p[0] == if steps.len() > 0 { steps[0] } else { x });
    if steps.len() > 0 {
        let s1 = next(s, steps[0].0, steps[0].1).0;
        assert(p.drop_first() =~= steps.drop_first().push(x));
        lemma_after_push(s1, steps.drop_first(), x);
    } else {
        assert(p.drop_first() =~= Seq::<(nat, ReclaimSnapshot)>::empty());
        assert(after(next(s, x.0, x.1).0, p.drop_first()) == next(s, x.0, x.1).0);
    }
}

/// The action of the `i`-th of `steps`, evaluated after those before it.
pub open spec fn action_at(s: ReclaimState, steps: Seq<(nat, ReclaimSnapshot)>, i: int) -> ReclaimAction {
    next(after(s, steps.take(i)), steps[i].0, steps[i].1).1
}

/// A drain in progress is never started again: while draining, an
/// evaluation only cancels, reclaims or waits.
pub proof fn lemma_no_start_while_draining(s: ReclaimState, now: nat, snap: ReclaimSnapshot)
    requires
        s.drain is Some,
    ensures
        !(next(s, now, snap).1 is DrainStarted),
        next(s, now, snap).1 is NoAction ==> next(s, now, snap).0 == s,
{
}

/// A drain, once started, stays the drain in progress, with the reason, start
/// time and client activity generation it started with, through any number
/// of later evaluations that neither cancel it nor reclaim.
pub proof fn lemma_drain_persists(s: ReclaimState, steps: Seq<(nat, ReclaimSnapshot)>)
    requires
        s.drain is Some,
        forall|i: int|
            0 <= i < steps.len() ==> !(#[trigger] action_at(s, steps, i) is DrainCancelled)
                && !(action_at(s, steps, i) is Reclaim),
    ensures
        after(s, steps) == s,
    decreases steps.len(),
{
    if steps.len() > 0 {
        let pre = steps.drop_last();
        let x = steps.last();
        assert(steps =~= pre.push(x));
        assert forall|i: int| 0 <= i < pre.len() implies !(#[trigger] action_at(s, pre, i) is DrainCancelled)
            && !(action_at(s, pre, i) is Reclaim) by {
            assert(pre.take(i) =~= steps.take(i));
            assert(pre[i] == steps[i]);
            assert(action_at(s, pre, i) == action_at(s, steps, i));
        }
        lemma_drain_persists(s, pre);
        lemma_after_push(s, pre, x);
        assert(steps.take(pre.len() as int) =~= pre);
        assert(action_at(s, steps, pre.len() as int) == next(s, x.0, x.1).1);
    }
}

/// The archive epoch acted on after `steps` is the one at the start or the
/// epoch of an evaluation that found no drain with the protocol quiet, and it
/// is at least the epoch of every such evaluation: it is the largest of them.
pub proof fn lemma_seen_epoch_is_largest_quiet_epoch(s: ReclaimState, steps: Seq<(nat, ReclaimSnapshot)>)
    ensures
        forall|i: int|
            0 <= i < steps.len() && after(s, steps.take(i)).drain is None && quiet(steps[i].1)
                ==> after(s, steps).seen_archive_epoch >= (#[trigger] steps[i]).1.archive_empty_epoch,
        after(s, steps).seen_archive_epoch == s.seen_archive_epoch || exists|i: int|
            0 <= i < steps.len() && after(s, steps.take(i)).drain is None && quiet(steps[i].1)
                && after(s, steps).seen_archive_epoch == (#[trigger] steps[i]).1.archive_empty_epoch,
    decreases steps.len(),
{
    if steps.len() > 0 {
        let pre = steps.drop_last();
        let x = steps.last();
        assert(steps =~= pre.push(x));
        lemma_seen_epoch_is_largest_quiet_epoch(s, pre);
        lemma_after_push(s, pre, x);
        let mid = after(s, pre);
        lemma_state_progress(mid, x.0, x.1);
        assert forall|i: int| 0 <= i < pre.len() implies #[trigger] steps[i] == pre[i] && steps.take(i)
            == pre.take(i) by {
            assert(steps.take(i) =~= pre.take(i));
        }
        assert(steps.take(pre.len() as int) =~= pre);
        let fin = after(s, steps);
        if fin.seen_archive_epoch != mid.seen_archive_epoch {
            let n = pre.len() as int;
            assert(steps[n] == x);
        } else if mid.seen_archive_epoch != s.seen_archive_epoch {
            let i = choose|i: int|
                0 <= i < pre.len() && after(s, pre.take(i)).drain is None && quiet(pre[i].1)
                    && mid.seen_archive_epoch == (#[trigger] pre[i]).1.archive_empty_epoch;
            assert(steps[i] == pre[i]);
        }
        assert forall|i: int|
            0 <= i < steps.len() && after(s, steps.take(i)).drain is None && quiet(steps[i].1)
                implies fin.seen_archive_epoch >= (#[trigger] steps[i]).1.archive_empty_epoch by {
            if i < pre.len() {
                assert(steps[i] == pre[i]);
                assert(steps.take(i) == pre.take(i));
            } else {
                assert(steps[i] == x);
            }
        }
    }
}


/// Without a drain, a quiet protocol starts an archive drain for an archive
/// epoch newer than any acted on, or else an idle drain once the client has
/// been idle for `idle_after`; a quiet client idle for less starts nothing.
pub proof fn lemma_quiet_runtime_starts_drain(s: ReclaimState, now: nat, snap: ReclaimSnapshot)
    requires
        s.drain is None,
        snap.reliable,
        snap.active_turns == 0,
    ensures
        snap.archive_empty_epoch > s.seen_archive_epoch ==> next(s, now, snap).1
            == ReclaimAction::DrainStarted(ReclaimReason::Archive),
        snap.archive_empty_epoch <= s.seen_archive_epoch && snap.client_idle@ >= s.idle_after ==> next(
            s,
            now,
            snap,
        ).1 == ReclaimAction::DrainStarted(ReclaimReason::Idle),
        snap.archive_empty_epoch <= s.seen_archive_epoch && snap.client_idle@ < s.idle_after ==> next(
            s,
            now,
            snap,
        ).1 == ReclaimAction::NoAction,
        next(s, now, snap).1 is DrainStarted ==> next(s, now, snap).0.drain == Some(
            DrainState {
                reason: next(s, now, snap).1->DrainStarted_0,
                started_at: now,
                generation: snap.client_activity_generation,
            },
        ),
{
}

/// A drain left undisturbed reclaims once `drain_for` has passed since it
/// started, and waits from its start until then.
pub proof fn lemma_undisturbed_drain_reclaims(s: ReclaimState, now: nat, snap: ReclaimSnapshot)
    requires
        s.drain matches Some(d) && snap.client_activity_generation == d.generation,
        snap.reliable,
        snap.active_turns == 0,
    ensures
        now >= s.drain->0.started_at + s.drain_for ==> next(s, now, snap).1 == ReclaimAction::Reclaim(
            s.drain->0.reason,
        ),
        s.drain->0.started_at <= now < s.drain->0.started_at + s.drain_for ==> next(s, now, snap).1
            == ReclaimAction::NoAction,
{
}

} // verus!
