//! The file-descriptor budget of a supervised worker.
use vstd::prelude::*;

use crate::clock::Duration;

verus! {

/// What the supervisor should do about the current descriptor count.
#[derive(Clone, Copy, Debug, PartialEq, Eq, Structural)]
pub enum FdAction {
    Healthy,
    Warn,
    Recycle,
    HardStop,
}

/// Descriptor thresholds: a warning level, a level at which an idle worker is
/// recycled, and a hard limit at which the worker is stopped whatever it does.
#[derive(Clone, Copy, Debug)]
pub struct FdPolicy {
    pub warn: usize,
    pub recycle: usize,
    pub hard: usize,
    pub idle_for: Duration,
}

/// A policy whose thresholds are out of order.
#[derive(Clone, Copy, Debug, PartialEq, Eq, Structural)]
pub enum FdPolicyError {
    ThresholdOrder,
}

impl FdPolicyError {
    /// The human-readable description of the error.
    pub fn message(&self) -> (s: &'static str)
        ensures
            s@ == "FD thresholds must satisfy 0 < warn < recycle < hard"@,
    {
        "FD thresholds must satisfy 0 < warn < recycle < hard"
    }
}

/// The thresholds are strictly increasing and the warning level is positive.
pub open spec fn thresholds_ordered(warn: int, recycle: int, hard: int) -> bool {
    0 < warn < recycle < hard
}

/// The action for `count` descriptors with `active_turns` running turns after
/// `idle` without activity.
pub open spec fn fd_action_spec(p: FdPolicy, count: int, active_turns: int, idle: nat) -> FdAction {
    if count >= p.hard {
        FdAction::HardStop
    } else if count >= p.recycle && active_turns == 0 && idle >= p.idle_for@ {
        FdAction::Recycle
    } else if count >= p.warn {
        FdAction::Warn
    } else {
        FdAction::Healthy
    }
}

/// How severe an action is: healthy, warn, recycle, hard stop in that order.
pub open spec fn severity(a: FdAction) -> int {
    match a {
        FdAction::Healthy => 0,
        FdAction::Warn => 1,
        FdAction::Recycle => 2,
        FdAction::HardStop => 3,
    }
}

impl FdPolicy {
    /// A policy with the given thresholds; refused unless
    /// `0 < warn < recycle < hard`.
    pub fn new(warn: usize, recycle: usize, hard: usize, idle_for: Duration) -> (r: Result<
        Self,
        FdPolicyError,
    >)
        ensures
            r is Ok <==> thresholds_ordered(warn as int, recycle as int, hard as int),
            r matches Ok(p) ==> p.warn == warn && p.recycle == recycle && p.hard == hard
                && p.idle_for == idle_for,
            r matches Err(e) ==> e == FdPolicyError::ThresholdOrder,
    {
        if warn == 0 || warn >= recycle || recycle >= hard {
            return Err(FdPolicyError::ThresholdOrder);
        }
        Ok(Self { warn, recycle, hard, idle_for })
    }

    /// The action for `count` descriptors while `active_turns` turns run and
    /// the worker has been idle for `idle`.
    pub fn action(&self, count: usize, active_turns: usize, idle: Duration) -> (a: FdAction)
        ensures
            a == fd_action_spec(*self, count as int, active_turns as int, idle@),
    {
        if count >= self.hard {
            FdAction::HardStop
        } else if count >= self.recycle && active_turns == 0 && idle.at_least(&self.idle_for) {
            FdAction::Recycle
        } else if count >= self.warn {
            FdAction::Warn
        } else {
            FdAction::Healthy
        }
    }

    /// Whether `count` descriptors are back under the recycle level: for a
    /// worker with nothing running, idle however long, they call for no more
    /// than a warning.
    pub fn settled(&self, count: usize) -> (r: bool)
        ensures
            r == (severity(fd_action_spec(*self, count as int, 0, crate::clock::MAX_NANOS as nat))
                <= 1),
    {
        match self.action(count, 0, Duration::max_value()) {
            FdAction::Healthy => true,
            FdAction::Warn => true,
            FdAction::Recycle => false,
            FdAction::HardStop => false,
        }
    }
}

/// For a policy with ordered thresholds, more descriptors never call for a
/// milder action, all else being equal.
pub proof fn lemma_fd_action_monotone_in_count(
    p: FdPolicy,
    low: int,
    high: int,
    active_turns: int,
    idle: nat,
)
    requires
        thresholds_ordered(p.warn as int, p.recycle as int, p.hard as int),
        low <= high,
    ensures
        severity(fd_action_spec(p, low, active_turns, idle)) <= severity(
            fd_action_spec(p, high, active_turns, idle),
        ),
{
}

/// The hard limit stops the worker whether or not turns are running and
/// however recently it was active.
pub proof fn lemma_hard_limit_is_unconditional(
    p: FdPolicy,
    count: int,
    active_turns: int,
    idle: nat,
)
    requires
        count >= p.hard,
    ensures
        fd_action_spec(p, count, active_turns, idle) == FdAction::HardStop,
{
}

/// A running turn or recent activity never leads to recycling.
pub proof fn lemma_busy_worker_is_never_recycled(
    p: FdPolicy,
    count: int,
    active_turns: int,
    idle: nat,
)
    requires
        active_turns > 0 || idle < p.idle_for@,
    ensures
        fd_action_spec(p, count, active_turns, idle) != FdAction::Recycle,
{
}


/// The descriptor thresholds, each reached at its own count: below `warn`
/// all is well, from `warn` on a warning, from `recycle` on a worker with no
/// running turn idle for `idle_for` is recycled (a busy one only warned), and
/// from `hard` on the worker is stopped.
pub proof fn lemma_fd_thresholds(p: FdPolicy, count: int, active_turns: int, idle: nat)
    requires
        thresholds_ordered(p.warn as int, p.recycle as int, p.hard as int),
    ensures
        count < p.warn ==> fd_action_spec(p, count, active_turns, idle) == FdAction::Healthy,
        p.warn <= count < p.recycle ==> fd_action_spec(p, count, active_turns, idle) == FdAction::Warn,
        p.recycle <= count < p.hard && active_turns == 0 && idle >= p.idle_for@ ==> fd_action_spec(
            p,
            count,
            active_turns,
            idle,
        ) == FdAction::Recycle,
        p.recycle <= count < p.hard && (active_turns != 0 || idle < p.idle_for@) ==> fd_action_spec(
            p,
            count,
            active_turns,
            idle,
        ) == FdAction::Warn,
{
}

} // verus!
