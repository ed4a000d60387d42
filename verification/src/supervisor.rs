//! The supervisor's settings and the decisions it takes from what it reads:
//! environment settings, descriptor counts, and the names of the events it
//! journals.
use vstd::prelude::*;
use vstd::string::StringSliceAdditionalSpecFns;

use crate::clock::Duration;
use crate::fd_guard::FdPolicy;
use crate::protocol::model::{observe_spec, ProtocolModel};
use crate::protocol::observer::{
    attempts_view, Direction, ProtocolObserver, ProtocolSnapshot, ResumeAttempt,
};
use crate::protocol::wire::MAX_WIRE_BUFFER;
use crate::number::{parse_u64, parse_unsigned, parse_usize};
use crate::reclaim::ReclaimReason;
use crate::takeover::TakeoverOutcome;

verus! {

/// The running work the descriptor policy weighs: that of the attached
/// connection when its observation is reliable; without a connection, or with
/// an unreliable observation, the worker counts as busy.
pub fn fd_busy(snapshot: Option<ProtocolSnapshot>) -> (n: usize)
    ensures
        n == match snapshot {
            Some(s) => if s.reliable {
                s.active_turns
            } else {
                1
            },
            None => 1,
        },
{
    match snapshot {
        Some(s) => if s.reliable {
            s.active_turns
        } else {
            1
        },
        None => 1,
    }
}

/// Everything a supervisor needs to know about its installation and limits.
#[derive(Debug)]
pub struct SupervisorConfig {
    pub codex_bin: std::path::PathBuf,
    pub eof_grace: Duration,
    pub term_grace: Duration,
    pub sample_every: Duration,
    pub idle_reclaim: Duration,
    pub drain_grace: Duration,
    pub thread_unload_delay: Duration,
    pub thread_reclaim_wait: Duration,
    pub fd_policy: FdPolicy,
    pub log_path: std::path::PathBuf,
    pub run_dir: std::path::PathBuf,
    pub socket_start_timeout: Duration,
    pub use_existing_daemon: bool,
    pub takeover_enabled: bool,
    pub takeover_timeout: Duration,
    pub shared_socket: std::path::PathBuf,
    pub personal_marketplace: std::path::PathBuf,
    pub bundled_marketplace: std::path::PathBuf,
    pub os_home: std::path::PathBuf,
    pub real_codex_home: std::path::PathBuf,
    pub managed_root: std::path::PathBuf,
}

/// The bytes of an optional setting value.
pub open spec fn value_bytes(value: Option<&str>) -> Option<Seq<u8>> {
    match value {
        Some(v) => Some(v.spec_bytes()),
        None => None,
    }
}

/// A number of seconds from the environment: the value when it is a decimal
/// `u64`, else the default.
pub open spec fn seconds_of(value: Option<Seq<u8>>, default: u64) -> u64 {
    match value {
        Some(v) => match parse_unsigned(v, u64::MAX as nat) {
            Some(n) => n as u64,
            None => default,
        },
        None => default,
    }
}

/// A number of seconds from the environment, or the default when it is
/// missing or not a decimal `u64`.
pub fn seconds_setting(value: Option<&str>, default: u64) -> (r: u64)
    ensures
        r == seconds_of(value_bytes(value), default),
{
    match value {
        Some(v) => match parse_u64(v) {
            Some(n) => n,
            None => default,
        },
        None => default,
    }
}

/// A count from the environment: the value when it is a decimal `usize`, else
/// the default.
pub open spec fn count_of(value: Option<Seq<u8>>, default: usize) -> usize {
    match value {
        Some(v) => match parse_unsigned(v, usize::MAX as nat) {
            Some(n) => n as usize,
            None => default,
        },
        None => default,
    }
}

/// A count from the environment, or the default when it is missing or not a
/// decimal `usize`.
pub fn count_setting(value: Option<&str>, default: usize) -> (r: usize)
    ensures
        r == count_of(value_bytes(value), default),
{
    match value {
        Some(v) => match parse_usize(v) {
            Some(n) => n,
            None => default,
        },
        None => default,
    }
}

/// A switch that is on only when set to `1`, `true` or `yes`.
pub open spec fn flag_of(value: Option<Seq<char>>) -> bool {
    match value {
        Some(v) => v == "1"@ || v == "true"@ || v == "yes"@,
        None => false,
    }
}

/// A switch that is on only when set to `1`, `true` or `yes`.
pub fn flag_setting(value: Option<&str>) -> (r: bool)
    ensures
        r == flag_of(
            match value {
                Some(v) => Some(v@),
                None => None,
            },
        ),
{
    match value {
        Some(v) => crate::json::str_eq(v, "1") || crate::json::str_eq(v, "true") || crate::json::str_eq(
            v,
            "yes",
        ),
        None => false,
    }
}

/// A switch that is on unless set to `0`, `false` or `no`, with a default
/// when unset.
pub open spec fn enabled_of(value: Option<Seq<char>>, default: bool) -> bool {
    match value {
        Some(v) => !(v == "0"@ || v == "false"@ || v == "no"@),
        None => default,
    }
}

/// A switch that is on unless set to `0`, `false` or `no`.
pub fn enabled_setting(value: Option<&str>, default: bool) -> (r: bool)
    ensures
        r == enabled_of(
            match value {
                Some(v) => Some(v@),
                None => None,
            },
            default,
        ),
{
    match value {
        Some(v) => !(crate::json::str_eq(v, "0") || crate::json::str_eq(v, "false")
            || crate::json::str_eq(v, "no")),
        None => default,
    }
}

/// The number of non-empty lines of `s`: the positions where a byte other
/// than a line feed starts the text or follows a line feed.
pub open spec fn nonempty_lines(s: Seq<u8>) -> nat
    decreases s.len(),
{
    if s.len() == 0 {
        0
    } else {
        let n = s.len() as int;
        nonempty_lines(s.drop_last()) + if s[n - 1] != 0x0Au8 && (n == 1 || s[n - 2] == 0x0Au8) {
            1nat
        } else {
            0nat
        }
    }
}

/// The number of descriptors in a listing with one header line and one line
/// per descriptor: the non-empty lines less one, and zero without any.
pub open spec fn listed_descriptors(s: Seq<u8>) -> nat {
    if nonempty_lines(s) == 0 {
        0
    } else {
        (nonempty_lines(s) - 1) as nat
    }
}

/// The number of descriptors in a listing with one header line.
pub fn count_listed_descriptors(stdout: &[u8]) -> (r: usize)
    ensures
        r == listed_descriptors(stdout@),
{
    let mut n: usize = 0;
    let mut i: usize = 0;
    while i < stdout.len()
        invariant
            i <= stdout.len(),
            n == nonempty_lines(stdout@.subrange(0, i as int)),
            n <= i,
        decreases stdout.len() - i,
    {
        let ghost pre = stdout@.subrange(0, i + 1);
        assert(pre.drop_last() =~= stdout@.subrange(0, i as int));
        if stdout[i] != 0x0Au8 && (i == 0 || stdout[i - 1] == 0x0Au8) {
            n = n + 1;
        }
        i = i + 1;
    }
    assert(stdout@.subrange(0, stdout.len() as int) =~= stdout@);
    if n == 0 {
        0
    } else {
        n - 1
    }
}

/// The journal event of a started drain.
pub fn drain_started_event(reason: ReclaimReason) -> (r: &'static str)
    ensures
        reason == ReclaimReason::Archive ==> r@ == "archive_drain_started"@,
        reason == ReclaimReason::Idle ==> r@ == "idle_drain_started"@,
{
    match reason {
        ReclaimReason::Archive => "archive_drain_started",
        ReclaimReason::Idle => "idle_drain_started",
    }
}

/// The journal event of a cancelled drain.
pub fn drain_cancelled_event(reason: ReclaimReason) -> (r: &'static str)
    ensures
        reason == ReclaimReason::Archive ==> r@ == "archive_drain_cancelled"@,
        reason == ReclaimReason::Idle ==> r@ == "idle_drain_cancelled"@,
{
    match reason {
        ReclaimReason::Archive => "archive_drain_cancelled",
        ReclaimReason::Idle => "idle_drain_cancelled",
    }
}

/// The journal event of a reclaim.
pub fn reclaim_event(reason: ReclaimReason) -> (r: &'static str)
    ensures
        reason == ReclaimReason::Archive ==> r@ == "archive_reclaim"@,
        reason == ReclaimReason::Idle ==> r@ == "idle_reclaim"@,
{
    match reason {
        ReclaimReason::Archive => "archive_reclaim",
        ReclaimReason::Idle => "idle_reclaim",
    }
}

/// The journal event of a takeover's outcome.
pub open spec fn takeover_event_text(o: TakeoverOutcome) -> Seq<char> {
    match o {
        TakeoverOutcome::AlreadyOwned => "takeover_not_needed"@,
        TakeoverOutcome::TakenOver => "takeover_completed"@,
        TakeoverOutcome::RefusedActive => "takeover_refused_active"@,
        TakeoverOutcome::RefusedUnprovenStatus => "takeover_refused_unproven_status"@,
        TakeoverOutcome::NoSharedOwner => "takeover_not_needed_no_shared_owner"@,
        TakeoverOutcome::Failed => "takeover_failed"@,
        TakeoverOutcome::FailedRolledBack => "takeover_failed_rolled_back"@,
        TakeoverOutcome::FailedRollback => "takeover_failed_rollback"@,
    }
}

/// The journal event of a takeover's outcome.
pub fn takeover_event(outcome: TakeoverOutcome) -> (r: &'static str)
    ensures
        r@ == takeover_event_text(outcome),
{
    match outcome {
        TakeoverOutcome::AlreadyOwned => "takeover_not_needed",
        TakeoverOutcome::TakenOver => "takeover_completed",
        TakeoverOutcome::RefusedActive => "takeover_refused_active",
        TakeoverOutcome::RefusedUnprovenStatus => "takeover_refused_unproven_status",
        TakeoverOutcome::NoSharedOwner => "takeover_not_needed_no_shared_owner",
        TakeoverOutcome::Failed => "takeover_failed",
        TakeoverOutcome::FailedRolledBack => "takeover_failed_rolled_back",
        TakeoverOutcome::FailedRollback => "takeover_failed_rollback",
    }
}

/// Observes a chunk of client bytes and takes the thread resumes it
/// completed, oldest first, so that each can be prepared before the chunk is
/// forwarded.
pub fn forward_client_chunk(observer: &mut ProtocolObserver, bytes: &[u8]) -> (r: Vec<ResumeAttempt>)
    requires
        old(observer).wf(),
        bytes@.len() <= usize::MAX - MAX_WIRE_BUFFER,
    ensures
        final(observer).wf(),
        ({
            let seen = observe_spec(old(observer).model(), true, bytes@, final(observer).model().last_activity);
            &&& attempts_view(r@) == seen.resume_attempts
            &&& final(observer).model() == (ProtocolModel { resume_attempts: Seq::empty(), ..seen })
        }),
{
    observer.observe(Direction::ClientToServer, bytes);
    observer.take_resume_attempts()
}

} // verus!
