use codex_managed_channel::clock::Duration;
use codex_managed_channel::protocol::ProtocolSnapshot;
use codex_managed_channel::reclaim::ReclaimReason;
use codex_managed_channel::supervisor::{
    count_listed_descriptors, count_setting, drain_cancelled_event, drain_started_event,
    enabled_setting, fd_busy, flag_setting, reclaim_event, seconds_setting, takeover_event,
};
use codex_managed_channel::takeover::TakeoverOutcome;

#[test]
fn reclaim_events_name_their_reason() {
    assert_eq!(drain_started_event(ReclaimReason::Archive), "archive_drain_started");
    assert_eq!(drain_started_event(ReclaimReason::Idle), "idle_drain_started");
    assert_eq!(drain_cancelled_event(ReclaimReason::Archive), "archive_drain_cancelled");
    assert_eq!(drain_cancelled_event(ReclaimReason::Idle), "idle_drain_cancelled");
    assert_eq!(reclaim_event(ReclaimReason::Archive), "archive_reclaim");
    assert_eq!(reclaim_event(ReclaimReason::Idle), "idle_reclaim");
}

#[test]
fn takeover_events_name_their_outcome() {
    assert_eq!(takeover_event(TakeoverOutcome::AlreadyOwned), "takeover_not_needed");
    assert_eq!(takeover_event(TakeoverOutcome::TakenOver), "takeover_completed");
    assert_eq!(takeover_event(TakeoverOutcome::RefusedActive), "takeover_refused_active");
    assert_eq!(
        takeover_event(TakeoverOutcome::RefusedUnprovenStatus),
        "takeover_refused_unproven_status"
    );
    assert_eq!(
        takeover_event(TakeoverOutcome::NoSharedOwner),
        "takeover_not_needed_no_shared_owner"
    );
    assert_eq!(takeover_event(TakeoverOutcome::Failed), "takeover_failed");
    assert_eq!(
        takeover_event(TakeoverOutcome::FailedRolledBack),
        "takeover_failed_rolled_back"
    );
    assert_eq!(
        takeover_event(TakeoverOutcome::FailedRollback),
        "takeover_failed_rollback"
    );
}

#[test]
fn descriptor_listing_counts_lines_after_the_header() {
    assert_eq!(count_listed_descriptors(b""), 0);
    assert_eq!(count_listed_descriptors(b"COMMAND PID\n"), 0);
    assert_eq!(
        count_listed_descriptors(b"COMMAND PID\nx 1 cwd\nx 1 txt\n"),
        2
    );
    assert_eq!(
        count_listed_descriptors(b"\n\nCOMMAND PID\n\nx 1 cwd\nx 1 txt"),
        2
    );
}

#[test]
fn numeric_settings_fall_back_to_their_default() {
    assert_eq!(seconds_setting(None, 45), 45);
    assert_eq!(seconds_setting(Some("7"), 45), 7);
    assert_eq!(seconds_setting(Some("7s"), 45), 45);
    assert_eq!(seconds_setting(Some(""), 45), 45);
    assert_eq!(count_setting(Some("240"), 1), 240);
    assert_eq!(count_setting(Some("-1"), 1), 1);
    assert_eq!(count_setting(None, 160), 160);
}

#[test]
fn switches_read_their_words() {
    assert!(flag_setting(Some("1")));
    assert!(flag_setting(Some("true")));
    assert!(flag_setting(Some("yes")));
    assert!(!flag_setting(Some("on")));
    assert!(!flag_setting(None));
    assert!(enabled_setting(None, true));
    assert!(!enabled_setting(None, false));
    assert!(!enabled_setting(Some("0"), true));
    assert!(!enabled_setting(Some("false"), true));
    assert!(!enabled_setting(Some("no"), true));
    assert!(enabled_setting(Some("off"), false));
}

fn snapshot(active_turns: usize, reliable: bool) -> ProtocolSnapshot {
    ProtocolSnapshot {
        active_turns,
        reliable,
        client_activity_generation: 0,
        client_idle: Duration::zero(),
        live_threads: 0,
        archive_empty_epoch: 0,
        unsubscribe_completed: 0,
        unsubscribe_failed: 0,
    }
}

#[test]
fn descriptor_policy_treats_unknown_work_as_busy() {
    assert_eq!(fd_busy(None), 1);
    assert_eq!(fd_busy(Some(snapshot(0, false))), 1);
    assert_eq!(fd_busy(Some(snapshot(5, false))), 1);
    assert_eq!(fd_busy(Some(snapshot(0, true))), 0);
    assert_eq!(fd_busy(Some(snapshot(3, true))), 3);
}
