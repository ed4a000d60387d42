use codex_managed_channel::reclaim::{
    ReclaimAction, ReclaimController, ReclaimReason, ReclaimSnapshot,
};
use codex_managed_channel::clock::Duration;

fn snapshot(client_idle: u64, generation: u64, archive_epoch: u64) -> ReclaimSnapshot {
    ReclaimSnapshot {
        active_turns: 0,
        reliable: true,
        client_activity_generation: generation,
        client_idle: Duration::from_secs(client_idle),
        archive_empty_epoch: archive_epoch,
    }
}

#[test]
fn archive_starts_cancelable_drain_then_reclaims() {
    let mut controller = ReclaimController::new(Duration::from_secs(600), Duration::from_secs(3));
    assert_eq!(
        controller.evaluate(Duration::zero(), snapshot(0, 7, 1)),
        ReclaimAction::DrainStarted(ReclaimReason::Archive)
    );
    assert_eq!(
        controller.evaluate(Duration::from_secs(2), snapshot(2, 7, 1)),
        ReclaimAction::NoAction
    );
    assert_eq!(
        controller.evaluate(Duration::from_secs(3), snapshot(3, 7, 1)),
        ReclaimAction::Reclaim(ReclaimReason::Archive)
    );
}

#[test]
fn new_client_activity_cancels_drain() {
    let mut controller = ReclaimController::new(Duration::from_secs(600), Duration::from_secs(3));
    controller.evaluate(Duration::zero(), snapshot(0, 7, 1));
    assert_eq!(
        controller.evaluate(Duration::from_secs(1), snapshot(0, 8, 1)),
        ReclaimAction::DrainCancelled(ReclaimReason::Archive)
    );
}

#[test]
fn ten_minute_idle_drains_and_server_activity_is_irrelevant() {
    let mut controller = ReclaimController::new(Duration::from_secs(600), Duration::from_secs(3));
    assert_eq!(
        controller.evaluate(Duration::zero(), snapshot(599, 4, 0)),
        ReclaimAction::NoAction
    );
    assert_eq!(
        controller.evaluate(Duration::from_secs(1), snapshot(600, 4, 0)),
        ReclaimAction::DrainStarted(ReclaimReason::Idle)
    );
    assert_eq!(
        controller.evaluate(Duration::from_secs(4), snapshot(603, 4, 0)),
        ReclaimAction::Reclaim(ReclaimReason::Idle)
    );
}

#[test]
fn active_turn_or_unreliable_protocol_never_starts_reclaim() {
    let mut controller = ReclaimController::new(Duration::from_secs(600), Duration::from_secs(3));
    let mut busy = snapshot(900, 1, 1);
    busy.active_turns = 1;
    assert_eq!(
        controller.evaluate(Duration::zero(), busy),
        ReclaimAction::NoAction
    );
    let mut unreliable = snapshot(900, 1, 2);
    unreliable.reliable = false;
    assert_eq!(
        controller.evaluate(Duration::from_secs(1), unreliable),
        ReclaimAction::NoAction
    );
}

#[test]
fn archive_signal_is_deferred_until_the_active_turn_finishes() {
    let mut controller = ReclaimController::new(Duration::from_secs(600), Duration::from_secs(3));
    let mut busy = snapshot(0, 4, 1);
    busy.active_turns = 1;
    assert_eq!(
        controller.evaluate(Duration::zero(), busy),
        ReclaimAction::NoAction
    );
    assert_eq!(
        controller.evaluate(Duration::from_secs(1), snapshot(1, 4, 1)),
        ReclaimAction::DrainStarted(ReclaimReason::Archive)
    );
}

#[test]
fn a_drain_that_has_not_run_its_length_waits() {
    let mut controller = ReclaimController::new(Duration::from_secs(600), Duration::from_secs(3));
    controller.evaluate(Duration::from_secs(10), snapshot(700, 2, 0));
    assert_eq!(
        controller.evaluate(Duration::from_secs(12), snapshot(702, 2, 0)),
        ReclaimAction::NoAction
    );
    assert_eq!(
        controller.evaluate(Duration::from_secs(13), snapshot(703, 2, 0)),
        ReclaimAction::Reclaim(ReclaimReason::Idle)
    );
}

#[test]
fn an_archive_epoch_starts_only_one_drain() {
    let mut controller = ReclaimController::new(Duration::from_secs(600), Duration::from_secs(3));
    assert_eq!(
        controller.evaluate(Duration::zero(), snapshot(0, 1, 1)),
        ReclaimAction::DrainStarted(ReclaimReason::Archive)
    );
    assert_eq!(
        controller.evaluate(Duration::from_secs(1), snapshot(0, 2, 1)),
        ReclaimAction::DrainCancelled(ReclaimReason::Archive)
    );
    assert_eq!(
        controller.evaluate(Duration::from_secs(2), snapshot(0, 2, 1)),
        ReclaimAction::NoAction
    );
    assert_eq!(
        controller.evaluate(Duration::from_secs(3), snapshot(0, 2, 2)),
        ReclaimAction::DrainStarted(ReclaimReason::Archive)
    );
}

#[test]
fn a_running_turn_cancels_a_drain() {
    let mut controller = ReclaimController::new(Duration::from_secs(600), Duration::from_secs(3));
    controller.evaluate(Duration::zero(), snapshot(600, 1, 0));
    let mut busy = snapshot(601, 1, 0);
    busy.active_turns = 1;
    assert_eq!(
        controller.evaluate(Duration::from_secs(1), busy),
        ReclaimAction::DrainCancelled(ReclaimReason::Idle)
    );
    let mut unreliable = snapshot(601, 1, 0);
    unreliable.reliable = false;
    assert_eq!(
        controller.evaluate(Duration::from_secs(2), unreliable),
        ReclaimAction::NoAction
    );
}

#[test]
fn a_drain_keeps_its_start_through_waiting_evaluations() {
    let mut controller = ReclaimController::new(Duration::from_secs(10), Duration::from_secs(5));
    assert_eq!(
        controller.evaluate(Duration::from_secs(20), snapshot(12, 3, 0)),
        ReclaimAction::DrainStarted(ReclaimReason::Idle)
    );
    for t in 21..25 {
        // A newer archive epoch does not restart the drain in progress.
        assert_eq!(
            controller.evaluate(Duration::from_secs(t), snapshot(t, 3, 9)),
            ReclaimAction::NoAction
        );
    }
    assert_eq!(
        controller.evaluate(Duration::from_secs(25), snapshot(25, 3, 9)),
        ReclaimAction::Reclaim(ReclaimReason::Idle)
    );
}

#[test]
fn the_largest_quiet_archive_epoch_is_remembered() {
    let mut controller = ReclaimController::new(Duration::from_secs(600), Duration::from_secs(3));
    assert_eq!(
        controller.evaluate(Duration::zero(), snapshot(0, 1, 4)),
        ReclaimAction::DrainStarted(ReclaimReason::Archive)
    );
    assert_eq!(
        controller.evaluate(Duration::from_secs(1), snapshot(0, 2, 4)),
        ReclaimAction::DrainCancelled(ReclaimReason::Archive)
    );
    // Epochs up to 4 were acted on; 3 and 4 start nothing, 5 does.
    assert_eq!(controller.evaluate(Duration::from_secs(2), snapshot(0, 2, 3)), ReclaimAction::NoAction);
    assert_eq!(controller.evaluate(Duration::from_secs(3), snapshot(0, 2, 4)), ReclaimAction::NoAction);
    assert_eq!(
        controller.evaluate(Duration::from_secs(4), snapshot(0, 2, 5)),
        ReclaimAction::DrainStarted(ReclaimReason::Archive)
    );
}
