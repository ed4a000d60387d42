use codex_managed_channel::clock::Duration;
use codex_managed_channel::fd_guard::{FdAction, FdPolicy};

#[test]
fn applies_warn_idle_recycle_and_hard_limits() {
    let p = FdPolicy {
        warn: 160,
        recycle: 192,
        hard: 240,
        idle_for: Duration::from_secs(300),
    };
    assert_eq!(
        p.action(159, 0, Duration::from_secs(999)),
        FdAction::Healthy
    );
    assert_eq!(p.action(160, 1, Duration::from_secs(999)), FdAction::Warn);
    assert_eq!(p.action(192, 1, Duration::from_secs(999)), FdAction::Warn);
    assert_eq!(p.action(192, 0, Duration::from_secs(299)), FdAction::Warn);
    assert_eq!(
        p.action(192, 0, Duration::from_secs(300)),
        FdAction::Recycle
    );
    assert_eq!(p.action(240, 4, Duration::zero()), FdAction::HardStop);
}

#[test]
fn rejects_invalid_threshold_order() {
    assert!(FdPolicy::new(192, 160, 240, Duration::zero()).is_err());
}

#[test]
fn ordered_thresholds_are_kept() {
    let p = FdPolicy::new(160, 192, 240, Duration::from_secs(300)).unwrap();
    assert_eq!((p.warn, p.recycle, p.hard), (160, 192, 240));
    assert_eq!(p.idle_for, Duration::from_secs(300));
    assert!(FdPolicy::new(0, 1, 2, Duration::zero()).is_err());
    assert!(FdPolicy::new(1, 1, 2, Duration::zero()).is_err());
}

#[test]
fn a_busy_worker_is_warned_not_recycled() {
    let p = FdPolicy::new(160, 192, 240, Duration::from_secs(300)).unwrap();
    assert_eq!(p.action(239, 2, Duration::from_secs(10_000)), FdAction::Warn);
    assert_eq!(p.action(100, 0, Duration::from_secs(10_000)), FdAction::Healthy);
}

#[test]
fn settled_means_under_the_recycle_level() {
    let p = FdPolicy::new(160, 192, 240, Duration::from_secs(300)).unwrap();
    assert!(p.settled(0));
    assert!(p.settled(170));
    assert!(p.settled(191));
    assert!(!p.settled(192));
    assert!(!p.settled(240));
}
