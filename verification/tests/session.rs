use codex_managed_channel::protocol::{Direction, ProtocolObserver, ProtocolSnapshot};
use codex_managed_channel::clock::Duration;
use codex_managed_channel::session::{
    is_quiet, reclaim_confirmed, recycle_confirmed, undisturbed, unsubscribe_relieved, Lease,
    LeaseVerdict,
    lease_seconds, masked_websocket_text_frame, unsubscribe_idle_threads, unsubscribe_request,
    validate_id, FrameError, IdentityError, LeaseError,
};

fn idle_observer() -> ProtocolObserver {
    let mut observer = ProtocolObserver::default();
    observer.observe(
        Direction::ClientToServer,
        b"{\"id\":1,\"method\":\"thread/resume\",\"params\":{\"threadId\":\"thread-a\"}}\n",
    );
    observer.observe(
        Direction::ServerToClient,
        b"{\"id\":1,\"result\":{\"thread\":{\"id\":\"thread-a\"}}}\n",
    );
    observer
}

#[test]
fn unsubscribe_is_injected_without_counting_as_desktop_activity() {
    let mut observer = idle_observer();
    let generation = observer.snapshot().client_activity_generation;
    let mut output = Vec::new();

    let count = unsubscribe_idle_threads(&mut output, &mut observer, &mut 0).unwrap();

    assert_eq!(count, 1);
    assert_eq!(output[0], 0x81);
    assert_ne!(output[1] & 0x80, 0, "client frame must be masked");
    let mut offset = 2;
    let payload_len = match output[1] & 0x7f {
        value @ 0..=125 => value as usize,
        126 => {
            let value = u16::from_be_bytes([output[2], output[3]]) as usize;
            offset += 2;
            value
        }
        value => panic!("unexpected frame length marker {value}"),
    };
    let mask: [u8; 4] = output[offset..offset + 4].try_into().unwrap();
    offset += 4;
    let payload: Vec<u8> = output[offset..offset + payload_len]
        .iter()
        .enumerate()
        .map(|(index, byte)| byte ^ mask[index % 4])
        .collect();
    assert_eq!(
        String::from_utf8(payload).unwrap(),
        "{\"id\":\"codex-managed-unsubscribe-0\",\"jsonrpc\":\"2.0\",\"method\":\"thread/unsubscribe\",\"params\":{\"threadId\":\"thread-a\"}}"
    );
    assert_eq!(observer.snapshot().client_activity_generation, generation);
}

#[test]
fn identities_are_short_safe_names() {
    assert!(validate_id("desktop").is_ok());
    assert!(validate_id("laptop-2_b").is_ok());
    assert!(validate_id(&"a".repeat(32)).is_ok());
    assert_eq!(validate_id(""), Err(IdentityError::Invalid));
    assert_eq!(validate_id(&"a".repeat(33)), Err(IdentityError::Invalid));
    assert_eq!(validate_id("../other"), Err(IdentityError::Invalid));
    assert_eq!(validate_id("dé"), Err(IdentityError::Invalid));
    assert_eq!(
        IdentityError::Invalid.message(),
        "client identity must contain 1..32 ASCII letters, digits, '-' or '_'"
    );
}

#[test]
fn lease_settings_are_one_second_to_seven_days() {
    assert_eq!(lease_seconds(None, 86400), Ok(86400));
    assert_eq!(lease_seconds(Some("300"), 86400), Ok(300));
    assert_eq!(lease_seconds(Some("+604800"), 1), Ok(604800));
    assert_eq!(lease_seconds(Some("0"), 1), Err(LeaseError::OutOfRange));
    assert_eq!(lease_seconds(Some("604801"), 1), Err(LeaseError::OutOfRange));
    assert_eq!(lease_seconds(Some("ten"), 1), Err(LeaseError::Unparsable));
    assert_eq!(lease_seconds(Some("-5"), 1), Err(LeaseError::Unparsable));
    assert_eq!(lease_seconds(None, 0), Err(LeaseError::OutOfRange));
}

#[test]
fn frames_use_seven_or_sixteen_bit_lengths() {
    let short = masked_websocket_text_frame(b"abc").unwrap();
    assert_eq!(
        short,
        vec![0x81, 0x83, 0x43, 0x4d, 0x43, 0x31, b'a' ^ 0x43, b'b' ^ 0x4d, b'c' ^ 0x43]
    );
    let long = masked_websocket_text_frame(&[0u8; 300]).unwrap();
    assert_eq!(&long[..8], &[0x81, 0xfe, 0x01, 0x2c, 0x43, 0x4d, 0x43, 0x31]);
    assert_eq!(long.len(), 308);
    assert_eq!(long[8], 0x43);
    assert_eq!(long[9], 0x4d);
    assert_eq!(
        masked_websocket_text_frame(&vec![0u8; 65536]),
        Err(FrameError::TooLarge)
    );
    assert_eq!(
        FrameError::TooLarge.message(),
        "managed unsubscribe request is too large"
    );
}

#[test]
fn unsubscribe_request_quotes_the_thread() {
    assert_eq!(
        unsubscribe_request(42, "t\"1"),
        "{\"id\":\"codex-managed-unsubscribe-42\",\"jsonrpc\":\"2.0\",\"method\":\"thread/unsubscribe\",\"params\":{\"threadId\":\"t\\\"1\"}}"
    );
}

#[test]
fn no_idle_thread_means_nothing_is_sent() {
    let mut observer = ProtocolObserver::default();
    let mut output = Vec::new();
    let mut next = 5;
    assert_eq!(
        unsubscribe_idle_threads(&mut output, &mut observer, &mut next),
        Ok(0)
    );
    assert!(output.is_empty());
    assert_eq!(next, 5);
}

#[test]
fn a_busy_thread_is_not_unsubscribed() {
    let mut observer = idle_observer();
    observer.observe(
        Direction::ClientToServer,
        b"{\"id\":2,\"method\":\"turn/start\",\"params\":{\"threadId\":\"thread-a\"}}\n",
    );
    let mut output = Vec::new();
    let mut next = 0;
    assert_eq!(
        unsubscribe_idle_threads(&mut output, &mut observer, &mut next),
        Ok(0)
    );
    assert!(output.is_empty());
}

#[test]
fn request_numbers_advance_per_request() {
    let mut observer = idle_observer();
    let mut output = Vec::new();
    let mut next = u64::MAX - 1;
    unsubscribe_idle_threads(&mut output, &mut observer, &mut next).unwrap();
    assert_eq!(next, u64::MAX);
}

#[test]
fn rejects_client_identity_path_escape_before_bootstrap() {
    assert_eq!(validate_id("../other"), Err(IdentityError::Invalid));
}

fn secs(n: u64) -> Duration {
    Duration::from_secs(n)
}

#[test]
fn a_fresh_lease_expires_after_the_eof_grace_without_a_client() {
    let lease = Lease::new(secs(100), secs(10), secs(30));
    assert_eq!(lease.verdict(secs(9)), LeaseVerdict::Live);
    assert_eq!(lease.verdict(secs(10)), LeaseVerdict::Expired);
}

#[test]
fn an_attached_lease_lives_until_its_maximum_age() {
    let mut lease = Lease::new(secs(100), secs(10), secs(30));
    assert!(lease.attach(secs(5)));
    assert_eq!(lease.verdict(secs(99)), LeaseVerdict::Live);
    assert_eq!(lease.verdict(secs(100)), LeaseVerdict::MaxAge);
}

#[test]
fn a_second_client_is_refused_while_one_is_attached() {
    let mut lease = Lease::new(secs(100), secs(10), secs(30));
    assert!(lease.attach(secs(1)));
    assert!(!lease.attach(secs(2)));
    lease.detach(secs(3));
    assert!(lease.attach(secs(4)));
}

#[test]
fn detached_time_accumulates_across_reconnects() {
    let mut lease = Lease::new(secs(1000), secs(10), secs(20));
    // Detached 0..9 and 20..29: 18 seconds in all, each interval under 10.
    assert!(lease.attach(secs(9)));
    lease.detach(secs(20));
    assert!(lease.attach(secs(29)));
    lease.detach(secs(30));
    assert_eq!(lease.verdict(secs(31)), LeaseVerdict::Live);
    // Two seconds into the third interval the 20-second budget is spent.
    assert_eq!(lease.verdict(secs(32)), LeaseVerdict::Expired);
}

#[test]
fn reconnecting_does_not_renew_the_maximum_age() {
    let mut lease = Lease::new(secs(50), secs(10), secs(300));
    for t in 0..5u64 {
        assert!(lease.attach(secs(t * 10 + 1)));
        lease.detach(secs(t * 10 + 5));
    }
    assert!(lease.attach(secs(49)));
    assert_eq!(lease.verdict(secs(50)), LeaseVerdict::MaxAge);
}

fn snapshot(active_turns: usize, reliable: bool, generation: u64) -> ProtocolSnapshot {
    ProtocolSnapshot {
        active_turns,
        reliable,
        client_activity_generation: generation,
        client_idle: Duration::zero(),
        live_threads: 0,
        archive_empty_epoch: 0,
        unsubscribe_completed: 0,
        unsubscribe_failed: 0,
    }
}

#[test]
fn a_reclaim_is_confirmed_only_while_nothing_moves() {
    assert!(is_quiet(&snapshot(0, true, 4)));
    assert!(!is_quiet(&snapshot(1, true, 4)));
    assert!(!is_quiet(&snapshot(0, false, 4)));
    let before = snapshot(0, true, 4);
    assert!(undisturbed(&before, &snapshot(0, true, 4)));
    assert!(!undisturbed(&before, &snapshot(0, true, 5)));
    assert!(!undisturbed(&before, &snapshot(2, true, 4)));
}

#[test]
fn reclaim_and_recycle_gates_need_quiet_before_and_after() {
    let before = snapshot(0, true, 4);
    assert!(reclaim_confirmed(&before, true, &snapshot(0, true, 4)));
    assert!(!reclaim_confirmed(&before, false, &snapshot(0, true, 4)));
    assert!(!reclaim_confirmed(&before, true, &snapshot(0, false, 4)));
    assert!(!reclaim_confirmed(&snapshot(1, true, 4), true, &snapshot(0, true, 4)));
    assert!(recycle_confirmed(&before, true, &snapshot(0, false, 4)));
    assert!(!recycle_confirmed(&before, true, &snapshot(0, true, 5)));
}

#[test]
fn unsubscribing_relieves_only_when_threads_unloaded_and_count_settled() {
    let policy = codex_managed_channel::fd_guard::FdPolicy::new(160, 192, 240, secs(300)).unwrap();
    assert!(unsubscribe_relieved(Some(2), true, Some(100), &policy));
    assert!(!unsubscribe_relieved(Some(2), true, Some(192), &policy));
    assert!(!unsubscribe_relieved(Some(0), true, Some(100), &policy));
    assert!(!unsubscribe_relieved(Some(2), false, Some(100), &policy));
    assert!(!unsubscribe_relieved(Some(2), true, None, &policy));
    assert!(!unsubscribe_relieved(None, true, Some(100), &policy));
}

#[test]
fn the_lease_reports_whether_a_client_is_attached() {
    let mut lease = Lease::new(secs(100), secs(10), secs(30));
    assert!(!lease.attached());
    assert!(lease.attach(secs(1)));
    assert!(lease.attached());
    lease.detach(secs(2));
    assert!(!lease.attached());
}
