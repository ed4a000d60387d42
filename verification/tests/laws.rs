use codex_managed_channel::protocol::wire::WireBuffer;
use codex_managed_channel::protocol::{Direction, ProtocolObserver};
use codex_managed_channel::supervisor::forward_client_chunk;

#[test]
fn json_lines_read_the_same_however_split() {
    let text: &[u8] = b"{\"a\":1}\n{\"b\":2}\npartial";
    let mut whole = WireBuffer::new();
    let (all, failures) = whole.feed(text);
    assert_eq!(failures, 0);
    for split in 1..text.len() {
        let mut parts = WireBuffer::new();
        let (mut first, f1) = parts.feed(&text[..split]);
        let (second, f2) = parts.feed(&text[split..]);
        first.extend(second);
        if split >= 5 {
            assert_eq!(first, all, "split at {split}");
            assert_eq!(f1 + f2, 0);
        }
    }
    assert_eq!(all, vec![b"{\"a\":1}".to_vec(), b"{\"b\":2}".to_vec()]);
}

#[test]
fn a_repeated_turn_end_changes_nothing() {
    let mut observer = ProtocolObserver::default();
    for id in ["a", "b"] {
        observer.observe(
            Direction::ServerToClient,
            format!("{{\"method\":\"turn/started\",\"params\":{{\"threadId\":\"t\",\"turn\":{{\"id\":\"{id}\"}}}}}}\n").as_bytes(),
        );
    }
    let end = b"{\"method\":\"turn/completed\",\"params\":{\"threadId\":\"t\",\"turn\":{\"id\":\"a\"}}}\n";
    observer.observe(Direction::ServerToClient, end);
    let once = observer.snapshot();
    observer.observe(Direction::ServerToClient, end);
    let twice = observer.snapshot();
    assert_eq!(once.active_turns, 1);
    assert_eq!(twice.active_turns, 1);
    assert!(twice.reliable);
}

#[test]
fn server_bytes_never_count_as_user_activity() {
    let mut observer = ProtocolObserver::default();
    let before = observer.snapshot().client_activity_generation;
    observer.observe(
        Direction::ServerToClient,
        b"{\"method\":\"thread/resume\",\"params\":{\"threadId\":\"x\"}}\n{\"id\":9,\"method\":\"turn/start\"}\n",
    );
    assert_eq!(observer.snapshot().client_activity_generation, before);
}

#[test]
fn trust_once_lost_is_not_regained() {
    let mut observer = ProtocolObserver::default();
    observer.observe(Direction::ClientToServer, b"not json\n");
    assert!(!observer.snapshot().reliable);
    observer.observe(Direction::ClientToServer, b"{\"id\":1,\"method\":\"thread/list\"}\n");
    observer.observe(Direction::ServerToClient, b"{\"id\":1,\"result\":{}}\n");
    assert!(!observer.snapshot().reliable);
    assert_eq!(observer.parse_failures(), 1);
}

#[test]
fn resume_preparation_happens_before_completed_request_bytes_are_forwarded() {
    let mut observer = ProtocolObserver::default();
    let mut events: Vec<&'static str> = Vec::new();
    let first = b"{\"id\":1,\"method\":\"thread/resume\",\"params\":{\"threadId\":\"thread-a\"}";
    let final_bytes = b"}\n";

    for _ in forward_client_chunk(&mut observer, first) {
        events.push("prepare");
    }
    events.push("write");
    assert_eq!(&events, &["write"]);

    for _ in forward_client_chunk(&mut observer, final_bytes) {
        events.push("prepare");
    }
    events.push("write");
    assert_eq!(&events, &["write", "prepare", "write"]);
}

#[test]
fn a_turn_notification_without_a_turn_id_makes_the_observer_unreliable() {
    for method in ["turn/started", "turn/completed", "turn/failed", "turn/cancelled"] {
        let mut observer = ProtocolObserver::default();
        assert!(observer.snapshot().reliable);
        observer.observe(
            Direction::ServerToClient,
            format!("{{\"method\":\"{method}\",\"params\":{{\"threadId\":\"t\"}}}}\n").as_bytes(),
        );
        assert!(!observer.snapshot().reliable, "{method}");
    }
}

#[test]
fn a_running_command_counts_as_work_until_answered() {
    let mut observer = ProtocolObserver::default();
    observer.observe(
        Direction::ClientToServer,
        b"{\"id\":7,\"method\":\"command/exec\",\"params\":{\"command\":[\"true\"]}}\n",
    );
    assert_eq!(observer.snapshot().active_turns, 1);
    observer.observe(Direction::ServerToClient, b"{\"id\":7,\"result\":{}}\n");
    assert_eq!(observer.snapshot().active_turns, 0);
    assert!(observer.snapshot().reliable);
}
