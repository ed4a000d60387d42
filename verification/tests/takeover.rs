use codex_managed_channel::clock::Duration;
use codex_managed_channel::json::JsonValue;
use codex_managed_channel::protocol::ResumeAttempt;
use codex_managed_channel::rpc::{classify_reply, ReplyMatch};
use codex_managed_channel::takeover::{
    is_active_writer, phase_request, takeover_step, thread_status, IdleCheck, IdleRequest,
    RpcReply, Server, TakeoverConfig, TakeoverManager, TakeoverOutcome, TakeoverPhase,
    TakeoverStep, ThreadMethod,
};
use std::collections::VecDeque;
use std::path::PathBuf;

/// One scripted reply: the method it answers and the JSON-RPC message body
/// without its `id`.
struct Step {
    method: &'static str,
    body: String,
}

fn ok(method: &'static str, result: &str) -> Step {
    Step {
        method,
        body: format!("\"result\":{result}"),
    }
}

fn error(method: &'static str, code: i64, message: &str) -> Step {
    Step {
        method,
        body: format!("\"error\":{{\"code\":{code},\"message\":\"{message}\"}}"),
    }
}

fn attempt() -> ResumeAttempt {
    ResumeAttempt {
        thread_id: "thread-a".into(),
        params: parse_json(br#"{"threadId":"thread-a","model":"gpt-test"}"#).unwrap(),
    }
}

fn manager() -> TakeoverManager {
    TakeoverManager::new(TakeoverConfig {
        isolated_socket: PathBuf::from("isolated.sock"),
        shared_socket: PathBuf::from("shared.sock"),
        timeout: Duration::from_secs(2),
    })
}

fn method_name(m: ThreadMethod) -> &'static str {
    match m {
        ThreadMethod::Read => "thread/read",
        ThreadMethod::Archive => "thread/archive",
        ThreadMethod::Unarchive => "thread/unarchive",
    }
}

/// Runs a takeover against two scripted servers: each request takes the next
/// scripted reply of its server, which must answer the same method; a server
/// without a script is unreachable.
fn run(isolated: Option<Vec<Step>>, shared: Option<Vec<Step>>) -> (TakeoverOutcome, usize, usize) {
    let _ = manager();
    let _ = attempt();
    let mut scripts = [
        isolated.map(VecDeque::from),
        shared.map(VecDeque::from),
    ];
    let mut used = [0usize, 0usize];
    let mut phase = TakeoverPhase::ReadIsolated;
    let mut next_id = [1u64, 1u64];
    loop {
        let (server, method) = phase_request(phase);
        let index = match server {
            Server::Isolated => 0,
            Server::Shared => 1,
        };
        let reply = match scripts[index].as_mut() {
            None => RpcReply::Unreachable,
            Some(script) => {
                let step = script.pop_front().expect("request beyond the script");
                assert_eq!(step.method, method_name(method));
                used[index] += 1;
                next_id[index] += 1;
                let id = next_id[index];
                let text = format!("{{\"id\":{id},{}}}", step.body);
                let message = parse_json(text.as_bytes()).unwrap();
                match classify_reply(message, id) {
                    ReplyMatch::Answer(v) => RpcReply::Answer(v),
                    ReplyMatch::Remote { code, message } => RpcReply::Remote { code, message },
                    ReplyMatch::Other | ReplyMatch::MissingResult => RpcReply::Transport,
                }
            }
        };
        match takeover_step(phase, &reply, true) {
            TakeoverStep::Continue(p) => phase = p,
            TakeoverStep::Retry => {}
            TakeoverStep::Finish(outcome) => return (outcome, used[0], used[1]),
        }
    }
}

#[test]
fn idle_shared_thread_retries_transient_writer_release_without_an_internal_resume() {
    let history = "x".repeat(2 * 1024 * 1024);
    let outcome = run(
        Some(vec![
            ok(
                "thread/read",
                r#"{"thread":{"id":"thread-a","status":{"type":"notLoaded"}}}"#,
            ),
            error(
                "thread/unarchive",
                -32600,
                "thread thread-a already has an active writer",
            ),
            ok(
                "thread/unarchive",
                &format!(r#"{{"thread":{{"id":"thread-a","history":"{history}"}}}}"#),
            ),
        ]),
        Some(vec![
            ok(
                "thread/read",
                r#"{"thread":{"id":"thread-a","status":{"type":"idle"}}}"#,
            ),
            ok("thread/archive", "{}"),
        ]),
    );
    assert_eq!(outcome, (TakeoverOutcome::TakenOver, 3, 2));
}

#[test]
fn already_loaded_isolated_thread_never_contacts_shared_server() {
    let outcome = run(
        Some(vec![ok(
            "thread/read",
            r#"{"thread":{"id":"thread-a","status":{"type":"idle"}}}"#,
        )]),
        Some(vec![]),
    );
    assert_eq!(outcome.0, TakeoverOutcome::AlreadyOwned);
    assert_eq!(outcome.2, 0);
}

#[test]
fn active_shared_thread_is_never_archived() {
    let outcome = run(
        Some(vec![ok(
            "thread/read",
            r#"{"thread":{"id":"thread-a","status":{"type":"notLoaded"}}}"#,
        )]),
        Some(vec![ok(
            "thread/read",
            r#"{"thread":{"id":"thread-a","status":{"type":"active","activeFlags":[]}}}"#,
        )]),
    );
    assert_eq!(outcome, (TakeoverOutcome::RefusedActive, 1, 1));
}

#[test]
fn a_thread_not_loaded_by_either_server_needs_no_takeover() {
    let outcome = run(
        Some(vec![ok(
            "thread/read",
            r#"{"thread":{"id":"thread-a","status":{"type":"notLoaded"}}}"#,
        )]),
        Some(vec![ok(
            "thread/read",
            r#"{"thread":{"id":"thread-a","status":{"type":"notLoaded"}}}"#,
        )]),
    );
    assert_eq!(outcome.0, TakeoverOutcome::NoSharedOwner);
}

#[test]
fn failed_unarchive_after_shared_archive_restores_shared_state() {
    let outcome = run(
        Some(vec![
            ok(
                "thread/read",
                r#"{"thread":{"id":"thread-a","status":{"type":"notLoaded"}}}"#,
            ),
            error("thread/unarchive", -32603, "load failed"),
        ]),
        Some(vec![
            ok(
                "thread/read",
                r#"{"thread":{"id":"thread-a","status":{"type":"idle"}}}"#,
            ),
            ok("thread/archive", "{}"),
            ok("thread/unarchive", r#"{"thread":{"id":"thread-a"}}"#),
        ]),
    );
    assert_eq!(outcome, (TakeoverOutcome::FailedRolledBack, 2, 3));
}

#[test]
fn unreachable_shared_server_fails_without_changes() {
    let outcome = run(
        Some(vec![ok(
            "thread/read",
            r#"{"thread":{"id":"thread-a","status":{"type":"notLoaded"}}}"#,
        )]),
        None,
    );
    assert_eq!(outcome.0, TakeoverOutcome::Failed);
}

#[test]
fn unknown_or_missing_status_is_unproven() {
    let outcome = run(
        Some(vec![ok(
            "thread/read",
            r#"{"thread":{"id":"thread-a","status":{"type":"systemError"}}}"#,
        )]),
        Some(vec![]),
    );
    assert_eq!(outcome.0, TakeoverOutcome::RefusedUnprovenStatus);
    let outcome = run(
        Some(vec![ok(
            "thread/read",
            r#"{"thread":{"id":"thread-a","status":{"type":"notLoaded"}}}"#,
        )]),
        Some(vec![error("thread/read", -1, "no")]),
    );
    assert_eq!(outcome.0, TakeoverOutcome::RefusedUnprovenStatus);
}

#[test]
fn failed_rollback_is_reported() {
    let outcome = run(
        Some(vec![
            ok(
                "thread/read",
                r#"{"thread":{"id":"thread-a","status":{"type":"notLoaded"}}}"#,
            ),
            error("thread/unarchive", -32603, "load failed"),
        ]),
        Some(vec![
            ok(
                "thread/read",
                r#"{"thread":{"id":"thread-a","status":{"type":"idle"}}}"#,
            ),
            ok("thread/archive", "{}"),
            error("thread/unarchive", -32603, "still broken"),
        ]),
    );
    assert_eq!(outcome, (TakeoverOutcome::FailedRollback, 2, 3));
}

#[test]
fn a_writer_refusal_after_the_deadline_rolls_back() {
    let reply = RpcReply::Remote {
        code: -32600,
        message: "thread t already has an active writer".into(),
    };
    assert_eq!(
        takeover_step(TakeoverPhase::UnarchiveIsolated, &reply, true),
        TakeoverStep::Retry
    );
    assert_eq!(
        takeover_step(TakeoverPhase::UnarchiveIsolated, &reply, false),
        TakeoverStep::Continue(TakeoverPhase::RollbackShared)
    );
    assert!(is_active_writer(-32600, "x already has an active writer y"));
    assert!(!is_active_writer(-32601, "already has an active writer"));
    assert!(!is_active_writer(-32600, "already has a writer"));
}

#[test]
fn thread_status_reads_the_nested_type() {
    let v = parse_json(br#"{"thread":{"status":{"type":"idle"}}}"#).unwrap();
    assert_eq!(thread_status(&v).map(|s| s.as_str()), Some("idle"));
    let w = parse_json(br#"{"thread":{"status":"idle"}}"#).unwrap();
    assert!(thread_status(&w).is_none());
}

fn read_result(status: &str) -> JsonValue {
    parse_json(format!(r#"{{"thread":{{"status":{{"type":"{status}"}}}}}}"#).as_bytes()).unwrap()
}

#[test]
fn idle_check_reads_every_page_and_thread() {
    let mut check = IdleCheck::new();
    assert!(check.cursor().is_null());
    let page = parse_json(br#"{"data":["a","b"],"nextCursor":"c1"}"#).unwrap();
    assert!(matches!(check.on_list(page), IdleRequest::Read(ref t) if t == "a"));
    assert!(matches!(check.on_read(&read_result("idle")), IdleRequest::Read(ref t) if t == "b"));
    assert!(matches!(check.on_read(&read_result("idle")), IdleRequest::List));
    assert_eq!(check.cursor().as_str().map(|s| s.as_str()), Some("c1"));
    let last = parse_json(br#"{"data":[],"nextCursor":null}"#).unwrap();
    assert!(matches!(check.on_list(last), IdleRequest::Done(true)));
}

#[test]
fn idle_check_fails_closed() {
    let mut check = IdleCheck::new();
    let page = parse_json(br#"{"data":["a"],"nextCursor":null}"#).unwrap();
    assert!(matches!(check.on_list(page), IdleRequest::Read(_)));
    assert!(matches!(
        check.on_read(&read_result("active")),
        IdleRequest::Done(false)
    ));

    let mut check = IdleCheck::new();
    let repeated = parse_json(br#"{"data":["a","a"],"nextCursor":null}"#).unwrap();
    assert!(matches!(check.on_list(repeated), IdleRequest::Read(_)));
    assert!(matches!(
        check.on_read(&read_result("idle")),
        IdleRequest::Done(false)
    ));

    let mut check = IdleCheck::new();
    let no_cursor = parse_json(br#"{"data":[]}"#).unwrap();
    assert!(matches!(check.on_list(no_cursor), IdleRequest::Done(false)));

    let mut check = IdleCheck::new();
    let bad_id = parse_json(br#"{"data":[7],"nextCursor":null}"#).unwrap();
    assert!(matches!(check.on_list(bad_id), IdleRequest::Done(false)));
}

#[test]
fn idle_check_stops_after_the_page_limit() {
    let mut check = IdleCheck::new();
    for _ in 0..127 {
        let page = parse_json(br#"{"data":[],"nextCursor":"more"}"#).unwrap();
        assert!(matches!(check.on_list(page), IdleRequest::List));
    }
    let page = parse_json(br#"{"data":[],"nextCursor":"more"}"#).unwrap();
    assert!(matches!(check.on_list(page), IdleRequest::Done(false)));
}

#[test]
fn manager_keeps_its_configuration() {
    let m = manager();
    assert_eq!(m.config().isolated_socket, PathBuf::from("isolated.sock"));
    assert_eq!(m.config().timeout, Duration::from_secs(2));
}

fn to_library(v: serde_json::Value) -> JsonValue {
    match v {
        serde_json::Value::Null => JsonValue::Null,
        serde_json::Value::Bool(b) => JsonValue::Bool(b),
        serde_json::Value::Number(n) => JsonValue::Number(n.to_string()),
        serde_json::Value::String(s) => JsonValue::String(s),
        serde_json::Value::Array(items) => {
            JsonValue::Array(items.into_iter().map(to_library).collect())
        }
        serde_json::Value::Object(fields) => {
            JsonValue::Object(fields.into_iter().map(|(k, v)| (k, to_library(v))).collect())
        }
    }
}

fn parse_json(bytes: &[u8]) -> Option<JsonValue> {
    serde_json::from_slice(bytes).ok().map(to_library)
}

#[test]
fn idle_check_reads_at_most_the_page_limit() {
    let mut check = IdleCheck::new();
    let mut pages = 0;
    loop {
        let page = parse_json(br#"{"data":[],"nextCursor":"more"}"#).unwrap();
        pages += 1;
        match check.on_list(page) {
            IdleRequest::List => {}
            IdleRequest::Done(idle) => {
                assert!(!idle);
                break;
            }
            IdleRequest::Read(_) => panic!("no thread was listed"),
        }
    }
    assert_eq!(pages, 128);
}

#[test]
fn idle_check_reads_at_most_the_thread_limit() {
    let ids: Vec<String> = (0..4097).map(|i| format!("\"t{i}\"")).collect();
    let page = format!(r#"{{"data":[{}],"nextCursor":null}}"#, ids.join(","));
    let mut check = IdleCheck::new();
    let mut reads = 0;
    let mut request = check.on_list(parse_json(page.as_bytes()).unwrap());
    loop {
        match request {
            IdleRequest::Read(_) => {
                reads += 1;
                request = check.on_read(&read_result("idle"));
            }
            IdleRequest::Done(idle) => {
                assert!(!idle);
                break;
            }
            IdleRequest::List => panic!("the only page has a null cursor"),
        }
    }
    assert_eq!(reads, 4096);
}

#[test]
fn idle_check_refuses_a_reply_it_did_not_ask_for() {
    let mut check = IdleCheck::new();
    assert!(matches!(check.on_read(&read_result("idle")), IdleRequest::Done(false)));
    let page = parse_json(br#"{"data":[],"nextCursor":null}"#).unwrap();
    assert!(matches!(check.on_list(page), IdleRequest::Done(false)));

    let mut check = IdleCheck::new();
    let page = parse_json(br#"{"data":[],"nextCursor":null}"#).unwrap();
    assert!(matches!(check.on_list(page), IdleRequest::Done(true)));
    assert!(matches!(check.on_read(&read_result("active")), IdleRequest::Done(true)));
}
