//! The abstract protocol state and how each message changes it.
use vstd::prelude::*;

use crate::json::{json_get, json_path, json_str, parsed_json, JsonValue};
use crate::protocol::wire::{feed_spec, WireMode, WireState};
use crate::bytes::is_ws;

verus! {

/// The identity of a JSON-RPC request: its `id`, a string or a number.
pub enum KeyView {
    Text(Seq<char>),
    Number(Seq<char>),
}

/// A request whose response is awaited, by what its completion changes.
pub enum PendingView {
    /// Opens a thread, which is known up front for resume and unarchive.
    ThreadOpen(Option<Seq<char>>),
    /// Archives (`true`) or deletes (`false`) a thread.
    ThreadRemove(Seq<char>, bool),
    /// Starts a turn, in a thread when the request names one.
    TurnStart(Option<Seq<char>>),
    /// Runs a command; it is work until answered.
    CommandExec,
    /// Unsubscribes from a thread.
    Unsubscribe(Seq<char>),
}

/// A turn by its thread (when known) and its own identity.
pub type TurnView = (Option<Seq<char>>, Seq<char>);

/// The abstract state of a protocol observer.
#[verifier::ext_equal]
pub struct ProtocolModel {
    pub client: WireState,
    pub server: WireState,
    /// Messages that could not be framed or parsed, saturating.
    pub parse_failures: usize,
    /// Work that could not be identified and so cannot be tracked, saturating.
    pub identity_failures: usize,
    /// Counts user actions, wrapping at `u64::MAX`.
    pub generation: u64,
    pub last_activity: nat,
    pub last_client_activity: nat,
    /// Thread resumes seen and not yet taken: thread and request parameters.
    pub resume_attempts: Seq<(Seq<char>, JsonValue)>,
    /// Outstanding requests in order of arrival, one per request key.
    pub pending: Seq<(KeyView, PendingView)>,
    /// Threads that are loaded.
    pub live: Seq<Seq<char>>,
    /// Turns known to be running.
    pub active: Seq<TurnView>,
    /// Turns known to have ended.
    pub finished: Seq<TurnView>,
    /// Counts archives that left no thread loaded, saturating.
    pub epoch: u64,
    /// Answered unsubscribe requests, saturating.
    pub unsubscribe_completed: usize,
    /// Refused unsubscribe requests, saturating.
    pub unsubscribe_failed: usize,
}

/// `a + b`, saturating at `usize::MAX`.
pub open spec fn sat_add(a: usize, b: nat) -> usize {
    if a + b > usize::MAX {
        usize::MAX
    } else {
        (a + b) as usize
    }
}

/// The first position at or after `i` where `x` occurs in `s`, or -1.
pub open spec fn index_from<A>(s: Seq<A>, x: A, i: int) -> int
    decreases s.len() - i,
{
    if i < 0 || i >= s.len() {
        -1
    } else if s[i] == x {
        i
    } else {
        index_from(s, x, i + 1)
    }
}

/// `s` with `x` appended unless it already holds it.
pub open spec fn insert_unique<A>(s: Seq<A>, x: A) -> Seq<A> {
    if index_from(s, x, 0) >= 0 {
        s
    } else {
        s.push(x)
    }
}

/// `s` without the first occurrence of `x`.
pub open spec fn remove_first<A>(s: Seq<A>, x: A) -> Seq<A> {
    let i = index_from(s, x, 0);
    if i >= 0 {
        s.remove(i)
    } else {
        s
    }
}

/// The first position at or after `i` of a request with key `k`, or -1.
pub open spec fn key_index_from(s: Seq<(KeyView, PendingView)>, k: KeyView, i: int) -> int
    decreases s.len() - i,
{
    if i < 0 || i >= s.len() {
        -1
    } else if s[i].0 == k {
        i
    } else {
        key_index_from(s, k, i + 1)
    }
}

/// The first position at or after `i` of a turn start in thread `t`, or -1.
pub open spec fn turn_start_index_from(
    s: Seq<(KeyView, PendingView)>,
    t: Option<Seq<char>>,
    i: int,
) -> int
    decreases s.len() - i,
{
    if i < 0 || i >= s.len() {
        -1
    } else if s[i].1 == PendingView::TurnStart(t) {
        i
    } else {
        turn_start_index_from(s, t, i + 1)
    }
}

/// Whether a request is work in progress until it is answered.
pub open spec fn is_work(p: PendingView) -> bool {
    p is TurnStart || p is CommandExec
}

/// The number of outstanding requests that are work.
pub open spec fn work_count(s: Seq<(KeyView, PendingView)>) -> nat
    decreases s.len(),
{
    if s.len() == 0 {
        0
    } else {
        work_count(s.drop_last()) + if is_work(s.last().1) {
            1nat
        } else {
            0nat
        }
    }
}

/// The running work: known running turns, and turns and commands whose start
/// is unanswered.
pub open spec fn active_work(m: ProtocolModel) -> nat {
    m.active.len() + work_count(m.pending)
}

/// Nothing has made the observation untrustworthy.
pub open spec fn reliable(m: ProtocolModel) -> bool {
    m.parse_failures == 0 && m.identity_failures == 0
}

/// The key of a request `id`, when it is a string or a number.
pub open spec fn key_of(id: Option<JsonValue>) -> Option<KeyView> {
    match id {
        Some(JsonValue::String(s)) => Some(KeyView::Text(s@)),
        Some(JsonValue::Number(n)) => Some(KeyView::Number(n@)),
        _ => None,
    }
}

/// The `method` of a message.
pub open spec fn method_of(v: JsonValue) -> Option<Seq<char>> {
    json_str(json_get(v, "method"@))
}

/// The `params.threadId` of a message.
pub open spec fn thread_of(v: JsonValue) -> Option<Seq<char>> {
    json_str(json_path(v, seq!["params"@, "threadId"@]))
}

/// Methods by which the user acts, as opposed to background polling.
pub open spec fn is_user_activity(method: Seq<char>) -> bool {
    ||| method == "thread/start"@
    ||| method == "thread/resume"@
    ||| method == "thread/fork"@
    ||| method == "thread/archive"@
    ||| method == "thread/unarchive"@
    ||| method == "thread/delete"@
    ||| method == "thread/compact"@
    ||| method == "thread/rollback"@
    ||| method == "thread/name/set"@
    ||| method == "turn/start"@
    ||| method == "turn/interrupt"@
    ||| method == "turn/steer"@
    ||| method == "review/start"@
    ||| method == "command/exec"@
}

/// The outstanding request a client request creates.
pub open spec fn pending_for(method: Seq<char>, thread: Option<Seq<char>>) -> Option<PendingView> {
    if method == "thread/start"@ {
        Some(PendingView::ThreadOpen(None))
    } else if method == "thread/resume"@ || method == "thread/unarchive"@ {
        Some(PendingView::ThreadOpen(thread))
    } else if method == "thread/archive"@ {
        match thread {
            Some(t) => Some(PendingView::ThreadRemove(t, true)),
            None => None,
        }
    } else if method == "thread/delete"@ {
        match thread {
            Some(t) => Some(PendingView::ThreadRemove(t, false)),
            None => None,
        }
    } else if method == "turn/start"@ {
        Some(PendingView::TurnStart(thread))
    } else if method == "command/exec"@ {
        Some(PendingView::CommandExec)
    } else if method == "thread/unsubscribe"@ {
        match thread {
            Some(t) => Some(PendingView::Unsubscribe(t)),
            None => None,
        }
    } else {
        None
    }
}

/// `g + 1`, wrapping to zero after `u64::MAX`.
pub open spec fn next_generation(g: u64) -> u64 {
    if g == u64::MAX {
        0
    } else {
        (g + 1) as u64
    }
}

/// `e + 1`, saturating at `u64::MAX`.
pub open spec fn next_epoch(e: u64) -> u64 {
    if e == u64::MAX {
        e
    } else {
        (e + 1) as u64
    }
}

/// Records `req` under key `k`, replacing a request with the same key.
pub open spec fn pending_insert(s: Seq<(KeyView, PendingView)>, k: KeyView, req: PendingView) -> Seq<
    (KeyView, PendingView),
> {
    let i = key_index_from(s, k, 0);
    if i >= 0 {
        s.update(i, (k, req))
    } else {
        s.push((k, req))
    }
}

/// The observer after a client message `v` at time `now`: a user action
/// advances the activity generation, a thread resume is queued for takeover,
/// and a request that changes the lifecycle is recorded as outstanding; work
/// without a request id cannot be tracked.
pub open spec fn client_step(m: ProtocolModel, v: JsonValue, now: nat) -> ProtocolModel {
    match method_of(v) {
        None => m,
        Some(method) => {
            let m1 = if is_user_activity(method) {
                ProtocolModel {
                    generation: next_generation(m.generation),
                    last_client_activity: now,
                    ..m
                }
            } else {
                m
            };
            let key = key_of(json_get(v, "id"@));
            let thread = thread_of(v);
            let params = json_get(v, "params"@);
            let m2 = if method == "thread/resume"@ && thread is Some && params is Some {
                ProtocolModel {
                    resume_attempts: m1.resume_attempts.push((thread.unwrap(), params.unwrap())),
                    ..m1
                }
            } else {
                m1
            };
            match pending_for(method, thread) {
                None => m2,
                Some(req) => match key {
                    Some(k) => ProtocolModel { pending: pending_insert(m2.pending, k, req), ..m2 },
                    None => if is_work(req) {
                        ProtocolModel { identity_failures: sat_add(m2.identity_failures, 1), ..m2 }
                    } else {
                        m2
                    },
                },
            }
        },
    }
}

/// One more failure to identify work.
pub open spec fn lose_identity(m: ProtocolModel) -> ProtocolModel {
    ProtocolModel { identity_failures: sat_add(m.identity_failures, 1), ..m }
}

/// Records turn `k` as running unless it is already known.
pub open spec fn start_turn(m: ProtocolModel, k: TurnView) -> ProtocolModel {
    if index_from(m.finished, k, 0) >= 0 || index_from(m.active, k, 0) >= 0 {
        m
    } else {
        ProtocolModel { active: m.active.push(k), ..m }
    }
}

/// The turns of a resumed thread `t` listed in `items`: those in progress run;
/// one without an identity cannot be tracked. Also whether any was in
/// progress.
pub open spec fn resume_turns(m: ProtocolModel, t: Seq<char>, items: Seq<JsonValue>) -> (
    ProtocolModel,
    bool,
)
    decreases items.len(),
{
    if items.len() == 0 {
        (m, false)
    } else {
        let (m1, found) = resume_turns(m, t, items.drop_last());
        let item = items.last();
        if json_str(json_get(item, "status"@)) == Some("inProgress"@) {
            match json_str(json_get(item, "id"@)) {
                Some(a) => (start_turn(m1, (Some(t), a)), true),
                None => (lose_identity(m1), true),
            }
        } else {
            (m1, found)
        }
    }
}

/// The listed turns of a thread in a response.
pub open spec fn listed_turns(v: JsonValue) -> Seq<JsonValue> {
    match json_path(v, seq!["result"@, "thread"@, "turns"@]) {
        Some(JsonValue::Array(items)) => items@,
        _ => Seq::empty(),
    }
}

/// The observer after a successful open of thread `t`: the thread is loaded,
/// its running turns are known, and an active thread without an identified
/// running turn cannot be tracked.
pub open spec fn thread_opened(m: ProtocolModel, t: Seq<char>, v: JsonValue) -> ProtocolModel {
    let m1 = ProtocolModel { live: insert_unique(m.live, t), ..m };
    let (m2, found) = resume_turns(m1, t, listed_turns(v));
    if json_str(json_path(v, seq!["result"@, "thread"@, "status"@, "type"@])) == Some("active"@)
        && !found {
        lose_identity(m2)
    } else {
        m2
    }
}

/// The observer after the response `v` to the outstanding request `req`.
pub open spec fn finish_request(m: ProtocolModel, req: PendingView, success: bool, v: JsonValue) -> ProtocolModel {
    match req {
        PendingView::TurnStart(t) => if !success {
            m
        } else {
            match json_str(json_path(v, seq!["result"@, "turn"@, "id"@])) {
                None => lose_identity(m),
                Some(a) => {
                    let status = json_str(json_path(v, seq!["result"@, "turn"@, "status"@]));
                    if status is None || status == Some("inProgress"@) {
                        start_turn(m, (t, a))
                    } else {
                        m
                    }
                },
            }
        },
        PendingView::CommandExec => m,
        PendingView::ThreadOpen(fallback) => if !success {
            m
        } else {
            let named = json_str(json_path(v, seq!["result"@, "thread"@, "id"@]));
            let thread = if named is Some {
                named
            } else {
                fallback
            };
            match thread {
                Some(t) => thread_opened(m, t, v),
                None => m,
            }
        },
        PendingView::ThreadRemove(t, archive) => if !success {
            m
        } else {
            let removed = index_from(m.live, t, 0) >= 0;
            let live = remove_first(m.live, t);
            if archive && removed && live.len() == 0 {
                ProtocolModel { live, epoch: next_epoch(m.epoch), ..m }
            } else {
                ProtocolModel { live, ..m }
            }
        },
        PendingView::Unsubscribe(_) => if success {
            ProtocolModel { unsubscribe_completed: sat_add(m.unsubscribe_completed, 1), ..m }
        } else {
            ProtocolModel { unsubscribe_failed: sat_add(m.unsubscribe_failed, 1), ..m }
        },
    }
}

/// A response succeeded: it has no `error`, or a null one.
pub open spec fn succeeded(v: JsonValue) -> bool {
    match json_get(v, "error"@) {
        None => true,
        Some(JsonValue::Null) => true,
        _ => false,
    }
}

/// The turn named by a notification's `params`.
pub open spec fn notified_turn(v: JsonValue) -> Option<Seq<char>> {
    json_str(json_path(v, seq!["params"@, "turn"@, "id"@]))
}

/// The observer after a notification that a turn ended: a running turn ends;
/// an ended turn is not ended twice; an unknown turn ends a start in its
/// thread that is still unanswered; a notification without a turn identity
/// cannot be tracked and ends such a start.
pub open spec fn turn_ended(m: ProtocolModel, v: JsonValue) -> ProtocolModel {
    let t = thread_of(v);
    let i = turn_start_index_from(m.pending, t, 0);
    match notified_turn(v) {
        None => {
            let m1 = lose_identity(m);
            if i >= 0 {
                ProtocolModel { pending: m1.pending.remove(i), ..m1 }
            } else {
                m1
            }
        },
        Some(a) => {
            let k = (t, a);
            if index_from(m.active, k, 0) >= 0 {
                ProtocolModel {
                    active: remove_first(m.active, k),
                    finished: insert_unique(m.finished, k),
                    ..m
                }
            } else if index_from(m.finished, k, 0) >= 0 {
                m
            } else if i >= 0 {
                ProtocolModel {
                    pending: m.pending.remove(i),
                    finished: insert_unique(m.finished, k),
                    ..m
                }
            } else {
                m
            }
        },
    }
}

/// The observer after a notification that a turn started.
pub open spec fn turn_started(m: ProtocolModel, v: JsonValue) -> ProtocolModel {
    match notified_turn(v) {
        None => lose_identity(m),
        Some(a) => start_turn(m, (thread_of(v), a)),
    }
}

/// Whether a method notifies that a turn ended.
pub open spec fn is_turn_end(method: Seq<char>) -> bool {
    method == "turn/completed"@ || method == "turn/failed"@ || method == "turn/cancelled"@
}

/// The observer after a server message `v`: a response completes its
/// request, and notifications start and end turns and unload threads.
pub open spec fn server_step(m: ProtocolModel, v: JsonValue) -> ProtocolModel {
    let m1 = match key_of(json_get(v, "id"@)) {
        Some(k) => {
            let i = key_index_from(m.pending, k, 0);
            if i >= 0 {
                finish_request(
                    ProtocolModel { pending: m.pending.remove(i), ..m },
                    m.pending[i].1,
                    succeeded(v),
                    v,
                )
            } else {
                m
            }
        },
        None => m,
    };
    match method_of(v) {
        None => m1,
        Some(method) => if method == "turn/started"@ {
            turn_started(m1, v)
        } else if is_turn_end(method) {
            turn_ended(m1, v)
        } else if method == "thread/closed"@ {
            match thread_of(v) {
                Some(t) => ProtocolModel { live: remove_first(m1.live, t), ..m1 },
                None => m1,
            }
        } else {
            m1
        }
    }
}

/// Every byte of `s` is ASCII whitespace.
pub open spec fn all_ws(s: Seq<u8>) -> bool {
    forall|i: int| 0 <= i < s.len() ==> is_ws(#[trigger] s[i])
}

/// The observer after one complete message: blank ones are ignored, and one
/// that is not JSON is a parse failure.
pub open spec fn message_step(m: ProtocolModel, client: bool, line: Seq<u8>, now: nat) -> ProtocolModel {
    if all_ws(line) {
        m
    } else {
        match parsed_json(line) {
            None => ProtocolModel { parse_failures: sat_add(m.parse_failures, 1), ..m },
            Some(v) => if client {
                client_step(m, v, now)
            } else {
                server_step(m, v)
            },
        }
    }
}

/// The observer after the messages `lines`, in order.
pub open spec fn messages_step(m: ProtocolModel, client: bool, lines: Seq<Seq<u8>>, now: nat) -> ProtocolModel
    decreases lines.len(),
{
    if lines.len() == 0 {
        m
    } else {
        message_step(messages_step(m, client, lines.drop_last(), now), client, lines.last(), now)
    }
}

/// The observer after `bytes` travel in one direction at time `now`: the
/// direction's buffer takes them, its framing failures count as parse
/// failures, and each message it completes is observed in order.
pub open spec fn observe_spec(m: ProtocolModel, client: bool, bytes: Seq<u8>, now: nat) -> ProtocolModel {
    let wire = if client {
        m.client
    } else {
        m.server
    };
    let r = feed_spec(wire, bytes);
    let m1 = if client {
        ProtocolModel {
            client: r.state,
            parse_failures: sat_add(m.parse_failures, r.failures),
            last_activity: now,
            ..m
        }
    } else {
        ProtocolModel {
            server: r.state,
            parse_failures: sat_add(m.parse_failures, r.failures),
            last_activity: now,
            ..m
        }
    };
    messages_step(m1, client, r.messages, now)
}

/// Whether thread `t` has no known running turn and no unanswered turn start.
pub open spec fn thread_is_idle(m: ProtocolModel, t: Seq<char>) -> bool {
    &&& forall|i: int| 0 <= i < m.active.len() ==> #[trigger] m.active[i].0 != Some(t)
    &&& turn_start_index_from(m.pending, Some(t), 0) < 0
}

/// The loaded threads without running work, in load order.
pub open spec fn idle_threads(m: ProtocolModel, live: Seq<Seq<char>>) -> Seq<Seq<char>>
    decreases live.len(),
{
    if live.len() == 0 {
        Seq::empty()
    } else {
        let rest = idle_threads(m, live.drop_last());
        if thread_is_idle(m, live.last()) {
            rest.push(live.last())
        } else {
            rest
        }
    }
}

/// The observer before any byte: nothing outstanding, loaded or running, and
/// both directions' framing undecided.
pub open spec fn initial_model() -> ProtocolModel {
    ProtocolModel {
        client: WireState { mode: WireMode::Unknown, pending: Seq::empty(), fragmented: None },
        server: WireState { mode: WireMode::Unknown, pending: Seq::empty(), fragmented: None },
        parse_failures: 0,
        identity_failures: 0,
        generation: 0,
        last_activity: 0,
        last_client_activity: 0,
        resume_attempts: Seq::empty(),
        pending: Seq::empty(),
        live: Seq::empty(),
        active: Seq::empty(),
        finished: Seq::empty(),
        epoch: 0,
        unsubscribe_completed: 0,
        unsubscribe_failed: 0,
    }
}

/// What a message never changes: the buffers and the time of the last byte.
pub open spec fn same_frame(a: ProtocolModel, b: ProtocolModel) -> bool {
    &&& a.last_activity == b.last_activity
    &&& a.client == b.client
    &&& a.server == b.server
}

proof fn lemma_resume_turns_keeps_frame(m: ProtocolModel, t: Seq<char>, items: Seq<JsonValue>)
    ensures
        same_frame(resume_turns(m, t, items).0, m),
    decreases items.len(),
{
    if items.len() > 0 {
        lemma_resume_turns_keeps_frame(m, t, items.drop_last());
    }
}

/// One message never changes the buffers or the time of the last byte.
pub proof fn lemma_message_keeps_frame(m: ProtocolModel, client: bool, line: Seq<u8>, now: nat)
    ensures
        same_frame(message_step(m, client, line, now), m),
{
    if !all_ws(line) {
        match parsed_json(line) {
            None => {},
            Some(v) => {
                if !client {
                    let k = key_of(json_get(v, "id"@));
                    match k {
                        Some(key) => {
                            let i = key_index_from(m.pending, key, 0);
                            if i >= 0 {
                                let m2 = ProtocolModel { pending: m.pending.remove(i), ..m };
                                match m.pending[i].1 {
                                    PendingView::ThreadOpen(fallback) => {
                                        let named = json_str(
                                            json_path(v, seq!["result"@, "thread"@, "id"@]),
                                        );
                                        let thread = if named is Some {
                                            named
                                        } else {
                                            fallback
                                        };
                                        match thread {
                                            Some(t) => {
                                                let m3 = ProtocolModel {
                                                    live: insert_unique(m2.live, t),
                                                    ..m2
                                                };
                                                lemma_resume_turns_keeps_frame(m3, t, listed_turns(v));
                                            },
                                            None => {},
                                        }
                                    },
                                    _ => {},
                                }
                            }
                        },
                        None => {},
                    }
                }
            },
        }
    }
}

/// Messages never change the buffers or the time of the last byte.
pub proof fn lemma_messages_keep_frame(m: ProtocolModel, client: bool, lines: Seq<Seq<u8>>, now: nat)
    ensures
        same_frame(messages_step(m, client, lines, now), m),
    decreases lines.len(),
{
    if lines.len() > 0 {
        lemma_messages_keep_frame(m, client, lines.drop_last(), now);
        lemma_message_keeps_frame(
            messages_step(m, client, lines.drop_last(), now),
            client,
            lines.last(),
            now,
        );
    }
}

} // verus!
