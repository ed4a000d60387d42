//! The protocol observer: framing, parsing and lifecycle bookkeeping of both
//! directions of one connection.
use vstd::prelude::*;

use crate::bytes::{is_ascii_ws, is_ws};
use crate::clock::{Clock, Duration};
use crate::json::{json_get, json_path, json_str, parse_json, parsed_json, path_view, str_eq, JsonValue};
use crate::protocol::model::{
    all_ws, client_step, finish_request, idle_threads, index_from, insert_unique, is_turn_end,
    is_user_activity, is_work, key_index_from, key_of, lose_identity, message_step, messages_step,
    method_of, next_generation, observe_spec, pending_for, pending_insert, remove_first,
    resume_turns, sat_add, server_step, start_turn, succeeded, thread_is_idle, thread_opened,
    thread_of, turn_ended, turn_start_index_from, turn_started, work_count, KeyView, PendingView,
    ProtocolModel, TurnView, listed_turns, notified_turn, active_work, reliable, initial_model,
    lemma_messages_keep_frame, lemma_message_keeps_frame,
};
use crate::protocol::wire::{feed_spec, views, WireBuffer, MAX_WIRE_BUFFER};

verus! {

/// The direction bytes travel through the transport.
#[derive(Clone, Copy, Debug, PartialEq, Eq, Structural)]
pub enum Direction {
    ClientToServer,
    ServerToClient,
}

/// A client request to resume a thread, with its original parameters.
#[derive(Debug)]
pub struct ResumeAttempt {
    pub thread_id: String,
    pub params: JsonValue,
}

/// The identity of a JSON-RPC request.
#[derive(Debug)]
pub enum RequestKey {
    Text(String),
    Number(String),
}

/// An outstanding request, by what its completion changes.
#[derive(Debug)]
pub enum PendingRequest {
    ThreadOpen(Option<String>),
    ThreadRemove(String, bool),
    TurnStart(Option<String>),
    CommandExec,
    Unsubscribe(String),
}

/// The text of an optional string.
pub open spec fn opt_str(o: Option<String>) -> Option<Seq<char>> {
    match o {
        Some(s) => Some(s@),
        None => None,
    }
}

pub open spec fn key_view(k: RequestKey) -> KeyView {
    match k {
        RequestKey::Text(s) => KeyView::Text(s@),
        RequestKey::Number(s) => KeyView::Number(s@),
    }
}

pub open spec fn pending_view(p: PendingRequest) -> PendingView {
    match p {
        PendingRequest::ThreadOpen(t) => PendingView::ThreadOpen(opt_str(t)),
        PendingRequest::ThreadRemove(t, a) => PendingView::ThreadRemove(t@, a),
        PendingRequest::TurnStart(t) => PendingView::TurnStart(opt_str(t)),
        PendingRequest::CommandExec => PendingView::CommandExec,
        PendingRequest::Unsubscribe(t) => PendingView::Unsubscribe(t@),
    }
}

pub open spec fn turn_view(t: (Option<String>, String)) -> TurnView {
    (opt_str(t.0), t.1@)
}

pub open spec fn strs_view(s: Seq<String>) -> Seq<Seq<char>> {
    s.map_values(|x: String| x@)
}

pub open spec fn pendings_view(s: Seq<(RequestKey, PendingRequest)>) -> Seq<(KeyView, PendingView)> {
    s.map_values(|e: (RequestKey, PendingRequest)| (key_view(e.0), pending_view(e.1)))
}

pub open spec fn turns_view(s: Seq<(Option<String>, String)>) -> Seq<TurnView> {
    s.map_values(|t: (Option<String>, String)| turn_view(t))
}

pub open spec fn attempts_view(s: Seq<ResumeAttempt>) -> Seq<(Seq<char>, JsonValue)> {
    s.map_values(|a: ResumeAttempt| (a.thread_id@, a.params))
}

/// Whether two optional strings hold the same text.
fn opt_str_eq(a: &Option<String>, b: &Option<String>) -> (r: bool)
    ensures
        r == (opt_str(*a) == opt_str(*b)),
{
    match (a, b) {
        (Some(x), Some(y)) => str_eq(x.as_str(), y.as_str()),
        (None, None) => true,
        _ => false,
    }
}

fn key_eq(a: &RequestKey, b: &RequestKey) -> (r: bool)
    ensures
        r == (key_view(*a) == key_view(*b)),
{
    match (a, b) {
        (RequestKey::Text(x), RequestKey::Text(y)) => str_eq(x.as_str(), y.as_str()),
        (RequestKey::Number(x), RequestKey::Number(y)) => str_eq(x.as_str(), y.as_str()),
        _ => false,
    }
}

fn turn_eq(a: &(Option<String>, String), b: &(Option<String>, String)) -> (r: bool)
    ensures
        r == (turn_view(*a) == turn_view(*b)),
{
    opt_str_eq(&a.0, &b.0) && str_eq(a.1.as_str(), b.1.as_str())
}

fn clone_opt_str(a: &Option<String>) -> (r: Option<String>)
    ensures
        opt_str(r) == opt_str(*a),
{
    match a {
        Some(x) => Some(x.clone()),
        None => None,
    }
}

/// The position of the first occurrence of `x` in `v`.
fn str_index(v: &Vec<String>, x: &String) -> (r: Option<usize>)
    ensures
        r is None <==> index_from(strs_view(v@), x@, 0) < 0,
        r matches Some(i) ==> index_from(strs_view(v@), x@, 0) == i && i < v.len(),
{
    let ghost s = strs_view(v@);
    let mut i: usize = 0;
    while i < v.len()
        invariant
            s == strs_view(v@),
            i <= v.len(),
            index_from(s, x@, 0) == index_from(s, x@, i as int),
        decreases v.len() - i,
    {
        if v[i] == *x {
            return Some(i);
        }
        i = i + 1;
    }
    None
}

fn turn_index(v: &Vec<(Option<String>, String)>, x: &(Option<String>, String)) -> (r: Option<usize>)
    ensures
        r is None <==> index_from(turns_view(v@), turn_view(*x), 0) < 0,
        r matches Some(i) ==> index_from(turns_view(v@), turn_view(*x), 0) == i && i < v.len(),
{
    let ghost s = turns_view(v@);
    let mut i: usize = 0;
    while i < v.len()
        invariant
            s == turns_view(v@),
            i <= v.len(),
            index_from(s, turn_view(*x), 0) == index_from(s, turn_view(*x), i as int),
        decreases v.len() - i,
    {
        if turn_eq(&v[i], x) {
            return Some(i);
        }
        i = i + 1;
    }
    None
}

fn key_index(v: &Vec<(RequestKey, PendingRequest)>, k: &RequestKey) -> (r: Option<usize>)
    ensures
        r is None <==> key_index_from(pendings_view(v@), key_view(*k), 0) < 0,
        r matches Some(i) ==> key_index_from(pendings_view(v@), key_view(*k), 0) == i && i
            < v.len(),
{
    let ghost s = pendings_view(v@);
    let mut i: usize = 0;
    while i < v.len()
        invariant
            s == pendings_view(v@),
            i <= v.len(),
            key_index_from(s, key_view(*k), 0) == key_index_from(s, key_view(*k), i as int),
        decreases v.len() - i,
    {
        if key_eq(&v[i].0, k) {
            return Some(i);
        }
        i = i + 1;
    }
    None
}

fn turn_start_index(v: &Vec<(RequestKey, PendingRequest)>, t: &Option<String>) -> (r: Option<usize>)
    ensures
        r is None <==> turn_start_index_from(pendings_view(v@), opt_str(*t), 0) < 0,
        r matches Some(i) ==> turn_start_index_from(pendings_view(v@), opt_str(*t), 0) == i && i
            < v.len(),
{
    let ghost s = pendings_view(v@);
    let mut i: usize = 0;
    while i < v.len()
        invariant
            s == pendings_view(v@),
            i <= v.len(),
            turn_start_index_from(s, opt_str(*t), 0) == turn_start_index_from(
                s,
                opt_str(*t),
                i as int,
            ),
        decreases v.len() - i,
    {
        match &v[i].1 {
            PendingRequest::TurnStart(u) => {
                if opt_str_eq(u, t) {
                    return Some(i);
                }
            },
            _ => {},
        }
        i = i + 1;
    }
    None
}

/// `x + 1`, saturating.
fn sat_inc(x: usize) -> (r: usize)
    ensures
        r == sat_add(x, 1),
{
    if x == usize::MAX {
        x
    } else {
        x + 1
    }
}

/// Whether a method is a user action.
pub fn is_user_activity_method(method: &str) -> (r: bool)
    ensures
        r == is_user_activity(method@),
{
    str_eq(method, "thread/start") || str_eq(method, "thread/resume") || str_eq(
        method,
        "thread/fork",
    ) || str_eq(method, "thread/archive") || str_eq(method, "thread/unarchive") || str_eq(
        method,
        "thread/delete",
    ) || str_eq(method, "thread/compact") || str_eq(method, "thread/rollback") || str_eq(
        method,
        "thread/name/set",
    ) || str_eq(method, "turn/start") || str_eq(method, "turn/interrupt") || str_eq(
        method,
        "turn/steer",
    ) || str_eq(method, "review/start") || str_eq(method, "command/exec")
}

fn pending_for_exec(method: &str, thread: &Option<String>) -> (r: Option<PendingRequest>)
    ensures
        match r {
            Some(p) => pending_for(method@, opt_str(*thread)) == Some(pending_view(p)),
            None => pending_for(method@, opt_str(*thread)) is None,
        },
{
    if str_eq(method, "thread/start") {
        Some(PendingRequest::ThreadOpen(None))
    } else if str_eq(method, "thread/resume") || str_eq(method, "thread/unarchive") {
        Some(PendingRequest::ThreadOpen(clone_opt_str(thread)))
    } else if str_eq(method, "thread/archive") {
        match thread {
            Some(t) => Some(PendingRequest::ThreadRemove(t.clone(), true)),
            None => None,
        }
    } else if str_eq(method, "thread/delete") {
        match thread {
            Some(t) => Some(PendingRequest::ThreadRemove(t.clone(), false)),
            None => None,
        }
    } else if str_eq(method, "turn/start") {
        Some(PendingRequest::TurnStart(clone_opt_str(thread)))
    } else if str_eq(method, "command/exec") {
        Some(PendingRequest::CommandExec)
    } else if str_eq(method, "thread/unsubscribe") {
        match thread {
            Some(t) => Some(PendingRequest::Unsubscribe(t.clone())),
            None => None,
        }
    } else {
        None
    }
}

/// The key of the `id` of message `v`.
fn key_of_message(v: &JsonValue) -> (r: Option<RequestKey>)
    ensures
        match r {
            Some(k) => key_of(json_get(*v, "id"@)) == Some(key_view(k)),
            None => key_of(json_get(*v, "id"@)) is None,
        },
{
    match v.get("id") {
        Some(JsonValue::String(s)) => Some(RequestKey::Text(s.clone())),
        Some(JsonValue::Number(n)) => Some(RequestKey::Number(n.clone())),
        _ => None,
    }
}

fn is_work_exec(p: &PendingRequest) -> (r: bool)
    ensures
        r == is_work(pending_view(*p)),
{
    match p {
        PendingRequest::TurnStart(_) => true,
        PendingRequest::CommandExec => true,
        _ => false,
    }
}

/// Every byte of `s` is ASCII whitespace.
fn all_ws_exec(s: &[u8]) -> (r: bool)
    ensures
        r == all_ws(s@),
{
    let mut i: usize = 0;
    while i < s.len()
        invariant
            i <= s.len(),
            forall|j: int| 0 <= j < i ==> is_ws(#[trigger] s@[j]),
        decreases s.len() - i,
    {
        if !is_ascii_ws(s[i]) {
            return false;
        }
        i = i + 1;
    }
    true
}

proof fn lemma_index_bounds<A>(s: Seq<A>, x: A, i: int)
    requires
        0 <= i,
    ensures
        index_from(s, x, i) == -1 || (i <= index_from(s, x, i) < s.len() && s[index_from(
            s,
            x,
            i,
        )] == x),
    decreases s.len() - i,
{
    if i < s.len() && s[i] != x {
        lemma_index_bounds(s, x, i + 1);
    }
}

proof fn lemma_key_index_bounds(s: Seq<(KeyView, PendingView)>, k: KeyView, i: int)
    requires
        0 <= i,
    ensures
        key_index_from(s, k, i) == -1 || (i <= key_index_from(s, k, i) < s.len() && s[key_index_from(
            s,
            k,
            i,
        )].0 == k),
    decreases s.len() - i,
{
    if i < s.len() && s[i].0 != k {
        lemma_key_index_bounds(s, k, i + 1);
    }
}

proof fn lemma_turn_start_index_bounds(s: Seq<(KeyView, PendingView)>, t: Option<Seq<char>>, i: int)
    requires
        0 <= i,
    ensures
        turn_start_index_from(s, t, i) == -1 || (i <= turn_start_index_from(s, t, i) < s.len()),
    decreases s.len() - i,
{
    if i < s.len() && s[i].1 != PendingView::TurnStart(t) {
        lemma_turn_start_index_bounds(s, t, i + 1);
    }
}

proof fn lemma_strs_push(s: Seq<String>, x: String)
    ensures
        strs_view(s.push(x)) == strs_view(s).push(x@),
{
    assert(strs_view(s.push(x)) =~= strs_view(s).push(x@));
}

proof fn lemma_strs_remove(s: Seq<String>, i: int)
    requires
        0 <= i < s.len(),
    ensures
        strs_view(s.remove(i)) == strs_view(s).remove(i),
{
    assert(strs_view(s.remove(i)) =~= strs_view(s).remove(i));
}

proof fn lemma_turns_push(s: Seq<(Option<String>, String)>, x: (Option<String>, String))
    ensures
        turns_view(s.push(x)) == turns_view(s).push(turn_view(x)),
{
    assert(turns_view(s.push(x)) =~= turns_view(s).push(turn_view(x)));
}

proof fn lemma_turns_remove(s: Seq<(Option<String>, String)>, i: int)
    requires
        0 <= i < s.len(),
    ensures
        turns_view(s.remove(i)) == turns_view(s).remove(i),
{
    assert(turns_view(s.remove(i)) =~= turns_view(s).remove(i));
}

proof fn lemma_pendings_push(s: Seq<(RequestKey, PendingRequest)>, x: (RequestKey, PendingRequest))
    ensures
        pendings_view(s.push(x)) == pendings_view(s).push((key_view(x.0), pending_view(x.1))),
{
    assert(pendings_view(s.push(x)) =~= pendings_view(s).push(
        (key_view(x.0), pending_view(x.1)),
    ));
}

proof fn lemma_pendings_update(
    s: Seq<(RequestKey, PendingRequest)>,
    i: int,
    x: (RequestKey, PendingRequest),
)
    requires
        0 <= i < s.len(),
    ensures
        pendings_view(s.update(i, x)) == pendings_view(s).update(
            i,
            (key_view(x.0), pending_view(x.1)),
        ),
{
    assert(pendings_view(s.update(i, x)) =~= pendings_view(s).update(
        i,
        (key_view(x.0), pending_view(x.1)),
    ));
}

proof fn lemma_pendings_remove(s: Seq<(RequestKey, PendingRequest)>, i: int)
    requires
        0 <= i < s.len(),
    ensures
        pendings_view(s.remove(i)) == pendings_view(s).remove(i),
{
    assert(pendings_view(s.remove(i)) =~= pendings_view(s).remove(i));
}

proof fn lemma_attempts_push(s: Seq<ResumeAttempt>, x: ResumeAttempt)
    ensures
        attempts_view(s.push(x)) == attempts_view(s).push((x.thread_id@, x.params)),
{
    assert(attempts_view(s.push(x)) =~= attempts_view(s).push((x.thread_id@, x.params)));
}

/// `n`, or `usize::MAX` when it is larger.
pub open spec fn capped(n: nat) -> usize {
    if n > usize::MAX {
        usize::MAX
    } else {
        n as usize
    }
}

/// The time from `start` to `now`, or zero when `now` is earlier.
pub open spec fn time_since(now: nat, start: nat) -> nat {
    if now >= start {
        (now - start) as nat
    } else {
        0
    }
}

/// A summary of the observed state at one moment.
#[derive(Clone, Copy, Debug)]
pub struct ProtocolSnapshot {
    /// Running turns and commands, including those whose start is unanswered.
    pub active_turns: usize,
    /// No message failed to parse and all work could be identified.
    pub reliable: bool,
    /// Advances with each user action.
    pub client_activity_generation: u64,
    /// Time since the last user action.
    pub client_idle: Duration,
    /// Loaded threads.
    pub live_threads: usize,
    /// Advances when an archive leaves no thread loaded.
    pub archive_empty_epoch: u64,
    /// Answered unsubscribe requests.
    pub unsubscribe_completed: usize,
    /// Refused unsubscribe requests.
    pub unsubscribe_failed: usize,
}

/// `s` summarises the observer state `m` at time `now`.
pub open spec fn snapshot_of(s: ProtocolSnapshot, m: ProtocolModel, now: nat) -> bool {
    &&& s.active_turns == capped(active_work(m))
    &&& s.reliable == reliable(m)
    &&& s.client_activity_generation == m.generation
    &&& s.client_idle@ == if now >= m.last_client_activity {
        now - m.last_client_activity
    } else {
        0
    }
    &&& s.live_threads == m.live.len()
    &&& s.archive_empty_epoch == m.epoch
    &&& s.unsubscribe_completed == m.unsubscribe_completed
    &&& s.unsubscribe_failed == m.unsubscribe_failed
}

/// Watches both directions of one connection without changing a byte.
pub struct ProtocolObserver {
    clock: Clock,
    client_wire: WireBuffer,
    server_wire: WireBuffer,
    parse_failures: usize,
    identity_failures: usize,
    generation: u64,
    last_activity: Duration,
    last_client_activity: Duration,
    resume_attempts: Vec<ResumeAttempt>,
    pending: Vec<(RequestKey, PendingRequest)>,
    live: Vec<String>,
    active: Vec<(Option<String>, String)>,
    finished: Vec<(Option<String>, String)>,
    epoch: u64,
    unsubscribe_completed: usize,
    unsubscribe_failed: usize,
}

impl Default for ProtocolObserver {
    fn default() -> (o: Self)
        ensures
            o.wf(),
            o.model() == initial_model(),
    {
        ProtocolObserver::new()
    }
}

impl ProtocolObserver {
    /// The abstract state of the observer.
    pub closed spec fn model(&self) -> ProtocolModel {
        ProtocolModel {
            client: self.client_wire@,
            server: self.server_wire@,
            parse_failures: self.parse_failures,
            identity_failures: self.identity_failures,
            generation: self.generation,
            last_activity: self.last_activity@,
            last_client_activity: self.last_client_activity@,
            resume_attempts: attempts_view(self.resume_attempts@),
            pending: pendings_view(self.pending@),
            live: strs_view(self.live@),
            active: turns_view(self.active@),
            finished: turns_view(self.finished@),
            epoch: self.epoch,
            unsubscribe_completed: self.unsubscribe_completed,
            unsubscribe_failed: self.unsubscribe_failed,
        }
    }

    /// Both buffers hold at most [`MAX_WIRE_BUFFER`] bytes.
    pub closed spec fn wf(&self) -> bool {
        &&& self.client_wire@.pending.len() <= MAX_WIRE_BUFFER
        &&& self.server_wire@.pending.len() <= MAX_WIRE_BUFFER
    }

    fn lose_identity_exec(&mut self)
        ensures
            final(self).model() == lose_identity(old(self).model()),
    {
        self.identity_failures = sat_inc(self.identity_failures);
    }

    fn start_turn_exec(&mut self, k: (Option<String>, String))
        ensures
            final(self).model() == start_turn(old(self).model(), turn_view(k)),
    {
        if turn_index(&self.finished, &k).is_some() || turn_index(&self.active, &k).is_some() {
            return;
        }
        proof {
            lemma_turns_push(self.active@, k);
        }
        self.active.push(k);
    }

    fn resume_turns_exec(&mut self, t: &String, items: &Vec<JsonValue>) -> (found: bool)
        ensures
            (final(self).model(), found) == resume_turns(old(self).model(), t@, items@),
    {
        let mut found = false;
        let mut i: usize = 0;
        assert(items@.subrange(0, 0) =~= Seq::<JsonValue>::empty());
        while i < items.len()
            invariant
                i <= items.len(),
                (self.model(), found) == resume_turns(old(self).model(), t@, items@.subrange(0, i as int)),
            decreases items.len() - i,
        {
            assert(items@.subrange(0, i + 1).drop_last() =~= items@.subrange(0, i as int));
            let item = &items[i];
            let in_progress = match item.get("status") {
                Some(w) => match w.as_str() {
                    Some(st) => str_eq(st.as_str(), "inProgress"),
                    None => false,
                },
                None => false,
            };
            if in_progress {
                match item.get("id") {
                    Some(w) => match w.as_str() {
                        Some(a) => {
                            self.start_turn_exec((Some(t.clone()), a.clone()));
                        },
                        None => {
                            self.lose_identity_exec();
                        },
                    },
                    None => {
                        self.lose_identity_exec();
                    },
                }
                found = true;
            }
            i = i + 1;
        }
        assert(items@.subrange(0, items.len() as int) =~= items@);
        found
    }

    fn thread_opened_exec(&mut self, t: String, v: &JsonValue)
        ensures
            final(self).model() == thread_opened(old(self).model(), t@, *v),
    {
        if str_index(&self.live, &t).is_none() {
            proof {
                lemma_strs_push(self.live@, t);
            }
            self.live.push(t.clone());
        }
        let turns_path = ["result", "thread", "turns"];
        assert(path_view(turns_path@) =~= seq!["result"@, "thread"@, "turns"@]);
        let found = match v.get_path(turns_path.as_slice()) {
            Some(JsonValue::Array(items)) => self.resume_turns_exec(&t, items),
            _ => {
                let empty: Vec<JsonValue> = Vec::new();
                assert(empty@ =~= Seq::<JsonValue>::empty());
                self.resume_turns_exec(&t, &empty)
            },
        };
        let status_path = ["result", "thread", "status", "type"];
        assert(path_view(status_path@) =~= seq!["result"@, "thread"@, "status"@, "type"@]);
        let active_thread = match v.str_at(status_path.as_slice()) {
            Some(st) => str_eq(st.as_str(), "active"),
            None => false,
        };
        if active_thread && !found {
            self.lose_identity_exec();
        }
    }

    fn finish_request_exec(&mut self, req: PendingRequest, success: bool, v: &JsonValue)
        ensures
            final(self).model() == finish_request(old(self).model(), pending_view(req), success, *v),
    {
        match req {
            PendingRequest::TurnStart(t) => {
                if !success {
                    return;
                }
                let id_path = ["result", "turn", "id"];
                assert(path_view(id_path@) =~= seq!["result"@, "turn"@, "id"@]);
                let status_path = ["result", "turn", "status"];
                assert(path_view(status_path@) =~= seq!["result"@, "turn"@, "status"@]);
                match v.str_at(id_path.as_slice()) {
                    None => self.lose_identity_exec(),
                    Some(a) => {
                        let running = match v.str_at(status_path.as_slice()) {
                            None => true,
                            Some(st) => str_eq(st.as_str(), "inProgress"),
                        };
                        if running {
                            self.start_turn_exec((t, a.clone()));
                        }
                    },
                }
            },
            PendingRequest::CommandExec => {},
            PendingRequest::ThreadOpen(fallback) => {
                if !success {
                    return;
                }
                let id_path = ["result", "thread", "id"];
                assert(path_view(id_path@) =~= seq!["result"@, "thread"@, "id"@]);
                let thread = match v.str_at(id_path.as_slice()) {
                    Some(named) => Some(named.clone()),
                    None => fallback,
                };
                match thread {
                    Some(t) => self.thread_opened_exec(t, v),
                    None => {},
                }
            },
            PendingRequest::ThreadRemove(t, archive) => {
                if !success {
                    return;
                }
                match str_index(&self.live, &t) {
                    Some(i) => {
                        proof {
                            lemma_strs_remove(self.live@, i as int);
                        }
                        self.live.remove(i);
                        if archive && self.live.len() == 0 {
                            self.epoch = if self.epoch == u64::MAX {
                                self.epoch
                            } else {
                                self.epoch + 1
                            };
                        }
                    },
                    None => {},
                }
            },
            PendingRequest::Unsubscribe(_) => {
                if success {
                    self.unsubscribe_completed = sat_inc(self.unsubscribe_completed);
                } else {
                    self.unsubscribe_failed = sat_inc(self.unsubscribe_failed);
                }
            },
        }
    }

    fn turn_started_exec(&mut self, v: &JsonValue)
        ensures
            final(self).model() == turn_started(old(self).model(), *v),
    {
        let turn_path = ["params", "turn", "id"];
        assert(path_view(turn_path@) =~= seq!["params"@, "turn"@, "id"@]);
        let thread_path = ["params", "threadId"];
        assert(path_view(thread_path@) =~= seq!["params"@, "threadId"@]);
        match v.str_at(turn_path.as_slice()) {
            None => self.lose_identity_exec(),
            Some(a) => {
                let t = match v.str_at(thread_path.as_slice()) {
                    Some(x) => Some(x.clone()),
                    None => None,
                };
                self.start_turn_exec((t, a.clone()));
            },
        }
    }

    fn turn_ended_exec(&mut self, v: &JsonValue)
        ensures
            final(self).model() == turn_ended(old(self).model(), *v),
    {
        let turn_path = ["params", "turn", "id"];
        assert(path_view(turn_path@) =~= seq!["params"@, "turn"@, "id"@]);
        let thread_path = ["params", "threadId"];
        assert(path_view(thread_path@) =~= seq!["params"@, "threadId"@]);
        let t = match v.str_at(thread_path.as_slice()) {
            Some(x) => Some(x.clone()),
            None => None,
        };
        let start = turn_start_index(&self.pending, &t);
        proof {
            lemma_turn_start_index_bounds(pendings_view(self.pending@), opt_str(t), 0);
        }
        match v.str_at(turn_path.as_slice()) {
            None => {
                self.lose_identity_exec();
                if let Some(i) = start {
                    proof {
                        lemma_pendings_remove(self.pending@, i as int);
                    }
                    self.pending.remove(i);
                }
            },
            Some(a) => {
                let k = (t, a.clone());
                if let Some(i) = turn_index(&self.active, &k) {
                    proof {
                        lemma_turns_remove(self.active@, i as int);
                    }
                    self.active.remove(i);
                    if turn_index(&self.finished, &k).is_none() {
                        proof {
                            lemma_turns_push(self.finished@, k);
                        }
                        self.finished.push(k);
                    }
                } else if turn_index(&self.finished, &k).is_some() {
                } else if let Some(i) = start {
                    proof {
                        lemma_pendings_remove(self.pending@, i as int);
                        lemma_turns_push(self.finished@, k);
                    }
                    self.pending.remove(i);
                    self.finished.push(k);
                }
            },
        }
    }

    fn client_message(&mut self, v: JsonValue, now: Duration)
        ensures
            final(self).model() == client_step(old(self).model(), v, now@),
    {
        let method: String = match v.get("method") {
            Some(w) => match w.as_str() {
                Some(t) => t.clone(),
                None => {
                    return;
                },
            },
            None => {
                return;
            },
        };
        if is_user_activity_method(method.as_str()) {
            self.generation = self.generation.wrapping_add(1);
            self.last_client_activity = now;
        }
        let key = key_of_message(&v);
        let thread_path = ["params", "threadId"];
        assert(path_view(thread_path@) =~= seq!["params"@, "threadId"@]);
        let thread = match v.str_at(thread_path.as_slice()) {
            Some(x) => Some(x.clone()),
            None => None,
        };
        let req = pending_for_exec(method.as_str(), &thread);
        if str_eq(method.as_str(), "thread/resume") {
            match &thread {
                Some(t) => {
                    let thread_id = t.clone();
                    match v.take_member("params") {
                        Some(params) => {
                            let attempt = ResumeAttempt { thread_id, params };
                            proof {
                                lemma_attempts_push(self.resume_attempts@, attempt);
                            }
                            self.resume_attempts.push(attempt);
                        },
                        None => {},
                    }
                },
                None => {},
            }
        }
        match req {
            None => {},
            Some(r) => match key {
                Some(k) => {
                    match key_index(&self.pending, &k) {
                        Some(i) => {
                            proof {
                                lemma_pendings_update(self.pending@, i as int, (k, r));
                            }
                            self.pending.set(i, (k, r));
                        },
                        None => {
                            proof {
                                lemma_pendings_push(self.pending@, (k, r));
                            }
                            self.pending.push((k, r));
                        },
                    }
                },
                None => {
                    if is_work_exec(&r) {
                        self.lose_identity_exec();
                    }
                },
            },
        }
    }

    fn server_message(&mut self, v: JsonValue)
        ensures
            final(self).model() == server_step(old(self).model(), v),
    {
        match key_of_message(&v) {
            Some(k) => match key_index(&self.pending, &k) {
                Some(i) => {
                    proof {
                        lemma_pendings_remove(self.pending@, i as int);
                    }
                    let (_, req) = self.pending.remove(i);
                    let success = match v.get("error") {
                        None => true,
                        Some(JsonValue::Null) => true,
                        _ => false,
                    };
                    self.finish_request_exec(req, success, &v);
                },
                None => {},
            },
            None => {},
        }
        let method: &String = match v.get("method") {
            Some(w) => match w.as_str() {
                Some(t) => t,
                None => {
                    return;
                },
            },
            None => {
                return;
            },
        };
        if str_eq(method.as_str(), "turn/started") {
            self.turn_started_exec(&v);
        } else if str_eq(method.as_str(), "turn/completed") || str_eq(method.as_str(), "turn/failed")
            || str_eq(method.as_str(), "turn/cancelled") {
            self.turn_ended_exec(&v);
        } else if str_eq(method.as_str(), "thread/closed") {
            let thread_path = ["params", "threadId"];
            assert(path_view(thread_path@) =~= seq!["params"@, "threadId"@]);
            match v.str_at(thread_path.as_slice()) {
                Some(t) => match str_index(&self.live, t) {
                    Some(i) => {
                        proof {
                            lemma_strs_remove(self.live@, i as int);
                        }
                        self.live.remove(i);
                    },
                    None => {},
                },
                None => {},
            }
        }
    }

    /// Observes `bytes` travelling in `direction` at time `now` and returns
    /// them unchanged.
    pub fn observe_at<'a>(&mut self, now: Duration, direction: Direction, bytes: &'a [u8]) -> (r:
        &'a [u8])
        requires
            old(self).wf(),
            bytes@.len() <= usize::MAX - MAX_WIRE_BUFFER,
        ensures
            final(self).wf(),
            r@ == bytes@,
            final(self).model() == observe_spec(
                old(self).model(),
                direction == Direction::ClientToServer,
                bytes@,
                now@,
            ),
    {
        let client = match direction {
            Direction::ClientToServer => true,
            Direction::ServerToClient => false,
        };
        self.last_activity = now;
        let (messages, failures) = if client {
            self.client_wire.feed(bytes)
        } else {
            self.server_wire.feed(bytes)
        };
        self.parse_failures = if failures > usize::MAX - self.parse_failures {
            usize::MAX
        } else {
            self.parse_failures + failures
        };
        let ghost m1 = self.model();
        let mut i: usize = 0;
        assert(views(messages@).subrange(0, 0) =~= Seq::<Seq<u8>>::empty());
        while i < messages.len()
            invariant
                i <= messages.len(),
                self.wf(),
                self.model() == messages_step(m1, client, views(messages@).subrange(0, i as int), now@),
            decreases messages.len() - i,
        {
            assert(views(messages@).subrange(0, i + 1).drop_last() =~= views(messages@).subrange(
                0,
                i as int,
            ));
            assert(views(messages@).subrange(0, i + 1).last() == messages@[i as int]@);
            proof {
                lemma_message_keeps_frame(self.model(), client, messages@[i as int]@, now@);
            }
            self.observe_message(client, messages[i].as_slice(), now);
            i = i + 1;
        }
        assert(views(messages@).subrange(0, messages.len() as int) =~= views(messages@));
        bytes
    }

    /// Observes `bytes` travelling in `direction` now, by the observer's
    /// clock, and returns them unchanged.
    pub fn observe<'a>(&mut self, direction: Direction, bytes: &'a [u8]) -> (r: &'a [u8])
        requires
            old(self).wf(),
            bytes@.len() <= usize::MAX - MAX_WIRE_BUFFER,
        ensures
            final(self).wf(),
            r@ == bytes@,
            final(self).model() == observe_spec(
                old(self).model(),
                direction == Direction::ClientToServer,
                bytes@,
                final(self).model().last_activity,
            ),
    {
        let now = self.clock.elapsed();
        let r = self.observe_at(now, direction, bytes);
        proof {
            let c = direction == Direction::ClientToServer;
            let wire = if c {
                old(self).model().client
            } else {
                old(self).model().server
            };
            let fr = feed_spec(wire, bytes@);
            let m = old(self).model();
            let m1 = if c {
                ProtocolModel {
                    client: fr.state,
                    parse_failures: sat_add(m.parse_failures, fr.failures),
                    last_activity: now@,
                    ..m
                }
            } else {
                ProtocolModel {
                    server: fr.state,
                    parse_failures: sat_add(m.parse_failures, fr.failures),
                    last_activity: now@,
                    ..m
                }
            };
            lemma_messages_keep_frame(m1, c, fr.messages, now@);
        }
        r
    }

    /// An observer that has seen nothing, with its clock started now.
    pub fn new() -> (o: ProtocolObserver)
        ensures
            o.wf(),
            o.model() == initial_model(),
    {
        let o = ProtocolObserver {
            clock: Clock::start(),
            client_wire: WireBuffer::new(),
            server_wire: WireBuffer::new(),
            parse_failures: 0,
            identity_failures: 0,
            generation: 0,
            last_activity: Duration::zero(),
            last_client_activity: Duration::zero(),
            resume_attempts: Vec::new(),
            pending: Vec::new(),
            live: Vec::new(),
            active: Vec::new(),
            finished: Vec::new(),
            epoch: 0,
            unsubscribe_completed: 0,
            unsubscribe_failed: 0,
        };
        assert(o.model().resume_attempts =~= Seq::<(Seq<char>, JsonValue)>::empty());
        assert(o.model().pending =~= Seq::<(KeyView, PendingView)>::empty());
        assert(o.model().live =~= Seq::<Seq<char>>::empty());
        assert(o.model().active =~= Seq::<TurnView>::empty());
        assert(o.model().finished =~= Seq::<TurnView>::empty());
        o
    }

    /// Running turns and commands, including those whose start is unanswered.
    pub fn active_turns(&self) -> (n: usize)
        ensures
            n == capped(active_work(self.model())),
    {
        let ghost p = pendings_view(self.pending@);
        let mut count: usize = 0;
        let mut i: usize = 0;
        assert(p.subrange(0, 0) =~= Seq::<(KeyView, PendingView)>::empty());
        while i < self.pending.len()
            invariant
                p == pendings_view(self.pending@),
                i <= self.pending.len(),
                count <= i,
                count == work_count(p.subrange(0, i as int)),
            decreases self.pending.len() - i,
        {
            assert(p.subrange(0, i + 1).drop_last() =~= p.subrange(0, i as int));
            if is_work_exec(&self.pending[i].1) {
                count = count + 1;
            }
            i = i + 1;
        }
        assert(p.subrange(0, self.pending.len() as int) =~= p);
        if count > usize::MAX - self.active.len() {
            usize::MAX
        } else {
            self.active.len() + count
        }
    }

    /// Messages that could not be framed or parsed.
    pub fn parse_failures(&self) -> (n: usize)
        ensures
            n == self.model().parse_failures,
    {
        self.parse_failures
    }

    /// Takes the queued thread resumes, oldest first.
    pub fn take_resume_attempts(&mut self) -> (r: Vec<ResumeAttempt>)
        requires
            old(self).wf(),
        ensures
            final(self).wf(),
            attempts_view(r@) == old(self).model().resume_attempts,
            final(self).model() == (ProtocolModel {
                resume_attempts: Seq::empty(),
                ..old(self).model()
            }),
    {
        let mut taken: Vec<ResumeAttempt> = Vec::new();
        std::mem::swap(&mut taken, &mut self.resume_attempts);
        assert(attempts_view(self.resume_attempts@) =~= Seq::<(Seq<char>, JsonValue)>::empty());
        taken
    }

    /// Loaded threads without a running turn or an unanswered turn start, in
    /// load order.
    pub fn idle_thread_ids(&self) -> (r: Vec<String>)
        ensures
            strs_view(r@) == idle_threads(self.model(), self.model().live),
    {
        let ghost m = self.model();
        let mut out: Vec<String> = Vec::new();
        let mut i: usize = 0;
        assert(m.live.subrange(0, 0) =~= Seq::<Seq<char>>::empty());
        assert(strs_view(out@) =~= Seq::<Seq<char>>::empty());
        while i < self.live.len()
            invariant
                m == self.model(),
                i <= self.live.len(),
                strs_view(out@) == idle_threads(m, m.live.subrange(0, i as int)),
            decreases self.live.len() - i,
        {
            assert(m.live.subrange(0, i + 1).drop_last() =~= m.live.subrange(0, i as int));
            let t = Some(self.live[i].clone());
            let mut busy = false;
            let mut j: usize = 0;
            while j < self.active.len()
                invariant
                    m == self.model(),
                    i < self.live.len(),
                    j <= self.active.len(),
                    opt_str(t) == Some(m.live[i as int]),
                    busy == exists|k: int| 0 <= k < j && #[trigger] m.active[k].0 == opt_str(t),
                decreases self.active.len() - j,
            {
                assert(m.active[j as int] == turn_view(self.active@[j as int]));
                let hit = opt_str_eq(&self.active[j].0, &t);
                assert(hit == (m.active[j as int].0 == opt_str(t)));
                if hit {
                    busy = true;
                }
                assert(busy == exists|k: int| 0 <= k < j + 1 && #[trigger] m.active[k].0 == opt_str(t)) by {
                    if hit {
                        assert(m.active[j as int].0 == opt_str(t));
                    }
                }
                j = j + 1;
            }
            if !busy && turn_start_index(&self.pending, &t).is_none() {
                proof {
                    lemma_strs_push(out@, self.live@[i as int]);
                }
                out.push(self.live[i].clone());
            }
            i = i + 1;
        }
        assert(m.live.subrange(0, self.live.len() as int) =~= m.live);
        out
    }

    /// The summary at time `now`.
    pub fn snapshot_at(&self, now: Duration) -> (s: ProtocolSnapshot)
        ensures
            snapshot_of(s, self.model(), now@),
    {
        ProtocolSnapshot {
            active_turns: self.active_turns(),
            reliable: self.parse_failures == 0 && self.identity_failures == 0,
            client_activity_generation: self.generation,
            client_idle: now.saturating_sub(self.last_client_activity),
            live_threads: self.live.len(),
            archive_empty_epoch: self.epoch,
            unsubscribe_completed: self.unsubscribe_completed,
            unsubscribe_failed: self.unsubscribe_failed,
        }
    }

    /// The summary now, by the observer's clock.
    pub fn snapshot(&self) -> (s: ProtocolSnapshot)
        ensures
            exists|now: nat| snapshot_of(s, self.model(), now),
    {
        let now = self.clock.elapsed();
        self.snapshot_at(now)
    }

    /// Time since the last byte in either direction, at time `now`.
    pub fn idle_at(&self, now: Duration) -> (d: Duration)
        ensures
            d@ == if now@ >= self.model().last_activity {
                now@ - self.model().last_activity
            } else {
                0
            },
    {
        now.saturating_sub(self.last_activity)
    }

    /// The observer's clock reading: the time since it was created.
    pub fn now(&self) -> (d: Duration) {
        self.clock.elapsed()
    }

    /// Time since the last byte in either direction, now by the observer's
    /// clock; it is [`Self::idle_at`] of the clock's reading.
    pub fn idle_elapsed(&self) -> (d: Duration)
        ensures
            exists|now: nat| d@ == #[trigger] time_since(now, self.model().last_activity),
    {
        let now = self.clock.elapsed();
        let d = self.idle_at(now);
        assert(d@ == time_since(now@, self.model().last_activity));
        d
    }

    fn observe_message(&mut self, client: bool, line: &[u8], now: Duration)
        ensures
            final(self).model() == message_step(old(self).model(), client, line@, now@),
    {
        if all_ws_exec(line) {
            return;
        }
        match parse_json(line) {
            None => {
                self.parse_failures = sat_inc(self.parse_failures);
            },
            Some(v) => {
                if client {
                    self.client_message(v, now);
                } else {
                    self.server_message(v);
                }
            },
        }
    }
}

} // verus!
