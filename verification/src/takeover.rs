//! Taking over an idle task from the user's shared app-server: the decisions
//! between the official servers' replies. The isolated server is asked first;
//! the shared one is archived only when it reports the task idle, and a failed
//! restore is rolled back.
use vstd::prelude::*;

use crate::clock::Duration;
use crate::json::{json_array, json_get, json_path, json_str, path_view, str_eq, JsonValue};
use crate::text::{contains_chars, contains_str};

verus! {

#[verifier::external_type_specification]
#[verifier::external_body]
pub struct ExPathBuf(std::path::PathBuf);

/// Where the two official servers listen, and how long one takeover may take.
#[derive(Debug)]
pub struct TakeoverConfig {
    pub isolated_socket: std::path::PathBuf,
    pub shared_socket: std::path::PathBuf,
    pub timeout: Duration,
}

/// How a takeover attempt ended.
#[derive(Clone, Copy, Debug, PartialEq, Eq, Structural)]
pub enum TakeoverOutcome {
    /// The isolated server already has the task loaded.
    AlreadyOwned,
    /// The shared server released the task and the isolated one restored it.
    TakenOver,
    /// The shared server is running the task.
    RefusedActive,
    /// A status could not be read or is not one this flow knows.
    RefusedUnprovenStatus,
    /// Neither server has the task loaded.
    NoSharedOwner,
    /// The flow failed before anything was changed, or archiving failed.
    Failed,
    /// The restore failed and the shared server got the task back.
    FailedRolledBack,
    /// The restore failed and so did giving the task back.
    FailedRollback,
}

/// Carries out takeovers with one configuration.
pub struct TakeoverManager {
    config: TakeoverConfig,
}

impl TakeoverManager {
    /// The configuration the manager was made with.
    pub closed spec fn spec_config(&self) -> TakeoverConfig {
        self.config
    }

    /// A manager for `config`.
    pub fn new(config: TakeoverConfig) -> (m: Self)
        ensures
            m.spec_config() == config,
    {
        TakeoverManager { config }
    }

    /// The configuration the manager was made with.
    pub fn config(&self) -> (c: &TakeoverConfig)
        ensures
            *c == self.spec_config(),
    {
        &self.config
    }
}

/// Which official server a request goes to.
#[derive(Clone, Copy, Debug, PartialEq, Eq, Structural)]
pub enum Server {
    Isolated,
    Shared,
}

/// A step of a takeover: the request it makes.
#[derive(Clone, Copy, Debug, PartialEq, Eq, Structural)]
pub enum TakeoverPhase {
    /// `thread/read` on the isolated server.
    ReadIsolated,
    /// `thread/read` on the shared server.
    ReadShared,
    /// `thread/archive` on the shared server.
    ArchiveShared,
    /// `thread/unarchive` on the isolated server.
    UnarchiveIsolated,
    /// `thread/unarchive` on the shared server, giving the task back.
    RollbackShared,
}

/// The JSON-RPC methods a takeover uses.
#[derive(Clone, Copy, Debug, PartialEq, Eq, Structural)]
pub enum ThreadMethod {
    Read,
    Archive,
    Unarchive,
}

/// The server and method of a phase's request.
pub open spec fn phase_target(p: TakeoverPhase) -> (Server, ThreadMethod) {
    match p {
        TakeoverPhase::ReadIsolated => (Server::Isolated, ThreadMethod::Read),
        TakeoverPhase::ReadShared => (Server::Shared, ThreadMethod::Read),
        TakeoverPhase::ArchiveShared => (Server::Shared, ThreadMethod::Archive),
        TakeoverPhase::UnarchiveIsolated => (Server::Isolated, ThreadMethod::Unarchive),
        TakeoverPhase::RollbackShared => (Server::Shared, ThreadMethod::Unarchive),
    }
}

/// The server and method of a phase's request.
pub fn phase_request(p: TakeoverPhase) -> (r: (Server, ThreadMethod))
    ensures
        r == phase_target(p),
{
    match p {
        TakeoverPhase::ReadIsolated => (Server::Isolated, ThreadMethod::Read),
        TakeoverPhase::ReadShared => (Server::Shared, ThreadMethod::Read),
        TakeoverPhase::ArchiveShared => (Server::Shared, ThreadMethod::Archive),
        TakeoverPhase::UnarchiveIsolated => (Server::Isolated, ThreadMethod::Unarchive),
        TakeoverPhase::RollbackShared => (Server::Shared, ThreadMethod::Unarchive),
    }
}

/// How a request ended.
#[derive(Debug)]
pub enum RpcReply {
    /// The server could not be reached or refused the handshake.
    Unreachable,
    /// The connection failed or the reply was unusable.
    Transport,
    /// The server answered with a JSON-RPC error.
    Remote { code: i64, message: String },
    /// The server answered with a result.
    Answer(JsonValue),
}

/// What follows a reply.
#[derive(Clone, Copy, Debug, PartialEq, Eq, Structural)]
pub enum TakeoverStep {
    /// Make the request of this phase.
    Continue(TakeoverPhase),
    /// Make the isolated restore again after a short pause.
    Retry,
    /// The takeover is over.
    Finish(TakeoverOutcome),
}

/// The status type a `thread/read` result reports.
pub open spec fn status_of(v: JsonValue) -> Option<Seq<char>> {
    json_str(json_path(v, seq!["thread"@, "status"@, "type"@]))
}

/// The status type a `thread/read` result reports.
pub fn thread_status(response: &JsonValue) -> (r: Option<&String>)
    ensures
        r is Some <==> status_of(*response) is Some,
        r matches Some(t) ==> status_of(*response) == Some(t@),
{
    let path: [&str; 3] = ["thread", "status", "type"];
    proof {
        reveal_strlit("thread");
        reveal_strlit("status");
        reveal_strlit("type");
    }
    assert(path_view(path@) =~= seq!["thread"@, "status"@, "type"@]);
    response.str_at(path.as_slice())
}

/// A refusal because another writer still holds the task, which passes.
pub open spec fn active_writer(code: i64, message: Seq<char>) -> bool {
    code == -32600 && contains_chars(message, "already has an active writer"@)
}

/// The step after `reply` to the request of `phase`; `in_time` says whether
/// the takeover's deadline is still ahead.
pub open spec fn takeover_next(phase: TakeoverPhase, reply: RpcReply, in_time: bool) -> TakeoverStep {
    match phase {
        TakeoverPhase::ReadIsolated => match reply {
            RpcReply::Answer(v) => match status_of(v) {
                Some(s) => if s == "idle"@ || s == "active"@ {
                    TakeoverStep::Finish(TakeoverOutcome::AlreadyOwned)
                } else if s == "notLoaded"@ {
                    TakeoverStep::Continue(TakeoverPhase::ReadShared)
                } else {
                    TakeoverStep::Finish(TakeoverOutcome::RefusedUnprovenStatus)
                },
                None => TakeoverStep::Finish(TakeoverOutcome::RefusedUnprovenStatus),
            },
            _ => TakeoverStep::Finish(TakeoverOutcome::Failed),
        },
        TakeoverPhase::ReadShared => match reply {
            RpcReply::Unreachable => TakeoverStep::Finish(TakeoverOutcome::Failed),
            RpcReply::Answer(v) => match status_of(v) {
                Some(s) => if s == "idle"@ {
                    TakeoverStep::Continue(TakeoverPhase::ArchiveShared)
                } else if s == "active"@ {
                    TakeoverStep::Finish(TakeoverOutcome::RefusedActive)
                } else if s == "notLoaded"@ {
                    TakeoverStep::Finish(TakeoverOutcome::NoSharedOwner)
                } else {
                    TakeoverStep::Finish(TakeoverOutcome::RefusedUnprovenStatus)
                },
                None => TakeoverStep::Finish(TakeoverOutcome::RefusedUnprovenStatus),
            },
            _ => TakeoverStep::Finish(TakeoverOutcome::RefusedUnprovenStatus),
        },
        TakeoverPhase::ArchiveShared => match reply {
            RpcReply::Answer(_) => TakeoverStep::Continue(TakeoverPhase::UnarchiveIsolated),
            _ => TakeoverStep::Finish(TakeoverOutcome::Failed),
        },
        TakeoverPhase::UnarchiveIsolated => match reply {
            RpcReply::Answer(_) => TakeoverStep::Finish(TakeoverOutcome::TakenOver),
            RpcReply::Remote { code, message } => if active_writer(code, message@) && in_time {
                TakeoverStep::Retry
            } else {
                TakeoverStep::Continue(TakeoverPhase::RollbackShared)
            },
            _ => TakeoverStep::Continue(TakeoverPhase::RollbackShared),
        },
        TakeoverPhase::RollbackShared => match reply {
            RpcReply::Answer(_) => TakeoverStep::Finish(TakeoverOutcome::FailedRolledBack),
            _ => TakeoverStep::Finish(TakeoverOutcome::FailedRollback),
        },
    }
}

/// Whether a refusal says another writer still holds the task.
pub fn is_active_writer(code: i64, message: &str) -> (r: bool)
    ensures
        r == active_writer(code, message@),
{
    proof {
        reveal_strlit("already has an active writer");
    }
    code == -32600 && contains_str(message, "already has an active writer")
}

/// Whether `s` is the text `t`.
fn is_text(s: &String, t: &str) -> (r: bool)
    ensures
        r == (s@ == t@),
{
    str_eq(s.as_str(), t)
}

/// The step after `reply` to the request of `phase`.
pub fn takeover_step(phase: TakeoverPhase, reply: &RpcReply, in_time: bool) -> (r: TakeoverStep)
    ensures
        r == takeover_next(phase, *reply, in_time),
{
    proof {
        reveal_strlit("idle");
        reveal_strlit("active");
        reveal_strlit("notLoaded");
    }
    match phase {
        TakeoverPhase::ReadIsolated => match reply {
            RpcReply::Answer(v) => match thread_status(v) {
                Some(s) => if is_text(s, "idle") || is_text(s, "active") {
                    TakeoverStep::Finish(TakeoverOutcome::AlreadyOwned)
                } else if is_text(s, "notLoaded") {
                    TakeoverStep::Continue(TakeoverPhase::ReadShared)
                } else {
                    TakeoverStep::Finish(TakeoverOutcome::RefusedUnprovenStatus)
                },
                None => TakeoverStep::Finish(TakeoverOutcome::RefusedUnprovenStatus),
            },
            _ => TakeoverStep::Finish(TakeoverOutcome::Failed),
        },
        TakeoverPhase::ReadShared => match reply {
            RpcReply::Unreachable => TakeoverStep::Finish(TakeoverOutcome::Failed),
            RpcReply::Answer(v) => match thread_status(v) {
                Some(s) => if is_text(s, "idle") {
                    TakeoverStep::Continue(TakeoverPhase::ArchiveShared)
                } else if is_text(s, "active") {
                    TakeoverStep::Finish(TakeoverOutcome::RefusedActive)
                } else if is_text(s, "notLoaded") {
                    TakeoverStep::Finish(TakeoverOutcome::NoSharedOwner)
                } else {
                    TakeoverStep::Finish(TakeoverOutcome::RefusedUnprovenStatus)
                },
                None => TakeoverStep::Finish(TakeoverOutcome::RefusedUnprovenStatus),
            },
            _ => TakeoverStep::Finish(TakeoverOutcome::RefusedUnprovenStatus),
        },
        TakeoverPhase::ArchiveShared => match reply {
            RpcReply::Answer(_) => TakeoverStep::Continue(TakeoverPhase::UnarchiveIsolated),
            _ => TakeoverStep::Finish(TakeoverOutcome::Failed),
        },
        TakeoverPhase::UnarchiveIsolated => match reply {
            RpcReply::Answer(_) => TakeoverStep::Finish(TakeoverOutcome::TakenOver),
            RpcReply::Remote { code, message } => if is_active_writer(*code, message.as_str())
                && in_time {
                TakeoverStep::Retry
            } else {
                TakeoverStep::Continue(TakeoverPhase::RollbackShared)
            },
            _ => TakeoverStep::Continue(TakeoverPhase::RollbackShared),
        },
        TakeoverPhase::RollbackShared => match reply {
            RpcReply::Answer(_) => TakeoverStep::Finish(TakeoverOutcome::FailedRolledBack),
            _ => TakeoverStep::Finish(TakeoverOutcome::FailedRollback),
        },
    }
}

/// A task is archived on the shared server only after that server reported it
/// idle: never while it runs there, and never without a proven status.
pub proof fn lemma_archive_only_when_shared_idle(phase: TakeoverPhase, reply: RpcReply, in_time: bool)
    requires
        takeover_next(phase, reply, in_time) == TakeoverStep::Continue(TakeoverPhase::ArchiveShared),
    ensures
        phase == TakeoverPhase::ReadShared,
        reply matches RpcReply::Answer(v) && status_of(v) == Some("idle"@),
{
}

/// A task the shared server reports running is refused.
pub proof fn lemma_active_shared_task_refused(reply: RpcReply, in_time: bool)
    requires
        reply matches RpcReply::Answer(v) && status_of(v) == Some("active"@),
    ensures
        takeover_next(TakeoverPhase::ReadShared, reply, in_time) == TakeoverStep::Finish(
            TakeoverOutcome::RefusedActive,
        ),
{
    reveal_strlit("active");
    reveal_strlit("idle");
    assert("active"@.len() != "idle"@.len());
}

/// A task the isolated server already has loaded never involves the shared
/// server.
pub proof fn lemma_isolated_owner_ends_takeover(reply: RpcReply, in_time: bool)
    requires
        reply matches RpcReply::Answer(v) && (status_of(v) == Some("idle"@) || status_of(v) == Some(
            "active"@,
        )),
    ensures
        takeover_next(TakeoverPhase::ReadIsolated, reply, in_time) == TakeoverStep::Finish(
            TakeoverOutcome::AlreadyOwned,
        ),
{
}

/// A takeover completes only when the isolated server accepted the restore,
/// which follows the shared archive; a restore refused for good is rolled
/// back.
pub proof fn lemma_restore_or_roll_back(reply: RpcReply, in_time: bool)
    ensures
        takeover_next(TakeoverPhase::UnarchiveIsolated, reply, in_time) == TakeoverStep::Finish(
            TakeoverOutcome::TakenOver,
        ) <==> reply is Answer,
        !(reply is Answer) && takeover_next(TakeoverPhase::UnarchiveIsolated, reply, in_time)
            != TakeoverStep::Retry ==> takeover_next(TakeoverPhase::UnarchiveIsolated, reply, in_time)
            == TakeoverStep::Continue(TakeoverPhase::RollbackShared),
        takeover_next(TakeoverPhase::UnarchiveIsolated, reply, in_time) == TakeoverStep::Retry ==> in_time,
{
}

/// Once the deadline has passed, a restore is never retried again.
pub proof fn lemma_no_retry_after_deadline(phase: TakeoverPhase, reply: RpcReply)
    ensures
        takeover_next(phase, reply, false) != TakeoverStep::Retry,
{
}

/// The most distinct loaded threads an idle check accepts.
pub const MAX_LOADED_THREADS: usize = 4096;

/// The most inventory pages an idle check reads.
pub const MAX_INVENTORY_PAGES: usize = 128;

/// What an idle check asks next.
#[derive(Debug)]
pub enum IdleRequest {
    /// `thread/loaded/list` from the current cursor.
    List,
    /// `thread/read` of one loaded thread.
    Read(String),
    /// The answer: every loaded thread is idle, or not proven so.
    Done(bool),
}

/// The text-level view of an idle check's request.
pub enum IdleAsk {
    List,
    Read(Seq<char>),
    Done(bool),
}

/// The view of a request.
pub open spec fn ask_of(r: IdleRequest) -> IdleAsk {
    match r {
        IdleRequest::List => IdleAsk::List,
        IdleRequest::Read(t) => IdleAsk::Read(t@),
        IdleRequest::Done(b) => IdleAsk::Done(b),
    }
}

/// An idle check in progress: pages read, threads seen, the current page, the
/// position in it, and the cursor of the next page.
pub struct IdleState {
    pub pages: nat,
    pub seen: Seq<Seq<char>>,
    pub page: JsonValue,
    pub index: nat,
    pub cursor: JsonValue,
}

/// The thread identities of an inventory page.
pub open spec fn page_items(page: JsonValue) -> Option<Seq<JsonValue>> {
    json_array(json_get(page, "data"@))
}

/// The next request from state `st`: the next thread of the page must be a new
/// identity among at most [`MAX_LOADED_THREADS`]; after the last, a `null`
/// cursor proves the inventory complete, another cursor reads the next page
/// unless [`MAX_INVENTORY_PAGES`] were read.
pub open spec fn idle_advance(st: IdleState) -> (IdleState, IdleAsk) {
    match page_items(st.page) {
        None => (st, IdleAsk::Done(false)),
        Some(items) => if st.index < items.len() {
            match json_str(Some(items[st.index as int])) {
                None => (st, IdleAsk::Done(false)),
                Some(id) => if st.seen.contains(id) {
                    (st, IdleAsk::Done(false))
                } else if st.seen.len() + 1 > MAX_LOADED_THREADS {
                    (IdleState { seen: st.seen.push(id), ..st }, IdleAsk::Done(false))
                } else {
                    (IdleState { seen: st.seen.push(id), ..st }, IdleAsk::Read(id))
                },
            }
        } else {
            match json_get(st.page, "nextCursor"@) {
                None => (st, IdleAsk::Done(false)),
                Some(c) => if c is Null {
                    (st, IdleAsk::Done(true))
                } else if st.pages + 1 >= MAX_INVENTORY_PAGES {
                    (IdleState { pages: st.pages + 1, ..st }, IdleAsk::Done(false))
                } else {
                    (IdleState { pages: st.pages + 1, cursor: c, page: JsonValue::Null, ..st }, IdleAsk::List)
                },
            }
        },
    }
}

/// The next request after page `page` arrives in state `st`.
pub open spec fn idle_after_list(st: IdleState, page: JsonValue) -> (IdleState, IdleAsk) {
    idle_advance(IdleState { page: page, index: 0, ..st })
}

/// The next request after the `thread/read` result `result` arrives in state
/// `st`: only an explicit `idle` status lets the check go on.
pub open spec fn idle_after_read(st: IdleState, result: JsonValue) -> (IdleState, IdleAsk) {
    if status_of(result) == Some("idle"@) && (page_items(st.page) matches Some(items) && st.index
        < items.len()) {
        idle_advance(IdleState { index: st.index + 1, ..st })
    } else {
        (st, IdleAsk::Done(false))
    }
}

/// A read-only check that every thread loaded on a server is idle. It fails
/// closed: a partial inventory, a repeated or invalid identity, or any status
/// but `idle` is no proof.
pub struct IdleCheck {
    pages: usize,
    seen: Vec<String>,
    page: JsonValue,
    index: usize,
    cursor: JsonValue,
    pending: Pending,
    replies: Ghost<Seq<IdleReply>>,
}

/// What kind of reply an idle check waits for, or its answer.
#[derive(Clone, Copy, PartialEq, Eq, Structural)]
enum Pending {
    List,
    Read,
    Done(bool),
}

/// The kind of reply that request `a` waits for.
spec fn pending_view(a: IdleAsk) -> Pending {
    match a {
        IdleAsk::List => Pending::List,
        IdleAsk::Read(_) => Pending::Read,
        IdleAsk::Done(b) => Pending::Done(b),
    }
}

fn pending_of(r: &IdleRequest) -> (p: Pending)
    ensures
        p == pending_view(ask_of(*r)),
{
    match r {
        IdleRequest::List => Pending::List,
        IdleRequest::Read(_) => Pending::Read,
        IdleRequest::Done(b) => Pending::Done(*b),
    }
}

/// What an idle check that answered `true` after `replies` has shown: it
/// read at most [`MAX_INVENTORY_PAGES`] pages, asked about distinct threads,
/// at most [`MAX_LOADED_THREADS`] of them, one read each, and every thread it
/// asked about was reported idle.
pub open spec fn idle_proven(replies: Seq<IdleReply>) -> bool {
    &&& page_count(replies) <= MAX_INVENTORY_PAGES
    &&& idle_run(replies).0.seen.no_duplicates()
    &&& idle_run(replies).0.seen.len() == thread_count(replies)
    &&& thread_count(replies) <= MAX_LOADED_THREADS
    &&& all_reads_idle(replies)
}

/// The texts of a list of strings.
pub open spec fn texts(v: Seq<String>) -> Seq<Seq<char>> {
    v.map_values(|s: String| s@)
}

impl View for IdleCheck {
    type V = IdleState;

    closed spec fn view(&self) -> IdleState {
        IdleState {
            pages: self.pages as nat,
            seen: texts(self.seen@),
            page: self.page,
            index: self.index as nat,
            cursor: self.cursor,
        }
    }
}

impl IdleCheck {
    /// A check that has read nothing; its first request is
    /// [`IdleRequest::List`] from a `null` cursor.
    pub fn new() -> (c: IdleCheck)
        ensures
            c@ == (IdleState {
                pages: 0,
                seen: Seq::empty(),
                page: JsonValue::Null,
                index: 0,
                cursor: JsonValue::Null,
            }),
            c@ == idle_start(),
            c.wf(),
            c.replies() == Seq::<IdleReply>::empty(),
    {
        let c = IdleCheck {
            pages: 0,
            seen: Vec::new(),
            page: JsonValue::Null,
            index: 0,
            cursor: JsonValue::Null,
            pending: Pending::List,
            replies: Ghost(Seq::empty()),
        };
        assert(texts(c.seen@) =~= Seq::<Seq<char>>::empty());
        c
    }

    /// The cursor of the next inventory page.
    pub fn cursor(&self) -> (c: &JsonValue)
        ensures
            *c == self@.cursor,
    {
        &self.cursor
    }

    /// Whether `id` was seen before.
    fn seen_before(&self, id: &String) -> (r: bool)
        ensures
            r == self@.seen.contains(id@),
    {
        let mut i: usize = 0;
        while i < self.seen.len()
            invariant
                i <= self.seen.len(),
                forall|j: int| 0 <= j < i ==> self.seen@[j]@ != id@,
            decreases self.seen.len() - i,
        {
            if str_eq(self.seen[i].as_str(), id.as_str()) {
                assert(texts(self.seen@)[i as int] == id@);
                return true;
            }
            i = i + 1;
        }
        assert forall|j: int| 0 <= j < texts(self.seen@).len() implies texts(self.seen@)[j] != id@ by {
            assert(texts(self.seen@)[j] == self.seen@[j]@);
        }
        false
    }

    fn advance(&mut self) -> (r: IdleRequest)
        ensures
            ask_of(r) == idle_advance(old(self)@).1,
            !(ask_of(r) is Done) ==> final(self)@ == idle_advance(old(self)@).0,
            final(self).replies == old(self).replies,
            final(self).pending == old(self).pending,
    {
        proof {
            reveal_strlit("data");
            reveal_strlit("nextCursor");
        }
        let items = match self.page.get("data") {
            Some(d) => match d.as_array() {
                Some(items) => items,
                None => {
                    return IdleRequest::Done(false);
                },
            },
            None => {
                return IdleRequest::Done(false);
            },
        };
        if self.index < items.len() {
            let id = match items[self.index].as_str() {
                Some(t) => t.clone(),
                None => {
                    return IdleRequest::Done(false);
                },
            };
            if self.seen_before(&id) {
                return IdleRequest::Done(false);
            }
            if self.seen.len() >= MAX_LOADED_THREADS {
                return IdleRequest::Done(false);
            }
            self.seen.push(id.clone());
            assert(texts(self.seen@) =~= texts(old(self).seen@).push(id@));
            IdleRequest::Read(id)
        } else {
            let mut page = JsonValue::Null;
            std::mem::swap(&mut page, &mut self.page);
            match page.take_member("nextCursor") {
                None => IdleRequest::Done(false),
                Some(c) => {
                    if c.is_null() {
                        IdleRequest::Done(true)
                    } else if self.pages >= MAX_INVENTORY_PAGES - 1 {
                        IdleRequest::Done(false)
                    } else {
                        self.pages = self.pages + 1;
                        self.cursor = c;
                        IdleRequest::List
                    }
                },
            }
        }
    }

    /// The replies taken in so far, each answering the request before it.
    pub closed spec fn replies(&self) -> Seq<IdleReply> {
        self.replies@
    }

    /// The check is the run of its replies from the start: while it goes on,
    /// its state is that run's, and it had not answered before its last reply.
    pub closed spec fn wf(&self) -> bool {
        let run = idle_run(self.replies@);
        &&& self.pending == pending_view(run.1)
        &&& !(run.1 is Done) ==> run.0 == self@
        &&& forall|k: int|
            0 <= k < self.replies@.len() ==> !(#[trigger] idle_run(self.replies@.take(k)).1 is Done)
    }

    proof fn lemma_extend(&self, x: IdleReply)
        requires
            self.wf(),
            !(idle_run(self.replies@).1 is Done),
        ensures
            forall|k: int|
                0 <= k < self.replies@.push(x).len() ==> !(#[trigger] idle_run(
                    self.replies@.push(x).take(k),
                ).1 is Done),
            idle_run(self.replies@.push(x)) == idle_step(self@, idle_run(self.replies@).1, x),
    {
        let h = self.replies@;
        let n = h.push(x);
        assert(n.drop_last() =~= h);
        assert forall|k: int| 0 <= k < n.len() implies !(#[trigger] idle_run(n.take(k)).1 is Done) by {
            if k < h.len() {
                assert(n.take(k) =~= h.take(k));
            } else {
                assert(n.take(k) =~= h);
            }
        }
    }

    /// Takes in the inventory page answering its listing and says what to ask
    /// next: the step of [`idle_run`] over the replies with this page added.
    /// A page that answers no listing ends the check with `false`; after its
    /// answer the check repeats it. An answer of `true` is [`idle_proven`]
    /// over all replies taken in.
    pub fn on_list(&mut self, page: JsonValue) -> (r: IdleRequest)
        requires
            old(self).wf(),
        ensures
            final(self).wf(),
            idle_run(old(self).replies()).1 is Done ==> final(self).replies() == old(self).replies(),
            !(idle_run(old(self).replies()).1 is Done) ==> final(self).replies() == old(
                self,
            ).replies().push(IdleReply::Page(page)),
            ask_of(r) == idle_run(final(self).replies()).1,
            idle_run(old(self).replies()).1 is List ==> ask_of(r) == idle_after_list(old(self)@, page).1
                && (!(ask_of(r) is Done) ==> final(self)@ == idle_after_list(old(self)@, page).0),
            r matches IdleRequest::Done(true) ==> idle_proven(final(self).replies()),
    {
        let ghost x = IdleReply::Page(page);
        proof {
            if !(idle_run(self.replies@).1 is Done) {
                self.lemma_extend(x);
            }
        }
        match self.pending {
            Pending::Done(b) => {
                proof {
                    if b {
                        lemma_idle_run_proves_idle(self.replies@);
                    }
                }
                return IdleRequest::Done(b);
            },
            Pending::Read => {
                self.replies = Ghost(self.replies@.push(x));
                self.pending = Pending::Done(false);
                return IdleRequest::Done(false);
            },
            Pending::List => {},
        }
        let ghost h = self.replies@;
        let r = self.step_list(page);
        self.replies = Ghost(h.push(x));
        self.pending = pending_of(&r);
        proof {
            if r matches IdleRequest::Done(true) {
                lemma_idle_run_proves_idle(self.replies@);
            }
        }
        r
    }

    /// Takes in the thread state answering its read and says what to ask
    /// next: the step of [`idle_run`] over the replies with this state added.
    /// A state that answers no read ends the check with `false`; after its
    /// answer the check repeats it. An answer of `true` is [`idle_proven`]
    /// over all replies taken in.
    pub fn on_read(&mut self, result: &JsonValue) -> (r: IdleRequest)
        requires
            old(self).wf(),
        ensures
            final(self).wf(),
            idle_run(old(self).replies()).1 is Done ==> final(self).replies() == old(self).replies(),
            !(idle_run(old(self).replies()).1 is Done) ==> final(self).replies() == old(
                self,
            ).replies().push(IdleReply::Thread(*result)),
            ask_of(r) == idle_run(final(self).replies()).1,
            idle_run(old(self).replies()).1 is Read ==> ask_of(r) == idle_after_read(old(self)@, *result).1
                && (!(ask_of(r) is Done) ==> final(self)@ == idle_after_read(old(self)@, *result).0),
            r matches IdleRequest::Done(true) ==> idle_proven(final(self).replies()),
    {
        let ghost x = IdleReply::Thread(*result);
        proof {
            if !(idle_run(self.replies@).1 is Done) {
                self.lemma_extend(x);
            }
        }
        match self.pending {
            Pending::Done(b) => {
                proof {
                    if b {
                        lemma_idle_run_proves_idle(self.replies@);
                    }
                }
                return IdleRequest::Done(b);
            },
            Pending::List => {
                self.replies = Ghost(self.replies@.push(x));
                self.pending = Pending::Done(false);
                return IdleRequest::Done(false);
            },
            Pending::Read => {},
        }
        let ghost h = self.replies@;
        let r = self.step_read(result);
        self.replies = Ghost(h.push(x));
        self.pending = pending_of(&r);
        proof {
            if r matches IdleRequest::Done(true) {
                lemma_idle_run_proves_idle(self.replies@);
            }
        }
        r
    }

    fn step_list(&mut self, page: JsonValue) -> (r: IdleRequest)
        ensures
            ask_of(r) == idle_after_list(old(self)@, page).1,
            !(ask_of(r) is Done) ==> final(self)@ == idle_after_list(old(self)@, page).0,
            final(self).replies == old(self).replies,
            final(self).pending == old(self).pending,
    {
        self.page = page;
        self.index = 0;
        self.advance()
    }

    fn step_read(&mut self, result: &JsonValue) -> (r: IdleRequest)
        ensures
            ask_of(r) == idle_after_read(old(self)@, *result).1,
            !(ask_of(r) is Done) ==> final(self)@ == idle_after_read(old(self)@, *result).0,
            final(self).replies == old(self).replies,
            final(self).pending == old(self).pending,
    {
        proof {
            reveal_strlit("idle");
            reveal_strlit("data");
        }
        let idle = match thread_status(result) {
            Some(t) => is_text(t, "idle"),
            None => false,
        };
        let n: usize = match self.page.get("data") {
            Some(d) => match d.as_array() {
                Some(items) => items.len(),
                None => 0,
            },
            None => 0,
        };
        if !idle || self.index >= n {
            return IdleRequest::Done(false);
        }
        self.index = self.index + 1;
        self.advance()
    }
}

/// The check answers `true` only at the end of a page whose cursor is `null`,
/// after every thread on it was requested.
pub proof fn lemma_idle_only_when_complete(st: IdleState)
    requires
        idle_advance(st).1 == IdleAsk::Done(true),
    ensures
        page_items(st.page) matches Some(items) && st.index >= items.len(),
        json_get(st.page, "nextCursor"@) matches Some(c) && c is Null,
{
}

/// A thread whose status is anything but `idle` ends the check with `false`.
pub proof fn lemma_unproven_status_is_not_idle(st: IdleState, result: JsonValue)
    requires
        status_of(result) != Some("idle"@),
    ensures
        idle_after_read(st, result).1 == IdleAsk::Done(false),
{
}


/// A reply an idle check receives: an inventory page or a thread's state.
pub enum IdleReply {
    Page(JsonValue),
    Thread(JsonValue),
}

/// The state of an idle check that has read nothing.
pub open spec fn idle_start() -> IdleState {
    IdleState { pages: 0, seen: Seq::empty(), page: JsonValue::Null, index: 0, cursor: JsonValue::Null }
}

/// One step of an idle check that asked `ask` in state `st` and got `reply`:
/// a page answers a listing, a thread's state answers a read, and any other
/// reply, as a failed request, ends the check with `false`.
pub open spec fn idle_step(st: IdleState, ask: IdleAsk, reply: IdleReply) -> (IdleState, IdleAsk) {
    match ask {
        IdleAsk::Done(b) => (st, IdleAsk::Done(b)),
        IdleAsk::List => match reply {
            IdleReply::Page(p) => idle_after_list(st, p),
            IdleReply::Thread(_) => (st, IdleAsk::Done(false)),
        },
        IdleAsk::Read(_) => match reply {
            IdleReply::Thread(r) => idle_after_read(st, r),
            IdleReply::Page(_) => (st, IdleAsk::Done(false)),
        },
    }
}

/// The state and next request of an idle check after `replies`, starting
/// with a listing from a `null` cursor.
pub open spec fn idle_run(replies: Seq<IdleReply>) -> (IdleState, IdleAsk)
    decreases replies.len(),
{
    if replies.len() == 0 {
        (idle_start(), IdleAsk::List)
    } else {
        let prev = idle_run(replies.drop_last());
        idle_step(prev.0, prev.1, replies.last())
    }
}

/// The number of inventory pages among `replies`.
pub open spec fn page_count(replies: Seq<IdleReply>) -> nat
    decreases replies.len(),
{
    if replies.len() == 0 {
        0
    } else {
        page_count(replies.drop_last()) + if replies.last() is Page {
            1nat
        } else {
            0nat
        }
    }
}

/// The number of thread states among `replies`.
pub open spec fn thread_count(replies: Seq<IdleReply>) -> nat
    decreases replies.len(),
{
    if replies.len() == 0 {
        0
    } else {
        thread_count(replies.drop_last()) + if replies.last() is Thread {
            1nat
        } else {
            0nat
        }
    }
}

/// Every thread state among `replies` says `idle`.
pub open spec fn all_reads_idle(replies: Seq<IdleReply>) -> bool {
    forall|i: int|
        0 <= i < replies.len() ==> (#[trigger] replies[i] matches IdleReply::Thread(r) ==> status_of(r)
            == Some("idle"@))
}

/// The check's bounds: the threads asked about are distinct and at most
/// [`MAX_LOADED_THREADS`], and fewer than [`MAX_INVENTORY_PAGES`] pages were
/// passed.
pub open spec fn idle_bounded(st: IdleState) -> bool {
    &&& st.seen.no_duplicates()
    &&& st.seen.len() <= MAX_LOADED_THREADS
    &&& st.pages < MAX_INVENTORY_PAGES
}

/// What holds after `replies` while the check goes on or once it answered
/// `true`.
spec fn idle_run_inv(replies: Seq<IdleReply>) -> bool {
    let (st, ask) = idle_run(replies);
    &&& ask != IdleAsk::Done(false) ==> idle_bounded(st) && all_reads_idle(replies)
    &&& ask is List ==> st.pages == page_count(replies) && st.seen.len() == thread_count(replies)
    &&& ask is Read ==> st.pages + 1 == page_count(replies) && st.seen.len() == thread_count(replies) + 1
    &&& ask == IdleAsk::Done(true) ==> st.pages + 1 == page_count(replies) && st.seen.len()
        == thread_count(replies)
}

proof fn lemma_advance_bounds(st: IdleState)
    requires
        idle_bounded(st),
    ensures
        idle_advance(st).1 is Read ==> idle_bounded(idle_advance(st).0) && idle_advance(st).0.pages
            == st.pages && idle_advance(st).0.seen.len() == st.seen.len() + 1,
        idle_advance(st).1 is List ==> idle_bounded(idle_advance(st).0) && idle_advance(st).0.pages
            == st.pages + 1 && idle_advance(st).0.seen.len() == st.seen.len(),
        idle_advance(st).1 == IdleAsk::Done(true) ==> idle_advance(st).0 == st,
{
    match page_items(st.page) {
        Some(items) => {
            if st.index < items.len() {
                match json_str(Some(items[st.index as int])) {
                    Some(id) => {
                        if !st.seen.contains(id) && st.seen.len() + 1 <= MAX_LOADED_THREADS {
                            let s2 = st.seen.push(id);
                            assert forall|a: int, b: int| 0 <= a < b < s2.len() implies s2[a] != s2[b] by {
                                if b == s2.len() - 1 {
                                    assert(st.seen[a] == s2[a]);
                                }
                            }
                        }
                    },
                    None => {},
                }
            }
        },
        None => {},
    }
}

proof fn lemma_idle_run_inv(replies: Seq<IdleReply>)
    requires
        forall|k: int| 0 <= k < replies.len() ==> !(#[trigger] idle_run(replies.take(k)).1 is Done),
    ensures
        idle_run_inv(replies),
    decreases replies.len(),
{
    if replies.len() > 0 {
        let pre = replies.drop_last();
        assert forall|k: int| 0 <= k < pre.len() implies !(#[trigger] idle_run(pre.take(k)).1 is Done) by {
            assert(pre.take(k) =~= replies.take(k));
        }
        lemma_idle_run_inv(pre);
        assert(replies.take(pre.len() as int) =~= pre);
        let (st, ask) = idle_run(pre);
        assert(!(ask is Done));
        let last = replies.last();
        assert forall|i: int| 0 <= i < pre.len() implies #[trigger] replies[i] == pre[i] by {}
        match ask {
            IdleAsk::List => {
                match last {
                    IdleReply::Page(p) => {
                        lemma_advance_bounds(IdleState { page: p, index: 0, ..st });
                    },
                    IdleReply::Thread(_) => {},
                }
            },
            IdleAsk::Read(_) => {
                match last {
                    IdleReply::Thread(r) => {
                        if status_of(r) == Some("idle"@) && (page_items(st.page) matches Some(items)
                            && st.index < items.len()) {
                            lemma_advance_bounds(IdleState { index: st.index + 1, ..st });
                        }
                    },
                    IdleReply::Page(_) => {},
                }
            },
            IdleAsk::Done(_) => {},
        }
    }
}

/// An idle check that answers `true`, each reply answering the request before
/// it, has read every page of the inventory, at most [`MAX_INVENTORY_PAGES`]
/// of them; it asked about distinct threads, at most [`MAX_LOADED_THREADS`],
/// one read per thread; and every thread it asked about was reported idle.
pub proof fn lemma_idle_run_proves_idle(replies: Seq<IdleReply>)
    requires
        forall|k: int| 0 <= k < replies.len() ==> !(#[trigger] idle_run(replies.take(k)).1 is Done),
        idle_run(replies).1 == IdleAsk::Done(true),
    ensures
        page_count(replies) <= MAX_INVENTORY_PAGES,
        idle_run(replies).0.seen.no_duplicates(),
        idle_run(replies).0.seen.len() == thread_count(replies),
        thread_count(replies) <= MAX_LOADED_THREADS,
        all_reads_idle(replies),
{
    lemma_idle_run_inv(replies);
}


/// A page's listing of thread identities: a `data` array of strings.
pub open spec fn page_lists_ids(p: JsonValue) -> bool {
    page_items(p) matches Some(items) && forall|i: int|
        0 <= i < items.len() ==> json_str(Some(#[trigger] items[i])) is Some
}

/// The thread identities a page lists.
pub open spec fn page_ids(p: JsonValue) -> Seq<Seq<char>> {
    match page_items(p) {
        Some(items) => items.map_values(|x: JsonValue| json_str(Some(x))->0),
        None => Seq::empty(),
    }
}

/// The identities `pages` list, page after page.
pub open spec fn inventory_ids(pages: Seq<JsonValue>) -> Seq<Seq<char>>
    decreases pages.len(),
{
    if pages.len() == 0 {
        Seq::empty()
    } else {
        inventory_ids(pages.drop_last()) + page_ids(pages.last())
    }
}

/// `n` thread states `state`.
pub open spec fn thread_replies(n: nat, state: JsonValue) -> Seq<IdleReply> {
    Seq::new(n, |i: int| IdleReply::Thread(state))
}

/// The replies of a server whose inventory is `pages` and whose every thread
/// is in state `state`: each page, then one thread state per identity on it.
pub open spec fn inventory_replies(pages: Seq<JsonValue>, state: JsonValue) -> Seq<IdleReply>
    decreases pages.len(),
{
    if pages.len() == 0 {
        Seq::empty()
    } else {
        inventory_replies(pages.drop_last(), state).push(IdleReply::Page(pages.last()))
            + thread_replies(page_ids(pages.last()).len(), state)
    }
}

/// An inventory that proves a server idle: one to [`MAX_INVENTORY_PAGES`]
/// pages, each listing string identities and pointing on to a next page by a
/// cursor that is not `null`, the last with a `null` cursor, all identities
/// distinct and at most [`MAX_LOADED_THREADS`] of them.
pub open spec fn complete_inventory(pages: Seq<JsonValue>) -> bool {
    &&& 1 <= pages.len() <= MAX_INVENTORY_PAGES
    &&& forall|k: int| 0 <= k < pages.len() ==> page_lists_ids(#[trigger] pages[k])
    &&& forall|k: int|
        0 <= k < pages.len() - 1 ==> (json_get(#[trigger] pages[k], "nextCursor"@) matches Some(c)
            && !(c is Null))
    &&& json_get(pages.last(), "nextCursor"@) == Some(JsonValue::Null)
    &&& inventory_ids(pages).no_duplicates()
    &&& inventory_ids(pages).len() <= MAX_LOADED_THREADS
}

proof fn lemma_inventory_ids_prefix(pages: Seq<JsonValue>, k: int)
    requires
        0 <= k <= pages.len(),
    ensures
        inventory_ids(pages.take(k)).len() <= inventory_ids(pages).len(),
        inventory_ids(pages).subrange(0, inventory_ids(pages.take(k)).len() as int) == inventory_ids(
            pages.take(k),
        ),
    decreases pages.len() - k,
{
    if k == pages.len() {
        assert(pages.take(k) =~= pages);
        assert(inventory_ids(pages).subrange(0, inventory_ids(pages).len() as int) =~= inventory_ids(pages));
    } else {
        lemma_inventory_ids_prefix(pages, k + 1);
        let a = inventory_ids(pages.take(k));
        let b = inventory_ids(pages.take(k + 1));
        assert(pages.take(k + 1).drop_last() =~= pages.take(k));
        assert(b == a + page_ids(pages.take(k + 1).last()));
        let all = inventory_ids(pages);
        assert(all.subrange(0, a.len() as int) =~= b.subrange(0, a.len() as int));
        assert(b.subrange(0, a.len() as int) =~= a);
    }
}

/// Within page `k` of a complete inventory, after the page and `j` idle
/// thread states, the check is where [`idle_advance`] takes it from position
/// `j` of the page, having asked about every identity before it.
proof fn lemma_idle_page_reads(
    pages: Seq<JsonValue>,
    state: JsonValue,
    k: int,
    st: IdleState,
    j: nat,
)
    requires
        complete_inventory(pages),
        status_of(state) == Some("idle"@),
        0 <= k < pages.len(),
        idle_run(inventory_replies(pages.take(k), state)) == (st, IdleAsk::List),
        st.pages == k,
        st.seen == inventory_ids(pages.take(k)),
        j <= page_ids(pages[k]).len(),
    ensures
        idle_run(inventory_replies(pages.take(k), state).push(IdleReply::Page(pages[k]))
            + thread_replies(j, state)) == idle_advance(
            IdleState {
                pages: k as nat,
                seen: inventory_ids(pages.take(k)) + page_ids(pages[k]).take(j as int),
                page: pages[k],
                index: j,
                cursor: st.cursor,
            },
        ),
    decreases j,
{
    let base = inventory_replies(pages.take(k), state).push(IdleReply::Page(pages[k]));
    let p = pages[k];
    let ids = page_ids(p);
    let prior = inventory_ids(pages.take(k));
    if j == 0 {
        assert(base + thread_replies(0, state) =~= base);
        assert(base.drop_last() =~= inventory_replies(pages.take(k), state));
        assert(prior + ids.take(0) =~= prior);
    } else {
        let i = (j - 1) as nat;
        lemma_idle_page_reads(pages, state, k, st, i);
        let before = IdleState {
            pages: k as nat,
            seen: prior + ids.take(i as int),
            page: p,
            index: i,
            cursor: st.cursor,
        };
        assert(page_lists_ids(pages[k]));
        let items = page_items(p)->0;
        assert(json_str(Some(items[i as int])) == Some(ids[i as int]));
        lemma_inventory_ids_prefix(pages, k + 1);
        assert(pages.take(k + 1).drop_last() =~= pages.take(k));
        assert(pages.take(k + 1).last() == p);
        let upto = inventory_ids(pages.take(k + 1));
        assert(upto == prior + ids);
        let all = inventory_ids(pages);
        assert(!before.seen.contains(ids[i as int])) by {
            if before.seen.contains(ids[i as int]) {
                let q = choose|q: int| 0 <= q < before.seen.len() && before.seen[q] == ids[i as int];
                assert(all[q] == upto[q]);
                assert(all[(prior.len() + i) as int] == upto[(prior.len() + i) as int]);
                assert(upto[(prior.len() + i) as int] == ids[i as int]);
                if q < prior.len() {
                    assert(upto[q] == prior[q]);
                } else {
                    assert(upto[q] == ids[q - prior.len()]);
                }
            }
        }
        assert(before.seen.len() + 1 <= MAX_LOADED_THREADS);
        let after = IdleState { seen: before.seen.push(ids[i as int]), ..before };
        assert(idle_advance(before) == (after, IdleAsk::Read(ids[i as int])));
        let x = base + thread_replies(i, state);
        assert(base + thread_replies(j, state) =~= x.push(IdleReply::Thread(state)));
        assert((base + thread_replies(j, state)).drop_last() =~= x);
        assert(after.seen =~= prior + ids.take(j as int));
    }
}

/// Page by page: after the first `k` pages of a complete inventory and an
/// idle state for every identity on them, the check asks for the next page,
/// having passed `k` pages and asked about every identity listed so far.
proof fn lemma_idle_pages(pages: Seq<JsonValue>, state: JsonValue, k: int)
    requires
        complete_inventory(pages),
        status_of(state) == Some("idle"@),
        0 <= k < pages.len(),
    ensures
        idle_run(inventory_replies(pages.take(k), state)).1 == IdleAsk::List,
        idle_run(inventory_replies(pages.take(k), state)).0.pages == k,
        idle_run(inventory_replies(pages.take(k), state)).0.seen == inventory_ids(pages.take(k)),
    decreases k,
{
    if k == 0 {
        assert(pages.take(0) =~= Seq::<JsonValue>::empty());
    } else {
        let k1 = k - 1;
        lemma_idle_pages(pages, state, k1);
        let st = idle_run(inventory_replies(pages.take(k1), state)).0;
        let n = page_ids(pages[k1]).len();
        lemma_idle_page_reads(pages, state, k1, st, n);
        assert(pages.take(k).drop_last() =~= pages.take(k1));
        assert(pages.take(k).last() == pages[k1]);
        assert(page_ids(pages[k1]).take(n as int) =~= page_ids(pages[k1]));
        assert(page_lists_ids(pages[k1]));
    }
}

/// An idle check proves a server idle whose inventory is complete and whose
/// threads all report `idle`: fed those replies, each answering the request
/// before it, it answers `true`.
pub proof fn lemma_complete_idle_inventory_is_idle(pages: Seq<JsonValue>, state: JsonValue)
    requires
        complete_inventory(pages),
        status_of(state) == Some("idle"@),
    ensures
        idle_run(inventory_replies(pages, state)).1 == IdleAsk::Done(true),
{
    let k = pages.len() - 1;
    lemma_idle_pages(pages, state, k);
    let st = idle_run(inventory_replies(pages.take(k), state)).0;
    let n = page_ids(pages[k]).len();
    lemma_idle_page_reads(pages, state, k, st, n);
    assert(pages.take(k + 1) =~= pages);
    assert(pages.drop_last() =~= pages.take(k));
    assert(pages.last() == pages[k]);
    assert(page_lists_ids(pages[k]));
}

/// At the end of a page whose cursor is `null`, after every thread on it was
/// asked about, the check answers `true`, however many threads the page
/// listed.
pub proof fn lemma_finished_inventory_is_idle(st: IdleState)
    requires
        page_items(st.page) matches Some(items) && st.index >= items.len(),
        json_get(st.page, "nextCursor"@) == Some(JsonValue::Null),
    ensures
        idle_advance(st).1 == IdleAsk::Done(true),
{
}

} // verus!
