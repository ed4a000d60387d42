//! What holds of every observation: trust once lost stays lost, work without
//! an identity loses it, the archive epoch only grows, only user actions count
//! as client activity, a requested command counts as running work, a
//! repeated turn end changes nothing, and JSON lines read the same however the
//! bytes are split.
use vstd::prelude::*;

use crate::json::JsonValue;
use crate::protocol::model::{
    all_ws, client_step, finish_request, index_from, insert_unique, is_user_activity,
    key_index_from, key_of, listed_turns, active_work, is_work, pending_for, pending_insert, work_count, KeyView, message_step, messages_step, method_of, notified_turn,
    initial_model, is_turn_end, next_generation, observe_spec, reliable, remove_first, resume_turns, sat_add, server_step, start_turn, succeeded, thread_of,
    turn_ended, turn_start_index_from, PendingView, ProtocolModel, TurnView,
};
use crate::protocol::wire::{feed_spec, lines_step, split_lines, WireMode, WireState, MAX_WIRE_BUFFER};

verus! {

/// Counters that only grow from `a` to `b`: failures, the archive epoch and
/// unsubscribe answers.
pub open spec fn grows(a: ProtocolModel, b: ProtocolModel) -> bool {
    &&& b.parse_failures >= a.parse_failures
    &&& b.identity_failures >= a.identity_failures
    &&& b.epoch >= a.epoch
    &&& b.unsubscribe_completed >= a.unsubscribe_completed
    &&& b.unsubscribe_failed >= a.unsubscribe_failed
}

/// The user's activity is the same in `a` and `b`.
pub open spec fn same_user(a: ProtocolModel, b: ProtocolModel) -> bool {
    a.generation == b.generation && a.last_client_activity == b.last_client_activity
}

proof fn lemma_resume_turns(m: ProtocolModel, t: Seq<char>, items: Seq<JsonValue>)
    ensures
        grows(m, resume_turns(m, t, items).0),
        same_user(m, resume_turns(m, t, items).0),
    decreases items.len(),
{
    if items.len() > 0 {
        lemma_resume_turns(m, t, items.drop_last());
    }
}

proof fn lemma_finish_request(m: ProtocolModel, req: PendingView, success: bool, v: JsonValue)
    ensures
        grows(m, finish_request(m, req, success, v)),
        same_user(m, finish_request(m, req, success, v)),
{
    match req {
        PendingView::ThreadOpen(fallback) => {
            if success {
                let named = json_str_of_thread(v);
                let thread = if named is Some {
                    named
                } else {
                    fallback
                };
                match thread {
                    Some(t) => {
                        let m1 = ProtocolModel { live: insert_unique(m.live, t), ..m };
                        lemma_resume_turns(m1, t, listed_turns(v));
                    },
                    None => {},
                }
            }
        },
        _ => {},
    }
}

/// The thread a response names, as a thread open reads it.
spec fn json_str_of_thread(v: JsonValue) -> Option<Seq<char>> {
    crate::json::json_str(crate::json::json_path(v, seq!["result"@, "thread"@, "id"@]))
}

proof fn lemma_server_step(m: ProtocolModel, v: JsonValue)
    ensures
        grows(m, server_step(m, v)),
        same_user(m, server_step(m, v)),
{
    match key_of(crate::json::json_get(v, "id"@)) {
        Some(k) => {
            let i = key_index_from(m.pending, k, 0);
            if i >= 0 {
                lemma_finish_request(
                    ProtocolModel { pending: m.pending.remove(i), ..m },
                    m.pending[i].1,
                    succeeded(v),
                    v,
                );
            }
        },
        None => {},
    }
}

proof fn lemma_client_step(m: ProtocolModel, v: JsonValue, now: nat)
    ensures
        grows(m, client_step(m, v, now)),
        client_step(m, v, now).generation != m.generation ==> (method_of(v) matches Some(
            meth,
        ) && is_user_activity(meth)),
{
}

proof fn lemma_message_step(m: ProtocolModel, client: bool, line: Seq<u8>, now: nat)
    ensures
        grows(m, message_step(m, client, line, now)),
        !client ==> same_user(m, message_step(m, client, line, now)),
        message_step(m, client, line, now).generation != m.generation ==> user_message(line),
{
    if !all_ws(line) {
        match crate::json::parsed_json(line) {
            None => {},
            Some(v) => {
                if client {
                    lemma_client_step(m, v, now);
                } else {
                    lemma_server_step(m, v);
                }
            },
        }
    }
}

/// A message by which the user acts: JSON whose method is a user action.
pub open spec fn user_message(line: Seq<u8>) -> bool {
    &&& !all_ws(line)
    &&& crate::json::parsed_json(line) matches Some(v)
    &&& method_of(v) matches Some(meth)
    &&& is_user_activity(meth)
}

proof fn lemma_messages_step(m: ProtocolModel, client: bool, lines: Seq<Seq<u8>>, now: nat)
    ensures
        grows(m, messages_step(m, client, lines, now)),
        !client ==> same_user(m, messages_step(m, client, lines, now)),
        messages_step(m, client, lines, now).generation != m.generation ==> exists|i: int|
            0 <= i < lines.len() && user_message(#[trigger] lines[i]),
    decreases lines.len(),
{
    if lines.len() > 0 {
        let prev = messages_step(m, client, lines.drop_last(), now);
        lemma_messages_step(m, client, lines.drop_last(), now);
        lemma_message_step(prev, client, lines.last(), now);
        if messages_step(m, client, lines, now).generation != m.generation {
            if prev.generation != m.generation {
                let i = choose|i: int| 0 <= i < lines.drop_last().len() && user_message(
                    #[trigger] lines.drop_last()[i],
                );
                assert(lines[i] == lines.drop_last()[i]);
            } else {
                assert(lines[lines.len() - 1] == lines.last());
            }
        }
    }
}

/// Observation never lowers a failure count, the archive epoch or an
/// unsubscribe count, so an observer that has become unreliable stays so.
pub proof fn lemma_trust_is_never_regained(m: ProtocolModel, client: bool, bytes: Seq<u8>, now: nat)
    ensures
        grows(m, observe_spec(m, client, bytes, now)),
        !reliable(m) ==> !reliable(observe_spec(m, client, bytes, now)),
        observe_spec(m, client, bytes, now).epoch >= m.epoch,
{
    let wire = if client {
        m.client
    } else {
        m.server
    };
    let r = feed_spec(wire, bytes);
    let m1 = if client {
        ProtocolModel {
            client: r.state,
            parse_failures: sat_add(m.parse_failures, r.failures),
            last_activity: now,
            ..m
        }
    } else {
        ProtocolModel {
            server: r.state,
            parse_failures: sat_add(m.parse_failures, r.failures),
            last_activity: now,
            ..m
        }
    };
    lemma_messages_step(m1, client, r.messages, now);
}

/// Server bytes never count as user activity: the activity generation and
/// the time of the last user action stay as they were.
pub proof fn lemma_server_bytes_are_not_user_activity(m: ProtocolModel, bytes: Seq<u8>, now: nat)
    ensures
        observe_spec(m, false, bytes, now).generation == m.generation,
        observe_spec(m, false, bytes, now).last_client_activity == m.last_client_activity,
{
    let r = feed_spec(m.server, bytes);
    let m1 = ProtocolModel {
        server: r.state,
        parse_failures: sat_add(m.parse_failures, r.failures),
        last_activity: now,
        ..m
    };
    lemma_messages_step(m1, false, r.messages, now);
}

/// Client bytes advance the activity generation only when they complete a
/// message by which the user acts; background polling never does.
pub proof fn lemma_only_user_actions_advance_generation(m: ProtocolModel, bytes: Seq<u8>, now: nat)
    ensures
        observe_spec(m, true, bytes, now).generation != m.generation ==> exists|i: int|
            0 <= i < feed_spec(m.client, bytes).messages.len() && user_message(
                #[trigger] feed_spec(m.client, bytes).messages[i],
            ),
{
    let r = feed_spec(m.client, bytes);
    let m1 = ProtocolModel {
        client: r.state,
        parse_failures: sat_add(m.parse_failures, r.failures),
        last_activity: now,
        ..m
    };
    lemma_messages_step(m1, true, r.messages, now);
}

proof fn lemma_index_from_found<A>(s: Seq<A>, x: A, i: int)
    requires
        0 <= i,
    ensures
        index_from(s, x, i) >= 0 ==> i <= index_from(s, x, i) < s.len() && s[index_from(s, x, i)] == x,
        index_from(s, x, i) < 0 ==> forall|j: int| i <= j < s.len() ==> s[j] != x,
    decreases s.len() - i,
{
    if i < s.len() && s[i] != x {
        lemma_index_from_found(s, x, i + 1);
    }
}

/// A turn, once ended, ends again without any change: a repeated terminal
/// notification that names its turn cannot end another turn, provided running
/// turns are listed once each, as the observer keeps them.
pub proof fn lemma_repeated_turn_end_is_ignored(m: ProtocolModel, v: JsonValue)
    requires
        notified_turn(v) is Some,
        m.active.no_duplicates(),
    ensures
        turn_ended(turn_ended(m, v), v) == turn_ended(m, v),
{
    let once = turn_ended(m, v);
    let k = (thread_of(v), notified_turn(v)->0);
    lemma_index_from_found(m.active, k, 0);
    lemma_index_from_found(m.finished, k, 0);
    lemma_index_from_found(once.finished, k, 0);
    if index_from(m.active, k, 0) >= 0 {
        let i = index_from(m.active, k, 0);
        let rest = m.active.remove(i);
        assert forall|j: int| 0 <= j < rest.len() implies rest[j] != k by {
            if j < i {
                assert(rest[j] == m.active[j]);
            } else {
                assert(rest[j] == m.active[j + 1]);
            }
        }
        lemma_index_from_found(rest, k, 0);
        lemma_index_from_found(insert_unique(m.finished, k), k, 0);
        assert(insert_unique(m.finished, k).contains(k)) by {
            if index_from(m.finished, k, 0) < 0 {
                assert(m.finished.push(k)[m.finished.len() as int] == k);
            }
        }
    } else if index_from(m.finished, k, 0) >= 0 {
    } else {
        let i = turn_start_index_from(m.pending, thread_of(v), 0);
        if i >= 0 {
            assert(m.finished.push(k)[m.finished.len() as int] == k);
            lemma_index_from_found(m.finished.push(k), k, 0);
        }
    }
}

/// Work without an identity cannot be tracked: a server message that says a
/// turn started or ended without naming the turn leaves the observer
/// unreliable.
pub proof fn lemma_unnamed_turn_is_unreliable(m: ProtocolModel, line: Seq<u8>, now: nat)
    requires
        !all_ws(line),
        crate::json::parsed_json(line) matches Some(v) && method_of(v) matches Some(meth) && (meth
            == "turn/started"@ || is_turn_end(meth)) && notified_turn(v) is None,
    ensures
        !reliable(message_step(m, false, line, now)),
{
}

proof fn lemma_key_index_in_range(s: Seq<(KeyView, PendingView)>, k: KeyView, i: int)
    requires
        0 <= i,
    ensures
        key_index_from(s, k, i) == -1 || i <= key_index_from(s, k, i) < s.len(),
    decreases s.len() - i,
{
    if i < s.len() && s[i].0 != k {
        lemma_key_index_in_range(s, k, i + 1);
    }
}

proof fn lemma_work_count_positive(s: Seq<(KeyView, PendingView)>, i: int)
    requires
        0 <= i < s.len(),
        is_work(s[i].1),
    ensures
        work_count(s) >= 1,
    decreases s.len(),
{
    if i < s.len() - 1 {
        assert(s.drop_last()[i] == s[i]);
        lemma_work_count_positive(s.drop_last(), i);
    }
}

/// A command the client asks to run, with a request id, counts as running
/// work as soon as it is requested, so the worker is busy.
pub proof fn lemma_pending_command_is_busy(m: ProtocolModel, v: JsonValue, now: nat)
    requires
        method_of(v) == Some("command/exec"@),
        key_of(crate::json::json_get(v, "id"@)) is Some,
    ensures
        active_work(client_step(m, v, now)) >= 1,
{
    let k = key_of(crate::json::json_get(v, "id"@))->0;
    reveal_strlit("command/exec");
    reveal_strlit("thread/start");
    reveal_strlit("thread/resume");
    reveal_strlit("thread/unarchive");
    reveal_strlit("thread/archive");
    reveal_strlit("thread/delete");
    reveal_strlit("turn/start");
    reveal_strlit("thread/unsubscribe");
    assert("command/exec"@[0] != "thread/start"@[0]);
    assert("command/exec"@[0] != "thread/resume"@[0]);
    assert("command/exec"@[0] != "thread/unarchive"@[0]);
    assert("command/exec"@[0] != "thread/archive"@[0]);
    assert("command/exec"@[0] != "thread/delete"@[0]);
    assert("command/exec"@[0] != "turn/start"@[0]);
    assert("command/exec"@[0] != "thread/unsubscribe"@[0]);
    assert(pending_for("command/exec"@, thread_of(v)) == Some(PendingView::CommandExec));
    let after = client_step(m, v, now);
    assert(after.pending == pending_insert(m.pending, k, PendingView::CommandExec));
    let i = key_index_from(m.pending, k, 0);
    lemma_key_index_in_range(m.pending, k, 0);
    if i >= 0 {
        assert(after.pending[i].1 == PendingView::CommandExec);
        lemma_work_count_positive(after.pending, i);
    } else {
        assert(after.pending.last().1 == PendingView::CommandExec);
        lemma_work_count_positive(after.pending, after.pending.len() - 1);
    }
}

/// Splitting at `x` and continuing with `y` splits `x + y`.
pub proof fn lemma_lines_concat(acc: (Seq<Seq<u8>>, Seq<u8>), x: Seq<u8>, y: Seq<u8>)
    ensures
        lines_step(acc, x + y) == lines_step(lines_step(acc, x), y),
    decreases y.len(),
{
    if y.len() == 0 {
        assert(x + y =~= x);
    } else {
        lemma_lines_concat(acc, x, y.drop_last());
        assert((x + y).drop_last() =~= x + y.drop_last());
        assert((x + y).last() == y.last());
    }
}

/// The lines found before do not change what later bytes split into.
pub proof fn lemma_lines_prefix(done: Seq<Seq<u8>>, partial: Seq<u8>, y: Seq<u8>)
    ensures
        lines_step((done, partial), y).0 == done + lines_step((Seq::empty(), partial), y).0,
        lines_step((done, partial), y).1 == lines_step((Seq::empty(), partial), y).1,
    decreases y.len(),
{
    if y.len() == 0 {
        assert(done + Seq::<Seq<u8>>::empty() =~= done);
    } else {
        lemma_lines_prefix(done, partial, y.drop_last());
        let a = lines_step((Seq::<Seq<u8>>::empty(), partial), y.drop_last());
        assert((done + a.0).push(a.1) =~= done + a.0.push(a.1));
    }
}

/// Bytes without a line feed stay one partial line.
pub proof fn lemma_lines_no_feed(partial: Seq<u8>, y: Seq<u8>)
    requires
        !y.contains(0x0Au8),
    ensures
        lines_step((Seq::empty(), partial), y) == (Seq::<Seq<u8>>::empty(), partial + y),
    decreases y.len(),
{
    if y.len() == 0 {
        assert(partial + y =~= partial);
    } else {
        assert(!y.drop_last().contains(0x0Au8)) by {
            if y.drop_last().contains(0x0Au8) {
                let j = choose|j: int| 0 <= j < y.drop_last().len() && y.drop_last()[j] == 0x0Au8;
                assert(y[j] == 0x0Au8);
            }
        }
        lemma_lines_no_feed(partial, y.drop_last());
        assert(y.last() != 0x0Au8) by {
            assert(y[y.len() - 1] == y.last());
        }
        assert((partial + y.drop_last()).push(y.last()) =~= partial + y);
    }
}

/// The partial line left after splitting holds no line feed.
pub proof fn lemma_lines_rest(acc: (Seq<Seq<u8>>, Seq<u8>), y: Seq<u8>)
    requires
        !acc.1.contains(0x0Au8),
    ensures
        !lines_step(acc, y).1.contains(0x0Au8),
    decreases y.len(),
{
    if y.len() > 0 {
        lemma_lines_rest(acc, y.drop_last());
        let a = lines_step(acc, y.drop_last());
        if y.last() != 0x0Au8 {
            assert forall|j: int| 0 <= j < a.1.push(y.last()).len() implies a.1.push(y.last())[j]
                != 0x0Au8 by {
                if j < a.1.len() {
                    assert(a.1.push(y.last())[j] == a.1[j]);
                }
            }
        }
    }
}

/// JSON lines read the same however the bytes are split: feeding `a` and then
/// `b` gives the messages, in order, and the buffer that feeding `a + b` at
/// once gives, as long as the buffer stays within its limit.
pub proof fn lemma_json_lines_chunking(st: WireState, a: Seq<u8>, b: Seq<u8>)
    requires
        st.mode == WireMode::JsonLines,
        !st.pending.contains(0x0Au8),
        st.pending.len() + a.len() + b.len() <= MAX_WIRE_BUFFER,
    ensures
        feed_spec(st, a).messages + feed_spec(feed_spec(st, a).state, b).messages == feed_spec(
            st,
            a + b,
        ).messages,
        feed_spec(feed_spec(st, a).state, b).state == feed_spec(st, a + b).state,
        feed_spec(st, a).failures == 0,
        feed_spec(feed_spec(st, a).state, b).failures == 0,
{
    let e = (Seq::<Seq<u8>>::empty(), Seq::<u8>::empty());
    let pa = st.pending + a;
    let s1 = split_lines(pa);
    lemma_lines_rest(e, pa);
    lemma_lines_concat(e, pa, b);
    assert(st.pending + (a + b) =~= pa + b);
    lemma_lines_prefix(s1.0, s1.1, b);
    lemma_lines_no_feed(Seq::empty(), s1.1);
    assert(Seq::<u8>::empty() + s1.1 =~= s1.1);
    lemma_lines_concat(e, s1.1, b);
    assert(lines_step(e, s1.1) == (Seq::<Seq<u8>>::empty(), s1.1));
    lemma_lines_prefix(Seq::empty(), Seq::empty(), s1.1 + b);
    let s2 = split_lines(s1.1 + b);
    assert(s2 == lines_step((Seq::<Seq<u8>>::empty(), s1.1), b));
    lemma_lines_length(e, pa);
    lemma_lines_length(e, s1.1 + b);
    lemma_lines_length(e, pa + b);
}

/// The partial line left after splitting is no longer than what was split.
proof fn lemma_lines_length(acc: (Seq<Seq<u8>>, Seq<u8>), y: Seq<u8>)
    ensures
        lines_step(acc, y).1.len() <= acc.1.len() + y.len(),
    decreases y.len(),
{
    if y.len() > 0 {
        lemma_lines_length(acc, y.drop_last());
    }
}

/// Running turns listed once each.
pub open spec fn distinct_turns(m: ProtocolModel) -> bool {
    m.active.no_duplicates()
}

proof fn lemma_start_turn_distinct(m: ProtocolModel, k: TurnView)
    requires
        distinct_turns(m),
    ensures
        distinct_turns(start_turn(m, k)),
{
    lemma_index_from_found(m.active, k, 0);
    if index_from(m.finished, k, 0) < 0 && index_from(m.active, k, 0) < 0 {
        let s = m.active.push(k);
        assert forall|i: int, j: int| 0 <= i < s.len() && 0 <= j < s.len() && i != j implies s[i]
            != s[j] by {
            if i < m.active.len() && j < m.active.len() {
                assert(s[i] == m.active[i] && s[j] == m.active[j]);
            } else if i < m.active.len() {
                assert(s[i] == m.active[i]);
            } else if j < m.active.len() {
                assert(s[j] == m.active[j]);
            }
        }
    }
}

proof fn lemma_remove_distinct<A>(s: Seq<A>, x: A)
    requires
        s.no_duplicates(),
    ensures
        remove_first(s, x).no_duplicates(),
{
    lemma_index_from_found(s, x, 0);
    let i = index_from(s, x, 0);
    if i >= 0 {
        let r = s.remove(i);
        assert forall|a: int, b: int| 0 <= a < r.len() && 0 <= b < r.len() && a != b implies r[a]
            != r[b] by {
            let sa = if a < i {
                a
            } else {
                a + 1
            };
            let sb = if b < i {
                b
            } else {
                b + 1
            };
            assert(r[a] == s[sa] && r[b] == s[sb]);
        }
    }
}

proof fn lemma_resume_turns_distinct(m: ProtocolModel, t: Seq<char>, items: Seq<JsonValue>)
    requires
        distinct_turns(m),
    ensures
        distinct_turns(resume_turns(m, t, items).0),
    decreases items.len(),
{
    if items.len() > 0 {
        lemma_resume_turns_distinct(m, t, items.drop_last());
        let m1 = resume_turns(m, t, items.drop_last()).0;
        let item = items.last();
        match crate::json::json_str(crate::json::json_get(item, "id"@)) {
            Some(a) => lemma_start_turn_distinct(m1, (Some(t), a)),
            None => {},
        }
    }
}

proof fn lemma_message_distinct(m: ProtocolModel, client: bool, line: Seq<u8>, now: nat)
    requires
        distinct_turns(m),
    ensures
        distinct_turns(message_step(m, client, line, now)),
{
    if !all_ws(line) {
        match crate::json::parsed_json(line) {
            None => {},
            Some(v) => {
                if !client {
                    let m1 = match key_of(crate::json::json_get(v, "id"@)) {
                        Some(k) => {
                            let i = key_index_from(m.pending, k, 0);
                            if i >= 0 {
                                let m2 = ProtocolModel { pending: m.pending.remove(i), ..m };
                                match m.pending[i].1 {
                                    PendingView::TurnStart(t) => {
                                        match crate::json::json_str(
                                            crate::json::json_path(v, seq!["result"@, "turn"@, "id"@]),
                                        ) {
                                            Some(a) => lemma_start_turn_distinct(m2, (t, a)),
                                            None => {},
                                        }
                                    },
                                    PendingView::ThreadOpen(fallback) => {
                                        let named = json_str_of_thread(v);
                                        let thread = if named is Some {
                                            named
                                        } else {
                                            fallback
                                        };
                                        match thread {
                                            Some(t) => {
                                                let m3 = ProtocolModel {
                                                    live: insert_unique(m2.live, t),
                                                    ..m2
                                                };
                                                lemma_resume_turns_distinct(m3, t, listed_turns(v));
                                            },
                                            None => {},
                                        }
                                    },
                                    _ => {},
                                }
                                finish_request(m2, m.pending[i].1, succeeded(v), v)
                            } else {
                                m
                            }
                        },
                        None => m,
                    };
                    match notified_turn(v) {
                        Some(a) => {
                            lemma_start_turn_distinct(m1, (thread_of(v), a));
                            lemma_remove_distinct(m1.active, (thread_of(v), a));
                        },
                        None => {},
                    }
                }
            },
        }
    }
}

proof fn lemma_messages_distinct(m: ProtocolModel, client: bool, lines: Seq<Seq<u8>>, now: nat)
    requires
        distinct_turns(m),
    ensures
        distinct_turns(messages_step(m, client, lines, now)),
    decreases lines.len(),
{
    if lines.len() > 0 {
        lemma_messages_distinct(m, client, lines.drop_last(), now);
        lemma_message_distinct(messages_step(m, client, lines.drop_last(), now), client, lines.last(), now);
    }
}

/// Observation lists each running turn once, so every observer state meets
/// what [`lemma_repeated_turn_end_is_ignored`] asks.
pub proof fn lemma_running_turns_stay_distinct(m: ProtocolModel, client: bool, bytes: Seq<u8>, now: nat)
    requires
        distinct_turns(m),
    ensures
        distinct_turns(observe_spec(m, client, bytes, now)),
{
    let wire = if client {
        m.client
    } else {
        m.server
    };
    let r = feed_spec(wire, bytes);
    let m1 = if client {
        ProtocolModel {
            client: r.state,
            parse_failures: sat_add(m.parse_failures, r.failures),
            last_activity: now,
            ..m
        }
    } else {
        ProtocolModel {
            server: r.state,
            parse_failures: sat_add(m.parse_failures, r.failures),
            last_activity: now,
            ..m
        }
    };
    lemma_messages_distinct(m1, client, r.messages, now);
}

/// A new observer lists no running turn.
pub proof fn lemma_initial_turns_distinct()
    ensures
        distinct_turns(initial_model()),
{
}


/// Exactly these fourteen client methods are user actions: starting,
/// resuming, forking, archiving, unarchiving, deleting, compacting, rolling
/// back and renaming a thread, starting, interrupting and steering a turn,
/// starting a review and running a command. A client message with one of
/// them advances the activity generation and restarts the client idle clock
/// at `now`; any other method leaves both as they were.
pub proof fn lemma_user_action_methods(m: ProtocolModel, v: JsonValue, now: nat, meth: Seq<char>)
    requires
        method_of(v) == Some(meth),
    ensures
        (meth == "thread/start"@ || meth == "thread/resume"@ || meth == "thread/fork"@ || meth
            == "thread/archive"@ || meth == "thread/unarchive"@ || meth == "thread/delete"@ || meth
            == "thread/compact"@ || meth == "thread/rollback"@ || meth == "thread/name/set"@ || meth
            == "turn/start"@ || meth == "turn/interrupt"@ || meth == "turn/steer"@ || meth
            == "review/start"@ || meth == "command/exec"@) ==> client_step(m, v, now).generation
            == next_generation(m.generation) && client_step(m, v, now).last_client_activity == now,
        !(meth == "thread/start"@ || meth == "thread/resume"@ || meth == "thread/fork"@ || meth
            == "thread/archive"@ || meth == "thread/unarchive"@ || meth == "thread/delete"@ || meth
            == "thread/compact"@ || meth == "thread/rollback"@ || meth == "thread/name/set"@ || meth
            == "turn/start"@ || meth == "turn/interrupt"@ || meth == "turn/steer"@ || meth
            == "review/start"@ || meth == "command/exec"@) ==> client_step(m, v, now).generation
            == m.generation && client_step(m, v, now).last_client_activity
            == m.last_client_activity,
        next_generation(m.generation) != m.generation,
{
}


/// Loaded threads listed once each.
pub open spec fn distinct_threads(m: ProtocolModel) -> bool {
    m.live.no_duplicates()
}

proof fn lemma_insert_unique_distinct<A>(s: Seq<A>, x: A)
    requires
        s.no_duplicates(),
    ensures
        insert_unique(s, x).no_duplicates(),
        insert_unique(s, x).contains(x),
        forall|y: A| s.contains(y) ==> insert_unique(s, x).contains(y),
{
    lemma_index_from_found(s, x, 0);
    if index_from(s, x, 0) < 0 {
        let t = s.push(x);
        assert(t[s.len() as int] == x);
        assert forall|i: int, j: int| 0 <= i < t.len() && 0 <= j < t.len() && i != j implies t[i]
            != t[j] by {
            if i < s.len() {
                assert(t[i] == s[i]);
            }
            if j < s.len() {
                assert(t[j] == s[j]);
            }
        }
        assert forall|y: A| s.contains(y) implies t.contains(y) by {
            let k = choose|k: int| 0 <= k < s.len() && s[k] == y;
            assert(t[k] == y);
        }
    } else {
        assert(s[index_from(s, x, 0)] == x);
    }
}

/// Removing `x` from a list without repeats leaves `x` out and everything
/// else in.
proof fn lemma_remove_first_distinct<A>(s: Seq<A>, x: A)
    requires
        s.no_duplicates(),
    ensures
        remove_first(s, x).no_duplicates(),
        !remove_first(s, x).contains(x),
        forall|y: A| y != x && s.contains(y) ==> remove_first(s, x).contains(y),
{
    lemma_remove_distinct(s, x);
    lemma_index_from_found(s, x, 0);
    let i = index_from(s, x, 0);
    if i >= 0 {
        let r = s.remove(i);
        assert forall|k: int| 0 <= k < r.len() implies r[k] != x by {
            if k < i {
                assert(r[k] == s[k]);
            } else {
                assert(r[k] == s[k + 1]);
            }
        }
        assert forall|y: A| y != x && s.contains(y) implies r.contains(y) by {
            let k = choose|k: int| 0 <= k < s.len() && s[k] == y;
            if k < i {
                assert(r[k] == y);
            } else {
                assert(k != i);
                assert(r[k - 1] == y);
            }
        }
    }
}

proof fn lemma_resume_turns_keep_live(m: ProtocolModel, t: Seq<char>, items: Seq<JsonValue>)
    ensures
        resume_turns(m, t, items).0.live == m.live,
    decreases items.len(),
{
    if items.len() > 0 {
        lemma_resume_turns_keep_live(m, t, items.drop_last());
    }
}

proof fn lemma_finish_request_threads(m: ProtocolModel, req: PendingView, success: bool, v: JsonValue)
    requires
        distinct_threads(m),
    ensures
        distinct_threads(finish_request(m, req, success, v)),
{
    match req {
        PendingView::ThreadOpen(fallback) => {
            if success {
                let named = json_str_of_thread(v);
                let thread = if named is Some {
                    named
                } else {
                    fallback
                };
                match thread {
                    Some(t) => {
                        lemma_insert_unique_distinct(m.live, t);
                        let m1 = ProtocolModel { live: insert_unique(m.live, t), ..m };
                        lemma_resume_turns_keep_live(m1, t, listed_turns(v));
                    },
                    None => {},
                }
            }
        },
        PendingView::ThreadRemove(t, _) => {
            lemma_remove_first_distinct(m.live, t);
        },
        _ => {},
    }
}

proof fn lemma_server_step_threads(m: ProtocolModel, v: JsonValue)
    requires
        distinct_threads(m),
    ensures
        distinct_threads(server_step(m, v)),
        distinct_threads(
            match key_of(crate::json::json_get(v, "id"@)) {
                Some(k) => {
                    let i = key_index_from(m.pending, k, 0);
                    if i >= 0 {
                        finish_request(
                            ProtocolModel { pending: m.pending.remove(i), ..m },
                            m.pending[i].1,
                            succeeded(v),
                            v,
                        )
                    } else {
                        m
                    }
                },
                None => m,
            },
        ),
{
    let m1 = match key_of(crate::json::json_get(v, "id"@)) {
        Some(k) => {
            let i = key_index_from(m.pending, k, 0);
            if i >= 0 {
                lemma_finish_request_threads(
                    ProtocolModel { pending: m.pending.remove(i), ..m },
                    m.pending[i].1,
                    succeeded(v),
                    v,
                );
                finish_request(
                    ProtocolModel { pending: m.pending.remove(i), ..m },
                    m.pending[i].1,
                    succeeded(v),
                    v,
                )
            } else {
                m
            }
        },
        None => m,
    };
    match thread_of(v) {
        Some(t) => lemma_remove_first_distinct(m1.live, t),
        None => {},
    }
}

proof fn lemma_message_threads(m: ProtocolModel, client: bool, line: Seq<u8>, now: nat)
    requires
        distinct_threads(m),
    ensures
        distinct_threads(message_step(m, client, line, now)),
{
    if !all_ws(line) {
        match crate::json::parsed_json(line) {
            None => {},
            Some(v) => {
                if !client {
                    lemma_server_step_threads(m, v);
                }
            },
        }
    }
}

proof fn lemma_messages_threads(m: ProtocolModel, client: bool, lines: Seq<Seq<u8>>, now: nat)
    requires
        distinct_threads(m),
    ensures
        distinct_threads(messages_step(m, client, lines, now)),
    decreases lines.len(),
{
    if lines.len() > 0 {
        lemma_messages_threads(m, client, lines.drop_last(), now);
        lemma_message_threads(messages_step(m, client, lines.drop_last(), now), client, lines.last(), now);
    }
}

/// Observation lists each loaded thread once; a new observer lists none.
pub proof fn lemma_loaded_threads_stay_distinct(m: ProtocolModel, client: bool, bytes: Seq<u8>, now: nat)
    requires
        distinct_threads(m),
    ensures
        distinct_threads(observe_spec(m, client, bytes, now)),
        distinct_threads(initial_model()),
{
    let wire = if client {
        m.client
    } else {
        m.server
    };
    let r = feed_spec(wire, bytes);
    let m1 = if client {
        ProtocolModel {
            client: r.state,
            parse_failures: sat_add(m.parse_failures, r.failures),
            last_activity: now,
            ..m
        }
    } else {
        ProtocolModel {
            server: r.state,
            parse_failures: sat_add(m.parse_failures, r.failures),
            last_activity: now,
            ..m
        }
    };
    lemma_messages_threads(m1, client, r.messages, now);
}

/// A thread the server reports closed is no longer loaded, whatever else
/// the message answers; a closing notification keeps every other loaded
/// thread loaded.
pub proof fn lemma_closed_thread_is_unloaded(m: ProtocolModel, v: JsonValue, t: Seq<char>)
    requires
        distinct_threads(m),
        method_of(v) == Some("thread/closed"@),
        thread_of(v) == Some(t),
    ensures
        !server_step(m, v).live.contains(t),
        key_of(crate::json::json_get(v, "id"@)) is None ==> forall|u: Seq<char>|
            u != t && m.live.contains(u) ==> #[trigger] server_step(m, v).live.contains(u),
{
    reveal_strlit("thread/closed");
    reveal_strlit("turn/started");
    reveal_strlit("turn/completed");
    reveal_strlit("turn/failed");
    reveal_strlit("turn/cancelled");
    assert("thread/closed"@[1] != "turn/started"@[1]);
    assert("thread/closed"@[1] != "turn/completed"@[1]);
    assert("thread/closed"@[1] != "turn/failed"@[1]);
    assert("thread/closed"@[1] != "turn/cancelled"@[1]);
    assert(!is_turn_end("thread/closed"@));
    lemma_server_step_threads(m, v);
    let m1 = match key_of(crate::json::json_get(v, "id"@)) {
        Some(k) => {
            let i = key_index_from(m.pending, k, 0);
            if i >= 0 {
                finish_request(
                    ProtocolModel { pending: m.pending.remove(i), ..m },
                    m.pending[i].1,
                    succeeded(v),
                    v,
                )
            } else {
                m
            }
        },
        None => m,
    };
    lemma_remove_first_distinct(m1.live, t);
    assert(server_step(m, v).live == remove_first(m1.live, t));
}


/// Server notifications drive the running turns: `turn/started` makes the
/// named turn of its thread a running turn unless it already finished, and
/// `turn/completed`, `turn/failed` or `turn/cancelled` leaves it not running
/// and, when it was running, records it as finished.
pub proof fn lemma_turn_notifications(m: ProtocolModel, v: JsonValue, meth: Seq<char>, a: Seq<char>)
    requires
        method_of(v) == Some(meth),
        notified_turn(v) == Some(a),
        key_of(crate::json::json_get(v, "id"@)) is None,
        m.active.no_duplicates(),
    ensures
        meth == "turn/started"@ && !m.finished.contains((thread_of(v), a)) ==> server_step(
            m,
            v,
        ).active.contains((thread_of(v), a)),
        (meth == "turn/completed"@ || meth == "turn/failed"@ || meth == "turn/cancelled"@)
            ==> !server_step(m, v).active.contains((thread_of(v), a)),
        (meth == "turn/completed"@ || meth == "turn/failed"@ || meth == "turn/cancelled"@)
            && m.active.contains((thread_of(v), a)) ==> server_step(m, v).finished.contains(
            (thread_of(v), a),
        ),
{
    reveal_strlit("turn/started");
    reveal_strlit("turn/completed");
    reveal_strlit("turn/failed");
    reveal_strlit("turn/cancelled");
    assert("turn/started"@[5] != "turn/completed"@[5]);
    assert("turn/started"@[5] != "turn/failed"@[5]);
    assert("turn/started"@[5] != "turn/cancelled"@[5]);
    let k = (thread_of(v), a);
    lemma_index_from_found(m.active, k, 0);
    lemma_index_from_found(m.finished, k, 0);
    if meth == "turn/started"@ {
        if index_from(m.finished, k, 0) < 0 && index_from(m.active, k, 0) < 0 {
            assert(m.active.push(k)[m.active.len() as int] == k);
        } else if index_from(m.active, k, 0) >= 0 {
            assert(m.active[index_from(m.active, k, 0)] == k);
        }
    }
    if meth == "turn/completed"@ || meth == "turn/failed"@ || meth == "turn/cancelled"@ {
        assert(is_turn_end(meth));
        if index_from(m.active, k, 0) >= 0 {
            lemma_remove_first_distinct(m.active, k);
            lemma_insert_unique_distinct_contains(m.finished, k);
        } else {
            assert(!m.active.contains(k));
        }
    }
}

proof fn lemma_insert_unique_distinct_contains<A>(s: Seq<A>, x: A)
    ensures
        insert_unique(s, x).contains(x),
{
    lemma_index_from_found(s, x, 0);
    if index_from(s, x, 0) < 0 {
        assert(s.push(x)[s.len() as int] == x);
    } else {
        assert(s[index_from(s, x, 0)] == x);
    }
}

/// A turn the client asks to start, with a request id, counts as running work
/// as soon as it is requested, like a command.
pub proof fn lemma_pending_turn_start_is_busy(m: ProtocolModel, v: JsonValue, now: nat)
    requires
        method_of(v) == Some("turn/start"@),
        key_of(crate::json::json_get(v, "id"@)) is Some,
    ensures
        active_work(client_step(m, v, now)) >= 1,
{
    let k = key_of(crate::json::json_get(v, "id"@))->0;
    reveal_strlit("thread/start");
    reveal_strlit("thread/resume");
    reveal_strlit("thread/unarchive");
    reveal_strlit("thread/archive");
    reveal_strlit("thread/delete");
    reveal_strlit("turn/start");
    assert("turn/start"@[1] != "thread/start"@[1]);
    assert("turn/start"@[1] != "thread/resume"@[1]);
    assert("turn/start"@[1] != "thread/unarchive"@[1]);
    assert("turn/start"@[1] != "thread/archive"@[1]);
    assert("turn/start"@[1] != "thread/delete"@[1]);
    let req = PendingView::TurnStart(thread_of(v));
    assert(pending_for("turn/start"@, thread_of(v)) == Some(req));
    let after = client_step(m, v, now);
    let i = key_index_from(m.pending, k, 0);
    lemma_key_index_in_range(m.pending, k, 0);
    if i >= 0 {
        assert(after.pending[i].1 == req);
        lemma_work_count_positive(after.pending, i);
    } else {
        assert(after.pending.last().1 == req);
        lemma_work_count_positive(after.pending, after.pending.len() - 1);
    }
}

} // verus!
