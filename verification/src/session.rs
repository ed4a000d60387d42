//! Bounded single-writer sessions: the server-side client identity, the lease
//! limits, and the `thread/unsubscribe` requests that the session owner injects
//! to unload idle threads.
use vstd::prelude::*;
use vstd::string::StringSliceAdditionalSpecFns;
use vstd::utf8::encode_utf8;

use crate::clock::Duration;
use crate::json::{quote_json, quoted_json};
use crate::number::{parse_u64, parse_unsigned};
use crate::protocol::model::{idle_threads, observe_spec, ProtocolModel};
use crate::protocol::observer::{strs_view, Direction, ProtocolObserver, ProtocolSnapshot};
use crate::protocol::wire::{announced_len, be_value, header_len, parse_frame, unmask, FrameParse, MAX_WIRE_BUFFER};
use crate::text::{decimal, push_decimal};

verus! {

/// The longest client identity, in bytes.
pub const MAX_ID_BYTES: usize = 32;

/// The longest session lease setting, in seconds: seven days.
pub const MAX_LEASE_SECS: u64 = 604800;

/// The longest payload of a frame with a 16-bit length.
pub const MAX_FRAME_PAYLOAD: usize = 65535;

/// A byte allowed in a client identity: an ASCII letter or digit, `-` or `_`.
pub open spec fn is_id_byte(b: u8) -> bool {
    (0x30u8 <= b <= 0x39u8) || (0x41u8 <= b <= 0x5Au8) || (0x61u8 <= b <= 0x7Au8) || b == 0x2Du8
        || b == 0x5Fu8
}

/// A client identity: one to thirty-two identity bytes.
pub open spec fn valid_id(s: Seq<u8>) -> bool {
    &&& 0 < s.len() <= MAX_ID_BYTES
    &&& forall|i: int| 0 <= i < s.len() ==> is_id_byte(#[trigger] s[i])
}

/// A valid identity is one plain path component: it holds no `/`, no NUL
/// and no `.` byte, so it is neither `.` nor `..` and cannot name a path
/// outside the sessions directory.
pub proof fn lemma_valid_id_is_one_path_component(s: Seq<u8>)
    requires
        valid_id(s),
    ensures
        !s.contains(0x2Fu8),
        !s.contains(0x00u8),
        !s.contains(0x2Eu8),
{
}

/// The identities accepted are exactly the strings of one to thirty-two
/// bytes, each an ASCII digit, an upper- or lower-case ASCII letter, `-` or
/// `_`.
pub proof fn lemma_identity_alphabet(s: Seq<u8>)
    ensures
        valid_id(s) <==> 1 <= s.len() <= 32 && forall|i: int|
            0 <= i < s.len() ==> {
                let b = #[trigger] s[i];
                (48 <= b <= 57) || (65 <= b <= 90) || (97 <= b <= 122) || b == 45 || b == 95
            },
{
}

/// A lease setting is accepted exactly when it is a whole number of seconds
/// from one to seven days (604800 seconds); without a value the default is
/// held to the same range.
pub proof fn lemma_lease_range(value: Option<Seq<u8>>, default: u64)
    ensures
        value is None ==> (lease_setting(value, default) is Ok <==> 1 <= default <= 604800),
        value is None && 1 <= default <= 604800 ==> lease_setting(value, default) == Ok::<
            u64,
            LeaseError,
        >(default),
        lease_setting(value, default) matches Ok(n) ==> 1 <= n <= 604800,
{
}

/// A session whose absolute lifetime is not over lives while a client is
/// attached, and while detached until its detached interval reaches
/// `eof_grace` or its detached time in all reaches `detach_budget`.
pub proof fn lemma_lease_deadlines(s: LeaseState, now: nat)
    requires
        now < s.max_age,
    ensures
        s.detached_since is None ==> lease_verdict(s, now) == LeaseVerdict::Live,
        s.detached_since matches Some(at) && now >= at + s.eof_grace ==> lease_verdict(s, now)
            == LeaseVerdict::Expired,
        s.detached_since matches Some(at) && now >= at && s.detached_total + (now - at)
            >= s.detach_budget ==> lease_verdict(s, now) == LeaseVerdict::Expired,
        s.detached_since matches Some(at) && now >= at && now < at + s.eof_grace && s.detached_total
            + (now - at) < s.detach_budget ==> lease_verdict(s, now) == LeaseVerdict::Live,
{
}

/// A client identity that breaks the rule.
#[derive(Clone, Copy, Debug, PartialEq, Eq, Structural)]
pub enum IdentityError {
    Invalid,
}

impl IdentityError {
    /// The human-readable description of the refusal.
    pub fn message(&self) -> (s: &'static str)
        ensures
            s@ == "client identity must contain 1..32 ASCII letters, digits, '-' or '_'"@,
    {
        "client identity must contain 1..32 ASCII letters, digits, '-' or '_'"
    }
}

/// Checks that a client identity is one to thirty-two ASCII letters, digits,
/// dashes or underscores, so that it names one directory and nothing else.
pub fn validate_id(id: &str) -> (r: Result<(), IdentityError>)
    ensures
        r is Ok <==> valid_id(id.spec_bytes()),
{
    let b = id.as_bytes();
    if b.len() == 0 || b.len() > MAX_ID_BYTES {
        return Err(IdentityError::Invalid);
    }
    let mut i: usize = 0;
    while i < b.len()
        invariant
            i <= b.len(),
            b@ == id.spec_bytes(),
            forall|j: int| 0 <= j < i ==> is_id_byte(#[trigger] b@[j]),
        decreases b.len() - i,
    {
        let c = b[i];
        let ok = (0x30u8 <= c && c <= 0x39u8) || (0x41u8 <= c && c <= 0x5Au8) || (0x61u8 <= c
            && c <= 0x7Au8) || c == 0x2Du8 || c == 0x5Fu8;
        if !ok {
            assert(!is_id_byte(b@[i as int]));
            return Err(IdentityError::Invalid);
        }
        i = i + 1;
    }
    Ok(())
}

/// Why a lease setting was refused.
#[derive(Clone, Copy, Debug, PartialEq, Eq, Structural)]
pub enum LeaseError {
    /// The value is not a decimal `u64`.
    Unparsable,
    /// The value is zero or more than [`MAX_LEASE_SECS`].
    OutOfRange,
}

/// The lease setting, in seconds, that a value from the environment gives:
/// the default when there is none, else the number it writes, which must lie
/// in `1..=604800`.
pub open spec fn lease_setting(value: Option<Seq<u8>>, default: u64) -> Result<u64, LeaseError> {
    let secs = match value {
        None => Some(default as nat),
        Some(v) => parse_unsigned(v, u64::MAX as nat),
    };
    match secs {
        None => Err(LeaseError::Unparsable),
        Some(s) => if s == 0 || s > MAX_LEASE_SECS {
            Err(LeaseError::OutOfRange)
        } else {
            Ok(s as u64)
        },
    }
}

/// Reads a lease setting in seconds: the default without a value, else the
/// value parsed as `u64`; either must lie in `1..=604800`.
pub fn lease_seconds(value: Option<&str>, default: u64) -> (r: Result<u64, LeaseError>)
    ensures
        r == lease_setting(
            match value {
                Some(v) => Some(v.spec_bytes()),
                None => None,
            },
            default,
        ),
{
    let secs = match value {
        None => default,
        Some(v) => match parse_u64(v) {
            Some(s) => s,
            None => {
                return Err(LeaseError::Unparsable);
            },
        },
    };
    if secs == 0 || secs > MAX_LEASE_SECS {
        Err(LeaseError::OutOfRange)
    } else {
        Ok(secs)
    }
}

/// The mask of injected client frames.
pub open spec fn injected_mask() -> Seq<u8> {
    seq![0x43u8, 0x4Du8, 0x43u8, 0x31u8]
}

/// The masked final text frame that carries `p`, when its length fits 16
/// bits: a 7-bit length up to 125 bytes, else the marker 126 and a big-endian
/// 16-bit length.
pub open spec fn masked_text_frame(p: Seq<u8>) -> Option<Seq<u8>> {
    if p.len() <= 125 {
        Some(seq![0x81u8, (0x80 + p.len()) as u8] + injected_mask() + unmask(p, injected_mask()))
    } else if p.len() <= MAX_FRAME_PAYLOAD {
        Some(
            seq![0x81u8, 0xFEu8, (p.len() / 256) as u8, (p.len() % 256) as u8] + injected_mask()
                + unmask(p, injected_mask()),
        )
    } else {
        None
    }
}

/// A payload too long for a frame with a 16-bit length.
#[derive(Clone, Copy, Debug, PartialEq, Eq, Structural)]
pub enum FrameError {
    TooLarge,
}

impl FrameError {
    /// The human-readable description of the refusal.
    pub fn message(&self) -> (s: &'static str)
        ensures
            s@ == "managed unsubscribe request is too large"@,
    {
        "managed unsubscribe request is too large"
    }
}

/// Frames `payload` as a masked final WebSocket text frame, as a client must
/// send it.
pub fn masked_websocket_text_frame(payload: &[u8]) -> (r: Result<Vec<u8>, FrameError>)
    ensures
        r matches Ok(f) ==> masked_text_frame(payload@) == Some(f@),
        r is Err ==> masked_text_frame(payload@) is None,
{
    let len = payload.len();
    if len > MAX_FRAME_PAYLOAD {
        return Err(FrameError::TooLarge);
    }
    let mask: [u8; 4] = [0x43u8, 0x4Du8, 0x43u8, 0x31u8];
    let mut frame: Vec<u8> = Vec::new();
    frame.push(0x81u8);
    if len <= 125 {
        frame.push((0x80 + len) as u8);
    } else {
        frame.push(0xFEu8);
        frame.push((len / 256) as u8);
        frame.push((len % 256) as u8);
    }
    let ghost head = frame@;
    frame.push(mask[0]);
    frame.push(mask[1]);
    frame.push(mask[2]);
    frame.push(mask[3]);
    assert(mask@ =~= injected_mask());
    assert(frame@ =~= head + injected_mask());
    let ghost lead = frame@;
    let mut i: usize = 0;
    while i < len
        invariant
            len == payload.len(),
            i <= len,
            mask@ == injected_mask(),
            frame@ == lead + unmask(payload@.subrange(0, i as int), injected_mask()),
        decreases len - i,
    {
        frame.push(payload[i] ^ mask[i % 4]);
        assert(unmask(payload@.subrange(0, i + 1), injected_mask()) =~= unmask(
            payload@.subrange(0, i as int),
            injected_mask(),
        ).push(payload@[i as int] ^ injected_mask()[(i % 4) as int]));
        i = i + 1;
    }
    assert(payload@.subrange(0, len as int) =~= payload@);
    Ok(frame)
}

/// XORing twice with the same byte gives the byte back.
proof fn lemma_xor_twice(a: u8, b: u8)
    ensures
        (a ^ b) ^ b == a,
{
    assert((a ^ b) ^ b == a) by (bit_vector);
}

/// Unmasking a masked payload gives it back.
pub proof fn lemma_unmask_twice(p: Seq<u8>, m: Seq<u8>)
    requires
        m.len() == 4,
    ensures
        unmask(unmask(p, m), m) == p,
{
    assert forall|i: int| 0 <= i < p.len() implies #[trigger] unmask(unmask(p, m), m)[i] == p[i] by {
        lemma_xor_twice(p[i], m[i % 4]);
    }
    assert(unmask(unmask(p, m), m) =~= p);
}

/// A frame built for a payload reads back, by the observer's framing, as one
/// complete final text frame carrying exactly that payload.
pub proof fn lemma_injected_frame_reads_back(p: Seq<u8>)
    requires
        p.len() <= MAX_FRAME_PAYLOAD,
    ensures
        masked_text_frame(p) is Some,
        parse_frame(masked_text_frame(p)->0) == (FrameParse::Frame {
            fin: true,
            opcode: 1,
            payload: p,
            len: masked_text_frame(p)->0.len(),
        }),
{
    let f = masked_text_frame(p)->0;
    let m = injected_mask();
    lemma_unmask_twice(p, m);
    assert(0x81u8 & 0x70u8 == 0) by (bit_vector);
    assert(0x81u8 & 0x80u8 != 0) by (bit_vector);
    assert(0x81u8 & 0x0Fu8 == 1) by (bit_vector);
    assert(f[0] == 0x81u8);
    if p.len() <= 125 {
        let n = p.len() as u8;
        assert(f[1] == (0x80u8 + n) as u8);
        assert(n <= 125 ==> ((0x80u8 + n) as u8) & 0x7Fu8 == n) by (bit_vector);
        assert(n <= 125 ==> ((0x80u8 + n) as u8) & 0x80u8 != 0) by (bit_vector);
        assert(header_len(f[1]) == 2);
        assert(announced_len(f) == p.len());
        assert(f.subrange(2, 6) =~= m);
        assert(f.subrange(6, 6 + p.len() as int) =~= unmask(p, m));
        assert(f.len() == 6 + p.len());
    } else {
        assert(0xFEu8 & 0x7Fu8 == 126) by (bit_vector);
        assert(0xFEu8 & 0x80u8 != 0) by (bit_vector);
        assert(f[1] == 0xFEu8);
        assert(header_len(f[1]) == 4);
        let hi = (p.len() / 256) as u8;
        let lo = (p.len() % 256) as u8;
        let two = f.subrange(2, 4);
        assert(two =~= seq![hi, lo]);
        assert(two.drop_last() =~= seq![hi]);
        assert(seq![hi].drop_last() =~= Seq::<u8>::empty());
        assert(be_value(Seq::<u8>::empty()) == 0);
        assert(be_value(seq![hi]) == hi);
        assert(be_value(two) == hi * 256 + lo);
        assert(hi * 256 + lo == p.len());
        assert(announced_len(f) == p.len());
        assert(f.subrange(4, 8) =~= m);
        assert(f.subrange(8, 8 + p.len() as int) =~= unmask(p, m));
        assert(f.len() == 8 + p.len());
    }
}

/// The JSON text of the request that unsubscribes from `thread`, numbered
/// `id`: members in the order serde_json writes them.
pub open spec fn unsubscribe_text(id: u64, thread: Seq<char>) -> Seq<char> {
    "{\"id\":\"codex-managed-unsubscribe-"@ + decimal(id as nat)
        + "\",\"jsonrpc\":\"2.0\",\"method\":\"thread/unsubscribe\",\"params\":{\"threadId\":"@
        + quoted_json(thread) + "}}"@
}

/// The JSON text of the request that unsubscribes from `thread`.
pub fn unsubscribe_request(id: u64, thread: &str) -> (r: String)
    ensures
        r@ == unsubscribe_text(id, thread@),
{
    let mut t = String::from_str("{\"id\":\"codex-managed-unsubscribe-");
    push_decimal(&mut t, id);
    t.append("\",\"jsonrpc\":\"2.0\",\"method\":\"thread/unsubscribe\",\"params\":{\"threadId\":");
    let q = quote_json(thread);
    t.append(q.as_str());
    t.append("}}");
    t
}

/// The frame of the unsubscribe request numbered `id` for `thread`.
pub open spec fn unsubscribe_frame(id: u64, thread: Seq<char>) -> Option<Seq<u8>> {
    masked_text_frame(encode_utf8(unsubscribe_text(id, thread)))
}

/// The observer state after client bytes `f` at time `now`.
#[verifier::opaque]
pub open spec fn client_bytes(m: ProtocolModel, f: Seq<u8>, now: nat) -> ProtocolModel {
    observe_spec(m, true, f, now)
}

/// The request number after `next`, saturating.
pub open spec fn next_number(next: u64) -> u64 {
    if next == u64::MAX {
        next
    } else {
        (next + 1) as u64
    }
}

/// What injecting unsubscribe requests produced.
pub struct Injection {
    pub model: ProtocolModel,
    pub bytes: Seq<u8>,
    pub next_id: u64,
    pub failed: bool,
}

/// The effect of sending one unsubscribe request for each of `threads` in
/// turn, numbered from `next`, each frame observed as client bytes at time
/// `now`: the first request too large to frame stops it, after taking its
/// number.
pub open spec fn inject(m: ProtocolModel, threads: Seq<Seq<char>>, next: u64, now: nat) -> Injection
    decreases threads.len(),
{
    if threads.len() == 0 {
        Injection { model: m, bytes: Seq::empty(), next_id: next, failed: false }
    } else {
        let after = next_number(next);
        match unsubscribe_frame(next, threads[0]) {
            None => Injection { model: m, bytes: Seq::empty(), next_id: after, failed: true },
            Some(f) => {
                let r = inject(client_bytes(m, f, now), threads.drop_first(), after, now);
                Injection { model: r.model, bytes: f + r.bytes, next_id: r.next_id, failed: r.failed }
            },
        }
    }
}

/// Injecting for a non-empty list is the first request followed by the rest.
proof fn lemma_inject_first(m: ProtocolModel, threads: Seq<Seq<char>>, next: u64, now: nat)
    requires
        threads.len() > 0,
    ensures
        ({
            let after = next_number(next);
            let whole = inject(m, threads, next, now);
            match unsubscribe_frame(next, threads[0]) {
                None => whole == Injection { model: m, bytes: Seq::empty(), next_id: after, failed: true },
                Some(f) => {
                    let r = inject(client_bytes(m, f, now), threads.drop_first(), after, now);
                    whole == Injection { model: r.model, bytes: f + r.bytes, next_id: r.next_id, failed: r.failed }
                },
            }
        }),
{
}

/// The whole injection matches what was done so far followed by the rest.
pub open spec fn rest_matches(whole: Injection, out0: Seq<u8>, rest: Injection, out: Seq<u8>) -> bool {
    &&& whole.model == rest.model
    &&& whole.next_id == rest.next_id
    &&& whole.failed == rest.failed
    &&& out0 + whole.bytes == out + rest.bytes
}

/// One request sent keeps the whole injection matching the rest.
proof fn lemma_inject_step(
    whole: Injection,
    out0: Seq<u8>,
    m: ProtocolModel,
    threads: Seq<Seq<char>>,
    next: u64,
    now: nat,
    m_after: ProtocolModel,
    out_after: Seq<u8>,
    out_before: Seq<u8>,
)
    requires
        threads.len() > 0,
        rest_matches(whole, out0, inject(m, threads, next, now), out_before),
        match unsubscribe_frame(next, threads[0]) {
            None => m_after == m && out_after == out_before,
            Some(f) => m_after == client_bytes(m, f, now) && out_after == out_before + f,
        },
    ensures
        unsubscribe_frame(next, threads[0]) is Some ==> rest_matches(
            whole,
            out0,
            inject(m_after, threads.drop_first(), next_number(next), now),
            out_after,
        ),
        unsubscribe_frame(next, threads[0]) is None ==> whole.failed && whole.model == m_after
            && whole.next_id == next_number(next) && out0 + whole.bytes == out_after,
{
    lemma_inject_first(m, threads, next, now);
    match unsubscribe_frame(next, threads[0]) {
        None => {
            assert(out_before + Seq::<u8>::empty() =~= out_before);
        },
        Some(f) => {
            let r = inject(m_after, threads.drop_first(), next_number(next), now);
            assert(out_before + (f + r.bytes) =~= (out_before + f) + r.bytes);
        },
    }
}

/// Sends the unsubscribe request numbered `*next_request_id` for `thread`:
/// the number advances, and a request that can be framed is observed as
/// client bytes at `now` and appended to `output`.
fn inject_one(
    now: Duration,
    output: &mut Vec<u8>,
    observer: &mut ProtocolObserver,
    next_request_id: &mut u64,
    thread: &str,
) -> (r: Result<(), FrameError>)
    requires
        old(observer).wf(),
    ensures
        final(observer).wf(),
        *final(next_request_id) == next_number(*old(next_request_id)),
        r is Err <==> unsubscribe_frame(*old(next_request_id), thread@) is None,
        match unsubscribe_frame(*old(next_request_id), thread@) {
            None => final(observer).model() == old(observer).model() && final(output)@ == old(output)@,
            Some(f) => final(observer).model() == client_bytes(old(observer).model(), f, now@)
                && final(output)@ == old(output)@ + f,
        },
{
    let text = unsubscribe_request(*next_request_id, thread);
    *next_request_id = next_request_id.saturating_add(1);
    let frame = match masked_websocket_text_frame(text.as_str().as_bytes()) {
        Ok(f) => f,
        Err(e) => {
            return Err(e);
        },
    };
    assert(frame@.len() <= MAX_FRAME_PAYLOAD + 8);
    let ghost m_before = observer.model();
    observer.observe_at(now, Direction::ClientToServer, frame.as_slice());
    proof {
        reveal(client_bytes);
    }
    let mut k: usize = 0;
    let ghost before = output@;
    while k < frame.len()
        invariant
            k <= frame.len(),
            output@ == before + frame@.subrange(0, k as int),
        decreases frame.len() - k,
    {
        output.push(frame[k]);
        assert(frame@.subrange(0, k + 1) =~= frame@.subrange(0, k as int).push(frame@[k as int]));
        k = k + 1;
    }
    assert(frame@.subrange(0, frame.len() as int) =~= frame@);
    Ok(())
}

/// The threads whose unsubscribe requests an observer in state `m` sends.
pub open spec fn unsubscribe_targets(m: ProtocolModel) -> Seq<Seq<char>> {
    idle_threads(m, m.live)
}

/// Sends a `thread/unsubscribe` request for every idle loaded thread, at time
/// `now`: each is framed as a masked client text frame, observed as client
/// bytes and appended to `output`. Returns how many were sent, or the error of
/// the first that could not be framed.
pub fn unsubscribe_idle_threads_at(
    now: Duration,
    output: &mut Vec<u8>,
    observer: &mut ProtocolObserver,
    next_request_id: &mut u64,
) -> (r: Result<usize, FrameError>)
    requires
        old(observer).wf(),
    ensures
        final(observer).wf(),
        ({
            let inj = inject(
                old(observer).model(),
                unsubscribe_targets(old(observer).model()),
                *old(next_request_id),
                now@,
            );
            &&& final(observer).model() == inj.model
            &&& final(output)@ == old(output)@ + inj.bytes
            &&& *final(next_request_id) == inj.next_id
            &&& r is Err <==> inj.failed
            &&& r matches Ok(n) ==> n == unsubscribe_targets(old(observer).model()).len()
        }),
{
    let ids = observer.idle_thread_ids();
    let ghost targets = strs_view(ids@);
    let ghost m0 = observer.model();
    let ghost out0 = output@;
    let ghost n0 = *next_request_id;
    let ghost whole = inject(m0, targets, n0, now@);
    let mut i: usize = 0;
    assert(targets.subrange(0, targets.len() as int) =~= targets);
    assert(out0 + whole.bytes =~= output@ + whole.bytes);
    while i < ids.len()
        invariant
            i <= ids.len(),
            targets == strs_view(ids@),
            whole == inject(m0, targets, n0, now@),
            targets == unsubscribe_targets(m0),
            m0 == old(observer).model(),
            n0 == *old(next_request_id),
            out0 == old(output)@,
            observer.wf(),
            rest_matches(
                whole,
                out0,
                inject(observer.model(), targets.subrange(i as int, targets.len() as int), *next_request_id, now@),
                output@,
            ),
        decreases ids.len() - i,
    {
        let ghost rest_threads = targets.subrange(i as int, targets.len() as int);
        let ghost m_before = observer.model();
        let ghost id = *next_request_id;
        let ghost out_before = output@;
        proof {
            assert(rest_threads[0] == ids@[i as int]@);
            assert(rest_threads.drop_first() =~= targets.subrange(i + 1, targets.len() as int));
        }
        let sent = inject_one(now, output, observer, next_request_id, ids[i].as_str());
        proof {
            lemma_inject_step(whole, out0, m_before, rest_threads, id, now@, observer.model(), output@, out_before);
        }
        if sent.is_err() {
            return Err(FrameError::TooLarge);
        }
        i = i + 1;
    }
    proof {
        assert(targets.subrange(i as int, targets.len() as int) =~= Seq::<Seq<char>>::empty());
        assert(output@ + Seq::<u8>::empty() =~= output@);
    }
    Ok(ids.len())
}

/// Sends a `thread/unsubscribe` request for every idle loaded thread, at the
/// observer's clock reading; see [`unsubscribe_idle_threads_at`].
pub fn unsubscribe_idle_threads(
    output: &mut Vec<u8>,
    observer: &mut ProtocolObserver,
    next_request_id: &mut u64,
) -> (r: Result<usize, FrameError>)
    requires
        old(observer).wf(),
    ensures
        final(observer).wf(),
        exists|now: nat|
            {
                let inj = #[trigger] inject(
                    old(observer).model(),
                    unsubscribe_targets(old(observer).model()),
                    *old(next_request_id),
                    now,
                );
                &&& final(observer).model() == inj.model
                &&& final(output)@ == old(output)@ + inj.bytes
                &&& *final(next_request_id) == inj.next_id
                &&& r is Err <==> inj.failed
                &&& r matches Ok(n) ==> n == unsubscribe_targets(old(observer).model()).len()
            },
{
    let now = observer.now();
    unsubscribe_idle_threads_at(now, output, observer, next_request_id)
}

/// No injected unsubscribe request counts as user activity.
pub proof fn lemma_unsubscribe_is_not_user_activity()
    ensures
        !crate::protocol::model::is_user_activity("thread/unsubscribe"@),
{
    reveal_strlit("thread/unsubscribe");
    reveal_strlit("thread/start");
    reveal_strlit("thread/resume");
    reveal_strlit("thread/fork");
    reveal_strlit("thread/archive");
    reveal_strlit("thread/unarchive");
    reveal_strlit("thread/delete");
    reveal_strlit("thread/compact");
    reveal_strlit("thread/rollback");
    reveal_strlit("thread/name/set");
    reveal_strlit("turn/start");
    reveal_strlit("turn/interrupt");
    reveal_strlit("turn/steer");
    reveal_strlit("review/start");
    reveal_strlit("command/exec");
    assert("thread/unsubscribe"@[8] != "thread/start"@[8]);
    assert("thread/unsubscribe"@.len() != "thread/resume"@.len());
    assert("thread/unsubscribe"@.len() != "thread/fork"@.len());
    assert("thread/unsubscribe"@.len() != "thread/archive"@.len());
    assert("thread/unsubscribe"@[7] != "thread/unarchive"@[7] || "thread/unsubscribe"@.len() != "thread/unarchive"@.len());
    assert("thread/unsubscribe"@.len() != "thread/delete"@.len());
    assert("thread/unsubscribe"@.len() != "thread/compact"@.len());
    assert("thread/unsubscribe"@.len() != "thread/rollback"@.len());
    assert("thread/unsubscribe"@.len() != "thread/name/set"@.len());
    assert("thread/unsubscribe"@[0] != "turn/start"@[1] || "thread/unsubscribe"@.len() != "turn/start"@.len());
    assert("thread/unsubscribe"@.len() != "turn/interrupt"@.len());
    assert("thread/unsubscribe"@.len() != "turn/steer"@.len());
    assert("thread/unsubscribe"@.len() != "review/start"@.len());
    assert("thread/unsubscribe"@.len() != "command/exec"@.len());
}

/// The observation can be trusted and shows no running work.
pub fn is_quiet(s: &ProtocolSnapshot) -> (r: bool)
    ensures
        r == (s.reliable && s.active_turns == 0),
{
    s.reliable && s.active_turns == 0
}

/// From `before` to `after` the client did nothing and no work is running.
pub fn undisturbed(before: &ProtocolSnapshot, after: &ProtocolSnapshot) -> (r: bool)
    ensures
        r == (after.active_turns == 0 && after.client_activity_generation
            == before.client_activity_generation),
{
    after.active_turns == 0 && after.client_activity_generation == before.client_activity_generation
}

/// Whether an idle or archive reclaim may go on: the observation was quiet
/// before the runtime was asked, the runtime answered idle, and afterwards it
/// is still quiet with no user action in between.
pub fn reclaim_confirmed(before: &ProtocolSnapshot, runtime_idle: bool, after: &ProtocolSnapshot) -> (r: bool)
    ensures
        r == (before.reliable && before.active_turns == 0 && runtime_idle && after.reliable
            && after.active_turns == 0 && after.client_activity_generation
            == before.client_activity_generation),
{
    is_quiet(before) && runtime_idle && is_quiet(after) && undisturbed(before, after)
}

/// Whether a descriptor recycle may first try unsubscribing: the observation
/// was quiet before the runtime was asked, the runtime answered idle, and
/// afterwards no work runs and the user did nothing.
pub fn recycle_confirmed(before: &ProtocolSnapshot, runtime_idle: bool, after: &ProtocolSnapshot) -> (r: bool)
    ensures
        r == (before.reliable && before.active_turns == 0 && runtime_idle && after.active_turns == 0
            && after.client_activity_generation == before.client_activity_generation),
{
    is_quiet(before) && runtime_idle && undisturbed(before, after)
}

/// Whether unsubscribing idle threads relieved descriptor pressure: the
/// requests were sent (`requested` is their number, `None` when sending
/// failed) and some threads were asked to unload, they did, and the count read afterwards is
/// back under the recycle level.
pub fn unsubscribe_relieved(
    requested: Option<usize>,
    unloaded: bool,
    after: Option<usize>,
    policy: &crate::fd_guard::FdPolicy,
) -> (r: bool)
    ensures
        r <==> (requested matches Some(n) && n > 0) && unloaded && (after matches Some(c)
            && crate::fd_guard::severity(
            crate::fd_guard::fd_action_spec(*policy, c as int, 0, crate::clock::MAX_NANOS as nat),
        ) <= 1),
{
    match requested {
        Some(n) => if n > 0 && unloaded {
            match after {
                Some(c) => policy.settled(c),
                None => false,
            }
        } else {
            false
        },
        None => false,
    }
}

/// The time from `start` to `now`, or zero when `now` is earlier.
pub open spec fn elapsed_since(now: nat, start: nat) -> nat {
    if now >= start {
        (now - start) as nat
    } else {
        0
    }
}

/// `a + b`, capped at the longest span.
pub open spec fn capped_sum(a: nat, b: nat) -> nat {
    if a + b > crate::clock::MAX_NANOS {
        crate::clock::MAX_NANOS as nat
    } else {
        a + b
    }
}

/// A session's lease: its absolute lifetime, the longest single detached
/// interval, the detached time it may accumulate, when it was last detached
/// and for how long it has been detached in all, and whether a client is
/// attached. Times are in nanoseconds since the worker started.
pub struct LeaseState {
    pub max_age: nat,
    pub eof_grace: nat,
    pub detach_budget: nat,
    pub detached_since: Option<nat>,
    pub detached_total: nat,
    pub attached: bool,
}

/// Whether a session may go on.
#[derive(Clone, Copy, Debug, PartialEq, Eq, Structural)]
pub enum LeaseVerdict {
    /// The session may go on.
    Live,
    /// The absolute lifetime is over.
    MaxAge,
    /// The detached interval or the detach budget is spent.
    Expired,
}

/// The verdict on lease `s` at time `now`: the lifetime ends it first, then,
/// while detached, a detached interval of `eof_grace` or a cumulative detached
/// time of `detach_budget`.
pub open spec fn lease_verdict(s: LeaseState, now: nat) -> LeaseVerdict {
    if now >= s.max_age {
        LeaseVerdict::MaxAge
    } else {
        match s.detached_since {
            Some(at) => if elapsed_since(now, at) >= s.eof_grace || s.detached_total + elapsed_since(now, at)
                >= s.detach_budget {
                LeaseVerdict::Expired
            } else {
                LeaseVerdict::Live
            },
            None => LeaseVerdict::Live,
        }
    }
}

/// Lease `s` after a client asks to attach at `now`: refused while another is
/// attached; otherwise the detached interval ends and joins the total.
pub open spec fn lease_attach(s: LeaseState, now: nat) -> (LeaseState, bool) {
    if s.attached {
        (s, false)
    } else {
        let gap = match s.detached_since {
            Some(at) => elapsed_since(now, at),
            None => 0,
        };
        (
            LeaseState {
                detached_since: None,
                detached_total: capped_sum(s.detached_total, gap),
                attached: true,
                ..s
            },
            true,
        )
    }
}

/// Lease `s` after its client detaches at `now`.
pub open spec fn lease_detach(s: LeaseState, now: nat) -> LeaseState {
    LeaseState { detached_since: Some(now), attached: false, ..s }
}

/// The lease of a bounded session.
pub struct Lease {
    max_age: Duration,
    eof_grace: Duration,
    detach_budget: Duration,
    detached_since: Option<Duration>,
    detached_total: Duration,
    attached: bool,
}

impl View for Lease {
    type V = LeaseState;

    closed spec fn view(&self) -> LeaseState {
        LeaseState {
            max_age: self.max_age@,
            eof_grace: self.eof_grace@,
            detach_budget: self.detach_budget@,
            detached_since: match self.detached_since {
                Some(d) => Some(d@),
                None => None,
            },
            detached_total: self.detached_total@,
            attached: self.attached,
        }
    }
}

/// A lease's detached total fits the longest span.
pub open spec fn lease_bounded(s: LeaseState) -> bool {
    s.detached_total <= crate::clock::MAX_NANOS
}

impl Lease {
    #[verifier::type_invariant]
    spec fn total_fits(self) -> bool {
        self.detached_total@ <= crate::clock::MAX_NANOS
    }

    /// A lease for a worker that has just started, with no client yet: it is
    /// detached from time zero.
    pub fn new(max_age: Duration, eof_grace: Duration, detach_budget: Duration) -> (l: Lease)
        ensures
            l@ == (LeaseState {
                max_age: max_age@,
                eof_grace: eof_grace@,
                detach_budget: detach_budget@,
                detached_since: Some(0),
                detached_total: 0,
                attached: false,
            }),
    {
        Lease {
            max_age,
            eof_grace,
            detach_budget,
            detached_since: Some(Duration::zero()),
            detached_total: Duration::zero(),
            attached: false,
        }
    }

    /// The verdict at `now`.
    pub fn verdict(&self, now: Duration) -> (v: LeaseVerdict)
        ensures
            v == lease_verdict(self@, now@),
            lease_bounded(self@),
    {
        proof {
            use_type_invariant(self);
        }
        if now.at_least(&self.max_age) {
            return LeaseVerdict::MaxAge;
        }
        match self.detached_since {
            Some(at) => {
                let gap = now.saturating_sub(at);
                if gap.at_least(&self.eof_grace) {
                    return LeaseVerdict::Expired;
                }
                let total: u128 = self.detached_total.as_nanos() + gap.as_nanos();
                if total >= self.detach_budget.as_nanos() {
                    LeaseVerdict::Expired
                } else {
                    LeaseVerdict::Live
                }
            },
            None => LeaseVerdict::Live,
        }
    }

    /// A client asks to attach at `now`; whether it may.
    pub fn attach(&mut self, now: Duration) -> (ok: bool)
        ensures
            (final(self)@, ok) == lease_attach(old(self)@, now@),
            lease_bounded(old(self)@),
            lease_bounded(final(self)@),
    {
        proof {
            use_type_invariant(&*self);
        }
        if self.attached {
            return false;
        }
        let gap = match self.detached_since {
            Some(at) => now.saturating_sub(at),
            None => Duration::zero(),
        };
        self.detached_total = self.detached_total.saturating_add(gap);
        self.detached_since = None;
        self.attached = true;
        true
    }

    /// The client detaches at `now`.
    pub fn detach(&mut self, now: Duration)
        ensures
            final(self)@ == lease_detach(old(self)@, now@),
            lease_bounded(old(self)@),
            lease_bounded(final(self)@),
    {
        proof {
            use_type_invariant(&*self);
        }
        self.detached_since = Some(now);
        self.attached = false;
    }

    /// Whether a client is attached.
    pub fn attached(&self) -> (a: bool)
        ensures
            a == self@.attached,
    {
        self.attached
    }
}

/// Reconnecting never renews a session's absolute lifetime: attaching and
/// detaching keep the maximum age unchanged, and from that age on every
/// lease check answers that the maximum age has passed.
pub proof fn lemma_reconnect_never_renews_lifetime(s: LeaseState, t1: nat, t2: nat, now: nat)
    ensures
        lease_attach(s, t1).0.max_age == s.max_age,
        lease_detach(s, t2).max_age == s.max_age,
        now >= s.max_age ==> lease_verdict(lease_detach(lease_attach(s, t1).0, t2), now)
            == LeaseVerdict::MaxAge,
        now >= s.max_age ==> lease_verdict(lease_attach(s, t1).0, now) == LeaseVerdict::MaxAge,
{
}

/// One writer at a time: while a client is attached, another is refused and
/// the lease is unchanged.
pub proof fn lemma_single_writer(s: LeaseState, now: nat)
    requires
        s.attached,
    ensures
        lease_attach(s, now) == (s, false),
{
}

/// Detached time accumulates: no attach or detach lowers the total, and a
/// detached session whose total reached the budget is expired.
pub proof fn lemma_detach_budget_is_cumulative(s: LeaseState, t: nat, now: nat)
    requires
        lease_bounded(s),
    ensures
        lease_attach(s, t).0.detached_total >= s.detached_total,
        lease_detach(s, t).detached_total == s.detached_total,
        s.detached_since is Some && s.detached_total >= s.detach_budget && now < s.max_age
            ==> lease_verdict(s, now) == LeaseVerdict::Expired,
{
}

} // verus!
