//! Message framing of one direction of the app-server transport: either JSON
//! lines, or an HTTP upgrade followed by WebSocket frames.
use vstd::prelude::*;
use vstd::slice::slice_to_vec;

use crate::bytes::{find, find_subsequence, is_ascii_ws, is_ws, starts_with, starts_with_exec};

verus! {

/// The largest amount of buffered or reassembled bytes the observer keeps.
pub const MAX_WIRE_BUFFER: usize = 67108864;

/// How a direction of the transport frames its messages.
#[derive(Clone, Copy, Debug, PartialEq, Eq, Structural)]
pub enum WireMode {
    Unknown,
    JsonLines,
    WebSocketHandshake,
    WebSocketFrames,
}

/// The abstract state of a [`WireBuffer`].
#[verifier::ext_equal]
pub struct WireState {
    pub mode: WireMode,
    pub pending: Seq<u8>,
    pub fragmented: Option<Seq<u8>>,
}

/// Reassembles complete messages from the bytes of one direction.
pub struct WireBuffer {
    mode: WireMode,
    pending: Vec<u8>,
    fragmented_text: Option<Vec<u8>>,
}

/// `"GET "`
pub open spec fn get_prefix() -> Seq<u8> {
    seq![0x47u8, 0x45u8, 0x54u8, 0x20u8]
}

/// `"HTTP/"`
pub open spec fn http_prefix() -> Seq<u8> {
    seq![0x48u8, 0x54u8, 0x54u8, 0x50u8, 0x2Fu8]
}

/// `"\r\n\r\n"`, the end of an HTTP header block.
pub open spec fn header_end() -> Seq<u8> {
    seq![0x0Du8, 0x0Au8, 0x0Du8, 0x0Au8]
}

/// The first position at or after `i` that is not ASCII whitespace.
pub open spec fn skip_ws(s: Seq<u8>, i: int) -> int
    decreases s.len() - i,
{
    if 0 <= i < s.len() && is_ws(s[i]) {
        skip_ws(s, i + 1)
    } else {
        i
    }
}

/// The framing that the first bytes of a direction announce: an HTTP request
/// or response line starts a WebSocket handshake, a JSON bracket or any other
/// five bytes mean JSON lines, and fewer bytes leave the framing undecided.
pub open spec fn detect_mode(p: Seq<u8>) -> WireMode {
    let start = p.subrange(skip_ws(p, 0), p.len() as int);
    if starts_with(start, get_prefix()) || starts_with(start, http_prefix()) {
        WireMode::WebSocketHandshake
    } else if starts_with(start, seq![0x7Bu8]) || starts_with(start, seq![0x5Bu8]) || (
    start.len() >= 5 && !starts_with(get_prefix(), start) && !starts_with(http_prefix(), start)) {
        WireMode::JsonLines
    } else {
        WireMode::Unknown
    }
}

/// Splits `b` into lines, continuing from the lines and the partial line in
/// `acc`: every line feed ends the partial line, which then becomes a message
/// without its line feed.
pub open spec fn lines_step(acc: (Seq<Seq<u8>>, Seq<u8>), b: Seq<u8>) -> (Seq<Seq<u8>>, Seq<u8>)
    decreases b.len(),
{
    if b.len() == 0 {
        acc
    } else {
        let a = lines_step(acc, b.drop_last());
        if b.last() == 0x0Au8 {
            (a.0.push(a.1), Seq::empty())
        } else {
            (a.0, a.1.push(b.last()))
        }
    }
}

/// The complete lines of `s` and the bytes after its last line feed.
pub open spec fn split_lines(s: Seq<u8>) -> (Seq<Seq<u8>>, Seq<u8>) {
    lines_step((Seq::empty(), Seq::empty()), s)
}

/// The big-endian unsigned value of `s`.
pub open spec fn be_value(s: Seq<u8>) -> nat
    decreases s.len(),
{
    if s.len() == 0 {
        0
    } else {
        be_value(s.drop_last()) * 256 + s.last() as nat
    }
}

/// `s` with each byte XORed with the mask byte at its position modulo four.
pub open spec fn unmask(s: Seq<u8>, mask: Seq<u8>) -> Seq<u8> {
    Seq::new(s.len(), |i: int| s[i] ^ mask[i % 4])
}

/// The result of reading a WebSocket frame from the front of a buffer.
pub enum FrameParse {
    /// More bytes are needed.
    Incomplete,
    /// Reserved bits are set, or the payload is longer than
    /// [`MAX_WIRE_BUFFER`].
    Malformed,
    /// A complete frame of `len` bytes.
    Frame { fin: bool, opcode: u8, payload: Seq<u8>, len: nat },
}

/// The size of a frame header before the mask: two bytes, or four with a
/// 16-bit length, or ten with a 64-bit length.
pub open spec fn header_len(second: u8) -> nat {
    let len7 = second & 0x7Fu8;
    if len7 <= 125 {
        2
    } else if len7 == 126 {
        4
    } else {
        10
    }
}

/// The payload length that the header at the front of `p` announces.
pub open spec fn announced_len(p: Seq<u8>) -> nat {
    let len7 = p[1] & 0x7Fu8;
    if len7 <= 125 {
        len7 as nat
    } else {
        be_value(p.subrange(2, header_len(p[1]) as int))
    }
}

/// Reads the WebSocket frame at the front of `p`.
pub open spec fn parse_frame(p: Seq<u8>) -> FrameParse {
    if p.len() < 2 {
        FrameParse::Incomplete
    } else if p[0] & 0x70u8 != 0 {
        FrameParse::Malformed
    } else if p.len() < header_len(p[1]) {
        FrameParse::Incomplete
    } else if announced_len(p) > MAX_WIRE_BUFFER {
        FrameParse::Malformed
    } else {
        let hdr = header_len(p[1]);
        let masked = p[1] & 0x80u8 != 0;
        let off = if masked { hdr + 4 } else { hdr };
        let plen = announced_len(p);
        if p.len() < off + plen {
            FrameParse::Incomplete
        } else {
            let body = p.subrange(off as int, (off + plen) as int);
            FrameParse::Frame {
                fin: p[0] & 0x80u8 != 0,
                opcode: p[0] & 0x0Fu8,
                payload: if masked {
                    unmask(body, p.subrange(hdr as int, hdr + 4int))
                } else {
                    body
                },
                len: off + plen,
            }
        }
    }
}

/// What a drain of WebSocket frames produced and left behind.
pub struct Drained {
    pub messages: Seq<Seq<u8>>,
    pub failures: nat,
    pub pending: Seq<u8>,
    pub fragmented: Option<Seq<u8>>,
}

/// The effect of one complete frame: a final text frame is a message, a
/// non-final one starts a fragmented message, continuations extend it (a
/// continuation without a start, an over-long reassembly and an unknown opcode
/// are failures), and binary and control frames are ignored.
pub open spec fn apply_frame(frag: Option<Seq<u8>>, fin: bool, opcode: u8, payload: Seq<u8>) -> (
    Seq<Seq<u8>>,
    nat,
    Option<Seq<u8>>,
) {
    if opcode == 1 {
        if fin {
            (seq![payload], 0, frag)
        } else {
            (Seq::empty(), 0, Some(payload))
        }
    } else if opcode == 0 {
        match frag {
            None => (Seq::empty(), 1, None),
            Some(f) => {
                let g = f + payload;
                if g.len() > MAX_WIRE_BUFFER {
                    (Seq::empty(), 1, None)
                } else if fin {
                    (seq![g], 0, None)
                } else {
                    (Seq::empty(), 0, Some(g))
                }
            },
        }
    } else if opcode == 2 || opcode == 8 || opcode == 9 || opcode == 10 {
        (Seq::empty(), 0, frag)
    } else {
        (Seq::empty(), 1, frag)
    }
}

/// Reads every complete frame at the front of `p`; a malformed frame discards
/// the buffer and stops.
pub open spec fn ws_drain(p: Seq<u8>, frag: Option<Seq<u8>>) -> Drained
    decreases p.len(),
{
    match parse_frame(p) {
        FrameParse::Incomplete => Drained {
            messages: Seq::empty(),
            failures: 0,
            pending: p,
            fragmented: frag,
        },
        FrameParse::Malformed => Drained {
            messages: Seq::empty(),
            failures: 1,
            pending: Seq::empty(),
            fragmented: frag,
        },
        FrameParse::Frame { fin, opcode, payload, len } => {
            if 2 <= len <= p.len() {
                let (m, f, fr) = apply_frame(frag, fin, opcode, payload);
                let rest = ws_drain(p.subrange(len as int, p.len() as int), fr);
                Drained {
                    messages: m + rest.messages,
                    failures: f + rest.failures,
                    pending: rest.pending,
                    fragmented: rest.fragmented,
                }
            } else {
                Drained { messages: Seq::empty(), failures: 0, pending: p, fragmented: frag }
            }
        },
    }
}

/// What feeding bytes to a buffer produces.
pub struct FeedResult {
    pub state: WireState,
    pub messages: Seq<Seq<u8>>,
    pub failures: nat,
}

/// The buffer after `bytes` arrive in state `st`: the framing is detected if
/// still unknown, a completed handshake switches to frames, complete messages
/// are taken out, and a buffer grown past [`MAX_WIRE_BUFFER`] is discarded as
/// one failure.
pub open spec fn feed_spec(st: WireState, bytes: Seq<u8>) -> FeedResult {
    let p0 = st.pending + bytes;
    let mode1 = if st.mode == WireMode::Unknown {
        detect_mode(p0)
    } else {
        st.mode
    };
    let end = find(p0, header_end());
    let upgraded = mode1 == WireMode::WebSocketHandshake && end >= 0;
    let mode2 = if upgraded {
        WireMode::WebSocketFrames
    } else {
        mode1
    };
    let p1 = if upgraded {
        p0.subrange(end + 4, p0.len() as int)
    } else {
        p0
    };
    let d = if mode2 == WireMode::JsonLines {
        let l = split_lines(p1);
        Drained { messages: l.0, failures: 0, pending: l.1, fragmented: st.fragmented }
    } else if mode2 == WireMode::WebSocketFrames {
        ws_drain(p1, st.fragmented)
    } else {
        Drained { messages: Seq::empty(), failures: 0, pending: p1, fragmented: st.fragmented }
    };
    if d.pending.len() > MAX_WIRE_BUFFER {
        FeedResult {
            state: WireState { mode: mode2, pending: Seq::empty(), fragmented: None },
            messages: d.messages,
            failures: d.failures + 1,
        }
    } else {
        FeedResult {
            state: WireState { mode: mode2, pending: d.pending, fragmented: d.fragmented },
            messages: d.messages,
            failures: d.failures,
        }
    }
}

/// The byte contents of a sequence of buffers.
pub open spec fn views(v: Seq<Vec<u8>>) -> Seq<Seq<u8>> {
    v.map_values(|m: Vec<u8>| m@)
}

/// The byte contents of an optional buffer.
pub open spec fn opt_view(o: Option<Vec<u8>>) -> Option<Seq<u8>> {
    match o {
        Some(v) => Some(v@),
        None => None,
    }
}

proof fn lemma_views_push(v: Seq<Vec<u8>>, x: Vec<u8>)
    ensures
        views(v.push(x)) == views(v).push(x@),
{
    assert(views(v.push(x)) =~= views(v).push(x@));
}

/// The header of a WebSocket frame at the front of a buffer.
pub enum FrameHead {
    Incomplete,
    Malformed,
    Frame { fin: bool, opcode: u8, masked: bool, header: usize, offset: usize, len: usize },
}

/// `head` describes the frame at the front of `p` as [`parse_frame`] reads it.
pub open spec fn head_matches(head: FrameHead, p: Seq<u8>) -> bool {
    match parse_frame(p) {
        FrameParse::Incomplete => head is Incomplete,
        FrameParse::Malformed => head is Malformed,
        FrameParse::Frame { fin, opcode, payload, len } => match head {
            FrameHead::Frame { fin: f, opcode: o, masked, header, offset, len: l } => {
                &&& f == fin
                &&& o == opcode
                &&& l == len
                &&& 2 <= header
                &&& header <= offset <= l <= p.len()
                &&& masked ==> header + 4 == offset
                &&& payload == if masked {
                    unmask(p.subrange(offset as int, l as int), p.subrange(header as int, header + 4int))
                } else {
                    p.subrange(offset as int, l as int)
                }
            },
            _ => false,
        },
    }
}

/// The first position of `p` that is not ASCII whitespace.
fn skip_ws_exec(p: &[u8]) -> (r: usize)
    ensures
        r == skip_ws(p@, 0),
        r <= p.len(),
{
    let mut i: usize = 0;
    while i < p.len() && is_ascii_ws(p[i])
        invariant
            i <= p.len(),
            skip_ws(p@, 0) == skip_ws(p@, i as int),
        decreases p.len() - i,
    {
        i = i + 1;
    }
    i
}

/// The framing that the first bytes of a direction announce.
pub fn detect_mode_exec(p: &[u8]) -> (m: WireMode)
    ensures
        m == detect_mode(p@),
{
    let get: [u8; 4] = [0x47u8, 0x45u8, 0x54u8, 0x20u8];
    let http: [u8; 5] = [0x48u8, 0x54u8, 0x54u8, 0x50u8, 0x2Fu8];
    let open_object: [u8; 1] = [0x7Bu8];
    let open_array: [u8; 1] = [0x5Bu8];
    assert(get@ =~= get_prefix());
    assert(http@ =~= http_prefix());
    assert(open_object@ =~= seq![0x7Bu8]);
    assert(open_array@ =~= seq![0x5Bu8]);
    let from = skip_ws_exec(p);
    let start = vstd::slice::slice_subrange(p, from, p.len());
    if starts_with_exec(start, get.as_slice()) || starts_with_exec(start, http.as_slice()) {
        WireMode::WebSocketHandshake
    } else if starts_with_exec(start, open_object.as_slice()) || starts_with_exec(
        start,
        open_array.as_slice(),
    ) || (start.len() >= 5 && !starts_with_exec(get.as_slice(), start) && !starts_with_exec(
        http.as_slice(),
        start,
    )) {
        WireMode::JsonLines
    } else {
        WireMode::Unknown
    }
}

/// The complete lines of `p` and the bytes after its last line feed.
pub fn split_lines_exec(p: &[u8]) -> (r: (Vec<Vec<u8>>, Vec<u8>))
    ensures
        split_lines(p@) == (views(r.0@), r.1@),
{
    let mut lines: Vec<Vec<u8>> = Vec::new();
    let mut start: usize = 0;
    let mut i: usize = 0;
    assert(p@.subrange(0, 0) =~= Seq::<u8>::empty());
    assert(views(lines@) =~= Seq::<Seq<u8>>::empty());
    while i < p.len()
        invariant
            start <= i <= p.len(),
            split_lines(p@.subrange(0, i as int)) == (views(lines@), p@.subrange(
                start as int,
                i as int,
            )),
        decreases p.len() - i,
    {
        let ghost before = p@.subrange(0, i as int);
        assert(p@.subrange(0, i + 1).drop_last() =~= before);
        if p[i] == 0x0Au8 {
            let line = slice_to_vec(vstd::slice::slice_subrange(p, start, i));
            proof {
                lemma_views_push(lines@, line);
            }
            lines.push(line);
            start = i + 1;
            assert(p@.subrange(start as int, i + 1) =~= Seq::<u8>::empty());
        } else {
            assert(p@.subrange(start as int, i as int).push(p@[i as int]) =~= p@.subrange(
                start as int,
                i + 1,
            ));
        }
        i = i + 1;
    }
    assert(p@.subrange(0, p.len() as int) =~= p@);
    let rest = slice_to_vec(vstd::slice::slice_subrange(p, start, p.len()));
    (lines, rest)
}

/// A big-endian value only grows when bytes are appended.
proof fn lemma_be_prefix(s: Seq<u8>, k: int)
    requires
        0 <= k <= s.len(),
    ensures
        be_value(s) >= be_value(s.subrange(0, k)),
    decreases s.len() - k,
{
    if k < s.len() {
        assert(s.drop_last() =~= s.subrange(0, s.len() - 1));
        lemma_be_prefix(s.drop_last(), k);
        assert(s.drop_last().subrange(0, k) =~= s.subrange(0, k));
    } else {
        assert(s.subrange(0, k) =~= s);
    }
}

/// The big-endian value of `p[from..to]`, or `None` when it exceeds
/// [`MAX_WIRE_BUFFER`].
pub fn read_be(p: &[u8], from: usize, to: usize) -> (r: Option<usize>)
    requires
        from <= to <= p.len(),
    ensures
        r is None <==> be_value(p@.subrange(from as int, to as int)) > MAX_WIRE_BUFFER,
        r matches Some(v) ==> v == be_value(p@.subrange(from as int, to as int)),
{
    let mut v: u64 = 0;
    let mut k: usize = from;
    assert(p@.subrange(from as int, from as int) =~= Seq::<u8>::empty());
    while k < to
        invariant
            from <= k <= to <= p.len(),
            v <= MAX_WIRE_BUFFER,
            v == be_value(p@.subrange(from as int, k as int)),
        decreases to - k,
    {
        assert(p@.subrange(from as int, k + 1).drop_last() =~= p@.subrange(from as int, k as int));
        v = v * 256 + p[k] as u64;
        k = k + 1;
        if v > MAX_WIRE_BUFFER as u64 {
            proof {
                let whole = p@.subrange(from as int, to as int);
                lemma_be_prefix(whole, k - from);
                assert(whole.subrange(0, k - from) =~= p@.subrange(from as int, k as int));
            }
            return None;
        }
    }
    Some(v as usize)
}

/// Reads the header of the WebSocket frame at the front of `p`.
pub fn parse_frame_exec(p: &[u8]) -> (r: FrameHead)
    ensures
        head_matches(r, p@),
{
    if p.len() < 2 {
        return FrameHead::Incomplete;
    }
    let first = p[0];
    let second = p[1];
    if first & 0x70u8 != 0 {
        return FrameHead::Malformed;
    }
    let len7 = second & 0x7Fu8;
    let header: usize = if len7 <= 125 {
        2
    } else if len7 == 126 {
        4
    } else {
        10
    };
    if p.len() < header {
        return FrameHead::Incomplete;
    }
    let plen: usize = if len7 <= 125 {
        len7 as usize
    } else {
        match read_be(p, 2, header) {
            None => {
                return FrameHead::Malformed;
            },
            Some(v) => v,
        }
    };
    if plen > MAX_WIRE_BUFFER {
        return FrameHead::Malformed;
    }
    let masked = second & 0x80u8 != 0;
    let offset: usize = if masked {
        header + 4
    } else {
        header
    };
    if p.len() < offset + plen {
        return FrameHead::Incomplete;
    }
    FrameHead::Frame {
        fin: first & 0x80u8 != 0,
        opcode: first & 0x0Fu8,
        masked,
        header,
        offset,
        len: offset + plen,
    }
}

/// The payload of a frame, unmasked when the frame is masked.
fn copy_payload(p: &[u8], masked: bool, header: usize, offset: usize, len: usize) -> (r: Vec<u8>)
    requires
        header <= offset <= len <= p.len(),
        masked ==> header + 4 == offset,
    ensures
        r@ == if masked {
            unmask(p@.subrange(offset as int, len as int), p@.subrange(header as int, header + 4int))
        } else {
            p@.subrange(offset as int, len as int)
        },
{
    let mut out: Vec<u8> = Vec::new();
    let mut i: usize = offset;
    while i < len
        invariant
            header <= offset <= i <= len <= p.len(),
            masked ==> header + 4 == offset,
            out@.len() == i - offset,
            forall|j: int|
                0 <= j < out@.len() ==> out@[j] == if masked {
                    p@[offset + j] ^ p@[header + j % 4]
                } else {
                    p@[offset + j]
                },
        decreases len - i,
    {
        let b = if masked {
            p[i] ^ p[header + (i - offset) % 4]
        } else {
            p[i]
        };
        out.push(b);
        i = i + 1;
    }
    if masked {
        assert(out@ =~= unmask(
            p@.subrange(offset as int, len as int),
            p@.subrange(header as int, header + 4int),
        ));
    } else {
        assert(out@ =~= p@.subrange(offset as int, len as int));
    }
    out
}

impl View for WireBuffer {
    type V = WireState;

    closed spec fn view(&self) -> WireState {
        WireState {
            mode: self.mode,
            pending: self.pending@,
            fragmented: opt_view(self.fragmented_text),
        }
    }
}

impl WireBuffer {
    /// A buffer that has seen no bytes.
    pub fn new() -> (w: WireBuffer)
        ensures
            w@.mode == WireMode::Unknown,
            w@.pending == Seq::<u8>::empty(),
            w@.fragmented is None,
    {
        WireBuffer { mode: WireMode::Unknown, pending: Vec::new(), fragmented_text: None }
    }

    /// Appends `bytes` and takes out every message they complete, with the
    /// number of framing failures met on the way.
    pub fn feed(&mut self, bytes: &[u8]) -> (r: (Vec<Vec<u8>>, usize))
        requires
            old(self)@.pending.len() + bytes@.len() <= usize::MAX,
        ensures
            feed_spec(old(self)@, bytes@) == (FeedResult {
                state: final(self)@,
                messages: views(r.0@),
                failures: r.1 as nat,
            }),
    {
        let mut incoming = slice_to_vec(bytes);
        self.pending.append(&mut incoming);
        let ghost p0 = self.pending@;
        if self.mode == WireMode::Unknown {
            self.mode = detect_mode_exec(self.pending.as_slice());
        }
        let ghost mode1 = self.mode;
        let end_marker: [u8; 4] = [0x0Du8, 0x0Au8, 0x0Du8, 0x0Au8];
        assert(end_marker@ =~= header_end());
        let mut messages: Vec<Vec<u8>> = Vec::new();
        let mut failures: usize = 0;
        if self.mode == WireMode::WebSocketHandshake {
            if let Some(end) = find_subsequence(self.pending.as_slice(), end_marker.as_slice()) {
                let rest = self.pending.split_off(end + 4);
                self.pending = rest;
                self.mode = WireMode::WebSocketFrames;
            }
        }
        let ghost p1 = self.pending@;
        if self.mode == WireMode::JsonLines {
            let (lines, rest) = split_lines_exec(self.pending.as_slice());
            messages = lines;
            self.pending = rest;
        } else if self.mode == WireMode::WebSocketFrames {
            assert(views(messages@) =~= Seq::<Seq<u8>>::empty());
            assert(self.pending@.len() == self.pending.len());
            failures = self.drain_websocket_frames(&mut messages);
            assert(views(messages@) =~= Seq::<Seq<u8>>::empty() + ws_drain(p1, old(self)@.fragmented).messages);
        } else {
            assert(views(messages@) =~= Seq::<Seq<u8>>::empty());
        }
        if self.pending.len() > MAX_WIRE_BUFFER {
            self.pending.clear();
            self.fragmented_text = None;
            failures = failures + 1;
        }
        (messages, failures)
    }

    /// Takes every complete WebSocket frame out of the buffer.
    fn drain_websocket_frames(&mut self, messages: &mut Vec<Vec<u8>>) -> (failures: usize)
        ensures
            ({
                let d = ws_drain(old(self)@.pending, old(self)@.fragmented);
                &&& views(final(messages)@) == views(old(messages)@) + d.messages
                &&& failures == d.failures
                &&& final(self)@.pending == d.pending
                &&& final(self)@.fragmented == d.fragmented
                &&& final(self)@.mode == old(self)@.mode
                &&& failures + final(self)@.pending.len() <= old(self)@.pending.len()
            }),
    {
        let ghost p0 = self.pending@;
        let ghost f0 = opt_view(self.fragmented_text);
        let ghost m0 = views(messages@);
        let mut failures: usize = 0;
        assert(p0.len() == self.pending.len());
        let ghost mut acc: Seq<Seq<u8>> = Seq::empty();
        assert(m0 + acc =~= m0);
        loop
            invariant
                self.mode == old(self).mode,
                p0 == old(self)@.pending,
                f0 == old(self)@.fragmented,
                m0 == views(old(messages)@),
                p0.len() <= usize::MAX,
                failures + self.pending@.len() <= p0.len(),
                views(messages@) == m0 + acc,
                ({
                    let d0 = ws_drain(p0, f0);
                    let d = ws_drain(self.pending@, opt_view(self.fragmented_text));
                    &&& d0.messages == acc + d.messages
                    &&& d0.failures == failures + d.failures
                    &&& d0.pending == d.pending
                    &&& d0.fragmented == d.fragmented
                }),
            decreases self.pending@.len(),
        {
            let head = parse_frame_exec(self.pending.as_slice());
            match head {
                FrameHead::Incomplete => {
                    assert(acc + Seq::<Seq<u8>>::empty() =~= acc);
                    return failures;
                },
                FrameHead::Malformed => {
                    assert(acc + Seq::<Seq<u8>>::empty() =~= acc);
                    self.pending.clear();
                    return failures + 1;
                },
                FrameHead::Frame { fin, opcode, masked, header, offset, len } => {
                    let ghost p = self.pending@;
                    let ghost fr = opt_view(self.fragmented_text);
                    let mut payload = copy_payload(self.pending.as_slice(), masked, header, offset, len);
                    let ghost payload_view = payload@;
                    let mut rest = self.pending.split_off(len);
                    std::mem::swap(&mut self.pending, &mut rest);
                    let ghost before = views(messages@);
                    if opcode == 1 {
                        if fin {
                            proof {
                                lemma_views_push(messages@, payload);
                            }
                            messages.push(payload);
                        } else {
                            self.fragmented_text = Some(payload);
                        }
                    } else if opcode == 0 {
                        match self.fragmented_text.take() {
                            None => {
                                failures = failures + 1;
                            },
                            Some(mut f) => {
                                f.append(&mut payload);
                                if f.len() > MAX_WIRE_BUFFER {
                                    failures = failures + 1;
                                } else if fin {
                                    proof {
                                        lemma_views_push(messages@, f);
                                    }
                                    messages.push(f);
                                } else {
                                    self.fragmented_text = Some(f);
                                }
                            },
                        }
                    } else if opcode == 2 || opcode == 8 || opcode == 9 || opcode == 10 {
                    } else {
                        failures = failures + 1;
                    }
                    proof {
                        let (m, f, fr2) = apply_frame(fr, fin, opcode, payload_view);
                        assert(self.pending@ == p.subrange(len as int, p.len() as int));
                        assert(views(messages@) =~= before + m);
                        assert(m0 + (acc + m) =~= before + m);
                        let d = ws_drain(self.pending@, opt_view(self.fragmented_text));
                        assert(acc + (m + d.messages) =~= (acc + m) + d.messages);
                        acc = acc + m;
                    }
                },
            }
        }
    }
}

} // verus!
