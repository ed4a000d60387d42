//! The JSON-RPC client side of an app-server control socket: the WebSocket
//! handshake check, client and control frames, reading frames and messages,
//! and matching a reply to its request.
use vstd::prelude::*;
use vstd::string::StringSliceAdditionalSpecFns;
use vstd::utf8::encode_utf8;

use crate::bytes::{find, find_subsequence, starts_with, starts_with_exec};
use crate::json::{json_get, json_str, parse_json, parsed_json, JsonValue};
use crate::number::{parse_i64, parse_i64_bytes, parse_unsigned, parse_unsigned_exec};
use crate::protocol::wire::{be_value, read_be, unmask, MAX_WIRE_BUFFER};

verus! {

/// The longest message the client sends or accepts: 64 MiB, above the
/// largest thread history seen in practice.
pub const MAX_MESSAGE_BYTES: usize = 67108864;

/// The longest handshake response accepted.
pub const MAX_UPGRADE_RESPONSE: usize = 16384;

/// The handshake request.
pub fn upgrade_request() -> (r: &'static str)
    ensures
        r@ == "GET / HTTP/1.1\r\nHost: localhost\r\nUpgrade: websocket\r\nConnection: Upgrade\r\nSec-WebSocket-Key: dGhlIHNhbXBsZSBub25jZQ==\r\nSec-WebSocket-Version: 13\r\n\r\n"@,
{
    "GET / HTTP/1.1\r\nHost: localhost\r\nUpgrade: websocket\r\nConnection: Upgrade\r\nSec-WebSocket-Key: dGhlIHNhbXBsZSBub25jZQ==\r\nSec-WebSocket-Version: 13\r\n\r\n"
}

/// `\r\n\r\n`, the end of the handshake response.
pub open spec fn blank_line() -> Seq<u8> {
    seq![0x0Du8, 0x0Au8, 0x0Du8, 0x0Au8]
}

/// The handshake response read so far is complete: it ends with an empty
/// line.
pub open spec fn response_complete(r: Seq<u8>) -> bool {
    r.len() >= 4 && r.subrange(r.len() - 4, r.len() as int) == blank_line()
}

/// Whether the handshake response read so far ends with an empty line.
pub fn upgrade_response_complete(r: &[u8]) -> (b: bool)
    ensures
        b == response_complete(r@),
{
    if r.len() < 4 {
        return false;
    }
    let n = r.len();
    let ok = r[n - 4] == 0x0Du8 && r[n - 3] == 0x0Au8 && r[n - 2] == 0x0Du8 && r[n - 1] == 0x0Au8;
    assert(ok ==> r@.subrange(n - 4, n as int) =~= blank_line());
    assert(r@.subrange(n - 4, n as int) == blank_line() ==> r@.subrange(n - 4, n as int)[0]
        == 0x0Du8 && r@.subrange(n - 4, n as int)[1] == 0x0Au8 && r@.subrange(n - 4, n as int)[2]
        == 0x0Du8 && r@.subrange(n - 4, n as int)[3] == 0x0Au8);
    ok
}

/// A byte in ASCII lower case.
pub open spec fn lower(b: u8) -> u8 {
    if 0x41u8 <= b <= 0x5Au8 {
        (b + 0x20) as u8
    } else {
        b
    }
}

/// Text in ASCII lower case.
pub open spec fn lower_all(s: Seq<u8>) -> Seq<u8> {
    Seq::new(s.len(), |i: int| lower(s[i]))
}

/// `http/1.1 101 `
pub open spec fn switching_status() -> Seq<u8> {
    seq![0x68u8, 0x74u8, 0x74u8, 0x70u8, 0x2Fu8, 0x31u8, 0x2Eu8, 0x31u8, 0x20u8, 0x31u8, 0x30u8, 0x31u8, 0x20u8]
}

/// `sec-websocket-accept: ` and the accept key of the fixed handshake key, in
/// lower case.
pub open spec fn accept_header() -> Seq<u8> {
    seq![
        0x73u8, 0x65u8, 0x63u8, 0x2Du8, 0x77u8, 0x65u8, 0x62u8, 0x73u8, 0x6Fu8, 0x63u8, 0x6Bu8,
        0x65u8, 0x74u8, 0x2Du8, 0x61u8, 0x63u8, 0x63u8, 0x65u8, 0x70u8, 0x74u8, 0x3Au8, 0x20u8,
        0x73u8, 0x33u8, 0x70u8, 0x70u8, 0x6Cu8, 0x6Du8, 0x62u8, 0x69u8, 0x74u8, 0x78u8, 0x61u8,
        0x71u8, 0x39u8, 0x6Bu8, 0x79u8, 0x67u8, 0x7Au8, 0x7Au8, 0x68u8, 0x7Au8, 0x72u8, 0x62u8,
        0x6Bu8, 0x2Bu8, 0x78u8, 0x6Fu8, 0x6Fu8, 0x3Du8,
    ]
}

/// The server accepted the handshake: in lower case, the response starts with
/// `http/1.1 101 ` and names the expected accept key.
pub open spec fn upgrade_ok(response: Seq<u8>) -> bool {
    starts_with(lower_all(response), switching_status()) && find(lower_all(response), accept_header()) >= 0
}

fn switching_status_bytes() -> (r: [u8; 13])
    ensures
        r@ == switching_status(),
{
    let r: [u8; 13] = [0x68u8, 0x74u8, 0x74u8, 0x70u8, 0x2Fu8, 0x31u8, 0x2Eu8, 0x31u8, 0x20u8, 0x31u8, 0x30u8, 0x31u8, 0x20u8];
    assert(r@ =~= switching_status());
    r
}

fn accept_header_bytes() -> (r: [u8; 50])
    ensures
        r@ == accept_header(),
{
    let r: [u8; 50] = [
        0x73u8, 0x65u8, 0x63u8, 0x2Du8, 0x77u8, 0x65u8, 0x62u8, 0x73u8, 0x6Fu8, 0x63u8, 0x6Bu8,
        0x65u8, 0x74u8, 0x2Du8, 0x61u8, 0x63u8, 0x63u8, 0x65u8, 0x70u8, 0x74u8, 0x3Au8, 0x20u8,
        0x73u8, 0x33u8, 0x70u8, 0x70u8, 0x6Cu8, 0x6Du8, 0x62u8, 0x69u8, 0x74u8, 0x78u8, 0x61u8,
        0x71u8, 0x39u8, 0x6Bu8, 0x79u8, 0x67u8, 0x7Au8, 0x7Au8, 0x68u8, 0x7Au8, 0x72u8, 0x62u8,
        0x6Bu8, 0x2Bu8, 0x78u8, 0x6Fu8, 0x6Fu8, 0x3Du8,
    ];
    assert(r@ =~= accept_header());
    r
}

/// Whether the server accepted the handshake.
pub fn upgrade_accepted(response: &str) -> (b: bool)
    ensures
        b == upgrade_ok(response.spec_bytes()),
{
    let r = response.as_bytes();
    let mut low: Vec<u8> = Vec::new();
    let mut i: usize = 0;
    while i < r.len()
        invariant
            i <= r.len(),
            low@ == lower_all(r@.subrange(0, i as int)),
        decreases r.len() - i,
    {
        let b = r[i];
        let l = if 0x41u8 <= b && b <= 0x5Au8 {
            b + 0x20u8
        } else {
            b
        };
        low.push(l);
        assert(low@ =~= lower_all(r@.subrange(0, i + 1)));
        i = i + 1;
    }
    assert(r@.subrange(0, r.len() as int) =~= r@);
    let status = switching_status_bytes();
    let accept = accept_header_bytes();
    starts_with_exec(low.as_slice(), status.as_slice()) && find_subsequence(
        low.as_slice(),
        accept.as_slice(),
    ).is_some()
}

/// A message too long for a frame, or a control payload over 125 bytes.
#[derive(Clone, Copy, Debug, PartialEq, Eq, Structural)]
pub enum SendError {
    /// A request longer than [`MAX_MESSAGE_BYTES`].
    TooLarge,
    /// A control frame payload longer than 125 bytes.
    ControlTooLarge,
}

impl SendError {
    /// The human-readable description of the refusal.
    pub fn message(&self) -> (s: &'static str)
        ensures
            *self == SendError::TooLarge ==> s@ == "control request exceeded message limit"@,
            *self == SendError::ControlTooLarge ==> s@ == "oversized websocket control frame"@,
    {
        match self {
            SendError::TooLarge => "control request exceeded message limit",
            SendError::ControlTooLarge => "oversized websocket control frame",
        }
    }
}

/// The big-endian bytes of `v` in `n` bytes.
pub open spec fn be_bytes(v: nat, n: nat) -> Seq<u8>
    decreases n,
{
    if n == 0 {
        Seq::empty()
    } else {
        be_bytes(v / 256, (n - 1) as nat).push((v % 256) as u8)
    }
}

/// The length field of a client frame: seven bits up to 125, else the marker
/// 126 and 16 bits up to 65535, else the marker 127 and 64 bits.
pub open spec fn length_field(len: nat) -> Seq<u8> {
    if len <= 125 {
        seq![(0x80 + len) as u8]
    } else if len <= 65535 {
        seq![0xFEu8] + be_bytes(len, 2)
    } else {
        seq![0xFFu8] + be_bytes(len, 8)
    }
}

/// The masked final text frame a client sends for `p` with `mask`, when `p`
/// is at most [`MAX_MESSAGE_BYTES`] long.
pub open spec fn client_frame(p: Seq<u8>, mask: Seq<u8>) -> Option<Seq<u8>> {
    if p.len() > MAX_MESSAGE_BYTES {
        None
    } else {
        Some(seq![0x81u8] + length_field(p.len()) + mask + unmask(p, mask))
    }
}

/// The fixed mask of control frames.
pub open spec fn control_mask() -> Seq<u8> {
    seq![0x13u8, 0x57u8, 0x9Bu8, 0xDFu8]
}

/// The masked control frame of `opcode` carrying `p`, when `p` is at most 125
/// bytes long.
pub open spec fn control_frame_bytes(opcode: u8, p: Seq<u8>) -> Option<Seq<u8>> {
    if p.len() > 125 {
        None
    } else {
        Some(seq![(0x80u8 | opcode) as u8, (0x80 + p.len()) as u8] + control_mask() + unmask(p, control_mask()))
    }
}

/// Appends `p` masked with `mask` to `out`.
fn push_masked(out: &mut Vec<u8>, p: &[u8], mask: &[u8; 4])
    ensures
        final(out)@ == old(out)@ + unmask(p@, mask@),
{
    let ghost start = out@;
    let mut i: usize = 0;
    assert(unmask(p@.subrange(0, 0), mask@) =~= Seq::<u8>::empty());
    while i < p.len()
        invariant
            i <= p.len(),
            out@ == start + unmask(p@.subrange(0, i as int), mask@),
        decreases p.len() - i,
    {
        out.push(p[i] ^ mask[i % 4]);
        assert(unmask(p@.subrange(0, i + 1), mask@) =~= unmask(p@.subrange(0, i as int), mask@).push(
            p@[i as int] ^ mask@[(i % 4) as int],
        ));
        i = i + 1;
    }
    assert(p@.subrange(0, p.len() as int) =~= p@);
}

/// Appends the `n` big-endian bytes of `v` to `out`.
fn push_be(out: &mut Vec<u8>, v: u64, n: usize)
    requires
        n <= 8,
    ensures
        final(out)@ == old(out)@ + be_bytes(v as nat, n as nat),
    decreases n,
{
    if n == 0 {
        assert(old(out)@ + be_bytes(v as nat, 0) =~= old(out)@);
        return;
    }
    push_be(out, v / 256, n - 1);
    out.push((v % 256) as u8);
    assert(final(out)@ =~= old(out)@ + be_bytes(v as nat, n as nat));
}

/// Frames a request as a masked final text frame with `mask`.
pub fn client_text_frame(payload: &[u8], mask: [u8; 4]) -> (r: Result<Vec<u8>, SendError>)
    ensures
        r matches Ok(f) ==> client_frame(payload@, mask@) == Some(f@),
        r is Err ==> client_frame(payload@, mask@) is None && r == Err::<Vec<u8>, SendError>(
            SendError::TooLarge,
        ),
{
    let len = payload.len();
    if len > MAX_MESSAGE_BYTES {
        return Err(SendError::TooLarge);
    }
    let mut frame: Vec<u8> = Vec::new();
    frame.push(0x81u8);
    if len <= 125 {
        frame.push((0x80 + len) as u8);
    } else if len <= 65535 {
        frame.push(0xFEu8);
        push_be(&mut frame, len as u64, 2);
    } else {
        frame.push(0xFFu8);
        push_be(&mut frame, len as u64, 8);
    }
    assert(frame@ =~= seq![0x81u8] + length_field(len as nat));
    frame.push(mask[0]);
    frame.push(mask[1]);
    frame.push(mask[2]);
    frame.push(mask[3]);
    assert(frame@ =~= seq![0x81u8] + length_field(len as nat) + mask@);
    push_masked(&mut frame, payload, &mask);
    Ok(frame)
}

/// Frames a control message of `opcode`, masked with the fixed control mask.
pub fn control_frame(opcode: u8, payload: &[u8]) -> (r: Result<Vec<u8>, SendError>)
    ensures
        r matches Ok(f) ==> control_frame_bytes(opcode, payload@) == Some(f@),
        r is Err ==> control_frame_bytes(opcode, payload@) is None && r == Err::<Vec<u8>, SendError>(
            SendError::ControlTooLarge,
        ),
{
    if payload.len() > 125 {
        return Err(SendError::ControlTooLarge);
    }
    let mask: [u8; 4] = [0x13u8, 0x57u8, 0x9Bu8, 0xDFu8];
    let mut frame: Vec<u8> = Vec::new();
    frame.push(0x80u8 | opcode);
    frame.push((0x80 + payload.len()) as u8);
    frame.push(mask[0]);
    frame.push(mask[1]);
    frame.push(mask[2]);
    frame.push(mask[3]);
    assert(mask@ =~= control_mask());
    assert(frame@ =~= seq![(0x80u8 | opcode) as u8, (0x80 + payload@.len()) as u8] + control_mask());
    push_masked(&mut frame, payload, &mask);
    Ok(frame)
}

/// Why a frame or message from the server was refused.
#[derive(Clone, Copy, Debug, PartialEq, Eq, Structural)]
pub enum ReadError {
    /// A reserved header bit was set.
    ReservedBits,
    /// The announced or reassembled length exceeds [`MAX_MESSAGE_BYTES`].
    TooLarge,
    /// The server closed the WebSocket.
    Closed,
    /// The reassembled message is not JSON.
    InvalidJson,
}

impl ReadError {
    /// The human-readable description of the refusal.
    pub fn message(&self) -> (s: &'static str)
        ensures
            *self == ReadError::ReservedBits ==> s@ == "control socket sent websocket frame with reserved bits"@,
            *self == ReadError::TooLarge ==> s@ == "control response exceeded message limit"@,
            *self == ReadError::Closed ==> s@ == "control socket closed websocket"@,
            *self == ReadError::InvalidJson ==> s@ == "control socket returned invalid JSON"@,
    {
        match self {
            ReadError::ReservedBits => "control socket sent websocket frame with reserved bits",
            ReadError::TooLarge => "control response exceeded message limit",
            ReadError::Closed => "control socket closed websocket",
            ReadError::InvalidJson => "control socket returned invalid JSON",
        }
    }
}

/// The first two bytes of a frame, read.
#[derive(Clone, Copy, Debug, PartialEq, Eq, Structural)]
pub struct FrameStart {
    pub fin: bool,
    pub opcode: u8,
    pub masked: bool,
    /// How many length bytes follow: 0, 2 or 8.
    pub extended: usize,
    /// The seven-bit length, meaningful when `extended` is 0.
    pub short_len: usize,
}

/// What the first two bytes of a frame say, unless a reserved bit is set.
pub open spec fn frame_start_of(b0: u8, b1: u8) -> Option<FrameStart> {
    if b0 & 0x70u8 != 0 {
        None
    } else {
        let len7 = b1 & 0x7Fu8;
        Some(
            FrameStart {
                fin: b0 & 0x80u8 != 0,
                opcode: b0 & 0x0Fu8,
                masked: b1 & 0x80u8 != 0,
                extended: if len7 == 126 {
                    2
                } else if len7 == 127 {
                    8
                } else {
                    0
                },
                short_len: len7 as usize,
            },
        )
    }
}

/// Reads the first two bytes of a frame.
pub fn frame_start(b0: u8, b1: u8) -> (r: Result<FrameStart, ReadError>)
    ensures
        r matches Ok(s) ==> frame_start_of(b0, b1) == Some(s),
        r is Err ==> frame_start_of(b0, b1) is None && r == Err::<FrameStart, ReadError>(
            ReadError::ReservedBits,
        ),
{
    if b0 & 0x70u8 != 0 {
        return Err(ReadError::ReservedBits);
    }
    let len7 = b1 & 0x7Fu8;
    Ok(
        FrameStart {
            fin: b0 & 0x80u8 != 0,
            opcode: b0 & 0x0Fu8,
            masked: b1 & 0x80u8 != 0,
            extended: if len7 == 126 {
                2
            } else if len7 == 127 {
                8
            } else {
                0
            },
            short_len: len7 as usize,
        },
    )
}

/// The payload length of a frame that starts with `s` and whose extended
/// length bytes are `ext`, unless it exceeds [`MAX_MESSAGE_BYTES`].
pub open spec fn payload_len_of(s: FrameStart, ext: Seq<u8>) -> Option<nat> {
    let len = if s.extended == 0 {
        s.short_len as nat
    } else {
        be_value(ext)
    };
    if len > MAX_MESSAGE_BYTES {
        None
    } else {
        Some(len)
    }
}

/// The payload length of a frame from its start and extended length bytes.
pub fn payload_length(s: FrameStart, ext: &[u8]) -> (r: Result<usize, ReadError>)
    requires
        s.short_len <= 127,
    ensures
        r matches Ok(n) ==> payload_len_of(s, ext@) == Some(n as nat),
        r is Err ==> payload_len_of(s, ext@) is None && r == Err::<usize, ReadError>(ReadError::TooLarge),
{
    if s.extended == 0 {
        return Ok(s.short_len);
    }
    assert(ext@.subrange(0, ext@.len() as int) =~= ext@);
    match read_be(ext, 0, ext.len()) {
        Some(n) => Ok(n),
        None => Err(ReadError::TooLarge),
    }
}

/// Unmasks a payload in place.
pub fn unmask_payload(payload: &mut Vec<u8>, mask: [u8; 4])
    ensures
        final(payload)@ == unmask(old(payload)@, mask@),
{
    let mut i: usize = 0;
    while i < payload.len()
        invariant
            i <= payload.len(),
            payload@.len() == old(payload)@.len(),
            forall|j: int| 0 <= j < i ==> payload@[j] == old(payload)@[j] ^ mask@[j % 4],
            forall|j: int| i <= j < payload@.len() ==> payload@[j] == old(payload)@[j],
        decreases payload.len() - i,
    {
        let b = payload[i] ^ mask[i % 4];
        payload.set(i, b);
        i = i + 1;
    }
    assert(payload@ =~= unmask(old(payload)@, mask@));
}

/// Reassembles one message from the frames of a reply.
pub struct Assembler {
    fragments: Vec<u8>,
}

/// What a frame did to a message being reassembled.
#[derive(Debug)]
pub enum Assembly {
    /// The message is complete; it is this JSON value.
    Message(JsonValue),
    /// A ping to answer with a pong carrying these bytes.
    Ping(Vec<u8>),
    /// More frames are needed.
    More,
}

/// The view of an assembly step.
pub enum AssemblyView {
    Message(Seq<u8>),
    Ping(Seq<u8>),
    More,
}

/// The effect of a frame on the fragments `frag` gathered so far: a text frame
/// replaces them, a continuation extends non-empty ones, a close ends the
/// reply, a ping is answered, and anything else is ignored; a final text or
/// continuation frame completes the message unless it grew too long.
pub open spec fn assemble(frag: Seq<u8>, fin: bool, opcode: u8, payload: Seq<u8>) -> (
    Seq<u8>,
    Result<AssemblyView, ReadError>,
) {
    if opcode == 8 {
        (frag, Err(ReadError::Closed))
    } else if opcode == 9 {
        (frag, Ok(AssemblyView::Ping(payload)))
    } else if opcode == 1 || (opcode == 0 && frag.len() > 0) {
        let g = if opcode == 1 {
            payload
        } else {
            frag + payload
        };
        if g.len() > MAX_MESSAGE_BYTES {
            (g, Err(ReadError::TooLarge))
        } else if fin {
            (g, Ok(AssemblyView::Message(g)))
        } else {
            (g, Ok(AssemblyView::More))
        }
    } else {
        (frag, Ok(AssemblyView::More))
    }
}

/// The result of taking in a frame whose effect is `step`: a complete
/// message is read with `serde_json::from_slice`, and refused when it is not
/// JSON.
pub open spec fn delivered(r: Result<Assembly, ReadError>, step: Result<AssemblyView, ReadError>) -> bool {
    match step {
        Ok(AssemblyView::Message(g)) => match parsed_json(g) {
            Some(v) => r matches Ok(Assembly::Message(m)) && m == v,
            None => r == Err::<Assembly, ReadError>(ReadError::InvalidJson),
        },
        Ok(AssemblyView::Ping(p)) => r matches Ok(Assembly::Ping(q)) && q@ == p,
        Ok(AssemblyView::More) => r matches Ok(Assembly::More),
        Err(e) => r == Err::<Assembly, ReadError>(e),
    }
}

/// A complete message, read as JSON.
fn deliver(bytes: &[u8]) -> (r: Result<Assembly, ReadError>)
    ensures
        delivered(r, Ok(AssemblyView::Message(bytes@))),
{
    match parse_json(bytes) {
        Some(v) => Ok(Assembly::Message(v)),
        None => Err(ReadError::InvalidJson),
    }
}

impl Assembler {
    /// The fragments gathered so far.
    pub closed spec fn gathered(&self) -> Seq<u8> {
        self.fragments@
    }

    /// An assembler with nothing gathered.
    pub fn new() -> (a: Assembler)
        ensures
            a.gathered() == Seq::<u8>::empty(),
    {
        Assembler { fragments: Vec::new() }
    }

    /// Takes in one frame: the step [`assemble`] describes, with a complete
    /// message read as JSON. After a ping or a frame that leaves the message
    /// incomplete the gathered fragments are those [`assemble`] gives; a
    /// complete message or an error ends the reply.
    pub fn push(&mut self, fin: bool, opcode: u8, payload: Vec<u8>) -> (r: Result<Assembly, ReadError>)
        ensures
            delivered(r, assemble(old(self).gathered(), fin, opcode, payload@).1),
            (r matches Ok(Assembly::More) || r matches Ok(Assembly::Ping(_)))
                ==> final(self).gathered() == assemble(
                old(self).gathered(),
                fin,
                opcode,
                payload@,
            ).0,
    {
        if opcode == 8 {
            return Err(ReadError::Closed);
        }
        if opcode == 9 {
            return Ok(Assembly::Ping(payload));
        }
        if opcode == 1 {
            if payload.len() > MAX_MESSAGE_BYTES {
                return Err(ReadError::TooLarge);
            }
            if fin {
                return deliver(payload.as_slice());
            }
            self.fragments = payload;
            return Ok(Assembly::More);
        }
        if opcode == 0 && self.fragments.len() > 0 {
            if payload.len() > MAX_MESSAGE_BYTES || self.fragments.len() > MAX_MESSAGE_BYTES - payload.len() {
                return Err(ReadError::TooLarge);
            }
            let ghost start = self.fragments@;
            let mut i: usize = 0;
            while i < payload.len()
                invariant
                    i <= payload.len(),
                    self.fragments@ == start + payload@.subrange(0, i as int),
                decreases payload.len() - i,
            {
                self.fragments.push(payload[i]);
                assert(payload@.subrange(0, i + 1) =~= payload@.subrange(0, i as int).push(payload@[i as int]));
                i = i + 1;
            }
            assert(payload@.subrange(0, payload.len() as int) =~= payload@);
            if fin {
                let mut message: Vec<u8> = Vec::new();
                std::mem::swap(&mut message, &mut self.fragments);
                return deliver(message.as_slice());
            }
            return Ok(Assembly::More);
        }
        Ok(Assembly::More)
    }
}

/// The integer a JSON number holds as `u64`, if it is one.
pub open spec fn number_u64(v: Option<JsonValue>) -> Option<nat> {
    match v {
        Some(JsonValue::Number(t)) => parse_unsigned(encode_utf8(t@), u64::MAX as nat),
        _ => None,
    }
}

/// The integer a JSON number holds as `i64`, if it is one.
pub open spec fn number_i64(v: Option<JsonValue>) -> Option<int> {
    match v {
        Some(JsonValue::Number(t)) => parse_i64(encode_utf8(t@)),
        _ => None,
    }
}

/// How a message read from the server relates to the request numbered `id`.
#[derive(Debug)]
pub enum ReplyMatch {
    /// Another message; keep reading.
    Other,
    /// A JSON-RPC error.
    Remote { code: i64, message: String },
    /// A result.
    Answer(JsonValue),
    /// A reply with neither error nor result.
    MissingResult,
}

/// The view of a reply match.
pub enum ReplyView {
    Other,
    Remote(int, Seq<char>),
    Answer(JsonValue),
    MissingResult,
}

/// The view of a reply match.
pub open spec fn reply_view(r: ReplyMatch) -> ReplyView {
    match r {
        ReplyMatch::Other => ReplyView::Other,
        ReplyMatch::Remote { code, message } => ReplyView::Remote(code as int, message@),
        ReplyMatch::Answer(v) => ReplyView::Answer(v),
        ReplyMatch::MissingResult => ReplyView::MissingResult,
    }
}

/// How `msg` answers the request numbered `id`: only a message with that
/// numeric `id` does; its `error` wins over its `result`, with code 0 and a
/// fixed text where the error omits them.
pub open spec fn reply_to(msg: JsonValue, id: u64) -> ReplyView {
    if number_u64(json_get(msg, "id"@)) != Some(id as nat) {
        ReplyView::Other
    } else {
        match json_get(msg, "error"@) {
            Some(e) => ReplyView::Remote(
                match number_i64(json_get(e, "code"@)) {
                    Some(c) => c,
                    None => 0,
                },
                match json_str(json_get(e, "message"@)) {
                    Some(m) => m,
                    None => "unknown JSON-RPC error"@,
                },
            ),
            None => match json_get(msg, "result"@) {
                Some(v) => ReplyView::Answer(v),
                None => ReplyView::MissingResult,
            },
        }
    }
}

/// The `u64` a JSON number holds.
fn as_u64(v: Option<&JsonValue>) -> (r: Option<u64>)
    ensures
        r matches Some(n) ==> number_u64(match v { Some(w) => Some(*w), None => None }) == Some(n as nat),
        r is None ==> number_u64(match v { Some(w) => Some(*w), None => None }) is None,
{
    match v {
        Some(JsonValue::Number(t)) => parse_unsigned_exec(t.as_str().as_bytes(), u64::MAX),
        _ => None,
    }
}

/// The `i64` a JSON number holds.
fn as_i64(v: Option<&JsonValue>) -> (r: Option<i64>)
    ensures
        r matches Some(n) ==> number_i64(match v { Some(w) => Some(*w), None => None }) == Some(n as int),
        r is None ==> number_i64(match v { Some(w) => Some(*w), None => None }) is None,
{
    match v {
        Some(JsonValue::Number(t)) => parse_i64_bytes(t.as_str().as_bytes()),
        _ => None,
    }
}

/// How a message read from the server answers the request numbered `id`.
pub fn classify_reply(msg: JsonValue, id: u64) -> (r: ReplyMatch)
    ensures
        reply_view(r) == reply_to(msg, id),
{
    proof {
        reveal_strlit("id");
        reveal_strlit("error");
        reveal_strlit("code");
        reveal_strlit("message");
        reveal_strlit("result");
    }
    match as_u64(msg.get("id")) {
        Some(n) => {
            if n != id {
                return ReplyMatch::Other;
            }
        },
        None => {
            return ReplyMatch::Other;
        },
    }
    match msg.get("error") {
        Some(e) => {
            let code = match as_i64(e.get("code")) {
                Some(c) => c,
                None => 0,
            };
            let message = match e.get("message") {
                Some(m) => match m.as_str() {
                    Some(t) => t.clone(),
                    None => String::from_str("unknown JSON-RPC error"),
                },
                None => String::from_str("unknown JSON-RPC error"),
            };
            return ReplyMatch::Remote { code, message };
        },
        None => {},
    }
    match msg.take_member("result") {
        Some(v) => ReplyMatch::Answer(v),
        None => ReplyMatch::MissingResult,
    }
}

} // verus!
