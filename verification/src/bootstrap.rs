//! Classification of the SSH original command that Codex Desktop sends: which
//! supported action it asks for, and the eight-byte nonce it expects echoed.
use vstd::prelude::*;
use vstd::string::StringSliceAdditionalSpecFns;

use crate::bytes::{
    count, count_matches, find, find_subsequence, is_ascii_ws, is_ws, lemma_count_find,
    lemma_find_from,
};
use crate::text::{bool_text, decimal, hex, push_bool, push_decimal, push_hex};

verus! {

/// The longest command accepted, in bytes.
pub const MAX_COMMAND_BYTES: usize = 65536;

/// The action a bootstrap command asks for.
#[derive(Clone, Copy, Debug, PartialEq, Eq, Structural)]
pub enum BootstrapAction {
    CodexPathProbe,
    CodexVersionProbe,
    AppServerBootstrap,
    AppServerProxy,
}

/// A classified command: the nonce to echo and the action to take.
#[derive(Clone, Copy, Debug)]
pub struct BootstrapRequest {
    pub nonce: [u8; 8],
    pub action: BootstrapAction,
}

/// The marker counts behind a refusal for not naming exactly one action.
#[derive(Clone, Debug)]
pub struct ActionReport {
    pub path_count: usize,
    pub path_terminal: bool,
    pub version_count: usize,
    pub version_terminal: bool,
    pub bootstrap_count: usize,
    pub proxy_count: usize,
    pub proxy_terminal: bool,
    pub bytes: usize,
    /// The hexadecimal text of at most twelve bytes after the path probe, or
    /// `none`.
    pub path_tail_hex: String,
}

/// Why a command was refused.
#[derive(Clone, Debug)]
pub enum BootstrapError {
    /// Empty, or longer than [`MAX_COMMAND_BYTES`].
    InvalidLength,
    /// Holds a NUL, line feed or carriage return.
    ForbiddenControlByte,
    /// Has no `printf` with `%b`.
    NoNoncePrinter,
    /// Names no supported action, or more than one.
    AmbiguousAction(ActionReport),
    /// Holds no eight-byte octal nonce, or more than one.
    NonceCount,
}

/// The text of an action report.
pub open spec fn report_text(r: ActionReport) -> Seq<char> {
    "expected exactly one supported Codex Desktop SSH action (path="@ + decimal(r.path_count as nat)
        + "/"@ + bool_text(r.path_terminal) + ", version="@ + decimal(r.version_count as nat) + "/"@
        + bool_text(r.version_terminal) + ", bootstrap="@ + decimal(r.bootstrap_count as nat)
        + ", proxy="@ + decimal(r.proxy_count as nat) + "/"@ + bool_text(r.proxy_terminal)
        + ", bytes="@ + decimal(r.bytes as nat) + ", path_tail_hex="@ + r.path_tail_hex@ + ")"@
}

/// The text of a refusal.
pub open spec fn error_text(e: BootstrapError) -> Seq<char> {
    match e {
        BootstrapError::InvalidLength => "bootstrap command length is invalid"@,
        BootstrapError::ForbiddenControlByte => "bootstrap command contains a forbidden control byte"@,
        BootstrapError::NoNoncePrinter => "bootstrap command has no compatible nonce printer"@,
        BootstrapError::AmbiguousAction(r) => report_text(r),
        BootstrapError::NonceCount => "expected exactly one eight-byte octal nonce"@,
    }
}

impl ActionReport {
    /// The description of a command that names no supported action, or more
    /// than one.
    pub fn message(&self) -> (r: String)
        ensures
            r@ == report_text(*self),
    {
        let mut t = String::from_str("expected exactly one supported Codex Desktop SSH action (path=");
        push_decimal(&mut t, self.path_count as u64);
        t.append("/");
        push_bool(&mut t, self.path_terminal);
        t.append(", version=");
        push_decimal(&mut t, self.version_count as u64);
        t.append("/");
        push_bool(&mut t, self.version_terminal);
        t.append(", bootstrap=");
        push_decimal(&mut t, self.bootstrap_count as u64);
        t.append(", proxy=");
        push_decimal(&mut t, self.proxy_count as u64);
        t.append("/");
        push_bool(&mut t, self.proxy_terminal);
        t.append(", bytes=");
        push_decimal(&mut t, self.bytes as u64);
        t.append(", path_tail_hex=");
        t.append(self.path_tail_hex.as_str());
        t.append(")");
        t
    }
}

impl BootstrapError {
    /// The human-readable description of the refusal.
    pub fn message(&self) -> (r: String)
        ensures
            r@ == error_text(*self),
    {
        match self {
            BootstrapError::InvalidLength => String::from_str("bootstrap command length is invalid"),
            BootstrapError::ForbiddenControlByte => String::from_str(
                "bootstrap command contains a forbidden control byte",
            ),
            BootstrapError::NoNoncePrinter => String::from_str(
                "bootstrap command has no compatible nonce printer",
            ),
            BootstrapError::AmbiguousAction(r) => r.message(),
            BootstrapError::NonceCount => String::from_str("expected exactly one eight-byte octal nonce"),
        }
    }
}

/// `exec codex app-server proxy`, the direct proxy command.
pub open spec fn proxy_marker() -> Seq<u8> {
    seq![0x65u8, 0x78u8, 0x65u8, 0x63u8, 0x20u8, 0x63u8, 0x6Fu8, 0x64u8, 0x65u8, 0x78u8, 0x20u8, 0x61u8, 0x70u8, 0x70u8, 0x2Du8, 0x73u8, 0x65u8, 0x72u8, 0x76u8, 0x65u8, 0x72u8, 0x20u8, 0x70u8, 0x72u8, 0x6Fu8, 0x78u8, 0x79u8]
}

/// The probe for a `codex` on the path.
pub open spec fn path_probe_marker() -> Seq<u8> {
    seq![0x69u8, 0x66u8, 0x20u8, 0x63u8, 0x6Fu8, 0x6Du8, 0x6Du8, 0x61u8, 0x6Eu8, 0x64u8, 0x20u8, 0x2Du8, 0x76u8, 0x20u8, 0x63u8, 0x6Fu8, 0x64u8, 0x65u8, 0x78u8, 0x20u8, 0x3Eu8, 0x2Fu8, 0x64u8, 0x65u8, 0x76u8, 0x2Fu8, 0x6Eu8, 0x75u8, 0x6Cu8, 0x6Cu8, 0x20u8, 0x32u8, 0x3Eu8, 0x26u8, 0x31u8, 0x3Bu8, 0x20u8, 0x74u8, 0x68u8, 0x65u8, 0x6Eu8, 0x20u8, 0x65u8, 0x78u8, 0x69u8, 0x74u8, 0x20u8, 0x30u8, 0x3Bu8, 0x20u8, 0x66u8, 0x69u8]
}

/// The version probe.
pub open spec fn version_probe_marker() -> Seq<u8> {
    seq![0x63u8, 0x6Fu8, 0x64u8, 0x65u8, 0x78u8, 0x20u8, 0x2Du8, 0x2Du8, 0x76u8, 0x65u8, 0x72u8, 0x73u8, 0x69u8, 0x6Fu8, 0x6Eu8]
}

/// The variable that the app-server bootstrap script tests.
pub open spec fn bootstrap_marker() -> Seq<u8> {
    seq![0x43u8, 0x4Fu8, 0x44u8, 0x45u8, 0x58u8, 0x5Fu8, 0x53u8, 0x53u8, 0x48u8, 0x5Fu8, 0x53u8, 0x4Bu8, 0x49u8, 0x50u8, 0x5Fu8, 0x41u8, 0x50u8, 0x50u8, 0x5Fu8, 0x53u8, 0x45u8, 0x52u8, 0x56u8, 0x45u8, 0x52u8, 0x5Fu8, 0x42u8, 0x4Fu8, 0x4Fu8, 0x54u8]
}

/// `printf`
pub open spec fn printf_word() -> Seq<u8> {
    seq![0x70u8, 0x72u8, 0x69u8, 0x6Eu8, 0x74u8, 0x66u8]
}

/// `%b`
pub open spec fn percent_b() -> Seq<u8> {
    seq![0x25u8, 0x62u8]
}

/// `; exit 86`, the sentinel after a path probe that found no `codex`.
pub open spec fn exit_86() -> Seq<u8> {
    seq![0x3Bu8, 0x20u8, 0x65u8, 0x78u8, 0x69u8, 0x74u8, 0x20u8, 0x38u8, 0x36u8]
}

/// A quote character: `'` or `"`.
pub open spec fn is_quote(b: u8) -> bool {
    b == 0x27u8 || b == 0x22u8
}

/// A byte that may follow a terminal marker: whitespace or a quote.
pub open spec fn is_tail_byte(b: u8) -> bool {
    is_ws(b) || is_quote(b)
}

/// A byte that the command may not hold: NUL, line feed or carriage return.
pub open spec fn is_forbidden(b: u8) -> bool {
    b == 0u8 || b == 0x0Au8 || b == 0x0Du8
}

/// The position just after the first occurrence of `m` in `s`.
pub open spec fn marker_end(s: Seq<u8>, m: Seq<u8>) -> int {
    find(s, m) + m.len()
}

/// The bytes after the first occurrence of `m` in `s`.
pub open spec fn after_marker(s: Seq<u8>, m: Seq<u8>) -> Seq<u8> {
    s.subrange(marker_end(s, m), s.len() as int)
}

/// `m` occurs once in `s`, and only whitespace and quotes follow it.
pub open spec fn terminal(s: Seq<u8>, m: Seq<u8>) -> bool {
    &&& count(s, m) == 1
    &&& forall|i: int| 0 <= i < after_marker(s, m).len() ==> is_tail_byte(#[trigger] after_marker(s, m)[i])
}

/// The first position at or after `i` of `t` that is not whitespace or a quote.
pub open spec fn trim_lead(t: Seq<u8>, i: int) -> int
    decreases t.len() - i,
{
    if 0 <= i < t.len() && is_tail_byte(t[i]) {
        trim_lead(t, i + 1)
    } else {
        i
    }
}

/// The end of `t[..j]` without its trailing whitespace and quotes.
pub open spec fn trim_trail(t: Seq<u8>, j: int) -> int
    decreases j,
{
    if 0 < j <= t.len() && is_tail_byte(t[j - 1]) {
        trim_trail(t, j - 1)
    } else {
        j
    }
}

/// `t` without leading and trailing whitespace and quotes.
pub open spec fn trimmed(t: Seq<u8>) -> Seq<u8> {
    let a = trim_lead(t, 0);
    if a >= t.len() {
        Seq::empty()
    } else {
        t.subrange(a, trim_trail(t, t.len() as int))
    }
}

/// The path probe: terminal, or followed by nothing but the missing-codex
/// sentinel between whitespace and quotes.
pub open spec fn path_probe(s: Seq<u8>) -> bool {
    terminal(s, path_probe_marker()) || (count(s, path_probe_marker()) == 1 && trimmed(
        after_marker(s, path_probe_marker()),
    ) == exit_86())
}

/// The actions a command names, in a fixed order.
pub open spec fn actions(s: Seq<u8>) -> Seq<BootstrapAction> {
    (if path_probe(s) {
        seq![BootstrapAction::CodexPathProbe]
    } else {
        Seq::empty()
    }) + (if terminal(s, version_probe_marker()) {
        seq![BootstrapAction::CodexVersionProbe]
    } else {
        Seq::empty()
    }) + (if count(s, bootstrap_marker()) > 0 {
        seq![BootstrapAction::AppServerBootstrap]
    } else {
        Seq::empty()
    }) + (if terminal(s, proxy_marker()) {
        seq![BootstrapAction::AppServerProxy]
    } else {
        Seq::empty()
    })
}

/// The number of backslashes from position `i` on.
pub open spec fn slashes(b: Seq<u8>, i: int) -> nat
    decreases b.len() - i,
{
    if 0 <= i < b.len() && b[i] == 0x5Cu8 {
        1 + slashes(b, i + 1)
    } else {
        0
    }
}

/// An octal digit.
pub open spec fn is_octal(d: u8) -> bool {
    0x30u8 <= d <= 0x37u8
}

/// The byte escaped at `off` by `sc` backslashes and three octal digits, when
/// that escape is there and its value fits a byte.
pub open spec fn octal_value(b: Seq<u8>, off: int, sc: int) -> Option<u8> {
    if sc <= 0 || off < 0 || off + sc + 3 > b.len() {
        None
    } else if exists|k: int| off <= k < off + sc && #[trigger] b[k] != 0x5Cu8 {
        None
    } else {
        let d0 = b[off + sc];
        let d1 = b[off + sc + 1];
        let d2 = b[off + sc + 2];
        if !is_octal(d0) || !is_octal(d1) || !is_octal(d2) {
            None
        } else {
            let v = (d0 - 0x30) * 64 + (d1 - 0x30) * 8 + (d2 - 0x30);
            if v > 255 {
                None
            } else {
                Some(v as u8)
            }
        }
    }
}

/// The escaped bytes in a row from `i`, each written with `sc` backslashes,
/// and the position after the last.
pub open spec fn run(b: Seq<u8>, i: int, sc: int) -> (Seq<u8>, int)
    decreases b.len() - i,
{
    match octal_value(b, i, sc) {
        Some(v) => {
            let r = run(b, i + sc + 3, sc);
            (seq![v] + r.0, r.1)
        },
        None => (Seq::empty(), i),
    }
}

/// A run ends after where it starts, and within the bytes.
pub proof fn lemma_run_bounds(b: Seq<u8>, i: int, sc: int)
    requires
        0 <= i <= b.len(),
    ensures
        i <= run(b, i, sc).1 <= b.len(),
        octal_value(b, i, sc) is Some ==> i < run(b, i, sc).1,
    decreases b.len() - i,
{
    if octal_value(b, i, sc) is Some {
        lemma_run_bounds(b, i + sc + 3, sc);
    }
}

/// Every run of exactly eight escaped bytes from position `i` on.
pub open spec fn scan(b: Seq<u8>, i: int) -> Seq<Seq<u8>>
    decreases b.len() - i,
{
    if i < 0 || i >= b.len() {
        Seq::empty()
    } else {
        let sc = slashes(b, i) as int;
        if octal_value(b, i, sc) is None {
            scan(b, i + 1)
        } else {
            proof {
                lemma_run_bounds(b, i, sc);
            }
            let r = run(b, i, sc);
            (if r.0.len() == 8 {
                seq![r.0]
            } else {
                Seq::empty()
            }) + scan(b, r.1)
        }
    }
}

/// The hexadecimal text of at most twelve bytes after the path probe, or
/// `none` without one.
pub open spec fn path_tail_hex(s: Seq<u8>) -> Seq<char> {
    if find(s, path_probe_marker()) < 0 {
        "none"@
    } else {
        let start = marker_end(s, path_probe_marker());
        let end = if start + 12 < s.len() {
            start + 12
        } else {
            s.len() as int
        };
        hex(s.subrange(start, end))
    }
}

/// How a command is classified.
pub enum Outcome {
    Request(Seq<u8>, BootstrapAction),
    InvalidLength,
    ForbiddenControlByte,
    NoNoncePrinter,
    AmbiguousAction,
    NonceCount,
}

/// The classification of command bytes `s`: it must be of acceptable length,
/// free of NUL and line breaks, print its nonce with `printf '%b'`, name
/// exactly one supported action, and hold exactly one eight-byte octal nonce.
pub open spec fn classify(s: Seq<u8>) -> Outcome {
    if s.len() == 0 || s.len() > MAX_COMMAND_BYTES {
        Outcome::InvalidLength
    } else if exists|i: int| 0 <= i < s.len() && is_forbidden(#[trigger] s[i]) {
        Outcome::ForbiddenControlByte
    } else if find(s, printf_word()) < 0 || find(s, percent_b()) < 0 {
        Outcome::NoNoncePrinter
    } else if actions(s).len() != 1 {
        Outcome::AmbiguousAction
    } else if scan(s, 0).len() != 1 {
        Outcome::NonceCount
    } else {
        Outcome::Request(scan(s, 0)[0], actions(s)[0])
    }
}

/// The report holds the marker counts and tail of command bytes `s`.
pub open spec fn reports(r: ActionReport, s: Seq<u8>) -> bool {
    &&& r.path_count == count(s, path_probe_marker())
    &&& r.path_terminal == path_probe(s)
    &&& r.version_count == count(s, version_probe_marker())
    &&& r.version_terminal == terminal(s, version_probe_marker())
    &&& r.bootstrap_count == count(s, bootstrap_marker())
    &&& r.proxy_count == count(s, proxy_marker())
    &&& r.proxy_terminal == terminal(s, proxy_marker())
    &&& r.bytes == s.len()
    &&& r.path_tail_hex@ == path_tail_hex(s)
}

/// `r` is the classification of command bytes `s`.
pub open spec fn classified(r: Result<BootstrapRequest, BootstrapError>, s: Seq<u8>) -> bool {
    match classify(s) {
        Outcome::Request(nonce, action) => r matches Ok(q) && q.nonce@ == nonce && q.action == action,
        Outcome::InvalidLength => r matches Err(BootstrapError::InvalidLength),
        Outcome::ForbiddenControlByte => r matches Err(BootstrapError::ForbiddenControlByte),
        Outcome::NoNoncePrinter => r matches Err(BootstrapError::NoNoncePrinter),
        Outcome::AmbiguousAction => r matches Err(BootstrapError::AmbiguousAction(rep)) && reports(rep, s),
        Outcome::NonceCount => r matches Err(BootstrapError::NonceCount),
    }
}

fn proxy_marker_bytes() -> (r: [u8; 27])
    ensures
        r@ == proxy_marker(),
{
    let r: [u8; 27] = [0x65u8, 0x78u8, 0x65u8, 0x63u8, 0x20u8, 0x63u8, 0x6Fu8, 0x64u8, 0x65u8, 0x78u8, 0x20u8, 0x61u8, 0x70u8, 0x70u8, 0x2Du8, 0x73u8, 0x65u8, 0x72u8, 0x76u8, 0x65u8, 0x72u8, 0x20u8, 0x70u8, 0x72u8, 0x6Fu8, 0x78u8, 0x79u8];
    assert(r@ =~= proxy_marker());
    r
}

fn path_probe_marker_bytes() -> (r: [u8; 52])
    ensures
        r@ == path_probe_marker(),
{
    let r: [u8; 52] = [0x69u8, 0x66u8, 0x20u8, 0x63u8, 0x6Fu8, 0x6Du8, 0x6Du8, 0x61u8, 0x6Eu8, 0x64u8, 0x20u8, 0x2Du8, 0x76u8, 0x20u8, 0x63u8, 0x6Fu8, 0x64u8, 0x65u8, 0x78u8, 0x20u8, 0x3Eu8, 0x2Fu8, 0x64u8, 0x65u8, 0x76u8, 0x2Fu8, 0x6Eu8, 0x75u8, 0x6Cu8, 0x6Cu8, 0x20u8, 0x32u8, 0x3Eu8, 0x26u8, 0x31u8, 0x3Bu8, 0x20u8, 0x74u8, 0x68u8, 0x65u8, 0x6Eu8, 0x20u8, 0x65u8, 0x78u8, 0x69u8, 0x74u8, 0x20u8, 0x30u8, 0x3Bu8, 0x20u8, 0x66u8, 0x69u8];
    assert(r@ =~= path_probe_marker());
    r
}

fn version_probe_marker_bytes() -> (r: [u8; 15])
    ensures
        r@ == version_probe_marker(),
{
    let r: [u8; 15] = [0x63u8, 0x6Fu8, 0x64u8, 0x65u8, 0x78u8, 0x20u8, 0x2Du8, 0x2Du8, 0x76u8, 0x65u8, 0x72u8, 0x73u8, 0x69u8, 0x6Fu8, 0x6Eu8];
    assert(r@ =~= version_probe_marker());
    r
}

fn bootstrap_marker_bytes() -> (r: [u8; 30])
    ensures
        r@ == bootstrap_marker(),
{
    let r: [u8; 30] = [0x43u8, 0x4Fu8, 0x44u8, 0x45u8, 0x58u8, 0x5Fu8, 0x53u8, 0x53u8, 0x48u8, 0x5Fu8, 0x53u8, 0x4Bu8, 0x49u8, 0x50u8, 0x5Fu8, 0x41u8, 0x50u8, 0x50u8, 0x5Fu8, 0x53u8, 0x45u8, 0x52u8, 0x56u8, 0x45u8, 0x52u8, 0x5Fu8, 0x42u8, 0x4Fu8, 0x4Fu8, 0x54u8];
    assert(r@ =~= bootstrap_marker());
    r
}

fn printf_word_bytes() -> (r: [u8; 6])
    ensures
        r@ == printf_word(),
{
    let r: [u8; 6] = [0x70u8, 0x72u8, 0x69u8, 0x6Eu8, 0x74u8, 0x66u8];
    assert(r@ =~= printf_word());
    r
}

fn percent_b_bytes() -> (r: [u8; 2])
    ensures
        r@ == percent_b(),
{
    let r: [u8; 2] = [0x25u8, 0x62u8];
    assert(r@ =~= percent_b());
    r
}

fn exit_86_bytes() -> (r: [u8; 9])
    ensures
        r@ == exit_86(),
{
    let r: [u8; 9] = [0x3Bu8, 0x20u8, 0x65u8, 0x78u8, 0x69u8, 0x74u8, 0x20u8, 0x38u8, 0x36u8];
    assert(r@ =~= exit_86());
    r
}

fn is_tail_byte_exec(b: u8) -> (r: bool)
    ensures
        r == is_tail_byte(b),
{
    is_ascii_ws(b) || b == 0x27u8 || b == 0x22u8
}

/// Whether `s` holds a NUL, line feed or carriage return.
fn has_forbidden_byte(s: &[u8]) -> (r: bool)
    ensures
        r == exists|i: int| 0 <= i < s@.len() && is_forbidden(#[trigger] s@[i]),
{
    let mut i: usize = 0;
    while i < s.len()
        invariant
            i <= s.len(),
            forall|j: int| 0 <= j < i ==> !is_forbidden(#[trigger] s@[j]),
        decreases s.len() - i,
    {
        let b = s[i];
        if b == 0u8 || b == 0x0Au8 || b == 0x0Du8 {
            assert(is_forbidden(s@[i as int]));
            return true;
        }
        i = i + 1;
    }
    false
}

/// The position just after the single occurrence of `m`, when `m` occurs
/// exactly once in `s`.
fn single_marker_end(s: &[u8], m: &[u8]) -> (r: Option<usize>)
    requires
        m.len() > 0,
    ensures
        r is Some <==> count(s@, m@) == 1,
        r matches Some(e) ==> e == marker_end(s@, m@) && e <= s.len(),
{
    if count_matches(s, m) != 1 {
        return None;
    }
    proof {
        lemma_count_find(s@, m@, 0);
    }
    match find_subsequence(s, m) {
        Some(i) => Some(i + m.len()),
        None => None,
    }
}

/// Whether `m` occurs once in `s` and only whitespace and quotes follow it.
fn is_terminal(s: &[u8], m: &[u8]) -> (r: bool)
    requires
        m.len() > 0,
    ensures
        r == terminal(s@, m@),
{
    match single_marker_end(s, m) {
        None => false,
        Some(end) => {
            let ghost tail = after_marker(s@, m@);
            let mut i: usize = end;
            while i < s.len()
                invariant
                    end <= i <= s.len(),
                    count(s@, m@) == 1,
                    tail == after_marker(s@, m@),
                    tail == s@.subrange(end as int, s@.len() as int),
                    forall|j: int| 0 <= j < i - end ==> is_tail_byte(#[trigger] tail[j]),
                decreases s.len() - i,
            {
                if !is_tail_byte_exec(s[i]) {
                    assert(!is_tail_byte(tail[i - end]));
                    return false;
                }
                assert(tail[i - end] == s@[i as int]);
                i = i + 1;
            }
            true
        },
    }
}

/// Whether the bytes `t`, without leading and trailing whitespace and quotes,
/// are `; exit 86`.
fn trims_to_exit_86(t: &[u8]) -> (r: bool)
    ensures
        r == (trimmed(t@) == exit_86()),
{
    let mut a: usize = 0;
    while a < t.len() && is_tail_byte_exec(t[a])
        invariant
            a <= t.len(),
            trim_lead(t@, 0) == trim_lead(t@, a as int),
        decreases t.len() - a,
    {
        a = a + 1;
    }
    if a >= t.len() {
        assert(trim_lead(t@, a as int) == a);
        assert(trimmed(t@).len() == 0);
        assert(exit_86().len() == 9);
        return false;
    }
    let mut z: usize = t.len();
    while z > 0 && is_tail_byte_exec(t[z - 1])
        invariant
            a < z <= t.len(),
            !is_tail_byte(t@[a as int]),
            trim_trail(t@, t@.len() as int) == trim_trail(t@, z as int),
        decreases z,
    {
        z = z - 1;
    }
    assert(trimmed(t@) == t@.subrange(a as int, z as int));
    let sentinel = exit_86_bytes();
    let mid = vstd::slice::slice_subrange(t, a, z);
    if mid.len() != sentinel.len() {
        return false;
    }
    let mut i: usize = 0;
    while i < mid.len()
        invariant
            i <= mid.len(),
            mid.len() == sentinel@.len(),
            mid@ == trimmed(t@),
            sentinel@ == exit_86(),
            forall|j: int| 0 <= j < i ==> mid@[j] == sentinel@[j],
        decreases mid.len() - i,
    {
        if mid[i] != sentinel[i] {
            assert(mid@[i as int] != sentinel@[i as int]);
            return false;
        }
        i = i + 1;
    }
    assert(mid@ =~= sentinel@);
    true
}

/// Whether the command holds the path probe.
fn has_path_probe(s: &[u8]) -> (r: bool)
    ensures
        r == path_probe(s@),
{
    let marker = path_probe_marker_bytes();
    if is_terminal(s, marker.as_slice()) {
        return true;
    }
    match single_marker_end(s, marker.as_slice()) {
        None => false,
        Some(end) => trims_to_exit_86(vstd::slice::slice_subrange(s, end, s.len())),
    }
}

/// The number of backslashes from position `i` on.
fn slashes_exec(b: &[u8], i: usize) -> (r: usize)
    requires
        i <= b.len(),
    ensures
        r == slashes(b@, i as int),
        i + r <= b.len(),
{
    let mut j: usize = i;
    while j < b.len() && b[j] == 0x5Cu8
        invariant
            i <= j <= b.len(),
            slashes(b@, i as int) == (j - i) + slashes(b@, j as int),
        decreases b.len() - j,
    {
        j = j + 1;
    }
    j - i
}

/// The byte escaped at `off` by `sc` backslashes and three octal digits.
fn octal_value_exec(b: &[u8], off: usize, sc: usize) -> (r: Option<u8>)
    ensures
        r == octal_value(b@, off as int, sc as int),
{
    if sc == 0 || off > b.len() || sc > b.len() - off || 3 > b.len() - off - sc {
        return None;
    }
    let mut k: usize = off;
    while k < off + sc
        invariant
            off <= k <= off + sc,
            off + sc + 3 <= b.len(),
            forall|j: int| off <= j < k ==> b@[j] == 0x5Cu8,
        decreases off + sc - k,
    {
        if b[k] != 0x5Cu8 {
            return None;
        }
        k = k + 1;
    }
    let d0 = b[off + sc];
    let d1 = b[off + sc + 1];
    let d2 = b[off + sc + 2];
    if d0 < 0x30u8 || d0 > 0x37u8 || d1 < 0x30u8 || d1 > 0x37u8 || d2 < 0x30u8 || d2 > 0x37u8 {
        return None;
    }
    let v: u32 = (d0 - 0x30u8) as u32 * 64 + (d1 - 0x30u8) as u32 * 8 + (d2 - 0x30u8) as u32;
    if v > 255 {
        None
    } else {
        Some(v as u8)
    }
}

/// Every run of exactly eight escaped bytes in `b`.
fn octal_nonce_candidates(b: &[u8]) -> (r: Vec<[u8; 8]>)
    ensures
        r@.map_values(|n: [u8; 8]| n@) == scan(b@, 0),
{
    let mut found: Vec<[u8; 8]> = Vec::new();
    let mut i: usize = 0;
    assert(found@.map_values(|n: [u8; 8]| n@) + scan(b@, 0) =~= scan(b@, 0));
    while i < b.len()
        invariant
            i <= b.len(),
            found@.map_values(|n: [u8; 8]| n@) + scan(b@, i as int) == scan(b@, 0),
        decreases b.len() - i,
    {
        let sc = slashes_exec(b, i);
        if octal_value_exec(b, i, sc).is_none() {
            i = i + 1;
        } else {
            proof {
                lemma_run_bounds(b@, i as int, sc as int);
            }
            let ghost start = i;
            let mut values: Vec<u8> = Vec::new();
            assert(run(b@, start as int, sc as int).0 =~= values@ + run(b@, i as int, sc as int).0);
            loop
                invariant
                    start <= i <= b.len(),
                    sc == slashes(b@, start as int),
                    run(b@, start as int, sc as int).0 == values@ + run(b@, i as int, sc as int).0,
                    run(b@, start as int, sc as int).1 == run(b@, i as int, sc as int).1,
                ensures
                    values@ == run(b@, start as int, sc as int).0,
                    i == run(b@, start as int, sc as int).1,
                decreases b.len() - i,
            {
                match octal_value_exec(b, i, sc) {
                    Some(v) => {
                        assert(values@.push(v) + run(b@, i + sc + 3, sc as int).0 =~= values@
                            + run(b@, i as int, sc as int).0);
                        values.push(v);
                        i = i + sc + 3;
                    },
                    None => {
                        assert(values@ + run(b@, i as int, sc as int).0 =~= values@);
                        break;
                    },
                }
            }
            assert(values@ =~= run(b@, start as int, sc as int).0);
            let ghost before = found@.map_values(|n: [u8; 8]| n@);
            if values.len() == 8 {
                let nonce: [u8; 8] = [
                    values[0],
                    values[1],
                    values[2],
                    values[3],
                    values[4],
                    values[5],
                    values[6],
                    values[7],
                ];
                assert(nonce@ =~= values@);
                found.push(nonce);
                assert(found@.map_values(|n: [u8; 8]| n@) =~= before.push(values@));
                assert(before + (seq![values@] + scan(b@, i as int)) =~= before.push(values@) + scan(
                    b@,
                    i as int,
                ));
            } else {
                assert(before + (Seq::<Seq<u8>>::empty() + scan(b@, i as int)) =~= before + scan(
                    b@,
                    i as int,
                ));
            }
        }
    }
    assert(found@.map_values(|n: [u8; 8]| n@) + scan(b@, i as int) =~= found@.map_values(
        |n: [u8; 8]| n@,
    ));
    found
}

/// The hexadecimal text of at most twelve bytes after the path probe, or
/// `none`.
fn marker_tail_hex(s: &[u8]) -> (r: String)
    ensures
        r@ == path_tail_hex(s@),
{
    let marker = path_probe_marker_bytes();
    proof {
        lemma_find_from(s@, marker@, 0);
    }
    match find_subsequence(s, marker.as_slice()) {
        None => String::from_str("none"),
        Some(i) => {
            let start = i + marker.len();
            let end = if s.len() - start > 12 {
                start + 12
            } else {
                s.len()
            };
            let mut text = String::new();
            push_hex(&mut text, vstd::slice::slice_subrange(s, start, end));
            assert(text@ =~= hex(s@.subrange(start as int, end as int)));
            text
        },
    }
}

/// Classifies an SSH original command: the supported action it names and the
/// nonce it prints.
pub fn parse_original_command(command: &str) -> (r: Result<BootstrapRequest, BootstrapError>)
    ensures
        classified(r, command.spec_bytes()),
{
    let s = command.as_bytes();
    if s.len() == 0 || s.len() > MAX_COMMAND_BYTES {
        return Err(BootstrapError::InvalidLength);
    }
    if has_forbidden_byte(s) {
        return Err(BootstrapError::ForbiddenControlByte);
    }
    let printf = printf_word_bytes();
    let percent = percent_b_bytes();
    if find_subsequence(s, printf.as_slice()).is_none() || find_subsequence(
        s,
        percent.as_slice(),
    ).is_none() {
        return Err(BootstrapError::NoNoncePrinter);
    }
    let path_marker = path_probe_marker_bytes();
    let version_marker = version_probe_marker_bytes();
    let boot_marker = bootstrap_marker_bytes();
    let proxy = proxy_marker_bytes();
    let path_terminal = has_path_probe(s);
    let version_terminal = is_terminal(s, version_marker.as_slice());
    let bootstrap_count = count_matches(s, boot_marker.as_slice());
    let proxy_terminal = is_terminal(s, proxy.as_slice());
    let mut actions_found: Vec<BootstrapAction> = Vec::new();
    if path_terminal {
        actions_found.push(BootstrapAction::CodexPathProbe);
    }
    if version_terminal {
        actions_found.push(BootstrapAction::CodexVersionProbe);
    }
    if bootstrap_count > 0 {
        actions_found.push(BootstrapAction::AppServerBootstrap);
    }
    if proxy_terminal {
        actions_found.push(BootstrapAction::AppServerProxy);
    }
    assert(actions_found@ =~= actions(s@));
    if actions_found.len() != 1 {
        return Err(
            BootstrapError::AmbiguousAction(
                ActionReport {
                    path_count: count_matches(s, path_marker.as_slice()),
                    path_terminal,
                    version_count: count_matches(s, version_marker.as_slice()),
                    version_terminal,
                    bootstrap_count,
                    proxy_count: count_matches(s, proxy.as_slice()),
                    proxy_terminal,
                    bytes: s.len(),
                    path_tail_hex: marker_tail_hex(s),
                },
            ),
        );
    }
    let candidates = octal_nonce_candidates(s);
    if candidates.len() != 1 {
        return Err(BootstrapError::NonceCount);
    }
    assert(candidates@.map_values(|n: [u8; 8]| n@)[0] == candidates@[0]@);
    Ok(BootstrapRequest { nonce: candidates[0], action: actions_found[0] })
}


/// A marker is terminal exactly when it occurs once and nothing follows it
/// but spaces, tabs, line feeds, form feeds, carriage returns, single quotes
/// and double quotes (so a quoted command may close after it).
pub proof fn lemma_terminal_tail_bytes(s: Seq<u8>, m: Seq<u8>)
    ensures
        terminal(s, m) <==> count(s, m) == 1 && forall|i: int|
            0 <= i < after_marker(s, m).len() ==> {
                let b = #[trigger] after_marker(s, m)[i];
                b == 0x20u8 || b == 0x09u8 || b == 0x0Au8 || b == 0x0Cu8 || b == 0x0Du8 || b == 0x27u8
                    || b == 0x22u8
            },
{
}

/// The direct proxy command closed by a double quote and whitespace is named
/// by the command: such a command asks for the proxy.
pub proof fn lemma_quoted_proxy_is_named(s: Seq<u8>, tail: Seq<u8>)
    requires
        count(s, proxy_marker()) == 1,
        after_marker(s, proxy_marker()) == tail,
        forall|i: int| 0 <= i < tail.len() ==> #[trigger] tail[i] == 0x22u8 || tail[i] == 0x20u8
            || tail[i] == 0x0Au8,
    ensures
        actions(s).contains(BootstrapAction::AppServerProxy),
{
    lemma_terminal_tail_bytes(s, proxy_marker());
    assert(actions(s).last() == BootstrapAction::AppServerProxy);
}


/// `sc` backslashes.
pub open spec fn backslashes(sc: nat) -> Seq<u8> {
    Seq::new(sc, |i: int| 0x5Cu8)
}

/// The byte `v` written as `printf '%b'` reads it: `sc` backslashes and its
/// three octal digits, most significant first.
pub open spec fn octal_escape(v: u8, sc: nat) -> Seq<u8> {
    backslashes(sc) + seq![(0x30 + v / 64) as u8, (0x30 + (v / 8) % 8) as u8, (0x30 + v % 8) as u8]
}

/// The bytes of `n`, each written as an octal escape with `sc` backslashes.
pub open spec fn octal_escapes(n: Seq<u8>, sc: nat) -> Seq<u8>
    decreases n.len(),
{
    if n.len() == 0 {
        Seq::empty()
    } else {
        octal_escape(n[0], sc) + octal_escapes(n.drop_first(), sc)
    }
}

/// Every byte's octal escape, with any positive number of backslashes, reads
/// back as that byte, wherever it stands.
pub proof fn lemma_octal_escape_reads_back(pre: Seq<u8>, v: u8, sc: nat, post: Seq<u8>)
    requires
        sc >= 1,
    ensures
        octal_value(pre + octal_escape(v, sc) + post, pre.len() as int, sc as int) == Some(v),
{
    let b = pre + octal_escape(v, sc) + post;
    let off = pre.len() as int;
    assert forall|k: int| off <= k < off + sc implies #[trigger] b[k] == 0x5Cu8 by {
        assert(b[k] == octal_escape(v, sc)[k - off]);
        assert(octal_escape(v, sc)[k - off] == backslashes(sc)[k - off]);
    }
    assert(b[off + sc] == (0x30 + v / 64) as u8);
    assert(b[off + sc + 1] == (0x30 + (v / 8) % 8) as u8);
    assert(b[off + sc + 2] == (0x30 + v % 8) as u8);
    assert((v / 64) * 64 + ((v / 8) % 8) * 8 + v % 8 == v) by (nonlinear_arith);
    assert(v / 64 <= 3) by (nonlinear_arith);
}

proof fn lemma_run_shift(pre: Seq<u8>, b: Seq<u8>, i: int, sc: int)
    requires
        0 <= i <= b.len(),
        sc >= 1,
    ensures
        run(pre + b, pre.len() + i, sc) == (run(b, i, sc).0, run(b, i, sc).1 + pre.len()),
    decreases b.len() - i,
{
    let c = pre + b;
    let j = pre.len() + i;
    assert(octal_value(c, j, sc) == octal_value(b, i, sc)) by {
        if sc > 0 && i + sc + 3 <= b.len() {
            assert forall|k: int| j <= k < j + sc implies #[trigger] c[k] == b[k - pre.len()] by {}
            assert((exists|k: int| j <= k < j + sc && #[trigger] c[k] != 0x5Cu8) == (exists|k: int|
                i <= k < i + sc && #[trigger] b[k] != 0x5Cu8)) by {
                if exists|k: int| j <= k < j + sc && #[trigger] c[k] != 0x5Cu8 {
                    let k = choose|k: int| j <= k < j + sc && #[trigger] c[k] != 0x5Cu8;
                    assert(b[k - pre.len()] != 0x5Cu8);
                }
                if exists|k: int| i <= k < i + sc && #[trigger] b[k] != 0x5Cu8 {
                    let k = choose|k: int| i <= k < i + sc && #[trigger] b[k] != 0x5Cu8;
                    assert(c[k + pre.len()] == b[k]);
                }
            }
            assert(c[j + sc] == b[i + sc]);
            assert(c[j + sc + 1] == b[i + sc + 1]);
            assert(c[j + sc + 2] == b[i + sc + 2]);
        }
    }
    if octal_value(b, i, sc) is Some {
        lemma_run_shift(pre, b, i + sc + 3, sc);
    }
}

/// A nonce written as octal escapes, each with `sc` backslashes, reads back
/// as that nonce, ending after the last escape.
pub proof fn lemma_octal_escapes_read_back(n: Seq<u8>, sc: nat)
    requires
        sc >= 1,
    ensures
        run(octal_escapes(n, sc), 0, sc as int) == (n, (n.len() * (sc + 3)) as int),
        octal_escapes(n, sc).len() == n.len() * (sc + 3),
    decreases n.len(),
{
    if n.len() == 0 {
        assert(octal_value(octal_escapes(n, sc), 0, sc as int) is None);
    } else {
        let e = octal_escape(n[0], sc);
        let rest = octal_escapes(n.drop_first(), sc);
        lemma_octal_escapes_read_back(n.drop_first(), sc);
        lemma_octal_escape_reads_back(Seq::empty(), n[0], sc, rest);
        assert(Seq::<u8>::empty() + e + rest =~= e + rest);
        lemma_run_shift(e, rest, 0, sc as int);
        assert(e.len() == sc + 3);
        assert(seq![n[0]] + n.drop_first() =~= n);
        assert((n.len() - 1) * (sc + 3) + (sc + 3) == n.len() * (sc + 3)) by (nonlinear_arith);
    }
}

} // verus!
