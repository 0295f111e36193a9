//! The decisions of a register operation and of a generic text command.
//!
//! The caller sends the command, then hands each received message to an
//! exchange, which says whether the operation is complete, what to print, or
//! why it failed. A register operation completes only once the command is
//! acknowledged and the requested card has reported the requested register.
use vstd::prelude::*;
use vstd::slice::slice_subrange;
use vstd::string::StringSliceAdditionalSpecFns;
use vstd::utf8::{decode_utf8, valid_utf8};
use crate::protocol::{frame, head, Head, Message, MAX_COMMAND_BYTES, MAX_SLOT};
use vstd::utf8::encode_utf8;
use crate::text::{
    dec, digit_value, from_radix, hex, hex2, is_white_space, lemma_digits_no_white_space,
    lemma_digits_read_back, lemma_leading_zeros, lemma_split_space, lemma_split_word,
    lemma_words_trailing_white_space, no_white_space, push_dec, push_hex, push_hex2, push_str,
    radix_value, same_chars, split_words, views, words, zeros,
};

verus! {

broadcast use vstd::string::group_string_axioms;

#[verifier::external_type_specification]
#[verifier::external_body]
pub struct ExUtf8Error(core::str::Utf8Error);

/// Why a register operation or a text command failed.
#[derive(Debug)]
pub enum SessionError {
    /// The acknowledgement carried code 1.
    Unsupported,
    /// The acknowledgement carried another nonzero code.
    Rejected(u8),
    /// The acknowledgement payload is not a single byte.
    MalformedAcknowledgement,
    /// Printed output lacks its terminating NUL.
    MissingNul,
    /// Printed output holds a NUL before its end.
    EmbeddedNul,
    /// Printed output is not UTF-8.
    InvalidUtf8(core::str::Utf8Error),
    /// A `Register` line that does not read `Register 0x<a> = 0x<v>`.
    MalformedRegister(String),
    /// The command was never acknowledged.
    NoAcknowledgement,
    /// The command was acknowledged, but the register was never reported.
    RegisterTimeout { address: u32, last_text: Option<String> },
    /// A write read back another value than the one requested.
    ReadbackMismatch { address: u32, requested: u8, observed: u8 },
    /// The next poll would start beyond the clock's range.
    DurationTooLarge,
}

/// The text that `{:?}` prints for a string: quoted, with std's escapes.
pub uninterp spec fn debug_str(text: Seq<char>) -> Seq<char>;

/// Formats a string with `{:?}` (the `Debug` impl of `str`). Claims only
/// that the result is a function of the text, named `debug_str`.
#[verifier::external_body]
fn debug_quote(text: &str) -> (r: String)
    ensures
        r@ == debug_str(text@),
{
    format!("{text:?}")
}

/// Formats a UTF-8 error with its `Display` impl; nothing is claimed of the text.
#[verifier::external_body]
fn utf8_error_text(e: &core::str::Utf8Error) -> String {
    e.to_string()
}

/// Reads bytes as UTF-8 (`std::str::from_utf8`). Claims, as std documents,
/// that it succeeds exactly on valid UTF-8 and then returns a string slice
/// over those same bytes.
#[verifier::external_body]
fn utf8_str(bytes: &[u8]) -> (r: Result<&str, core::str::Utf8Error>)
    ensures
        r is Ok <==> valid_utf8(bytes@),
        r matches Ok(s) ==> s.spec_bytes() == bytes@,
{
    std::str::from_utf8(bytes)
}

pub open spec fn timeout_detail(last_text: Option<String>) -> Seq<char> {
    match last_text {
        Some(t) => "; last device output: "@ + debug_str(t@),
        None => Seq::empty(),
    }
}

impl SessionError {
    /// The message that reports the error; for invalid UTF-8 it is std's text.
    pub open spec fn spec_message(&self) -> Option<Seq<char>> {
        match self {
            SessionError::Unsupported => Some("device does not support the command interface"@),
            SessionError::Rejected(code) => Some(
                "device rejected command request with code "@ + dec(*code as nat),
            ),
            SessionError::MalformedAcknowledgement => Some("malformed command acknowledgement"@),
            SessionError::MissingNul => Some("printed output is missing its terminating NUL"@),
            SessionError::EmbeddedNul => Some("printed output contains an embedded NUL"@),
            SessionError::InvalidUtf8(_) => None,
            SessionError::MalformedRegister(text) => Some(
                "malformed register output: "@ + debug_str(text@),
            ),
            SessionError::NoAcknowledgement => Some(
                "timed out waiting for command acknowledgement"@,
            ),
            SessionError::RegisterTimeout { address, last_text } => Some(
                "timed out waiting for register 0x"@ + hex(*address as nat) + timeout_detail(
                    *last_text,
                ),
            ),
            SessionError::ReadbackMismatch { address, requested, observed } => Some(
                "readback mismatch at address 0x"@ + hex(*address as nat) + ": requested 0x"@
                    + hex2(*requested as nat) + ", read 0x"@ + hex2(*observed as nat),
            ),
            SessionError::DurationTooLarge => Some("duration is too large"@),
        }
    }

    /// The message that reports the error.
    pub fn message(&self) -> (m: String)
        ensures
            self.spec_message() matches Some(s) ==> m@ == s,
    {
        match self {
            SessionError::Unsupported => "device does not support the command interface".to_string(),
            SessionError::Rejected(code) => {
                let mut m = "device rejected command request with code ".to_string();
                push_dec(&mut m, *code as u64);
                m
            },
            SessionError::MalformedAcknowledgement => "malformed command acknowledgement".to_string(),
            SessionError::MissingNul => "printed output is missing its terminating NUL".to_string(),
            SessionError::EmbeddedNul => "printed output contains an embedded NUL".to_string(),
            SessionError::InvalidUtf8(e) => utf8_error_text(e),
            SessionError::MalformedRegister(text) => {
                let mut m = "malformed register output: ".to_string();
                let q = debug_quote(text.as_str());
                push_str(&mut m, q.as_str());
                m
            },
            SessionError::NoAcknowledgement => "timed out waiting for command acknowledgement".to_string(),
            SessionError::RegisterTimeout { address, last_text } => {
                let mut m = "timed out waiting for register 0x".to_string();
                push_hex(&mut m, *address as u64);
                match last_text {
                    Some(t) => {
                        push_str(&mut m, "; last device output: ");
                        let q = debug_quote(t.as_str());
                        push_str(&mut m, q.as_str());
                    },
                    None => {
                        assert(m@ =~= m@ + Seq::<char>::empty());
                    },
                }
                m
            },
            SessionError::ReadbackMismatch { address, requested, observed } => {
                let mut m = "readback mismatch at address 0x".to_string();
                push_hex(&mut m, *address as u64);
                push_str(&mut m, ": requested 0x");
                push_hex2(&mut m, *requested);
                push_str(&mut m, ", read 0x");
                push_hex2(&mut m, *observed);
                m
            },
            SessionError::DurationTooLarge => "duration is too large".to_string(),
        }
    }
}

/// Whether an acknowledgement payload accepts the command, and if not, whether
/// `e` is the error that reports it.
pub open spec fn acknowledges(p: Seq<u8>) -> bool {
    p.len() == 1 && p[0] == 0
}

pub open spec fn is_ack_error(e: SessionError, p: Seq<u8>) -> bool {
    if p.len() != 1 {
        e is MalformedAcknowledgement
    } else if p[0] == 1 {
        e is Unsupported
    } else {
        p[0] != 0 && e == SessionError::Rejected(p[0])
    }
}

/// Checks a command acknowledgement: the single byte 0 accepts the command.
pub fn acknowledgement(payload: &[u8]) -> (r: Result<(), SessionError>)
    ensures
        r is Ok <==> acknowledges(payload@),
        r matches Err(e) ==> is_ack_error(e, payload@),
{
    if payload.len() != 1 {
        Err(SessionError::MalformedAcknowledgement)
    } else if payload[0] == 0 {
        Ok(())
    } else if payload[0] == 1 {
        Err(SessionError::Unsupported)
    } else {
        Err(SessionError::Rejected(payload[0]))
    }
}

/// The text of printed output: the payload must end in its only NUL and the
/// bytes before it must be UTF-8.
pub open spec fn printed(p: Seq<u8>) -> Option<Seq<char>> {
    if p.len() > 0 && p.last() == 0 && !p.drop_last().contains(0) && valid_utf8(p.drop_last()) {
        Some(decode_utf8(p.drop_last()))
    } else {
        None
    }
}

pub open spec fn is_print_error(e: SessionError, p: Seq<u8>) -> bool {
    if p.len() == 0 || p.last() != 0 {
        e is MissingNul
    } else if p.drop_last().contains(0) {
        e is EmbeddedNul
    } else {
        !valid_utf8(p.drop_last()) && e is InvalidUtf8
    }
}

/// Reads the text of printed output.
pub fn printed_text(payload: &[u8]) -> (r: Result<&str, SessionError>)
    ensures
        r is Ok <==> printed(payload@) is Some,
        r matches Ok(s) ==> printed(payload@) == Some(s@) && s.spec_bytes() == payload@.drop_last(),
        r matches Err(e) ==> is_print_error(e, payload@),
{
    let n = payload.len();
    if n == 0 || payload[n - 1] != 0 {
        return Err(SessionError::MissingNul);
    }
    let body = slice_subrange(payload, 0, n - 1);
    assert(body@ =~= payload@.drop_last());
    for i in 0..body.len()
        invariant
            payload@.len() > 0,
            payload@.last() == 0,
            body@ == payload@.drop_last(),
            forall|j: int| 0 <= j < i ==> body@[j] != 0,
    {
        if body[i] == 0 {
            assert(body@.contains(0)) by {
                assert(body@[i as int] == 0);
            }
            return Err(SessionError::EmbeddedNul);
        }
    }
    match utf8_str(body) {
        Ok(s) => {
            proof {
                vstd::utf8::encode_utf8_decode_utf8(s@);
            }
            Ok(s)
        },
        Err(e) => Err(SessionError::InvalidUtf8(e)),
    }
}

/// A hexadecimal word of a register report: `0x` and what `from_str_radix`
/// reads in radix 16, at most `max`.
pub open spec fn hex_word(w: Seq<char>, max: nat) -> Option<nat> {
    if w.len() >= 2 && w[0] == '0' && w[1] == 'x' {
        radix_value(w.skip(2), 16, max)
    } else {
        None
    }
}

/// How a line of printed output reads as a register report: `Ok(None)` for a
/// line that does not start with the word `Register`, `Ok(Some((a, v)))` for
/// `Register 0x<a> = 0x<v>` with a 32-bit address and a byte value, and
/// `Err(())` for any other line that starts with `Register`.
pub open spec fn register_report(text: Seq<char>) -> Result<Option<(u32, u8)>, ()> {
    let w = words(text);
    if w.len() == 0 || w[0] != "Register"@ {
        Ok(None)
    } else if w.len() == 4 && w[2] == "="@ && hex_word(w[1], u32::MAX as nat) is Some && hex_word(
        w[3],
        0xff,
    ) is Some {
        Ok(
            Some(
                (
                    hex_word(w[1], u32::MAX as nat).unwrap() as u32,
                    hex_word(w[3], 0xff).unwrap() as u8,
                ),
            ),
        )
    } else {
        Err(())
    }
}

fn hex_word_exec(w: &Vec<char>, max: u64) -> (r: Option<u64>)
    requires
        max <= u32::MAX,
    ensures
        match r {
            Some(v) => hex_word(w@, max as nat) == Some(v as nat),
            None => hex_word(w@, max as nat) is None,
        },
{
    if w.len() >= 2 && w[0] == '0' && w[1] == 'x' {
        from_radix(w, 2, 16, max)
    } else {
        None
    }
}

/// Reads a line of printed output as a register report.
pub fn parse_register(text: &str) -> (r: Result<Option<(u32, u8)>, SessionError>)
    ensures
        match r {
            Ok(report) => register_report(text@) == Ok::<Option<(u32, u8)>, ()>(report),
            Err(e) => register_report(text@) is Err && (e matches SessionError::MalformedRegister(t)
                && t@ == text@),
        },
{
    let w = split_words(text);
    assert(views(w@).len() == w@.len());
    if w.len() == 0 {
        return Ok(None);
    }
    assert(views(w@)[0] == w@[0]@);
    if !same_chars(&w[0], "Register") {
        return Ok(None);
    }
    if w.len() != 4 || !same_chars(&w[2], "=") {
        if w.len() == 4 {
            assert(views(w@)[2] == w@[2]@);
        }
        return Err(SessionError::MalformedRegister(text.to_string()));
    }
    assert(views(w@)[1] == w@[1]@ && views(w@)[2] == w@[2]@ && views(w@)[3] == w@[3]@);
    let address = hex_word_exec(&w[1], 0xffff_ffff);
    let value = hex_word_exec(&w[3], 0xff);
    match (address, value) {
        (Some(a), Some(v)) => Ok(Some((a as u32, v as u8))),
        _ => Err(SessionError::MalformedRegister(text.to_string())),
    }
}

/// The command that reads a register: `fpgarr 0x<address>`.
pub fn read_command(address: u32) -> (c: String)
    ensures
        c@ == "fpgarr 0x"@ + hex(address as nat),
{
    let mut c = "fpgarr 0x".to_string();
    push_hex(&mut c, address as u64);
    c
}

/// The command that writes a register: `fpgarw 0x<address> 0x<value>`.
pub fn write_command(address: u32, value: u8) -> (c: String)
    ensures
        c@ == "fpgarw 0x"@ + hex(address as nat) + " 0x"@ + hex(value as nat),
{
    let mut c = "fpgarw 0x".to_string();
    push_hex(&mut c, address as u64);
    push_str(&mut c, " 0x");
    push_hex(&mut c, value as u64);
    c
}

/// Checks the value that a write read back.
pub fn check_readback(address: u32, requested: u8, observed: u8) -> (r: Result<(), SessionError>)
    ensures
        r is Ok <==> requested == observed,
        r matches Err(e) ==> e == (SessionError::ReadbackMismatch { address, requested, observed }),
{
    if observed != requested {
        return Err(SessionError::ReadbackMismatch { address, requested, observed });
    }
    Ok(())
}

/// What a polling read does after one read: stop, or start the next read
/// once the clock reaches the given time, in nanoseconds.
#[derive(Debug, PartialEq, Eq, Structural)]
pub enum PollStep {
    Stop,
    WaitUntil(u64),
}

/// A poll interval, given as seconds and nanoseconds, in nanoseconds.
pub open spec fn interval_ns(interval: (u64, u32)) -> int {
    interval.0 * 1_000_000_000 + interval.1
}

/// The step after a read that started at `started_ns`: `None` where the next
/// start lies beyond the clock's range. Polling stops after a failed read
/// and when no interval was given; otherwise the next read starts one
/// interval after this one started, whenever this one ended.
pub open spec fn poll_step(poll: Option<(u64, u32)>, started_ns: u64, read_ok: bool) -> Option<
    PollStep,
> {
    match poll {
        Some(interval) => if !read_ok {
            Some(PollStep::Stop)
        } else if started_ns + interval_ns(interval) <= u64::MAX {
            Some(PollStep::WaitUntil((started_ns + interval_ns(interval)) as u64))
        } else {
            None
        },
        None => Some(PollStep::Stop),
    }
}

/// Decides what follows a read of a polling operation that started at
/// `started_ns` on the caller's clock.
pub fn next_poll(poll: Option<(u64, u32)>, started_ns: u64, read_ok: bool) -> (s: Result<
    PollStep,
    SessionError,
>)
    ensures
        match poll_step(poll, started_ns, read_ok) {
            Some(step) => s == Ok::<PollStep, SessionError>(step),
            None => s matches Err(SessionError::DurationTooLarge),
        },
        !read_ok || poll is None ==> s == Ok::<PollStep, SessionError>(PollStep::Stop),
        poll matches Some((sec, ns)) ==> (read_ok && started_ns + sec * 1_000_000_000 + ns
            <= u64::MAX ==> s == Ok::<PollStep, SessionError>(
            PollStep::WaitUntil((started_ns + sec * 1_000_000_000 + ns) as u64),
        )),
        poll matches Some((sec, ns)) ==> (read_ok && started_ns + sec * 1_000_000_000 + ns
            > u64::MAX ==> s matches Err(SessionError::DurationTooLarge)),
{
    match poll {
        None => Ok(PollStep::Stop),
        Some((seconds, nanoseconds)) => {
            if !read_ok {
                return Ok(PollStep::Stop);
            }
            let whole = match seconds.checked_mul(1_000_000_000) {
                Some(w) => w,
                None => return Err(SessionError::DurationTooLarge),
            };
            let length = match whole.checked_add(nanoseconds as u64) {
                Some(l) => l,
                None => return Err(SessionError::DurationTooLarge),
            };
            match started_ns.checked_add(length) {
                Some(t) => Ok(PollStep::WaitUntil(t)),
                None => Err(SessionError::DurationTooLarge),
            }
        },
    }
}

/// After a successful read, polling goes on for as long as the clock can
/// hold the next start: the next read is due exactly one interval (its
/// seconds and nanoseconds) after this read started, and only a start past
/// `u64::MAX` nanoseconds is an error. A failed read, or a read without an
/// interval, stops.
pub proof fn law_polling_goes_on_one_interval_after_each_start(
    seconds: u64,
    nanoseconds: u32,
    started_ns: u64,
)
    ensures
        started_ns + seconds * 1_000_000_000 + nanoseconds <= u64::MAX ==> poll_step(
            Some((seconds, nanoseconds)),
            started_ns,
            true,
        ) == Some(
            PollStep::WaitUntil((started_ns + seconds * 1_000_000_000 + nanoseconds) as u64),
        ),
        started_ns + seconds * 1_000_000_000 + nanoseconds > u64::MAX ==> poll_step(
            Some((seconds, nanoseconds)),
            started_ns,
            true,
        ) is None,
        poll_step(Some((seconds, nanoseconds)), started_ns, false) == Some(PollStep::Stop),
        poll_step(None, started_ns, true) == Some(PollStep::Stop),
{
}

/// The start times of successive reads of a polling operation: after each
/// read, polling went on and the next read started no earlier than the
/// time that `poll_step` set.
pub open spec fn follows_poll_steps(interval: (u64, u32), starts: Seq<u64>) -> bool {
    forall|k: int|
        0 <= k < starts.len() - 1 ==> (poll_step(Some(interval), #[trigger] starts[k], true) matches Some(
            PollStep::WaitUntil(t),
        ) && starts[k + 1] >= t)
}

/// Polling measures the interval from the start of each read, not its end,
/// and never catches up: each wait ends one interval after the start of the
/// read before it, so reads that start as the steps say are at least one
/// interval apart, and `j - i` reads apart are at least `j - i` intervals
/// apart. A read that ends after its successor's time is followed by one
/// immediate start, whose own successor again waits a whole interval.
pub proof fn law_polls_start_an_interval_apart(interval: (u64, u32), starts: Seq<u64>, i: int, j: int)
    requires
        follows_poll_steps(interval, starts),
        0 <= i <= j < starts.len(),
    ensures
        starts[j] - starts[i] >= (j - i) * interval_ns(interval),
        j == i + 1 ==> poll_step(Some(interval), starts[i], true) == Some(
            PollStep::WaitUntil((starts[i] + interval_ns(interval)) as u64),
        ),
    decreases j - i,
{
    if j > i {
        law_polls_start_an_interval_apart(interval, starts, i, j - 1);
        let k = j - 1;
        assert(poll_step(Some(interval), starts[k], true) matches Some(PollStep::WaitUntil(t))
            && starts[k + 1] >= t);
        assert((j - i) * interval_ns(interval) == (k - i) * interval_ns(interval) + interval_ns(
            interval,
        )) by (nonlinear_arith)
            requires
                k == j - 1,
        ;
    }
}

/// The kind of a message that carries printed output.
pub const KIND_PRINT: u8 = 0x00;

/// The kind of a message that acknowledges a command.
pub const KIND_ACK: u8 = 0xc4;

/// The source address of the card in `slot`.
pub open spec fn card(slot: u8) -> int {
    0x10 + slot
}

/// What a register exchange has learned so far.
pub struct ExchangeState {
    pub acknowledged: bool,
    pub value: Option<u8>,
    pub last_text: Option<Seq<char>>,
}

/// The register exchange after one more message, or None where the message
/// makes the operation fail. Messages from other cards and of other kinds
/// change nothing; the first report of the requested register is kept.
pub open spec fn register_step(
    s: ExchangeState,
    slot: u8,
    address: u32,
    source: u8,
    kind: u8,
    payload: Seq<u8>,
) -> Option<ExchangeState> {
    if source != card(slot) {
        Some(s)
    } else if kind == KIND_ACK {
        if acknowledges(payload) {
            Some(ExchangeState { acknowledged: true, ..s })
        } else {
            None
        }
    } else if kind == KIND_PRINT {
        match printed(payload) {
            None => None,
            Some(text) => match register_report(text) {
                Err(_) => None,
                Ok(report) => {
                    let value = match report {
                        Some((a, v)) => if a == address && s.value is None {
                            Some(v)
                        } else {
                            s.value
                        },
                        None => s.value,
                    };
                    Some(ExchangeState { acknowledged: s.acknowledged, value, last_text: Some(text) })
                },
            },
        }
    } else {
        Some(s)
    }
}

/// The value a register exchange delivers in a state: the reported value,
/// once the command is acknowledged.
pub open spec fn delivered(s: ExchangeState) -> Option<u8> {
    if s.acknowledged {
        s.value
    } else {
        None
    }
}

/// The decisions of one register read or write, for the card in `slot` and
/// the register at `address`.
pub struct RegisterExchange {
    pub slot: u8,
    pub address: u32,
    pub acknowledged: bool,
    pub value: Option<u8>,
    pub last_text: Option<String>,
}

impl RegisterExchange {
    pub open spec fn state(&self) -> ExchangeState {
        ExchangeState {
            acknowledged: self.acknowledged,
            value: self.value,
            last_text: match self.last_text {
                Some(t) => Some(t@),
                None => None,
            },
        }
    }

    /// A new exchange, before any message.
    pub fn new(slot: u8, address: u32) -> (x: Self)
        ensures
            x.slot == slot,
            x.address == address,
            x.state() == (ExchangeState { acknowledged: false, value: None, last_text: None }),
    {
        RegisterExchange { slot, address, acknowledged: false, value: None, last_text: None }
    }

    /// Takes one received message. `Ok(Some(v))` completes the operation with
    /// the value `v`; `Ok(None)` asks for more messages.
    pub fn accept(&mut self, message: &Message) -> (r: Result<Option<u8>, SessionError>)
        requires
            old(self).slot <= 0xef,
        ensures
            final(self).slot == old(self).slot,
            final(self).address == old(self).address,
            match register_step(
                old(self).state(),
                old(self).slot,
                old(self).address,
                message.source,
                message.kind,
                message.payload@,
            ) {
                Some(next) => final(self).state() == next && r == Ok::<Option<u8>, SessionError>(
                    delivered(next),
                ),
                None => r matches Err(e) && (if message.kind == KIND_ACK {
                    is_ack_error(e, message.payload@)
                } else {
                    is_print_error(e, message.payload@) || (printed(message.payload@) matches Some(
                        text,
                    ) && register_report(text) is Err && (e matches SessionError::MalformedRegister(
                        t,
                    ) && t@ == text))
                }),
            },
    {
        if message.source != 0x10 + self.slot {
            return Ok(self.result());
        }
        if message.kind == KIND_ACK {
            acknowledgement(message.payload.as_slice())?;
            self.acknowledged = true;
        } else if message.kind == KIND_PRINT {
            let text = printed_text(message.payload.as_slice())?;
            let report = parse_register(text)?;
            match report {
                Some((a, v)) => {
                    if a == self.address && self.value.is_none() {
                        self.value = Some(v);
                    }
                },
                None => {},
            }
            self.last_text = Some(text.to_string());
        }
        Ok(self.result())
    }

    fn result(&self) -> (r: Option<u8>)
        ensures
            r == delivered(self.state()),
    {
        if self.acknowledged {
            self.value
        } else {
            None
        }
    }

    /// The error once the operation's time is up without a result.
    pub fn expire(self) -> (e: SessionError)
        ensures
            !self.acknowledged ==> e is NoAcknowledgement,
            self.acknowledged ==> e == (SessionError::RegisterTimeout {
                address: self.address,
                last_text: self.last_text,
            }),
    {
        if !self.acknowledged {
            SessionError::NoAcknowledgement
        } else {
            SessionError::RegisterTimeout { address: self.address, last_text: self.last_text }
        }
    }
}

/// What the caller does with a message during a generic text command.
#[derive(Debug, PartialEq, Eq)]
pub enum CommandEvent {
    /// Nothing: the message is from another card or of another kind.
    Ignore,
    /// The command is acknowledged; on the first acknowledgement, `first`
    /// holds and the collection window starts over.
    Acknowledged { first: bool },
    /// Print this text.
    Print(String),
}

/// The decisions of one generic text command for the card in `slot`.
pub struct CommandExchange {
    pub slot: u8,
    pub acknowledged: bool,
}

impl CommandExchange {
    pub fn new(slot: u8) -> (x: Self)
        ensures
            x.slot == slot,
            !x.acknowledged,
    {
        CommandExchange { slot, acknowledged: false }
    }

    /// Takes one received message. Printed output is passed on whether or not
    /// the command is acknowledged yet.
    pub fn accept(&mut self, message: &Message) -> (r: Result<CommandEvent, SessionError>)
        requires
            old(self).slot <= 0xef,
        ensures
            final(self).slot == old(self).slot,
            message.source != card(old(self).slot) ==> r == Ok::<CommandEvent, SessionError>(
                CommandEvent::Ignore,
            ) && final(self).acknowledged == old(self).acknowledged,
            message.source == card(old(self).slot) && message.kind == KIND_ACK ==> {
                if acknowledges(message.payload@) {
                    &&& r == Ok::<CommandEvent, SessionError>(
                        CommandEvent::Acknowledged { first: !old(self).acknowledged },
                    )
                    &&& final(self).acknowledged
                } else {
                    r matches Err(e) && is_ack_error(e, message.payload@)
                }
            },
            message.source == card(old(self).slot) && message.kind == KIND_PRINT ==> {
                &&& final(self).acknowledged == old(self).acknowledged
                &&& match printed(message.payload@) {
                    Some(text) => r matches Ok(CommandEvent::Print(t)) && t@ == text,
                    None => r matches Err(e) && is_print_error(e, message.payload@),
                }
            },
            message.source == card(old(self).slot) && message.kind != KIND_ACK && message.kind
                != KIND_PRINT ==> r == Ok::<CommandEvent, SessionError>(CommandEvent::Ignore)
                && final(self).acknowledged == old(self).acknowledged,
    {
        if message.source != 0x10 + self.slot {
            return Ok(CommandEvent::Ignore);
        }
        if message.kind == KIND_ACK {
            acknowledgement(message.payload.as_slice())?;
            let first = !self.acknowledged;
            self.acknowledged = true;
            Ok(CommandEvent::Acknowledged { first })
        } else if message.kind == KIND_PRINT {
            let text = printed_text(message.payload.as_slice())?;
            Ok(CommandEvent::Print(text.to_string()))
        } else {
            Ok(CommandEvent::Ignore)
        }
    }

    /// The outcome once the collection window closes: an error where the
    /// command was never acknowledged.
    pub fn finish(&self) -> (r: Result<(), SessionError>)
        ensures
            r is Ok <==> self.acknowledged,
            r matches Err(e) ==> e is NoAcknowledgement,
    {
        if self.acknowledged {
            Ok(())
        } else {
            Err(SessionError::NoAcknowledgement)
        }
    }
}

/// The state of a register exchange before any message.
pub open spec fn fresh() -> ExchangeState {
    ExchangeState { acknowledged: false, value: None, last_text: None }
}

/// A register operation completes once both the acknowledgement and the
/// report of the requested register from the requested card have arrived,
/// in either order: a report printed before the acknowledgement is kept.
pub proof fn law_ack_and_report_in_either_order(slot: u8, address: u32, value: u8, report: Seq<u8>)
    requires
        slot <= 0xef,
        printed(report) matches Some(text) && register_report(text) == Ok::<
            Option<(u32, u8)>,
            (),
        >(Some((address, value))),
    ensures
        ({
            let from = (0x10 + slot) as u8;
            let acked = register_step(fresh(), slot, address, from, KIND_ACK, seq![0u8]);
            let reported = register_step(fresh(), slot, address, from, KIND_PRINT, report);
            &&& acked matches Some(s1) && delivered(s1) is None
            &&& reported matches Some(s2) && delivered(s2) is None
            &&& register_step(acked.unwrap(), slot, address, from, KIND_PRINT, report) matches Some(
                s3,
            ) && delivered(s3) == Some(value)
            &&& register_step(reported.unwrap(), slot, address, from, KIND_ACK, seq![0u8])
                matches Some(s4) && delivered(s4) == Some(value)
        }),
{
}

/// Once the requested register has been reported, no later message changes
/// the value: the first report wins.
pub proof fn law_first_report_is_kept(
    s: ExchangeState,
    slot: u8,
    address: u32,
    source: u8,
    kind: u8,
    payload: Seq<u8>,
)
    requires
        s.value is Some,
    ensures
        register_step(s, slot, address, source, kind, payload) matches Some(next) ==> next.value
            == s.value,
{
}

/// Messages from other cards, and reports of other registers, leave the
/// acknowledgement and the value as they were.
pub proof fn law_foreign_reports_are_ignored(
    s: ExchangeState,
    slot: u8,
    address: u32,
    source: u8,
    payload: Seq<u8>,
    other: u32,
    value: u8,
)
    requires
        source != card(slot) || (printed(payload) matches Some(text) && register_report(text)
            == Ok::<Option<(u32, u8)>, ()>(Some((other, value))) && other != address),
    ensures
        register_step(s, slot, address, source, KIND_PRINT, payload) matches Some(next)
            && next.value == s.value && next.acknowledged == s.acknowledged,
{
}

/// A command's text reaches the device unchanged: the frame that carries it
/// decodes to a message of kind 0x44 whose payload reads back, as printed
/// text, as the command itself.
pub proof fn law_command_text_is_sent_unchanged(slot: u8, command: Seq<char>)
    requires
        slot <= MAX_SLOT,
        command.len() > 0,
        !command.contains('\0'),
        encode_utf8(command).len() <= MAX_COMMAND_BYTES,
    ensures
        head(frame(0, (0x10 + slot) as u8, 0x44, encode_utf8(command).push(0))) == (Head::Complete {
            source: 0,
            kind: 0x44,
            payload: encode_utf8(command).push(0),
            consumed: 9 + encode_utf8(command).len() + 1,
        }),
        printed(encode_utf8(command).push(0)) == Some(command),
{
    let bytes = encode_utf8(command);
    let p = bytes.push(0);
    crate::protocol::law_frame_decodes(0, (0x10 + slot) as u8, 0x44, p, Seq::empty());
    assert(frame(0, (0x10 + slot) as u8, 0x44, p) + Seq::<u8>::empty() =~= frame(
        0,
        (0x10 + slot) as u8,
        0x44,
        p,
    ));
    lemma_printed_text(command);
}

/// A text without NUL, encoded and ended by NUL, is printed output of that text.
proof fn lemma_printed_text(t: Seq<char>)
    requires
        !t.contains('\0'),
    ensures
        printed(encode_utf8(t).push(0)) == Some(t),
{
    let bytes = encode_utf8(t);
    assert(bytes.push(0).drop_last() =~= bytes);
    crate::text::lemma_utf8_without_nul(t);
    vstd::utf8::encode_utf8_valid_utf8(t);
    vstd::utf8::encode_utf8_decode_utf8(t);
}

proof fn lemma_hex_word_reads_back(n: nat, k: nat, max: nat)
    requires
        n <= max,
    ensures
        hex_word("0x"@ + zeros(k) + hex(n), max) == Some(n),
        no_white_space("0x"@ + zeros(k) + hex(n)),
{
    reveal_strlit("0x");
    lemma_digits_read_back(n, 16);
    lemma_leading_zeros(k, hex(n), 16);
    let ds = zeros(k) + hex(n);
    let w = "0x"@ + ds;
    assert(w.skip(2) =~= ds);
    assert(ds[0] != '+') by {
        assert(digit_value(ds[0], 16) is Some);
    }
    lemma_digits_no_white_space(ds, 16);
    assert forall|i: int| 0 <= i < w.len() implies !is_white_space(#[trigger] w[i]) by {
        if i >= 2 {
            assert(w[i] == ds[i - 2]);
        }
    }
    assert(w =~= "0x"@ + zeros(k) + hex(n));
}

/// Four words, separated by single spaces.
pub open spec fn four_words(w0: Seq<char>, w1: Seq<char>, w2: Seq<char>, w3: Seq<char>) -> Seq<char> {
    (w0.push(' ') + w1).push(' ') + w2 + seq![' '] + w3
}

proof fn lemma_four_words(w0: Seq<char>, w1: Seq<char>, w2: Seq<char>, w3: Seq<char>)
    requires
        w0.len() > 0 && w1.len() > 0 && w2.len() > 0 && w3.len() > 0,
        no_white_space(w0) && no_white_space(w1) && no_white_space(w2) && no_white_space(w3),
    ensures
        words(four_words(w0, w1, w2, w3)) == seq![w0, w1, w2, w3],
{
    let e = Seq::<char>::empty();
    lemma_split_word(e, w0);
    assert(e + w0 =~= w0);
    lemma_split_space(w0, ' ');
    let p2 = w0.push(' ');
    lemma_split_word(p2, w1);
    assert(e + w1 =~= w1);
    let p3 = p2 + w1;
    lemma_split_space(p3, ' ');
    let p4 = p3.push(' ');
    lemma_split_word(p4, w2);
    assert(e + w2 =~= w2);
    let p5 = p4 + w2;
    lemma_split_space(p5, ' ');
    let p6 = p5.push(' ');
    assert(p6 =~= p4 + w2 + seq![' ']);
    lemma_split_word(p6, w3);
    assert(e + w3 =~= w3);
    let p7 = p6 + w3;
    assert(p7 =~= four_words(w0, w1, w2, w3));
    assert(words(p7) =~= seq![w0, w1, w2, w3]);
}

/// The line that the device prints for a register, `Register 0x<a> =
/// 0x<v>`, with `address_zeros` and `value_zeros` leading zeroes before the
/// two numbers and `tail` after the line.
pub open spec fn device_report(
    address: u32,
    value: u8,
    address_zeros: nat,
    value_zeros: nat,
    tail: Seq<char>,
) -> Seq<char> {
    "Register 0x"@ + zeros(address_zeros) + hex(address as nat) + " = 0x"@ + zeros(value_zeros) + hex(
        value as nat,
    ) + tail
}

/// A register report as the device prints it reads as that address and
/// value: with any number of leading zeroes in either number, and followed
/// by CR LF, other white space, or nothing.
pub proof fn law_device_report_is_read(
    address: u32,
    value: u8,
    address_zeros: nat,
    value_zeros: nat,
    tail: Seq<char>,
)
    requires
        forall|i: int| 0 <= i < tail.len() ==> is_white_space(#[trigger] tail[i]),
    ensures
        register_report(device_report(address, value, address_zeros, value_zeros, tail))
            == Ok::<Option<(u32, u8)>, ()>(Some((address, value))),
{
    reveal_strlit("Register 0x");
    reveal_strlit(" = 0x");
    reveal_strlit("Register");
    reveal_strlit("=");
    reveal_strlit("0x");
    let a = "0x"@ + zeros(address_zeros) + hex(address as nat);
    let v = "0x"@ + zeros(value_zeros) + hex(value as nat);
    lemma_hex_word_reads_back(address as nat, address_zeros, u32::MAX as nat);
    lemma_hex_word_reads_back(value as nat, value_zeros, 0xff);
    let reg = "Register"@;
    let eq = "="@;
    assert(no_white_space(reg));
    assert(no_white_space(eq));
    lemma_four_words(reg, a, eq, v);
    let line = device_report(address, value, address_zeros, value_zeros, Seq::empty());
    assert(line =~= four_words(reg, a, eq, v));
    lemma_words_trailing_white_space(line, tail);
    assert(line + tail =~= device_report(address, value, address_zeros, value_zeros, tail));
}

/// No character of the text is NUL.
spec fn nul_free(s: Seq<char>) -> bool {
    forall|i: int| 0 <= i < s.len() ==> s[i] != '\0'
}

proof fn lemma_nul_free_join(x: Seq<char>, y: Seq<char>)
    requires
        nul_free(x),
        nul_free(y),
    ensures
        nul_free(x + y),
{
    assert forall|i: int| 0 <= i < (x + y).len() implies (x + y)[i] != '\0' by {
        if i < x.len() {
            assert((x + y)[i] == x[i]);
        } else {
            assert((x + y)[i] == y[i - x.len()]);
        }
    }
}

proof fn lemma_device_report_nul_free(
    address: u32,
    value: u8,
    address_zeros: nat,
    value_zeros: nat,
    tail: Seq<char>,
)
    requires
        forall|i: int| 0 <= i < tail.len() ==> is_white_space(#[trigger] tail[i]),
    ensures
        !device_report(address, value, address_zeros, value_zeros, tail).contains('\0'),
{
    reveal_strlit("Register 0x");
    reveal_strlit(" = 0x");
    let head = "Register 0x"@;
    assert forall|i: int| 0 <= i < head.len() implies head[i] != '\0' by {
        if i == 0 {} else if i == 1 {} else if i == 2 {} else if i == 3 {} else if i == 4 {}
        else if i == 5 {} else if i == 6 {} else if i == 7 {} else if i == 8 {} else if i == 9 {}
        else {}
    }
    let mid = " = 0x"@;
    assert forall|i: int| 0 <= i < mid.len() implies mid[i] != '\0' by {
        if i == 0 {} else if i == 1 {} else if i == 2 {} else if i == 3 {} else {}
    }
    assert(nul_free(zeros(address_zeros)));
    assert(nul_free(zeros(value_zeros)));
    lemma_digits_read_back(address as nat, 16);
    lemma_digits_read_back(value as nat, 16);
    let ha = hex(address as nat);
    let hv = hex(value as nat);
    assert forall|i: int| 0 <= i < ha.len() implies ha[i] != '\0' by {
        assert(digit_value(ha[i], 16) is Some);
    }
    assert forall|i: int| 0 <= i < hv.len() implies hv[i] != '\0' by {
        assert(digit_value(hv[i], 16) is Some);
    }
    assert forall|i: int| 0 <= i < tail.len() implies tail[i] != '\0' by {
        assert(is_white_space(tail[i]));
    }
    lemma_nul_free_join(head, zeros(address_zeros));
    lemma_nul_free_join(head + zeros(address_zeros), ha);
    lemma_nul_free_join(head + zeros(address_zeros) + ha, mid);
    lemma_nul_free_join(head + zeros(address_zeros) + ha + mid, zeros(value_zeros));
    lemma_nul_free_join(head + zeros(address_zeros) + ha + mid + zeros(value_zeros), hv);
    lemma_nul_free_join(head + zeros(address_zeros) + ha + mid + zeros(value_zeros) + hv, tail);
    let t = device_report(address, value, address_zeros, value_zeros, tail);
    assert(nul_free(t));
    if t.contains('\0') {
        let i = choose|i: int| 0 <= i < t.len() && t[i] == '\0';
        assert(t[i] != '\0');
    }
}

/// A received message, as the exchanges read it.
pub struct Received {
    pub source: u8,
    pub kind: u8,
    pub payload: Seq<u8>,
}

/// A register exchange after a run of messages, from its fresh state; None
/// where one of them made the operation fail.
pub open spec fn run_exchange(slot: u8, address: u32, msgs: Seq<Received>) -> Option<ExchangeState>
    decreases msgs.len(),
{
    if msgs.len() == 0 {
        Some(fresh())
    } else {
        match run_exchange(slot, address, msgs.drop_last()) {
            None => None,
            Some(s) => register_step(
                s,
                slot,
                address,
                msgs.last().source,
                msgs.last().kind,
                msgs.last().payload,
            ),
        }
    }
}

/// The message is the card's acknowledgement of the command.
pub open spec fn acknowledges_command(m: Received, slot: u8) -> bool {
    m.source == card(slot) && m.kind == KIND_ACK && acknowledges(m.payload)
}

/// The message is the card's report that the register at `address` holds `value`.
pub open spec fn reports_register(m: Received, slot: u8, address: u32, value: u8) -> bool {
    &&& m.source == card(slot)
    &&& m.kind == KIND_PRINT
    &&& printed(m.payload) matches Some(text)
    &&& register_report(text) == Ok::<Option<(u32, u8)>, ()>(Some((address, value)))
}

/// The value that a message from the card reports for the register at `address`.
pub open spec fn report_of(m: Received, slot: u8, address: u32) -> Option<u8> {
    if m.source == card(slot) && m.kind == KIND_PRINT {
        match printed(m.payload) {
            Some(text) => match register_report(text) {
                Ok(Some((a, v))) => if a == address {
                    Some(v)
                } else {
                    None
                },
                _ => None,
            },
            None => None,
        }
    } else {
        None
    }
}

/// The value of the first report of the register at `address` from the card.
pub open spec fn first_report(slot: u8, address: u32, msgs: Seq<Received>) -> Option<u8>
    decreases msgs.len(),
{
    if msgs.len() == 0 {
        None
    } else {
        match first_report(slot, address, msgs.drop_last()) {
            Some(v) => Some(v),
            None => report_of(msgs.last(), slot, address),
        }
    }
}

/// Over any run of messages that does not fail, a register exchange is
/// acknowledged exactly when the card acknowledged the command, and holds
/// exactly the first value that the card reported for the requested
/// register; so a register operation delivers a value only after an
/// acknowledgement, and the value it delivers is that first report.
pub proof fn law_run_delivers_first_report(slot: u8, address: u32, msgs: Seq<Received>)
    ensures
        run_exchange(slot, address, msgs) matches Some(s) ==> {
            &&& s.acknowledged <==> exists|i: int|
                0 <= i < msgs.len() && acknowledges_command(#[trigger] msgs[i], slot)
            &&& s.value == first_report(slot, address, msgs)
            &&& delivered(s) == (if s.acknowledged {
                first_report(slot, address, msgs)
            } else {
                None
            })
        },
        first_report(slot, address, msgs) matches Some(v) ==> exists|j: int|
            0 <= j < msgs.len() && reports_register(#[trigger] msgs[j], slot, address, v),
    decreases msgs.len(),
{
    if msgs.len() > 0 {
        let init = msgs.drop_last();
        law_run_delivers_first_report(slot, address, init);
        let m = msgs.last();
        assert forall|i: int| 0 <= i < init.len() implies #[trigger] init[i] == msgs[i] by {}
        if run_exchange(slot, address, msgs) is Some {
            let s = run_exchange(slot, address, msgs).unwrap();
            let s0 = run_exchange(slot, address, init).unwrap();
            if acknowledges_command(m, slot) {
                assert(msgs[msgs.len() - 1] == m);
            }
            if s.acknowledged && !s0.acknowledged {
                assert(acknowledges_command(msgs[msgs.len() - 1], slot));
            }
            if s0.acknowledged {
                let i = choose|i: int| 0 <= i < init.len() && acknowledges_command(#[trigger] init[i], slot);
                assert(msgs[i] == init[i]);
            }
            if !s.acknowledged {
                assert forall|i: int| 0 <= i < msgs.len() implies !acknowledges_command(
                    #[trigger] msgs[i],
                    slot,
                ) by {
                    if i < init.len() {
                        assert(msgs[i] == init[i]);
                    }
                }
            }
        }
        match first_report(slot, address, msgs) {
            Some(v) => {
                if first_report(slot, address, init) is Some {
                    let j = choose|j: int|
                        0 <= j < init.len() && reports_register(#[trigger] init[j], slot, address, v);
                    assert(msgs[j] == init[j]);
                } else {
                    assert(reports_register(msgs[msgs.len() - 1], slot, address, v));
                }
            },
            None => {},
        }
    }
}

/// A message that a register exchange passes over, leaving the
/// acknowledgement and the value as they were: one from another source, one
/// of a kind that is neither an acknowledgement nor printed output, or a line
/// that the card prints and that is not a report of the requested register.
pub open spec fn passes_over(m: Received, slot: u8, address: u32) -> bool {
    ||| m.source != card(slot)
    ||| (m.kind != KIND_ACK && m.kind != KIND_PRINT)
    ||| {
        &&& m.kind == KIND_PRINT
        &&& printed(m.payload) matches Some(text)
        &&& register_report(text) matches Ok(report)
        &&& match report {
            Some((a, _v)) => a != address,
            None => true,
        }
    }
}

proof fn lemma_run_push(slot: u8, address: u32, msgs: Seq<Received>, m: Received)
    ensures
        run_exchange(slot, address, msgs.push(m)) == match run_exchange(slot, address, msgs) {
            None => None,
            Some(s) => register_step(s, slot, address, m.source, m.kind, m.payload),
        },
{
    assert(msgs.push(m).drop_last() =~= msgs);
}

proof fn lemma_run_passes_over(slot: u8, address: u32, msgs: Seq<Received>, extra: Seq<Received>)
    requires
        run_exchange(slot, address, msgs) is Some,
        forall|i: int| 0 <= i < extra.len() ==> passes_over(#[trigger] extra[i], slot, address),
    ensures
        run_exchange(slot, address, msgs + extra) matches Some(s) && s.acknowledged
            == run_exchange(slot, address, msgs).unwrap().acknowledged && s.value == run_exchange(
            slot,
            address,
            msgs,
        ).unwrap().value,
    decreases extra.len(),
{
    if extra.len() == 0 {
        assert(msgs + extra =~= msgs);
    } else {
        let init = extra.drop_last();
        assert forall|i: int| 0 <= i < init.len() implies passes_over(#[trigger] init[i], slot, address) by {
            assert(init[i] == extra[i]);
        }
        lemma_run_passes_over(slot, address, msgs, init);
        let m = extra[extra.len() - 1];
        assert(msgs + extra =~= (msgs + init).push(m));
        lemma_run_push(slot, address, msgs + init, m);
        assert(passes_over(m, slot, address));
    }
}

/// A register operation completes with the value that the card reports,
/// whether the report comes before or after the acknowledgement, and
/// whatever messages that the exchange passes over arrive before, between
/// and after the two: messages from other sources, of other kinds, other
/// lines and reports of other registers. The report is the line that the
/// device prints, with or without leading zeroes and followed by CR LF,
/// other white space or nothing.
pub proof fn law_report_read_among_other_messages(
    slot: u8,
    address: u32,
    value: u8,
    address_zeros: nat,
    value_zeros: nat,
    tail: Seq<char>,
    report_first: bool,
    before: Seq<Received>,
    between: Seq<Received>,
    after: Seq<Received>,
)
    requires
        slot <= 0xef,
        forall|i: int| 0 <= i < tail.len() ==> is_white_space(#[trigger] tail[i]),
        forall|i: int| 0 <= i < before.len() ==> passes_over(#[trigger] before[i], slot, address),
        forall|i: int| 0 <= i < between.len() ==> passes_over(#[trigger] between[i], slot, address),
        forall|i: int| 0 <= i < after.len() ==> passes_over(#[trigger] after[i], slot, address),
    ensures
        ({
            let text = device_report(address, value, address_zeros, value_zeros, tail);
            let report = (Received {
                source: (0x10 + slot) as u8,
                kind: KIND_PRINT,
                payload: encode_utf8(text).push(0),
            });
            let ack = (Received { source: (0x10 + slot) as u8, kind: KIND_ACK, payload: seq![0u8] });
            let first = if report_first {
                report
            } else {
                ack
            };
            let second = if report_first {
                ack
            } else {
                report
            };
            run_exchange(slot, address, before.push(first) + between.push(second) + after) matches Some(
                s,
            ) && delivered(s) == Some(value)
        }),
{
    let text = device_report(address, value, address_zeros, value_zeros, tail);
    law_device_report_is_read(address, value, address_zeros, value_zeros, tail);
    lemma_device_report_nul_free(address, value, address_zeros, value_zeros, tail);
    lemma_printed_text(text);
    let report = (Received {
        source: (0x10 + slot) as u8,
        kind: KIND_PRINT,
        payload: encode_utf8(text).push(0),
    });
    let ack = (Received { source: (0x10 + slot) as u8, kind: KIND_ACK, payload: seq![0u8] });
    let first = if report_first {
        report
    } else {
        ack
    };
    let second = if report_first {
        ack
    } else {
        report
    };
    let e = Seq::<Received>::empty();
    assert(run_exchange(slot, address, e) == Some(fresh()));
    lemma_run_passes_over(slot, address, e, before);
    assert(e + before =~= before);
    lemma_run_push(slot, address, before, first);
    let p1 = before.push(first);
    lemma_run_passes_over(slot, address, p1, between);
    let p2 = p1 + between;
    lemma_run_push(slot, address, p2, second);
    let p3 = p2.push(second);
    lemma_run_passes_over(slot, address, p3, after);
    assert(before.push(first) + between.push(second) + after =~= p3 + after);
}

} // verus!
