//! The frame format of the device's binary protocol, the connection handshake
//! and the request that carries a text command.
//!
//! A frame is four synchronization bytes, then the source, destination and kind
//! bytes, a big-endian 16-bit payload length and the payload.
use vstd::prelude::*;
use vstd::slice::slice_to_vec;
use vstd::string::StringSliceAdditionalSpecFns;
use crate::text::{chars_of, dec, push_dec, push_str};

verus! {

broadcast use vstd::string::group_string_axioms;

#[verifier::external_type_specification]
#[verifier::external_body]
pub struct ExIoError(std::io::Error);

/// Largest payload that a frame may carry, in bytes.
pub const MAX_PAYLOAD: usize = 8192;

/// Errors of the connection and of the frame format.
#[derive(Debug)]
pub enum Error {
    Io(std::io::Error),
    Timeout(&'static str),
    Invalid(String),
    Refused(String),
}

/// Formats an I/O error with its `Display` impl. The text comes from the
/// operating system, so nothing is claimed of it.
#[verifier::external_body]
fn io_error_text(e: &std::io::Error) -> String {
    e.to_string()
}

impl Error {
    /// The message that reports the error; for an I/O error, the text after
    /// `network error: ` is the system's.
    pub open spec fn spec_message(&self) -> Option<Seq<char>> {
        match self {
            Error::Io(_) => None,
            Error::Timeout(operation) => Some(operation@ + " timed out"@),
            Error::Invalid(m) => Some(m@),
            Error::Refused(m) => Some(m@),
        }
    }

    /// The message that reports the error.
    pub fn message(&self) -> (m: String)
        ensures
            self.spec_message() matches Some(s) ==> m@ == s,
            self is Io ==> m@.take(15) == "network error: "@,
    {
        match self {
            Error::Io(e) => {
                let mut m = "network error: ".to_string();
                let t = io_error_text(e);
                push_str(&mut m, t.as_str());
                proof {
                    reveal_strlit("network error: ");
                }
                assert(m@.take(15) =~= "network error: "@);
                assert(self.spec_message() is None);
                m
            },
            Error::Timeout(operation) => {
                let mut m = (*operation).to_string();
                push_str(&mut m, " timed out");
                m
            },
            Error::Invalid(m) => m.clone(),
            Error::Refused(m) => m.clone(),
        }
    }
}

impl From<std::io::Error> for Error {
    fn from(error: std::io::Error) -> (e: Self) {
        Error::Io(error)
    }
}

impl vstd::std_specs::convert::FromSpecImpl<std::io::Error> for Error {
    open spec fn obeys_from_spec() -> bool {
        true
    }

    open spec fn from_spec(error: std::io::Error) -> Self {
        Error::Io(error)
    }
}

/// One received frame: who sent it, its kind and its payload.
#[derive(Debug, PartialEq, Eq)]
pub struct Message {
    pub source: u8,
    pub kind: u8,
    pub payload: Vec<u8>,
}

/// The synchronization bytes that open every frame.
pub open spec fn sync() -> Seq<u8> {
    seq![0xbau8, 0xd2u8, 0xacu8, 0xe5u8]
}

/// The bytes of a frame.
pub open spec fn frame(source: u8, destination: u8, kind: u8, payload: Seq<u8>) -> Seq<u8> {
    sync() + seq![
        source,
        destination,
        kind,
        (payload.len() / 256) as u8,
        (payload.len() % 256) as u8,
    ] + payload
}

/// The payload length that a frame header announces.
pub open spec fn announced_length(b: Seq<u8>) -> nat {
    b[7] as nat * 256 + b[8] as nat
}

/// What the head of a receive buffer holds.
pub enum Head {
    /// Not yet a whole frame; more bytes may complete it.
    Incomplete,
    /// The first four bytes are not the synchronization bytes.
    BadSync,
    /// The header announces more than `MAX_PAYLOAD` bytes.
    Oversized,
    /// A whole frame of `consumed` bytes.
    Complete { source: u8, kind: u8, payload: Seq<u8>, consumed: nat },
}

pub open spec fn head(b: Seq<u8>) -> Head {
    if b.len() < 4 {
        Head::Incomplete
    } else if b.take(4) != sync() {
        Head::BadSync
    } else if b.len() < 9 {
        Head::Incomplete
    } else if announced_length(b) > MAX_PAYLOAD {
        Head::Oversized
    } else if b.len() < 9 + announced_length(b) {
        Head::Incomplete
    } else {
        Head::Complete {
            source: b[4],
            kind: b[6],
            payload: b.subrange(9, 9 + announced_length(b) as int),
            consumed: 9 + announced_length(b),
        }
    }
}

pub open spec fn is_invalid(e: Error, message: Seq<char>) -> bool {
    e matches Error::Invalid(m) && m@ == message
}

pub open spec fn is_refused(e: Error, message: Seq<char>) -> bool {
    e matches Error::Refused(m) && m@ == message
}

fn invalid(message: &str) -> (e: Error)
    ensures
        is_invalid(e, message@),
{
    Error::Invalid(message.to_string())
}

/// A frame, whatever bytes follow it, decodes to its own source, kind and
/// payload and consumes exactly its own bytes; what follows stays for the next
/// call.
pub proof fn law_frame_decodes(
    source: u8,
    destination: u8,
    kind: u8,
    payload: Seq<u8>,
    rest: Seq<u8>,
)
    requires
        payload.len() <= MAX_PAYLOAD,
    ensures
        head(frame(source, destination, kind, payload) + rest) == (Head::Complete {
            source,
            kind,
            payload,
            consumed: 9 + payload.len(),
        }),
{
    let f = frame(source, destination, kind, payload);
    let b = f + rest;
    let n = payload.len();
    assert(n / 256 < 256 && n % 256 < 256 && (n / 256) * 256 + n % 256 == n) by (nonlinear_arith)
        requires
            n <= 8192,
    ;
    assert(b.take(4) =~= sync());
    assert(b[7] == (n / 256) as u8 && b[8] == (n % 256) as u8);
    assert(announced_length(b) == n);
    assert(b.subrange(9, 9 + n as int) =~= payload);
}

/// Any strict prefix of a frame is incomplete: it is neither taken nor
/// reported as corrupt, so a frame that arrives in pieces is decoded once it
/// is whole.
pub proof fn law_partial_frame_waits(
    source: u8,
    destination: u8,
    kind: u8,
    payload: Seq<u8>,
    n: int,
)
    requires
        payload.len() <= MAX_PAYLOAD,
        0 <= n < frame(source, destination, kind, payload).len(),
    ensures
        head(frame(source, destination, kind, payload).take(n)) == Head::Incomplete,
{
    let f = frame(source, destination, kind, payload);
    let b = f.take(n);
    let len = payload.len();
    assert(len / 256 < 256 && len % 256 < 256 && (len / 256) * 256 + len % 256 == len)
        by (nonlinear_arith)
        requires
            len <= 8192,
    ;
    if n >= 4 {
        assert(b.take(4) =~= sync());
    }
    if n >= 9 {
        assert(b[7] == f[7] && b[8] == f[8]);
        assert(announced_length(b) == len);
    }
}

/// The bytes of frames sent one after another; each frame is given as its
/// source, destination, kind and payload.
pub open spec fn frames_bytes(fs: Seq<(u8, u8, u8, Seq<u8>)>) -> Seq<u8>
    decreases fs.len(),
{
    if fs.len() == 0 {
        Seq::empty()
    } else {
        let (source, destination, kind, payload) = fs.last();
        frames_bytes(fs.drop_last()) + frame(source, destination, kind, payload)
    }
}

proof fn lemma_frames_bytes_join(a: Seq<(u8, u8, u8, Seq<u8>)>, b: Seq<(u8, u8, u8, Seq<u8>)>)
    ensures
        frames_bytes(a + b) == frames_bytes(a) + frames_bytes(b),
    decreases b.len(),
{
    if b.len() == 0 {
        assert(a + b =~= a);
        assert(frames_bytes(a) + frames_bytes(b) =~= frames_bytes(a));
    } else {
        lemma_frames_bytes_join(a, b.drop_last());
        assert((a + b).drop_last() =~= a + b.drop_last());
        assert((a + b).last() == b.last());
        let (source, destination, kind, payload) = b.last();
        assert(frames_bytes(a) + frames_bytes(b.drop_last()) + frame(source, destination, kind, payload)
            =~= frames_bytes(a) + frames_bytes(b));
    }
}

/// A receive buffer always holds a stretch of the byte stream, however the
/// stream was cut into chunks: when the stream is frames `fs` followed by
/// the start `rest` of a frame, `k` frames have been taken off and the
/// stream has arrived up to byte `arrived`, the buffer holds the stream from
/// the end of frame `k` to `arrived`. Then its head is the next frame, whole,
/// once all of that frame has arrived, and what stays after taking it is
/// again such a stretch, one frame further; before that, and after the last
/// frame, the head is incomplete. So the frames come out in order, each
/// once, and none is lost or reported as corrupt.
pub proof fn law_stream_decodes_in_order(
    fs: Seq<(u8, u8, u8, Seq<u8>)>,
    rest: Seq<u8>,
    k: int,
    arrived: int,
)
    requires
        forall|i: int| 0 <= i < fs.len() ==> (#[trigger] fs[i]).3.len() <= MAX_PAYLOAD,
        forall|n: int| 0 <= n <= rest.len() ==> head(#[trigger] rest.take(n)) == Head::Incomplete,
        0 <= k <= fs.len(),
        frames_bytes(fs.take(k)).len() <= arrived <= (frames_bytes(fs) + rest).len(),
    ensures
        ({
            let stream = frames_bytes(fs) + rest;
            let buffer = stream.subrange(frames_bytes(fs.take(k)).len() as int, arrived);
            if k < fs.len() && arrived >= frames_bytes(fs.take(k + 1)).len() {
                &&& head(buffer) == (Head::Complete {
                    source: fs[k].0,
                    kind: fs[k].2,
                    payload: fs[k].3,
                    consumed: 9 + fs[k].3.len(),
                })
                &&& buffer.skip(9 + fs[k].3.len() as int) == stream.subrange(
                    frames_bytes(fs.take(k + 1)).len() as int,
                    arrived,
                )
            } else {
                head(buffer) == Head::Incomplete
            }
        }),
{
    let stream = frames_bytes(fs) + rest;
    let start = frames_bytes(fs.take(k)).len() as int;
    let buffer = stream.subrange(start, arrived);
    lemma_frames_bytes_join(fs.take(k), fs.skip(k));
    assert(fs.take(k) + fs.skip(k) =~= fs);
    if k < fs.len() {
        let (source, destination, kind, payload) = fs[k];
        let f = frame(source, destination, kind, payload);
        let later = fs.skip(k + 1);
        assert(fs.take(k + 1).drop_last() =~= fs.take(k));
        assert(fs.take(k + 1).last() == fs[k]);
        assert(frames_bytes(fs.take(k + 1)) == frames_bytes(fs.take(k)) + f);
        lemma_frames_bytes_join(fs.take(k + 1), later);
        assert(fs.take(k + 1) + later =~= fs);
        let tail = frames_bytes(later) + rest;
        assert(stream =~= frames_bytes(fs.take(k)) + f + tail);
        assert(payload.len() <= MAX_PAYLOAD) by {
            assert(fs[k].3 == payload);
        }
        if arrived >= frames_bytes(fs.take(k + 1)).len() {
            let more = tail.take(arrived - start - f.len());
            assert(buffer =~= f + more);
            law_frame_decodes(source, destination, kind, payload, more);
            assert(buffer.skip(9 + payload.len() as int) =~= more);
            assert(stream.subrange(frames_bytes(fs.take(k + 1)).len() as int, arrived) =~= more);
        } else {
            assert(buffer =~= f.take(arrived - start));
            law_partial_frame_waits(source, destination, kind, payload, arrived - start);
        }
    } else {
        assert(fs.take(k) =~= fs);
        assert(buffer =~= rest.take(arrived - start));
    }
}

/// Every frame is laid out byte by byte as the protocol fixes it: the four
/// synchronization bytes, then the source, the destination and the kind as
/// given, the payload's length in two big-endian bytes, and the payload.
pub proof fn law_frame_layout(source: u8, destination: u8, kind: u8, payload: Seq<u8>)
    requires
        payload.len() <= MAX_PAYLOAD,
    ensures
        ({
            let f = frame(source, destination, kind, payload);
            &&& f.len() == 9 + payload.len()
            &&& f[0] == 0xba && f[1] == 0xd2 && f[2] == 0xac && f[3] == 0xe5
            &&& f[4] == source && f[5] == destination && f[6] == kind
            &&& f[7] as nat * 256 + f[8] as nat == payload.len()
            &&& f.skip(9) == payload
        }),
{
    let f = frame(source, destination, kind, payload);
    let n = payload.len();
    assert(n / 256 < 256 && n % 256 < 256 && (n / 256) * 256 + n % 256 == n) by (nonlinear_arith)
        requires
            n <= 8192,
    ;
    assert(f.skip(9) =~= payload);
}

/// Builds the frame that carries `payload` to `destination`; the source byte is 0.
pub fn encode(destination: u8, kind: u8, payload: &[u8]) -> (r: Result<Vec<u8>, Error>)
    ensures
        r matches Ok(f) ==> {
            &&& f@.len() == 9 + payload@.len()
            &&& f@[0] == 0xba && f@[1] == 0xd2 && f@[2] == 0xac && f@[3] == 0xe5
            &&& f@[4] == 0 && f@[5] == destination && f@[6] == kind
            &&& f@[7] as nat * 256 + f@[8] as nat == payload@.len()
            &&& f@.skip(9) == payload@
        },
        payload@.len() <= MAX_PAYLOAD ==> (r matches Ok(f) && f@ == frame(
            0,
            destination,
            kind,
            payload@,
        )),
        payload@.len() > MAX_PAYLOAD ==> (r matches Err(e) && is_invalid(
            e,
            "message exceeds the 8192-byte payload limit"@,
        )),
{
    if payload.len() > MAX_PAYLOAD {
        return Err(invalid("message exceeds the 8192-byte payload limit"));
    }
    let length = payload.len();
    let mut f: Vec<u8> = Vec::with_capacity(9 + length);
    f.push(0xba);
    f.push(0xd2);
    f.push(0xac);
    f.push(0xe5);
    f.push(0);
    f.push(destination);
    f.push(kind);
    f.push((length / 256) as u8);
    f.push((length % 256) as u8);
    let ghost header = f@;
    for i in 0..length
        invariant
            length == payload@.len(),
            f@ == header + payload@.take(i as int),
    {
        f.push(payload[i]);
        assert(payload@.take(i + 1) =~= payload@.take(i as int).push(payload@[i as int]));
    }
    assert(payload@.take(length as int) =~= payload@);
    assert(f@ =~= frame(0, destination, kind, payload@));
    proof {
        law_frame_layout(0, destination, kind, payload@);
    }
    Ok(f)
}

/// Takes the next frame off the front of `buffer`.
///
/// An incomplete frame stays in the buffer for a later call; a complete one is
/// removed; a corrupt head is reported and left in place.
pub fn decode(buffer: &mut Vec<u8>) -> (r: Result<Option<Message>, Error>)
    ensures
        match head(old(buffer)@) {
            Head::Incomplete => r matches Ok(None) && final(buffer)@ == old(buffer)@,
            Head::BadSync => r matches Err(e) && is_invalid(
                e,
                "invalid message synchronization bytes"@,
            ) && final(buffer)@ == old(buffer)@,
            Head::Oversized => r matches Err(e) && is_invalid(
                e,
                "received payload exceeds 8192 bytes"@,
            ) && final(buffer)@ == old(buffer)@,
            Head::Complete { source, kind, payload, consumed } => {
                &&& r matches Ok(Some(m))
                &&& m.source == source
                &&& m.kind == kind
                &&& m.payload@ == payload
                &&& final(buffer)@ == old(buffer)@.skip(consumed as int)
            },
        },
{
    let ghost b = buffer@;
    if buffer.len() < 4 {
        return Ok(None);
    }
    if buffer[0] != 0xba || buffer[1] != 0xd2 || buffer[2] != 0xac || buffer[3] != 0xe5 {
        assert(b.take(4)[0] == b[0] && b.take(4)[1] == b[1] && b.take(4)[2] == b[2] && b.take(
            4,
        )[3] == b[3]);
        return Err(invalid("invalid message synchronization bytes"));
    }
    assert(b.take(4) =~= sync());
    if buffer.len() < 9 {
        return Ok(None);
    }
    let length = (buffer[7] as usize) * 256 + (buffer[8] as usize);
    if length > MAX_PAYLOAD {
        return Err(invalid("received payload exceeds 8192 bytes"));
    }
    if buffer.len() < 9 + length {
        return Ok(None);
    }
    let source = buffer[4];
    let kind = buffer[6];
    let mut payload: Vec<u8> = Vec::new();
    for i in 0..length
        invariant
            buffer@ == b,
            length == announced_length(b),
            9 + length <= b.len(),
            payload@ == b.subrange(9, 9 + i),
    {
        payload.push(buffer[9 + i]);
        assert(b.subrange(9, 9 + i + 1) =~= b.subrange(9, 9 + i).push(b[9 + i]));
    }
    let rest = buffer.split_off(9 + length);
    *buffer = rest;
    assert(buffer@ =~= b.skip(9 + length));
    Ok(Some(Message { source, kind, payload }))
}

/// The frame a client sends to open a connection; `force` asks the frame to
/// evict another connection when it has no capacity left.
pub fn handshake_request(force: bool) -> (r: Vec<u8>)
    ensures
        r@ == frame(0, 0x10, 0x4a, seq![0u8, 0xffu8, 0x03u8, 2u8, 0u8, if force { 1u8 } else { 0u8 }]),
{
    let payload: Vec<u8> = vec![0, 0xff, 0x03, 2, 0, if force { 1 } else { 0 }];
    assert(payload@ =~= seq![0u8, 0xffu8, 0x03u8, 2u8, 0u8, if force { 1u8 } else { 0u8 }]);
    match encode(0x10, 0x4a, payload.as_slice()) {
        Ok(f) => f,
        Err(_) => {
            assert(false);
            Vec::new()
        },
    }
}

/// Whether a message answers the connection handshake.
pub open spec fn is_handshake_reply(m: Message) -> bool {
    &&& m.source == 0x10
    &&& m.kind == 0xca
    &&& m.payload@.len() >= 3
    &&& m.payload@[1] == 0xff
    &&& m.payload@[2] == 0x03
}

pub fn handshake_reply(m: &Message) -> (b: bool)
    ensures
        b == is_handshake_reply(*m),
{
    m.source == 0x10 && m.kind == 0xca && m.payload.len() >= 3 && m.payload[1] == 0xff
        && m.payload[2] == 0x03
}

/// The verdict of a handshake reply.
pub enum Verdict {
    /// The reply is too short or its length byte disagrees with its size.
    Malformed,
    /// The reply carries a nonzero status code.
    Failed(u8),
    /// The frame refused the connection for the given reason.
    Refused(Seq<char>),
    /// The connection is admitted.
    Admitted,
}

/// The reason that a refusal carries in bytes 8 and 9.
pub open spec fn refusal_reason(p: Seq<u8>) -> Seq<char> {
    if p.len() >= 10 {
        let code = p[8] as nat * 256 + p[9] as nat;
        if code == 0 {
            "no connection available"@
        } else if code == 1 {
            "trusted authentication required"@
        } else if code == 2 {
            "password rejected"@
        } else {
            "unspecified reason"@
        }
    } else {
        "unspecified reason"@
    }
}

pub open spec fn verdict(p: Seq<u8>) -> Verdict {
    if p.len() < 6 || p[3] as int != p.len() - 4 {
        Verdict::Malformed
    } else if p[0] != 0 {
        Verdict::Failed(p[0])
    } else if p[4] != 0 || p[5] != 0 {
        Verdict::Admitted
    } else {
        Verdict::Refused(refusal_reason(p))
    }
}

/// Whether `r` is what checking a handshake reply with payload `p` gives.
pub open spec fn handshake_result(r: Result<(), Error>, p: Seq<u8>) -> bool {
    match verdict(p) {
        Verdict::Malformed => r matches Err(e) && is_invalid(
            e,
            "malformed connection handshake response"@,
        ),
        Verdict::Failed(code) => r matches Err(e) && is_refused(
            e,
            "connection handshake returned code "@ + dec(code as nat),
        ),
        Verdict::Refused(reason) => r matches Err(e) && is_refused(
            e,
            "connection refused: "@ + reason,
        ),
        Verdict::Admitted => r is Ok,
    }
}

/// How a handshake reply is judged, for every reply: it is malformed
/// exactly when it is shorter than six bytes or its length byte (byte 3)
/// does not count the bytes after the first four; a well-formed reply with
/// a nonzero status (byte 0) fails with that code; otherwise the connection
/// is admitted exactly when bytes 4 and 5 are not both zero, whatever the
/// reply's length, and else refused.
pub proof fn law_handshake_verdict(p: Seq<u8>)
    ensures
        verdict(p) is Malformed <==> (p.len() < 6 || p[3] as int != p.len() - 4),
        !(verdict(p) is Malformed) && p[0] != 0 ==> verdict(p) == Verdict::Failed(p[0]),
        !(verdict(p) is Malformed) && p[0] == 0 ==> (verdict(p) is Admitted <==> (p[4] != 0
            || p[5] != 0)),
        !(verdict(p) is Malformed) && p[0] == 0 && p[4] == 0 && p[5] == 0 ==> verdict(p) is Refused,
{
}

/// Checks the payload of a handshake reply.
pub fn validate_handshake(payload: &[u8]) -> (r: Result<(), Error>)
    ensures
        handshake_result(r, payload@),
        r is Ok <==> (payload@.len() >= 6 && payload@[3] as int == payload@.len() - 4
            && payload@[0] == 0 && (payload@[4] != 0 || payload@[5] != 0)),
{
    if payload.len() < 6 || payload[3] as usize != payload.len() - 4 {
        return Err(invalid("malformed connection handshake response"));
    }
    if payload[0] != 0 {
        let mut m = "connection handshake returned code ".to_string();
        push_dec(&mut m, payload[0] as u64);
        return Err(Error::Refused(m));
    }
    if payload[4] != 0 || payload[5] != 0 {
        return Ok(());
    }
    let reason = if payload.len() >= 10 {
        let code = (payload[8] as u16) * 256 + (payload[9] as u16);
        if code == 0 {
            "no connection available"
        } else if code == 1 {
            "trusted authentication required"
        } else if code == 2 {
            "password rejected"
        } else {
            "unspecified reason"
        }
    } else {
        "unspecified reason"
    };
    let mut m = "connection refused: ".to_string();
    push_str(&mut m, reason);
    Err(Error::Refused(m))
}

/// Checks a received message: a handshake reply that does not admit the
/// connection is an error, every other message passes.
pub fn check_handshake_reply(m: &Message) -> (r: Result<(), Error>)
    ensures
        !is_handshake_reply(*m) ==> r is Ok,
        is_handshake_reply(*m) ==> handshake_result(r, m.payload@),
{
    if handshake_reply(m) {
        validate_handshake(m.payload.as_slice())
    } else {
        Ok(())
    }
}

/// What waiting for the connection handshake makes of one received message:
/// `None` to wait on, or the outcome of the connection, which a handshake
/// reply decides.
pub fn handshake_outcome(m: &Message) -> (r: Option<Result<(), Error>>)
    ensures
        !is_handshake_reply(*m) ==> r is None,
        is_handshake_reply(*m) ==> (r matches Some(outcome) && handshake_result(outcome, m.payload@)),
{
    if handshake_reply(m) {
        Some(validate_handshake(m.payload.as_slice()))
    } else {
        None
    }
}

/// The payload of the first handshake reply among received messages.
pub open spec fn first_handshake_reply(msgs: Seq<Message>) -> Option<Seq<u8>>
    decreases msgs.len(),
{
    if msgs.len() == 0 {
        None
    } else if is_handshake_reply(msgs[0]) {
        Some(msgs[0].payload@)
    } else {
        first_handshake_reply(msgs.drop_first())
    }
}

/// Waiting for the handshake stops at the first handshake reply: the
/// messages before it, whatever they hold, do not decide, and neither do
/// those after it, so the connection's outcome is the verdict of that
/// reply's payload alone.
pub proof fn law_first_handshake_reply_decides(
    before: Seq<Message>,
    reply: Message,
    after: Seq<Message>,
)
    requires
        forall|i: int| 0 <= i < before.len() ==> !is_handshake_reply(#[trigger] before[i]),
        is_handshake_reply(reply),
    ensures
        first_handshake_reply(before.push(reply) + after) == Some(reply.payload@),
    decreases before.len(),
{
    let msgs = before.push(reply) + after;
    if before.len() == 0 {
        assert(msgs[0] == reply);
    } else {
        let rest = before.drop_first();
        assert forall|i: int| 0 <= i < rest.len() implies !is_handshake_reply(#[trigger] rest[i]) by {
            assert(rest[i] == before[i + 1]);
        }
        law_first_handshake_reply_decides(rest, reply, after);
        assert(msgs.drop_first() =~= rest.push(reply) + after);
        assert(msgs[0] == before[0]);
    }
}

/// Largest slot number that a command can address.
pub const MAX_SLOT: u8 = 45;

/// Largest command text, in UTF-8 bytes.
pub const MAX_COMMAND_BYTES: usize = 259;

/// The frame that sends a text command to the card in `slot`: the text and
/// a terminating NUL, addressed to `0x10 + slot`, of kind 0x44.
pub fn command_frame(slot: u8, command: &str) -> (r: Result<Vec<u8>, Error>)
    ensures
        slot > MAX_SLOT ==> (r matches Err(e) && is_invalid(e, "slot must be between 0 and 45"@)),
        slot <= MAX_SLOT && (command@.len() == 0 || command@.contains('\0')) ==> (r matches Err(e)
            && is_invalid(e, "command must be nonempty and contain no NUL bytes"@)),
        slot <= MAX_SLOT && command@.len() > 0 && !command@.contains('\0')
            && command.spec_bytes().len() > MAX_COMMAND_BYTES ==> (r matches Err(e) && is_invalid(
            e,
            "command exceeds the 259-byte text limit"@,
        )),
        slot <= MAX_SLOT && command@.len() > 0 && !command@.contains('\0')
            && command.spec_bytes().len() <= MAX_COMMAND_BYTES ==> (r matches Ok(f) && f@ == frame(
            0,
            (0x10 + slot) as u8,
            0x44,
            command.spec_bytes().push(0),
        )),
        r matches Ok(f) ==> f@[4] == 0 && f@[5] == 0x10 + slot && f@[6] == 0x44 && f@.skip(9)
            == command.spec_bytes().push(0),
{
    if slot > MAX_SLOT {
        return Err(invalid("slot must be between 0 and 45"));
    }
    let chars = chars_of(command);
    let mut nul = false;
    for i in 0..chars.len()
        invariant
            chars@ == command@,
            nul ==> command@.contains('\0'),
            !nul ==> forall|j: int| 0 <= j < i ==> command@[j] != '\0',
    {
        if chars[i] == '\0' {
            assert(command@[i as int] == '\0');
            nul = true;
        }
    }
    if chars.len() == 0 || nul {
        return Err(invalid("command must be nonempty and contain no NUL bytes"));
    }
    let bytes = command.as_bytes();
    if bytes.len() > MAX_COMMAND_BYTES {
        return Err(invalid("command exceeds the 259-byte text limit"));
    }
    let mut payload = slice_to_vec(bytes);
    payload.push(0);
    encode(0x10 + slot, 0x44, payload.as_slice())
}

} // verus!
