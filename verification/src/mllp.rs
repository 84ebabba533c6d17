//! MLLP framing: every message travels as `VT <payload> FS CR`.

use vstd::prelude::*;
use vstd::slice::slice_subrange;
use vstd::string::*;
use vstd::utf8::{decode_utf8, encode_utf8, valid_utf8};
use crate::hl7::identity::{is_control_id, is_stamp};
use crate::hl7::parser::{
    ack_text, build_ack, default_nack, default_nack_text, parse_failure, parse_message, parsed,
};
use crate::hl7::types::Hl7Message;

verus! {

/// Vertical tab, the byte that opens a frame.
pub const MLLP_START: u8 = 0x0B;

/// File separator, the first byte of the trailer.
pub const MLLP_END_1: u8 = 0x1C;

/// Carriage return, the second byte of the trailer.
pub const MLLP_END_2: u8 = 0x0D;

/// `buf` holds the trailer `FS CR` at position `e`.
pub open spec fn trailer_at(buf: Seq<u8>, e: int) -> bool {
    &&& 0 <= e
    &&& e + 1 < buf.len()
    &&& buf[e] == MLLP_END_1
    &&& buf[e + 1] == MLLP_END_2
}

/// The first complete frame of `buf` opens at `s` and its trailer stands at `e`:
/// `s` is the first `VT` of the buffer and `e` the first trailer behind it.
pub open spec fn first_frame_at(buf: Seq<u8>, s: int, e: int) -> bool {
    &&& 0 <= s < e
    &&& buf[s] == MLLP_START
    &&& forall|j: int| 0 <= j < s ==> buf[j] != MLLP_START
    &&& trailer_at(buf, e)
    &&& forall|j: int| s < j < e ==> !trailer_at(buf, j)
}

/// Whether `buf` holds a complete frame.
pub open spec fn has_frame(buf: Seq<u8>) -> bool {
    exists|s: int, e: int| first_frame_at(buf, s, e)
}

/// Locates the first complete frame: the index of its `VT` and the index of
/// the `FS` of its trailer.
pub fn find_frame(buf: &[u8]) -> (r: Option<(usize, usize)>)
    ensures
        r matches Some((s, e)) ==> first_frame_at(buf@, s as int, e as int),
        r is None ==> !has_frame(buf@),
{
    let n: usize = buf.len();
    let mut s: usize = 0;
    while s < n && buf[s] != MLLP_START
        invariant
            s <= n,
            n == buf@.len(),
            forall|j: int| 0 <= j < s ==> buf@[j] != MLLP_START,
        decreases n - s,
    {
        s += 1;
    }
    if s >= n {
        assert forall|a: int, b: int| !first_frame_at(buf@, a, b) by {}
        return None;
    }
    let mut e: usize = s + 1;
    while e < n - 1
        invariant
            s < e,
            e <= n,
            s < n,
            n == buf@.len(),
            buf@[s as int] == MLLP_START,
            forall|j: int| 0 <= j < s ==> buf@[j] != MLLP_START,
            forall|j: int| s < j < e ==> !trailer_at(buf@, j),
        decreases n - e,
    {
        if buf[e] == MLLP_END_1 && buf[e + 1] == MLLP_END_2 {
            return Some((s, e));
        }
        e += 1;
    }
    assert forall|a: int, b: int| !first_frame_at(buf@, a, b) by {
        if first_frame_at(buf@, a, b) {
            if a < s {
            } else if a > s {
            } else {
                assert(b + 1 < n);
                assert(b < e);
            }
        }
    }
    None
}

/// The text that a run of bytes decodes to when every invalid part is
/// replaced by U+FFFD.
pub uninterp spec fn lossy_text(bytes: Seq<u8>) -> Seq<char>;

/// Decodes a payload as UTF-8, with the replacement character in place of
/// what is not valid.
///
/// Trusted: `String::from_utf8_lossy` of the standard library. Its result
/// depends on the bytes alone; the contract gives it a name and states that
/// valid UTF-8 decodes to the text it encodes.
#[verifier::external_body]
fn decode_lossy(bytes: &[u8]) -> (s: String)
    ensures
        s@ == lossy_text(bytes@),
        valid_utf8(bytes@) ==> s@ == decode_utf8(bytes@),
{
    String::from_utf8_lossy(bytes).into_owned()
}

/// Extracts the first complete frame of `buf`: its payload as text, and the
/// number of bytes to drop from the front of the buffer, which counts the
/// envelope and whatever stood before it.
pub fn extract_mllp_frame(buf: &[u8]) -> (r: Option<(String, usize)>)
    ensures
        r is Some <==> has_frame(buf@),
        r matches Some((text, consumed)) ==> exists|s: int, e: int|
            #![trigger first_frame_at(buf@, s, e)]
            first_frame_at(buf@, s, e) && consumed == e + 2 && text@ == lossy_text(
                buf@.subrange(s + 1, e),
            ) && (valid_utf8(buf@.subrange(s + 1, e)) ==> text@ == decode_utf8(
                buf@.subrange(s + 1, e),
            )),
{
    let n: usize = buf.len();
    match find_frame(buf) {
        Some((s, e)) => {
            assert(e + 1 < n);
            let payload = slice_subrange(buf, s + 1, e);
            let text = decode_lossy(payload);
            let consumed: usize = e + 2;
            assert(first_frame_at(buf@, s as int, e as int));
            Some((text, consumed))
        },
        None => None,
    }
}

/// The frame that carries a payload.
pub open spec fn framed(payload: Seq<u8>) -> Seq<u8> {
    seq![MLLP_START] + payload + seq![MLLP_END_1, MLLP_END_2]
}

/// Wraps a message in the MLLP envelope.
pub fn wrap_mllp(message: &str) -> (frame: Vec<u8>)
    ensures
        frame@ == framed(encode_utf8(message@)),
{
    let bytes = message.as_bytes();
    let mut frame: Vec<u8> = Vec::new();
    frame.push(MLLP_START);
    let mut i: usize = 0;
    while i < bytes.len()
        invariant
            i <= bytes@.len(),
            frame@ == seq![MLLP_START] + bytes@.take(i as int),
        decreases bytes@.len() - i,
    {
        frame.push(bytes[i]);
        i += 1;
        assert(frame@ =~= seq![MLLP_START] + bytes@.take(i as int));
    }
    frame.push(MLLP_END_1);
    frame.push(MLLP_END_2);
    assert(bytes@.take(i as int) =~= bytes@);
    assert(frame@ =~= framed(bytes@));
    frame
}

/// Whether `payload` holds no `FS` that a `CR` follows.
pub open spec fn trailer_free(payload: Seq<u8>) -> bool {
    forall|j: int| !trailer_at(payload, j)
}

/// A buffer has at most one first frame.
pub proof fn lemma_first_frame_unique(buf: Seq<u8>, s1: int, e1: int, s2: int, e2: int)
    requires
        first_frame_at(buf, s1, e1),
        first_frame_at(buf, s2, e2),
    ensures
        s1 == s2,
        e1 == e2,
{
    if s1 < s2 {
        assert(buf[s1] != MLLP_START);
    } else if s2 < s1 {
        assert(buf[s2] != MLLP_START);
    } else if e1 < e2 {
        assert(!trailer_at(buf, e1));
    } else if e2 < e1 {
        assert(!trailer_at(buf, e2));
    }
}

/// Wrapping the payload of the first frame of a buffer gives the buffer back
/// exactly when the buffer is that one frame and nothing else.
pub proof fn lemma_rewrap(buf: Seq<u8>, s: int, e: int)
    requires
        first_frame_at(buf, s, e),
    ensures
        framed(buf.subrange(s + 1, e)) == buf <==> s == 0 && e + 2 == buf.len(),
{
    let again = framed(buf.subrange(s + 1, e));
    assert(again.len() == e - s + 2);
    if s == 0 && e + 2 == buf.len() {
        assert(again =~= buf);
    }
    if again == buf {
        if s > 0 {
            assert(again[0] == MLLP_START);
            assert(buf[0] != MLLP_START);
        }
    }
}

/// The frame around a payload without a trailer is the first frame of what
/// `framed` gives, and spans all of it.
pub proof fn lemma_framed_is_one_frame(payload: Seq<u8>)
    requires
        trailer_free(payload),
    ensures
        first_frame_at(framed(payload), 0, payload.len() as int + 1),
        framed(payload).subrange(1, payload.len() as int + 1) == payload,
        framed(payload).len() == payload.len() + 3,
{
    let f = framed(payload);
    assert(f.subrange(1, payload.len() as int + 1) =~= payload);
    assert forall|j: int| 0 < j < payload.len() + 1 implies !trailer_at(f, j) by {
        if trailer_at(f, j) {
            assert(f[j] == payload[j - 1]);
            if j < payload.len() {
                assert(f[j + 1] == payload[j]);
                assert(trailer_at(payload, j - 1));
            } else {
                assert(f[j + 1] == MLLP_END_1);
            }
        }
    }
}

/// A frame that has not arrived in full is no frame yet: no proper prefix of
/// the frame around a payload without a trailer holds a complete frame. A
/// frame fed in two parts is therefore extracted once, when its last byte is
/// there.
pub proof fn lemma_prefix_has_no_frame(payload: Seq<u8>, k: int)
    requires
        trailer_free(payload),
        0 <= k < payload.len() + 3,
    ensures
        !has_frame(framed(payload).take(k)),
{
    let f = framed(payload);
    let p = f.take(k);
    lemma_framed_is_one_frame(payload);
    assert forall|s: int, e: int| !first_frame_at(p, s, e) by {
        if first_frame_at(p, s, e) {
            assert(p[0] == f[0]);
            if s > 0 {
                assert(p[0] != MLLP_START);
            }
            assert(p[e] == f[e] && p[e + 1] == f[e + 1]);
            assert(trailer_at(f, e));
            assert(e < payload.len() + 1);
        }
    }
}

/// A frame that arrives in two parts, cut at any place, is extracted once:
/// the first part alone holds no complete frame unless it is the whole, and
/// the two parts together hold the frame with the payload that was wrapped.
pub proof fn lemma_incremental_feed(payload: Seq<u8>, k: int)
    requires
        trailer_free(payload),
        0 <= k <= payload.len() + 3,
    ensures
        k < payload.len() + 3 ==> !has_frame(framed(payload).take(k)),
        first_frame_at(
            framed(payload).take(k) + framed(payload).skip(k),
            0,
            payload.len() as int + 1,
        ),
        (framed(payload).take(k) + framed(payload).skip(k)).subrange(
            1,
            payload.len() as int + 1,
        ) == payload,
{
    let f = framed(payload);
    lemma_framed_is_one_frame(payload);
    assert(f.take(k) + f.skip(k) =~= f);
    if k < payload.len() + 3 {
        lemma_prefix_has_no_frame(payload, k);
    }
}

/// A text whose UTF-8 form holds no trailer comes back from its frame as it
/// went in.
pub proof fn lemma_text_survives_framing(text: Seq<char>)
    requires
        trailer_free(encode_utf8(text)),
    ensures
        first_frame_at(framed(encode_utf8(text)), 0, encode_utf8(text).len() as int + 1),
        valid_utf8(framed(encode_utf8(text)).subrange(1, encode_utf8(text).len() as int + 1)),
        decode_utf8(framed(encode_utf8(text)).subrange(1, encode_utf8(text).len() as int + 1)) == text,
{
    lemma_framed_is_one_frame(encode_utf8(text));
    vstd::utf8::encode_utf8_valid_utf8(text);
    vstd::utf8::encode_utf8_decode_utf8(text);
}

/// The counter after one more event; it starts over behind its last value.
pub open spec fn bump(n: u64) -> u64 {
    if n == u64::MAX {
        0
    } else {
        (n + 1) as u64
    }
}

/// The counter after one more event.
fn bumped(n: u64) -> (r: u64)
    ensures
        r == bump(n),
{
    if n == u64::MAX {
        0
    } else {
        n + 1
    }
}

/// The counters of the MLLP server.
#[derive(Debug, Clone, Copy, PartialEq, Eq, Structural)]
pub struct MllpStats {
    pub received: u64,
    pub parsed_ok: u64,
    pub parse_errors: u64,
    pub active_connections: u64,
}

impl MllpStats {
    /// Counters that stand at zero.
    pub fn new() -> (s: Self)
        ensures
            s == (MllpStats { received: 0, parsed_ok: 0, parse_errors: 0, active_connections: 0 }),
    {
        MllpStats { received: 0, parsed_ok: 0, parse_errors: 0, active_connections: 0 }
    }
}

/// What the handler does with one frame: the bytes to write back, and the
/// message to store, if the payload parsed.
pub struct FrameOutcome {
    pub reply: Vec<u8>,
    pub message: Option<Hl7Message>,
}

/// Handles the payload of one frame that came from `peer`: counts it, parses
/// it and prepares the reply. A payload that parses is counted as parsed,
/// answered with an `AA` acknowledgment and handed back for storing; any
/// other is counted as an error, answered with the default `AE`
/// acknowledgment and not stored.
pub fn process_frame(payload: &str, peer: &str, stats: &mut MllpStats) -> (out: FrameOutcome)
    ensures
        final(stats).received == bump(old(stats).received),
        final(stats).active_connections == old(stats).active_connections,
        parse_failure(payload@) is None ==> {
            &&& final(stats).parsed_ok == bump(old(stats).parsed_ok)
            &&& final(stats).parse_errors == old(stats).parse_errors
            &&& out.message matches Some(m) && m@ == parsed(
                payload@,
                peer@,
                m@.id,
                m@.received_at,
            ) && exists|stamp: Seq<char>, control_id: Seq<char>|
                #![trigger ack_text(m@, "AA"@, stamp, control_id)]
                out.reply@ == framed(encode_utf8(ack_text(m@, "AA"@, stamp, control_id)))
                    && is_stamp(stamp) && is_control_id(control_id)
        },
        parse_failure(payload@) is Some ==> {
            &&& final(stats).parsed_ok == old(stats).parsed_ok
            &&& final(stats).parse_errors == bump(old(stats).parse_errors)
            &&& out.message is None
            &&& out.reply@ == framed(encode_utf8(default_nack_text()))
        },
{
    stats.received = bumped(stats.received);
    match parse_message(payload, peer) {
        Ok(msg) => {
            stats.parsed_ok = bumped(stats.parsed_ok);
            let ack = build_ack(&msg, "AA");
            let reply = wrap_mllp(ack.as_str());
            FrameOutcome { reply, message: Some(msg) }
        },
        Err(_) => {
            stats.parse_errors = bumped(stats.parse_errors);
            let nack = default_nack();
            let reply = wrap_mllp(nack.as_str());
            FrameOutcome { reply, message: None }
        },
    }
}

/// The receiving side of one connection: the bytes that arrived and are not
/// framed yet, and the most that it may hold.
pub struct Connection {
    accumulated: Vec<u8>,
    max_size: usize,
}

impl Connection {
    /// The bytes held.
    pub closed spec fn buffer(&self) -> Seq<u8> {
        self.accumulated@
    }

    /// The most bytes that the connection may hold.
    pub closed spec fn limit(&self) -> nat {
        self.max_size as nat
    }

    /// A connection that holds nothing yet.
    pub fn new(max_size: usize) -> (c: Self)
        ensures
            c.buffer() == Seq::<u8>::empty(),
            c.limit() == max_size,
    {
        Connection { accumulated: Vec::with_capacity(8192), max_size }
    }

    /// Whether nothing is held: the peer may then leave without a trace.
    pub fn is_idle(&self) -> (r: bool)
        ensures
            r == (self.buffer().len() == 0),
    {
        self.accumulated.len() == 0
    }

    /// Takes the bytes of one read. The answer is whether the connection may
    /// go on: it may not once it holds more than its limit.
    pub fn receive(&mut self, chunk: &[u8]) -> (ok: bool)
        ensures
            final(self).buffer() == old(self).buffer() + chunk@,
            final(self).limit() == old(self).limit(),
            ok == (final(self).buffer().len() <= old(self).limit()),
    {
        let mut i: usize = 0;
        while i < chunk.len()
            invariant
                i <= chunk@.len(),
                self.max_size == old(self).max_size,
                self.accumulated@ == old(self).accumulated@ + chunk@.take(i as int),
            decreases chunk@.len() - i,
        {
            self.accumulated.push(chunk[i]);
            i += 1;
            assert(self.accumulated@ =~= old(self).accumulated@ + chunk@.take(i as int));
        }
        assert(chunk@.take(i as int) =~= chunk@);
        self.accumulated.len() <= self.max_size
    }

    /// Takes the first complete frame out of the buffer, with everything that
    /// stood before it, and returns its payload as text. Without a complete
    /// frame the buffer stays as it is.
    pub fn next_frame(&mut self) -> (r: Option<String>)
        ensures
            final(self).limit() == old(self).limit(),
            r is Some <==> has_frame(old(self).buffer()),
            r is None ==> final(self).buffer() == old(self).buffer(),
            r matches Some(text) ==> exists|s: int, e: int|
                #![trigger first_frame_at(old(self).buffer(), s, e)]
                first_frame_at(old(self).buffer(), s, e) && text@ == lossy_text(
                    old(self).buffer().subrange(s + 1, e),
                ) && (valid_utf8(old(self).buffer().subrange(s + 1, e)) ==> text@ == decode_utf8(
                    old(self).buffer().subrange(s + 1, e),
                )) && final(self).buffer() == old(self).buffer().skip(e + 2),
    {
        let n: usize = self.accumulated.len();
        match find_frame(self.accumulated.as_slice()) {
            Some((s, e)) => {
                assert(e + 1 < n);
                let text = decode_lossy(slice_subrange(self.accumulated.as_slice(), s + 1, e));
                let mut rest: Vec<u8> = Vec::new();
                let mut i: usize = e + 2;
                while i < n
                    invariant
                        e + 2 <= i <= n,
                        n == self.accumulated@.len(),
                        self.accumulated@ == old(self).accumulated@,
                        self.max_size == old(self).max_size,
                        rest@ == old(self).accumulated@.subrange(e + 2, i as int),
                    decreases n - i,
                {
                    rest.push(self.accumulated[i]);
                    i += 1;
                    assert(rest@ =~= old(self).accumulated@.subrange(e + 2, i as int));
                }
                self.accumulated = rest;
                assert(self.accumulated@ =~= old(self).accumulated@.skip(e + 2));
                assert(first_frame_at(old(self).buffer(), s as int, e as int));
                Some(text)
            },
            None => None,
        }
    }
}

} // verus!
