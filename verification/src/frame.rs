//! Length-delimited framing: every message travels as the variable-length
//! encoding of its byte length, followed by exactly that many bytes.

use crate::varint::{decode_varint32, scan_varint, varint, write_varint32, VarintRead, VarintScan};
use vstd::prelude::*;

verus! {

/// Largest message, in bytes, that is framed or accepted. A length prefix
/// above it is refused before any buffer for the message is allocated.
pub const MAX_MESSAGE_LEN: u32 = 0x0400_0000;

/// The wire form of one message.
pub open spec fn frame(payload: Seq<u8>) -> Seq<u8> {
    varint(payload.len()) + payload
}

/// Number of bytes that a scan of at most `room` bytes consumes: up to and
/// including the first byte below `0x80`.
pub open spec fn scanned_len(bytes: Seq<u8>, room: nat) -> nat
    decreases room,
{
    if room == 0 || bytes.len() == 0 {
        0
    } else if bytes[0] < 0x80 {
        1
    } else {
        1 + scanned_len(bytes.skip(1), (room - 1) as nat)
    }
}

/// Number of bytes that the length prefix at the front of `bytes` occupies.
pub open spec fn prefix_len(bytes: Seq<u8>) -> nat {
    scanned_len(bytes, 10)
}

/// What the front of a byte stream holds, read as one frame.
pub enum FrameRead {
    /// A whole frame: its message, and the number of bytes it occupies.
    Complete { payload: Seq<u8>, consumed: nat },
    /// The bytes end inside the length prefix or inside the message.
    Truncated,
    /// The length prefix announces more than `MAX_MESSAGE_LEN` bytes.
    Oversized,
    /// The length prefix is not a variable-length integer.
    Malformed,
}

/// Reads one frame from the front of `bytes`.
pub open spec fn read_frame(bytes: Seq<u8>) -> FrameRead {
    match decode_varint32(bytes) {
        VarintRead::Incomplete => FrameRead::Truncated,
        VarintRead::Malformed => FrameRead::Malformed,
        VarintRead::Value(n) => {
            let start = prefix_len(bytes);
            if n > MAX_MESSAGE_LEN {
                FrameRead::Oversized
            } else if bytes.len() < start + n {
                FrameRead::Truncated
            } else {
                FrameRead::Complete {
                    payload: bytes.subrange(start as int, start + n),
                    consumed: start + n as nat,
                }
            }
        },
    }
}

/// Why a message could not be framed.
#[derive(Debug, Clone, Copy, PartialEq, Eq, Structural)]
pub enum FrameError {
    /// The message is longer than `MAX_MESSAGE_LEN`.
    Oversized,
}

/// Frames `payload` for the wire.
pub fn encode_frame(payload: &[u8]) -> (r: Result<Vec<u8>, FrameError>)
    ensures
        match r {
            Ok(bytes) => payload@.len() <= MAX_MESSAGE_LEN && bytes@ == frame(payload@),
            Err(e) => e == FrameError::Oversized && payload@.len() > MAX_MESSAGE_LEN,
        },
{
    if payload.len() > MAX_MESSAGE_LEN as usize {
        return Err(FrameError::Oversized);
    }
    let mut bytes: Vec<u8> = Vec::new();
    write_varint32(&mut bytes, payload.len() as u32);
    bytes.extend_from_slice(payload);
    Ok(bytes)
}

/// A scan is incomplete exactly when the bytes run out, every one of them
/// with its high bit set, before the room does.
pub(crate) proof fn lemma_scan_incomplete(bytes: Seq<u8>, room: nat)
    ensures
        scan_varint(bytes, room) is Incomplete <==> bytes.len() < room && forall|i: int|
            0 <= i < bytes.len() ==> bytes[i] >= 0x80,
        scan_varint(bytes, room) is Incomplete ==> scanned_len(bytes, room) == bytes.len(),
    decreases room,
{
    if room > 0 && bytes.len() > 0 && bytes[0] >= 0x80 {
        let rest = bytes.skip(1);
        lemma_scan_incomplete(rest, (room - 1) as nat);
        if scan_varint(bytes, room) is Incomplete {
            assert forall|i: int| 0 <= i < bytes.len() implies bytes[i] >= 0x80 by {
                if i > 0 {
                    assert(bytes[i] == rest[i - 1]);
                }
            }
        }
        if bytes.len() < room && forall|i: int| 0 <= i < bytes.len() ==> bytes[i] >= 0x80 {
            assert forall|i: int| 0 <= i < rest.len() implies rest[i] >= 0x80 by {
                assert(rest[i] == bytes[i + 1]);
            }
        }
    }
}

/// Once a scan has found an integer, or has found that there is none, bytes
/// that follow change nothing.
pub(crate) proof fn lemma_scan_stable(bytes: Seq<u8>, more: Seq<u8>, room: nat)
    requires
        !(scan_varint(bytes, room) is Incomplete),
    ensures
        scan_varint(bytes + more, room) == scan_varint(bytes, room),
        scanned_len(bytes + more, room) == scanned_len(bytes, room),
    decreases room,
{
    if room > 0 && bytes.len() > 0 {
        let all = bytes + more;
        assert(all[0] == bytes[0]);
        if bytes[0] >= 0x80 {
            assert(all.skip(1) =~= bytes.skip(1) + more);
            lemma_scan_stable(bytes.skip(1), more, (room - 1) as nat);
        }
    }
}

/// A scan that is complete with its last byte, and not before, has consumed
/// every byte.
pub(crate) proof fn lemma_scan_ends(bytes: Seq<u8>, room: nat)
    requires
        bytes.len() >= 1,
        scan_varint(bytes.drop_last(), room) is Incomplete,
        !(scan_varint(bytes, room) is Incomplete),
    ensures
        scanned_len(bytes, room) == bytes.len(),
    decreases room,
{
    let front = bytes.drop_last();
    let rest = bytes.skip(1);
    if room > 0 {
        if bytes.len() == 1 {
            assert(rest.len() == 0);
            assert(scanned_len(rest, (room - 1) as nat) == 0);
        } else {
            assert(front[0] == bytes[0]);
            assert(front.skip(1) =~= rest.drop_last());
            if bytes[0] >= 0x80 {
                lemma_scan_ends(rest, (room - 1) as nat);
                assert(scanned_len(bytes, room) == 1 + scanned_len(rest, (room - 1) as nat));
            }
        }
    }
}

/// How a stream reads that begins with a length prefix `head` announcing `n`
/// bytes, followed by `part`.
pub(crate) proof fn lemma_read_frame_parts(head: Seq<u8>, part: Seq<u8>, n: u32)
    requires
        head.len() >= 1,
        decode_varint32(head) == VarintRead::Value(n),
        decode_varint32(head.drop_last()) is Incomplete,
    ensures
        prefix_len(head + part) == head.len(),
        decode_varint32(head + part) == VarintRead::Value(n),
        n > MAX_MESSAGE_LEN ==> read_frame(head + part) == FrameRead::Oversized,
        n <= MAX_MESSAGE_LEN && part.len() < n ==> read_frame(head + part) == FrameRead::Truncated,
        n <= MAX_MESSAGE_LEN && part.len() >= n ==> read_frame(head + part) == (
        FrameRead::Complete { payload: part.take(n as int), consumed: head.len() + n as nat }),
{
    lemma_scan_ends(head, 10);
    lemma_scan_stable(head, part, 10);
    if n <= MAX_MESSAGE_LEN && part.len() >= n {
        assert((head + part).subrange(head.len() as int, head.len() + n) =~= part.take(n as int));
    }
}

/// The encoding of a value is read back as that value, whatever follows it,
/// and no shorter prefix of it is complete.
pub(crate) proof fn lemma_scan_varint(v: nat, more: Seq<u8>, room: nat)
    requires
        varint(v).len() <= room,
    ensures
        scan_varint(varint(v) + more, room) == VarintScan::Value(v),
        scanned_len(varint(v) + more, room) == varint(v).len(),
        forall|k: int|
            0 <= k < varint(v).len() ==> scan_varint(#[trigger] varint(v).take(k), room)
                is Incomplete,
    decreases v,
{
    let enc = varint(v);
    let all = enc + more;
    assert(all[0] == enc[0]);
    if v < 128 {
        assert forall|k: int| 0 <= k < enc.len() implies scan_varint(
            #[trigger] enc.take(k),
            room,
        ) is Incomplete by {
            assert(enc.take(k).len() == 0);
        }
    } else {
        let tail = varint(v / 128);
        assert(enc.skip(1) =~= tail);
        assert(all.skip(1) =~= tail + more);
        lemma_scan_varint(v / 128, more, (room - 1) as nat);
        assert(enc[0] == (v % 128 + 128) as u8);
        assert((enc[0] - 0x80) as nat + 128 * (v / 128) == v);
        assert forall|k: int| 0 <= k < enc.len() implies scan_varint(
            #[trigger] enc.take(k),
            room,
        ) is Incomplete by {
            if k > 0 {
                let p = enc.take(k);
                assert(p[0] == enc[0]);
                assert(p.skip(1) =~= tail.take(k - 1));
            }
        }
    }
}

/// Values below 2^32 take at most five bytes.
pub(crate) proof fn lemma_varint_len(v: nat)
    ensures
        1 <= varint(v).len(),
        v < 0x80 ==> varint(v).len() == 1,
        v < 0x4000 ==> varint(v).len() <= 2,
        v < 0x20_0000 ==> varint(v).len() <= 3,
        v < 0x1000_0000 ==> varint(v).len() <= 4,
        v < 0x8_0000_0000 ==> varint(v).len() <= 5,
    decreases v,
{
    if v >= 128 {
        lemma_varint_len(v / 128);
    }
}

/// A framed message is read back whole and unchanged, whatever follows it on
/// the stream.
pub proof fn lemma_frame_round_trip(payload: Seq<u8>, more: Seq<u8>)
    requires
        payload.len() <= MAX_MESSAGE_LEN,
    ensures
        read_frame(frame(payload) + more) == (FrameRead::Complete {
            payload,
            consumed: frame(payload).len(),
        }),
{
    let n = payload.len();
    let head = varint(n);
    let all = frame(payload) + more;
    lemma_varint_len(n);
    assert(all =~= head + (payload + more));
    lemma_scan_varint(n, payload + more, 10);
    assert(all.subrange(head.len() as int, (head.len() + n) as int) =~= payload);
}

/// A frame cut short anywhere, inside its length prefix or inside its
/// message, reads as truncated: never as a shorter message.
pub proof fn lemma_frame_truncated(payload: Seq<u8>, k: int)
    requires
        payload.len() <= MAX_MESSAGE_LEN,
        0 <= k < frame(payload).len(),
    ensures
        read_frame(frame(payload).take(k)) == FrameRead::Truncated,
{
    let n = payload.len();
    let head = varint(n);
    let cut = frame(payload).take(k);
    lemma_varint_len(n);
    if k < head.len() {
        lemma_scan_varint(n, Seq::empty(), 10);
        assert(cut =~= head.take(k));
    } else {
        let part = payload.take(k - head.len());
        assert(cut =~= head + part);
        lemma_scan_varint(n, part, 10);
    }
}

/// A whole frame at the front of a stream reads the same whatever follows.
pub proof fn lemma_read_frame_stable(bytes: Seq<u8>, more: Seq<u8>)
    requires
        read_frame(bytes) is Complete,
    ensures
        read_frame(bytes + more) == read_frame(bytes),
{
    lemma_scan_stable(bytes, more, 10);
    let start = prefix_len(bytes) as int;
    let n = read_frame(bytes)->consumed - start;
    assert((bytes + more).subrange(start, start + n) =~= bytes.subrange(start, start + n));
}

/// Over a stream that carries a framed message first, a reader that takes
/// one whole frame and nothing more takes that message, byte for byte.
pub proof fn lemma_received_is_sent(payload: Seq<u8>, more: Seq<u8>, got: Seq<u8>)
    requires
        payload.len() <= MAX_MESSAGE_LEN,
        got.is_prefix_of(frame(payload) + more),
        read_frame(got) is Complete,
        read_frame(got)->consumed == got.len(),
    ensures
        got == frame(payload),
        read_frame(got)->payload == payload,
{
    let stream = frame(payload) + more;
    let rest = stream.skip(got.len() as int);
    assert(got + rest =~= stream);
    lemma_read_frame_stable(got, rest);
    lemma_frame_round_trip(payload, more);
    assert(got =~= frame(payload));
}

} // verus!
