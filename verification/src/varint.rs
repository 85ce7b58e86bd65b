//! Base-128 variable-length integers, as they prefix every message on the wire.

use protobuf::error::WireError;
use protobuf::{CodedInputStream, CodedOutputStream, ProtobufError};
use vstd::prelude::*;

verus! {

/// The base-128 encoding of `v`: seven bits per byte, least significant group
/// first, the high bit set on every byte but the last.
pub open spec fn varint(v: nat) -> Seq<u8>
    decreases v,
{
    if v < 128 {
        seq![v as u8]
    } else {
        seq![(v % 128 + 128) as u8] + varint(v / 128)
    }
}

/// What a scan for one variable-length integer finds at the front of a byte
/// sequence.
pub enum VarintScan {
    /// A complete integer, with the sum of its seven-bit groups.
    Value(nat),
    /// The bytes end before the integer does.
    Incomplete,
    /// No byte among the first ten ends the integer.
    Malformed,
}

/// Scans at most `room` bytes for the end of one integer.
pub open spec fn scan_varint(bytes: Seq<u8>, room: nat) -> VarintScan
    decreases room,
{
    if room == 0 {
        VarintScan::Malformed
    } else if bytes.len() == 0 {
        VarintScan::Incomplete
    } else if bytes[0] < 0x80 {
        VarintScan::Value(bytes[0] as nat)
    } else {
        match scan_varint(bytes.skip(1), (room - 1) as nat) {
            VarintScan::Value(rest) => VarintScan::Value((bytes[0] - 0x80) as nat + 128 * rest),
            other => other,
        }
    }
}

/// Result of reading a 32-bit variable-length integer from a byte slice.
#[derive(Debug, Clone, Copy, PartialEq, Eq, Structural)]
pub enum VarintRead {
    /// The integer, reduced to its low 32 bits.
    Value(u32),
    /// More bytes are needed.
    Incomplete,
    /// The bytes cannot begin an integer.
    Malformed,
}

/// The 32-bit integer at the front of `bytes`: an integer may span up to ten
/// bytes, and only its low 32 bits are kept.
pub open spec fn decode_varint32(bytes: Seq<u8>) -> VarintRead {
    match scan_varint(bytes, 10) {
        VarintScan::Value(v) => VarintRead::Value((v % 0x1_0000_0000) as u32),
        VarintScan::Incomplete => VarintRead::Incomplete,
        VarintScan::Malformed => VarintRead::Malformed,
    }
}

/// Appends the encoding of `value` to `out`.
///
/// Trusted: calls `protobuf::CodedOutputStream::write_raw_varint32` on a
/// stream over `out` and flushes it. The claim is that exactly the bytes of
/// `varint(value)` are appended; on a vector target neither call fails.
#[verifier::external_body]
pub(crate) fn write_varint32(out: &mut Vec<u8>, value: u32)
    ensures
        final(out)@ == old(out)@ + varint(value as nat),
{
    let mut stream = CodedOutputStream::vec(out);
    let _ = stream.write_raw_varint32(value);
    let _ = stream.flush();
}

/// Reads one 32-bit integer from the front of `bytes`.
///
/// Trusted: calls `protobuf::CodedInputStream::read_raw_varint32` on a stream
/// over `bytes`. The claim is that it scans at most ten bytes for one below
/// `0x80`, sums the seven-bit groups and keeps the low 32 bits; that it
/// reports the end of input when the bytes run out first; and that it reports
/// a malformed integer when ten bytes do not end it.
#[verifier::external_body]
pub(crate) fn read_varint32(bytes: &[u8]) -> (r: VarintRead)
    ensures
        r == decode_varint32(bytes@),
{
    match CodedInputStream::from_bytes(bytes).read_raw_varint32() {
        Ok(value) => VarintRead::Value(value),
        Err(ProtobufError::WireError(WireError::UnexpectedEof)) => VarintRead::Incomplete,
        Err(_) => VarintRead::Malformed,
    }
}

} // verus!
