//! The elementary encodings of the wire format: big-endian numbers, variable
//! byte integers, and byte strings that carry their own length.
//!
//! Each has a specification of the bytes that stand for a value, and one of how
//! a value is taken off the front of a byte sequence.

use vstd::prelude::*;

use crate::packet::{ErrorView, ProtocolError};

verus! {

/// What reading off the front of a byte sequence gives: the value and the bytes
/// that are left, or the error.
pub type Taken<T> = Result<(T, Seq<u8>), ErrorView>;

/// The largest number that four bytes of a variable byte integer can hold.
pub const VARINT_MAX: u32 = 268_435_455;

/// The error of a packet that breaks the format in the given way.
pub open spec fn malformed(message: &str) -> ErrorView {
    ErrorView::MalformedPacket(message@)
}

/// The error of a packet that ends too early.
pub open spec fn cut_short() -> ErrorView {
    malformed("unexpected end of packet")
}

/// A 16-bit number, high byte first.
pub open spec fn be16(value: u16) -> Seq<u8> {
    seq![(value / 256) as u8, (value % 256) as u8]
}

/// A 32-bit number, high byte first.
pub open spec fn be32(value: u32) -> Seq<u8> {
    seq![
        (value / 0x100_0000) as u8,
        (value / 0x1_0000 % 256) as u8,
        (value / 0x100 % 256) as u8,
        (value % 256) as u8,
    ]
}

/// A number in groups of seven bits, low group first; the high bit of a byte
/// says that more follow.
pub open spec fn varint(value: nat) -> Seq<u8>
    decreases value,
{
    if value < 128 {
        seq![value as u8]
    } else {
        seq![(value % 128 + 128) as u8] + varint(value / 128)
    }
}

/// A byte string behind its length. The length has 16 bits: of a longer string
/// it keeps the low 16 bits.
pub open spec fn counted(bytes: Seq<u8>) -> Seq<u8> {
    be16((bytes.len() % 0x1_0000) as u16) + bytes
}

/// A text as its UTF-8 bytes behind their length.
pub open spec fn counted_text(text: Seq<char>) -> Seq<u8> {
    counted(vstd::utf8::encode_utf8(text))
}

pub open spec fn take_bytes(s: Seq<u8>, count: nat) -> Taken<Seq<u8>> {
    if s.len() < count {
        Err(cut_short())
    } else {
        Ok((s.take(count as int), s.skip(count as int)))
    }
}

pub open spec fn take_u8(s: Seq<u8>) -> Taken<u8> {
    if s.len() < 1 {
        Err(cut_short())
    } else {
        Ok((s[0], s.skip(1)))
    }
}

pub open spec fn take_u16(s: Seq<u8>) -> Taken<u16> {
    if s.len() < 2 {
        Err(cut_short())
    } else {
        Ok(((s[0] * 256 + s[1]) as u16, s.skip(2)))
    }
}

pub open spec fn take_u32(s: Seq<u8>) -> Taken<u32> {
    if s.len() < 4 {
        Err(cut_short())
    } else {
        Ok(
            (
                (s[0] * 0x100_0000 + s[1] * 0x1_0000 + s[2] * 0x100 + s[3]) as u32,
                s.skip(4),
            ),
        )
    }
}

/// A variable byte integer of at most `limit` bytes.
pub open spec fn take_varint_within(s: Seq<u8>, limit: nat) -> Taken<nat>
    decreases limit,
{
    if limit == 0 {
        Err(malformed("varint is too long"))
    } else if s.len() < 1 {
        Err(cut_short())
    } else if s[0] < 128 {
        Ok((s[0] as nat, s.skip(1)))
    } else {
        match take_varint_within(s.skip(1), (limit - 1) as nat) {
            Ok((high, rest)) => Ok(((s[0] - 128 + 128 * high) as nat, rest)),
            Err(e) => Err(e),
        }
    }
}

/// A variable byte integer; the format allows four bytes.
pub open spec fn take_varint(s: Seq<u8>) -> Taken<nat> {
    take_varint_within(s, 4)
}

pub open spec fn take_counted(s: Seq<u8>) -> Taken<Seq<u8>> {
    match take_u16(s) {
        Ok((len, rest)) => take_bytes(rest, len as nat),
        Err(e) => Err(e),
    }
}

pub open spec fn take_text(s: Seq<u8>) -> Taken<Seq<char>> {
    match take_counted(s) {
        Ok((bytes, rest)) => if vstd::utf8::valid_utf8(bytes) {
            Ok((vstd::utf8::decode_utf8(bytes), rest))
        } else {
            Err(malformed("invalid utf-8 string"))
        },
        Err(e) => Err(e),
    }
}

/// A packet identifier, which is never zero.
pub open spec fn take_packet_id(s: Seq<u8>) -> Taken<u16> {
    match take_u16(s) {
        Ok((id, rest)) => if id == 0 {
            Err(malformed("packet identifier must be non-zero"))
        } else {
            Ok((id, rest))
        },
        Err(e) => Err(e),
    }
}

/// Appends bytes to a buffer.
pub fn push_all(out: &mut Vec<u8>, bytes: &[u8])
    ensures
        final(out)@ == old(out)@ + bytes@,
{
    out.extend_from_slice(bytes);
    assert(out@ =~= old(out)@ + bytes@);
}

pub fn write_u16(value: u16, out: &mut Vec<u8>)
    ensures
        final(out)@ == old(out)@ + be16(value),
{
    out.push((value / 256) as u8);
    out.push((value % 256) as u8);
    assert(out@ =~= old(out)@ + be16(value));
}

pub fn write_u32(value: u32, out: &mut Vec<u8>)
    ensures
        final(out)@ == old(out)@ + be32(value),
{
    out.push((value / 0x100_0000) as u8);
    out.push((value / 0x1_0000 % 256) as u8);
    out.push((value / 0x100 % 256) as u8);
    out.push((value % 256) as u8);
    assert(out@ =~= old(out)@ + be32(value));
}

pub fn write_varint(value: u32, out: &mut Vec<u8>)
    ensures
        final(out)@ == old(out)@ + varint(value as nat),
{
    let mut value: u32 = value;
    let ghost whole = value as nat;
    let ghost start = out@;
    while value >= 128
        invariant
            start + varint(whole) == out@ + varint(value as nat),
        decreases value,
    {
        let ghost before = out@;
        let ghost high = varint((value / 128) as nat);
        let low: u8 = (value % 128 + 128) as u8;
        out.push(low);
        assert(before + (seq![low] + high) =~= out@ + high);
        value = value / 128;
    }
    let ghost before = out@;
    out.push(value as u8);
    assert(before + varint(value as nat) =~= out@);
}

pub fn write_binary(value: &[u8], out: &mut Vec<u8>)
    ensures
        final(out)@ == old(out)@ + counted(value@),
{
    let len: usize = value.len();
    write_u16((len % 0x1_0000) as u16, out);
    push_all(out, value);
    assert(out@ =~= old(out)@ + counted(value@));
}

pub fn write_utf8(value: &str, out: &mut Vec<u8>)
    ensures
        final(out)@ == old(out)@ + counted_text(value@),
{
    write_binary(value.as_bytes(), out);
}

/// An error for a packet that breaks the format.
pub fn malformed_packet(message: &'static str) -> (error: ProtocolError)
    ensures
        error@ == malformed(message),
{
    ProtocolError::MalformedPacket(message)
}

} // verus!
