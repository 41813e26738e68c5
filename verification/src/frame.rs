//! Frames off a byte stream.
//!
//! A frame is read in steps: its first byte, the bytes of its length one by
//! one, and its body. [`FrameReader`] says how many bytes the next step needs,
//! so that any source of bytes can be read from.

use vstd::prelude::*;
use vstd::slice::slice_subrange;
use vstd::slice::slice_to_vec;

use crate::packet::{ErrorView, Frame, FrameView, ProtocolError};
use crate::wire;
use crate::wire::malformed_packet;
use crate::wire::Taken;

verus! {

/// The error of a source that ends within a frame.
pub open spec fn source_ended() -> ErrorView {
    ErrorView::Io("failed to fill whole buffer"@)
}

/// A remaining length of at most `limit` bytes off the front of a stream.
pub open spec fn take_length_within(s: Seq<u8>, limit: nat) -> Taken<nat>
    decreases limit,
{
    if limit == 0 {
        Err(wire::malformed("remaining length is too long"))
    } else if s.len() < 1 {
        Err(source_ended())
    } else if s[0] < 128 {
        Ok((s[0] as nat, s.skip(1)))
    } else {
        match take_length_within(s.skip(1), (limit - 1) as nat) {
            Ok((high, rest)) => Ok(((s[0] - 128 + 128 * high) as nat, rest)),
            Err(e) => Err(e),
        }
    }
}

/// The frame with the given first byte and the next `len` bytes of a stream.
pub open spec fn take_body(first: u8, len: nat, s: Seq<u8>) -> Taken<FrameView> {
    if s.len() < len {
        Err(source_ended())
    } else {
        Ok(
            (
                FrameView {
                    command: first & 0xF0,
                    flags: first & 0x0F,
                    body: s.take(len as int),
                },
                s.skip(len as int),
            ),
        )
    }
}

/// A frame off the front of a stream.
pub open spec fn take_frame(s: Seq<u8>) -> Taken<FrameView> {
    if s.len() < 1 {
        Err(source_ended())
    } else {
        match take_length_within(s.skip(1), 4) {
            Ok((len, rest)) => take_body(s[0], len, rest),
            Err(e) => Err(e),
        }
    }
}

/// What is left of a stream once a frame has been read off it, or could not be:
/// a stream that ends within a frame is used up, and one whose length is too
/// long is left behind the fourth byte of the length.
pub open spec fn left_over(s: Seq<u8>) -> Seq<u8> {
    match take_frame(s) {
        Ok((_, rest)) => rest,
        Err(ErrorView::Io(_)) => Seq::empty(),
        Err(_) => s.skip(5),
    }
}

/// How far the reading of a frame has come.
#[derive(Debug, Clone, Copy, PartialEq, Eq)]
pub enum FrameReader {
    /// Nothing has been read.
    Start,
    /// The first byte has been read, and `count` bytes of the length, which
    /// come to `value`.
    Length { first: u8, value: u32, count: u8 },
    /// All but the body has been read.
    Body { first: u8, len: u32 },
}

/// What one step of reading a frame leads to.
#[derive(Debug, Clone, PartialEq, Eq)]
pub enum FrameProgress {
    More(FrameReader),
    Done(Frame),
}

/// The value of a byte of the length in the given place.
pub open spec fn place_value(count: u8) -> nat {
    if count == 0 {
        1
    } else if count == 1 {
        128
    } else if count == 2 {
        0x4000
    } else {
        0x20_0000
    }
}

impl FrameReader {
    /// At most three bytes of the length have been read where more are to come,
    /// and the number so far is one that they can hold.
    pub open spec fn wf(self) -> bool {
        match self {
            FrameReader::Start => true,
            FrameReader::Length { first, value, count } => count < 4 && value < place_value(
                count,
            ),
            FrameReader::Body { first, len } => len <= wire::VARINT_MAX,
        }
    }

    /// How many bytes the next step takes.
    pub open spec fn need(self) -> nat {
        match self {
            FrameReader::Body { first, len } => len as nat,
            _ => 1,
        }
    }

    /// How many bytes have been read, as long as the body is not reached.
    pub open spec fn read_so_far(self) -> nat {
        match self {
            FrameReader::Length { first, value, count } => (1 + count) as nat,
            _ => 0,
        }
    }

    /// How many steps are left at most.
    pub open spec fn steps_left(self) -> nat {
        match self {
            FrameReader::Start => 6,
            FrameReader::Length { first, value, count } => (5 - count) as nat,
            FrameReader::Body { first, len } => 1,
        }
    }

    /// What comes of reading on from a stream.
    pub open spec fn outcome(self, s: Seq<u8>) -> Taken<FrameView> {
        match self {
            FrameReader::Start => take_frame(s),
            FrameReader::Length { first, value, count } => match take_length_within(
                s,
                (4 - count) as nat,
            ) {
                Ok((high, rest)) => take_body(
                    first,
                    (value + place_value(count) * high) as nat,
                    rest,
                ),
                Err(e) => Err(e),
            },
            FrameReader::Body { first, len } => take_body(first, len as nat, s),
        }
    }

    /// A reader that waits for the first byte of a frame.
    pub fn new() -> (reader: Self)
        ensures
            reader.wf(),
            reader.read_so_far() == 0,
            forall|s: Seq<u8>| #[trigger] reader.outcome(s) == take_frame(s),
    {
        FrameReader::Start
    }

    /// How many bytes the next step takes.
    pub fn wants(&self) -> (count: usize)
        ensures
            count == self.need(),
    {
        match *self {
            FrameReader::Body { first: _, len } => len as usize,
            _ => 1,
        }
    }

    /// Takes the bytes of one step. Whatever follows them in the stream, the
    /// outcome of reading on is the same.
    pub fn feed(self, bytes: &[u8]) -> (progress: Result<FrameProgress, ProtocolError>)
        requires
            self.wf(),
            bytes@.len() == self.need(),
        ensures
            match progress {
                Ok(FrameProgress::More(reader)) => {
                    &&& reader.wf()
                    &&& reader.steps_left() < self.steps_left()
                    &&& reader is Length ==> reader.read_so_far() == self.read_so_far() + 1
                    &&& forall|rest: Seq<u8>| #[trigger]
                        self.outcome(bytes@ + rest) == reader.outcome(rest)
                },
                Ok(FrameProgress::Done(frame)) => forall|rest: Seq<u8>| #[trigger]
                    self.outcome(bytes@ + rest) == Ok::<(FrameView, Seq<u8>), ErrorView>(
                        (frame@, rest),
                    ),
                Err(error) => {
                    &&& self is Length && self.read_so_far() == 4
                    &&& error@ is MalformedPacket
                    &&& forall|rest: Seq<u8>| #[trigger]
                        self.outcome(bytes@ + rest) == Err::<(FrameView, Seq<u8>), ErrorView>(
                            error@,
                        )
                },
            },
    {
        match self {
            FrameReader::Start => {
                let first: u8 = bytes[0];
                assert forall|rest: Seq<u8>| #[trigger] self.outcome(bytes@ + rest) == (
                FrameReader::Length { first, value: 0, count: 0 }).outcome(rest) by {
                    assert((bytes@ + rest).skip(1) =~= rest);
                }
                Ok(FrameProgress::More(FrameReader::Length { first, value: 0, count: 0 }))
            },
            FrameReader::Length { first, value, count } => {
                let byte: u8 = bytes[0];
                let weight: u32 = if count == 0 {
                    1
                } else if count == 1 {
                    128
                } else if count == 2 {
                    0x4000
                } else {
                    0x20_0000
                };
                let low: u32 = (byte % 128) as u32;
                proof {
                    assert(weight * low <= weight * 127) by (nonlinear_arith)
                        requires
                            low <= 127,
                    ;
                    assert forall|rest: Seq<u8>|
                        (#[trigger] (bytes@ + rest)).skip(1) == rest && (bytes@ + rest)[0]
                            == byte by {
                        assert((bytes@ + rest).skip(1) =~= rest);
                    }
                }
                let sum: u32 = value + low * weight;
                if byte < 128 {
                    return Ok(FrameProgress::More(FrameReader::Body { first, len: sum }));
                }
                if count == 3 {
                    proof {
                        reveal_with_fuel(take_length_within, 2);
                    }
                    return Err(malformed_packet("remaining length is too long"));
                }
                assert forall|rest: Seq<u8>| #[trigger] self.outcome(bytes@ + rest) == (
                FrameReader::Length { first, value: sum, count: (count + 1) as u8 }).outcome(
                    rest,
                ) by {
                    if let Ok((high, left)) = take_length_within(rest, (3 - count) as nat) {
                        assert(value + weight * (low + 128 * high) == (value + low * weight) + (
                        weight * 128) * high) by (nonlinear_arith);
                    }
                }
                Ok(FrameProgress::More(FrameReader::Length { first, value: sum, count: count + 1 }))
            },
            FrameReader::Body { first, len } => {
                assert forall|rest: Seq<u8>|
                    (#[trigger] (bytes@ + rest)).take(len as int) == bytes@ && (bytes@
                        + rest).skip(len as int) == rest by {
                    assert((bytes@ + rest).take(len as int) =~= bytes@);
                    assert((bytes@ + rest).skip(len as int) =~= rest);
                }
                Ok(
                    FrameProgress::Done(
                        Frame {
                            command: first & 0xF0,
                            flags: first & 0x0F,
                            body: slice_to_vec(bytes),
                        },
                    ),
                )
            },
        }
    }
}

/// Reads a frame off the front of the bytes at hand, and moves them past what has
/// been read. Bytes that end within a frame are used up.
pub fn read_frame(reader: &mut &[u8]) -> (frame: Result<Frame, ProtocolError>)
    ensures
        match take_frame(old(reader)@) {
            Ok((taken, rest)) => frame matches Ok(f) && f@ == taken,
            Err(e) => frame matches Err(error) && error@ == e,
        },
        final(reader)@ == left_over(old(reader)@),
{
    let source: &[u8] = *reader;
    let mut state = FrameReader::new();
    let mut pos: usize = 0;
    assert(source@.skip(0) =~= source@);
    loop
        invariant
            source@ == old(reader)@,
            reader@ == old(reader)@,
            pos <= source@.len(),
            state.wf(),
            !(state is Body) ==> pos == state.read_so_far(),
            state.outcome(source@.skip(pos as int)) == take_frame(source@),
        decreases state.steps_left(),
    {
        let count: usize = state.wants();
        if source.len() - pos < count {
            *reader = slice_subrange(source, source.len(), source.len());
            assert(reader@ =~= Seq::empty());
            return Err(ProtocolError::Io("failed to fill whole buffer".to_owned()));
        }
        let step = slice_subrange(source, pos, pos + count);
        let ghost here = source@.skip(pos as int);
        pos = pos + count;
        assert(here =~= step@ + source@.skip(pos as int));
        match state.feed(step) {
            Ok(FrameProgress::More(next)) => {
                state = next;
            },
            Ok(FrameProgress::Done(frame)) => {
                *reader = slice_subrange(source, pos, source.len());
                assert(reader@ =~= source@.skip(pos as int));
                return Ok(frame);
            },
            Err(error) => {
                *reader = slice_subrange(source, pos, source.len());
                assert(reader@ =~= source@.skip(5));
                return Err(error);
            },
        }
    }
}

} // verus!
