//! A reading position in the body of a packet.

use vstd::prelude::*;
use vstd::slice::slice_subrange;
use vstd::slice::slice_to_vec;

use crate::packet::ErrorView;
use crate::packet::ProtocolError;
use crate::properties;
use crate::properties::{
    property_shape, Properties, PropertyOwner, PropertyShape, PROP_CORRELATION_DATA,
    PROP_MAXIMUM_PACKET_SIZE, PROP_PAYLOAD_FORMAT_INDICATOR, PROP_RESPONSE_TOPIC,
    PROP_SESSION_EXPIRY_INTERVAL, PROP_SUBSCRIPTION_IDENTIFIER, PROP_TOPIC_ALIAS,
};
use crate::text::decode_text;
use crate::wire;
use crate::wire::malformed_packet;
use crate::wire::Taken;

verus! {

/// A place in a byte slice. Its view is the bytes that are still unread.
pub struct Cursor<'a> {
    bytes: &'a [u8],
    pos: usize,
}

impl<'a> View for Cursor<'a> {
    type V = Seq<u8>;

    closed spec fn view(&self) -> Seq<u8> {
        self.bytes@.skip(self.pos as int)
    }
}

/// The outcome of a read agrees with what the format says is at the front of
/// the unread bytes: the value, with the cursor behind it, or the error.
pub open spec fn reads<T>(
    expected: Taken<T>,
    outcome: Result<T, ProtocolError>,
    left: Seq<u8>,
) -> bool {
    match expected {
        Ok((value, rest)) => outcome == Ok::<T, ProtocolError>(value) && left == rest,
        Err(e) => outcome matches Err(error) && error@ == e,
    }
}

/// The same for a read whose value is only passed over.
pub open spec fn passes(
    expected: Result<Seq<u8>, ErrorView>,
    outcome: Result<(), ProtocolError>,
    left: Seq<u8>,
) -> bool {
    match expected {
        Ok(rest) => outcome is Ok && left == rest,
        Err(e) => outcome matches Err(error) && error@ == e,
    }
}

impl<'a> Cursor<'a> {
    /// The position lies within the slice.
    pub closed spec fn wf(&self) -> bool {
        self.pos <= self.bytes@.len()
    }

    pub fn new(bytes: &'a [u8]) -> (cursor: Self)
        ensures
            cursor.wf(),
            cursor@ == bytes@,
    {
        let cursor = Cursor { bytes, pos: 0 };
        assert(cursor@ =~= bytes@);
        cursor
    }

    pub fn remaining(&self) -> (count: usize)
        requires
            self.wf(),
        ensures
            count == self@.len(),
    {
        self.bytes.len() - self.pos
    }

    pub fn read_remaining(&mut self) -> (bytes: &'a [u8])
        requires
            old(self).wf(),
        ensures
            final(self).wf(),
            bytes@ == old(self)@,
            final(self)@.len() == 0,
    {
        let result = slice_subrange(self.bytes, self.pos, self.bytes.len());
        assert(result@ =~= self@);
        self.pos = self.bytes.len();
        result
    }

    pub fn read_bytes(&mut self, len: usize) -> (bytes: Result<&'a [u8], ProtocolError>)
        requires
            old(self).wf(),
        ensures
            final(self).wf(),
            match wire::take_bytes(old(self)@, len as nat) {
                Ok((taken, rest)) => bytes matches Ok(b) && b@ == taken && final(self)@ == rest,
                Err(e) => bytes matches Err(error) && error@ == e,
            },
    {
        if self.bytes.len() - self.pos < len {
            return Err(malformed_packet("unexpected end of packet"));
        }
        let start: usize = self.pos;
        self.pos = start + len;
        let result = slice_subrange(self.bytes, start, self.pos);
        assert(result@ =~= old(self)@.take(len as int));
        assert(self@ =~= old(self)@.skip(len as int));
        Ok(result)
    }

    pub fn read_u8(&mut self) -> (value: Result<u8, ProtocolError>)
        requires
            old(self).wf(),
        ensures
            final(self).wf(),
            reads(wire::take_u8(old(self)@), value, final(self)@),
    {
        if self.remaining() < 1 {
            return Err(malformed_packet("unexpected end of packet"));
        }
        let value: u8 = self.bytes[self.pos];
        self.pos = self.pos + 1;
        assert(self@ =~= old(self)@.skip(1));
        Ok(value)
    }

    pub fn read_u16(&mut self) -> (value: Result<u16, ProtocolError>)
        requires
            old(self).wf(),
        ensures
            final(self).wf(),
            reads(wire::take_u16(old(self)@), value, final(self)@),
    {
        let bytes = self.read_bytes(2)?;
        let value: u16 = bytes[0] as u16 * 256 + bytes[1] as u16;
        Ok(value)
    }

    pub fn read_u32(&mut self) -> (value: Result<u32, ProtocolError>)
        requires
            old(self).wf(),
        ensures
            final(self).wf(),
            reads(wire::take_u32(old(self)@), value, final(self)@),
    {
        let bytes = self.read_bytes(4)?;
        let value: u32 = bytes[0] as u32 * 0x100_0000 + bytes[1] as u32 * 0x1_0000 + bytes[2] as u32
            * 0x100 + bytes[3] as u32;
        Ok(value)
    }

    pub fn read_utf8(&mut self) -> (text: Result<String, ProtocolError>)
        requires
            old(self).wf(),
        ensures
            final(self).wf(),
            match wire::take_text(old(self)@) {
                Ok((taken, rest)) => text matches Ok(t) && t@ == taken && final(self)@ == rest,
                Err(e) => text matches Err(error) && error@ == e,
            },
    {
        let len: usize = self.read_u16()? as usize;
        let bytes = self.read_bytes(len)?;
        match decode_text(bytes) {
            Some(text) => Ok(text),
            None => Err(malformed_packet("invalid utf-8 string")),
        }
    }

    pub fn read_binary(&mut self) -> (bytes: Result<Vec<u8>, ProtocolError>)
        requires
            old(self).wf(),
        ensures
            final(self).wf(),
            match wire::take_counted(old(self)@) {
                Ok((taken, rest)) => bytes matches Ok(b) && b@ == taken && final(self)@ == rest,
                Err(e) => bytes matches Err(error) && error@ == e,
            },
    {
        let len: usize = self.read_u16()? as usize;
        let bytes = self.read_bytes(len)?;
        Ok(slice_to_vec(bytes))
    }

    pub fn read_varint(&mut self) -> (value: Result<u32, ProtocolError>)
        requires
            old(self).wf(),
        ensures
            final(self).wf(),
            match wire::take_varint(old(self)@) {
                Ok((taken, rest)) => value matches Ok(v) && v == taken && v <= wire::VARINT_MAX
                    && final(self)@ == rest,
                Err(e) => value matches Err(error) && error@ == e,
            },
    {
        let mut weight: u32 = 1;
        let mut value: u32 = 0;
        let mut count: usize = 0;
        while count < 4
            invariant
                count <= 4,
                self.wf(),
                value < weight,
                count == 0 ==> weight == 1,
                count == 1 ==> weight == 128,
                count == 2 ==> weight == 0x4000,
                count == 3 ==> weight == 0x20_0000,
                count == 4 ==> weight == 0x1000_0000,
                match wire::take_varint_within(self@, (4 - count) as nat) {
                    Ok((high, rest)) => wire::take_varint(old(self)@) == Ok::<
                        (nat, Seq<u8>),
                        ErrorView,
                    >(((value + weight * high) as nat, rest)),
                    Err(e) => wire::take_varint(old(self)@) == Err::<(nat, Seq<u8>), ErrorView>(e),
                },
            decreases 4 - count,
        {
            let byte: u8 = self.read_u8()?;
            let low: u32 = (byte % 128) as u32;
            proof {
                assert(weight * low <= weight * 127) by (nonlinear_arith)
                    requires
                        low <= 127,
                ;
                assert(weight * (low as int) == weight * low);
            }
            if byte < 128 {
                return Ok(value + low * weight);
            }
            proof {
                match wire::take_varint_within(self@, (3 - count) as nat) {
                    Ok((high, rest)) => {
                        assert(value + weight * (low + 128 * high) == (value + weight * low) + (
                        weight * 128) * high) by (nonlinear_arith);
                    },
                    Err(e) => {},
                }
            }
            value = value + low * weight;
            weight = weight * 128;
            count = count + 1;
        }
        Err(malformed_packet("varint is too long"))
    }

    pub fn skip_properties(&mut self) -> (done: Result<(), ProtocolError>)
        requires
            old(self).wf(),
        ensures
            final(self).wf(),
            passes(properties::skip_properties(old(self)@), done, final(self)@),
    {
        let len: usize = self.read_varint()? as usize;
        self.read_bytes(len)?;
        Ok(())
    }

    pub fn skip_property_value(&mut self, identifier: u32) -> (done: Result<(), ProtocolError>)
        requires
            old(self).wf(),
        ensures
            final(self).wf(),
            passes(
                properties::skip_value(identifier as nat, old(self)@),
                done,
                final(self)@,
            ),
    {
        match property_shape(identifier) {
            None => {
                return Err(malformed_packet("unknown property"));
            },
            Some(PropertyShape::Byte) => {
                self.read_u8()?;
            },
            Some(PropertyShape::TwoBytes) => {
                self.read_u16()?;
            },
            Some(PropertyShape::FourBytes) => {
                self.read_u32()?;
            },
            Some(PropertyShape::Varint) => {
                self.read_varint()?;
            },
            Some(PropertyShape::Counted) => {
                let len: usize = self.read_u16()? as usize;
                self.read_bytes(len)?;
            },
            Some(PropertyShape::CountedPair) => {
                let name_len: usize = self.read_u16()? as usize;
                self.read_bytes(name_len)?;
                let value_len: usize = self.read_u16()? as usize;
                self.read_bytes(value_len)?;
            },
        }
        Ok(())
    }

    /// Whether a packet keeps a property.
    fn keeps_property(owner: PropertyOwner, identifier: u32) -> (kept: bool)
        ensures
            kept == properties::keeps(owner, identifier as nat),
    {
        match owner {
            PropertyOwner::Connect => identifier == PROP_SESSION_EXPIRY_INTERVAL || identifier
                == PROP_MAXIMUM_PACKET_SIZE,
            PropertyOwner::Disconnect => identifier == PROP_SESSION_EXPIRY_INTERVAL,
            PropertyOwner::Subscribe => identifier == PROP_SUBSCRIPTION_IDENTIFIER,
            PropertyOwner::Publish => identifier == PROP_PAYLOAD_FORMAT_INDICATOR || identifier
                == PROP_TOPIC_ALIAS || identifier == PROP_RESPONSE_TOPIC || identifier
                == PROP_CORRELATION_DATA || identifier == PROP_SUBSCRIPTION_IDENTIFIER,
        }
    }

    /// Reads the value of a property that the packet keeps.
    fn read_property_value(
        &mut self,
        owner: PropertyOwner,
        identifier: u32,
        kept: &mut Properties,
    ) -> (done: Result<(), ProtocolError>)
        requires
            old(self).wf(),
            properties::keeps(owner, identifier as nat),
        ensures
            final(self).wf(),
            match properties::keep_value(owner, identifier as nat, old(kept)@, old(self)@) {
                Ok((more, rest)) => done is Ok && final(kept)@ == more && final(self)@ == rest,
                Err(e) => done matches Err(error) && error@ == e,
            },
    {
        match identifier {
            PROP_SESSION_EXPIRY_INTERVAL => {
                kept.session_expiry_interval = Some(self.read_u32()?);
            },
            PROP_MAXIMUM_PACKET_SIZE => {
                let value: u32 = self.read_u32()?;
                if value == 0 {
                    return Err(malformed_packet("zero maximum packet size"));
                }
                kept.maximum_packet_size = Some(value);
            },
            PROP_PAYLOAD_FORMAT_INDICATOR => {
                kept.payload_format_indicator = Some(self.read_u8()?);
            },
            PROP_TOPIC_ALIAS => {
                kept.topic_alias = Some(self.read_u16()?);
            },
            PROP_RESPONSE_TOPIC => {
                kept.response_topic = Some(self.read_utf8()?);
            },
            PROP_CORRELATION_DATA => {
                kept.correlation_data = Some(self.read_binary()?);
            },
            _ => {
                let value: u32 = self.read_varint()?;
                if value == 0 {
                    return Err(malformed_packet("zero subscription identifier"));
                }
                if owner == PropertyOwner::Subscribe && kept.subscription_identifiers.len() > 0 {
                    return Err(malformed_packet("duplicate subscription identifier"));
                }
                kept.subscription_identifiers.push(value);
            },
        }
        Ok(())
    }

    /// Reads a property section and keeps what the packet may carry.
    pub fn read_properties(&mut self, owner: PropertyOwner) -> (kept: Result<
        Properties,
        ProtocolError,
    >)
        requires
            old(self).wf(),
        ensures
            final(self).wf(),
            match properties::take_properties(owner, old(self)@) {
                Ok((taken, rest)) => kept matches Ok(k) && k@ == taken && final(self)@ == rest,
                Err(e) => kept matches Err(error) && error@ == e,
            },
    {
        let len: usize = self.read_varint()? as usize;
        if self.remaining() < len {
            return Err(malformed_packet("truncated properties"));
        }
        let stop: usize = self.remaining() - len;
        let mut kept = Properties::default();
        while self.remaining() > stop
            invariant
                self.wf(),
                properties::take_properties(owner, old(self)@)
                    == properties::take_properties_until(owner, kept@, self@, stop as nat),
            decreases self@.len(),
        {
            proof {
                properties::lemma_property_shrinks(owner, kept@, self@);
            }
            let identifier: u32 = self.read_varint()?;
            if Self::keeps_property(owner, identifier) {
                self.read_property_value(owner, identifier, &mut kept)?;
            } else {
                self.skip_property_value(identifier)?;
            }
        }
        if self.remaining() != stop {
            return Err(malformed_packet("property length mismatch"));
        }
        Ok(kept)
    }

    /// Reads the properties of a CONNECT packet.
    pub fn read_connect_properties(&mut self) -> (kept: Result<Properties, ProtocolError>)
        requires
            old(self).wf(),
        ensures
            final(self).wf(),
            match properties::take_properties(PropertyOwner::Connect, old(self)@) {
                Ok((taken, rest)) => kept matches Ok(k) && k@ == taken && final(self)@ == rest,
                Err(e) => kept matches Err(error) && error@ == e,
            },
    {
        self.read_properties(PropertyOwner::Connect)
    }

    /// Reads the properties of a PUBLISH packet.
    pub fn read_publish_properties(&mut self) -> (kept: Result<Properties, ProtocolError>)
        requires
            old(self).wf(),
        ensures
            final(self).wf(),
            match properties::take_properties(PropertyOwner::Publish, old(self)@) {
                Ok((taken, rest)) => kept matches Ok(k) && k@ == taken && final(self)@ == rest,
                Err(e) => kept matches Err(error) && error@ == e,
            },
    {
        self.read_properties(PropertyOwner::Publish)
    }

    /// Reads the properties of a SUBSCRIBE packet, of which the subscription
    /// identifier is kept.
    pub fn read_subscribe_properties(&mut self) -> (identifier: Result<Option<u32>, ProtocolError>)
        requires
            old(self).wf(),
        ensures
            final(self).wf(),
            match properties::take_properties(PropertyOwner::Subscribe, old(self)@) {
                Ok((taken, rest)) => identifier == Ok::<Option<u32>, ProtocolError>(
                    properties::first_identifier(taken),
                ) && final(self)@ == rest,
                Err(e) => identifier matches Err(error) && error@ == e,
            },
    {
        let kept = self.read_properties(PropertyOwner::Subscribe)?;
        if kept.subscription_identifiers.len() > 0 {
            Ok(Some(kept.subscription_identifiers[0]))
        } else {
            Ok(None)
        }
    }

    /// Reads the properties of a DISCONNECT packet, of which the session expiry
    /// interval is kept.
    pub fn read_session_expiry_property(&mut self) -> (interval: Result<
        Option<u32>,
        ProtocolError,
    >)
        requires
            old(self).wf(),
        ensures
            final(self).wf(),
            match properties::take_properties(PropertyOwner::Disconnect, old(self)@) {
                Ok((taken, rest)) => interval == Ok::<Option<u32>, ProtocolError>(
                    taken.session_expiry_interval,
                ) && final(self)@ == rest,
                Err(e) => interval matches Err(error) && error@ == e,
            },
    {
        let kept = self.read_properties(PropertyOwner::Disconnect)?;
        Ok(kept.session_expiry_interval)
    }

    pub fn read_packet_id(&mut self) -> (packet_id: Result<u16, ProtocolError>)
        requires
            old(self).wf(),
        ensures
            final(self).wf(),
            reads(wire::take_packet_id(old(self)@), packet_id, final(self)@),
    {
        let packet_id: u16 = self.read_u16()?;
        if packet_id == 0 {
            return Err(malformed_packet("packet identifier must be non-zero"));
        }
        Ok(packet_id)
    }
}

} // verus!
