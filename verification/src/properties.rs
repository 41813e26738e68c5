//! The property sections of MQTT 5 packets.
//!
//! A section is a length and then pairs of an identifier and a value, whose
//! shape the identifier decides. Each kind of packet keeps a few of them and
//! passes over the others.

use vstd::prelude::*;

use crate::packet;
use crate::packet::ErrorView;
use crate::wire;
use crate::wire::Taken;

verus! {

pub const PROP_PAYLOAD_FORMAT_INDICATOR: u32 = 0x01;

pub const PROP_MESSAGE_EXPIRY_INTERVAL: u32 = 0x02;

pub const PROP_CONTENT_TYPE: u32 = 0x03;

pub const PROP_RESPONSE_TOPIC: u32 = 0x08;

pub const PROP_CORRELATION_DATA: u32 = 0x09;

pub const PROP_SUBSCRIPTION_IDENTIFIER: u32 = 0x0B;

pub const PROP_SESSION_EXPIRY_INTERVAL: u32 = 0x11;

pub const PROP_ASSIGNED_CLIENT_IDENTIFIER: u32 = 0x12;

pub const PROP_SERVER_KEEP_ALIVE: u32 = 0x13;

pub const PROP_AUTHENTICATION_METHOD: u32 = 0x15;

pub const PROP_AUTHENTICATION_DATA: u32 = 0x16;

pub const PROP_REQUEST_PROBLEM_INFORMATION: u32 = 0x17;

pub const PROP_WILL_DELAY_INTERVAL: u32 = 0x18;

pub const PROP_REQUEST_RESPONSE_INFORMATION: u32 = 0x19;

pub const PROP_RESPONSE_INFORMATION: u32 = 0x1A;

pub const PROP_SERVER_REFERENCE: u32 = 0x1C;

pub const PROP_REASON_STRING: u32 = 0x1F;

pub const PROP_RECEIVE_MAXIMUM: u32 = 0x21;

pub const PROP_TOPIC_ALIAS_MAXIMUM: u32 = 0x22;

pub const PROP_TOPIC_ALIAS: u32 = 0x23;

pub const PROP_MAXIMUM_QOS: u32 = 0x24;

pub const PROP_RETAIN_AVAILABLE: u32 = 0x25;

pub const PROP_USER_PROPERTY: u32 = 0x26;

pub const PROP_MAXIMUM_PACKET_SIZE: u32 = 0x27;

pub const PROP_WILDCARD_SUB_AVAILABLE: u32 = 0x28;

pub const PROP_SUBSCRIPTION_ID_AVAILABLE: u32 = 0x29;

pub const PROP_SHARED_SUB_AVAILABLE: u32 = 0x2A;

/// How the value of a property is laid out.
#[derive(Debug, Clone, Copy, PartialEq, Eq, Structural)]
pub enum PropertyShape {
    Byte,
    TwoBytes,
    FourBytes,
    Varint,
    Counted,
    CountedPair,
}

/// The layout that belongs to each property identifier.
pub open spec fn shape_of(identifier: nat) -> Option<PropertyShape> {
    if identifier == PROP_PAYLOAD_FORMAT_INDICATOR || identifier
        == PROP_REQUEST_PROBLEM_INFORMATION || identifier == PROP_REQUEST_RESPONSE_INFORMATION
        || identifier == PROP_MAXIMUM_QOS || identifier == PROP_RETAIN_AVAILABLE || identifier
        == PROP_WILDCARD_SUB_AVAILABLE || identifier == PROP_SUBSCRIPTION_ID_AVAILABLE || identifier
        == PROP_SHARED_SUB_AVAILABLE {
        Some(PropertyShape::Byte)
    } else if identifier == PROP_SERVER_KEEP_ALIVE || identifier == PROP_RECEIVE_MAXIMUM
        || identifier == PROP_TOPIC_ALIAS_MAXIMUM || identifier == PROP_TOPIC_ALIAS {
        Some(PropertyShape::TwoBytes)
    } else if identifier == PROP_MESSAGE_EXPIRY_INTERVAL || identifier
        == PROP_SESSION_EXPIRY_INTERVAL || identifier == PROP_WILL_DELAY_INTERVAL || identifier
        == PROP_MAXIMUM_PACKET_SIZE {
        Some(PropertyShape::FourBytes)
    } else if identifier == PROP_SUBSCRIPTION_IDENTIFIER {
        Some(PropertyShape::Varint)
    } else if identifier == PROP_CONTENT_TYPE || identifier == PROP_RESPONSE_TOPIC || identifier
        == PROP_ASSIGNED_CLIENT_IDENTIFIER || identifier == PROP_AUTHENTICATION_METHOD
        || identifier == PROP_RESPONSE_INFORMATION || identifier == PROP_SERVER_REFERENCE
        || identifier == PROP_REASON_STRING || identifier == PROP_CORRELATION_DATA || identifier
        == PROP_AUTHENTICATION_DATA {
        Some(PropertyShape::Counted)
    } else if identifier == PROP_USER_PROPERTY {
        Some(PropertyShape::CountedPair)
    } else {
        None
    }
}

/// The layout that belongs to a property identifier.
pub fn property_shape(identifier: u32) -> (shape: Option<PropertyShape>)
    ensures
        shape == shape_of(identifier as nat),
{
    match identifier {
        PROP_PAYLOAD_FORMAT_INDICATOR
        | PROP_REQUEST_PROBLEM_INFORMATION
        | PROP_REQUEST_RESPONSE_INFORMATION
        | PROP_MAXIMUM_QOS
        | PROP_RETAIN_AVAILABLE
        | PROP_WILDCARD_SUB_AVAILABLE
        | PROP_SUBSCRIPTION_ID_AVAILABLE
        | PROP_SHARED_SUB_AVAILABLE => Some(PropertyShape::Byte),
        PROP_SERVER_KEEP_ALIVE
        | PROP_RECEIVE_MAXIMUM
        | PROP_TOPIC_ALIAS_MAXIMUM
        | PROP_TOPIC_ALIAS => Some(PropertyShape::TwoBytes),
        PROP_MESSAGE_EXPIRY_INTERVAL
        | PROP_SESSION_EXPIRY_INTERVAL
        | PROP_WILL_DELAY_INTERVAL
        | PROP_MAXIMUM_PACKET_SIZE => Some(PropertyShape::FourBytes),
        PROP_SUBSCRIPTION_IDENTIFIER => Some(PropertyShape::Varint),
        PROP_CONTENT_TYPE
        | PROP_RESPONSE_TOPIC
        | PROP_ASSIGNED_CLIENT_IDENTIFIER
        | PROP_AUTHENTICATION_METHOD
        | PROP_RESPONSE_INFORMATION
        | PROP_SERVER_REFERENCE
        | PROP_REASON_STRING
        | PROP_CORRELATION_DATA
        | PROP_AUTHENTICATION_DATA => Some(PropertyShape::Counted),
        PROP_USER_PROPERTY => Some(PropertyShape::CountedPair),
        _ => None,
    }
}

/// The packets whose property sections are read.
#[derive(Debug, Clone, Copy, PartialEq, Eq, Structural)]
pub enum PropertyOwner {
    Connect,
    Publish,
    Subscribe,
    Disconnect,
}

/// The properties that are kept, of whatever packet. A packet fills only those
/// that it may carry.
#[derive(Debug, Clone, PartialEq, Eq)]
pub struct Properties {
    pub session_expiry_interval: Option<u32>,
    pub maximum_packet_size: Option<u32>,
    pub topic_alias: Option<u16>,
    pub payload_format_indicator: Option<u8>,
    pub response_topic: Option<String>,
    pub correlation_data: Option<Vec<u8>>,
    pub subscription_identifiers: Vec<u32>,
}

#[verifier::ext_equal]
pub struct PropertiesView {
    pub session_expiry_interval: Option<u32>,
    pub maximum_packet_size: Option<u32>,
    pub topic_alias: Option<u16>,
    pub payload_format_indicator: Option<u8>,
    pub response_topic: Option<Seq<char>>,
    pub correlation_data: Option<Seq<u8>>,
    pub subscription_identifiers: Seq<u32>,
}

impl View for Properties {
    type V = PropertiesView;

    open spec fn view(&self) -> PropertiesView {
        PropertiesView {
            session_expiry_interval: self.session_expiry_interval,
            maximum_packet_size: self.maximum_packet_size,
            topic_alias: self.topic_alias,
            payload_format_indicator: self.payload_format_indicator,
            response_topic: packet::text_view(self.response_topic),
            correlation_data: packet::bytes_view(self.correlation_data),
            subscription_identifiers: self.subscription_identifiers@,
        }
    }
}

/// A section without properties.
pub open spec fn no_properties() -> PropertiesView {
    PropertiesView {
        session_expiry_interval: None,
        maximum_packet_size: None,
        topic_alias: None,
        payload_format_indicator: None,
        response_topic: None,
        correlation_data: None,
        subscription_identifiers: Seq::empty(),
    }
}

impl Default for Properties {
    fn default() -> (properties: Self)
        ensures
            properties@ == no_properties(),
    {
        Properties {
            session_expiry_interval: None,
            maximum_packet_size: None,
            topic_alias: None,
            payload_format_indicator: None,
            response_topic: None,
            correlation_data: None,
            subscription_identifiers: Vec::new(),
        }
    }
}

/// What is left behind a property value that is not kept.
pub open spec fn skip_value(identifier: nat, s: Seq<u8>) -> Result<Seq<u8>, ErrorView> {
    match shape_of(identifier) {
        None => Err(wire::malformed("unknown property")),
        Some(PropertyShape::Byte) => rest_of(wire::take_u8(s)),
        Some(PropertyShape::TwoBytes) => rest_of(wire::take_u16(s)),
        Some(PropertyShape::FourBytes) => rest_of(wire::take_u32(s)),
        Some(PropertyShape::Varint) => rest_of(wire::take_varint(s)),
        Some(PropertyShape::Counted) => rest_of(wire::take_counted(s)),
        Some(PropertyShape::CountedPair) => match wire::take_counted(s) {
            Ok((_, rest)) => rest_of(wire::take_counted(rest)),
            Err(e) => Err(e),
        },
    }
}

/// The bytes behind a value.
pub open spec fn rest_of<T>(taken: Taken<T>) -> Result<Seq<u8>, ErrorView> {
    match taken {
        Ok((_, rest)) => Ok(rest),
        Err(e) => Err(e),
    }
}

/// Whether a packet keeps a property.
pub open spec fn keeps(owner: PropertyOwner, identifier: nat) -> bool {
    match owner {
        PropertyOwner::Connect => identifier == PROP_SESSION_EXPIRY_INTERVAL || identifier
            == PROP_MAXIMUM_PACKET_SIZE,
        PropertyOwner::Disconnect => identifier == PROP_SESSION_EXPIRY_INTERVAL,
        PropertyOwner::Subscribe => identifier == PROP_SUBSCRIPTION_IDENTIFIER,
        PropertyOwner::Publish => identifier == PROP_PAYLOAD_FORMAT_INDICATOR || identifier
            == PROP_TOPIC_ALIAS || identifier == PROP_RESPONSE_TOPIC || identifier
            == PROP_CORRELATION_DATA || identifier == PROP_SUBSCRIPTION_IDENTIFIER,
    }
}

/// The properties with the value of a kept property put in. A later value
/// replaces an earlier one, except that subscription identifiers gather: a
/// PUBLISH may hold several of them, a SUBSCRIBE one.
pub open spec fn keep_value(
    owner: PropertyOwner,
    identifier: nat,
    properties: PropertiesView,
    s: Seq<u8>,
) -> Taken<PropertiesView> {
    if identifier == PROP_SESSION_EXPIRY_INTERVAL {
        match wire::take_u32(s) {
            Ok((value, rest)) => Ok(
                (PropertiesView { session_expiry_interval: Some(value), ..properties }, rest),
            ),
            Err(e) => Err(e),
        }
    } else if identifier == PROP_MAXIMUM_PACKET_SIZE {
        match wire::take_u32(s) {
            Ok((value, rest)) => if value == 0 {
                Err(wire::malformed("zero maximum packet size"))
            } else {
                Ok((PropertiesView { maximum_packet_size: Some(value), ..properties }, rest))
            },
            Err(e) => Err(e),
        }
    } else if identifier == PROP_PAYLOAD_FORMAT_INDICATOR {
        match wire::take_u8(s) {
            Ok((value, rest)) => Ok(
                (PropertiesView { payload_format_indicator: Some(value), ..properties }, rest),
            ),
            Err(e) => Err(e),
        }
    } else if identifier == PROP_TOPIC_ALIAS {
        match wire::take_u16(s) {
            Ok((value, rest)) => Ok(
                (PropertiesView { topic_alias: Some(value), ..properties }, rest),
            ),
            Err(e) => Err(e),
        }
    } else if identifier == PROP_RESPONSE_TOPIC {
        match wire::take_text(s) {
            Ok((value, rest)) => Ok(
                (PropertiesView { response_topic: Some(value), ..properties }, rest),
            ),
            Err(e) => Err(e),
        }
    } else if identifier == PROP_CORRELATION_DATA {
        match wire::take_counted(s) {
            Ok((value, rest)) => Ok(
                (PropertiesView { correlation_data: Some(value), ..properties }, rest),
            ),
            Err(e) => Err(e),
        }
    } else {
        match wire::take_varint(s) {
            Ok((value, rest)) => if value == 0 {
                Err(wire::malformed("zero subscription identifier"))
            } else if owner == PropertyOwner::Subscribe
                && properties.subscription_identifiers.len() > 0 {
                Err(wire::malformed("duplicate subscription identifier"))
            } else {
                Ok(
                    (
                        PropertiesView {
                            subscription_identifiers: properties.subscription_identifiers.push(
                                value as u32,
                            ),
                            ..properties
                        },
                        rest,
                    ),
                )
            },
            Err(e) => Err(e),
        }
    }
}

/// One property off the front of a section.
pub open spec fn take_property(
    owner: PropertyOwner,
    properties: PropertiesView,
    s: Seq<u8>,
) -> Taken<PropertiesView> {
    match wire::take_varint(s) {
        Ok((identifier, rest)) => if keeps(owner, identifier) {
            keep_value(owner, identifier, properties, rest)
        } else {
            match skip_value(identifier, rest) {
                Ok(left) => Ok((properties, left)),
                Err(e) => Err(e),
            }
        },
        Err(e) => Err(e),
    }
}

/// The properties up to the point where `stop` bytes are left. The last of them
/// must end there.
pub open spec fn take_properties_until(
    owner: PropertyOwner,
    properties: PropertiesView,
    s: Seq<u8>,
    stop: nat,
) -> Taken<PropertiesView>
    decreases s.len(),
{
    if s.len() > stop {
        match take_property(owner, properties, s) {
            Ok((more, rest)) => {
                proof {
                    lemma_property_shrinks(owner, properties, s);
                }
                take_properties_until(owner, more, rest, stop)
            },
            Err(e) => Err(e),
        }
    } else if s.len() < stop {
        Err(wire::malformed("property length mismatch"))
    } else {
        Ok((properties, s))
    }
}

/// A whole property section.
pub open spec fn take_properties(owner: PropertyOwner, s: Seq<u8>) -> Taken<PropertiesView> {
    match wire::take_varint(s) {
        Ok((len, rest)) => if rest.len() < len {
            Err(wire::malformed("truncated properties"))
        } else {
            take_properties_until(owner, no_properties(), rest, (rest.len() - len) as nat)
        },
        Err(e) => Err(e),
    }
}

/// The subscription identifier of a section that may hold one.
pub open spec fn first_identifier(properties: PropertiesView) -> Option<u32> {
    if properties.subscription_identifiers.len() > 0 {
        Some(properties.subscription_identifiers[0])
    } else {
        None
    }
}

/// The bytes behind a property section that is passed over unread.
pub open spec fn skip_properties(s: Seq<u8>) -> Result<Seq<u8>, ErrorView> {
    match wire::take_varint(s) {
        Ok((len, rest)) => rest_of(wire::take_bytes(rest, len)),
        Err(e) => Err(e),
    }
}

/// A variable byte integer takes at least one byte and at most `limit`.
pub proof fn lemma_varint_shrinks(s: Seq<u8>, limit: nat)
    ensures
        wire::take_varint_within(s, limit) matches Ok((value, rest)) ==> rest.len() < s.len(),
    decreases limit,
{
    if limit > 0 && s.len() > 0 && s[0] >= 128 {
        lemma_varint_shrinks(s.skip(1), (limit - 1) as nat);
    }
}

/// Reading a property takes at least one byte.
pub proof fn lemma_property_shrinks(
    owner: PropertyOwner,
    properties: PropertiesView,
    s: Seq<u8>,
)
    ensures
        take_property(owner, properties, s) matches Ok((more, rest)) ==> rest.len() < s.len(),
{
    lemma_varint_shrinks(s, 4);
    match wire::take_varint(s) {
        Ok((identifier, rest)) => {
            lemma_varint_shrinks(rest, 4);
        },
        Err(e) => {},
    }
}

} // verus!
