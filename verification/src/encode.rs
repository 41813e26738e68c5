//! From packets to the bytes that the broker sends.

use vstd::prelude::*;

use crate::packet::{
    ConnackOptions, ProtocolVersion, Publication, PublicationView, CMD_CONNACK, CMD_DISCONNECT,
    CMD_PINGRESP, CMD_PUBACK, CMD_PUBCOMP, CMD_PUBLISH, CMD_PUBREC, CMD_PUBREL, CMD_SUBACK,
    CMD_UNSUBACK,
};
use crate::properties::{
    PROP_ASSIGNED_CLIENT_IDENTIFIER, PROP_CORRELATION_DATA, PROP_MAXIMUM_PACKET_SIZE,
    PROP_PAYLOAD_FORMAT_INDICATOR, PROP_RECEIVE_MAXIMUM, PROP_RESPONSE_TOPIC,
    PROP_RETAIN_AVAILABLE, PROP_SERVER_KEEP_ALIVE, PROP_SUBSCRIPTION_IDENTIFIER,
    PROP_TOPIC_ALIAS_MAXIMUM,
};
use crate::wire;
use crate::wire::{push_all, write_binary, write_u16, write_u32, write_utf8, write_varint};

verus! {

/// How many topic aliases a client may set up; a CONNACK packet reports it.
pub const TOPIC_ALIAS_MAXIMUM: u16 = 10;

/// How many unacknowledged publications a client may send; a CONNACK packet
/// reports it.
pub const RECEIVE_MAXIMUM: u16 = 20;

/// A frame on the wire: command and flags in one byte, the length of the body,
/// the body. The length has 32 bits: of a longer body it keeps the low 32.
pub open spec fn frame_bytes(command: u8, flags: u8, body: Seq<u8>) -> Seq<u8> {
    seq![command | flags] + wire::varint(body.len() % 0x1_0000_0000) + body
}

/// Encodes a frame: the first byte, the length of the body, and the body.
pub fn encode_frame(command: u8, flags: u8, body: &[u8]) -> (bytes: Vec<u8>)
    ensures
        bytes@ == frame_bytes(command, flags, body@),
{
    let mut packet: Vec<u8> = Vec::new();
    packet.push(command | flags);
    let len: u32 = (body.len() as u64 % 0x1_0000_0000) as u32;
    write_varint(len, &mut packet);
    push_all(&mut packet, body);
    assert(packet@ =~= frame_bytes(command, flags, body@));
    packet
}

/// A boolean as a byte.
pub open spec fn bit(value: bool) -> u8 {
    if value {
        1
    } else {
        0
    }
}

fn bit_of(value: bool) -> (byte: u8)
    ensures
        byte == bit(value),
{
    if value {
        1
    } else {
        0
    }
}

/// What a property section holds before its values: the length.
pub open spec fn property_section(values: Seq<u8>) -> Seq<u8> {
    wire::varint(values.len() % 0x1_0000_0000) + values
}

/// Writes a property section with the given values.
fn write_properties(values: &Vec<u8>, out: &mut Vec<u8>)
    ensures
        final(out)@ == old(out)@ + property_section(values@),
{
    let len: u32 = (values.len() as u64 % 0x1_0000_0000) as u32;
    write_varint(len, out);
    push_all(out, values.as_slice());
    assert(out@ =~= old(out)@ + property_section(values@));
}

/// The keep-alive that the broker imposes, as a property.
pub open spec fn keep_alive_property(keep_alive: Option<u16>) -> Seq<u8> {
    match keep_alive {
        Some(seconds) => seq![PROP_SERVER_KEEP_ALIVE as u8] + wire::be16(seconds),
        None => Seq::empty(),
    }
}

/// The client identifier that the broker made up, as a property.
pub open spec fn client_id_property(client_id: Option<&str>) -> Seq<u8> {
    match client_id {
        Some(id) => seq![PROP_ASSIGNED_CLIENT_IDENTIFIER as u8] + wire::counted_text(id@),
        None => Seq::empty(),
    }
}

/// The property that refuses retained messages; it is left off where they are
/// welcome.
pub open spec fn retain_property(retain_available: bool) -> Seq<u8> {
    if retain_available {
        Seq::empty()
    } else {
        seq![PROP_RETAIN_AVAILABLE as u8, 0u8]
    }
}

/// The properties of a CONNACK packet that accepts a client.
pub open spec fn connack_properties(options: ConnackOptions<'_>) -> Seq<u8> {
    keep_alive_property(options.server_keep_alive) + seq![PROP_TOPIC_ALIAS_MAXIMUM as u8]
        + wire::be16(TOPIC_ALIAS_MAXIMUM) + client_id_property(options.assigned_client_id)
        + retain_property(options.retain_available) + seq![PROP_MAXIMUM_PACKET_SIZE as u8]
        + wire::be32(options.maximum_packet_size) + seq![PROP_RECEIVE_MAXIMUM as u8] + wire::be16(
        RECEIVE_MAXIMUM,
    )
}

/// The body of a CONNACK packet. Only MQTT 5 has properties there, and a
/// refusal has none.
pub open spec fn connack_body(
    protocol: ProtocolVersion,
    session_present: bool,
    reason_code: u8,
    options: ConnackOptions<'_>,
) -> Seq<u8> {
    seq![bit(session_present), reason_code] + if protocol != ProtocolVersion::V5 {
        Seq::empty()
    } else if reason_code == 0 {
        property_section(connack_properties(options))
    } else {
        seq![0u8]
    }
}

/// A CONNACK packet.
pub open spec fn connack_bytes(
    protocol: ProtocolVersion,
    session_present: bool,
    reason_code: u8,
    options: ConnackOptions<'_>,
) -> Seq<u8> {
    frame_bytes(
        CMD_CONNACK,
        0,
        connack_body(protocol, session_present, reason_code, options),
    )
}

/// The options of a CONNACK packet where nothing out of the ordinary is to be
/// reported.
pub open spec fn usual_options() -> ConnackOptions<'static> {
    ConnackOptions {
        retain_available: true,
        assigned_client_id: None,
        server_keep_alive: None,
        maximum_packet_size: 2_000_000,
    }
}

/// Encodes a CONNACK packet with the usual options.
pub fn encode_connack(protocol: ProtocolVersion, session_present: bool, reason_code: u8) -> (bytes:
    Vec<u8>)
    ensures
        bytes@ == connack_bytes(protocol, session_present, reason_code, usual_options()),
{
    encode_connack_with_options(protocol, session_present, reason_code, ConnackOptions::default())
}

/// Encodes a CONNACK packet that says whether messages are retained.
pub fn encode_connack_with_retain_available(
    protocol: ProtocolVersion,
    session_present: bool,
    reason_code: u8,
    retain_available: bool,
) -> (bytes: Vec<u8>)
    ensures
        bytes@ == connack_bytes(
            protocol,
            session_present,
            reason_code,
            ConnackOptions { retain_available, ..usual_options() },
        ),
{
    encode_connack_with_options(
        protocol,
        session_present,
        reason_code,
        ConnackOptions { retain_available, ..ConnackOptions::default() },
    )
}

/// Encodes a CONNACK packet that also names the client, where the broker did.
pub fn encode_connack_with_assigned_client_id(
    protocol: ProtocolVersion,
    session_present: bool,
    reason_code: u8,
    retain_available: bool,
    assigned_client_id: Option<&str>,
) -> (bytes: Vec<u8>)
    ensures
        bytes@ == connack_bytes(
            protocol,
            session_present,
            reason_code,
            ConnackOptions { retain_available, assigned_client_id, ..usual_options() },
        ),
{
    encode_connack_with_options(
        protocol,
        session_present,
        reason_code,
        ConnackOptions { retain_available, assigned_client_id, ..ConnackOptions::default() },
    )
}

/// Encodes a CONNACK packet. An MQTT 5 client that is accepted is told the
/// options.
pub fn encode_connack_with_options(
    protocol: ProtocolVersion,
    session_present: bool,
    reason_code: u8,
    options: ConnackOptions<'_>,
) -> (bytes: Vec<u8>)
    ensures
        bytes@ == connack_bytes(protocol, session_present, reason_code, options),
{
    let mut body: Vec<u8> = Vec::new();
    body.push(bit_of(session_present));
    body.push(reason_code);
    let ghost start = seq![bit(session_present), reason_code];
    assert(body@ =~= start);
    if protocol == ProtocolVersion::V5 {
        if reason_code == 0 {
            let properties = write_connack_properties(options);
            write_properties(&properties, &mut body);
        } else {
            body.push(0);
        }
    }
    assert(body@ =~= connack_body(protocol, session_present, reason_code, options));
    encode_frame(CMD_CONNACK, 0, body.as_slice())
}

/// The properties of a CONNACK packet that accepts a client.
fn write_connack_properties(options: ConnackOptions<'_>) -> (properties: Vec<u8>)
    ensures
        properties@ == connack_properties(options),
{
    let mut properties: Vec<u8> = Vec::new();
    if let Some(keep_alive) = options.server_keep_alive {
        properties.push(PROP_SERVER_KEEP_ALIVE as u8);
        write_u16(keep_alive, &mut properties);
    }
    assert(properties@ =~= keep_alive_property(options.server_keep_alive));
    properties.push(PROP_TOPIC_ALIAS_MAXIMUM as u8);
    write_u16(TOPIC_ALIAS_MAXIMUM, &mut properties);
    let ghost before = properties@;
    if let Some(client_id) = options.assigned_client_id {
        properties.push(PROP_ASSIGNED_CLIENT_IDENTIFIER as u8);
        write_utf8(client_id, &mut properties);
    }
    assert(properties@ =~= before + client_id_property(options.assigned_client_id));
    let ghost before = properties@;
    if !options.retain_available {
        properties.push(PROP_RETAIN_AVAILABLE as u8);
        properties.push(0);
    }
    assert(properties@ =~= before + retain_property(options.retain_available));
    properties.push(PROP_MAXIMUM_PACKET_SIZE as u8);
    write_u32(options.maximum_packet_size, &mut properties);
    properties.push(PROP_RECEIVE_MAXIMUM as u8);
    write_u16(RECEIVE_MAXIMUM, &mut properties);
    assert(properties@ =~= connack_properties(options));
    properties
}

/// The empty property section that MQTT 5 asks for.
pub open spec fn no_properties_of(protocol: ProtocolVersion) -> Seq<u8> {
    if protocol == ProtocolVersion::V5 {
        seq![0u8]
    } else {
        Seq::empty()
    }
}

/// Encodes a SUBACK packet with a reason code for each filter.
pub fn encode_suback(protocol: ProtocolVersion, packet_id: u16, reason_codes: &[u8]) -> (bytes: Vec<
    u8,
>)
    ensures
        bytes@ == frame_bytes(
            CMD_SUBACK,
            0,
            wire::be16(packet_id) + no_properties_of(protocol) + reason_codes@,
        ),
{
    let mut body: Vec<u8> = Vec::new();
    write_u16(packet_id, &mut body);
    if protocol == ProtocolVersion::V5 {
        body.push(0);
    }
    push_all(&mut body, reason_codes);
    assert(body@ =~= wire::be16(packet_id) + no_properties_of(protocol) + reason_codes@);
    encode_frame(CMD_SUBACK, 0, body.as_slice())
}

/// The reason codes of an UNSUBACK packet, one success for each filter; only
/// MQTT 5 has them.
pub open spec fn unsuback_codes(protocol: ProtocolVersion, count: nat) -> Seq<u8> {
    if protocol == ProtocolVersion::V5 {
        Seq::new(count, |i: int| 0u8)
    } else {
        Seq::empty()
    }
}

/// Encodes an UNSUBACK packet for a number of filters.
pub fn encode_unsuback(protocol: ProtocolVersion, packet_id: u16, count: usize) -> (bytes: Vec<u8>)
    ensures
        bytes@ == frame_bytes(
            CMD_UNSUBACK,
            0,
            wire::be16(packet_id) + no_properties_of(protocol) + unsuback_codes(
                protocol,
                count as nat,
            ),
        ),
{
    let mut body: Vec<u8> = Vec::new();
    write_u16(packet_id, &mut body);
    if protocol == ProtocolVersion::V5 {
        body.push(0);
        let ghost head = body@;
        let mut done: usize = 0;
        while done < count
            invariant
                done <= count,
                body@ =~= head + Seq::new(done as nat, |i: int| 0u8),
            decreases count - done,
        {
            body.push(0);
            done = done + 1;
        }
    }
    assert(body@ =~= wire::be16(packet_id) + no_properties_of(protocol) + unsuback_codes(
        protocol,
        count as nat,
    ));
    encode_frame(CMD_UNSUBACK, 0, body.as_slice())
}

pub open spec fn payload_format_property(indicator: Option<u8>) -> Seq<u8> {
    match indicator {
        Some(value) => seq![PROP_PAYLOAD_FORMAT_INDICATOR as u8, value],
        None => Seq::empty(),
    }
}

pub open spec fn response_topic_property(topic: Option<Seq<char>>) -> Seq<u8> {
    match topic {
        Some(text) => seq![PROP_RESPONSE_TOPIC as u8] + wire::counted_text(text),
        None => Seq::empty(),
    }
}

pub open spec fn correlation_property(data: Option<Seq<u8>>) -> Seq<u8> {
    match data {
        Some(bytes) => seq![PROP_CORRELATION_DATA as u8] + wire::counted(bytes),
        None => Seq::empty(),
    }
}

/// Subscription identifiers, each a property of its own.
pub open spec fn identifier_properties(identifiers: Seq<u32>) -> Seq<u8>
    decreases identifiers.len(),
{
    if identifiers.len() == 0 {
        Seq::empty()
    } else {
        seq![PROP_SUBSCRIPTION_IDENTIFIER as u8] + wire::varint(identifiers[0] as nat)
            + identifier_properties(identifiers.drop_first())
    }
}

/// The properties of a PUBLISH packet. A topic alias is never sent.
pub open spec fn publish_properties(publication: PublicationView) -> Seq<u8> {
    payload_format_property(publication.payload_format_indicator) + response_topic_property(
        publication.response_topic,
    ) + correlation_property(publication.correlation_data) + identifier_properties(
        publication.subscription_identifiers,
    )
}

/// The packet identifier of a PUBLISH packet; QoS 0 has none.
pub open spec fn packet_id_bytes(publication: PublicationView) -> Seq<u8> {
    if publication.qos > 0 {
        wire::be16(publication.packet_id->0)
    } else {
        Seq::empty()
    }
}

/// The property section of a PUBLISH packet; only MQTT 5 has one.
pub open spec fn publish_section(protocol: ProtocolVersion, publication: PublicationView) -> Seq<
    u8,
> {
    if protocol == ProtocolVersion::V5 {
        property_section(publish_properties(publication))
    } else {
        Seq::empty()
    }
}

/// The body of a PUBLISH packet.
pub open spec fn publish_body(protocol: ProtocolVersion, publication: PublicationView) -> Seq<u8> {
    wire::counted_text(publication.topic) + packet_id_bytes(publication) + publish_section(
        protocol,
        publication,
    ) + publication.payload
}

/// The flags of a PUBLISH packet.
pub open spec fn publish_flags(publication: PublicationView) -> u8 {
    (if publication.dup {
        0x08u8
    } else {
        0u8
    }) | ((publication.qos & 0x03) << 1) | bit(publication.retain)
}

/// A PUBLISH packet.
pub open spec fn publish_bytes(protocol: ProtocolVersion, publication: PublicationView) -> Seq<u8> {
    frame_bytes(CMD_PUBLISH, publish_flags(publication), publish_body(protocol, publication))
}

/// A publication that can be sent: where its QoS asks for a packet identifier,
/// it has one.
pub open spec fn sendable(publication: PublicationView) -> bool {
    publication.qos > 0 ==> publication.packet_id is Some
}

/// Writes subscription identifiers as properties.
fn write_identifiers(identifiers: &Vec<u32>, out: &mut Vec<u8>)
    ensures
        final(out)@ == old(out)@ + identifier_properties(identifiers@),
{
    let ghost whole = old(out)@ + identifier_properties(identifiers@);
    let mut i: usize = 0;
    assert(identifiers@.skip(0) =~= identifiers@);
    while i < identifiers.len()
        invariant
            i <= identifiers@.len(),
            whole == out@ + identifier_properties(identifiers@.skip(i as int)),
        decreases identifiers@.len() - i,
    {
        let ghost before = out@;
        let ghost left = identifiers@.skip(i as int);
        out.push(PROP_SUBSCRIPTION_IDENTIFIER as u8);
        write_varint(identifiers[i], out);
        i = i + 1;
        proof {
            let rest = identifiers@.skip(i as int);
            assert(left.drop_first() =~= rest);
            assert(before + identifier_properties(left) =~= out@ + identifier_properties(rest));
        }
    }
    assert(out@ + identifier_properties(identifiers@.skip(i as int)) =~= out@);
}

/// Encodes a PUBLISH packet; a topic alias is not passed on.
pub fn encode_publish(protocol: ProtocolVersion, publication: &Publication) -> (bytes: Vec<u8>)
    requires
        sendable(publication@),
    ensures
        bytes@ == publish_bytes(protocol, publication@),
{
    let mut body: Vec<u8> = Vec::new();
    write_utf8(publication.topic.as_str(), &mut body);
    if publication.qos > 0 {
        if let Some(packet_id) = publication.packet_id {
            write_u16(packet_id, &mut body);
        }
    }
    assert(body@ =~= wire::counted_text(publication@.topic) + packet_id_bytes(publication@));
    if protocol == ProtocolVersion::V5 {
        let mut properties: Vec<u8> = Vec::new();
        if let Some(indicator) = publication.payload_format_indicator {
            properties.push(PROP_PAYLOAD_FORMAT_INDICATOR as u8);
            properties.push(indicator);
        }
        assert(properties@ =~= payload_format_property(publication@.payload_format_indicator));
        let ghost before = properties@;
        if let Some(response_topic) = &publication.response_topic {
            properties.push(PROP_RESPONSE_TOPIC as u8);
            write_utf8(response_topic.as_str(), &mut properties);
        }
        assert(properties@ =~= before + response_topic_property(publication@.response_topic));
        let ghost before = properties@;
        if let Some(correlation_data) = &publication.correlation_data {
            properties.push(PROP_CORRELATION_DATA as u8);
            write_binary(correlation_data.as_slice(), &mut properties);
        }
        assert(properties@ =~= before + correlation_property(publication@.correlation_data));
        write_identifiers(&publication.subscription_identifiers, &mut properties);
        assert(properties@ =~= publish_properties(publication@));
        write_properties(&properties, &mut body);
    }
    push_all(&mut body, publication.payload.as_slice());
    assert(body@ =~= publish_body(protocol, publication@));
    let dup: u8 = if publication.dup {
        0x08
    } else {
        0
    };
    let flags: u8 = dup | ((publication.qos & 0x03) << 1) | bit_of(publication.retain);
    encode_frame(CMD_PUBLISH, flags, body.as_slice())
}

/// Encodes a PUBACK packet.
pub fn encode_puback(protocol: ProtocolVersion, packet_id: u16) -> (bytes: Vec<u8>)
    ensures
        bytes@ == frame_bytes(CMD_PUBACK, 0, wire::be16(packet_id)),
{
    encode_ack(CMD_PUBACK, 0, protocol, packet_id)
}

/// Encodes a PUBACK packet with a reason.
pub fn encode_puback_reason(protocol: ProtocolVersion, packet_id: u16, reason_code: u8) -> (bytes:
    Vec<u8>)
    ensures
        bytes@ == frame_bytes(CMD_PUBACK, 0, ack_body(protocol, packet_id, reason_code)),
{
    encode_ack_reason(CMD_PUBACK, 0, protocol, packet_id, reason_code)
}

/// Encodes a PUBREC packet.
pub fn encode_pubrec(protocol: ProtocolVersion, packet_id: u16) -> (bytes: Vec<u8>)
    ensures
        bytes@ == frame_bytes(CMD_PUBREC, 0, wire::be16(packet_id)),
{
    encode_ack(CMD_PUBREC, 0, protocol, packet_id)
}

/// Encodes a PUBREL packet, whose flags the format fixes.
pub fn encode_pubrel(_protocol: ProtocolVersion, packet_id: u16) -> (bytes: Vec<u8>)
    ensures
        bytes@ == frame_bytes(CMD_PUBREL, 0x02, wire::be16(packet_id)),
{
    let mut body: Vec<u8> = Vec::new();
    write_u16(packet_id, &mut body);
    assert(body@ =~= wire::be16(packet_id));
    encode_frame(CMD_PUBREL, 0x02, body.as_slice())
}

/// Encodes a PUBCOMP packet.
pub fn encode_pubcomp(protocol: ProtocolVersion, packet_id: u16) -> (bytes: Vec<u8>)
    ensures
        bytes@ == frame_bytes(CMD_PUBCOMP, 0, wire::be16(packet_id)),
{
    encode_ack(CMD_PUBCOMP, 0, protocol, packet_id)
}

/// An acknowledgement in its short form, which every revision understands.
fn encode_ack(command: u8, flags: u8, _protocol: ProtocolVersion, packet_id: u16) -> (bytes: Vec<
    u8,
>)
    ensures
        bytes@ == frame_bytes(command, flags, wire::be16(packet_id)),
{
    let mut body: Vec<u8> = Vec::new();
    write_u16(packet_id, &mut body);
    assert(body@ =~= wire::be16(packet_id));
    encode_frame(command, flags, body.as_slice())
}

/// The body of an acknowledgement with a reason; only MQTT 5 can say one.
pub open spec fn ack_body(protocol: ProtocolVersion, packet_id: u16, reason_code: u8) -> Seq<u8> {
    if protocol == ProtocolVersion::V5 {
        wire::be16(packet_id).push(reason_code)
    } else {
        wire::be16(packet_id)
    }
}

fn encode_ack_reason(
    command: u8,
    flags: u8,
    protocol: ProtocolVersion,
    packet_id: u16,
    reason_code: u8,
) -> (bytes: Vec<u8>)
    ensures
        bytes@ == frame_bytes(command, flags, ack_body(protocol, packet_id, reason_code)),
{
    let mut body: Vec<u8> = Vec::new();
    write_u16(packet_id, &mut body);
    if protocol == ProtocolVersion::V5 {
        body.push(reason_code);
    }
    assert(body@ =~= ack_body(protocol, packet_id, reason_code));
    encode_frame(command, flags, body.as_slice())
}

/// Encodes a PINGRESP packet.
pub fn encode_pingresp() -> (bytes: Vec<u8>)
    ensures
        bytes@ == frame_bytes(CMD_PINGRESP, 0, Seq::empty()),
{
    let body: Vec<u8> = Vec::new();
    encode_frame(CMD_PINGRESP, 0, body.as_slice())
}

/// The body of a DISCONNECT packet; only MQTT 5 gives a reason.
pub open spec fn disconnect_body(protocol: ProtocolVersion, reason_code: u8) -> Seq<u8> {
    if protocol == ProtocolVersion::V5 {
        seq![reason_code]
    } else {
        Seq::empty()
    }
}

/// Encodes a DISCONNECT packet.
pub fn encode_disconnect(protocol: ProtocolVersion, reason_code: u8) -> (bytes: Vec<u8>)
    ensures
        bytes@ == frame_bytes(CMD_DISCONNECT, 0, disconnect_body(protocol, reason_code)),
{
    let mut body: Vec<u8> = Vec::new();
    if protocol == ProtocolVersion::V5 {
        body.push(reason_code);
    }
    assert(body@ =~= disconnect_body(protocol, reason_code));
    encode_frame(CMD_DISCONNECT, 0, body.as_slice())
}

} // verus!
