//! From frames to packets.

use vstd::prelude::*;
use vstd::slice::slice_to_vec;

use crate::cursor::Cursor;
use crate::packet;
use crate::packet::{
    ErrorView, Frame, MqttPacket, PacketView, ProtocolError, ProtocolVersion, Publication,
    PublicationView, RequestView, SubscriptionRequest, Will, WillView, CMD_CONNECT,
    CMD_DISCONNECT, CMD_PINGREQ, CMD_PUBACK, CMD_PUBCOMP, CMD_PUBLISH, CMD_PUBREC, CMD_PUBREL,
    CMD_SUBSCRIBE, CMD_UNSUBSCRIBE,
};
use crate::properties;
use crate::properties::{Properties, PropertiesView, PropertyOwner};
use crate::text::same_text;
use crate::wire;
use crate::wire::malformed_packet;
use crate::wire::Taken;

verus! {

/// The name that a CONNECT packet of a revision starts with.
pub open spec fn protocol_name(version: ProtocolVersion) -> Seq<char> {
    if version == ProtocolVersion::V31 {
        "MQIsdp"@
    } else {
        "MQTT"@
    }
}

/// The name and level at the start of a CONNECT packet.
pub open spec fn take_version(s: Seq<u8>) -> Taken<ProtocolVersion> {
    match wire::take_text(s) {
        Ok((name, rest)) => match wire::take_u8(rest) {
            Ok((level, rest)) => match ProtocolVersion::of_level(level) {
                Some(version) => if name == protocol_name(version) {
                    Ok((version, rest))
                } else {
                    Err(wire::malformed("invalid protocol name"))
                },
                None => Err(ErrorView::UnsupportedProtocolVersion(level)),
            },
            Err(e) => Err(e),
        },
        Err(e) => Err(e),
    }
}

/// The properties of a packet, which only MQTT 5 has.
pub open spec fn take_properties_if(
    present: bool,
    owner: PropertyOwner,
    s: Seq<u8>,
) -> Taken<PropertiesView> {
    if present {
        properties::take_properties(owner, s)
    } else {
        Ok((properties::no_properties(), s))
    }
}

/// What is left behind a property section that is passed over, where there is
/// one.
pub open spec fn skip_properties_if(present: bool, s: Seq<u8>) -> Result<Seq<u8>, ErrorView> {
    if present {
        properties::skip_properties(s)
    } else {
        Ok(s)
    }
}

pub open spec fn take_text_if(present: bool, s: Seq<u8>) -> Taken<Option<Seq<char>>> {
    if present {
        match wire::take_text(s) {
            Ok((value, rest)) => Ok((Some(value), rest)),
            Err(e) => Err(e),
        }
    } else {
        Ok((None, s))
    }
}

pub open spec fn take_counted_if(present: bool, s: Seq<u8>) -> Taken<Option<Seq<u8>>> {
    if present {
        match wire::take_counted(s) {
            Ok((value, rest)) => Ok((Some(value), rest)),
            Err(e) => Err(e),
        }
    } else {
        Ok((None, s))
    }
}

/// The will of a CONNECT packet, where its flags announce one.
pub open spec fn take_will_if(
    flags: u8,
    version: ProtocolVersion,
    s: Seq<u8>,
) -> Taken<Option<WillView>> {
    if flags & 0x04 == 0 {
        Ok((None, s))
    } else {
        match skip_properties_if(version == ProtocolVersion::V5, s) {
            Ok(rest) => match wire::take_text(rest) {
                Ok((topic, rest)) => match wire::take_counted(rest) {
                    Ok((payload, rest)) => Ok(
                        (
                            Some(
                                WillView {
                                    topic,
                                    payload,
                                    qos: (flags & 0x18) >> 3,
                                    retain: flags & 0x20 != 0,
                                },
                            ),
                            rest,
                        ),
                    ),
                    Err(e) => Err(e),
                },
                Err(e) => Err(e),
            },
            Err(e) => Err(e),
        }
    }
}

/// The packet in the body of a CONNECT frame. What follows its last field is
/// not looked at.
pub open spec fn connect_of(body: Seq<u8>) -> Result<PacketView, ErrorView> {
    match take_version(body) {
        Ok((protocol, rest)) => match wire::take_u8(rest) {
            Ok((flags, rest)) => match wire::take_u16(rest) {
                Ok((keep_alive, rest)) => match take_properties_if(
                    protocol == ProtocolVersion::V5,
                    PropertyOwner::Connect,
                    rest,
                ) {
                    Ok((kept, rest)) => match wire::take_text(rest) {
                        Ok((client_id, rest)) => match take_will_if(flags, protocol, rest) {
                            Ok((will, rest)) => match take_text_if(flags & 0x80 != 0, rest) {
                                Ok((username, rest)) => match take_counted_if(
                                    flags & 0x40 != 0,
                                    rest,
                                ) {
                                    Ok((password, rest)) => Ok(
                                        PacketView::Connect {
                                            protocol,
                                            clean_start: flags & 0x02 != 0,
                                            keep_alive,
                                            client_id,
                                            username,
                                            password,
                                            will,
                                            session_expiry_interval: kept.session_expiry_interval,
                                            maximum_packet_size: kept.maximum_packet_size,
                                        },
                                    ),
                                    Err(e) => Err(e),
                                },
                                Err(e) => Err(e),
                            },
                            Err(e) => Err(e),
                        },
                        Err(e) => Err(e),
                    },
                    Err(e) => Err(e),
                },
                Err(e) => Err(e),
            },
            Err(e) => Err(e),
        },
        Err(e) => Err(e),
    }
}

/// The packet identifier of a PUBLISH packet, which only a QoS above 0 has.
pub open spec fn take_packet_id_if(present: bool, s: Seq<u8>) -> Taken<Option<u16>> {
    if present {
        match wire::take_packet_id(s) {
            Ok((id, rest)) => Ok((Some(id), rest)),
            Err(e) => Err(e),
        }
    } else {
        Ok((None, s))
    }
}

/// The packet in a PUBLISH frame: what follows the topic, the packet identifier
/// and the properties is the payload.
pub open spec fn publish_of(
    flags: u8,
    body: Seq<u8>,
    version: Option<ProtocolVersion>,
) -> Result<PacketView, ErrorView> {
    let qos = (flags & 0x06) >> 1;
    if qos == 3 {
        Err(wire::malformed("invalid publish qos"))
    } else {
        match wire::take_text(body) {
            Ok((topic, rest)) => match take_packet_id_if(qos > 0, rest) {
                Ok((packet_id, rest)) => match take_properties_if(
                    version == Some(ProtocolVersion::V5),
                    PropertyOwner::Publish,
                    rest,
                ) {
                    Ok((kept, payload)) => Ok(
                        PacketView::Publish(
                            PublicationView {
                                topic,
                                payload,
                                qos,
                                retain: flags & 0x01 != 0,
                                packet_id,
                                dup: flags & 0x08 != 0,
                                topic_alias: kept.topic_alias,
                                payload_format_indicator: kept.payload_format_indicator,
                                response_topic: kept.response_topic,
                                correlation_data: kept.correlation_data,
                                subscription_identifiers: kept.subscription_identifiers,
                            },
                        ),
                    ),
                    Err(e) => Err(e),
                },
                Err(e) => Err(e),
            },
            Err(e) => Err(e),
        }
    }
}

/// Whether the options byte of a filter is one that the format allows.
pub open spec fn options_allowed(options: u8) -> bool {
    options & 0x03 != 3 && (options & 0x30) >> 4 != 3 && options & 0xC0 == 0
}

/// The request that a filter and its options byte make.
pub open spec fn request_of(
    filter: Seq<char>,
    options: u8,
    identifier: Option<u32>,
) -> RequestView {
    RequestView {
        filter,
        qos: options & 0x03,
        no_local: options & 0x04 != 0,
        retain_as_published: options & 0x08 != 0,
        retain_handling: (options & 0x30) >> 4,
        identifier,
    }
}

/// Filters with their options, up to the end of the packet.
pub open spec fn requests_of(s: Seq<u8>, identifier: Option<u32>) -> Result<
    Seq<RequestView>,
    ErrorView,
>
    decreases s.len(),
{
    if s.len() == 0 {
        Ok(Seq::empty())
    } else {
        match wire::take_text(s) {
            Ok((filter, rest)) => match wire::take_u8(rest) {
                Ok((options, rest)) => if options_allowed(options) {
                    match requests_of(rest, identifier) {
                        Ok(more) => Ok(seq![request_of(filter, options, identifier)] + more),
                        Err(e) => Err(e),
                    }
                } else {
                    Err(wire::malformed("invalid subscribe options"))
                },
                Err(e) => Err(e),
            },
            Err(e) => Err(e),
        }
    }
}

/// The packet in the body of a SUBSCRIBE frame.
pub open spec fn subscribe_of(body: Seq<u8>, version: Option<ProtocolVersion>) -> Result<
    PacketView,
    ErrorView,
> {
    match wire::take_packet_id(body) {
        Ok((packet_id, rest)) => match take_properties_if(
            version == Some(ProtocolVersion::V5),
            PropertyOwner::Subscribe,
            rest,
        ) {
            Ok((kept, rest)) => match requests_of(rest, properties::first_identifier(kept)) {
                Ok(filters) => if filters.len() == 0 {
                    Err(wire::malformed("empty subscribe"))
                } else {
                    Ok(PacketView::Subscribe { packet_id, filters })
                },
                Err(e) => Err(e),
            },
            Err(e) => Err(e),
        },
        Err(e) => Err(e),
    }
}

/// Texts up to the end of the packet.
pub open spec fn texts_of(s: Seq<u8>) -> Result<Seq<Seq<char>>, ErrorView>
    decreases s.len(),
{
    if s.len() == 0 {
        Ok(Seq::empty())
    } else {
        match wire::take_text(s) {
            Ok((text, rest)) => match texts_of(rest) {
                Ok(more) => Ok(seq![text] + more),
                Err(e) => Err(e),
            },
            Err(e) => Err(e),
        }
    }
}

/// The packet in the body of an UNSUBSCRIBE frame.
pub open spec fn unsubscribe_of(body: Seq<u8>, version: Option<ProtocolVersion>) -> Result<
    PacketView,
    ErrorView,
> {
    match wire::take_packet_id(body) {
        Ok((packet_id, rest)) => match skip_properties_if(
            version == Some(ProtocolVersion::V5),
            rest,
        ) {
            Ok(rest) => match texts_of(rest) {
                Ok(filters) => if filters.len() == 0 {
                    Err(wire::malformed("empty unsubscribe"))
                } else {
                    Ok(PacketView::Unsubscribe { packet_id, filters })
                },
                Err(e) => Err(e),
            },
            Err(e) => Err(e),
        },
        Err(e) => Err(e),
    }
}

/// The packet in the body of a DISCONNECT frame. Only MQTT 5 puts anything
/// there, and the properties may be left off.
pub open spec fn disconnect_of(body: Seq<u8>, version: Option<ProtocolVersion>) -> Result<
    PacketView,
    ErrorView,
> {
    if body.len() == 0 || version != Some(ProtocolVersion::V5) {
        Ok(PacketView::Disconnect { reason_code: None, session_expiry_interval: None })
    } else {
        match take_properties_if(body.len() > 1, PropertyOwner::Disconnect, body.skip(1)) {
            Ok((kept, rest)) => Ok(
                PacketView::Disconnect {
                    reason_code: Some(body[0]),
                    session_expiry_interval: kept.session_expiry_interval,
                },
            ),
            Err(e) => Err(e),
        }
    }
}

/// The packet identifier that an acknowledgement starts with; what follows it
/// is not looked at.
pub open spec fn acknowledged(body: Seq<u8>) -> Result<u16, ErrorView> {
    match wire::take_packet_id(body) {
        Ok((packet_id, rest)) => Ok(packet_id),
        Err(e) => Err(e),
    }
}

/// The packet that a frame holds for a client of the given revision, or the
/// error for which the frame is refused.
pub open spec fn packet_of(
    command: u8,
    flags: u8,
    body: Seq<u8>,
    version: Option<ProtocolVersion>,
) -> Result<PacketView, ErrorView> {
    if command == CMD_CONNECT {
        connect_of(body)
    } else if command == CMD_PUBLISH {
        publish_of(flags, body, version)
    } else if command == CMD_PUBACK {
        match acknowledged(body) {
            Ok(packet_id) => Ok(PacketView::PubAck { packet_id }),
            Err(e) => Err(e),
        }
    } else if command == CMD_PUBREC {
        match acknowledged(body) {
            Ok(packet_id) => Ok(PacketView::PubRec { packet_id }),
            Err(e) => Err(e),
        }
    } else if command == CMD_PUBREL {
        match acknowledged(body) {
            Ok(packet_id) => Ok(PacketView::PubRel { packet_id }),
            Err(e) => Err(e),
        }
    } else if command == CMD_PUBCOMP {
        match acknowledged(body) {
            Ok(packet_id) => Ok(PacketView::PubComp { packet_id }),
            Err(e) => Err(e),
        }
    } else if command == CMD_SUBSCRIBE {
        subscribe_of(body, version)
    } else if command == CMD_UNSUBSCRIBE {
        unsubscribe_of(body, version)
    } else if command == CMD_PINGREQ {
        Ok(PacketView::PingReq)
    } else if command == CMD_DISCONNECT {
        disconnect_of(body, version)
    } else {
        Err(wire::malformed("unsupported command"))
    }
}

/// The outcome of decoding agrees with the packet that the format defines.
pub open spec fn decodes(
    expected: Result<PacketView, ErrorView>,
    outcome: Result<MqttPacket, ProtocolError>,
) -> bool {
    match expected {
        Ok(packet) => outcome matches Ok(p) && p@ == packet,
        Err(e) => outcome matches Err(error) && error@ == e,
    }
}

/// Decodes a frame, for a client of the given revision where one is known.
pub fn decode_frame(frame: &Frame, current_protocol: Option<ProtocolVersion>) -> (packet: Result<
    MqttPacket,
    ProtocolError,
>)
    ensures
        decodes(packet_of(frame.command, frame.flags, frame.body@, current_protocol), packet),
{
    let mut cursor = Cursor::new(frame.body.as_slice());
    match frame.command {
        CMD_CONNECT => decode_connect(&mut cursor),
        CMD_PUBLISH => decode_publish(frame.flags, &mut cursor, current_protocol),
        CMD_PUBACK => Ok(MqttPacket::PubAck { packet_id: cursor.read_packet_id()? }),
        CMD_PUBREC => Ok(MqttPacket::PubRec { packet_id: cursor.read_packet_id()? }),
        CMD_PUBREL => Ok(MqttPacket::PubRel { packet_id: cursor.read_packet_id()? }),
        CMD_PUBCOMP => Ok(MqttPacket::PubComp { packet_id: cursor.read_packet_id()? }),
        CMD_SUBSCRIBE => decode_subscribe(&mut cursor, current_protocol),
        CMD_UNSUBSCRIBE => decode_unsubscribe(&mut cursor, current_protocol),
        CMD_PINGREQ => Ok(MqttPacket::PingReq),
        CMD_DISCONNECT => decode_disconnect(&mut cursor, current_protocol),
        _ => Err(malformed_packet("unsupported command")),
    }
}

/// Reads the name and level at the start of a CONNECT packet.
fn read_version(cursor: &mut Cursor<'_>) -> (version: Result<ProtocolVersion, ProtocolError>)
    requires
        old(cursor).wf(),
    ensures
        final(cursor).wf(),
        crate::cursor::reads(take_version(old(cursor)@), version, final(cursor)@),
{
    let name = cursor.read_utf8()?;
    let level: u8 = cursor.read_u8()?;
    let version = ProtocolVersion::from_level(level)?;
    let expected = if version == ProtocolVersion::V31 {
        "MQIsdp"
    } else {
        "MQTT"
    };
    if !same_text(name.as_str(), expected) {
        return Err(malformed_packet("invalid protocol name"));
    }
    Ok(version)
}

/// Reads the will of a CONNECT packet, where its flags announce one.
fn read_will(cursor: &mut Cursor<'_>, flags: u8, version: ProtocolVersion) -> (will: Result<
    Option<Will>,
    ProtocolError,
>)
    requires
        old(cursor).wf(),
    ensures
        final(cursor).wf(),
        match take_will_if(flags, version, old(cursor)@) {
            Ok((taken, rest)) => will matches Ok(w) && packet::will_view(w) == taken
                && final(cursor)@ == rest,
            Err(e) => will matches Err(error) && error@ == e,
        },
{
    if flags & 0x04 == 0 {
        return Ok(None);
    }
    if version == ProtocolVersion::V5 {
        cursor.skip_properties()?;
    }
    let topic = cursor.read_utf8()?;
    let payload = cursor.read_binary()?;
    Ok(Some(Will { topic, payload, qos: (flags & 0x18) >> 3, retain: flags & 0x20 != 0 }))
}

fn decode_connect(cursor: &mut Cursor<'_>) -> (packet: Result<MqttPacket, ProtocolError>)
    requires
        old(cursor).wf(),
    ensures
        decodes(connect_of(old(cursor)@), packet),
{
    let protocol = read_version(cursor)?;
    let flags: u8 = cursor.read_u8()?;
    let keep_alive: u16 = cursor.read_u16()?;
    let kept = if protocol == ProtocolVersion::V5 {
        cursor.read_connect_properties()?
    } else {
        Properties::default()
    };
    let client_id = cursor.read_utf8()?;
    let will = read_will(cursor, flags, protocol)?;
    let username = if flags & 0x80 != 0 {
        Some(cursor.read_utf8()?)
    } else {
        None
    };
    let password = if flags & 0x40 != 0 {
        Some(cursor.read_binary()?)
    } else {
        None
    };
    Ok(
        MqttPacket::Connect {
            protocol,
            clean_start: flags & 0x02 != 0,
            keep_alive,
            client_id,
            username,
            password,
            will,
            session_expiry_interval: kept.session_expiry_interval,
            maximum_packet_size: kept.maximum_packet_size,
        },
    )
}

fn decode_publish(
    flags: u8,
    cursor: &mut Cursor<'_>,
    current_protocol: Option<ProtocolVersion>,
) -> (packet: Result<MqttPacket, ProtocolError>)
    requires
        old(cursor).wf(),
    ensures
        decodes(publish_of(flags, old(cursor)@, current_protocol), packet),
{
    let qos: u8 = (flags & 0x06) >> 1;
    if qos == 3 {
        return Err(malformed_packet("invalid publish qos"));
    }
    let topic = cursor.read_utf8()?;
    let packet_id = if qos > 0 {
        Some(cursor.read_packet_id()?)
    } else {
        None
    };
    let kept = if speaks_v5(current_protocol) {
        cursor.read_publish_properties()?
    } else {
        Properties::default()
    };
    let payload = slice_to_vec(cursor.read_remaining());
    Ok(
        MqttPacket::Publish(
            Publication {
                topic,
                payload,
                qos,
                retain: flags & 0x01 != 0,
                packet_id,
                dup: flags & 0x08 != 0,
                topic_alias: kept.topic_alias,
                payload_format_indicator: kept.payload_format_indicator,
                response_topic: kept.response_topic,
                correlation_data: kept.correlation_data,
                subscription_identifiers: kept.subscription_identifiers,
            },
        ),
    )
}

/// Whether the client is known to speak MQTT 5.
fn speaks_v5(version: Option<ProtocolVersion>) -> (v5: bool)
    ensures
        v5 == (version == Some(ProtocolVersion::V5)),
{
    match version {
        Some(version) => version == ProtocolVersion::V5,
        None => false,
    }
}

/// Reads filters with their options up to the end of the packet.
fn read_requests(cursor: &mut Cursor<'_>, identifier: Option<u32>) -> (requests: Result<
    Vec<SubscriptionRequest>,
    ProtocolError,
>)
    requires
        old(cursor).wf(),
    ensures
        final(cursor).wf(),
        match requests_of(old(cursor)@, identifier) {
            Ok(listed) => requests matches Ok(r) && packet::request_views(r@) == listed,
            Err(e) => requests matches Err(error) && error@ == e,
        },
{
    let ghost listed = requests_of(cursor@, identifier);
    let mut filters: Vec<SubscriptionRequest> = Vec::new();
    proof {
        if let Ok(more) = listed {
            assert(packet::request_views(filters@) + more =~= more);
        }
    }
    while cursor.remaining() > 0
        invariant
            cursor.wf(),
            listed == requests_of(old(cursor)@, identifier),
            match requests_of(cursor@, identifier) {
                Ok(more) => listed == Ok::<Seq<RequestView>, ErrorView>(
                    packet::request_views(filters@) + more,
                ),
                Err(e) => listed == Err::<Seq<RequestView>, ErrorView>(e),
            },
        decreases cursor@.len(),
    {
        let ghost before = filters@;
        let filter = cursor.read_utf8()?;
        let options: u8 = cursor.read_u8()?;
        let qos: u8 = options & 0x03;
        let retain_handling: u8 = (options & 0x30) >> 4;
        if qos == 3 || retain_handling == 3 || (options & 0xC0) != 0 {
            return Err(malformed_packet("invalid subscribe options"));
        }
        let request = SubscriptionRequest {
            filter,
            qos,
            no_local: (options & 0x04) != 0,
            retain_as_published: (options & 0x08) != 0,
            retain_handling,
            identifier,
        };
        let ghost view = request@;
        filters.push(request);
        proof {
            assert(packet::request_views(filters@) =~= packet::request_views(before).push(view));
            if let Ok(more) = requests_of(cursor@, identifier) {
                assert(packet::request_views(before) + (seq![view] + more)
                    =~= packet::request_views(filters@) + more);
            }
        }
    }
    assert(packet::request_views(filters@) + Seq::empty() =~= packet::request_views(filters@));
    Ok(filters)
}

fn decode_subscribe(
    cursor: &mut Cursor<'_>,
    current_protocol: Option<ProtocolVersion>,
) -> (packet: Result<MqttPacket, ProtocolError>)
    requires
        old(cursor).wf(),
    ensures
        decodes(subscribe_of(old(cursor)@, current_protocol), packet),
{
    let packet_id: u16 = cursor.read_packet_id()?;
    let identifier = if speaks_v5(current_protocol) {
        cursor.read_subscribe_properties()?
    } else {
        None
    };
    let filters = read_requests(cursor, identifier)?;
    if filters.is_empty() {
        return Err(malformed_packet("empty subscribe"));
    }
    Ok(MqttPacket::Subscribe { packet_id, filters })
}

/// Reads texts up to the end of the packet.
fn read_texts(cursor: &mut Cursor<'_>) -> (texts: Result<Vec<String>, ProtocolError>)
    requires
        old(cursor).wf(),
    ensures
        final(cursor).wf(),
        match texts_of(old(cursor)@) {
            Ok(listed) => texts matches Ok(t) && packet::text_views(t@) == listed,
            Err(e) => texts matches Err(error) && error@ == e,
        },
{
    let ghost listed = texts_of(cursor@);
    let mut texts: Vec<String> = Vec::new();
    proof {
        if let Ok(more) = listed {
            assert(packet::text_views(texts@) + more =~= more);
        }
    }
    while cursor.remaining() > 0
        invariant
            cursor.wf(),
            listed == texts_of(old(cursor)@),
            match texts_of(cursor@) {
                Ok(more) => listed == Ok::<Seq<Seq<char>>, ErrorView>(
                    packet::text_views(texts@) + more,
                ),
                Err(e) => listed == Err::<Seq<Seq<char>>, ErrorView>(e),
            },
        decreases cursor@.len(),
    {
        let ghost before = texts@;
        let text = cursor.read_utf8()?;
        let ghost view = text@;
        texts.push(text);
        proof {
            assert(packet::text_views(texts@) =~= packet::text_views(before).push(view));
            if let Ok(more) = texts_of(cursor@) {
                assert(packet::text_views(before) + (seq![view] + more) =~= packet::text_views(
                    texts@,
                ) + more);
            }
        }
    }
    assert(packet::text_views(texts@) + Seq::empty() =~= packet::text_views(texts@));
    Ok(texts)
}

fn decode_unsubscribe(
    cursor: &mut Cursor<'_>,
    current_protocol: Option<ProtocolVersion>,
) -> (packet: Result<MqttPacket, ProtocolError>)
    requires
        old(cursor).wf(),
    ensures
        decodes(unsubscribe_of(old(cursor)@, current_protocol), packet),
{
    let packet_id: u16 = cursor.read_packet_id()?;
    if speaks_v5(current_protocol) {
        cursor.skip_properties()?;
    }
    let filters = read_texts(cursor)?;
    if filters.is_empty() {
        return Err(malformed_packet("empty unsubscribe"));
    }
    Ok(MqttPacket::Unsubscribe { packet_id, filters })
}

fn decode_disconnect(
    cursor: &mut Cursor<'_>,
    current_protocol: Option<ProtocolVersion>,
) -> (packet: Result<MqttPacket, ProtocolError>)
    requires
        old(cursor).wf(),
    ensures
        decodes(disconnect_of(old(cursor)@, current_protocol), packet),
{
    if cursor.remaining() == 0 || !speaks_v5(current_protocol) {
        return Ok(MqttPacket::Disconnect { reason_code: None, session_expiry_interval: None });
    }
    let reason_code: u8 = cursor.read_u8()?;
    let session_expiry_interval = if cursor.remaining() > 0 {
        cursor.read_session_expiry_property()?
    } else {
        None
    };
    Ok(MqttPacket::Disconnect { reason_code: Some(reason_code), session_expiry_interval })
}

} // verus!
