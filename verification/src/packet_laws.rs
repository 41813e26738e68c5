//! What the encoder writes, the decoder gives back.

use vstd::prelude::*;

use crate::decode;
use crate::encode;
use crate::frame;
use crate::packet::{
    ErrorView, FrameView, PacketView, ProtocolVersion, PublicationView, CMD_DISCONNECT,
    CMD_PUBACK, CMD_PUBCOMP, CMD_PUBLISH, CMD_PUBREC, CMD_PUBREL,
};
use crate::properties;
use crate::properties::{
    PropertiesView, PropertyOwner, PROP_CORRELATION_DATA, PROP_PAYLOAD_FORMAT_INDICATOR,
    PROP_RESPONSE_TOPIC, PROP_SUBSCRIPTION_IDENTIFIER,
};
use crate::wire;

verus! {

/// The numbers that a variable byte integer of at most `limit` bytes can hold
/// are those below this.
pub open spec fn varint_bound(limit: nat) -> nat
    decreases limit,
{
    if limit == 0 {
        1
    } else {
        128 * varint_bound((limit - 1) as nat)
    }
}

proof fn lemma_varint_step(value: nat, limit: nat)
    requires
        value >= 128,
        value < varint_bound(limit),
    ensures
        limit > 1,
        value / 128 < varint_bound((limit - 1) as nat),
{
    reveal_with_fuel(varint_bound, 2);
}

/// A number written as a variable byte integer is read back as itself, whatever
/// follows.
pub proof fn law_varint_read_back(value: nat, limit: nat, rest: Seq<u8>)
    requires
        limit > 0,
        value < varint_bound(limit),
    ensures
        wire::take_varint_within(wire::varint(value) + rest, limit) == Ok::<
            (nat, Seq<u8>),
            ErrorView,
        >((value, rest)),
    decreases value,
{
    let s = wire::varint(value) + rest;
    if value < 128 {
        assert(s.skip(1) =~= rest);
    } else {
        lemma_varint_step(value, limit);
        let high = wire::varint(value / 128) + rest;
        law_varint_read_back(value / 128, (limit - 1) as nat, rest);
        assert(s.skip(1) =~= high);
    }
}

/// The same for the remaining length of a frame.
pub proof fn law_length_read_back(value: nat, limit: nat, rest: Seq<u8>)
    requires
        limit > 0,
        value < varint_bound(limit),
    ensures
        frame::take_length_within(wire::varint(value) + rest, limit) == Ok::<
            (nat, Seq<u8>),
            ErrorView,
        >((value, rest)),
    decreases value,
{
    let s = wire::varint(value) + rest;
    if value < 128 {
        assert(s.skip(1) =~= rest);
    } else {
        lemma_varint_step(value, limit);
        let high = wire::varint(value / 128) + rest;
        law_length_read_back(value / 128, (limit - 1) as nat, rest);
        assert(s.skip(1) =~= high);
    }
}

/// Four bytes hold any number up to the greatest one.
pub proof fn lemma_four_bytes()
    ensures
        varint_bound(4) == wire::VARINT_MAX + 1,
{
    reveal_with_fuel(varint_bound, 5);
}

/// A number of up to 28 bits takes at most four bytes as a variable byte integer.
pub proof fn law_varint_length(value: nat, limit: nat)
    requires
        value < varint_bound(limit),
        limit > 0,
    ensures
        1 <= wire::varint(value).len() <= limit,
    decreases value,
{
    if value >= 128 {
        lemma_varint_step(value, limit);
        law_varint_length(value / 128, (limit - 1) as nat);
    }
}

/// A two-byte number comes back.
pub proof fn lemma_u16_read_back(value: u16, rest: Seq<u8>)
    ensures
        wire::take_u16(wire::be16(value) + rest) == Ok::<(u16, Seq<u8>), ErrorView>((value, rest)),
{
    assert((wire::be16(value) + rest).skip(2) =~= rest);
}

/// Bytes behind their length come back.
pub proof fn lemma_counted_read_back(bytes: Seq<u8>, rest: Seq<u8>)
    requires
        bytes.len() <= 0xFFFF,
    ensures
        wire::take_counted(wire::counted(bytes) + rest) == Ok::<(Seq<u8>, Seq<u8>), ErrorView>(
            (bytes, rest),
        ),
{
    let len = (bytes.len() % 0x1_0000) as u16;
    assert(wire::counted(bytes) + rest =~= wire::be16(len) + (bytes + rest));
    lemma_u16_read_back(len, bytes + rest);
    assert((bytes + rest).take(len as int) =~= bytes);
    assert((bytes + rest).skip(len as int) =~= rest);
}

/// A text behind its length comes back.
pub proof fn lemma_text_read_back(text: Seq<char>, rest: Seq<u8>)
    requires
        vstd::utf8::encode_utf8(text).len() <= 0xFFFF,
    ensures
        wire::take_text(wire::counted_text(text) + rest) == Ok::<(Seq<char>, Seq<u8>), ErrorView>(
            (text, rest),
        ),
{
    lemma_counted_read_back(vstd::utf8::encode_utf8(text), rest);
    vstd::utf8::encode_utf8_valid_utf8(text);
    vstd::utf8::encode_utf8_decode_utf8(text);
}

/// A frame that is written is read back as it was, and what follows it in the
/// stream is left. The command must lie in the high nibble and the flags in the
/// low one, and the length must fit in four bytes.
pub proof fn law_frame_read_back(command: u8, flags: u8, body: Seq<u8>, rest: Seq<u8>)
    requires
        command & 0x0F == 0,
        flags & 0xF0 == 0,
        body.len() <= wire::VARINT_MAX,
    ensures
        frame::take_frame(encode::frame_bytes(command, flags, body) + rest) == Ok::<
            (FrameView, Seq<u8>),
            ErrorView,
        >((FrameView { command, flags, body }, rest)),
{
    let s = encode::frame_bytes(command, flags, body) + rest;
    assert((command | flags) & 0xF0 == command && (command | flags) & 0x0F == flags) by (bit_vector)
        requires
            command & 0x0F == 0,
            flags & 0xF0 == 0,
    ;
    assert(s.skip(1) =~= wire::varint(body.len()) + (body + rest));
    lemma_four_bytes();
    law_length_read_back(body.len(), 4, body + rest);
    assert((body + rest).take(body.len() as int) =~= body);
    assert((body + rest).skip(body.len() as int) =~= rest);
}

/// A publication as a client of the given revision receives it: a topic alias
/// is not sent, QoS 0 has no packet identifier, and only MQTT 5 has properties.
pub open spec fn as_received(
    protocol: ProtocolVersion,
    publication: PublicationView,
) -> PublicationView {
    let kept = PublicationView {
        topic_alias: None,
        packet_id: if publication.qos > 0 {
            publication.packet_id
        } else {
            None
        },
        ..publication
    };
    if protocol == ProtocolVersion::V5 {
        kept
    } else {
        PublicationView {
            payload_format_indicator: None,
            response_topic: None,
            correlation_data: None,
            subscription_identifiers: Seq::empty(),
            ..kept
        }
    }
}

/// The values of a publication fit in the fields of the wire format.
pub open spec fn fits_the_wire(protocol: ProtocolVersion, publication: PublicationView) -> bool {
    &&& publication.qos <= 2
    &&& publication.qos > 0 ==> (publication.packet_id matches Some(id) && id != 0)
    &&& vstd::utf8::encode_utf8(publication.topic).len() <= 0xFFFF
    &&& protocol == ProtocolVersion::V5 ==> {
        &&& publication.response_topic matches Some(topic) ==> vstd::utf8::encode_utf8(topic).len()
            <= 0xFFFF
        &&& publication.correlation_data matches Some(data) ==> data.len() <= 0xFFFF
        &&& forall|i: int|
            0 <= i < publication.subscription_identifiers.len() ==> 0
                < #[trigger] publication.subscription_identifiers[i] <= wire::VARINT_MAX
        &&& encode::publish_properties(publication).len() <= wire::VARINT_MAX
    }
}

/// One property in front of a section is taken, and the section goes on.
proof fn lemma_section_step(
    before: PropertiesView,
    after: PropertiesView,
    property: Seq<u8>,
    rest: Seq<u8>,
    stop: nat,
)
    requires
        property.len() > 0,
        rest.len() >= stop,
        properties::take_property(PropertyOwner::Publish, before, property + rest) == Ok::<
            (PropertiesView, Seq<u8>),
            ErrorView,
        >((after, rest)),
    ensures
        properties::take_properties_until(PropertyOwner::Publish, before, property + rest, stop)
            == properties::take_properties_until(PropertyOwner::Publish, after, rest, stop),
{
}

/// A property identifier below 128 is a single byte.
pub proof fn lemma_identifier_read_back(identifier: u8, rest: Seq<u8>)
    requires
        identifier < 128,
    ensures
        wire::take_varint(seq![identifier] + rest) == Ok::<(nat, Seq<u8>), ErrorView>(
            (identifier as nat, rest),
        ),
{
    assert((seq![identifier] + rest).skip(1) =~= rest);
}

proof fn lemma_identifiers_read_back(
    before: PropertiesView,
    identifiers: Seq<u32>,
    payload: Seq<u8>,
)
    requires
        forall|i: int|
            0 <= i < identifiers.len() ==> 0 < #[trigger] identifiers[i] <= wire::VARINT_MAX,
    ensures
        properties::take_properties_until(
            PropertyOwner::Publish,
            before,
            encode::identifier_properties(identifiers) + payload,
            payload.len(),
        ) == Ok::<(PropertiesView, Seq<u8>), ErrorView>(
            (
                PropertiesView {
                    subscription_identifiers: before.subscription_identifiers + identifiers,
                    ..before
                },
                payload,
            ),
        ),
    decreases identifiers.len(),
{
    let section = encode::identifier_properties(identifiers) + payload;
    if identifiers.len() == 0 {
        assert(section =~= payload);
        assert(before.subscription_identifiers + identifiers =~= before.subscription_identifiers);
    } else {
        let first = identifiers[0];
        let more = identifiers.drop_first();
        let rest = encode::identifier_properties(more) + payload;
        let number = wire::varint(first as nat);
        let property = seq![PROP_SUBSCRIPTION_IDENTIFIER as u8] + number;
        assert(section =~= property + rest);
        assert(property + rest =~= seq![PROP_SUBSCRIPTION_IDENTIFIER as u8] + (number + rest));
        lemma_identifier_read_back(PROP_SUBSCRIPTION_IDENTIFIER as u8, number + rest);
        lemma_four_bytes();
        law_varint_read_back(first as nat, 4, rest);
        let after = PropertiesView {
            subscription_identifiers: before.subscription_identifiers.push(first),
            ..before
        };
        lemma_section_step(before, after, property, rest, payload.len());
        lemma_identifiers_read_back(after, more, payload);
        assert(after.subscription_identifiers + more =~= before.subscription_identifiers
            + identifiers);
    }
}

proof fn lemma_format_read_back(
    before: PropertiesView,
    indicator: Option<u8>,
    rest: Seq<u8>,
    stop: nat,
)
    requires
        rest.len() >= stop,
        before.payload_format_indicator is None,
    ensures
        properties::take_properties_until(
            PropertyOwner::Publish,
            before,
            encode::payload_format_property(indicator) + rest,
            stop,
        ) == properties::take_properties_until(
            PropertyOwner::Publish,
            PropertiesView { payload_format_indicator: indicator, ..before },
            rest,
            stop,
        ),
{
    let property = encode::payload_format_property(indicator);
    let after = PropertiesView { payload_format_indicator: indicator, ..before };
    match indicator {
        Some(value) => {
            let tail = seq![value] + rest;
            assert(property + rest =~= seq![PROP_PAYLOAD_FORMAT_INDICATOR as u8] + tail);
            lemma_identifier_read_back(PROP_PAYLOAD_FORMAT_INDICATOR as u8, tail);
            assert(tail.skip(1) =~= rest);
            lemma_section_step(before, after, property, rest, stop);
        },
        None => {
            assert(property + rest =~= rest);
        },
    }
}

proof fn lemma_response_read_back(
    before: PropertiesView,
    topic: Option<Seq<char>>,
    rest: Seq<u8>,
    stop: nat,
)
    requires
        rest.len() >= stop,
        before.response_topic is None,
        topic matches Some(text) ==> vstd::utf8::encode_utf8(text).len() <= 0xFFFF,
    ensures
        properties::take_properties_until(
            PropertyOwner::Publish,
            before,
            encode::response_topic_property(topic) + rest,
            stop,
        ) == properties::take_properties_until(
            PropertyOwner::Publish,
            PropertiesView { response_topic: topic, ..before },
            rest,
            stop,
        ),
{
    let property = encode::response_topic_property(topic);
    let after = PropertiesView { response_topic: topic, ..before };
    match topic {
        Some(text) => {
            let tail = wire::counted_text(text) + rest;
            assert(property + rest =~= seq![PROP_RESPONSE_TOPIC as u8] + tail);
            lemma_identifier_read_back(PROP_RESPONSE_TOPIC as u8, tail);
            lemma_text_read_back(text, rest);
            lemma_section_step(before, after, property, rest, stop);
        },
        None => {
            assert(property + rest =~= rest);
        },
    }
}

proof fn lemma_correlation_read_back(
    before: PropertiesView,
    data: Option<Seq<u8>>,
    rest: Seq<u8>,
    stop: nat,
)
    requires
        rest.len() >= stop,
        before.correlation_data is None,
        data matches Some(bytes) ==> bytes.len() <= 0xFFFF,
    ensures
        properties::take_properties_until(
            PropertyOwner::Publish,
            before,
            encode::correlation_property(data) + rest,
            stop,
        ) == properties::take_properties_until(
            PropertyOwner::Publish,
            PropertiesView { correlation_data: data, ..before },
            rest,
            stop,
        ),
{
    let property = encode::correlation_property(data);
    let after = PropertiesView { correlation_data: data, ..before };
    match data {
        Some(bytes) => {
            let tail = wire::counted(bytes) + rest;
            assert(property + rest =~= seq![PROP_CORRELATION_DATA as u8] + tail);
            lemma_identifier_read_back(PROP_CORRELATION_DATA as u8, tail);
            lemma_counted_read_back(bytes, rest);
            lemma_section_step(before, after, property, rest, stop);
        },
        None => {
            assert(property + rest =~= rest);
        },
    }
}

/// The properties that a publication is written with.
spec fn kept_of(publication: PublicationView) -> PropertiesView {
    PropertiesView {
        payload_format_indicator: publication.payload_format_indicator,
        response_topic: publication.response_topic,
        correlation_data: publication.correlation_data,
        subscription_identifiers: publication.subscription_identifiers,
        ..properties::no_properties()
    }
}

proof fn lemma_values_split(publication: PublicationView, payload: Seq<u8>)
    ensures
        encode::publish_properties(publication) + payload == encode::payload_format_property(
            publication.payload_format_indicator,
        ) + (encode::response_topic_property(publication.response_topic) + (
        encode::correlation_property(publication.correlation_data) + (
        encode::identifier_properties(publication.subscription_identifiers) + payload))),
{
    let format = encode::payload_format_property(publication.payload_format_indicator);
    let response = encode::response_topic_property(publication.response_topic);
    let correlation = encode::correlation_property(publication.correlation_data);
    let identifiers = encode::identifier_properties(publication.subscription_identifiers);
    assert(format + response + correlation + identifiers + payload =~= format + (response + (
    correlation + (identifiers + payload))));
}

proof fn lemma_values_read_back(publication: PublicationView, payload: Seq<u8>)
    requires
        fits_the_wire(ProtocolVersion::V5, publication),
    ensures
        properties::take_properties_until(
            PropertyOwner::Publish,
            properties::no_properties(),
            encode::publish_properties(publication) + payload,
            payload.len(),
        ) == Ok::<(PropertiesView, Seq<u8>), ErrorView>((kept_of(publication), payload)),
{
    let stop = payload.len();
    let tail3 = encode::identifier_properties(publication.subscription_identifiers) + payload;
    let tail2 = encode::correlation_property(publication.correlation_data) + tail3;
    let tail1 = encode::response_topic_property(publication.response_topic) + tail2;
    lemma_values_split(publication, payload);
    let p0 = properties::no_properties();
    let p1 = PropertiesView {
        payload_format_indicator: publication.payload_format_indicator,
        ..p0
    };
    let p2 = PropertiesView { response_topic: publication.response_topic, ..p1 };
    let p3 = PropertiesView { correlation_data: publication.correlation_data, ..p2 };
    lemma_format_read_back(p0, publication.payload_format_indicator, tail1, stop);
    lemma_response_read_back(p1, publication.response_topic, tail2, stop);
    lemma_correlation_read_back(p2, publication.correlation_data, tail3, stop);
    lemma_identifiers_read_back(p3, publication.subscription_identifiers, payload);
    assert(p3.subscription_identifiers + publication.subscription_identifiers
        =~= publication.subscription_identifiers);
}

/// The property section of a PUBLISH packet is read back as it was written.
proof fn lemma_section_read_back(publication: PublicationView, payload: Seq<u8>)
    requires
        fits_the_wire(ProtocolVersion::V5, publication),
    ensures
        properties::take_properties(
            PropertyOwner::Publish,
            encode::property_section(encode::publish_properties(publication)) + payload,
        ) == Ok::<(PropertiesView, Seq<u8>), ErrorView>((kept_of(publication), payload)),
{
    let values = encode::publish_properties(publication);
    assert(encode::property_section(values) + payload =~= wire::varint(values.len()) + (values
        + payload));
    lemma_four_bytes();
    law_varint_read_back(values.len(), 4, values + payload);
    lemma_values_read_back(publication, payload);
}

proof fn lemma_publish_flags(publication: PublicationView)
    requires
        publication.qos <= 2,
    ensures
        encode::publish_flags(publication) & 0xF0 == 0,
        (encode::publish_flags(publication) & 0x06) >> 1 == publication.qos,
        (encode::publish_flags(publication) & 0x08 != 0) == publication.dup,
        (encode::publish_flags(publication) & 0x01 != 0) == publication.retain,
{
    let dup: u8 = if publication.dup {
        0x08u8
    } else {
        0u8
    };
    let retain: u8 = encode::bit(publication.retain);
    let qos = publication.qos;
    assert({
        let flags = dup | ((qos & 0x03) << 1) | retain;
        &&& flags & 0xF0 == 0
        &&& (flags & 0x06) >> 1 == qos
        &&& (flags & 0x08 != 0) == (dup == 0x08)
        &&& (flags & 0x01 != 0) == (retain == 1)
    }) by (bit_vector)
        requires
            qos <= 2,
            dup == 0 || dup == 0x08,
            retain == 0 || retain == 1,
    ;
}

/// A publication that is written to a client is read back with the same topic,
/// payload, QoS, flags and packet identifier, and by an MQTT 5 client with the
/// same properties.
pub proof fn law_publish_read_back(protocol: ProtocolVersion, publication: PublicationView)
    requires
        fits_the_wire(protocol, publication),
    ensures
        decode::packet_of(
            CMD_PUBLISH,
            encode::publish_flags(publication),
            encode::publish_body(protocol, publication),
            Some(protocol),
        ) == Ok::<PacketView, ErrorView>(PacketView::Publish(as_received(protocol, publication))),
{
    lemma_publish_flags(publication);
    let body = encode::publish_body(protocol, publication);
    let payload = publication.payload;
    let section = encode::publish_section(protocol, publication);
    let after_id = section + payload;
    let after_topic = encode::packet_id_bytes(publication) + after_id;
    assert(body =~= wire::counted_text(publication.topic) + after_topic);
    lemma_text_read_back(publication.topic, after_topic);
    if publication.qos > 0 {
        lemma_u16_read_back(publication.packet_id->0, after_id);
    } else {
        assert(after_topic =~= after_id);
    }
    if protocol == ProtocolVersion::V5 {
        lemma_section_read_back(publication, payload);
    } else {
        assert(after_id =~= payload);
    }
}

/// A publication on the wire is one frame, and that frame holds it.
pub proof fn law_publish_frame_read_back(
    protocol: ProtocolVersion,
    publication: PublicationView,
    rest: Seq<u8>,
)
    requires
        fits_the_wire(protocol, publication),
        encode::publish_body(protocol, publication).len() <= wire::VARINT_MAX,
    ensures
        frame::take_frame(encode::publish_bytes(protocol, publication) + rest) matches Ok((f, left))
            && left == rest && decode::packet_of(f.command, f.flags, f.body, Some(protocol))
            == Ok::<PacketView, ErrorView>(PacketView::Publish(as_received(protocol, publication))),
{
    lemma_publish_flags(publication);
    assert(CMD_PUBLISH & 0x0F == 0) by (bit_vector);
    law_frame_read_back(
        CMD_PUBLISH,
        encode::publish_flags(publication),
        encode::publish_body(protocol, publication),
        rest,
    );
    law_publish_read_back(protocol, publication);
}

/// Acknowledgements that are written are read back with their packet
/// identifier, with or without a reason code behind it.
pub proof fn law_acknowledgements_read_back(
    protocol: ProtocolVersion,
    flags: u8,
    packet_id: u16,
    reason_code: u8,
    version: Option<ProtocolVersion>,
)
    requires
        packet_id != 0,
    ensures
        decode::packet_of(CMD_PUBACK, flags, wire::be16(packet_id), version) == Ok::<
            PacketView,
            ErrorView,
        >(PacketView::PubAck { packet_id }),
        decode::packet_of(
            CMD_PUBACK,
            flags,
            encode::ack_body(protocol, packet_id, reason_code),
            version,
        ) == Ok::<PacketView, ErrorView>(PacketView::PubAck { packet_id }),
        decode::packet_of(CMD_PUBREC, flags, wire::be16(packet_id), version) == Ok::<
            PacketView,
            ErrorView,
        >(PacketView::PubRec { packet_id }),
        decode::packet_of(CMD_PUBREL, flags, wire::be16(packet_id), version) == Ok::<
            PacketView,
            ErrorView,
        >(PacketView::PubRel { packet_id }),
        decode::packet_of(CMD_PUBCOMP, flags, wire::be16(packet_id), version) == Ok::<
            PacketView,
            ErrorView,
        >(PacketView::PubComp { packet_id }),
{
    let none = Seq::<u8>::empty();
    assert(wire::be16(packet_id) + none =~= wire::be16(packet_id));
    lemma_u16_read_back(packet_id, none);
    let reason = seq![reason_code];
    assert(wire::be16(packet_id).push(reason_code) =~= wire::be16(packet_id) + reason);
    lemma_u16_read_back(packet_id, reason);
}

/// A DISCONNECT packet that is written is read back with its reason code where
/// the revision has one.
pub proof fn law_disconnect_read_back(protocol: ProtocolVersion, flags: u8, reason_code: u8)
    ensures
        decode::packet_of(
            CMD_DISCONNECT,
            flags,
            encode::disconnect_body(protocol, reason_code),
            Some(protocol),
        ) == Ok::<PacketView, ErrorView>(
            PacketView::Disconnect {
                reason_code: if protocol == ProtocolVersion::V5 {
                    Some(reason_code)
                } else {
                    None
                },
                session_expiry_interval: None,
            },
        ),
{
}

/// The requests of a SUBSCRIBE packet are within the limits of the format.
pub open spec fn requests_in_range(requests: Seq<crate::packet::RequestView>) -> bool {
    forall|i: int|
        0 <= i < requests.len() ==> {
            &&& (#[trigger] requests[i]).qos <= 2
            &&& requests[i].retain_handling <= 2
            &&& requests[i].identifier matches Some(id) ==> 0 < id <= wire::VARINT_MAX
        }
}

proof fn lemma_requests_in_range(s: Seq<u8>, identifier: Option<u32>)
    requires
        identifier matches Some(id) ==> 0 < id <= wire::VARINT_MAX,
    ensures
        decode::requests_of(s, identifier) matches Ok(requests) ==> requests_in_range(requests),
    decreases s.len(),
{
    if s.len() > 0 {
        if let Ok((filter, rest)) = wire::take_text(s) {
            if let Ok((options, rest)) = wire::take_u8(rest) {
                if decode::options_allowed(options) {
                    lemma_requests_in_range(rest, identifier);
                    assert(options & 0x03 <= 2 && (options & 0x30) >> 4 <= 2) by (bit_vector)
                        requires
                            options & 0x03 != 3,
                            (options & 0x30) >> 4 != 3,
                    ;
                }
            }
        }
    }
}

proof fn lemma_varint_small(s: Seq<u8>, limit: nat)
    ensures
        wire::take_varint_within(s, limit) matches Ok((value, rest)) ==> value < varint_bound(
            limit,
        ),
    decreases limit,
{
    if limit > 0 && s.len() > 0 {
        if s[0] >= 128 {
            lemma_varint_small(s.skip(1), (limit - 1) as nat);
        } else {
            lemma_bound_positive((limit - 1) as nat);
        }
    }
}

proof fn lemma_bound_positive(limit: nat)
    ensures
        varint_bound(limit) >= 1,
    decreases limit,
{
    if limit > 0 {
        lemma_bound_positive((limit - 1) as nat);
    }
}

/// Identifiers gathered from a property section are never zero.
proof fn lemma_identifiers_in_range(
    owner: PropertyOwner,
    before: PropertiesView,
    s: Seq<u8>,
    stop: nat,
)
    requires
        forall|i: int|
            0 <= i < before.subscription_identifiers.len() ==> 0
                < #[trigger] before.subscription_identifiers[i] <= wire::VARINT_MAX,
    ensures
        properties::take_properties_until(owner, before, s, stop) matches Ok((after, rest))
            ==> forall|i: int|
            0 <= i < after.subscription_identifiers.len() ==> 0
                < #[trigger] after.subscription_identifiers[i] <= wire::VARINT_MAX,
    decreases s.len(),
{
    if s.len() > stop {
        if let Ok((more, rest)) = properties::take_property(owner, before, s) {
            properties::lemma_property_shrinks(owner, before, s);
            lemma_four_bytes();
            if let Ok((identifier, value)) = wire::take_varint(s) {
                lemma_varint_small(value, 4);
            }
            lemma_identifiers_in_range(owner, more, rest, stop);
        }
    }
}

/// Whatever bytes come in, a packet that is accepted obeys the format: packet
/// identifiers are not zero, a PUBLISH has QoS 0, 1 or 2 and a packet identifier
/// exactly where its QoS is above 0, SUBSCRIBE and UNSUBSCRIBE name at least one
/// filter, and the options and identifiers of subscriptions are in range.
pub proof fn law_accepted_packets_obey_the_format(
    command: u8,
    flags: u8,
    body: Seq<u8>,
    version: Option<ProtocolVersion>,
)
    ensures
        match decode::packet_of(command, flags, body, version) {
            Ok(PacketView::Publish(p)) => {
                &&& p.qos <= 2
                &&& p.packet_id is Some <==> p.qos > 0
                &&& p.packet_id matches Some(id) ==> id != 0
                &&& forall|i: int|
                    0 <= i < p.subscription_identifiers.len() ==> 0
                        < #[trigger] p.subscription_identifiers[i] <= wire::VARINT_MAX
            },
            Ok(PacketView::PubAck { packet_id }) => packet_id != 0,
            Ok(PacketView::PubRec { packet_id }) => packet_id != 0,
            Ok(PacketView::PubRel { packet_id }) => packet_id != 0,
            Ok(PacketView::PubComp { packet_id }) => packet_id != 0,
            Ok(PacketView::Subscribe { packet_id, filters }) => packet_id != 0 && filters.len() > 0
                && requests_in_range(filters),
            Ok(PacketView::Unsubscribe { packet_id, filters }) => packet_id != 0 && filters.len()
                > 0,
            _ => true,
        },
{
    if command == CMD_PUBLISH {
        let qos = (flags & 0x06) >> 1;
        assert((flags & 0x06) >> 1 <= 3) by (bit_vector);
        if let Ok((topic, rest)) = wire::take_text(body) {
            if let Ok((packet_id, rest)) = decode::take_packet_id_if(qos > 0, rest) {
                if let Ok((len, rest)) = wire::take_varint(rest) {
                    if rest.len() >= len {
                        lemma_identifiers_in_range(
                            PropertyOwner::Publish,
                            properties::no_properties(),
                            rest,
                            (rest.len() - len) as nat,
                        );
                    }
                }
            }
        }
    } else if command == crate::packet::CMD_SUBSCRIBE {
        if let Ok((packet_id, rest)) = wire::take_packet_id(body) {
            if let Ok((len, left)) = wire::take_varint(rest) {
                if left.len() >= len {
                    lemma_identifiers_in_range(
                        PropertyOwner::Subscribe,
                        properties::no_properties(),
                        left,
                        (left.len() - len) as nat,
                    );
                }
            }
            if let Ok((kept, rest)) = decode::take_properties_if(
                version == Some(ProtocolVersion::V5),
                PropertyOwner::Subscribe,
                rest,
            ) {
                lemma_requests_in_range(rest, properties::first_identifier(kept));
            }
        }
    }
}

proof fn lemma_properties_shrink(
    owner: PropertyOwner,
    before: properties::PropertiesView,
    s: Seq<u8>,
    stop: nat,
)
    ensures
        properties::take_properties_until(owner, before, s, stop) matches Ok((_, rest))
            ==> rest.len() <= s.len(),
    decreases s.len(),
{
    if s.len() > stop {
        if let Ok((more, rest)) = properties::take_property(owner, before, s) {
            properties::lemma_property_shrinks(owner, before, s);
            lemma_properties_shrink(owner, more, rest, stop);
        }
    }
}

proof fn lemma_requests_fit(s: Seq<u8>, identifier: Option<u32>)
    ensures
        decode::requests_of(s, identifier) matches Ok(list) ==> list.len() <= s.len(),
    decreases s.len(),
{
    if s.len() > 0 {
        if let Ok((filter, rest)) = wire::take_text(s) {
            if let Ok((options, rest)) = wire::take_u8(rest) {
                lemma_requests_fit(rest, identifier);
            }
        }
    }
}

/// A SUBSCRIBE packet names no more filters than its body has bytes.
pub proof fn law_filters_fit_the_body(
    command: u8,
    flags: u8,
    body: Seq<u8>,
    version: Option<ProtocolVersion>,
)
    ensures
        decode::packet_of(command, flags, body, version) matches Ok(
            PacketView::Subscribe { packet_id, filters },
        ) ==> filters.len() <= body.len(),
{
    if command == crate::packet::CMD_SUBSCRIBE {
        if let Ok((packet_id, rest)) = wire::take_packet_id(body) {
            let owner = PropertyOwner::Subscribe;
            if let Ok((len, values)) = wire::take_varint(rest) {
                properties::lemma_varint_shrinks(rest, 4);
                if values.len() >= len {
                    lemma_properties_shrink(
                        owner,
                        properties::no_properties(),
                        values,
                        (values.len() - len) as nat,
                    );
                }
            }
            if let Ok((kept, rest)) = decode::take_properties_if(
                version == Some(ProtocolVersion::V5),
                owner,
                rest,
            ) {
                lemma_requests_fit(rest, properties::first_identifier(kept));
            }
        }
    }
}

} // verus!
