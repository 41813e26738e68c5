//! Which bytes are no packet of the format, and what is said of each.

use vstd::prelude::*;

use crate::decode;
use crate::format_laws;
use crate::format_laws::Property;
use crate::frame;
use crate::packet;
use crate::packet::{ErrorView, FrameView, PacketView, ProtocolVersion, RequestView, WillView};
use crate::packet_laws;
use crate::properties;
use crate::properties::{PropertiesView, PropertyOwner};
use crate::scan;
use crate::wire;

verus! {

/// What is said of each kind of mistake.
pub proof fn law_what_mistakes_say(text: Seq<char>, level: u8)
    ensures
        packet::error_message(ErrorView::Io(text)) == "I/O error: "@ + text,
        packet::error_message(ErrorView::MalformedPacket(text)) == "malformed MQTT packet: "@
            + text,
        packet::error_message(ErrorView::UnsupportedProtocolVersion(level))
            == "unsupported MQTT protocol level "@ + scan::decimal(level as nat),
{
}

/// A packet that ends too early.
pub open spec fn too_short() -> ErrorView {
    ErrorView::MalformedPacket("unexpected end of packet"@)
}

/// Whether each byte of some has its high bit set.
pub open spec fn all_high(s: Seq<u8>) -> bool {
    forall|i: int| 0 <= i < s.len() ==> #[trigger] s[i] >= 128
}

proof fn lemma_high_groups(s: Seq<u8>, limit: nat)
    requires
        all_high(s),
    ensures
        s.len() < limit ==> wire::take_varint_within(s, limit) == Err::<(nat, Seq<u8>), ErrorView>(
            too_short(),
        ),
        s.len() < limit ==> frame::take_length_within(s, limit) == Err::<
            (nat, Seq<u8>),
            ErrorView,
        >(ErrorView::Io("failed to fill whole buffer"@)),
    decreases limit,
{
    if s.len() > 0 && limit > 0 {
        let more = s.skip(1);
        assert forall|i: int| 0 <= i < more.len() implies #[trigger] more[i] >= 128 by {
            assert(more[i] == s[i + 1]);
        }
        assert(s[0] >= 128);
        lemma_high_groups(more, (limit - 1) as nat);
    }
}

proof fn lemma_too_many_groups(s: Seq<u8>, limit: nat)
    requires
        s.len() >= limit,
        all_high(s.take(limit as int)),
    ensures
        wire::take_varint_within(s, limit) == Err::<(nat, Seq<u8>), ErrorView>(
            ErrorView::MalformedPacket("varint is too long"@),
        ),
        frame::take_length_within(s, limit) == Err::<(nat, Seq<u8>), ErrorView>(
            ErrorView::MalformedPacket("remaining length is too long"@),
        ),
    decreases limit,
{
    if limit > 0 {
        let head = s.take(limit as int);
        let more = s.skip(1);
        let rest = more.take(limit - 1);
        assert(head[0] == s[0]);
        assert forall|i: int| 0 <= i < rest.len() implies #[trigger] rest[i] >= 128 by {
            assert(rest[i] == head[i + 1]);
        }
        lemma_too_many_groups(more, (limit - 1) as nat);
    }
}

/// Elements that end too early, numbers of more than four groups, and texts that are not
/// UTF-8 are mistakes.
pub proof fn law_elements_that_are_mistakes(s: Seq<u8>, bytes: Seq<u8>, rest: Seq<u8>, n: nat)
    ensures
        s.len() < 1 ==> wire::take_u8(s) == Err::<(u8, Seq<u8>), ErrorView>(too_short()),
        s.len() < 2 ==> wire::take_u16(s) == Err::<(u16, Seq<u8>), ErrorView>(too_short()),
        s.len() < 4 ==> wire::take_u32(s) == Err::<(u32, Seq<u8>), ErrorView>(too_short()),
        s.len() < 4 && all_high(s) ==> wire::take_varint(s) == Err::<(nat, Seq<u8>), ErrorView>(
            too_short(),
        ),
        s.len() >= 4 && all_high(s.take(4)) ==> wire::take_varint(s) == Err::<
            (nat, Seq<u8>),
            ErrorView,
        >(ErrorView::MalformedPacket("varint is too long"@)),
        s.len() < 2 ==> wire::take_counted(s) == Err::<(Seq<u8>, Seq<u8>), ErrorView>(
            too_short(),
        ),
        s.len() < n <= 65_535 ==> wire::take_counted(format_laws::two(n) + s) == Err::<
            (Seq<u8>, Seq<u8>),
            ErrorView,
        >(too_short()),
        s.len() < 2 ==> wire::take_text(s) == Err::<(Seq<char>, Seq<u8>), ErrorView>(
            too_short(),
        ),
        s.len() < n <= 65_535 ==> wire::take_text(format_laws::two(n) + s) == Err::<
            (Seq<char>, Seq<u8>),
            ErrorView,
        >(too_short()),
        bytes.len() <= 65_535 && !vstd::utf8::valid_utf8(bytes) ==> wire::take_text(
            format_laws::block(bytes) + rest,
        ) == Err::<(Seq<char>, Seq<u8>), ErrorView>(
            ErrorView::MalformedPacket("invalid utf-8 string"@),
        ),
{
    if s.len() < 4 && all_high(s) {
        lemma_high_groups(s, 4);
    }
    if s.len() >= 4 && all_high(s.take(4)) {
        lemma_too_many_groups(s, 4);
    }
    if s.len() < n <= 65_535 {
        format_laws::law_elements_are_read(n, Seq::empty(), Seq::empty(), s);
    }
    if bytes.len() <= 65_535 {
        format_laws::law_elements_are_read(0, bytes, Seq::empty(), rest);
    }
}

// What was accepted.

proof fn lemma_text_was_written(s: Seq<u8>)
    ensures
        wire::take_text(s) matches Ok((t, rest)) ==> format_laws::short(t) && s
            == format_laws::text(t) + rest,
{
    if let Ok((t, rest)) = wire::take_text(s) {
        let bytes = wire::take_counted(s)->Ok_0.0;
        let n = (s[0] * 256 + s[1]) as u16;
        vstd::utf8::decode_utf8_encode_utf8(bytes);
        assert(bytes.len() == n);
        assert(format_laws::two(n as nat) =~= seq![s[0], s[1]]);
        assert(s =~= seq![s[0], s[1]] + bytes + rest);
    }
}

proof fn lemma_options_were_written(filter: Seq<char>, o: u8, identifier: Option<u32>)
    requires
        decode::options_allowed(o),
    ensures
        format_laws::options_byte(decode::request_of(filter, o, identifier)) == o,
{
    let r = decode::request_of(filter, o, identifier);
    let qos = o & 0x03;
    let handling = (o & 0x30) >> 4;
    let local: u8 = if o & 0x04 != 0 {
        4u8
    } else {
        0u8
    };
    let keep: u8 = if o & 0x08 != 0 {
        8u8
    } else {
        0u8
    };
    assert(qos + local + keep + 16 * handling == o) by (bit_vector)
        requires
            qos == o & 0x03,
            handling == (o & 0x30) >> 4,
            local == (if o & 0x04 != 0 {
                4u8
            } else {
                0u8
            }),
            keep == (if o & 0x08 != 0 {
                8u8
            } else {
                0u8
            }),
            o & 0xC0 == 0,
    ;
}

proof fn lemma_requests_were_written(s: Seq<u8>, identifier: Option<u32>)
    ensures
        decode::requests_of(s, identifier) matches Ok(list) ==> s == format_laws::requests_bytes(
            list,
        ),
    decreases s.len(),
{
    if s.len() > 0 {
        if let Ok((filter, rest)) = wire::take_text(s) {
            lemma_text_was_written(s);
            if let Ok((options, left)) = wire::take_u8(rest) {
                if decode::options_allowed(options) {
                    if let Ok(more) = decode::requests_of(left, identifier) {
                        lemma_requests_were_written(left, identifier);
                        lemma_options_were_written(filter, options, identifier);
                        let r = decode::request_of(filter, options, identifier);
                        let list = seq![r] + more;
                        assert(list.skip(1) =~= more);
                        assert(rest =~= seq![options] + left);
                        assert(s =~= format_laws::text(filter) + seq![options] + left);
                    }
                }
            }
        }
    }
}

proof fn lemma_texts_were_written(s: Seq<u8>)
    ensures
        decode::texts_of(s) matches Ok(list) ==> s == format_laws::texts_bytes(list),
    decreases s.len(),
{
    if s.len() > 0 {
        if let Ok((t, rest)) = wire::take_text(s) {
            lemma_text_was_written(s);
            if let Ok(more) = decode::texts_of(rest) {
                lemma_texts_were_written(rest);
                assert((seq![t] + more).skip(1) =~= more);
            }
        }
    }
}

/// SUBSCRIBE and UNSUBSCRIBE packets of the older revisions are accepted only where their
/// bodies are those that the format gives to what they were read as, to the last byte.
pub proof fn law_accepted_requests_were_written(
    version: Option<ProtocolVersion>,
    flags: u8,
    body: Seq<u8>,
)
    requires
        version != Some(ProtocolVersion::V5),
    ensures
        decode::packet_of(0x80, flags, body, version) matches Ok(packet) ==> (packet matches
            PacketView::Subscribe { packet_id, filters } && body == format_laws::two(
            packet_id as nat,
        ) + format_laws::requests_bytes(filters)),
        decode::packet_of(0xA0, flags, body, version) matches Ok(packet) ==> (packet matches
            PacketView::Unsubscribe { packet_id, filters } && body == format_laws::two(
            packet_id as nat,
        ) + format_laws::texts_bytes(filters)),
{
    if body.len() >= 2 {
        let rest = body.skip(2);
        let id = (body[0] * 256 + body[1]) as u16;
        lemma_requests_were_written(rest, None);
        lemma_texts_were_written(rest);
        assert(format_laws::two(id as nat) =~= seq![body[0], body[1]]);
        assert(body =~= seq![body[0], body[1]] + rest);
    }
}

// Packets.

/// Whether a number is that of a packet that a client sends.
pub open spec fn comes_from_clients(command: u8) -> bool {
    command == 0x10 || command == 0x30 || command == 0x40 || command == 0x50 || command == 0x60
        || command == 0x70 || command == 0x80 || command == 0xA0 || command == 0xC0 || command
        == 0xE0
}

/// Whether a packet starts with a packet identifier.
pub open spec fn starts_with_identifier(command: u8) -> bool {
    command == 0x40 || command == 0x50 || command == 0x60 || command == 0x70 || command == 0x80
        || command == 0xA0
}

/// A packet that clients do not send, a packet identifier of zero and one that is cut
/// off, and QoS 3 are mistakes.
pub proof fn law_packets_that_are_mistakes(
    command: u8,
    flags: u8,
    body: Seq<u8>,
    version: Option<ProtocolVersion>,
    name: Seq<char>,
)
    ensures
        !comes_from_clients(command) ==> decode::packet_of(command, flags, body, version) == Err::<
            PacketView,
            ErrorView,
        >(ErrorView::MalformedPacket("unsupported command"@)),
        starts_with_identifier(command) && body.len() < 2 ==> decode::packet_of(
            command,
            flags,
            body,
            version,
        ) == Err::<PacketView, ErrorView>(too_short()),
        starts_with_identifier(command) ==> decode::packet_of(
            command,
            flags,
            seq![0u8, 0u8] + body,
            version,
        ) == Err::<PacketView, ErrorView>(
            ErrorView::MalformedPacket("packet identifier must be non-zero"@),
        ),
        flags / 2 % 4 == 3 ==> decode::packet_of(0x30, flags, body, version) == Err::<
            PacketView,
            ErrorView,
        >(ErrorView::MalformedPacket("invalid publish qos"@)),
        0 < flags / 2 % 4 < 3 && format_laws::short(name) ==> decode::packet_of(
            0x30,
            flags,
            format_laws::text(name) + (seq![0u8, 0u8] + body),
            version,
        ) == Err::<PacketView, ErrorView>(
            ErrorView::MalformedPacket("packet identifier must be non-zero"@),
        ),
{
    assert((flags & 0x06) >> 1 == flags / 2 % 4) by (bit_vector);
    let zero = seq![0u8, 0u8] + body;
    assert(zero[0] == 0 && zero[1] == 0);
    if format_laws::short(name) {
        format_laws::law_elements_are_read(0, Seq::empty(), name, zero);
    }
}

/// A CONNECT packet of an unknown level is told that level, and one whose name is not
/// that of its level is a mistake.
pub proof fn law_protocols_that_are_mistakes(
    name: Seq<char>,
    level: u8,
    rest: Seq<u8>,
    flags: u8,
    version: Option<ProtocolVersion>,
)
    requires
        format_laws::short(name),
    ensures
        ({
            let body = format_laws::text(name) + (seq![level] + rest);
            let answer = decode::packet_of(0x10, flags, body, version);
            &&& !(3 <= level <= 5) ==> answer == Err::<PacketView, ErrorView>(
                ErrorView::UnsupportedProtocolVersion(level),
            )
            &&& level == 3 && name != "MQIsdp"@ ==> answer == Err::<PacketView, ErrorView>(
                ErrorView::MalformedPacket("invalid protocol name"@),
            )
            &&& 4 <= level <= 5 && name != "MQTT"@ ==> answer == Err::<PacketView, ErrorView>(
                ErrorView::MalformedPacket("invalid protocol name"@),
            )
        }),
{
    format_laws::law_elements_are_read(0, Seq::empty(), name, seq![level] + rest);
    format_laws::law_elements_are_read(level as nat, Seq::empty(), Seq::empty(), rest);
}

/// Whether the options byte of a request is a mistake: QoS 3, retain handling 3, or one
/// of the two high bits.
pub open spec fn is_mistaken_option(o: u8) -> bool {
    o % 4 == 3 || o / 16 % 4 == 3 || o >= 64
}

proof fn lemma_mistaken_option(o: u8)
    ensures
        decode::options_allowed(o) == !is_mistaken_option(o),
{
    assert((o & 0x03 != 3 && (o & 0x30) >> 4 != 3 && o & 0xC0 == 0) == !(o % 4 == 3 || o / 16 % 4
        == 3 || o >= 64)) by (bit_vector);
}

proof fn lemma_requests_before_a_mistake(
    list: Seq<RequestView>,
    identifier: Option<u32>,
    rest: Seq<u8>,
)
    requires
        format_laws::can_be_written(list, identifier),
        decode::requests_of(rest, identifier) is Err,
    ensures
        decode::requests_of(format_laws::requests_bytes(list) + rest, identifier)
            == decode::requests_of(rest, identifier),
    decreases list.len(),
{
    if list.len() == 0 {
        assert(format_laws::requests_bytes(list) + rest =~= rest);
    } else {
        let r = list[0];
        let more = list.skip(1);
        assert forall|i: int| 0 <= i < more.len() implies {
            &&& format_laws::short((#[trigger] more[i]).filter)
            &&& more[i].qos <= 2
            &&& more[i].retain_handling <= 2
            &&& more[i].identifier == identifier
        } by {
            assert(more[i] == list[i + 1]);
        }
        lemma_requests_before_a_mistake(more, identifier, rest);
        format_laws::lemma_options(r);
        let o = format_laws::options_byte(r);
        let tail = format_laws::requests_bytes(more) + rest;
        assert(format_laws::requests_bytes(list) + rest =~= format_laws::text(r.filter) + (seq![o]
            + tail));
        format_laws::law_elements_are_read(0, Seq::empty(), r.filter, seq![o] + tail);
        format_laws::law_elements_are_read(o as nat, Seq::empty(), Seq::empty(), tail);
        assert(format_laws::text(r.filter).len() >= 2);
    }
}

/// A SUBSCRIBE packet with options that the format does not have, or without options behind
/// a filter, is a mistake, whatever stands before; and so are SUBSCRIBE and UNSUBSCRIBE
/// without a filter.
pub proof fn law_requests_that_are_mistakes(
    version: ProtocolVersion,
    flags: u8,
    packet_id: u16,
    list: Seq<Property>,
    requests: Seq<RequestView>,
    filter: Seq<char>,
    option: u8,
    rest: Seq<u8>,
)
    requires
        packet_id > 0,
        format_laws::all_accepted(PropertyOwner::Subscribe, format_laws::nothing(), list),
        format_laws::properties_bytes(list).len() <= 268_435_455,
        format_laws::can_be_written(requests, format_laws::identifier_of(version, list)),
        format_laws::short(filter),
    ensures
        ({
            let head = format_laws::two(packet_id as nat) + format_laws::section_of(version, list);
            let some = format_laws::requests_bytes(requests);
            &&& is_mistaken_option(option) ==> decode::packet_of(
                0x80,
                flags,
                head + (some + (format_laws::text(filter) + (seq![option] + rest))),
                Some(version),
            ) == Err::<PacketView, ErrorView>(
                ErrorView::MalformedPacket("invalid subscribe options"@),
            )
            &&& decode::packet_of(
                0x80,
                flags,
                head + (some + format_laws::text(filter)),
                Some(version),
            ) == Err::<PacketView, ErrorView>(too_short())
            &&& decode::packet_of(0x80, flags, head, Some(version)) == Err::<PacketView, ErrorView>(
                ErrorView::MalformedPacket("empty subscribe"@),
            )
            &&& decode::packet_of(
                0xA0,
                flags,
                format_laws::two(packet_id as nat) + (if version == ProtocolVersion::V5 {
                    seq![0u8]
                } else {
                    Seq::empty()
                }),
                Some(version),
            ) == Err::<PacketView, ErrorView>(ErrorView::MalformedPacket("empty unsubscribe"@))
        }),
{
    let none = Seq::<u8>::empty();
    let blank = Seq::<char>::empty();
    let identifier = format_laws::identifier_of(version, list);
    let some = format_laws::requests_bytes(requests);
    let wrong = format_laws::text(filter) + (seq![option] + rest);
    let cut = format_laws::text(filter);
    lemma_mistaken_option(option);
    format_laws::law_elements_are_read(0, none, filter, seq![option] + rest);
    format_laws::law_elements_are_read(option as nat, none, blank, rest);
    assert(wrong.len() > 0 && cut.len() > 0);
    if is_mistaken_option(option) {
        lemma_requests_before_a_mistake(requests, identifier, wrong);
        lemma_subscribe_body(version, packet_id, list, some + wrong);
    }
    format_laws::law_elements_are_read(0, none, filter, none);
    assert(cut + none =~= cut);
    lemma_requests_before_a_mistake(requests, identifier, cut);
    lemma_subscribe_body(version, packet_id, list, some + cut);
    lemma_subscribe_body(version, packet_id, list, none);
    let head = format_laws::two(packet_id as nat) + format_laws::section_of(version, list);
    assert(head + none =~= head);
    let gap = if version == ProtocolVersion::V5 {
        seq![0u8]
    } else {
        none
    };
    format_laws::law_elements_are_read(packet_id as nat, none, blank, gap);
    assert(format_laws::section(none) =~= seq![0u8]);
    format_laws::lemma_section_is_skipped(none, none);
    assert(format_laws::section(none) + none =~= seq![0u8]);
}

proof fn lemma_subscribe_body(
    version: ProtocolVersion,
    packet_id: u16,
    list: Seq<Property>,
    tail: Seq<u8>,
)
    requires
        packet_id > 0,
        format_laws::all_accepted(PropertyOwner::Subscribe, format_laws::nothing(), list),
        format_laws::properties_bytes(list).len() <= 268_435_455,
    ensures
        decode::subscribe_of(
            format_laws::two(packet_id as nat) + format_laws::section_of(version, list) + tail,
            Some(version),
        ) == match decode::requests_of(tail, format_laws::identifier_of(version, list)) {
            Ok(filters) => if filters.len() == 0 {
                Err::<PacketView, ErrorView>(ErrorView::MalformedPacket("empty subscribe"@))
            } else {
                Ok(PacketView::Subscribe { packet_id, filters })
            },
            Err(e) => Err(e),
        },
{
    let rest = format_laws::section_of(version, list) + tail;
    let body = format_laws::two(packet_id as nat) + format_laws::section_of(version, list) + tail;
    assert(body =~= format_laws::two(packet_id as nat) + rest);
    format_laws::law_elements_are_read(packet_id as nat, Seq::empty(), Seq::empty(), rest);
    if version == ProtocolVersion::V5 {
        format_laws::law_property_sections_are_read(PropertyOwner::Subscribe, list, tail);
    } else {
        assert(rest =~= tail);
    }
}

// Properties.

/// Whether a number is that of a property.
pub open spec fn is_property_number(id: u8) -> bool {
    id == 0x01 || id == 0x02 || id == 0x03 || id == 0x08 || id == 0x09 || id == 0x0B || id == 0x11
        || id == 0x12 || id == 0x13 || id == 0x15 || id == 0x16 || id == 0x17 || id == 0x18 || id
        == 0x19 || id == 0x1A || id == 0x1C || id == 0x1F || (0x21 <= id <= 0x2A)
}

proof fn lemma_properties_before(
    owner: PropertyOwner,
    kept: PropertiesView,
    list: Seq<Property>,
    rest: Seq<u8>,
    stop: nat,
)
    requires
        format_laws::all_accepted(owner, kept, list),
        stop <= rest.len(),
    ensures
        properties::take_properties_until(
            owner,
            kept,
            format_laws::properties_bytes(list) + rest,
            stop,
        ) == properties::take_properties_until(
            owner,
            format_laws::with_properties(owner, kept, list),
            rest,
            stop,
        ),
    decreases list.len(),
{
    if list.len() == 0 {
        assert(format_laws::properties_bytes(list) + rest =~= rest);
    } else {
        let more = list.skip(1);
        let tail = format_laws::properties_bytes(more) + rest;
        assert(format_laws::properties_bytes(list) + rest =~= format_laws::property_bytes(list[0])
            + tail);
        format_laws::lemma_property_is_read(owner, kept, list[0], tail);
        lemma_properties_before(
            owner,
            format_laws::with_property(owner, kept, list[0]),
            more,
            rest,
            stop,
        );
    }
}

proof fn lemma_mistaken_properties(
    owner: PropertyOwner,
    kept: PropertiesView,
    id: u8,
    behind: Seq<u8>,
    n: u32,
)
    requires
        n <= 268_435_455,
    ensures
        !is_property_number(id) && id < 128 ==> properties::take_property(
            owner,
            kept,
            seq![id] + behind,
        ) == Err::<(PropertiesView, Seq<u8>), ErrorView>(
            ErrorView::MalformedPacket("unknown property"@),
        ),
        owner == PropertyOwner::Connect ==> properties::take_property(
            owner,
            kept,
            seq![0x27u8] + (format_laws::four(0) + behind),
        ) == Err::<(PropertiesView, Seq<u8>), ErrorView>(
            ErrorView::MalformedPacket("zero maximum packet size"@),
        ),
        owner == PropertyOwner::Publish || owner == PropertyOwner::Subscribe
            ==> properties::take_property(
            owner,
            kept,
            seq![0x0Bu8] + (format_laws::groups(0) + behind),
        ) == Err::<(PropertiesView, Seq<u8>), ErrorView>(
            ErrorView::MalformedPacket("zero subscription identifier"@),
        ),
        owner == PropertyOwner::Subscribe && kept.subscription_identifiers.len() > 0 && n > 0
            ==> properties::take_property(
            owner,
            kept,
            seq![0x0Bu8] + (format_laws::groups(n as nat) + behind),
        ) == Err::<(PropertiesView, Seq<u8>), ErrorView>(
            ErrorView::MalformedPacket("duplicate subscription identifier"@),
        ),
{
    let none = Seq::<u8>::empty();
    let blank = Seq::<char>::empty();
    if id < 128 {
        packet_laws::lemma_identifier_read_back(id, behind);
    }
    packet_laws::lemma_identifier_read_back(0x27, format_laws::four(0) + behind);
    packet_laws::lemma_identifier_read_back(0x0B, format_laws::groups(0) + behind);
    packet_laws::lemma_identifier_read_back(0x0B, format_laws::groups(n as nat) + behind);
    format_laws::law_elements_are_read(0, none, blank, behind);
    format_laws::law_elements_are_read(n as nat, none, blank, behind);
}

/// In a property section, whatever stands before, a number that is not that of a
/// property, a zero where it is not allowed, and a second subscription identifier of a
/// SUBSCRIBE packet are mistakes, and so is a section that is cut off.
pub proof fn law_properties_that_are_mistakes(
    owner: PropertyOwner,
    list: Seq<Property>,
    id: u8,
    behind: Seq<u8>,
    n: u32,
    length: nat,
)
    requires
        format_laws::all_accepted(owner, format_laws::nothing(), list),
        format_laws::properties_bytes(list).len() < length <= 268_435_455,
        n <= 268_435_455,
    ensures
        ({
            let some = format_laws::properties_bytes(list);
            let kept = format_laws::with_properties(owner, format_laws::nothing(), list);
            &&& !is_property_number(id) && id < 128 ==> is_mistake(
                owner,
                length,
                some,
                seq![id] + behind,
                "unknown property"@,
            )
            &&& owner == PropertyOwner::Connect ==> is_mistake(
                owner,
                length,
                some,
                seq![0x27u8] + (format_laws::four(0) + behind),
                "zero maximum packet size"@,
            )
            &&& owner == PropertyOwner::Publish || owner == PropertyOwner::Subscribe ==> is_mistake(
                owner,
                length,
                some,
                seq![0x0Bu8] + (format_laws::groups(0) + behind),
                "zero subscription identifier"@,
            )
            &&& owner == PropertyOwner::Subscribe && kept.subscription_identifiers.len() > 0 && n
                > 0 ==> is_mistake(
                owner,
                length,
                some,
                seq![0x0Bu8] + (format_laws::groups(n as nat) + behind),
                "duplicate subscription identifier"@,
            )
            &&& some.len() + behind.len() < length ==> properties::take_properties(
                owner,
                format_laws::groups(length) + (some + behind),
            ) == Err::<(PropertiesView, Seq<u8>), ErrorView>(
                ErrorView::MalformedPacket("truncated properties"@),
            )
        }),
{
    let some = format_laws::properties_bytes(list);
    let kept = format_laws::with_properties(owner, format_laws::nothing(), list);
    lemma_mistaken_properties(owner, kept, id, behind, n);
    lemma_section_with_a_mistake(owner, list, seq![id] + behind, length);
    lemma_section_with_a_mistake(
        owner,
        list,
        seq![0x27u8] + (format_laws::four(0) + behind),
        length,
    );
    lemma_section_with_a_mistake(
        owner,
        list,
        seq![0x0Bu8] + (format_laws::groups(0) + behind),
        length,
    );
    lemma_section_with_a_mistake(
        owner,
        list,
        seq![0x0Bu8] + (format_laws::groups(n as nat) + behind),
        length,
    );
    format_laws::law_elements_are_read(length, Seq::empty(), Seq::empty(), some + behind);
}

/// Whether a property section of a length is refused with a message, where it is not cut off.
pub open spec fn is_mistake(
    owner: PropertyOwner,
    length: nat,
    some: Seq<u8>,
    tail: Seq<u8>,
    message: Seq<char>,
) -> bool {
    length <= some.len() + tail.len() ==> properties::take_properties(
        owner,
        format_laws::groups(length) + (some + tail),
    ) == Err::<(PropertiesView, Seq<u8>), ErrorView>(ErrorView::MalformedPacket(message))
}

/// A property that goes beyond the end of its section is a mistake.
pub proof fn law_properties_end_with_their_section(
    owner: PropertyOwner,
    list: Seq<Property>,
    p: Property,
    rest: Seq<u8>,
    length: nat,
)
    requires
        format_laws::all_accepted(owner, format_laws::nothing(), list),
        format_laws::is_accepted(
            owner,
            format_laws::with_properties(owner, format_laws::nothing(), list),
            p,
        ),
        format_laws::properties_bytes(list).len() < length <= 268_435_455,
        length < format_laws::properties_bytes(list).len() + format_laws::property_bytes(p).len(),
    ensures
        is_mistake(
            owner,
            length,
            format_laws::properties_bytes(list),
            format_laws::property_bytes(p) + rest,
            "property length mismatch"@,
        ),
{
    let some = format_laws::properties_bytes(list);
    let tail = format_laws::property_bytes(p) + rest;
    let kept = format_laws::with_properties(owner, format_laws::nothing(), list);
    let stop = (some.len() + tail.len() - length) as nat;
    format_laws::law_elements_are_read(length, Seq::empty(), Seq::empty(), some + tail);
    lemma_properties_before(owner, format_laws::nothing(), list, tail, stop);
    format_laws::lemma_property_is_read(owner, kept, p, rest);
    assert(properties::no_properties() =~= format_laws::nothing());
    let after = format_laws::with_property(owner, kept, p);
    assert(properties::take_properties_until(owner, after, rest, stop) is Err);
}

proof fn lemma_section_with_a_mistake(
    owner: PropertyOwner,
    list: Seq<Property>,
    tail: Seq<u8>,
    length: nat,
)
    requires
        format_laws::all_accepted(owner, format_laws::nothing(), list),
        format_laws::properties_bytes(list).len() < length <= 268_435_455,
    ensures
        ({
            let some = format_laws::properties_bytes(list);
            let kept = format_laws::with_properties(owner, format_laws::nothing(), list);
            length <= some.len() + tail.len() ==> (properties::take_property(
                owner,
                kept,
                tail,
            ) matches Err(e) ==> properties::take_properties(
                owner,
                format_laws::groups(length) + (some + tail),
            ) == Err::<(PropertiesView, Seq<u8>), ErrorView>(e))
        }),
{
    let some = format_laws::properties_bytes(list);
    if length <= some.len() + tail.len() {
        let stop = (some.len() + tail.len() - length) as nat;
        format_laws::law_elements_are_read(length, Seq::empty(), Seq::empty(), some + tail);
        lemma_properties_before(owner, format_laws::nothing(), list, tail, stop);
        assert(properties::no_properties() =~= format_laws::nothing());
    }
}

// Packets that are cut off.

proof fn lemma_cut(e: Seq<u8>, t: Seq<u8>, k: int)
    requires
        0 <= k <= e.len() + t.len(),
    ensures
        k < e.len() ==> (e + t).take(k) == e.take(k),
        k >= e.len() ==> (e + t).take(k) == e + t.take(k - e.len()),
{
    if k < e.len() {
        assert((e + t).take(k) =~= e.take(k));
    } else {
        assert((e + t).take(k) =~= e + t.take(k - e.len()));
    }
}

proof fn lemma_cut_groups(n: nat, limit: nat, k: int)
    requires
        0 <= k < format_laws::groups(n).len() <= limit,
    ensures
        wire::take_varint_within(format_laws::groups(n).take(k), limit) is Err,
    decreases n,
{
    let s = format_laws::groups(n);
    if k > 0 {
        let more = format_laws::groups(n / 128);
        assert(s == seq![(n % 128 + 128) as u8] + more);
        assert(s.take(k).skip(1) =~= more.take(k - 1));
        lemma_cut_groups(n / 128, (limit - 1) as nat, k - 1);
    }
}

proof fn lemma_cut_elements(n: nat, bytes: Seq<u8>, t: Seq<char>, k: int)
    requires
        0 <= k,
    ensures
        k < 2 ==> wire::take_u16(format_laws::two(n).take(k)) is Err,
        bytes.len() <= 65_535 && k < bytes.len() + 2 ==> wire::take_counted(
            format_laws::block(bytes).take(k),
        ) is Err,
        format_laws::short(t) && k < format_laws::text(t).len() ==> wire::take_text(
            format_laws::text(t).take(k),
        ) is Err,
{
    if bytes.len() <= 65_535 && k < bytes.len() + 2 {
        lemma_cut_block(bytes, k);
    }
    if format_laws::short(t) && k < format_laws::text(t).len() {
        lemma_cut_block(vstd::utf8::encode_utf8(t), k);
    }
}

proof fn lemma_cut_block(bytes: Seq<u8>, k: int)
    requires
        bytes.len() <= 65_535,
        0 <= k < bytes.len() + 2,
    ensures
        wire::take_counted(format_laws::block(bytes).take(k)) is Err,
{
    let n = bytes.len();
    lemma_cut(format_laws::two(n), bytes, k);
    if k >= 2 {
        format_laws::law_elements_are_read(n, Seq::empty(), Seq::empty(), bytes.take(k - 2));
    }
}

proof fn lemma_cut_section(owner: PropertyOwner, values: Seq<u8>, k: int)
    requires
        values.len() <= 268_435_455,
        0 <= k < format_laws::section(values).len(),
    ensures
        properties::take_properties(owner, format_laws::section(values).take(k)) is Err,
        properties::skip_properties(format_laws::section(values).take(k)) is Err,
{
    let n = values.len();
    let head = format_laws::groups(n);
    lemma_cut(head, values, k);
    format_laws::lemma_groups(n);
    packet_laws::lemma_four_bytes();
    packet_laws::law_varint_length(n, 4);
    if k < head.len() {
        lemma_cut_groups(n, 4, k);
    } else {
        format_laws::law_elements_are_read(
            n,
            Seq::empty(),
            Seq::empty(),
            values.take(k - head.len()),
        );
    }
}

proof fn lemma_cut_credentials(h: format_laws::Hello, k: int)
    requires
        format_laws::hello_can_be_written(h),
        0 <= k < format_laws::credential_bytes(h, Seq::empty()).len(),
    ensures
        ({
            let s = format_laws::credential_bytes(h, Seq::empty()).take(k);
            match decode::take_text_if(h.username is Some, s) {
                Ok((_, rest)) => decode::take_counted_if(h.password is Some, rest) is Err,
                Err(_) => true,
            }
        }),
{
    let none = Seq::<u8>::empty();
    let last = match h.password {
        Some(password) => format_laws::block(password) + none,
        None => none,
    };
    let left = match h.username {
        Some(name) => {
            lemma_cut(format_laws::text(name), last, k);
            let e = format_laws::text(name).len() as int;
            if k >= e {
                format_laws::law_elements_are_read(0, none, name, last.take(k - e));
            } else {
                lemma_cut_elements(0, none, name, k);
            }
            k - e
        },
        None => k,
    };
    if let Some(password) = h.password {
        if left >= 0 {
            assert(format_laws::block(password) + none =~= format_laws::block(password));
            lemma_cut_elements(0, password, Seq::empty(), left);
        }
    }
}

proof fn lemma_cut_will_fields(will: WillView, rest: Seq<u8>, k: int)
    requires
        format_laws::short(will.topic),
        will.payload.len() <= 65_535,
        ({
            let payload = format_laws::block(will.payload);
            0 <= k <= (format_laws::text(will.topic) + (payload + rest)).len()
        }),
    ensures
        ({
            let payload = format_laws::block(will.payload);
            let s = (format_laws::text(will.topic) + (payload + rest)).take(k);
            let used = format_laws::text(will.topic).len() + payload.len();
            match wire::take_text(s) {
                Ok((_, left)) => match wire::take_counted(left) {
                    Ok((_, left)) => k >= used && left == rest.take(k - used),
                    Err(_) => true,
                },
                Err(_) => true,
            }
        }),
{
    let none = Seq::<u8>::empty();
    let name = format_laws::text(will.topic);
    let payload = format_laws::block(will.payload);
    lemma_cut(name, payload + rest, k);
    if k < name.len() {
        lemma_cut_elements(0, none, will.topic, k);
    } else {
        let k2 = k - name.len();
        format_laws::law_elements_are_read(0, none, will.topic, (payload + rest).take(k2));
        lemma_cut(payload, rest, k2);
        if k2 < payload.len() {
            lemma_cut_elements(0, will.payload, Seq::empty(), k2);
        } else {
            let left = rest.take(k2 - payload.len());
            format_laws::law_elements_are_read(0, will.payload, Seq::empty(), left);
        }
    }
}

proof fn lemma_cut_will(h: format_laws::Hello, rest: Seq<u8>, k: int)
    requires
        format_laws::hello_can_be_written(h),
        0 <= k <= format_laws::will_bytes(h, rest).len(),
    ensures
        ({
            let whole = format_laws::will_bytes(h, rest);
            let used = whole.len() - rest.len();
            let s = whole.take(k);
            &&& used >= 0
            &&& match decode::take_will_if(format_laws::hello_flags(h), h.version, s) {
                Ok((_, left)) => k >= used && left == rest.take(k - used),
                Err(_) => true,
            }
        }),
{
    format_laws::lemma_hello_flags(h);
    if let Some(will) = h.will {
        let behind = format_laws::text(will.topic) + (format_laws::block(will.payload) + rest);
        if h.version == ProtocolVersion::V5 {
            let head = format_laws::section(h.will_section);
            lemma_cut(head, behind, k);
            if k < head.len() {
                lemma_cut_section(PropertyOwner::Connect, h.will_section, k);
            } else {
                let left = behind.take(k - head.len());
                format_laws::lemma_section_is_skipped(h.will_section, left);
                lemma_cut_will_fields(will, rest, k - head.len());
            }
        } else {
            lemma_cut_will_fields(will, rest, k);
        }
    }
}

proof fn lemma_cut_name(version: ProtocolVersion, k: int)
    requires
        0 <= k < format_laws::name_and_level(version).len(),
    ensures
        decode::take_version(format_laws::name_and_level(version).take(k)) is Err,
{
    let s = format_laws::name_and_level(version).take(k);
    let n: nat = if version == ProtocolVersion::V31 {
        6
    } else {
        4
    };
    if k >= 2 {
        let tail = s.skip(2);
        assert(s =~= format_laws::two(n) + tail);
        format_laws::law_elements_are_read(n, Seq::empty(), Seq::empty(), tail);
        if tail.len() == n {
            assert(tail.skip(n as int).len() == 0);
        }
    }
}

/// Whether what follows the keep alive of a CONNECT packet is refused.
spec fn rest_is_refused(flags: u8, version: ProtocolVersion, s: Seq<u8>) -> bool {
    let present = version == ProtocolVersion::V5;
    match decode::take_properties_if(present, PropertyOwner::Connect, s) {
        Ok((_, rest)) => match wire::take_text(rest) {
            Ok((_, rest)) => match decode::take_will_if(flags, version, rest) {
                Ok((_, rest)) => match decode::take_text_if(flags & 0x80 != 0, rest) {
                    Ok((_, rest)) => decode::take_counted_if(flags & 0x40 != 0, rest) is Err,
                    Err(_) => true,
                },
                Err(_) => true,
            },
            Err(_) => true,
        },
        Err(_) => true,
    }
}

/// Whether what follows the name and the level of a CONNECT packet is refused.
spec fn fields_are_refused(version: ProtocolVersion, s: Seq<u8>) -> bool {
    match wire::take_u8(s) {
        Ok((flags, rest)) => match wire::take_u16(rest) {
            Ok((_, rest)) => rest_is_refused(flags, version, rest),
            Err(_) => true,
        },
        Err(_) => true,
    }
}

proof fn lemma_connect_is_refused(s: Seq<u8>, version: ProtocolVersion, rest: Seq<u8>)
    requires
        decode::take_version(s) == Ok::<(ProtocolVersion, Seq<u8>), ErrorView>((version, rest)),
        fields_are_refused(version, rest),
    ensures
        decode::connect_of(s) is Err,
{
}

proof fn lemma_version_is_refused(s: Seq<u8>)
    requires
        decode::take_version(s) is Err,
    ensures
        decode::connect_of(s) is Err,
{
}

proof fn lemma_connect_cut(h: format_laws::Hello, behind: Seq<u8>, k: int)
    requires
        format_laws::hello_can_be_written(h),
        behind == ({
            let last = format_laws::credential_bytes(h, Seq::empty());
            let payload = format_laws::text(h.client_id) + format_laws::will_bytes(h, last);
            let middle = format_laws::section_of(h.version, h.properties) + payload;
            seq![format_laws::hello_flags(h)] + (format_laws::two(h.keep_alive as nat) + middle)
        }),
        0 <= k < format_laws::name_and_level(h.version).len() + behind.len(),
    ensures
        decode::connect_of((format_laws::name_and_level(h.version) + behind).take(k)) is Err,
{
    let start = format_laws::name_and_level(h.version);
    let s = (start + behind).take(k);
    lemma_cut(start, behind, k);
    if k < start.len() {
        lemma_cut_name(h.version, k);
        lemma_version_is_refused(s);
    } else {
        let left = behind.take(k - start.len());
        format_laws::lemma_name_and_level(h.version, left);
        lemma_cut_flags(h, k - start.len());
        lemma_connect_is_refused(s, h.version, left);
    }
}

/// A CONNECT packet that is cut off anywhere is refused.
pub proof fn law_connect_cut_off(
    h: format_laws::Hello,
    flags: u8,
    version: Option<ProtocolVersion>,
    k: int,
)
    requires
        format_laws::hello_can_be_written(h),
        0 <= k < format_laws::hello_bytes(h, Seq::empty()).len(),
    ensures
        decode::packet_of(
            0x10,
            flags,
            format_laws::hello_bytes(h, Seq::empty()).take(k),
            version,
        ) is Err,
{
    let last = format_laws::credential_bytes(h, Seq::empty());
    let payload = format_laws::text(h.client_id) + format_laws::will_bytes(h, last);
    let middle = format_laws::section_of(h.version, h.properties) + payload;
    let behind = seq![format_laws::hello_flags(h)] + (format_laws::two(h.keep_alive as nat)
        + middle);
    lemma_connect_cut(h, behind, k);
}

proof fn lemma_cut_flags(h: format_laws::Hello, k: int)
    requires
        format_laws::hello_can_be_written(h),
        ({
            let last = format_laws::credential_bytes(h, Seq::empty());
            let payload = format_laws::text(h.client_id) + format_laws::will_bytes(h, last);
            let middle = format_laws::section_of(h.version, h.properties) + payload;
            0 <= k < middle.len() + 3
        }),
    ensures
        ({
            let last = format_laws::credential_bytes(h, Seq::empty());
            let payload = format_laws::text(h.client_id) + format_laws::will_bytes(h, last);
            let middle = format_laws::section_of(h.version, h.properties) + payload;
            let behind = format_laws::two(h.keep_alive as nat) + middle;
            let s = (seq![format_laws::hello_flags(h)] + behind).take(k);
            fields_are_refused(h.version, s)
        }),
{
    let none = Seq::<u8>::empty();
    let blank = Seq::<char>::empty();
    let last = format_laws::credential_bytes(h, none);
    let payload = format_laws::text(h.client_id) + format_laws::will_bytes(h, last);
    let middle = format_laws::section_of(h.version, h.properties) + payload;
    let time = format_laws::two(h.keep_alive as nat);
    let behind = time + middle;
    let bits = seq![format_laws::hello_flags(h)];
    lemma_cut(bits, behind, k);
    if k >= 1 {
        let k1 = k - 1;
        let f = format_laws::hello_flags(h);
        format_laws::law_elements_are_read(f as nat, none, blank, behind.take(k1));
        lemma_cut(time, middle, k1);
        if k1 < 2 {
            lemma_cut_elements(h.keep_alive as nat, none, blank, k1);
        } else {
            let n = h.keep_alive as nat;
            format_laws::law_elements_are_read(n, none, blank, middle.take(k1 - 2));
            lemma_cut_rest(h, k1 - 2);
        }
    }
}

/// What follows the keep alive of a CONNECT packet, cut off, is refused somewhere.
proof fn lemma_cut_rest(h: format_laws::Hello, k: int)
    requires
        format_laws::hello_can_be_written(h),
        ({
            let last = format_laws::credential_bytes(h, Seq::empty());
            let payload = format_laws::text(h.client_id) + format_laws::will_bytes(h, last);
            0 <= k < (format_laws::section_of(h.version, h.properties) + payload).len()
        }),
    ensures
        ({
            let last = format_laws::credential_bytes(h, Seq::empty());
            let payload = format_laws::text(h.client_id) + format_laws::will_bytes(h, last);
            let s = (format_laws::section_of(h.version, h.properties) + payload).take(k);
            rest_is_refused(format_laws::hello_flags(h), h.version, s)
        }),
{
    let none = Seq::<u8>::empty();
    let last = format_laws::credential_bytes(h, none);
    let wills = format_laws::will_bytes(h, last);
    let name = format_laws::text(h.client_id);
    let payload = name + wills;
    let head = format_laws::section_of(h.version, h.properties);
    lemma_cut(head, payload, k);
    if k < head.len() {
        let values = format_laws::properties_bytes(h.properties);
        lemma_cut_section(PropertyOwner::Connect, values, k);
    } else {
        let k2 = k - head.len();
        if h.version == ProtocolVersion::V5 {
            format_laws::law_property_sections_are_read(
                PropertyOwner::Connect,
                h.properties,
                payload.take(k2),
            );
        } else {
            assert(head + payload.take(k2) =~= payload.take(k2));
        }
        lemma_cut(name, wills, k2);
        if k2 < name.len() {
            lemma_cut_elements(0, none, h.client_id, k2);
        } else {
            let k3 = k2 - name.len();
            format_laws::law_elements_are_read(0, none, h.client_id, wills.take(k3));
            lemma_cut_will(h, last, k3);
            let used = wills.len() - last.len();
            format_laws::lemma_hello_flags(h);
            if k3 >= used {
                lemma_cut_credentials(h, k3 - used);
            }
        }
    }
}

/// A PUBLISH packet that is cut off before its payload is refused.
pub proof fn law_publish_cut_off(
    version: ProtocolVersion,
    flags: u8,
    name: Seq<char>,
    packet_id: u16,
    list: Seq<Property>,
    k: int,
)
    requires
        format_laws::short(name),
        format_laws::properties_bytes(list).len() <= 268_435_455,
        ({
            let id = if flags / 2 % 4 > 0 {
                format_laws::two(packet_id as nat)
            } else {
                Seq::empty()
            };
            0 <= k < (format_laws::text(name) + (id + format_laws::section_of(version, list))).len()
        }),
    ensures
        ({
            let id = if flags / 2 % 4 > 0 {
                format_laws::two(packet_id as nat)
            } else {
                Seq::empty()
            };
            decode::packet_of(
                0x30,
                flags,
                (format_laws::text(name) + (id + format_laws::section_of(version, list))).take(k),
                Some(version),
            ) is Err
        }),
{
    assert((flags & 0x06) >> 1 == flags / 2 % 4) by (bit_vector);
    let id = if flags / 2 % 4 > 0 {
        format_laws::two(packet_id as nat)
    } else {
        Seq::empty()
    };
    let text = format_laws::text(name);
    let tail = id + format_laws::section_of(version, list);
    lemma_cut(text, tail, k);
    if k < text.len() {
        lemma_cut_elements(0, Seq::empty(), name, k);
        lemma_publish_is_refused(flags, text.take(k), version);
    } else {
        let left = tail.take(k - text.len());
        format_laws::law_elements_are_read(0, Seq::empty(), name, left);
        lemma_cut_publish(flags / 2 % 4 > 0, version, packet_id, list, k - text.len());
        lemma_publish_is_refused(flags, text + left, version);
    }
}

/// Whether what follows the topic of a PUBLISH packet is refused.
spec fn message_is_refused(numbered: bool, version: ProtocolVersion, s: Seq<u8>) -> bool {
    match decode::take_packet_id_if(numbered, s) {
        Ok((_, rest)) => decode::take_properties_if(
            version == ProtocolVersion::V5,
            PropertyOwner::Publish,
            rest,
        ) is Err,
        Err(_) => true,
    }
}

proof fn lemma_publish_is_refused(flags: u8, s: Seq<u8>, version: ProtocolVersion)
    requires
        match wire::take_text(s) {
            Ok((_, rest)) => message_is_refused((flags & 0x06) >> 1 > 0, version, rest),
            Err(_) => true,
        },
    ensures
        decode::packet_of(0x30, flags, s, Some(version)) is Err,
{
}

proof fn lemma_cut_publish(
    numbered: bool,
    version: ProtocolVersion,
    packet_id: u16,
    list: Seq<Property>,
    k: int,
)
    requires
        format_laws::properties_bytes(list).len() <= 268_435_455,
        ({
            let id = if numbered {
                format_laws::two(packet_id as nat)
            } else {
                Seq::empty()
            };
            0 <= k < (id + format_laws::section_of(version, list)).len()
        }),
    ensures
        ({
            let id = if numbered {
                format_laws::two(packet_id as nat)
            } else {
                Seq::empty()
            };
            message_is_refused(
                numbered,
                version,
                (id + format_laws::section_of(version, list)).take(k),
            )
        }),
{
    let none = Seq::<u8>::empty();
    let blank = Seq::<char>::empty();
    let id = if numbered {
        format_laws::two(packet_id as nat)
    } else {
        none
    };
    let tail = format_laws::section_of(version, list);
    lemma_cut(id, tail, k);
    if k < id.len() {
        lemma_cut_elements(packet_id as nat, none, blank, k);
    } else {
        let left = tail.take(k - id.len());
        format_laws::law_elements_are_read(packet_id as nat, none, blank, left);
        assert(none + left =~= left);
        lemma_cut_section(
            PropertyOwner::Publish,
            format_laws::properties_bytes(list),
            k - id.len(),
        );
    }
}

// Frames.

/// A frame is read off a stream as its command, its flags and its body, and what follows it
/// is left. A stream that ends within a frame, and a length of more than four bytes, are
/// mistakes.
pub proof fn law_frames_off_a_stream(first: u8, body: Seq<u8>, rest: Seq<u8>, s: Seq<u8>)
    ensures
        body.len() <= 268_435_455 ==> frame::take_frame(
            format_laws::whole(first as int, body) + rest,
        ) == Ok::<(FrameView, Seq<u8>), ErrorView>(
            (
                FrameView {
                    command: (first / 16 * 16) as u8,
                    flags: (first % 16) as u8,
                    body,
                },
                rest,
            ),
        ),
        body.len() <= 268_435_455 && s.len() < body.len() ==> frame::take_frame(
            seq![first] + (format_laws::groups(body.len()) + s),
        ) == Err::<(FrameView, Seq<u8>), ErrorView>(ErrorView::Io("failed to fill whole buffer"@)),
        s.len() < 4 && all_high(s) ==> frame::take_frame(seq![first] + s) == Err::<
            (FrameView, Seq<u8>),
            ErrorView,
        >(ErrorView::Io("failed to fill whole buffer"@)),
        s.len() >= 4 && all_high(s.take(4)) ==> frame::take_frame(seq![first] + s) == Err::<
            (FrameView, Seq<u8>),
            ErrorView,
        >(ErrorView::MalformedPacket("remaining length is too long"@)),
        frame::take_frame(Seq::empty()) == Err::<(FrameView, Seq<u8>), ErrorView>(
            ErrorView::Io("failed to fill whole buffer"@),
        ),
{
    assert((seq![first] + s).skip(1) =~= s);
    if body.len() <= 268_435_455 {
        let n = body.len();
        assert(first & 0xF0 == first / 16 * 16 && first & 0x0F == first % 16) by (bit_vector);
        packet_laws::lemma_four_bytes();
        format_laws::lemma_groups(n);
        let stream = format_laws::whole(first as int, body) + rest;
        packet_laws::law_length_read_back(n, 4, body + rest);
        assert(stream.skip(1) =~= format_laws::groups(n) + (body + rest));
        assert((body + rest).take(n as int) =~= body);
        assert((body + rest).skip(n as int) =~= rest);
        if s.len() < n {
            let cut = seq![first] + (format_laws::groups(n) + s);
            assert(cut.skip(1) =~= format_laws::groups(n) + s);
            packet_laws::law_length_read_back(n, 4, s);
        }
    }
    if s.len() < 4 && all_high(s) {
        lemma_high_groups(s, 4);
    }
    if s.len() >= 4 && all_high(s.take(4)) {
        lemma_too_many_groups(s, 4);
    }
}

/// What is left of a stream: what follows the frame; nothing where the stream ended within
/// it; and what follows the fourth byte of a length that is too long.
pub proof fn law_what_is_left_of_a_stream(first: u8, body: Seq<u8>, rest: Seq<u8>, s: Seq<u8>)
    ensures
        body.len() <= 268_435_455 ==> frame::left_over(
            format_laws::whole(first as int, body) + rest,
        ) == rest,
        body.len() <= 268_435_455 && s.len() < body.len() ==> frame::left_over(
            seq![first] + (format_laws::groups(body.len()) + s),
        ) == Seq::<u8>::empty(),
        s.len() < 4 && all_high(s) ==> frame::left_over(seq![first] + s) == Seq::<u8>::empty(),
        s.len() >= 4 && all_high(s.take(4)) ==> frame::left_over(seq![first] + s) == s.skip(4),
{
    law_frames_off_a_stream(first, body, rest, s);
    if s.len() >= 4 {
        assert((seq![first] + s).skip(5) =~= s.skip(4));
    }
}

} // verus!
