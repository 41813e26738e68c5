//! The MQTT format, number by number, and that packets are read and written in it.

use vstd::prelude::*;

use crate::decode;
use crate::encode;
use crate::packet::{
    ConnackOptions, ErrorView, PacketView, ProtocolVersion, PublicationView, RequestView, WillView,
};
use crate::packet_laws;
use crate::properties;
use crate::properties::{PropertiesView, PropertyOwner};
use crate::wire;

verus! {

// Elements.

/// A number in two bytes, the greater one first.
pub open spec fn two(n: nat) -> Seq<u8> {
    seq![(n / 256 % 256) as u8, (n % 256) as u8]
}

/// A number in four bytes, the greatest one first.
pub open spec fn four(n: nat) -> Seq<u8> {
    seq![
        (n / 16_777_216 % 256) as u8,
        (n / 65_536 % 256) as u8,
        (n / 256 % 256) as u8,
        (n % 256) as u8,
    ]
}

/// A number in groups of seven bits, the lowest first; each group but the last has
/// its high bit set.
pub open spec fn groups(n: nat) -> Seq<u8>
    decreases n,
{
    if n < 128 {
        seq![n as u8]
    } else {
        seq![(n % 128 + 128) as u8] + groups(n / 128)
    }
}

/// Bytes behind their number.
pub open spec fn block(bytes: Seq<u8>) -> Seq<u8> {
    two(bytes.len()) + bytes
}

/// A text in UTF-8 behind the number of its bytes.
pub open spec fn text(t: Seq<char>) -> Seq<u8> {
    block(vstd::utf8::encode_utf8(t))
}

/// A section behind the number of its bytes.
pub open spec fn section(values: Seq<u8>) -> Seq<u8> {
    groups(values.len()) + values
}

/// Whether a text fits into two bytes of length.
pub open spec fn short(t: Seq<char>) -> bool {
    vstd::utf8::encode_utf8(t).len() <= 65_535
}

/// The greatest number that four groups hold.
pub open spec fn greatest() -> nat {
    268_435_455
}

proof fn lemma_two(n: nat)
    requires
        n <= 65_535,
    ensures
        two(n) == wire::be16(n as u16),
{
    assert(two(n) =~= wire::be16(n as u16));
}

proof fn lemma_four(n: nat)
    requires
        n <= 0xFFFF_FFFF,
    ensures
        four(n) == wire::be32(n as u32),
{
    assert(four(n) =~= wire::be32(n as u32));
}

/// Numbers are written in groups.
pub proof fn lemma_groups(n: nat)
    ensures
        groups(n) == wire::varint(n),
    decreases n,
{
    if n >= 128 {
        lemma_groups(n / 128);
    }
}

proof fn lemma_block(bytes: Seq<u8>)
    requires
        bytes.len() <= 65_535,
    ensures
        block(bytes) == wire::counted(bytes),
{
    lemma_two(bytes.len());
}

/// Numbers of one, two and four bytes, numbers in groups, blocks and texts are read
/// as they are written, whatever follows.
pub proof fn law_elements_are_read(
    n: nat,
    bytes: Seq<u8>,
    t: Seq<char>,
    rest: Seq<u8>,
)
    ensures
        n <= 255 ==> wire::take_u8(seq![n as u8] + rest) == Ok::<(u8, Seq<u8>), ErrorView>(
            (n as u8, rest),
        ),
        n <= 65_535 ==> wire::take_u16(two(n) + rest) == Ok::<(u16, Seq<u8>), ErrorView>(
            (n as u16, rest),
        ),
        n <= 0xFFFF_FFFF ==> wire::take_u32(four(n) + rest) == Ok::<(u32, Seq<u8>), ErrorView>(
            (n as u32, rest),
        ),
        n <= greatest() ==> wire::take_varint(groups(n) + rest) == Ok::<
            (nat, Seq<u8>),
            ErrorView,
        >((n, rest)),
        bytes.len() <= 65_535 ==> wire::take_counted(block(bytes) + rest) == Ok::<
            (Seq<u8>, Seq<u8>),
            ErrorView,
        >((bytes, rest)),
        short(t) ==> wire::take_text(text(t) + rest) == Ok::<(Seq<char>, Seq<u8>), ErrorView>(
            (t, rest),
        ),
{
    assert((seq![n as u8] + rest).skip(1) =~= rest);
    if n <= 65_535 {
        lemma_two(n);
        packet_laws::lemma_u16_read_back(n as u16, rest);
    }
    if n <= 0xFFFF_FFFF {
        let s = four(n) + rest;
        assert(s.skip(4) =~= rest);
        assert(s[0] == (n / 16_777_216 % 256) as u8);
        assert(s[1] == (n / 65_536 % 256) as u8);
        assert(s[2] == (n / 256 % 256) as u8);
        assert(s[3] == (n % 256) as u8);
        assert(n == n / 16_777_216 % 256 * 16_777_216 + n / 65_536 % 256 * 65_536 + n / 256 % 256
            * 256 + n % 256);
    }
    if n <= greatest() {
        lemma_groups(n);
        packet_laws::lemma_four_bytes();
        packet_laws::law_varint_read_back(n, 4, rest);
    }
    if bytes.len() <= 65_535 {
        lemma_block(bytes);
        packet_laws::lemma_counted_read_back(bytes, rest);
    }
    if short(t) {
        lemma_block(vstd::utf8::encode_utf8(t));
        packet_laws::lemma_text_read_back(t, rest);
    }
}

// Properties.

/// The value of a property.
pub enum Value {
    Byte(u8),
    Two(u16),
    Four(u32),
    Number(u32),
    Bytes(Seq<u8>),
    Pair(Seq<u8>, Seq<u8>),
}

/// A property: its number and its value.
pub struct Property {
    pub id: u8,
    pub value: Value,
}

/// Whether a property has the kind of value that the format gives to its number.
pub open spec fn is_property(p: Property) -> bool {
    match p.value {
        Value::Byte(_) => p.id == 0x01 || p.id == 0x17 || p.id == 0x19 || p.id == 0x24 || p.id
            == 0x25 || p.id == 0x28 || p.id == 0x29 || p.id == 0x2A,
        Value::Two(_) => p.id == 0x13 || p.id == 0x21 || p.id == 0x22 || p.id == 0x23,
        Value::Four(_) => p.id == 0x02 || p.id == 0x11 || p.id == 0x18 || p.id == 0x27,
        Value::Number(n) => p.id == 0x0B && n <= greatest(),
        Value::Bytes(b) => (p.id == 0x03 || p.id == 0x08 || p.id == 0x09 || p.id == 0x12 || p.id
            == 0x15 || p.id == 0x16 || p.id == 0x1A || p.id == 0x1C || p.id == 0x1F) && b.len()
            <= 65_535,
        Value::Pair(a, b) => p.id == 0x26 && a.len() <= 65_535 && b.len() <= 65_535,
    }
}

/// The bytes of a property.
pub open spec fn property_bytes(p: Property) -> Seq<u8> {
    seq![p.id] + match p.value {
        Value::Byte(n) => seq![n],
        Value::Two(n) => two(n as nat),
        Value::Four(n) => four(n as nat),
        Value::Number(n) => groups(n as nat),
        Value::Bytes(b) => block(b),
        Value::Pair(a, b) => block(a) + block(b),
    }
}

/// The properties that have been read, with one more: CONNECT has a session expiry
/// interval and a maximum packet size, DISCONNECT a session expiry interval,
/// SUBSCRIBE a subscription identifier, and PUBLISH a payload format indicator, a
/// topic alias, a response topic, correlation data and subscription identifiers.
/// All others are passed over.
pub open spec fn with_property(
    owner: PropertyOwner,
    kept: PropertiesView,
    p: Property,
) -> PropertiesView {
    match (owner, p.value) {
        (PropertyOwner::Connect, Value::Four(n)) if p.id == 0x11 => PropertiesView {
            session_expiry_interval: Some(n),
            ..kept
        },
        (PropertyOwner::Connect, Value::Four(n)) if p.id == 0x27 => PropertiesView {
            maximum_packet_size: Some(n),
            ..kept
        },
        (PropertyOwner::Disconnect, Value::Four(n)) if p.id == 0x11 => PropertiesView {
            session_expiry_interval: Some(n),
            ..kept
        },
        (PropertyOwner::Subscribe, Value::Number(n)) => PropertiesView {
            subscription_identifiers: kept.subscription_identifiers.push(n),
            ..kept
        },
        (PropertyOwner::Publish, Value::Number(n)) => PropertiesView {
            subscription_identifiers: kept.subscription_identifiers.push(n),
            ..kept
        },
        (PropertyOwner::Publish, Value::Byte(n)) if p.id == 0x01 => PropertiesView {
            payload_format_indicator: Some(n),
            ..kept
        },
        (PropertyOwner::Publish, Value::Two(n)) if p.id == 0x23 => PropertiesView {
            topic_alias: Some(n),
            ..kept
        },
        (PropertyOwner::Publish, Value::Bytes(b)) if p.id == 0x08 => PropertiesView {
            response_topic: Some(vstd::utf8::decode_utf8(b)),
            ..kept
        },
        (PropertyOwner::Publish, Value::Bytes(b)) if p.id == 0x09 => PropertiesView {
            correlation_data: Some(b),
            ..kept
        },
        _ => kept,
    }
}

/// Whether a property is accepted behind others: a maximum packet size and a
/// subscription identifier are not zero, SUBSCRIBE has one identifier, and a
/// response topic is a text.
pub open spec fn is_accepted(owner: PropertyOwner, kept: PropertiesView, p: Property) -> bool {
    &&& is_property(p)
    &&& owner == PropertyOwner::Connect && p.id == 0x27 ==> p.value != Value::Four(0)
    &&& (owner == PropertyOwner::Publish || owner == PropertyOwner::Subscribe) && p.id == 0x0B
        ==> p.value != Value::Number(0)
    &&& owner == PropertyOwner::Subscribe && p.id == 0x0B ==> kept.subscription_identifiers.len()
        == 0
    &&& owner == PropertyOwner::Publish && p.id == 0x08 ==> (p.value matches Value::Bytes(b)
        && vstd::utf8::valid_utf8(b))
}

/// A property is read as its value.
pub proof fn lemma_property_is_read(
    owner: PropertyOwner,
    kept: PropertiesView,
    p: Property,
    rest: Seq<u8>,
)
    requires
        is_accepted(owner, kept, p),
    ensures
        properties::take_property(owner, kept, property_bytes(p) + rest) == Ok::<
            (PropertiesView, Seq<u8>),
            ErrorView,
        >((with_property(owner, kept, p), rest)),
{
    let value = match p.value {
        Value::Byte(n) => seq![n],
        Value::Two(n) => two(n as nat),
        Value::Four(n) => four(n as nat),
        Value::Number(n) => groups(n as nat),
        Value::Bytes(b) => block(b),
        Value::Pair(a, b) => block(a) + block(b),
    };
    let tail = value + rest;
    assert(property_bytes(p) + rest =~= seq![p.id] + tail);
    packet_laws::lemma_identifier_read_back(p.id, tail);
    let none = Seq::<u8>::empty();
    let blank = Seq::<char>::empty();
    match p.value {
        Value::Byte(n) => law_elements_are_read(n as nat, none, blank, rest),
        Value::Two(n) => law_elements_are_read(n as nat, none, blank, rest),
        Value::Four(n) => law_elements_are_read(n as nat, none, blank, rest),
        Value::Number(n) => law_elements_are_read(n as nat, none, blank, rest),
        Value::Bytes(b) => law_elements_are_read(0, b, blank, rest),
        Value::Pair(a, b) => {
            law_elements_are_read(0, a, blank, block(b) + rest);
            law_elements_are_read(0, b, blank, rest);
            assert(tail =~= block(a) + (block(b) + rest));
        },
    }
}

/// The bytes of a list of properties.
pub open spec fn properties_bytes(list: Seq<Property>) -> Seq<u8>
    decreases list.len(),
{
    if list.len() == 0 {
        Seq::empty()
    } else {
        property_bytes(list[0]) + properties_bytes(list.skip(1))
    }
}

/// The properties that have been read, with a list of more.
pub open spec fn with_properties(
    owner: PropertyOwner,
    kept: PropertiesView,
    list: Seq<Property>,
) -> PropertiesView
    decreases list.len(),
{
    if list.len() == 0 {
        kept
    } else {
        with_properties(owner, with_property(owner, kept, list[0]), list.skip(1))
    }
}

/// Whether each property of a list is accepted behind those before it.
pub open spec fn all_accepted(
    owner: PropertyOwner,
    kept: PropertiesView,
    list: Seq<Property>,
) -> bool
    decreases list.len(),
{
    list.len() > 0 ==> is_accepted(owner, kept, list[0]) && all_accepted(
        owner,
        with_property(owner, kept, list[0]),
        list.skip(1),
    )
}

/// Nothing has been read.
pub open spec fn nothing() -> PropertiesView {
    PropertiesView {
        session_expiry_interval: None,
        maximum_packet_size: None,
        topic_alias: None,
        payload_format_indicator: None,
        response_topic: None,
        correlation_data: None,
        subscription_identifiers: Seq::empty(),
    }
}

proof fn lemma_properties_are_read(
    owner: PropertyOwner,
    kept: PropertiesView,
    list: Seq<Property>,
    rest: Seq<u8>,
)
    requires
        all_accepted(owner, kept, list),
    ensures
        properties::take_properties_until(
            owner,
            kept,
            properties_bytes(list) + rest,
            rest.len(),
        ) == Ok::<(PropertiesView, Seq<u8>), ErrorView>(
            (with_properties(owner, kept, list), rest),
        ),
    decreases list.len(),
{
    if list.len() == 0 {
        assert(properties_bytes(list) + rest =~= rest);
    } else {
        let more = list.skip(1);
        let tail = properties_bytes(more) + rest;
        assert(properties_bytes(list) + rest =~= property_bytes(list[0]) + tail);
        lemma_property_is_read(owner, kept, list[0], tail);
        lemma_properties_are_read(owner, with_property(owner, kept, list[0]), more, rest);
    }
}

/// A property section is read property by property, in any order and whatever
/// follows it.
pub proof fn law_property_sections_are_read(
    owner: PropertyOwner,
    list: Seq<Property>,
    rest: Seq<u8>,
)
    requires
        all_accepted(owner, nothing(), list),
        properties_bytes(list).len() <= greatest(),
    ensures
        properties::take_properties(owner, section(properties_bytes(list)) + rest) == Ok::<
            (PropertiesView, Seq<u8>),
            ErrorView,
        >((with_properties(owner, nothing(), list), rest)),
{
    let values = properties_bytes(list);
    assert(section(values) + rest =~= groups(values.len()) + (values + rest));
    law_elements_are_read(
        values.len(),
        Seq::empty(),
        Seq::empty(),
        values + rest,
    );
    lemma_properties_are_read(owner, nothing(), list, rest);
    assert(properties::no_properties() =~= nothing());
}

// SUBSCRIBE and UNSUBSCRIBE.

/// The options byte of a request.
pub open spec fn options_byte(r: RequestView) -> u8 {
    (r.qos + (if r.no_local {
        4int
    } else {
        0
    }) + (if r.retain_as_published {
        8int
    } else {
        0
    }) + 16 * r.retain_handling) as u8
}

/// The bytes of requests: each filter, and its options behind it.
pub open spec fn requests_bytes(list: Seq<RequestView>) -> Seq<u8>
    decreases list.len(),
{
    if list.len() == 0 {
        Seq::empty()
    } else {
        text(list[0].filter) + seq![options_byte(list[0])] + requests_bytes(list.skip(1))
    }
}

/// Whether requests can be written: filters of at most 65535 bytes, QoS and retain
/// handling of 0, 1 or 2, and the same identifier for all of them.
pub open spec fn can_be_written(list: Seq<RequestView>, identifier: Option<u32>) -> bool {
    forall|i: int|
        0 <= i < list.len() ==> {
            &&& short((#[trigger] list[i]).filter)
            &&& list[i].qos <= 2
            &&& list[i].retain_handling <= 2
            &&& list[i].identifier == identifier
        }
}

/// The options byte of a request is read back.
pub proof fn lemma_options(r: RequestView)
    requires
        r.qos <= 2,
        r.retain_handling <= 2,
    ensures
        decode::options_allowed(options_byte(r)),
        decode::request_of(r.filter, options_byte(r), r.identifier) == r,
{
    let local: u8 = if r.no_local {
        4u8
    } else {
        0u8
    };
    let keep: u8 = if r.retain_as_published {
        8u8
    } else {
        0u8
    };
    let qos = r.qos;
    let handling = r.retain_handling;
    let o = options_byte(r);
    assert(o == qos + local + keep + 16 * handling);
    assert({
        &&& o & 0x03 == qos
        &&& (o & 0x30) >> 4 == handling
        &&& o & 0xC0 == 0
        &&& (o & 0x04 != 0) == (local == 4)
        &&& (o & 0x08 != 0) == (keep == 8)
    }) by (bit_vector)
        requires
            o == qos + local + keep + 16 * handling,
            qos <= 2,
            handling <= 2,
            local == 0 || local == 4,
            keep == 0 || keep == 8,
    ;
    assert(decode::request_of(r.filter, o, r.identifier) =~= r);
}

proof fn lemma_requests_are_read(list: Seq<RequestView>, identifier: Option<u32>)
    requires
        can_be_written(list, identifier),
    ensures
        decode::requests_of(requests_bytes(list), identifier) == Ok::<Seq<RequestView>, ErrorView>(
            list,
        ),
    decreases list.len(),
{
    if list.len() == 0 {
        assert(list =~= Seq::empty());
    } else {
        let r = list[0];
        let more = list.skip(1);
        assert forall|i: int| 0 <= i < more.len() implies {
            &&& short((#[trigger] more[i]).filter)
            &&& more[i].qos <= 2
            &&& more[i].retain_handling <= 2
            &&& more[i].identifier == identifier
        } by {
            assert(more[i] == list[i + 1]);
        }
        lemma_requests_are_read(more, identifier);
        lemma_options(r);
        let tail = requests_bytes(more);
        assert(requests_bytes(list) =~= text(r.filter) + (seq![options_byte(r)] + tail));
        law_elements_are_read(0, Seq::empty(), r.filter, seq![options_byte(r)] + tail);
        law_elements_are_read(options_byte(r) as nat, Seq::empty(), Seq::empty(), tail);
        assert(text(r.filter).len() >= 2);
        assert(seq![r] + more =~= list);
    }
}

/// The property section of a packet, which only MQTT 5 has.
pub open spec fn section_of(version: ProtocolVersion, list: Seq<Property>) -> Seq<u8> {
    if version == ProtocolVersion::V5 {
        section(properties_bytes(list))
    } else {
        Seq::empty()
    }
}

/// The subscription identifier of a list of properties.
pub open spec fn identifier_of(version: ProtocolVersion, list: Seq<Property>) -> Option<u32> {
    let kept = with_properties(PropertyOwner::Subscribe, nothing(), list);
    if version == ProtocolVersion::V5 && kept.subscription_identifiers.len() > 0 {
        Some(kept.subscription_identifiers[0])
    } else {
        None
    }
}

/// A SUBSCRIBE packet of the format is read as exactly the requests that it is made
/// of: the packet identifier, in MQTT 5 the properties, and then each filter with
/// its options byte, in which QoS counts once, no local four, retain as published
/// eight and retain handling sixteen times.
pub proof fn law_subscribe_is_read(
    version: ProtocolVersion,
    flags: u8,
    packet_id: u16,
    list: Seq<Property>,
    requests: Seq<RequestView>,
)
    requires
        packet_id > 0,
        requests.len() > 0,
        all_accepted(PropertyOwner::Subscribe, nothing(), list),
        properties_bytes(list).len() <= greatest(),
        can_be_written(requests, identifier_of(version, list)),
    ensures
        decode::packet_of(
            0x80,
            flags,
            two(packet_id as nat) + section_of(version, list) + requests_bytes(requests),
            Some(version),
        ) == Ok::<PacketView, ErrorView>(
            PacketView::Subscribe { packet_id, filters: requests },
        ),
{
    let tail = requests_bytes(requests);
    let rest = section_of(version, list) + tail;
    let body = two(packet_id as nat) + section_of(version, list) + tail;
    assert(body =~= two(packet_id as nat) + rest);
    law_elements_are_read(packet_id as nat, Seq::empty(), Seq::empty(), rest);
    lemma_requests_are_read(requests, identifier_of(version, list));
    if version == ProtocolVersion::V5 {
        law_property_sections_are_read(PropertyOwner::Subscribe, list, tail);
    } else {
        assert(rest =~= tail);
    }
}

/// The bytes of texts.
pub open spec fn texts_bytes(list: Seq<Seq<char>>) -> Seq<u8>
    decreases list.len(),
{
    if list.len() == 0 {
        Seq::empty()
    } else {
        text(list[0]) + texts_bytes(list.skip(1))
    }
}

proof fn lemma_texts_are_read(list: Seq<Seq<char>>)
    requires
        forall|i: int| 0 <= i < list.len() ==> short(#[trigger] list[i]),
    ensures
        decode::texts_of(texts_bytes(list)) == Ok::<Seq<Seq<char>>, ErrorView>(list),
    decreases list.len(),
{
    if list.len() == 0 {
        assert(list =~= Seq::empty());
    } else {
        let more = list.skip(1);
        assert forall|i: int| 0 <= i < more.len() implies short(#[trigger] more[i]) by {
            assert(more[i] == list[i + 1]);
        }
        lemma_texts_are_read(more);
        law_elements_are_read(0, Seq::empty(), list[0], texts_bytes(more));
        assert(text(list[0]).len() >= 2);
        assert(seq![list[0]] + more =~= list);
    }
}

/// An UNSUBSCRIBE packet of the format is read as exactly the filters that it is
/// made of: the packet identifier, in MQTT 5 a section that is passed over, and the
/// filters.
pub proof fn law_unsubscribe_is_read(
    version: ProtocolVersion,
    flags: u8,
    packet_id: u16,
    values: Seq<u8>,
    filters: Seq<Seq<char>>,
)
    requires
        packet_id > 0,
        filters.len() > 0,
        values.len() <= greatest(),
        forall|i: int| 0 <= i < filters.len() ==> short(#[trigger] filters[i]),
    ensures
        decode::packet_of(
            0xA0,
            flags,
            two(packet_id as nat) + (if version == ProtocolVersion::V5 {
                section(values)
            } else {
                Seq::empty()
            }) + texts_bytes(filters),
            Some(version),
        ) == Ok::<PacketView, ErrorView>(PacketView::Unsubscribe { packet_id, filters }),
{
    let tail = texts_bytes(filters);
    let middle = if version == ProtocolVersion::V5 {
        section(values)
    } else {
        Seq::empty()
    };
    let rest = middle + tail;
    assert(two(packet_id as nat) + middle + tail =~= two(packet_id as nat) + rest);
    law_elements_are_read(packet_id as nat, Seq::empty(), Seq::empty(), rest);
    lemma_texts_are_read(filters);
    lemma_section_is_skipped(values, tail);
    assert(version != ProtocolVersion::V5 ==> rest =~= tail);
}

/// A section is passed over by its length.
pub proof fn lemma_section_is_skipped(values: Seq<u8>, rest: Seq<u8>)
    requires
        values.len() <= greatest(),
    ensures
        properties::skip_properties(section(values) + rest) == Ok::<Seq<u8>, ErrorView>(rest),
{
    assert(section(values) + rest =~= groups(values.len()) + (values + rest));
    law_elements_are_read(values.len(), Seq::empty(), Seq::empty(), values + rest);
    assert((values + rest).skip(values.len() as int) =~= rest);
}

// CONNECT.

/// What a CONNECT packet says.
pub struct Hello {
    pub version: ProtocolVersion,
    pub clean_start: bool,
    pub keep_alive: u16,
    pub properties: Seq<Property>,
    pub client_id: Seq<char>,
    pub will_section: Seq<u8>,
    pub will: Option<WillView>,
    pub username: Option<Seq<char>>,
    pub password: Option<Seq<u8>>,
}

/// The name and the level of a revision.
pub open spec fn name_and_level(version: ProtocolVersion) -> Seq<u8> {
    match version {
        ProtocolVersion::V31 => seq![0u8, 6u8, 0x4Du8, 0x51u8, 0x49u8, 0x73u8, 0x64u8, 0x70u8, 3u8],
        ProtocolVersion::V311 => seq![0u8, 4u8, 0x4Du8, 0x51u8, 0x54u8, 0x54u8, 4u8],
        ProtocolVersion::V5 => seq![0u8, 4u8, 0x4Du8, 0x51u8, 0x54u8, 0x54u8, 5u8],
    }
}

/// A number where something holds, and else nothing.
pub open spec fn weight(holds: bool, n: int) -> int {
    if holds {
        n
    } else {
        0
    }
}

/// The flags of a CONNECT packet.
pub open spec fn hello_flags(h: Hello) -> u8 {
    (weight(h.clean_start, 2) + (match h.will {
        Some(will) => 4 + 8 * will.qos + weight(will.retain, 32),
        None => 0,
    }) + weight(h.password is Some, 64) + weight(h.username is Some, 128)) as u8
}

/// The will of a CONNECT packet, and the bytes behind it.
pub open spec fn will_bytes(h: Hello, rest: Seq<u8>) -> Seq<u8> {
    match h.will {
        Some(will) => {
            let behind = text(will.topic) + (block(will.payload) + rest);
            if h.version == ProtocolVersion::V5 {
                section(h.will_section) + behind
            } else {
                behind
            }
        },
        None => rest,
    }
}

/// The user name and the password of a CONNECT packet, and the bytes behind them.
pub open spec fn credential_bytes(h: Hello, rest: Seq<u8>) -> Seq<u8> {
    let behind = match h.password {
        Some(password) => block(password) + rest,
        None => rest,
    };
    match h.username {
        Some(name) => text(name) + behind,
        None => behind,
    }
}

/// The body of a CONNECT packet, and the bytes behind it.
pub open spec fn hello_bytes(h: Hello, rest: Seq<u8>) -> Seq<u8> {
    let payload = text(h.client_id) + will_bytes(h, credential_bytes(h, rest));
    let behind = two(h.keep_alive as nat) + (section_of(h.version, h.properties) + payload);
    name_and_level(h.version) + (seq![hello_flags(h)] + behind)
}

/// Whether a CONNECT packet can be written.
pub open spec fn hello_can_be_written(h: Hello) -> bool {
    &&& all_accepted(PropertyOwner::Connect, nothing(), h.properties)
    &&& properties_bytes(h.properties).len() <= greatest()
    &&& short(h.client_id)
    &&& h.will_section.len() <= greatest()
    &&& h.will matches Some(will) ==> short(will.topic) && will.payload.len() <= 65_535 && will.qos
        <= 3
    &&& h.username matches Some(name) ==> short(name)
    &&& h.password matches Some(password) ==> password.len() <= 65_535
}

/// The flags of a CONNECT packet are told apart.
pub proof fn lemma_hello_flags(h: Hello)
    requires
        hello_can_be_written(h),
    ensures
        ({
            let f = hello_flags(h);
            &&& (f & 0x02 != 0) == h.clean_start
            &&& (f & 0x04 == 0) == (h.will is None)
            &&& h.will matches Some(will) ==> (f & 0x18) >> 3 == will.qos && (f & 0x20 != 0)
                == will.retain
            &&& (f & 0x40 != 0) == (h.password is Some)
            &&& (f & 0x80 != 0) == (h.username is Some)
        }),
{
    let f = hello_flags(h);
    let clean: u8 = if h.clean_start {
        2u8
    } else {
        0u8
    };
    let (some, qos, keep): (u8, u8, u8) = match h.will {
        Some(will) => (
            4u8,
            will.qos,
            if will.retain {
                32u8
            } else {
                0u8
            },
        ),
        None => (0u8, 0u8, 0u8),
    };
    let password: u8 = if h.password is Some {
        64u8
    } else {
        0u8
    };
    let name: u8 = if h.username is Some {
        128u8
    } else {
        0u8
    };
    assert(f == clean + some + 8 * qos + keep + password + name);
    assert({
        &&& (f & 0x02 != 0) == (clean == 2)
        &&& (f & 0x04 == 0) == (some == 0)
        &&& (f & 0x18) >> 3 == qos
        &&& (f & 0x20 != 0) == (keep == 32)
        &&& (f & 0x40 != 0) == (password == 64)
        &&& (f & 0x80 != 0) == (name == 128)
    }) by (bit_vector)
        requires
            f == clean + some + 8 * qos + keep + password + name,
            clean == 0 || clean == 2,
            some == 0 || some == 4,
            qos <= 3,
            keep == 0 || keep == 32,
            password == 0 || password == 64,
            name == 0 || name == 128,
    ;
}

/// The name and the level of a revision are read as it.
pub proof fn lemma_name_and_level(version: ProtocolVersion, rest: Seq<u8>)
    ensures
        decode::take_version(name_and_level(version) + rest) == Ok::<
            (ProtocolVersion, Seq<u8>),
            ErrorView,
        >((version, rest)),
{
    reveal_strlit("MQTT");
    reveal_strlit("MQIsdp");
    let name = if version == ProtocolVersion::V31 {
        "MQIsdp"@
    } else {
        "MQTT"@
    };
    let level: u8 = match version {
        ProtocolVersion::V31 => 3u8,
        ProtocolVersion::V311 => 4u8,
        ProtocolVersion::V5 => 5u8,
    };
    vstd::utf8::is_ascii_chars_encode_utf8(name);
    let bytes = vstd::utf8::encode_utf8(name);
    assert forall|i: int| 0 <= i < name.len() implies bytes[i] == #[trigger] name[i] as u8 by {}
    if version == ProtocolVersion::V31 {
        assert(name =~= seq!['M', 'Q', 'I', 's', 'd', 'p']);
        assert(bytes =~= seq![0x4Du8, 0x51u8, 0x49u8, 0x73u8, 0x64u8, 0x70u8]);
    } else {
        assert(name =~= seq!['M', 'Q', 'T', 'T']);
        assert(bytes =~= seq![0x4Du8, 0x51u8, 0x54u8, 0x54u8]);
    }
    assert(name_and_level(version) + rest =~= text(name) + (seq![level] + rest));
    law_elements_are_read(0, Seq::empty(), name, seq![level] + rest);
    law_elements_are_read(level as nat, Seq::empty(), Seq::empty(), rest);
}

/// A CONNECT packet of the format is read as exactly what it says, whatever follows
/// it: name and level, flags, keep alive, in MQTT 5 the properties, the client's
/// name, and, as the flags announce them, the will, the user name and the password.
pub proof fn law_connect_is_read(
    h: Hello,
    flags: u8,
    version: Option<ProtocolVersion>,
    rest: Seq<u8>,
)
    requires
        hello_can_be_written(h),
    ensures
        decode::packet_of(0x10, flags, hello_bytes(h, rest), version) == Ok::<
            PacketView,
            ErrorView,
        >(
            PacketView::Connect {
                protocol: h.version,
                clean_start: h.clean_start,
                keep_alive: h.keep_alive,
                client_id: h.client_id,
                username: h.username,
                password: h.password,
                will: h.will,
                session_expiry_interval: if h.version == ProtocolVersion::V5 {
                    with_properties(
                        PropertyOwner::Connect,
                        nothing(),
                        h.properties,
                    ).session_expiry_interval
                } else {
                    None
                },
                maximum_packet_size: if h.version == ProtocolVersion::V5 {
                    with_properties(
                        PropertyOwner::Connect,
                        nothing(),
                        h.properties,
                    ).maximum_packet_size
                } else {
                    None
                },
            },
        ),
{
    let none = Seq::<u8>::empty();
    let blank = Seq::<char>::empty();
    let last = credential_bytes(h, rest);
    let wills = will_bytes(h, last);
    let payload = text(h.client_id) + wills;
    let middle = section_of(h.version, h.properties) + payload;
    let behind = two(h.keep_alive as nat) + middle;
    lemma_name_and_level(h.version, seq![hello_flags(h)] + behind);
    lemma_hello_flags(h);
    law_elements_are_read(hello_flags(h) as nat, none, blank, behind);
    law_elements_are_read(h.keep_alive as nat, none, blank, middle);
    if h.version == ProtocolVersion::V5 {
        law_property_sections_are_read(PropertyOwner::Connect, h.properties, payload);
    } else {
        assert(middle =~= payload);
        assert(properties::no_properties() =~= nothing());
    }
    law_elements_are_read(0, none, h.client_id, wills);
    lemma_will_is_read(h, last);
    lemma_credentials_are_read(h, rest);
}

proof fn lemma_will_is_read(h: Hello, rest: Seq<u8>)
    requires
        hello_can_be_written(h),
    ensures
        decode::take_will_if(hello_flags(h), h.version, will_bytes(h, rest)) == Ok::<
            (Option<WillView>, Seq<u8>),
            ErrorView,
        >((h.will, rest)),
{
    lemma_hello_flags(h);
    if let Some(will) = h.will {
        let behind = text(will.topic) + (block(will.payload) + rest);
        lemma_section_is_skipped(h.will_section, behind);
        law_elements_are_read(0, Seq::empty(), will.topic, block(will.payload) + rest);
        law_elements_are_read(0, will.payload, Seq::empty(), rest);
    }
}

proof fn lemma_credentials_are_read(h: Hello, rest: Seq<u8>)
    requires
        hello_can_be_written(h),
    ensures
        ({
            let behind = match h.password {
                Some(password) => block(password) + rest,
                None => rest,
            };
            &&& decode::take_text_if(
                hello_flags(h) & 0x80 != 0,
                credential_bytes(h, rest),
            ) == Ok::<(Option<Seq<char>>, Seq<u8>), ErrorView>((h.username, behind))
            &&& decode::take_counted_if(hello_flags(h) & 0x40 != 0, behind) == Ok::<
                (Option<Seq<u8>>, Seq<u8>),
                ErrorView,
            >((h.password, rest))
        }),
{
    lemma_hello_flags(h);
    let behind = match h.password {
        Some(password) => block(password) + rest,
        None => rest,
    };
    if let Some(name) = h.username {
        law_elements_are_read(0, Seq::empty(), name, behind);
    }
    if let Some(password) = h.password {
        law_elements_are_read(0, password, Seq::empty(), rest);
    }
}

// PUBLISH, DISCONNECT and the packets of two bytes.

proof fn lemma_joined(a: Seq<u8>, b: Seq<u8>, c: Seq<u8>, d: Seq<u8>)
    ensures
        a + b + c + d == a + (b + (c + d)),
{
    assert(a + b + c + d =~= a + (b + (c + d)));
}

proof fn lemma_publish_flags(dup: bool, qos: u8, retain: bool)
    requires
        qos <= 2,
    ensures
        ({
            let f = (weight(dup, 8) + 2 * qos + weight(retain, 1)) as u8;
            &&& (f & 0x06) >> 1 == qos
            &&& (f & 0x08 != 0) == dup
            &&& (f & 0x01 != 0) == retain
        }),
{
    let d: u8 = if dup {
        8u8
    } else {
        0u8
    };
    let r: u8 = if retain {
        1u8
    } else {
        0u8
    };
    let f: u8 = (weight(dup, 8) + 2 * qos + weight(retain, 1)) as u8;
    assert(f == d + 2 * qos + r);
    assert({
        &&& (f & 0x06) >> 1 == qos
        &&& (f & 0x08 != 0) == (d == 8)
        &&& (f & 0x01 != 0) == (r == 1)
    }) by (bit_vector)
        requires
            f == d + 2 * qos + r,
            qos <= 2,
            d == 0 || d == 8,
            r == 0 || r == 1,
    ;
}

/// A PUBLISH packet of the format is read as exactly the message that it carries:
/// the topic, above QoS 0 the packet identifier, in MQTT 5 the properties, and the
/// payload behind them. Of its flags the duplicate flag counts eight, QoS twice,
/// and the retain flag once.
pub proof fn law_publish_is_read(
    version: ProtocolVersion,
    dup: bool,
    qos: u8,
    retain: bool,
    name: Seq<char>,
    packet_id: u16,
    list: Seq<Property>,
    payload: Seq<u8>,
)
    requires
        qos <= 2,
        packet_id > 0,
        short(name),
        all_accepted(PropertyOwner::Publish, nothing(), list),
        properties_bytes(list).len() <= greatest(),
    ensures
        ({
            let kept = if version == ProtocolVersion::V5 {
                with_properties(PropertyOwner::Publish, nothing(), list)
            } else {
                nothing()
            };
            decode::packet_of(
                0x30,
                (weight(dup, 8) + 2 * qos + weight(retain, 1)) as u8,
                text(name) + (if qos > 0 {
                    two(packet_id as nat)
                } else {
                    Seq::empty()
                }) + section_of(version, list) + payload,
                Some(version),
            ) == Ok::<PacketView, ErrorView>(
                PacketView::Publish(
                    PublicationView {
                        topic: name,
                        payload,
                        qos,
                        retain,
                        packet_id: if qos > 0 {
                            Some(packet_id)
                        } else {
                            None
                        },
                        dup,
                        topic_alias: kept.topic_alias,
                        payload_format_indicator: kept.payload_format_indicator,
                        response_topic: kept.response_topic,
                        correlation_data: kept.correlation_data,
                        subscription_identifiers: kept.subscription_identifiers,
                    },
                ),
            )
        }),
{
    lemma_publish_flags(dup, qos, retain);
    let id = if qos > 0 {
        two(packet_id as nat)
    } else {
        Seq::empty()
    };
    let r2 = section_of(version, list) + payload;
    let r1 = id + r2;
    lemma_joined(text(name), id, section_of(version, list), payload);
    law_elements_are_read(0, Seq::empty(), name, r1);
    law_elements_are_read(packet_id as nat, Seq::empty(), Seq::empty(), r2);
    assert(qos == 0 ==> r1 =~= r2);
    if version == ProtocolVersion::V5 {
        law_property_sections_are_read(PropertyOwner::Publish, list, payload);
    } else {
        assert(r2 =~= payload);
    }
    assert(properties::no_properties() =~= nothing());
}

/// A DISCONNECT packet of MQTT 5 is read as its reason code and its session expiry
/// interval. One of an older revision, and an empty one, says nothing.
pub proof fn law_disconnect_is_read(
    version: ProtocolVersion,
    flags: u8,
    reason_code: u8,
    list: Seq<Property>,
    rest: Seq<u8>,
    body: Seq<u8>,
)
    requires
        all_accepted(PropertyOwner::Disconnect, nothing(), list),
        properties_bytes(list).len() <= greatest(),
    ensures
        decode::packet_of(
            0xE0,
            flags,
            seq![reason_code] + section(properties_bytes(list)) + rest,
            Some(ProtocolVersion::V5),
        ) == Ok::<PacketView, ErrorView>(
            PacketView::Disconnect {
                reason_code: Some(reason_code),
                session_expiry_interval: with_properties(
                    PropertyOwner::Disconnect,
                    nothing(),
                    list,
                ).session_expiry_interval,
            },
        ),
        decode::packet_of(0xE0, flags, seq![reason_code], Some(ProtocolVersion::V5)) == Ok::<
            PacketView,
            ErrorView,
        >(
            PacketView::Disconnect {
                reason_code: Some(reason_code),
                session_expiry_interval: None,
            },
        ),
        version != ProtocolVersion::V5 || body.len() == 0 ==> decode::packet_of(
            0xE0,
            flags,
            body,
            Some(version),
        ) == Ok::<PacketView, ErrorView>(
            PacketView::Disconnect { reason_code: None, session_expiry_interval: None },
        ),
{
    let tail = section(properties_bytes(list)) + rest;
    let whole = seq![reason_code] + section(properties_bytes(list)) + rest;
    assert(whole =~= seq![reason_code] + tail);
    assert(whole.skip(1) =~= tail);
    law_property_sections_are_read(PropertyOwner::Disconnect, list, rest);
    assert(groups(properties_bytes(list).len()).len() > 0);
}

/// PUBACK, PUBREC, PUBREL and PUBCOMP are read as their packet identifier, whatever
/// follows it, and PINGREQ as itself.
pub proof fn law_short_packets_are_read(
    flags: u8,
    packet_id: u16,
    rest: Seq<u8>,
    version: Option<ProtocolVersion>,
)
    requires
        packet_id > 0,
    ensures
        ({
            let body = two(packet_id as nat) + rest;
            &&& decode::packet_of(0x40, flags, body, version) == Ok::<PacketView, ErrorView>(
                PacketView::PubAck { packet_id },
            )
            &&& decode::packet_of(0x50, flags, body, version) == Ok::<PacketView, ErrorView>(
                PacketView::PubRec { packet_id },
            )
            &&& decode::packet_of(0x60, flags, body, version) == Ok::<PacketView, ErrorView>(
                PacketView::PubRel { packet_id },
            )
            &&& decode::packet_of(0x70, flags, body, version) == Ok::<PacketView, ErrorView>(
                PacketView::PubComp { packet_id },
            )
            &&& decode::packet_of(0xC0, flags, rest, version) == Ok::<PacketView, ErrorView>(
                PacketView::PingReq,
            )
        }),
{
    law_elements_are_read(packet_id as nat, Seq::empty(), Seq::empty(), rest);
}

// Packets that the broker writes.

/// A whole packet: the first byte, the number of bytes that follow, and these.
pub open spec fn whole(first: int, body: Seq<u8>) -> Seq<u8> {
    seq![first as u8] + groups(body.len()) + body
}

proof fn lemma_whole(command: u8, flags: u8, first: int, body: Seq<u8>)
    requires
        command | flags == first,
        body.len() <= 0xFFFF_FFFF,
    ensures
        encode::frame_bytes(command, flags, body) == whole(first, body),
{
    lemma_groups(body.len());
    assert(body.len() % 0x1_0000_0000 == body.len());
    assert(encode::frame_bytes(command, flags, body) =~= whole(first, body));
}

/// The acknowledgements, PINGRESP and DISCONNECT that the broker writes, byte by
/// byte.
pub proof fn law_short_packets_are_written(packet_id: u16, reason_code: u8)
    ensures
        ({
            let id = two(packet_id as nat);
            &&& encode::frame_bytes(0x40, 0, wire::be16(packet_id)) == whole(0x40, id)
            &&& encode::frame_bytes(0x50, 0, wire::be16(packet_id)) == whole(0x50, id)
            &&& encode::frame_bytes(0x60, 0x02, wire::be16(packet_id)) == whole(0x62, id)
            &&& encode::frame_bytes(0x70, 0, wire::be16(packet_id)) == whole(0x70, id)
            &&& encode::frame_bytes(0xD0, 0, Seq::empty()) == whole(0xD0, Seq::empty())
            &&& encode::frame_bytes(
                0xE0,
                0,
                encode::disconnect_body(ProtocolVersion::V5, reason_code),
            ) == whole(0xE0, seq![reason_code])
            &&& encode::ack_body(ProtocolVersion::V5, packet_id, reason_code) == id + seq![
                reason_code,
            ]
            &&& encode::ack_body(ProtocolVersion::V311, packet_id, reason_code) == id
            &&& encode::ack_body(ProtocolVersion::V31, packet_id, reason_code) == id
        }),
{
    lemma_two(packet_id as nat);
    let id = two(packet_id as nat);
    assert(0x40u8 | 0u8 == 0x40u8) by (bit_vector);
    assert(0x50u8 | 0u8 == 0x50u8) by (bit_vector);
    assert(0x60u8 | 0x02u8 == 0x62u8) by (bit_vector);
    assert(0x70u8 | 0u8 == 0x70u8) by (bit_vector);
    assert(0xD0u8 | 0u8 == 0xD0u8) by (bit_vector);
    assert(0xE0u8 | 0u8 == 0xE0u8) by (bit_vector);
    lemma_whole(0x40, 0, 0x40, id);
    lemma_whole(0x50, 0, 0x50, id);
    lemma_whole(0x60, 0x02, 0x62, id);
    lemma_whole(0x70, 0, 0x70, id);
    lemma_whole(0xD0, 0, 0xD0, Seq::empty());
    lemma_whole(0xE0, 0, 0xE0, seq![reason_code]);
    assert(id.push(reason_code) =~= id + seq![reason_code]);
}

/// The number of each kind of packet.
pub proof fn law_packet_numbers()
    ensures
        crate::packet::CMD_CONNECT == 0x10,
        crate::packet::CMD_CONNACK == 0x20,
        crate::packet::CMD_PUBLISH == 0x30,
        crate::packet::CMD_PUBACK == 0x40,
        crate::packet::CMD_PUBREC == 0x50,
        crate::packet::CMD_PUBREL == 0x60,
        crate::packet::CMD_PUBCOMP == 0x70,
        crate::packet::CMD_SUBSCRIBE == 0x80,
        crate::packet::CMD_SUBACK == 0x90,
        crate::packet::CMD_UNSUBSCRIBE == 0xA0,
        crate::packet::CMD_UNSUBACK == 0xB0,
        crate::packet::CMD_PINGREQ == 0xC0,
        crate::packet::CMD_PINGRESP == 0xD0,
        crate::packet::CMD_DISCONNECT == 0xE0,
{
}

/// The properties that the broker tells a client that it accepts: the keep alive
/// and the client's name where it has set them, at most 10 topic aliases, that it
/// does not retain where that is so, the greatest packet, and at most 20 messages
/// at once.
pub open spec fn welcome_properties(options: ConnackOptions<'_>) -> Seq<u8> {
    (match options.server_keep_alive {
        Some(seconds) => seq![0x13u8] + two(seconds as nat),
        None => Seq::empty(),
    }) + seq![0x22u8] + two(10) + (match options.assigned_client_id {
        Some(name) => seq![0x12u8] + text(name@),
        None => Seq::empty(),
    }) + (if options.retain_available {
        Seq::empty()
    } else {
        seq![0x25u8, 0u8]
    }) + seq![0x27u8] + four(options.maximum_packet_size as nat) + seq![0x21u8] + two(20)
}

/// CONNACK, byte by byte: whether a session is resumed, the reason code, and in
/// MQTT 5 the properties, which are empty where the client is not accepted.
pub proof fn law_connack_is_written(
    version: ProtocolVersion,
    session_present: bool,
    reason_code: u8,
    options: ConnackOptions<'_>,
)
    requires
        options.assigned_client_id matches Some(name) ==> short(name@),
    ensures
        encode::connack_bytes(version, session_present, reason_code, options) == whole(
            0x20,
            seq![weight(session_present, 1) as u8, reason_code] + (if version
                != ProtocolVersion::V5 {
                Seq::empty()
            } else if reason_code == 0 {
                section(welcome_properties(options))
            } else {
                seq![0u8]
            }),
        ),
{
    if let Some(seconds) = options.server_keep_alive {
        lemma_two(seconds as nat);
    }
    lemma_two(10);
    lemma_two(20);
    lemma_four(options.maximum_packet_size as nat);
    if let Some(name) = options.assigned_client_id {
        lemma_block(vstd::utf8::encode_utf8(name@));
    }
    let values = welcome_properties(options);
    assert(encode::connack_properties(options) =~= values);
    assert(values.len() <= 70_000);
    lemma_groups(values.len());
    assert(encode::property_section(values) =~= section(values));
    let body = encode::connack_body(version, session_present, reason_code, options);
    lemma_groups_short(values.len());
    assert(0x20u8 | 0u8 == 0x20u8) by (bit_vector);
    lemma_whole(0x20, 0, 0x20, body);
}

proof fn lemma_groups_short(n: nat)
    requires
        n <= 0xFFFF_FFFF,
    ensures
        groups(n).len() <= 5,
{
    reveal_with_fuel(groups, 6);
}

/// SUBACK and UNSUBACK, byte by byte: the packet identifier, in MQTT 5 an empty
/// property section, and the reason codes, which UNSUBACK has only in MQTT 5, all
/// of success.
pub proof fn law_subscription_answers_are_written(
    version: ProtocolVersion,
    packet_id: u16,
    codes: Seq<u8>,
    count: nat,
)
    requires
        codes.len() <= 0x1000_0000,
        count <= 0x1000_0000,
    ensures
        ({
            let id = two(packet_id as nat);
            let empty = if version == ProtocolVersion::V5 {
                seq![0u8]
            } else {
                Seq::empty()
            };
            &&& encode::frame_bytes(
                0x90,
                0,
                wire::be16(packet_id) + encode::no_properties_of(version) + codes,
            ) == whole(0x90, id + empty + codes)
            &&& encode::frame_bytes(
                0xB0,
                0,
                wire::be16(packet_id) + encode::no_properties_of(version) + encode::unsuback_codes(
                    version,
                    count,
                ),
            ) == whole(
                0xB0,
                id + empty + if version == ProtocolVersion::V5 {
                    Seq::new(count, |i: int| 0u8)
                } else {
                    Seq::empty()
                },
            )
        }),
{
    lemma_two(packet_id as nat);
    let empty = if version == ProtocolVersion::V5 {
        seq![0u8]
    } else {
        Seq::empty()
    };
    let zeros = if version == ProtocolVersion::V5 {
        Seq::new(count, |i: int| 0u8)
    } else {
        Seq::empty()
    };
    let a = two(packet_id as nat) + empty + codes;
    let b = two(packet_id as nat) + empty + zeros;
    assert(wire::be16(packet_id) + encode::no_properties_of(version) + codes =~= a);
    assert(wire::be16(packet_id) + encode::no_properties_of(version) + encode::unsuback_codes(
        version,
        count,
    ) =~= b);
    assert(0x90u8 | 0u8 == 0x90u8) by (bit_vector);
    assert(0xB0u8 | 0u8 == 0xB0u8) by (bit_vector);
    lemma_whole(0x90, 0, 0x90, a);
    lemma_whole(0xB0, 0, 0xB0, b);
}

/// The properties of a message that is written to an MQTT 5 client.
pub open spec fn message_properties(p: PublicationView) -> Seq<Property> {
    (match p.payload_format_indicator {
        Some(n) => seq![Property { id: 0x01, value: Value::Byte(n) }],
        None => Seq::empty(),
    }) + (match p.response_topic {
        Some(t) => seq![Property { id: 0x08, value: Value::Bytes(vstd::utf8::encode_utf8(t)) }],
        None => Seq::empty(),
    }) + (match p.correlation_data {
        Some(b) => seq![Property { id: 0x09, value: Value::Bytes(b) }],
        None => Seq::empty(),
    }) + p.subscription_identifiers.map_values(
        |n: u32| Property { id: 0x0B, value: Value::Number(n) },
    )
}

proof fn lemma_properties_split(a: Seq<Property>, b: Seq<Property>)
    ensures
        properties_bytes(a + b) == properties_bytes(a) + properties_bytes(b),
    decreases a.len(),
{
    if a.len() == 0 {
        assert(a + b =~= b);
        assert(properties_bytes(a) + properties_bytes(b) =~= properties_bytes(b));
    } else {
        lemma_properties_split(a.skip(1), b);
        assert((a + b).skip(1) =~= a.skip(1) + b);
        assert(properties_bytes(a + b) =~= properties_bytes(a) + properties_bytes(b));
    }
}

proof fn lemma_one_property(p: Property)
    ensures
        properties_bytes(seq![p]) == property_bytes(p),
{
    assert(seq![p].skip(1) =~= Seq::empty());
    reveal_with_fuel(properties_bytes, 2);
    assert(properties_bytes(seq![p]) =~= property_bytes(p));
}

proof fn lemma_identifiers_written(list: Seq<u32>)
    ensures
        encode::identifier_properties(list) == properties_bytes(
            list.map_values(|n: u32| Property { id: 0x0B, value: Value::Number(n) }),
        ),
    decreases list.len(),
{
    let f = |n: u32| Property { id: 0x0B, value: Value::Number(n) };
    if list.len() > 0 {
        lemma_identifiers_written(list.drop_first());
        lemma_groups(list[0] as nat);
        assert(list.map_values(f).skip(1) =~= list.drop_first().map_values(f));
        assert(encode::identifier_properties(list) =~= properties_bytes(list.map_values(f)));
    }
}

/// PUBLISH, byte by byte: the flags, the topic, above QoS 0 the packet identifier,
/// in MQTT 5 the properties in ascending order of their numbers, and the payload.
pub proof fn law_publish_is_written(version: ProtocolVersion, p: PublicationView)
    requires
        p.qos <= 2,
        short(p.topic),
        p.response_topic matches Some(t) ==> short(t),
        p.correlation_data matches Some(b) ==> b.len() <= 65_535,
        properties_bytes(message_properties(p)).len() <= greatest(),
        p.payload.len() <= greatest(),
    ensures
        encode::publish_bytes(version, p) == whole(
            0x30 + weight(p.dup, 8) + 2 * p.qos + weight(p.retain, 1),
            text(p.topic) + (if p.qos > 0 {
                two(p.packet_id->0 as nat)
            } else {
                Seq::empty()
            }) + section_of(version, message_properties(p)) + p.payload,
        ),
{
    let a = match p.payload_format_indicator {
        Some(n) => seq![Property { id: 0x01, value: Value::Byte(n) }],
        None => Seq::empty(),
    };
    let b = match p.response_topic {
        Some(t) => seq![Property { id: 0x08, value: Value::Bytes(vstd::utf8::encode_utf8(t)) }],
        None => Seq::empty(),
    };
    let c = match p.correlation_data {
        Some(bytes) => seq![Property { id: 0x09, value: Value::Bytes(bytes) }],
        None => Seq::empty(),
    };
    let d = p.subscription_identifiers.map_values(
        |n: u32| Property { id: 0x0B, value: Value::Number(n) },
    );
    lemma_properties_split(a + b + c, d);
    lemma_properties_split(a + b, c);
    lemma_properties_split(a, b);
    if let Some(n) = p.payload_format_indicator {
        lemma_one_property(a[0]);
        assert(property_bytes(a[0]) =~= encode::payload_format_property(Some(n)));
    }
    if let Some(t) = p.response_topic {
        lemma_one_property(b[0]);
        lemma_block(vstd::utf8::encode_utf8(t));
        assert(property_bytes(b[0]) =~= encode::response_topic_property(Some(t)));
    }
    if let Some(bytes) = p.correlation_data {
        lemma_one_property(c[0]);
        lemma_block(bytes);
        assert(property_bytes(c[0]) =~= encode::correlation_property(Some(bytes)));
    }
    lemma_identifiers_written(p.subscription_identifiers);
    let values = properties_bytes(message_properties(p));
    assert(encode::publish_properties(p) =~= values);
    lemma_groups(values.len());
    lemma_groups_short(values.len());
    assert(encode::property_section(values) =~= section(values));
    lemma_block(vstd::utf8::encode_utf8(p.topic));
    lemma_two(p.packet_id->0 as nat);
    let body = text(p.topic) + (if p.qos > 0 {
        two(p.packet_id->0 as nat)
    } else {
        Seq::empty()
    }) + section_of(version, message_properties(p)) + p.payload;
    assert(encode::publish_body(version, p) =~= body);
    let dup: u8 = if p.dup {
        8u8
    } else {
        0u8
    };
    let retain: u8 = if p.retain {
        1u8
    } else {
        0u8
    };
    let qos = p.qos;
    let first: u8 = (0x30 + dup + 2 * qos + retain) as u8;
    assert(0x30u8 | (dup | ((qos & 0x03) << 1) | retain) == first) by (bit_vector)
        requires
            first == 0x30 + dup + 2 * qos + retain,
            qos <= 2,
            dup == 0 || dup == 8,
            retain == 0 || retain == 1,
    ;
    lemma_whole(0x30, encode::publish_flags(p), first as int, body);
}

} // verus!
