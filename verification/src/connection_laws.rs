//! What the packets of a client do to the broker, and what the client is answered,
//! packet by packet.

use vstd::prelude::*;

use crate::broker_laws;
use crate::connection;
use crate::connection::{ActionView, ConnectionView, Next, OpeningView, StepView};
use crate::decode;
use crate::encode;
use crate::format_laws;
use crate::model;
use crate::model::BrokerView;
use crate::packet::{
    ConnackOptions, ErrorView, FrameView, PacketView, ProtocolVersion, PublicationView, RequestView,
    WillView,
};
use crate::scan;
use crate::settings::SettingsView;

verus! {

/// The last step of a connection that the broker ends: DISCONNECT with a reason for
/// an MQTT 5 client, and nothing for others.
pub open spec fn farewell(protocol: ProtocolVersion, reason_code: u8) -> StepView {
    StepView {
        actions: if protocol == ProtocolVersion::V5 {
            seq![ActionView::Send(format_laws::whole(0xE0, seq![reason_code]))]
        } else {
            Seq::empty()
        },
        next: Next::Lost,
    }
}

/// A packet of a packet identifier alone.
pub open spec fn numbered(first: int, packet_id: u16) -> ActionView {
    ActionView::Send(format_laws::whole(first, format_laws::two(packet_id as nat)))
}

/// The connection goes on after actions.
pub open spec fn goes_on(actions: Seq<ActionView>) -> StepView {
    StepView { actions, next: Next::Read }
}

proof fn lemma_packets(protocol: ProtocolVersion, packet_id: u16, reason_code: u8)
    ensures
        connection::refused(protocol, reason_code) == farewell(protocol, reason_code),
        ActionView::Send(connection::ack_bytes(0x40, packet_id)) == numbered(0x40, packet_id),
        ActionView::Send(connection::ack_bytes(0x50, packet_id)) == numbered(0x50, packet_id),
        ActionView::Send(connection::ack_bytes(0x70, packet_id)) == numbered(0x70, packet_id),
        ActionView::Send(connection::pubrel_bytes(packet_id)) == numbered(0x62, packet_id),
{
    format_laws::law_short_packets_are_written(packet_id, reason_code);
}

/// Whether a message says where it goes: by its topic, or by an alias that stands
/// for one.
pub open spec fn has_a_topic(c: ConnectionView, p: PublicationView) -> bool {
    p.topic.len() > 0 || (p.topic_alias matches Some(alias) && c.topic_aliases.contains_key(alias))
}

/// A message with the topic that it goes to.
pub open spec fn with_its_topic(c: ConnectionView, p: PublicationView) -> PublicationView {
    PublicationView {
        topic: if p.topic.len() > 0 {
            p.topic
        } else {
            c.topic_aliases[p.topic_alias->0]
        },
        ..p
    }
}

/// What a client publishes is published in its name, with the topic that its alias
/// stands for where it has none, and unchanged in all else; QoS 2 is held first. The
/// client is answered PUBACK or PUBREC behind the messages to others. A message
/// that may not be retained, that has no topic, or that is not accepted ends the
/// connection, with a reason for each.
pub proof fn law_publish_packets(
    c: ConnectionView,
    b: BrokerView,
    p: PublicationView,
    now: u128,
)
    requires
        p.qos <= 2,
        p.packet_id is Some <==> p.qos > 0,
    ensures
        ({
            let (c2, b2, step) = connection::packet_taken(c, b, PacketView::Publish(p), now);
            let message = with_its_topic(c, p);
            let id = p.packet_id->0;
            &&& c2.protocol == c.protocol
            &&& c2.client_id == c.client_id
            &&& c2.retain_available == c.retain_available
            &&& p.retain && !c.retain_available ==> c2 == c && b2 == b && step == farewell(
                c.protocol,
                0x9A,
            )
            &&& (!p.retain || c.retain_available) && !has_a_topic(c, p) ==> c2 == c && b2 == b
                && step == farewell(c.protocol, 0x81)
            &&& (!p.retain || c.retain_available) && has_a_topic(c, p) ==> {
                &&& p.topic.len() > 0 && p.topic_alias is Some ==> c2.topic_aliases
                    == c.topic_aliases.insert(p.topic_alias->0, p.topic)
                &&& p.topic.len() == 0 || p.topic_alias is None ==> c2 == c
                &&& p.qos == 2 ==> {
                    let (held, result) = model::held(b, c.client_id, message);
                    &&& b2 == held
                    &&& step == if result.accepted {
                        goes_on(seq![numbered(0x50, id)])
                    } else {
                        farewell(c.protocol, 0x81)
                    }
                }
                &&& p.qos < 2 ==> {
                    let (sent, result) = model::published(b, c.client_id, message);
                    &&& b2 == sent
                    &&& step == if !result.accepted {
                        farewell(c.protocol, 0x81)
                    } else if p.qos == 1 {
                        goes_on(
                            seq![ActionView::Deliver(result.deliveries), numbered(0x40, id)],
                        )
                    } else {
                        goes_on(seq![ActionView::Deliver(result.deliveries)])
                    }
                }
            }
        }),
{
    lemma_packets(c.protocol, p.packet_id->0, 0x9A);
    lemma_packets(c.protocol, p.packet_id->0, 0x81);
    let (_, _, step) = connection::packet_taken(c, b, PacketView::Publish(p), now);
    let message = with_its_topic(c, p);
    let (_, result) = model::published(b, c.client_id, message);
    assert(message =~= p || p.topic.len() == 0);
    if p.qos == 1 && step.next == Next::Read {
        assert(step.actions =~= seq![
            ActionView::Deliver(result.deliveries),
            numbered(0x40, p.packet_id->0),
        ]);
    }
}

/// PUBREL releases the message that is held for the client, and is answered PUBCOMP
/// behind the messages to others, also where nothing is held.
pub proof fn law_pubrel_packets(c: ConnectionView, b: BrokerView, packet_id: u16, now: u128)
    ensures
        ({
            let (after, result) = model::released(b, c.client_id, packet_id);
            connection::packet_taken(c, b, PacketView::PubRel { packet_id }, now) == (
                c,
                after,
                match result {
                    None => goes_on(seq![numbered(0x70, packet_id)]),
                    Some(r) => if r.accepted {
                        goes_on(
                            seq![ActionView::Deliver(r.deliveries), numbered(0x70, packet_id)],
                        )
                    } else {
                        farewell(c.protocol, 0x81)
                    },
                },
            )
        }),
{
    lemma_packets(c.protocol, packet_id, 0x81);
}

/// An acknowledgement is taken without an answer, but for PUBREC of a message that
/// waits for it, which is answered PUBREL. One for a message of another QoS ends
/// the connection.
pub proof fn law_acknowledgement_packets(
    c: ConnectionView,
    b: BrokerView,
    packet_id: u16,
    now: u128,
)
    ensures
        ({
            let known = b.clients.contains_key(c.client_id);
            let s = b.clients[c.client_id];
            let first = known && s.inflight_qos1.contains_key(packet_id);
            let second = known && s.inflight_qos2.contains_key(packet_id);
            let mistake = (c, b, farewell(c.protocol, 0x82));
            &&& connection::packet_taken(c, b, PacketView::PubAck { packet_id }, now) == if second {
                mistake
            } else {
                (c, model::acknowledged(b, c.client_id, packet_id), goes_on(Seq::empty()))
            }
            &&& connection::packet_taken(c, b, PacketView::PubRec { packet_id }, now) == if first {
                mistake
            } else if second {
                (
                    c,
                    model::received(b, c.client_id, packet_id),
                    goes_on(seq![numbered(0x62, packet_id)]),
                )
            } else {
                (c, b, goes_on(Seq::empty()))
            }
            &&& connection::packet_taken(c, b, PacketView::PubComp { packet_id }, now) == if first {
                mistake
            } else {
                (c, model::completed(b, c.client_id, packet_id), goes_on(Seq::empty()))
            }
        }),
{
    lemma_packets(c.protocol, packet_id, 0x82);
}

/// SUBSCRIBE is answered SUBACK with a reason code for each request, and the retained
/// messages follow it. Where a request is refused, the connection ends.
pub proof fn law_subscribe_packets(
    c: ConnectionView,
    b: BrokerView,
    packet_id: u16,
    filters: Seq<RequestView>,
    now: u128,
)
    requires
        filters.len() <= 0x1000_0000,
    ensures
        ({
            let (after, result) = model::subscribing(b, c.client_id, filters);
            let body = format_laws::two(packet_id as nat) + (if c.protocol == ProtocolVersion::V5 {
                seq![0u8]
            } else {
                Seq::empty()
            }) + result.reason_codes;
            connection::packet_taken(c, b, PacketView::Subscribe { packet_id, filters }, now) == (
                c,
                after,
                if result.reason_codes.contains(0x80) {
                    farewell(c.protocol, 0x81)
                } else {
                    goes_on(
                        seq![
                            ActionView::Send(format_laws::whole(0x90, body)),
                            ActionView::Deliver(result.retained),
                        ],
                    )
                },
            )
        }),
{
    lemma_packets(c.protocol, packet_id, 0x81);
    broker_laws::law_one_reason_code_for_each_request(
        b.clients[c.client_id].subscriptions,
        b.next_subscription_order,
        filters,
    );
    let (_, result) = model::subscribing(b, c.client_id, filters);
    format_laws::law_subscription_answers_are_written(
        c.protocol,
        packet_id,
        result.reason_codes,
        0,
    );
}

/// UNSUBSCRIBE is answered UNSUBACK, with a reason code of success for each filter in
/// MQTT 5; PINGREQ is answered PINGRESP and changes nothing.
pub proof fn law_unsubscribe_and_ping_packets(
    c: ConnectionView,
    b: BrokerView,
    packet_id: u16,
    filters: Seq<Seq<char>>,
    now: u128,
)
    requires
        filters.len() <= 0x1000_0000,
    ensures
        ({
            let body = format_laws::two(packet_id as nat) + (if c.protocol == ProtocolVersion::V5 {
                seq![0u8] + Seq::new(filters.len(), |i: int| 0u8)
            } else {
                Seq::empty()
            });
            &&& connection::packet_taken(
                c,
                b,
                PacketView::Unsubscribe { packet_id, filters },
                now,
            ) == (
                c,
                model::unsubscribing(b, c.client_id, filters),
                goes_on(seq![ActionView::Send(format_laws::whole(0xB0, body))]),
            )
            &&& connection::packet_taken(c, b, PacketView::PingReq, now) == (
                c,
                b,
                goes_on(seq![ActionView::Send(seq![0xD0u8, 0u8])]),
            )
        }),
{
    format_laws::law_subscription_answers_are_written(
        c.protocol,
        packet_id,
        Seq::empty(),
        filters.len(),
    );
    format_laws::law_short_packets_are_written(packet_id, 0);
    let zeros = Seq::new(filters.len(), |i: int| 0u8);
    let id = format_laws::two(packet_id as nat);
    assert(id + seq![0u8] + zeros =~= id + (seq![0u8] + zeros));
    assert(id + Seq::<u8>::empty() + Seq::<u8>::empty() =~= id + Seq::<u8>::empty());
    assert(format_laws::whole(0xD0, Seq::empty()) =~= seq![0xD0u8, 0u8]);
}

/// A client that says goodbye leaves at once, with the session expiry interval that
/// it gives then; one that is lost leaves as it came; and a second CONNECT changes
/// nothing and ends the connection without a word.
pub proof fn law_last_packets(
    c: ConnectionView,
    b: BrokerView,
    packet: PacketView,
    now: u128,
)
    ensures
        packet matches PacketView::Disconnect { reason_code, session_expiry_interval } ==> {
            let (after, deliveries) = model::disconnected(
                b,
                c.client_id,
                true,
                session_expiry_interval,
                now,
            );
            connection::packet_taken(c, b, packet, now) == (
                c,
                after,
                StepView { actions: seq![ActionView::Deliver(deliveries)], next: Next::Gone },
            )
        },
        packet is Connect ==> connection::packet_taken(c, b, packet, now) == (
            c,
            b,
            StepView { actions: Seq::empty(), next: Next::Lost },
        ),
        connection::lost(c, b, now) == model::disconnected(b, c.client_id, false, None, now),
{
}

/// A frame is read by the revision of the connection. One that cannot be read changes
/// nothing and ends the connection.
pub proof fn law_frames(c: ConnectionView, b: BrokerView, frame: FrameView, now: u128)
    ensures
        match decode::packet_of(frame.command, frame.flags, frame.body, Some(c.protocol)) {
            Ok(packet) => connection::frame_taken(c, b, frame, now) == connection::packet_taken(
                c,
                b,
                packet,
                now,
            ),
            Err(_) => connection::frame_taken(c, b, frame, now) == (
                c,
                b,
                farewell(c.protocol, 0x81),
            ),
        },
{
    lemma_packets(c.protocol, 0, 0x81);
}

/// A client that connects is put online under its name, or under a name made of
/// "auto-" and a number where it has none. Its session outlives the connection for
/// as long as it says in MQTT 5, and by default not at all; in older revisions for
/// ever, or not at all after a clean start. It is answered CONNACK, and then sent
/// what is sent again or was queued, and PUBREL for what it has received. A client
/// without a user name is turned away where the broker asks for one.
pub proof fn law_connect_packets(
    b: BrokerView,
    settings: SettingsView,
    protocol: ProtocolVersion,
    clean_start: bool,
    keep_alive: u16,
    client_id: Seq<char>,
    username: Option<Seq<char>>,
    password: Option<Seq<u8>>,
    will: Option<WillView>,
    session_expiry_interval: Option<u32>,
    maximum_packet_size: Option<u32>,
    unique: nat,
    now: u128,
)
    ensures
        ({
            let packet = PacketView::Connect {
                protocol,
                clean_start,
                keep_alive,
                client_id,
                username,
                password,
                will,
                session_expiry_interval,
                maximum_packet_size,
            };
            let after = connection::opened(b, settings, Ok(packet), unique, now);
            let id = if client_id.len() > 0 {
                client_id
            } else {
                seq!['a', 'u', 't', 'o', '-'] + scan::decimal(unique)
            };
            let interval: u32 = match (protocol, session_expiry_interval) {
                (ProtocolVersion::V5, Some(n)) => n,
                (ProtocolVersion::V5, None) => 0,
                _ => if clean_start {
                    0
                } else {
                    0xFFFF_FFFF
                },
            };
            let (online, result) = model::connected(b, id, clean_start, will, interval, now);
            let values = format_laws::welcome_properties(
                ConnackOptions {
                    retain_available: settings.retain_available,
                    assigned_client_id: None,
                    server_keep_alive: None,
                    maximum_packet_size: 2_000_000,
                },
            );
            if username is None && !settings.allow_anonymous {
                after == (
                    b,
                    OpeningView::Rejected(
                        if protocol == ProtocolVersion::V5 {
                            seq![0x20u8, 3u8, 0u8, 0x87u8, 0u8]
                        } else {
                            seq![0x20u8, 2u8, 0u8, 5u8]
                        },
                    ),
                )
            } else {
                after == (
                    online,
                    OpeningView::Accepted {
                        connection: ConnectionView {
                            protocol,
                            client_id: id,
                            retain_available: settings.retain_available,
                            topic_aliases: Map::empty(),
                        },
                        connack: format_laws::whole(
                            0x20,
                            seq![
                                format_laws::weight(result.session_present, 1) as u8,
                                0u8,
                            ] + (if protocol == ProtocolVersion::V5 {
                                format_laws::section(values)
                            } else {
                                Seq::empty()
                            }),
                        ),
                        packets: result.queued.map_values(
                            |p: PublicationView| encode::publish_bytes(protocol, p),
                        ) + result.pubrels.map_values(
                            |n: u16|
                                format_laws::whole(0x62, format_laws::two(n as nat)),
                        ),
                    },
                )
            }
        }),
{
    reveal_strlit("auto-");
    assert("auto-"@ =~= seq!['a', 'u', 't', 'o', '-']);
    if username is None && !settings.allow_anonymous {
        let code: u8 = if protocol == ProtocolVersion::V5 {
            0x87
        } else {
            5
        };
        format_laws::law_connack_is_written(protocol, false, code, encode::usual_options());
        let body = seq![0u8, code] + (if protocol != ProtocolVersion::V5 {
            Seq::empty()
        } else {
            seq![0u8]
        });
        assert(format_laws::whole(0x20, body) =~= if protocol == ProtocolVersion::V5 {
            seq![0x20u8, 3u8, 0u8, 0x87u8, 0u8]
        } else {
            seq![0x20u8, 2u8, 0u8, 5u8]
        });
    } else {
        let id = if client_id.len() > 0 {
            client_id
        } else {
            seq!['a', 'u', 't', 'o', '-'] + scan::decimal(unique)
        };
        let interval: u32 = match (protocol, session_expiry_interval) {
            (ProtocolVersion::V5, Some(n)) => n,
            (ProtocolVersion::V5, None) => 0,
            _ => if clean_start {
                0
            } else {
                0xFFFF_FFFF
            },
        };
        let (online, result) = model::connected(b, id, clean_start, will, interval, now);
        let options = ConnackOptions {
            retain_available: settings.retain_available,
            assigned_client_id: None,
            server_keep_alive: None,
            maximum_packet_size: 2_000_000,
        };
        format_laws::law_connack_is_written(protocol, result.session_present, 0, options);
        let sent = result.pubrels.map_values(|n: u16| connection::pubrel_bytes(n));
        let told = result.pubrels.map_values(
            |n: u16| format_laws::whole(0x62, format_laws::two(n as nat)),
        );
        assert forall|i: int| 0 <= i < sent.len() implies #[trigger] sent[i] == told[i] by {
            lemma_packets(protocol, result.pubrels[i], 0);
        }
        assert(sent =~= told);
    }
}

/// A first packet that is not CONNECT, or cannot be read, changes nothing and is not
/// answered.
pub proof fn law_other_first_packets(
    b: BrokerView,
    settings: SettingsView,
    packet: Result<PacketView, ErrorView>,
    unique: nat,
    now: u128,
)
    requires
        packet matches Ok(p) ==> !(p is Connect),
    ensures
        connection::opened(b, settings, packet, unique, now) == (b, OpeningView::Ignored),
{
}

} // verus!
