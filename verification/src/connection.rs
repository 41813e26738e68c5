//! One client's connection: what the broker makes of the packets that come in,
//! and what it answers.

use std::collections::HashMap;

use vstd::prelude::*;

use crate::broker::BrokerState;
use crate::broker_laws;
use crate::decode;
use crate::decode::decode_frame;
use crate::encode;
use crate::encode::{
    encode_connack, encode_connack_with_retain_available, encode_disconnect, encode_pingresp,
    encode_puback, encode_pubcomp, encode_publish, encode_pubrec, encode_pubrel, encode_suback,
    encode_unsuback,
};
use crate::integrity;
use crate::model;
use crate::model::BrokerView;
use crate::packet;
use crate::packet::{
    ConnackOptions, ErrorView, Frame, FrameView, MqttPacket, PacketView, ProtocolVersion,
    Publication, PublicationView, RequestView, SubscriptionRequest, CMD_DISCONNECT, CMD_PINGRESP,
    CMD_PUBACK, CMD_PUBCOMP, CMD_PUBREC, CMD_PUBREL, CMD_SUBACK, CMD_UNSUBACK,
};
use crate::packet_laws;
use crate::scan;
use crate::session;
use crate::session::{ConnectView, Delivery, DeliveryView};
use crate::session_laws;
use crate::settings::{Settings, SettingsView};
use crate::wire;

verus! {

/// The packet could not be read, or does not make sense.
pub const MALFORMED_PACKET: u8 = 0x81;

/// The packet does not belong here.
pub const PROTOCOL_ERROR: u8 = 0x82;

/// The client may not connect.
pub const NOT_AUTHORIZED: u8 = 0x87;

/// The client may not connect, as older revisions say it.
pub const NOT_AUTHORIZED_BEFORE_V5: u8 = 5;

/// The broker does not retain messages.
pub const RETAIN_NOT_SUPPORTED: u8 = 0x9A;

/// One thing to do for a connection.
#[derive(Debug, PartialEq, Eq)]
pub enum Action {
    /// Send a packet to the client of this connection.
    Send(Vec<u8>),
    /// Send messages to the clients that they are addressed to, as far as these
    /// are connected.
    Deliver(Vec<Delivery>),
}

#[verifier::ext_equal]
pub enum ActionView {
    Send(Seq<u8>),
    Deliver(Seq<DeliveryView>),
}

impl View for Action {
    type V = ActionView;

    open spec fn view(&self) -> ActionView {
        match *self {
            Action::Send(bytes) => ActionView::Send(bytes@),
            Action::Deliver(deliveries) => ActionView::Deliver(
                session::delivery_views(deliveries@),
            ),
        }
    }
}

/// The views of a sequence of actions.
pub open spec fn action_views(actions: Seq<Action>) -> Seq<ActionView> {
    actions.map_values(|a: Action| a@)
}

/// How a connection goes on.
#[derive(Debug, Clone, Copy, PartialEq, Eq, Structural)]
pub enum Next {
    /// The next packet is read.
    Read,
    /// The connection ends without a goodbye of its client.
    Lost,
    /// The client has said goodbye.
    Gone,
}

/// What a packet leads to: actions, in this order, and how it goes on.
#[derive(Debug, PartialEq, Eq)]
pub struct Step {
    pub actions: Vec<Action>,
    pub next: Next,
}

#[verifier::ext_equal]
pub struct StepView {
    pub actions: Seq<ActionView>,
    pub next: Next,
}

impl View for Step {
    type V = StepView;

    open spec fn view(&self) -> StepView {
        StepView { actions: action_views(self.actions@), next: self.next }
    }
}

/// A connection whose client has been accepted.
#[derive(Debug)]
pub struct Connection {
    pub protocol: ProtocolVersion,
    pub client_id: String,
    pub retain_available: bool,
    pub topic_aliases: HashMap<u16, String>,
}

#[verifier::ext_equal]
pub struct ConnectionView {
    pub protocol: ProtocolVersion,
    pub client_id: Seq<char>,
    pub retain_available: bool,
    pub topic_aliases: Map<u16, Seq<char>>,
}

/// The views of the topics of a map of aliases.
pub open spec fn alias_views(map: Map<u16, String>) -> Map<u16, Seq<char>> {
    map.map_values(|t: String| t@)
}

impl View for Connection {
    type V = ConnectionView;

    open spec fn view(&self) -> ConnectionView {
        ConnectionView {
            protocol: self.protocol,
            client_id: self.client_id@,
            retain_available: self.retain_available,
            topic_aliases: alias_views(self.topic_aliases@),
        }
    }
}

// Answers.

/// Goes on without an answer.
pub open spec fn silent() -> StepView {
    StepView { actions: Seq::empty(), next: Next::Read }
}

/// Goes on after one packet to the client.
pub open spec fn answered(bytes: Seq<u8>) -> StepView {
    StepView { actions: seq![ActionView::Send(bytes)], next: Next::Read }
}

/// The bytes of an acknowledgement.
pub open spec fn ack_bytes(command: u8, packet_id: u16) -> Seq<u8> {
    encode::frame_bytes(command, 0, wire::be16(packet_id))
}

/// The bytes of a PUBREL packet.
pub open spec fn pubrel_bytes(packet_id: u16) -> Seq<u8> {
    encode::frame_bytes(CMD_PUBREL, 0x02, wire::be16(packet_id))
}

/// Ends the connection: a client that can understand a reason is told one.
pub open spec fn refused(protocol: ProtocolVersion, reason_code: u8) -> StepView {
    StepView {
        actions: if protocol == ProtocolVersion::V5 {
            seq![
                ActionView::Send(
                    encode::frame_bytes(
                        CMD_DISCONNECT,
                        0,
                        encode::disconnect_body(protocol, reason_code),
                    ),
                ),
            ]
        } else {
            Seq::empty()
        },
        next: Next::Lost,
    }
}

/// Goes on without an answer.
fn stay_silent() -> (step: Step)
    ensures
        step@ == silent(),
{
    let actions: Vec<Action> = Vec::new();
    assert(action_views(actions@) =~= Seq::empty());
    Step { actions, next: Next::Read }
}

/// Goes on after one packet to the client.
fn answer(bytes: Vec<u8>) -> (step: Step)
    ensures
        step@ == answered(bytes@),
{
    let actions: Vec<Action> = vec![Action::Send(bytes)];
    assert(action_views(actions@) =~= seq![ActionView::Send(bytes@)]);
    Step { actions, next: Next::Read }
}

/// Ends the connection.
fn refuse(protocol: ProtocolVersion, reason_code: u8) -> (step: Step)
    ensures
        step@ == refused(protocol, reason_code),
{
    let mut actions: Vec<Action> = Vec::new();
    if protocol == ProtocolVersion::V5 {
        actions.push(Action::Send(encode_disconnect(protocol, reason_code)));
    }
    assert(action_views(actions@) =~= refused(protocol, reason_code).actions);
    Step { actions, next: Next::Lost }
}

/// Every message of an action can be encoded.
pub open spec fn action_sendable(action: ActionView) -> bool {
    action matches ActionView::Deliver(deliveries) ==> forall|i: int|
        0 <= i < deliveries.len() ==> encode::sendable((#[trigger] deliveries[i]).publication)
}

/// Every message of every action can be encoded.
pub open spec fn step_sendable(step: StepView) -> bool {
    forall|i: int| 0 <= i < step.actions.len() ==> action_sendable(#[trigger] step.actions[i])
}

// Publishing.

/// A message once its topic alias has been resolved, and the aliases behind it:
/// a message with a topic makes its alias stand for the topic, and one without a
/// topic takes that of its alias. Nothing where a message has neither.
pub open spec fn alias_resolved(
    aliases: Map<u16, Seq<char>>,
    p: PublicationView,
) -> Option<(Map<u16, Seq<char>>, PublicationView)> {
    match p.topic_alias {
        Some(alias) => if p.topic.len() > 0 {
            Some((aliases.insert(alias, p.topic), p))
        } else if aliases.contains_key(alias) {
            Some((aliases, PublicationView { topic: aliases[alias], ..p }))
        } else {
            None
        },
        None => if p.topic.len() > 0 {
            Some((aliases, p))
        } else {
            None
        },
    }
}

/// Resolves the topic alias of a message. Gives whether it has a topic then.
pub fn resolve_topic_alias(
    publication: &mut Publication,
    topic_aliases: &mut HashMap<u16, String>,
) -> (resolved: bool)
    ensures
        match alias_resolved(alias_views(old(topic_aliases)@), old(publication)@) {
            Some((aliases, p)) => resolved && alias_views(final(topic_aliases)@) == aliases
                && final(publication)@ == p,
            None => !resolved && final(topic_aliases)@ == old(topic_aliases)@
                && final(publication)@ == old(publication)@,
        },
{
    broadcast use vstd::std_specs::hash::group_hash_axioms;

    match publication.topic_alias {
        Some(alias) => {
            if !publication.topic.as_str().is_empty() {
                let ghost before = topic_aliases@;
                topic_aliases.insert(alias, publication.topic.clone());
                assert(alias_views(topic_aliases@) =~= alias_views(before).insert(
                    alias,
                    publication@.topic,
                ));
                true
            } else {
                match topic_aliases.get(&alias) {
                    Some(topic) => {
                        publication.topic = topic.clone();
                        true
                    },
                    None => false,
                }
            }
        },
        None => !publication.topic.as_str().is_empty(),
    }
}

/// A message of the client that has a topic.
pub open spec fn message_taken(
    protocol: ProtocolVersion,
    client_id: Seq<char>,
    b: BrokerView,
    p: PublicationView,
) -> (BrokerView, StepView) {
    if p.qos == 2 {
        match p.packet_id {
            None => (b, refused(protocol, MALFORMED_PACKET)),
            Some(packet_id) => {
                let (after, result) = model::held(b, client_id, p);
                if result.accepted {
                    (after, answered(ack_bytes(CMD_PUBREC, packet_id)))
                } else {
                    (after, refused(protocol, MALFORMED_PACKET))
                }
            },
        }
    } else {
        let (after, result) = model::published(b, client_id, p);
        if result.accepted {
            let sent = seq![ActionView::Deliver(result.deliveries)];
            let actions = match p.packet_id {
                Some(packet_id) if p.qos == 1 => sent.push(
                    ActionView::Send(ack_bytes(CMD_PUBACK, packet_id)),
                ),
                _ => sent,
            };
            (after, StepView { actions, next: Next::Read })
        } else {
            (after, refused(protocol, MALFORMED_PACKET))
        }
    }
}

/// A PUBLISH packet of the client.
pub open spec fn publish_taken(c: ConnectionView, b: BrokerView, p: PublicationView) -> (
    ConnectionView,
    BrokerView,
    StepView,
) {
    if p.retain && !c.retain_available {
        (c, b, refused(c.protocol, RETAIN_NOT_SUPPORTED))
    } else {
        match alias_resolved(c.topic_aliases, p) {
            None => (c, b, refused(c.protocol, MALFORMED_PACKET)),
            Some((topic_aliases, message)) => {
                let (after, step) = message_taken(c.protocol, c.client_id, b, message);
                (ConnectionView { topic_aliases, ..c }, after, step)
            },
        }
    }
}

/// A SUBSCRIBE packet of the client: where a request is refused the connection
/// ends.
pub open spec fn subscribe_taken(
    c: ConnectionView,
    b: BrokerView,
    packet_id: u16,
    filters: Seq<RequestView>,
) -> (BrokerView, StepView) {
    let (after, result) = model::subscribing(b, c.client_id, filters);
    if result.reason_codes.contains(model::REQUEST_REFUSED) {
        (after, refused(c.protocol, MALFORMED_PACKET))
    } else {
        (
            after,
            StepView {
                actions: seq![
                    ActionView::Send(
                        encode::frame_bytes(
                            CMD_SUBACK,
                            0,
                            wire::be16(packet_id) + encode::no_properties_of(c.protocol)
                                + result.reason_codes,
                        ),
                    ),
                    ActionView::Deliver(result.retained),
                ],
                next: Next::Read,
            },
        )
    }
}

/// A PUBREL packet of the client.
pub open spec fn pubrel_taken(c: ConnectionView, b: BrokerView, packet_id: u16) -> (
    BrokerView,
    StepView,
) {
    let (after, result) = model::released(b, c.client_id, packet_id);
    let done = ActionView::Send(ack_bytes(CMD_PUBCOMP, packet_id));
    match result {
        Some(r) => if r.accepted {
            (
                after,
                StepView {
                    actions: seq![ActionView::Deliver(r.deliveries), done],
                    next: Next::Read,
                },
            )
        } else {
            (after, refused(c.protocol, MALFORMED_PACKET))
        },
        None => (after, StepView { actions: seq![done], next: Next::Read }),
    }
}

/// What a packet of the client leads to at a point in time.
pub open spec fn packet_taken(c: ConnectionView, b: BrokerView, packet: PacketView, now: u128) -> (
    ConnectionView,
    BrokerView,
    StepView,
) {
    match packet {
        PacketView::Publish(p) => publish_taken(c, b, p),
        PacketView::PubRel { packet_id } => {
            let (after, step) = pubrel_taken(c, b, packet_id);
            (c, after, step)
        },
        PacketView::PubAck { packet_id } => if model::awaits_pubcomp(b, c.client_id, packet_id) {
            (c, b, refused(c.protocol, PROTOCOL_ERROR))
        } else {
            (c, model::acknowledged(b, c.client_id, packet_id), silent())
        },
        PacketView::PubRec { packet_id } => if model::awaits_puback(b, c.client_id, packet_id) {
            (c, b, refused(c.protocol, PROTOCOL_ERROR))
        } else if model::awaits_pubcomp(b, c.client_id, packet_id) {
            (
                c,
                model::received(b, c.client_id, packet_id),
                answered(pubrel_bytes(packet_id)),
            )
        } else {
            (c, b, silent())
        },
        PacketView::PubComp { packet_id } => if model::awaits_puback(b, c.client_id, packet_id) {
            (c, b, refused(c.protocol, PROTOCOL_ERROR))
        } else {
            (c, model::completed(b, c.client_id, packet_id), silent())
        },
        PacketView::Subscribe { packet_id, filters } => {
            let (after, step) = subscribe_taken(c, b, packet_id, filters);
            (c, after, step)
        },
        PacketView::Unsubscribe { packet_id, filters } => (
            c,
            model::unsubscribing(b, c.client_id, filters),
            answered(
                encode::frame_bytes(
                    CMD_UNSUBACK,
                    0,
                    wire::be16(packet_id) + encode::no_properties_of(c.protocol)
                        + encode::unsuback_codes(c.protocol, filters.len()),
                ),
            ),
        ),
        PacketView::PingReq => (
            c,
            b,
            answered(encode::frame_bytes(CMD_PINGRESP, 0, Seq::empty())),
        ),
        PacketView::Disconnect { reason_code, session_expiry_interval } => {
            let (after, deliveries) = model::disconnected(
                b,
                c.client_id,
                true,
                session_expiry_interval,
                now,
            );
            (
                c,
                after,
                StepView { actions: seq![ActionView::Deliver(deliveries)], next: Next::Gone },
            )
        },
        PacketView::Connect { .. } => (
            c,
            b,
            StepView { actions: Seq::empty(), next: Next::Lost },
        ),
    }
}

/// What a frame of the client leads to at a point in time.
pub open spec fn frame_taken(c: ConnectionView, b: BrokerView, frame: FrameView, now: u128) -> (
    ConnectionView,
    BrokerView,
    StepView,
) {
    match decode::packet_of(frame.command, frame.flags, frame.body, Some(c.protocol)) {
        Ok(packet) => packet_taken(c, b, packet, now),
        Err(_) => (c, b, refused(c.protocol, MALFORMED_PACKET)),
    }
}

/// What the loss of a connection leads to at a point in time, and what is to be
/// sent to other clients.
pub open spec fn lost(c: ConnectionView, b: BrokerView, now: u128) -> (
    BrokerView,
    Seq<DeliveryView>,
) {
    model::disconnected(b, c.client_id, false, None, now)
}

/// Whether the orders of the subscriptions can be counted on for a packet of a
/// client: only SUBSCRIBE needs that.
pub open spec fn packet_has_room(b: BrokerView, client_id: Seq<char>, packet: PacketView) -> bool {
    packet matches PacketView::Subscribe { packet_id, filters } ==> model::has_room(
        b,
        client_id,
        filters,
    )
}

/// Whether the orders of the subscriptions can be counted on for a frame of a
/// client: for each byte of it, or at least for the packet that it holds.
pub open spec fn frame_has_room(b: BrokerView, c: ConnectionView, frame: FrameView) -> bool {
    ||| b.next_subscription_order + frame.body.len() <= u64::MAX
    ||| decode::packet_of(frame.command, frame.flags, frame.body, Some(c.protocol)) matches Ok(
        packet,
    ) ==> packet_has_room(b, c.client_id, packet)
}

impl Connection {
    /// Takes a message that has a topic.
    fn take_message(
        &self,
        broker: &mut BrokerState,
        publication: Publication,
    ) -> (step: Step)
        requires
            old(broker).wf(),
        ensures
            final(broker).wf(),
            (final(broker)@, step@) == message_taken(
                self.protocol,
                self.client_id@,
                old(broker)@,
                publication@,
            ),
            step_sendable(step@),
    {
        let qos: u8 = publication.qos;
        let packet_id = publication.packet_id;
        if qos == 2 {
            match packet_id {
                None => refuse(self.protocol, MALFORMED_PACKET),
                Some(packet_id) => {
                    let result = broker.receive_qos2_publish(
                        self.client_id.as_str(),
                        publication,
                    );
                    if result.accepted {
                        answer(encode_pubrec(self.protocol, packet_id))
                    } else {
                        refuse(self.protocol, MALFORMED_PACKET)
                    }
                },
            }
        } else {
            proof {
                broker_laws::law_deliveries_can_be_sent(
                    broker@,
                    self.client_id@,
                    publication@,
                );
            }
            let result = broker.publish(self.client_id.as_str(), publication);
            if !result.accepted {
                return refuse(self.protocol, MALFORMED_PACKET);
            }
            let ghost deliveries = result@.deliveries;
            let mut actions: Vec<Action> = vec![Action::Deliver(result.deliveries)];
            assert(action_views(actions@) =~= seq![ActionView::Deliver(deliveries)]);
            if qos == 1 {
                if let Some(packet_id) = packet_id {
                    actions.push(Action::Send(encode_puback(self.protocol, packet_id)));
                    assert(action_views(actions@) =~= seq![
                        ActionView::Deliver(deliveries),
                    ].push(ActionView::Send(ack_bytes(CMD_PUBACK, packet_id))));
                }
            }
            Step { actions, next: Next::Read }
        }
    }

    /// Takes a PUBLISH packet.
    fn take_publish(&mut self, broker: &mut BrokerState, publication: Publication) -> (step: Step)
        requires
            old(broker).wf(),
        ensures
            final(broker).wf(),
            (final(self)@, final(broker)@, step@) == publish_taken(
                old(self)@,
                old(broker)@,
                publication@,
            ),
            step_sendable(step@),
    {
        if publication.retain && !self.retain_available {
            return refuse(self.protocol, RETAIN_NOT_SUPPORTED);
        }
        let mut publication = publication;
        if !resolve_topic_alias(&mut publication, &mut self.topic_aliases) {
            return refuse(self.protocol, MALFORMED_PACKET);
        }
        self.take_message(broker, publication)
    }

    /// Takes a PUBREL packet.
    fn take_pubrel(&self, broker: &mut BrokerState, packet_id: u16) -> (step: Step)
        requires
            old(broker).wf(),
        ensures
            final(broker).wf(),
            (final(broker)@, step@) == pubrel_taken(self@, old(broker)@, packet_id),
            step_sendable(step@),
    {
        proof {
            lemma_released_sendable(broker@, self.client_id@, packet_id);
        }
        let result = broker.pubrel(self.client_id.as_str(), packet_id);
        let mut actions: Vec<Action> = Vec::new();
        assert(action_views(actions@) =~= Seq::empty());
        if let Some(result) = result {
            if !result.accepted {
                return refuse(self.protocol, MALFORMED_PACKET);
            }
            actions.push(Action::Deliver(result.deliveries));
        }
        actions.push(Action::Send(encode_pubcomp(self.protocol, packet_id)));
        let step = Step { actions, next: Next::Read };
        assert(step@.actions =~= pubrel_taken(self@, old(broker)@, packet_id).1.actions);
        step
    }

    /// Takes a SUBSCRIBE packet.
    fn take_subscribe(
        &self,
        broker: &mut BrokerState,
        packet_id: u16,
        filters: Vec<SubscriptionRequest>,
    ) -> (step: Step)
        requires
            old(broker).wf(),
            model::has_room(
                old(broker)@,
                self.client_id@,
                packet::request_views(filters@),
            ),
        ensures
            final(broker).wf(),
            (final(broker)@, step@) == subscribe_taken(
                self@,
                old(broker)@,
                packet_id,
                packet::request_views(filters@),
            ),
            step_sendable(step@),
    {
        proof {
            broker_laws::law_replays_can_be_sent(
                broker@,
                self.client_id@,
                packet::request_views(filters@),
            );
        }
        let ghost views = packet::request_views(filters@);
        let result = broker.subscribe(self.client_id.as_str(), filters);
        if has_refusal(&result.reason_codes) {
            return refuse(self.protocol, MALFORMED_PACKET);
        }
        let suback = encode_suback(self.protocol, packet_id, result.reason_codes.as_slice());
        let actions: Vec<Action> = vec![Action::Send(suback), Action::Deliver(result.retained)];
        let step = Step { actions, next: Next::Read };
        assert(step@.actions =~= subscribe_taken(self@, old(broker)@, packet_id, views).1.actions);
        step
    }

    /// Takes a packet of the client, at a point in time that is counted in
    /// nanoseconds from the start of the broker.
    pub fn take_packet_at(
        &mut self,
        broker: &mut BrokerState,
        packet: MqttPacket,
        now: u128,
    ) -> (step: Step)
        requires
            old(broker).wf(),
            packet_has_room(old(broker)@, old(self)@.client_id, packet@),
        ensures
            final(broker).wf(),
            (final(self)@, final(broker)@, step@) == packet_taken(
                old(self)@,
                old(broker)@,
                packet@,
                now,
            ),
            step_sendable(step@),
    {
        match packet {
            MqttPacket::Publish(publication) => self.take_publish(broker, publication),
            MqttPacket::PubRel { packet_id } => self.take_pubrel(broker, packet_id),
            MqttPacket::PubAck { packet_id } => {
                if broker.has_inflight_qos2(self.client_id.as_str(), packet_id) {
                    return refuse(self.protocol, PROTOCOL_ERROR);
                }
                let _ = broker.puback(self.client_id.as_str(), packet_id);
                stay_silent()
            },
            MqttPacket::PubRec { packet_id } => {
                if broker.has_inflight_qos1(self.client_id.as_str(), packet_id) {
                    return refuse(self.protocol, PROTOCOL_ERROR);
                }
                if broker.pubrec(self.client_id.as_str(), packet_id) {
                    answer(encode_pubrel(self.protocol, packet_id))
                } else {
                    stay_silent()
                }
            },
            MqttPacket::PubComp { packet_id } => {
                if broker.has_inflight_qos1(self.client_id.as_str(), packet_id) {
                    return refuse(self.protocol, PROTOCOL_ERROR);
                }
                let _ = broker.pubcomp(self.client_id.as_str(), packet_id);
                stay_silent()
            },
            MqttPacket::Subscribe { packet_id, filters } => self.take_subscribe(
                broker,
                packet_id,
                filters,
            ),
            MqttPacket::Unsubscribe { packet_id, filters } => {
                broker.unsubscribe(self.client_id.as_str(), filters.as_slice());
                answer(encode_unsuback(self.protocol, packet_id, filters.len()))
            },
            MqttPacket::PingReq => answer(encode_pingresp()),
            MqttPacket::Disconnect { reason_code: _, session_expiry_interval } => {
                let deliveries = broker.disconnect_at(
                    self.client_id.as_str(),
                    true,
                    session_expiry_interval,
                    now,
                );
                let ghost sent = session::delivery_views(deliveries@);
                let actions: Vec<Action> = vec![Action::Deliver(deliveries)];
                assert(action_views(actions@) =~= seq![ActionView::Deliver(sent)]);
                Step { actions, next: Next::Gone }
            },
            MqttPacket::Connect { .. } => {
                let actions: Vec<Action> = Vec::new();
                assert(action_views(actions@) =~= Seq::empty());
                Step { actions, next: Next::Lost }
            },
        }
    }

    /// Takes a frame of the client, at a point in time that is counted in
    /// nanoseconds from the start of the broker.
    pub fn take_frame_at(
        &mut self,
        broker: &mut BrokerState,
        frame: &Frame,
        now: u128,
    ) -> (step: Step)
        requires
            old(broker).wf(),
            frame_has_room(old(broker)@, old(self)@, frame@),
        ensures
            final(broker).wf(),
            (final(self)@, final(broker)@, step@) == frame_taken(
                old(self)@,
                old(broker)@,
                frame@,
                now,
            ),
            step_sendable(step@),
    {
        proof {
            packet_laws::law_filters_fit_the_body(
                frame.command,
                frame.flags,
                frame.body@,
                Some(self.protocol),
            );
        }
        match decode_frame(frame, Some(self.protocol)) {
            Ok(packet) => self.take_packet_at(broker, packet, now),
            Err(_) => refuse(self.protocol, MALFORMED_PACKET),
        }
    }

    /// Ends a connection that was lost, at a point in time that is counted in
    /// nanoseconds from the start of the broker. Gives what is to be sent to
    /// other clients.
    pub fn lose_at(&self, broker: &mut BrokerState, now: u128) -> (deliveries: Vec<Delivery>)
        requires
            old(broker).wf(),
        ensures
            final(broker).wf(),
            (final(broker)@, session::delivery_views(deliveries@)) == model::disconnected(
                old(broker)@,
                self@.client_id,
                false,
                None,
                now,
            ),
            (final(broker)@, session::delivery_views(deliveries@)) == lost(
                self@,
                old(broker)@,
                now,
            ),
            action_sendable(ActionView::Deliver(session::delivery_views(deliveries@))),
    {
        proof {
            lemma_disconnect_sendable(broker@, self.client_id@, false, None, now);
        }
        broker.disconnect_at(self.client_id.as_str(), false, None, now)
    }

    /// Takes a frame of the client: gives what is to be done, and how the
    /// connection goes on.
    pub fn take_frame(&mut self, broker: &mut BrokerState, frame: &Frame) -> (step: Step)
        requires
            old(broker).wf(),
            frame_has_room(old(broker)@, old(self)@, frame@),
        ensures
            final(broker).wf(),
            exists|now: u128|
                (final(self)@, final(broker)@, step@) == #[trigger] frame_taken(
                    old(self)@,
                    old(broker)@,
                    frame@,
                    now,
                ),
            step_sendable(step@),
    {
        let now: u128 = broker.now();
        self.take_frame_at(broker, frame, now)
    }

    /// Ends a connection that was lost. Gives what is to be sent to other
    /// clients.
    pub fn lose(&self, broker: &mut BrokerState) -> (deliveries: Vec<Delivery>)
        requires
            old(broker).wf(),
        ensures
            final(broker).wf(),
            exists|now: u128|
                (final(broker)@, session::delivery_views(deliveries@))
                    == #[trigger] model::disconnected(
                    old(broker)@,
                    self@.client_id,
                    false,
                    None,
                    now,
                ),
            exists|now: u128|
                (final(broker)@, session::delivery_views(deliveries@)) == #[trigger] lost(
                    self@,
                    old(broker)@,
                    now,
                ),
            action_sendable(ActionView::Deliver(session::delivery_views(deliveries@))),
    {
        let now: u128 = broker.now();
        self.lose_at(broker, now)
    }
}

/// Whether a request was refused.
fn has_refusal(reason_codes: &Vec<u8>) -> (refusal: bool)
    ensures
        refusal == reason_codes@.contains(model::REQUEST_REFUSED),
{
    let mut i: usize = 0;
    while i < reason_codes.len()
        invariant
            i <= reason_codes@.len(),
            forall|k: int| 0 <= k < i ==> #[trigger] reason_codes@[k] != model::REQUEST_REFUSED,
        decreases reason_codes@.len() - i,
    {
        if reason_codes[i] == model::REQUEST_REFUSED {
            return true;
        }
        i = i + 1;
    }
    false
}

proof fn lemma_released_sendable(b: BrokerView, client_id: Seq<char>, packet_id: u16)
    requires
        integrity::broker_ok(b),
    ensures
        model::released(b, client_id, packet_id).1 matches Some(r) ==> action_sendable(
            ActionView::Deliver(r.deliveries),
        ),
{
    if model::awaits_pubrel(b, client_id, packet_id) {
        let s = b.clients[client_id];
        let taken = session::SessionView {
            inbound_qos2: s.inbound_qos2.remove(packet_id),
            ..s
        };
        assert(integrity::session_ok(client_id, s, b.next_subscription_order));
        assert(integrity::session_ok(client_id, taken, b.next_subscription_order));
        integrity::lemma_session_replaced(b, client_id, taken);
        broker_laws::law_deliveries_can_be_sent(
            b.with_session(client_id, taken),
            client_id,
            s.inbound_qos2[packet_id],
        );
    }
}

proof fn lemma_disconnect_sendable(
    b: BrokerView,
    client_id: Seq<char>,
    graceful: bool,
    interval: Option<u32>,
    now: u128,
)
    requires
        integrity::broker_ok(b),
    ensures
        action_sendable(
            ActionView::Deliver(
                model::disconnected(b, client_id, graceful, interval, now).1,
            ),
        ),
{
    if b.clients.contains_key(client_id) {
        let s = b.clients[client_id];
        let gone = model::left(s, interval, now);
        assert(integrity::session_ok(client_id, s, b.next_subscription_order));
        assert(integrity::session_ok(client_id, gone, b.next_subscription_order));
        integrity::lemma_session_replaced(b, client_id, gone);
        if let Some(will) = s.will {
            broker_laws::law_deliveries_can_be_sent(
                b.with_session(client_id, gone),
                client_id,
                model::will_message(will),
            );
        }
    }
}

// Opening a connection.

/// How long the session of a client outlives its connection: as long as the
/// client says in MQTT 5, and else for ever or not at all.
pub open spec fn session_interval(
    protocol: ProtocolVersion,
    clean_start: bool,
    session_expiry_interval: Option<u32>,
) -> u32 {
    if protocol == ProtocolVersion::V5 {
        match session_expiry_interval {
            Some(interval) => interval,
            None => 0,
        }
    } else if clean_start {
        0
    } else {
        model::NEVER_EXPIRES
    }
}

/// How long the session of a client outlives its connection.
pub fn broker_session_expiry_interval(
    protocol: ProtocolVersion,
    clean_start: bool,
    session_expiry_interval: Option<u32>,
) -> (interval: u32)
    ensures
        interval == session_interval(protocol, clean_start, session_expiry_interval),
{
    if protocol == ProtocolVersion::V5 {
        match session_expiry_interval {
            Some(interval) => interval,
            None => 0,
        }
    } else if clean_start {
        0
    } else {
        model::NEVER_EXPIRES
    }
}

/// The name of a client that does not give itself one.
pub open spec fn assigned_id(unique: nat) -> Seq<char> {
    "auto-"@ + scan::decimal(unique)
}

/// The name of a client that does not give itself one.
fn assign_id(unique: u128) -> (client_id: String)
    ensures
        client_id@ == assigned_id(unique as nat),
{
    let mut client_id = "auto-".to_owned();
    scan::write_decimal(unique, &mut client_id);
    client_id
}

/// What becomes of a connection with its first packet.
#[allow(inconsistent_fields)]
#[derive(Debug)]
pub enum Opening {
    /// It ends at once.
    Ignored,
    /// It ends after an answer.
    Rejected(Vec<u8>),
    /// It goes on, after an answer and some more packets.
    Accepted { connection: Connection, connack: Vec<u8>, packets: Vec<Vec<u8>> },
}

#[allow(inconsistent_fields)]
#[verifier::ext_equal]
pub enum OpeningView {
    Ignored,
    Rejected(Seq<u8>),
    Accepted { connection: ConnectionView, connack: Seq<u8>, packets: Seq<Seq<u8>> },
}

/// The bytes of each packet of a sequence.
pub open spec fn packet_bytes(packets: Seq<Vec<u8>>) -> Seq<Seq<u8>> {
    packets.map_values(|p: Vec<u8>| p@)
}

impl View for Opening {
    type V = OpeningView;

    open spec fn view(&self) -> OpeningView {
        match *self {
            Opening::Ignored => OpeningView::Ignored,
            Opening::Rejected(bytes) => OpeningView::Rejected(bytes@),
            Opening::Accepted { connection, connack, packets } => OpeningView::Accepted {
                connection: connection@,
                connack: connack@,
                packets: packet_bytes(packets@),
            },
        }
    }
}

/// The packets that a client is sent first: the messages that are sent again or
/// were queued, and the releases.
pub open spec fn first_packets(protocol: ProtocolVersion, result: ConnectView) -> Seq<Seq<u8>> {
    result.queued.map_values(|p: PublicationView| encode::publish_bytes(protocol, p))
        + result.pubrels.map_values(|id: u16| pubrel_bytes(id))
}

/// What a first packet leads to at a point in time: only CONNECT is taken, and
/// where the broker asks for a user name only one with that.
pub open spec fn opened(
    b: BrokerView,
    settings: SettingsView,
    packet: Result<PacketView, ErrorView>,
    unique: nat,
    now: u128,
) -> (BrokerView, OpeningView) {
    match packet {
        Ok(
            PacketView::Connect {
                protocol,
                clean_start,
                keep_alive,
                client_id,
                username,
                password,
                will,
                session_expiry_interval,
                maximum_packet_size,
            },
        ) => if !settings.allow_anonymous && username is None {
            let reason_code = if protocol == ProtocolVersion::V5 {
                NOT_AUTHORIZED
            } else {
                NOT_AUTHORIZED_BEFORE_V5
            };
            (
                b,
                OpeningView::Rejected(
                    encode::connack_bytes(
                        protocol,
                        false,
                        reason_code,
                        encode::usual_options(),
                    ),
                ),
            )
        } else {
            let id = if client_id.len() == 0 {
                assigned_id(unique)
            } else {
                client_id
            };
            let (after, result) = model::connected(
                b,
                id,
                clean_start,
                will,
                session_interval(protocol, clean_start, session_expiry_interval),
                now,
            );
            (
                after,
                OpeningView::Accepted {
                    connection: ConnectionView {
                        protocol,
                        client_id: id,
                        retain_available: settings.retain_available,
                        topic_aliases: Map::empty(),
                    },
                    connack: encode::connack_bytes(
                        protocol,
                        result.session_present,
                        0,
                        ConnackOptions {
                            retain_available: settings.retain_available,
                            ..encode::usual_options()
                        },
                    ),
                    packets: first_packets(protocol, result),
                },
            )
        },
        _ => (b, OpeningView::Ignored),
    }
}

/// Encodes the packets that a client is sent first.
fn encode_first_packets(
    protocol: ProtocolVersion,
    queued: &Vec<Publication>,
    pubrels: &Vec<u16>,
) -> (packets: Vec<Vec<u8>>)
    requires
        forall|i: int| 0 <= i < queued@.len() ==> encode::sendable((#[trigger] queued@[i])@),
    ensures
        packet_bytes(packets@) == packet::publication_views(queued@).map_values(
            |p: PublicationView| encode::publish_bytes(protocol, p),
        ) + pubrels@.map_values(|id: u16| pubrel_bytes(id)),
{
    let ghost first = packet::publication_views(queued@).map_values(
        |p: PublicationView| encode::publish_bytes(protocol, p),
    );
    let ghost second = pubrels@.map_values(|id: u16| pubrel_bytes(id));
    let mut packets: Vec<Vec<u8>> = Vec::new();
    let mut i: usize = 0;
    assert(packet_bytes(packets@) =~= first.take(0));
    while i < queued.len()
        invariant
            i <= queued@.len(),
            forall|k: int| 0 <= k < queued@.len() ==> encode::sendable((#[trigger] queued@[k])@),
            first == packet::publication_views(queued@).map_values(
                |p: PublicationView| encode::publish_bytes(protocol, p),
            ),
            packet_bytes(packets@) == first.take(i as int),
        decreases queued@.len() - i,
    {
        let ghost shown = packets@;
        packets.push(encode_publish(protocol, &queued[i]));
        assert(packet_bytes(packets@) =~= packet_bytes(shown).push(first[i as int]));
        assert(first.take(i + 1) =~= first.take(i as int).push(first[i as int]));
        i = i + 1;
    }
    let mut k: usize = 0;
    assert(packet_bytes(packets@) =~= first + second.take(0));
    while k < pubrels.len()
        invariant
            k <= pubrels@.len(),
            second == pubrels@.map_values(|id: u16| pubrel_bytes(id)),
            packet_bytes(packets@) == first + second.take(k as int),
        decreases pubrels@.len() - k,
    {
        let ghost shown = packets@;
        packets.push(encode_pubrel(protocol, pubrels[k]));
        assert(packet_bytes(packets@) =~= packet_bytes(shown).push(second[k as int]));
        assert(first + second.take(k + 1) =~= (first + second.take(k as int)).push(
            second[k as int],
        ));
        k = k + 1;
    }
    assert(second.take(k as int) =~= second);
    packets
}

/// Opens a connection with its first frame, at a point in time that is counted
/// in nanoseconds from the start of the broker. The number names a client that
/// does not give itself a name.
pub fn open_connection_at(
    broker: &mut BrokerState,
    settings: &Settings,
    first: &Frame,
    unique: u128,
    now: u128,
) -> (opening: Opening)
    requires
        old(broker).wf(),
    ensures
        final(broker).wf(),
        (final(broker)@, opening@) == opened(
            old(broker)@,
            settings@,
            decode::packet_of(first.command, first.flags, first.body@, None),
            unique as nat,
            now,
        ),
{
    broadcast use vstd::std_specs::hash::group_hash_axioms;

    match decode_frame(first, None) {
        Ok(
            MqttPacket::Connect {
                protocol,
                clean_start,
                keep_alive: _,
                client_id,
                username,
                password: _,
                will,
                session_expiry_interval,
                maximum_packet_size: _,
            },
        ) => {
            if !settings.allow_anonymous && username.is_none() {
                let reason_code: u8 = if protocol == ProtocolVersion::V5 {
                    NOT_AUTHORIZED
                } else {
                    NOT_AUTHORIZED_BEFORE_V5
                };
                return Opening::Rejected(encode_connack(protocol, false, reason_code));
            }
            let client_id = if client_id.as_str().is_empty() {
                assign_id(unique)
            } else {
                client_id
            };
            let interval: u32 = broker_session_expiry_interval(
                protocol,
                clean_start,
                session_expiry_interval,
            );
            proof {
                session_laws::law_what_is_sent_on_connect_waits(
                    broker@,
                    client_id@,
                    clean_start,
                    packet::will_view(will),
                    interval,
                    now,
                );
            }
            let result = broker.connect_at(client_id.clone(), clean_start, will, interval, now);
            proof {
                assert forall|i: int| 0 <= i < result.queued@.len() implies encode::sendable(
                    (#[trigger] result.queued@[i])@,
                ) by {
                    assert(result@.queued[i] == result.queued@[i]@);
                }
            }
            let connack = encode_connack_with_retain_available(
                protocol,
                result.session_present,
                0,
                settings.retain_available,
            );
            let packets = encode_first_packets(protocol, &result.queued, &result.pubrels);
            let topic_aliases: HashMap<u16, String> = HashMap::new();
            assert(alias_views(topic_aliases@) =~= Map::empty());
            let connection = Connection {
                protocol,
                client_id,
                retain_available: settings.retain_available,
                topic_aliases,
            };
            Opening::Accepted { connection, connack, packets }
        },
        _ => Opening::Ignored,
    }
}

/// Opens a connection with its first frame. The number names a client that does
/// not give itself a name.
pub fn open_connection(
    broker: &mut BrokerState,
    settings: &Settings,
    first: &Frame,
    unique: u128,
) -> (opening: Opening)
    requires
        old(broker).wf(),
    ensures
        final(broker).wf(),
        exists|now: u128|
            (final(broker)@, opening@) == #[trigger] opened(
                old(broker)@,
                settings@,
                decode::packet_of(first.command, first.flags, first.body@, None),
                unique as nat,
                now,
            ),
{
    let now: u128 = broker.now();
    open_connection_at(broker, settings, first, unique, now)
}

// Laws.

/// A topic alias is remembered: a message that names a topic and an alias makes
/// the alias stand for the topic in the messages that follow, and for every
/// other alias nothing changes.
pub proof fn law_topic_alias_is_remembered(
    aliases: Map<u16, Seq<char>>,
    p: PublicationView,
    later: PublicationView,
)
    requires
        p.topic.len() > 0,
        p.topic_alias is Some,
        later.topic.len() == 0,
        later.topic_alias is Some,
    ensures
        ({
            let (after, _) = alias_resolved(aliases, p)->0;
            &&& alias_resolved(aliases, p) == Some((after, p))
            &&& later.topic_alias == p.topic_alias ==> alias_resolved(after, later) == Some(
                (after, PublicationView { topic: p.topic, ..later }),
            )
            &&& later.topic_alias != p.topic_alias ==> (alias_resolved(after, later) is Some
                <==> alias_resolved(aliases, later) is Some)
        }),
{
}

/// A resolved message has a topic, as long as every alias stands for one.
pub proof fn law_resolved_message_has_a_topic(aliases: Map<u16, Seq<char>>, p: PublicationView)
    requires
        forall|alias: u16| #[trigger]
            aliases.contains_key(alias) ==> aliases[alias].len() > 0,
    ensures
        alias_resolved(aliases, p) matches Some((after, message)) ==> {
            &&& message.topic.len() > 0
            &&& forall|alias: u16| #[trigger]
                after.contains_key(alias) ==> after[alias].len() > 0
        },
{
}

/// A client of an older revision is never told why its connection ends; an MQTT
/// 5 client is told once.
pub proof fn law_refusals(protocol: ProtocolVersion, reason_code: u8)
    ensures
        refused(protocol, reason_code).next == Next::Lost,
        protocol != ProtocolVersion::V5 ==> refused(protocol, reason_code).actions.len() == 0,
        protocol == ProtocolVersion::V5 ==> refused(protocol, reason_code).actions.len() == 1,
{
}

/// A packet that cannot be read changes nothing and ends the connection.
pub proof fn law_unreadable_packet_ends_the_connection(
    c: ConnectionView,
    b: BrokerView,
    frame: FrameView,
    now: u128,
)
    requires
        decode::packet_of(frame.command, frame.flags, frame.body, Some(c.protocol)) is Err,
    ensures
        frame_taken(c, b, frame, now) == (c, b, refused(c.protocol, MALFORMED_PACKET)),
{
}

/// Where messages are not retained, a message that asks for it changes nothing
/// and ends the connection.
pub proof fn law_retain_is_refused(
    c: ConnectionView,
    b: BrokerView,
    p: PublicationView,
    now: u128,
)
    requires
        p.retain,
        !c.retain_available,
    ensures
        packet_taken(c, b, PacketView::Publish(p), now) == (
            c,
            b,
            refused(c.protocol, RETAIN_NOT_SUPPORTED),
        ),
{
}

/// A message that is taken is answered last of all, once: QoS 1 with PUBACK, QoS
/// 2 with PUBREC, QoS 0 not at all.
pub proof fn law_messages_are_answered(c: ConnectionView, b: BrokerView, p: PublicationView)
    requires
        p.qos <= 2,
        p.packet_id is Some <==> p.qos > 0,
    ensures
        ({
            let step = publish_taken(c, b, p).2;
            step.next == Next::Read ==> {
                &&& p.qos == 0 ==> step.actions.len() == 1 && step.actions[0] is Deliver
                &&& p.qos == 1 ==> step.actions.len() == 2 && step.actions[0] is Deliver
                    && step.actions[1] == ActionView::Send(
                    ack_bytes(CMD_PUBACK, p.packet_id->0),
                )
                &&& p.qos == 2 ==> step.actions == seq![
                    ActionView::Send(ack_bytes(CMD_PUBREC, p.packet_id->0)),
                ]
            }
        }),
{
}

/// A client that releases a message is told that it is completed, also where
/// the broker does not hold one any more.
pub proof fn law_releases_are_completed(c: ConnectionView, b: BrokerView, packet_id: u16)
    requires
        integrity::broker_ok(b),
    ensures
        ({
            let step = pubrel_taken(c, b, packet_id).1;
            &&& step.next == Next::Read
            &&& step.actions.len() > 0
            &&& step.actions.last() == ActionView::Send(ack_bytes(CMD_PUBCOMP, packet_id))
        }),
{
    broker_laws::law_held_messages_are_released_once(b, c.client_id, packet_id);
}

/// An acknowledgement that belongs to a message of another QoS is a mistake of
/// the client: it changes nothing and ends the connection.
pub proof fn law_mistaken_acknowledgements(
    c: ConnectionView,
    b: BrokerView,
    packet_id: u16,
    now: u128,
)
    ensures
        ({
            let mistake = (c, b, refused(c.protocol, PROTOCOL_ERROR));
            &&& model::awaits_pubcomp(b, c.client_id, packet_id) ==> packet_taken(
                c,
                b,
                PacketView::PubAck { packet_id },
                now,
            ) == mistake
            &&& model::awaits_puback(b, c.client_id, packet_id) ==> packet_taken(
                c,
                b,
                PacketView::PubRec { packet_id },
                now,
            ) == mistake && packet_taken(c, b, PacketView::PubComp { packet_id }, now) == mistake
        }),
{
}

/// A client without a user name, where the broker asks for one, is told that it
/// is not authorized, and leaves the broker as it is.
pub proof fn law_anonymous_clients_are_rejected(
    b: BrokerView,
    settings: SettingsView,
    packet: PacketView,
    unique: nat,
    now: u128,
)
    requires
        !settings.allow_anonymous,
        packet matches PacketView::Connect { username, .. } && username is None,
    ensures
        opened(b, settings, Ok(packet), unique, now).0 == b,
        opened(b, settings, Ok(packet), unique, now).1 is Rejected,
{
}

/// A connection opens with CONNECT and nothing else.
pub proof fn law_first_packet_is_connect(
    b: BrokerView,
    settings: SettingsView,
    packet: Result<PacketView, ErrorView>,
    unique: nat,
    now: u128,
)
    requires
        !(packet matches Ok(PacketView::Connect { .. })),
    ensures
        opened(b, settings, packet, unique, now) == (b, OpeningView::Ignored),
{
}

} // verus!
