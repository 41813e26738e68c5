//! What the broker does, as functions from one state of the broker to the
//! next.

use vstd::prelude::*;

use crate::packet::{PublicationView, RequestView, WillView};
use crate::packet_ids;
use crate::session::{
    ConnectView, DeliveryView, OutboundView, PersistedView, PublishView, Qos2OutboundState,
    Qos2ReceiveResult, SessionView, SubscribeView, SubscriptionView,
};
use crate::text_order;
use crate::topic;

verus! {

/// The reason code of a request that the broker refuses.
pub const REQUEST_REFUSED: u8 = 0x80;

/// The expiry interval of a session that never expires.
pub const NEVER_EXPIRES: u32 = 0xFFFF_FFFF;

/// The nanoseconds of a second.
pub const SECOND: u128 = 1_000_000_000;

/// The state of the broker.
#[verifier::ext_equal]
pub struct BrokerView {
    pub clients: Map<Seq<char>, SessionView>,
    pub retained: Map<Seq<char>, PublicationView>,
    /// Where the next round of each shared filter starts.
    pub shared_cursors: Map<Seq<char>, nat>,
    pub upgrade_outgoing_qos: bool,
    pub next_subscription_order: u64,
}

impl BrokerView {
    /// The same state with another session of a client.
    pub open spec fn with_session(self, client_id: Seq<char>, session: SessionView) -> BrokerView {
        BrokerView { clients: self.clients.insert(client_id, session), ..self }
    }

    /// The clients in ascending order.
    pub open spec fn client_ids(self) -> Seq<Seq<char>> {
        text_order::in_order(self.clients.dom())
    }
}

/// A broker that has seen nothing yet.
pub open spec fn fresh_broker(next_subscription_order: u64) -> BrokerView {
    BrokerView {
        clients: Map::empty(),
        retained: Map::empty(),
        shared_cursors: Map::empty(),
        upgrade_outgoing_qos: false,
        next_subscription_order,
    }
}

// What the broker takes.

/// A message that the broker routes: its topic is a topic name, its QoS is one
/// of the three.
pub open spec fn valid_publication(p: PublicationView) -> bool {
    topic::is_topic_name(p.topic) && p.qos <= 2
}

/// A subscription identifier is not zero.
pub open spec fn valid_identifier(identifier: Option<u32>) -> bool {
    identifier matches Some(n) ==> n > 0
}

/// A subscription that the broker keeps.
pub open spec fn valid_subscription(s: SubscriptionView) -> bool {
    &&& topic::is_topic_filter(s.filter)
    &&& s.qos <= 2
    &&& s.retain_handling <= 2
    &&& valid_identifier(s.identifier)
}

/// A request that the broker grants.
pub open spec fn valid_request(r: RequestView) -> bool {
    &&& topic::is_topic_filter(r.filter)
    &&& r.qos <= 2
    &&& r.retain_handling <= 2
    &&& valid_identifier(r.identifier)
}

// Outgoing messages.

/// The packet identifier that follows another one.
pub open spec fn next_mid(mid: u16) -> u16 {
    if mid == 0xFFFF {
        1
    } else {
        (mid + 1) as u16
    }
}

/// The QoS with which a message goes to a subscriber.
pub open spec fn delivery_qos(upgrade: bool, publish_qos: u8, subscription_qos: u8) -> u8 {
    if upgrade || subscription_qos <= publish_qos {
        subscription_qos
    } else {
        publish_qos
    }
}

/// The session once a message has been handed to its client: a message of QoS
/// 1 or 2 is kept until the client has acknowledged it.
pub open spec fn outstanding(session: SessionView, p: PublicationView) -> SessionView {
    match p.packet_id {
        None => session,
        Some(id) => if p.qos == 1 {
            SessionView { inflight_qos1: session.inflight_qos1.insert(id, p), ..session }
        } else if p.qos == 2 {
            SessionView {
                inflight_qos2: session.inflight_qos2.insert(
                    id,
                    OutboundView { publication: p, state: Qos2OutboundState::WaitingPubRec },
                ),
                ..session
            }
        } else {
            session
        },
    }
}

/// The session once each of a list of messages has been handed to its client.
pub open spec fn all_outstanding(session: SessionView, list: Seq<PublicationView>) -> SessionView
    decreases list.len(),
{
    if list.len() == 0 {
        session
    } else {
        outstanding(all_outstanding(session, list.drop_last()), list.last())
    }
}

/// The session once it has given out a packet identifier.
pub open spec fn mid_taken(session: SessionView) -> SessionView {
    SessionView { next_outgoing_mid: next_mid(session.next_outgoing_mid), ..session }
}

// Retained messages.

/// A message as it is taken over from an earlier run.
pub open spec fn as_retained(p: PublicationView) -> PublicationView {
    PublicationView {
        retain: true,
        packet_id: None,
        dup: false,
        topic_alias: None,
        subscription_identifiers: Seq::empty(),
        ..p
    }
}

/// The retained messages that a list of messages makes: of two with the same
/// topic the later one stays.
pub open spec fn retained_from(list: Seq<PublicationView>) -> Map<Seq<char>, PublicationView>
    decreases list.len(),
{
    if list.len() == 0 {
        Map::empty()
    } else {
        let front = retained_from(list.drop_last());
        let p = list.last();
        if valid_publication(p) && p.payload.len() > 0 {
            front.insert(p.topic, as_retained(p))
        } else {
            front
        }
    }
}

/// The retained messages once a message has been published: a message with
/// the retain flag replaces the one of its topic, and an empty one clears it.
pub open spec fn retained_after(
    retained: Map<Seq<char>, PublicationView>,
    p: PublicationView,
) -> Map<Seq<char>, PublicationView> {
    if !p.retain {
        retained
    } else if p.payload.len() == 0 {
        retained.remove(p.topic)
    } else {
        retained.insert(p.topic, PublicationView { packet_id: None, ..p })
    }
}

/// The retained messages in ascending order of their topics.
pub open spec fn retained_list(
    retained: Map<Seq<char>, PublicationView>,
) -> Seq<PublicationView> {
    text_order::in_order(retained.dom()).map_values(|t: Seq<char>| retained[t])
}

// Routing.

/// One copy of a message that is to be made: for whom, and how.
#[verifier::ext_equal]
pub struct TargetView {
    pub client_id: Seq<char>,
    pub qos: u8,
    pub retain_as_published: bool,
    pub identifier: Option<u32>,
    pub online: bool,
}

/// A member of a shared subscription that may get a message.
#[verifier::ext_equal]
pub struct CandidateView {
    pub filter: Seq<char>,
    pub order: u64,
    pub target: TargetView,
}

/// A message on its way: who sent it, with which QoS, to which topic.
pub struct Route {
    pub source: Seq<char>,
    pub qos: u8,
    pub topic: Seq<char>,
}

/// The copy that a subscription of a client asks for.
pub open spec fn target_of(
    upgrade: bool,
    route: Route,
    session: SessionView,
    client_id: Seq<char>,
    s: SubscriptionView,
) -> TargetView {
    TargetView {
        client_id,
        qos: delivery_qos(upgrade, route.qos, s.qos),
        retain_as_published: s.retain_as_published,
        identifier: s.identifier,
        online: session.online,
    }
}

/// Whether a subscription takes messages of a sender: one without local
/// messages takes none of its own client.
pub open spec fn hears(s: SubscriptionView, client_id: Seq<char>, source: Seq<char>) -> bool {
    !(s.no_local && client_id == source)
}

/// Whether a subscription of its client alone takes the message.
pub open spec fn takes_alone(s: SubscriptionView, client_id: Seq<char>, route: Route) -> bool {
    &&& hears(s, client_id, route.source)
    &&& topic::shared_parts(s.filter) is None
    &&& topic::filter_matches(s.filter, route.topic)
}

/// Whether a shared subscription takes the message.
pub open spec fn takes_shared(s: SubscriptionView, client_id: Seq<char>, route: Route) -> bool {
    &&& hears(s, client_id, route.source)
    &&& topic::shared_parts(s.filter) matches Some((_, filter)) && topic::filter_matches(
        filter,
        route.topic,
    )
}

/// The subscriptions of a session that take the message for their client
/// alone.
pub open spec fn own_takers(
    session: SessionView,
    client_id: Seq<char>,
    route: Route,
) -> Seq<SubscriptionView> {
    session.subscriptions.filter(|s: SubscriptionView| takes_alone(s, client_id, route))
}

/// The copies for the clients that have subscribed on their own: one for each
/// client, as its oldest subscription that takes the message asks for.
pub open spec fn own_targets(b: BrokerView, ids: Seq<Seq<char>>, route: Route) -> Seq<TargetView>
    decreases ids.len(),
{
    if ids.len() == 0 {
        Seq::empty()
    } else {
        let front = own_targets(b, ids.drop_last(), route);
        let id = ids.last();
        let takers = own_takers(b.clients[id], id, route);
        if takers.len() > 0 {
            front.push(target_of(b.upgrade_outgoing_qos, route, b.clients[id], id, takers[0]))
        } else {
            front
        }
    }
}

/// The shared subscriptions of a client that take the message.
pub open spec fn own_candidates(b: BrokerView, id: Seq<char>, route: Route) -> Seq<CandidateView> {
    b.clients[id].subscriptions.filter(
        |s: SubscriptionView| takes_shared(s, id, route),
    ).map_values(
        |s: SubscriptionView|
            CandidateView {
                filter: s.filter,
                order: s.order,
                target: target_of(b.upgrade_outgoing_qos, route, b.clients[id], id, s),
            },
    )
}

/// The shared subscriptions of all clients that take the message.
pub open spec fn candidates(b: BrokerView, ids: Seq<Seq<char>>, route: Route) -> Seq<CandidateView>
    decreases ids.len(),
{
    if ids.len() == 0 {
        Seq::empty()
    } else {
        candidates(b, ids.drop_last(), route) + own_candidates(b, ids.last(), route)
    }
}

/// A list by order, with one member more.
pub open spec fn placed(list: Seq<CandidateView>, c: CandidateView) -> Seq<CandidateView>
    decreases list.len(),
{
    if list.len() == 0 || list.last().order <= c.order {
        list.push(c)
    } else {
        placed(list.drop_last(), c).push(list.last())
    }
}

/// The members of a list that have subscribed to a filter, by the order of
/// their subscriptions.
pub open spec fn members(list: Seq<CandidateView>, filter: Seq<char>) -> Seq<CandidateView>
    decreases list.len(),
{
    if list.len() == 0 {
        Seq::empty()
    } else {
        let front = members(list.drop_last(), filter);
        if list.last().filter == filter {
            placed(front, list.last())
        } else {
            front
        }
    }
}

/// Whether the filter of a candidate stands before it in the list already.
pub open spec fn met_before(list: Seq<CandidateView>, n: int) -> bool {
    exists|k: int| 0 <= k < n && #[trigger] list[k].filter == list[n].filter
}

/// Where the next round of a shared filter starts.
pub open spec fn cursor_of(cursors: Map<Seq<char>, nat>, filter: Seq<char>) -> nat {
    if cursors.contains_key(filter) {
        cursors[filter]
    } else {
        0
    }
}

/// The rounds of the shared filters among the first candidates: each filter
/// gives the message to one of its members, and then moves on to the next.
pub open spec fn rounds(
    cursors: Map<Seq<char>, nat>,
    list: Seq<CandidateView>,
    n: nat,
) -> (Map<Seq<char>, nat>, Seq<TargetView>)
    decreases n,
{
    if n == 0 {
        (cursors, Seq::empty())
    } else {
        let (moved, targets) = rounds(cursors, list, (n - 1) as nat);
        if met_before(list, n - 1) {
            (moved, targets)
        } else {
            let filter = list[n - 1].filter;
            let group = members(list, filter);
            let cursor = cursor_of(moved, filter);
            (
                moved.insert(filter, (cursor + 1) as nat % group.len()),
                targets.push(group[(cursor % group.len()) as int].target),
            )
        }
    }
}

/// The copy of a message that goes to a target.
pub open spec fn copy_for(
    p: PublicationView,
    target: TargetView,
    packet_id: Option<u16>,
) -> PublicationView {
    PublicationView {
        qos: target.qos,
        retain: target.retain_as_published && p.retain,
        packet_id,
        subscription_identifiers: match target.identifier {
            Some(identifier) => p.subscription_identifiers.push(identifier),
            None => p.subscription_identifiers,
        },
        ..p
    }
}

/// The session of a target once the message has come to it, and the message as
/// it came: kept until acknowledged where the client is online, queued where it
/// is not, dropped where it is not and the QoS is 0.
pub open spec fn handed_over(
    session: SessionView,
    p: PublicationView,
    target: TargetView,
) -> (SessionView, PublicationView) {
    let (counted, packet_id) = if target.qos > 0 {
        (mid_taken(session), Some(session.next_outgoing_mid))
    } else {
        (session, None)
    };
    let copy = copy_for(p, target, packet_id);
    if target.online {
        (outstanding(counted, copy), copy)
    } else if target.qos > 0 {
        (SessionView { queued: counted.queued.push(copy), ..counted }, copy)
    } else {
        (counted, copy)
    }
}

/// The broker once a message has come to each target, and what is to be sent
/// now.
pub open spec fn delivered(b: BrokerView, p: PublicationView, targets: Seq<TargetView>) -> (
    BrokerView,
    Seq<DeliveryView>,
)
    decreases targets.len(),
{
    if targets.len() == 0 {
        (b, Seq::empty())
    } else {
        let (before, sent) = delivered(b, p, targets.drop_last());
        let target = targets.last();
        let (session, copy) = handed_over(before.clients[target.client_id], p, target);
        (
            before.with_session(target.client_id, session),
            if target.online {
                sent.push(DeliveryView { client_id: target.client_id, publication: copy })
            } else {
                sent
            },
        )
    }
}

/// The copies that a message asks for, and the rounds of the shared filters
/// behind them.
pub open spec fn targets_of(b: BrokerView, route: Route) -> (
    Map<Seq<char>, nat>,
    Seq<TargetView>,
) {
    let list = candidates(b, b.client_ids(), route);
    let (cursors, chosen) = rounds(b.shared_cursors, list, list.len());
    (cursors, own_targets(b, b.client_ids(), route) + chosen)
}

/// A message without the subscription identifiers that it came with.
pub open spec fn plain_of(p: PublicationView) -> PublicationView {
    PublicationView { subscription_identifiers: Seq::empty(), ..p }
}

/// The broker once a message has been taken in and before it is delivered, and
/// the copies that the message asks for.
pub open spec fn taken_in(b: BrokerView, source: Seq<char>, p: PublicationView) -> (
    BrokerView,
    Seq<TargetView>,
) {
    let (shared_cursors, targets) = targets_of(b, Route { source, qos: p.qos, topic: p.topic });
    (
        BrokerView {
            retained: retained_after(b.retained, plain_of(p)),
            shared_cursors,
            ..b
        },
        targets,
    )
}

/// A message that a client publishes.
pub open spec fn published(b: BrokerView, source: Seq<char>, p: PublicationView) -> (
    BrokerView,
    PublishView,
) {
    if !valid_publication(p) {
        (b, PublishView { accepted: false, deliveries: Seq::empty() })
    } else {
        let (kept, targets) = taken_in(b, source, p);
        let (after, deliveries) = delivered(kept, plain_of(p), targets);
        (after, PublishView { accepted: true, deliveries })
    }
}

// Sessions that come and go.

/// Whether the time of a session is over: it is offline, it may expire, and it
/// has been offline for its interval.
pub open spec fn expired(session: SessionView, now: u128) -> bool {
    &&& !session.online
    &&& session.session_expiry_interval != NEVER_EXPIRES
    &&& session.disconnected_at matches Some(since) && (if now > since {
        now - since
    } else {
        0
    }) >= session.session_expiry_interval * SECOND
}

/// The broker without the sessions whose time is over.
pub open spec fn without_expired(b: BrokerView, now: u128) -> BrokerView {
    BrokerView {
        clients: Map::new(
            |id: Seq<char>| b.clients.contains_key(id) && !expired(b.clients[id], now),
            |id: Seq<char>| b.clients[id],
        ),
        ..b
    }
}

/// A session that starts from nothing.
pub open spec fn fresh_session(client_id: Seq<char>) -> SessionView {
    SessionView {
        client_id,
        subscriptions: Seq::empty(),
        will: None,
        queued: Seq::empty(),
        inflight_qos1: Map::empty(),
        inflight_qos2: Map::empty(),
        inbound_qos2: Map::empty(),
        session_expiry_interval: 0,
        disconnected_at: None,
        online: false,
        next_outgoing_mid: 1,
    }
}

/// A message that is sent again.
pub open spec fn repeated(p: PublicationView) -> PublicationView {
    PublicationView { dup: true, ..p }
}

/// An outgoing QoS 2 message when its client comes back: it is sent again
/// unless the client has received it.
pub open spec fn outbound_repeated(o: OutboundView) -> OutboundView {
    if o.state == Qos2OutboundState::WaitingPubRec {
        OutboundView { publication: repeated(o.publication), state: o.state }
    } else {
        o
    }
}

/// The QoS 1 messages that are sent again, by packet identifier.
pub open spec fn repeated_qos1(map: Map<u16, PublicationView>) -> Seq<PublicationView> {
    packet_ids::ascending_ids(map.dom()).map_values(|id: u16| repeated(map[id]))
}

/// The QoS 2 messages that wait for one step, by packet identifier.
pub open spec fn ids_waiting(
    map: Map<u16, OutboundView>,
    state: Qos2OutboundState,
) -> Seq<u16> {
    packet_ids::ascending_ids(map.dom()).filter(|id: u16| map[id].state == state)
}

/// The QoS 2 messages that are sent again, by packet identifier.
pub open spec fn repeated_qos2(map: Map<u16, OutboundView>) -> Seq<PublicationView> {
    ids_waiting(map, Qos2OutboundState::WaitingPubRec).map_values(
        |id: u16| repeated(map[id].publication),
    )
}

/// The session when its client has come back.
pub open spec fn resumed(
    session: SessionView,
    will: Option<WillView>,
    session_expiry_interval: u32,
) -> SessionView {
    all_outstanding(
        SessionView {
            will,
            queued: Seq::empty(),
            inflight_qos1: session.inflight_qos1.map_values(|p: PublicationView| repeated(p)),
            inflight_qos2: session.inflight_qos2.map_values(|o: OutboundView| outbound_repeated(o)),
            session_expiry_interval,
            disconnected_at: None,
            online: true,
            ..session
        },
        session.queued,
    )
}

/// A client that connects at a point in time.
pub open spec fn connected(
    b: BrokerView,
    client_id: Seq<char>,
    clean_start: bool,
    will: Option<WillView>,
    session_expiry_interval: u32,
    now: u128,
) -> (BrokerView, ConnectView) {
    let current = without_expired(b, now);
    let session_present = !clean_start && current.clients.contains_key(client_id);
    let session = if session_present {
        current.clients[client_id]
    } else {
        fresh_session(client_id)
    };
    (
        current.with_session(client_id, resumed(session, will, session_expiry_interval)),
        ConnectView {
            session_present,
            queued: repeated_qos1(session.inflight_qos1) + repeated_qos2(session.inflight_qos2)
                + session.queued,
            pubrels: ids_waiting(session.inflight_qos2, Qos2OutboundState::WaitingPubComp),
        },
    )
}

/// The message that a will becomes.
pub open spec fn will_message(will: WillView) -> PublicationView {
    PublicationView {
        topic: will.topic,
        payload: will.payload,
        qos: will.qos,
        retain: will.retain,
        packet_id: None,
        dup: false,
        topic_alias: None,
        payload_format_indicator: None,
        response_topic: None,
        correlation_data: None,
        subscription_identifiers: Seq::empty(),
    }
}

/// The session when its client has gone.
pub open spec fn left(
    session: SessionView,
    session_expiry_interval: Option<u32>,
    now: u128,
) -> SessionView {
    SessionView {
        will: None,
        session_expiry_interval: match session_expiry_interval {
            Some(interval) => interval,
            None => session.session_expiry_interval,
        },
        disconnected_at: Some(now),
        online: false,
        ..session
    }
}

/// The broker without a client.
pub open spec fn forgotten(b: BrokerView, client_id: Seq<char>) -> BrokerView {
    BrokerView { clients: b.clients.remove(client_id), ..b }
}

/// A client that goes at a point in time: unless it has said goodbye its will
/// is published, and a session that does not outlive the connection is
/// forgotten.
pub open spec fn disconnected(
    b: BrokerView,
    client_id: Seq<char>,
    graceful: bool,
    session_expiry_interval: Option<u32>,
    now: u128,
) -> (BrokerView, Seq<DeliveryView>) {
    if !b.clients.contains_key(client_id) {
        (b, Seq::empty())
    } else {
        let session = b.clients[client_id];
        let gone = left(session, session_expiry_interval, now);
        let offline = b.with_session(client_id, gone);
        let (after, deliveries) = match session.will {
            Some(will) if !graceful => {
                let (after, result) = published(offline, client_id, will_message(will));
                (after, result.deliveries)
            },
            _ => (offline, Seq::empty()),
        };
        if gone.session_expiry_interval == 0 {
            (forgotten(after, client_id), deliveries)
        } else {
            (after, deliveries)
        }
    }
}

// Subscribing.

/// The subscription that a request asks for.
pub open spec fn subscription_for(r: RequestView, order: u64) -> SubscriptionView {
    SubscriptionView {
        filter: r.filter,
        qos: r.qos,
        no_local: r.no_local,
        retain_as_published: r.retain_as_published,
        retain_handling: r.retain_handling,
        identifier: r.identifier,
        order,
    }
}

/// Whether the first subscription of a list to a filter stands at a position.
pub open spec fn subscribed_at(list: Seq<SubscriptionView>, filter: Seq<char>, i: int) -> bool {
    &&& 0 <= i < list.len()
    &&& list[i].filter == filter
    &&& forall|k: int| 0 <= k < i ==> (#[trigger] list[k]).filter != filter
}

/// Whether a list holds a subscription to a filter.
pub open spec fn subscribed(list: Seq<SubscriptionView>, filter: Seq<char>) -> bool {
    exists|i: int| #[trigger] subscribed_at(list, filter, i)
}

/// Where a list holds a subscription to a filter.
pub open spec fn place_of(list: Seq<SubscriptionView>, filter: Seq<char>) -> int {
    choose|i: int| #[trigger] subscribed_at(list, filter, i)
}

/// How far a SUBSCRIBE packet has been worked off.
#[verifier::ext_equal]
pub struct Subscribing {
    pub subscriptions: Seq<SubscriptionView>,
    pub next_subscription_order: u64,
    pub reason_codes: Seq<u8>,
    /// The subscriptions whose retained messages are to be sent.
    pub replays: Seq<SubscriptionView>,
}

/// Whether a granted request has the retained messages sent.
pub open spec fn replays(retain_handling: u8, existed: bool) -> bool {
    retain_handling == 0 || (retain_handling == 1 && !existed)
}

/// One request more: a refused one changes nothing but the reason codes, one
/// for a filter that is subscribed to already replaces the subscription in its
/// place, and any other one adds a subscription.
pub open spec fn request_taken(at: Subscribing, r: RequestView) -> Subscribing {
    if !valid_request(r) {
        Subscribing { reason_codes: at.reason_codes.push(REQUEST_REFUSED), ..at }
    } else {
        let existed = subscribed(at.subscriptions, r.filter);
        let place = place_of(at.subscriptions, r.filter);
        let s = subscription_for(
            r,
            if existed {
                at.subscriptions[place].order
            } else {
                at.next_subscription_order
            },
        );
        Subscribing {
            subscriptions: if existed {
                at.subscriptions.update(place, s)
            } else {
                at.subscriptions.push(s)
            },
            next_subscription_order: if existed {
                at.next_subscription_order
            } else {
                (at.next_subscription_order + 1) as u64
            },
            reason_codes: at.reason_codes.push(r.qos),
            replays: if replays(r.retain_handling, existed) {
                at.replays.push(s)
            } else {
                at.replays
            },
        }
    }
}

/// All requests of a SUBSCRIBE packet.
pub open spec fn requests_taken(
    subscriptions: Seq<SubscriptionView>,
    next_subscription_order: u64,
    requests: Seq<RequestView>,
) -> Subscribing
    decreases requests.len(),
{
    if requests.len() == 0 {
        Subscribing {
            subscriptions,
            next_subscription_order,
            reason_codes: Seq::empty(),
            replays: Seq::empty(),
        }
    } else {
        request_taken(
            requests_taken(subscriptions, next_subscription_order, requests.drop_last()),
            requests.last(),
        )
    }
}

/// Whether a list of requests holds one that the broker grants for a filter.
pub open spec fn granted(requests: Seq<RequestView>, filter: Seq<char>) -> bool {
    exists|i: int|
        0 <= i < requests.len() && valid_request(#[trigger] requests[i]) && requests[i].filter
            == filter
}

/// The number of subscriptions that requests add to a list: one for each filter
/// that is granted and not subscribed to yet.
pub open spec fn new_subscriptions(
    list: Seq<SubscriptionView>,
    requests: Seq<RequestView>,
) -> nat
    decreases requests.len(),
{
    if requests.len() == 0 {
        0
    } else {
        let front = requests.drop_last();
        let r = requests.last();
        new_subscriptions(list, front) + if valid_request(r) && !subscribed(list, r.filter)
            && !granted(front, r.filter) {
            1nat
        } else {
            0
        }
    }
}

/// Whether the orders of the subscriptions can be counted on for the requests of a
/// client: for each of the requests, or at least for each subscription that they
/// add.
pub open spec fn has_room(
    b: BrokerView,
    client_id: Seq<char>,
    requests: Seq<RequestView>,
) -> bool {
    ||| b.next_subscription_order + requests.len() <= u64::MAX
    ||| b.clients.contains_key(client_id) ==> b.next_subscription_order + new_subscriptions(
        b.clients[client_id].subscriptions,
        requests,
    ) <= u64::MAX
}

/// The retained messages that a filter matches, in ascending order of their
/// topics.
pub open spec fn retained_matching(
    retained: Map<Seq<char>, PublicationView>,
    filter: Seq<char>,
) -> Seq<PublicationView> {
    retained_list(retained).filter(|p: PublicationView| topic::filter_matches(filter, p.topic))
}

/// A retained message as a new subscription gets it, and the session behind
/// it.
pub open spec fn replayed(
    session: SessionView,
    upgrade: bool,
    s: SubscriptionView,
    p: PublicationView,
) -> (SessionView, PublicationView) {
    let qos = delivery_qos(upgrade, p.qos, s.qos);
    let (counted, packet_id) = if qos > 0 {
        (mid_taken(session), Some(session.next_outgoing_mid))
    } else {
        (session, p.packet_id)
    };
    let copy = PublicationView {
        qos,
        retain: !s.retain_as_published || p.retain,
        packet_id,
        subscription_identifiers: match s.identifier {
            Some(identifier) => seq![identifier],
            None => Seq::empty(),
        },
        ..p
    };
    (outstanding(counted, copy), copy)
}

/// The retained messages that a new subscription gets, and the session behind
/// them.
pub open spec fn list_replayed(
    session: SessionView,
    upgrade: bool,
    s: SubscriptionView,
    list: Seq<PublicationView>,
) -> (SessionView, Seq<PublicationView>)
    decreases list.len(),
{
    if list.len() == 0 {
        (session, Seq::empty())
    } else {
        let (before, sent) = list_replayed(session, upgrade, s, list.drop_last());
        let (after, copy) = replayed(before, upgrade, s, list.last());
        (after, sent.push(copy))
    }
}

/// The retained messages that each of a list of new subscriptions gets, and
/// the session behind them.
pub open spec fn all_replayed(
    session: SessionView,
    upgrade: bool,
    retained: Map<Seq<char>, PublicationView>,
    list: Seq<SubscriptionView>,
) -> (SessionView, Seq<PublicationView>)
    decreases list.len(),
{
    if list.len() == 0 {
        (session, Seq::empty())
    } else {
        let (before, sent) = all_replayed(session, upgrade, retained, list.drop_last());
        let s = list.last();
        let (after, more) = list_replayed(
            before,
            upgrade,
            s,
            retained_matching(retained, s.filter),
        );
        (after, sent + more)
    }
}

/// Messages on their way to one client.
pub open spec fn addressed(client_id: Seq<char>, list: Seq<PublicationView>) -> Seq<DeliveryView> {
    list.map_values(|p: PublicationView| DeliveryView { client_id, publication: p })
}

/// A client that subscribes.
pub open spec fn subscribing(b: BrokerView, client_id: Seq<char>, requests: Seq<RequestView>) -> (
    BrokerView,
    SubscribeView,
) {
    if !b.clients.contains_key(client_id) {
        (b, SubscribeView { reason_codes: Seq::empty(), retained: Seq::empty() })
    } else {
        let session = b.clients[client_id];
        let taken = requests_taken(session.subscriptions, b.next_subscription_order, requests);
        let (after, sent) = all_replayed(
            SessionView { subscriptions: taken.subscriptions, ..session },
            b.upgrade_outgoing_qos,
            b.retained,
            taken.replays,
        );
        (
            BrokerView {
                next_subscription_order: taken.next_subscription_order,
                ..b.with_session(client_id, after)
            },
            SubscribeView {
                reason_codes: taken.reason_codes,
                retained: addressed(client_id, sent),
            },
        )
    }
}

/// A client that takes subscriptions back.
pub open spec fn unsubscribing(
    b: BrokerView,
    client_id: Seq<char>,
    filters: Seq<Seq<char>>,
) -> BrokerView {
    if !b.clients.contains_key(client_id) {
        b
    } else {
        let session = b.clients[client_id];
        b.with_session(
            client_id,
            SessionView {
                subscriptions: session.subscriptions.filter(
                    |s: SubscriptionView| !filters.contains(s.filter),
                ),
                ..session
            },
        )
    }
}

// Acknowledgements.

/// Whether a QoS 1 message to a client is not acknowledged yet.
pub open spec fn awaits_puback(b: BrokerView, client_id: Seq<char>, packet_id: u16) -> bool {
    b.clients.contains_key(client_id) && b.clients[client_id].inflight_qos1.contains_key(packet_id)
}

/// Whether a QoS 2 message to a client is not completed yet.
pub open spec fn awaits_pubcomp(b: BrokerView, client_id: Seq<char>, packet_id: u16) -> bool {
    b.clients.contains_key(client_id) && b.clients[client_id].inflight_qos2.contains_key(packet_id)
}

/// Whether a QoS 2 message from a client is held until it is released.
pub open spec fn awaits_pubrel(b: BrokerView, client_id: Seq<char>, packet_id: u16) -> bool {
    b.clients.contains_key(client_id) && b.clients[client_id].inbound_qos2.contains_key(packet_id)
}

/// A QoS 1 message is acknowledged.
pub open spec fn acknowledged(b: BrokerView, client_id: Seq<char>, packet_id: u16) -> BrokerView {
    if awaits_puback(b, client_id, packet_id) {
        let session = b.clients[client_id];
        b.with_session(
            client_id,
            SessionView { inflight_qos1: session.inflight_qos1.remove(packet_id), ..session },
        )
    } else {
        b
    }
}

/// A QoS 2 message has been received by its client.
pub open spec fn received(b: BrokerView, client_id: Seq<char>, packet_id: u16) -> BrokerView {
    if awaits_pubcomp(b, client_id, packet_id) {
        let session = b.clients[client_id];
        let outbound = session.inflight_qos2[packet_id];
        b.with_session(
            client_id,
            SessionView {
                inflight_qos2: session.inflight_qos2.insert(
                    packet_id,
                    OutboundView { state: Qos2OutboundState::WaitingPubComp, ..outbound },
                ),
                ..session
            },
        )
    } else {
        b
    }
}

/// A QoS 2 message is completed.
pub open spec fn completed(b: BrokerView, client_id: Seq<char>, packet_id: u16) -> BrokerView {
    if awaits_pubcomp(b, client_id, packet_id) {
        let session = b.clients[client_id];
        b.with_session(
            client_id,
            SessionView { inflight_qos2: session.inflight_qos2.remove(packet_id), ..session },
        )
    } else {
        b
    }
}

/// Whether the broker takes a QoS 2 message from a client: it is valid, it has
/// a packet identifier, and the client is known.
pub open spec fn takes_qos2(b: BrokerView, client_id: Seq<char>, p: PublicationView) -> bool {
    p.packet_id is Some && p.qos == 2 && valid_publication(p) && b.clients.contains_key(client_id)
}

/// A QoS 2 message that a client publishes: it is held until it is released,
/// and a second one under the same packet identifier is dropped.
pub open spec fn held(b: BrokerView, client_id: Seq<char>, p: PublicationView) -> (
    BrokerView,
    Qos2ReceiveResult,
) {
    if !takes_qos2(b, client_id, p) {
        (b, Qos2ReceiveResult { accepted: false, duplicate: false })
    } else if awaits_pubrel(b, client_id, p.packet_id->0) {
        (b, Qos2ReceiveResult { accepted: true, duplicate: true })
    } else {
        let session = b.clients[client_id];
        (
            b.with_session(
                client_id,
                SessionView {
                    inbound_qos2: session.inbound_qos2.insert(p.packet_id->0, p),
                    ..session
                },
            ),
            Qos2ReceiveResult { accepted: true, duplicate: false },
        )
    }
}

/// A QoS 2 message of a client is released: it is published.
pub open spec fn released(b: BrokerView, client_id: Seq<char>, packet_id: u16) -> (
    BrokerView,
    Option<PublishView>,
) {
    if awaits_pubrel(b, client_id, packet_id) {
        let session = b.clients[client_id];
        let (after, result) = published(
            b.with_session(
                client_id,
                SessionView { inbound_qos2: session.inbound_qos2.remove(packet_id), ..session },
            ),
            client_id,
            session.inbound_qos2[packet_id],
        );
        (after, Some(result))
    } else {
        (b, None)
    }
}

// Sessions that outlive the process.

/// Whether a queued message is taken over.
pub open spec fn keeps_queued(p: PublicationView) -> bool {
    p.qos != 0 && p.packet_id is Some && valid_publication(p)
}

/// Whether a message that is not acknowledged is taken over.
pub open spec fn keeps_inflight(p: PublicationView, qos: u8) -> bool {
    p.qos == qos && p.packet_id is Some && valid_publication(p)
}

/// A message as it is taken over: without a topic alias, and without
/// subscription identifiers that are zero.
pub open spec fn taken_over(p: PublicationView) -> PublicationView {
    PublicationView {
        topic_alias: None,
        subscription_identifiers: p.subscription_identifiers.filter(|n: u32| n > 0),
        ..p
    }
}

/// The messages of a list that are taken over with a QoS.
pub open spec fn inflight_taken_over(list: Seq<PublicationView>, qos: u8) -> Seq<PublicationView> {
    list.filter(|p: PublicationView| keeps_inflight(p, qos)).map_values(
        |p: PublicationView| taken_over(p),
    )
}

/// The outgoing QoS 2 messages of a list that are taken over.
pub open spec fn outbound_taken_over(list: Seq<OutboundView>) -> Seq<OutboundView> {
    list.filter(|o: OutboundView| keeps_inflight(o.publication, 2)).map_values(
        |o: OutboundView| OutboundView { publication: taken_over(o.publication), state: o.state },
    )
}

/// The queued messages of a list that are taken over.
pub open spec fn queue_taken_over(list: Seq<PublicationView>) -> Seq<PublicationView> {
    list.filter(|p: PublicationView| keeps_queued(p)).map_values(
        |p: PublicationView| taken_over(p),
    )
}

/// A list of messages by their packet identifiers: of two with the same one
/// the later stays.
pub open spec fn by_packet_id(list: Seq<PublicationView>) -> Map<u16, PublicationView>
    decreases list.len(),
{
    if list.len() == 0 {
        Map::empty()
    } else {
        by_packet_id(list.drop_last()).insert(list.last().packet_id->0, list.last())
    }
}

/// A list of outgoing QoS 2 messages by their packet identifiers.
pub open spec fn outbound_by_packet_id(list: Seq<OutboundView>) -> Map<u16, OutboundView>
    decreases list.len(),
{
    if list.len() == 0 {
        Map::empty()
    } else {
        outbound_by_packet_id(list.drop_last()).insert(
            list.last().publication.packet_id->0,
            list.last(),
        )
    }
}

/// The greater one of a packet identifier and those before it.
pub open spec fn greater_id(highest: Option<u16>, id: u16) -> Option<u16> {
    match highest {
        Some(n) if n > id => Some(n),
        _ => Some(id),
    }
}

/// The greatest packet identifier of a list of messages and those before it.
pub open spec fn highest_id(highest: Option<u16>, list: Seq<PublicationView>) -> Option<u16>
    decreases list.len(),
{
    if list.len() == 0 {
        highest
    } else {
        greater_id(highest_id(highest, list.drop_last()), list.last().packet_id->0)
    }
}

/// The messages of a list of outgoing QoS 2 messages.
pub open spec fn messages(list: Seq<OutboundView>) -> Seq<PublicationView> {
    list.map_values(|o: OutboundView| o.publication)
}

/// The packet identifier that follows the greatest one in use.
pub open spec fn mid_after(highest: Option<u16>) -> u16 {
    match highest {
        Some(n) => next_mid(n),
        None => 1,
    }
}

/// The subscriptions that a list makes when it is taken over: each gets a new
/// order, and of two with the same filter the later one stays.
pub open spec fn subscriptions_taken_over(
    list: Seq<SubscriptionView>,
    next_subscription_order: u64,
) -> (Seq<SubscriptionView>, u64)
    decreases list.len(),
{
    if list.len() == 0 {
        (Seq::empty(), next_subscription_order)
    } else {
        let (front, order) = subscriptions_taken_over(list.drop_last(), next_subscription_order);
        let s = list.last();
        if valid_subscription(s) {
            (
                front.filter(|f: SubscriptionView| f.filter != s.filter).push(
                    SubscriptionView { order, ..s },
                ),
                (order + 1) as u64,
            )
        } else {
            (front, order)
        }
    }
}

/// Whether a persisted session is taken over.
pub open spec fn keeps_session(p: PersistedView) -> bool {
    p.client_id.len() > 0 && p.session_expiry_interval != 0
}

/// The session that a persisted one becomes.
pub open spec fn session_taken_over(
    p: PersistedView,
    next_subscription_order: u64,
) -> SessionView {
    let queued = queue_taken_over(p.queued);
    let qos1 = inflight_taken_over(p.inflight_qos1, 1);
    let qos2 = outbound_taken_over(p.inflight_qos2);
    SessionView {
        client_id: p.client_id,
        subscriptions: subscriptions_taken_over(p.subscriptions, next_subscription_order).0,
        will: None,
        queued,
        inflight_qos1: by_packet_id(qos1),
        inflight_qos2: outbound_by_packet_id(qos2),
        inbound_qos2: by_packet_id(inflight_taken_over(p.inbound_qos2, 2)),
        session_expiry_interval: p.session_expiry_interval,
        disconnected_at: None,
        online: false,
        next_outgoing_mid: mid_after(
            highest_id(highest_id(highest_id(None, queued), qos1), messages(qos2)),
        ),
    }
}

/// The broker once it has taken over a list of persisted sessions.
pub open spec fn sessions_taken_over(b: BrokerView, list: Seq<PersistedView>) -> BrokerView
    decreases list.len(),
{
    if list.len() == 0 {
        b
    } else {
        let before = sessions_taken_over(b, list.drop_last());
        let p = list.last();
        if keeps_session(p) {
            let order = before.next_subscription_order;
            BrokerView {
                next_subscription_order: subscriptions_taken_over(p.subscriptions, order).1,
                ..before.with_session(p.client_id, session_taken_over(p, order))
            }
        } else {
            before
        }
    }
}

/// The number of subscriptions of a list of persisted sessions.
pub open spec fn subscription_count(list: Seq<PersistedView>) -> nat
    decreases list.len(),
{
    if list.len() == 0 {
        0
    } else {
        subscription_count(list.drop_last()) + list.last().subscriptions.len()
    }
}

/// The number of subscriptions of a list that are taken over.
pub open spec fn valid_subscriptions(list: Seq<SubscriptionView>) -> nat
    decreases list.len(),
{
    if list.len() == 0 {
        0
    } else {
        valid_subscriptions(list.drop_last()) + if valid_subscription(list.last()) {
            1nat
        } else {
            0
        }
    }
}

/// The number of subscriptions that are taken over with a list of persisted
/// sessions.
pub open spec fn restored_subscriptions(list: Seq<PersistedView>) -> nat
    decreases list.len(),
{
    if list.len() == 0 {
        0
    } else {
        restored_subscriptions(list.drop_last()) + if keeps_session(list.last()) {
            valid_subscriptions(list.last().subscriptions)
        } else {
            0
        }
    }
}

/// Whether the orders of the subscriptions can be counted on for a list of
/// persisted sessions: for each of their subscriptions, or at least for each that
/// is taken over.
pub open spec fn has_room_to_restore(b: BrokerView, list: Seq<PersistedView>) -> bool {
    ||| b.next_subscription_order + subscription_count(list) <= u64::MAX
    ||| b.next_subscription_order + restored_subscriptions(list) <= u64::MAX
}

/// The messages of a map in ascending order of their packet identifiers.
pub open spec fn inflight_list(map: Map<u16, PublicationView>) -> Seq<PublicationView> {
    packet_ids::ascending_ids(map.dom()).map_values(|id: u16| map[id])
}

/// The outgoing QoS 2 messages of a map in ascending order of their packet
/// identifiers.
pub open spec fn outbound_list(map: Map<u16, OutboundView>) -> Seq<OutboundView> {
    packet_ids::ascending_ids(map.dom()).map_values(|id: u16| map[id])
}

/// What is persisted of a session.
pub open spec fn persisted(session: SessionView) -> PersistedView {
    PersistedView {
        client_id: session.client_id,
        session_expiry_interval: session.session_expiry_interval,
        subscriptions: session.subscriptions,
        queued: session.queued.filter(|p: PublicationView| keeps_queued(p)),
        inflight_qos1: inflight_list(session.inflight_qos1).filter(
            |p: PublicationView| valid_publication(p),
        ),
        inflight_qos2: outbound_list(session.inflight_qos2).filter(
            |o: OutboundView| valid_publication(o.publication),
        ),
        inbound_qos2: inflight_list(session.inbound_qos2).filter(
            |p: PublicationView| valid_publication(p),
        ),
    }
}

/// The clients whose sessions outlive their connections, in ascending order.
pub open spec fn durable_ids(b: BrokerView) -> Seq<Seq<char>> {
    b.client_ids().filter(|id: Seq<char>| b.clients[id].session_expiry_interval != 0)
}

/// What is persisted of the broker's sessions.
pub open spec fn sessions_persisted(b: BrokerView) -> Seq<PersistedView> {
    durable_ids(b).map_values(|id: Seq<char>| persisted(b.clients[id]))
}

} // verus!
