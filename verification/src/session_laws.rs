//! Laws of sessions: how they outlive a connection, how they expire, and how
//! they outlive the broker's process.

use vstd::prelude::*;

use crate::broker_laws;
use crate::integrity;
use crate::model;
use crate::model::BrokerView;
use crate::packet::{PublicationView, RequestView, WillView};
use crate::packet_ids;
use crate::session::{
    DeliveryView, OutboundView, PersistedView, Qos2OutboundState, SessionView, SubscriptionView,
};
use crate::steps;
use crate::text_order;

verus! {

/// A client that has connected is online, with nothing queued, and with the
/// will and the expiry interval that it asked for. Its session is resumed
/// exactly where there is one that has not expired and the client does not ask
/// for a clean start. No other client is touched, but for those that expire.
pub proof fn law_connected_client_is_online(
    b: BrokerView,
    client_id: Seq<char>,
    clean_start: bool,
    will: Option<WillView>,
    interval: u32,
    now: u128,
)
    requires
        integrity::broker_ok(b),
    ensures
        ({
            let (after, result) = model::connected(
                b,
                client_id,
                clean_start,
                will,
                interval,
                now,
            );
            let session = after.clients[client_id];
            &&& after.clients.contains_key(client_id)
            &&& session.online && session.disconnected_at is None && session.queued.len() == 0
            &&& session.will == will && session.session_expiry_interval == interval
            &&& result.session_present <==> !clean_start && b.clients.contains_key(client_id)
                && !model::expired(b.clients[client_id], now)
            &&& session.subscriptions == if result.session_present {
                b.clients[client_id].subscriptions
            } else {
                Seq::empty()
            }
            &&& session.inbound_qos2 == if result.session_present {
                b.clients[client_id].inbound_qos2
            } else {
                Map::empty()
            }
            &&& forall|id: Seq<char>|
                id != client_id ==> {
                    &&& #[trigger] after.clients.contains_key(id) <==> b.clients.contains_key(id)
                        && !model::expired(b.clients[id], now)
                    &&& after.clients.contains_key(id) ==> after.clients[id] == b.clients[id]
                }
            &&& after.retained == b.retained && after.shared_cursors == b.shared_cursors
        }),
{
    let current = model::without_expired(b, now);
    let session = if !clean_start && current.clients.contains_key(client_id) {
        current.clients[client_id]
    } else {
        model::fresh_session(client_id)
    };
    let awake = SessionView {
        will,
        queued: Seq::empty(),
        inflight_qos1: session.inflight_qos1.map_values(|p: PublicationView| model::repeated(p)),
        inflight_qos2: session.inflight_qos2.map_values(
            |o: OutboundView| model::outbound_repeated(o),
        ),
        session_expiry_interval: interval,
        disconnected_at: None,
        online: true,
        ..session
    };
    integrity::lemma_all_outstanding_fields(awake, session.queued);
}

/// A client that starts clean begins with nothing.
pub proof fn law_clean_start_forgets(
    b: BrokerView,
    client_id: Seq<char>,
    will: Option<WillView>,
    interval: u32,
    now: u128,
)
    ensures
        ({
            let (after, result) = model::connected(b, client_id, true, will, interval, now);
            &&& !result.session_present
            &&& result.queued.len() == 0
            &&& result.pubrels.len() == 0
            &&& after.clients[client_id] == (SessionView {
                will,
                session_expiry_interval: interval,
                online: true,
                ..model::fresh_session(client_id)
            })
        }),
{
    let fresh = model::fresh_session(client_id);
    packet_ids::lemma_ascending_ids(Set::empty());
    let none = packet_ids::ascending_ids(Set::empty());
    if none.len() > 0 {
        assert(Set::<u16>::empty().contains(none[0]));
    }
    assert(none =~= Seq::empty());
    assert(fresh.inflight_qos1.dom() =~= Set::empty());
    assert(fresh.inflight_qos2.dom() =~= Set::empty());
    steps::lemma_filter_empty(
        |id: u16| fresh.inflight_qos2[id].state == Qos2OutboundState::WaitingPubRec,
    );
    steps::lemma_filter_empty(
        |id: u16| fresh.inflight_qos2[id].state == Qos2OutboundState::WaitingPubComp,
    );
    let after = model::resumed(fresh, will, interval);
    assert(after.inflight_qos1 =~= Map::empty());
    assert(after.inflight_qos2 =~= Map::empty());
}

proof fn lemma_all_outstanding_keeps(s: SessionView, list: Seq<PublicationView>)
    ensures
        forall|id: u16| #[trigger]
            s.inflight_qos1.contains_key(id) ==> model::all_outstanding(
                s,
                list,
            ).inflight_qos1.contains_key(id),
        forall|id: u16| #[trigger]
            s.inflight_qos2.contains_key(id) ==> model::all_outstanding(
                s,
                list,
            ).inflight_qos2.contains_key(id),
        forall|i: int|
            0 <= i < list.len() && (#[trigger] list[i]).packet_id is Some && list[i].qos == 1
                ==> model::all_outstanding(s, list).inflight_qos1.contains_key(
                list[i].packet_id->0,
            ),
        forall|i: int|
            0 <= i < list.len() && (#[trigger] list[i]).packet_id is Some && list[i].qos == 2
                ==> model::all_outstanding(s, list).inflight_qos2.contains_key(
                list[i].packet_id->0,
            ),
    decreases list.len(),
{
    if list.len() > 0 {
        let front = list.drop_last();
        lemma_all_outstanding_keeps(s, front);
        let before = model::all_outstanding(s, front);
        let after = model::all_outstanding(s, list);
        assert forall|i: int|
            0 <= i < list.len() && (#[trigger] list[i]).packet_id is Some && list[i].qos
                == 1 implies after.inflight_qos1.contains_key(list[i].packet_id->0) by {
            if i < front.len() {
                assert(front[i] == list[i]);
                assert(before.inflight_qos1.contains_key(list[i].packet_id->0));
            }
        }
        assert forall|i: int|
            0 <= i < list.len() && (#[trigger] list[i]).packet_id is Some && list[i].qos
                == 2 implies after.inflight_qos2.contains_key(list[i].packet_id->0) by {
            if i < front.len() {
                assert(front[i] == list[i]);
                assert(before.inflight_qos2.contains_key(list[i].packet_id->0));
            }
        }
    }
}

/// What a client is sent when it connects waits for an acknowledgement: each
/// message that is sent again or comes out of the queue, and each one that is
/// released again.
pub proof fn law_what_is_sent_on_connect_waits(
    b: BrokerView,
    client_id: Seq<char>,
    clean_start: bool,
    will: Option<WillView>,
    interval: u32,
    now: u128,
)
    requires
        integrity::broker_ok(b),
    ensures
        ({
            let (after, result) = model::connected(
                b,
                client_id,
                clean_start,
                will,
                interval,
                now,
            );
            &&& forall|i: int|
                0 <= i < result.queued.len() ==> {
                    let p = #[trigger] result.queued[i];
                    &&& p.packet_id is Some
                    &&& p.qos == 1 || p.qos == 2
                    &&& p.qos == 1 ==> model::awaits_puback(after, client_id, p.packet_id->0)
                    &&& p.qos == 2 ==> model::awaits_pubcomp(after, client_id, p.packet_id->0)
                }
            &&& forall|i: int|
                0 <= i < result.pubrels.len() ==> model::awaits_pubcomp(
                    after,
                    client_id,
                    #[trigger] result.pubrels[i],
                )
        }),
{
    let current = model::without_expired(b, now);
    integrity::law_expiry_keeps_order(b, now);
    let present = !clean_start && current.clients.contains_key(client_id);
    let session = if present {
        current.clients[client_id]
    } else {
        model::fresh_session(client_id)
    };
    assert(integrity::session_ok(client_id, session, b.next_subscription_order));
    let awake = SessionView {
        will,
        queued: Seq::empty(),
        inflight_qos1: session.inflight_qos1.map_values(|p: PublicationView| model::repeated(p)),
        inflight_qos2: session.inflight_qos2.map_values(
            |o: OutboundView| model::outbound_repeated(o),
        ),
        session_expiry_interval: interval,
        disconnected_at: None,
        online: true,
        ..session
    };
    lemma_all_outstanding_keeps(awake, session.queued);
    let (after, result) = model::connected(b, client_id, clean_start, will, interval, now);
    let first = model::repeated_qos1(session.inflight_qos1);
    let second = model::repeated_qos2(session.inflight_qos2);
    let waits_rec = |id: u16|
        session.inflight_qos2[id].state == Qos2OutboundState::WaitingPubRec;
    let waits_comp = |id: u16|
        session.inflight_qos2[id].state == Qos2OutboundState::WaitingPubComp;
    let ids1 = packet_ids::ascending_ids(session.inflight_qos1.dom());
    let ids2 = packet_ids::ascending_ids(session.inflight_qos2.dom());
    packet_ids::lemma_ascending_ids(session.inflight_qos1.dom());
    packet_ids::lemma_ascending_ids(session.inflight_qos2.dom());
    assert forall|i: int| 0 <= i < ids2.filter(waits_rec).len() implies
        session.inflight_qos2.contains_key(#[trigger] ids2.filter(waits_rec)[i]) by {
        let id = ids2.filter(waits_rec)[i];
        assert(ids2.filter(waits_rec).contains(id));
        steps::lemma_filter_contains(ids2, waits_rec, id);
    }
    assert forall|i: int| 0 <= i < result.queued.len() implies {
        let p = #[trigger] result.queued[i];
        &&& p.packet_id is Some
        &&& p.qos == 1 || p.qos == 2
        &&& p.qos == 1 ==> model::awaits_puback(after, client_id, p.packet_id->0)
        &&& p.qos == 2 ==> model::awaits_pubcomp(after, client_id, p.packet_id->0)
    } by {
        if i < first.len() {
            let id = ids1[i];
            assert(session.inflight_qos1.contains_key(id));
            assert(result.queued[i] == model::repeated(session.inflight_qos1[id]));
            assert(awake.inflight_qos1.contains_key(id));
        } else if i < first.len() + second.len() {
            let id = ids2.filter(waits_rec)[i - first.len()];
            assert(session.inflight_qos2.contains_key(id));
            assert(result.queued[i] == model::repeated(session.inflight_qos2[id].publication));
            assert(awake.inflight_qos2.contains_key(id));
        } else {
            let k = i - first.len() - second.len();
            assert(result.queued[i] == session.queued[k]);
            assert(model::keeps_queued(session.queued[k]));
        }
    }
    assert forall|i: int| 0 <= i < result.pubrels.len() implies model::awaits_pubcomp(
        after,
        client_id,
        #[trigger] result.pubrels[i],
    ) by {
        let id = result.pubrels[i];
        assert(result.pubrels == ids2.filter(waits_comp));
        assert(ids2.filter(waits_comp).contains(id));
        steps::lemma_filter_contains(ids2, waits_comp, id);
        assert(session.inflight_qos2.contains_key(id));
        assert(awake.inflight_qos2.contains_key(id));
    }
}

/// A client that says goodbye has nothing published for it, and leaves every
/// other client as it is.
pub proof fn law_graceful_disconnect_is_silent(
    b: BrokerView,
    client_id: Seq<char>,
    interval: Option<u32>,
    now: u128,
    id: Seq<char>,
)
    ensures
        ({
            let (after, deliveries) = model::disconnected(b, client_id, true, interval, now);
            &&& deliveries.len() == 0
            &&& id != client_id ==> after.clients.contains_key(id) == b.clients.contains_key(id)
            &&& id != client_id && b.clients.contains_key(id) ==> after.clients[id]
                == b.clients[id]
            &&& after.retained == b.retained
        }),
{
}

/// A will is published once: after a client has gone it has none left, so that
/// to lose its connection again sends nothing.
pub proof fn law_will_is_published_once(
    b: BrokerView,
    client_id: Seq<char>,
    graceful: bool,
    interval: Option<u32>,
    now: u128,
    again: bool,
    later_interval: Option<u32>,
    later: u128,
)
    requires
        integrity::broker_ok(b),
    ensures
        ({
            let after = model::disconnected(b, client_id, graceful, interval, now).0;
            model::disconnected(after, client_id, again, later_interval, later).1.len() == 0
        }),
{
    if b.clients.contains_key(client_id) {
        lemma_gone(b, client_id, graceful, interval, now);
    }
}

/// The session of a client that has gone, where it is kept: offline, without a
/// will, and else as it was, but for what its own will brought it.
proof fn lemma_gone(
    b: BrokerView,
    client_id: Seq<char>,
    graceful: bool,
    interval: Option<u32>,
    now: u128,
)
    requires
        integrity::broker_ok(b),
        b.clients.contains_key(client_id),
    ensures
        ({
            let after = model::disconnected(b, client_id, graceful, interval, now).0;
            let gone = model::left(b.clients[client_id], interval, now);
            &&& after.clients.contains_key(client_id) <==> gone.session_expiry_interval != 0
            &&& gone.session_expiry_interval != 0 ==> broker_laws::only_grown(
                gone,
                after.clients[client_id],
            )
        }),
{
    let session = b.clients[client_id];
    let gone = model::left(session, interval, now);
    let offline = b.with_session(client_id, gone);
    assert(integrity::session_ok(client_id, session, b.next_subscription_order));
    assert(integrity::session_ok(client_id, gone, b.next_subscription_order));
    integrity::lemma_session_replaced(b, client_id, gone);
    assert(gone.queued =~= gone.queued.take(gone.queued.len() as int));
    assert(offline.clients.contains_key(client_id));
    if let Some(will) = session.will {
        let message = model::will_message(will);
        integrity::law_publish_keeps_order(offline, client_id, message);
        if model::valid_publication(message) {
            broker_laws::law_published_message_is_delivered(offline, client_id, message);
        }
    }
}

/// A client that loses its connection has its will published: every other
/// client that is online and has subscribed to the topic is sent it.
pub proof fn law_will_reaches_its_subscribers(
    b: BrokerView,
    client_id: Seq<char>,
    interval: Option<u32>,
    now: u128,
    will: WillView,
    other: Seq<char>,
)
    requires
        integrity::broker_ok(b),
        b.clients.contains_key(client_id),
        b.clients[client_id].will == Some(will),
        model::valid_publication(model::will_message(will)),
        other != client_id,
        b.clients.contains_key(other),
        b.clients[other].online,
        model::own_takers(
            b.clients[other],
            other,
            model::Route { source: client_id, qos: will.qos, topic: will.topic },
        ).len() > 0,
    ensures
        ({
            let sent = model::disconnected(b, client_id, false, interval, now).1;
            &&& sent.filter(|d: DeliveryView| d.client_id == other).len() > 0
            &&& forall|i: int|
                0 <= i < sent.len() ==> (#[trigger] sent[i]).publication.topic == will.topic
                    && sent[i].publication.payload == will.payload
        }),
{
    let session = b.clients[client_id];
    let gone = model::left(session, interval, now);
    let offline = b.with_session(client_id, gone);
    let message = model::will_message(will);
    assert(integrity::session_ok(client_id, session, b.next_subscription_order));
    assert(integrity::session_ok(client_id, gone, b.next_subscription_order));
    integrity::lemma_session_replaced(b, client_id, gone);
    broker_laws::law_messages_sent_to_a_client(offline, client_id, message, other);
    broker_laws::law_published_message_is_delivered(offline, client_id, message);
}

/// A session outlives the connection for its interval: a client that comes back
/// in time, and does not ask for a clean start, finds its subscriptions, and is
/// sent every message that was queued for it.
pub proof fn law_session_outlives_the_connection(
    b: BrokerView,
    client_id: Seq<char>,
    graceful: bool,
    interval: Option<u32>,
    gone_at: u128,
    will: Option<WillView>,
    new_interval: u32,
    back_at: u128,
)
    requires
        integrity::broker_ok(b),
        b.clients.contains_key(client_id),
        ({
            let kept = model::left(b.clients[client_id], interval, gone_at).session_expiry_interval;
            &&& kept != 0
            &&& kept == model::NEVER_EXPIRES || back_at - gone_at < kept * model::SECOND
        }),
    ensures
        ({
            let gone = model::disconnected(b, client_id, graceful, interval, gone_at).0;
            let (after, result) = model::connected(
                gone,
                client_id,
                false,
                will,
                new_interval,
                back_at,
            );
            let queue = gone.clients[client_id].queued;
            &&& result.session_present
            &&& after.clients[client_id].subscriptions == b.clients[client_id].subscriptions
            &&& b.clients[client_id].queued.len() <= queue.len()
            &&& b.clients[client_id].queued == queue.take(
                b.clients[client_id].queued.len() as int,
            )
            &&& queue.len() <= result.queued.len()
            &&& result.queued.skip(result.queued.len() - queue.len()) == queue
        }),
{
    integrity::law_disconnect_keeps_order(b, client_id, graceful, interval, gone_at);
    lemma_gone(b, client_id, graceful, interval, gone_at);
    let gone = model::disconnected(b, client_id, graceful, interval, gone_at).0;
    let session = gone.clients[client_id];
    assert(!model::expired(session, back_at));
    law_connected_client_is_online(gone, client_id, false, will, new_interval, back_at);
    let result = model::connected(gone, client_id, false, will, new_interval, back_at).1;
    assert(result.queued.skip(result.queued.len() - session.queued.len()) =~= session.queued);
}

/// A session that has been offline for its interval is gone: a client that
/// comes back later begins anew.
pub proof fn law_session_expires(
    b: BrokerView,
    client_id: Seq<char>,
    graceful: bool,
    interval: Option<u32>,
    gone_at: u128,
    will: Option<WillView>,
    new_interval: u32,
    back_at: u128,
)
    requires
        integrity::broker_ok(b),
        b.clients.contains_key(client_id),
        ({
            let kept = model::left(b.clients[client_id], interval, gone_at).session_expiry_interval;
            &&& kept != model::NEVER_EXPIRES
            &&& back_at >= gone_at && back_at - gone_at >= kept * model::SECOND
        }),
    ensures
        ({
            let gone = model::disconnected(b, client_id, graceful, interval, gone_at).0;
            let result = model::connected(gone, client_id, false, will, new_interval, back_at).1;
            !result.session_present
        }),
{
    integrity::law_disconnect_keeps_order(b, client_id, graceful, interval, gone_at);
    lemma_gone(b, client_id, graceful, interval, gone_at);
    let gone = model::disconnected(b, client_id, graceful, interval, gone_at).0;
    law_connected_client_is_online(gone, client_id, false, will, new_interval, back_at);
    let kept = model::left(b.clients[client_id], interval, gone_at).session_expiry_interval;
    assert(kept * model::SECOND >= 0) by (nonlinear_arith)
        requires
            kept >= 0,
    ;
}

// Sessions that outlive the process.

/// Whether a subscription has come back as it was, but for its order.
pub open spec fn subscriptions_restored(
    before: Seq<SubscriptionView>,
    after: Seq<SubscriptionView>,
) -> bool {
    &&& after.len() == before.len()
    &&& forall|i: int|
        0 <= i < after.len() ==> #[trigger] after[i] == (SubscriptionView {
            order: after[i].order,
            ..before[i]
        })
}

/// An outgoing QoS 2 message as it is taken over.
pub open spec fn outbound_restored(o: OutboundView) -> OutboundView {
    OutboundView { publication: model::taken_over(o.publication), state: o.state }
}

/// Whether a session has come back from a snapshot: offline and without a will,
/// with the same subscriptions in the same order, and with every message that
/// was queued, unacknowledged or held.
pub open spec fn session_restored(before: SessionView, after: SessionView) -> bool {
    &&& after.client_id == before.client_id
    &&& after.session_expiry_interval == before.session_expiry_interval
    &&& subscriptions_restored(before.subscriptions, after.subscriptions)
    &&& after.queued == before.queued.map_values(|p: PublicationView| model::taken_over(p))
    &&& after.inflight_qos1 == before.inflight_qos1.map_values(
        |p: PublicationView| model::taken_over(p),
    )
    &&& after.inflight_qos2 == before.inflight_qos2.map_values(
        |o: OutboundView| outbound_restored(o),
    )
    &&& after.inbound_qos2 == before.inbound_qos2.map_values(
        |p: PublicationView| model::taken_over(p),
    )
    &&& !after.online && after.will is None && after.disconnected_at is None
}

proof fn lemma_subscriptions_come_back(
    list: Seq<SubscriptionView>,
    bound: u64,
    order: u64,
)
    requires
        integrity::subscriptions_ok(list, bound),
        order + list.len() <= u64::MAX,
    ensures
        subscriptions_restored(list, model::subscriptions_taken_over(list, order).0),
        model::subscriptions_taken_over(list, order).1 == order + list.len(),
    decreases list.len(),
{
    if list.len() > 0 {
        let front = list.drop_last();
        let s = list.last();
        assert(integrity::subscriptions_ok(front, bound)) by {
            assert forall|i: int| 0 <= i < front.len() implies model::valid_subscription(
                #[trigger] front[i],
            ) by {
                assert(front[i] == list[i]);
            }
        }
        lemma_subscriptions_come_back(front, bound, order);
        assert(model::valid_subscription(list[list.len() - 1]));
        let kept = model::subscriptions_taken_over(front, order).0;
        let keep = |f: SubscriptionView| f.filter != s.filter;
        assert forall|i: int| 0 <= i < kept.len() implies keep(#[trigger] kept[i]) by {
            assert(kept[i].filter == front[i].filter);
            assert(list[i].filter != list[list.len() - 1].filter);
        }
        steps::lemma_filter_all(kept, keep);
        let after = model::subscriptions_taken_over(list, order).0;
        assert forall|i: int| 0 <= i < after.len() implies #[trigger] after[i] == (
        SubscriptionView { order: after[i].order, ..list[i] }) by {
            if i < kept.len() {
                assert(after[i] == kept[i]);
                assert(front[i] == list[i]);
            }
        }
    }
}

proof fn lemma_by_packet_id_front(map: Map<u16, PublicationView>, qos: u8, ids: Seq<u16>)
    requires
        forall|i: int| 0 <= i < ids.len() ==> map.contains_key(#[trigger] ids[i]),
        forall|id: u16| #[trigger]
            map.contains_key(id) ==> integrity::message_ok(map[id], id, qos),
    ensures
        ({
            let list = ids.map_values(|id: u16| model::taken_over(map[id]));
            &&& forall|id: u16| #[trigger]
                model::by_packet_id(list).contains_key(id) <==> ids.contains(id)
            &&& forall|id: u16| #[trigger]
                model::by_packet_id(list).contains_key(id) ==> model::by_packet_id(list)[id]
                    == model::taken_over(map[id])
        }),
    decreases ids.len(),
{
    let list = ids.map_values(|id: u16| model::taken_over(map[id]));
    if ids.len() > 0 {
        let front = ids.drop_last();
        let last = ids.last();
        assert forall|i: int| 0 <= i < front.len() implies map.contains_key(
            #[trigger] front[i],
        ) by {
            assert(front[i] == ids[i]);
        }
        lemma_by_packet_id_front(map, qos, front);
        assert(list.drop_last() =~= front.map_values(|id: u16| model::taken_over(map[id])));
        assert(map.contains_key(ids[ids.len() - 1]));
        assert(list.last() == model::taken_over(map[last]));
        assert(list.last().packet_id == Some(last));
        assert(ids =~= front.push(last));
        assert forall|id: u16| #[trigger] model::by_packet_id(list).contains_key(id)
            <==> ids.contains(id) by {
            steps::lemma_push_contains(front, last, id);
        }
    }
}

/// A map of messages comes back from its list.
proof fn lemma_inflight_comes_back(map: Map<u16, PublicationView>, qos: u8)
    requires
        forall|id: u16| #[trigger]
            map.contains_key(id) ==> integrity::message_ok(map[id], id, qos),
    ensures
        model::by_packet_id(
            model::inflight_taken_over(
                model::inflight_list(map).filter(|p: PublicationView| model::valid_publication(p)),
                qos,
            ),
        ) == map.map_values(|p: PublicationView| model::taken_over(p)),
{
    let ids = packet_ids::ascending_ids(map.dom());
    packet_ids::lemma_ascending_ids(map.dom());
    let list = model::inflight_list(map);
    let valid = |p: PublicationView| model::valid_publication(p);
    let keep = |p: PublicationView| model::keeps_inflight(p, qos);
    assert forall|i: int| 0 <= i < list.len() implies valid(#[trigger] list[i]) && keep(
        list[i],
    ) by {
        assert(map.contains_key(ids[i]));
        assert(list[i] == map[ids[i]]);
    }
    steps::lemma_filter_all(list, valid);
    steps::lemma_filter_all(list, keep);
    lemma_by_packet_id_front(map, qos, ids);
    assert(model::inflight_taken_over(list, qos) =~= ids.map_values(
        |id: u16| model::taken_over(map[id]),
    ));
    let restored = model::by_packet_id(model::inflight_taken_over(list, qos));
    let expected = map.map_values(|p: PublicationView| model::taken_over(p));
    assert forall|id: u16| #[trigger] restored.contains_key(id) <==> expected.contains_key(
        id,
    ) by {
        assert(ids.contains(id) <==> map.contains_key(id));
    }
    assert(restored =~= expected);
}

proof fn lemma_outbound_front(map: Map<u16, OutboundView>, ids: Seq<u16>)
    requires
        forall|i: int| 0 <= i < ids.len() ==> map.contains_key(#[trigger] ids[i]),
        forall|id: u16| #[trigger]
            map.contains_key(id) ==> integrity::message_ok(map[id].publication, id, 2),
    ensures
        ({
            let list = ids.map_values(|id: u16| outbound_restored(map[id]));
            &&& forall|id: u16| #[trigger]
                model::outbound_by_packet_id(list).contains_key(id) <==> ids.contains(id)
            &&& forall|id: u16| #[trigger]
                model::outbound_by_packet_id(list).contains_key(id)
                    ==> model::outbound_by_packet_id(list)[id] == outbound_restored(map[id])
        }),
    decreases ids.len(),
{
    let list = ids.map_values(|id: u16| outbound_restored(map[id]));
    if ids.len() > 0 {
        let front = ids.drop_last();
        let last = ids.last();
        assert forall|i: int| 0 <= i < front.len() implies map.contains_key(
            #[trigger] front[i],
        ) by {
            assert(front[i] == ids[i]);
        }
        lemma_outbound_front(map, front);
        assert(list.drop_last() =~= front.map_values(|id: u16| outbound_restored(map[id])));
        assert(map.contains_key(ids[ids.len() - 1]));
        assert(list.last() == outbound_restored(map[last]));
        assert(list.last().publication.packet_id == Some(last));
        assert(ids =~= front.push(last));
        assert forall|id: u16| #[trigger] model::outbound_by_packet_id(list).contains_key(id)
            <==> ids.contains(id) by {
            steps::lemma_push_contains(front, last, id);
        }
    }
}

/// A map of outgoing QoS 2 messages comes back from its list.
proof fn lemma_outbound_comes_back(map: Map<u16, OutboundView>)
    requires
        forall|id: u16| #[trigger]
            map.contains_key(id) ==> integrity::message_ok(map[id].publication, id, 2),
    ensures
        model::outbound_by_packet_id(
            model::outbound_taken_over(
                model::outbound_list(map).filter(
                    |o: OutboundView| model::valid_publication(o.publication),
                ),
            ),
        ) == map.map_values(|o: OutboundView| outbound_restored(o)),
{
    let ids = packet_ids::ascending_ids(map.dom());
    packet_ids::lemma_ascending_ids(map.dom());
    let list = model::outbound_list(map);
    let valid = |o: OutboundView| model::valid_publication(o.publication);
    let keep = |o: OutboundView| model::keeps_inflight(o.publication, 2);
    assert forall|i: int| 0 <= i < list.len() implies valid(#[trigger] list[i]) && keep(
        list[i],
    ) by {
        assert(map.contains_key(ids[i]));
        assert(list[i] == map[ids[i]]);
    }
    steps::lemma_filter_all(list, valid);
    steps::lemma_filter_all(list, keep);
    lemma_outbound_front(map, ids);
    assert(model::outbound_taken_over(list) =~= ids.map_values(
        |id: u16| outbound_restored(map[id]),
    ));
    let restored = model::outbound_by_packet_id(model::outbound_taken_over(list));
    let expected = map.map_values(|o: OutboundView| outbound_restored(o));
    assert forall|id: u16| #[trigger] restored.contains_key(id) <==> expected.contains_key(
        id,
    ) by {
        assert(ids.contains(id) <==> map.contains_key(id));
    }
    assert(restored =~= expected);
}

/// A session that was persisted comes back from it.
pub proof fn law_session_comes_back(
    client_id: Seq<char>,
    s: SessionView,
    bound: u64,
    order: u64,
)
    requires
        integrity::session_ok(client_id, s, bound),
        order + s.subscriptions.len() <= u64::MAX,
    ensures
        session_restored(s, model::session_taken_over(model::persisted(s), order)),
{
    lemma_subscriptions_come_back(s.subscriptions, bound, order);
    steps::lemma_filter_all(s.queued, |p: PublicationView| model::keeps_queued(p));
    lemma_inflight_comes_back(s.inflight_qos1, 1);
    lemma_inflight_comes_back(s.inbound_qos2, 2);
    lemma_outbound_comes_back(s.inflight_qos2);
}

proof fn lemma_front_comes_back(b: BrokerView, ids: Seq<Seq<char>>, order: u64)
    requires
        integrity::broker_ok(b),
        forall|i: int|
            0 <= i < ids.len() ==> b.clients.contains_key(#[trigger] ids[i])
                && b.clients[ids[i]].session_expiry_interval != 0,
        order + model::restored_subscriptions(
            ids.map_values(|id: Seq<char>| model::persisted(b.clients[id])),
        ) <= u64::MAX,
    ensures
        ({
            let list = ids.map_values(|id: Seq<char>| model::persisted(b.clients[id]));
            let after = model::sessions_taken_over(model::fresh_broker(order), list);
            &&& forall|id: Seq<char>| #[trigger]
                after.clients.contains_key(id) <==> ids.contains(id) && id.len() > 0
            &&& forall|id: Seq<char>| #[trigger]
                after.clients.contains_key(id) ==> session_restored(
                    b.clients[id],
                    after.clients[id],
                )
            &&& after.next_subscription_order == order + model::restored_subscriptions(list)
        }),
    decreases ids.len(),
{
    let entry = |id: Seq<char>| model::persisted(b.clients[id]);
    let list = ids.map_values(entry);
    if ids.len() > 0 {
        let front = ids.drop_last();
        let last = ids.last();
        assert(list.drop_last() =~= front.map_values(entry));
        assert forall|i: int| 0 <= i < front.len() implies b.clients.contains_key(
            #[trigger] front[i],
        ) && b.clients[front[i]].session_expiry_interval != 0 by {
            assert(front[i] == ids[i]);
        }
        lemma_front_comes_back(b, front, order);
        assert(b.clients.contains_key(ids[ids.len() - 1]));
        let s = b.clients[last];
        let p = model::persisted(s);
        assert(list.last() == p);
        assert(integrity::session_ok(last, s, b.next_subscription_order));
        assert(p.client_id == last);
        let before = model::sessions_taken_over(
            model::fresh_broker(order),
            front.map_values(entry),
        );
        integrity::lemma_valid_count(s.subscriptions);
        assert(ids =~= front.push(last));
        assert forall|id: Seq<char>| ids.contains(id) <==> front.contains(id) || id == last by {
            steps::lemma_push_contains(front, last, id);
        }
        if model::keeps_session(p) {
            law_session_comes_back(
                last,
                s,
                b.next_subscription_order,
                before.next_subscription_order,
            );
            lemma_subscriptions_come_back(
                s.subscriptions,
                b.next_subscription_order,
                before.next_subscription_order,
            );
        }
    }
}

proof fn lemma_sessions_survive(b: BrokerView, order: u64)
    requires
        integrity::broker_ok(b),
        model::has_room_to_restore(model::fresh_broker(order), model::sessions_persisted(b)),
    ensures
        ({
            let after = model::sessions_taken_over(
                model::fresh_broker(order),
                model::sessions_persisted(b),
            );
            &&& forall|id: Seq<char>| #[trigger]
                after.clients.contains_key(id) <==> b.clients.contains_key(id)
                    && b.clients[id].session_expiry_interval != 0 && id.len() > 0
            &&& forall|id: Seq<char>| #[trigger]
                after.clients.contains_key(id) ==> session_restored(
                    b.clients[id],
                    after.clients[id],
                )
        }),
{
    let durable = |id: Seq<char>| b.clients[id].session_expiry_interval != 0;
    let ids = model::durable_ids(b);
    text_order::lemma_in_order(b.clients.dom());
    assert forall|id: Seq<char>| ids.contains(id) <==> b.clients.contains_key(id) && durable(
        id,
    ) by {
        steps::lemma_filter_contains(b.client_ids(), durable, id);
        assert(b.client_ids().contains(id) <==> b.clients.dom().contains(id));
    }
    assert forall|i: int| 0 <= i < ids.len() implies b.clients.contains_key(#[trigger] ids[i])
        && b.clients[ids[i]].session_expiry_interval != 0 by {
        assert(ids.contains(ids[i]));
    }
    integrity::lemma_restored_count(model::sessions_persisted(b));
    lemma_front_comes_back(b, ids, order);
}

/// Subscriptions whose orders count on from a number, as they are listed.
pub open spec fn renumbered(list: Seq<SubscriptionView>, first: nat) -> Seq<SubscriptionView> {
    Seq::new(list.len(), |i: int| SubscriptionView { order: (first + i) as u64, ..list[i] })
}

/// A persisted session as it is persisted again once it has been taken over: its
/// subscriptions have new orders, and its messages are without topic aliases and
/// without subscription identifiers that are zero.
pub open spec fn persisted_again(p: PersistedView, first: nat) -> PersistedView {
    PersistedView {
        client_id: p.client_id,
        session_expiry_interval: p.session_expiry_interval,
        subscriptions: renumbered(p.subscriptions, first),
        queued: p.queued.map_values(|m: PublicationView| model::taken_over(m)),
        inflight_qos1: p.inflight_qos1.map_values(|m: PublicationView| model::taken_over(m)),
        inflight_qos2: p.inflight_qos2.map_values(|o: OutboundView| outbound_restored(o)),
        inbound_qos2: p.inbound_qos2.map_values(|m: PublicationView| model::taken_over(m)),
    }
}

/// The persisted sessions of clients that have a name.
pub open spec fn with_names(list: Seq<PersistedView>) -> Seq<PersistedView> {
    list.filter(|p: PersistedView| p.client_id.len() > 0)
}

/// A snapshot as it is taken again: the orders count on from a number through
/// all sessions, as they are listed.
pub open spec fn snapshot_again(list: Seq<PersistedView>, first: nat) -> Seq<PersistedView> {
    Seq::new(
        list.len(),
        |k: int| persisted_again(list[k], first + model::subscription_count(list.take(k))),
    )
}

proof fn lemma_snapshot_again_push(list: Seq<PersistedView>, p: PersistedView, first: nat)
    ensures
        snapshot_again(list.push(p), first) == snapshot_again(list, first).push(
            persisted_again(p, first + model::subscription_count(list)),
        ),
        model::subscription_count(list.push(p)) == model::subscription_count(list)
            + p.subscriptions.len(),
{
    let whole = snapshot_again(list.push(p), first);
    let parts = snapshot_again(list, first).push(
        persisted_again(p, first + model::subscription_count(list)),
    );
    assert(list.push(p).drop_last() =~= list);
    assert forall|k: int| 0 <= k < whole.len() implies whole[k] == parts[k] by {
        if k < list.len() {
            assert(list.push(p).take(k) =~= list.take(k));
        } else {
            assert(list.push(p).take(k) =~= list);
        }
    }
    assert(whole =~= parts);
}

proof fn lemma_orders_count_on(list: Seq<SubscriptionView>, bound: u64, order: u64)
    requires
        integrity::subscriptions_ok(list, bound),
        order + list.len() <= u64::MAX,
    ensures
        model::subscriptions_taken_over(list, order) == (
            renumbered(list, order as nat),
            (order + list.len()) as u64,
        ),
    decreases list.len(),
{
    let after = model::subscriptions_taken_over(list, order).0;
    if list.len() > 0 {
        let front = list.drop_last();
        let s = list.last();
        assert(integrity::subscriptions_ok(front, bound)) by {
            assert forall|i: int| 0 <= i < front.len() implies model::valid_subscription(
                #[trigger] front[i],
            ) by {
                assert(front[i] == list[i]);
            }
        }
        lemma_orders_count_on(front, bound, order);
        assert(model::valid_subscription(list[list.len() - 1]));
        let kept = model::subscriptions_taken_over(front, order).0;
        let keep = |f: SubscriptionView| f.filter != s.filter;
        assert forall|i: int| 0 <= i < kept.len() implies keep(#[trigger] kept[i]) by {
            assert(kept[i].filter == front[i].filter);
            assert(list[i].filter != list[list.len() - 1].filter);
        }
        steps::lemma_filter_all(kept, keep);
    }
    assert(after =~= renumbered(list, order as nat));
}

/// What is persisted of a session that is in order: all of its messages.
pub proof fn lemma_persisted_whole(client_id: Seq<char>, s: SessionView, bound: u64)
    requires
        integrity::session_ok(client_id, s, bound),
    ensures
        model::persisted(s) == (PersistedView {
            client_id: s.client_id,
            session_expiry_interval: s.session_expiry_interval,
            subscriptions: s.subscriptions,
            queued: s.queued,
            inflight_qos1: model::inflight_list(s.inflight_qos1),
            inflight_qos2: model::outbound_list(s.inflight_qos2),
            inbound_qos2: model::inflight_list(s.inbound_qos2),
        }),
{
    let valid = |p: PublicationView| model::valid_publication(p);
    let valid2 = |o: OutboundView| model::valid_publication(o.publication);
    packet_ids::lemma_ascending_ids(s.inflight_qos1.dom());
    packet_ids::lemma_ascending_ids(s.inflight_qos2.dom());
    packet_ids::lemma_ascending_ids(s.inbound_qos2.dom());
    let one = model::inflight_list(s.inflight_qos1);
    let two = model::outbound_list(s.inflight_qos2);
    let three = model::inflight_list(s.inbound_qos2);
    assert forall|i: int| 0 <= i < one.len() implies valid(#[trigger] one[i]) by {
        let id = packet_ids::ascending_ids(s.inflight_qos1.dom())[i];
        assert(s.inflight_qos1.contains_key(id));
    }
    assert forall|i: int| 0 <= i < two.len() implies valid2(#[trigger] two[i]) by {
        let id = packet_ids::ascending_ids(s.inflight_qos2.dom())[i];
        assert(s.inflight_qos2.contains_key(id));
    }
    assert forall|i: int| 0 <= i < three.len() implies valid(#[trigger] three[i]) by {
        let id = packet_ids::ascending_ids(s.inbound_qos2.dom())[i];
        assert(s.inbound_qos2.contains_key(id));
    }
    steps::lemma_filter_all(s.queued, |p: PublicationView| model::keeps_queued(p));
    steps::lemma_filter_all(one, valid);
    steps::lemma_filter_all(two, valid2);
    steps::lemma_filter_all(three, valid);
}

/// A session that was persisted and taken over is persisted again as it was, but
/// for the orders of its subscriptions, the topic aliases and the zero
/// identifiers.
pub proof fn law_session_is_persisted_again(
    client_id: Seq<char>,
    s: SessionView,
    bound: u64,
    order: u64,
)
    requires
        integrity::session_ok(client_id, s, bound),
        order + s.subscriptions.len() <= u64::MAX,
    ensures
        model::persisted(model::session_taken_over(model::persisted(s), order))
            == persisted_again(model::persisted(s), order as nat),
{
    let p = model::persisted(s);
    let t = model::session_taken_over(p, order);
    law_session_comes_back(client_id, s, bound, order);
    lemma_orders_count_on(s.subscriptions, bound, order);
    integrity::lemma_valid_count(s.subscriptions);
    integrity::lemma_session_taken_over_ok(p, order);
    lemma_persisted_whole(client_id, s, bound);
    lemma_persisted_whole(
        client_id,
        t,
        model::subscriptions_taken_over(p.subscriptions, order).1,
    );
    packet_ids::lemma_ascending_ids(s.inflight_qos1.dom());
    packet_ids::lemma_ascending_ids(s.inflight_qos2.dom());
    packet_ids::lemma_ascending_ids(s.inbound_qos2.dom());
    assert(t.inflight_qos1.dom() =~= s.inflight_qos1.dom());
    assert(t.inflight_qos2.dom() =~= s.inflight_qos2.dom());
    assert(t.inbound_qos2.dom() =~= s.inbound_qos2.dom());
    let again = persisted_again(p, order as nat);
    let now = model::persisted(t);
    assert(now.queued =~= again.queued);
    assert(now.inflight_qos1 =~= again.inflight_qos1);
    assert(now.inflight_qos2 =~= again.inflight_qos2);
    assert(now.inbound_qos2 =~= again.inbound_qos2);
}

proof fn lemma_front_is_persisted_again(b: BrokerView, ids: Seq<Seq<char>>, order: u64)
    requires
        integrity::broker_ok(b),
        text_order::ascending(ids),
        forall|i: int|
            0 <= i < ids.len() ==> b.clients.contains_key(#[trigger] ids[i])
                && b.clients[ids[i]].session_expiry_interval != 0,
        order + model::restored_subscriptions(
            ids.map_values(|id: Seq<char>| model::persisted(b.clients[id])),
        ) <= u64::MAX,
    ensures
        ({
            let list = ids.map_values(|id: Seq<char>| model::persisted(b.clients[id]));
            let after = model::sessions_taken_over(model::fresh_broker(order), list);
            let named = ids.filter(|id: Seq<char>| id.len() > 0);
            &&& named.map_values(|id: Seq<char>| model::persisted(after.clients[id]))
                == snapshot_again(with_names(list), order as nat)
            &&& model::restored_subscriptions(list) == model::subscription_count(with_names(list))
            &&& after.next_subscription_order == order + model::subscription_count(
                with_names(list),
            )
        }),
    decreases ids.len(),
{
    let entry = |id: Seq<char>| model::persisted(b.clients[id]);
    let some = |id: Seq<char>| id.len() > 0;
    let kept = |p: PersistedView| p.client_id.len() > 0;
    let list = ids.map_values(entry);
    let fresh = model::fresh_broker(order);
    let after = model::sessions_taken_over(fresh, list);
    if ids.len() == 0 {
        assert(ids =~= Seq::empty());
        assert(list =~= Seq::empty());
        steps::lemma_filter_empty(some);
        steps::lemma_filter_empty(kept);
        assert(ids.filter(some).map_values(
            |id: Seq<char>| model::persisted(after.clients[id]),
        ) =~= snapshot_again(with_names(list), order as nat));
    } else {
        let front = ids.drop_last();
        let last = ids.last();
        let earlier = front.map_values(entry);
        assert(list.drop_last() =~= earlier);
        assert forall|i: int| 0 <= i < front.len() implies b.clients.contains_key(
            #[trigger] front[i],
        ) && b.clients[front[i]].session_expiry_interval != 0 by {
            assert(front[i] == ids[i]);
        }
        assert forall|i: int, j: int| 0 <= i < j < front.len() implies text_order::text_less(
            #[trigger] front[i],
            #[trigger] front[j],
        ) by {
            assert(text_order::text_less(ids[i], ids[j]));
        }
        lemma_front_is_persisted_again(b, front, order);
        assert(b.clients.contains_key(ids[ids.len() - 1]));
        let s = b.clients[last];
        let p = model::persisted(s);
        assert(list.last() == p);
        assert(integrity::session_ok(last, s, b.next_subscription_order));
        assert(p.client_id == last);
        let before = model::sessions_taken_over(fresh, earlier);
        integrity::lemma_valid_count(s.subscriptions);
        let names = front.filter(some);
        let shown = names.map_values(|id: Seq<char>| model::persisted(before.clients[id]));
        let again = |id: Seq<char>| model::persisted(after.clients[id]);
        assert(ids =~= front.push(last));
        assert(list =~= earlier.push(p));
        steps::lemma_filter_push(front, last, some);
        steps::lemma_filter_push(earlier, p, kept);
        assert forall|i: int| 0 <= i < names.len() implies #[trigger] names[i] != last by {
            assert(names.contains(names[i]));
            steps::lemma_filter_contains(front, some, names[i]);
            let k = front.index_of(names[i]);
            if names[i] == last {
                text_order::lemma_ascending_distinct(ids, k, ids.len() - 1);
            }
        }
        if some(last) {
            let next = before.next_subscription_order;
            law_session_is_persisted_again(last, s, b.next_subscription_order, next);
            lemma_orders_count_on(s.subscriptions, b.next_subscription_order, next);
            lemma_snapshot_again_push(with_names(earlier), p, order as nat);
            assert(names.map_values(again) =~= shown);
            assert(names.push(last).map_values(again) =~= shown.push(again(last)));
        } else {
            assert(names.map_values(again) =~= shown);
        }
    }
}

/// Sessions outlive the broker's process: a new broker that takes over a
/// snapshot holds every session that outlives its connection and has a client
/// name, and no other, each as it was persisted. Its own snapshot is the same
/// again, but that the orders of the subscriptions count on from the broker's
/// first one through all sessions as they are listed, that the messages are
/// without topic aliases and without zero identifiers, and that a session without
/// a client name is left out.
pub proof fn law_sessions_survive(b: BrokerView, order: u64)
    requires
        integrity::broker_ok(b),
        model::has_room_to_restore(model::fresh_broker(order), model::sessions_persisted(b)),
    ensures
        ({
            let after = model::sessions_taken_over(
                model::fresh_broker(order),
                model::sessions_persisted(b),
            );
            &&& forall|id: Seq<char>| #[trigger]
                after.clients.contains_key(id) <==> b.clients.contains_key(id)
                    && b.clients[id].session_expiry_interval != 0 && id.len() > 0
            &&& forall|id: Seq<char>| #[trigger]
                after.clients.contains_key(id) ==> session_restored(
                    b.clients[id],
                    after.clients[id],
                )
            &&& model::sessions_persisted(after) == snapshot_again(
                with_names(model::sessions_persisted(b)),
                order as nat,
            )
        }),
{
    let durable = |id: Seq<char>| b.clients[id].session_expiry_interval != 0;
    let some = |id: Seq<char>| id.len() > 0;
    let ids = model::durable_ids(b);
    let list = model::sessions_persisted(b);
    let after = model::sessions_taken_over(model::fresh_broker(order), list);
    text_order::lemma_in_order(b.clients.dom());
    lemma_ascending_filtered(b.client_ids(), durable);
    lemma_ascending_filtered(ids, some);
    assert forall|id: Seq<char>| #[trigger] ids.contains(id) <==> b.clients.contains_key(id)
        && durable(id) by {
        steps::lemma_filter_contains(b.client_ids(), durable, id);
        assert(b.client_ids().contains(id) <==> b.clients.dom().contains(id));
    }
    assert forall|i: int| 0 <= i < ids.len() implies b.clients.contains_key(#[trigger] ids[i])
        && b.clients[ids[i]].session_expiry_interval != 0 by {
        assert(ids.contains(ids[i]));
    }
    integrity::lemma_restored_count(list);
    lemma_front_is_persisted_again(b, ids, order);
    lemma_sessions_survive(b, order);
    let named = ids.filter(some);
    assert forall|id: Seq<char>| #[trigger] named.contains(id) <==> after.clients.dom().contains(
        id,
    ) by {
        steps::lemma_filter_contains(ids, some, id);
        assert(after.clients.contains_key(id) <==> b.clients.contains_key(id) && durable(id)
            && some(id));
    }
    text_order::lemma_lists_in_order(named, after.clients.dom());
    let lasting = |id: Seq<char>| after.clients[id].session_expiry_interval != 0;
    assert forall|i: int| 0 <= i < named.len() implies lasting(#[trigger] named[i]) by {
        assert(named.contains(named[i]));
        assert(after.clients.contains_key(named[i]));
        assert(session_restored(b.clients[named[i]], after.clients[named[i]]));
    }
    steps::lemma_filter_all(named, lasting);
}

/// The clients of a list of persisted sessions.
pub open spec fn clients_of(list: Seq<PersistedView>) -> Seq<Seq<char>> {
    list.map_values(|p: PersistedView| p.client_id)
}

/// A snapshot of the sessions holds each session that outlives its connection
/// once, in ascending order of the clients, and the subscriptions of each in the
/// order in which they were made.
pub proof fn law_session_snapshot_is_in_order(b: BrokerView)
    requires
        integrity::broker_ok(b),
    ensures
        text_order::lists(
            clients_of(model::sessions_persisted(b)),
            b.clients.dom().filter(|id: Seq<char>| b.clients[id].session_expiry_interval != 0),
        ),
        forall|i: int|
            0 <= i < model::sessions_persisted(b).len() ==> integrity::subscriptions_ok(
                (#[trigger] model::sessions_persisted(b)[i]).subscriptions,
                b.next_subscription_order,
            ),
{
    let durable = |id: Seq<char>| b.clients[id].session_expiry_interval != 0;
    let ids = model::durable_ids(b);
    text_order::lemma_in_order(b.clients.dom());
    lemma_ascending_filtered(b.client_ids(), durable);
    assert forall|id: Seq<char>| #[trigger] ids.contains(id) <==> b.clients.dom().filter(
        durable,
    ).contains(id) by {
        steps::lemma_filter_contains(b.client_ids(), durable, id);
        assert(b.client_ids().contains(id) <==> b.clients.dom().contains(id));
    }
    assert forall|i: int| 0 <= i < ids.len() implies clients_of(
        model::sessions_persisted(b),
    )[i] == #[trigger] ids[i] by {
        assert(ids.contains(ids[i]));
        assert(integrity::session_ok(ids[i], b.clients[ids[i]], b.next_subscription_order));
    }
    assert(clients_of(model::sessions_persisted(b)) =~= ids);
    assert forall|i: int|
        0 <= i < model::sessions_persisted(b).len() implies integrity::subscriptions_ok(
        (#[trigger] model::sessions_persisted(b)[i]).subscriptions,
        b.next_subscription_order,
    ) by {
        assert(ids.contains(ids[i]));
        assert(integrity::session_ok(ids[i], b.clients[ids[i]], b.next_subscription_order));
    }
}

proof fn lemma_ascending_filtered(list: Seq<Seq<char>>, keep: spec_fn(Seq<char>) -> bool)
    requires
        text_order::ascending(list),
    ensures
        text_order::ascending(list.filter(keep)),
    decreases list.len(),
{
    if list.len() == 0 {
        steps::lemma_filter_empty(keep);
        assert(list =~= Seq::empty());
    } else {
        let front = list.drop_last();
        let last = list.last();
        assert(list =~= front.push(last));
        assert forall|i: int, j: int| 0 <= i < j < front.len() implies text_order::text_less(
            #[trigger] front[i],
            #[trigger] front[j],
        ) by {
            assert(text_order::text_less(list[i], list[j]));
        }
        lemma_ascending_filtered(front, keep);
        steps::lemma_filter_push(front, last, keep);
        let kept = front.filter(keep);
        assert forall|i: int| 0 <= i < kept.len() implies text_order::text_less(
            #[trigger] kept[i],
            last,
        ) by {
            assert(kept.contains(kept[i]));
            steps::lemma_filter_contains(front, keep, kept[i]);
            let k = front.index_of(kept[i]);
            assert(text_order::text_less(list[k], list[list.len() - 1]));
        }
    }
}

proof fn lemma_highest(highest: Option<u16>, list: Seq<PublicationView>)
    ensures
        highest is Some || list.len() > 0 ==> model::highest_id(highest, list) is Some,
        highest matches Some(n) ==> n <= model::highest_id(highest, list)->0,
        forall|i: int|
            0 <= i < list.len() ==> (#[trigger] list[i]).packet_id->0 <= model::highest_id(
                highest,
                list,
            )->0,
        model::highest_id(highest, list) == highest || exists|i: int|
            0 <= i < list.len() && model::highest_id(highest, list)
                == Some((#[trigger] list[i]).packet_id->0),
    decreases list.len(),
{
    if list.len() > 0 {
        let front = list.drop_last();
        lemma_highest(highest, front);
        let before = model::highest_id(highest, front);
        let after = model::highest_id(highest, list);
        assert forall|i: int| 0 <= i < list.len() implies (#[trigger] list[i]).packet_id->0
            <= after->0 by {
            if i < front.len() {
                assert(front[i] == list[i]);
            }
        }
        if after == before {
            if before != highest {
                let i = choose|i: int|
                    0 <= i < front.len() && before == Some((#[trigger] front[i]).packet_id->0);
                assert(list[i] == front[i]);
            }
        } else {
            assert(after == Some(list[list.len() - 1].packet_id->0));
        }
    }
}

/// The messages of a persisted session whose packet identifiers count: those that
/// are queued and those that are on their way to the client, as far as they are
/// taken over.
pub open spec fn counted_messages(p: PersistedView) -> Seq<PublicationView> {
    model::queue_taken_over(p.queued) + model::inflight_taken_over(p.inflight_qos1, 1)
        + model::messages(model::outbound_taken_over(p.inflight_qos2))
}

/// Whether a packet identifier is the greatest one of a list of messages.
pub open spec fn is_greatest_id(list: Seq<PublicationView>, greatest: u16) -> bool {
    &&& exists|i: int| 0 <= i < list.len() && (#[trigger] list[i]).packet_id->0 == greatest
    &&& forall|i: int| 0 <= i < list.len() ==> (#[trigger] list[i]).packet_id->0 <= greatest
}

/// Whether a packet identifier follows those of a list of messages: it is the
/// greatest one and 1, or 1 where there is none or the greatest one there can be
/// has been reached.
pub open spec fn follows(list: Seq<PublicationView>, next: u16) -> bool {
    if list.len() == 0 {
        next == 1
    } else {
        exists|greatest: u16| #[trigger]
            is_greatest_id(list, greatest) && next == if greatest == 0xFFFF {
                1
            } else {
                greatest + 1
            }
    }
}

/// A session that is taken over goes on counting behind its packet identifiers:
/// the next one is the greatest of those of its queued and unacknowledged
/// messages and 1, or 1 where it has no such message or the greatest one is
/// 65535.
pub proof fn law_restored_session_goes_on_counting(p: PersistedView, order: u64)
    ensures
        follows(counted_messages(p), model::session_taken_over(p, order).next_outgoing_mid),
{
    let queued = model::queue_taken_over(p.queued);
    let qos1 = model::inflight_taken_over(p.inflight_qos1, 1);
    let qos2 = model::messages(model::outbound_taken_over(p.inflight_qos2));
    let all = counted_messages(p);
    let first = model::highest_id(None, queued);
    let second = model::highest_id(first, qos1);
    let third = model::highest_id(second, qos2);
    lemma_highest(None, queued);
    lemma_highest(first, qos1);
    lemma_highest(second, qos2);
    assert(all.len() == queued.len() + qos1.len() + qos2.len());
    if all.len() > 0 {
        let greatest = third->0;
        assert forall|i: int| 0 <= i < all.len() implies (#[trigger] all[i]).packet_id->0
            <= greatest by {
            if i < queued.len() {
                assert(all[i] == queued[i]);
            } else if i < queued.len() + qos1.len() {
                assert(all[i] == qos1[i - queued.len()]);
            } else {
                assert(all[i] == qos2[i - queued.len() - qos1.len()]);
            }
        }
        if third != second {
            let i = choose|i: int|
                0 <= i < qos2.len() && third == Some((#[trigger] qos2[i]).packet_id->0);
            assert(all[queued.len() + qos1.len() + i] == qos2[i]);
        } else if second != first {
            let i = choose|i: int|
                0 <= i < qos1.len() && second == Some((#[trigger] qos1[i]).packet_id->0);
            assert(all[queued.len() + i] == qos1[i]);
        } else {
            let i = choose|i: int|
                0 <= i < queued.len() && first == Some((#[trigger] queued[i]).packet_id->0);
            assert(all[i] == queued[i]);
        }
        assert(is_greatest_id(all, greatest));
    }
}

/// The first message that needs a packet identifier, and that a publish or a
/// subscribe makes for a session that was just taken over, has the one that
/// follows those of the session.
pub proof fn law_first_identifier_after_a_restart(
    b: BrokerView,
    p: PersistedView,
    source: Seq<char>,
    message: PublicationView,
    requests: Seq<RequestView>,
)
    requires
        integrity::broker_ok(b),
        model::has_room_to_restore(b, seq![p]),
        model::keeps_session(p),
    ensures
        ({
            let restored = model::sessions_taken_over(b, seq![p]);
            let next = restored.clients[p.client_id].next_outgoing_mid;
            let before = restored.clients[p.client_id].queued;
            let after = model::published(restored, source, message).0.clients[p.client_id].queued;
            let replayed = model::subscribing(restored, p.client_id, requests).1.retained.filter(
                |d: DeliveryView| d.publication.qos > 0,
            );
            &&& restored.clients.contains_key(p.client_id)
            &&& follows(counted_messages(p), next)
            &&& before.len() < after.len() ==> after[before.len() as int].packet_id == Some(next)
            &&& replayed.len() > 0 ==> replayed[0].publication.packet_id == Some(next)
        }),
{
    let one = seq![p];
    assert(one.drop_last() =~= Seq::empty());
    reveal_with_fuel(model::sessions_taken_over, 2);
    let restored = model::sessions_taken_over(b, one);
    law_restored_session_goes_on_counting(p, b.next_subscription_order);
    integrity::law_restored_sessions_keep_order(b, one);
    assert(restored.clients.contains_key(p.client_id));
    if model::valid_publication(message) {
        broker_laws::law_published_copies_are_numbered(restored, source, message, p.client_id);
    }
    broker_laws::law_replayed_copies_are_numbered(restored, p.client_id, requests);
}

// Subscribing again.

/// To replay retained messages changes nothing in a session but its
/// unacknowledged messages and its next packet identifier.
pub open spec fn only_replayed(before: SessionView, after: SessionView) -> bool {
    after == (SessionView {
        inflight_qos1: after.inflight_qos1,
        inflight_qos2: after.inflight_qos2,
        next_outgoing_mid: after.next_outgoing_mid,
        ..before
    })
}

proof fn lemma_list_only_replayed(
    s: SessionView,
    upgrade: bool,
    subscription: SubscriptionView,
    list: Seq<PublicationView>,
)
    ensures
        only_replayed(s, model::list_replayed(s, upgrade, subscription, list).0),
    decreases list.len(),
{
    if list.len() > 0 {
        lemma_list_only_replayed(s, upgrade, subscription, list.drop_last());
    }
}

/// Replays leave the rest of a session as it is.
pub proof fn lemma_all_only_replayed(
    s: SessionView,
    upgrade: bool,
    retained: Map<Seq<char>, PublicationView>,
    list: Seq<SubscriptionView>,
)
    ensures
        only_replayed(s, model::all_replayed(s, upgrade, retained, list).0),
    decreases list.len(),
{
    if list.len() > 0 {
        let front = list.drop_last();
        lemma_all_only_replayed(s, upgrade, retained, front);
        lemma_list_only_replayed(
            model::all_replayed(s, upgrade, retained, front).0,
            upgrade,
            list.last(),
            model::retained_matching(retained, list.last().filter),
        );
    }
}

/// Whether a snapshot is another one with other subscriptions of one client.
pub open spec fn resubscribed(
    before: Seq<PersistedView>,
    after: Seq<PersistedView>,
    client_id: Seq<char>,
    held: Seq<SubscriptionView>,
    list: Seq<SubscriptionView>,
) -> bool {
    &&& after.len() == before.len()
    &&& forall|k: int|
        0 <= k < after.len() ==> {
            &&& (#[trigger] after[k]).client_id == before[k].client_id
            &&& before[k].client_id != client_id ==> after[k] == before[k]
            &&& before[k].client_id == client_id ==> before[k].subscriptions == held
                && after[k].subscriptions == list
        }
}

/// Whether a snapshot holds a session of a client.
pub open spec fn listed(list: Seq<PersistedView>, client_id: Seq<char>) -> bool {
    exists|k: int| 0 <= k < list.len() && (#[trigger] list[k]).client_id == client_id
}

/// A client that subscribes again to a filter that it holds has exactly one
/// subscription to it, in the same place, with the new options and the old order.
/// All other subscriptions of all clients stay as they were, and so do the other
/// sessions as a whole, in the broker and in its snapshot. That needs no room for
/// another order.
pub proof fn law_subscribing_again_replaces(
    b: BrokerView,
    client_id: Seq<char>,
    r: RequestView,
    place: int,
)
    requires
        integrity::broker_ok(b),
        b.clients.contains_key(client_id),
        model::valid_request(r),
        0 <= place < b.clients[client_id].subscriptions.len(),
        b.clients[client_id].subscriptions[place].filter == r.filter,
    ensures
        ({
            let (after, result) = model::subscribing(b, client_id, seq![r]);
            let held = b.clients[client_id].subscriptions;
            let list = after.clients[client_id].subscriptions;
            let before = model::sessions_persisted(b);
            let snapshot = model::sessions_persisted(after);
            &&& model::has_room(b, client_id, seq![r])
            &&& result.reason_codes == seq![r.qos]
            &&& list == held.update(place, model::subscription_for(r, held[place].order))
            &&& forall|i: int|
                0 <= i < list.len() ==> ((#[trigger] list[i]).filter == r.filter <==> i == place)
            &&& after.clients.dom() == b.clients.dom()
            &&& forall|id: Seq<char>|
                id != client_id && #[trigger] b.clients.contains_key(id) ==> after.clients[id]
                    == b.clients[id]
            &&& after.next_subscription_order == b.next_subscription_order
            &&& resubscribed(before, snapshot, client_id, held, list)
            &&& b.clients[client_id].session_expiry_interval != 0 ==> listed(snapshot, client_id)
        }),
{
    let session = b.clients[client_id];
    let held = session.subscriptions;
    let one = seq![r];
    assert(integrity::session_ok(client_id, session, b.next_subscription_order));
    assert(one.drop_last() =~= Seq::empty());
    reveal_with_fuel(model::requests_taken, 2);
    reveal_with_fuel(model::new_subscriptions, 2);
    assert forall|k: int| 0 <= k < place implies (#[trigger] held[k]).filter != r.filter by {
        assert(held[k].filter != held[place].filter);
    }
    assert(model::subscribed_at(held, r.filter, place));
    let found = model::place_of(held, r.filter);
    assert(model::subscribed_at(held, r.filter, found));
    assert(found == place) by {
        if found < place {
            assert(held[found].filter == r.filter);
        } else if place < found {
            assert(held[place].filter == r.filter);
        }
    }
    let taken = model::requests_taken(held, b.next_subscription_order, one);
    let subscribed = SessionView { subscriptions: taken.subscriptions, ..session };
    lemma_all_only_replayed(subscribed, b.upgrade_outgoing_qos, b.retained, taken.replays);
    let (after, result) = model::subscribing(b, client_id, one);
    assert(result.reason_codes =~= seq![r.qos]);
    assert(after.clients.dom() =~= b.clients.dom());
    let list = after.clients[client_id].subscriptions;
    assert forall|i: int| 0 <= i < list.len() implies ((#[trigger] list[i]).filter == r.filter
        <==> i == place) by {
        if i < place {
            assert(held[i].filter != held[place].filter);
        } else if place < i {
            assert(held[place].filter != held[i].filter);
        }
    }

    let durable = |id: Seq<char>| b.clients[id].session_expiry_interval != 0;
    let lasting = |id: Seq<char>| after.clients[id].session_expiry_interval != 0;
    let ids = b.client_ids();
    text_order::lemma_in_order(b.clients.dom());
    assert forall|i: int| 0 <= i < ids.len() implies durable(#[trigger] ids[i]) == lasting(
        ids[i],
    ) by {
        assert(ids.contains(ids[i]));
        assert(b.clients.contains_key(ids[i]));
    }
    lemma_same_filtered(ids, durable, lasting);
    let names = model::durable_ids(b);
    assert forall|id: Seq<char>| #[trigger] names.contains(id) <==> b.clients.contains_key(id)
        && durable(id) by {
        steps::lemma_filter_contains(ids, durable, id);
        assert(ids.contains(id) <==> b.clients.dom().contains(id));
    }
    assert(model::durable_ids(after) == names);
    let before = model::sessions_persisted(b);
    let snapshot = model::sessions_persisted(after);
    assert(snapshot.len() == before.len());
    assert forall|k: int| 0 <= k < snapshot.len() implies {
        &&& (#[trigger] snapshot[k]).client_id == before[k].client_id
        &&& before[k].client_id != client_id ==> snapshot[k] == before[k]
        &&& before[k].client_id == client_id ==> before[k].subscriptions == held
            && snapshot[k].subscriptions == list
    } by {
        let id = names[k];
        assert(names.contains(id));
        assert(b.clients.contains_key(id));
        assert(integrity::session_ok(id, b.clients[id], b.next_subscription_order));
    }
    if durable(client_id) {
        assert(names.contains(client_id));
        let k = names.index_of(client_id);
        assert(snapshot[k].client_id == client_id);
        assert(listed(snapshot, client_id));
    }
    assert(resubscribed(before, snapshot, client_id, held, list));
}

proof fn lemma_same_filtered(
    list: Seq<Seq<char>>,
    a: spec_fn(Seq<char>) -> bool,
    b: spec_fn(Seq<char>) -> bool,
)
    requires
        forall|i: int| 0 <= i < list.len() ==> a(#[trigger] list[i]) == b(list[i]),
    ensures
        list.filter(a) == list.filter(b),
    decreases list.len(),
{
    if list.len() == 0 {
        assert(list =~= Seq::empty());
        steps::lemma_filter_empty(a);
        steps::lemma_filter_empty(b);
    } else {
        let front = list.drop_last();
        let last = list.last();
        assert forall|i: int| 0 <= i < front.len() implies a(#[trigger] front[i]) == b(
            front[i],
        ) by {
            assert(front[i] == list[i]);
        }
        lemma_same_filtered(front, a, b);
        assert(list =~= front.push(last));
        assert(a(list[list.len() - 1]) == b(list[list.len() - 1]));
        steps::lemma_filter_push(front, last, a);
        steps::lemma_filter_push(front, last, b);
    }
}

} // verus!
