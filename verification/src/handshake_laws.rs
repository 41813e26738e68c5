//! Laws of the handshakes, of clients that come and go, and of wills.

use vstd::prelude::*;

use crate::integrity;
use crate::model;
use crate::model::BrokerView;
use crate::packet::{PublicationView, WillView};
use crate::packet_ids;
use crate::routing_laws;
use crate::session::{
    DeliveryView, OutboundView, PublishView, Qos2OutboundState, Qos2ReceiveResult, SessionView,
};
use crate::steps;
use crate::topic;

verus! {

// Messages that clients publish with QoS 2.

/// A QoS 2 message is accepted exactly where its client is known, its topic is a
/// topic name, and it has a packet identifier; it is a duplicate exactly where one
/// is held under that identifier already. A message that is not accepted, and a
/// duplicate, changes nothing.
pub proof fn law_which_qos2_messages_are_accepted(
    b: BrokerView,
    client_id: Seq<char>,
    p: PublicationView,
)
    ensures
        ({
            let (after, result) = model::held(b, client_id, p);
            &&& result.accepted <==> b.clients.contains_key(client_id) && topic::is_topic_name(
                p.topic,
            ) && p.qos == 2 && p.packet_id is Some
            &&& result.duplicate <==> result.accepted
                && b.clients[client_id].inbound_qos2.contains_key(p.packet_id->0)
            &&& !result.accepted || result.duplicate ==> after == b
        }),
{
}

/// To hold a QoS 2 message and to release it is to publish it: where nothing was
/// held under its packet identifier, the broker is afterwards as if the very
/// message had been published at once, and so are the deliveries.
pub proof fn law_release_publishes_what_was_held(
    b: BrokerView,
    client_id: Seq<char>,
    p: PublicationView,
    packet_id: u16,
)
    requires
        b.clients.contains_key(client_id),
        topic::is_topic_name(p.topic),
        p.qos == 2,
        p.packet_id == Some(packet_id),
        !b.clients[client_id].inbound_qos2.contains_key(packet_id),
    ensures
        ({
            let (held, result) = model::held(b, client_id, p);
            let (after, published) = model::published(b, client_id, p);
            &&& result == (Qos2ReceiveResult { accepted: true, duplicate: false })
            &&& model::released(held, client_id, packet_id) == (after, Some(published))
            &&& published.accepted
        }),
{
    let held = model::held(b, client_id, p).0;
    let session = b.clients[client_id];
    let s = held.clients[client_id];
    assert(s.inbound_qos2.remove(packet_id) =~= session.inbound_qos2);
    let back = held.with_session(
        client_id,
        SessionView { inbound_qos2: s.inbound_qos2.remove(packet_id), ..s },
    );
    assert(back.clients =~= b.clients);
    assert(back == b);
}

/// A message that is held changes nothing else: the other messages that the session
/// holds, the rest of the session and the rest of the broker are as they were.
pub proof fn law_holding_changes_nothing_else(
    b: BrokerView,
    client_id: Seq<char>,
    p: PublicationView,
    other: u16,
)
    requires
        b.clients.contains_key(client_id),
    ensures
        ({
            let after = model::held(b, client_id, p).0;
            let before = b.clients[client_id];
            let session = after.clients[client_id];
            &&& p.packet_id != Some(other) ==> {
                &&& session.inbound_qos2.contains_key(other) <==> before.inbound_qos2.contains_key(
                    other,
                )
                &&& before.inbound_qos2.contains_key(other) ==> session.inbound_qos2[other]
                    == before.inbound_qos2[other]
            }
            &&& before.inbound_qos2.contains_key(other) ==> session.inbound_qos2.contains_key(
                other,
            ) && session.inbound_qos2[other] == before.inbound_qos2[other]
            &&& session == (SessionView { inbound_qos2: session.inbound_qos2, ..before })
            &&& after == (BrokerView { clients: b.clients.insert(client_id, session), ..b })
        }),
{
    let after = model::held(b, client_id, p).0;
    let session = after.clients[client_id];
    assert(b.clients.insert(client_id, session) =~= after.clients);
}

/// To release a packet identifier under which nothing is held gives nothing and
/// changes nothing.
pub proof fn law_nothing_held_is_nothing_released(
    b: BrokerView,
    client_id: Seq<char>,
    packet_id: u16,
)
    requires
        !b.clients.contains_key(client_id) || !b.clients[client_id].inbound_qos2.contains_key(
            packet_id,
        ),
    ensures
        model::released(b, client_id, packet_id) == (b, None::<PublishView>),
{
}

// Messages that are sent to clients.

/// Whether two maps hold the same under all keys but one.
pub open spec fn same_but<V>(a: Map<u16, V>, b: Map<u16, V>, key: u16) -> bool {
    forall|n: u16|
        n != key ==> {
            &&& #[trigger] a.contains_key(n) <==> b.contains_key(n)
            &&& a.contains_key(n) ==> a[n] == b[n]
        }
}

/// PUBACK takes the QoS 1 message with its packet identifier out of those that
/// wait, and changes nothing else.
pub proof fn law_puback_takes_one_message(b: BrokerView, client_id: Seq<char>, packet_id: u16)
    ensures
        ({
            let after = model::acknowledged(b, client_id, packet_id);
            let before = b.clients[client_id];
            let session = after.clients[client_id];
            &&& !b.clients.contains_key(client_id) ==> after == b
            &&& b.clients.contains_key(client_id) ==> {
                &&& !session.inflight_qos1.contains_key(packet_id)
                &&& same_but(session.inflight_qos1, before.inflight_qos1, packet_id)
                &&& session == (SessionView { inflight_qos1: session.inflight_qos1, ..before })
                &&& after == (BrokerView { clients: b.clients.insert(client_id, session), ..b })
            }
        }),
{
    if b.clients.contains_key(client_id) {
        let after = model::acknowledged(b, client_id, packet_id);
        assert(b.clients.insert(client_id, after.clients[client_id]) =~= after.clients);
    }
}

/// PUBREC makes the QoS 2 message with its packet identifier wait for PUBCOMP, as
/// it is, and changes nothing else; it adds no message.
pub proof fn law_pubrec_moves_one_message_on(b: BrokerView, client_id: Seq<char>, packet_id: u16)
    ensures
        ({
            let after = model::received(b, client_id, packet_id);
            let before = b.clients[client_id];
            let session = after.clients[client_id];
            &&& !b.clients.contains_key(client_id) ==> after == b
            &&& b.clients.contains_key(client_id) ==> {
                &&& session.inflight_qos2.contains_key(packet_id)
                    <==> before.inflight_qos2.contains_key(packet_id)
                &&& before.inflight_qos2.contains_key(packet_id)
                    ==> session.inflight_qos2[packet_id] == (OutboundView {
                    publication: before.inflight_qos2[packet_id].publication,
                    state: Qos2OutboundState::WaitingPubComp,
                })
                &&& same_but(session.inflight_qos2, before.inflight_qos2, packet_id)
                &&& session == (SessionView { inflight_qos2: session.inflight_qos2, ..before })
                &&& after == (BrokerView { clients: b.clients.insert(client_id, session), ..b })
            }
        }),
{
    if b.clients.contains_key(client_id) {
        let after = model::received(b, client_id, packet_id);
        assert(b.clients.insert(client_id, after.clients[client_id]) =~= after.clients);
    }
}

/// PUBCOMP takes the QoS 2 message with its packet identifier out of those that
/// wait, and changes nothing else.
pub proof fn law_pubcomp_takes_one_message(b: BrokerView, client_id: Seq<char>, packet_id: u16)
    ensures
        ({
            let after = model::completed(b, client_id, packet_id);
            let before = b.clients[client_id];
            let session = after.clients[client_id];
            &&& !b.clients.contains_key(client_id) ==> after == b
            &&& b.clients.contains_key(client_id) ==> {
                &&& !session.inflight_qos2.contains_key(packet_id)
                &&& same_but(session.inflight_qos2, before.inflight_qos2, packet_id)
                &&& session == (SessionView { inflight_qos2: session.inflight_qos2, ..before })
                &&& after == (BrokerView { clients: b.clients.insert(client_id, session), ..b })
            }
        }),
{
    if b.clients.contains_key(client_id) {
        let after = model::completed(b, client_id, packet_id);
        assert(b.clients.insert(client_id, after.clients[client_id]) =~= after.clients);
    }
}

// Clients that come.

/// A session is forgotten at a point in time exactly where its client is offline,
/// it can expire, the time of the disconnect is known, and as many seconds have
/// gone by since then as its interval counts. The other sessions stay as they are.
pub proof fn law_which_sessions_expire(b: BrokerView, now: u128, id: Seq<char>)
    ensures
        ({
            let after = model::without_expired(b, now);
            let s = b.clients[id];
            &&& after.clients.contains_key(id) <==> b.clients.contains_key(id) && (s.online
                || s.session_expiry_interval == 0xFFFF_FFFFu32 || s.disconnected_at is None || (
            now - s.disconnected_at->0 < s.session_expiry_interval * 1_000_000_000
                && s.session_expiry_interval > 0))
            &&& after.clients.contains_key(id) ==> after.clients[id] == s
            &&& after == (BrokerView { clients: after.clients, ..b })
        }),
{
    let s = b.clients[id];
    assert(s.session_expiry_interval * 1_000_000_000 >= 0) by (nonlinear_arith)
        requires
            s.session_expiry_interval >= 0,
    ;
    if s.session_expiry_interval > 0 {
        assert(s.session_expiry_interval * 1_000_000_000 > 0) by (nonlinear_arith)
            requires
                s.session_expiry_interval > 0,
        ;
    }
}

/// A message that is sent again: all is as it was but the duplicate flag.
pub open spec fn again(p: PublicationView) -> PublicationView {
    PublicationView {
        topic: p.topic,
        payload: p.payload,
        qos: p.qos,
        retain: p.retain,
        packet_id: p.packet_id,
        dup: true,
        topic_alias: p.topic_alias,
        payload_format_indicator: p.payload_format_indicator,
        response_topic: p.response_topic,
        correlation_data: p.correlation_data,
        subscription_identifiers: p.subscription_identifiers,
    }
}

/// Whether a list is the QoS 1 messages of a map, each once, in ascending order of
/// the packet identifiers, as they are sent again.
pub open spec fn sent_again_qos1(
    list: Seq<PublicationView>,
    map: Map<u16, PublicationView>,
) -> bool {
    exists|ids: Seq<u16>| #[trigger]
        in_ascending_order(ids, map.dom()) && list == ids.map_values(|n: u16| again(map[n]))
}

/// The packet identifiers of the QoS 2 messages that wait for a step.
pub open spec fn waiting_for(map: Map<u16, OutboundView>, state: Qos2OutboundState) -> Set<u16> {
    Set::new(|n: u16| map.contains_key(n) && map[n].state == state)
}

/// Whether a list is the QoS 2 messages of a map whose clients have not received
/// them, in ascending order of the packet identifiers, as they are sent again.
pub open spec fn sent_again_qos2(list: Seq<PublicationView>, map: Map<u16, OutboundView>) -> bool {
    exists|ids: Seq<u16>| #[trigger]
        in_ascending_order(ids, waiting_for(map, Qos2OutboundState::WaitingPubRec)) && list
            == ids.map_values(|n: u16| again(map[n].publication))
}

/// Whether a list holds each number of a set once, in ascending order.
pub open spec fn in_ascending_order(ids: Seq<u16>, set: Set<u16>) -> bool {
    &&& forall|i: int, j: int| 0 <= i < j < ids.len() ==> (#[trigger] ids[i]) < (#[trigger] ids[j])
    &&& forall|n: u16| #[trigger] ids.contains(n) <==> set.contains(n)
}

proof fn lemma_filter_ascends(ids: Seq<u16>, keep: spec_fn(u16) -> bool)
    requires
        forall|i: int, j: int| 0 <= i < j < ids.len() ==> (#[trigger] ids[i]) < (#[trigger] ids[j]),
    ensures
        ({
            let kept = ids.filter(keep);
            forall|i: int, j: int|
                0 <= i < j < kept.len() ==> (#[trigger] kept[i]) < (#[trigger] kept[j])
        }),
    decreases ids.len(),
{
    if ids.len() == 0 {
        assert(ids =~= Seq::empty());
        steps::lemma_filter_empty(keep);
    } else {
        let front = ids.drop_last();
        let last = ids.last();
        assert forall|i: int, j: int| 0 <= i < j < front.len() implies (#[trigger] front[i]) < (
        #[trigger] front[j]) by {
            assert(ids[i] < ids[j]);
        }
        lemma_filter_ascends(front, keep);
        assert(ids =~= front.push(last));
        steps::lemma_filter_push(front, last, keep);
        let kept = front.filter(keep);
        assert forall|i: int| 0 <= i < kept.len() implies #[trigger] kept[i] < last by {
            assert(kept.contains(kept[i]));
            steps::lemma_filter_contains(front, keep, kept[i]);
            assert(ids[front.index_of(kept[i])] < ids[ids.len() - 1]);
        }
    }
}

/// A client that connects is sent what is outstanding: first the QoS 1 messages
/// that it has not acknowledged and then the QoS 2 messages that it has not
/// received, each group in ascending order of the packet identifiers, each message
/// as it was sent but marked as a duplicate; then the messages that were queued, as
/// they are. And it is told again which QoS 2 messages are released: exactly those
/// that wait for PUBCOMP. A client whose session is not resumed is sent nothing.
pub proof fn law_what_a_client_is_sent_on_connect(
    b: BrokerView,
    client_id: Seq<char>,
    clean_start: bool,
    will: Option<WillView>,
    interval: u32,
    now: u128,
)
    ensures
        ({
            let result = model::connected(b, client_id, clean_start, will, interval, now).1;
            let s = b.clients[client_id];
            &&& result.session_present <==> !clean_start && model::without_expired(
                b,
                now,
            ).clients.contains_key(client_id)
            &&& !result.session_present ==> result.queued.len() == 0 && result.pubrels.len() == 0
            &&& result.session_present ==> {
                &&& exists|one: Seq<PublicationView>, two: Seq<PublicationView>|
                    #![trigger one + two + s.queued]
                    result.queued == one + two + s.queued && sent_again_qos1(one, s.inflight_qos1)
                        && sent_again_qos2(two, s.inflight_qos2)
                &&& in_ascending_order(
                    result.pubrels,
                    waiting_for(s.inflight_qos2, Qos2OutboundState::WaitingPubComp),
                )
            }
        }),
{
    let current = model::without_expired(b, now);
    let result = model::connected(b, client_id, clean_start, will, interval, now).1;
    if result.session_present {
        let s = current.clients[client_id];
        assert(s == b.clients[client_id]);
        let one = model::repeated_qos1(s.inflight_qos1);
        let two = model::repeated_qos2(s.inflight_qos2);
        let ids1 = packet_ids::ascending_ids(s.inflight_qos1.dom());
        let ids2 = packet_ids::ascending_ids(s.inflight_qos2.dom());
        packet_ids::lemma_ascending_ids(s.inflight_qos1.dom());
        packet_ids::lemma_ascending_ids(s.inflight_qos2.dom());
        let rec = |n: u16| s.inflight_qos2[n].state == Qos2OutboundState::WaitingPubRec;
        let comp = |n: u16| s.inflight_qos2[n].state == Qos2OutboundState::WaitingPubComp;
        assert(one =~= ids1.map_values(|n: u16| again(s.inflight_qos1[n])));
        assert(in_ascending_order(ids1, s.inflight_qos1.dom()));
        lemma_filter_ascends(ids2, rec);
        lemma_filter_ascends(ids2, comp);
        assert forall|n: u16| #[trigger] ids2.filter(rec).contains(n)
            <==> waiting_for(s.inflight_qos2, Qos2OutboundState::WaitingPubRec).contains(n) by {
            steps::lemma_filter_contains(ids2, rec, n);
        }
        assert forall|n: u16| #[trigger] ids2.filter(comp).contains(n)
            <==> waiting_for(s.inflight_qos2, Qos2OutboundState::WaitingPubComp).contains(n) by {
            steps::lemma_filter_contains(ids2, comp, n);
        }
        assert(in_ascending_order(
            ids2.filter(rec),
            waiting_for(s.inflight_qos2, Qos2OutboundState::WaitingPubRec),
        ));
        assert(two =~= ids2.filter(rec).map_values(
            |n: u16| again(s.inflight_qos2[n].publication),
        ));
        assert(sent_again_qos1(one, s.inflight_qos1));
        assert(sent_again_qos2(two, s.inflight_qos2));
        assert(result.queued == one + two + s.queued);
    } else if clean_start {
        crate::session_laws::law_clean_start_forgets(b, client_id, will, interval, now);
    } else {
        crate::session_laws::law_clean_start_forgets(b, client_id, will, interval, now);
        assert(result == model::connected(b, client_id, true, will, interval, now).1);
    }
}

/// A client that connects takes away the sessions whose time is over, puts its own session
/// in its place, and changes nothing else.
pub proof fn law_connecting_leaves_the_others(
    b: BrokerView,
    client_id: Seq<char>,
    clean_start: bool,
    will: Option<WillView>,
    interval: u32,
    now: u128,
    other: Seq<char>,
)
    requires
        other != client_id,
    ensures
        ({
            let after = model::connected(b, client_id, clean_start, will, interval, now).0;
            let kept = model::without_expired(b, now);
            &&& after.clients.contains_key(other) <==> kept.clients.contains_key(other)
            &&& after.clients.contains_key(other) ==> after.clients[other] == b.clients[other]
            &&& after == (BrokerView { clients: after.clients, ..b })
        }),
{
}

/// Whether a message is in a queue under a packet identifier, with a QoS.
pub open spec fn queued_under(
    queue: Seq<PublicationView>,
    n: u16,
    qos: u8,
    m: PublicationView,
) -> bool {
    m.packet_id == Some(n) && m.qos == qos && queue.contains(m)
}

proof fn lemma_all_outstanding_from(s: SessionView, queue: Seq<PublicationView>)
    ensures
        ({
            let after = model::all_outstanding(s, queue);
            &&& forall|n: u16| #[trigger]
                after.inflight_qos1.contains_key(n) ==> {
                    ||| s.inflight_qos1.contains_key(n) && after.inflight_qos1[n]
                        == s.inflight_qos1[n]
                    ||| queued_under(queue, n, 1, after.inflight_qos1[n])
                }
            &&& forall|n: u16| #[trigger]
                after.inflight_qos2.contains_key(n) ==> {
                    ||| s.inflight_qos2.contains_key(n) && after.inflight_qos2[n]
                        == s.inflight_qos2[n]
                    ||| after.inflight_qos2[n].state == Qos2OutboundState::WaitingPubRec
                        && queued_under(queue, n, 2, after.inflight_qos2[n].publication)
                }
            &&& forall|n: u16| #[trigger]
                s.inflight_qos1.contains_key(n) ==> after.inflight_qos1.contains_key(n)
            &&& forall|n: u16| #[trigger]
                s.inflight_qos2.contains_key(n) ==> after.inflight_qos2.contains_key(n)
        }),
    decreases queue.len(),
{
    if queue.len() > 0 {
        let front = queue.drop_last();
        let last = queue.last();
        lemma_all_outstanding_from(s, front);
        assert(queue =~= front.push(last));
        let before = model::all_outstanding(s, front);
        let after = model::all_outstanding(s, queue);
        assert forall|m: PublicationView| #[trigger] queue.contains(m) <==> front.contains(m) || m
            == last by {
            steps::lemma_push_contains(front, last, m);
        }
        assert forall|n: u16| #[trigger] after.inflight_qos1.contains_key(n) implies {
            ||| s.inflight_qos1.contains_key(n) && after.inflight_qos1[n] == s.inflight_qos1[n]
            ||| queued_under(queue, n, 1, after.inflight_qos1[n])
        } by {
            assert(queue.contains(last));
            if before.inflight_qos1.contains_key(n) {
                assert(front.contains(before.inflight_qos1[n]) ==> queue.contains(
                    before.inflight_qos1[n],
                ));
            }
        }
        assert forall|n: u16| #[trigger] after.inflight_qos2.contains_key(n) implies {
            ||| s.inflight_qos2.contains_key(n) && after.inflight_qos2[n] == s.inflight_qos2[n]
            ||| after.inflight_qos2[n].state == Qos2OutboundState::WaitingPubRec && queued_under(
                queue,
                n,
                2,
                after.inflight_qos2[n].publication,
            )
        } by {
            assert(queue.contains(last));
            if before.inflight_qos2.contains_key(n) {
                assert(front.contains(before.inflight_qos2[n].publication) ==> queue.contains(
                    before.inflight_qos2[n].publication,
                ));
            }
        }
    }
}

/// After its client has connected, a session that is resumed holds the messages
/// that it held, each unacknowledged one marked as a duplicate where it is sent
/// again, and those that were queued, which wait for PUBACK or PUBREC. Its
/// subscriptions, the messages that it holds for its client, and its next packet
/// identifier are as they were; a session that is not resumed has none of them, and
/// counts from 1.
pub proof fn law_what_a_session_holds_after_connect(
    b: BrokerView,
    client_id: Seq<char>,
    clean_start: bool,
    will: Option<WillView>,
    interval: u32,
    now: u128,
)
    ensures
        ({
            let (after, result) = model::connected(
                b,
                client_id,
                clean_start,
                will,
                interval,
                now,
            );
            let s = b.clients[client_id];
            let session = after.clients[client_id];
            &&& after.clients.contains_key(client_id)
            &&& session.client_id == if result.session_present {
                s.client_id
            } else {
                client_id
            }
            &&& session.online && session.queued.len() == 0 && session.disconnected_at is None
            &&& session.will == will && session.session_expiry_interval == interval
            &&& result.session_present ==> {
                &&& session.subscriptions == s.subscriptions
                &&& session.inbound_qos2 == s.inbound_qos2
                &&& session.next_outgoing_mid == s.next_outgoing_mid
                &&& forall|n: u16| #[trigger]
                    s.inflight_qos1.contains_key(n) ==> session.inflight_qos1.contains_key(n)
                &&& forall|n: u16| #[trigger]
                    s.inflight_qos2.contains_key(n) ==> session.inflight_qos2.contains_key(n)
                &&& forall|n: u16| #[trigger]
                    session.inflight_qos1.contains_key(n) ==> {
                        ||| s.inflight_qos1.contains_key(n) && session.inflight_qos1[n] == again(
                            s.inflight_qos1[n],
                        )
                        ||| queued_under(s.queued, n, 1, session.inflight_qos1[n])
                    }
                &&& forall|n: u16| #[trigger]
                    session.inflight_qos2.contains_key(n) ==> {
                        ||| s.inflight_qos2.contains_key(n) && session.inflight_qos2[n].state
                            == s.inflight_qos2[n].state && session.inflight_qos2[n].publication
                            == if s.inflight_qos2[n].state == Qos2OutboundState::WaitingPubRec {
                            again(s.inflight_qos2[n].publication)
                        } else {
                            s.inflight_qos2[n].publication
                        }
                        ||| session.inflight_qos2[n].state == Qos2OutboundState::WaitingPubRec
                            && queued_under(
                            s.queued,
                            n,
                            2,
                            session.inflight_qos2[n].publication,
                        )
                    }
            }
            &&& !result.session_present ==> session.subscriptions.len() == 0
                && session.next_outgoing_mid == 1 && session.inflight_qos1 =~= Map::empty()
                && session.inflight_qos2 =~= Map::empty() && session.inbound_qos2 =~= Map::empty()
        }),
{
    let current = model::without_expired(b, now);
    let (after, result) = model::connected(b, client_id, clean_start, will, interval, now);
    let s = if result.session_present {
        current.clients[client_id]
    } else {
        model::fresh_session(client_id)
    };
    let awake = SessionView {
        will,
        queued: Seq::empty(),
        inflight_qos1: s.inflight_qos1.map_values(|p: PublicationView| model::repeated(p)),
        inflight_qos2: s.inflight_qos2.map_values(|o: OutboundView| model::outbound_repeated(o)),
        session_expiry_interval: interval,
        disconnected_at: None,
        online: true,
        ..s
    };
    lemma_all_outstanding_from(awake, s.queued);
    integrity::lemma_all_outstanding_fields(awake, s.queued);
    let session = after.clients[client_id];
    assert forall|n: u16| s.inflight_qos1.contains_key(n) implies #[trigger] awake.inflight_qos1[n]
        == again(s.inflight_qos1[n]) by {
        assert(model::repeated(s.inflight_qos1[n]) =~= again(s.inflight_qos1[n]));
    }
    assert forall|n: u16| #[trigger] s.inflight_qos2.contains_key(n) implies
        awake.inflight_qos2.contains_key(n) && model::repeated(s.inflight_qos2[n].publication)
        == again(s.inflight_qos2[n].publication) by {
        assert(model::repeated(s.inflight_qos2[n].publication) =~= again(
            s.inflight_qos2[n].publication,
        ));
    }
    assert forall|n: u16| #[trigger] s.inflight_qos1.contains_key(n) implies
        awake.inflight_qos1.contains_key(n) by {}
}

// Clients that go.

/// The message that is published for a will: its topic, payload, QoS and retain
/// flag, and nothing else.
pub open spec fn message_of(will: WillView) -> PublicationView {
    PublicationView {
        topic: will.topic,
        payload: will.payload,
        qos: will.qos,
        retain: will.retain,
        packet_id: None,
        dup: false,
        topic_alias: None,
        payload_format_indicator: None,
        response_topic: None,
        correlation_data: None,
        subscription_identifiers: Seq::empty(),
    }
}

/// The broker when a client has gone and before its will is published: the client
/// is offline from this point in time on and has no will, and its interval is the
/// new one, where it gives one.
pub open spec fn without_client(
    b: BrokerView,
    client_id: Seq<char>,
    interval: Option<u32>,
    now: u128,
) -> BrokerView {
    let s = b.clients[client_id];
    BrokerView {
        clients: b.clients.insert(
            client_id,
            SessionView {
                online: false,
                will: None,
                disconnected_at: Some(now),
                session_expiry_interval: match interval {
                    Some(n) => n,
                    None => s.session_expiry_interval,
                },
                ..s
            },
        ),
        ..b
    }
}

/// A client that says goodbye, and one without a will, only goes offline: nothing
/// is sent, and its session is kept as it is, unless its interval is 0, when it is
/// forgotten.
pub proof fn law_client_without_a_will_goes_offline(
    b: BrokerView,
    client_id: Seq<char>,
    graceful: bool,
    interval: Option<u32>,
    now: u128,
)
    requires
        b.clients.contains_key(client_id),
        graceful || b.clients[client_id].will is None,
    ensures
        ({
            let (after, deliveries) = model::disconnected(b, client_id, graceful, interval, now);
            let gone = without_client(b, client_id, interval, now);
            &&& deliveries.len() == 0
            &&& after == if gone.clients[client_id].session_expiry_interval == 0 {
                BrokerView { clients: b.clients.remove(client_id), ..b }
            } else {
                gone
            }
        }),
{
    let after = model::disconnected(b, client_id, graceful, interval, now).0;
    let gone = without_client(b, client_id, interval, now);
    assert(gone.clients.remove(client_id) =~= b.clients.remove(client_id));
    assert(after.clients =~= if gone.clients[client_id].session_expiry_interval == 0 {
        b.clients.remove(client_id)
    } else {
        gone.clients
    });
}

/// A client that is lost has its will published, as it was given: what is sent is
/// what a publish of the will's message by that client sends once the client is
/// offline, and the broker is afterwards as after that publish, but that the
/// session is forgotten where its interval is 0.
pub proof fn law_lost_client_has_its_will_published(
    b: BrokerView,
    client_id: Seq<char>,
    interval: Option<u32>,
    now: u128,
    will: WillView,
)
    requires
        b.clients.contains_key(client_id),
        b.clients[client_id].will == Some(will),
    ensures
        ({
            let (after, deliveries) = model::disconnected(b, client_id, false, interval, now);
            let gone = without_client(b, client_id, interval, now);
            let (published, result) = model::published(gone, client_id, message_of(will));
            &&& deliveries == result.deliveries
            &&& after == if gone.clients[client_id].session_expiry_interval == 0 {
                BrokerView { clients: published.clients.remove(client_id), ..published }
            } else {
                published
            }
        }),
{
    assert(model::will_message(will) =~= message_of(will));
    let s = b.clients[client_id];
    let gone = without_client(b, client_id, interval, now);
    assert(gone.clients[client_id] =~= model::left(s, interval, now));
    assert(b.with_session(client_id, model::left(s, interval, now)) == gone);
}

/// A will is retained exactly where it asks for it: one that does not leaves the
/// retained messages as they were; one that does, and is not empty, is the retained
/// message of its topic, with its payload and its QoS; an empty one leaves none
/// there; and those of all other topics stay. Each copy of the will goes to a
/// client that was online and had subscribed, with the QoS that the will's own and
/// that of the subscription make.
pub proof fn law_wills_are_published_as_given(
    b: BrokerView,
    client_id: Seq<char>,
    interval: Option<u32>,
    now: u128,
    will: WillView,
    name: Seq<char>,
)
    requires
        integrity::broker_ok(b),
        b.clients.contains_key(client_id),
        b.clients[client_id].will == Some(will),
        topic::is_topic_name(will.topic),
        will.qos <= 2,
    ensures
        ({
            let (after, deliveries) = model::disconnected(b, client_id, false, interval, now);
            let gone = without_client(b, client_id, interval, now);
            &&& will.retain && name == will.topic ==> {
                &&& after.retained.contains_key(name) <==> will.payload.len() > 0
                &&& will.payload.len() > 0 ==> after.retained[name] == message_of(will)
            }
            &&& !will.retain || name != will.topic ==> {
                &&& after.retained.contains_key(name) <==> b.retained.contains_key(name)
                &&& b.retained.contains_key(name) ==> after.retained[name] == b.retained[name]
            }
            &&& forall|i: int|
                0 <= i < deliveries.len() ==> {
                    let d = #[trigger] deliveries[i];
                    &&& gone.clients.contains_key(d.client_id)
                    &&& gone.clients[d.client_id].online
                    &&& exists|k: int|
                        routing_laws::brought_by(
                            gone,
                            client_id,
                            message_of(will),
                            d.client_id,
                            d.publication,
                            k,
                        )
                }
        }),
{
    let s = b.clients[client_id];
    let gone = without_client(b, client_id, interval, now);
    assert(integrity::session_ok(client_id, s, b.next_subscription_order));
    assert(integrity::session_ok(
        client_id,
        gone.clients[client_id],
        b.next_subscription_order,
    ));
    integrity::lemma_session_replaced(b, client_id, gone.clients[client_id]);
    assert(integrity::broker_ok(gone));
    law_lost_client_has_its_will_published(b, client_id, interval, now, will);
    routing_laws::law_what_is_retained(gone, client_id, message_of(will), name);
    assert(gone.clients.contains_key(client_id));
    routing_laws::law_copies_are_brought_by_subscriptions(
        gone,
        client_id,
        message_of(will),
        client_id,
    );
    let after = model::disconnected(b, client_id, false, interval, now).0;
    if after.retained.contains_key(name) && will.retain && name == will.topic {
        assert(after.retained[name] =~= message_of(will));
    }
}

/// The goodbye of a client that is not known changes nothing.
pub proof fn law_unknown_clients_cannot_go(
    b: BrokerView,
    client_id: Seq<char>,
    graceful: bool,
    interval: Option<u32>,
    now: u128,
)
    requires
        !b.clients.contains_key(client_id),
    ensures
        model::disconnected(b, client_id, graceful, interval, now) == (
            b,
            Seq::<DeliveryView>::empty(),
        ),
{
}

} // verus!
