//! Laws of the broker: routing, acknowledgements, retained messages, and
//! sessions that come and go.

use vstd::prelude::*;

use crate::encode;
use crate::integrity;
use crate::model;
use crate::model::{BrokerView, CandidateView, Route, TargetView};
use crate::packet::{PublicationView, RequestView};
use crate::session::{
    DeliveryView, Qos2OutboundState, SessionView, SubscriptionView,
};
use crate::steps;
use crate::text_order;
use crate::topic;

verus! {

// Packet identifiers.

/// The packet identifier that a session gives out after a number of others.
pub open spec fn mid_later(mid: u16, count: nat) -> u16
    decreases count,
{
    if count == 0 {
        mid
    } else {
        model::next_mid(mid_later(mid, (count - 1) as nat))
    }
}

/// The packet identifiers of a session run in a circle from 1 to 65535: none is
/// zero, and one comes again only when all the others have been given out.
pub proof fn law_packet_ids_run_in_a_circle(mid: u16, count: nat)
    requires
        mid > 0,
    ensures
        mid_later(mid, count) > 0,
        mid_later(mid, count) == (mid - 1 + count) % 65535 + 1,
    decreases count,
{
    if count > 0 {
        law_packet_ids_run_in_a_circle(mid, (count - 1) as nat);
        let before = mid - 1 + count - 1;
        assert((before + 1) % 65535 == if before % 65535 == 65534 {
            0
        } else {
            before % 65535 + 1
        }) by (nonlinear_arith)
            requires
                before >= 0,
        ;
    } else {
        assert((mid - 1) % 65535 == mid - 1);
    }
}

/// A message goes out with the QoS of the subscription where the broker
/// upgrades, and else with the lower one of that and its own.
pub proof fn law_delivery_qos(publish_qos: u8, subscription_qos: u8)
    ensures
        model::delivery_qos(true, publish_qos, subscription_qos) == subscription_qos,
        model::delivery_qos(false, publish_qos, subscription_qos) <= publish_qos,
        model::delivery_qos(false, publish_qos, subscription_qos) <= subscription_qos,
        model::delivery_qos(false, publish_qos, subscription_qos) == publish_qos
            || model::delivery_qos(false, publish_qos, subscription_qos) == subscription_qos,
{
}

// Routing.

/// To deliver a message changes nothing in a session but its queue, its
/// unacknowledged messages and its next packet identifier, and takes none of
/// these messages away.
pub open spec fn only_grown(before: SessionView, after: SessionView) -> bool {
    &&& after == (SessionView {
        queued: after.queued,
        inflight_qos1: after.inflight_qos1,
        inflight_qos2: after.inflight_qos2,
        next_outgoing_mid: after.next_outgoing_mid,
        ..before
    })
    &&& before.queued.len() <= after.queued.len()
    &&& before.queued == after.queued.take(before.queued.len() as int)
    &&& forall|id: u16| #[trigger]
        before.inflight_qos1.contains_key(id) ==> after.inflight_qos1.contains_key(id)
    &&& forall|id: u16| #[trigger]
        before.inflight_qos2.contains_key(id) ==> after.inflight_qos2.contains_key(id)
}

proof fn lemma_grown_twice(a: SessionView, b: SessionView, c: SessionView)
    requires
        only_grown(a, b),
        only_grown(b, c),
    ensures
        only_grown(a, c),
{
    assert(a.queued =~= c.queued.take(a.queued.len() as int));
}

proof fn lemma_handed_over_grows(s: SessionView, p: PublicationView, t: TargetView)
    ensures
        only_grown(s, model::handed_over(s, p, t).0),
{
    let after = model::handed_over(s, p, t).0;
    assert(s.queued =~= after.queued.take(s.queued.len() as int));
}

/// A list of messages on their way belongs to a list of copies: one message
/// for each copy whose client is online, in the same order.
pub open spec fn sent_for(sent: Seq<DeliveryView>, targets: Seq<TargetView>) -> bool {
    let online = targets.filter(|t: TargetView| t.online);
    &&& sent.len() == online.len()
    &&& forall|i: int|
        0 <= i < sent.len() ==> {
            &&& (#[trigger] sent[i]).client_id == online[i].client_id
            &&& sent[i].publication.qos == online[i].qos
        }
}

/// Whether a message on its way is kept until its client has acknowledged it.
pub open spec fn is_outstanding(b: BrokerView, d: DeliveryView) -> bool {
    &&& d.publication.qos == 0 ==> d.publication.packet_id is None
    &&& d.publication.qos > 0 ==> d.publication.packet_id is Some && d.publication.packet_id->0 > 0
    &&& d.publication.qos == 1 ==> model::awaits_puback(
        b,
        d.client_id,
        d.publication.packet_id->0,
    )
    &&& d.publication.qos == 2 ==> model::awaits_pubcomp(
        b,
        d.client_id,
        d.publication.packet_id->0,
    )
}

/// Hands a message to its targets: the sessions only grow, every client that is
/// online is sent its copy, and every copy that needs an acknowledgement waits
/// for it.
proof fn lemma_delivered(b: BrokerView, p: PublicationView, targets: Seq<TargetView>)
    requires
        integrity::broker_ok(b),
        model::valid_publication(p),
        integrity::targets_ok(b, targets),
    ensures
        ({
            let (after, sent) = model::delivered(b, p, targets);
            &&& forall|id: Seq<char>| #[trigger]
                b.clients.contains_key(id) ==> only_grown(b.clients[id], after.clients[id])
            &&& sent_for(sent, targets)
            &&& forall|i: int| 0 <= i < sent.len() ==> is_outstanding(after, #[trigger] sent[i])
            &&& forall|i: int|
                0 <= i < sent.len() ==> (#[trigger] sent[i]).publication.topic == p.topic
                    && sent[i].publication.payload == p.payload
        }),
    decreases targets.len(),
{
    integrity::lemma_delivered_ok(b, p, targets);
    let online = |t: TargetView| t.online;
    if targets.len() == 0 {
        steps::lemma_filter_empty(online);
        assert(targets =~= Seq::empty());
        assert forall|id: Seq<char>| #[trigger] b.clients.contains_key(id) implies only_grown(
            b.clients[id],
            b.clients[id],
        ) by {
            let s = b.clients[id];
            assert(s.queued =~= s.queued.take(s.queued.len() as int));
        }
    } else {
        let front = targets.drop_last();
        let t = targets.last();
        assert(integrity::target_ok(b, targets[targets.len() - 1]));
        assert forall|i: int| 0 <= i < front.len() implies integrity::target_ok(
            b,
            #[trigger] front[i],
        ) by {
            assert(front[i] == targets[i]);
        }
        lemma_delivered(b, p, front);
        integrity::lemma_delivered_ok(b, p, front);
        let (before, earlier) = model::delivered(b, p, front);
        let (after, sent) = model::delivered(b, p, targets);
        let (session, copy) = model::handed_over(before.clients[t.client_id], p, t);
        assert(before.clients.contains_key(t.client_id));
        lemma_handed_over_grows(before.clients[t.client_id], p, t);
        assert forall|id: Seq<char>| #[trigger] b.clients.contains_key(id) implies only_grown(
            b.clients[id],
            after.clients[id],
        ) by {
            assert(only_grown(b.clients[id], before.clients[id]));
            if id == t.client_id {
                lemma_grown_twice(b.clients[id], before.clients[id], session);
            }
        }
        assert(targets =~= front.push(t));
        steps::lemma_filter_push(front, t, online);
        assert(integrity::session_ok(
            t.client_id,
            before.clients[t.client_id],
            before.next_subscription_order,
        ));
        assert forall|i: int| 0 <= i < sent.len() implies is_outstanding(
            after,
            #[trigger] sent[i],
        ) by {
            if i < earlier.len() {
                assert(is_outstanding(before, earlier[i]));
                assert(sent[i] == earlier[i]);
            } else {
                assert(sent[i].publication == copy);
            }
        }
        assert forall|i: int| 0 <= i < sent.len() implies (#[trigger] sent[i]).publication.topic
            == p.topic && sent[i].publication.payload == p.payload by {
            if i < earlier.len() {
                assert(sent[i] == earlier[i]);
            }
        }
    }
}

/// A refused message changes nothing and goes nowhere.
pub proof fn law_invalid_message_changes_nothing(
    b: BrokerView,
    source: Seq<char>,
    p: PublicationView,
)
    requires
        !model::valid_publication(p),
    ensures
        model::published(b, source, p).0 == b,
        !model::published(b, source, p).1.accepted,
        model::published(b, source, p).1.deliveries.len() == 0,
{
}

/// A message that is taken goes to each of its targets that is online, keeps
/// its topic and its payload, and is kept until it is acknowledged. The
/// sessions of the broker lose nothing by it.
pub proof fn law_published_message_is_delivered(
    b: BrokerView,
    source: Seq<char>,
    p: PublicationView,
)
    requires
        integrity::broker_ok(b),
        model::valid_publication(p),
    ensures
        ({
            let route = Route { source, qos: p.qos, topic: p.topic };
            let (after, result) = model::published(b, source, p);
            &&& result.accepted
            &&& sent_for(result.deliveries, model::targets_of(b, route).1)
            &&& forall|i: int|
                0 <= i < result.deliveries.len() ==> is_outstanding(
                    after,
                    #[trigger] result.deliveries[i],
                )
            &&& forall|i: int|
                0 <= i < result.deliveries.len() ==> {
                    &&& (#[trigger] result.deliveries[i]).publication.topic == p.topic
                    &&& result.deliveries[i].publication.payload == p.payload
                }
            &&& forall|id: Seq<char>| #[trigger]
                b.clients.contains_key(id) ==> only_grown(b.clients[id], after.clients[id])
        }),
{
    integrity::lemma_taken_in_ok(b, source, p);
    let (kept, targets) = model::taken_in(b, source, p);
    lemma_delivered(kept, model::plain_of(p), targets);
}

/// Every message that the broker sends for a publish can be encoded: one that
/// needs a packet identifier has one.
pub proof fn law_deliveries_can_be_sent(b: BrokerView, source: Seq<char>, p: PublicationView)
    requires
        integrity::broker_ok(b),
    ensures
        forall|i: int|
            0 <= i < model::published(b, source, p).1.deliveries.len() ==> encode::sendable(
                (#[trigger] model::published(b, source, p).1.deliveries[i]).publication,
            ),
{
    if model::valid_publication(p) {
        law_published_message_is_delivered(b, source, p);
    }
}

/// The number of copies for a client in a list.
pub open spec fn copies_for(targets: Seq<TargetView>, id: Seq<char>) -> nat {
    targets.filter(|t: TargetView| t.client_id == id).len()
}

/// Every client with a subscription of its own that takes the message gets
/// exactly one copy by it, however many of its subscriptions match, and every
/// other client gets none.
pub proof fn law_one_copy_for_each_subscriber(b: BrokerView, route: Route, id: Seq<char>)
    requires
        integrity::broker_ok(b),
    ensures
        copies_for(model::own_targets(b, b.client_ids(), route), id) == if b.clients.contains_key(
            id,
        ) && model::own_takers(b.clients[id], id, route).len() > 0 {
            1nat
        } else {
            0
        },
{
    text_order::lemma_in_order(b.clients.dom());
    lemma_copies(b, b.client_ids(), route, id);
    assert(b.client_ids().contains(id) <==> b.clients.contains_key(id));
}

proof fn lemma_copies(b: BrokerView, ids: Seq<Seq<char>>, route: Route, id: Seq<char>)
    requires
        text_order::ascending(ids),
    ensures
        copies_for(model::own_targets(b, ids, route), id) == if ids.contains(id)
            && model::own_takers(b.clients[id], id, route).len() > 0 {
            1nat
        } else {
            0
        },
    decreases ids.len(),
{
    let same = |t: TargetView| t.client_id == id;
    if ids.len() == 0 {
        steps::lemma_filter_empty(same);
    } else {
        let front = ids.drop_last();
        let last = ids.last();
        assert(text_order::ascending(front)) by {
            assert forall|i: int, j: int| 0 <= i < j < front.len() implies text_order::text_less(
                #[trigger] front[i],
                #[trigger] front[j],
            ) by {
                assert(text_order::text_less(ids[i], ids[j]));
            }
        }
        lemma_copies(b, front, route, id);
        assert(ids =~= front.push(last));
        steps::lemma_push_contains(front, last, id);
        if front.contains(last) {
            let k = front.index_of(last);
            text_order::lemma_ascending_distinct(ids, k, ids.len() - 1);
        }
        let before = model::own_targets(b, front, route);
        let takers = model::own_takers(b.clients[last], last, route);
        if takers.len() > 0 {
            steps::lemma_filter_push(
                before,
                model::target_of(b.upgrade_outgoing_qos, route, b.clients[last], last, takers[0]),
                same,
            );
        }
    }
}

proof fn lemma_same_count<A, B>(
    a: Seq<A>,
    b: Seq<B>,
    in_a: spec_fn(A) -> bool,
    in_b: spec_fn(B) -> bool,
)
    requires
        a.len() == b.len(),
        forall|i: int| 0 <= i < a.len() ==> in_a(#[trigger] a[i]) == in_b(b[i]),
    ensures
        a.filter(in_a).len() == b.filter(in_b).len(),
    decreases a.len(),
{
    if a.len() == 0 {
        assert(a =~= Seq::empty());
        assert(b =~= Seq::empty());
        steps::lemma_filter_empty(in_a);
        steps::lemma_filter_empty(in_b);
    } else {
        let x = a.drop_last();
        let y = b.drop_last();
        assert forall|i: int| 0 <= i < x.len() implies in_a(#[trigger] x[i]) == in_b(y[i]) by {
            assert(x[i] == a[i]);
        }
        lemma_same_count(x, y, in_a, in_b);
        assert(a =~= x.push(a.last()));
        assert(b =~= y.push(b.last()));
        assert(in_a(a[a.len() - 1]) == in_b(b[b.len() - 1]));
        steps::lemma_filter_push(x, a.last(), in_a);
        steps::lemma_filter_push(y, b.last(), in_b);
    }
}

proof fn lemma_online_count(targets: Seq<TargetView>, id: Seq<char>, online: bool)
    requires
        forall|i: int|
            0 <= i < targets.len() && (#[trigger] targets[i]).client_id == id ==> targets[i].online
                == online,
    ensures
        targets.filter(|t: TargetView| t.online).filter(
            |t: TargetView| t.client_id == id,
        ).len() == if online {
            copies_for(targets, id)
        } else {
            0
        },
    decreases targets.len(),
{
    let up = |t: TargetView| t.online;
    let same = |t: TargetView| t.client_id == id;
    if targets.len() == 0 {
        assert(targets =~= Seq::empty());
        steps::lemma_filter_empty(up);
        steps::lemma_filter_empty(same);
    } else {
        let front = targets.drop_last();
        let last = targets.last();
        assert forall|i: int|
            0 <= i < front.len() && (#[trigger] front[i]).client_id == id implies front[i].online
            == online by {
            assert(front[i] == targets[i]);
        }
        lemma_online_count(front, id, online);
        assert(targets =~= front.push(last));
        assert(targets[targets.len() - 1] == last);
        steps::lemma_filter_push(front, last, up);
        steps::lemma_filter_push(front, last, same);
        steps::lemma_filter_push(front.filter(up), last, same);
    }
}

/// How many messages a client is sent for a publish: none where it is offline,
/// and else one where a subscription of its own takes the message, and one for
/// each shared filter whose turn has come to it.
pub proof fn law_messages_sent_to_a_client(
    b: BrokerView,
    source: Seq<char>,
    p: PublicationView,
    id: Seq<char>,
)
    requires
        integrity::broker_ok(b),
        model::valid_publication(p),
        b.clients.contains_key(id),
    ensures
        ({
            let route = Route { source, qos: p.qos, topic: p.topic };
            let list = model::candidates(b, b.client_ids(), route);
            let chosen = model::rounds(b.shared_cursors, list, list.len()).1;
            let own = if model::own_takers(b.clients[id], id, route).len() > 0 {
                1nat
            } else {
                0
            };
            model::published(b, source, p).1.deliveries.filter(
                |d: DeliveryView| d.client_id == id,
            ).len() == if b.clients[id].online {
                own + copies_for(chosen, id)
            } else {
                0
            }
        }),
{
    let route = Route { source, qos: p.qos, topic: p.topic };
    let list = model::candidates(b, b.client_ids(), route);
    let chosen = model::rounds(b.shared_cursors, list, list.len()).1;
    let own = model::own_targets(b, b.client_ids(), route);
    let targets = model::targets_of(b, route).1;
    let same = |t: TargetView| t.client_id == id;
    law_published_message_is_delivered(b, source, p);
    law_one_copy_for_each_subscriber(b, route, id);
    integrity::lemma_targets_ok(b, route);
    Seq::filter_distributes_over_add(own, chosen, same);
    assert forall|i: int|
        0 <= i < targets.len() && (#[trigger] targets[i]).client_id == id implies targets[i].online
        == b.clients[id].online by {
        assert(integrity::target_ok(b, targets[i]));
    }
    lemma_online_count(targets, id, b.clients[id].online);
    lemma_same_count(
        model::published(b, source, p).1.deliveries,
        targets.filter(|t: TargetView| t.online),
        |d: DeliveryView| d.client_id == id,
        same,
    );
}

/// The number of copies in a list that are queued for a client.
pub open spec fn queued_for(targets: Seq<TargetView>, id: Seq<char>) -> nat {
    targets.filter(|t: TargetView| t.client_id == id && !t.online && t.qos > 0).len()
}

/// Whether a queue has grown by a number of copies of a message.
pub open spec fn queue_grown(
    before: Seq<PublicationView>,
    after: Seq<PublicationView>,
    p: PublicationView,
    count: nat,
) -> bool {
    &&& after.len() == before.len() + count
    &&& after.take(before.len() as int) == before
    &&& forall|i: int|
        before.len() <= i < after.len() ==> {
            &&& (#[trigger] after[i]).topic == p.topic
            &&& after[i].payload == p.payload
            &&& after[i].qos > 0
            &&& after[i].packet_id is Some
        }
}

proof fn lemma_delivered_queue(
    b: BrokerView,
    p: PublicationView,
    targets: Seq<TargetView>,
    id: Seq<char>,
)
    requires
        integrity::broker_ok(b),
        model::valid_publication(p),
        integrity::targets_ok(b, targets),
        b.clients.contains_key(id),
    ensures
        queue_grown(
            b.clients[id].queued,
            model::delivered(b, p, targets).0.clients[id].queued,
            p,
            queued_for(targets, id),
        ),
    decreases targets.len(),
{
    let waits = |t: TargetView| t.client_id == id && !t.online && t.qos > 0;
    let start = b.clients[id].queued;
    if targets.len() == 0 {
        assert(targets =~= Seq::empty());
        steps::lemma_filter_empty(waits);
        assert(start.take(start.len() as int) =~= start);
    } else {
        let front = targets.drop_last();
        let t = targets.last();
        assert forall|i: int| 0 <= i < front.len() implies integrity::target_ok(
            b,
            #[trigger] front[i],
        ) by {
            assert(integrity::target_ok(b, targets[i]));
        }
        lemma_delivered_queue(b, p, front, id);
        integrity::lemma_delivered_ok(b, p, front);
        assert(targets =~= front.push(t));
        steps::lemma_filter_push(front, t, waits);
        let before = model::delivered(b, p, front).0;
        let after = model::delivered(b, p, targets).0;
        let queue = after.clients[id].queued;
        if waits(t) {
            assert(queue.take(start.len() as int) =~= before.clients[id].queued.take(
                start.len() as int,
            ));
        }
        assert forall|i: int| start.len() <= i < queue.len() implies {
            &&& (#[trigger] queue[i]).topic == p.topic
            &&& queue[i].payload == p.payload
            &&& queue[i].qos > 0
            &&& queue[i].packet_id is Some
        } by {
            if i < before.clients[id].queued.len() {
                assert(queue[i] == before.clients[id].queued[i]);
            }
        }
    }
}

/// A client that is offline has each copy that is meant for it put at the end
/// of its queue, where the copy's QoS is above 0. The queue of a client that is
/// online stays empty.
pub proof fn law_offline_clients_are_queued_for(
    b: BrokerView,
    source: Seq<char>,
    p: PublicationView,
    id: Seq<char>,
)
    requires
        integrity::broker_ok(b),
        model::valid_publication(p),
        b.clients.contains_key(id),
    ensures
        ({
            let route = Route { source, qos: p.qos, topic: p.topic };
            let after = model::published(b, source, p).0;
            let targets = model::targets_of(b, route).1;
            &&& queue_grown(
                b.clients[id].queued,
                after.clients[id].queued,
                p,
                queued_for(targets, id),
            )
            &&& b.clients[id].online ==> after.clients[id].queued.len() == 0
        }),
{
    integrity::lemma_taken_in_ok(b, source, p);
    let (kept, targets) = model::taken_in(b, source, p);
    lemma_delivered_queue(kept, model::plain_of(p), targets, id);
    integrity::law_publish_keeps_order(b, source, p);
    let after = model::published(b, source, p).0;
    assert(integrity::session_ok(id, after.clients[id], after.next_subscription_order));
}

/// The copies of a list that are for a client and need a packet identifier.
pub open spec fn numbered_for(targets: Seq<TargetView>, id: Seq<char>) -> nat {
    targets.filter(|t: TargetView| t.client_id == id && t.qos > 0).len()
}

/// The messages on their way to a client that need a packet identifier.
pub open spec fn numbered_sent(sent: Seq<DeliveryView>, id: Seq<char>) -> Seq<DeliveryView> {
    sent.filter(|d: DeliveryView| d.client_id == id && d.publication.qos > 0)
}

/// Whether each message of a list from a position on has the packet identifier
/// that comes next.
pub open spec fn numbered_from(list: Seq<PublicationView>, start: nat, mid: u16) -> bool {
    forall|i: int|
        start <= i < list.len() ==> (#[trigger] list[i]).packet_id == Some(
            mid_later(mid, (i - start) as nat),
        )
}

proof fn lemma_delivered_numbers(
    b: BrokerView,
    p: PublicationView,
    targets: Seq<TargetView>,
    id: Seq<char>,
)
    requires
        integrity::broker_ok(b),
        model::valid_publication(p),
        integrity::targets_ok(b, targets),
        b.clients.contains_key(id),
    ensures
        ({
            let (after, sent) = model::delivered(b, p, targets);
            let before = b.clients[id];
            let count = numbered_for(targets, id);
            &&& after.clients[id].next_outgoing_mid == mid_later(before.next_outgoing_mid, count)
            &&& before.online ==> numbered_sent(sent, id).len() == count
            &&& !before.online ==> after.clients[id].queued.len() == before.queued.len() + count
            &&& before.online ==> forall|i: int|
                0 <= i < count ==> (#[trigger] numbered_sent(sent, id)[i]).publication.packet_id
                    == Some(mid_later(before.next_outgoing_mid, i as nat))
            &&& numbered_from(
                after.clients[id].queued,
                before.queued.len(),
                before.next_outgoing_mid,
            )
        }),
    decreases targets.len(),
{
    let needs = |t: TargetView| t.client_id == id && t.qos > 0;
    let goes = |d: DeliveryView| d.client_id == id && d.publication.qos > 0;
    let start = b.clients[id];
    if targets.len() == 0 {
        assert(targets =~= Seq::empty());
        steps::lemma_filter_empty(needs);
        steps::lemma_filter_empty(goes);
    } else {
        let front = targets.drop_last();
        let t = targets.last();
        assert(integrity::target_ok(b, targets[targets.len() - 1]));
        assert forall|i: int| 0 <= i < front.len() implies integrity::target_ok(
            b,
            #[trigger] front[i],
        ) by {
            assert(integrity::target_ok(b, targets[i]));
        }
        lemma_delivered_numbers(b, p, front, id);
        integrity::lemma_delivered_ok(b, p, front);
        integrity::lemma_delivered_ok(b, p, targets);
        assert(targets =~= front.push(t));
        steps::lemma_filter_push(front, t, needs);
        let (before, earlier) = model::delivered(b, p, front);
        let (after, sent) = model::delivered(b, p, targets);
        let copy = model::handed_over(before.clients[t.client_id], p, t).1;
        let d = DeliveryView { client_id: t.client_id, publication: copy };
        steps::lemma_filter_push(earlier, d, goes);
        if t.online {
            assert(sent == earlier.push(d));
        }
        let queue = after.clients[id].queued;
        assert forall|i: int| start.queued.len() <= i < queue.len() implies (
        #[trigger] queue[i]).packet_id == Some(
            mid_later(start.next_outgoing_mid, (i - start.queued.len()) as nat),
        ) by {
            if i < before.clients[id].queued.len() {
                assert(queue[i] == before.clients[id].queued[i]);
            }
        }
    }
}

/// The copies of a message that need a packet identifier are given those of the
/// client's session one after the other: the messages that a client is sent where
/// it is online, and those that are queued for it where it is not.
pub proof fn law_published_copies_are_numbered(
    b: BrokerView,
    source: Seq<char>,
    p: PublicationView,
    id: Seq<char>,
)
    requires
        integrity::broker_ok(b),
        model::valid_publication(p),
        b.clients.contains_key(id),
    ensures
        ({
            let (after, result) = model::published(b, source, p);
            let route = Route { source, qos: p.qos, topic: p.topic };
            let sent = numbered_sent(result.deliveries, id);
            let mid = b.clients[id].next_outgoing_mid;
            let count = numbered_for(model::targets_of(b, route).1, id);
            &&& after.clients[id].next_outgoing_mid == mid_later(mid, count)
            &&& b.clients[id].online ==> sent.len() == count && forall|i: int|
                0 <= i < count ==> (#[trigger] sent[i]).publication.packet_id == Some(
                    mid_later(mid, i as nat),
                )
            &&& !b.clients[id].online ==> after.clients[id].queued.len()
                == b.clients[id].queued.len() + count
            &&& numbered_from(after.clients[id].queued, b.clients[id].queued.len(), mid)
        }),
{
    integrity::lemma_taken_in_ok(b, source, p);
    let (kept, targets) = model::taken_in(b, source, p);
    lemma_delivered_numbers(kept, model::plain_of(p), targets, id);
}

/// The oldest subscription of a client that takes the message decides how its
/// copy is made.
pub proof fn law_oldest_subscription_decides(
    session: SessionView,
    client_id: Seq<char>,
    route: Route,
    next_subscription_order: u64,
)
    requires
        integrity::session_ok(client_id, session, next_subscription_order),
    ensures
        ({
            let takers = model::own_takers(session, client_id, route);
            forall|i: int| 0 < i < takers.len() ==> takers[0].order < (#[trigger] takers[i]).order
        }),
{
    let keep = |s: SubscriptionView| model::takes_alone(s, client_id, route);
    integrity::lemma_filtered_subscriptions_ok(
        session.subscriptions,
        next_subscription_order,
        keep,
    );
}

/// A client whose only subscriptions leave out its own messages gets no copy of
/// them.
pub proof fn law_no_local_keeps_messages_away(
    session: SessionView,
    client_id: Seq<char>,
    route: Route,
)
    requires
        route.source == client_id,
        forall|i: int|
            0 <= i < session.subscriptions.len() ==> (#[trigger] session.subscriptions[i]).no_local,
    ensures
        model::own_takers(session, client_id, route).len() == 0,
{
    let keep = |s: SubscriptionView| model::takes_alone(s, client_id, route);
    let takers = session.subscriptions.filter(keep);
    if takers.len() > 0 {
        assert(takers.contains(takers[0]));
        steps::lemma_filter_contains(session.subscriptions, keep, takers[0]);
        let k = session.subscriptions.index_of(takers[0]);
        assert(session.subscriptions[k].no_local);
    }
}

// Shared subscriptions.

/// Whether a list stands by the order of the subscriptions.
pub open spec fn by_order(list: Seq<CandidateView>) -> bool {
    forall|i: int, j: int|
        0 <= i < j < list.len() ==> (#[trigger] list[i]).order <= (#[trigger] list[j]).order
}

proof fn lemma_placed_by_order(list: Seq<CandidateView>, c: CandidateView)
    requires
        by_order(list),
    ensures
        by_order(model::placed(list, c)),
        model::placed(list, c).len() == list.len() + 1,
        forall|x: CandidateView| #[trigger]
            model::placed(list, c).contains(x) <==> list.contains(x) || x == c,
    decreases list.len(),
{
    if list.len() == 0 || list.last().order <= c.order {
        assert forall|x: CandidateView| #[trigger]
            model::placed(list, c).contains(x) <==> list.contains(x) || x == c by {
            steps::lemma_push_contains(list, c, x);
        }
    } else {
        let front = list.drop_last();
        let last = list.last();
        let inner = model::placed(front, c);
        assert forall|i: int, j: int| 0 <= i < j < front.len() implies (
        #[trigger] front[i]).order <= (#[trigger] front[j]).order by {
            assert(list[i].order <= list[j].order);
        }
        lemma_placed_by_order(front, c);
        assert(list =~= front.push(last));
        assert forall|x: CandidateView| #[trigger]
            model::placed(list, c).contains(x) <==> list.contains(x) || x == c by {
            steps::lemma_push_contains(inner, last, x);
            steps::lemma_push_contains(front, last, x);
        }
        assert forall|i: int| 0 <= i < inner.len() implies (#[trigger] inner[i]).order
            <= last.order by {
            assert(inner.contains(inner[i]));
            if inner[i] != c {
                let k = front.index_of(inner[i]);
                assert(list[k].order <= list[list.len() - 1].order);
            }
        }
    }
}

/// The members of a shared filter are exactly those of the list that have
/// subscribed to it, and they stand by the order of their subscriptions.
pub proof fn law_members_stand_by_order(list: Seq<CandidateView>, filter: Seq<char>)
    ensures
        by_order(model::members(list, filter)),
        model::members(list, filter).len() == list.filter(
            |c: CandidateView| c.filter == filter,
        ).len(),
        forall|c: CandidateView| #[trigger]
            model::members(list, filter).contains(c) <==> list.contains(c) && c.filter == filter,
    decreases list.len(),
{
    let same = |c: CandidateView| c.filter == filter;
    if list.len() == 0 {
        assert(list =~= Seq::empty());
        steps::lemma_filter_empty(same);
    } else {
        let front = list.drop_last();
        let last = list.last();
        law_members_stand_by_order(front, filter);
        assert(list =~= front.push(last));
        steps::lemma_filter_push(front, last, same);
        if last.filter == filter {
            lemma_placed_by_order(model::members(front, filter), last);
        }
        assert forall|c: CandidateView| #[trigger]
            model::members(list, filter).contains(c) <==> list.contains(c) && c.filter
                == filter by {
            steps::lemma_push_contains(front, last, c);
        }
    }
}

proof fn lemma_round(cursors: Map<Seq<char>, nat>, list: Seq<CandidateView>, n: nat)
    requires
        0 < n <= list.len(),
    ensures
        ({
            let (moved, targets) = model::rounds(cursors, list, (n - 1) as nat);
            let filter = list[n - 1].filter;
            let group = model::members(list, filter);
            let cursor = model::cursor_of(moved, filter);
            let after = model::rounds(cursors, list, n);
            &&& group.len() > 0
            &&& if model::met_before(list, n - 1) {
                after.0 == moved && after.1 == targets
            } else {
                after.0 == moved.insert(filter, (cursor + 1) as nat % group.len()) && after.1
                    == targets.push(group[(cursor % group.len()) as int].target)
            }
        }),
{
    let filter = list[n - 1].filter;
    integrity::lemma_members(list, filter);
    assert(list[n - 1].filter == filter);
}

proof fn lemma_cursor_untouched(
    cursors: Map<Seq<char>, nat>,
    list: Seq<CandidateView>,
    n: nat,
    filter: Seq<char>,
)
    requires
        n <= list.len(),
        forall|k: int| 0 <= k < n ==> (#[trigger] list[k]).filter != filter,
    ensures
        model::cursor_of(model::rounds(cursors, list, n).0, filter) == model::cursor_of(
            cursors,
            filter,
        ),
    decreases n,
{
    if n > 0 {
        lemma_cursor_untouched(cursors, list, (n - 1) as nat, filter);
        lemma_round(cursors, list, n);
        assert(list[n - 1].filter != filter);
    }
}

/// In one publish every shared filter that takes the message moves on by one
/// member, and every other one stays where it is.
pub proof fn law_shared_filters_move_on_by_one(
    cursors: Map<Seq<char>, nat>,
    list: Seq<CandidateView>,
    n: nat,
    filter: Seq<char>,
)
    requires
        n <= list.len(),
    ensures
        ({
            let group = model::members(list, filter);
            let start = model::cursor_of(cursors, filter);
            model::cursor_of(model::rounds(cursors, list, n).0, filter) == if exists|k: int|
                0 <= k < n && (#[trigger] list[k]).filter == filter {
                (start + 1) as nat % group.len()
            } else {
                start
            }
        }),
    decreases n,
{
    if n > 0 {
        law_shared_filters_move_on_by_one(cursors, list, (n - 1) as nat, filter);
        lemma_round(cursors, list, n);
        if list[n - 1].filter == filter {
            if model::met_before(list, n - 1) {
                let k = choose|k: int|
                    0 <= k < n - 1 && #[trigger] list[k].filter == list[n - 1].filter;
                assert(list[k].filter == filter);
            } else {
                assert forall|k: int| 0 <= k < n - 1 implies (#[trigger] list[k]).filter
                    != filter by {
                    assert(list[k].filter != list[n - 1].filter);
                }
                lemma_cursor_untouched(cursors, list, (n - 1) as nat, filter);
            }
        } else {
            if exists|k: int| 0 <= k < n && (#[trigger] list[k]).filter == filter {
                let k = choose|k: int| 0 <= k < n && (#[trigger] list[k]).filter == filter;
                assert(0 <= k < n - 1);
            }
        }
    }
}

/// The number of different filters among the first members of a list.
pub open spec fn filters_met(list: Seq<CandidateView>, n: nat) -> nat
    decreases n,
{
    if n == 0 {
        0
    } else {
        filters_met(list, (n - 1) as nat) + if model::met_before(list, n - 1) {
            0nat
        } else {
            1
        }
    }
}

/// The rounds make one copy for each different filter.
pub proof fn lemma_round_count(cursors: Map<Seq<char>, nat>, list: Seq<CandidateView>, n: nat)
    requires
        n <= list.len(),
    ensures
        model::rounds(cursors, list, n).1.len() == filters_met(list, n),
    decreases n,
{
    if n > 0 {
        lemma_round_count(cursors, list, (n - 1) as nat);
        lemma_round(cursors, list, n);
    }
}

/// Each shared filter that takes the message gives it to one member only, the
/// one at its cursor: there are as many copies as filters, in the order in
/// which the filters are met.
pub proof fn law_each_shared_filter_gives_one_copy(
    cursors: Map<Seq<char>, nat>,
    list: Seq<CandidateView>,
    n: nat,
    at: nat,
)
    requires
        at < n <= list.len(),
        !model::met_before(list, at as int),
    ensures
        ({
            let filter = list[at as int].filter;
            let group = model::members(list, filter);
            let copies = model::rounds(cursors, list, n).1;
            &&& group.len() > 0
            &&& copies.len() == filters_met(list, n)
            &&& filters_met(list, at) < copies.len()
            &&& copies[filters_met(list, at) as int] == group[(model::cursor_of(cursors, filter)
                % group.len()) as int].target
        }),
    decreases n,
{
    lemma_round_count(cursors, list, n);
    lemma_round_count(cursors, list, (n - 1) as nat);
    lemma_round(cursors, list, n);
    if at < n - 1 {
        law_each_shared_filter_gives_one_copy(cursors, list, (n - 1) as nat, at);
    } else {
        assert forall|k: int| 0 <= k < n - 1 implies (#[trigger] list[k]).filter
            != list[at as int].filter by {
            assert(list[k].filter != list[n - 1].filter);
        }
        lemma_cursor_untouched(cursors, list, (n - 1) as nat, list[at as int].filter);
    }
}

/// A shared filter that has not taken a message yet starts with the first of its members.
pub proof fn law_first_member_comes_first(cursors: Map<Seq<char>, nat>, filter: Seq<char>)
    ensures
        !cursors.contains_key(filter) ==> model::cursor_of(cursors, filter) == 0,
        cursors.contains_key(filter) ==> model::cursor_of(cursors, filter) == cursors[filter],
{
}

/// The cursor of a shared filter after a number of rounds among as many
/// members.
pub open spec fn cursor_later(cursor: nat, members: nat, count: nat) -> nat
    decreases count,
{
    if count == 0 {
        cursor
    } else {
        (cursor_later(cursor, members, (count - 1) as nat) + 1) as nat % members
    }
}

/// The members of a shared filter take turns: in the round after a number of
/// others it is the turn of the member that many places on, and as many rounds
/// as there are members reach each of them once.
pub proof fn law_members_take_turns(cursor: nat, members: nat, count: nat)
    requires
        members > 0,
    ensures
        cursor_later(cursor, members, count) % members == (cursor + count) as nat % members,
    decreases count,
{
    if count > 0 {
        law_members_take_turns(cursor, members, (count - 1) as nat);
        let before = cursor_later(cursor, members, (count - 1) as nat);
        vstd::arithmetic::div_mod::lemma_mod_twice((before + 1) as int, members as int);
        vstd::arithmetic::div_mod::lemma_add_mod_noop(before as int, 1, members as int);
        vstd::arithmetic::div_mod::lemma_add_mod_noop(cursor + count - 1, 1, members as int);
    }
}

/// To publish leaves the members of every shared filter as they were.
pub proof fn law_publish_keeps_members(
    b: BrokerView,
    source: Seq<char>,
    p: PublicationView,
    route: Route,
)
    requires
        integrity::broker_ok(b),
    ensures
        ({
            let after = model::published(b, source, p).0;
            &&& after.client_ids() == b.client_ids()
            &&& model::candidates(after, after.client_ids(), route) == model::candidates(
                b,
                b.client_ids(),
                route,
            )
        }),
{
    let after = model::published(b, source, p).0;
    integrity::law_publish_keeps_order(b, source, p);
    if model::valid_publication(p) {
        law_published_message_is_delivered(b, source, p);
        integrity::lemma_taken_in_ok(b, source, p);
        let (kept, targets) = model::taken_in(b, source, p);
        integrity::lemma_delivered_ok(kept, model::plain_of(p), targets);
        text_order::lemma_in_order(b.clients.dom());
        assert forall|i: int| 0 <= i < b.client_ids().len() implies b.clients.contains_key(
            #[trigger] b.client_ids()[i],
        ) by {
            assert(b.client_ids().contains(b.client_ids()[i]));
        }
        lemma_same_candidates(b, after, b.client_ids(), route);
    }
}

/// With every publish the turn of each shared filter that takes the message
/// goes to the next of its members, who stay the same: the next publish to the
/// topic goes there.
pub proof fn law_next_publish_goes_to_the_next_member(
    b: BrokerView,
    source: Seq<char>,
    p: PublicationView,
    filter: Seq<char>,
)
    requires
        integrity::broker_ok(b),
        model::valid_publication(p),
    ensures
        ({
            let route = Route { source, qos: p.qos, topic: p.topic };
            let after = model::published(b, source, p).0;
            let list = model::candidates(b, b.client_ids(), route);
            let group = model::members(list, filter);
            let start = model::cursor_of(b.shared_cursors, filter);
            &&& model::members(model::candidates(after, after.client_ids(), route), filter)
                == group
            &&& group.len() > 0 ==> model::cursor_of(after.shared_cursors, filter) == (start
                + 1) as nat % group.len()
            &&& group.len() == 0 ==> model::cursor_of(after.shared_cursors, filter) == start
        }),
{
    let route = Route { source, qos: p.qos, topic: p.topic };
    let list = model::candidates(b, b.client_ids(), route);
    let group = model::members(list, filter);
    law_publish_keeps_members(b, source, p, route);
    law_shared_filters_move_on_by_one(b.shared_cursors, list, list.len(), filter);
    integrity::lemma_members(list, filter);
    if group.len() > 0 {
        assert(list.contains(group[0]));
        let k = list.index_of(group[0]);
        assert(list[k].filter == filter);
    }
    integrity::lemma_taken_in_ok(b, source, p);
    let (kept, targets) = model::taken_in(b, source, p);
    integrity::lemma_delivered_ok(kept, model::plain_of(p), targets);
}

proof fn lemma_same_candidates(
    b: BrokerView,
    after: BrokerView,
    ids: Seq<Seq<char>>,
    route: Route,
)
    requires
        after.upgrade_outgoing_qos == b.upgrade_outgoing_qos,
        forall|i: int| 0 <= i < ids.len() ==> b.clients.contains_key(#[trigger] ids[i]),
        forall|id: Seq<char>| #[trigger]
            b.clients.contains_key(id) ==> only_grown(b.clients[id], after.clients[id]),
    ensures
        model::candidates(after, ids, route) == model::candidates(b, ids, route),
    decreases ids.len(),
{
    if ids.len() > 0 {
        let front = ids.drop_last();
        let id = ids.last();
        assert forall|i: int| 0 <= i < front.len() implies b.clients.contains_key(
            #[trigger] front[i],
        ) by {
            assert(front[i] == ids[i]);
        }
        lemma_same_candidates(b, after, front, route);
        assert(b.clients.contains_key(ids[ids.len() - 1]));
        assert(only_grown(b.clients[id], after.clients[id]));
        assert(model::own_candidates(after, id, route) =~= model::own_candidates(b, id, route));
    }
}

// Retained messages.

/// A message with the retain flag replaces the retained one of its topic, an
/// empty one clears it, and no other topic is touched.
pub proof fn law_retained_messages(b: BrokerView, source: Seq<char>, p: PublicationView)
    requires
        integrity::broker_ok(b),
        model::valid_publication(p),
    ensures
        ({
            let after = model::published(b, source, p).0.retained;
            &&& p.retain && p.payload.len() > 0 ==> after.contains_key(p.topic)
                && after[p.topic].payload == p.payload && after[p.topic].qos == p.qos
            &&& p.retain && p.payload.len() == 0 ==> !after.contains_key(p.topic)
            &&& !p.retain ==> after == b.retained
            &&& forall|name: Seq<char>|
                name != p.topic ==> {
                    &&& #[trigger] after.contains_key(name) <==> b.retained.contains_key(name)
                    &&& after.contains_key(name) ==> after[name] == b.retained[name]
                }
        }),
{
    integrity::lemma_taken_in_ok(b, source, p);
    let (kept, targets) = model::taken_in(b, source, p);
    integrity::lemma_delivered_ok(kept, model::plain_of(p), targets);
}

/// A retained message as it comes back from a snapshot.
pub open spec fn refreshed(p: PublicationView) -> PublicationView {
    PublicationView { dup: false, topic_alias: None, ..p }
}

/// The retained messages survive a restart: a snapshot of them, restored, gives
/// the same messages under the same topics, but for the duplicate flag and the
/// topic alias of the connection that they came over.
pub proof fn law_retained_messages_survive(b: BrokerView)
    requires
        integrity::broker_ok(b),
    ensures
        model::retained_from(model::retained_list(b.retained)) == b.retained.map_values(
            |p: PublicationView| refreshed(p),
        ),
{
    let names = text_order::in_order(b.retained.dom());
    let list = model::retained_list(b.retained);
    text_order::lemma_in_order(b.retained.dom());
    lemma_retained_front(b, names, list, list.len() as int);
    assert(list.take(list.len() as int) =~= list);
    let restored = model::retained_from(list);
    let expected = b.retained.map_values(|p: PublicationView| refreshed(p));
    assert forall|name: Seq<char>| #[trigger] restored.contains_key(name)
        <==> expected.contains_key(name) by {
        assert(names.contains(name) <==> b.retained.contains_key(name));
        if names.contains(name) {
            let k = names.index_of(name);
            assert(names[k] == name);
        }
    }
    assert(restored =~= expected);
}

proof fn lemma_retained_front(
    b: BrokerView,
    names: Seq<Seq<char>>,
    list: Seq<PublicationView>,
    n: int,
)
    requires
        integrity::broker_ok(b),
        names == text_order::in_order(b.retained.dom()),
        text_order::lists(names, b.retained.dom()),
        list == model::retained_list(b.retained),
        0 <= n <= list.len(),
    ensures
        forall|name: Seq<char>| #[trigger]
            model::retained_from(list.take(n)).contains_key(name) <==> exists|k: int|
                0 <= k < n && #[trigger] names[k] == name,
        forall|name: Seq<char>| #[trigger]
            model::retained_from(list.take(n)).contains_key(name) ==> b.retained.contains_key(name)
                && model::retained_from(list.take(n))[name] == refreshed(b.retained[name]),
    decreases n,
{
    if n == 0 {
        assert(list.take(0) =~= Seq::empty());
    } else {
        lemma_retained_front(b, names, list, n - 1);
        steps::lemma_take_next(list, n - 1);
        let name = names[n - 1];
        assert(names.contains(name));
        assert(b.retained.contains_key(name));
        let p = list[n - 1];
        assert(integrity::retained_ok(name, b.retained[name]));
        assert(p == b.retained[name]);
        assert(model::as_retained(p) =~= refreshed(p));
    }
}

/// The topics of a list of messages.
pub open spec fn topics_of(list: Seq<PublicationView>) -> Seq<Seq<char>> {
    list.map_values(|p: PublicationView| p.topic)
}

/// A snapshot of the retained messages stands in ascending order of the topics,
/// one message for each.
pub proof fn law_retained_snapshot_is_in_order(b: BrokerView)
    requires
        integrity::broker_ok(b),
    ensures
        text_order::lists(topics_of(model::retained_list(b.retained)), b.retained.dom()),
{
    let names = text_order::in_order(b.retained.dom());
    text_order::lemma_in_order(b.retained.dom());
    let topics = topics_of(model::retained_list(b.retained));
    assert forall|i: int| 0 <= i < names.len() implies topics[i] == #[trigger] names[i] by {
        assert(names.contains(names[i]));
        assert(integrity::retained_ok(names[i], b.retained[names[i]]));
    }
    assert(topics =~= names);
}

proof fn lemma_list_replayed_topics(
    s: SessionView,
    upgrade: bool,
    subscription: SubscriptionView,
    list: Seq<PublicationView>,
)
    ensures
        topics_of(model::list_replayed(s, upgrade, subscription, list).1) == topics_of(list),
    decreases list.len(),
{
    if list.len() == 0 {
        assert(topics_of(model::list_replayed(s, upgrade, subscription, list).1) =~= topics_of(
            list,
        ));
    } else {
        let front = list.drop_last();
        lemma_list_replayed_topics(s, upgrade, subscription, front);
        let (before, sent) = model::list_replayed(s, upgrade, subscription, front);
        let copy = model::replayed(before, upgrade, subscription, list.last()).1;
        assert(topics_of(sent.push(copy)) =~= topics_of(sent).push(list.last().topic));
        assert(topics_of(list) =~= topics_of(front).push(list.last().topic));
    }
}

/// A new subscription that asks for retained messages gets those whose topics
/// its filter matches, in ascending order of the topics.
pub proof fn law_subscription_gets_matching_retained_messages(
    b: BrokerView,
    client_id: Seq<char>,
    r: RequestView,
)
    requires
        integrity::broker_ok(b),
        b.clients.contains_key(client_id),
        model::valid_request(r),
        model::replays(
            r.retain_handling,
            model::subscribed(b.clients[client_id].subscriptions, r.filter),
        ),
    ensures
        ({
            let result = model::subscribing(b, client_id, seq![r]).1;
            &&& result.reason_codes == seq![r.qos]
            &&& result.retained.map_values(|d: DeliveryView| d.publication.topic)
                == text_order::in_order(b.retained.dom()).filter(
                |name: Seq<char>| topic::filter_matches(r.filter, name),
            )
        }),
{
    let session = b.clients[client_id];
    let one = seq![r];
    assert(one.drop_last() =~= Seq::empty());
    reveal_with_fuel(model::requests_taken, 2);
    let taken = model::requests_taken(session.subscriptions, b.next_subscription_order, one);
    assert(taken.reason_codes =~= seq![r.qos]);
    let s = taken.replays[0];
    assert(taken.replays =~= seq![s]);
    assert(seq![s].drop_last() =~= Seq::empty());
    reveal_with_fuel(model::all_replayed, 2);
    let subscribed = SessionView { subscriptions: taken.subscriptions, ..session };
    let matching = model::retained_matching(b.retained, r.filter);
    lemma_list_replayed_topics(subscribed, b.upgrade_outgoing_qos, s, matching);
    let sent = model::list_replayed(subscribed, b.upgrade_outgoing_qos, s, matching).1;
    assert(Seq::<PublicationView>::empty() + sent =~= sent);
    let result = model::subscribing(b, client_id, one).1;
    assert(result.retained =~= model::addressed(client_id, sent));
    assert(result.retained.map_values(|d: DeliveryView| d.publication.topic) =~= topics_of(sent));
    let names = text_order::in_order(b.retained.dom());
    text_order::lemma_in_order(b.retained.dom());
    lemma_matching_topics(b, names, names.len() as int, r.filter);
    assert(names.take(names.len() as int) =~= names);
}

/// The topics of the retained messages that a filter matches.
pub proof fn lemma_matching_topics(b: BrokerView, names: Seq<Seq<char>>, n: int, filter: Seq<char>)
    requires
        integrity::broker_ok(b),
        text_order::lists(names, b.retained.dom()),
        0 <= n <= names.len(),
    ensures
        topics_of(
            names.take(n).map_values(|t: Seq<char>| b.retained[t]).filter(
                |p: PublicationView| topic::filter_matches(filter, p.topic),
            ),
        ) == names.take(n).filter(|name: Seq<char>| topic::filter_matches(filter, name)),
    decreases n,
{
    let value = |t: Seq<char>| b.retained[t];
    let takes = |p: PublicationView| topic::filter_matches(filter, p.topic);
    let fits = |name: Seq<char>| topic::filter_matches(filter, name);
    if n == 0 {
        assert(names.take(0) =~= Seq::empty());
        steps::lemma_filter_empty(fits);
        steps::lemma_filter_empty(takes);
        assert(names.take(0).map_values(value) =~= Seq::empty());
        assert(topics_of(Seq::<PublicationView>::empty()) =~= Seq::empty());
    } else {
        lemma_matching_topics(b, names, n - 1, filter);
        steps::lemma_take_next(names, n - 1);
        let name = names[n - 1];
        assert(names.contains(name));
        assert(integrity::retained_ok(name, b.retained[name]));
        let front = names.take(n - 1).map_values(value);
        assert(names.take(n).map_values(value) =~= front.push(b.retained[name]));
        steps::lemma_filter_push(front, b.retained[name], takes);
        steps::lemma_filter_push(names.take(n - 1), name, fits);
        assert(topics_of(front.filter(takes).push(b.retained[name])) =~= topics_of(
            front.filter(takes),
        ).push(name));
    }
}

proof fn lemma_list_replayed_sendable(
    s: SessionView,
    upgrade: bool,
    subscription: SubscriptionView,
    list: Seq<PublicationView>,
)
    ensures
        forall|i: int|
            0 <= i < model::list_replayed(s, upgrade, subscription, list).1.len()
                ==> encode::sendable(
                #[trigger] model::list_replayed(s, upgrade, subscription, list).1[i],
            ),
    decreases list.len(),
{
    if list.len() > 0 {
        let front = list.drop_last();
        lemma_list_replayed_sendable(s, upgrade, subscription, front);
        let sent = model::list_replayed(s, upgrade, subscription, front).1;
        let all = model::list_replayed(s, upgrade, subscription, list).1;
        assert forall|i: int| 0 <= i < all.len() implies encode::sendable(#[trigger] all[i]) by {
            if i < sent.len() {
                assert(all[i] == sent[i]);
            }
        }
    }
}

proof fn lemma_all_replayed_sendable(
    s: SessionView,
    upgrade: bool,
    retained: Map<Seq<char>, PublicationView>,
    list: Seq<SubscriptionView>,
)
    ensures
        forall|i: int|
            0 <= i < model::all_replayed(s, upgrade, retained, list).1.len() ==> encode::sendable(
                #[trigger] model::all_replayed(s, upgrade, retained, list).1[i],
            ),
    decreases list.len(),
{
    if list.len() > 0 {
        let front = list.drop_last();
        lemma_all_replayed_sendable(s, upgrade, retained, front);
        let (before, sent) = model::all_replayed(s, upgrade, retained, front);
        let matching = model::retained_matching(retained, list.last().filter);
        lemma_list_replayed_sendable(before, upgrade, list.last(), matching);
        let more = model::list_replayed(before, upgrade, list.last(), matching).1;
        let all = model::all_replayed(s, upgrade, retained, list).1;
        assert(all == sent + more);
        assert forall|i: int| 0 <= i < all.len() implies encode::sendable(#[trigger] all[i]) by {
            if i < sent.len() {
                assert(all[i] == sent[i]);
            } else {
                assert(all[i] == more[i - sent.len()]);
            }
        }
    }
}

/// Every retained message that the broker sends for a subscribe can be encoded.
pub proof fn law_replays_can_be_sent(
    b: BrokerView,
    client_id: Seq<char>,
    requests: Seq<RequestView>,
)
    ensures
        forall|i: int|
            0 <= i < model::subscribing(b, client_id, requests).1.retained.len()
                ==> encode::sendable(
                (#[trigger] model::subscribing(
                    b,
                    client_id,
                    requests,
                ).1.retained[i]).publication,
            ),
{
    if b.clients.contains_key(client_id) {
        let session = b.clients[client_id];
        let taken = model::requests_taken(
            session.subscriptions,
            b.next_subscription_order,
            requests,
        );
        lemma_all_replayed_sendable(
            SessionView { subscriptions: taken.subscriptions, ..session },
            b.upgrade_outgoing_qos,
            b.retained,
            taken.replays,
        );
    }
}

/// The messages of a list that need a packet identifier.
pub open spec fn needing_ids(list: Seq<PublicationView>) -> Seq<PublicationView> {
    list.filter(|p: PublicationView| p.qos > 0)
}

/// Whether a list of replayed messages has used up the packet identifiers of a
/// session one after the other.
pub open spec fn replay_numbered(
    before: SessionView,
    after: SessionView,
    list: Seq<PublicationView>,
) -> bool {
    &&& after.next_outgoing_mid == mid_later(before.next_outgoing_mid, needing_ids(list).len())
    &&& numbered_from(needing_ids(list), 0, before.next_outgoing_mid)
}

proof fn lemma_mid_later_twice(mid: u16, m: nat, n: nat)
    ensures
        mid_later(mid_later(mid, m), n) == mid_later(mid, m + n),
    decreases n,
{
    if n > 0 {
        lemma_mid_later_twice(mid, m, (n - 1) as nat);
        assert((m + n - 1) as nat == m + (n - 1) as nat);
    }
}

proof fn lemma_list_replayed_numbers(
    s: SessionView,
    upgrade: bool,
    subscription: SubscriptionView,
    list: Seq<PublicationView>,
)
    ensures
        ({
            let (after, sent) = model::list_replayed(s, upgrade, subscription, list);
            replay_numbered(s, after, sent)
        }),
    decreases list.len(),
{
    let needs = |p: PublicationView| p.qos > 0;
    if list.len() == 0 {
        steps::lemma_filter_empty(needs);
    } else {
        let front = list.drop_last();
        lemma_list_replayed_numbers(s, upgrade, subscription, front);
        let (before, sent) = model::list_replayed(s, upgrade, subscription, front);
        let copy = model::replayed(before, upgrade, subscription, list.last()).1;
        steps::lemma_filter_push(sent, copy, needs);
        let all = needing_ids(sent.push(copy));
        assert forall|i: int| 0 <= i < all.len() implies (#[trigger] all[i]).packet_id == Some(
            mid_later(s.next_outgoing_mid, i as nat),
        ) by {
            if i < needing_ids(sent).len() {
                assert(all[i] == needing_ids(sent)[i]);
            }
        }
    }
}

proof fn lemma_all_replayed_numbers(
    s: SessionView,
    upgrade: bool,
    retained: Map<Seq<char>, PublicationView>,
    list: Seq<SubscriptionView>,
)
    ensures
        ({
            let (after, sent) = model::all_replayed(s, upgrade, retained, list);
            replay_numbered(s, after, sent)
        }),
    decreases list.len(),
{
    let needs = |p: PublicationView| p.qos > 0;
    if list.len() == 0 {
        steps::lemma_filter_empty(needs);
    } else {
        let front = list.drop_last();
        lemma_all_replayed_numbers(s, upgrade, retained, front);
        let (before, sent) = model::all_replayed(s, upgrade, retained, front);
        let matching = model::retained_matching(retained, list.last().filter);
        lemma_list_replayed_numbers(before, upgrade, list.last(), matching);
        let more = model::list_replayed(before, upgrade, list.last(), matching).1;
        Seq::filter_distributes_over_add(sent, more, needs);
        let first = needing_ids(sent);
        let second = needing_ids(more);
        let all = needing_ids(sent + more);
        assert(all == first + second);
        lemma_mid_later_twice(s.next_outgoing_mid, first.len(), second.len());
        assert forall|i: int| 0 <= i < all.len() implies (#[trigger] all[i]).packet_id == Some(
            mid_later(s.next_outgoing_mid, i as nat),
        ) by {
            if i < first.len() {
                assert(all[i] == first[i]);
            } else {
                assert(all[i] == second[i - first.len()]);
                lemma_mid_later_twice(
                    s.next_outgoing_mid,
                    first.len(),
                    (i - first.len()) as nat,
                );
            }
        }
    }
}

/// The retained messages that a subscribe sends are given the packet identifiers
/// of the client's session one after the other, as far as they need one.
pub proof fn law_replayed_copies_are_numbered(
    b: BrokerView,
    client_id: Seq<char>,
    requests: Seq<RequestView>,
)
    requires
        b.clients.contains_key(client_id),
    ensures
        ({
            let (after, result) = model::subscribing(b, client_id, requests);
            let sent = result.retained.filter(|d: DeliveryView| d.publication.qos > 0);
            let mid = b.clients[client_id].next_outgoing_mid;
            &&& after.clients[client_id].next_outgoing_mid == mid_later(mid, sent.len())
            &&& forall|i: int|
                0 <= i < sent.len() ==> (#[trigger] sent[i]).publication.packet_id == Some(
                    mid_later(mid, i as nat),
                )
        }),
{
    let session = b.clients[client_id];
    let taken = model::requests_taken(session.subscriptions, b.next_subscription_order, requests);
    let subscribed = SessionView { subscriptions: taken.subscriptions, ..session };
    lemma_all_replayed_numbers(subscribed, b.upgrade_outgoing_qos, b.retained, taken.replays);
    let list = model::all_replayed(
        subscribed,
        b.upgrade_outgoing_qos,
        b.retained,
        taken.replays,
    ).1;
    lemma_addressed_filtered(client_id, list);
}

proof fn lemma_addressed_filtered(client_id: Seq<char>, list: Seq<PublicationView>)
    ensures
        model::addressed(client_id, list).filter(|d: DeliveryView| d.publication.qos > 0)
            == model::addressed(client_id, needing_ids(list)),
    decreases list.len(),
{
    let needs = |p: PublicationView| p.qos > 0;
    let goes = |d: DeliveryView| d.publication.qos > 0;
    let all = model::addressed(client_id, list);
    if list.len() == 0 {
        assert(list =~= Seq::empty());
        assert(all =~= Seq::empty());
        steps::lemma_filter_empty(needs);
        steps::lemma_filter_empty(goes);
        assert(model::addressed(client_id, needing_ids(list)) =~= Seq::empty());
    } else {
        let front = list.drop_last();
        let last = list.last();
        lemma_addressed_filtered(client_id, front);
        let d = DeliveryView { client_id, publication: last };
        assert(list =~= front.push(last));
        assert(all =~= model::addressed(client_id, front).push(d));
        steps::lemma_filter_push(front, last, needs);
        steps::lemma_filter_push(model::addressed(client_id, front), d, goes);
        assert(model::addressed(client_id, needing_ids(front).push(last))
            =~= model::addressed(client_id, needing_ids(front)).push(d));
    }
}

// Subscribing.

/// A SUBSCRIBE packet is answered with one reason code for each request: the
/// QoS that was granted, or the code of a refusal.
pub proof fn law_one_reason_code_for_each_request(
    list: Seq<SubscriptionView>,
    next_subscription_order: u64,
    requests: Seq<RequestView>,
)
    ensures
        ({
            let codes = model::requests_taken(list, next_subscription_order, requests).reason_codes;
            &&& codes.len() == requests.len()
            &&& forall|i: int|
                0 <= i < codes.len() ==> #[trigger] codes[i] == if model::valid_request(
                    requests[i],
                ) {
                    requests[i].qos
                } else {
                    model::REQUEST_REFUSED
                }
        }),
    decreases requests.len(),
{
    if requests.len() > 0 {
        let front = requests.drop_last();
        law_one_reason_code_for_each_request(list, next_subscription_order, front);
        let before = model::requests_taken(list, next_subscription_order, front).reason_codes;
        let codes = model::requests_taken(list, next_subscription_order, requests).reason_codes;
        assert forall|i: int| 0 <= i < codes.len() implies #[trigger] codes[i]
            == if model::valid_request(requests[i]) {
            requests[i].qos
        } else {
            model::REQUEST_REFUSED
        } by {
            if i < before.len() {
                assert(codes[i] == before[i]);
                assert(front[i] == requests[i]);
            }
        }
    }
}

/// After a request is granted the list holds a subscription to its filter, as
/// the request asks for, and to every filter that it held before. One that
/// existed keeps its order.
pub proof fn law_granted_request_is_subscribed(
    at: model::Subscribing,
    r: RequestView,
    filter: Seq<char>,
)
    requires
        model::valid_request(r),
        integrity::subscriptions_ok(at.subscriptions, at.next_subscription_order),
    ensures
        ({
            let after = model::request_taken(at, r).subscriptions;
            &&& after.contains(
                model::subscription_for(
                    r,
                    if model::subscribed(at.subscriptions, r.filter) {
                        at.subscriptions[model::place_of(at.subscriptions, r.filter)].order
                    } else {
                        at.next_subscription_order
                    },
                ),
            )
            &&& model::subscribed(after, filter) <==> model::subscribed(at.subscriptions, filter)
                || filter == r.filter
        }),
{
    let before = at.subscriptions;
    let after = model::request_taken(at, r).subscriptions;
    integrity::lemma_request_subscribed(at, r, filter);
    if model::subscribed(before, r.filter) {
        let place = model::place_of(before, r.filter);
        assert(model::subscribed_at(before, r.filter, place));
        assert(after.contains(after[place]));
    } else {
        assert(after.contains(after[before.len() as int]));
    }
}

/// After a client has taken subscriptions back it holds none of them, and all
/// of its others.
pub proof fn law_unsubscribed_filters_are_gone(
    b: BrokerView,
    client_id: Seq<char>,
    filters: Seq<Seq<char>>,
    filter: Seq<char>,
)
    requires
        integrity::broker_ok(b),
        b.clients.contains_key(client_id),
    ensures
        model::subscribed(
            model::unsubscribing(b, client_id, filters).clients[client_id].subscriptions,
            filter,
        ) <==> model::subscribed(b.clients[client_id].subscriptions, filter) && !filters.contains(
            filter,
        ),
{
    let before = b.clients[client_id].subscriptions;
    let keep = |s: SubscriptionView| !filters.contains(s.filter);
    let after = before.filter(keep);
    if model::subscribed(after, filter) {
        let k = model::place_of(after, filter);
        assert(model::subscribed_at(after, filter, k));
        assert(after.contains(after[k]));
        steps::lemma_filter_contains(before, keep, after[k]);
        integrity::lemma_subscribed_somewhere(before, filter, before.index_of(after[k]));
    }
    if model::subscribed(before, filter) && !filters.contains(filter) {
        let k = model::place_of(before, filter);
        assert(model::subscribed_at(before, filter, k));
        assert(before.contains(before[k]));
        steps::lemma_filter_contains(before, keep, before[k]);
        integrity::lemma_subscribed_somewhere(after, filter, after.index_of(before[k]));
    }
}

// Acknowledgements.

/// A QoS 1 message waits until it is acknowledged: after that it does not wait
/// any more, a second acknowledgement changes nothing, and the other messages
/// go on waiting.
pub proof fn law_puback_ends_the_wait(
    b: BrokerView,
    client_id: Seq<char>,
    packet_id: u16,
    other: u16,
)
    ensures
        ({
            let after = model::acknowledged(b, client_id, packet_id);
            &&& !model::awaits_puback(after, client_id, packet_id)
            &&& model::acknowledged(after, client_id, packet_id) == after
            &&& other != packet_id ==> model::awaits_puback(after, client_id, other)
                == model::awaits_puback(b, client_id, other)
        }),
{
}

/// An outgoing QoS 2 message goes from the wait for PUBREC to the wait for
/// PUBCOMP, and then waits no more: a second PUBREC changes nothing, and a
/// second PUBCOMP changes nothing.
pub proof fn law_qos2_handshake(b: BrokerView, client_id: Seq<char>, packet_id: u16)
    ensures
        ({
            let received = model::received(b, client_id, packet_id);
            let completed = model::completed(b, client_id, packet_id);
            &&& model::awaits_pubcomp(received, client_id, packet_id) == model::awaits_pubcomp(
                b,
                client_id,
                packet_id,
            )
            &&& model::awaits_pubcomp(b, client_id, packet_id)
                ==> received.clients[client_id].inflight_qos2[packet_id].state
                == Qos2OutboundState::WaitingPubComp
            &&& model::received(received, client_id, packet_id) == received
            &&& !model::awaits_pubcomp(completed, client_id, packet_id)
            &&& model::completed(completed, client_id, packet_id) == completed
            &&& model::completed(received, client_id, packet_id) == completed
        }),
{
    let received = model::received(b, client_id, packet_id);
    if model::awaits_pubcomp(b, client_id, packet_id) {
        let s = b.clients[client_id];
        let r = received.clients[client_id];
        let again = model::received(received, client_id, packet_id);
        assert(again.clients[client_id].inflight_qos2 =~= r.inflight_qos2);
        assert(again.clients =~= received.clients);
        assert(r.inflight_qos2.remove(packet_id) =~= s.inflight_qos2.remove(packet_id));
        assert(model::completed(received, client_id, packet_id).clients =~= model::completed(
            b,
            client_id,
            packet_id,
        ).clients);
    }
}

/// A QoS 2 message that comes twice under one packet identifier is held once:
/// the second is accepted as a duplicate and changes nothing.
pub proof fn law_duplicates_are_held_once(
    b: BrokerView,
    client_id: Seq<char>,
    p: PublicationView,
    again: PublicationView,
)
    requires
        model::takes_qos2(b, client_id, p),
        model::takes_qos2(b, client_id, again),
        again.packet_id == p.packet_id,
    ensures
        ({
            let (after, first) = model::held(b, client_id, p);
            let (later, second) = model::held(after, client_id, again);
            &&& first.accepted && second.accepted && second.duplicate
            &&& later == after
            &&& model::awaits_pubrel(after, client_id, p.packet_id->0)
        }),
{
}

/// A held message is published when it is released, once: the release takes it
/// out, so that a second release finds nothing and changes nothing.
pub proof fn law_held_messages_are_released_once(
    b: BrokerView,
    client_id: Seq<char>,
    packet_id: u16,
)
    requires
        integrity::broker_ok(b),
    ensures
        ({
            let (after, result) = model::released(b, client_id, packet_id);
            &&& result is Some <==> model::awaits_pubrel(b, client_id, packet_id)
            &&& result matches Some(r) ==> r.accepted
            &&& !model::awaits_pubrel(after, client_id, packet_id)
            &&& model::released(after, client_id, packet_id) == (
                after,
                None::<crate::session::PublishView>,
            )
        }),
{
    if model::awaits_pubrel(b, client_id, packet_id) {
        let session = b.clients[client_id];
        let taken = SessionView {
            inbound_qos2: session.inbound_qos2.remove(packet_id),
            ..session
        };
        let p = session.inbound_qos2[packet_id];
        assert(integrity::session_ok(client_id, session, b.next_subscription_order));
        assert(integrity::message_ok(p, packet_id, 2));
        assert(integrity::session_ok(client_id, taken, b.next_subscription_order));
        integrity::lemma_session_replaced(b, client_id, taken);
        let between = b.with_session(client_id, taken);
        law_published_message_is_delivered(between, client_id, p);
        integrity::law_publish_keeps_order(between, client_id, p);
        let after = model::published(between, client_id, p).0;
        assert(between.clients.contains_key(client_id));
        assert(only_grown(between.clients[client_id], after.clients[client_id]));
    }
}

} // verus!
