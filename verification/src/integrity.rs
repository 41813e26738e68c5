//! What holds of the broker at all times, and that every step keeps it.

use vstd::prelude::*;

use crate::model;
use crate::model::{BrokerView, CandidateView, Route, Subscribing, TargetView};
use crate::packet::{PublicationView, RequestView, WillView};
use crate::session::{OutboundView, PersistedView, SessionView, SubscriptionView};
use crate::steps;
use crate::text_order;

verus! {

/// A message that waits for an acknowledgement: the broker routes it, and it
/// stands under its own packet identifier.
pub open spec fn message_ok(p: PublicationView, packet_id: u16, qos: u8) -> bool {
    model::valid_publication(p) && p.qos == qos && p.packet_id == Some(packet_id)
}

/// The subscriptions of a session: the broker keeps each of them, their
/// filters are distinct, and their orders ascend and have been given out.
pub open spec fn subscriptions_ok(
    list: Seq<SubscriptionView>,
    next_subscription_order: u64,
) -> bool {
    &&& forall|i: int| 0 <= i < list.len() ==> model::valid_subscription(#[trigger] list[i])
    &&& forall|i: int|
        0 <= i < list.len() ==> (#[trigger] list[i]).order < next_subscription_order
    &&& forall|i: int, j: int|
        0 <= i < j < list.len() ==> (#[trigger] list[i]).filter != (#[trigger] list[j]).filter
    &&& forall|i: int, j: int|
        0 <= i < j < list.len() ==> (#[trigger] list[i]).order < (#[trigger] list[j]).order
}

/// The queue of a session: each message would be persisted.
pub open spec fn queue_ok(list: Seq<PublicationView>) -> bool {
    forall|i: int| 0 <= i < list.len() ==> model::keeps_queued(#[trigger] list[i])
}

/// A session: it stands under its client's name, a client that is online has
/// nothing queued and no time of disconnect, and the next packet identifier is
/// not zero.
pub open spec fn session_ok(
    client_id: Seq<char>,
    s: SessionView,
    next_subscription_order: u64,
) -> bool {
    &&& s.client_id == client_id
    &&& subscriptions_ok(s.subscriptions, next_subscription_order)
    &&& queue_ok(s.queued)
    &&& s.online ==> s.queued.len() == 0 && s.disconnected_at is None
    &&& s.next_outgoing_mid > 0
    &&& forall|id: u16| #[trigger]
        s.inflight_qos1.contains_key(id) ==> message_ok(s.inflight_qos1[id], id, 1)
    &&& forall|id: u16| #[trigger]
        s.inflight_qos2.contains_key(id) ==> message_ok(s.inflight_qos2[id].publication, id, 2)
    &&& forall|id: u16| #[trigger]
        s.inbound_qos2.contains_key(id) ==> message_ok(s.inbound_qos2[id], id, 2)
}

/// A retained message: it stands under its topic, it can be routed, it is not
/// empty, and it belongs to no subscriber.
pub open spec fn retained_ok(name: Seq<char>, p: PublicationView) -> bool {
    &&& p.topic == name
    &&& model::valid_publication(p)
    &&& p.retain
    &&& p.payload.len() > 0
    &&& p.packet_id is None
    &&& p.subscription_identifiers.len() == 0
}

/// What holds of the broker at all times.
pub open spec fn broker_ok(b: BrokerView) -> bool {
    &&& b.clients.dom().finite()
    &&& b.retained.dom().finite()
    &&& forall|id: Seq<char>| #[trigger]
        b.clients.contains_key(id) ==> session_ok(id, b.clients[id], b.next_subscription_order)
    &&& forall|name: Seq<char>| #[trigger]
        b.retained.contains_key(name) ==> retained_ok(name, b.retained[name])
}

/// The clients in order are clients of the broker.
pub proof fn lemma_clients_listed(b: BrokerView)
    requires
        broker_ok(b),
    ensures
        forall|i: int|
            0 <= i < b.client_ids().len() ==> b.clients.contains_key(#[trigger] b.client_ids()[i]),
{
    text_order::lemma_in_order(b.clients.dom());
    assert forall|i: int| 0 <= i < b.client_ids().len() implies b.clients.contains_key(
        #[trigger] b.client_ids()[i],
    ) by {
        assert(b.client_ids().contains(b.client_ids()[i]));
    }
}

/// A broker that has seen nothing yet is in order.
pub proof fn law_fresh_broker_ok(next_subscription_order: u64)
    ensures
        broker_ok(model::fresh_broker(next_subscription_order)),
{
}

/// A broker that has seen nothing yet knows no client, retains nothing, and does not raise
/// the QoS of what it sends.
pub proof fn law_fresh_broker_is_empty(next_subscription_order: u64, t: Seq<char>)
    ensures
        ({
            let b = model::fresh_broker(next_subscription_order);
            &&& !b.clients.contains_key(t)
            &&& !b.retained.contains_key(t)
            &&& !b.shared_cursors.contains_key(t)
            &&& !b.upgrade_outgoing_qos
            &&& b.next_subscription_order == next_subscription_order
        }),
{
}

/// A session in order can take the place of another one.
pub proof fn lemma_session_replaced(b: BrokerView, client_id: Seq<char>, s: SessionView)
    requires
        broker_ok(b),
        session_ok(client_id, s, b.next_subscription_order),
    ensures
        broker_ok(b.with_session(client_id, s)),
{
}

proof fn lemma_outstanding_ok(
    client_id: Seq<char>,
    s: SessionView,
    next_subscription_order: u64,
    p: PublicationView,
)
    requires
        session_ok(client_id, s, next_subscription_order),
        model::valid_publication(p),
    ensures
        session_ok(client_id, model::outstanding(s, p), next_subscription_order),
{
}

proof fn lemma_all_outstanding_ok(
    client_id: Seq<char>,
    s: SessionView,
    next_subscription_order: u64,
    list: Seq<PublicationView>,
)
    requires
        session_ok(client_id, s, next_subscription_order),
        queue_ok(list),
    ensures
        session_ok(client_id, model::all_outstanding(s, list), next_subscription_order),
    decreases list.len(),
{
    if list.len() > 0 {
        assert(queue_ok(list.drop_last())) by {
            assert forall|i: int| 0 <= i < list.drop_last().len() implies model::keeps_queued(
                #[trigger] list.drop_last()[i],
            ) by {
                assert(model::keeps_queued(list[i]));
            }
        }
        lemma_all_outstanding_ok(client_id, s, next_subscription_order, list.drop_last());
        assert(model::keeps_queued(list[list.len() - 1]));
        lemma_outstanding_ok(
            client_id,
            model::all_outstanding(s, list.drop_last()),
            next_subscription_order,
            list.last(),
        );
    }
}

/// A copy of a message is for a known client, as its session says, and with a
/// QoS that there is.
pub open spec fn target_ok(b: BrokerView, t: TargetView) -> bool {
    &&& b.clients.contains_key(t.client_id)
    &&& b.clients[t.client_id].online == t.online
    &&& t.qos <= 2
    &&& model::valid_identifier(t.identifier)
}

/// Each copy of a list is in order.
pub open spec fn targets_ok(b: BrokerView, list: Seq<TargetView>) -> bool {
    forall|i: int| 0 <= i < list.len() ==> target_ok(b, #[trigger] list[i])
}

/// The copy of each member of a list is in order.
pub open spec fn candidates_ok(b: BrokerView, list: Seq<CandidateView>) -> bool {
    forall|i: int| 0 <= i < list.len() ==> target_ok(b, (#[trigger] list[i]).target)
}

/// Whatever a filter keeps stood in the sequence and meets the filter.
pub proof fn lemma_filtered<T>(s: Seq<T>, keep: spec_fn(T) -> bool)
    ensures
        forall|i: int|
            0 <= i < s.filter(keep).len() ==> s.contains(#[trigger] s.filter(keep)[i]) && keep(
                s.filter(keep)[i],
            ),
{
    assert forall|i: int| 0 <= i < s.filter(keep).len() implies s.contains(
        #[trigger] s.filter(keep)[i],
    ) && keep(s.filter(keep)[i]) by {
        assert(s.filter(keep).contains(s.filter(keep)[i]));
        steps::lemma_filter_contains(s, keep, s.filter(keep)[i]);
    }
}

proof fn lemma_target_ok(b: BrokerView, id: Seq<char>, route: Route, s: SubscriptionView)
    requires
        broker_ok(b),
        route.qos <= 2,
        b.clients.contains_key(id),
        b.clients[id].subscriptions.contains(s),
    ensures
        target_ok(b, model::target_of(b.upgrade_outgoing_qos, route, b.clients[id], id, s)),
{
    let list = b.clients[id].subscriptions;
    assert(session_ok(id, b.clients[id], b.next_subscription_order));
    assert(model::valid_subscription(list[list.index_of(s)]));
}

/// The copies for clients on their own are in order.
pub proof fn lemma_own_targets_ok(b: BrokerView, ids: Seq<Seq<char>>, route: Route)
    requires
        broker_ok(b),
        route.qos <= 2,
        forall|i: int| 0 <= i < ids.len() ==> b.clients.contains_key(#[trigger] ids[i]),
    ensures
        targets_ok(b, model::own_targets(b, ids, route)),
    decreases ids.len(),
{
    if ids.len() > 0 {
        let front = ids.drop_last();
        let id = ids.last();
        assert(b.clients.contains_key(ids[ids.len() - 1]));
        assert forall|i: int| 0 <= i < front.len() implies b.clients.contains_key(
            #[trigger] front[i],
        ) by {
            assert(front[i] == ids[i]);
        }
        lemma_own_targets_ok(b, front, route);
        let takers = model::own_takers(b.clients[id], id, route);
        if takers.len() > 0 {
            lemma_filtered(
                b.clients[id].subscriptions,
                |s: SubscriptionView| model::takes_alone(s, id, route),
            );
            lemma_target_ok(b, id, route, takers[0]);
        }
    }
}

/// The members of shared subscriptions are in order.
pub proof fn lemma_candidates_ok(b: BrokerView, ids: Seq<Seq<char>>, route: Route)
    requires
        broker_ok(b),
        route.qos <= 2,
        forall|i: int| 0 <= i < ids.len() ==> b.clients.contains_key(#[trigger] ids[i]),
    ensures
        candidates_ok(b, model::candidates(b, ids, route)),
    decreases ids.len(),
{
    if ids.len() > 0 {
        let front = ids.drop_last();
        let id = ids.last();
        assert(b.clients.contains_key(ids[ids.len() - 1]));
        assert forall|i: int| 0 <= i < front.len() implies b.clients.contains_key(
            #[trigger] front[i],
        ) by {
            assert(front[i] == ids[i]);
        }
        lemma_candidates_ok(b, front, route);
        let keep = |s: SubscriptionView| model::takes_shared(s, id, route);
        let takers = b.clients[id].subscriptions.filter(keep);
        let own = model::own_candidates(b, id, route);
        lemma_filtered(b.clients[id].subscriptions, keep);
        assert forall|i: int| 0 <= i < own.len() implies target_ok(
            b,
            (#[trigger] own[i]).target,
        ) by {
            lemma_target_ok(b, id, route, takers[i]);
        }
    }
}

proof fn lemma_placed(list: Seq<CandidateView>, c: CandidateView)
    ensures
        model::placed(list, c).len() == list.len() + 1,
        forall|i: int|
            0 <= i < model::placed(list, c).len() ==> (#[trigger] model::placed(list, c)[i]) == c
                || list.contains(model::placed(list, c)[i]),
    decreases list.len(),
{
    if list.len() == 0 || list.last().order <= c.order {
        assert forall|i: int| 0 <= i < model::placed(list, c).len() implies (
        #[trigger] model::placed(list, c)[i]) == c || list.contains(
            model::placed(list, c)[i],
        ) by {
            if i < list.len() {
                assert(list[i] == model::placed(list, c)[i]);
            }
        }
    } else {
        let front = list.drop_last();
        lemma_placed(front, c);
        assert forall|i: int| 0 <= i < model::placed(list, c).len() implies (
        #[trigger] model::placed(list, c)[i]) == c || list.contains(
            model::placed(list, c)[i],
        ) by {
            if i < list.len() {
                let x = model::placed(front, c)[i];
                if x != c {
                    assert(list[front.index_of(x)] == x);
                }
            } else {
                assert(list[list.len() - 1] == model::placed(list, c)[i]);
            }
        }
    }
}

/// The members of a shared filter are those of the list that have subscribed
/// to it.
pub proof fn lemma_members(list: Seq<CandidateView>, filter: Seq<char>)
    ensures
        forall|i: int|
            0 <= i < model::members(list, filter).len() ==> list.contains(
                #[trigger] model::members(list, filter)[i],
            ) && model::members(list, filter)[i].filter == filter,
        (exists|k: int| 0 <= k < list.len() && #[trigger] list[k].filter == filter)
            ==> model::members(list, filter).len() > 0,
        model::members(list, filter).len() <= list.len(),
    decreases list.len(),
{
    if list.len() > 0 {
        let front = list.drop_last();
        let inner = model::members(front, filter);
        lemma_members(front, filter);
        if list.last().filter == filter {
            lemma_placed(inner, list.last());
        }
        assert forall|i: int| 0 <= i < model::members(list, filter).len() implies list.contains(
            #[trigger] model::members(list, filter)[i],
        ) && model::members(list, filter)[i].filter == filter by {
            let x = model::members(list, filter)[i];
            assert(list[list.len() - 1] == list.last());
            if x != list.last() || list.last().filter != filter {
                assert(inner.contains(x));
                assert(front.contains(inner[inner.index_of(x)]));
                assert(list[front.index_of(x)] == x);
            }
        }
        if exists|k: int| 0 <= k < list.len() && #[trigger] list[k].filter == filter {
            let k = choose|k: int| 0 <= k < list.len() && #[trigger] list[k].filter == filter;
            if k < front.len() {
                assert(front[k].filter == filter);
            }
        }
    }
}

/// The rounds of shared filters choose copies in order.
pub proof fn lemma_rounds_ok(
    b: BrokerView,
    cursors: Map<Seq<char>, nat>,
    list: Seq<CandidateView>,
    n: nat,
)
    requires
        candidates_ok(b, list),
        n <= list.len(),
    ensures
        targets_ok(b, model::rounds(cursors, list, n).1),
    decreases n,
{
    if n > 0 {
        lemma_rounds_ok(b, cursors, list, (n - 1) as nat);
        if !model::met_before(list, n - 1) {
            let moved = model::rounds(cursors, list, (n - 1) as nat).0;
            let filter = list[n - 1].filter;
            let group = model::members(list, filter);
            lemma_members(list, filter);
            let cursor = model::cursor_of(moved, filter);
            let at = (cursor % group.len()) as int;
            assert(list.contains(group[at]));
            assert(target_ok(b, list[list.index_of(group[at])].target));
        }
    }
}

proof fn lemma_handed_over_ok(
    client_id: Seq<char>,
    s: SessionView,
    next_subscription_order: u64,
    p: PublicationView,
    t: TargetView,
)
    requires
        session_ok(client_id, s, next_subscription_order),
        model::valid_publication(p),
        t.qos <= 2,
        t.online == s.online,
    ensures
        session_ok(client_id, model::handed_over(s, p, t).0, next_subscription_order),
        model::handed_over(s, p, t).0.online == s.online,
{
    let copy = model::handed_over(s, p, t).1;
    let counted = if t.qos > 0 {
        model::mid_taken(s)
    } else {
        s
    };
    assert(session_ok(client_id, counted, next_subscription_order));
    if t.online {
        lemma_outstanding_ok(client_id, counted, next_subscription_order, copy);
    } else if t.qos > 0 {
        assert(model::keeps_queued(copy));
    }
}

/// To hand a message to targets in order keeps the broker in order, and leaves
/// it with the same clients, each as online as before.
pub proof fn lemma_delivered_ok(b: BrokerView, p: PublicationView, targets: Seq<TargetView>)
    requires
        broker_ok(b),
        model::valid_publication(p),
        targets_ok(b, targets),
    ensures
        broker_ok(model::delivered(b, p, targets).0),
        model::delivered(b, p, targets).0.clients.dom() == b.clients.dom(),
        forall|id: Seq<char>| #[trigger]
            b.clients.contains_key(id) ==> model::delivered(b, p, targets).0.clients[id].online
                == b.clients[id].online,
        model::delivered(b, p, targets).0.retained == b.retained,
        model::delivered(b, p, targets).0.shared_cursors == b.shared_cursors,
        model::delivered(b, p, targets).0.upgrade_outgoing_qos == b.upgrade_outgoing_qos,
        model::delivered(b, p, targets).0.next_subscription_order == b.next_subscription_order,
    decreases targets.len(),
{
    if targets.len() > 0 {
        let front = targets.drop_last();
        let t = targets.last();
        assert(target_ok(b, targets[targets.len() - 1]));
        assert forall|i: int| 0 <= i < front.len() implies target_ok(b, #[trigger] front[i]) by {
            assert(front[i] == targets[i]);
        }
        lemma_delivered_ok(b, p, front);
        let before = model::delivered(b, p, front).0;
        assert(before.clients.contains_key(t.client_id));
        lemma_handed_over_ok(
            t.client_id,
            before.clients[t.client_id],
            before.next_subscription_order,
            p,
            t,
        );
        let s = model::handed_over(before.clients[t.client_id], p, t).0;
        lemma_session_replaced(before, t.client_id, s);
        assert(before.with_session(t.client_id, s).clients.dom() =~= b.clients.dom());
    }
}

/// The copies of a message are in order.
pub proof fn lemma_targets_ok(b: BrokerView, route: Route)
    requires
        broker_ok(b),
        route.qos <= 2,
    ensures
        targets_ok(b, model::targets_of(b, route).1),
{
    lemma_clients_listed(b);
    lemma_own_targets_ok(b, b.client_ids(), route);
    lemma_candidates_ok(b, b.client_ids(), route);
    let list = model::candidates(b, b.client_ids(), route);
    lemma_rounds_ok(b, b.shared_cursors, list, list.len());
}

/// To take a message in keeps the broker in order, and leaves its clients as
/// they are.
pub proof fn lemma_taken_in_ok(b: BrokerView, source: Seq<char>, p: PublicationView)
    requires
        broker_ok(b),
        model::valid_publication(p),
    ensures
        ({
            let (kept, targets) = model::taken_in(b, source, p);
            &&& broker_ok(kept)
            &&& kept.clients == b.clients
            &&& targets_ok(b, targets)
            &&& targets_ok(kept, targets)
        }),
{
    lemma_targets_ok(b, Route { source, qos: p.qos, topic: p.topic });
    let (kept, targets) = model::taken_in(b, source, p);
    assert forall|i: int| 0 <= i < targets.len() implies target_ok(kept, #[trigger] targets[i]) by {
        assert(target_ok(b, targets[i]));
    }
}

/// To publish keeps the broker in order, and leaves it with the same clients.
pub proof fn law_publish_keeps_order(b: BrokerView, source: Seq<char>, p: PublicationView)
    requires
        broker_ok(b),
    ensures
        broker_ok(model::published(b, source, p).0),
        model::published(b, source, p).0.clients.dom() == b.clients.dom(),
        forall|id: Seq<char>| #[trigger]
            b.clients.contains_key(id) ==> model::published(b, source, p).0.clients[id].online
                == b.clients[id].online,
{
    if model::valid_publication(p) {
        lemma_taken_in_ok(b, source, p);
        let (kept, targets) = model::taken_in(b, source, p);
        lemma_delivered_ok(kept, model::plain_of(p), targets);
    }
}

/// To let sessions expire keeps the broker in order.
pub proof fn law_expiry_keeps_order(b: BrokerView, now: u128)
    requires
        broker_ok(b),
    ensures
        broker_ok(model::without_expired(b, now)),
{
    let after = model::without_expired(b, now);
    assert(after.clients.dom().subset_of(b.clients.dom()));
    vstd::set_lib::lemma_len_subset(after.clients.dom(), b.clients.dom());
}

proof fn lemma_resumed_ok(
    client_id: Seq<char>,
    s: SessionView,
    next_subscription_order: u64,
    will: Option<WillView>,
    interval: u32,
)
    requires
        session_ok(client_id, s, next_subscription_order),
    ensures
        session_ok(client_id, model::resumed(s, will, interval), next_subscription_order),
        model::resumed(s, will, interval).online,
{
    let awake = SessionView {
        will,
        queued: Seq::empty(),
        inflight_qos1: s.inflight_qos1.map_values(|p: PublicationView| model::repeated(p)),
        inflight_qos2: s.inflight_qos2.map_values(|o: OutboundView| model::outbound_repeated(o)),
        session_expiry_interval: interval,
        disconnected_at: None,
        online: true,
        ..s
    };
    assert(session_ok(client_id, awake, next_subscription_order));
    lemma_all_outstanding_ok(client_id, awake, next_subscription_order, s.queued);
    lemma_all_outstanding_fields(awake, s.queued);
}

/// To hand messages to a client changes nothing in its session but the
/// messages that wait for an acknowledgement.
pub proof fn lemma_all_outstanding_fields(s: SessionView, list: Seq<PublicationView>)
    ensures
        model::all_outstanding(s, list) == (SessionView {
            inflight_qos1: model::all_outstanding(s, list).inflight_qos1,
            inflight_qos2: model::all_outstanding(s, list).inflight_qos2,
            ..s
        }),
    decreases list.len(),
{
    if list.len() > 0 {
        lemma_all_outstanding_fields(s, list.drop_last());
    }
}

/// To connect keeps the broker in order.
pub proof fn law_connect_keeps_order(
    b: BrokerView,
    client_id: Seq<char>,
    clean_start: bool,
    will: Option<WillView>,
    interval: u32,
    now: u128,
)
    requires
        broker_ok(b),
    ensures
        broker_ok(model::connected(b, client_id, clean_start, will, interval, now).0),
{
    law_expiry_keeps_order(b, now);
    let current = model::without_expired(b, now);
    let session = if !clean_start && current.clients.contains_key(client_id) {
        current.clients[client_id]
    } else {
        model::fresh_session(client_id)
    };
    lemma_resumed_ok(client_id, session, b.next_subscription_order, will, interval);
    lemma_session_replaced(current, client_id, model::resumed(session, will, interval));
}

/// To disconnect keeps the broker in order.
pub proof fn law_disconnect_keeps_order(
    b: BrokerView,
    client_id: Seq<char>,
    graceful: bool,
    interval: Option<u32>,
    now: u128,
)
    requires
        broker_ok(b),
    ensures
        broker_ok(model::disconnected(b, client_id, graceful, interval, now).0),
{
    if b.clients.contains_key(client_id) {
        let session = b.clients[client_id];
        let gone = model::left(session, interval, now);
        assert(session_ok(client_id, gone, b.next_subscription_order));
        lemma_session_replaced(b, client_id, gone);
        let offline = b.with_session(client_id, gone);
        if let Some(will) = session.will {
            law_publish_keeps_order(offline, client_id, model::will_message(will));
        }
    }
}

/// With a greater next order a list of subscriptions stays in order.
proof fn lemma_later_order(b: BrokerView, next_subscription_order: u64)
    requires
        broker_ok(b),
        b.next_subscription_order <= next_subscription_order,
    ensures
        broker_ok(BrokerView { next_subscription_order, ..b }),
{
    assert forall|id: Seq<char>| #[trigger] b.clients.contains_key(id) implies session_ok(
        id,
        b.clients[id],
        next_subscription_order,
    ) by {
        assert(session_ok(id, b.clients[id], b.next_subscription_order));
        assert(subscriptions_ok(b.clients[id].subscriptions, next_subscription_order));
    }
}

/// The new subscriptions whose retained messages are sent are ones that the
/// broker keeps.
pub open spec fn replays_ok(at: Subscribing) -> bool {
    forall|i: int|
        0 <= i < at.replays.len() ==> model::valid_subscription(#[trigger] at.replays[i])
}

/// After requests a list holds subscriptions to the filters that it held before
/// and to those that were granted.
pub proof fn lemma_requests_subscribed(
    list: Seq<SubscriptionView>,
    next_subscription_order: u64,
    requests: Seq<RequestView>,
    filter: Seq<char>,
)
    ensures
        model::subscribed(
            model::requests_taken(list, next_subscription_order, requests).subscriptions,
            filter,
        ) <==> model::subscribed(list, filter) || model::granted(requests, filter),
    decreases requests.len(),
{
    if requests.len() > 0 {
        let front = requests.drop_last();
        let r = requests.last();
        lemma_requests_subscribed(list, next_subscription_order, front, filter);
        let at = model::requests_taken(list, next_subscription_order, front);
        lemma_request_subscribed(at, r, filter);
        if model::granted(front, filter) {
            let i = choose|i: int|
                0 <= i < front.len() && model::valid_request(#[trigger] front[i])
                    && front[i].filter == filter;
            assert(requests[i] == front[i]);
        }
        if model::granted(requests, filter) {
            let i = choose|i: int|
                0 <= i < requests.len() && model::valid_request(#[trigger] requests[i])
                    && requests[i].filter == filter;
            if i < front.len() {
                assert(front[i] == requests[i]);
            }
        }
        if model::valid_request(r) && r.filter == filter {
            assert(model::valid_request(requests[requests.len() - 1]));
        }
    }
}

/// After one request a list holds subscriptions to the filters that it held before
/// and to that of the request, where it is granted.
pub proof fn lemma_request_subscribed(at: Subscribing, r: RequestView, filter: Seq<char>)
    ensures
        model::subscribed(model::request_taken(at, r).subscriptions, filter)
            <==> model::subscribed(at.subscriptions, filter) || (model::valid_request(r)
            && r.filter == filter),
{
    let before = at.subscriptions;
    let after = model::request_taken(at, r).subscriptions;
    if model::valid_request(r) {
        let held = model::subscribed(before, r.filter);
        let place = if held {
            model::place_of(before, r.filter)
        } else {
            before.len() as int
        };
        if held {
            assert(model::subscribed_at(before, r.filter, place));
        }
        assert(after[place].filter == r.filter);
        lemma_subscribed_somewhere(after, r.filter, place);
        if model::subscribed(before, filter) {
            let k = model::place_of(before, filter);
            assert(model::subscribed_at(before, filter, k));
            assert(after[k].filter == filter);
            lemma_subscribed_somewhere(after, filter, k);
        }
        if model::subscribed(after, filter) && filter != r.filter {
            let k = model::place_of(after, filter);
            assert(model::subscribed_at(after, filter, k));
            assert(before[k].filter == filter);
            lemma_subscribed_somewhere(before, filter, k);
        }
    }
}

/// A list that holds a subscription to a filter at some position is subscribed to
/// it.
pub proof fn lemma_subscribed_somewhere(list: Seq<SubscriptionView>, filter: Seq<char>, k: int)
    requires
        0 <= k < list.len(),
        list[k].filter == filter,
    ensures
        model::subscribed(list, filter),
{
    if !model::subscribed(list, filter) {
        lemma_not_subscribed(list, filter, k);
    }
}

/// The first requests add no more subscriptions than all of them.
pub proof fn lemma_new_subscriptions_front(
    list: Seq<SubscriptionView>,
    requests: Seq<RequestView>,
    n: int,
)
    requires
        0 <= n <= requests.len(),
    ensures
        model::new_subscriptions(list, requests.take(n)) <= model::new_subscriptions(
            list,
            requests,
        ),
    decreases requests.len() - n,
{
    if n < requests.len() {
        steps::lemma_take_next(requests, n);
        lemma_new_subscriptions_front(list, requests, n + 1);
    } else {
        assert(requests.take(n) =~= requests);
    }
}

/// Requests add no more subscriptions than there are requests.
pub proof fn lemma_new_subscriptions(list: Seq<SubscriptionView>, requests: Seq<RequestView>)
    ensures
        model::new_subscriptions(list, requests) <= requests.len(),
    decreases requests.len(),
{
    if requests.len() > 0 {
        lemma_new_subscriptions(list, requests.drop_last());
    }
}

/// The requests of a SUBSCRIBE packet leave a list of subscriptions in order.
pub proof fn lemma_requests_taken_ok(
    list: Seq<SubscriptionView>,
    next_subscription_order: u64,
    requests: Seq<RequestView>,
)
    requires
        subscriptions_ok(list, next_subscription_order),
        next_subscription_order + model::new_subscriptions(list, requests) <= u64::MAX,
    ensures
        ({
            let taken = model::requests_taken(list, next_subscription_order, requests);
            &&& subscriptions_ok(taken.subscriptions, taken.next_subscription_order)
            &&& taken.next_subscription_order == next_subscription_order
                + model::new_subscriptions(list, requests)
            &&& replays_ok(taken)
            &&& taken.reason_codes.len() == requests.len()
        }),
    decreases requests.len(),
{
    if requests.len() > 0 {
        lemma_requests_taken_ok(list, next_subscription_order, requests.drop_last());
        let at = model::requests_taken(list, next_subscription_order, requests.drop_last());
        let r = requests.last();
        let taken = model::request_taken(at, r);
        lemma_requests_subscribed(
            list,
            next_subscription_order,
            requests.drop_last(),
            r.filter,
        );
        if model::valid_request(r) {
            if model::subscribed(at.subscriptions, r.filter) {
                let place = model::place_of(at.subscriptions, r.filter);
                assert(model::subscribed_at(at.subscriptions, r.filter, place));
                assert(at.subscriptions[place].filter == r.filter);
            } else {
                assert forall|i: int| 0 <= i < at.subscriptions.len() implies (
                #[trigger] at.subscriptions[i]).filter != r.filter by {
                    lemma_not_subscribed(at.subscriptions, r.filter, i);
                }
            }
            assert(subscriptions_ok(taken.subscriptions, taken.next_subscription_order));
        }
    }
}

/// A list that holds no subscription to a filter holds none at any position.
pub proof fn lemma_not_subscribed(list: Seq<SubscriptionView>, filter: Seq<char>, i: int)
    requires
        !model::subscribed(list, filter),
        0 <= i < list.len(),
    ensures
        list[i].filter != filter,
    decreases i,
{
    if list[i].filter == filter {
        assert forall|k: int| 0 <= k < i implies (#[trigger] list[k]).filter != filter by {
            lemma_not_subscribed(list, filter, k);
        }
        assert(model::subscribed_at(list, filter, i));
    }
}

proof fn lemma_list_replayed_ok(
    client_id: Seq<char>,
    s: SessionView,
    next_subscription_order: u64,
    upgrade: bool,
    subscription: SubscriptionView,
    list: Seq<PublicationView>,
)
    requires
        session_ok(client_id, s, next_subscription_order),
        model::valid_subscription(subscription),
        forall|i: int| 0 <= i < list.len() ==> model::valid_publication(#[trigger] list[i]),
    ensures
        session_ok(
            client_id,
            model::list_replayed(s, upgrade, subscription, list).0,
            next_subscription_order,
        ),
    decreases list.len(),
{
    if list.len() > 0 {
        let front = list.drop_last();
        assert forall|i: int| 0 <= i < front.len() implies model::valid_publication(
            #[trigger] front[i],
        ) by {
            assert(front[i] == list[i]);
        }
        lemma_list_replayed_ok(
            client_id,
            s,
            next_subscription_order,
            upgrade,
            subscription,
            front,
        );
        let before = model::list_replayed(s, upgrade, subscription, front).0;
        let p = list.last();
        assert(model::valid_publication(list[list.len() - 1]));
        let copy = model::replayed(before, upgrade, subscription, p).1;
        let counted = if copy.qos > 0 {
            model::mid_taken(before)
        } else {
            before
        };
        assert(session_ok(client_id, counted, next_subscription_order));
        lemma_outstanding_ok(client_id, counted, next_subscription_order, copy);
    }
}

/// The retained messages that a filter matches can be routed.
pub proof fn lemma_retained_matching_ok(b: BrokerView, filter: Seq<char>)
    requires
        forall|name: Seq<char>| #[trigger]
            b.retained.contains_key(name) ==> retained_ok(name, b.retained[name]),
        b.retained.dom().finite(),
    ensures
        forall|i: int|
            0 <= i < model::retained_matching(b.retained, filter).len()
                ==> model::valid_publication(
                #[trigger] model::retained_matching(b.retained, filter)[i],
            ),
{
    let all = model::retained_list(b.retained);
    let names = text_order::in_order(b.retained.dom());
    text_order::lemma_in_order(b.retained.dom());
    let keep = |p: PublicationView| crate::topic::filter_matches(filter, p.topic);
    lemma_filtered(all, keep);
    assert forall|i: int|
        0 <= i < model::retained_matching(b.retained, filter).len() implies model::valid_publication(
        #[trigger] model::retained_matching(b.retained, filter)[i],
    ) by {
        let p = all.filter(keep)[i];
        assert(all.contains(p));
        let k = all.index_of(p);
        assert(names.contains(names[k]));
        assert(b.retained.contains_key(names[k]));
    }
}

proof fn lemma_all_replayed_ok(
    client_id: Seq<char>,
    s: SessionView,
    next_subscription_order: u64,
    b: BrokerView,
    list: Seq<SubscriptionView>,
)
    requires
        session_ok(client_id, s, next_subscription_order),
        broker_ok(b),
        forall|i: int| 0 <= i < list.len() ==> model::valid_subscription(#[trigger] list[i]),
    ensures
        session_ok(
            client_id,
            model::all_replayed(s, b.upgrade_outgoing_qos, b.retained, list).0,
            next_subscription_order,
        ),
    decreases list.len(),
{
    if list.len() > 0 {
        let front = list.drop_last();
        assert forall|i: int| 0 <= i < front.len() implies model::valid_subscription(
            #[trigger] front[i],
        ) by {
            assert(front[i] == list[i]);
        }
        lemma_all_replayed_ok(client_id, s, next_subscription_order, b, front);
        assert(model::valid_subscription(list[list.len() - 1]));
        lemma_retained_matching_ok(b, list.last().filter);
        lemma_list_replayed_ok(
            client_id,
            model::all_replayed(s, b.upgrade_outgoing_qos, b.retained, front).0,
            next_subscription_order,
            b.upgrade_outgoing_qos,
            list.last(),
            model::retained_matching(b.retained, list.last().filter),
        );
    }
}

/// To subscribe keeps the broker in order.
pub proof fn law_subscribe_keeps_order(
    b: BrokerView,
    client_id: Seq<char>,
    requests: Seq<RequestView>,
)
    requires
        broker_ok(b),
        model::has_room(b, client_id, requests),
    ensures
        broker_ok(model::subscribing(b, client_id, requests).0),
{
    if b.clients.contains_key(client_id) {
        let session = b.clients[client_id];
        lemma_new_subscriptions(session.subscriptions, requests);
        let taken = model::requests_taken(
            session.subscriptions,
            b.next_subscription_order,
            requests,
        );
        lemma_requests_taken_ok(session.subscriptions, b.next_subscription_order, requests);
        let subscribed = SessionView { subscriptions: taken.subscriptions, ..session };
        assert(session_ok(client_id, subscribed, taken.next_subscription_order));
        lemma_all_replayed_ok(
            client_id,
            subscribed,
            taken.next_subscription_order,
            b,
            taken.replays,
        );
        let after = model::all_replayed(
            subscribed,
            b.upgrade_outgoing_qos,
            b.retained,
            taken.replays,
        ).0;
        let later = BrokerView { next_subscription_order: taken.next_subscription_order, ..b };
        lemma_later_order(b, taken.next_subscription_order);
        lemma_session_replaced(later, client_id, after);
        assert(model::subscribing(b, client_id, requests).0 == later.with_session(
            client_id,
            after,
        ));
    }
}

/// What a filter keeps of a list of subscriptions in order is in order.
pub proof fn lemma_filtered_subscriptions_ok(
    list: Seq<SubscriptionView>,
    next_subscription_order: u64,
    keep: spec_fn(SubscriptionView) -> bool,
)
    requires
        subscriptions_ok(list, next_subscription_order),
    ensures
        subscriptions_ok(list.filter(keep), next_subscription_order),
        forall|i: int|
            0 <= i < list.filter(keep).len() ==> keep(#[trigger] list.filter(keep)[i]),
    decreases list.len(),
{
    if list.len() == 0 {
        steps::lemma_filter_empty(keep);
        assert(list =~= Seq::empty());
    } else {
        let front = list.drop_last();
        let last = list.last();
        assert(list =~= front.push(last));
        assert(subscriptions_ok(front, next_subscription_order)) by {
            assert forall|i: int| 0 <= i < front.len() implies model::valid_subscription(
                #[trigger] front[i],
            ) by {
                assert(front[i] == list[i]);
            }
        }
        lemma_filtered_subscriptions_ok(front, next_subscription_order, keep);
        steps::lemma_filter_push(front, last, keep);
        lemma_filtered(front, keep);
        let kept = front.filter(keep);
        assert forall|i: int| 0 <= i < kept.len() implies (#[trigger] kept[i]).filter
            != last.filter && kept[i].order < last.order by {
            let k = front.index_of(kept[i]);
            assert(list[k] == kept[i]);
            assert(list[k].order < list[list.len() - 1].order);
        }
        if keep(last) {
            assert(model::valid_subscription(list[list.len() - 1]));
            assert(subscriptions_ok(kept.push(last), next_subscription_order));
        }
    }
}

/// To unsubscribe keeps the broker in order.
pub proof fn law_unsubscribe_keeps_order(
    b: BrokerView,
    client_id: Seq<char>,
    filters: Seq<Seq<char>>,
)
    requires
        broker_ok(b),
    ensures
        broker_ok(model::unsubscribing(b, client_id, filters)),
{
    if b.clients.contains_key(client_id) {
        let session = b.clients[client_id];
        let keep = |s: SubscriptionView| !filters.contains(s.filter);
        lemma_filtered_subscriptions_ok(session.subscriptions, b.next_subscription_order, keep);
        let after = SessionView { subscriptions: session.subscriptions.filter(keep), ..session };
        assert(session_ok(client_id, after, b.next_subscription_order));
        lemma_session_replaced(b, client_id, after);
    }
}

/// The acknowledgements of a client keep the broker in order.
pub proof fn law_acknowledgements_keep_order(b: BrokerView, client_id: Seq<char>, packet_id: u16)
    requires
        broker_ok(b),
    ensures
        broker_ok(model::acknowledged(b, client_id, packet_id)),
        broker_ok(model::received(b, client_id, packet_id)),
        broker_ok(model::completed(b, client_id, packet_id)),
        broker_ok(model::released(b, client_id, packet_id).0),
{
    if b.clients.contains_key(client_id) {
        let s = b.clients[client_id];
        assert(session_ok(client_id, s, b.next_subscription_order));
        let one = SessionView { inflight_qos1: s.inflight_qos1.remove(packet_id), ..s };
        assert(session_ok(client_id, one, b.next_subscription_order));
        lemma_session_replaced(b, client_id, one);
        let two = SessionView { inflight_qos2: s.inflight_qos2.remove(packet_id), ..s };
        assert(session_ok(client_id, two, b.next_subscription_order));
        lemma_session_replaced(b, client_id, two);
        if model::awaits_pubcomp(b, client_id, packet_id) {
            let after = model::received(b, client_id, packet_id);
            assert(session_ok(client_id, after.clients[client_id], b.next_subscription_order));
            lemma_session_replaced(b, client_id, after.clients[client_id]);
        }
        let three = SessionView { inbound_qos2: s.inbound_qos2.remove(packet_id), ..s };
        assert(session_ok(client_id, three, b.next_subscription_order));
        lemma_session_replaced(b, client_id, three);
        law_publish_keeps_order(
            b.with_session(client_id, three),
            client_id,
            s.inbound_qos2[packet_id],
        );
    }
}

/// To hold a QoS 2 message keeps the broker in order.
pub proof fn law_hold_keeps_order(b: BrokerView, client_id: Seq<char>, p: PublicationView)
    requires
        broker_ok(b),
    ensures
        broker_ok(model::held(b, client_id, p).0),
{
    if model::takes_qos2(b, client_id, p) && !model::awaits_pubrel(b, client_id, p.packet_id->0) {
        let s = model::held(b, client_id, p).0.clients[client_id];
        assert(session_ok(client_id, b.clients[client_id], b.next_subscription_order));
        assert(session_ok(client_id, s, b.next_subscription_order));
        lemma_session_replaced(b, client_id, s);
    }
}

proof fn lemma_retained_from_ok(list: Seq<PublicationView>)
    ensures
        forall|name: Seq<char>| #[trigger]
            model::retained_from(list).contains_key(name) ==> retained_ok(
                name,
                model::retained_from(list)[name],
            ),
        model::retained_from(list).dom().finite(),
    decreases list.len(),
{
    if list.len() > 0 {
        lemma_retained_from_ok(list.drop_last());
    }
}

/// To restore retained messages keeps the broker in order.
pub proof fn law_restored_retained_keeps_order(b: BrokerView, list: Seq<PublicationView>)
    requires
        broker_ok(b),
    ensures
        broker_ok(BrokerView { retained: model::retained_from(list), ..b }),
{
    lemma_retained_from_ok(list);
}

/// No more subscriptions are taken over than there are, and all of them where the
/// broker keeps each.
pub proof fn lemma_valid_count(list: Seq<SubscriptionView>)
    ensures
        model::valid_subscriptions(list) <= list.len(),
        (forall|i: int| 0 <= i < list.len() ==> model::valid_subscription(#[trigger] list[i]))
            ==> model::valid_subscriptions(list) == list.len(),
    decreases list.len(),
{
    if list.len() > 0 {
        let front = list.drop_last();
        lemma_valid_count(front);
        if forall|i: int| 0 <= i < list.len() ==> model::valid_subscription(#[trigger] list[i]) {
            assert forall|i: int| 0 <= i < front.len() implies model::valid_subscription(
                #[trigger] front[i],
            ) by {
                assert(front[i] == list[i]);
            }
            assert(model::valid_subscription(list[list.len() - 1]));
        }
    }
}

/// The first subscriptions of a list are taken over in no greater number than all
/// of them.
pub proof fn lemma_valid_front(list: Seq<SubscriptionView>, n: int)
    requires
        0 <= n <= list.len(),
    ensures
        model::valid_subscriptions(list.take(n)) <= model::valid_subscriptions(list),
    decreases list.len() - n,
{
    if n < list.len() {
        steps::lemma_take_next(list, n);
        lemma_valid_front(list, n + 1);
    } else {
        assert(list.take(n) =~= list);
    }
}

/// No more subscriptions are taken over with persisted sessions than they hold.
pub proof fn lemma_restored_count(list: Seq<PersistedView>)
    ensures
        model::restored_subscriptions(list) <= model::subscription_count(list),
    decreases list.len(),
{
    if list.len() > 0 {
        lemma_restored_count(list.drop_last());
        lemma_valid_count(list.last().subscriptions);
    }
}

/// The subscriptions that are taken over are in order.
pub proof fn lemma_subscriptions_taken_over_ok(
    list: Seq<SubscriptionView>,
    next_subscription_order: u64,
)
    requires
        next_subscription_order + model::valid_subscriptions(list) <= u64::MAX,
    ensures
        ({
            let (kept, order) = model::subscriptions_taken_over(list, next_subscription_order);
            &&& subscriptions_ok(kept, order)
            &&& order == next_subscription_order + model::valid_subscriptions(list)
        }),
    decreases list.len(),
{
    if list.len() > 0 {
        lemma_subscriptions_taken_over_ok(list.drop_last(), next_subscription_order);
        let (front, order) = model::subscriptions_taken_over(
            list.drop_last(),
            next_subscription_order,
        );
        let s = list.last();
        if model::valid_subscription(s) {
            let keep = |f: SubscriptionView| f.filter != s.filter;
            lemma_filtered_subscriptions_ok(front, order, keep);
            let others = front.filter(keep);
            let grown = others.push(SubscriptionView { order, ..s });
            assert(subscriptions_ok(grown, (order + 1) as u64));
        }
    }
}

proof fn lemma_by_packet_id_ok(list: Seq<PublicationView>, qos: u8)
    requires
        forall|i: int|
            0 <= i < list.len() ==> model::keeps_inflight(#[trigger] list[i], qos),
    ensures
        forall|id: u16| #[trigger]
            model::by_packet_id(list).contains_key(id) ==> message_ok(
                model::by_packet_id(list)[id],
                id,
                qos,
            ),
    decreases list.len(),
{
    if list.len() > 0 {
        let front = list.drop_last();
        assert forall|i: int| 0 <= i < front.len() implies model::keeps_inflight(
            #[trigger] front[i],
            qos,
        ) by {
            assert(front[i] == list[i]);
        }
        lemma_by_packet_id_ok(front, qos);
        assert(model::keeps_inflight(list[list.len() - 1], qos));
        let last = list.last();
        assert(message_ok(last, last.packet_id->0, qos));
        assert(model::by_packet_id(list) == model::by_packet_id(front).insert(
            last.packet_id->0,
            last,
        ));
    }
}

proof fn lemma_outbound_by_packet_id_ok(list: Seq<OutboundView>)
    requires
        forall|i: int|
            0 <= i < list.len() ==> model::keeps_inflight((#[trigger] list[i]).publication, 2),
    ensures
        forall|id: u16| #[trigger]
            model::outbound_by_packet_id(list).contains_key(id) ==> message_ok(
                model::outbound_by_packet_id(list)[id].publication,
                id,
                2,
            ),
    decreases list.len(),
{
    if list.len() > 0 {
        let front = list.drop_last();
        assert forall|i: int| 0 <= i < front.len() implies model::keeps_inflight(
            (#[trigger] front[i]).publication,
            2,
        ) by {
            assert(front[i] == list[i]);
        }
        lemma_outbound_by_packet_id_ok(front);
        assert(model::keeps_inflight(list[list.len() - 1].publication, 2));
    }
}

/// A session that is taken over is in order.
pub proof fn lemma_session_taken_over_ok(p: PersistedView, next_subscription_order: u64)
    requires
        next_subscription_order + model::valid_subscriptions(p.subscriptions) <= u64::MAX,
    ensures
        session_ok(
            p.client_id,
            model::session_taken_over(p, next_subscription_order),
            model::subscriptions_taken_over(p.subscriptions, next_subscription_order).1,
        ),
{
    lemma_subscriptions_taken_over_ok(p.subscriptions, next_subscription_order);
    let queued = model::queue_taken_over(p.queued);
    lemma_filtered(p.queued, |q: PublicationView| model::keeps_queued(q));
    assert(queue_ok(queued));
    lemma_filtered(p.inflight_qos1, |q: PublicationView| model::keeps_inflight(q, 1));
    lemma_by_packet_id_ok(model::inflight_taken_over(p.inflight_qos1, 1), 1);
    lemma_filtered(p.inbound_qos2, |q: PublicationView| model::keeps_inflight(q, 2));
    lemma_by_packet_id_ok(model::inflight_taken_over(p.inbound_qos2, 2), 2);
    lemma_filtered(p.inflight_qos2, |o: OutboundView| model::keeps_inflight(o.publication, 2));
    lemma_outbound_by_packet_id_ok(model::outbound_taken_over(p.inflight_qos2));
}

/// To restore sessions keeps the broker in order.
pub proof fn law_restored_sessions_keep_order(b: BrokerView, list: Seq<PersistedView>)
    requires
        broker_ok(b),
        model::has_room_to_restore(b, list),
    ensures
        broker_ok(model::sessions_taken_over(b, list)),
        model::sessions_taken_over(b, list).next_subscription_order == b.next_subscription_order
            + model::restored_subscriptions(list),
    decreases list.len(),
{
    lemma_restored_count(list);
    if list.len() > 0 {
        law_restored_sessions_keep_order(b, list.drop_last());
        let before = model::sessions_taken_over(b, list.drop_last());
        let p = list.last();
        if model::keeps_session(p) {
            let order = before.next_subscription_order;
            lemma_session_taken_over_ok(p, order);
            lemma_subscriptions_taken_over_ok(p.subscriptions, order);
            let next = model::subscriptions_taken_over(p.subscriptions, order).1;
            let later = BrokerView { next_subscription_order: next, ..before };
            lemma_later_order(before, next);
            let session = model::session_taken_over(p, order);
            lemma_session_replaced(later, p.client_id, session);
            assert(model::sessions_taken_over(b, list) == later.with_session(
                p.client_id,
                session,
            ));
        }
    }
}

} // verus!
