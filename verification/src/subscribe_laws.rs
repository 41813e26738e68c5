//! Laws of subscribing: what a session holds afterwards, and which retained
//! messages it is sent.

use vstd::prelude::*;

use crate::integrity;
use crate::model;
use crate::model::BrokerView;
use crate::packet::{PublicationView, RequestView};
use crate::routing_laws;
use crate::session::{DeliveryView, SessionView, SubscriptionView};
use crate::session_laws;
use crate::steps;
use crate::text_order;
use crate::topic;

verus! {

/// Whether a request is granted: its filter is a topic filter, its QoS and its
/// retain handling are 0, 1 or 2, and its identifier is not zero.
pub open spec fn is_granted(r: RequestView) -> bool {
    topic::is_topic_filter(r.filter) && r.qos <= 2 && r.retain_handling <= 2 && r.identifier
        != Some(0u32)
}

/// A SUBSCRIBE packet of a known client is answered with one reason code for each
/// request: its QoS where it is granted, and 0x80 where it is not.
pub proof fn law_reason_codes(
    b: BrokerView,
    client_id: Seq<char>,
    requests: Seq<RequestView>,
    i: int,
)
    requires
        b.clients.contains_key(client_id),
        0 <= i < requests.len(),
    ensures
        model::subscribing(b, client_id, requests).1.reason_codes.len() == requests.len(),
        model::subscribing(b, client_id, requests).1.reason_codes[i] == if is_granted(requests[i]) {
            requests[i].qos
        } else {
            0x80u8
        },
{
    crate::broker_laws::law_one_reason_code_for_each_request(
        b.clients[client_id].subscriptions,
        b.next_subscription_order,
        requests,
    );
}

/// Nobody is subscribed where the client is not known.
pub proof fn law_unknown_clients_subscribe_to_nothing(
    b: BrokerView,
    client_id: Seq<char>,
    requests: Seq<RequestView>,
)
    requires
        !b.clients.contains_key(client_id),
    ensures
        model::subscribing(b, client_id, requests).0 == b,
        model::subscribing(b, client_id, requests).1.reason_codes.len() == 0,
        model::subscribing(b, client_id, requests).1.retained.len() == 0,
{
}

// The retained messages that are sent.

/// The retained message as a request has it sent: all is as it is retained but the
/// QoS, the packet identifier and the subscription identifier, and the retain flag
/// is set.
pub open spec fn replayed_to(
    b: BrokerView,
    r: RequestView,
    p: PublicationView,
    packet_id: Option<u16>,
) -> PublicationView {
    PublicationView {
        topic: p.topic,
        payload: p.payload,
        qos: routing_laws::qos_for(b.upgrade_outgoing_qos, p.qos, r.qos),
        retain: true,
        packet_id,
        dup: p.dup,
        topic_alias: p.topic_alias,
        payload_format_indicator: p.payload_format_indicator,
        response_topic: p.response_topic,
        correlation_data: p.correlation_data,
        subscription_identifiers: match r.identifier {
            Some(identifier) => seq![identifier],
            None => Seq::empty(),
        },
    }
}

/// Whether a message is the retained message of its topic, as a request has it
/// sent.
pub open spec fn replay_of(b: BrokerView, r: RequestView, m: PublicationView) -> bool {
    &&& is_granted(r)
    &&& topic::filter_matches(r.filter, m.topic)
    &&& b.retained.contains_key(m.topic)
    &&& m == replayed_to(b, r, b.retained[m.topic], m.packet_id)
    &&& m.packet_id is Some <==> m.qos > 0
}

/// Whether a subscription is what a request asks for.
pub open spec fn made_by(r: RequestView, s: SubscriptionView) -> bool {
    &&& s.filter == r.filter
    &&& s.qos == r.qos
    &&& s.no_local == r.no_local
    &&& s.retain_as_published == r.retain_as_published
    &&& s.retain_handling == r.retain_handling
    &&& s.identifier == r.identifier
}

/// Whether a request is granted and made a subscription.
pub open spec fn granted_as(requests: Seq<RequestView>, s: SubscriptionView, j: int) -> bool {
    0 <= j < requests.len() && is_granted(requests[j]) && made_by(requests[j], s)
}

/// Whether some granted request made a subscription.
pub open spec fn made(requests: Seq<RequestView>, s: SubscriptionView) -> bool {
    exists|j: int| #[trigger] granted_as(requests, s, j)
}

/// Whether a message is the retained message of its topic, as some granted request
/// has it sent.
pub open spec fn replay_asked(
    b: BrokerView,
    requests: Seq<RequestView>,
    m: PublicationView,
) -> bool {
    exists|j: int| 0 <= j < requests.len() && replay_of(b, #[trigger] requests[j], m)
}

proof fn lemma_replays_made(
    list: Seq<SubscriptionView>,
    order: u64,
    requests: Seq<RequestView>,
)
    ensures
        ({
            let replays = model::requests_taken(list, order, requests).replays;
            forall|i: int|
                0 <= i < replays.len() ==> made(requests, #[trigger] replays[i])
        }),
    decreases requests.len(),
{
    if requests.len() > 0 {
        let front = requests.drop_last();
        lemma_replays_made(list, order, front);
        let before = model::requests_taken(list, order, front).replays;
        let replays = model::requests_taken(list, order, requests).replays;
        assert forall|i: int| 0 <= i < replays.len() implies made(
            requests,
            #[trigger] replays[i],
        ) by {
            if i < before.len() {
                assert(replays[i] == before[i]);
                assert(made(front, before[i]));
                let j = choose|j: int| #[trigger] granted_as(front, before[i], j);
                assert(requests[j] == front[j]);
                assert(granted_as(requests, replays[i], j));
            } else {
                assert(granted_as(requests, replays[i], requests.len() - 1));
            }
        }
    }
}

/// Whether a message comes of a list of retained messages by a subscription.
pub open spec fn replayed_from(
    upgrade: bool,
    s: SubscriptionView,
    list: Seq<PublicationView>,
    m: PublicationView,
    j: int,
) -> bool {
    &&& 0 <= j < list.len()
    &&& m == (PublicationView {
        qos: routing_laws::qos_for(upgrade, list[j].qos, s.qos),
        retain: !s.retain_as_published || list[j].retain,
        packet_id: m.packet_id,
        subscription_identifiers: match s.identifier {
            Some(identifier) => seq![identifier],
            None => Seq::empty(),
        },
        ..list[j]
    })
    &&& m.qos > 0 ==> m.packet_id is Some
    &&& m.qos == 0 ==> m.packet_id == list[j].packet_id
}

proof fn lemma_list_replayed_from(
    session: SessionView,
    upgrade: bool,
    s: SubscriptionView,
    list: Seq<PublicationView>,
)
    ensures
        ({
            let sent = model::list_replayed(session, upgrade, s, list).1;
            &&& sent.len() == list.len()
            &&& forall|i: int|
                0 <= i < sent.len() ==> replayed_from(upgrade, s, list, #[trigger] sent[i], i)
        }),
    decreases list.len(),
{
    if list.len() > 0 {
        let front = list.drop_last();
        lemma_list_replayed_from(session, upgrade, s, front);
        let before = model::list_replayed(session, upgrade, s, front).1;
        let sent = model::list_replayed(session, upgrade, s, list).1;
        assert forall|i: int| 0 <= i < sent.len() implies replayed_from(
            upgrade,
            s,
            list,
            #[trigger] sent[i],
            i,
        ) by {
            if i < before.len() {
                assert(sent[i] == before[i]);
                assert(list[i] == front[i]);
            }
        }
    }
}

proof fn lemma_matching_retained(b: BrokerView, filter: Seq<char>)
    requires
        integrity::broker_ok(b),
    ensures
        ({
            let list = model::retained_matching(b.retained, filter);
            forall|i: int|
                0 <= i < list.len() ==> {
                    let p = #[trigger] list[i];
                    &&& b.retained.contains_key(p.topic)
                    &&& p == b.retained[p.topic]
                    &&& topic::filter_matches(filter, p.topic)
                }
        }),
{
    let all = model::retained_list(b.retained);
    let names = text_order::in_order(b.retained.dom());
    text_order::lemma_in_order(b.retained.dom());
    let keep = |p: PublicationView| topic::filter_matches(filter, p.topic);
    integrity::lemma_filtered(all, keep);
    let list = model::retained_matching(b.retained, filter);
    assert forall|i: int| 0 <= i < list.len() implies {
        let p = #[trigger] list[i];
        &&& b.retained.contains_key(p.topic)
        &&& p == b.retained[p.topic]
        &&& topic::filter_matches(filter, p.topic)
    } by {
        let p = list[i];
        assert(all.contains(p));
        let k = all.index_of(p);
        assert(names.contains(names[k]));
        assert(integrity::retained_ok(names[k], b.retained[names[k]]));
    }
}

proof fn lemma_all_replayed_from(
    b: BrokerView,
    session: SessionView,
    list: Seq<SubscriptionView>,
    requests: Seq<RequestView>,
)
    requires
        integrity::broker_ok(b),
        forall|i: int|
            0 <= i < list.len() ==> made(requests, #[trigger] list[i]),
    ensures
        ({
            let sent = model::all_replayed(session, b.upgrade_outgoing_qos, b.retained, list).1;
            forall|i: int|
                0 <= i < sent.len() ==> replay_asked(b, requests, #[trigger] sent[i])
        }),
    decreases list.len(),
{
    if list.len() > 0 {
        let front = list.drop_last();
        let s = list.last();
        assert forall|i: int| 0 <= i < front.len() implies made(
            requests,
            #[trigger] front[i],
        ) by {
            assert(front[i] == list[i]);
        }
        lemma_all_replayed_from(b, session, front, requests);
        let (before, earlier) = model::all_replayed(
            session,
            b.upgrade_outgoing_qos,
            b.retained,
            front,
        );
        let matching = model::retained_matching(b.retained, s.filter);
        lemma_list_replayed_from(before, b.upgrade_outgoing_qos, s, matching);
        lemma_matching_retained(b, s.filter);
        let more = model::list_replayed(before, b.upgrade_outgoing_qos, s, matching).1;
        let sent = model::all_replayed(session, b.upgrade_outgoing_qos, b.retained, list).1;
        assert(sent == earlier + more);
        assert(list[list.len() - 1] == s);
        assert(made(requests, s));
        let j = choose|j: int| #[trigger] granted_as(requests, s, j);
        assert forall|i: int| 0 <= i < sent.len() implies replay_asked(
            b,
            requests,
            #[trigger] sent[i],
        ) by {
            if i < earlier.len() {
                assert(sent[i] == earlier[i]);
            } else {
                let k = i - earlier.len();
                assert(sent[i] == more[k]);
                assert(replayed_from(b.upgrade_outgoing_qos, s, matching, more[k], k));
                let p = matching[k];
                assert(integrity::retained_ok(p.topic, b.retained[p.topic]));
                assert(sent[i] =~= replayed_to(b, requests[j], p, sent[i].packet_id));
                assert(replay_of(b, requests[j], sent[i]));
            }
        }
    }
}

/// Each message that a subscribe sends goes to the client that subscribes, and is
/// the retained message of its topic, which a granted filter matches: its payload
/// and all of its properties are those that are retained, its QoS is the lower one
/// of the retained and the granted QoS, or the granted one where the broker
/// upgrades, its retain flag is set, and its subscription identifier is that of the
/// request, or there is none. It has a packet identifier exactly where its QoS is
/// above 0.
pub proof fn law_replays_agree_with_the_retained_messages(
    b: BrokerView,
    client_id: Seq<char>,
    requests: Seq<RequestView>,
    i: int,
)
    requires
        integrity::broker_ok(b),
        0 <= i < model::subscribing(b, client_id, requests).1.retained.len(),
    ensures
        ({
            let d = model::subscribing(b, client_id, requests).1.retained[i];
            &&& d.client_id == client_id
            &&& replay_asked(b, requests, d.publication)
        }),
{
    let session = b.clients[client_id];
    let taken = model::requests_taken(session.subscriptions, b.next_subscription_order, requests);
    lemma_replays_made(session.subscriptions, b.next_subscription_order, requests);
    let subscribed = SessionView { subscriptions: taken.subscriptions, ..session };
    lemma_all_replayed_from(b, subscribed, taken.replays, requests);
    let sent = model::all_replayed(
        subscribed,
        b.upgrade_outgoing_qos,
        b.retained,
        taken.replays,
    ).1;
    assert(model::subscribing(b, client_id, requests).1.retained[i].publication == sent[i]);
}

/// Whether a list holds a subscription to a filter.
pub open spec fn holds(list: Seq<SubscriptionView>, filter: Seq<char>) -> bool {
    exists|k: int| 0 <= k < list.len() && (#[trigger] list[k]).filter == filter
}

/// Whether a request is granted for a filter.
pub open spec fn grants(requests: Seq<RequestView>, filter: Seq<char>) -> bool {
    exists|j: int|
        0 <= j < requests.len() && is_granted(#[trigger] requests[j]) && requests[j].filter
            == filter
}

/// The topics of the retained messages that requests have sent, request by request:
/// each granted request has those sent that its filter matches, in ascending order
/// of the topics, unless its retain handling is 2, or is 1 and the filter was held
/// or granted before.
pub open spec fn topics_sent(
    b: BrokerView,
    list: Seq<SubscriptionView>,
    requests: Seq<RequestView>,
) -> Seq<Seq<char>>
    decreases requests.len(),
{
    if requests.len() == 0 {
        Seq::empty()
    } else {
        let front = requests.drop_last();
        let r = requests.last();
        let known = holds(list, r.filter) || grants(front, r.filter);
        topics_sent(b, list, front) + if is_granted(r) && (r.retain_handling == 0 || (
        r.retain_handling == 1 && !known)) {
            text_order::in_order(b.retained.dom()).filter(
                |name: Seq<char>| topic::filter_matches(r.filter, name),
            )
        } else {
            Seq::empty()
        }
    }
}

proof fn lemma_holds(list: Seq<SubscriptionView>, filter: Seq<char>)
    ensures
        model::subscribed(list, filter) <==> holds(list, filter),
{
    if model::subscribed(list, filter) {
        let k = model::place_of(list, filter);
        assert(model::subscribed_at(list, filter, k));
        assert(list[k].filter == filter);
    }
    if holds(list, filter) {
        let k = choose|k: int| 0 <= k < list.len() && (#[trigger] list[k]).filter == filter;
        integrity::lemma_subscribed_somewhere(list, filter, k);
    }
}

proof fn lemma_grants(requests: Seq<RequestView>, filter: Seq<char>)
    ensures
        model::granted(requests, filter) <==> grants(requests, filter),
{
    if model::granted(requests, filter) {
        let j = choose|j: int|
            0 <= j < requests.len() && model::valid_request(#[trigger] requests[j])
                && requests[j].filter == filter;
        assert(is_granted(requests[j]));
    }
    if grants(requests, filter) {
        let j = choose|j: int|
            0 <= j < requests.len() && is_granted(#[trigger] requests[j]) && requests[j].filter
                == filter;
        assert(model::valid_request(requests[j]));
    }
}

/// The topics of a list of messages.
pub open spec fn topics_of(list: Seq<PublicationView>) -> Seq<Seq<char>> {
    list.map_values(|p: PublicationView| p.topic)
}

proof fn lemma_topics_replayed(
    b: BrokerView,
    session: SessionView,
    list: Seq<SubscriptionView>,
)
    requires
        integrity::broker_ok(b),
    ensures
        topics_of(
            model::all_replayed(session, b.upgrade_outgoing_qos, b.retained, list).1,
        ) == topics_matched(b, list),
    decreases list.len(),
{
    let all = model::all_replayed(session, b.upgrade_outgoing_qos, b.retained, list).1;
    if list.len() == 0 {
        assert(topics_of(all) =~= topics_matched(b, list));
    } else {
        let front = list.drop_last();
        let s = list.last();
        lemma_topics_replayed(b, session, front);
        let (before, earlier) = model::all_replayed(
            session,
            b.upgrade_outgoing_qos,
            b.retained,
            front,
        );
        let matching = model::retained_matching(b.retained, s.filter);
        lemma_list_replayed_from(before, b.upgrade_outgoing_qos, s, matching);
        let more = model::list_replayed(before, b.upgrade_outgoing_qos, s, matching).1;
        assert(topics_of(more) =~= topics_of(matching)) by {
            assert forall|i: int| 0 <= i < more.len() implies more[i].topic == matching[i].topic by {
                assert(replayed_from(b.upgrade_outgoing_qos, s, matching, more[i], i));
            }
        }
        let names = text_order::in_order(b.retained.dom());
        text_order::lemma_in_order(b.retained.dom());
        crate::broker_laws::lemma_matching_topics(b, names, names.len() as int, s.filter);
        assert(names.take(names.len() as int) =~= names);
        assert(topics_of(matching) == crate::broker_laws::topics_of(matching));
        assert(topics_of(earlier + more) =~= topics_of(earlier) + topics_of(more));
    }
}

/// The topics of the retained messages that each of a list of subscriptions
/// matches, in ascending order.
pub open spec fn topics_matched(b: BrokerView, list: Seq<SubscriptionView>) -> Seq<Seq<char>>
    decreases list.len(),
{
    if list.len() == 0 {
        Seq::empty()
    } else {
        topics_matched(b, list.drop_last()) + text_order::in_order(b.retained.dom()).filter(
            |name: Seq<char>| topic::filter_matches(list.last().filter, name),
        )
    }
}

proof fn lemma_topics_asked(
    b: BrokerView,
    list: Seq<SubscriptionView>,
    order: u64,
    requests: Seq<RequestView>,
)
    ensures
        topics_matched(b, model::requests_taken(list, order, requests).replays) == topics_sent(
            b,
            list,
            requests,
        ),
    decreases requests.len(),
{
    if requests.len() > 0 {
        let front = requests.drop_last();
        let r = requests.last();
        lemma_topics_asked(b, list, order, front);
        let at = model::requests_taken(list, order, front);
        let taken = model::requests_taken(list, order, requests);
        integrity::lemma_requests_subscribed(list, order, front, r.filter);
        lemma_holds(list, r.filter);
        lemma_grants(front, r.filter);
        let existed = model::subscribed(at.subscriptions, r.filter);
        if model::valid_request(r) && model::replays(r.retain_handling, existed) {
            assert(taken.replays.drop_last() =~= at.replays);
            assert(taken.replays.last().filter == r.filter);
        } else {
            assert(topics_sent(b, list, requests) =~= topics_sent(b, list, front));
        }
    }
}

/// The retained messages that a SUBSCRIBE packet has sent are, by their topics,
/// exactly those that its granted requests match and ask for, request by request,
/// in ascending order of the topics.
pub proof fn law_which_retained_messages_are_sent(
    b: BrokerView,
    client_id: Seq<char>,
    requests: Seq<RequestView>,
)
    requires
        integrity::broker_ok(b),
        b.clients.contains_key(client_id),
    ensures
        model::subscribing(b, client_id, requests).1.retained.map_values(
            |d: DeliveryView| d.publication.topic,
        ) == topics_sent(b, b.clients[client_id].subscriptions, requests),
{
    let session = b.clients[client_id];
    let taken = model::requests_taken(session.subscriptions, b.next_subscription_order, requests);
    let subscribed = SessionView { subscriptions: taken.subscriptions, ..session };
    lemma_topics_replayed(b, subscribed, taken.replays);
    lemma_topics_asked(b, session.subscriptions, b.next_subscription_order, requests);
    let sent = model::all_replayed(
        subscribed,
        b.upgrade_outgoing_qos,
        b.retained,
        taken.replays,
    ).1;
    let result = model::subscribing(b, client_id, requests).1;
    assert(result.retained.map_values(|d: DeliveryView| d.publication.topic) =~= topics_of(sent));
}

/// A message without its packet identifier.
pub open spec fn unnumbered(p: PublicationView) -> PublicationView {
    PublicationView { packet_id: None, ..p }
}

/// The retained messages that granted requests match and ask for, as each request has
/// them sent, without their packet identifiers: request by request, in ascending order
/// of the topics.
pub open spec fn messages_sent(
    b: BrokerView,
    list: Seq<SubscriptionView>,
    requests: Seq<RequestView>,
) -> Seq<PublicationView>
    decreases requests.len(),
{
    if requests.len() == 0 {
        Seq::empty()
    } else {
        let front = requests.drop_last();
        let r = requests.last();
        let known = holds(list, r.filter) || grants(front, r.filter);
        messages_sent(b, list, front) + if is_granted(r) && (r.retain_handling == 0 || (
        r.retain_handling == 1 && !known)) {
            text_order::in_order(b.retained.dom()).filter(
                |name: Seq<char>| topic::filter_matches(r.filter, name),
            ).map_values(|name: Seq<char>| replayed_to(b, r, b.retained[name], None))
        } else {
            Seq::empty()
        }
    }
}

/// The request that a subscription came of.
spec fn asked_as(s: SubscriptionView) -> RequestView {
    RequestView {
        filter: s.filter,
        qos: s.qos,
        no_local: s.no_local,
        retain_as_published: s.retain_as_published,
        retain_handling: s.retain_handling,
        identifier: s.identifier,
    }
}

spec fn messages_matched(b: BrokerView, list: Seq<SubscriptionView>) -> Seq<PublicationView>
    decreases list.len(),
{
    if list.len() == 0 {
        Seq::empty()
    } else {
        let r = asked_as(list.last());
        messages_matched(b, list.drop_last()) + text_order::in_order(b.retained.dom()).filter(
            |name: Seq<char>| topic::filter_matches(r.filter, name),
        ).map_values(|name: Seq<char>| replayed_to(b, r, b.retained[name], None))
    }
}

spec fn all_unnumbered(list: Seq<PublicationView>) -> Seq<PublicationView> {
    list.map_values(|p: PublicationView| unnumbered(p))
}

proof fn lemma_messages_replayed(
    b: BrokerView,
    session: SessionView,
    list: Seq<SubscriptionView>,
)
    requires
        integrity::broker_ok(b),
    ensures
        all_unnumbered(
            model::all_replayed(session, b.upgrade_outgoing_qos, b.retained, list).1,
        ) == messages_matched(b, list),
    decreases list.len(),
{
    let all = model::all_replayed(session, b.upgrade_outgoing_qos, b.retained, list).1;
    if list.len() == 0 {
        assert(all_unnumbered(all) =~= messages_matched(b, list));
    } else {
        let front = list.drop_last();
        let s = list.last();
        let r = asked_as(s);
        lemma_messages_replayed(b, session, front);
        let (before, earlier) = model::all_replayed(
            session,
            b.upgrade_outgoing_qos,
            b.retained,
            front,
        );
        let matching = model::retained_matching(b.retained, s.filter);
        lemma_list_replayed_from(before, b.upgrade_outgoing_qos, s, matching);
        lemma_matching_retained(b, s.filter);
        let more = model::list_replayed(before, b.upgrade_outgoing_qos, s, matching).1;
        let names = text_order::in_order(b.retained.dom());
        let some = names.filter(|name: Seq<char>| topic::filter_matches(r.filter, name));
        text_order::lemma_in_order(b.retained.dom());
        crate::broker_laws::lemma_matching_topics(b, names, names.len() as int, s.filter);
        assert(names.take(names.len() as int) =~= names);
        assert(crate::broker_laws::topics_of(matching) == some);
        let asked = some.map_values(|name: Seq<char>| replayed_to(b, r, b.retained[name], None));
        assert forall|i: int| 0 <= i < more.len() implies #[trigger] all_unnumbered(more)[i]
            == asked[i] by {
            let p = matching[i];
            assert(crate::broker_laws::topics_of(matching)[i] == p.topic);
            assert(replayed_from(b.upgrade_outgoing_qos, s, matching, more[i], i));
            assert(integrity::retained_ok(p.topic, b.retained[p.topic]));
            assert(unnumbered(more[i]) =~= replayed_to(b, r, p, None));
        }
        assert(all_unnumbered(more) =~= asked);
        assert(all_unnumbered(earlier + more) =~= all_unnumbered(earlier) + all_unnumbered(more));
    }
}

proof fn lemma_messages_asked(
    b: BrokerView,
    list: Seq<SubscriptionView>,
    order: u64,
    requests: Seq<RequestView>,
)
    ensures
        messages_matched(b, model::requests_taken(list, order, requests).replays)
            == messages_sent(b, list, requests),
    decreases requests.len(),
{
    if requests.len() > 0 {
        let front = requests.drop_last();
        let r = requests.last();
        lemma_messages_asked(b, list, order, front);
        let at = model::requests_taken(list, order, front);
        let taken = model::requests_taken(list, order, requests);
        integrity::lemma_requests_subscribed(list, order, front, r.filter);
        lemma_holds(list, r.filter);
        lemma_grants(front, r.filter);
        let existed = model::subscribed(at.subscriptions, r.filter);
        if model::valid_request(r) && model::replays(r.retain_handling, existed) {
            assert(taken.replays.drop_last() =~= at.replays);
            assert(asked_as(taken.replays.last()) =~= r);
        } else {
            assert(messages_sent(b, list, requests) =~= messages_sent(b, list, front));
        }
    }
}

/// The retained messages that a SUBSCRIBE packet has sent are, but for their packet
/// identifiers, exactly those that its granted requests match and ask for, each with the
/// QoS and the identifier of the request that asked for it.
pub proof fn law_what_each_request_has_sent(
    b: BrokerView,
    client_id: Seq<char>,
    requests: Seq<RequestView>,
)
    requires
        integrity::broker_ok(b),
        b.clients.contains_key(client_id),
    ensures
        model::subscribing(b, client_id, requests).1.retained.map_values(
            |d: DeliveryView| unnumbered(d.publication),
        ) == messages_sent(b, b.clients[client_id].subscriptions, requests),
{
    let session = b.clients[client_id];
    let taken = model::requests_taken(session.subscriptions, b.next_subscription_order, requests);
    let subscribed = SessionView { subscriptions: taken.subscriptions, ..session };
    lemma_messages_replayed(b, subscribed, taken.replays);
    lemma_messages_asked(b, session.subscriptions, b.next_subscription_order, requests);
    let sent = model::all_replayed(
        subscribed,
        b.upgrade_outgoing_qos,
        b.retained,
        taken.replays,
    ).1;
    let result = model::subscribing(b, client_id, requests).1;
    assert(result.retained.map_values(|d: DeliveryView| unnumbered(d.publication))
        =~= all_unnumbered(sent));
}

// The session afterwards.

/// Whether a request is the last one that is granted for its filter.
pub open spec fn decides(requests: Seq<RequestView>, j: int) -> bool {
    &&& 0 <= j < requests.len()
    &&& is_granted(requests[j])
    &&& forall|i: int|
        j < i < requests.len() && is_granted(#[trigger] requests[i]) ==> requests[i].filter
            != requests[j].filter
}

/// Whether a list of subscriptions is another one after requests: to each filter
/// that was granted there is one subscription, which the last request for it made,
/// and which has the order of the one that was held before, or a new one. All
/// other subscriptions are as they were.
pub open spec fn resubscribed(
    before: Seq<SubscriptionView>,
    after: Seq<SubscriptionView>,
    first: u64,
    next: u64,
    requests: Seq<RequestView>,
) -> bool {
    &&& before.len() <= after.len()
    &&& next == first + (after.len() - before.len())
    &&& forall|i: int|
        0 <= i < before.len() ==> {
            &&& (#[trigger] after[i]).filter == before[i].filter
            &&& after[i].order == before[i].order
            &&& !grants(requests, before[i].filter) ==> after[i] == before[i]
        }
    &&& forall|i: int|
        before.len() <= i < after.len() ==> {
            &&& (#[trigger] after[i]).order == first + (i - before.len())
            &&& grants(requests, after[i].filter)
            &&& !holds(before, after[i].filter)
        }
    &&& forall|i: int, j: int|
        0 <= i < after.len() && #[trigger] decides(requests, j) && (#[trigger] after[i]).filter
            == requests[j].filter ==> made_by(requests[j], after[i])
    &&& forall|j: int| #[trigger] decides(requests, j) ==> holds(after, requests[j].filter)
}

proof fn lemma_grants_front(requests: Seq<RequestView>, filter: Seq<char>)
    requires
        requests.len() > 0,
    ensures
        grants(requests, filter) <==> grants(requests.drop_last(), filter) || (is_granted(
            requests.last(),
        ) && requests.last().filter == filter),
{
    let front = requests.drop_last();
    if grants(front, filter) {
        let j = choose|j: int|
            0 <= j < front.len() && is_granted(#[trigger] front[j]) && front[j].filter == filter;
        assert(requests[j] == front[j]);
    }
    if is_granted(requests.last()) && requests.last().filter == filter {
        assert(is_granted(requests[requests.len() - 1]));
    }
    if grants(requests, filter) {
        let j = choose|j: int|
            0 <= j < requests.len() && is_granted(#[trigger] requests[j]) && requests[j].filter
                == filter;
        if j < front.len() {
            assert(front[j] == requests[j]);
        }
    }
}

proof fn lemma_resubscribed(
    list: Seq<SubscriptionView>,
    order: u64,
    requests: Seq<RequestView>,
)
    requires
        integrity::subscriptions_ok(list, order),
        order + model::new_subscriptions(list, requests) <= u64::MAX,
    ensures
        ({
            let taken = model::requests_taken(list, order, requests);
            resubscribed(
                list,
                taken.subscriptions,
                order,
                taken.next_subscription_order,
                requests,
            )
        }),
    decreases requests.len(),
{
    if requests.len() > 0 {
        let front = requests.drop_last();
        let r = requests.last();
        let n = front.len() as int;
        lemma_resubscribed(list, order, front);
        integrity::lemma_requests_taken_ok(list, order, front);
        let at = model::requests_taken(list, order, front);
        let taken = model::requests_taken(list, order, requests);
        let middle = at.subscriptions;
        let after = taken.subscriptions;
        lemma_holds(middle, r.filter);
        lemma_holds(list, r.filter);
        integrity::lemma_requests_taken_ok(list, order, requests);
        integrity::lemma_requests_subscribed(list, order, front, r.filter);
        lemma_grants(front, r.filter);
        let place = model::place_of(middle, r.filter);
        if model::valid_request(r) && model::subscribed(middle, r.filter) {
            assert(model::subscribed_at(middle, r.filter, place));
        }
        assert forall|i: int| 0 <= i < list.len() implies {
            &&& (#[trigger] after[i]).filter == list[i].filter
            &&& after[i].order == list[i].order
            &&& !grants(requests, list[i].filter) ==> after[i] == list[i]
        } by {
            assert(middle[i].filter == list[i].filter);
            lemma_grants_front(requests, list[i].filter);
        }
        assert forall|i: int| list.len() <= i < after.len() implies {
            &&& (#[trigger] after[i]).order == order + (i - list.len())
            &&& grants(requests, after[i].filter)
            &&& !holds(list, after[i].filter)
        } by {
            lemma_grants_front(requests, after[i].filter);
            if i < middle.len() {
                assert(middle[i].filter == after[i].filter);
            }
        }
        assert forall|i: int, j: int|
            0 <= i < after.len() && #[trigger] decides(requests, j) && (#[trigger] after[i]).filter
                == requests[j].filter implies made_by(requests[j], after[i]) by {
            if j < n {
                assert(front[j] == requests[j]);
                assert(requests[n] == r);
                assert forall|x: int| j < x < front.len() && is_granted(
                    #[trigger] front[x],
                ) implies front[x].filter != front[j].filter by {
                    assert(requests[x] == front[x]);
                }
                assert(decides(front, j));
                if is_granted(r) {
                    assert(r.filter != requests[j].filter);
                }
                assert(i < middle.len() && after[i] == middle[i]);
            } else {
                assert(requests[j] == r);
                if model::subscribed(middle, r.filter) {
                    assert(after[place].filter == r.filter);
                    if i < place {
                        assert(after[i].filter != after[place].filter);
                    } else if place < i {
                        assert(after[place].filter != after[i].filter);
                    }
                } else if i < middle.len() {
                    assert(middle[i].filter == r.filter);
                }
            }
        }
        assert forall|j: int| #[trigger] decides(requests, j) implies holds(
            after,
            requests[j].filter,
        ) by {
            integrity::lemma_requests_subscribed(list, order, requests, requests[j].filter);
            assert(model::valid_request(requests[j]));
            lemma_holds(after, requests[j].filter);
        }
    }
}

/// A client that has subscribed holds, for each filter that was granted, exactly
/// the options of the last request for it, with the order of the subscription that
/// it held before or with a new one, and else what it held. Nothing else of the
/// broker changes: the other sessions, the retained messages and the turns of the
/// shared filters are as they were, and so is the session but for the messages that
/// now wait for an acknowledgement and the next packet identifier.
pub proof fn law_subscriptions_afterwards(
    b: BrokerView,
    client_id: Seq<char>,
    requests: Seq<RequestView>,
)
    requires
        integrity::broker_ok(b),
        b.clients.contains_key(client_id),
        model::has_room(b, client_id, requests),
    ensures
        ({
            let after = model::subscribing(b, client_id, requests).0;
            let before = b.clients[client_id];
            let session = after.clients[client_id];
            &&& resubscribed(
                before.subscriptions,
                session.subscriptions,
                b.next_subscription_order,
                after.next_subscription_order,
                requests,
            )
            &&& session == (SessionView {
                subscriptions: session.subscriptions,
                inflight_qos1: session.inflight_qos1,
                inflight_qos2: session.inflight_qos2,
                next_outgoing_mid: session.next_outgoing_mid,
                ..before
            })
            &&& after == (BrokerView {
                clients: b.clients.insert(client_id, session),
                next_subscription_order: after.next_subscription_order,
                ..b
            })
        }),
{
    let before = b.clients[client_id];
    assert(integrity::session_ok(client_id, before, b.next_subscription_order));
    integrity::lemma_new_subscriptions(before.subscriptions, requests);
    lemma_resubscribed(before.subscriptions, b.next_subscription_order, requests);
    let taken = model::requests_taken(before.subscriptions, b.next_subscription_order, requests);
    let subscribed = SessionView { subscriptions: taken.subscriptions, ..before };
    session_laws::lemma_all_only_replayed(
        subscribed,
        b.upgrade_outgoing_qos,
        b.retained,
        taken.replays,
    );
    assert(integrity::session_ok(client_id, before, b.next_subscription_order));
}

// What waits for an acknowledgement.

/// The messages of a list on their way to a client.
pub open spec fn addressed_to(client_id: Seq<char>, list: Seq<PublicationView>) -> Seq<DeliveryView> {
    list.map_values(|p: PublicationView| DeliveryView { client_id, publication: p })
}

proof fn lemma_kept_later(
    before: SessionView,
    after: SessionView,
    id: Seq<char>,
    list: Seq<PublicationView>,
    more: Seq<PublicationView>,
)
    requires
        routing_laws::kept_or_sent(before, after, addressed_to(id, list), id),
    ensures
        routing_laws::kept_or_sent(before, after, addressed_to(id, list + more), id),
{
    let x = addressed_to(id, list);
    let y = addressed_to(id, list + more);
    assert forall|m: PublicationView| #[trigger]
        x.contains(DeliveryView { client_id: id, publication: m }) implies y.contains(
        DeliveryView { client_id: id, publication: m },
    ) by {
        let d = DeliveryView { client_id: id, publication: m };
        assert(y[x.index_of(d)] == d);
    }
    assert forall|n: u16| #[trigger] after.inflight_qos1.contains_key(n) implies (
    before.inflight_qos1.contains_key(n) && after.inflight_qos1[n] == before.inflight_qos1[n]) || (
    after.inflight_qos1[n].qos == 1 && routing_laws::on_its_way(y, id, n, after.inflight_qos1[n]))
    by {
        let m = after.inflight_qos1[n];
        assert(x.contains(DeliveryView { client_id: id, publication: m }) ==> y.contains(
            DeliveryView { client_id: id, publication: m },
        ));
    }
    assert forall|n: u16| #[trigger] after.inflight_qos2.contains_key(n) implies (
    before.inflight_qos2.contains_key(n) && after.inflight_qos2[n] == before.inflight_qos2[n]) || (
    after.inflight_qos2[n].publication.qos == 2 && after.inflight_qos2[n].state
        == crate::session::Qos2OutboundState::WaitingPubRec && routing_laws::on_its_way(
        y,
        id,
        n,
        after.inflight_qos2[n].publication,
    )) by {
        let m = after.inflight_qos2[n].publication;
        assert(x.contains(DeliveryView { client_id: id, publication: m }) ==> y.contains(
            DeliveryView { client_id: id, publication: m },
        ));
    }
}

proof fn lemma_list_kept(
    start: SessionView,
    session: SessionView,
    upgrade: bool,
    s: SubscriptionView,
    list: Seq<PublicationView>,
    id: Seq<char>,
    earlier: Seq<PublicationView>,
)
    requires
        routing_laws::kept_or_sent(start, session, addressed_to(id, earlier), id),
    ensures
        ({
            let (after, sent) = model::list_replayed(session, upgrade, s, list);
            routing_laws::kept_or_sent(start, after, addressed_to(id, earlier + sent), id)
        }),
    decreases list.len(),
{
    if list.len() == 0 {
        assert(earlier + Seq::<PublicationView>::empty() =~= earlier);
    } else {
        let front = list.drop_last();
        lemma_list_kept(start, session, upgrade, s, front, id, earlier);
        let (before, sent) = model::list_replayed(session, upgrade, s, front);
        let (after, copy) = model::replayed(before, upgrade, s, list.last());
        lemma_kept_later(start, before, id, earlier + sent, seq![copy]);
        let all = addressed_to(id, earlier + sent + seq![copy]);
        assert(earlier + sent.push(copy) =~= earlier + sent + seq![copy]);
        let d = DeliveryView { client_id: id, publication: copy };
        assert(all[(earlier + sent).len() as int] == d);
        assert(all.contains(d));
    }
}

proof fn lemma_all_kept(
    session: SessionView,
    upgrade: bool,
    retained: Map<Seq<char>, PublicationView>,
    list: Seq<SubscriptionView>,
    id: Seq<char>,
)
    ensures
        ({
            let (after, sent) = model::all_replayed(session, upgrade, retained, list);
            routing_laws::kept_or_sent(session, after, addressed_to(id, sent), id)
        }),
    decreases list.len(),
{
    if list.len() > 0 {
        let front = list.drop_last();
        lemma_all_kept(session, upgrade, retained, front, id);
        let (before, sent) = model::all_replayed(session, upgrade, retained, front);
        lemma_list_kept(
            session,
            before,
            upgrade,
            list.last(),
            model::retained_matching(retained, list.last().filter),
            id,
            sent,
        );
    }
}

/// Whether each message of a list that needs it waits to be acknowledged.
pub open spec fn all_wait(session: SessionView, list: Seq<PublicationView>) -> bool {
    forall|i: int|
        0 <= i < list.len() ==> {
            &&& (#[trigger] list[i]).qos == 1 && list[i].packet_id is Some
                ==> session.inflight_qos1.contains_key(list[i].packet_id->0)
            &&& list[i].qos == 2 && list[i].packet_id is Some
                ==> session.inflight_qos2.contains_key(list[i].packet_id->0)
        }
}

proof fn lemma_list_waits(
    session: SessionView,
    upgrade: bool,
    s: SubscriptionView,
    list: Seq<PublicationView>,
    earlier: Seq<PublicationView>,
)
    requires
        all_wait(session, earlier),
    ensures
        ({
            let (after, sent) = model::list_replayed(session, upgrade, s, list);
            all_wait(after, earlier + sent)
        }),
    decreases list.len(),
{
    if list.len() == 0 {
        assert(earlier + Seq::<PublicationView>::empty() =~= earlier);
    } else {
        let front = list.drop_last();
        lemma_list_waits(session, upgrade, s, front, earlier);
        let (before, sent) = model::list_replayed(session, upgrade, s, front);
        let (after, copy) = model::replayed(before, upgrade, s, list.last());
        let some = earlier + sent;
        let all = earlier + sent.push(copy);
        assert forall|i: int| 0 <= i < all.len() implies {
            &&& (#[trigger] all[i]).qos == 1 && all[i].packet_id is Some
                ==> after.inflight_qos1.contains_key(all[i].packet_id->0)
            &&& all[i].qos == 2 && all[i].packet_id is Some
                ==> after.inflight_qos2.contains_key(all[i].packet_id->0)
        } by {
            if i < some.len() {
                assert(all[i] == some[i]);
            } else {
                assert(all[i] == copy);
            }
        }
    }
}

proof fn lemma_all_wait(
    session: SessionView,
    upgrade: bool,
    retained: Map<Seq<char>, PublicationView>,
    list: Seq<SubscriptionView>,
)
    ensures
        ({
            let (after, sent) = model::all_replayed(session, upgrade, retained, list);
            all_wait(after, sent)
        }),
    decreases list.len(),
{
    if list.len() > 0 {
        let front = list.drop_last();
        lemma_all_wait(session, upgrade, retained, front);
        let (before, sent) = model::all_replayed(session, upgrade, retained, front);
        lemma_list_waits(
            before,
            upgrade,
            list.last(),
            model::retained_matching(retained, list.last().filter),
            sent,
        );
    }
}

/// Each retained message that a subscribe sends with QoS 1 or 2 waits to be acknowledged.
pub proof fn law_replays_wait(b: BrokerView, client_id: Seq<char>, requests: Seq<RequestView>)
    requires
        b.clients.contains_key(client_id),
    ensures
        ({
            let (after, result) = model::subscribing(b, client_id, requests);
            all_wait(
                after.clients[client_id],
                result.retained.map_values(|d: DeliveryView| d.publication),
            )
        }),
{
    let session = b.clients[client_id];
    let taken = model::requests_taken(session.subscriptions, b.next_subscription_order, requests);
    let subscribed = SessionView { subscriptions: taken.subscriptions, ..session };
    lemma_all_wait(subscribed, b.upgrade_outgoing_qos, b.retained, taken.replays);
    let (after, sent) = model::all_replayed(
        subscribed,
        b.upgrade_outgoing_qos,
        b.retained,
        taken.replays,
    );
    let result = model::subscribing(b, client_id, requests).1;
    assert(result.retained.map_values(|d: DeliveryView| d.publication) =~= sent);
}

/// What a subscribe leaves unacknowledged is what was unacknowledged before and
/// what it has sent, message for message.
pub proof fn law_replays_are_kept_until_acknowledged(
    b: BrokerView,
    client_id: Seq<char>,
    requests: Seq<RequestView>,
)
    requires
        b.clients.contains_key(client_id),
    ensures
        ({
            let (after, result) = model::subscribing(b, client_id, requests);
            routing_laws::kept_or_sent(
                b.clients[client_id],
                after.clients[client_id],
                result.retained,
                client_id,
            )
        }),
{
    let session = b.clients[client_id];
    let taken = model::requests_taken(session.subscriptions, b.next_subscription_order, requests);
    let subscribed = SessionView { subscriptions: taken.subscriptions, ..session };
    lemma_all_kept(
        subscribed,
        b.upgrade_outgoing_qos,
        b.retained,
        taken.replays,
        client_id,
    );
    let (after, sent) = model::all_replayed(
        subscribed,
        b.upgrade_outgoing_qos,
        b.retained,
        taken.replays,
    );
    assert(model::subscribing(b, client_id, requests).1.retained =~= addressed_to(
        client_id,
        sent,
    ));
    assert(model::subscribing(b, client_id, requests).0.clients[client_id] == after);
    assert(routing_laws::kept_or_sent(subscribed, after, addressed_to(client_id, sent), client_id));
    assert(subscribed.inflight_qos1 == session.inflight_qos1);
    assert(subscribed.inflight_qos2 == session.inflight_qos2);
}

// Unsubscribing.

/// A client that takes filters back holds exactly the subscriptions to other
/// filters, each as it was and in the same order, and nothing else of the broker
/// changes.
pub proof fn law_unsubscribing_takes_the_filters_only(
    b: BrokerView,
    client_id: Seq<char>,
    filters: Seq<Seq<char>>,
    s: SubscriptionView,
)
    requires
        integrity::broker_ok(b),
    ensures
        ({
            let after = model::unsubscribing(b, client_id, filters);
            let before = b.clients[client_id];
            let session = after.clients[client_id];
            &&& !b.clients.contains_key(client_id) ==> after == b
            &&& b.clients.contains_key(client_id) ==> {
                &&& session.subscriptions.contains(s) <==> before.subscriptions.contains(s)
                    && !filters.contains(s.filter)
                &&& integrity::subscriptions_ok(session.subscriptions, b.next_subscription_order)
                &&& session == (SessionView { subscriptions: session.subscriptions, ..before })
                &&& after == (BrokerView { clients: b.clients.insert(client_id, session), ..b })
            }
        }),
{
    if b.clients.contains_key(client_id) {
        let before = b.clients[client_id].subscriptions;
        let keep = |s: SubscriptionView| !filters.contains(s.filter);
        assert(integrity::session_ok(
            client_id,
            b.clients[client_id],
            b.next_subscription_order,
        ));
        steps::lemma_filter_contains(before, keep, s);
        integrity::lemma_filtered_subscriptions_ok(before, b.next_subscription_order, keep);
    }
}

} // verus!
