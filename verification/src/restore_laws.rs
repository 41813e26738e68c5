//! What outlives the process: what is written down of the sessions, and what becomes
//! of written sessions and retained messages when they are taken over.

use vstd::prelude::*;

use crate::integrity;
use crate::model;
use crate::model::BrokerView;
use crate::packet::PublicationView;
use crate::packet_ids;
use crate::session::{OutboundView, PersistedView, SessionView, SubscriptionView};
use crate::session_laws;
use crate::steps;
use crate::text_order;
use crate::topic;

verus! {

// Messages.

/// A message as it comes back: without a topic alias, without subscription
/// identifiers that are zero, and unchanged in all else.
pub open spec fn as_restored(p: PublicationView) -> PublicationView {
    PublicationView {
        topic: p.topic,
        payload: p.payload,
        qos: p.qos,
        retain: p.retain,
        packet_id: p.packet_id,
        dup: p.dup,
        topic_alias: None,
        payload_format_indicator: p.payload_format_indicator,
        response_topic: p.response_topic,
        correlation_data: p.correlation_data,
        subscription_identifiers: p.subscription_identifiers.filter(|n: u32| n != 0),
    }
}

/// Whether a message comes back: it has a topic that can be published to, a packet
/// identifier, and the QoS that its place asks for.
pub open spec fn comes_back(p: PublicationView, qos: u8) -> bool {
    p.qos == qos && p.packet_id is Some && topic::is_topic_name(p.topic)
}

/// Whether a message of a list comes back under a packet identifier: no later one
/// has the same.
pub open spec fn comes_back_as(list: Seq<PublicationView>, qos: u8, i: int, id: u16) -> bool {
    &&& 0 <= i < list.len()
    &&& comes_back(list[i], qos)
    &&& list[i].packet_id == Some(id)
    &&& forall|j: int|
        i < j < list.len() && comes_back(#[trigger] list[j], qos) ==> list[j].packet_id != Some(id)
}

/// Whether a map holds what comes back of a list of messages, and nothing else.
pub open spec fn is_restored_from(
    map: Map<u16, PublicationView>,
    list: Seq<PublicationView>,
    qos: u8,
) -> bool {
    &&& forall|i: int, id: u16| #[trigger]
        comes_back_as(list, qos, i, id) ==> map.contains_key(id) && map[id] == as_restored(list[i])
    &&& forall|id: u16| #[trigger] map.contains_key(id) ==> is_listed(list, qos, id)
}

/// Whether a message of a list comes back under a packet identifier.
pub open spec fn is_listed(list: Seq<PublicationView>, qos: u8, id: u16) -> bool {
    exists|i: int| #[trigger] comes_back_as(list, qos, i, id)
}

proof fn lemma_as_restored(p: PublicationView)
    ensures
        model::taken_over(p) == as_restored(p),
{
    let a = |n: u32| n > 0;
    let b = |n: u32| n != 0;
    assert(a =~= b);
    assert(model::taken_over(p) =~= as_restored(p));
}

proof fn lemma_messages_come_back(list: Seq<PublicationView>, qos: u8)
    requires
        qos <= 2,
    ensures
        is_restored_from(model::by_packet_id(model::inflight_taken_over(list, qos)), list, qos),
    decreases list.len(),
{
    let keep = |p: PublicationView| model::keeps_inflight(p, qos);
    let turn = |p: PublicationView| model::taken_over(p);
    let map = model::by_packet_id(model::inflight_taken_over(list, qos));
    if list.len() == 0 {
        steps::lemma_filter_empty(keep);
        assert(list =~= Seq::empty());
        assert(model::inflight_taken_over(list, qos) =~= Seq::empty());
    } else {
        let front = list.drop_last();
        let last = list.last();
        let before = model::by_packet_id(model::inflight_taken_over(front, qos));
        lemma_messages_come_back(front, qos);
        steps::lemma_filter_push(front, last, keep);
        assert(front.push(last) =~= list);
        lemma_as_restored(last);
        if keep(last) {
            assert(model::inflight_taken_over(list, qos) =~= model::inflight_taken_over(
                front,
                qos,
            ).push(turn(last)));
            assert(model::inflight_taken_over(list, qos).drop_last()
                =~= model::inflight_taken_over(front, qos));
        } else {
            assert(model::inflight_taken_over(list, qos) =~= model::inflight_taken_over(
                front,
                qos,
            ));
        }
        assert(keep(last) == comes_back(last, qos));
        assert forall|i: int, id: u16| #[trigger] comes_back_as(list, qos, i, id) implies {
            &&& map.contains_key(id)
            &&& map[id] == as_restored(list[i])
        } by {
            if i < front.len() {
                assert(front[i] == list[i]);
                assert forall|j: int|
                    i < j < front.len() && comes_back(
                        #[trigger] front[j],
                        qos,
                    ) implies front[j].packet_id != Some(id) by {
                    assert(front[j] == list[j]);
                }
                assert(comes_back_as(front, qos, i, id));
                assert(comes_back(list[list.len() - 1], qos) ==> last.packet_id != Some(id));
            }
        }
        assert forall|id: u16| #[trigger] map.contains_key(id) implies is_listed(
            list,
            qos,
            id,
        ) by {
            if keep(last) && last.packet_id == Some(id) {
                assert(comes_back_as(list, qos, list.len() - 1, id));
            } else {
                assert(before.contains_key(id));
                let i = choose|i: int| #[trigger] comes_back_as(front, qos, i, id);
                assert(front[i] == list[i]);
                assert forall|j: int|
                    i < j < list.len() && comes_back(
                        #[trigger] list[j],
                        qos,
                    ) implies list[j].packet_id != Some(id) by {
                    if j < front.len() {
                        assert(front[j] == list[j]);
                    }
                }
                assert(comes_back_as(list, qos, i, id));
            }
        }
    }
}

/// The messages of a list of outgoing QoS 2 messages.
pub open spec fn messages_of(list: Seq<OutboundView>) -> Seq<PublicationView> {
    Seq::new(list.len(), |i: int| list[i].publication)
}

/// Whether a map holds what comes back of a list of outgoing QoS 2 messages, each
/// with its state, and nothing else.
pub open spec fn is_outbound_restored_from(
    map: Map<u16, OutboundView>,
    list: Seq<OutboundView>,
) -> bool {
    &&& forall|i: int, id: u16| #[trigger]
        comes_back_as(messages_of(list), 2, i, id) ==> map.contains_key(id) && map[id] == (
        OutboundView { publication: as_restored(list[i].publication), state: list[i].state })
    &&& forall|id: u16| #[trigger] map.contains_key(id) ==> is_listed(messages_of(list), 2, id)
}

proof fn lemma_outbound_comes_back(list: Seq<OutboundView>)
    ensures
        is_outbound_restored_from(
            model::outbound_by_packet_id(model::outbound_taken_over(list)),
            list,
        ),
    decreases list.len(),
{
    let keep = |o: OutboundView| model::keeps_inflight(o.publication, 2);
    let turn = |o: OutboundView|
        OutboundView { publication: model::taken_over(o.publication), state: o.state };
    let map = model::outbound_by_packet_id(model::outbound_taken_over(list));
    let all = messages_of(list);
    if list.len() == 0 {
        steps::lemma_filter_empty(keep);
        assert(list =~= Seq::empty());
        assert(model::outbound_taken_over(list) =~= Seq::empty());
    } else {
        let front = list.drop_last();
        let some = messages_of(front);
        let last = list.last();
        let before = model::outbound_by_packet_id(model::outbound_taken_over(front));
        lemma_outbound_comes_back(front);
        steps::lemma_filter_push(front, last, keep);
        assert(front.push(last) =~= list);
        lemma_as_restored(last.publication);
        if keep(last) {
            assert(model::outbound_taken_over(list) =~= model::outbound_taken_over(front).push(
                turn(last),
            ));
            assert(model::outbound_taken_over(list).drop_last() =~= model::outbound_taken_over(
                front,
            ));
        } else {
            assert(model::outbound_taken_over(list) =~= model::outbound_taken_over(front));
        }
        assert(keep(last) == comes_back(last.publication, 2));
        assert(all[all.len() - 1] == last.publication);
        assert forall|i: int, id: u16| #[trigger] comes_back_as(all, 2, i, id) implies {
            &&& map.contains_key(id)
            &&& map[id] == (OutboundView {
                publication: as_restored(list[i].publication),
                state: list[i].state,
            })
        } by {
            if i < front.len() {
                assert(some[i] == all[i]);
                assert(front[i] == list[i]);
                assert forall|j: int|
                    i < j < some.len() && comes_back(
                        #[trigger] some[j],
                        2,
                    ) implies some[j].packet_id != Some(id) by {
                    assert(some[j] == all[j]);
                }
                assert(comes_back_as(some, 2, i, id));
            }
        }
        assert forall|id: u16| #[trigger] map.contains_key(id) implies is_listed(all, 2, id) by {
            if keep(last) && last.publication.packet_id == Some(id) {
                assert(comes_back_as(all, 2, all.len() - 1, id));
            } else {
                assert(before.contains_key(id));
                let i = choose|i: int| #[trigger] comes_back_as(some, 2, i, id);
                assert(some[i] == all[i]);
                assert forall|j: int|
                    i < j < all.len() && comes_back(#[trigger] all[j], 2) implies all[j].packet_id
                    != Some(id) by {
                    if j < some.len() {
                        assert(some[j] == all[j]);
                    }
                }
                assert(comes_back_as(all, 2, i, id));
            }
        }
    }
}

// Subscriptions.

/// Whether a subscription can be kept.
pub open spec fn is_sound(s: SubscriptionView) -> bool {
    topic::is_topic_filter(s.filter) && s.qos <= 2 && s.retain_handling <= 2 && s.identifier
        != Some(0u32)
}

/// Whether a subscription of a list comes back: no later one has the same filter.
pub open spec fn subscription_stays(list: Seq<SubscriptionView>, i: int) -> bool {
    &&& 0 <= i < list.len()
    &&& is_sound(list[i])
    &&& forall|j: int|
        i < j < list.len() && is_sound(#[trigger] list[j]) ==> list[j].filter != list[i].filter
}

/// A subscription of a list as it comes back: its order counts on from a number, and
/// in all else it is as it was.
pub open spec fn reordered(list: Seq<SubscriptionView>, first: u64, i: int) -> SubscriptionView {
    SubscriptionView {
        filter: list[i].filter,
        qos: list[i].qos,
        no_local: list[i].no_local,
        retain_as_published: list[i].retain_as_published,
        retain_handling: list[i].retain_handling,
        identifier: list[i].identifier,
        order: (first + list.take(i).filter(|s: SubscriptionView| is_sound(s)).len()) as u64,
    }
}

/// Whether a subscription is one of those of a list that come back.
pub open spec fn is_back(list: Seq<SubscriptionView>, first: u64, s: SubscriptionView) -> bool {
    exists|i: int| #[trigger] subscription_stays(list, i) && s == reordered(list, first, i)
}

/// Whether subscriptions are those of a list that come back, and no others.
pub open spec fn are_back(
    after: Seq<SubscriptionView>,
    list: Seq<SubscriptionView>,
    first: u64,
) -> bool {
    &&& forall|i: int| #[trigger]
        subscription_stays(list, i) ==> after.contains(reordered(list, first, i))
    &&& forall|k: int| 0 <= k < after.len() ==> is_back(list, first, #[trigger] after[k])
}

proof fn lemma_subscriptions_are_back(list: Seq<SubscriptionView>, first: u64)
    requires
        first + list.len() <= u64::MAX,
    ensures
        are_back(model::subscriptions_taken_over(list, first).0, list, first),
        model::subscriptions_taken_over(list, first).1 == first + list.filter(
            |s: SubscriptionView| is_sound(s),
        ).len(),
        list.filter(|s: SubscriptionView| is_sound(s)).len() <= list.len(),
    decreases list.len(),
{
    let sound = |s: SubscriptionView| is_sound(s);
    let (after, next) = model::subscriptions_taken_over(list, first);
    if list.len() == 0 {
        steps::lemma_filter_empty(sound);
        assert(list =~= Seq::empty());
    } else {
        let front = list.drop_last();
        let last = list.last();
        let (before, order) = model::subscriptions_taken_over(front, first);
        lemma_subscriptions_are_back(front, first);
        steps::lemma_filter_push(front, last, sound);
        assert(front.push(last) =~= list);
        assert(is_sound(last) == model::valid_subscription(last));
        let keep = |f: SubscriptionView| f.filter != last.filter;
        let end = list.len() - 1;
        assert(list.take(end) =~= front);
        assert forall|i: int| 0 <= i < end implies #[trigger] reordered(list, first, i)
            == reordered(front, first, i) by {
            assert(list.take(i) =~= front.take(i));
        }
        assert forall|i: int| #[trigger] subscription_stays(list, i) implies after.contains(
            reordered(list, first, i),
        ) by {
            let s = reordered(list, first, i);
            if i < end {
                assert(front[i] == list[i]);
                assert forall|j: int|
                    i < j < front.len() && is_sound(#[trigger] front[j]) implies front[j].filter
                    != front[i].filter by {
                    assert(front[j] == list[j]);
                }
                assert(subscription_stays(front, i));
                assert(s == reordered(front, first, i));
                if is_sound(last) {
                    assert(list[end].filter != list[i].filter);
                    steps::lemma_filter_contains(before, keep, s);
                    steps::lemma_push_contains(
                        before.filter(keep),
                        SubscriptionView { order, ..last },
                        s,
                    );
                }
            } else {
                assert(after.last() == s);
                assert(after[after.len() - 1] == s);
            }
        }
        assert forall|k: int| 0 <= k < after.len() implies is_back(
            list,
            first,
            #[trigger] after[k],
        ) by {
            let s = after[k];
            if is_sound(last) && k == after.len() - 1 {
                assert(subscription_stays(list, end));
                assert(s == reordered(list, first, end));
            } else {
                if is_sound(last) {
                    assert(before.filter(keep).contains(s)) by {
                        assert(before.filter(keep)[k] == s);
                    }
                    steps::lemma_filter_contains(before, keep, s);
                }
                let m = before.index_of(s);
                assert(before.contains(s));
                assert(before[m] == s);
                assert(is_back(front, first, s));
                let i = choose|i: int| #[trigger]
                    subscription_stays(front, i) && s == reordered(front, first, i);
                assert(front[i] == list[i]);
                assert forall|j: int|
                    i < j < list.len() && is_sound(#[trigger] list[j]) implies list[j].filter
                    != list[i].filter by {
                    if j < end {
                        assert(front[j] == list[j]);
                    }
                }
                assert(subscription_stays(list, i));
                assert(s == reordered(list, first, i));
            }
        }
    }
}

// Sessions.

/// A session that was written down comes back offline, without a will, with its
/// client, its expiry interval, the sound ones of its subscriptions, and those of its
/// messages that make sense where they stand. Of two subscriptions with the same
/// filter, and of two messages in the same place with the same packet identifier,
/// the later one counts.
pub proof fn law_session_taken_over(p: PersistedView, first: u64)
    requires
        first + p.subscriptions.len() <= u64::MAX,
    ensures
        ({
            let s = model::session_taken_over(p, first);
            &&& s.client_id == p.client_id
            &&& s.session_expiry_interval == p.session_expiry_interval
            &&& !s.online
            &&& s.will is None
            &&& s.disconnected_at is None
            &&& are_back(s.subscriptions, p.subscriptions, first)
            &&& s.queued == p.queued.filter(
                |m: PublicationView| comes_back(m, 1) || comes_back(m, 2),
            ).map_values(|m: PublicationView| as_restored(m))
            &&& is_restored_from(s.inflight_qos1, p.inflight_qos1, 1)
            &&& is_outbound_restored_from(s.inflight_qos2, p.inflight_qos2)
            &&& is_restored_from(s.inbound_qos2, p.inbound_qos2, 2)
        }),
{
    lemma_subscriptions_are_back(p.subscriptions, first);
    lemma_messages_come_back(p.inflight_qos1, 1);
    lemma_messages_come_back(p.inbound_qos2, 2);
    lemma_outbound_comes_back(p.inflight_qos2);
    let keep = |m: PublicationView| model::keeps_queued(m);
    let back = |m: PublicationView| comes_back(m, 1) || comes_back(m, 2);
    assert(keep =~= back);
    let kept = p.queued.filter(keep);
    let one = kept.map_values(|m: PublicationView| model::taken_over(m));
    let two = kept.map_values(|m: PublicationView| as_restored(m));
    assert forall|i: int| 0 <= i < one.len() implies one[i] == two[i] by {
        lemma_as_restored(kept[i]);
    }
    assert(one =~= two);
}

/// Whether a written session is taken over: its client has a name, and the session
/// outlives its connection.
pub open spec fn session_comes_back(list: Seq<PersistedView>, i: int) -> bool {
    0 <= i < list.len() && list[i].client_id.len() > 0 && list[i].session_expiry_interval > 0
}

/// Whether it is the last one of its client that is taken over.
pub open spec fn session_stays(list: Seq<PersistedView>, i: int) -> bool {
    &&& session_comes_back(list, i)
    &&& forall|j: int|
        i < j && #[trigger] session_comes_back(list, j) ==> list[j].client_id != list[i].client_id
}

/// Whether a client has a session that is taken over.
pub open spec fn has_written_session(list: Seq<PersistedView>, client_id: Seq<char>) -> bool {
    exists|i: int| #[trigger] session_stays(list, i) && list[i].client_id == client_id
}

/// Whether a session is what a written one comes back as.
pub open spec fn is_taken_over(p: PersistedView, s: SessionView) -> bool {
    exists|first: u64|
        first + p.subscriptions.len() <= u64::MAX && s == #[trigger] model::session_taken_over(
            p,
            first,
        )
}

proof fn lemma_session_front(list: Seq<PersistedView>, client_id: Seq<char>)
    requires
        list.len() > 0,
    ensures
        ({
            let front = list.drop_last();
            let end = list.len() - 1;
            let taken = session_comes_back(list, end);
            &&& has_written_session(list, client_id) == (has_written_session(front, client_id) || (
            taken && list.last().client_id == client_id))
            &&& forall|i: int|
                i < end ==> #[trigger] session_stays(list, i) == (session_stays(front, i) && !(taken
                    && list[end].client_id == list[i].client_id))
            &&& session_stays(list, end) == taken
        }),
{
    let front = list.drop_last();
    let end = list.len() - 1;
    let taken = session_comes_back(list, end);
    assert forall|i: int| i < end implies #[trigger] session_stays(list, i) == (session_stays(
        front,
        i,
    ) && !(taken && list[end].client_id == list[i].client_id)) by {
        if session_stays(list, i) {
            assert(front[i] == list[i]);
            assert forall|j: int| i < j && #[trigger]
                session_comes_back(front, j) implies front[j].client_id != front[i].client_id by {
                assert(session_comes_back(list, j));
            }
            assert(session_stays(front, i));
        }
        if session_stays(front, i) && !(taken && list[end].client_id == list[i].client_id) {
            assert(front[i] == list[i]);
            assert forall|j: int| i < j && #[trigger]
                session_comes_back(list, j) implies list[j].client_id != list[i].client_id by {
                if j < end {
                    assert(session_comes_back(front, j));
                }
            }
        }
    }
    if has_written_session(list, client_id) {
        let i = choose|i: int| #[trigger]
            session_stays(list, i) && list[i].client_id == client_id;
        if i < end {
            assert(session_stays(front, i) && front[i].client_id == client_id);
        }
    }
    if taken && list[end].client_id == client_id {
        assert(session_stays(list, end));
    } else if has_written_session(front, client_id) {
        let i = choose|i: int| #[trigger]
            session_stays(front, i) && front[i].client_id == client_id;
        assert(front[i] == list[i]);
        assert(session_stays(list, i));
    }
}

/// Taking over written sessions gives each of their clients the last one written for
/// it, and leaves all other sessions, the retained messages and the turns of the
/// shared subscriptions as they are.
pub proof fn law_sessions_taken_over(b: BrokerView, list: Seq<PersistedView>)
    requires
        b.next_subscription_order + model::subscription_count(list) <= u64::MAX,
    ensures
        ({
            let after = model::sessions_taken_over(b, list);
            &&& after.retained == b.retained
            &&& after.shared_cursors == b.shared_cursors
            &&& after.upgrade_outgoing_qos == b.upgrade_outgoing_qos
            &&& forall|id: Seq<char>| #[trigger]
                after.clients.contains_key(id) <==> b.clients.contains_key(id)
                    || has_written_session(list, id)
            &&& forall|i: int| #[trigger]
                session_stays(list, i) ==> is_taken_over(
                    list[i],
                    after.clients[list[i].client_id],
                )
            &&& forall|id: Seq<char>|
                b.clients.contains_key(id) && !has_written_session(list, id)
                    ==> #[trigger] after.clients[id] == b.clients[id]
            &&& b.next_subscription_order <= after.next_subscription_order
                <= b.next_subscription_order + model::subscription_count(list)
        }),
    decreases list.len(),
{
    let after = model::sessions_taken_over(b, list);
    if list.len() > 0 {
        let front = list.drop_last();
        let end = list.len() - 1;
        let p = list.last();
        let before = model::sessions_taken_over(b, front);
        law_sessions_taken_over(b, front);
        let order = before.next_subscription_order;
        assert(model::keeps_session(p) == session_comes_back(list, end));
        if model::keeps_session(p) {
            lemma_subscriptions_are_back(p.subscriptions, order);
        }
        assert forall|id: Seq<char>| #[trigger] after.clients.contains_key(id)
            <==> b.clients.contains_key(id) || has_written_session(list, id) by {
            lemma_session_front(list, id);
            assert(before.clients.contains_key(id) <==> b.clients.contains_key(id)
                || has_written_session(front, id));
        }
        assert forall|i: int| #[trigger] session_stays(list, i) implies is_taken_over(
            list[i],
            after.clients[list[i].client_id],
        ) by {
            lemma_session_front(list, list[i].client_id);
            if i < end {
                assert(session_stays(front, i));
                assert(front[i] == list[i]);
            }
        }
        assert forall|id: Seq<char>|
            b.clients.contains_key(id) && !has_written_session(
                list,
                id,
            ) implies #[trigger] after.clients[id] == b.clients[id] by {
            lemma_session_front(list, id);
            assert(before.clients[id] == b.clients[id]);
        }
    } else {
        assert forall|id: Seq<char>| !has_written_session(list, id) by {}
    }
}

/// Whether a list holds the messages of a map in ascending order of their packet
/// identifiers.
pub open spec fn is_list_of(
    list: Seq<PublicationView>,
    map: Map<u16, PublicationView>,
) -> bool {
    &&& forall|i: int|
        0 <= i < list.len() ==> map.contains_key((#[trigger] list[i]).packet_id->0) && list[i]
            == map[list[i].packet_id->0]
    &&& forall|i: int, j: int|
        0 <= i < j < list.len() ==> (#[trigger] list[i]).packet_id->0 < (
        #[trigger] list[j]).packet_id->0
    &&& forall|id: u16| #[trigger] map.contains_key(id) ==> list.contains(map[id])
}

proof fn lemma_inflight_list(map: Map<u16, PublicationView>, qos: u8)
    requires
        forall|id: u16| #[trigger]
            map.contains_key(id) ==> integrity::message_ok(map[id], id, qos),
    ensures
        is_list_of(model::inflight_list(map), map),
{
    let ids = packet_ids::ascending_ids(map.dom());
    let list = model::inflight_list(map);
    packet_ids::lemma_ascending_ids(map.dom());
    assert forall|i: int| 0 <= i < list.len() implies map.contains_key(
        (#[trigger] list[i]).packet_id->0,
    ) && list[i] == map[list[i].packet_id->0] && list[i].packet_id->0 == ids[i] by {
        assert(map.contains_key(ids[i]));
    }
    assert forall|id: u16| #[trigger] map.contains_key(id) implies list.contains(map[id]) by {
        assert(ids.contains(id));
        let k = ids.index_of(id);
        assert(list[k] == map[id]);
    }
}

/// What is written down of a session: its client, its expiry interval, its
/// subscriptions, its queue, and its messages that are not acknowledged or not
/// released, in ascending order of their packet identifiers.
pub proof fn law_what_is_written_down(b: BrokerView, client_id: Seq<char>)
    requires
        integrity::broker_ok(b),
        b.clients.contains_key(client_id),
    ensures
        ({
            let s = b.clients[client_id];
            let p = model::persisted(s);
            &&& p.client_id == client_id
            &&& p.session_expiry_interval == s.session_expiry_interval
            &&& p.subscriptions == s.subscriptions
            &&& p.queued == s.queued
            &&& is_list_of(p.inflight_qos1, s.inflight_qos1)
            &&& is_list_of(p.inbound_qos2, s.inbound_qos2)
            &&& is_list_of(
                messages_of(p.inflight_qos2),
                s.inflight_qos2.map_values(|o: OutboundView| o.publication),
            )
            &&& forall|i: int|
                0 <= i < p.inflight_qos2.len() ==> (#[trigger] p.inflight_qos2[i]).state
                    == s.inflight_qos2[p.inflight_qos2[i].publication.packet_id->0].state
        }),
{
    let s = b.clients[client_id];
    let p = model::persisted(s);
    let order = b.next_subscription_order;
    assert(integrity::session_ok(client_id, s, order));
    session_laws::lemma_persisted_whole(client_id, s, order);
    lemma_inflight_list(s.inflight_qos1, 1);
    lemma_inflight_list(s.inbound_qos2, 2);
    let map = s.inflight_qos2.map_values(|o: OutboundView| o.publication);
    assert(map.dom() =~= s.inflight_qos2.dom());
    lemma_inflight_list(map, 2);
    assert(messages_of(p.inflight_qos2) =~= model::inflight_list(map)) by {
        packet_ids::lemma_ascending_ids(map.dom());
    }
    packet_ids::lemma_ascending_ids(s.inflight_qos2.dom());
    let ids = packet_ids::ascending_ids(s.inflight_qos2.dom());
    assert forall|i: int| 0 <= i < p.inflight_qos2.len() implies (
    #[trigger] p.inflight_qos2[i]).state
        == s.inflight_qos2[p.inflight_qos2[i].publication.packet_id->0].state by {
        assert(s.inflight_qos2.contains_key(ids[i]));
        assert(p.inflight_qos2[i] == s.inflight_qos2[ids[i]]);
    }
}

/// Each session that outlives its connection is written down once, and no other one.
pub proof fn law_which_sessions_are_written_down(b: BrokerView)
    requires
        integrity::broker_ok(b),
    ensures
        forall|i: int|
            0 <= i < model::sessions_persisted(b).len() ==> {
                let p = #[trigger] model::sessions_persisted(b)[i];
                &&& b.clients.contains_key(p.client_id)
                &&& b.clients[p.client_id].session_expiry_interval > 0
                &&& p == model::persisted(b.clients[p.client_id])
            },
        forall|id: Seq<char>| #[trigger]
            b.clients.contains_key(id) && b.clients[id].session_expiry_interval > 0
                ==> model::sessions_persisted(b).contains(model::persisted(b.clients[id])),
        forall|i: int, j: int|
            0 <= i < j < model::sessions_persisted(b).len() ==> text_order::text_less(
                (#[trigger] model::sessions_persisted(b)[i]).client_id,
                (#[trigger] model::sessions_persisted(b)[j]).client_id,
            ),
{
    let durable = |id: Seq<char>| b.clients[id].session_expiry_interval != 0;
    let ids = model::durable_ids(b);
    let list = model::sessions_persisted(b);
    text_order::lemma_in_order(b.clients.dom());
    assert forall|id: Seq<char>| #[trigger] ids.contains(id) <==> b.clients.contains_key(id)
        && durable(id) by {
        steps::lemma_filter_contains(b.client_ids(), durable, id);
        assert(b.client_ids().contains(id) <==> b.clients.dom().contains(id));
    }
    assert forall|i: int| 0 <= i < list.len() implies {
        let p = #[trigger] list[i];
        &&& b.clients.contains_key(p.client_id)
        &&& b.clients[p.client_id].session_expiry_interval > 0
        &&& p == model::persisted(b.clients[p.client_id])
        &&& p.client_id == ids[i]
    } by {
        assert(ids.contains(ids[i]));
        assert(integrity::session_ok(ids[i], b.clients[ids[i]], b.next_subscription_order));
    }
    assert forall|id: Seq<char>| #[trigger]
        b.clients.contains_key(id) && b.clients[id].session_expiry_interval
            > 0 implies list.contains(model::persisted(b.clients[id])) by {
        assert(ids.contains(id));
        let k = ids.index_of(id);
        assert(list[k] == model::persisted(b.clients[id]));
    }
    session_laws::law_session_snapshot_is_in_order(b);
    let clients = session_laws::clients_of(list);
    assert forall|i: int, j: int| 0 <= i < j < list.len() implies text_order::text_less(
        (#[trigger] list[i]).client_id,
        (#[trigger] list[j]).client_id,
    ) by {
        assert(clients[i] == list[i].client_id);
        assert(clients[j] == list[j].client_id);
    }
}

// Retained messages.

/// Each retained message is written down once, as it is, in ascending order of the topics.
pub proof fn law_retained_messages_are_written_down(b: BrokerView)
    requires
        integrity::broker_ok(b),
    ensures
        ({
            let list = model::retained_list(b.retained);
            &&& forall|i: int|
                0 <= i < list.len() ==> b.retained.contains_key((#[trigger] list[i]).topic)
                    && list[i] == b.retained[list[i].topic]
            &&& forall|name: Seq<char>| #[trigger]
                b.retained.contains_key(name) ==> list.contains(b.retained[name])
            &&& forall|i: int, j: int|
                0 <= i < j < list.len() ==> text_order::text_less(
                    (#[trigger] list[i]).topic,
                    (#[trigger] list[j]).topic,
                )
        }),
{
    let names = text_order::in_order(b.retained.dom());
    let list = model::retained_list(b.retained);
    text_order::lemma_in_order(b.retained.dom());
    assert forall|i: int| 0 <= i < list.len() implies b.retained.contains_key(
        (#[trigger] list[i]).topic,
    ) && list[i] == b.retained[list[i].topic] && list[i].topic == names[i] by {
        assert(names.contains(names[i]));
        assert(integrity::retained_ok(names[i], b.retained[names[i]]));
    }
    assert forall|name: Seq<char>| #[trigger] b.retained.contains_key(name) implies list.contains(
        b.retained[name],
    ) by {
        assert(names.contains(name));
        let k = names.index_of(name);
        assert(list[k] == b.retained[name]);
    }
}

/// Whether a written message is taken over as a retained one: it can be published and
/// has a payload.
pub open spec fn retained_comes_back(list: Seq<PublicationView>, i: int) -> bool {
    &&& 0 <= i < list.len()
    &&& topic::is_topic_name(list[i].topic)
    &&& list[i].qos <= 2
    &&& list[i].payload.len() > 0
}

/// Whether it is the last one of its topic that is taken over.
pub open spec fn retained_stays(list: Seq<PublicationView>, i: int) -> bool {
    &&& retained_comes_back(list, i)
    &&& forall|j: int|
        i < j && #[trigger] retained_comes_back(list, j) ==> list[j].topic != list[i].topic
}

/// Whether a topic has a message that is taken over.
pub open spec fn has_written_message(list: Seq<PublicationView>, name: Seq<char>) -> bool {
    exists|i: int| #[trigger] retained_stays(list, i) && list[i].topic == name
}

/// A retained message as it comes back: what belonged to a connection is gone, and
/// all else is as it was.
pub open spec fn retained_again(p: PublicationView) -> PublicationView {
    PublicationView {
        topic: p.topic,
        payload: p.payload,
        qos: p.qos,
        retain: true,
        packet_id: None,
        dup: false,
        topic_alias: None,
        payload_format_indicator: p.payload_format_indicator,
        response_topic: p.response_topic,
        correlation_data: p.correlation_data,
        subscription_identifiers: Seq::empty(),
    }
}

/// Taking over written messages retains the last one of each topic that can be
/// published and has a payload, and nothing else.
pub proof fn law_retained_messages_taken_over(list: Seq<PublicationView>)
    ensures
        ({
            let after = model::retained_from(list);
            &&& forall|name: Seq<char>| #[trigger]
                after.contains_key(name) <==> has_written_message(list, name)
            &&& forall|i: int| #[trigger]
                retained_stays(list, i) ==> after[list[i].topic] == retained_again(list[i])
        }),
    decreases list.len(),
{
    let after = model::retained_from(list);
    if list.len() == 0 {
        assert forall|name: Seq<char>| !has_written_message(list, name) by {}
    } else {
        let front = list.drop_last();
        let end = list.len() - 1;
        let p = list.last();
        let before = model::retained_from(front);
        let taken = retained_comes_back(list, end);
        law_retained_messages_taken_over(front);
        assert(model::as_retained(p) =~= retained_again(p));
        assert forall|i: int| i < end implies #[trigger] retained_stays(list, i) == (
        retained_stays(front, i) && !(taken && list[end].topic == list[i].topic)) by {
            if retained_stays(list, i) {
                assert(front[i] == list[i]);
                assert forall|j: int| i < j && #[trigger]
                    retained_comes_back(front, j) implies front[j].topic != front[i].topic by {
                    assert(retained_comes_back(list, j));
                }
            }
            if retained_stays(front, i) && !(taken && list[end].topic == list[i].topic) {
                assert(front[i] == list[i]);
                assert forall|j: int| i < j && #[trigger]
                    retained_comes_back(list, j) implies list[j].topic != list[i].topic by {
                    if j < end {
                        assert(retained_comes_back(front, j));
                    }
                }
            }
        }
        assert(retained_stays(list, end) == taken);
        assert forall|name: Seq<char>| #[trigger] after.contains_key(name) <==> has_written_message(
            list,
            name,
        ) by {
            if taken && p.topic == name {
                assert(retained_stays(list, end) && list[end].topic == name);
            } else {
                if before.contains_key(name) {
                    let i = choose|i: int| #[trigger]
                        retained_stays(front, i) && front[i].topic == name;
                    assert(front[i] == list[i]);
                    assert(retained_stays(list, i));
                }
                if has_written_message(list, name) {
                    let i = choose|i: int| #[trigger]
                        retained_stays(list, i) && list[i].topic == name;
                    assert(i < end);
                    assert(retained_stays(front, i) && front[i].topic == name);
                }
            }
        }
        assert forall|i: int| #[trigger] retained_stays(list, i) implies after[list[i].topic]
            == retained_again(list[i]) by {
            if i < end {
                assert(retained_stays(front, i));
                assert(front[i] == list[i]);
            }
        }
    }
}

} // verus!
