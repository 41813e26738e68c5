//! Laws of routing, message by message: which subscriptions bring a client a copy,
//! what stands in it, and what the broker keeps of it.

use vstd::prelude::*;

use crate::broker_laws;
use crate::integrity;
use crate::model;
use crate::model::{BrokerView, CandidateView, Route, TargetView};
use crate::packet::PublicationView;
use crate::session::{
    DeliveryView, Qos2OutboundState, SessionView, SubscriptionView,
};
use crate::steps;
use crate::text_order;
use crate::topic;
use crate::topic_laws;

verus! {

/// Whether a subscription of a client takes a message: the client does not leave
/// out its own messages or is not the sender, and the filter matches the topic; of
/// a shared subscription it is the filter behind the group that counts.
pub open spec fn takes(
    s: SubscriptionView,
    client_id: Seq<char>,
    source: Seq<char>,
    name: Seq<char>,
) -> bool {
    &&& !(s.no_local && client_id == source)
    &&& match topic::shared_parts(s.filter) {
        Some((group, filter)) => topic::filter_matches(filter, name),
        None => topic::filter_matches(s.filter, name),
    }
}

/// Whether a subscription belongs to its client alone.
pub open spec fn is_own(s: SubscriptionView) -> bool {
    topic::shared_parts(s.filter) is None
}

/// The QoS with which a message comes to a subscription: the subscription's own
/// where the broker upgrades, and else the lower one of the two.
pub open spec fn qos_for(upgrade: bool, message: u8, subscription: u8) -> u8 {
    if upgrade {
        subscription
    } else if message < subscription {
        message
    } else {
        subscription
    }
}

/// The message as a subscription brings it to its client: all is as it was
/// published but the QoS, the retain flag, which stays only where the
/// subscription asks for it, the packet identifier, and the subscription
/// identifier.
pub open spec fn brought(
    b: BrokerView,
    s: SubscriptionView,
    p: PublicationView,
    packet_id: Option<u16>,
) -> PublicationView {
    PublicationView {
        topic: p.topic,
        payload: p.payload,
        qos: qos_for(b.upgrade_outgoing_qos, p.qos, s.qos),
        retain: s.retain_as_published && p.retain,
        packet_id,
        dup: p.dup,
        topic_alias: p.topic_alias,
        payload_format_indicator: p.payload_format_indicator,
        response_topic: p.response_topic,
        correlation_data: p.correlation_data,
        subscription_identifiers: match s.identifier {
            Some(identifier) => seq![identifier],
            None => Seq::empty(),
        },
    }
}

/// Whether a copy is what a subscription asks for.
pub open spec fn asked_by(
    b: BrokerView,
    source: Seq<char>,
    p: PublicationView,
    t: TargetView,
    k: int,
) -> bool {
    let session = b.clients[t.client_id];
    let s = session.subscriptions[k];
    &&& b.clients.contains_key(t.client_id)
    &&& 0 <= k < session.subscriptions.len()
    &&& takes(s, t.client_id, source, p.topic)
    &&& t.qos == qos_for(b.upgrade_outgoing_qos, p.qos, s.qos)
    &&& t.retain_as_published == s.retain_as_published
    &&& t.identifier == s.identifier
    &&& t.online == session.online
}

pub open spec fn asked_for(
    b: BrokerView,
    source: Seq<char>,
    p: PublicationView,
    t: TargetView,
) -> bool {
    exists|k: int| #[trigger] asked_by(b, source, p, t, k)
}

proof fn lemma_own_asked(b: BrokerView, ids: Seq<Seq<char>>, source: Seq<char>, p: PublicationView)
    requires
        forall|i: int| 0 <= i < ids.len() ==> b.clients.contains_key(#[trigger] ids[i]),
    ensures
        ({
            let route = Route { source, qos: p.qos, topic: p.topic };
            let targets = model::own_targets(b, ids, route);
            forall|i: int| 0 <= i < targets.len() ==> asked_for(b, source, p, #[trigger] targets[i])
        }),
    decreases ids.len(),
{
    let route = Route { source, qos: p.qos, topic: p.topic };
    if ids.len() > 0 {
        let front = ids.drop_last();
        let id = ids.last();
        assert(b.clients.contains_key(ids[ids.len() - 1]));
        assert forall|i: int| 0 <= i < front.len() implies b.clients.contains_key(
            #[trigger] front[i],
        ) by {
            assert(front[i] == ids[i]);
        }
        lemma_own_asked(b, front, source, p);
        let all = b.clients[id].subscriptions;
        let keep = |s: SubscriptionView| model::takes_alone(s, id, route);
        let takers = model::own_takers(b.clients[id], id, route);
        if takers.len() > 0 {
            integrity::lemma_filtered(all, keep);
            assert(all.contains(takers[0]));
            let t = model::target_of(b.upgrade_outgoing_qos, route, b.clients[id], id, takers[0]);
            assert(asked_by(b, source, p, t, all.index_of(takers[0])));
            assert(asked_for(b, source, p, t));
        }
        let before = model::own_targets(b, front, route);
        let targets = model::own_targets(b, ids, route);
        assert forall|i: int| 0 <= i < targets.len() implies asked_for(
            b,
            source,
            p,
            #[trigger] targets[i],
        ) by {
            if i < before.len() {
                assert(targets[i] == before[i]);
            }
        }
    }
}

proof fn lemma_candidates_asked(
    b: BrokerView,
    ids: Seq<Seq<char>>,
    source: Seq<char>,
    p: PublicationView,
)
    requires
        forall|i: int| 0 <= i < ids.len() ==> b.clients.contains_key(#[trigger] ids[i]),
    ensures
        ({
            let route = Route { source, qos: p.qos, topic: p.topic };
            let list = model::candidates(b, ids, route);
            forall|i: int|
                0 <= i < list.len() ==> member_asked(b, source, p, #[trigger] list[i])
        }),
    decreases ids.len(),
{
    let route = Route { source, qos: p.qos, topic: p.topic };
    if ids.len() > 0 {
        let front = ids.drop_last();
        let id = ids.last();
        assert(b.clients.contains_key(ids[ids.len() - 1]));
        assert forall|i: int| 0 <= i < front.len() implies b.clients.contains_key(
            #[trigger] front[i],
        ) by {
            assert(front[i] == ids[i]);
        }
        lemma_candidates_asked(b, front, source, p);
        let all = b.clients[id].subscriptions;
        let keep = |s: SubscriptionView| model::takes_shared(s, id, route);
        let own = model::own_candidates(b, id, route);
        let before = model::candidates(b, front, route);
        let list = model::candidates(b, ids, route);
        integrity::lemma_filtered(all, keep);
        assert forall|i: int| 0 <= i < list.len() implies member_asked(
            b,
            source,
            p,
            #[trigger] list[i],
        ) by {
            if i < before.len() {
                assert(list[i] == before[i]);
            } else {
                let s = all.filter(keep)[i - before.len()];
                assert(list[i] == own[i - before.len()]);
                assert(all.contains(s));
                assert(member_at(b, source, p, list[i], all.index_of(s)));
            }
        }
    }
}

/// Whether a member of a shared subscription stands for a subscription of its
/// client at a position.
pub open spec fn member_at(
    b: BrokerView,
    source: Seq<char>,
    p: PublicationView,
    c: CandidateView,
    k: int,
) -> bool {
    let s = b.clients[c.target.client_id].subscriptions[k];
    &&& asked_by(b, source, p, c.target, k)
    &&& !is_own(s)
    &&& c.filter == s.filter
    &&& c.order == s.order
}

pub open spec fn member_asked(
    b: BrokerView,
    source: Seq<char>,
    p: PublicationView,
    c: CandidateView,
) -> bool {
    exists|k: int| #[trigger] member_at(b, source, p, c, k)
}

proof fn lemma_rounds_from(
    cursors: Map<Seq<char>, nat>,
    list: Seq<CandidateView>,
    n: nat,
)
    requires
        n <= list.len(),
    ensures
        forall|i: int|
            0 <= i < model::rounds(cursors, list, n).1.len() ==> chosen_from(
                list,
                #[trigger] model::rounds(cursors, list, n).1[i],
            ),
    decreases n,
{
    if n > 0 {
        lemma_rounds_from(cursors, list, (n - 1) as nat);
        let filter = list[n - 1].filter;
        let (moved, targets) = model::rounds(cursors, list, (n - 1) as nat);
        let after = model::rounds(cursors, list, n).1;
        integrity::lemma_members(list, filter);
        let group = model::members(list, filter);
        assert(list[n - 1].filter == filter);
        let at = (model::cursor_of(moved, filter) % group.len()) as int;
        assert(list.contains(group[at]));
        let k = list.index_of(group[at]);
        assert(list[k].target == group[at].target);
        assert(chosen_from(list, group[at].target));
        assert forall|i: int| 0 <= i < after.len() implies chosen_from(
            list,
            #[trigger] after[i],
        ) by {
            if i < targets.len() {
                assert(after[i] == targets[i]);
            }
        }
    }
}

/// Whether a copy is that of a member of a list.
pub open spec fn chosen_from(list: Seq<CandidateView>, t: TargetView) -> bool {
    exists|k: int| 0 <= k < list.len() && (#[trigger] list[k]).target == t
}

proof fn lemma_targets_asked(b: BrokerView, source: Seq<char>, p: PublicationView)
    requires
        integrity::broker_ok(b),
    ensures
        ({
            let route = Route { source, qos: p.qos, topic: p.topic };
            let targets = model::targets_of(b, route).1;
            forall|i: int| 0 <= i < targets.len() ==> asked_for(b, source, p, #[trigger] targets[i])
        }),
{
    let route = Route { source, qos: p.qos, topic: p.topic };
    let ids = b.client_ids();
    integrity::lemma_clients_listed(b);
    lemma_own_asked(b, ids, source, p);
    lemma_candidates_asked(b, ids, source, p);
    let list = model::candidates(b, ids, route);
    lemma_rounds_from(b.shared_cursors, list, list.len());
    let own = model::own_targets(b, ids, route);
    let chosen = model::rounds(b.shared_cursors, list, list.len()).1;
    let targets = model::targets_of(b, route).1;
    assert forall|i: int| 0 <= i < targets.len() implies asked_for(
        b,
        source,
        p,
        #[trigger] targets[i],
    ) by {
        if i < own.len() {
            assert(targets[i] == own[i]);
        } else {
            let t = chosen[i - own.len()];
            assert(targets[i] == t);
            assert(chosen_from(list, t));
            let j = choose|j: int| 0 <= j < list.len() && (#[trigger] list[j]).target == t;
            assert(member_asked(b, source, p, list[j]));
            let k = choose|k: int| #[trigger] member_at(b, source, p, list[j], k);
            assert(asked_by(b, source, p, t, k));
        }
    }
}

// What is handed over.

/// The copy that a target asks for.
pub open spec fn copy_of(p: PublicationView, t: TargetView, packet_id: Option<u16>) -> PublicationView {
    PublicationView {
        topic: p.topic,
        payload: p.payload,
        qos: t.qos,
        retain: t.retain_as_published && p.retain,
        packet_id,
        dup: p.dup,
        topic_alias: p.topic_alias,
        payload_format_indicator: p.payload_format_indicator,
        response_topic: p.response_topic,
        correlation_data: p.correlation_data,
        subscription_identifiers: match t.identifier {
            Some(identifier) => seq![identifier],
            None => Seq::empty(),
        },
    }
}

/// Whether the messages on their way are the copies of the targets that are
/// online, one for each in the same order.
pub open spec fn all_sent(
    p: PublicationView,
    targets: Seq<TargetView>,
    sent: Seq<DeliveryView>,
) -> bool {
    let online = targets.filter(|t: TargetView| t.online);
    &&& sent.len() == online.len()
    &&& forall|i: int|
        0 <= i < sent.len() ==> (#[trigger] sent[i]).client_id == online[i].client_id
            && sent[i].publication == copy_of(p, online[i], sent[i].publication.packet_id)
}

/// The targets of a client that is offline whose copies are queued.
pub open spec fn to_queue(targets: Seq<TargetView>, id: Seq<char>) -> Seq<TargetView> {
    targets.filter(|t: TargetView| t.client_id == id && !t.online && t.qos > 0)
}

/// Whether the messages that were added to a queue are the copies of those targets,
/// one for each in the same order.
pub open spec fn all_queued(
    p: PublicationView,
    waiting: Seq<TargetView>,
    before: Seq<PublicationView>,
    after: Seq<PublicationView>,
) -> bool {
    &&& after.len() == before.len() + waiting.len()
    &&& forall|i: int| 0 <= i < before.len() ==> #[trigger] after[i] == before[i]
    &&& forall|i: int|
        before.len() <= i < after.len() ==> #[trigger] after[i] == copy_of(
            p,
            waiting[i - before.len()],
            after[i].packet_id,
        )
}

proof fn lemma_copy_made(s: SessionView, p: PublicationView, t: TargetView)
    requires
        p.subscription_identifiers.len() == 0,
    ensures
        ({
            let copy = model::handed_over(s, p, t).1;
            copy == copy_of(p, t, copy.packet_id)
        }),
{
    let copy = model::handed_over(s, p, t).1;
    assert(p.subscription_identifiers =~= Seq::empty());
    if let Some(identifier) = t.identifier {
        assert(p.subscription_identifiers.push(identifier) =~= seq![identifier]);
    }
    assert(copy =~= copy_of(p, t, copy.packet_id));
}

proof fn lemma_delivered_sent(b: BrokerView, p: PublicationView, targets: Seq<TargetView>)
    requires
        p.subscription_identifiers.len() == 0,
    ensures
        all_sent(p, targets, model::delivered(b, p, targets).1),
    decreases targets.len(),
{
    let up = |t: TargetView| t.online;
    if targets.len() == 0 {
        assert(targets =~= Seq::empty());
        steps::lemma_filter_empty(up);
    } else {
        let front = targets.drop_last();
        let t = targets.last();
        assert(targets =~= front.push(t));
        lemma_delivered_sent(b, p, front);
        steps::lemma_filter_push(front, t, up);
        let (before, earlier) = model::delivered(b, p, front);
        let sent = model::delivered(b, p, targets).1;
        lemma_copy_made(before.clients[t.client_id], p, t);
        assert forall|i: int| 0 <= i < sent.len() implies (#[trigger] sent[i]).client_id
            == targets.filter(up)[i].client_id && sent[i].publication == copy_of(
            p,
            targets.filter(up)[i],
            sent[i].publication.packet_id,
        ) by {
            if i < earlier.len() {
                assert(sent[i] == earlier[i]);
            }
        }
    }
}

proof fn lemma_delivered_queued(
    b: BrokerView,
    p: PublicationView,
    targets: Seq<TargetView>,
    id: Seq<char>,
)
    requires
        p.subscription_identifiers.len() == 0,
    ensures
        all_queued(
            p,
            to_queue(targets, id),
            b.clients[id].queued,
            model::delivered(b, p, targets).0.clients[id].queued,
        ),
    decreases targets.len(),
{
    let waits = |t: TargetView| t.client_id == id && !t.online && t.qos > 0;
    if targets.len() == 0 {
        assert(targets =~= Seq::empty());
        steps::lemma_filter_empty(waits);
    } else {
        let front = targets.drop_last();
        let t = targets.last();
        assert(targets =~= front.push(t));
        lemma_delivered_queued(b, p, front, id);
        steps::lemma_filter_push(front, t, waits);
        let before = model::delivered(b, p, front).0;
        let after = model::delivered(b, p, targets).0;
        lemma_copy_made(before.clients[t.client_id], p, t);
        let start = b.clients[id].queued;
        let middle = before.clients[id].queued;
        let queue = after.clients[id].queued;
        let waiting = to_queue(targets, id);
        assert forall|i: int| start.len() <= i < queue.len() implies #[trigger] queue[i] == copy_of(
            p,
            waiting[i - start.len()],
            queue[i].packet_id,
        ) by {
            if i < middle.len() {
                assert(queue[i] == middle[i]);
                assert(waiting[i - start.len()] == to_queue(front, id)[i - start.len()]);
            }
        }
        assert forall|i: int| 0 <= i < start.len() implies #[trigger] queue[i] == start[i] by {
            assert(queue[i] == middle[i]);
        }
    }
}

/// A message is taken exactly where its topic is a topic name and its QoS is 0, 1
/// or 2.
pub proof fn law_which_messages_are_taken(b: BrokerView, source: Seq<char>, p: PublicationView)
    ensures
        model::published(b, source, p).1.accepted <==> topic::is_topic_name(p.topic) && p.qos <= 2,
{
}

/// Whether a message on its way to a client was brought by a subscription of it.
pub open spec fn brought_by(
    b: BrokerView,
    source: Seq<char>,
    p: PublicationView,
    id: Seq<char>,
    m: PublicationView,
    k: int,
) -> bool {
    let list = b.clients[id].subscriptions;
    &&& 0 <= k < list.len()
    &&& takes(list[k], id, source, p.topic)
    &&& m == brought(b, list[k], p, m.packet_id)
}

proof fn lemma_published_copies(b: BrokerView, source: Seq<char>, p: PublicationView, id: Seq<char>)
    requires
        integrity::broker_ok(b),
        model::valid_publication(p),
    ensures
        ({
            let targets = model::taken_in(b, source, p).1;
            let (after, result) = model::published(b, source, p);
            &&& all_sent(p, targets, result.deliveries)
            &&& all_queued(
                p,
                to_queue(targets, id),
                b.clients[id].queued,
                after.clients[id].queued,
            )
            &&& forall|i: int|
                0 <= i < targets.len() ==> asked_for(b, source, p, #[trigger] targets[i])
        }),
{
    let (kept, targets) = model::taken_in(b, source, p);
    let plain = model::plain_of(p);
    lemma_delivered_sent(kept, plain, targets);
    lemma_delivered_queued(kept, plain, targets, id);
    lemma_targets_asked(b, source, p);
    let (after, result) = model::published(b, source, p);
    let sent = result.deliveries;
    let online = targets.filter(|t: TargetView| t.online);
    assert forall|i: int| 0 <= i < sent.len() implies (#[trigger] sent[i]).client_id
        == online[i].client_id && sent[i].publication == copy_of(
        p,
        online[i],
        sent[i].publication.packet_id,
    ) by {
        assert(copy_of(plain, online[i], sent[i].publication.packet_id) == copy_of(
            p,
            online[i],
            sent[i].publication.packet_id,
        ));
    }
    let start = b.clients[id].queued;
    let queue = after.clients[id].queued;
    let waiting = to_queue(targets, id);
    assert forall|i: int| start.len() <= i < queue.len() implies #[trigger] queue[i] == copy_of(
        p,
        waiting[i - start.len()],
        queue[i].packet_id,
    ) by {
        assert(copy_of(plain, waiting[i - start.len()], queue[i].packet_id) == copy_of(
            p,
            waiting[i - start.len()],
            queue[i].packet_id,
        ));
    }
}

/// Each message that the broker sends for a publish goes to a client that is
/// online and holds a subscription that takes the message, and it is the message
/// that was published, as that subscription brings it. Each message that is queued
/// stands at the end of the queue of a client that is offline, and is brought in
/// the same way, with a QoS above 0.
pub proof fn law_copies_are_brought_by_subscriptions(
    b: BrokerView,
    source: Seq<char>,
    p: PublicationView,
    id: Seq<char>,
)
    requires
        integrity::broker_ok(b),
        b.clients.contains_key(id),
    ensures
        ({
            let (after, result) = model::published(b, source, p);
            let before = b.clients[id].queued;
            let queue = after.clients[id].queued;
            &&& forall|i: int|
                0 <= i < result.deliveries.len() ==> {
                    let d = #[trigger] result.deliveries[i];
                    &&& b.clients.contains_key(d.client_id)
                    &&& b.clients[d.client_id].online
                    &&& exists|k: int| brought_by(b, source, p, d.client_id, d.publication, k)
                }
            &&& before.len() <= queue.len()
            &&& queue.take(before.len() as int) == before
            &&& forall|i: int|
                before.len() <= i < queue.len() ==> {
                    &&& !b.clients[id].online
                    &&& (#[trigger] queue[i]).qos > 0
                    &&& exists|k: int| brought_by(b, source, p, id, queue[i], k)
                }
        }),
{
    let before = b.clients[id].queued;
    assert(before.take(before.len() as int) =~= before);
    if model::valid_publication(p) {
        lemma_published_copies(b, source, p, id);
        let targets = model::taken_in(b, source, p).1;
        let (after, result) = model::published(b, source, p);
        let sent = result.deliveries;
        let up = |t: TargetView| t.online;
        let waits = |t: TargetView| t.client_id == id && !t.online && t.qos > 0;
        integrity::lemma_filtered(targets, up);
        integrity::lemma_filtered(targets, waits);
        assert forall|i: int| 0 <= i < sent.len() implies {
            let d = #[trigger] sent[i];
            &&& b.clients.contains_key(d.client_id)
            &&& b.clients[d.client_id].online
            &&& exists|k: int| brought_by(b, source, p, d.client_id, d.publication, k)
        } by {
            let t = targets.filter(up)[i];
            assert(targets.contains(t));
            assert(asked_for(b, source, p, targets[targets.index_of(t)]));
            let k = choose|k: int| #[trigger] asked_by(b, source, p, t, k);
            assert(brought_by(b, source, p, sent[i].client_id, sent[i].publication, k));
        }
        let queue = after.clients[id].queued;
        let waiting = to_queue(targets, id);
        assert(queue.take(before.len() as int) =~= before);
        assert forall|i: int| before.len() <= i < queue.len() implies {
            &&& !b.clients[id].online
            &&& (#[trigger] queue[i]).qos > 0
            &&& exists|k: int| brought_by(b, source, p, id, queue[i], k)
        } by {
            let t = waiting[i - before.len()];
            assert(targets.contains(t) && waits(t));
            assert(asked_for(b, source, p, targets[targets.index_of(t)]));
            let k = choose|k: int| #[trigger] asked_by(b, source, p, t, k);
            assert(brought_by(b, source, p, id, queue[i], k));
        }
    }
}

/// Whether a client has been handed a message as one of its subscriptions brings
/// it: it is sent it where it is online, and it has it in its queue where it is
/// not, unless the QoS is 0.
pub open spec fn handed(
    b: BrokerView,
    source: Seq<char>,
    p: PublicationView,
    id: Seq<char>,
    k: int,
) -> bool {
    let (after, result) = model::published(b, source, p);
    let s = b.clients[id].subscriptions[k];
    let before = b.clients[id].queued;
    let queue = after.clients[id].queued;
    if b.clients[id].online {
        exists|i: int|
            0 <= i < result.deliveries.len() && (#[trigger] result.deliveries[i]).client_id == id
                && result.deliveries[i].publication == brought(
                b,
                s,
                p,
                result.deliveries[i].publication.packet_id,
            )
    } else {
        qos_for(b.upgrade_outgoing_qos, p.qos, s.qos) > 0 ==> exists|i: int|
            before.len() <= i < queue.len() && (#[trigger] queue[i]) == brought(
                b,
                s,
                p,
                queue[i].packet_id,
            )
    }
}

/// A copy that a subscription asks for comes to its client.
proof fn lemma_asked_is_handed(
    b: BrokerView,
    source: Seq<char>,
    p: PublicationView,
    j: int,
    k: int,
)
    requires
        integrity::broker_ok(b),
        model::valid_publication(p),
        0 <= j < model::taken_in(b, source, p).1.len(),
        asked_by(b, source, p, model::taken_in(b, source, p).1[j], k),
    ensures
        handed(b, source, p, model::taken_in(b, source, p).1[j].client_id, k),
{
    let targets = model::taken_in(b, source, p).1;
    let t = targets[j];
    let id = t.client_id;
    lemma_published_copies(b, source, p, id);
    let (after, result) = model::published(b, source, p);
    let s = b.clients[id].subscriptions[k];
    assert(targets.contains(t));
    if t.online {
        let sent = result.deliveries;
        let up = |t: TargetView| t.online;
        steps::lemma_filter_contains(targets, up, t);
        let i = targets.filter(up).index_of(t);
        assert(sent[i].client_id == id);
        assert(sent[i].publication == brought(b, s, p, sent[i].publication.packet_id));
    } else if t.qos > 0 {
        let waits = |t: TargetView| t.client_id == id && !t.online && t.qos > 0;
        steps::lemma_filter_contains(targets, waits, t);
        let before = b.clients[id].queued;
        let queue = after.clients[id].queued;
        let i = before.len() + to_queue(targets, id).index_of(t);
        assert(queue[i] == brought(b, s, p, queue[i].packet_id));
    }
}

proof fn lemma_own_listed(b: BrokerView, ids: Seq<Seq<char>>, route: Route, id: Seq<char>)
    requires
        ids.contains(id),
        model::own_takers(b.clients[id], id, route).len() > 0,
    ensures
        ({
            let t = model::target_of(
                b.upgrade_outgoing_qos,
                route,
                b.clients[id],
                id,
                model::own_takers(b.clients[id], id, route)[0],
            );
            model::own_targets(b, ids, route).contains(t)
        }),
    decreases ids.len(),
{
    let front = ids.drop_last();
    let last = ids.last();
    let t = model::target_of(
        b.upgrade_outgoing_qos,
        route,
        b.clients[id],
        id,
        model::own_takers(b.clients[id], id, route)[0],
    );
    assert(ids =~= front.push(last));
    steps::lemma_push_contains(front, last, id);
    let before = model::own_targets(b, front, route);
    let takers = model::own_takers(b.clients[last], last, route);
    if takers.len() > 0 {
        steps::lemma_push_contains(
            before,
            model::target_of(b.upgrade_outgoing_qos, route, b.clients[last], last, takers[0]),
            t,
        );
    }
    if front.contains(id) {
        lemma_own_listed(b, front, route, id);
    }
}

/// A client with subscriptions of its own that take a message is handed it as the
/// oldest of them brings it.
pub proof fn law_own_subscription_brings_the_message(
    b: BrokerView,
    source: Seq<char>,
    p: PublicationView,
    id: Seq<char>,
    k: int,
)
    requires
        integrity::broker_ok(b),
        topic::is_topic_name(p.topic),
        p.qos <= 2,
        b.clients.contains_key(id),
        0 <= k < b.clients[id].subscriptions.len(),
        is_own(b.clients[id].subscriptions[k]),
        takes(b.clients[id].subscriptions[k], id, source, p.topic),
        forall|i: int|
            0 <= i < b.clients[id].subscriptions.len() && is_own(
                #[trigger] b.clients[id].subscriptions[i],
            ) && takes(b.clients[id].subscriptions[i], id, source, p.topic)
                ==> b.clients[id].subscriptions[k].order <= b.clients[id].subscriptions[i].order,
    ensures
        handed(b, source, p, id, k),
{
    let route = Route { source, qos: p.qos, topic: p.topic };
    let all = b.clients[id].subscriptions;
    let keep = |s: SubscriptionView| model::takes_alone(s, id, route);
    let takers = model::own_takers(b.clients[id], id, route);
    assert(integrity::session_ok(id, b.clients[id], b.next_subscription_order));
    assert(all.contains(all[k]));
    steps::lemma_filter_contains(all, keep, all[k]);
    integrity::lemma_filtered_subscriptions_ok(all, b.next_subscription_order, keep);
    let first = takers[0];
    assert(takers.contains(first));
    steps::lemma_filter_contains(all, keep, first);
    let f = all.index_of(first);
    let at = takers.index_of(all[k]);
    assert(takers[at].order >= first.order);
    assert(f == k) by {
        if f < k {
            assert(all[f].order < all[k].order);
        } else if k < f {
            assert(all[k].order < all[f].order);
        }
    }
    text_order::lemma_in_order(b.clients.dom());
    assert(b.client_ids().contains(id));
    lemma_own_listed(b, b.client_ids(), route, id);
    let own = model::own_targets(b, b.client_ids(), route);
    let t = model::target_of(b.upgrade_outgoing_qos, route, b.clients[id], id, first);
    let j = own.index_of(t);
    let targets = model::taken_in(b, source, p).1;
    assert(targets[j] == own[j]);
    assert(asked_by(b, source, p, targets[j], k));
    lemma_asked_is_handed(b, source, p, j, k);
}

/// A client is sent a message by its own subscriptions exactly where one of them
/// takes it.
pub proof fn law_own_subscriptions_that_take(
    b: BrokerView,
    route: Route,
    id: Seq<char>,
)
    ensures
        model::own_takers(b.clients[id], id, route).len() > 0 <==> exists|k: int|
            0 <= k < b.clients[id].subscriptions.len() && is_own(
                #[trigger] b.clients[id].subscriptions[k],
            ) && takes(b.clients[id].subscriptions[k], id, route.source, route.topic),
{
    let all = b.clients[id].subscriptions;
    let keep = |s: SubscriptionView| model::takes_alone(s, id, route);
    let takers = model::own_takers(b.clients[id], id, route);
    if takers.len() > 0 {
        assert(takers.contains(takers[0]));
        steps::lemma_filter_contains(all, keep, takers[0]);
        let k = all.index_of(takers[0]);
        assert(is_own(all[k]) && takes(all[k], id, route.source, route.topic));
    }
    if exists|k: int|
        0 <= k < all.len() && is_own(#[trigger] all[k]) && takes(
            all[k],
            id,
            route.source,
            route.topic,
        ) {
        let k = choose|k: int|
            0 <= k < all.len() && is_own(#[trigger] all[k]) && takes(
                all[k],
                id,
                route.source,
                route.topic,
            );
        assert(all.contains(all[k]));
        steps::lemma_filter_contains(all, keep, all[k]);
    }
}

// Shared subscriptions.

proof fn lemma_candidate_listed(
    b: BrokerView,
    ids: Seq<Seq<char>>,
    source: Seq<char>,
    p: PublicationView,
    id: Seq<char>,
    k: int,
)
    requires
        ids.contains(id),
        b.clients.contains_key(id),
        0 <= k < b.clients[id].subscriptions.len(),
        !is_own(b.clients[id].subscriptions[k]),
        takes(b.clients[id].subscriptions[k], id, source, p.topic),
    ensures
        ({
            let route = Route { source, qos: p.qos, topic: p.topic };
            model::candidates(b, ids, route).contains(member_of(b, p, id, k))
        }),
    decreases ids.len(),
{
    let route = Route { source, qos: p.qos, topic: p.topic };
    let c = member_of(b, p, id, k);
    let front = ids.drop_last();
    let last = ids.last();
    let before = model::candidates(b, front, route);
    let own = model::own_candidates(b, last, route);
    let list = model::candidates(b, ids, route);
    assert(list == before + own);
    if last == id {
        let all = b.clients[id].subscriptions;
        let keep = |s: SubscriptionView| model::takes_shared(s, id, route);
        assert(all.contains(all[k]));
        steps::lemma_filter_contains(all, keep, all[k]);
        let i = all.filter(keep).index_of(all[k]);
        assert(own[i] =~= c);
        assert(list[before.len() + i] == c);
    } else {
        assert(ids =~= front.push(last));
        steps::lemma_push_contains(front, last, id);
        lemma_candidate_listed(b, front, source, p, id, k);
        assert(list[before.index_of(c)] == c);
    }
}

/// The member of a shared filter that a subscription of a client is.
pub open spec fn member_of(b: BrokerView, p: PublicationView, id: Seq<char>, k: int) -> CandidateView {
    let s = b.clients[id].subscriptions[k];
    CandidateView {
        filter: s.filter,
        order: s.order,
        target: TargetView {
            client_id: id,
            qos: qos_for(b.upgrade_outgoing_qos, p.qos, s.qos),
            retain_as_published: s.retain_as_published,
            identifier: s.identifier,
            online: b.clients[id].online,
        },
    }
}

/// The members that a message may go to are exactly the shared subscriptions that
/// take it: a subscription to `$share/group/filter` is among them if and only if
/// the filter behind its group matches the topic, and its client does not leave
/// out the sender.
pub proof fn law_members_that_take(b: BrokerView, source: Seq<char>, p: PublicationView, c: CandidateView)
    requires
        integrity::broker_ok(b),
    ensures
        ({
            let route = Route { source, qos: p.qos, topic: p.topic };
            model::candidates(b, b.client_ids(), route).contains(c) <==> exists|id: Seq<char>, k: int|
                #![trigger b.clients[id].subscriptions[k]]
                b.clients.contains_key(id) && 0 <= k < b.clients[id].subscriptions.len() && !is_own(
                    b.clients[id].subscriptions[k],
                ) && takes(b.clients[id].subscriptions[k], id, source, p.topic) && c == member_of(
                    b,
                    p,
                    id,
                    k,
                )
        }),
{
    let route = Route { source, qos: p.qos, topic: p.topic };
    let ids = b.client_ids();
    let list = model::candidates(b, ids, route);
    integrity::lemma_clients_listed(b);
    text_order::lemma_in_order(b.clients.dom());
    if list.contains(c) {
        lemma_candidates_asked(b, ids, source, p);
        assert(member_asked(b, source, p, list[list.index_of(c)]));
        let k = choose|k: int| #[trigger] member_at(b, source, p, c, k);
        assert(c =~= member_of(b, p, c.target.client_id, k));
        let s = b.clients[c.target.client_id].subscriptions[k];
    }
    if exists|id: Seq<char>, k: int|
        #![trigger b.clients[id].subscriptions[k]]
        b.clients.contains_key(id) && 0 <= k < b.clients[id].subscriptions.len() && !is_own(
            b.clients[id].subscriptions[k],
        ) && takes(b.clients[id].subscriptions[k], id, source, p.topic) && c == member_of(
            b,
            p,
            id,
            k,
        ) {
        let (id, k) = choose|id: Seq<char>, k: int|
            #![trigger b.clients[id].subscriptions[k]]
            b.clients.contains_key(id) && 0 <= k < b.clients[id].subscriptions.len() && !is_own(
                b.clients[id].subscriptions[k],
            ) && takes(b.clients[id].subscriptions[k], id, source, p.topic) && c == member_of(
                b,
                p,
                id,
                k,
            );
        assert(ids.contains(id));
        lemma_candidate_listed(b, ids, source, p, id, k);
    }
}

/// Whether a shared subscription of a client is one to a filter text and takes a
/// message.
pub open spec fn shares(
    b: BrokerView,
    source: Seq<char>,
    name: Seq<char>,
    filter: Seq<char>,
    id: Seq<char>,
    k: int,
) -> bool {
    &&& b.clients.contains_key(id)
    &&& 0 <= k < b.clients[id].subscriptions.len()
    &&& b.clients[id].subscriptions[k].filter == filter
    &&& !is_own(b.clients[id].subscriptions[k])
    &&& takes(b.clients[id].subscriptions[k], id, source, name)
}

proof fn lemma_first_of_filter(list: Seq<CandidateView>, i: int) -> (at: int)
    requires
        0 <= i < list.len(),
    ensures
        0 <= at <= i,
        list[at].filter == list[i].filter,
        !model::met_before(list, at),
    decreases i,
{
    if model::met_before(list, i) {
        let k = choose|k: int| 0 <= k < i && #[trigger] list[k].filter == list[i].filter;
        lemma_first_of_filter(list, k)
    } else {
        i
    }
}

/// A shared subscription that takes a message has it handed to some member of its
/// group, as that member's own subscription brings it.
pub proof fn law_shared_filter_hands_the_message_to_a_member(
    b: BrokerView,
    source: Seq<char>,
    p: PublicationView,
    id: Seq<char>,
    k: int,
)
    requires
        integrity::broker_ok(b),
        topic::is_topic_name(p.topic),
        p.qos <= 2,
        b.clients.contains_key(id),
        0 <= k < b.clients[id].subscriptions.len(),
        !is_own(b.clients[id].subscriptions[k]),
        takes(b.clients[id].subscriptions[k], id, source, p.topic),
    ensures
        exists|other: Seq<char>, j: int| #[trigger]
            shares(b, source, p.topic, b.clients[id].subscriptions[k].filter, other, j) && handed(
                b,
                source,
                p,
                other,
                j,
            ),
{
    let route = Route { source, qos: p.qos, topic: p.topic };
    let ids = b.client_ids();
    let list = model::candidates(b, ids, route);
    let filter = b.clients[id].subscriptions[k].filter;
    integrity::lemma_clients_listed(b);
    text_order::lemma_in_order(b.clients.dom());
    assert(ids.contains(id));
    lemma_candidate_listed(b, ids, source, p, id, k);
    let i = list.index_of(member_of(b, p, id, k));
    let at = lemma_first_of_filter(list, i);
    broker_laws::law_each_shared_filter_gives_one_copy(
        b.shared_cursors,
        list,
        list.len(),
        at as nat,
    );
    let group = model::members(list, filter);
    integrity::lemma_members(list, filter);
    let g = (model::cursor_of(b.shared_cursors, filter) % group.len()) as int;
    let c = group[g];
    assert(list.contains(c) && c.filter == filter);
    lemma_candidates_asked(b, ids, source, p);
    assert(member_asked(b, source, p, list[list.index_of(c)]));
    let j = choose|j: int| #[trigger] member_at(b, source, p, c, j);
    let other = c.target.client_id;
    let own = model::own_targets(b, ids, route);
    let place = own.len() + broker_laws::filters_met(list, at as nat) as int;
    let targets = model::taken_in(b, source, p).1;
    assert(targets[place] == c.target);
    assert(asked_by(b, source, p, targets[place], j));
    lemma_asked_is_handed(b, source, p, place, j);
    assert(shares(b, source, p.topic, filter, other, j));
}

/// The filters of the first members of a list.
pub open spec fn filters_of(list: Seq<CandidateView>, n: nat) -> Set<Seq<char>>
    decreases n,
{
    if n == 0 {
        Set::empty()
    } else {
        filters_of(list, (n - 1) as nat).insert(list[n - 1].filter)
    }
}

proof fn lemma_filters_counted(list: Seq<CandidateView>, n: nat)
    requires
        n <= list.len(),
    ensures
        filters_of(list, n).finite(),
        filters_of(list, n).len() == broker_laws::filters_met(list, n),
        forall|f: Seq<char>| #[trigger]
            filters_of(list, n).contains(f) <==> exists|i: int|
                0 <= i < n && (#[trigger] list[i]).filter == f,
    decreases n,
{
    if n > 0 {
        lemma_filters_counted(list, (n - 1) as nat);
        let before = filters_of(list, (n - 1) as nat);
        let f = list[n - 1].filter;
        if model::met_before(list, n - 1) {
            let k = choose|k: int| 0 <= k < n - 1 && #[trigger] list[k].filter == f;
            assert(before.contains(f));
            assert(before.insert(f) =~= before);
        } else {
            if before.contains(f) {
                let k = choose|k: int| 0 <= k < n - 1 && (#[trigger] list[k]).filter == f;
                assert(model::met_before(list, n - 1));
            }
        }
        assert forall|g: Seq<char>| #[trigger]
            filters_of(list, n).contains(g) <==> exists|i: int|
                0 <= i < n && (#[trigger] list[i]).filter == g by {
            if before.contains(g) {
                let i = choose|i: int| 0 <= i < n - 1 && (#[trigger] list[i]).filter == g;
                assert(list[i].filter == g);
            }
            if g == f {
                assert(list[n - 1].filter == g);
            }
            if exists|i: int| 0 <= i < n && (#[trigger] list[i]).filter == g {
                let i = choose|i: int| 0 <= i < n && (#[trigger] list[i]).filter == g;
                if i < n - 1 {
                    assert(before.contains(g));
                }
            }
        }
    }
}

/// The clients with a subscription of their own that takes a message.
pub open spec fn own_receivers(b: BrokerView, source: Seq<char>, name: Seq<char>) -> Set<Seq<char>> {
    Set::new(
        |id: Seq<char>|
            b.clients.contains_key(id) && exists|k: int|
                0 <= k < b.clients[id].subscriptions.len() && is_own(
                    #[trigger] b.clients[id].subscriptions[k],
                ) && takes(b.clients[id].subscriptions[k], id, source, name),
    )
}

/// The shared filters that take a message.
pub open spec fn shared_receivers(b: BrokerView, source: Seq<char>, name: Seq<char>) -> Set<Seq<char>> {
    Set::new(
        |filter: Seq<char>|
            exists|id: Seq<char>, k: int| #[trigger] shares(b, source, name, filter, id, k),
    )
}

proof fn lemma_own_counted(b: BrokerView, ids: Seq<Seq<char>>, route: Route)
    requires
        text_order::ascending(ids),
        forall|i: int| 0 <= i < ids.len() ==> b.clients.contains_key(#[trigger] ids[i]),
    ensures
        ({
            let held = own_receivers(b, route.source, route.topic).intersect(ids.to_set());
            held.finite() && held.len() == model::own_targets(b, ids, route).len()
        }),
    decreases ids.len(),
{
    let all = own_receivers(b, route.source, route.topic);
    let held = all.intersect(ids.to_set());
    if ids.len() == 0 {
        assert(held =~= Set::empty());
    } else {
        let front = ids.drop_last();
        let last = ids.last();
        assert forall|i: int| 0 <= i < front.len() implies b.clients.contains_key(
            #[trigger] front[i],
        ) by {
            assert(front[i] == ids[i]);
        }
        assert forall|i: int, j: int| 0 <= i < j < front.len() implies text_order::text_less(
            #[trigger] front[i],
            #[trigger] front[j],
        ) by {
            assert(text_order::text_less(ids[i], ids[j]));
        }
        lemma_own_counted(b, front, route);
        law_own_subscriptions_that_take(b, route, last);
        assert(b.clients.contains_key(ids[ids.len() - 1]));
        assert(ids =~= front.push(last));
        let before = all.intersect(front.to_set());
        assert forall|id: Seq<char>| ids.to_set().contains(id) <==> front.to_set().contains(id)
            || id == last by {
            steps::lemma_push_contains(front, last, id);
        }
        if front.contains(last) {
            text_order::lemma_ascending_distinct(ids, front.index_of(last), ids.len() - 1);
        }
        if all.contains(last) {
            assert(held =~= before.insert(last));
            assert(!before.contains(last));
        } else {
            assert(held =~= before);
        }
    }
}

/// A message makes exactly one copy for each client with a subscription of its own
/// that takes it, and exactly one for each shared filter that takes it, however
/// many members the filter has.
pub proof fn law_number_of_copies(b: BrokerView, source: Seq<char>, p: PublicationView)
    requires
        integrity::broker_ok(b),
    ensures
        ({
            let route = Route { source, qos: p.qos, topic: p.topic };
            let own = own_receivers(b, source, p.topic);
            let shared = shared_receivers(b, source, p.topic);
            &&& own.finite()
            &&& shared.finite()
            &&& model::targets_of(b, route).1.len() == own.len() + shared.len()
        }),
{
    let route = Route { source, qos: p.qos, topic: p.topic };
    let ids = b.client_ids();
    let list = model::candidates(b, ids, route);
    integrity::lemma_clients_listed(b);
    text_order::lemma_in_order(b.clients.dom());
    lemma_own_counted(b, ids, route);
    let own = own_receivers(b, source, p.topic);
    assert(own.intersect(ids.to_set()) =~= own) by {
        assert forall|id: Seq<char>| own.contains(id) implies ids.to_set().contains(id) by {
            assert(ids.contains(id));
        }
    }
    lemma_filters_counted(list, list.len());
    lemma_candidates_asked(b, ids, source, p);
    let shared = shared_receivers(b, source, p.topic);
    assert(filters_of(list, list.len()) =~= shared) by {
        assert forall|f: Seq<char>| filters_of(list, list.len()).contains(f) <==> shared.contains(
            f,
        ) by {
            if filters_of(list, list.len()).contains(f) {
                let i = choose|i: int| 0 <= i < list.len() && (#[trigger] list[i]).filter == f;
                assert(member_asked(b, source, p, list[i]));
                let k = choose|k: int| #[trigger] member_at(b, source, p, list[i], k);
                assert(shares(b, source, p.topic, f, list[i].target.client_id, k));
            }
            if shared.contains(f) {
                let (id, k) = choose|id: Seq<char>, k: int| #[trigger]
                    shares(b, source, p.topic, f, id, k);
                assert(ids.contains(id));
                lemma_candidate_listed(b, ids, source, p, id, k);
                let i = list.index_of(member_of(b, p, id, k));
                assert(list[i].filter == f);
            }
        }
    }
    broker_laws::lemma_round_count(b.shared_cursors, list, list.len());
}

// What the broker keeps until it is acknowledged.

/// Whether a message is among those on their way to a client, under a packet
/// identifier.
pub open spec fn on_its_way(
    sent: Seq<DeliveryView>,
    id: Seq<char>,
    packet_id: u16,
    m: PublicationView,
) -> bool {
    m.packet_id == Some(packet_id) && sent.contains(DeliveryView { client_id: id, publication: m })
}

/// Whether a session has kept each unacknowledged message of another one, or taken
/// up in its place one that is on its way to the client, and has kept the messages
/// that it holds for its client.
pub open spec fn kept_or_sent(
    before: SessionView,
    after: SessionView,
    sent: Seq<DeliveryView>,
    id: Seq<char>,
) -> bool {
    &&& forall|n: u16| #[trigger]
        after.inflight_qos1.contains_key(n) ==> {
            ||| before.inflight_qos1.contains_key(n) && after.inflight_qos1[n]
                == before.inflight_qos1[n]
            ||| after.inflight_qos1[n].qos == 1 && on_its_way(
                sent,
                id,
                n,
                after.inflight_qos1[n],
            )
        }
    &&& forall|n: u16| #[trigger]
        after.inflight_qos2.contains_key(n) ==> {
            ||| before.inflight_qos2.contains_key(n) && after.inflight_qos2[n]
                == before.inflight_qos2[n]
            ||| after.inflight_qos2[n].publication.qos == 2 && after.inflight_qos2[n].state
                == Qos2OutboundState::WaitingPubRec && on_its_way(
                sent,
                id,
                n,
                after.inflight_qos2[n].publication,
            )
        }
    &&& forall|n: u16| #[trigger]
        before.inflight_qos1.contains_key(n) ==> after.inflight_qos1.contains_key(n)
    &&& forall|n: u16| #[trigger]
        before.inflight_qos2.contains_key(n) ==> after.inflight_qos2.contains_key(n)
    &&& after.inbound_qos2 == before.inbound_qos2
}

proof fn lemma_delivered_kept(
    b: BrokerView,
    p: PublicationView,
    targets: Seq<TargetView>,
    id: Seq<char>,
)
    ensures
        kept_or_sent(
            b.clients[id],
            model::delivered(b, p, targets).0.clients[id],
            model::delivered(b, p, targets).1,
            id,
        ),
    decreases targets.len(),
{
    if targets.len() > 0 {
        let front = targets.drop_last();
        let t = targets.last();
        lemma_delivered_kept(b, p, front, id);
        let (before, earlier) = model::delivered(b, p, front);
        let (after, sent) = model::delivered(b, p, targets);
        let copy = model::handed_over(before.clients[t.client_id], p, t).1;
        let d = DeliveryView { client_id: t.client_id, publication: copy };
        assert forall|m: PublicationView| #[trigger]
            earlier.contains(DeliveryView { client_id: id, publication: m })
            implies sent.contains(DeliveryView { client_id: id, publication: m }) by {
            steps::lemma_push_contains(earlier, d, DeliveryView { client_id: id, publication: m });
        }
        steps::lemma_push_contains(earlier, d, d);
        let x = before.clients[id];
        let y = after.clients[id];
        let start = b.clients[id];
        assert forall|n: u16| #[trigger] y.inflight_qos1.contains_key(n) implies {
            ||| start.inflight_qos1.contains_key(n) && y.inflight_qos1[n] == start.inflight_qos1[n]
            ||| y.inflight_qos1[n].qos == 1 && on_its_way(sent, id, n, y.inflight_qos1[n])
        } by {
            if x.inflight_qos1.contains_key(n) && y.inflight_qos1[n] == x.inflight_qos1[n] {
                let m = x.inflight_qos1[n];
                assert(earlier.contains(DeliveryView { client_id: id, publication: m })
                    ==> sent.contains(DeliveryView { client_id: id, publication: m }));
            }
        }
        assert forall|n: u16| #[trigger] y.inflight_qos2.contains_key(n) implies {
            ||| start.inflight_qos2.contains_key(n) && y.inflight_qos2[n] == start.inflight_qos2[n]
            ||| y.inflight_qos2[n].publication.qos == 2 && y.inflight_qos2[n].state
                == Qos2OutboundState::WaitingPubRec && on_its_way(
                sent,
                id,
                n,
                y.inflight_qos2[n].publication,
            )
        } by {
            if x.inflight_qos2.contains_key(n) && y.inflight_qos2[n] == x.inflight_qos2[n] {
                let m = x.inflight_qos2[n].publication;
                assert(earlier.contains(DeliveryView { client_id: id, publication: m })
                    ==> sent.contains(DeliveryView { client_id: id, publication: m }));
            }
        }
    }
}

/// Each copy is made once: with every client online a message is sent once for each client
/// with a subscription of its own that takes it and once for each shared filter that does;
/// with every client offline nothing is sent; and a queue grows by no more than one message
/// for its client and one for each shared filter.
pub proof fn law_copies_are_made_once(
    b: BrokerView,
    source: Seq<char>,
    p: PublicationView,
    id: Seq<char>,
)
    requires
        integrity::broker_ok(b),
        topic::is_topic_name(p.topic),
        p.qos <= 2,
        b.clients.contains_key(id),
    ensures
        ({
            let (after, result) = model::published(b, source, p);
            let own = own_receivers(b, source, p.topic);
            let shared = shared_receivers(b, source, p.topic);
            let grown = after.clients[id].queued.len() - b.clients[id].queued.len();
            &&& result.deliveries.len() <= own.len() + shared.len()
            &&& (forall|c: Seq<char>| #[trigger] b.clients.contains_key(c) ==> b.clients[c].online)
                ==> result.deliveries.len() == own.len() + shared.len()
            &&& (forall|c: Seq<char>| #[trigger] b.clients.contains_key(c) ==> !b.clients[c].online)
                ==> result.deliveries.len() == 0
            &&& 0 <= grown <= own.len() + shared.len() - result.deliveries.len()
        }),
{
    lemma_published_copies(b, source, p, id);
    law_number_of_copies(b, source, p);
    let targets = model::taken_in(b, source, p).1;
    let online = |t: TargetView| t.online;
    let waits = |t: TargetView| t.client_id == id && !t.online && t.qos > 0;
    lemma_split_counts(targets, online, waits);
    if forall|c: Seq<char>| #[trigger] b.clients.contains_key(c) ==> b.clients[c].online {
        assert forall|i: int| 0 <= i < targets.len() implies online(#[trigger] targets[i]) by {
            assert(asked_for(b, source, p, targets[i]));
        }
        steps::lemma_filter_all(targets, online);
    }
    if forall|c: Seq<char>| #[trigger] b.clients.contains_key(c) ==> !b.clients[c].online {
        if targets.filter(online).len() > 0 {
            let t = targets.filter(online)[0];
            assert(targets.filter(online).contains(t));
            steps::lemma_filter_contains(targets, online, t);
            let i = targets.index_of(t);
            assert(targets[i] == t);
            assert(asked_for(b, source, p, targets[i]));
        }
    }
}

/// A shared subscription takes exactly the messages that a subscription to the filter
/// behind its group takes.
pub proof fn law_shared_takes_what_its_filter_takes(
    s: SubscriptionView,
    group: Seq<char>,
    filter: Seq<char>,
    client_id: Seq<char>,
    source: Seq<char>,
    name: Seq<char>,
)
    requires
        group.len() > 0,
        filter.len() > 0,
        !vstd::utf8::encode_utf8(group).contains(0x2F),
        topic::shared_parts(filter) is None,
        vstd::utf8::encode_utf8(s.filter) == seq![
            0x24u8,
            0x73u8,
            0x68u8,
            0x61u8,
            0x72u8,
            0x65u8,
            0x2Fu8,
        ] + vstd::utf8::encode_utf8(group) + seq![0x2Fu8] + vstd::utf8::encode_utf8(filter),
    ensures
        !is_own(s),
        takes(s, client_id, source, name) == takes(
            SubscriptionView { filter, ..s },
            client_id,
            source,
            name,
        ),
{
    topic_laws::law_shared_filters_are_told_by_their_parts(s.filter, group, filter);
}

/// Whether a message went to one subscription alone: once to its client where that is
/// online, and into no queue, or into its queue where it is offline, and to nobody else.
pub open spec fn one_copy(
    b: BrokerView,
    source: Seq<char>,
    p: PublicationView,
    id: Seq<char>,
    other: Seq<char>,
    j: int,
) -> bool {
    let (after, result) = model::published(b, source, p);
    let s = b.clients[other].subscriptions[j];
    if b.clients[other].online {
        &&& result.deliveries.len() == 1
        &&& result.deliveries[0].client_id == other
        &&& result.deliveries[0].publication == brought(
            b,
            s,
            p,
            result.deliveries[0].publication.packet_id,
        )
        &&& after.clients[id].queued == b.clients[id].queued
    } else {
        qos_for(b.upgrade_outgoing_qos, p.qos, s.qos) > 0 ==> {
            let queue = after.clients[other].queued;
            &&& result.deliveries.len() == 0
            &&& queue.len() == b.clients[other].queued.len() + 1
            &&& queue.last() == brought(b, s, p, queue.last().packet_id)
        }
    }
}

/// Where one shared filter takes a message, and no subscription of a client's own does,
/// exactly one member of the group gets it, once.
pub proof fn law_group_gets_one_copy(
    b: BrokerView,
    source: Seq<char>,
    p: PublicationView,
    filter: Seq<char>,
    id: Seq<char>,
)
    requires
        integrity::broker_ok(b),
        topic::is_topic_name(p.topic),
        p.qos <= 2,
        own_receivers(b, source, p.topic) == Set::<Seq<char>>::empty(),
        shared_receivers(b, source, p.topic) == set![filter],
        b.clients.contains_key(id),
    ensures
        exists|other: Seq<char>, j: int| #[trigger]
            shares(b, source, p.topic, filter, other, j) && one_copy(b, source, p, id, other, j),
{
    assert(shared_receivers(b, source, p.topic).contains(filter));
    let (c, k) = choose|c: Seq<char>, k: int| #[trigger]
        shares(b, source, p.topic, filter, c, k);
    law_shared_filter_hands_the_message_to_a_member(b, source, p, c, k);
    let (other, j) = choose|other: Seq<char>, j: int| #[trigger]
        shares(b, source, p.topic, b.clients[c].subscriptions[k].filter, other, j) && handed(
            b,
            source,
            p,
            other,
            j,
        );
    let (after, result) = model::published(b, source, p);
    law_copies_are_made_once(b, source, p, id);
    law_copies_are_made_once(b, source, p, other);
    law_copies_are_brought_by_subscriptions(b, source, p, id);
    law_copies_are_brought_by_subscriptions(b, source, p, other);
    assert(own_receivers(b, source, p.topic).len() == 0);
    assert(shared_receivers(b, source, p.topic).len() == 1);
    if b.clients[other].online {
        let queue = after.clients[id].queued;
        assert(queue.take(queue.len() as int) =~= queue);
    }
    assert(one_copy(b, source, p, id, other, j));
}

proof fn lemma_split_counts(
    list: Seq<TargetView>,
    one: spec_fn(TargetView) -> bool,
    two: spec_fn(TargetView) -> bool,
)
    requires
        forall|t: TargetView| !(#[trigger] one(t) && two(t)),
    ensures
        list.filter(one).len() + list.filter(two).len() <= list.len(),
    decreases list.len(),
{
    if list.len() == 0 {
        steps::lemma_filter_empty(one);
        steps::lemma_filter_empty(two);
        assert(list =~= Seq::empty());
    } else {
        let front = list.drop_last();
        lemma_split_counts(front, one, two);
        steps::lemma_filter_push(front, list.last(), one);
        steps::lemma_filter_push(front, list.last(), two);
        assert(front.push(list.last()) =~= list);
        assert(!(one(list.last()) && two(list.last())));
    }
}

/// What a publish leaves unacknowledged is what was unacknowledged before and what
/// it has sent, message for message: a QoS 1 message waits for PUBACK, a QoS 2
/// message for PUBREC. Every message that it has sent with a QoS above 0 waits, and
/// nothing else of a session changes but its queue and its next packet identifier.
pub proof fn law_what_is_sent_is_kept_until_acknowledged(
    b: BrokerView,
    source: Seq<char>,
    p: PublicationView,
    id: Seq<char>,
)
    requires
        integrity::broker_ok(b),
        b.clients.contains_key(id),
    ensures
        ({
            let (after, result) = model::published(b, source, p);
            let before = b.clients[id];
            let session = after.clients[id];
            &&& after.clients.dom() == b.clients.dom()
            &&& kept_or_sent(before, session, result.deliveries, id)
            &&& forall|i: int|
                0 <= i < result.deliveries.len() ==> broker_laws::is_outstanding(
                    after,
                    #[trigger] result.deliveries[i],
                )
            &&& session == (SessionView {
                queued: session.queued,
                inflight_qos1: session.inflight_qos1,
                inflight_qos2: session.inflight_qos2,
                next_outgoing_mid: session.next_outgoing_mid,
                ..before
            })
            &&& after.upgrade_outgoing_qos == b.upgrade_outgoing_qos
            &&& after.next_subscription_order == b.next_subscription_order
        }),
{
    integrity::law_publish_keeps_order(b, source, p);
    if model::valid_publication(p) {
        broker_laws::law_published_message_is_delivered(b, source, p);
        integrity::lemma_taken_in_ok(b, source, p);
        let (kept, targets) = model::taken_in(b, source, p);
        lemma_delivered_kept(kept, model::plain_of(p), targets, id);
        integrity::lemma_delivered_ok(kept, model::plain_of(p), targets);
        assert(broker_laws::only_grown(
            b.clients[id],
            model::published(b, source, p).0.clients[id],
        ));
    }
}

/// The retained messages after a publish: a message with the retain flag is the
/// retained message of its topic, as it was published but without a packet
/// identifier and subscription identifiers, an empty one leaves none there, and the
/// messages of all other topics stay as they were. A message without the flag, and
/// one that is refused, changes none.
pub proof fn law_what_is_retained(
    b: BrokerView,
    source: Seq<char>,
    p: PublicationView,
    name: Seq<char>,
)
    requires
        integrity::broker_ok(b),
    ensures
        ({
            let before = b.retained;
            let after = model::published(b, source, p).0.retained;
            let taken = topic::is_topic_name(p.topic) && p.qos <= 2;
            &&& taken && p.retain && name == p.topic ==> {
                &&& after.contains_key(name) <==> p.payload.len() > 0
                &&& p.payload.len() > 0 ==> after[name] == (PublicationView {
                    topic: p.topic,
                    payload: p.payload,
                    qos: p.qos,
                    retain: true,
                    packet_id: None,
                    dup: p.dup,
                    topic_alias: p.topic_alias,
                    payload_format_indicator: p.payload_format_indicator,
                    response_topic: p.response_topic,
                    correlation_data: p.correlation_data,
                    subscription_identifiers: Seq::empty(),
                })
            }
            &&& !taken || !p.retain || name != p.topic ==> {
                &&& after.contains_key(name) <==> before.contains_key(name)
                &&& before.contains_key(name) ==> after[name] == before[name]
            }
        }),
{
    if model::valid_publication(p) {
        integrity::lemma_taken_in_ok(b, source, p);
        let (kept, targets) = model::taken_in(b, source, p);
        integrity::lemma_delivered_ok(kept, model::plain_of(p), targets);
    }
}

} // verus!
