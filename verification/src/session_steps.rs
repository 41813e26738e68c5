//! The steps of a single session: packet identifiers, acknowledgements, coming
//! back, subscribing, and what is persisted.

use std::collections::BTreeMap;

use vstd::prelude::*;

use crate::integrity;
use crate::model;
use crate::packet;
use crate::packet::{Publication, SubscriptionRequest, Will};
use crate::packet_ids;
use crate::packet_ids::packet_ids;
use crate::session;
use crate::session::{
    ClientSession, PersistedSession, Qos2Outbound, Qos2OutboundState, Subscription,
};
use crate::steps;
use crate::text::same_text;
use crate::topic::{check_publish_topic, check_subscribe_topic};

verus! {

/// Whether the broker routes a message.
pub fn valid_publication(publication: &Publication) -> (valid: bool)
    ensures
        valid == model::valid_publication(publication@),
{
    publication.qos <= 2 && check_publish_topic(publication.topic.as_str()).is_ok()
}

/// Whether a subscription identifier is not zero.
fn valid_identifier(identifier: Option<u32>) -> (valid: bool)
    ensures
        valid == model::valid_identifier(identifier),
{
    match identifier {
        Some(n) => n > 0,
        None => true,
    }
}

/// Whether the broker keeps a subscription.
pub fn valid_subscription(subscription: &Subscription) -> (valid: bool)
    ensures
        valid == model::valid_subscription(subscription@),
{
    check_subscribe_topic(subscription.filter.as_str()).is_ok() && subscription.qos <= 2
        && subscription.retain_handling <= 2 && valid_identifier(subscription.identifier)
}

/// Whether the broker grants a request.
fn valid_request(request: &SubscriptionRequest) -> (valid: bool)
    ensures
        valid == model::valid_request(request@),
{
    check_subscribe_topic(request.filter.as_str()).is_ok() && request.qos <= 2
        && request.retain_handling <= 2 && valid_identifier(request.identifier)
}

/// The QoS with which a message goes to a subscriber.
pub fn delivery_qos(upgrade: bool, publish_qos: u8, subscription_qos: u8) -> (qos: u8)
    ensures
        qos == model::delivery_qos(upgrade, publish_qos, subscription_qos),
{
    if upgrade || subscription_qos <= publish_qos {
        subscription_qos
    } else {
        publish_qos
    }
}

/// The packet identifier that follows the greatest one in use.
fn next_after_packet_id(max_packet_id: Option<u16>) -> (mid: u16)
    ensures
        mid == model::mid_after(max_packet_id),
{
    match max_packet_id {
        None => 1,
        Some(packet_id) => if packet_id == 0xFFFF {
            1
        } else {
            packet_id + 1
        },
    }
}

/// Gives out a packet identifier of a session.
pub fn next_packet_id(session: &mut ClientSession) -> (packet_id: u16)
    ensures
        packet_id == old(session).next_outgoing_mid,
        final(session)@ == model::mid_taken(old(session)@),
{
    let packet_id: u16 = session.next_outgoing_mid;
    session.next_outgoing_mid = if packet_id == 0xFFFF {
        1
    } else {
        packet_id + 1
    };
    packet_id
}

/// Keeps a message that is handed to the client of a session until the client
/// has acknowledged it.
pub fn track_outgoing(session: &mut ClientSession, publication: &Publication)
    ensures
        final(session)@ == model::outstanding(old(session)@, publication@),
{
    broadcast use vstd::std_specs::btree::group_btree_axioms;

    if let Some(packet_id) = publication.packet_id {
        let copy = publication.clone();
        if publication.qos == 1 {
            let ghost before = session.inflight_qos1@;
            session.inflight_qos1.insert(packet_id, copy);
            assert(session::inflight_view(session.inflight_qos1@) =~= session::inflight_view(
                before,
            ).insert(packet_id, publication@));
        } else if publication.qos == 2 {
            let ghost before = session.inflight_qos2@;
            let outbound = Qos2Outbound {
                publication: copy,
                state: Qos2OutboundState::WaitingPubRec,
            };
            session.inflight_qos2.insert(packet_id, outbound);
            assert(session::outbound_view(session.inflight_qos2@) =~= session::outbound_view(
                before,
            ).insert(packet_id, outbound@));
        }
    }
}

/// A session that starts from nothing.
pub fn new_session(client_id: String) -> (session: ClientSession)
    ensures
        session@ == model::fresh_session(client_id@),
{
    broadcast use vstd::std_specs::btree::group_btree_axioms;

    let session = ClientSession {
        client_id,
        subscriptions: Vec::new(),
        will: None,
        queued: Vec::new(),
        inflight_qos1: BTreeMap::new(),
        inflight_qos2: BTreeMap::new(),
        inbound_qos2: BTreeMap::new(),
        session_expiry_interval: 0,
        disconnected_at: None,
        online: false,
        next_outgoing_mid: 1,
    };
    assert(session@ =~= model::fresh_session(client_id@));
    session
}

/// Marks each unacknowledged QoS 1 message as sent again, and gives copies of
/// them in the order of their packet identifiers.
fn repeat_qos1(map: &mut BTreeMap<u16, Publication>) -> (pending: Vec<Publication>)
    ensures
        session::inflight_view(final(map)@) == session::inflight_view(old(map)@).map_values(
            |p: packet::PublicationView| model::repeated(p),
        ),
        packet::publication_views(pending@) == model::repeated_qos1(
            session::inflight_view(old(map)@),
        ),
{
    broadcast use vstd::std_specs::btree::group_btree_axioms;

    let ids = packet_ids(map);
    let ghost start = map@;
    let ghost views = session::inflight_view(start);
    let mut pending: Vec<Publication> = Vec::new();
    let mut i: usize = 0;
    proof {
        packet_ids::lemma_ascending_ids(start.dom());
        assert(views.dom() =~= start.dom());
    }
    while i < ids.len()
        invariant
            i <= ids@.len(),
            views == session::inflight_view(start),
            ids@ == packet_ids::ascending_ids(start.dom()),
            forall|k: int| 0 <= k < ids@.len() ==> start.contains_key(#[trigger] ids@[k]),
            forall|j: int, k: int|
                0 <= j < k < ids@.len() ==> (#[trigger] ids@[j]) < (#[trigger] ids@[k]),
            map@.dom() == start.dom(),
            forall|k: int|
                0 <= k < i ==> map@[#[trigger] ids@[k]]@ == model::repeated(start[ids@[k]]@),
            forall|k: int| i <= k < ids@.len() ==> map@[#[trigger] ids@[k]] == start[ids@[k]],
            pending@.len() == i,
            forall|k: int|
                0 <= k < i ==> (#[trigger] pending@[k])@ == model::repeated(start[ids@[k]]@),
        decreases ids@.len() - i,
    {
        let id: u16 = ids[i];
        if let Some(publication) = map.remove(&id) {
            let mut publication = publication;
            publication.dup = true;
            assert(publication@ =~= model::repeated(start[id]@));
            pending.push(publication.clone());
            map.insert(id, publication);
        }
        assert(map@.dom() =~= start.dom());
        i = i + 1;
    }
    proof {
        let expected = views.map_values(|p: packet::PublicationView| model::repeated(p));
        assert forall|id: u16| #[trigger] start.contains_key(id) implies map@[id]@
            == expected[id] by {
            assert(ids@.contains(id));
            assert(ids@[ids@.index_of(id)] == id);
        }
        assert(session::inflight_view(map@) =~= expected);
        assert(packet::publication_views(pending@) =~= model::repeated_qos1(views));
    }
    pending
}

/// Marks each QoS 2 message that its client has not received as sent again,
/// and gives copies of them in the order of their packet identifiers.
fn repeat_qos2(map: &mut BTreeMap<u16, Qos2Outbound>) -> (pending: Vec<Publication>)
    ensures
        session::outbound_view(final(map)@) == session::outbound_view(old(map)@).map_values(
            |o: session::OutboundView| model::outbound_repeated(o),
        ),
        packet::publication_views(pending@) == model::repeated_qos2(
            session::outbound_view(old(map)@),
        ),
{
    broadcast use vstd::std_specs::btree::group_btree_axioms;

    let ids = packet_ids(map);
    let ghost start = map@;
    let ghost views = session::outbound_view(start);
    let ghost waits = |id: u16| views[id].state == Qos2OutboundState::WaitingPubRec;
    let ghost copies = |id: u16| model::repeated(views[id].publication);
    let mut pending: Vec<Publication> = Vec::new();
    let mut i: usize = 0;
    proof {
        packet_ids::lemma_ascending_ids(start.dom());
        assert(views.dom() =~= start.dom());
        steps::lemma_filter_empty(waits);
        assert(ids@.take(0) =~= Seq::empty());
        assert(packet::publication_views(pending@) =~= ids@.take(0).filter(waits).map_values(
            copies,
        ));
    }
    while i < ids.len()
        invariant
            i <= ids@.len(),
            views == session::outbound_view(start),
            waits == (|id: u16| views[id].state == Qos2OutboundState::WaitingPubRec),
            copies == (|id: u16| model::repeated(views[id].publication)),
            ids@ == packet_ids::ascending_ids(start.dom()),
            forall|k: int| 0 <= k < ids@.len() ==> start.contains_key(#[trigger] ids@[k]),
            forall|j: int, k: int|
                0 <= j < k < ids@.len() ==> (#[trigger] ids@[j]) < (#[trigger] ids@[k]),
            map@.dom() == start.dom(),
            forall|k: int|
                0 <= k < i ==> map@[#[trigger] ids@[k]]@ == model::outbound_repeated(
                    start[ids@[k]]@,
                ),
            forall|k: int| i <= k < ids@.len() ==> map@[#[trigger] ids@[k]] == start[ids@[k]],
            packet::publication_views(pending@) == ids@.take(i as int).filter(waits).map_values(
                copies,
            ),
        decreases ids@.len() - i,
    {
        let id: u16 = ids[i];
        let ghost before = pending@;
        if let Some(outbound) = map.remove(&id) {
            let mut outbound = outbound;
            if outbound.state == Qos2OutboundState::WaitingPubRec {
                outbound.publication.dup = true;
                assert(outbound.publication@ =~= model::repeated(views[id].publication));
                pending.push(outbound.publication.clone());
                assert(packet::publication_views(pending@) =~= packet::publication_views(
                    before,
                ).push(copies(id)));
            }
            assert(outbound@ =~= model::outbound_repeated(start[id]@));
            map.insert(id, outbound);
        }
        proof {
            assert(map@.dom() =~= start.dom());
            steps::lemma_filter_next(ids@, i as int, waits);
            assert(packet::publication_views(pending@) =~= ids@.take(i + 1).filter(
                waits,
            ).map_values(copies));
        }
        i = i + 1;
    }
    proof {
        let expected = views.map_values(|o: session::OutboundView| model::outbound_repeated(o));
        assert forall|id: u16| #[trigger] start.contains_key(id) implies map@[id]@
            == expected[id] by {
            assert(ids@.contains(id));
            assert(ids@[ids@.index_of(id)] == id);
        }
        assert(session::outbound_view(map@) =~= expected);
        assert(ids@.take(i as int) =~= ids@);
        assert(packet::publication_views(pending@) =~= model::repeated_qos2(views));
    }
    pending
}

/// The QoS 2 messages that their client has received and not completed, by
/// packet identifier.
fn ids_to_release(map: &BTreeMap<u16, Qos2Outbound>) -> (released: Vec<u16>)
    ensures
        released@ == model::ids_waiting(
            session::outbound_view(map@),
            Qos2OutboundState::WaitingPubComp,
        ),
{
    broadcast use vstd::std_specs::btree::group_btree_axioms;

    let ids = packet_ids(map);
    let ghost views = session::outbound_view(map@);
    let ghost waits = |id: u16| views[id].state == Qos2OutboundState::WaitingPubComp;
    let mut released: Vec<u16> = Vec::new();
    let mut i: usize = 0;
    proof {
        packet_ids::lemma_ascending_ids(map@.dom());
        assert(views.dom() =~= map@.dom());
        steps::lemma_filter_empty(waits);
        assert(ids@.take(0) =~= Seq::empty());
    }
    while i < ids.len()
        invariant
            i <= ids@.len(),
            views == session::outbound_view(map@),
            waits == (|id: u16| views[id].state == Qos2OutboundState::WaitingPubComp),
            forall|k: int| 0 <= k < ids@.len() ==> map@.contains_key(#[trigger] ids@[k]),
            released@ == ids@.take(i as int).filter(waits),
        decreases ids@.len() - i,
    {
        let id: u16 = ids[i];
        if let Some(outbound) = map.get(&id) {
            if outbound.state == Qos2OutboundState::WaitingPubComp {
                released.push(id);
            }
        }
        proof {
            steps::lemma_filter_next(ids@, i as int, waits);
        }
        i = i + 1;
    }
    assert(ids@.take(i as int) =~= ids@);
    released
}

/// Brings a session back to life for its client, and gives the messages that
/// are to be sent again or for the first time, and the packet identifiers of
/// those that are to be released again.
pub fn resume(session: &mut ClientSession, will: Option<Will>, session_expiry_interval: u32) -> (r:
    (Vec<Publication>, Vec<u16>))
    ensures
        final(session)@ == model::resumed(
            old(session)@,
            packet::will_view(will),
            session_expiry_interval,
        ),
        packet::publication_views(r.0@) == model::repeated_qos1(old(session)@.inflight_qos1)
            + model::repeated_qos2(old(session)@.inflight_qos2) + old(session)@.queued,
        r.1@ == model::ids_waiting(
            old(session)@.inflight_qos2,
            Qos2OutboundState::WaitingPubComp,
        ),
{
    let ghost start = session@;
    session.will = will;
    session.session_expiry_interval = session_expiry_interval;
    session.disconnected_at = None;
    session.online = true;
    let released = ids_to_release(&session.inflight_qos2);
    let mut pending = repeat_qos1(&mut session.inflight_qos1);
    let mut again = repeat_qos2(&mut session.inflight_qos2);
    let ghost first = packet::publication_views(pending@);
    let ghost second = packet::publication_views(again@);
    pending.append(&mut again);
    assert(packet::publication_views(pending@) =~= first + second);

    let mut queued: Vec<Publication> = Vec::new();
    queued.append(&mut session.queued);
    assert(packet::publication_views(queued@) =~= start.queued);
    assert(packet::publication_views(session.queued@) =~= Seq::empty());
    let ghost base = session@;
    let mut i: usize = 0;
    assert(start.queued.take(0) =~= Seq::empty());
    while i < queued.len()
        invariant
            i <= queued@.len(),
            packet::publication_views(queued@) == start.queued,
            session@ == model::all_outstanding(base, start.queued.take(i as int)),
        decreases queued@.len() - i,
    {
        proof {
            steps::lemma_take_next(start.queued, i as int);
            assert(start.queued[i as int] == queued@[i as int]@);
        }
        track_outgoing(session, &queued[i]);
        i = i + 1;
    }
    assert(start.queued.take(i as int) =~= start.queued);
    let ghost shown = packet::publication_views(pending@);
    pending.append(&mut queued);
    assert(packet::publication_views(pending@) =~= shown + start.queued);
    (pending, released)
}

/// Where a list holds a subscription to a filter.
fn find_subscription(list: &Vec<Subscription>, filter: &str) -> (place: Option<usize>)
    ensures
        match place {
            Some(i) => model::subscribed(session::subscription_views(list@), filter@) && i
                == model::place_of(session::subscription_views(list@), filter@) && i < list@.len(),
            None => {
                &&& !model::subscribed(session::subscription_views(list@), filter@)
                &&& forall|k: int| 0 <= k < list@.len() ==> (#[trigger] list@[k])@.filter != filter@
            },
        },
{
    let ghost views = session::subscription_views(list@);
    let mut i: usize = 0;
    while i < list.len()
        invariant
            i <= list@.len(),
            views == session::subscription_views(list@),
            forall|k: int| 0 <= k < i ==> (#[trigger] list@[k])@.filter != filter@,
        decreases list@.len() - i,
    {
        if same_text(list[i].filter.as_str(), filter) {
            proof {
                assert forall|k: int| 0 <= k < i implies (#[trigger] views[k]).filter
                    != filter@ by {
                    assert(list@[k]@.filter != filter@);
                }
                assert(model::subscribed_at(views, filter@, i as int));
                let place = model::place_of(views, filter@);
                assert(model::subscribed_at(views, filter@, place));
                if place < i {
                    assert(views[place].filter == filter@);
                } else if i < place {
                    assert(views[i as int].filter == filter@);
                }
            }
            return Some(i);
        }
        i = i + 1;
    }
    proof {
        if model::subscribed(views, filter@) {
            let place = model::place_of(views, filter@);
            assert(model::subscribed_at(views, filter@, place));
            assert(list@[place]@.filter != filter@);
        }
    }
    None
}

/// What a SUBSCRIBE packet has done to a session.
pub struct Taken {
    pub next_subscription_order: u64,
    pub reason_codes: Vec<u8>,
    pub replays: Vec<Subscription>,
}

/// Takes the requests of a SUBSCRIBE packet into a session.
pub fn take_requests(
    session: &mut ClientSession,
    next_subscription_order: u64,
    requests: &Vec<SubscriptionRequest>,
) -> (taken: Taken)
    requires
        next_subscription_order + model::new_subscriptions(
            old(session)@.subscriptions,
            packet::request_views(requests@),
        ) <= u64::MAX,
    ensures
        ({
            let expected = model::requests_taken(
                old(session)@.subscriptions,
                next_subscription_order,
                packet::request_views(requests@),
            );
            &&& taken.next_subscription_order == expected.next_subscription_order
            &&& taken.reason_codes@ == expected.reason_codes
            &&& session::subscription_views(taken.replays@) == expected.replays
            &&& final(session)@ == (session::SessionView {
                subscriptions: expected.subscriptions,
                ..old(session)@
            })
        }),
{
    let ghost start = session@;
    let ghost asked = packet::request_views(requests@);
    let mut order: u64 = next_subscription_order;
    let mut reason_codes: Vec<u8> = Vec::new();
    let mut replays: Vec<Subscription> = Vec::new();
    let mut i: usize = 0;
    proof {
        assert(asked.take(0) =~= Seq::empty());
        assert(session::subscription_views(replays@) =~= Seq::empty());
    }
    while i < requests.len()
        invariant
            i <= requests@.len(),
            next_subscription_order + model::new_subscriptions(start.subscriptions, asked)
                <= u64::MAX,
            asked == packet::request_views(requests@),
            order == next_subscription_order + model::new_subscriptions(
                start.subscriptions,
                asked.take(i as int),
            ),
            ({
                let at = model::requests_taken(
                    start.subscriptions,
                    next_subscription_order,
                    asked.take(i as int),
                );
                &&& order == at.next_subscription_order
                &&& reason_codes@ == at.reason_codes
                &&& session::subscription_views(replays@) == at.replays
                &&& session@ == (session::SessionView { subscriptions: at.subscriptions, ..start })
            }),
        decreases requests@.len() - i,
    {
        let request = &requests[i];
        let ghost list = session.subscriptions@;
        let ghost shown = replays@;
        proof {
            steps::lemma_take_next(asked, i as int);
            assert(asked[i as int] == request@);
            integrity::lemma_requests_subscribed(
                start.subscriptions,
                next_subscription_order,
                asked.take(i as int),
                request@.filter,
            );
            integrity::lemma_new_subscriptions_front(start.subscriptions, asked, i + 1);
        }
        if !valid_request(request) {
            reason_codes.push(model::REQUEST_REFUSED);
        } else {
            let place = find_subscription(&session.subscriptions, request.filter.as_str());
            let subscription = Subscription {
                filter: request.filter.clone(),
                qos: request.qos,
                no_local: request.no_local,
                retain_as_published: request.retain_as_published,
                retain_handling: request.retain_handling,
                identifier: request.identifier,
                order: match place {
                    Some(k) => session.subscriptions[k].order,
                    None => order,
                },
            };
            let copy = subscription.clone();
            let existed: bool = match place {
                Some(k) => {
                    session.subscriptions.set(k, subscription);
                    assert(session::subscription_views(session.subscriptions@)
                        =~= session::subscription_views(list).update(k as int, copy@));
                    true
                },
                None => {
                    session.subscriptions.push(subscription);
                    order = order + 1;
                    assert(session::subscription_views(session.subscriptions@)
                        =~= session::subscription_views(list).push(copy@));
                    false
                },
            };
            reason_codes.push(request.qos);
            if request.retain_handling == 0 || (request.retain_handling == 1 && !existed) {
                replays.push(copy);
                assert(session::subscription_views(replays@) =~= session::subscription_views(
                    shown,
                ).push(copy@));
            }
        }
        i = i + 1;
    }
    assert(asked.take(i as int) =~= asked);
    Taken { next_subscription_order: order, reason_codes, replays }
}

/// Hands a retained message to a new subscription of a session.
pub fn replay(
    session: &mut ClientSession,
    upgrade: bool,
    subscription: &Subscription,
    publication: &Publication,
) -> (copy: Publication)
    ensures
        (final(session)@, copy@) == model::replayed(
            old(session)@,
            upgrade,
            subscription@,
            publication@,
        ),
{
    let mut copy = publication.clone();
    copy.qos = delivery_qos(upgrade, publication.qos, subscription.qos);
    copy.retain = !subscription.retain_as_published || publication.retain;
    copy.subscription_identifiers = match subscription.identifier {
        Some(identifier) => vec![identifier],
        None => Vec::new(),
    };
    if copy.qos > 0 {
        copy.packet_id = Some(next_packet_id(session));
    }
    track_outgoing(session, &copy);
    assert(copy@ =~= model::replayed(old(session)@, upgrade, subscription@, publication@).1);
    copy
}

/// The message as it is taken over from an earlier run.
fn take_over(publication: Publication) -> (kept: Publication)
    ensures
        kept@ == model::taken_over(publication@),
{
    let ghost keep = |n: u32| n > 0;
    let ghost start = publication@;
    let mut identifiers: Vec<u32> = Vec::new();
    let mut i: usize = 0;
    proof {
        steps::lemma_filter_empty(keep);
        assert(start.subscription_identifiers.take(0) =~= Seq::empty());
    }
    while i < publication.subscription_identifiers.len()
        invariant
            i <= publication.subscription_identifiers@.len(),
            start.subscription_identifiers == publication.subscription_identifiers@,
            keep == (|n: u32| n > 0),
            identifiers@ == start.subscription_identifiers.take(i as int).filter(keep),
        decreases publication.subscription_identifiers@.len() - i,
    {
        let identifier: u32 = publication.subscription_identifiers[i];
        if identifier > 0 {
            identifiers.push(identifier);
        }
        proof {
            steps::lemma_filter_next(start.subscription_identifiers, i as int, keep);
        }
        i = i + 1;
    }
    assert(start.subscription_identifiers.take(i as int) =~= start.subscription_identifiers);
    let mut kept = publication;
    kept.topic_alias = None;
    kept.subscription_identifiers = identifiers;
    assert(kept@ =~= model::taken_over(start));
    kept
}

/// A queued message as it is taken over, where it is.
fn valid_queued_publication(publication: Publication) -> (kept: Option<Publication>)
    ensures
        match kept {
            Some(p) => model::keeps_queued(publication@) && p@ == model::taken_over(publication@),
            None => !model::keeps_queued(publication@),
        },
{
    if publication.qos == 0 || publication.packet_id.is_none() || !valid_publication(&publication) {
        return None;
    }
    Some(take_over(publication))
}

/// A message that is not acknowledged as it is taken over, where it is.
fn valid_inflight_publication(publication: Publication, expected_qos: u8) -> (kept: Option<
    Publication,
>)
    ensures
        match kept {
            Some(p) => model::keeps_inflight(publication@, expected_qos) && p@ == model::taken_over(
                publication@,
            ),
            None => !model::keeps_inflight(publication@, expected_qos),
        },
{
    if publication.qos != expected_qos || publication.packet_id.is_none() || !valid_publication(
        &publication,
    ) {
        return None;
    }
    Some(take_over(publication))
}

/// Keeps the greatest packet identifier that was seen.
fn record_packet_id(max_packet_id: &mut Option<u16>, packet_id: u16)
    ensures
        *final(max_packet_id) == model::greater_id(*old(max_packet_id), packet_id),
{
    let greater: u16 = match *max_packet_id {
        Some(max) => if max > packet_id {
            max
        } else {
            packet_id
        },
        None => packet_id,
    };
    *max_packet_id = Some(greater);
}

proof fn lemma_highest_push(
    highest: Option<u16>,
    list: Seq<packet::PublicationView>,
    p: packet::PublicationView,
)
    ensures
        model::highest_id(highest, list.push(p)) == model::greater_id(
            model::highest_id(highest, list),
            p.packet_id->0,
        ),
        model::by_packet_id(list.push(p)) == model::by_packet_id(list).insert(p.packet_id->0, p),
{
    assert(list.push(p).drop_last() =~= list);
}

/// Takes over the queued messages of a session.
fn restore_queued(list: &Vec<Publication>, highest: &mut Option<u16>) -> (kept: Vec<Publication>)
    ensures
        packet::publication_views(kept@) == model::queue_taken_over(
            packet::publication_views(list@),
        ),
        *final(highest) == model::highest_id(
            *old(highest),
            model::queue_taken_over(packet::publication_views(list@)),
        ),
{
    let ghost start = *highest;
    let ghost views = packet::publication_views(list@);
    let ghost keep = |p: packet::PublicationView| model::keeps_queued(p);
    let mut kept: Vec<Publication> = Vec::new();
    let mut i: usize = 0;
    proof {
        steps::lemma_filter_empty(keep);
        assert(views.take(0) =~= Seq::empty());
        assert(model::queue_taken_over(views.take(0)) =~= Seq::empty());
        assert(packet::publication_views(kept@) =~= Seq::empty());
    }
    while i < list.len()
        invariant
            i <= list@.len(),
            views == packet::publication_views(list@),
            keep == (|p: packet::PublicationView| model::keeps_queued(p)),
            packet::publication_views(kept@) == model::queue_taken_over(views.take(i as int)),
            *highest == model::highest_id(start, model::queue_taken_over(views.take(i as int))),
        decreases list@.len() - i,
    {
        let ghost before = model::queue_taken_over(views.take(i as int));
        proof {
            steps::lemma_filter_next(views, i as int, keep);
            assert(views[i as int] == list@[i as int]@);
        }
        if let Some(publication) = valid_queued_publication(list[i].clone()) {
            if let Some(packet_id) = publication.packet_id {
                record_packet_id(highest, packet_id);
            }
            let ghost p = publication@;
            kept.push(publication);
            proof {
                assert(packet::publication_views(kept@) =~= before.push(p));
                assert(model::queue_taken_over(views.take(i + 1)) =~= before.push(p));
                lemma_highest_push(start, before, p);
            }
        }
        i = i + 1;
    }
    assert(views.take(i as int) =~= views);
    kept
}

/// Takes over the unacknowledged messages of a session that have a QoS.
fn restore_inflight(list: &Vec<Publication>, qos: u8, highest: &mut Option<u16>) -> (kept: BTreeMap<
    u16,
    Publication,
>)
    ensures
        session::inflight_view(kept@) == model::by_packet_id(
            model::inflight_taken_over(packet::publication_views(list@), qos),
        ),
        *final(highest) == model::highest_id(
            *old(highest),
            model::inflight_taken_over(packet::publication_views(list@), qos),
        ),
{
    broadcast use vstd::std_specs::btree::group_btree_axioms;

    let ghost start = *highest;
    let ghost views = packet::publication_views(list@);
    let ghost keep = |p: packet::PublicationView| model::keeps_inflight(p, qos);
    let mut kept: BTreeMap<u16, Publication> = BTreeMap::new();
    let mut i: usize = 0;
    proof {
        steps::lemma_filter_empty(keep);
        assert(views.take(0) =~= Seq::empty());
        assert(model::inflight_taken_over(views.take(0), qos) =~= Seq::empty());
        assert(session::inflight_view(kept@) =~= Map::empty());
    }
    while i < list.len()
        invariant
            i <= list@.len(),
            views == packet::publication_views(list@),
            keep == (|p: packet::PublicationView| model::keeps_inflight(p, qos)),
            session::inflight_view(kept@) == model::by_packet_id(
                model::inflight_taken_over(views.take(i as int), qos),
            ),
            *highest == model::highest_id(
                start,
                model::inflight_taken_over(views.take(i as int), qos),
            ),
        decreases list@.len() - i,
    {
        let ghost before = model::inflight_taken_over(views.take(i as int), qos);
        let ghost shown = kept@;
        proof {
            steps::lemma_filter_next(views, i as int, keep);
            assert(views[i as int] == list@[i as int]@);
        }
        if let Some(publication) = valid_inflight_publication(list[i].clone(), qos) {
            let ghost p = publication@;
            if let Some(packet_id) = publication.packet_id {
                record_packet_id(highest, packet_id);
                kept.insert(packet_id, publication);
                proof {
                    assert(session::inflight_view(kept@) =~= session::inflight_view(shown).insert(
                        packet_id,
                        p,
                    ));
                    assert(model::inflight_taken_over(views.take(i + 1), qos) =~= before.push(p));
                    lemma_highest_push(start, before, p);
                }
            }
        }
        i = i + 1;
    }
    assert(views.take(i as int) =~= views);
    kept
}

/// Takes over the outgoing QoS 2 messages of a session.
fn restore_outbound(list: &Vec<Qos2Outbound>, highest: &mut Option<u16>) -> (kept: BTreeMap<
    u16,
    Qos2Outbound,
>)
    ensures
        session::outbound_view(kept@) == model::outbound_by_packet_id(
            model::outbound_taken_over(session::outbound_views(list@)),
        ),
        *final(highest) == model::highest_id(
            *old(highest),
            model::messages(model::outbound_taken_over(session::outbound_views(list@))),
        ),
{
    broadcast use vstd::std_specs::btree::group_btree_axioms;

    let ghost start = *highest;
    let ghost views = session::outbound_views(list@);
    let ghost keep = |o: session::OutboundView| model::keeps_inflight(o.publication, 2);
    let mut kept: BTreeMap<u16, Qos2Outbound> = BTreeMap::new();
    let mut i: usize = 0;
    proof {
        steps::lemma_filter_empty(keep);
        assert(views.take(0) =~= Seq::empty());
        assert(model::outbound_taken_over(views.take(0)) =~= Seq::empty());
        assert(model::messages(model::outbound_taken_over(views.take(0))) =~= Seq::empty());
        assert(session::outbound_view(kept@) =~= Map::empty());
    }
    while i < list.len()
        invariant
            i <= list@.len(),
            views == session::outbound_views(list@),
            keep == (|o: session::OutboundView| model::keeps_inflight(o.publication, 2)),
            session::outbound_view(kept@) == model::outbound_by_packet_id(
                model::outbound_taken_over(views.take(i as int)),
            ),
            *highest == model::highest_id(
                start,
                model::messages(model::outbound_taken_over(views.take(i as int))),
            ),
        decreases list@.len() - i,
    {
        let ghost before = model::outbound_taken_over(views.take(i as int));
        let ghost shown = kept@;
        proof {
            steps::lemma_filter_next(views, i as int, keep);
            assert(views[i as int] == list@[i as int]@);
        }
        let state = list[i].state;
        if let Some(publication) = valid_inflight_publication(list[i].publication.clone(), 2) {
            let ghost o = session::OutboundView { publication: publication@, state };
            if let Some(packet_id) = publication.packet_id {
                record_packet_id(highest, packet_id);
                kept.insert(packet_id, Qos2Outbound { publication, state });
                proof {
                    assert(session::outbound_view(kept@) =~= session::outbound_view(shown).insert(
                        packet_id,
                        o,
                    ));
                    assert(model::outbound_taken_over(views.take(i + 1)) =~= before.push(o));
                    assert(before.push(o).drop_last() =~= before);
                    assert(model::messages(before.push(o)) =~= model::messages(before).push(
                        o.publication,
                    ));
                    lemma_highest_push(start, model::messages(before), o.publication);
                }
            }
        }
        i = i + 1;
    }
    assert(views.take(i as int) =~= views);
    kept
}

/// A list of subscriptions without the one to a filter.
fn without_filter(list: &Vec<Subscription>, filter: &str) -> (kept: Vec<Subscription>)
    ensures
        session::subscription_views(kept@) == session::subscription_views(list@).filter(
            |s: session::SubscriptionView| s.filter != filter@,
        ),
{
    let ghost views = session::subscription_views(list@);
    let ghost keep = |s: session::SubscriptionView| s.filter != filter@;
    let mut kept: Vec<Subscription> = Vec::new();
    let mut i: usize = 0;
    proof {
        steps::lemma_filter_empty(keep);
        assert(views.take(0) =~= Seq::empty());
        assert(session::subscription_views(kept@) =~= Seq::empty());
    }
    while i < list.len()
        invariant
            i <= list@.len(),
            views == session::subscription_views(list@),
            keep == (|s: session::SubscriptionView| s.filter != filter@),
            session::subscription_views(kept@) == views.take(i as int).filter(keep),
        decreases list@.len() - i,
    {
        let ghost shown = kept@;
        proof {
            steps::lemma_filter_next(views, i as int, keep);
            assert(views[i as int] == list@[i as int]@);
        }
        if !same_text(list[i].filter.as_str(), filter) {
            kept.push(list[i].clone());
            assert(session::subscription_views(kept@) =~= session::subscription_views(shown).push(
                list@[i as int]@,
            ));
        }
        i = i + 1;
    }
    assert(views.take(i as int) =~= views);
    kept
}

/// Takes over the subscriptions of a session, and gives the order that the
/// next new subscription gets.
fn restore_subscriptions(list: &Vec<Subscription>, next_subscription_order: u64) -> (r: (
    Vec<Subscription>,
    u64,
))
    requires
        next_subscription_order + model::valid_subscriptions(session::subscription_views(list@))
            <= u64::MAX,
    ensures
        (session::subscription_views(r.0@), r.1) == model::subscriptions_taken_over(
            session::subscription_views(list@),
            next_subscription_order,
        ),
{
    let ghost views = session::subscription_views(list@);
    let mut kept: Vec<Subscription> = Vec::new();
    let mut order: u64 = next_subscription_order;
    let mut i: usize = 0;
    proof {
        assert(views.take(0) =~= Seq::empty());
        assert(session::subscription_views(kept@) =~= Seq::empty());
    }
    while i < list.len()
        invariant
            i <= list@.len(),
            next_subscription_order + model::valid_subscriptions(views) <= u64::MAX,
            order == next_subscription_order + model::valid_subscriptions(views.take(i as int)),
            views == session::subscription_views(list@),
            (session::subscription_views(kept@), order) == model::subscriptions_taken_over(
                views.take(i as int),
                next_subscription_order,
            ),
        decreases list@.len() - i,
    {
        proof {
            steps::lemma_take_next(views, i as int);
            assert(views[i as int] == list@[i as int]@);
            integrity::lemma_valid_front(views, i + 1);
        }
        if valid_subscription(&list[i]) {
            let ghost s = list@[i as int]@;
            let mut subscription = list[i].clone();
            subscription.order = order;
            kept = without_filter(&kept, list[i].filter.as_str());
            let ghost others = session::subscription_views(kept@);
            assert(subscription@ =~= (session::SubscriptionView { order, ..s }));
            kept.push(subscription);
            assert(session::subscription_views(kept@) =~= others.push(
                (session::SubscriptionView { order, ..s }),
            ));
            order = order + 1;
        }
        i = i + 1;
    }
    assert(views.take(i as int) =~= views);
    (kept, order)
}

/// The session that a persisted one becomes, and the order that the next new
/// subscription gets.
pub fn restore_session(persisted: &PersistedSession, next_subscription_order: u64) -> (r: (
    ClientSession,
    u64,
))
    requires
        next_subscription_order + model::valid_subscriptions(persisted@.subscriptions)
            <= u64::MAX,
    ensures
        r.0@ == model::session_taken_over(persisted@, next_subscription_order),
        r.1 == model::subscriptions_taken_over(
            persisted@.subscriptions,
            next_subscription_order,
        ).1,
{
    let (subscriptions, order) = restore_subscriptions(
        &persisted.subscriptions,
        next_subscription_order,
    );
    let mut highest: Option<u16> = None;
    let queued = restore_queued(&persisted.queued, &mut highest);
    let inflight_qos1 = restore_inflight(&persisted.inflight_qos1, 1, &mut highest);
    let inflight_qos2 = restore_outbound(&persisted.inflight_qos2, &mut highest);
    let mut inbound_highest: Option<u16> = None;
    let inbound_qos2 = restore_inflight(&persisted.inbound_qos2, 2, &mut inbound_highest);
    let session = ClientSession {
        client_id: persisted.client_id.clone(),
        subscriptions,
        will: None,
        queued,
        inflight_qos1,
        inflight_qos2,
        inbound_qos2,
        session_expiry_interval: persisted.session_expiry_interval,
        disconnected_at: None,
        online: false,
        next_outgoing_mid: next_after_packet_id(highest),
    };
    assert(session@ =~= model::session_taken_over(persisted@, next_subscription_order));
    (session, order)
}

/// The messages of a map that the broker routes, in the order of their packet
/// identifiers.
fn persist_inflight(map: &BTreeMap<u16, Publication>) -> (list: Vec<Publication>)
    ensures
        packet::publication_views(list@) == model::inflight_list(
            session::inflight_view(map@),
        ).filter(|p: packet::PublicationView| model::valid_publication(p)),
{
    broadcast use vstd::std_specs::btree::group_btree_axioms;

    let ids = packet_ids(map);
    let ghost views = session::inflight_view(map@);
    let ghost all = model::inflight_list(views);
    let ghost keep = |p: packet::PublicationView| model::valid_publication(p);
    let mut list: Vec<Publication> = Vec::new();
    let mut i: usize = 0;
    proof {
        packet_ids::lemma_ascending_ids(map@.dom());
        assert(views.dom() =~= map@.dom());
        steps::lemma_filter_empty(keep);
        assert(all.take(0) =~= Seq::empty());
        assert(packet::publication_views(list@) =~= Seq::empty());
    }
    while i < ids.len()
        invariant
            i <= ids@.len(),
            views == session::inflight_view(map@),
            all == model::inflight_list(views),
            views.dom() == map@.dom(),
            ids@ == packet_ids::ascending_ids(map@.dom()),
            keep == (|p: packet::PublicationView| model::valid_publication(p)),
            forall|k: int| 0 <= k < ids@.len() ==> map@.contains_key(#[trigger] ids@[k]),
            packet::publication_views(list@) == all.take(i as int).filter(keep),
        decreases ids@.len() - i,
    {
        let id: u16 = ids[i];
        let ghost shown = list@;
        proof {
            steps::lemma_filter_next(all, i as int, keep);
            assert(all[i as int] == map@[id]@);
        }
        if let Some(publication) = map.get(&id) {
            if valid_publication(publication) {
                list.push(publication.clone());
                assert(packet::publication_views(list@) =~= packet::publication_views(shown).push(
                    map@[id]@,
                ));
            }
        }
        i = i + 1;
    }
    assert(all.take(i as int) =~= all);
    list
}

/// The outgoing QoS 2 messages of a map that the broker routes, in the order
/// of their packet identifiers.
fn persist_outbound(map: &BTreeMap<u16, Qos2Outbound>) -> (list: Vec<Qos2Outbound>)
    ensures
        session::outbound_views(list@) == model::outbound_list(
            session::outbound_view(map@),
        ).filter(|o: session::OutboundView| model::valid_publication(o.publication)),
{
    broadcast use vstd::std_specs::btree::group_btree_axioms;

    let ids = packet_ids(map);
    let ghost views = session::outbound_view(map@);
    let ghost all = model::outbound_list(views);
    let ghost keep = |o: session::OutboundView| model::valid_publication(o.publication);
    let mut list: Vec<Qos2Outbound> = Vec::new();
    let mut i: usize = 0;
    proof {
        packet_ids::lemma_ascending_ids(map@.dom());
        assert(views.dom() =~= map@.dom());
        steps::lemma_filter_empty(keep);
        assert(all.take(0) =~= Seq::empty());
        assert(session::outbound_views(list@) =~= Seq::empty());
    }
    while i < ids.len()
        invariant
            i <= ids@.len(),
            views == session::outbound_view(map@),
            all == model::outbound_list(views),
            views.dom() == map@.dom(),
            ids@ == packet_ids::ascending_ids(map@.dom()),
            keep == (|o: session::OutboundView| model::valid_publication(o.publication)),
            forall|k: int| 0 <= k < ids@.len() ==> map@.contains_key(#[trigger] ids@[k]),
            session::outbound_views(list@) == all.take(i as int).filter(keep),
        decreases ids@.len() - i,
    {
        let id: u16 = ids[i];
        let ghost shown = list@;
        proof {
            steps::lemma_filter_next(all, i as int, keep);
            assert(all[i as int] == map@[id]@);
        }
        if let Some(outbound) = map.get(&id) {
            if valid_publication(&outbound.publication) {
                list.push(outbound.clone());
                assert(session::outbound_views(list@) =~= session::outbound_views(shown).push(
                    map@[id]@,
                ));
            }
        }
        i = i + 1;
    }
    assert(all.take(i as int) =~= all);
    list
}

/// The queued messages that are persisted.
fn persist_queued(queued: &Vec<Publication>) -> (list: Vec<Publication>)
    ensures
        packet::publication_views(list@) == packet::publication_views(queued@).filter(
            |p: packet::PublicationView| model::keeps_queued(p),
        ),
{
    let ghost all = packet::publication_views(queued@);
    let ghost keep = |p: packet::PublicationView| model::keeps_queued(p);
    let mut list: Vec<Publication> = Vec::new();
    let mut i: usize = 0;
    proof {
        steps::lemma_filter_empty(keep);
        assert(all.take(0) =~= Seq::empty());
        assert(packet::publication_views(list@) =~= Seq::empty());
    }
    while i < queued.len()
        invariant
            i <= queued@.len(),
            all == packet::publication_views(queued@),
            keep == (|p: packet::PublicationView| model::keeps_queued(p)),
            packet::publication_views(list@) == all.take(i as int).filter(keep),
        decreases queued@.len() - i,
    {
        let ghost shown = list@;
        proof {
            steps::lemma_filter_next(all, i as int, keep);
            assert(all[i as int] == queued@[i as int]@);
        }
        let publication = &queued[i];
        if publication.qos > 0 && publication.packet_id.is_some() && valid_publication(
            publication,
        ) {
            list.push(publication.clone());
            assert(packet::publication_views(list@) =~= packet::publication_views(shown).push(
                publication@,
            ));
        }
        i = i + 1;
    }
    assert(all.take(i as int) =~= all);
    list
}

/// What is persisted of a session.
pub fn persist_session(session: &ClientSession) -> (persisted: PersistedSession)
    ensures
        persisted@ == model::persisted(session@),
{
    let persisted = PersistedSession {
        client_id: session.client_id.clone(),
        session_expiry_interval: session.session_expiry_interval,
        subscriptions: session::clone_subscriptions(&session.subscriptions),
        queued: persist_queued(&session.queued),
        inflight_qos1: persist_inflight(&session.inflight_qos1),
        inflight_qos2: persist_outbound(&session.inflight_qos2),
        inbound_qos2: persist_inflight(&session.inbound_qos2),
    };
    assert(persisted@ =~= model::persisted(session@));
    persisted
}

/// Whether a list of texts holds one of them.
fn contains_text(texts: &[String], text: &str) -> (found: bool)
    ensures
        found == packet::text_views(texts@).contains(text@),
{
    let ghost views = packet::text_views(texts@);
    let mut i: usize = 0;
    while i < texts.len()
        invariant
            i <= texts@.len(),
            views == packet::text_views(texts@),
            forall|k: int| 0 <= k < i ==> #[trigger] views[k] != text@,
        decreases texts@.len() - i,
    {
        assert(views[i as int] == texts@[i as int]@);
        if same_text(texts[i].as_str(), text) {
            return true;
        }
        i = i + 1;
    }
    false
}

/// Takes the subscriptions to a list of filters out of a session.
pub fn drop_subscriptions(session: &mut ClientSession, filters: &[String])
    ensures
        final(session)@ == (session::SessionView {
            subscriptions: old(session)@.subscriptions.filter(
                |s: session::SubscriptionView| !packet::text_views(filters@).contains(s.filter),
            ),
            ..old(session)@
        }),
{
    let ghost names = packet::text_views(filters@);
    let ghost all = session@.subscriptions;
    let ghost keep = |s: session::SubscriptionView| !names.contains(s.filter);
    let mut kept: Vec<Subscription> = Vec::new();
    let mut i: usize = 0;
    proof {
        steps::lemma_filter_empty(keep);
        assert(all.take(0) =~= Seq::empty());
        assert(session::subscription_views(kept@) =~= Seq::empty());
    }
    while i < session.subscriptions.len()
        invariant
            i <= session.subscriptions@.len(),
            names == packet::text_views(filters@),
            *session == *old(session),
            all == session::subscription_views(session.subscriptions@),
            keep == (|s: session::SubscriptionView| !names.contains(s.filter)),
            session::subscription_views(kept@) == all.take(i as int).filter(keep),
        decreases session.subscriptions@.len() - i,
    {
        let ghost shown = kept@;
        proof {
            steps::lemma_filter_next(all, i as int, keep);
            assert(all[i as int] == session.subscriptions@[i as int]@);
        }
        if !contains_text(filters, session.subscriptions[i].filter.as_str()) {
            kept.push(session.subscriptions[i].clone());
            assert(session::subscription_views(kept@) =~= session::subscription_views(shown).push(
                all[i as int],
            ));
        }
        i = i + 1;
    }
    assert(all.take(i as int) =~= all);
    session.subscriptions = kept;
}

} // verus!
