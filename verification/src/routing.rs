//! The steps of routing a message: who takes it, who of a shared subscription
//! is next, and what a session makes of its copy.

use vstd::prelude::*;

use crate::integrity;
use crate::model;
use crate::model::Route;
use crate::packet;
use crate::packet::Publication;
use crate::session;
use crate::session::{ClientSession, Subscription};
use crate::session_steps::{delivery_qos, next_packet_id, track_outgoing};
use crate::steps;
use crate::text::same_text;
use crate::topic::shared_filter;

verus! {

/// One copy of a message that is to be made: for whom, and how.
#[derive(Debug, PartialEq, Eq)]
pub struct DeliverySpec {
    pub client_id: String,
    pub qos: u8,
    pub retain_as_published: bool,
    pub identifier: Option<u32>,
    pub online: bool,
}

impl View for DeliverySpec {
    type V = model::TargetView;

    open spec fn view(&self) -> model::TargetView {
        model::TargetView {
            client_id: self.client_id@,
            qos: self.qos,
            retain_as_published: self.retain_as_published,
            identifier: self.identifier,
            online: self.online,
        }
    }
}

impl Clone for DeliverySpec {
    fn clone(&self) -> (copy: Self)
        ensures
            copy@ == self@,
    {
        DeliverySpec {
            client_id: self.client_id.clone(),
            qos: self.qos,
            retain_as_published: self.retain_as_published,
            identifier: self.identifier,
            online: self.online,
        }
    }
}

/// The views of a sequence of copies that are to be made.
pub open spec fn target_views(targets: Seq<DeliverySpec>) -> Seq<model::TargetView> {
    targets.map_values(|t: DeliverySpec| t@)
}

/// A member of a shared subscription that may get a message.
#[derive(Debug, PartialEq, Eq)]
pub struct SharedDeliveryCandidate {
    pub filter: String,
    pub order: u64,
    pub target: DeliverySpec,
}

impl View for SharedDeliveryCandidate {
    type V = model::CandidateView;

    open spec fn view(&self) -> model::CandidateView {
        model::CandidateView {
            filter: self.filter@,
            order: self.order,
            target: self.target@,
        }
    }
}

/// The views of a sequence of members of shared subscriptions.
pub open spec fn candidate_views(
    list: Seq<SharedDeliveryCandidate>,
) -> Seq<model::CandidateView> {
    list.map_values(|c: SharedDeliveryCandidate| c@)
}

/// A message on its way.
pub open spec fn route_of(source: Seq<char>, p: packet::PublicationView) -> Route {
    Route { source, qos: p.qos, topic: p.topic }
}

/// Whether a subscription of its client alone takes a message.
fn takes_alone(
    subscription: &Subscription,
    client_id: &str,
    source: &str,
    publication: &Publication,
) -> (takes: bool)
    ensures
        takes == model::takes_alone(
            subscription@,
            client_id@,
            route_of(source@, publication@),
        ),
{
    if subscription.no_local && same_text(client_id, source) {
        return false;
    }
    shared_filter(subscription.filter.as_str()).is_none() && crate::topic::matches(
        subscription.filter.as_str(),
        publication.topic.as_str(),
    )
}

/// Whether a shared subscription takes a message.
fn takes_shared(
    subscription: &Subscription,
    client_id: &str,
    source: &str,
    publication: &Publication,
) -> (takes: bool)
    ensures
        takes == model::takes_shared(
            subscription@,
            client_id@,
            route_of(source@, publication@),
        ),
{
    if subscription.no_local && same_text(client_id, source) {
        return false;
    }
    match shared_filter(subscription.filter.as_str()) {
        Some((_, filter)) => crate::topic::matches(filter, publication.topic.as_str()),
        None => false,
    }
}

/// The copy that a subscription of a client asks for.
fn delivery_spec(
    upgrade: bool,
    publication: &Publication,
    session: &ClientSession,
    client_id: &str,
    subscription: &Subscription,
) -> (target: DeliverySpec)
    ensures
        forall|source: Seq<char>|
            target@ == #[trigger] model::target_of(
                upgrade,
                route_of(source, publication@),
                session@,
                client_id@,
                subscription@,
            ),
{
    DeliverySpec {
        client_id: client_id.to_owned(),
        qos: delivery_qos(upgrade, publication.qos, subscription.qos),
        retain_as_published: subscription.retain_as_published,
        identifier: subscription.identifier,
        online: session.online,
    }
}

/// The copy that a client gets by its own subscriptions: the oldest one that
/// takes the message decides.
pub fn own_target(
    upgrade: bool,
    publication: &Publication,
    session: &ClientSession,
    client_id: &str,
    source: &str,
) -> (target: Option<DeliverySpec>)
    ensures
        ({
            let route = route_of(source@, publication@);
            let takers = model::own_takers(session@, client_id@, route);
            match target {
                Some(t) => takers.len() > 0 && t@ == model::target_of(
                    upgrade,
                    route,
                    session@,
                    client_id@,
                    takers[0],
                ),
                None => takers.len() == 0,
            }
        }),
{
    let ghost route = route_of(source@, publication@);
    let ghost all = session@.subscriptions;
    let ghost takes = |s: session::SubscriptionView| model::takes_alone(s, client_id@, route);
    let mut i: usize = 0;
    proof {
        steps::lemma_filter_empty(takes);
        assert(all.take(0) =~= Seq::empty());
    }
    while i < session.subscriptions.len()
        invariant
            i <= session.subscriptions@.len(),
            route == route_of(source@, publication@),
            all == session::subscription_views(session.subscriptions@),
            all == session@.subscriptions,
            takes == (|s: session::SubscriptionView| model::takes_alone(s, client_id@, route)),
            all.take(i as int).filter(takes).len() == 0,
        decreases session.subscriptions@.len() - i,
    {
        let subscription = &session.subscriptions[i];
        proof {
            steps::lemma_filter_next(all, i as int, takes);
            assert(all[i as int] == subscription@);
        }
        if takes_alone(subscription, client_id, source, publication) {
            proof {
                let head = all.take(i + 1);
                let tail = all.skip(i + 1);
                assert(all =~= head + tail);
                Seq::filter_distributes_over_add(head, tail, takes);
                assert(all.filter(takes)[0] == subscription@);
            }
            return Some(delivery_spec(upgrade, publication, session, client_id, subscription));
        }
        i = i + 1;
    }
    assert(all.take(i as int) =~= all);
    None
}

/// Adds the shared subscriptions of a client that take the message to a list.
pub fn add_candidates(
    list: &mut Vec<SharedDeliveryCandidate>,
    upgrade: bool,
    publication: &Publication,
    session: &ClientSession,
    client_id: &str,
    source: &str,
)
    ensures
        forall|b: model::BrokerView|
            b.upgrade_outgoing_qos == upgrade && b.clients.contains_key(client_id@)
                && b.clients[client_id@] == session@ ==> candidate_views(final(list)@)
                == candidate_views(old(list)@) + #[trigger] model::own_candidates(
                b,
                client_id@,
                route_of(source@, publication@),
            ),
{
    let ghost route = route_of(source@, publication@);
    let ghost all = session@.subscriptions;
    let ghost takes = |s: session::SubscriptionView| model::takes_shared(s, client_id@, route);
    let ghost entry = |s: session::SubscriptionView|
        model::CandidateView {
            filter: s.filter,
            order: s.order,
            target: model::target_of(upgrade, route, session@, client_id@, s),
        };
    let ghost before = candidate_views(list@);
    let mut i: usize = 0;
    proof {
        steps::lemma_filter_empty(takes);
        assert(all.take(0) =~= Seq::empty());
        assert(candidate_views(list@) =~= before + all.take(0).filter(takes).map_values(entry));
    }
    while i < session.subscriptions.len()
        invariant
            i <= session.subscriptions@.len(),
            route == route_of(source@, publication@),
            all == session::subscription_views(session.subscriptions@),
            all == session@.subscriptions,
            takes == (|s: session::SubscriptionView| model::takes_shared(s, client_id@, route)),
            entry == (|s: session::SubscriptionView|
                model::CandidateView {
                    filter: s.filter,
                    order: s.order,
                    target: model::target_of(upgrade, route, session@, client_id@, s),
                }),
            candidate_views(list@) == before + all.take(i as int).filter(takes).map_values(entry),
        decreases session.subscriptions@.len() - i,
    {
        let subscription = &session.subscriptions[i];
        let ghost shown = list@;
        let ghost found = all.take(i as int).filter(takes);
        proof {
            steps::lemma_filter_next(all, i as int, takes);
            assert(all[i as int] == subscription@);
        }
        if takes_shared(subscription, client_id, source, publication) {
            list.push(
                SharedDeliveryCandidate {
                    filter: subscription.filter.clone(),
                    order: subscription.order,
                    target: delivery_spec(upgrade, publication, session, client_id, subscription),
                },
            );
            proof {
                assert(list@.last()@ == entry(subscription@)) by {
                    assert(list@.last()@.target == model::target_of(
                        upgrade,
                        route_of(source@, publication@),
                        session@,
                        client_id@,
                        subscription@,
                    ));
                }
                assert(candidate_views(list@) =~= candidate_views(shown).push(
                    entry(subscription@),
                ));
                assert(found.push(subscription@).map_values(entry) =~= found.map_values(
                    entry,
                ).push(entry(subscription@)));
                assert(candidate_views(list@) =~= before + found.push(subscription@).map_values(
                    entry,
                ));
            }
        }
        i = i + 1;
    }
    proof {
        assert(all.take(i as int) =~= all);
        assert forall|b: model::BrokerView|
            b.upgrade_outgoing_qos == upgrade && b.clients.contains_key(client_id@)
                && b.clients[client_id@] == session@ implies candidate_views(list@) == before
            + #[trigger] model::own_candidates(b, client_id@, route) by {
            assert(all.filter(takes).map_values(entry) =~= model::own_candidates(
                b,
                client_id@,
                route,
            ));
        }
    }
}

/// Where a new member belongs in a list by order.
proof fn lemma_place(list: Seq<model::CandidateView>, c: model::CandidateView, k: int)
    requires
        0 <= k <= list.len(),
        k > 0 ==> list[k - 1].order <= c.order,
        forall|i: int| k <= i < list.len() ==> (#[trigger] list[i]).order > c.order,
    ensures
        model::placed(list, c) == list.insert(k, c),
    decreases list.len(),
{
    if k == list.len() {
        assert(list.insert(k, c) =~= list.push(c));
    } else {
        let front = list.drop_last();
        assert(list[list.len() - 1].order > c.order);
        lemma_place(front, c, k);
        assert(list.insert(k, c) =~= front.insert(k, c).push(list.last()));
    }
}

/// The members at a list of positions.
pub open spec fn at_positions(
    list: Seq<SharedDeliveryCandidate>,
    positions: Seq<usize>,
) -> Seq<model::CandidateView> {
    positions.map_values(|k: usize| list[k as int]@)
}

/// The positions of the members of a shared filter, by the order of their
/// subscriptions.
fn members(list: &Vec<SharedDeliveryCandidate>, filter: &str) -> (positions: Vec<usize>)
    ensures
        forall|i: int| 0 <= i < positions@.len() ==> (#[trigger] positions@[i]) < list@.len(),
        at_positions(list@, positions@) == model::members(candidate_views(list@), filter@),
{
    let ghost views = candidate_views(list@);
    let mut positions: Vec<usize> = Vec::new();
    let mut i: usize = 0;
    proof {
        assert(views.take(0) =~= Seq::empty());
        assert(at_positions(list@, positions@) =~= Seq::empty());
    }
    while i < list.len()
        invariant
            i <= list@.len(),
            views == candidate_views(list@),
            forall|j: int| 0 <= j < positions@.len() ==> (#[trigger] positions@[j]) < list@.len(),
            at_positions(list@, positions@) == model::members(views.take(i as int), filter@),
        decreases list@.len() - i,
    {
        proof {
            steps::lemma_take_next(views, i as int);
            assert(views[i as int] == list@[i as int]@);
        }
        if same_text(list[i].filter.as_str(), filter) {
            let ghost found = at_positions(list@, positions@);
            let mut k: usize = positions.len();
            while k > 0 && list[positions[k - 1]].order > list[i].order
                invariant
                    k <= positions@.len(),
                    i < list@.len(),
                    found == at_positions(list@, positions@),
                    forall|j: int|
                        0 <= j < positions@.len() ==> (#[trigger] positions@[j]) < list@.len(),
                    forall|j: int|
                        k <= j < found.len() ==> (#[trigger] found[j]).order
                            > list@[i as int]@.order,
                decreases k,
            {
                k = k - 1;
            }
            let ghost before = positions@;
            positions.insert(k, i);
            proof {
                lemma_place(found, list@[i as int]@, k as int);
                assert(at_positions(list@, positions@) =~= found.insert(
                    k as int,
                    list@[i as int]@,
                ));
                assert forall|j: int| 0 <= j < positions@.len() implies (#[trigger] positions@[j])
                    < list@.len() by {
                    if j < k {
                        assert(positions@[j] == before[j]);
                    } else if j > k {
                        assert(positions@[j] == before[j - 1]);
                    }
                }
            }
        }
        i = i + 1;
    }
    assert(views.take(i as int) =~= views);
    positions
}

/// Whether the filter of a member stands before it in the list already.
pub fn met_before(list: &Vec<SharedDeliveryCandidate>, n: usize) -> (met: bool)
    requires
        n < list@.len(),
    ensures
        met == model::met_before(candidate_views(list@), n as int),
{
    let ghost views = candidate_views(list@);
    let mut k: usize = 0;
    while k < n
        invariant
            k <= n < list@.len(),
            views == candidate_views(list@),
            forall|j: int| 0 <= j < k ==> (#[trigger] views[j]).filter != views[n as int].filter,
        decreases n - k,
    {
        if same_text(list[k].filter.as_str(), list[n].filter.as_str()) {
            assert(views[k as int].filter == views[n as int].filter);
            return true;
        }
        k = k + 1;
    }
    false
}

/// Lets the shared filter of a member give the message to the member that is
/// next: gives the copy to be made, and where the next round starts.
pub fn choose_member(list: &Vec<SharedDeliveryCandidate>, n: usize, cursor: usize) -> (r: (
    DeliverySpec,
    usize,
))
    requires
        n < list@.len(),
        cursor < usize::MAX,
    ensures
        ({
            let views = candidate_views(list@);
            let group = model::members(views, views[n as int].filter);
            &&& group.len() > 0
            &&& r.0@ == group[(cursor as nat % group.len()) as int].target
            &&& r.1 == (cursor + 1) as nat % group.len()
            &&& r.1 < usize::MAX
        }),
{
    let ghost views = candidate_views(list@);
    let positions = members(list, list[n].filter.as_str());
    proof {
        integrity::lemma_members(views, views[n as int].filter);
        assert(views[n as int].filter == views[n as int].filter);
    }
    let ghost group = at_positions(list@, positions@);
    let at: usize = cursor % positions.len();
    let chosen = list[positions[at]].target.clone();
    assert(group[at as int] == list@[positions@[at as int] as int]@);
    (chosen, (cursor + 1) % positions.len())
}

/// Hands a message to the session of a client, and gives the copy of it: it is
/// kept until acknowledged where the client is online, queued where it is not,
/// and dropped where it is not and the QoS is 0.
pub fn hand_over(
    session: &mut ClientSession,
    publication: &Publication,
    target: &DeliverySpec,
) -> (copy: Publication)
    ensures
        (final(session)@, copy@) == model::handed_over(old(session)@, publication@, target@),
{
    let mut copy = publication.clone();
    copy.qos = target.qos;
    copy.retain = target.retain_as_published && publication.retain;
    if let Some(identifier) = target.identifier {
        copy.subscription_identifiers.push(identifier);
    }
    copy.packet_id = if target.qos > 0 {
        Some(next_packet_id(session))
    } else {
        None
    };
    assert(copy@ =~= model::handed_over(old(session)@, publication@, target@).1);
    if target.online {
        track_outgoing(session, &copy);
    } else if target.qos > 0 {
        let ghost before = session.queued@;
        session.queued.push(copy.clone());
        assert(packet::publication_views(session.queued@) =~= packet::publication_views(
            before,
        ).push(copy@));
    }
    copy
}

} // verus!
