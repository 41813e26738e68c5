//! The in-memory broker: sessions, subscriptions, retained messages, routing
//! and wills.

use std::time::Instant;

use vstd::prelude::*;

use crate::clock::nanoseconds_since;
use crate::integrity;
use crate::model;
use crate::model::BrokerView;
use crate::packet;
use crate::packet::{Publication, SubscriptionRequest, Will};
use crate::routing;
use crate::routing::{
    add_candidates, choose_member, hand_over, met_before, own_target, DeliverySpec,
    SharedDeliveryCandidate,
};
use crate::session;
use crate::session::{
    ClientSession, ConnectResult, Delivery, PersistedSession, PublishResult, Qos2Outbound,
    Qos2OutboundState, Qos2ReceiveResult, SubscribeResult, Subscription,
};
use crate::session_steps::{
    drop_subscriptions, new_session, persist_session, replay, restore_session, resume,
    take_requests, valid_publication,
};
use crate::steps;
use crate::string_map::StringMap;
use crate::text_order;
use crate::topic;

verus! {

/// The state of the broker.
#[derive(Debug)]
pub struct BrokerState {
    clients: StringMap<ClientSession>,
    retained: StringMap<Publication>,
    shared_cursors: StringMap<usize>,
    upgrade_outgoing_qos: bool,
    next_subscription_order: u64,
    started: Instant,
}

impl View for BrokerState {
    type V = BrokerView;

    closed spec fn view(&self) -> BrokerView {
        BrokerView {
            clients: session::session_views(self.clients@),
            retained: session::retained_views(self.retained@),
            shared_cursors: session::cursor_views(self.shared_cursors@),
            upgrade_outgoing_qos: self.upgrade_outgoing_qos,
            next_subscription_order: self.next_subscription_order,
        }
    }
}

impl Default for BrokerState {
    /// A broker that has seen nothing yet, and whose first subscription has the
    /// order 0.
    fn default() -> (broker: Self)
        ensures
            broker.wf(),
            broker@ == model::fresh_broker(0),
    {
        let broker = BrokerState {
            clients: StringMap::new(),
            retained: StringMap::new(),
            shared_cursors: StringMap::new(),
            upgrade_outgoing_qos: false,
            next_subscription_order: 0,
            started: Instant::now(),
        };
        assert(broker@ =~= model::fresh_broker(0));
        broker
    }
}

impl Clone for BrokerState {
    fn clone(&self) -> (copy: Self)
        ensures
            self.stored() ==> copy.stored(),
            self.stored() ==> copy@ == self@,
    {
        let copy = BrokerState {
            clients: self.clients.clone(),
            retained: self.retained.clone(),
            shared_cursors: self.shared_cursors.clone(),
            upgrade_outgoing_qos: self.upgrade_outgoing_qos,
            next_subscription_order: self.next_subscription_order,
            started: self.started,
        };
        proof {
            if self.stored() {
                assert(copy@.clients =~= self@.clients);
                assert(copy@.retained =~= self@.retained);
                assert(copy@.shared_cursors =~= self@.shared_cursors);
            }
        }
        copy
    }
}

impl BrokerState {
    /// A broker that has seen nothing yet.
    pub fn new() -> (broker: Self)
        ensures
            broker.wf(),
            broker@ == model::fresh_broker(1),
    {
        let mut broker = Self::default();
        broker.next_subscription_order = 1;
        broker
    }

    /// Sets whether a message goes to a subscriber with the QoS of the
    /// subscription, also where that is greater than its own.
    pub fn set_upgrade_outgoing_qos(&mut self, value: bool)
        requires
            old(self).wf(),
        ensures
            final(self).wf(),
            final(self)@ == (BrokerView { upgrade_outgoing_qos: value, ..old(self)@ }),
    {
        self.upgrade_outgoing_qos = value;
    }

    /// The nanoseconds since the start of the broker, by the machine's clock.
    pub(crate) fn now(&self) -> u128 {
        nanoseconds_since(&self.started)
    }

    /// The order that the next new subscription gets.
    pub fn next_subscription_order(&self) -> (order: u64)
        ensures
            order == self@.next_subscription_order,
    {
        self.next_subscription_order
    }

    /// The session of a client.
    pub fn client(&self, client_id: &str) -> (session: Option<&ClientSession>)
        requires
            self.wf(),
        ensures
            match session {
                Some(s) => self@.clients.contains_key(client_id@) && s@
                    == self@.clients[client_id@],
                None => !self@.clients.contains_key(client_id@),
            },
    {
        self.clients.get(client_id)
    }

    /// The maps of the broker can be searched, and every cursor can move on.
    pub closed spec fn stored(&self) -> bool {
        &&& self.clients.wf()
        &&& self.retained.wf()
        &&& self.shared_cursors.wf()
        &&& forall|filter: Seq<char>| #[trigger]
            self.shared_cursors@.contains_key(filter) ==> self.shared_cursors@[filter] < usize::MAX
    }

    /// What holds of the broker between two calls.
    pub open spec fn wf(&self) -> bool {
        self.stored() && integrity::broker_ok(self@)
    }

    proof fn lemma_clients_in_order(&self)
        requires
            self.stored(),
        ensures
            self.clients.order() == self@.client_ids(),
            text_order::lists(self@.client_ids(), self@.clients.dom()),
            forall|i: int|
                0 <= i < self@.client_ids().len() ==> self@.clients.contains_key(
                    #[trigger] self@.client_ids()[i],
                ),
    {
        assert(self@.clients.dom() =~= self.clients@.dom());
        self.clients.lemma_entries();
    }

    /// The copies for the clients that have subscribed on their own.
    fn own_targets(&self, source: &str, publication: &Publication) -> (targets: Vec<DeliverySpec>)
        requires
            self.stored(),
        ensures
            routing::target_views(targets@) == model::own_targets(
                self@,
                self@.client_ids(),
                routing::route_of(source@, publication@),
            ),
    {
        let ghost route = routing::route_of(source@, publication@);
        let ghost ids = self@.client_ids();
        let mut targets: Vec<DeliverySpec> = Vec::new();
        let mut i: usize = 0;
        proof {
            self.lemma_clients_in_order();
            assert(ids.take(0) =~= Seq::empty());
            assert(routing::target_views(targets@) =~= Seq::empty());
        }
        while i < self.clients.len()
            invariant
                self.stored(),
                ids == self@.client_ids(),
                ids == self.clients.order(),
                i <= ids.len(),
                route == routing::route_of(source@, publication@),
                routing::target_views(targets@) == model::own_targets(
                    self@,
                    ids.take(i as int),
                    route,
                ),
            decreases ids.len() - i,
        {
            let client_id = self.clients.key_at(i);
            let session = self.clients.value_at(i);
            let ghost shown = targets@;
            proof {
                steps::lemma_take_next(ids, i as int);
                assert(self@.clients[client_id@] == session@);
            }
            if let Some(target) = own_target(
                self.upgrade_outgoing_qos,
                publication,
                session,
                client_id.as_str(),
                source,
            ) {
                let ghost t = target@;
                targets.push(target);
                assert(routing::target_views(targets@) =~= routing::target_views(shown).push(t));
            }
            i = i + 1;
        }
        assert(ids.take(i as int) =~= ids);
        targets
    }

    /// The shared subscriptions that take the message.
    fn shared_candidates(&self, source: &str, publication: &Publication) -> (list: Vec<
        SharedDeliveryCandidate,
    >)
        requires
            self.stored(),
        ensures
            routing::candidate_views(list@) == model::candidates(
                self@,
                self@.client_ids(),
                routing::route_of(source@, publication@),
            ),
    {
        let ghost route = routing::route_of(source@, publication@);
        let ghost ids = self@.client_ids();
        let mut list: Vec<SharedDeliveryCandidate> = Vec::new();
        let mut i: usize = 0;
        proof {
            self.lemma_clients_in_order();
            assert(ids.take(0) =~= Seq::empty());
            assert(routing::candidate_views(list@) =~= Seq::empty());
        }
        while i < self.clients.len()
            invariant
                self.stored(),
                ids == self@.client_ids(),
                ids == self.clients.order(),
                i <= ids.len(),
                route == routing::route_of(source@, publication@),
                routing::candidate_views(list@) == model::candidates(
                    self@,
                    ids.take(i as int),
                    route,
                ),
            decreases ids.len() - i,
        {
            let client_id = self.clients.key_at(i);
            let session = self.clients.value_at(i);
            proof {
                steps::lemma_take_next(ids, i as int);
                assert(self@.clients.contains_key(client_id@));
                assert(self@.clients[client_id@] == session@);
            }
            add_candidates(
                &mut list,
                self.upgrade_outgoing_qos,
                publication,
                session,
                client_id.as_str(),
                source,
            );
            i = i + 1;
        }
        assert(ids.take(i as int) =~= ids);
        list
    }

    /// Lets each shared filter give the message to the member that is next, and
    /// adds the copies to a list.
    fn choose_members(
        &mut self,
        list: &Vec<SharedDeliveryCandidate>,
        targets: &mut Vec<DeliverySpec>,
    )
        requires
            old(self).stored(),
        ensures
            final(self).stored(),
            ({
                let views = routing::candidate_views(list@);
                let (cursors, chosen) = model::rounds(
                    old(self)@.shared_cursors,
                    views,
                    views.len(),
                );
                &&& final(self)@ == (BrokerView { shared_cursors: cursors, ..old(self)@ })
                &&& routing::target_views(final(targets)@) == routing::target_views(old(targets)@)
                    + chosen
            }),
    {
        let ghost views = routing::candidate_views(list@);
        let ghost start = self@;
        let ghost first = routing::target_views(targets@);
        let mut n: usize = 0;
        assert(first + Seq::empty() =~= first);
        while n < list.len()
            invariant
                n <= list@.len(),
                views == routing::candidate_views(list@),
                self.stored(),
                ({
                    let (cursors, chosen) = model::rounds(start.shared_cursors, views, n as nat);
                    &&& self@ == (BrokerView { shared_cursors: cursors, ..start })
                    &&& routing::target_views(targets@) == first + chosen
                }),
            decreases list@.len() - n,
        {
            if !met_before(list, n) {
                let ghost cursors = self.shared_cursors@;
                let ghost shown = routing::target_views(targets@);
                let ghost before = self@;
                let filter = list[n].filter.as_str();
                let cursor: usize = match self.shared_cursors.get(filter) {
                    Some(cursor) => *cursor,
                    None => 0,
                };
                proof {
                    assert(views[n as int].filter == filter@);
                    assert(cursor == model::cursor_of(self@.shared_cursors, filter@));
                }
                let (target, next) = choose_member(list, n, cursor);
                let ghost t = target@;
                targets.push(target);
                self.shared_cursors.insert(list[n].filter.clone(), next);
                proof {
                    assert(routing::target_views(targets@) =~= shown.push(t));
                    assert(self@.shared_cursors =~= before.shared_cursors.insert(
                        filter@,
                        next as nat,
                    ));
                    let chosen = model::rounds(start.shared_cursors, views, n as nat).1;
                    assert((first + chosen).push(t) =~= first + chosen.push(t));
                }
            }
            n = n + 1;
        }
    }

    /// Hands a message to each target, and gives what is to be sent now.
    fn deliver(&mut self, publication: &Publication, targets: &Vec<DeliverySpec>) -> (deliveries:
        Vec<Delivery>)
        requires
            old(self).stored(),
            forall|i: int|
                0 <= i < targets@.len() ==> old(self)@.clients.contains_key(
                    (#[trigger] targets@[i])@.client_id,
                ),
        ensures
            final(self).stored(),
            (final(self)@, session::delivery_views(deliveries@)) == model::delivered(
                old(self)@,
                publication@,
                routing::target_views(targets@),
            ),
    {
        let ghost start = self@;
        let ghost views = routing::target_views(targets@);
        let mut deliveries: Vec<Delivery> = Vec::new();
        let mut i: usize = 0;
        proof {
            assert(views.take(0) =~= Seq::empty());
            assert(session::delivery_views(deliveries@) =~= Seq::empty());
        }
        while i < targets.len()
            invariant
                i <= targets@.len(),
                views == routing::target_views(targets@),
                self.stored(),
                forall|k: int|
                    0 <= k < targets@.len() ==> start.clients.contains_key(
                        (#[trigger] targets@[k])@.client_id,
                    ),
                self@.clients.dom() == start.clients.dom(),
                (self@, session::delivery_views(deliveries@)) == model::delivered(
                    start,
                    publication@,
                    views.take(i as int),
                ),
            decreases targets@.len() - i,
        {
            let target = &targets[i];
            let ghost before = self@;
            let ghost shown = deliveries@;
            proof {
                steps::lemma_take_next(views, i as int);
                assert(views[i as int] == target@);
                assert(before.clients.contains_key(target@.client_id));
            }
            if let Some(session) = self.clients.get_mut(target.client_id.as_str()) {
                let copy = hand_over(session, publication, target);
                if target.online {
                    deliveries.push(
                        Delivery { client_id: target.client_id.clone(), publication: copy },
                    );
                    assert(session::delivery_views(deliveries@) =~= session::delivery_views(
                        shown,
                    ).push(
                        session::DeliveryView {
                            client_id: target@.client_id,
                            publication: copy@,
                        },
                    ));
                }
            }
            proof {
                let s = model::handed_over(
                    before.clients[target@.client_id],
                    publication@,
                    target@,
                ).0;
                assert(self@.clients =~= before.clients.insert(target@.client_id, s));
                assert(self@.clients.dom() =~= start.clients.dom());
            }
            i = i + 1;
        }
        assert(views.take(i as int) =~= views);
        deliveries
    }

    /// Publishes a message of a client: routes it to the subscribers, queues it
    /// for those that are offline, and retains it where it asks for that.
    pub fn publish(&mut self, source_client_id: &str, publication: Publication) -> (result:
        PublishResult)
        requires
            old(self).wf(),
        ensures
            final(self).wf(),
            (final(self)@, result@) == model::published(
                old(self)@,
                source_client_id@,
                publication@,
            ),
    {
        proof {
            integrity::law_publish_keeps_order(self@, source_client_id@, publication@);
        }
        if !valid_publication(&publication) {
            let deliveries: Vec<Delivery> = Vec::new();
            assert(session::delivery_views(deliveries@) =~= Seq::empty());
            return PublishResult { accepted: false, deliveries };
        }
        let ghost start = self@;
        let ghost route = routing::route_of(source_client_id@, publication@);
        let mut publication = publication;
        publication.subscription_identifiers = Vec::new();
        let ghost plain = publication@;
        proof {
            integrity::lemma_targets_ok(start, route);
        }

        let mut targets = self.own_targets(source_client_id, &publication);
        let candidates = self.shared_candidates(source_client_id, &publication);
        self.choose_members(&candidates, &mut targets);

        if publication.retain {
            if publication.payload.len() == 0 {
                let _ = self.retained.remove(publication.topic.as_str());
            } else {
                let mut retained = publication.clone();
                retained.packet_id = None;
                assert(retained@ =~= (packet::PublicationView { packet_id: None, ..plain }));
                self.retained.insert(publication.topic.clone(), retained);
            }
        }
        proof {
            assert(self@.retained =~= model::retained_after(start.retained, plain));
            let views = routing::target_views(targets@);
            assert(views == model::targets_of(start, route).1);
            assert forall|i: int| 0 <= i < targets@.len() implies self@.clients.contains_key(
                (#[trigger] targets@[i])@.client_id,
            ) by {
                assert(integrity::target_ok(start, views[i]));
            }
        }
        let deliveries = self.deliver(&publication, &targets);
        PublishResult { accepted: true, deliveries }
    }

    /// Lets the sessions expire whose time is over, at a point in time that is
    /// counted in nanoseconds from the start of the broker.
    pub fn expire_sessions_at(&mut self, now: u128)
        requires
            old(self).wf(),
        ensures
            final(self).wf(),
            final(self)@ == model::without_expired(old(self)@, now),
    {
        let ghost start = self@;
        let ghost ids = start.client_ids();
        let mut expired: Vec<String> = Vec::new();
        let mut i: usize = 0;
        proof {
            self.lemma_clients_in_order();
            integrity::law_expiry_keeps_order(start, now);
        }
        while i < self.clients.len()
            invariant
                self.stored(),
                self@ == start,
                ids == start.client_ids(),
                ids == self.clients.order(),
                i <= ids.len(),
                text_order::lists(ids, start.clients.dom()),
                forall|k: int|
                    0 <= k < i && model::expired(start.clients[ids[k]], now)
                        ==> packet::text_views(expired@).contains(#[trigger] ids[k]),
                forall|k: int|
                    0 <= k < expired@.len() ==> start.clients.contains_key(
                        (#[trigger] expired@[k])@,
                    ) && model::expired(start.clients[expired@[k]@], now),
            decreases ids.len() - i,
        {
            let client_id = self.clients.key_at(i);
            let session = self.clients.value_at(i);
            let ghost shown = packet::text_views(expired@);
            assert(start.clients[client_id@] == session@);
            if Self::is_expired(session, now) {
                expired.push(client_id.clone());
                proof {
                    assert(packet::text_views(expired@) =~= shown.push(client_id@));
                    assert forall|t: Seq<char>| #[trigger] shown.contains(
                        t,
                    ) implies packet::text_views(expired@).contains(t) by {
                        steps::lemma_push_contains(shown, client_id@, t);
                    }
                    steps::lemma_push_contains(shown, client_id@, client_id@);
                }
            }
            i = i + 1;
        }
        let ghost names = packet::text_views(expired@);
        let mut k: usize = 0;
        while k < expired.len()
            invariant
                k <= expired@.len(),
                names == packet::text_views(expired@),
                self.stored(),
                self@ == (BrokerView { clients: self@.clients, ..start }),
                forall|id: Seq<char>| #[trigger]
                    self@.clients.contains_key(id) <==> start.clients.contains_key(id)
                        && !names.take(k as int).contains(id),
                forall|id: Seq<char>| #[trigger]
                    self@.clients.contains_key(id) ==> self@.clients[id] == start.clients[id],
            decreases expired@.len() - k,
        {
            let ghost before = self@;
            let _ = self.clients.remove(expired[k].as_str());
            proof {
                steps::lemma_take_next(names, k as int);
                assert(names[k as int] == expired@[k as int]@);
                assert(self@.clients =~= before.clients.remove(names[k as int]));
                assert forall|id: Seq<char>| #[trigger]
                    self@.clients.contains_key(id) <==> start.clients.contains_key(id)
                        && !names.take(k + 1).contains(id) by {
                    steps::lemma_push_contains(names.take(k as int), names[k as int], id);
                }
            }
            k = k + 1;
        }
        proof {
            assert(names.take(k as int) =~= names);
            let expected = model::without_expired(start, now).clients;
            assert forall|id: Seq<char>| #[trigger] self@.clients.contains_key(id)
                <==> expected.contains_key(id) by {
                if start.clients.contains_key(id) {
                    assert(ids.contains(id));
                    let place = ids.index_of(id);
                    assert(ids[place] == id);
                    if names.contains(id) {
                        assert(expired@[names.index_of(id)]@ == id);
                    }
                }
            }
            assert(self@.clients =~= expected);
        }
    }

    /// Whether the time of a session is over.
    fn is_expired(session: &ClientSession, now: u128) -> (over: bool)
        ensures
            over == model::expired(session@, now),
    {
        if session.online || session.session_expiry_interval == model::NEVER_EXPIRES {
            return false;
        }
        match session.disconnected_at {
            None => false,
            Some(since) => {
                let offline: u128 = if now > since {
                    now - since
                } else {
                    0
                };
                offline >= session.session_expiry_interval as u128 * model::SECOND
            },
        }
    }

    /// Connects a client: sessions whose time is over are forgotten, then the
    /// client's session is resumed, or a new one begun.
    pub fn connect(
        &mut self,
        client_id: String,
        clean_start: bool,
        will: Option<Will>,
        session_expiry_interval: u32,
    ) -> (result: ConnectResult)
        requires
            old(self).wf(),
        ensures
            final(self).wf(),
            exists|now: u128|
                (final(self)@, result@) == #[trigger] model::connected(
                    old(self)@,
                    client_id@,
                    clean_start,
                    packet::will_view(will),
                    session_expiry_interval,
                    now,
                ),
    {
        let now: u128 = self.now();
        self.connect_at(client_id, clean_start, will, session_expiry_interval, now)
    }

    /// Connects a client at a point in time that is counted in nanoseconds from
    /// the start of the broker.
    pub fn connect_at(
        &mut self,
        client_id: String,
        clean_start: bool,
        will: Option<Will>,
        session_expiry_interval: u32,
        now: u128,
    ) -> (result: ConnectResult)
        requires
            old(self).wf(),
        ensures
            final(self).wf(),
            (final(self)@, result@) == model::connected(
                old(self)@,
                client_id@,
                clean_start,
                packet::will_view(will),
                session_expiry_interval,
                now,
            ),
    {
        proof {
            integrity::law_connect_keeps_order(
                self@,
                client_id@,
                clean_start,
                packet::will_view(will),
                session_expiry_interval,
                now,
            );
        }
        self.expire_sessions_at(now);
        let ghost current = self@;
        let session_present: bool = !clean_start && self.clients.contains_key(client_id.as_str());
        if session_present {
            if let Some(session) = self.clients.get_mut(client_id.as_str()) {
                let (queued, pubrels) = resume(session, will, session_expiry_interval);
                let ghost resumed = session@;
                assert(self@.clients =~= current.clients.insert(client_id@, resumed));
                return ConnectResult { session_present, queued, pubrels };
            }
        }
        let mut session = new_session(client_id.clone());
        let (queued, pubrels) = resume(&mut session, will, session_expiry_interval);
        let ghost resumed = session@;
        self.clients.insert(client_id, session);
        assert(self@.clients =~= current.clients.insert(client_id@, resumed));
        ConnectResult { session_present, queued, pubrels }
    }

    /// Disconnects a client: unless it has said goodbye its will is published,
    /// and a session that does not outlive the connection is forgotten. Gives
    /// what the will has to be sent as.
    pub fn disconnect(
        &mut self,
        client_id: &str,
        graceful: bool,
        session_expiry_interval: Option<u32>,
    ) -> (deliveries: Vec<Delivery>)
        requires
            old(self).wf(),
        ensures
            final(self).wf(),
            exists|now: u128|
                (final(self)@, session::delivery_views(deliveries@))
                    == #[trigger] model::disconnected(
                    old(self)@,
                    client_id@,
                    graceful,
                    session_expiry_interval,
                    now,
                ),
    {
        let now: u128 = self.now();
        self.disconnect_at(client_id, graceful, session_expiry_interval, now)
    }

    /// Disconnects a client at a point in time that is counted in nanoseconds
    /// from the start of the broker.
    pub fn disconnect_at(
        &mut self,
        client_id: &str,
        graceful: bool,
        session_expiry_interval: Option<u32>,
        now: u128,
    ) -> (deliveries: Vec<Delivery>)
        requires
            old(self).wf(),
        ensures
            final(self).wf(),
            (final(self)@, session::delivery_views(deliveries@)) == model::disconnected(
                old(self)@,
                client_id@,
                graceful,
                session_expiry_interval,
                now,
            ),
    {
        let ghost start = self@;
        proof {
            integrity::law_disconnect_keeps_order(
                self@,
                client_id@,
                graceful,
                session_expiry_interval,
                now,
            );
        }
        let mut will: Option<Will> = None;
        let mut remove_session: bool = false;
        if let Some(session) = self.clients.get_mut(client_id) {
            let ghost before = session@;
            session.online = false;
            if let Some(interval) = session_expiry_interval {
                session.session_expiry_interval = interval;
            }
            session.disconnected_at = Some(now);
            remove_session = session.session_expiry_interval == 0;
            will = session.will.take();
            assert(packet::will_view(will) == before.will);
            let ghost gone = session@;
            assert(gone =~= model::left(before, session_expiry_interval, now));
            assert(self@.clients =~= start.clients.insert(client_id@, gone));
        } else {
            let deliveries: Vec<Delivery> = Vec::new();
            assert(session::delivery_views(deliveries@) =~= Seq::empty());
            return deliveries;
        }
        let ghost offline = self@;
        assert(offline == start.with_session(
            client_id@,
            model::left(start.clients[client_id@], session_expiry_interval, now),
        ));
        let mut deliveries: Vec<Delivery> = Vec::new();
        assert(session::delivery_views(deliveries@) =~= Seq::empty());
        if let Some(will) = will {
            if !graceful {
                let publication = Publication {
                    topic: will.topic,
                    payload: will.payload,
                    qos: will.qos,
                    retain: will.retain,
                    packet_id: None,
                    dup: false,
                    topic_alias: None,
                    payload_format_indicator: None,
                    response_topic: None,
                    correlation_data: None,
                    subscription_identifiers: Vec::new(),
                };
                assert(publication@ =~= model::will_message(start.clients[client_id@].will->0));
                proof {
                    let gone = offline.clients[client_id@];
                    assert(integrity::session_ok(
                        client_id@,
                        gone,
                        start.next_subscription_order,
                    ));
                    integrity::lemma_session_replaced(start, client_id@, gone);
                }
                deliveries = self.publish(client_id, publication).deliveries;
            }
        }
        if remove_session {
            let ghost after = self@;
            let _ = self.clients.remove(client_id);
            assert(self@.clients =~= after.clients.remove(client_id@));
        }
        deliveries
    }

    /// Subscribes a client to the filters that it asks for: gives a reason code
    /// for each request, and the retained messages that are to be sent.
    pub fn subscribe(&mut self, client_id: &str, filters: Vec<SubscriptionRequest>) -> (result:
        SubscribeResult)
        requires
            old(self).wf(),
            model::has_room(old(self)@, client_id@, packet::request_views(filters@)),
        ensures
            final(self).wf(),
            (final(self)@, result@) == model::subscribing(
                old(self)@,
                client_id@,
                packet::request_views(filters@),
            ),
    {
        let ghost start = self@;
        let ghost requests = packet::request_views(filters@);
        proof {
            integrity::law_subscribe_keeps_order(self@, client_id@, requests);
            if start.clients.contains_key(client_id@) {
                integrity::lemma_new_subscriptions(
                    start.clients[client_id@].subscriptions,
                    requests,
                );
            }
        }
        let upgrade: bool = self.upgrade_outgoing_qos;
        let session = match self.clients.get_mut(client_id) {
            Some(session) => session,
            None => {
                let reason_codes: Vec<u8> = Vec::new();
                let retained: Vec<Delivery> = Vec::new();
                assert(reason_codes@ =~= Seq::empty());
                assert(session::delivery_views(retained@) =~= Seq::empty());
                return SubscribeResult { reason_codes, retained };
            },
        };
        let taken = take_requests(session, self.next_subscription_order, &filters);
        let retained = Self::replay_retained(
            &self.retained,
            session,
            client_id,
            upgrade,
            &taken.replays,
        );
        let ghost after = session@;
        self.next_subscription_order = taken.next_subscription_order;
        assert(self@.clients =~= start.clients.insert(client_id@, after));
        SubscribeResult { reason_codes: taken.reason_codes, retained }
    }

    /// Sends the retained messages that each of a list of new subscriptions
    /// matches.
    fn replay_retained(
        retained: &StringMap<Publication>,
        session: &mut ClientSession,
        client_id: &str,
        upgrade: bool,
        replays: &Vec<Subscription>,
    ) -> (sent: Vec<Delivery>)
        requires
            retained.wf(),
        ensures
            ({
                let (after, list) = model::all_replayed(
                    old(session)@,
                    upgrade,
                    session::retained_views(retained@),
                    session::subscription_views(replays@),
                );
                &&& final(session)@ == after
                &&& session::delivery_views(sent@) == model::addressed(client_id@, list)
            }),
    {
        let ghost start = session@;
        let ghost messages = session::retained_views(retained@);
        let ghost views = session::subscription_views(replays@);
        let mut sent: Vec<Delivery> = Vec::new();
        let mut i: usize = 0;
        proof {
            assert(views.take(0) =~= Seq::empty());
            assert(session::delivery_views(sent@) =~= model::addressed(client_id@, Seq::empty()));
        }
        while i < replays.len()
            invariant
                retained.wf(),
                i <= replays@.len(),
                messages == session::retained_views(retained@),
                views == session::subscription_views(replays@),
                ({
                    let (after, list) = model::all_replayed(
                        start,
                        upgrade,
                        messages,
                        views.take(i as int),
                    );
                    &&& session@ == after
                    &&& session::delivery_views(sent@) == model::addressed(client_id@, list)
                }),
            decreases replays@.len() - i,
        {
            proof {
                steps::lemma_take_next(views, i as int);
                assert(views[i as int] == replays@[i as int]@);
            }
            let mut more = Self::replay_matching(
                retained,
                session,
                client_id,
                upgrade,
                &replays[i],
            );
            let ghost before = sent@;
            let ghost added = more@;
            sent.append(&mut more);
            proof {
                let list = model::all_replayed(start, upgrade, messages, views.take(i + 1)).1;
                assert(session::delivery_views(sent@) =~= session::delivery_views(before)
                    + session::delivery_views(added));
                assert(session::delivery_views(sent@) =~= model::addressed(client_id@, list));
            }
            i = i + 1;
        }
        assert(views.take(i as int) =~= views);
        sent
    }

    /// Sends the retained messages that a new subscription matches.
    fn replay_matching(
        retained: &StringMap<Publication>,
        session: &mut ClientSession,
        client_id: &str,
        upgrade: bool,
        subscription: &Subscription,
    ) -> (sent: Vec<Delivery>)
        requires
            retained.wf(),
        ensures
            ({
                let (after, list) = model::list_replayed(
                    old(session)@,
                    upgrade,
                    subscription@,
                    model::retained_matching(
                        session::retained_views(retained@),
                        subscription@.filter,
                    ),
                );
                &&& final(session)@ == after
                &&& session::delivery_views(sent@) == model::addressed(client_id@, list)
            }),
    {
        let ghost start = session@;
        let ghost messages = session::retained_views(retained@);
        let ghost all = model::retained_list(messages);
        let ghost keep = |p: packet::PublicationView|
            topic::filter_matches(subscription@.filter, p.topic);
        let mut sent: Vec<Delivery> = Vec::new();
        let mut i: usize = 0;
        proof {
            assert(messages.dom() =~= retained@.dom());
            steps::lemma_filter_empty(keep);
            assert(all.take(0) =~= Seq::empty());
            assert(session::delivery_views(sent@) =~= model::addressed(client_id@, Seq::empty()));
        }
        while i < retained.len()
            invariant
                retained.wf(),
                messages == session::retained_views(retained@),
                messages.dom() == retained@.dom(),
                all == model::retained_list(messages),
                i <= all.len(),
                keep == (|p: packet::PublicationView|
                    topic::filter_matches(subscription@.filter, p.topic)),
                ({
                    let (after, list) = model::list_replayed(
                        start,
                        upgrade,
                        subscription@,
                        all.take(i as int).filter(keep),
                    );
                    &&& session@ == after
                    &&& session::delivery_views(sent@) == model::addressed(client_id@, list)
                }),
            decreases all.len() - i,
        {
            let publication = retained.value_at(i);
            let ghost found = all.take(i as int).filter(keep);
            let ghost list = model::list_replayed(start, upgrade, subscription@, found).1;
            let ghost before = sent@;
            proof {
                steps::lemma_filter_next(all, i as int, keep);
                assert(all[i as int] == publication@);
            }
            if crate::topic::matches(subscription.filter.as_str(), publication.topic.as_str()) {
                assert(found.push(publication@).drop_last() =~= found);
                let copy = replay(session, upgrade, subscription, publication);
                let ghost p = copy@;
                sent.push(Delivery { client_id: client_id.to_owned(), publication: copy });
                proof {
                    assert(session::delivery_views(sent@) =~= session::delivery_views(before).push(
                        session::DeliveryView { client_id: client_id@, publication: p },
                    ));
                    assert(session::delivery_views(sent@) =~= model::addressed(
                        client_id@,
                        list.push(p),
                    ));
                }
            }
            i = i + 1;
        }
        assert(all.take(i as int) =~= all);
        sent
    }

    /// Takes subscriptions of a client back.
    pub fn unsubscribe(&mut self, client_id: &str, filters: &[String])
        requires
            old(self).wf(),
        ensures
            final(self).wf(),
            final(self)@ == model::unsubscribing(
                old(self)@,
                client_id@,
                packet::text_views(filters@),
            ),
    {
        let ghost start = self@;
        proof {
            integrity::law_unsubscribe_keeps_order(
                self@,
                client_id@,
                packet::text_views(filters@),
            );
        }
        if let Some(session) = self.clients.get_mut(client_id) {
            drop_subscriptions(session, filters);
            let ghost after = session@;
            assert(self@.clients =~= start.clients.insert(client_id@, after));
        }
    }

    /// Acknowledges a QoS 1 message to a client. Gives whether one was waiting
    /// for that.
    pub fn puback(&mut self, client_id: &str, packet_id: u16) -> (known: bool)
        requires
            old(self).wf(),
        ensures
            final(self).wf(),
            final(self)@ == model::acknowledged(old(self)@, client_id@, packet_id),
            known == model::awaits_puback(old(self)@, client_id@, packet_id),
    {
        broadcast use vstd::std_specs::btree::group_btree_axioms;

        let ghost start = self@;
        proof {
            integrity::law_acknowledgements_keep_order(self@, client_id@, packet_id);
        }
        match self.clients.get_mut(client_id) {
            Some(session) => {
                let ghost before = session.inflight_qos1@;
                let known: bool = session.inflight_qos1.remove(&packet_id).is_some();
                let ghost after = session@;
                proof {
                    assert(session::inflight_view(session.inflight_qos1@) =~= session::inflight_view(
                        before,
                    ).remove(packet_id));
                    assert(self@.clients =~= start.clients.insert(client_id@, after));
                    if !known {
                        assert(after =~= start.clients[client_id@]);
                        assert(self@.clients =~= start.clients);
                    }
                }
                known
            },
            None => false,
        }
    }

    /// Whether a QoS 1 message to a client is not acknowledged yet.
    pub fn has_inflight_qos1(&self, client_id: &str, packet_id: u16) -> (waits: bool)
        requires
            self.wf(),
        ensures
            waits == model::awaits_puback(self@, client_id@, packet_id),
    {
        broadcast use vstd::std_specs::btree::group_btree_axioms;

        match self.clients.get(client_id) {
            Some(session) => session.inflight_qos1.contains_key(&packet_id),
            None => false,
        }
    }

    /// Takes a QoS 2 message of a client: holds it until it is released, and
    /// drops a second one under the same packet identifier.
    pub fn receive_qos2_publish(&mut self, client_id: &str, publication: Publication) -> (result:
        Qos2ReceiveResult)
        requires
            old(self).wf(),
        ensures
            final(self).wf(),
            (final(self)@, result) == model::held(old(self)@, client_id@, publication@),
    {
        broadcast use vstd::std_specs::btree::group_btree_axioms;

        let ghost start = self@;
        let ghost p = publication@;
        proof {
            integrity::law_hold_keeps_order(self@, client_id@, publication@);
        }
        let refused = Qos2ReceiveResult { accepted: false, duplicate: false };
        let packet_id: u16 = match publication.packet_id {
            Some(packet_id) => packet_id,
            None => return refused,
        };
        if publication.qos != 2 || !valid_publication(&publication) {
            return refused;
        }
        match self.clients.get_mut(client_id) {
            Some(session) => {
                if session.inbound_qos2.contains_key(&packet_id) {
                    let ghost after = session@;
                    assert(self@.clients =~= start.clients.insert(client_id@, after));
                    assert(self@.clients =~= start.clients);
                    return Qos2ReceiveResult { accepted: true, duplicate: true };
                }
                let ghost before = session.inbound_qos2@;
                session.inbound_qos2.insert(packet_id, publication);
                let ghost after = session@;
                assert(session::inflight_view(session.inbound_qos2@) =~= session::inflight_view(
                    before,
                ).insert(packet_id, p));
                assert(self@.clients =~= start.clients.insert(client_id@, after));
                Qos2ReceiveResult { accepted: true, duplicate: false }
            },
            None => refused,
        }
    }

    /// Releases a QoS 2 message of a client: publishes it. Gives nothing where
    /// none was held.
    pub fn pubrel(&mut self, client_id: &str, packet_id: u16) -> (result: Option<PublishResult>)
        requires
            old(self).wf(),
        ensures
            final(self).wf(),
            (final(self)@, session::publish_view(result)) == model::released(
                old(self)@,
                client_id@,
                packet_id,
            ),
    {
        broadcast use vstd::std_specs::btree::group_btree_axioms;

        let ghost start = self@;
        proof {
            integrity::law_acknowledgements_keep_order(self@, client_id@, packet_id);
        }
        let publication = match self.clients.get_mut(client_id) {
            Some(session) => {
                let ghost before = session.inbound_qos2@;
                let publication = session.inbound_qos2.remove(&packet_id);
                let ghost after = session@;
                proof {
                    assert(session::inflight_view(session.inbound_qos2@) =~= session::inflight_view(
                        before,
                    ).remove(packet_id));
                    assert(self@.clients =~= start.clients.insert(client_id@, after));
                    if publication is None {
                        assert(after =~= start.clients[client_id@]);
                        assert(self@.clients =~= start.clients);
                    }
                }
                publication
            },
            None => None,
        };
        match publication {
            Some(publication) => {
                proof {
                    let after = self@.clients[client_id@];
                    assert(integrity::session_ok(
                        client_id@,
                        after,
                        start.next_subscription_order,
                    ));
                    integrity::lemma_session_replaced(start, client_id@, after);
                }
                Some(self.publish(client_id, publication))
            },
            None => None,
        }
    }

    /// Takes note that a client has received a QoS 2 message. Gives whether one
    /// was waiting for that.
    pub fn pubrec(&mut self, client_id: &str, packet_id: u16) -> (known: bool)
        requires
            old(self).wf(),
        ensures
            final(self).wf(),
            final(self)@ == model::received(old(self)@, client_id@, packet_id),
            known == model::awaits_pubcomp(old(self)@, client_id@, packet_id),
    {
        broadcast use vstd::std_specs::btree::group_btree_axioms;

        let ghost start = self@;
        proof {
            integrity::law_acknowledgements_keep_order(self@, client_id@, packet_id);
        }
        match self.clients.get_mut(client_id) {
            Some(session) => {
                let ghost before = session.inflight_qos2@;
                let ghost old_session = session@;
                let known: bool = match session.inflight_qos2.remove(&packet_id) {
                    Some(outbound) => {
                        let outbound = Qos2Outbound {
                            publication: outbound.publication,
                            state: Qos2OutboundState::WaitingPubComp,
                        };
                        let ghost changed = outbound@;
                        session.inflight_qos2.insert(packet_id, outbound);
                        assert(session::outbound_view(session.inflight_qos2@)
                            =~= session::outbound_view(before).insert(packet_id, changed));
                        true
                    },
                    None => {
                        assert(session::outbound_view(session.inflight_qos2@)
                            =~= session::outbound_view(before));
                        assert(session@ =~= old_session);
                        false
                    },
                };
                let ghost after = session@;
                proof {
                    assert(self@.clients =~= start.clients.insert(client_id@, after));
                    if !known {
                        assert(self@.clients =~= start.clients);
                    }
                }
                known
            },
            None => false,
        }
    }

    /// Completes a QoS 2 message to a client. Gives whether one was waiting for
    /// that.
    pub fn pubcomp(&mut self, client_id: &str, packet_id: u16) -> (known: bool)
        requires
            old(self).wf(),
        ensures
            final(self).wf(),
            final(self)@ == model::completed(old(self)@, client_id@, packet_id),
            known == model::awaits_pubcomp(old(self)@, client_id@, packet_id),
    {
        broadcast use vstd::std_specs::btree::group_btree_axioms;

        let ghost start = self@;
        proof {
            integrity::law_acknowledgements_keep_order(self@, client_id@, packet_id);
        }
        match self.clients.get_mut(client_id) {
            Some(session) => {
                let ghost before = session.inflight_qos2@;
                let known: bool = session.inflight_qos2.remove(&packet_id).is_some();
                let ghost after = session@;
                proof {
                    assert(session::outbound_view(session.inflight_qos2@) =~= session::outbound_view(
                        before,
                    ).remove(packet_id));
                    assert(self@.clients =~= start.clients.insert(client_id@, after));
                    if !known {
                        assert(after =~= start.clients[client_id@]);
                        assert(self@.clients =~= start.clients);
                    }
                }
                known
            },
            None => false,
        }
    }

    /// Whether a QoS 2 message to a client is not completed yet.
    pub fn has_inflight_qos2(&self, client_id: &str, packet_id: u16) -> (waits: bool)
        requires
            self.wf(),
        ensures
            waits == model::awaits_pubcomp(self@, client_id@, packet_id),
    {
        broadcast use vstd::std_specs::btree::group_btree_axioms;

        match self.clients.get(client_id) {
            Some(session) => session.inflight_qos2.contains_key(&packet_id),
            None => false,
        }
    }

    /// Replaces the retained messages by those of an earlier run.
    pub fn restore_retained(&mut self, retained: Vec<Publication>)
        requires
            old(self).wf(),
        ensures
            final(self).wf(),
            final(self)@ == (BrokerView {
                retained: model::retained_from(packet::publication_views(retained@)),
                ..old(self)@
            }),
    {
        let ghost start = self@;
        let ghost views = packet::publication_views(retained@);
        proof {
            integrity::law_restored_retained_keeps_order(start, views);
            assert(views.take(0) =~= Seq::empty());
        }
        self.retained = StringMap::new();
        assert(self@.retained =~= Map::empty());
        let mut i: usize = 0;
        while i < retained.len()
            invariant
                i <= retained@.len(),
                views == packet::publication_views(retained@),
                self.stored(),
                self@ == (BrokerView {
                    retained: model::retained_from(views.take(i as int)),
                    ..start
                }),
            decreases retained@.len() - i,
        {
            let ghost before = self@;
            let ghost p = retained@[i as int]@;
            proof {
                steps::lemma_take_next(views, i as int);
                assert(views[i as int] == p);
            }
            if valid_publication(&retained[i]) && retained[i].payload.len() > 0 {
                let mut publication = retained[i].clone();
                publication.retain = true;
                publication.packet_id = None;
                publication.dup = false;
                publication.topic_alias = None;
                publication.subscription_identifiers = Vec::new();
                assert(publication@ =~= model::as_retained(p));
                self.retained.insert(publication.topic.clone(), publication);
                assert(self@.retained =~= before.retained.insert(p.topic, model::as_retained(p)));
            }
            i = i + 1;
        }
        assert(views.take(i as int) =~= views);
    }

    /// The retained messages in ascending order of their topics.
    pub fn retained_snapshot(&self) -> (list: Vec<Publication>)
        requires
            self.wf(),
        ensures
            packet::publication_views(list@) == model::retained_list(self@.retained),
    {
        let ghost all = model::retained_list(self@.retained);
        let mut list: Vec<Publication> = Vec::new();
        let mut i: usize = 0;
        proof {
            assert(self@.retained.dom() =~= self.retained@.dom());
        }
        while i < self.retained.len()
            invariant
                self.wf(),
                self@.retained.dom() == self.retained@.dom(),
                all == model::retained_list(self@.retained),
                i <= all.len(),
                list@.len() == i,
                forall|k: int| 0 <= k < i ==> (#[trigger] list@[k])@ == all[k],
            decreases all.len() - i,
        {
            let publication = self.retained.value_at(i);
            assert(all[i as int] == publication@);
            list.push(publication.clone());
            i = i + 1;
        }
        assert(packet::publication_views(list@) =~= all);
        list
    }

    /// Takes over the sessions of an earlier run.
    pub fn restore_sessions(&mut self, sessions: Vec<PersistedSession>)
        requires
            old(self).wf(),
            model::has_room_to_restore(old(self)@, session::persisted_views(sessions@)),
        ensures
            final(self).wf(),
            final(self)@ == model::sessions_taken_over(
                old(self)@,
                session::persisted_views(sessions@),
            ),
    {
        let ghost start = self@;
        let ghost views = session::persisted_views(sessions@);
        let mut i: usize = 0;
        proof {
            integrity::lemma_restored_count(views);
            assert(views.take(0) =~= Seq::empty());
        }
        while i < sessions.len()
            invariant
                i <= sessions@.len(),
                views == session::persisted_views(sessions@),
                start.next_subscription_order + model::restored_subscriptions(views) <= u64::MAX,
                self.wf(),
                self@ == model::sessions_taken_over(start, views.take(i as int)),
                self@.next_subscription_order == start.next_subscription_order
                    + model::restored_subscriptions(views.take(i as int)),
            decreases sessions@.len() - i,
        {
            let ghost before = self@;
            let ghost p = sessions@[i as int]@;
            proof {
                steps::lemma_take_next(views, i as int);
                assert(views[i as int] == p);
                lemma_count_of_front(views, i + 1);
            }
            let persisted = &sessions[i];
            if !persisted.client_id.as_str().is_empty() && persisted.session_expiry_interval != 0 {
                proof {
                    integrity::lemma_session_taken_over_ok(p, before.next_subscription_order);
                    let one = seq![p];
                    assert(one.drop_last() =~= Seq::empty());
                    reveal_with_fuel(model::sessions_taken_over, 2);
                    reveal_with_fuel(model::restored_subscriptions, 2);
                    integrity::law_restored_sessions_keep_order(before, one);
                }
                let (session, order) = restore_session(persisted, self.next_subscription_order);
                let ghost restored = session@;
                self.clients.insert(persisted.client_id.clone(), session);
                self.next_subscription_order = order;
                assert(self@.clients =~= before.clients.insert(p.client_id, restored));
            }
            i = i + 1;
        }
        assert(views.take(i as int) =~= views);
    }

    /// What is persisted of the sessions that outlive their connections, in
    /// ascending order of the clients.
    pub fn session_snapshot(&self) -> (list: Vec<PersistedSession>)
        requires
            self.wf(),
        ensures
            session::persisted_views(list@) == model::sessions_persisted(self@),
    {
        let ghost ids = self@.client_ids();
        let ghost durable = |id: Seq<char>| self@.clients[id].session_expiry_interval != 0;
        let ghost entry = |id: Seq<char>| model::persisted(self@.clients[id]);
        let mut list: Vec<PersistedSession> = Vec::new();
        let mut i: usize = 0;
        proof {
            self.lemma_clients_in_order();
            steps::lemma_filter_empty(durable);
            assert(ids.take(0) =~= Seq::empty());
            assert(session::persisted_views(list@) =~= ids.take(0).filter(durable).map_values(
                entry,
            ));
        }
        while i < self.clients.len()
            invariant
                self.wf(),
                ids == self@.client_ids(),
                ids == self.clients.order(),
                i <= ids.len(),
                durable == (|id: Seq<char>| self@.clients[id].session_expiry_interval != 0),
                entry == (|id: Seq<char>| model::persisted(self@.clients[id])),
                session::persisted_views(list@) == ids.take(i as int).filter(durable).map_values(
                    entry,
                ),
            decreases ids.len() - i,
        {
            let session = self.clients.value_at(i);
            let ghost before = list@;
            let ghost found = ids.take(i as int).filter(durable);
            let ghost id = ids[i as int];
            proof {
                steps::lemma_filter_next(ids, i as int, durable);
                assert(self@.clients[id] == session@);
            }
            if session.session_expiry_interval != 0 {
                let persisted = persist_session(session);
                let ghost p = persisted@;
                list.push(persisted);
                proof {
                    assert(session::persisted_views(list@) =~= session::persisted_views(
                        before,
                    ).push(p));
                    assert(found.push(id).map_values(entry) =~= found.map_values(entry).push(
                        entry(id),
                    ));
                }
            }
            i = i + 1;
        }
        assert(ids.take(i as int) =~= ids);
        list
    }
}

/// With the first sessions of a list no more subscriptions are taken over than with
/// all of them.
proof fn lemma_count_of_front(list: Seq<session::PersistedView>, n: int)
    requires
        0 <= n <= list.len(),
    ensures
        model::restored_subscriptions(list.take(n)) <= model::restored_subscriptions(list),
    decreases list.len() - n,
{
    if n < list.len() {
        steps::lemma_take_next(list, n);
        lemma_count_of_front(list, n + 1);
    } else {
        assert(list.take(n) =~= list);
    }
}

} // verus!
