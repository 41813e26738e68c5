//! The data of the broker: subscriptions, client sessions, and what the broker
//! answers with.

use std::collections::BTreeMap;

use vstd::prelude::*;

use crate::packet;
use crate::packet::{Publication, PublicationView, Will, WillView};

verus! {

/// A topic filter that a client has subscribed to, with its options. The order
/// grows with each new subscription of the broker.
#[derive(Debug, PartialEq, Eq)]
pub struct Subscription {
    pub filter: String,
    pub qos: u8,
    pub no_local: bool,
    pub retain_as_published: bool,
    pub retain_handling: u8,
    pub identifier: Option<u32>,
    pub order: u64,
}

#[verifier::ext_equal]
pub struct SubscriptionView {
    pub filter: Seq<char>,
    pub qos: u8,
    pub no_local: bool,
    pub retain_as_published: bool,
    pub retain_handling: u8,
    pub identifier: Option<u32>,
    pub order: u64,
}

impl View for Subscription {
    type V = SubscriptionView;

    open spec fn view(&self) -> SubscriptionView {
        SubscriptionView {
            filter: self.filter@,
            qos: self.qos,
            no_local: self.no_local,
            retain_as_published: self.retain_as_published,
            retain_handling: self.retain_handling,
            identifier: self.identifier,
            order: self.order,
        }
    }
}

impl Clone for Subscription {
    fn clone(&self) -> (copy: Self)
        ensures
            copy@ == self@,
    {
        Subscription {
            filter: self.filter.clone(),
            qos: self.qos,
            no_local: self.no_local,
            retain_as_published: self.retain_as_published,
            retain_handling: self.retain_handling,
            identifier: self.identifier,
            order: self.order,
        }
    }
}

/// The views of a sequence of subscriptions.
pub open spec fn subscription_views(subscriptions: Seq<Subscription>) -> Seq<SubscriptionView> {
    subscriptions.map_values(|s: Subscription| s@)
}

/// What an outgoing QoS 2 message waits for.
#[derive(Debug, Clone, Copy, PartialEq, Eq, Structural)]
pub enum Qos2OutboundState {
    WaitingPubRec,
    WaitingPubComp,
}

/// An outgoing QoS 2 message that is not completed yet.
#[derive(Debug, PartialEq, Eq)]
pub struct Qos2Outbound {
    pub publication: Publication,
    pub state: Qos2OutboundState,
}

#[verifier::ext_equal]
pub struct OutboundView {
    pub publication: PublicationView,
    pub state: Qos2OutboundState,
}

impl View for Qos2Outbound {
    type V = OutboundView;

    open spec fn view(&self) -> OutboundView {
        OutboundView { publication: self.publication@, state: self.state }
    }
}

impl Clone for Qos2Outbound {
    fn clone(&self) -> (copy: Self)
        ensures
            copy@ == self@,
    {
        Qos2Outbound { publication: self.publication.clone(), state: self.state }
    }
}

/// The views of a sequence of outgoing QoS 2 messages.
pub open spec fn outbound_views(outbounds: Seq<Qos2Outbound>) -> Seq<OutboundView> {
    outbounds.map_values(|o: Qos2Outbound| o@)
}

/// The views of the messages of a map.
pub open spec fn inflight_view(map: Map<u16, Publication>) -> Map<u16, PublicationView> {
    map.map_values(|p: Publication| p@)
}

/// The views of the outgoing QoS 2 messages of a map.
pub open spec fn outbound_view(map: Map<u16, Qos2Outbound>) -> Map<u16, OutboundView> {
    map.map_values(|o: Qos2Outbound| o@)
}

/// What outlives the broker's process of one session.
#[derive(Debug, PartialEq, Eq)]
pub struct PersistedSession {
    pub client_id: String,
    pub session_expiry_interval: u32,
    pub subscriptions: Vec<Subscription>,
    pub queued: Vec<Publication>,
    pub inflight_qos1: Vec<Publication>,
    pub inflight_qos2: Vec<Qos2Outbound>,
    pub inbound_qos2: Vec<Publication>,
}

#[verifier::ext_equal]
pub struct PersistedView {
    pub client_id: Seq<char>,
    pub session_expiry_interval: u32,
    pub subscriptions: Seq<SubscriptionView>,
    pub queued: Seq<PublicationView>,
    pub inflight_qos1: Seq<PublicationView>,
    pub inflight_qos2: Seq<OutboundView>,
    pub inbound_qos2: Seq<PublicationView>,
}

impl View for PersistedSession {
    type V = PersistedView;

    open spec fn view(&self) -> PersistedView {
        PersistedView {
            client_id: self.client_id@,
            session_expiry_interval: self.session_expiry_interval,
            subscriptions: subscription_views(self.subscriptions@),
            queued: packet::publication_views(self.queued@),
            inflight_qos1: packet::publication_views(self.inflight_qos1@),
            inflight_qos2: outbound_views(self.inflight_qos2@),
            inbound_qos2: packet::publication_views(self.inbound_qos2@),
        }
    }
}

impl Clone for PersistedSession {
    fn clone(&self) -> (copy: Self)
        ensures
            copy@ == self@,
    {
        PersistedSession {
            client_id: self.client_id.clone(),
            session_expiry_interval: self.session_expiry_interval,
            subscriptions: clone_subscriptions(&self.subscriptions),
            queued: clone_publications(&self.queued),
            inflight_qos1: clone_publications(&self.inflight_qos1),
            inflight_qos2: clone_outbounds(&self.inflight_qos2),
            inbound_qos2: clone_publications(&self.inbound_qos2),
        }
    }
}

/// The views of a sequence of persisted sessions.
pub open spec fn persisted_views(sessions: Seq<PersistedSession>) -> Seq<PersistedView> {
    sessions.map_values(|s: PersistedSession| s@)
}

/// What the broker keeps of one client. The subscriptions stand in the order
/// in which they were made. The time of the disconnect is counted in
/// nanoseconds from the start of the broker.
#[derive(Debug, PartialEq, Eq)]
pub struct ClientSession {
    pub client_id: String,
    pub subscriptions: Vec<Subscription>,
    pub will: Option<Will>,
    pub queued: Vec<Publication>,
    pub inflight_qos1: BTreeMap<u16, Publication>,
    pub inflight_qos2: BTreeMap<u16, Qos2Outbound>,
    pub inbound_qos2: BTreeMap<u16, Publication>,
    pub session_expiry_interval: u32,
    pub disconnected_at: Option<u128>,
    pub online: bool,
    pub next_outgoing_mid: u16,
}

#[verifier::ext_equal]
pub struct SessionView {
    pub client_id: Seq<char>,
    pub subscriptions: Seq<SubscriptionView>,
    pub will: Option<WillView>,
    pub queued: Seq<PublicationView>,
    pub inflight_qos1: Map<u16, PublicationView>,
    pub inflight_qos2: Map<u16, OutboundView>,
    pub inbound_qos2: Map<u16, PublicationView>,
    pub session_expiry_interval: u32,
    pub disconnected_at: Option<u128>,
    pub online: bool,
    pub next_outgoing_mid: u16,
}

impl View for ClientSession {
    type V = SessionView;

    open spec fn view(&self) -> SessionView {
        SessionView {
            client_id: self.client_id@,
            subscriptions: subscription_views(self.subscriptions@),
            will: packet::will_view(self.will),
            queued: packet::publication_views(self.queued@),
            inflight_qos1: inflight_view(self.inflight_qos1@),
            inflight_qos2: outbound_view(self.inflight_qos2@),
            inbound_qos2: inflight_view(self.inbound_qos2@),
            session_expiry_interval: self.session_expiry_interval,
            disconnected_at: self.disconnected_at,
            online: self.online,
            next_outgoing_mid: self.next_outgoing_mid,
        }
    }
}

impl Clone for ClientSession {
    fn clone(&self) -> (copy: Self)
        ensures
            copy@ == self@,
    {
        ClientSession {
            client_id: self.client_id.clone(),
            subscriptions: clone_subscriptions(&self.subscriptions),
            will: match &self.will {
                Some(will) => Some(will.clone()),
                None => None,
            },
            queued: clone_publications(&self.queued),
            inflight_qos1: clone_inflight(&self.inflight_qos1),
            inflight_qos2: clone_outbound_map(&self.inflight_qos2),
            inbound_qos2: clone_inflight(&self.inbound_qos2),
            session_expiry_interval: self.session_expiry_interval,
            disconnected_at: self.disconnected_at,
            online: self.online,
            next_outgoing_mid: self.next_outgoing_mid,
        }
    }
}

/// The views of the sessions of a map.
pub open spec fn session_views(map: Map<Seq<char>, ClientSession>) -> Map<Seq<char>, SessionView> {
    map.map_values(|s: ClientSession| s@)
}

/// The views of the retained messages of a map.
pub open spec fn retained_views(
    map: Map<Seq<char>, Publication>,
) -> Map<Seq<char>, PublicationView> {
    map.map_values(|p: Publication| p@)
}

/// The cursors of a map as numbers.
pub open spec fn cursor_views(map: Map<Seq<char>, usize>) -> Map<Seq<char>, nat> {
    map.map_values(|cursor: usize| cursor as nat)
}

/// A message on its way to a client.
#[derive(Debug, PartialEq, Eq)]
pub struct Delivery {
    pub client_id: String,
    pub publication: Publication,
}

#[verifier::ext_equal]
pub struct DeliveryView {
    pub client_id: Seq<char>,
    pub publication: PublicationView,
}

impl View for Delivery {
    type V = DeliveryView;

    open spec fn view(&self) -> DeliveryView {
        DeliveryView { client_id: self.client_id@, publication: self.publication@ }
    }
}

impl Clone for Delivery {
    fn clone(&self) -> (copy: Self)
        ensures
            copy@ == self@,
    {
        Delivery { client_id: self.client_id.clone(), publication: self.publication.clone() }
    }
}

/// The views of a sequence of deliveries.
pub open spec fn delivery_views(deliveries: Seq<Delivery>) -> Seq<DeliveryView> {
    deliveries.map_values(|d: Delivery| d@)
}

/// The broker's answer to a connect: whether it resumed a session, and what is
/// to be sent to the client first.
#[derive(Debug, Clone, PartialEq, Eq)]
pub struct ConnectResult {
    pub session_present: bool,
    pub queued: Vec<Publication>,
    pub pubrels: Vec<u16>,
}

#[verifier::ext_equal]
pub struct ConnectView {
    pub session_present: bool,
    pub queued: Seq<PublicationView>,
    pub pubrels: Seq<u16>,
}

impl View for ConnectResult {
    type V = ConnectView;

    open spec fn view(&self) -> ConnectView {
        ConnectView {
            session_present: self.session_present,
            queued: packet::publication_views(self.queued@),
            pubrels: self.pubrels@,
        }
    }
}

/// The broker's answer to a subscribe: a reason code for each request, and the
/// retained messages to be sent.
#[derive(Debug, Clone, PartialEq, Eq)]
pub struct SubscribeResult {
    pub reason_codes: Vec<u8>,
    pub retained: Vec<Delivery>,
}

#[verifier::ext_equal]
pub struct SubscribeView {
    pub reason_codes: Seq<u8>,
    pub retained: Seq<DeliveryView>,
}

impl View for SubscribeResult {
    type V = SubscribeView;

    open spec fn view(&self) -> SubscribeView {
        SubscribeView {
            reason_codes: self.reason_codes@,
            retained: delivery_views(self.retained@),
        }
    }
}

/// The broker's answer to a publish: whether the message was taken, and where
/// it goes now.
#[derive(Debug, Clone, PartialEq, Eq)]
pub struct PublishResult {
    pub accepted: bool,
    pub deliveries: Vec<Delivery>,
}

#[verifier::ext_equal]
pub struct PublishView {
    pub accepted: bool,
    pub deliveries: Seq<DeliveryView>,
}

impl View for PublishResult {
    type V = PublishView;

    open spec fn view(&self) -> PublishView {
        PublishView { accepted: self.accepted, deliveries: delivery_views(self.deliveries@) }
    }
}

/// The view of an optional publish result.
pub open spec fn publish_view(result: Option<PublishResult>) -> Option<PublishView> {
    match result {
        Some(r) => Some(r@),
        None => None,
    }
}

/// The broker's answer to a QoS 2 publish.
#[derive(Debug, Clone, Copy, PartialEq, Eq, Structural)]
pub struct Qos2ReceiveResult {
    pub accepted: bool,
    pub duplicate: bool,
}

/// A copy of a list of publications.
pub fn clone_publications(publications: &Vec<Publication>) -> (copy: Vec<Publication>)
    ensures
        packet::publication_views(copy@) == packet::publication_views(publications@),
{
    let mut copy: Vec<Publication> = Vec::new();
    let mut i: usize = 0;
    while i < publications.len()
        invariant
            i <= publications@.len(),
            copy@.len() == i,
            forall|k: int| 0 <= k < i ==> (#[trigger] copy@[k])@ == publications@[k]@,
        decreases publications@.len() - i,
    {
        copy.push(publications[i].clone());
        i = i + 1;
    }
    assert(packet::publication_views(copy@) =~= packet::publication_views(publications@));
    copy
}

/// A copy of a list of subscriptions.
pub fn clone_subscriptions(subscriptions: &Vec<Subscription>) -> (copy: Vec<Subscription>)
    ensures
        subscription_views(copy@) == subscription_views(subscriptions@),
{
    let mut copy: Vec<Subscription> = Vec::new();
    let mut i: usize = 0;
    while i < subscriptions.len()
        invariant
            i <= subscriptions@.len(),
            copy@.len() == i,
            forall|k: int| 0 <= k < i ==> (#[trigger] copy@[k])@ == subscriptions@[k]@,
        decreases subscriptions@.len() - i,
    {
        copy.push(subscriptions[i].clone());
        i = i + 1;
    }
    assert(subscription_views(copy@) =~= subscription_views(subscriptions@));
    copy
}

/// A copy of a list of outgoing QoS 2 messages.
pub fn clone_outbounds(outbounds: &Vec<Qos2Outbound>) -> (copy: Vec<Qos2Outbound>)
    ensures
        outbound_views(copy@) == outbound_views(outbounds@),
{
    let mut copy: Vec<Qos2Outbound> = Vec::new();
    let mut i: usize = 0;
    while i < outbounds.len()
        invariant
            i <= outbounds@.len(),
            copy@.len() == i,
            forall|k: int| 0 <= k < i ==> (#[trigger] copy@[k])@ == outbounds@[k]@,
        decreases outbounds@.len() - i,
    {
        copy.push(outbounds[i].clone());
        i = i + 1;
    }
    assert(outbound_views(copy@) =~= outbound_views(outbounds@));
    copy
}

/// A copy of a map of messages.
pub fn clone_inflight(map: &BTreeMap<u16, Publication>) -> (copy: BTreeMap<u16, Publication>)
    ensures
        inflight_view(copy@) == inflight_view(map@),
{
    broadcast use vstd::std_specs::btree::group_btree_axioms;

    let ids = crate::packet_ids::packet_ids(map);
    let mut copy: BTreeMap<u16, Publication> = BTreeMap::new();
    let mut i: usize = 0;
    proof {
        crate::packet_ids::lemma_ascending_ids(map@.dom());
    }
    while i < ids.len()
        invariant
            i <= ids@.len(),
            forall|k: int| 0 <= k < ids@.len() ==> map@.contains_key(#[trigger] ids@[k]),
            forall|id: u16| #[trigger]
                copy@.contains_key(id) <==> exists|k: int| 0 <= k < i && #[trigger] ids@[k] == id,
            forall|id: u16| #[trigger]
                copy@.contains_key(id) ==> map@.contains_key(id) && copy@[id]@ == map@[id]@,
        decreases ids@.len() - i,
    {
        if let Some(publication) = map.get(&ids[i]) {
            copy.insert(ids[i], publication.clone());
        }
        i = i + 1;
    }
    proof {
        assert forall|id: u16| #[trigger] map@.contains_key(id) implies copy@.contains_key(id) by {
            assert(ids@.contains(id));
            assert(ids@[ids@.index_of(id)] == id);
        }
        assert(inflight_view(copy@) =~= inflight_view(map@));
    }
    copy
}

/// A copy of a map of outgoing QoS 2 messages.
pub fn clone_outbound_map(map: &BTreeMap<u16, Qos2Outbound>) -> (copy: BTreeMap<u16, Qos2Outbound>)
    ensures
        outbound_view(copy@) == outbound_view(map@),
{
    broadcast use vstd::std_specs::btree::group_btree_axioms;

    let ids = crate::packet_ids::packet_ids(map);
    let mut copy: BTreeMap<u16, Qos2Outbound> = BTreeMap::new();
    let mut i: usize = 0;
    proof {
        crate::packet_ids::lemma_ascending_ids(map@.dom());
    }
    while i < ids.len()
        invariant
            i <= ids@.len(),
            forall|k: int| 0 <= k < ids@.len() ==> map@.contains_key(#[trigger] ids@[k]),
            forall|id: u16| #[trigger]
                copy@.contains_key(id) <==> exists|k: int| 0 <= k < i && #[trigger] ids@[k] == id,
            forall|id: u16| #[trigger]
                copy@.contains_key(id) ==> map@.contains_key(id) && copy@[id]@ == map@[id]@,
        decreases ids@.len() - i,
    {
        if let Some(outbound) = map.get(&ids[i]) {
            copy.insert(ids[i], outbound.clone());
        }
        i = i + 1;
    }
    proof {
        assert forall|id: u16| #[trigger] map@.contains_key(id) implies copy@.contains_key(id) by {
            assert(ids@.contains(id));
            assert(ids@[ids@.index_of(id)] == id);
        }
        assert(outbound_view(copy@) =~= outbound_view(map@));
    }
    copy
}

} // verus!
