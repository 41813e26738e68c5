//! The broker: routing, acknowledgements, retained messages, sessions.

use std::time::Duration;

use rusquitto::{
    BrokerState, PersistedSession, Publication, PublishResult, Qos2OutboundState, Subscription,
    SubscriptionRequest, Will,
};

fn publication(topic: &str, retain: bool) -> Publication {
    Publication {
        topic: topic.to_owned(),
        payload: b"payload".to_vec(),
        qos: 0,
        retain,
        packet_id: None,
        dup: false,
        topic_alias: None,
        payload_format_indicator: None,
        response_topic: None,
        correlation_data: None,
        subscription_identifiers: Vec::new(),
    }
}

fn delivered_clients(result: &PublishResult) -> Vec<&str> {
    let mut clients: Vec<_> = result
        .deliveries
        .iter()
        .map(|delivery| delivery.client_id.as_str())
        .collect();
    clients.sort_unstable();
    clients
}

#[test]
fn routes_matching_subscriptions() {
    let mut broker = BrokerState::new();
    broker.connect("sub".into(), true, None, 0);
    broker.subscribe(
        "sub",
        vec![SubscriptionRequest {
            filter: "a/+/c".into(),
            qos: 0,
            no_local: false,
            retain_as_published: false,
            retain_handling: 0,
            identifier: None,
        }],
    );
    let result = broker.publish("pub", publication("a/b/c", false));
    assert!(result.accepted);
    assert_eq!(result.deliveries.len(), 1);
    assert_eq!(result.deliveries[0].client_id, "sub");
}

#[test]
fn assigns_outbound_packet_ids_per_client_session() {
    let mut broker = BrokerState::new();
    for client_id in ["sub-a", "sub-b"] {
        broker.connect(client_id.into(), true, None, 0);
        broker.subscribe(
            client_id,
            vec![SubscriptionRequest {
                filter: "topic".into(),
                qos: 1,
                no_local: false,
                retain_as_published: false,
                retain_handling: 0,
                identifier: None,
            }],
        );
    }

    let mut first = publication("topic", false);
    first.qos = 1;
    first.packet_id = Some(10);
    let first = broker.publish("pub-a", first);
    let mut mids: Vec<_> = first
        .deliveries
        .iter()
        .map(|delivery| (delivery.client_id.as_str(), delivery.publication.packet_id))
        .collect();
    mids.sort_unstable();
    assert_eq!(mids, vec![("sub-a", Some(1)), ("sub-b", Some(1))]);

    broker.puback("sub-a", 1);
    broker.puback("sub-b", 1);

    let mut second = publication("topic", false);
    second.qos = 1;
    second.packet_id = Some(11);
    let second = broker.publish("pub-b", second);
    let mut mids: Vec<_> = second
        .deliveries
        .iter()
        .map(|delivery| (delivery.client_id.as_str(), delivery.publication.packet_id))
        .collect();
    mids.sort_unstable();
    assert_eq!(mids, vec![("sub-a", Some(2)), ("sub-b", Some(2))]);
}

#[test]
fn attaches_subscription_identifier_to_live_deliveries() {
    let mut broker = BrokerState::new();
    broker.connect("sub".into(), true, None, 0);
    broker.subscribe(
        "sub",
        vec![SubscriptionRequest {
            filter: "identified/#".into(),
            qos: 0,
            no_local: false,
            retain_as_published: false,
            retain_handling: 0,
            identifier: Some(42),
        }],
    );

    let mut inbound = publication("identified/topic", false);
    inbound.subscription_identifiers.push(99);
    let result = broker.publish("pub", inbound);

    assert!(result.accepted);
    assert_eq!(result.deliveries.len(), 1);
    assert_eq!(
        result.deliveries[0].publication.subscription_identifiers,
        vec![42]
    );
}

#[test]
fn routes_shared_subscriptions_round_robin_by_group() {
    let mut broker = BrokerState::new();
    for client_id in ["client1", "client2", "client3", "client4", "client5"] {
        broker.connect(client_id.into(), true, None, 0);
    }

    broker.subscribe(
        "client1",
        vec![SubscriptionRequest {
            filter: "shared/#".into(),
            qos: 0,
            no_local: false,
            retain_as_published: false,
            retain_handling: 0,
            identifier: None,
        }],
    );
    for client_id in ["client2", "client3", "client5"] {
        broker.subscribe(
            client_id,
            vec![SubscriptionRequest {
                filter: "$share/one/shared/topic".into(),
                qos: 0,
                no_local: false,
                retain_as_published: false,
                retain_handling: 0,
                identifier: None,
            }],
        );
    }
    for client_id in ["client3", "client4"] {
        broker.subscribe(
            client_id,
            vec![SubscriptionRequest {
                filter: "$share/two/shared/topic".into(),
                qos: 0,
                no_local: false,
                retain_as_published: false,
                retain_handling: 0,
                identifier: None,
            }],
        );
    }

    let first = broker.publish("client1", publication("shared/topic", false));
    assert_eq!(
        delivered_clients(&first),
        vec!["client1", "client2", "client3"]
    );

    let second = broker.publish("client1", publication("shared/topic", false));
    assert_eq!(
        delivered_clients(&second),
        vec!["client1", "client3", "client4"]
    );

    let third = broker.publish("client1", publication("shared/topic", false));
    assert_eq!(
        delivered_clients(&third),
        vec!["client1", "client3", "client5"]
    );
}

#[test]
fn retains_and_replays_messages() {
    let mut broker = BrokerState::new();
    broker.connect("pub".into(), true, None, 0);
    broker.publish("pub", publication("retain/topic", true));
    broker.connect("sub".into(), true, None, 0);
    let result = broker.subscribe(
        "sub",
        vec![SubscriptionRequest {
            filter: "retain/#".into(),
            qos: 0,
            no_local: false,
            retain_as_published: false,
            retain_handling: 0,
            identifier: None,
        }],
    );
    assert_eq!(result.reason_codes, vec![0]);
    assert_eq!(result.retained.len(), 1);
    assert!(result.retained[0].publication.retain);
}

#[test]
fn attaches_subscription_identifier_to_retained_replays() {
    let mut broker = BrokerState::new();
    broker.connect("pub".into(), true, None, 0);
    broker.publish("pub", publication("retain/identified", true));
    broker.connect("sub".into(), true, None, 0);

    let result = broker.subscribe(
        "sub",
        vec![SubscriptionRequest {
            filter: "retain/#".into(),
            qos: 0,
            no_local: false,
            retain_as_published: false,
            retain_handling: 0,
            identifier: Some(77),
        }],
    );

    assert_eq!(result.retained.len(), 1);
    assert_eq!(
        result.retained[0].publication.subscription_identifiers,
        vec![77]
    );
}

#[test]
fn replays_retained_messages_in_topic_order_and_clears_deleted_topics() {
    let mut broker = BrokerState::new();
    broker.connect("pub".into(), true, None, 0);
    broker.publish("pub", publication("1/2/3/4/5/6/7", true));
    broker.publish("pub", publication("1/2/3/4", true));
    broker.publish("pub", publication("1", true));

    broker.connect("sub1".into(), true, None, 0);
    let result = broker.subscribe(
        "sub1",
        vec![SubscriptionRequest {
            filter: "#".into(),
            qos: 0,
            no_local: false,
            retain_as_published: false,
            retain_handling: 0,
            identifier: None,
        }],
    );
    assert_eq!(
        result
            .retained
            .iter()
            .map(|delivery| delivery.publication.topic.as_str())
            .collect::<Vec<_>>(),
        vec!["1", "1/2/3/4", "1/2/3/4/5/6/7"]
    );

    let mut clear = publication("1/2/3/4", true);
    clear.payload.clear();
    broker.publish("pub", clear);

    broker.connect("sub2".into(), true, None, 0);
    let result = broker.subscribe(
        "sub2",
        vec![SubscriptionRequest {
            filter: "#".into(),
            qos: 0,
            no_local: false,
            retain_as_published: false,
            retain_handling: 0,
            identifier: None,
        }],
    );
    assert_eq!(
        result
            .retained
            .iter()
            .map(|delivery| delivery.publication.topic.as_str())
            .collect::<Vec<_>>(),
        vec!["1", "1/2/3/4/5/6/7"]
    );
}

#[test]
fn can_upgrade_retained_replay_qos_to_subscription_qos() {
    let mut broker = BrokerState::new();
    broker.set_upgrade_outgoing_qos(true);
    broker.connect("pub".into(), true, None, 0);
    broker.publish("pub", publication("retain/upgrade", true));
    broker.connect("sub".into(), true, None, 0);

    let result = broker.subscribe(
        "sub",
        vec![SubscriptionRequest {
            filter: "retain/upgrade".into(),
            qos: 1,
            no_local: false,
            retain_as_published: false,
            retain_handling: 0,
            identifier: None,
        }],
    );

    assert_eq!(result.retained.len(), 1);
    assert_eq!(result.retained[0].publication.qos, 1);
    assert_eq!(result.retained[0].publication.packet_id, Some(1));
    assert!(broker.has_inflight_qos1("sub", 1));
}

#[test]
fn publishes_will_on_ungraceful_disconnect() {
    let mut broker = BrokerState::new();
    broker.connect("sub".into(), true, None, 0);
    broker.subscribe(
        "sub",
        vec![SubscriptionRequest {
            filter: "will/topic".into(),
            qos: 0,
            no_local: false,
            retain_as_published: false,
            retain_handling: 0,
            identifier: None,
        }],
    );
    broker.connect(
        "will".into(),
        true,
        Some(Will {
            topic: "will/topic".into(),
            payload: b"gone".to_vec(),
            qos: 0,
            retain: false,
        }),
        0,
    );
    let deliveries = broker.disconnect("will", false, None);
    assert_eq!(deliveries.len(), 1);
    assert_eq!(deliveries[0].publication.payload, b"gone");
}

#[test]
fn tracks_qos1_deliveries_until_puback() {
    let mut broker = BrokerState::new();
    broker.connect("sub".into(), false, None, 60);
    broker.subscribe(
        "sub",
        vec![SubscriptionRequest {
            filter: "online/qos1".into(),
            qos: 1,
            no_local: false,
            retain_as_published: false,
            retain_handling: 0,
            identifier: None,
        }],
    );

    let mut outgoing = publication("online/qos1", false);
    outgoing.qos = 1;
    let publish_result = broker.publish("pub", outgoing);
    assert_eq!(publish_result.deliveries.len(), 1);
    let packet_id = publish_result.deliveries[0].publication.packet_id.unwrap();
    assert!(broker.has_inflight_qos1("sub", packet_id));

    assert!(broker.puback("sub", packet_id));
    assert!(!broker.has_inflight_qos1("sub", packet_id));
    assert!(!broker.puback("sub", packet_id));
}

#[test]
fn tracks_qos1_retained_replays_until_puback() {
    let mut broker = BrokerState::new();
    let mut retained = publication("retained/qos1", true);
    retained.qos = 1;
    broker.publish("pub", retained);
    broker.connect("sub".into(), false, None, 60);

    let result = broker.subscribe(
        "sub",
        vec![SubscriptionRequest {
            filter: "retained/#".into(),
            qos: 1,
            no_local: false,
            retain_as_published: false,
            retain_handling: 0,
            identifier: None,
        }],
    );

    assert_eq!(result.retained.len(), 1);
    let packet_id = result.retained[0].publication.packet_id.unwrap();
    assert!(broker.has_inflight_qos1("sub", packet_id));
    assert!(broker.puback("sub", packet_id));
}

#[test]
fn replays_unacked_qos1_with_dup_on_reconnect() {
    let mut broker = BrokerState::new();
    broker.connect("sub".into(), false, None, 60);
    broker.subscribe(
        "sub",
        vec![SubscriptionRequest {
            filter: "replay/qos1".into(),
            qos: 1,
            no_local: false,
            retain_as_published: false,
            retain_handling: 0,
            identifier: None,
        }],
    );

    let mut outgoing = publication("replay/qos1", false);
    outgoing.qos = 1;
    let publish_result = broker.publish("pub", outgoing);
    let packet_id = publish_result.deliveries[0].publication.packet_id.unwrap();
    broker.disconnect("sub", true, None);

    let reconnect = broker.connect("sub".into(), false, None, 60);
    assert!(reconnect.session_present);
    assert_eq!(reconnect.queued.len(), 1);
    assert_eq!(reconnect.queued[0].packet_id, Some(packet_id));
    assert!(reconnect.queued[0].dup);
    assert!(broker.has_inflight_qos1("sub", packet_id));
}

#[test]
fn tracks_qos2_deliveries_until_pubrec_pubcomp() {
    let mut broker = BrokerState::new();
    broker.connect("sub".into(), false, None, 60);
    broker.subscribe(
        "sub",
        vec![SubscriptionRequest {
            filter: "online/qos2".into(),
            qos: 2,
            no_local: false,
            retain_as_published: false,
            retain_handling: 0,
            identifier: None,
        }],
    );

    let mut outgoing = publication("online/qos2", false);
    outgoing.qos = 2;
    let publish_result = broker.publish("pub", outgoing);
    assert_eq!(publish_result.deliveries.len(), 1);
    let packet_id = publish_result.deliveries[0].publication.packet_id.unwrap();
    assert!(broker.has_inflight_qos2("sub", packet_id));
    assert_eq!(
        broker.client("sub").unwrap().inflight_qos2[&packet_id].state,
        Qos2OutboundState::WaitingPubRec
    );

    assert!(broker.pubrec("sub", packet_id));
    assert_eq!(
        broker.client("sub").unwrap().inflight_qos2[&packet_id].state,
        Qos2OutboundState::WaitingPubComp
    );
    assert!(broker.pubrec("sub", packet_id));
    assert!(broker.pubcomp("sub", packet_id));
    assert!(!broker.has_inflight_qos2("sub", packet_id));
    assert!(!broker.pubcomp("sub", packet_id));
}

#[test]
fn holds_inbound_qos2_until_pubrel() {
    let mut broker = BrokerState::new();
    broker.connect("sub".into(), true, None, 0);
    broker.subscribe(
        "sub",
        vec![SubscriptionRequest {
            filter: "inbound/qos2".into(),
            qos: 0,
            no_local: false,
            retain_as_published: false,
            retain_handling: 0,
            identifier: None,
        }],
    );
    broker.connect("pub".into(), true, None, 0);

    let mut inbound = publication("inbound/qos2", false);
    inbound.qos = 2;
    inbound.packet_id = Some(7);
    let first = broker.receive_qos2_publish("pub", inbound.clone());
    assert!(first.accepted);
    assert!(!first.duplicate);
    assert_eq!(broker.client("pub").unwrap().inbound_qos2.len(), 1);

    let duplicate = broker.receive_qos2_publish("pub", inbound);
    assert!(duplicate.accepted);
    assert!(duplicate.duplicate);
    assert_eq!(broker.client("pub").unwrap().inbound_qos2.len(), 1);

    let released = broker.pubrel("pub", 7).unwrap();
    assert!(released.accepted);
    assert_eq!(released.deliveries.len(), 1);
    assert_eq!(released.deliveries[0].client_id, "sub");
    assert!(broker.pubrel("pub", 7).is_none());
}

#[test]
fn replays_qos2_publish_or_pubrel_on_reconnect() {
    let mut broker = BrokerState::new();
    broker.connect("sub".into(), false, None, 60);
    broker.subscribe(
        "sub",
        vec![SubscriptionRequest {
            filter: "replay/qos2".into(),
            qos: 2,
            no_local: false,
            retain_as_published: false,
            retain_handling: 0,
            identifier: None,
        }],
    );

    let mut outgoing = publication("replay/qos2", false);
    outgoing.qos = 2;
    let publish_result = broker.publish("pub", outgoing);
    let packet_id = publish_result.deliveries[0].publication.packet_id.unwrap();
    broker.disconnect("sub", true, None);

    let reconnect = broker.connect("sub".into(), false, None, 60);
    assert!(reconnect.session_present);
    assert_eq!(reconnect.queued.len(), 1);
    assert_eq!(reconnect.queued[0].packet_id, Some(packet_id));
    assert!(reconnect.queued[0].dup);
    assert!(reconnect.pubrels.is_empty());

    assert!(broker.pubrec("sub", packet_id));
    broker.disconnect("sub", true, None);
    let reconnect = broker.connect("sub".into(), false, None, 60);
    assert!(reconnect.queued.is_empty());
    assert_eq!(reconnect.pubrels, vec![packet_id]);
    assert!(broker.pubcomp("sub", packet_id));
}

#[test]
fn queues_qos2_messages_for_offline_durable_sessions() {
    let mut broker = BrokerState::new();
    broker.connect("sub".into(), false, None, 60);
    broker.subscribe(
        "sub",
        vec![SubscriptionRequest {
            filter: "offline/qos2".into(),
            qos: 2,
            no_local: false,
            retain_as_published: false,
            retain_handling: 0,
            identifier: None,
        }],
    );
    broker.disconnect("sub", true, None);

    let mut queued = publication("offline/qos2", false);
    queued.qos = 2;
    let publish_result = broker.publish("pub", queued);
    assert!(publish_result.accepted);
    assert!(publish_result.deliveries.is_empty());

    let reconnect = broker.connect("sub".into(), false, None, 60);
    assert!(reconnect.session_present);
    assert_eq!(reconnect.queued.len(), 1);
    assert_eq!(reconnect.queued[0].topic, "offline/qos2");
    assert_eq!(reconnect.queued[0].qos, 2);
    assert_eq!(reconnect.queued[0].packet_id, Some(1));
    assert!(!reconnect.queued[0].dup);
    assert!(reconnect.pubrels.is_empty());
    assert!(broker.has_inflight_qos2("sub", 1));
}

#[test]
fn queues_qos_messages_for_offline_durable_sessions() {
    let mut broker = BrokerState::new();
    broker.connect("sub".into(), false, None, 60);
    broker.subscribe(
        "sub",
        vec![SubscriptionRequest {
            filter: "offline/qos1".into(),
            qos: 1,
            no_local: false,
            retain_as_published: false,
            retain_handling: 0,
            identifier: None,
        }],
    );
    broker.disconnect("sub", true, None);

    let mut queued = publication("offline/qos1", false);
    queued.qos = 1;
    queued.packet_id = Some(10);
    let publish_result = broker.publish("pub", queued);
    assert!(publish_result.accepted);
    assert!(publish_result.deliveries.is_empty());

    let reconnect = broker.connect("sub".into(), false, None, 60);
    assert!(reconnect.session_present);
    assert_eq!(reconnect.queued.len(), 1);
    assert_eq!(reconnect.queued[0].topic, "offline/qos1");
    assert_eq!(reconnect.queued[0].qos, 1);
    assert_eq!(reconnect.queued[0].packet_id, Some(1));
    assert!(!reconnect.queued[0].dup);
    assert!(broker.has_inflight_qos1("sub", 1));
    assert!(broker.puback("sub", 1));
}

#[test]
fn queues_subscription_identifier_for_offline_durable_sessions() {
    let mut broker = BrokerState::new();
    broker.connect("sub".into(), false, None, 60);
    broker.subscribe(
        "sub",
        vec![SubscriptionRequest {
            filter: "offline/identified".into(),
            qos: 1,
            no_local: false,
            retain_as_published: false,
            retain_handling: 0,
            identifier: Some(88),
        }],
    );
    broker.disconnect("sub", true, None);

    let mut queued = publication("offline/identified", false);
    queued.qos = 1;
    let publish_result = broker.publish("pub", queued);
    assert!(publish_result.accepted);
    assert!(publish_result.deliveries.is_empty());

    let reconnect = broker.connect("sub".into(), false, None, 60);
    assert_eq!(reconnect.queued.len(), 1);
    assert_eq!(reconnect.queued[0].subscription_identifiers, vec![88]);
}

#[test]
fn snapshots_durable_sessions_for_persistence() {
    let mut broker = BrokerState::new();
    broker.connect("durable".into(), false, None, 60);
    broker.subscribe(
        "durable",
        vec![SubscriptionRequest {
            filter: "persist/b".into(),
            qos: 1,
            no_local: true,
            retain_as_published: true,
            retain_handling: 2,
            identifier: Some(9),
        }],
    );
    broker.connect("clean".into(), true, None, 0);

    let snapshot = broker.session_snapshot();

    assert_eq!(snapshot.len(), 1);
    assert_eq!(snapshot[0].client_id, "durable");
    assert_eq!(snapshot[0].session_expiry_interval, 60);
    assert_eq!(snapshot[0].subscriptions.len(), 1);
    let subscription = &snapshot[0].subscriptions[0];
    assert_eq!(subscription.filter, "persist/b");
    assert_eq!(subscription.qos, 1);
    assert!(subscription.no_local);
    assert!(subscription.retain_as_published);
    assert_eq!(subscription.retain_handling, 2);
    assert_eq!(subscription.identifier, Some(9));
}

#[test]
fn restores_persisted_sessions_for_reconnect_and_routing() {
    let mut broker = BrokerState::new();
    broker.restore_sessions(vec![PersistedSession {
        client_id: "durable".into(),
        session_expiry_interval: 60,
        subscriptions: vec![Subscription {
            filter: "persist/#".into(),
            qos: 1,
            no_local: false,
            retain_as_published: false,
            retain_handling: 0,
            identifier: Some(12),
            order: 99,
        }],
        queued: Vec::new(),
        inflight_qos1: Vec::new(),
        inflight_qos2: Vec::new(),
        inbound_qos2: Vec::new(),
    }]);

    let mut queued = publication("persist/topic", false);
    queued.qos = 1;
    let publish_result = broker.publish("pub", queued);
    assert!(publish_result.accepted);
    assert!(publish_result.deliveries.is_empty());

    let reconnect = broker.connect("durable".into(), false, None, 60);
    assert!(reconnect.session_present);
    assert_eq!(reconnect.queued.len(), 1);
    assert_eq!(reconnect.queued[0].topic, "persist/topic");
    assert_eq!(reconnect.queued[0].qos, 1);
    assert_eq!(reconnect.queued[0].subscription_identifiers, vec![12]);
}

#[test]
fn snapshots_and_restores_queued_messages_for_persistence() {
    let mut broker = BrokerState::new();
    broker.connect("durable".into(), false, None, 60);
    broker.subscribe(
        "durable",
        vec![SubscriptionRequest {
            filter: "persist/#".into(),
            qos: 1,
            no_local: false,
            retain_as_published: false,
            retain_handling: 0,
            identifier: Some(5),
        }],
    );
    broker.disconnect("durable", true, None);

    let mut queued = publication("persist/queued", false);
    queued.qos = 1;
    let publish_result = broker.publish("pub", queued);
    assert!(publish_result.accepted);
    assert!(publish_result.deliveries.is_empty());

    let snapshot = broker.session_snapshot();
    assert_eq!(snapshot.len(), 1);
    assert_eq!(snapshot[0].queued.len(), 1);
    assert_eq!(snapshot[0].queued[0].packet_id, Some(1));

    let mut restored = BrokerState::new();
    restored.restore_sessions(snapshot);
    let reconnect = restored.connect("durable".into(), false, None, 60);
    assert!(reconnect.session_present);
    assert_eq!(reconnect.queued.len(), 1);
    assert_eq!(reconnect.queued[0].topic, "persist/queued");
    assert_eq!(reconnect.queued[0].packet_id, Some(1));
    assert_eq!(reconnect.queued[0].subscription_identifiers, vec![5]);
    assert!(restored.puback("durable", 1));

    restored.disconnect("durable", true, None);
    let mut next = publication("persist/next", false);
    next.qos = 1;
    restored.publish("pub", next);
    let reconnect = restored.connect("durable".into(), false, None, 60);
    assert_eq!(reconnect.queued.len(), 1);
    assert_eq!(reconnect.queued[0].packet_id, Some(2));
}

#[test]
fn snapshots_and_restores_outbound_qos1_inflight_for_persistence() {
    let mut broker = BrokerState::new();
    broker.connect("sub".into(), false, None, 60);
    broker.subscribe(
        "sub",
        vec![SubscriptionRequest {
            filter: "persist/qos1".into(),
            qos: 1,
            no_local: false,
            retain_as_published: false,
            retain_handling: 0,
            identifier: None,
        }],
    );

    let mut publication = publication("persist/qos1", false);
    publication.qos = 1;
    let result = broker.publish("pub", publication);
    let packet_id = result.deliveries[0].publication.packet_id.unwrap();

    let snapshot = broker.session_snapshot();
    assert_eq!(snapshot[0].inflight_qos1.len(), 1);

    let mut restored = BrokerState::new();
    restored.restore_sessions(snapshot);
    let reconnect = restored.connect("sub".into(), false, None, 60);
    assert!(reconnect.session_present);
    assert_eq!(reconnect.queued.len(), 1);
    assert_eq!(reconnect.queued[0].packet_id, Some(packet_id));
    assert!(reconnect.queued[0].dup);
}

#[test]
fn snapshots_and_restores_outbound_qos2_inflight_for_persistence() {
    let mut broker = BrokerState::new();
    broker.connect("sub".into(), false, None, 60);
    broker.subscribe(
        "sub",
        vec![SubscriptionRequest {
            filter: "persist/qos2".into(),
            qos: 2,
            no_local: false,
            retain_as_published: false,
            retain_handling: 0,
            identifier: None,
        }],
    );

    let mut publication = publication("persist/qos2", false);
    publication.qos = 2;
    let result = broker.publish("pub", publication);
    let packet_id = result.deliveries[0].publication.packet_id.unwrap();

    let snapshot = broker.session_snapshot();
    assert_eq!(snapshot[0].inflight_qos2.len(), 1);
    assert_eq!(
        snapshot[0].inflight_qos2[0].state,
        Qos2OutboundState::WaitingPubRec
    );

    let mut restored = BrokerState::new();
    restored.restore_sessions(snapshot);
    let reconnect = restored.connect("sub".into(), false, None, 60);
    assert_eq!(reconnect.queued.len(), 1);
    assert_eq!(reconnect.queued[0].packet_id, Some(packet_id));
    assert!(reconnect.queued[0].dup);

    assert!(restored.pubrec("sub", packet_id));
    let snapshot = restored.session_snapshot();
    assert_eq!(
        snapshot[0].inflight_qos2[0].state,
        Qos2OutboundState::WaitingPubComp
    );

    let mut restored = BrokerState::new();
    restored.restore_sessions(snapshot);
    let reconnect = restored.connect("sub".into(), false, None, 60);
    assert!(reconnect.queued.is_empty());
    assert_eq!(reconnect.pubrels, vec![packet_id]);
}

#[test]
fn snapshots_and_restores_inbound_qos2_for_persistence() {
    let mut broker = BrokerState::new();
    broker.connect("pub".into(), false, None, 60);

    let mut inbound = publication("persist/inbound", false);
    inbound.qos = 2;
    inbound.packet_id = Some(17);
    let result = broker.receive_qos2_publish("pub", inbound);
    assert!(result.accepted);

    let snapshot = broker.session_snapshot();
    assert_eq!(snapshot.len(), 1);
    assert_eq!(snapshot[0].inbound_qos2.len(), 1);
    assert_eq!(snapshot[0].inbound_qos2[0].packet_id, Some(17));

    let mut restored = BrokerState::new();
    restored.restore_sessions(snapshot);
    restored.connect("sub".into(), true, None, 0);
    restored.subscribe(
        "sub",
        vec![SubscriptionRequest {
            filter: "persist/inbound".into(),
            qos: 2,
            no_local: false,
            retain_as_published: false,
            retain_handling: 0,
            identifier: None,
        }],
    );

    let reconnect = restored.connect("pub".into(), false, None, 60);
    assert!(reconnect.session_present);
    let result = restored.pubrel("pub", 17).expect("pubrel should release");
    assert!(result.accepted);
    assert_eq!(result.deliveries.len(), 1);
    assert_eq!(result.deliveries[0].client_id, "sub");
    assert_eq!(result.deliveries[0].publication.topic, "persist/inbound");
    assert_eq!(result.deliveries[0].publication.payload, b"payload");
}

#[test]
fn expires_offline_sessions() {
    let mut broker = BrokerState::new();
    broker.connect("sub".into(), false, None, 1);
    broker.subscribe(
        "sub",
        vec![SubscriptionRequest {
            filter: "expire/me".into(),
            qos: 1,
            no_local: false,
            retain_as_published: false,
            retain_handling: 0,
            identifier: None,
        }],
    );
    broker.disconnect("sub", true, None);
    let disconnected_at = broker.client("sub").unwrap().disconnected_at.unwrap();
    broker.expire_sessions_at(disconnected_at + Duration::from_secs(2).as_nanos());

    let reconnect = broker.connect("sub".into(), false, None, 1);
    assert!(!reconnect.session_present);
    assert!(reconnect.queued.is_empty());
}

#[test]
fn disconnect_can_clear_session_with_expiry_zero() {
    let mut broker = BrokerState::new();
    broker.connect("sub".into(), false, None, 60);
    broker.disconnect("sub", true, Some(0));
    let reconnect = broker.connect("sub".into(), false, None, 60);
    assert!(!reconnect.session_present);
}
