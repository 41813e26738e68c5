//! Rules of the broker that hold of every state, each on one example.

use rusquitto::{
    BrokerState, PersistedSession, Publication, Qos2Outbound, Qos2OutboundState, Subscription,
    SubscriptionRequest, Will,
};

const SECOND: u128 = 1_000_000_000;

fn request(filter: &str, qos: u8) -> SubscriptionRequest {
    SubscriptionRequest {
        filter: filter.to_owned(),
        qos,
        no_local: false,
        retain_as_published: false,
        retain_handling: 0,
        identifier: None,
    }
}

fn message(topic: &str, payload: &[u8], qos: u8) -> Publication {
    Publication {
        topic: topic.to_owned(),
        payload: payload.to_vec(),
        qos,
        retain: false,
        packet_id: None,
        dup: false,
        topic_alias: None,
        payload_format_indicator: None,
        response_topic: None,
        correlation_data: None,
        subscription_identifiers: Vec::new(),
    }
}

fn retained(topic: &str, payload: &[u8], qos: u8) -> Publication {
    Publication {
        retain: true,
        ..message(topic, payload, qos)
    }
}

fn broker_with(client_id: &str, requests: Vec<SubscriptionRequest>) -> BrokerState {
    let mut broker = BrokerState::new();
    broker.connect(client_id.to_owned(), false, None, 60);
    broker.subscribe(client_id, requests);
    broker
}

#[test]
fn a_refused_message_changes_nothing() {
    let mut broker = broker_with("sub", vec![request("#", 2)]);
    for bad in [
        retained("a/+", b"x", 0),
        retained("", b"x", 0),
        retained("a", b"x", 3),
    ] {
        let result = broker.publish("pub", bad);
        assert!(!result.accepted);
        assert!(result.deliveries.is_empty());
    }
    assert!(broker.retained_snapshot().is_empty());
}

#[test]
fn overlapping_subscriptions_give_one_copy() {
    let mut first = request("a/#", 1);
    first.identifier = Some(1);
    let mut second = request("a/+", 2);
    second.identifier = Some(2);
    let mut broker = broker_with("sub", vec![first, second]);
    let result = broker.publish("pub", message("a/b", b"x", 2));
    assert_eq!(result.deliveries.len(), 1);
    let copy = &result.deliveries[0].publication;
    assert_eq!(copy.qos, 1);
    assert_eq!(copy.subscription_identifiers, vec![1]);
}

#[test]
fn copies_go_out_in_the_order_of_the_clients() {
    let mut broker = BrokerState::new();
    for client_id in ["b", "a", "ä", "c"] {
        broker.connect(client_id.to_owned(), true, None, 0);
        broker.subscribe(client_id, vec![request("t", 0)]);
    }
    let result = broker.publish("pub", message("t", b"x", 0));
    let clients: Vec<&str> = result.deliveries.iter().map(|d| d.client_id.as_str()).collect();
    assert_eq!(clients, vec!["a", "b", "c", "ä"]);
}

#[test]
fn the_lower_qos_wins_unless_upgraded() {
    for (publish, subscribe, plain, upgraded) in [(0, 2, 0, 2), (2, 0, 0, 0), (1, 2, 1, 2), (2, 1, 1, 1)]
    {
        let mut broker = broker_with("sub", vec![request("t", subscribe)]);
        let result = broker.publish("pub", message("t", b"x", publish));
        assert_eq!(result.deliveries[0].publication.qos, plain);
        broker.set_upgrade_outgoing_qos(true);
        let result = broker.publish("pub", message("t", b"x", publish));
        assert_eq!(result.deliveries[0].publication.qos, upgraded);
    }
}

#[test]
fn no_local_keeps_own_messages_away() {
    let mut own = request("t", 0);
    own.no_local = true;
    let mut broker = broker_with("me", vec![own]);
    assert!(broker.publish("me", message("t", b"x", 0)).deliveries.is_empty());
    assert_eq!(broker.publish("you", message("t", b"x", 0)).deliveries.len(), 1);
}

#[test]
fn the_retain_flag_is_passed_on_where_asked_for() {
    let mut broker = broker_with("plain", vec![request("t", 0)]);
    broker.connect("keeping".to_owned(), true, None, 0);
    let mut keeping = request("t", 0);
    keeping.retain_as_published = true;
    broker.subscribe("keeping", vec![keeping]);
    let result = broker.publish("pub", retained("t", b"x", 0));
    let flags: Vec<(&str, bool)> = result
        .deliveries
        .iter()
        .map(|d| (d.client_id.as_str(), d.publication.retain))
        .collect();
    assert_eq!(flags, vec![("keeping", true), ("plain", false)]);
}

#[test]
fn packet_identifiers_run_in_a_circle() {
    let mut broker = broker_with("sub", vec![request("t", 1)]);
    for expected in 1..=65_535u16 {
        let result = broker.publish("pub", message("t", b"x", 1));
        assert_eq!(result.deliveries[0].publication.packet_id, Some(expected));
        assert!(broker.puback("sub", expected));
    }
    let result = broker.publish("pub", message("t", b"x", 1));
    assert_eq!(result.deliveries[0].publication.packet_id, Some(1));
}

#[test]
fn shared_members_take_turns_in_the_order_they_joined() {
    let mut broker = BrokerState::new();
    for client_id in ["c", "a", "b"] {
        broker.connect(client_id.to_owned(), true, None, 0);
        broker.subscribe(client_id, vec![request("$share/g/t", 0)]);
    }
    let mut order = Vec::new();
    for _ in 0..7 {
        let result = broker.publish("pub", message("t", b"x", 0));
        assert_eq!(result.deliveries.len(), 1);
        order.push(result.deliveries[0].client_id.clone());
    }
    assert_eq!(order, vec!["c", "a", "b", "c", "a", "b", "c"]);

    broker.publish("pub", message("other", b"x", 0));
    let result = broker.publish("pub", message("t", b"x", 0));
    assert_eq!(result.deliveries[0].client_id, "a");
}

#[test]
fn offline_members_of_a_shared_filter_are_queued_for() {
    let mut broker = BrokerState::new();
    broker.connect("a".to_owned(), false, None, 60);
    broker.subscribe("a", vec![request("$share/g/t", 1)]);
    broker.disconnect("a", true, None);
    let result = broker.publish("pub", message("t", b"x", 1));
    assert!(result.accepted && result.deliveries.is_empty());
    assert_eq!(broker.client("a").unwrap().queued.len(), 1);
}

#[test]
fn messages_of_qos_0_are_not_queued() {
    let mut broker = broker_with("sub", vec![request("t", 2)]);
    broker.disconnect("sub", true, None);
    broker.publish("pub", message("t", b"lost", 0));
    let result = broker.connect("sub".to_owned(), false, None, 60);
    assert!(result.session_present);
    assert!(result.queued.is_empty());
}

#[test]
fn retained_messages_replace_each_other_by_topic() {
    let mut broker = BrokerState::new();
    broker.publish("pub", retained("b", b"1", 1));
    broker.publish("pub", retained("a", b"2", 0));
    broker.publish("pub", retained("b", b"3", 2));
    broker.publish("pub", message("b", b"4", 0));
    let snapshot = broker.retained_snapshot();
    let kept: Vec<(&str, &[u8], u8)> = snapshot
        .iter()
        .map(|p| (p.topic.as_str(), p.payload.as_slice(), p.qos))
        .collect();
    assert_eq!(kept, vec![("a", &b"2"[..], 0), ("b", &b"3"[..], 2)]);
    broker.publish("pub", retained("b", b"", 0));
    assert_eq!(broker.retained_snapshot().len(), 1);
}

#[test]
fn retained_messages_survive_a_restart() {
    let mut broker = BrokerState::new();
    let mut first = retained("x/y", b"1", 1);
    first.dup = true;
    first.topic_alias = Some(9);
    first.packet_id = Some(4);
    broker.publish("pub", first);
    broker.publish("pub", retained("a", b"2", 0));
    let mut restored = BrokerState::new();
    restored.publish("pub", retained("old", b"gone", 0));
    restored.restore_retained(broker.retained_snapshot());
    let snapshot = restored.retained_snapshot();
    assert_eq!(snapshot.len(), 2);
    assert_eq!(snapshot[0], retained("a", b"2", 0));
    assert_eq!(snapshot[1], retained("x/y", b"1", 1));
}

#[test]
fn restored_retained_messages_are_checked() {
    let mut broker = BrokerState::new();
    broker.restore_retained(vec![
        message("t", b"1", 0),
        retained("t", b"2", 0),
        retained("a/#", b"3", 0),
        retained("empty", b"", 0),
        retained("qos", b"4", 3),
    ]);
    assert_eq!(broker.retained_snapshot(), vec![retained("t", b"2", 0)]);
}

#[test]
fn retain_handling_decides_on_replays() {
    let mut broker = BrokerState::new();
    broker.publish("pub", retained("t", b"x", 0));
    broker.connect("sub".to_owned(), true, None, 0);
    let mut once = request("t", 0);
    once.retain_handling = 1;
    assert_eq!(broker.subscribe("sub", vec![once.clone()]).retained.len(), 1);
    assert_eq!(broker.subscribe("sub", vec![once]).retained.len(), 0);
    assert_eq!(broker.subscribe("sub", vec![request("t", 0)]).retained.len(), 1);
    let mut never = request("t", 0);
    never.retain_handling = 2;
    assert_eq!(broker.subscribe("sub", vec![never]).retained.len(), 0);
}

#[test]
fn each_request_gets_its_reason_code() {
    let mut broker = BrokerState::new();
    broker.connect("sub".to_owned(), true, None, 0);
    let mut zero = request("a", 0);
    zero.identifier = Some(0);
    let mut handling = request("a", 0);
    handling.retain_handling = 3;
    let result = broker.subscribe(
        "sub",
        vec![
            request("a", 2),
            request("a#", 1),
            request("b", 3),
            zero,
            handling,
            request("c/#", 1),
        ],
    );
    assert_eq!(result.reason_codes, vec![2, 0x80, 0x80, 0x80, 0x80, 1]);
    assert_eq!(broker.client("sub").unwrap().subscriptions.len(), 2);
    assert!(broker.subscribe("nobody", vec![request("a", 0)]).reason_codes.is_empty());
}

#[test]
fn a_second_subscription_to_a_filter_replaces_the_first() {
    let mut broker = broker_with("sub", vec![request("a", 0), request("b", 0)]);
    let before = broker.next_subscription_order();
    broker.subscribe("sub", vec![request("a", 2)]);
    assert_eq!(broker.next_subscription_order(), before);
    let subscriptions = &broker.client("sub").unwrap().subscriptions;
    assert_eq!(subscriptions.len(), 2);
    assert_eq!((subscriptions[0].filter.as_str(), subscriptions[0].qos), ("a", 2));
    assert_eq!(subscriptions[0].order, 1);
    assert_eq!(subscriptions[1].order, 2);
}

#[test]
fn unsubscribed_filters_are_gone() {
    let mut broker = broker_with("sub", vec![request("a", 0), request("b", 0), request("c", 0)]);
    broker.unsubscribe("sub", &["b".to_owned(), "nothing".to_owned()]);
    let left: Vec<&str> = broker
        .client("sub")
        .unwrap()
        .subscriptions
        .iter()
        .map(|s| s.filter.as_str())
        .collect();
    assert_eq!(left, vec!["a", "c"]);
    assert!(broker.publish("pub", message("b", b"x", 0)).deliveries.is_empty());
    broker.unsubscribe("nobody", &["a".to_owned()]);
}

#[test]
fn acknowledgements_of_others_change_nothing() {
    let mut broker = broker_with("sub", vec![request("t", 2)]);
    broker.publish("pub", message("t", b"x", 1));
    assert!(!broker.puback("nobody", 1));
    assert!(!broker.puback("sub", 2));
    assert!(!broker.pubrec("sub", 1));
    assert!(!broker.pubcomp("sub", 1));
    assert!(broker.has_inflight_qos1("sub", 1));
    assert!(broker.puback("sub", 1));
}

#[test]
fn held_messages_are_checked() {
    let mut broker = BrokerState::new();
    broker.connect("pub".to_owned(), true, None, 0);
    let good = Publication {
        packet_id: Some(5),
        ..message("t", b"x", 2)
    };
    let cases = [
        ("pub", Publication { packet_id: None, ..good.clone() }),
        ("pub", Publication { qos: 1, ..good.clone() }),
        ("pub", Publication { topic: "t/#".to_owned(), ..good.clone() }),
        ("nobody", good.clone()),
    ];
    for (client_id, publication) in cases {
        let result = broker.receive_qos2_publish(client_id, publication);
        assert!(!result.accepted && !result.duplicate);
    }
    assert!(broker.receive_qos2_publish("pub", good).accepted);
    assert!(broker.pubrel("pub", 6).is_none());
    assert!(broker.pubrel("nobody", 5).is_none());
    assert!(broker.pubrel("pub", 5).is_some());
}

#[test]
fn a_will_is_published_once_and_not_after_a_goodbye() {
    let will = Will {
        topic: "w".to_owned(),
        payload: b"gone".to_vec(),
        qos: 1,
        retain: true,
    };
    let mut broker = broker_with("sub", vec![request("w", 1)]);
    broker.connect("one".to_owned(), false, Some(will.clone()), 60);
    assert!(broker.disconnect("one", true, None).is_empty());
    assert!(broker.disconnect("one", false, None).is_empty());
    assert!(broker.retained_snapshot().is_empty());
    broker.connect("one".to_owned(), false, Some(will), 60);
    let deliveries = broker.disconnect("one", false, None);
    assert_eq!(deliveries.len(), 1);
    assert_eq!(deliveries[0].publication.packet_id, Some(1));
    assert!(broker.disconnect("one", false, None).is_empty());
    assert_eq!(broker.retained_snapshot().len(), 1);
    assert!(broker.disconnect("nobody", false, None).is_empty());
}

#[test]
fn sessions_expire_when_their_time_is_over() {
    let mut broker = BrokerState::new();
    for (client_id, interval) in [("short", 10), ("long", 20), ("ever", u32::MAX), ("online", 1)] {
        broker.connect_at(client_id.to_owned(), false, None, interval, 0);
    }
    for client_id in ["short", "long", "ever"] {
        broker.disconnect_at(client_id, true, None, 5 * SECOND);
    }
    broker.expire_sessions_at(15 * SECOND - 1);
    assert!(broker.client("short").is_some());
    broker.expire_sessions_at(15 * SECOND);
    assert!(broker.client("short").is_none());
    assert!(broker.client("long").is_some());
    broker.expire_sessions_at(u128::MAX);
    assert!(broker.client("long").is_none());
    assert!(broker.client("ever").is_some());
    assert!(broker.client("online").is_some());
    broker.expire_sessions_at(0);
    assert!(broker.client("ever").is_some());
}

#[test]
fn a_session_outlives_the_connection_for_its_interval() {
    let mut broker = BrokerState::new();
    broker.connect_at("sub".to_owned(), false, None, 10, 0);
    broker.subscribe("sub", vec![request("t", 1)]);
    broker.disconnect_at("sub", true, Some(30), 100 * SECOND);
    broker.publish("pub", message("t", b"x", 1));
    let back = broker.connect_at("sub".to_owned(), false, None, 10, 129 * SECOND);
    assert!(back.session_present);
    assert_eq!(back.queued.len(), 1);
    broker.disconnect_at("sub", true, None, 200 * SECOND);
    let late = broker.connect_at("sub".to_owned(), false, None, 10, 210 * SECOND);
    assert!(!late.session_present);
    assert!(broker.client("sub").unwrap().subscriptions.is_empty());
}

#[test]
fn a_clean_start_forgets_everything() {
    let mut broker = broker_with("sub", vec![request("t", 2)]);
    broker.publish("pub", message("t", b"x", 2));
    broker.disconnect("sub", true, None);
    broker.publish("pub", message("t", b"y", 1));
    let result = broker.connect("sub".to_owned(), true, None, 60);
    assert!(!result.session_present);
    assert!(result.queued.is_empty() && result.pubrels.is_empty());
    let session = broker.client("sub").unwrap();
    assert!(session.subscriptions.is_empty() && session.inflight_qos2.is_empty());
    assert_eq!(session.next_outgoing_mid, 1);
}

#[test]
fn what_is_sent_on_connect_comes_in_order() {
    let mut broker = broker_with("sub", vec![request("t", 2)]);
    broker.publish("pub", message("t", b"a", 2));
    broker.publish("pub", message("t", b"b", 1));
    broker.publish("pub", message("t", b"c", 2));
    broker.publish("pub", message("t", b"d", 2));
    broker.pubrec("sub", 3);
    broker.disconnect("sub", false, None);
    broker.publish("pub", message("t", b"e", 1));
    let result = broker.connect("sub".to_owned(), false, None, 60);
    let sent: Vec<(&[u8], Option<u16>, bool)> = result
        .queued
        .iter()
        .map(|p| (p.payload.as_slice(), p.packet_id, p.dup))
        .collect();
    assert_eq!(
        sent,
        vec![
            (&b"b"[..], Some(2), true),
            (&b"a"[..], Some(1), true),
            (&b"d"[..], Some(4), true),
            (&b"e"[..], Some(5), false),
        ]
    );
    assert_eq!(result.pubrels, vec![3]);
}

fn subscription(filter: &str, order: u64) -> Subscription {
    Subscription {
        filter: filter.to_owned(),
        qos: 1,
        no_local: false,
        retain_as_published: false,
        retain_handling: 0,
        identifier: None,
        order,
    }
}

fn persisted(client_id: &str) -> PersistedSession {
    PersistedSession {
        client_id: client_id.to_owned(),
        session_expiry_interval: 60,
        subscriptions: Vec::new(),
        queued: Vec::new(),
        inflight_qos1: Vec::new(),
        inflight_qos2: Vec::new(),
        inbound_qos2: Vec::new(),
    }
}

#[test]
fn restored_sessions_are_checked() {
    let mut broker = BrokerState::new();
    let numbered = |topic: &str, qos: u8, packet_id: u16| Publication {
        packet_id: Some(packet_id),
        topic_alias: Some(3),
        subscription_identifiers: vec![0, 8, 0],
        ..message(topic, b"x", qos)
    };
    let mut session = persisted("c");
    session.subscriptions = vec![
        subscription("b", 7),
        subscription("a#", 8),
        subscription("a", 3),
        subscription("b", 1),
    ];
    session.queued = vec![
        numbered("t", 1, 20),
        message("t", b"no id", 1),
        numbered("t", 0, 21),
        numbered("t/+", 1, 22),
    ];
    session.inflight_qos1 = vec![numbered("t", 1, 30), numbered("t", 2, 31)];
    session.inflight_qos2 = vec![Qos2Outbound {
        publication: numbered("t", 2, 25),
        state: Qos2OutboundState::WaitingPubComp,
    }];
    session.inbound_qos2 = vec![numbered("t", 2, 900), numbered("t", 1, 901)];
    let mut gone = persisted("gone");
    gone.session_expiry_interval = 0;
    broker.restore_sessions(vec![session, persisted(""), gone]);

    assert!(broker.client("").is_none());
    assert!(broker.client("gone").is_none());
    let restored = broker.client("c").unwrap();
    let filters: Vec<(&str, u64)> = restored
        .subscriptions
        .iter()
        .map(|s| (s.filter.as_str(), s.order))
        .collect();
    assert_eq!(filters, vec![("a", 2), ("b", 3)]);
    assert_eq!(restored.queued.len(), 1);
    assert_eq!(restored.queued[0].topic_alias, None);
    assert_eq!(restored.queued[0].subscription_identifiers, vec![8]);
    assert_eq!(restored.inflight_qos1.len(), 1);
    assert_eq!(
        restored.inflight_qos2[&25].state,
        Qos2OutboundState::WaitingPubComp
    );
    assert_eq!(restored.inbound_qos2.len(), 1);
    assert_eq!(restored.next_outgoing_mid, 31);
    assert!(!restored.online && restored.will.is_none());
    assert_eq!(broker.next_subscription_order(), 4);
}

#[test]
fn the_count_starts_over_behind_the_greatest_identifier() {
    let mut broker = BrokerState::new();
    let mut session = persisted("c");
    session.inflight_qos1 = vec![Publication {
        packet_id: Some(65_535),
        ..message("t", b"x", 1)
    }];
    broker.restore_sessions(vec![session, persisted("d")]);
    assert_eq!(broker.client("c").unwrap().next_outgoing_mid, 1);
    assert_eq!(broker.client("d").unwrap().next_outgoing_mid, 1);
}

#[test]
fn sessions_survive_a_restart() {
    let mut broker = BrokerState::new();
    for client_id in ["b", "a"] {
        broker.connect(client_id.to_owned(), false, None, 60);
        broker.subscribe(client_id, vec![request("t", 2), request("u", 1)]);
    }
    broker.connect("passing".to_owned(), true, None, 0);
    broker.publish("pub", message("t", b"x", 2));
    broker.disconnect("b", true, None);
    broker.publish("pub", message("u", b"y", 1));
    let snapshot = broker.session_snapshot();
    let clients: Vec<&str> = snapshot.iter().map(|s| s.client_id.as_str()).collect();
    assert_eq!(clients, vec!["a", "b"]);

    let mut restored = BrokerState::new();
    restored.restore_sessions(snapshot);
    let again = restored.session_snapshot();
    for (before, after) in broker.session_snapshot().iter().zip(again.iter()) {
        assert_eq!(after.queued, before.queued);
        assert_eq!(after.inflight_qos1, before.inflight_qos1);
        assert_eq!(after.inflight_qos2, before.inflight_qos2);
        assert_eq!(after.inbound_qos2, before.inbound_qos2);
        let names = |s: &PersistedSession| -> Vec<String> {
            s.subscriptions.iter().map(|s| s.filter.clone()).collect()
        };
        assert_eq!(names(after), names(before));
    }
}

#[test]
fn a_default_broker_counts_from_zero() {
    assert_eq!(BrokerState::default().next_subscription_order(), 0);
    assert_eq!(BrokerState::new().next_subscription_order(), 1);
}

#[test]
fn a_clone_goes_its_own_way() {
    let broker = broker_with("sub", vec![request("t", 1)]);
    let mut copy = broker.clone();
    copy.publish("pub", retained("t", b"x", 1));
    assert!(copy.has_inflight_qos1("sub", 1));
    assert!(!broker.has_inflight_qos1("sub", 1));
    assert!(broker.retained_snapshot().is_empty());
    assert_eq!(copy.client("sub").unwrap().subscriptions, broker.client("sub").unwrap().subscriptions);
}

#[test]
fn the_clock_of_the_broker_moves_on() {
    let mut broker = BrokerState::new();
    broker.connect("sub".to_owned(), false, None, 60);
    assert_eq!(broker.client("sub").unwrap().disconnected_at, None);
    broker.disconnect("sub", true, None);
    let first = broker.client("sub").unwrap().disconnected_at.unwrap();
    while {
        broker.disconnect("sub", true, None);
        broker.client("sub").unwrap().disconnected_at.unwrap() <= first
    } {}
    assert!(broker.client("sub").unwrap().disconnected_at.unwrap() > first);
}

#[test]
fn a_snapshot_is_the_same_again_after_a_restart() {
    let mut broker = BrokerState::new();
    for client_id in ["b", "", "a"] {
        broker.connect(client_id.to_owned(), false, None, 60);
        broker.subscribe(client_id, vec![request("t", 2), request("u", 1)]);
    }
    let aliased = Publication {
        topic_alias: Some(4),
        ..message("t", b"x", 2)
    };
    broker.publish("pub", aliased.clone());
    broker.disconnect("b", true, None);
    broker.publish("pub", aliased);
    broker.pubrec("a", 1);
    let held = Publication {
        packet_id: Some(7),
        ..message("t", b"y", 2)
    };
    assert!(broker.receive_qos2_publish("a", held).accepted);

    let snapshot = broker.session_snapshot();
    assert_eq!(snapshot.len(), 3);
    assert_eq!(snapshot[1].inflight_qos2[0].publication.topic_alias, Some(4));
    let mut restored = BrokerState::new();
    restored.restore_sessions(snapshot.clone());

    let mut expected: Vec<PersistedSession> = snapshot
        .into_iter()
        .filter(|session| !session.client_id.is_empty())
        .collect();
    let mut order = 1;
    for session in &mut expected {
        for subscription in &mut session.subscriptions {
            subscription.order = order;
            order += 1;
        }
        for publication in &mut session.queued {
            publication.topic_alias = None;
        }
        for outbound in &mut session.inflight_qos2 {
            outbound.publication.topic_alias = None;
        }
    }
    assert_eq!(order, 5);
    assert_eq!(restored.session_snapshot(), expected);
}

#[test]
fn the_count_goes_on_behind_the_greatest_restored_identifier() {
    let numbered = |qos: u8, packet_id: u16| Publication {
        packet_id: Some(packet_id),
        ..message("t", b"x", qos)
    };
    let mut session = persisted("c");
    session.subscriptions = vec![subscription("t", 1)];
    session.queued = vec![numbered(2, 20)];
    session.inflight_qos1 = vec![numbered(1, 41), numbered(1, 3)];
    session.inflight_qos2 = vec![Qos2Outbound {
        publication: numbered(2, 40),
        state: Qos2OutboundState::WaitingPubRec,
    }];
    session.inbound_qos2 = vec![numbered(2, 900)];
    let mut broker = BrokerState::new();
    broker.restore_sessions(vec![session]);

    let mut published = broker.clone();
    published.publish("pub", message("t", b"new", 1));
    let queued = &published.client("c").unwrap().queued;
    assert_eq!(queued[1].packet_id, Some(42));
    published.publish("pub", message("t", b"new", 1));
    assert_eq!(published.client("c").unwrap().queued[2].packet_id, Some(43));

    broker.publish("pub", retained("r/1", b"0", 0));
    broker.publish("pub", retained("r/2", b"1", 1));
    broker.publish("pub", retained("r/3", b"2", 2));
    let replayed = broker.subscribe("c", vec![request("r/#", 2)]).retained;
    let ids: Vec<Option<u16>> = replayed.iter().map(|d| d.publication.packet_id).collect();
    assert_eq!(ids, vec![None, Some(42), Some(43)]);

    broker.connect("c".to_owned(), false, None, 60);
    let result = broker.publish("pub", message("t", b"new", 1));
    assert_eq!(result.deliveries[0].publication.packet_id, Some(44));
}

#[test]
fn subscribing_again_replaces_in_the_snapshot() {
    let mut broker = broker_with("c", vec![request("a", 0), request("b", 1), request("c", 2)]);
    broker.connect("d".to_owned(), false, None, 60);
    broker.subscribe("d", vec![request("b", 1)]);
    let before = broker.session_snapshot();
    let again = SubscriptionRequest {
        filter: "b".to_owned(),
        qos: 2,
        no_local: true,
        retain_as_published: true,
        retain_handling: 1,
        identifier: Some(5),
    };
    assert_eq!(broker.subscribe("c", vec![again]).reason_codes, vec![2]);
    let mut expected = before;
    expected[0].subscriptions[1] = Subscription {
        filter: "b".to_owned(),
        qos: 2,
        no_local: true,
        retain_as_published: true,
        retain_handling: 1,
        identifier: Some(5),
        order: 2,
    };
    assert_eq!(broker.session_snapshot(), expected);
}
