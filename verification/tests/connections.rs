//! Connections: what the broker makes of a client's packets.

use rusquitto::connection::{
    broker_session_expiry_interval, open_connection, open_connection_at, resolve_topic_alias,
    Action, Connection, Next, Opening, Step,
};
use rusquitto::packet::{
    CMD_CONNECT, CMD_DISCONNECT, CMD_PINGREQ, CMD_PUBACK, CMD_PUBCOMP, CMD_PUBLISH, CMD_PUBREC,
    CMD_PUBREL, CMD_SUBSCRIBE, CMD_UNSUBSCRIBE,
};
use rusquitto::settings::Settings;
use rusquitto::{BrokerState, Frame, ProtocolVersion, Publication};
use std::collections::HashMap;

fn frame(command: u8, flags: u8, body: &[u8]) -> Frame {
    Frame {
        command,
        flags,
        body: body.to_vec(),
    }
}

fn text(value: &str) -> Vec<u8> {
    let mut out = vec![(value.len() / 256) as u8, (value.len() % 256) as u8];
    out.extend_from_slice(value.as_bytes());
    out
}

fn connect_frame(level: u8, clean: bool, client_id: &str) -> Frame {
    let mut body = text("MQTT");
    body.extend_from_slice(&[level, if clean { 2 } else { 0 }, 0, 60]);
    if level == 5 {
        body.push(0);
    }
    body.extend_from_slice(&text(client_id));
    frame(CMD_CONNECT, 0, &body)
}

fn accept(broker: &mut BrokerState, first: &Frame) -> (Connection, Vec<u8>, Vec<Vec<u8>>) {
    match open_connection(broker, &Settings::default(), first, 7) {
        Opening::Accepted {
            connection,
            connack,
            packets,
        } => (connection, connack, packets),
        other => panic!("unexpected opening: {other:?}"),
    }
}

fn publish_frame(flags: u8, topic: &str, packet_id: Option<u16>, v5: bool, payload: &[u8]) -> Frame {
    let mut body = text(topic);
    if let Some(packet_id) = packet_id {
        body.extend_from_slice(&packet_id.to_be_bytes());
    }
    if v5 {
        body.push(0);
    }
    body.extend_from_slice(payload);
    frame(CMD_PUBLISH, flags, &body)
}

fn subscribe_frame(filter: &str, options: u8) -> Frame {
    let mut body = vec![0, 5];
    body.extend_from_slice(&text(filter));
    body.push(options);
    frame(CMD_SUBSCRIBE, 2, &body)
}

fn sends(step: &Step) -> Vec<Vec<u8>> {
    step.actions
        .iter()
        .filter_map(|action| match action {
            Action::Send(bytes) => Some(bytes.clone()),
            Action::Deliver(_) => None,
        })
        .collect()
}

fn delivered(step: &Step) -> usize {
    step.actions
        .iter()
        .map(|action| match action {
            Action::Send(_) => 0,
            Action::Deliver(deliveries) => deliveries.len(),
        })
        .sum()
}

#[test]
fn a_client_is_accepted() {
    let mut broker = BrokerState::new();
    let (connection, connack, packets) = accept(&mut broker, &connect_frame(4, true, "c"));
    assert_eq!(connection.client_id, "c");
    assert_eq!(connection.protocol, ProtocolVersion::V311);
    assert_eq!(connack, vec![0x20, 2, 0, 0]);
    assert!(packets.is_empty());
    assert!(broker.client("c").unwrap().online);
}

#[test]
fn a_client_without_a_name_is_given_one() {
    let mut broker = BrokerState::new();
    let opening = open_connection(
        &mut broker,
        &Settings::default(),
        &connect_frame(4, true, ""),
        1_700_000_000_123_456_789,
    );
    match opening {
        Opening::Accepted { connection, .. } => {
            assert_eq!(connection.client_id, "auto-1700000000123456789")
        }
        other => panic!("unexpected opening: {other:?}"),
    }
    assert!(broker.client("auto-1700000000123456789").is_some());
}

#[test]
fn a_client_without_a_user_name_is_rejected_where_one_is_asked_for() {
    let mut broker = BrokerState::new();
    let closed = Settings {
        allow_anonymous: false,
        ..Settings::default()
    };
    let rejected = |level: u8, broker: &mut BrokerState| match open_connection(
        broker,
        &closed,
        &connect_frame(level, true, "c"),
        0,
    ) {
        Opening::Rejected(bytes) => bytes,
        other => panic!("unexpected opening: {other:?}"),
    };
    assert_eq!(rejected(4, &mut broker), vec![0x20, 2, 0, 5]);
    assert_eq!(rejected(5, &mut broker), vec![0x20, 3, 0, 0x87, 0]);
    assert!(broker.client("c").is_none());

    let mut body = text("MQTT");
    body.extend_from_slice(&[4, 0x82, 0, 60]);
    body.extend_from_slice(&text("c"));
    body.extend_from_slice(&text("user"));
    let opening = open_connection(&mut broker, &closed, &frame(CMD_CONNECT, 0, &body), 0);
    assert!(matches!(opening, Opening::Accepted { .. }));
}

#[test]
fn anything_but_connect_is_ignored_first() {
    let mut broker = BrokerState::new();
    for first in [frame(CMD_PINGREQ, 0, &[]), frame(CMD_CONNECT, 0, &[0])] {
        let opening = open_connection(&mut broker, &Settings::default(), &first, 0);
        assert!(matches!(opening, Opening::Ignored));
    }
}

#[test]
fn sessions_outlive_connections_as_the_revision_says() {
    let v5 = ProtocolVersion::V5;
    let v311 = ProtocolVersion::V311;
    assert_eq!(broker_session_expiry_interval(v5, false, None), 0);
    assert_eq!(broker_session_expiry_interval(v5, true, Some(9)), 9);
    assert_eq!(broker_session_expiry_interval(v311, true, Some(9)), 0);
    assert_eq!(broker_session_expiry_interval(v311, false, None), u32::MAX);
    assert_eq!(
        broker_session_expiry_interval(ProtocolVersion::V31, false, None),
        u32::MAX
    );
}

#[test]
fn a_client_that_comes_back_is_sent_what_it_missed() {
    let mut broker = BrokerState::new();
    let (mut connection, _, _) = accept(&mut broker, &connect_frame(4, false, "c"));
    connection.take_frame(&mut broker, &subscribe_frame("t", 2));
    broker.publish("pub", published("t", 2));
    broker.publish("pub", published("t", 2));
    broker.pubrec("c", 2);
    assert!(connection.lose(&mut broker).is_empty());
    broker.publish("pub", published("t", 1));
    let (_, connack, packets) = accept(&mut broker, &connect_frame(4, false, "c"));
    assert_eq!(connack, vec![0x20, 2, 1, 0]);
    assert_eq!(
        packets,
        vec![
            vec![0x3C, 6, 0, 1, b't', 0, 1, b'x'],
            vec![0x32, 6, 0, 1, b't', 0, 3, b'x'],
            vec![0x62, 2, 0, 2],
        ]
    );
}

fn published(topic: &str, qos: u8) -> Publication {
    Publication {
        topic: topic.to_owned(),
        payload: b"x".to_vec(),
        qos,
        retain: false,
        packet_id: None,
        dup: false,
        topic_alias: None,
        payload_format_indicator: None,
        response_topic: None,
        correlation_data: None,
        subscription_identifiers: Vec::new(),
    }
}

#[test]
fn messages_are_answered_after_they_are_delivered() {
    let mut broker = BrokerState::new();
    let (mut connection, _, _) = accept(&mut broker, &connect_frame(4, true, "c"));
    let step = connection.take_frame(&mut broker, &subscribe_frame("t", 0));
    assert_eq!(sends(&step), vec![vec![0x90, 3, 0, 5, 0]]);
    assert_eq!(step.next, Next::Read);

    let step = connection.take_frame(&mut broker, &publish_frame(0, "t", None, false, b"x"));
    assert_eq!((sends(&step).len(), delivered(&step)), (0, 1));
    let step = connection.take_frame(&mut broker, &publish_frame(2, "t", Some(9), false, b"x"));
    assert!(matches!(&step.actions[0], Action::Deliver(list) if list.len() == 1));
    assert_eq!(step.actions[1], Action::Send(vec![0x40, 2, 0, 9]));
    let step = connection.take_frame(&mut broker, &publish_frame(4, "t", Some(8), false, b"x"));
    assert_eq!(step.actions, vec![Action::Send(vec![0x50, 2, 0, 8])]);
    let step = connection.take_frame(&mut broker, &frame(CMD_PUBREL, 2, &[0, 8]));
    assert_eq!(delivered(&step), 1);
    assert_eq!(sends(&step), vec![vec![0x70, 2, 0, 8]]);
    let step = connection.take_frame(&mut broker, &frame(CMD_PUBREL, 2, &[0, 8]));
    assert_eq!(step.actions, vec![Action::Send(vec![0x70, 2, 0, 8])]);
}

#[test]
fn retained_messages_follow_the_answer_to_subscribe() {
    let mut broker = BrokerState::new();
    let (mut connection, _, _) = accept(&mut broker, &connect_frame(4, true, "c"));
    connection.take_frame(&mut broker, &publish_frame(1, "t", None, false, b"x"));
    let step = connection.take_frame(&mut broker, &subscribe_frame("#", 1));
    assert_eq!(step.actions.len(), 2);
    assert_eq!(step.actions[0], Action::Send(vec![0x90, 3, 0, 5, 1]));
    assert_eq!(delivered(&step), 1);
}

#[test]
fn refusals_are_explained_to_mqtt_5_clients_only() {
    for (level, expected) in [(4, vec![]), (5, vec![vec![0xE0, 1, 0x81]])] {
        let mut broker = BrokerState::new();
        let (mut connection, _, _) = accept(&mut broker, &connect_frame(level, true, "c"));
        let v5 = level == 5;
        for bad in [
            frame(0xF0, 0, &[]),
            publish_frame(0, "a/+", None, v5, b""),
            publish_frame(2, "a/+", Some(1), v5, b""),
            publish_frame(4, "a/+", Some(1), v5, b""),
            publish_frame(0, "", None, v5, b""),
        ] {
            let step = connection.take_frame(&mut broker, &bad);
            assert_eq!(sends(&step), expected);
            assert_eq!(step.next, Next::Lost);
        }
    }
}

#[test]
fn a_refused_filter_ends_the_connection() {
    let mut broker = BrokerState::new();
    let (mut connection, _, _) = accept(&mut broker, &connect_frame(4, true, "c"));
    let step = connection.take_frame(&mut broker, &subscribe_frame("a#", 0));
    assert!(step.actions.is_empty());
    assert_eq!(step.next, Next::Lost);
}

#[test]
fn retained_messages_are_refused_where_they_are_not_available() {
    let mut broker = BrokerState::new();
    let settings = Settings {
        retain_available: false,
        ..Settings::default()
    };
    let opening = open_connection(&mut broker, &settings, &connect_frame(5, true, "c"), 0);
    let mut connection = match opening {
        Opening::Accepted {
            connection, connack, ..
        } => {
            assert!(connack.windows(2).any(|pair| pair == [0x25, 0]));
            connection
        }
        other => panic!("unexpected opening: {other:?}"),
    };
    let step = connection.take_frame(&mut broker, &publish_frame(1, "t", None, true, b"x"));
    assert_eq!(sends(&step), vec![vec![0xE0, 1, 0x9A]]);
    assert_eq!(step.next, Next::Lost);
    assert!(broker.retained_snapshot().is_empty());
}

#[test]
fn acknowledgements_of_the_wrong_kind_end_the_connection() {
    let mut broker = BrokerState::new();
    let (mut connection, _, _) = accept(&mut broker, &connect_frame(5, true, "c"));
    let mut body = vec![0, 5, 0];
    body.extend_from_slice(&text("t"));
    body.push(2);
    connection.take_frame(&mut broker, &frame(CMD_SUBSCRIBE, 2, &body));
    broker.publish("pub", published("t", 1));
    broker.publish("pub", published("t", 2));
    for (command, packet_id) in [(CMD_PUBREC, 1), (CMD_PUBCOMP, 1), (CMD_PUBACK, 2)] {
        let step = connection.take_frame(&mut broker, &frame(command, 0, &[0, packet_id]));
        assert_eq!(sends(&step), vec![vec![0xE0, 1, 0x82]]);
        assert_eq!(step.next, Next::Lost);
    }
    assert!(broker.has_inflight_qos1("c", 1) && broker.has_inflight_qos2("c", 2));

    let step = connection.take_frame(&mut broker, &frame(CMD_PUBACK, 0, &[0, 1]));
    assert!(step.actions.is_empty() && step.next == Next::Read);
    assert!(!broker.has_inflight_qos1("c", 1));
    let step = connection.take_frame(&mut broker, &frame(CMD_PUBREC, 0, &[0, 2]));
    assert_eq!(sends(&step), vec![vec![0x62, 2, 0, 2]]);
    let step = connection.take_frame(&mut broker, &frame(CMD_PUBCOMP, 0, &[0, 2]));
    assert!(step.actions.is_empty() && step.next == Next::Read);
    let step = connection.take_frame(&mut broker, &frame(CMD_PUBREC, 0, &[0, 2]));
    assert!(step.actions.is_empty() && step.next == Next::Read);
}

#[test]
fn small_packets_are_answered() {
    let mut broker = BrokerState::new();
    let (mut connection, _, _) = accept(&mut broker, &connect_frame(4, true, "c"));
    let step = connection.take_frame(&mut broker, &frame(CMD_PINGREQ, 0, &[]));
    assert_eq!(sends(&step), vec![vec![0xD0, 0]]);
    connection.take_frame(&mut broker, &subscribe_frame("a", 0));
    let step = connection.take_frame(&mut broker, &frame(CMD_UNSUBSCRIBE, 2, &[0, 6, 0, 1, b'a']));
    assert_eq!(sends(&step), vec![vec![0xB0, 2, 0, 6]]);
    assert!(broker.client("c").unwrap().subscriptions.is_empty());
    let step = connection.take_frame(&mut broker, &connect_frame(4, true, "c"));
    assert!(step.actions.is_empty());
    assert_eq!(step.next, Next::Lost);
}

#[test]
fn a_goodbye_leaves_no_will() {
    let mut broker = BrokerState::new();
    let (mut watcher, _, _) = accept(&mut broker, &connect_frame(4, true, "watcher"));
    watcher.take_frame(&mut broker, &subscribe_frame("w", 0));
    let with_will = |client_id: &str| {
        let mut body = text("MQTT");
        body.extend_from_slice(&[4, 0x06, 0, 60]);
        body.extend_from_slice(&text(client_id));
        body.extend_from_slice(&text("w"));
        body.extend_from_slice(&text("gone"));
        frame(CMD_CONNECT, 0, &body)
    };
    let (mut polite, _, _) = accept(&mut broker, &with_will("polite"));
    let step = polite.take_frame(&mut broker, &frame(CMD_DISCONNECT, 0, &[]));
    assert_eq!((delivered(&step), step.next), (0, Next::Gone));
    assert!(broker.client("polite").is_none());

    let (lost, _, _) = accept(&mut broker, &with_will("lost"));
    let deliveries = lost.lose(&mut broker);
    assert_eq!(deliveries.len(), 1);
    assert_eq!(deliveries[0].client_id, "watcher");
    assert_eq!(deliveries[0].publication.payload, b"gone");
    assert!(broker.client("lost").is_none());
}

#[test]
fn topic_aliases_are_remembered() {
    let mut aliases: HashMap<u16, String> = HashMap::new();
    let with = |topic: &str, alias: Option<u16>| Publication {
        topic_alias: alias,
        ..published(topic, 0)
    };
    let mut named = with("a", Some(3));
    assert!(resolve_topic_alias(&mut named, &mut aliases));
    let mut short = with("", Some(3));
    assert!(resolve_topic_alias(&mut short, &mut aliases));
    assert_eq!(short.topic, "a");
    let mut changed = with("b", Some(3));
    assert!(resolve_topic_alias(&mut changed, &mut aliases));
    let mut again = with("", Some(3));
    assert!(resolve_topic_alias(&mut again, &mut aliases));
    assert_eq!(again.topic, "b");
    assert!(!resolve_topic_alias(&mut with("", Some(4)), &mut aliases));
    assert!(!resolve_topic_alias(&mut with("", None), &mut aliases));
    assert!(resolve_topic_alias(&mut with("c", None), &mut aliases));
    assert_eq!(aliases.len(), 1);
}

#[test]
fn aliases_work_on_a_connection() {
    let mut broker = BrokerState::new();
    let (mut connection, _, _) = accept(&mut broker, &connect_frame(5, true, "c"));
    let mut body = vec![0, 5, 0];
    body.extend_from_slice(&text("long/topic"));
    body.push(0);
    connection.take_frame(&mut broker, &frame(CMD_SUBSCRIBE, 2, &body));
    let aliased = |topic: &str| {
        let mut body = text(topic);
        body.extend_from_slice(&[3, 0x23, 0, 7, b'x']);
        frame(CMD_PUBLISH, 0, &body)
    };
    assert_eq!(delivered(&connection.take_frame(&mut broker, &aliased("long/topic"))), 1);
    let step = connection.take_frame(&mut broker, &aliased(""));
    match &step.actions[0] {
        Action::Deliver(deliveries) => {
            assert_eq!(deliveries.len(), 1);
            assert_eq!(deliveries[0].publication.topic, "long/topic");
        }
        other => panic!("unexpected action: {other:?}"),
    }
}

#[test]
fn points_in_time_can_be_chosen() {
    let mut broker = BrokerState::new();
    let second = 1_000_000_000;
    let mut body = text("MQTT");
    body.extend_from_slice(&[5, 0, 0, 60, 5, 0x11, 0, 0, 0, 10]);
    body.extend_from_slice(&text("c"));
    let first = frame(CMD_CONNECT, 0, &body);
    let settings = Settings::default();
    let present = |broker: &mut BrokerState, now: u128| match open_connection_at(
        broker, &settings, &first, 0, now,
    ) {
        Opening::Accepted {
            connection, connack, ..
        } => (connection, connack[2] == 1),
        other => panic!("unexpected opening: {other:?}"),
    };
    let (mut connection, resumed) = present(&mut broker, 0);
    assert!(!resumed);
    connection.take_frame_at(&mut broker, &frame(CMD_DISCONNECT, 0, &[]), 100 * second);
    let (connection, resumed) = present(&mut broker, 109 * second);
    assert!(resumed);
    connection.lose_at(&mut broker, 200 * second);
    let (_, resumed) = present(&mut broker, 210 * second);
    assert!(!resumed);
}
