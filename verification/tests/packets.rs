//! Encoding and decoding of control packets.

use rusquitto::packet::{
    CMD_CONNECT, CMD_DISCONNECT, CMD_PINGREQ, CMD_PUBACK, CMD_PUBLISH, CMD_SUBSCRIBE,
};
use rusquitto::properties::{
    PROP_CORRELATION_DATA, PROP_PAYLOAD_FORMAT_INDICATOR, PROP_RESPONSE_TOPIC,
};
use rusquitto::{
    decode_frame, encode_connack, encode_connack_with_assigned_client_id,
    encode_connack_with_options, encode_connack_with_retain_available, encode_frame,
    encode_puback_reason, encode_publish, encode_pubrel, ConnackOptions, Frame, MqttPacket,
    ProtocolError, ProtocolVersion, Publication,
};

#[test]
fn encodes_remaining_length_boundaries() {
    assert_eq!(&encode_frame(CMD_PINGREQ, 0, &[]), &[0xC0, 0x00]);
    assert_eq!(
        &encode_frame(CMD_PUBLISH, 0, &[0; 128])[0..3],
        &[0x30, 0x80, 0x01]
    );
}

#[test]
fn encodes_mqtt_v5_connack_properties() {
    assert_eq!(
        encode_connack(ProtocolVersion::V5, false, 0),
        vec![0x20, 14, 0, 0, 11, 0x22, 0, 10, 0x27, 0, 0x1E, 0x84, 0x80, 0x21, 0, 20,]
    );
}

#[test]
fn encodes_mqtt_v5_connack_retain_unavailable() {
    assert_eq!(
        encode_connack_with_retain_available(ProtocolVersion::V5, false, 0, false),
        vec![0x20, 16, 0, 0, 13, 0x22, 0, 10, 0x25, 0, 0x27, 0, 0x1E, 0x84, 0x80, 0x21, 0, 20,]
    );
}

#[test]
fn encodes_mqtt_v5_assigned_client_identifier() {
    assert_eq!(
        encode_connack_with_assigned_client_id(
            ProtocolVersion::V5,
            false,
            0,
            true,
            Some("auto-test"),
        ),
        vec![
            0x20, 26, 0, 0, 23, 0x22, 0, 10, 0x12, 0, 9, b'a', b'u', b't', b'o', b'-', b't',
            b'e', b's', b't', 0x27, 0, 0x1E, 0x84, 0x80, 0x21, 0, 20,
        ]
    );
}

#[test]
fn encodes_mqtt_v5_configured_maximum_packet_size() {
    assert_eq!(
        encode_connack_with_options(
            ProtocolVersion::V5,
            false,
            0,
            ConnackOptions {
                maximum_packet_size: 50,
                ..ConnackOptions::default()
            },
        ),
        vec![0x20, 14, 0, 0, 11, 0x22, 0, 10, 0x27, 0, 0, 0, 50, 0x21, 0, 20,]
    );
}

#[test]
fn encodes_mqtt_v5_server_keep_alive() {
    assert_eq!(
        encode_connack_with_options(
            ProtocolVersion::V5,
            false,
            0,
            ConnackOptions {
                server_keep_alive: Some(60),
                ..ConnackOptions::default()
            },
        ),
        vec![
            0x20, 17, 0, 0, 14, 0x13, 0, 60, 0x22, 0, 10, 0x27, 0, 0x1E, 0x84, 0x80, 0x21, 0,
            20,
        ]
    );
}

#[test]
fn encodes_mqtt_v5_error_connack_without_properties() {
    assert_eq!(
        encode_connack(ProtocolVersion::V5, false, 0x87),
        vec![0x20, 3, 0, 0x87, 0]
    );
}

#[test]
fn decodes_mqtt_v5_connect() {
    let body = [
        0, 4, b'M', b'Q', b'T', b'T', 5, 2, 0, 60, 0, 0, 6, b'c', b'l', b'i', b'e', b'n', b't',
    ];
    let packet = decode_frame(
        &Frame {
            command: CMD_CONNECT,
            flags: 0,
            body: body.to_vec(),
        },
        None,
    )
    .unwrap();
    match packet {
        MqttPacket::Connect {
            protocol,
            client_id,
            clean_start,
            session_expiry_interval,
            ..
        } => {
            assert_eq!(protocol, ProtocolVersion::V5);
            assert_eq!(client_id, "client");
            assert!(clean_start);
            assert_eq!(session_expiry_interval, None);
        }
        other => panic!("unexpected packet: {other:?}"),
    }
}

#[test]
fn decodes_session_expiry_properties() {
    let body = [
        0, 4, b'M', b'Q', b'T', b'T', 5, 0, 0, 60, 5, 0x11, 0, 0, 0, 60, 0, 6, b'c', b'l',
        b'i', b'e', b'n', b't',
    ];
    let packet = decode_frame(
        &Frame {
            command: CMD_CONNECT,
            flags: 0,
            body: body.to_vec(),
        },
        None,
    )
    .unwrap();
    match packet {
        MqttPacket::Connect {
            session_expiry_interval,
            ..
        } => {
            assert_eq!(session_expiry_interval, Some(60));
        }
        other => panic!("unexpected packet: {other:?}"),
    }

    let disconnect = decode_frame(
        &Frame {
            command: CMD_DISCONNECT,
            flags: 0,
            body: vec![0, 5, 0x11, 0, 0, 0, 3],
        },
        Some(ProtocolVersion::V5),
    )
    .unwrap();
    match disconnect {
        MqttPacket::Disconnect {
            reason_code,
            session_expiry_interval,
        } => {
            assert_eq!(reason_code, Some(0));
            assert_eq!(session_expiry_interval, Some(3));
        }
        other => panic!("unexpected packet: {other:?}"),
    }
}

#[test]
fn decodes_qos1_publish_packet_identifier() {
    let packet = decode_frame(
        &Frame {
            command: CMD_PUBLISH,
            flags: 0x02,
            body: vec![0, 1, b'a', 0x12, 0x34, b'p'],
        },
        Some(ProtocolVersion::V311),
    )
    .unwrap();
    match packet {
        MqttPacket::Publish(publication) => {
            assert_eq!(publication.qos, 1);
            assert_eq!(publication.packet_id, Some(0x1234));
            assert_eq!(publication.payload, b"p");
        }
        other => panic!("unexpected packet: {other:?}"),
    }
}

#[test]
fn rejects_zero_packet_identifier() {
    let publish = decode_frame(
        &Frame {
            command: CMD_PUBLISH,
            flags: 0x02,
            body: vec![0, 1, b'a', 0, 0],
        },
        Some(ProtocolVersion::V311),
    );
    assert!(matches!(publish, Err(ProtocolError::MalformedPacket(_))));

    let puback = decode_frame(
        &Frame {
            command: CMD_PUBACK,
            flags: 0,
            body: vec![0, 0],
        },
        Some(ProtocolVersion::V311),
    );
    assert!(matches!(puback, Err(ProtocolError::MalformedPacket(_))));
}

#[test]
fn encodes_qos1_publish_packet_identifier() {
    let encoded = encode_publish(
        ProtocolVersion::V311,
        &Publication {
            topic: "a".into(),
            payload: b"p".to_vec(),
            qos: 1,
            retain: false,
            packet_id: Some(0x1234),
            dup: true,
            topic_alias: None,
            payload_format_indicator: None,
            response_topic: None,
            correlation_data: None,
            subscription_identifiers: Vec::new(),
        },
    );
    assert_eq!(encoded, vec![0x3A, 6, 0, 1, b'a', 0x12, 0x34, b'p']);
}

#[test]
fn decodes_mqtt_v5_connect_maximum_packet_size() {
    let body = [
        0, 4, b'M', b'Q', b'T', b'T', 5, 2, 0, 60, 5, 0x27, 0, 0, 0, 40, 0, 6, b'c', b'l',
        b'i', b'e', b'n', b't',
    ];
    let packet = decode_frame(
        &Frame {
            command: CMD_CONNECT,
            flags: 0,
            body: body.to_vec(),
        },
        None,
    )
    .unwrap();

    match packet {
        MqttPacket::Connect {
            maximum_packet_size,
            ..
        } => assert_eq!(maximum_packet_size, Some(40)),
        other => panic!("unexpected packet: {other:?}"),
    }
}

#[test]
fn decodes_mqtt_v5_subscription_identifier() {
    let packet = decode_frame(
        &Frame {
            command: CMD_SUBSCRIBE,
            flags: 2,
            body: vec![0, 7, 2, 0x0B, 42, 0, 3, b'a', b'/', b'#', 1],
        },
        Some(ProtocolVersion::V5),
    )
    .unwrap();

    match packet {
        MqttPacket::Subscribe { packet_id, filters } => {
            assert_eq!(packet_id, 7);
            assert_eq!(filters.len(), 1);
            assert_eq!(filters[0].filter, "a/#");
            assert_eq!(filters[0].qos, 1);
            assert_eq!(filters[0].identifier, Some(42));
        }
        other => panic!("unexpected packet: {other:?}"),
    }
}

#[test]
fn rejects_invalid_subscribe_options() {
    for options in [0x03, 0x30, 0x80] {
        let packet = decode_frame(
            &Frame {
                command: CMD_SUBSCRIBE,
                flags: 2,
                body: vec![0, 7, 0, 0, 1, b'a', options],
            },
            Some(ProtocolVersion::V5),
        );
        assert!(matches!(packet, Err(ProtocolError::MalformedPacket(_))));
    }
}

#[test]
fn encodes_mqtt_v5_publish_subscription_identifier() {
    let encoded = encode_publish(
        ProtocolVersion::V5,
        &Publication {
            topic: "a".into(),
            payload: b"p".to_vec(),
            qos: 0,
            retain: false,
            packet_id: None,
            dup: false,
            topic_alias: None,
            payload_format_indicator: None,
            response_topic: None,
            correlation_data: None,
            subscription_identifiers: vec![321],
        },
    );
    assert_eq!(
        encoded,
        vec![0x30, 8, 0, 1, b'a', 3, 0x0B, 0xC1, 0x02, b'p']
    );
}

#[test]
fn encodes_pubrel_with_required_flags() {
    assert_eq!(
        encode_pubrel(ProtocolVersion::V311, 0x1234),
        vec![0x62, 2, 0x12, 0x34]
    );
    assert_eq!(
        encode_pubrel(ProtocolVersion::V5, 0x1234),
        vec![0x62, 2, 0x12, 0x34]
    );
}

#[test]
fn encodes_mqtt5_puback_reason_code() {
    assert_eq!(
        encode_puback_reason(ProtocolVersion::V5, 0x1234, 0x10),
        vec![0x40, 0x03, 0x12, 0x34, 0x10]
    );
    assert_eq!(
        encode_puback_reason(ProtocolVersion::V311, 0x1234, 0x10),
        vec![0x40, 0x02, 0x12, 0x34]
    );
}

#[test]
fn encodes_mqtt_v5_publish_response_properties() {
    let encoded = encode_publish(
        ProtocolVersion::V5,
        &Publication {
            topic: "normal/topic".into(),
            payload: b"2".to_vec(),
            qos: 0,
            retain: false,
            packet_id: None,
            dup: false,
            topic_alias: None,
            payload_format_indicator: Some(1),
            response_topic: Some("response/topic".to_owned()),
            correlation_data: Some(b"corr".to_vec()),
            subscription_identifiers: Vec::new(),
        },
    );
    assert!(encoded
        .windows(2)
        .any(|window| { window == [PROP_PAYLOAD_FORMAT_INDICATOR as u8, 1] }));
    assert!(encoded.windows(17).any(|window| {
        window
            == [
                PROP_RESPONSE_TOPIC as u8,
                0,
                14,
                b'r',
                b'e',
                b's',
                b'p',
                b'o',
                b'n',
                b's',
                b'e',
                b'/',
                b't',
                b'o',
                b'p',
                b'i',
                b'c',
            ]
    }));
    assert!(encoded.windows(7).any(|window| {
        window == [PROP_CORRELATION_DATA as u8, 0, 4, b'c', b'o', b'r', b'r']
    }));
}

#[test]
fn decodes_topic_alias_property() {
    let body = [
        0, 1, b'a', 3, 0x23, 0, 7, b'p', b'a', b'y', b'l', b'o', b'a', b'd',
    ];
    let packet = decode_frame(
        &Frame {
            command: CMD_PUBLISH,
            flags: 0,
            body: body.to_vec(),
        },
        Some(ProtocolVersion::V5),
    )
    .unwrap();
    match packet {
        MqttPacket::Publish(publication) => {
            assert_eq!(publication.topic, "a");
            assert_eq!(publication.topic_alias, Some(7));
            assert!(publication.subscription_identifiers.is_empty());
            assert_eq!(publication.payload, b"payload");
        }
        other => panic!("unexpected packet: {other:?}"),
    }
}
