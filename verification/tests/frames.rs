//! Frames on a stream, what can be wrong with them, and what comes back of what
//! was written.

use std::io::Read;

use rusquitto::frame::{FrameProgress, FrameReader};
use rusquitto::packet::{
    CMD_CONNECT, CMD_DISCONNECT, CMD_PINGREQ, CMD_PUBACK, CMD_PUBLISH, CMD_SUBSCRIBE,
    CMD_UNSUBSCRIBE,
};
use rusquitto::{
    decode_frame, encode_connack, encode_disconnect, encode_frame, encode_pingresp, encode_puback,
    encode_pubcomp, encode_publish, encode_pubrec, encode_pubrel, encode_suback, encode_unsuback,
    read_frame, Frame, MqttPacket, ProtocolError, ProtocolVersion, Publication,
};

fn frame(command: u8, flags: u8, body: &[u8]) -> Frame {
    Frame {
        command,
        flags,
        body: body.to_vec(),
    }
}

fn refusal(command: u8, flags: u8, body: &[u8], version: Option<ProtocolVersion>) -> ProtocolError {
    decode_frame(&frame(command, flags, body), version).expect_err("the packet is malformed")
}

fn message(payload: &[u8], qos: u8, packet_id: Option<u16>) -> Publication {
    Publication {
        topic: "plant/öl".to_owned(),
        payload: payload.to_vec(),
        qos,
        retain: true,
        packet_id,
        dup: qos > 0,
        topic_alias: None,
        payload_format_indicator: Some(1),
        response_topic: Some("answer/here".to_owned()),
        correlation_data: Some(vec![0, 255, 7]),
        subscription_identifiers: vec![1, 127, 128, 268_435_455],
    }
}

#[test]
fn reads_one_frame_after_the_other() {
    let bytes = [0xC0, 0, 0x40, 2, 0, 9, 0x30];
    let mut source: &[u8] = &bytes;
    assert_eq!(read_frame(&mut source), Ok(frame(CMD_PINGREQ, 0, &[])));
    assert_eq!(read_frame(&mut source), Ok(frame(CMD_PUBACK, 0, &[0, 9])));
    assert_eq!(source, &[0x30][..]);
    assert_eq!(
        read_frame(&mut source),
        Err(ProtocolError::Io("failed to fill whole buffer".to_owned()))
    );
    assert!(source.is_empty());
}

#[test]
fn a_stream_that_ends_within_a_frame_is_used_up() {
    for bytes in [&[][..], &[0x30], &[0x30, 0x80], &[0x30, 3, 1, 2], &[0x30, 0x80, 1, 9]] {
        let mut source: &[u8] = bytes;
        assert_eq!(
            read_frame(&mut source),
            Err(ProtocolError::Io("failed to fill whole buffer".to_owned()))
        );
        assert!(source.is_empty());
    }
    let mut short: &[u8] = &[1, 2];
    let error = short.read_exact(&mut [0; 3]).expect_err("too few bytes");
    assert_eq!(error.to_string(), "failed to fill whole buffer");
    assert!(short.is_empty());
}

#[test]
fn refuses_a_length_of_five_bytes() {
    let bytes = [0x30, 0xFF, 0xFF, 0xFF, 0xFF, 0x01];
    let mut source: &[u8] = &bytes;
    assert_eq!(
        read_frame(&mut source),
        Err(ProtocolError::MalformedPacket("remaining length is too long"))
    );
    assert_eq!(source, &[0x01][..]);
    let mut exactly: &[u8] = &[0x10, 0x80, 0x80, 0x80, 0x80];
    assert!(read_frame(&mut exactly).is_err());
    assert!(exactly.is_empty());
}

#[test]
fn reads_a_frame_step_by_step() {
    let bytes = encode_frame(CMD_PUBLISH, 0x0B, &[7; 200]);
    let mut reader = FrameReader::new();
    let mut at = 0;
    let mut steps = 0;
    let whole = loop {
        let count = reader.wants();
        let next = reader.feed(&bytes[at..at + count]).expect("well formed");
        at += count;
        steps += 1;
        match next {
            FrameProgress::More(more) => reader = more,
            FrameProgress::Done(done) => break done,
        }
    };
    assert_eq!(whole, frame(CMD_PUBLISH, 0x0B, &[7; 200]));
    assert_eq!(at, bytes.len());
    assert_eq!(steps, 4);
}

#[test]
fn lengths_come_back_at_every_boundary() {
    for len in [0usize, 1, 127, 128, 16_383, 16_384, 2_097_151, 2_097_152] {
        let body = vec![0x5A; len];
        let bytes = encode_frame(CMD_PUBLISH, 1, &body);
        let mut source: &[u8] = &bytes;
        let read = read_frame(&mut source).expect("a whole frame");
        assert_eq!(read.body.len(), len);
        assert!(source.is_empty());
    }
    assert_eq!(encode_frame(CMD_PUBLISH, 0, &[0; 127]).len(), 129);
    assert_eq!(encode_frame(CMD_PUBLISH, 0, &[0; 128]).len(), 131);
}

#[test]
fn messages_come_back_as_they_were_sent() {
    for (qos, packet_id) in [(0, None), (1, Some(1)), (2, Some(65_535))] {
        let sent = message(b"payload", qos, packet_id);
        let bytes = encode_publish(ProtocolVersion::V5, &sent);
        let mut source: &[u8] = &bytes;
        let read = read_frame(&mut source).expect("a whole frame");
        assert_eq!(
            decode_frame(&read, Some(ProtocolVersion::V5)),
            Ok(MqttPacket::Publish(sent))
        );
    }
}

#[test]
fn older_revisions_carry_no_properties() {
    let sent = message(b"payload", 1, Some(77));
    let bytes = encode_publish(ProtocolVersion::V311, &sent);
    let mut source: &[u8] = &bytes;
    let read = read_frame(&mut source).expect("a whole frame");
    match decode_frame(&read, Some(ProtocolVersion::V311)) {
        Ok(MqttPacket::Publish(publication)) => {
            assert_eq!(publication.topic, "plant/öl");
            assert_eq!(publication.payload, b"payload");
            assert_eq!(publication.packet_id, Some(77));
            assert_eq!(publication.payload_format_indicator, None);
            assert_eq!(publication.response_topic, None);
            assert_eq!(publication.correlation_data, None);
            assert!(publication.subscription_identifiers.is_empty());
        }
        other => panic!("unexpected packet: {other:?}"),
    }
}

#[test]
fn acknowledgements_come_back() {
    for version in [ProtocolVersion::V31, ProtocolVersion::V311, ProtocolVersion::V5] {
        let cases = [
            (encode_puback(version, 258), MqttPacket::PubAck { packet_id: 258 }),
            (encode_pubrec(version, 1), MqttPacket::PubRec { packet_id: 1 }),
            (encode_pubrel(version, 65_535), MqttPacket::PubRel { packet_id: 65_535 }),
            (encode_pubcomp(version, 42), MqttPacket::PubComp { packet_id: 42 }),
        ];
        for (bytes, packet) in cases {
            let mut source: &[u8] = &bytes;
            let read = read_frame(&mut source).expect("a whole frame");
            assert_eq!(decode_frame(&read, Some(version)), Ok(packet));
        }
    }
}

#[test]
fn disconnects_come_back() {
    let bytes = encode_disconnect(ProtocolVersion::V5, 0x81);
    assert_eq!(bytes, vec![0xE0, 1, 0x81]);
    let mut source: &[u8] = &bytes;
    let read = read_frame(&mut source).expect("a whole frame");
    assert_eq!(
        decode_frame(&read, Some(ProtocolVersion::V5)),
        Ok(MqttPacket::Disconnect {
            reason_code: Some(0x81),
            session_expiry_interval: None
        })
    );
    assert_eq!(encode_disconnect(ProtocolVersion::V311, 0x81), vec![0xE0, 0]);
}

#[test]
fn answers_have_exact_bytes() {
    assert_eq!(encode_pingresp(), vec![0xD0, 0]);
    assert_eq!(encode_connack(ProtocolVersion::V311, true, 0), vec![0x20, 2, 1, 0]);
    assert_eq!(
        encode_suback(ProtocolVersion::V311, 0x0102, &[0, 1, 0x80]),
        vec![0x90, 5, 1, 2, 0, 1, 0x80]
    );
    assert_eq!(
        encode_suback(ProtocolVersion::V5, 0x0102, &[2]),
        vec![0x90, 4, 1, 2, 0, 2]
    );
    assert_eq!(encode_unsuback(ProtocolVersion::V311, 3, 2), vec![0xB0, 2, 0, 3]);
    assert_eq!(
        encode_unsuback(ProtocolVersion::V5, 3, 2),
        vec![0xB0, 5, 0, 3, 0, 0, 0]
    );
}

#[test]
fn malformed_packets_say_what_is_wrong() {
    let v5 = Some(ProtocolVersion::V5);
    let v311 = Some(ProtocolVersion::V311);
    let connect = |properties: &[u8]| {
        let mut body = vec![0, 4, b'M', b'Q', b'T', b'T', 5, 2, 0, 60];
        body.extend_from_slice(properties);
        body.extend_from_slice(&[0, 1, b'c']);
        body
    };
    let cases = [
        (refusal(0xF0, 0, &[], None), "unsupported command"),
        (
            refusal(CMD_CONNECT, 0, &[0, 4, b'M', b'Q', b'X', b'T', 4, 2, 0, 60, 0, 0], None),
            "invalid protocol name",
        ),
        (refusal(CMD_PUBLISH, 0x06, &[0, 1, b'a', 0, 1], v311), "invalid publish qos"),
        (refusal(CMD_PUBLISH, 0, &[0, 1, 0xFF], v311), "invalid utf-8 string"),
        (refusal(CMD_PUBACK, 0, &[0], v311), "unexpected end of packet"),
        (
            refusal(CMD_PUBACK, 0, &[0, 0], v311),
            "packet identifier must be non-zero",
        ),
        (refusal(CMD_SUBSCRIBE, 2, &[0, 7], v311), "empty subscribe"),
        (refusal(CMD_UNSUBSCRIBE, 2, &[0, 7], v311), "empty unsubscribe"),
        (
            refusal(CMD_SUBSCRIBE, 2, &[0, 7, 2, 0x0B, 0, 0, 1, b'a', 0], v5),
            "zero subscription identifier",
        ),
        (
            refusal(CMD_SUBSCRIBE, 2, &[0, 7, 4, 0x0B, 1, 0x0B, 2, 0, 1, b'a', 0], v5),
            "duplicate subscription identifier",
        ),
        (
            refusal(CMD_SUBSCRIBE, 2, &[0, 7, 0, 1, b'a', 0x03], v311),
            "invalid subscribe options",
        ),
        (
            refusal(CMD_CONNECT, 0, &connect(&[5, 0x27, 0, 0, 0, 0]), None),
            "zero maximum packet size",
        ),
        (refusal(CMD_CONNECT, 0, &connect(&[2, 0x7F, 0]), None), "unknown property"),
        (refusal(CMD_CONNECT, 0, &connect(&[99]), None), "truncated properties"),
        (
            refusal(CMD_CONNECT, 0, &connect(&[2, 0x11, 0]), None),
            "property length mismatch",
        ),
        (
            refusal(CMD_PUBLISH, 0, &[0, 1, b'a', 0xFF, 0xFF, 0xFF, 0xFF, 1], v5),
            "varint is too long",
        ),
    ];
    for (error, reason) in cases {
        assert_eq!(error, ProtocolError::MalformedPacket(reason));
    }
}

#[test]
fn unknown_levels_are_named() {
    let body = [0, 4, b'M', b'Q', b'T', b'T', 6, 2, 0, 60, 0, 1, b'c'];
    assert_eq!(
        refusal(CMD_CONNECT, 0, &body, None),
        ProtocolError::UnsupportedProtocolVersion(6)
    );
}

#[test]
fn errors_are_put_in_words() {
    assert_eq!(
        ProtocolError::Io("broken pipe".to_owned()).message(),
        "I/O error: broken pipe"
    );
    assert_eq!(
        ProtocolError::MalformedPacket("empty subscribe").message(),
        "malformed MQTT packet: empty subscribe"
    );
    assert_eq!(
        ProtocolError::UnsupportedProtocolVersion(205).message(),
        "unsupported MQTT protocol level 205"
    );
}

#[test]
fn wills_and_credentials_are_read() {
    let body = [
        0, 4, b'M', b'Q', b'T', b'T', 4, 0xEE, 0, 10, 0, 1, b'c', 0, 1, b'w', 0, 2, b'h', b'i', 0, 1,
        b'u', 0, 1, b'p',
    ];
    match decode_frame(&frame(CMD_CONNECT, 0, &body), None) {
        Ok(MqttPacket::Connect {
            protocol,
            clean_start,
            keep_alive,
            client_id,
            username,
            password,
            will,
            ..
        }) => {
            assert_eq!(protocol, ProtocolVersion::V311);
            assert!(clean_start);
            assert_eq!(keep_alive, 10);
            assert_eq!(client_id, "c");
            assert_eq!(username, Some("u".to_owned()));
            assert_eq!(password, Some(b"p".to_vec()));
            let will = will.expect("a will");
            assert_eq!(will.topic, "w");
            assert_eq!(will.payload, b"hi");
            assert_eq!(will.qos, 1);
            assert!(will.retain);
        }
        other => panic!("unexpected packet: {other:?}"),
    }
}

#[test]
fn unsubscribes_are_read() {
    let body = [0, 9, 0, 1, b'a', 0, 3, b'b', b'/', b'#'];
    assert_eq!(
        decode_frame(&frame(CMD_UNSUBSCRIBE, 2, &body), Some(ProtocolVersion::V311)),
        Ok(MqttPacket::Unsubscribe {
            packet_id: 9,
            filters: vec!["a".to_owned(), "b/#".to_owned()]
        })
    );
}

#[test]
fn short_disconnects_have_no_reason() {
    assert_eq!(
        decode_frame(&frame(CMD_DISCONNECT, 0, &[]), Some(ProtocolVersion::V5)),
        Ok(MqttPacket::Disconnect {
            reason_code: None,
            session_expiry_interval: None
        })
    );
    assert_eq!(
        decode_frame(&frame(CMD_DISCONNECT, 0, &[4]), Some(ProtocolVersion::V5)),
        Ok(MqttPacket::Disconnect {
            reason_code: Some(4),
            session_expiry_interval: None
        })
    );
}

#[test]
fn protocol_levels() {
    assert_eq!(ProtocolVersion::V31.level(), 3);
    assert_eq!(ProtocolVersion::V311.level(), 4);
    assert_eq!(ProtocolVersion::V5.level(), 5);
}
