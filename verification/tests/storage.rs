//! Retained messages on disk.

use rusquitto::persistence::{
    decode_hex, encode_hex, escape_sql, read_output, read_retained, retained_script, HexError,
};
use rusquitto::Publication;

fn retained(topic: &str, payload: &[u8], qos: u8) -> Publication {
    Publication {
        topic: topic.to_owned(),
        payload: payload.to_vec(),
        qos,
        retain: true,
        packet_id: None,
        dup: false,
        topic_alias: None,
        payload_format_indicator: None,
        response_topic: None,
        correlation_data: None,
        subscription_identifiers: Vec::new(),
    }
}

#[test]
fn bytes_come_back_from_their_digits() {
    let all: Vec<u8> = (0..=255).collect();
    let digits = encode_hex(&all);
    assert_eq!(digits.len(), 512);
    assert!(digits.starts_with("000102030405060708090A0B"));
    assert!(digits.ends_with("FDFEFF"));
    assert_eq!(decode_hex(&digits), Ok(all));
    assert_eq!(encode_hex(&[]), "");
    assert_eq!(decode_hex(""), Ok(Vec::new()));
}

#[test]
fn digits_are_read_in_either_case() {
    assert_eq!(decode_hex("aBcD"), Ok(vec![0xAB, 0xCD]));
    assert_eq!(decode_hex("+f0A"), Ok(vec![0x0F, 0x0A]));
}

#[test]
fn mistakes_in_digits_are_told_apart() {
    assert_eq!(decode_hex("abc"), Err(HexError::Length));
    assert_eq!(decode_hex("0g"), Err(HexError::Digit));
    assert_eq!(decode_hex("++"), Err(HexError::Digit));
    assert_eq!(decode_hex("-1"), Err(HexError::Digit));
    assert_eq!(decode_hex("é"), Err(HexError::Digit));
    for (text, pair) in [("0é0", [0x30, 0xC3]), ("00€0", [0xE2, 0x82]), ("1€", [0x31, 0xE2])] {
        let reason = std::str::from_utf8(&pair).expect_err("no text").to_string();
        let error = decode_hex(text).expect_err("no digits");
        assert_eq!(error, HexError::Encoding(reason.clone()));
        assert_eq!(error.message(), reason);
    }
    assert_eq!(HexError::Length.message(), "invalid hex payload length");
    assert_eq!(HexError::Digit.message(), "invalid digit found in string");
}

#[test]
fn quotes_stand_twice() {
    assert_eq!(escape_sql("it's 'öl'"), "it''s ''öl''");
    assert_eq!(escape_sql("''"), "''''");
    assert_eq!(escape_sql(""), "");
}

#[test]
fn a_script_holds_two_rows_for_each_message() {
    let script = retained_script(&vec![
        retained("b/topic", b"payload-b", 1),
        retained("it's", &[0, 255], 0),
    ]);
    let lines: Vec<&str> = script.lines().collect();
    assert_eq!(lines.len(), 9 + 6 + 4 + 2);
    assert_eq!(lines[0], "PRAGMA page_size=4096;");
    assert_eq!(lines[3], "PRAGMA synchronous=1;");
    assert!(lines[4].starts_with("CREATE TABLE IF NOT EXISTS base_msgs (store_id INT64"));
    assert_eq!(lines[9], "BEGIN IMMEDIATE;");
    assert_eq!(lines[14], "DELETE FROM base_msgs;");
    assert_eq!(
        lines[15],
        "INSERT INTO base_msgs(store_id,expiry_time,topic,payload,source_id,source_username,payloadlen,source_mid,source_port,qos,retain,properties) VALUES (1,0,'b/topic',X'7061796C6F61642D62','',NULL,9,0,0,1,1,NULL);"
    );
    assert_eq!(lines[16], "INSERT INTO retains(topic,store_id) VALUES ('b/topic',1);");
    assert!(lines[17].ends_with(" VALUES (2,0,'it''s',X'00FF','',NULL,2,0,0,0,1,NULL);"));
    assert_eq!(lines[18], "INSERT INTO retains(topic,store_id) VALUES ('it''s',2);");
    assert_eq!(lines[19], "COMMIT;");
    assert_eq!(lines[20], "PRAGMA wal_checkpoint(TRUNCATE);");
    assert!(script.ends_with('\n'));
}

#[test]
fn rows_become_messages() {
    assert_eq!(
        read_retained("a/topic\t7061796C6F61642D61\t0\nb/topic\t00FF\t1\n"),
        Ok(vec![
            retained("a/topic", b"payload-a", 0),
            retained("b/topic", &[0, 255], 1)
        ])
    );
    assert_eq!(read_retained(""), Ok(Vec::new()));
}

#[test]
fn rows_may_be_short() {
    assert_eq!(
        read_retained("one\r\ntwo\t\t\n\t41\t256\nthree\t\t2\r\n"),
        Ok(vec![
            retained("one", b"", 0),
            retained("two", b"", 0),
            retained("", b"A", 0),
            retained("three", b"", 2)
        ])
    );
}

#[test]
fn the_first_bad_row_is_reported() {
    assert_eq!(read_retained("a\t00\t0\nb\t0\t0\nc\tzz\t0"), Err(HexError::Length));
}

#[test]
fn the_whole_output_is_read_back() {
    let list = vec![
        retained("a/b", b"", 0),
        retained("", &[9, 10, 13], 1),
        retained("grün/\r/öl", b"payload", 2),
        retained("far", &[255; 40], 255),
    ];
    let mut output = String::new();
    for message in &list {
        output.push_str(&message.topic);
        output.push('\t');
        output.push_str(&encode_hex(&message.payload));
        output.push('\t');
        output.push_str(&message.qos.to_string());
        output.push('\n');
    }
    assert_eq!(read_retained(&output), Ok(list.clone()));
    assert_eq!(read_output(output.as_bytes()), Ok(list));
}

#[test]
fn output_that_is_no_text_is_read_all_the_same() {
    let output = b"a\xFFb\t41\t1\n\xE2\x82\t42\t0\n";
    let text = String::from_utf8_lossy(output);
    assert_eq!(read_output(output), read_retained(&text));
    assert_eq!(
        read_output(output),
        Ok(vec![
            retained("a\u{FFFD}b", b"A", 1),
            retained("\u{FFFD}", b"B", 0)
        ])
    );
    assert_eq!(read_output(b"a\t4\t1\n"), Err(HexError::Length));
    assert_eq!(read_output(b""), Ok(Vec::new()));
}
