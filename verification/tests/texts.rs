//! The order of texts, maps keyed by texts, and texts taken apart.

use std::collections::BTreeMap;

use rusquitto::packet_ids::packet_ids;
use rusquitto::scan::{characters, fields, lines, next_word, parse_number, write_decimal};
use rusquitto::string_map::StringMap;
use rusquitto::text_order::{relate, Relation};

#[test]
fn texts_are_ordered_by_their_bytes() {
    let sorted = ["", "A", "B", "a", "a/b", "aa", "b", "z", "ä", "ö", "€", "\u{10000}"];
    for (i, left) in sorted.iter().enumerate() {
        for (j, right) in sorted.iter().enumerate() {
            let expected = if i < j {
                Relation::Before
            } else if i == j {
                Relation::Same
            } else {
                Relation::After
            };
            assert_eq!(relate(left, right), expected, "{left} {right}");
        }
    }
}

#[test]
fn a_map_keeps_its_keys_in_order() {
    let mut map: StringMap<u32> = StringMap::new();
    for (i, key) in ["m", "c", "ä", "", "c", "z"].iter().enumerate() {
        map.insert(key.to_string(), i as u32);
    }
    let entries: Vec<(String, u32)> = (0..map.len())
        .map(|i| (map.key_at(i).clone(), *map.value_at(i)))
        .collect();
    assert_eq!(
        entries,
        vec![
            (String::new(), 3),
            ("c".to_owned(), 4),
            ("m".to_owned(), 0),
            ("z".to_owned(), 5),
            ("ä".to_owned(), 2)
        ]
    );
    assert!(map.contains_key("c") && !map.contains_key("d"));
    assert_eq!(map.get("m"), Some(&0));
    *map.get_mut("m").unwrap() = 9;
    assert!(map.get_mut("n").is_none());
    assert_eq!(map.remove("m"), Some(9));
    assert_eq!(map.remove("m"), None);
    assert_eq!(map.len(), 4);
    assert_eq!(map.clone().get("z"), Some(&5));
}

#[test]
fn packet_identifiers_ascend() {
    let mut map: BTreeMap<u16, &str> = BTreeMap::new();
    for id in [65_535u16, 0, 300, 2, 300] {
        map.insert(id, "x");
    }
    assert_eq!(packet_ids(&map), vec![0, 2, 300, 65_535]);
}

#[test]
fn lines_end_where_they_should() {
    assert_eq!(lines(""), Vec::<String>::new());
    assert_eq!(lines("\n"), vec![""]);
    assert_eq!(lines("a\r\n\nb\rc\r"), vec!["a", "", "b\rc\r"]);
    assert_eq!(lines("a\r\r\nb\n"), vec!["a\r", "b"]);
    for text in ["", "\n", "a\r\n\nb\rc\r", "a\r\r\nb\n", "x\ny", "\r\n"] {
        assert_eq!(lines(text), text.lines().collect::<Vec<_>>(), "{text:?}");
    }
}

#[test]
fn fields_stand_between_separators() {
    assert_eq!(fields("", '\t'), vec![""]);
    assert_eq!(fields("a\t\tb\t", '\t'), vec!["a", "", "b", ""]);
    assert_eq!(fields("äöü", 'ö'), vec!["ä", "ü"]);
}

#[test]
fn words_stand_between_white_space() {
    let chars = characters(" \t key  välue\u{a0}rest ");
    let (key, at) = next_word(&chars, 0, chars.len());
    assert_eq!(key, Some("key".to_owned()));
    let (value, at) = next_word(&chars, at, chars.len());
    assert_eq!(value, Some("välue".to_owned()));
    let (rest, at) = next_word(&chars, at, chars.len());
    assert_eq!(rest, Some("rest".to_owned()));
    assert_eq!(next_word(&chars, at, chars.len()).0, None);
}

#[test]
fn every_white_space_character_separates() {
    for n in 0..=0x10_FFFFu32 {
        if let Some(c) = char::from_u32(n) {
            let chars = vec!['a', c, 'b'];
            let first = next_word(&chars, 0, 3).0.unwrap();
            assert_eq!(first == "a", c.is_whitespace(), "{n:x}");
        }
    }
}

#[test]
fn numbers_come_back_from_their_digits() {
    for n in [0u16, 7, 10, 99, 100, 9_999, 65_535] {
        let mut digits = String::new();
        write_decimal(n as u128, &mut digits);
        assert_eq!(digits, n.to_string());
        assert_eq!(parse_number(&digits, 65_535), Some(n));
    }
    let mut longest = "n=".to_owned();
    write_decimal(u128::MAX, &mut longest);
    assert_eq!(longest, "n=340282366920938463463374607431768211455");
    assert_eq!(parse_number("256", 255), None);
    assert_eq!(parse_number("255", 255), Some(255));
}
