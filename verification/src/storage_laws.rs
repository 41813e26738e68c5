//! What is written into the database and read back from it, character by character.

use vstd::prelude::*;

use crate::packet::PublicationView;
use crate::persistence;
use crate::persistence::HexErrorView;
use crate::scan;
use crate::steps;
use crate::text;

verus! {

// Hexadecimal digits.

/// The hexadecimal digits that are written.
pub open spec fn written_digits() -> Seq<char> {
    seq!['0', '1', '2', '3', '4', '5', '6', '7', '8', '9', 'A', 'B', 'C', 'D', 'E', 'F']
}

/// The hexadecimal digits that are read too.
pub open spec fn small_digits() -> Seq<char> {
    seq!['0', '1', '2', '3', '4', '5', '6', '7', '8', '9', 'a', 'b', 'c', 'd', 'e', 'f']
}

/// Bytes are written as two digits each, the higher one first.
pub proof fn law_bytes_are_written_in_digits(bytes: Seq<u8>, i: int)
    requires
        0 <= i < bytes.len(),
    ensures
        persistence::hex_of(bytes).len() == 2 * bytes.len(),
        persistence::hex_of(bytes)[2 * i] == written_digits()[bytes[i] as int / 16],
        persistence::hex_of(bytes)[2 * i + 1] == written_digits()[bytes[i] as int % 16],
{
    persistence::lemma_hex_chars(bytes);
    lemma_digit((bytes[i] / 16) as u8);
    lemma_digit((bytes[i] % 16) as u8);
}

proof fn lemma_digit(n: u8)
    requires
        n < 16,
    ensures
        persistence::hex_digit(n) == written_digits()[n as int],
        persistence::hex_value(written_digits()[n as int] as u8) == Some(n),
        persistence::hex_value(small_digits()[n as int] as u8) == Some(n),
{
}

/// Whether a byte of a text is a digit of a value.
pub open spec fn is_digit_of(c: u8, n: int) -> bool {
    0 <= n < 16 && (c == written_digits()[n] as u8 || c == small_digits()[n] as u8)
}

/// Whether two bytes of a text write a byte: two digits, or a plus sign and one.
pub open spec fn write_byte(high: u8, low: u8, byte: u8) -> bool {
    ||| is_digit_of(high, byte as int / 16) && is_digit_of(low, byte as int % 16)
    ||| high == 0x2B && is_digit_of(low, byte as int)
}

/// Whether two bytes of a text write a byte at all.
pub open spec fn write_some_byte(high: u8, low: u8) -> bool {
    exists|byte: u8| #[trigger] write_byte(high, low, byte)
}

proof fn lemma_value(c: u8)
    ensures
        match persistence::hex_value(c) {
            Some(n) => n < 16 && is_digit_of(c, n as int),
            None => forall|n: int| !#[trigger] is_digit_of(c, n),
        },
        forall|n: int| #[trigger] is_digit_of(c, n) ==> persistence::hex_value(c) == Some(n as u8),
{
    assert forall|n: int| #[trigger] is_digit_of(c, n) implies persistence::hex_value(c) == Some(
        n as u8,
    ) by {
        lemma_digit(n as u8);
    }
    if let Some(n) = persistence::hex_value(c) {
        assert(c == written_digits()[n as int] as u8 || c == small_digits()[n as int] as u8);
    }
}

proof fn lemma_pair(high: u8, low: u8)
    ensures
        forall|byte: u8| #[trigger] write_byte(high, low, byte) ==> persistence::hex_pair(
            high,
            low,
        ) == Ok::<u8, HexErrorView>(byte),
        !write_some_byte(high, low) ==> persistence::hex_pair(high, low) == Err::<
            u8,
            HexErrorView,
        >(
            if vstd::utf8::valid_utf8(seq![high, low]) {
                HexErrorView::Digit
            } else {
                HexErrorView::Encoding(text::utf8_error_text(seq![high, low]))
            },
        ),
{
    lemma_value(high);
    lemma_value(low);
    assert forall|byte: u8| #[trigger] write_byte(high, low, byte) implies persistence::hex_pair(
        high,
        low,
    ) == Ok::<u8, HexErrorView>(byte) by {
        if is_digit_of(high, byte as int / 16) && is_digit_of(low, byte as int % 16) {
            assert(byte == byte / 16 * 16 + byte % 16);
        } else {
            assert(persistence::hex_value(0x2B) is None);
        }
    }
    if !write_some_byte(high, low) {
        if let Ok(byte) = persistence::hex_pair(high, low) {
            if persistence::hex_value(high) is Some {
                let h = persistence::hex_value(high)->0;
                let l = persistence::hex_value(low)->0;
                assert((h * 16 + l) / 16 == h && (h * 16 + l) % 16 == l) by (nonlinear_arith)
                    requires
                        h < 16,
                        l < 16,
                ;
            }
            assert(write_byte(high, low, byte));
        }
    }
}

proof fn lemma_pairs(s: Seq<u8>, bytes: Seq<u8>)
    requires
        s.len() >= 2 * bytes.len(),
        forall|i: int|
            0 <= i < bytes.len() ==> write_byte(s[2 * i], s[2 * i + 1], #[trigger] bytes[i]),
    ensures
        persistence::pairs_of(s) == match persistence::pairs_of(s.skip(2 * bytes.len() as int)) {
            Ok(more) => Ok::<Seq<u8>, HexErrorView>(bytes + more),
            Err(e) => Err(e),
        },
    decreases bytes.len(),
{
    if bytes.len() == 0 {
        assert(s.skip(0) =~= s);
        if let Ok(more) = persistence::pairs_of(s) {
            assert(bytes + more =~= more);
        }
    } else {
        let rest = s.skip(2);
        let left = bytes.skip(1);
        assert forall|i: int| 0 <= i < left.len() implies write_byte(
            rest[2 * i],
            rest[2 * i + 1],
            #[trigger] left[i],
        ) by {
            assert(left[i] == bytes[i + 1]);
            assert(rest[2 * i] == s[2 * (i + 1)]);
            assert(rest[2 * i + 1] == s[2 * (i + 1) + 1]);
        }
        lemma_pairs(rest, left);
        lemma_pair(s[0], s[1]);
        let first: int = 0;
        assert(write_byte(s[2 * first], s[2 * first + 1], bytes[first]));
        assert(rest.skip(2 * left.len() as int) =~= s.skip(2 * bytes.len() as int));
        if let Ok(more) = persistence::pairs_of(rest.skip(2 * left.len() as int)) {
            assert(seq![bytes[0]] + (left + more) =~= bytes + more);
        }
    }
}

/// Pairs of digits, upper or lower case, are read as the bytes that they write. A text with
/// an odd number of bytes is a mistake, and so is the first pair that writes none, whatever
/// follows it.
pub proof fn law_digits_are_read(value: Seq<char>, bytes: Seq<u8>)
    requires
        vstd::utf8::encode_utf8(value).len() >= 2 * bytes.len(),
        forall|i: int|
            0 <= i < bytes.len() ==> write_byte(
                vstd::utf8::encode_utf8(value)[2 * i],
                vstd::utf8::encode_utf8(value)[2 * i + 1],
                #[trigger] bytes[i],
            ),
    ensures
        ({
            let s = vstd::utf8::encode_utf8(value);
            let n = 2 * bytes.len() as int;
            let read = persistence::hex_decoded(value);
            &&& s.len() % 2 != 0 ==> read == Err::<Seq<u8>, HexErrorView>(HexErrorView::Length)
            &&& s.len() == n ==> read == Ok::<Seq<u8>, HexErrorView>(bytes)
            &&& s.len() % 2 == 0 && n < s.len() && !write_some_byte(s[n], s[n + 1]) ==> read
                == Err::<Seq<u8>, HexErrorView>(
                if vstd::utf8::valid_utf8(seq![s[n], s[n + 1]]) {
                    HexErrorView::Digit
                } else {
                    HexErrorView::Encoding(text::utf8_error_text(seq![s[n], s[n + 1]]))
                },
            )
        }),
{
    let s = vstd::utf8::encode_utf8(value);
    let n = 2 * bytes.len() as int;
    lemma_pairs(s, bytes);
    if s.len() == n {
        assert(s.skip(n) =~= Seq::empty());
        assert(bytes + Seq::<u8>::empty() =~= bytes);
    } else if n + 1 < s.len() {
        lemma_pair(s[n], s[n + 1]);
        assert(s.skip(n)[0] == s[n] && s.skip(n)[1] == s[n + 1]);
    }
}

// Rows.

/// A retained message of a topic, a payload and a QoS, and nothing else.
pub open spec fn plain_message(name: Seq<char>, payload: Seq<u8>, qos: u8) -> PublicationView {
    PublicationView {
        topic: name,
        payload,
        qos,
        retain: true,
        packet_id: None,
        dup: false,
        topic_alias: None,
        payload_format_indicator: None,
        response_topic: None,
        correlation_data: None,
        subscription_identifiers: Seq::empty(),
    }
}

/// A row is read as a retained message of its topic, its payload in digits and its QoS. A
/// QoS that is not a number of 8 bits counts as 0, what stands behind it does not count,
/// and a row without a payload, or without a QoS, has an empty one, or QoS 0.
pub proof fn law_rows_are_read(
    name: Seq<char>,
    digits: Seq<char>,
    number: Seq<char>,
    more: Seq<char>,
)
    requires
        !name.contains('\t'),
        !digits.contains('\t'),
        !number.contains('\t'),
    ensures
        ({
            let tab = seq!['\t'];
            let qos = match scan::parsed(number, 255) {
                Some(n) => n as u8,
                None => 0,
            };
            let read = |with: u8|
                match persistence::hex_decoded(digits) {
                    Ok(payload) => Ok::<PublicationView, HexErrorView>(
                        plain_message(name, payload, with),
                    ),
                    Err(e) => Err(e),
                };
            &&& persistence::message_of(name + tab + (digits + tab + number)) == read(qos)
            &&& persistence::message_of(name + tab + (digits + tab + (number + tab + more)))
                == read(qos)
            &&& persistence::message_of(name + tab + digits) == read(0)
            &&& persistence::message_of(name) == Ok::<PublicationView, HexErrorView>(
                plain_message(name, Seq::empty(), 0),
            )
        }),
{
    let c = '\t';
    let tab = seq![c];
    scan::lemma_field(name, digits + tab + number, c);
    scan::lemma_field(digits, number, c);
    scan::lemma_last_field(number, c);
    scan::lemma_field(name, digits + tab + (number + tab + more), c);
    scan::lemma_field(digits, number + tab + more, c);
    scan::lemma_field(number, more, c);
    scan::lemma_field(name, digits, c);
    scan::lemma_last_field(digits, c);
    scan::lemma_last_field(name, c);
    let row = name + tab + (digits + tab + (number + tab + more));
    let columns = scan::fields_of(row, c);
    assert(columns[0] == name && columns[1] == digits && columns[2] == number);
    assert(scan::fields_of(name + tab + (digits + tab + number), c) =~= seq![
        name,
        digits,
        number,
    ]);
    assert(scan::fields_of(name + tab + digits, c) =~= seq![name, digits]);
    lemma_no_digits();
}

proof fn lemma_no_digits()
    ensures
        persistence::hex_decoded(Seq::empty()) == Ok::<Seq<u8>, HexErrorView>(Seq::empty()),
{
    let s = vstd::utf8::encode_utf8(Seq::<char>::empty());
    assert(s.len() == 0) by {
        reveal_with_fuel(vstd::utf8::encode_utf8, 1);
    }
    assert(persistence::pairs_of(s) == Ok::<Seq<u8>, HexErrorView>(Seq::empty()));
}

/// Rows are read one by one, in their order. The first one with a mistake decides.
pub proof fn law_all_rows_are_read(rows: Seq<Seq<char>>, i: int)
    ensures
        ({
            let read = persistence::messages_of(rows);
            &&& (forall|k: int|
                0 <= k < rows.len() ==> persistence::message_of(#[trigger] rows[k]) is Ok) ==> {
                &&& read is Ok
                &&& read->Ok_0.len() == rows.len()
                &&& 0 <= i < rows.len() ==> persistence::message_of(rows[i]) == Ok::<
                    PublicationView,
                    HexErrorView,
                >(read->Ok_0[i])
            }
            &&& 0 <= i < rows.len() && persistence::message_of(rows[i]) is Err && (forall|k: int|
                0 <= k < i ==> persistence::message_of(#[trigger] rows[k]) is Ok) ==> read == Err::<
                Seq<PublicationView>,
                HexErrorView,
            >(persistence::message_of(rows[i])->Err_0)
        }),
{
    if forall|k: int| 0 <= k < rows.len() ==> persistence::message_of(#[trigger] rows[k]) is Ok {
        lemma_good_rows(rows, rows.len() as int, i);
        assert(rows.take(rows.len() as int) =~= rows);
    }
    if 0 <= i < rows.len() && persistence::message_of(rows[i]) is Err && (forall|k: int|
        0 <= k < i ==> persistence::message_of(#[trigger] rows[k]) is Ok) {
        lemma_good_rows(rows, i, 0);
        steps::lemma_take_next(rows, i);
        persistence::lemma_first_mistake(rows, i + 1);
    }
}

proof fn lemma_good_rows(rows: Seq<Seq<char>>, n: int, i: int)
    requires
        0 <= n <= rows.len(),
        forall|k: int| 0 <= k < n ==> persistence::message_of(#[trigger] rows[k]) is Ok,
    ensures
        persistence::messages_of(rows.take(n)) is Ok,
        persistence::messages_of(rows.take(n))->Ok_0.len() == n,
        0 <= i < n ==> persistence::message_of(rows[i]) == Ok::<PublicationView, HexErrorView>(
            persistence::messages_of(rows.take(n))->Ok_0[i],
        ),
    decreases n,
{
    if n > 0 {
        lemma_good_rows(rows, n - 1, i);
        steps::lemma_take_next(rows, n - 1);
        assert(persistence::message_of(rows[n - 1]) is Ok);
    }
}

// The script.

/// The rows that a retained message is written as: the message under a number, with its
/// topic, its payload, the length of that, its QoS and the retain flag, and the topic with
/// that number.
pub proof fn law_rows_are_written(p: PublicationView, store_id: nat)
    ensures
        persistence::rows_for(p, store_id)
            == "INSERT INTO base_msgs(store_id,expiry_time,topic,payload,source_id,source_username,payloadlen,source_mid,source_port,qos,retain,properties) VALUES ("@
            + scan::decimal(store_id) + ",0,'"@ + persistence::quoted(p.topic) + "',X'"@
            + persistence::hex_of(p.payload) + "','',NULL,"@ + scan::decimal(p.payload.len())
            + ",0,0,"@ + scan::decimal(p.qos as nat) + ",1,NULL);\n"@
            + "INSERT INTO retains(topic,store_id) VALUES ('"@ + persistence::quoted(p.topic) + "',"@
            + scan::decimal(store_id) + ");\n"@,
{
}

/// How a script starts: it opens the database, makes the tables where there are none, and
/// empties them.
pub proof fn law_scripts_start_with_empty_tables()
    ensures
        persistence::script_start()
            == "PRAGMA page_size=4096;\nPRAGMA journal_mode=WAL;\nPRAGMA foreign_keys = ON;\nPRAGMA synchronous=1;\n"@
            + "CREATE TABLE IF NOT EXISTS base_msgs (store_id INT64 PRIMARY KEY,expiry_time INT64,topic STRING NOT NULL,payload BLOB,source_id STRING,source_username STRING,payloadlen INTEGER,source_mid INTEGER,source_port INTEGER,qos INTEGER,retain INTEGER,properties STRING);\n"@
            + "CREATE TABLE IF NOT EXISTS retains (topic STRING PRIMARY KEY,store_id INT64);\n"@
            + "CREATE TABLE IF NOT EXISTS clients (client_id TEXT PRIMARY KEY,username TEXT,connection_time INT64,will_delay_time INT64,session_expiry_time INT64,listener_port INT,max_packet_size INT,max_qos INT,retain_available INT,session_expiry_interval INT,will_delay_interval INT);\n"@
            + "CREATE TABLE IF NOT EXISTS subscriptions (client_id TEXT NOT NULL,topic TEXT NOT NULL,subscription_options INTEGER,subscription_identifier INTEGER,PRIMARY KEY (client_id, topic) );\n"@
            + "CREATE TABLE IF NOT EXISTS client_msgs (client_id TEXT NOT NULL,cmsg_id INT64,store_id INT64,dup INTEGER,direction INTEGER,mid INTEGER,qos INTEGER,retain INTEGER,state INTEGER,subscription_identifier INTEGER);\n"@
            + "BEGIN IMMEDIATE;\nDELETE FROM client_msgs;\nDELETE FROM subscriptions;\nDELETE FROM clients;\nDELETE FROM retains;\nDELETE FROM base_msgs;\n"@,
{
}

/// A script makes the tables, empties them, and writes the messages one by one, numbered
/// from 1 on.
pub proof fn law_scripts_are_written(list: Seq<PublicationView>, p: PublicationView)
    ensures
        persistence::script_of(list) == persistence::script_start() + persistence::all_rows(list)
            + "COMMIT;\nPRAGMA wal_checkpoint(TRUNCATE);\n"@,
        persistence::all_rows(Seq::empty()) == Seq::<char>::empty(),
        persistence::all_rows(list.push(p)) == persistence::all_rows(list) + persistence::rows_for(
            p,
            list.len() + 1,
        ),
{
    assert(list.push(p).drop_last() =~= list);
}

/// A quote in a text stands twice in its quoted form, and all else stands as it is.
pub proof fn law_quoted_texts(a: Seq<char>, b: Seq<char>)
    ensures
        persistence::quoted(a + b) == persistence::quoted(a) + persistence::quoted(b),
        !a.contains('\'') ==> persistence::quoted(a) == a,
        persistence::quoted(seq!['\'']) == seq!['\'', '\''],
    decreases b.len(), a.len(),
{
    if b.len() == 0 {
        assert(a + b =~= a);
        assert(persistence::quoted(a) + persistence::quoted(b) =~= persistence::quoted(a));
    } else {
        law_quoted_texts(a, b.drop_last());
        assert((a + b).drop_last() =~= a + b.drop_last());
        assert((a + b).last() == b.last());
        assert(persistence::quoted(a + b) =~= persistence::quoted(a) + persistence::quoted(b));
    }
    lemma_nothing_to_quote(a);
    reveal_with_fuel(persistence::quoted, 2);
    assert(seq!['\''].drop_last() =~= Seq::empty());
    assert(persistence::quoted(seq!['\'']) =~= seq!['\'', '\'']);
}

proof fn lemma_nothing_to_quote(a: Seq<char>)
    ensures
        !a.contains('\'') ==> persistence::quoted(a) == a,
    decreases a.len(),
{
    if a.len() == 0 {
        assert(persistence::quoted(a) =~= a);
    } else if !a.contains('\'') {
        let front = a.drop_last();
        assert(a.contains(a.last())) by {
            assert(a[a.len() - 1] == a.last());
        }
        if front.contains('\'') {
            let k = front.index_of('\'');
            assert(a[k] == '\'');
        }
        lemma_nothing_to_quote(front);
        assert(front.push(a.last()) =~= a);
    }
}

} // verus!
