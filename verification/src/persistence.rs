//! Retained messages on disk: the script that writes them into a database, and
//! the rows that a query gives back.

use vstd::prelude::*;
use vstd::string::StringExecFns;

use crate::packet;
use crate::packet::Publication;
use crate::scan;
use crate::scan::{characters, fields, lines, parse_number, write_decimal};
use crate::steps;
use crate::text;
use crate::text::{decode_lossy, utf8_mistake};

verus! {

/// The query that gives the retained messages: a row for each, in ascending
/// order of the topics, with the topic, the payload in hexadecimal digits, and
/// the QoS.
pub const LOAD_QUERY: &'static str = "SELECT b.topic, hex(COALESCE(b.payload, X'')), b.qos FROM base_msgs b JOIN retains r ON b.store_id = r.store_id ORDER BY r.topic;";

/// What separates the columns of a row.
pub const COLUMN_SEPARATOR: char = '\t';

/// How a script opens the database.
pub const OPEN_DATABASE: &'static str = "PRAGMA page_size=4096;\nPRAGMA journal_mode=WAL;\nPRAGMA foreign_keys = ON;\nPRAGMA synchronous=1;\n";

/// The table of the messages.
pub const MESSAGE_TABLE: &'static str = "CREATE TABLE IF NOT EXISTS base_msgs (store_id INT64 PRIMARY KEY,expiry_time INT64,topic STRING NOT NULL,payload BLOB,source_id STRING,source_username STRING,payloadlen INTEGER,source_mid INTEGER,source_port INTEGER,qos INTEGER,retain INTEGER,properties STRING);\n";

/// The table of the retained messages.
pub const RETAIN_TABLE: &'static str = "CREATE TABLE IF NOT EXISTS retains (topic STRING PRIMARY KEY,store_id INT64);\n";

/// The table of the clients.
pub const CLIENT_TABLE: &'static str = "CREATE TABLE IF NOT EXISTS clients (client_id TEXT PRIMARY KEY,username TEXT,connection_time INT64,will_delay_time INT64,session_expiry_time INT64,listener_port INT,max_packet_size INT,max_qos INT,retain_available INT,session_expiry_interval INT,will_delay_interval INT);\n";

/// The table of the subscriptions.
pub const SUBSCRIPTION_TABLE: &'static str = "CREATE TABLE IF NOT EXISTS subscriptions (client_id TEXT NOT NULL,topic TEXT NOT NULL,subscription_options INTEGER,subscription_identifier INTEGER,PRIMARY KEY (client_id, topic) );\n";

/// The table of the messages of clients.
pub const CLIENT_MESSAGE_TABLE: &'static str = "CREATE TABLE IF NOT EXISTS client_msgs (client_id TEXT NOT NULL,cmsg_id INT64,store_id INT64,dup INTEGER,direction INTEGER,mid INTEGER,qos INTEGER,retain INTEGER,state INTEGER,subscription_identifier INTEGER);\n";

/// How a script begins to write: it empties the tables.
pub const EMPTY_TABLES: &'static str = "BEGIN IMMEDIATE;\nDELETE FROM client_msgs;\nDELETE FROM subscriptions;\nDELETE FROM clients;\nDELETE FROM retains;\nDELETE FROM base_msgs;\n";

/// How a script ends.
pub const CLOSE_DATABASE: &'static str = "COMMIT;\nPRAGMA wal_checkpoint(TRUNCATE);\n";

/// How the row of a message starts.
pub const MESSAGE_ROW: &'static str = "INSERT INTO base_msgs(store_id,expiry_time,topic,payload,source_id,source_username,payloadlen,source_mid,source_port,qos,retain,properties) VALUES (";

/// How the row of a retained message starts.
pub const RETAIN_ROW: &'static str = "INSERT INTO retains(topic,store_id) VALUES ('";

// Hexadecimal digits.

/// A hexadecimal digit.
pub open spec fn hex_digit(n: u8) -> char {
    if n < 10 {
        (48 + n) as u8 as char
    } else {
        (55 + n) as u8 as char
    }
}

/// Bytes in hexadecimal digits, two for each.
pub open spec fn hex_of(bytes: Seq<u8>) -> Seq<char>
    decreases bytes.len(),
{
    if bytes.len() == 0 {
        Seq::empty()
    } else {
        hex_of(bytes.drop_last()).push(hex_digit((bytes.last() / 16) as u8)).push(
            hex_digit((bytes.last() % 16) as u8),
        )
    }
}

/// A hexadecimal digit.
fn hex_char(n: u8) -> (c: char)
    requires
        n < 16,
    ensures
        c == hex_digit(n),
{
    if n < 10 {
        (48 + n) as char
    } else {
        (55 + n) as char
    }
}

/// Writes bytes in hexadecimal digits.
fn write_hex(bytes: &[u8], out: &mut String)
    ensures
        final(out)@ == old(out)@ + hex_of(bytes@),
{
    let ghost start = out@;
    let mut i: usize = 0;
    proof {
        assert(bytes@.take(0) =~= Seq::empty());
        assert(start + Seq::empty() =~= start);
    }
    while i < bytes.len()
        invariant
            i <= bytes@.len(),
            out@ == start + hex_of(bytes@.take(i as int)),
        decreases bytes@.len() - i,
    {
        let byte: u8 = bytes[i];
        proof {
            steps::lemma_take_next(bytes@, i as int);
        }
        out.push(hex_char(byte / 16));
        out.push(hex_char(byte % 16));
        assert(out@ =~= start + hex_of(bytes@.take(i + 1)));
        i = i + 1;
    }
    assert(bytes@.take(i as int) =~= bytes@);
}

/// Bytes in hexadecimal digits.
pub fn encode_hex(bytes: &[u8]) -> (digits: String)
    ensures
        digits@ == hex_of(bytes@),
{
    let mut digits = String::new();
    write_hex(bytes, &mut digits);
    assert(digits@ =~= hex_of(bytes@));
    digits
}

/// Why a text is not bytes in hexadecimal digits.
#[derive(Debug, Clone, PartialEq, Eq)]
pub enum HexError {
    /// Its length is odd.
    Length,
    /// Two bytes of it that stand for one byte are not a text of their own, as
    /// `std` says it.
    Encoding(String),
    /// Two bytes of it are not a number in hexadecimal digits.
    Digit,
}

#[verifier::ext_equal]
pub enum HexErrorView {
    Length,
    Encoding(Seq<char>),
    Digit,
}

impl View for HexError {
    type V = HexErrorView;

    open spec fn view(&self) -> HexErrorView {
        match *self {
            HexError::Length => HexErrorView::Length,
            HexError::Encoding(reason) => HexErrorView::Encoding(reason@),
            HexError::Digit => HexErrorView::Digit,
        }
    }
}

impl HexError {
    /// What is wrong, in words.
    pub fn message(&self) -> (text: String)
        ensures
            text@ == match self@ {
                HexErrorView::Length => "invalid hex payload length"@,
                HexErrorView::Encoding(reason) => reason,
                HexErrorView::Digit => "invalid digit found in string"@,
            },
    {
        match self {
            HexError::Length => "invalid hex payload length".to_owned(),
            HexError::Encoding(reason) => reason.clone(),
            HexError::Digit => "invalid digit found in string".to_owned(),
        }
    }
}

/// The value of a hexadecimal digit, upper or lower case.
pub open spec fn hex_value(byte: u8) -> Option<u8> {
    if 48 <= byte <= 57 {
        Some((byte - 48) as u8)
    } else if 65 <= byte <= 70 {
        Some((byte - 55) as u8)
    } else if 97 <= byte <= 102 {
        Some((byte - 87) as u8)
    } else {
        None
    }
}

/// The byte that two bytes of text write: two hexadecimal digits, or a plus
/// sign and one.
pub open spec fn hex_pair(high: u8, low: u8) -> Result<u8, HexErrorView> {
    match (hex_value(high), hex_value(low)) {
        (Some(h), Some(l)) => Ok((h * 16 + l) as u8),
        (None, Some(l)) if high == 43 => Ok(l),
        _ => if vstd::utf8::valid_utf8(seq![high, low]) {
            Err(HexErrorView::Digit)
        } else {
            Err(HexErrorView::Encoding(text::utf8_error_text(seq![high, low])))
        },
    }
}

/// The bytes that pairs of bytes of text write.
pub open spec fn pairs_of(s: Seq<u8>) -> Result<Seq<u8>, HexErrorView>
    decreases s.len(),
{
    if s.len() < 2 {
        Ok(Seq::empty())
    } else {
        match hex_pair(s[0], s[1]) {
            Ok(byte) => match pairs_of(s.skip(2)) {
                Ok(more) => Ok(seq![byte] + more),
                Err(e) => Err(e),
            },
            Err(e) => Err(e),
        }
    }
}

/// The bytes that a text writes in hexadecimal digits.
pub open spec fn hex_decoded(value: Seq<char>) -> Result<Seq<u8>, HexErrorView> {
    let s = vstd::utf8::encode_utf8(value);
    if s.len() % 2 != 0 {
        Err(HexErrorView::Length)
    } else {
        pairs_of(s)
    }
}

/// The view of bytes, or of the reason why there are none.
pub open spec fn bytes_result(result: Result<Vec<u8>, HexError>) -> Result<Seq<u8>, HexErrorView> {
    match result {
        Ok(bytes) => Ok(bytes@),
        Err(e) => Err(e@),
    }
}

/// The value of a hexadecimal digit.
fn digit_value(byte: u8) -> (value: Option<u8>)
    ensures
        value == hex_value(byte),
        value matches Some(v) ==> v < 16,
{
    if 48 <= byte && byte <= 57 {
        Some(byte - 48)
    } else if 65 <= byte && byte <= 70 {
        Some(byte - 55)
    } else if 97 <= byte && byte <= 102 {
        Some(byte - 87)
    } else {
        None
    }
}

/// The byte that two bytes of text write.
fn decode_pair(high: u8, low: u8) -> (byte: Result<u8, HexError>)
    ensures
        match byte {
            Ok(b) => hex_pair(high, low) == Ok::<u8, HexErrorView>(b),
            Err(e) => hex_pair(high, low) == Err::<u8, HexErrorView>(e@),
        },
{
    match (digit_value(high), digit_value(low)) {
        (Some(h), Some(l)) => Ok(h * 16 + l),
        (None, Some(l)) if high == 43 => Ok(l),
        _ => {
            let pair: Vec<u8> = vec![high, low];
            assert(pair@ =~= seq![high, low]);
            match utf8_mistake(pair.as_slice()) {
                Some(reason) => Err(HexError::Encoding(reason)),
                None => Err(HexError::Digit),
            }
        },
    }
}

/// The bytes that a text writes in hexadecimal digits.
pub fn decode_hex(value: &str) -> (bytes: Result<Vec<u8>, HexError>)
    ensures
        bytes_result(bytes) == hex_decoded(value@),
{
    let source = value.as_bytes();
    if source.len() % 2 != 0 {
        return Err(HexError::Length);
    }
    let mut bytes: Vec<u8> = Vec::new();
    let mut i: usize = 0;
    proof {
        assert(source@.skip(0) =~= source@);
    }
    while i < source.len()
        invariant
            i <= source@.len(),
            i % 2 == 0,
            source@.len() % 2 == 0,
            source@ == vstd::utf8::encode_utf8(value@),
            pairs_of(source@) == (match pairs_of(source@.skip(i as int)) {
                Ok(more) => Ok(bytes@ + more),
                Err(e) => Err(e),
            }),
        decreases source@.len() - i,
    {
        let ghost rest = source@.skip(i as int);
        let ghost shown = bytes@;
        assert(rest[0] == source@[i as int] && rest[1] == source@[i + 1]);
        match decode_pair(source[i], source[i + 1]) {
            Ok(byte) => {
                bytes.push(byte);
                proof {
                    assert(rest.skip(2) =~= source@.skip(i + 2));
                    if let Ok(more) = pairs_of(rest.skip(2)) {
                        assert(shown + (seq![byte] + more) =~= bytes@ + more);
                    }
                }
            },
            Err(e) => {
                return Err(e);
            },
        }
        i = i + 2;
    }
    proof {
        assert(bytes@ + Seq::empty() =~= bytes@);
    }
    Ok(bytes)
}

// The script.

/// A text in which each quote stands twice.
pub open spec fn quoted(s: Seq<char>) -> Seq<char>
    decreases s.len(),
{
    if s.len() == 0 {
        Seq::empty()
    } else if s.last() == '\'' {
        quoted(s.drop_last()).push('\'').push('\'')
    } else {
        quoted(s.drop_last()).push(s.last())
    }
}

/// A text in which each quote stands twice.
pub fn escape_sql(value: &str) -> (escaped: String)
    ensures
        escaped@ == quoted(value@),
{
    let chars = characters(value);
    let mut escaped = String::new();
    let mut i: usize = 0;
    proof {
        assert(chars@.take(0) =~= Seq::empty());
        assert(escaped@ =~= Seq::empty());
    }
    while i < chars.len()
        invariant
            i <= chars@.len(),
            escaped@ == quoted(chars@.take(i as int)),
        decreases chars@.len() - i,
    {
        proof {
            steps::lemma_take_next(chars@, i as int);
        }
        if chars[i] == '\'' {
            escaped.push('\'');
        }
        escaped.push(chars[i]);
        i = i + 1;
    }
    assert(chars@.take(i as int) =~= chars@);
    escaped
}

/// The two rows that keep a retained message.
pub open spec fn rows_for(p: packet::PublicationView, store_id: nat) -> Seq<char> {
    MESSAGE_ROW@ + scan::decimal(store_id) + ",0,'"@ + quoted(p.topic) + "',X'"@ + hex_of(p.payload)
        + "','',NULL,"@ + scan::decimal(p.payload.len()) + ",0,0,"@ + scan::decimal(p.qos as nat)
        + ",1,NULL);\n"@ + RETAIN_ROW@ + quoted(p.topic) + "',"@ + scan::decimal(store_id)
        + ");\n"@
}

/// The rows that keep a list of retained messages, numbered from 1 on.
pub open spec fn all_rows(list: Seq<packet::PublicationView>) -> Seq<char>
    decreases list.len(),
{
    if list.len() == 0 {
        Seq::empty()
    } else {
        all_rows(list.drop_last()) + rows_for(list.last(), list.len())
    }
}

/// How a script starts.
pub open spec fn script_start() -> Seq<char> {
    OPEN_DATABASE@ + MESSAGE_TABLE@ + RETAIN_TABLE@ + CLIENT_TABLE@ + SUBSCRIPTION_TABLE@
        + CLIENT_MESSAGE_TABLE@ + EMPTY_TABLES@
}

/// The script that writes a list of retained messages into a database.
pub open spec fn script_of(list: Seq<packet::PublicationView>) -> Seq<char> {
    script_start() + all_rows(list) + CLOSE_DATABASE@
}

/// Writes the rows that keep a retained message.
fn write_rows(publication: &Publication, store_id: usize, out: &mut String)
    ensures
        final(out)@ == old(out)@ + rows_for(publication@, store_id as nat),
{
    let ghost start = out@;
    let escaped = escape_sql(publication.topic.as_str());
    let digits = encode_hex(publication.payload.as_slice());
    out.append(MESSAGE_ROW);
    write_decimal(store_id as u128, out);
    out.append(",0,'");
    out.append(escaped.as_str());
    out.append("',X'");
    out.append(digits.as_str());
    out.append("','',NULL,");
    write_decimal(publication.payload.len() as u128, out);
    out.append(",0,0,");
    write_decimal(publication.qos as u128, out);
    out.append(",1,NULL);\n");
    out.append(RETAIN_ROW);
    out.append(escaped.as_str());
    out.append("',");
    write_decimal(store_id as u128, out);
    out.append(");\n");
    assert(out@ =~= start + rows_for(publication@, store_id as nat));
}

/// The script that writes a list of retained messages into a database.
pub fn retained_script(retained: &Vec<Publication>) -> (script: String)
    ensures
        script@ == script_of(packet::publication_views(retained@)),
{
    let ghost views = packet::publication_views(retained@);
    let mut script = OPEN_DATABASE.to_owned();
    script.append(MESSAGE_TABLE);
    script.append(RETAIN_TABLE);
    script.append(CLIENT_TABLE);
    script.append(SUBSCRIPTION_TABLE);
    script.append(CLIENT_MESSAGE_TABLE);
    script.append(EMPTY_TABLES);
    let mut i: usize = 0;
    proof {
        assert(views.take(0) =~= Seq::empty());
        assert(script@ =~= script_start() + all_rows(views.take(0)));
    }
    while i < retained.len()
        invariant
            i <= retained@.len(),
            views == packet::publication_views(retained@),
            script@ == script_start() + all_rows(views.take(i as int)),
        decreases retained@.len() - i,
    {
        proof {
            steps::lemma_take_next(views, i as int);
            assert(views[i as int] == retained@[i as int]@);
        }
        write_rows(&retained[i], i + 1, &mut script);
        assert(script@ =~= script_start() + all_rows(views.take(i + 1)));
        i = i + 1;
    }
    assert(views.take(i as int) =~= views);
    script.append(CLOSE_DATABASE);
    script
}

// The rows of a query.

/// A retained message as it is on disk: its topic, its payload and its QoS.
pub open spec fn stored(topic: Seq<char>, payload: Seq<u8>, qos: u8) -> packet::PublicationView {
    packet::PublicationView {
        topic,
        payload,
        qos,
        retain: true,
        packet_id: None,
        dup: false,
        topic_alias: None,
        payload_format_indicator: None,
        response_topic: None,
        correlation_data: None,
        subscription_identifiers: Seq::empty(),
    }
}

/// The retained message that a row gives: its topic, its payload in hexadecimal
/// digits, and its QoS, which is 0 where the row does not name one.
pub open spec fn message_of(line: Seq<char>) -> Result<packet::PublicationView, HexErrorView> {
    let columns = scan::fields_of(line, COLUMN_SEPARATOR);
    let digits = if columns.len() > 1 {
        columns[1]
    } else {
        Seq::empty()
    };
    let qos = if columns.len() > 2 {
        match scan::parsed(columns[2], 255) {
            Some(n) => n as u8,
            None => 0,
        }
    } else {
        0
    };
    match hex_decoded(digits) {
        Ok(payload) => Ok(stored(columns[0], payload, qos)),
        Err(e) => Err(e),
    }
}

/// The retained messages that rows give, or the first mistake among them.
pub open spec fn messages_of(list: Seq<Seq<char>>) -> Result<
    Seq<packet::PublicationView>,
    HexErrorView,
>
    decreases list.len(),
{
    if list.len() == 0 {
        Ok(Seq::empty())
    } else {
        match messages_of(list.drop_last()) {
            Ok(front) => match message_of(list.last()) {
                Ok(p) => Ok(front.push(p)),
                Err(e) => Err(e),
            },
            Err(e) => Err(e),
        }
    }
}

/// The view of a message, or of the mistake in its row.
pub open spec fn message_result(result: Result<Publication, HexError>) -> Result<
    packet::PublicationView,
    HexErrorView,
> {
    match result {
        Ok(p) => Ok(p@),
        Err(e) => Err(e@),
    }
}

/// The view of a list of messages, or of the mistake in the rows.
pub open spec fn messages_result(result: Result<Vec<Publication>, HexError>) -> Result<
    Seq<packet::PublicationView>,
    HexErrorView,
> {
    match result {
        Ok(list) => Ok(packet::publication_views(list@)),
        Err(e) => Err(e@),
    }
}

proof fn lemma_some_field(s: Seq<char>, separator: char)
    ensures
        scan::fields_of(s, separator).len() > 0,
{
}

/// Reads one row of the query.
fn read_row(line: &str) -> (result: Result<Publication, HexError>)
    ensures
        message_result(result) == message_of(line@),
{
    let columns = fields(line, COLUMN_SEPARATOR);
    let ghost views = scan::fields_of(line@, COLUMN_SEPARATOR);
    proof {
        lemma_some_field(line@, COLUMN_SEPARATOR);
        assert forall|k: int| 0 <= k < views.len() implies #[trigger] views[k]
            == columns@[k]@ by {
            assert(scan::views(columns@)[k] == columns@[k]@);
        }
        assert(""@ =~= Seq::<char>::empty()) by {
            reveal_strlit("");
        }
    }
    let payload = if columns.len() > 1 {
        decode_hex(columns[1].as_str())?
    } else {
        decode_hex("")?
    };
    let qos: u8 = if columns.len() > 2 {
        match parse_number(columns[2].as_str(), 255) {
            Some(n) => n as u8,
            None => 0,
        }
    } else {
        0
    };
    let publication = Publication {
        topic: columns[0].clone(),
        payload,
        qos,
        retain: true,
        packet_id: None,
        dup: false,
        topic_alias: None,
        payload_format_indicator: None,
        response_topic: None,
        correlation_data: None,
        subscription_identifiers: Vec::new(),
    };
    assert(message_of(line@) matches Ok(p) && publication@ =~= p);
    Ok(publication)
}

/// Reads the rows of the query: one retained message a line.
pub fn read_retained(rows: &str) -> (result: Result<Vec<Publication>, HexError>)
    ensures
        messages_result(result) == messages_of(scan::lines_of(rows@)),
{
    let list = lines(rows);
    let ghost all = scan::lines_of(rows@);
    let mut retained: Vec<Publication> = Vec::new();
    let mut i: usize = 0;
    proof {
        assert(all.take(0) =~= Seq::empty());
        assert(packet::publication_views(retained@) =~= Seq::empty());
    }
    while i < list.len()
        invariant
            i <= list@.len(),
            scan::views(list@) == all,
            all == scan::lines_of(rows@),
            messages_of(all.take(i as int)) == Ok::<Seq<packet::PublicationView>, HexErrorView>(
                packet::publication_views(retained@),
            ),
        decreases list@.len() - i,
    {
        let ghost shown = packet::publication_views(retained@);
        proof {
            steps::lemma_take_next(all, i as int);
            assert(all[i as int] == list@[i as int]@);
        }
        match read_row(list[i].as_str()) {
            Ok(publication) => {
                let ghost p = publication@;
                retained.push(publication);
                assert(packet::publication_views(retained@) =~= shown.push(p));
            },
            Err(e) => {
                proof {
                    lemma_first_mistake(all, i + 1);
                }
                return Err(e);
            },
        }
        i = i + 1;
    }
    assert(all.take(i as int) =~= all);
    Ok(retained)
}

/// Reads the bytes that the query gives out: one retained message a line.
pub fn read_output(output: &[u8]) -> (result: Result<Vec<Publication>, HexError>)
    ensures
        messages_result(result) == messages_of(scan::lines_of(text::lossy_text(output@))),
        vstd::utf8::valid_utf8(output@) ==> messages_result(result) == messages_of(
            scan::lines_of(vstd::utf8::decode_utf8(output@)),
        ),
{
    let rows = decode_lossy(output);
    read_retained(rows.as_str())
}

/// A mistake among the first rows is the mistake of all of them.
pub proof fn lemma_first_mistake(list: Seq<Seq<char>>, n: int)
    requires
        0 <= n <= list.len(),
        messages_of(list.take(n)) is Err,
    ensures
        messages_of(list) == messages_of(list.take(n)),
    decreases list.len() - n,
{
    if n < list.len() {
        steps::lemma_take_next(list, n);
        lemma_first_mistake(list, n + 1);
    } else {
        assert(list.take(n) =~= list);
    }
}

// Laws.

/// The hexadecimal digits of bytes stand in their places.
pub proof fn lemma_hex_chars(bytes: Seq<u8>)
    ensures
        hex_of(bytes).len() == 2 * bytes.len(),
        vstd::utf8::is_ascii_chars(hex_of(bytes)),
        forall|i: int|
            0 <= i < bytes.len() ==> {
                &&& hex_of(bytes)[2 * i] == hex_digit((#[trigger] bytes[i] / 16) as u8)
                &&& hex_of(bytes)[2 * i + 1] == hex_digit((bytes[i] % 16) as u8)
            },
        !hex_of(bytes).contains('\t'),
        !hex_of(bytes).contains('\n'),
    decreases bytes.len(),
{
    if bytes.len() > 0 {
        let front = bytes.drop_last();
        lemma_hex_chars(front);
        let high = hex_digit((bytes.last() / 16) as u8);
        let low = hex_digit((bytes.last() % 16) as u8);
        let s = hex_of(bytes);
        assert(s == hex_of(front).push(high).push(low));
        assert forall|i: int| 0 <= i < bytes.len() implies {
            &&& s[2 * i] == hex_digit((#[trigger] bytes[i] / 16) as u8)
            &&& s[2 * i + 1] == hex_digit((bytes[i] % 16) as u8)
        } by {
            if i < front.len() {
                assert(front[i] == bytes[i]);
            }
        }
        assert forall|i: int| 0 <= i < s.len() implies '\0' <= #[trigger] s[i] <= '\u{7f}' by {
            if i < hex_of(front).len() {
                assert(s[i] == hex_of(front)[i]);
            }
        }
        assert forall|c: char| c == '\t' || c == '\n' implies !#[trigger] s.contains(c) by {
            steps::lemma_push_contains(hex_of(front), high, c);
            steps::lemma_push_contains(hex_of(front).push(high), low, c);
        }
    }
}

proof fn lemma_pairs_read_back(bytes: Seq<u8>, s: Seq<u8>, i: int)
    requires
        s.len() == 2 * bytes.len(),
        0 <= i <= bytes.len(),
        forall|k: int|
            0 <= k < bytes.len() ==> {
                &&& s[2 * k] == hex_digit((#[trigger] bytes[k] / 16) as u8) as u8
                &&& s[2 * k + 1] == hex_digit((bytes[k] % 16) as u8) as u8
            },
    ensures
        pairs_of(s.skip(2 * i)) == Ok::<Seq<u8>, HexErrorView>(bytes.skip(i)),
    decreases bytes.len() - i,
{
    let rest = s.skip(2 * i);
    if i == bytes.len() {
        assert(bytes.skip(i) =~= Seq::empty());
    } else {
        lemma_pairs_read_back(bytes, s, i + 1);
        let b = bytes[i];
        assert(rest[0] == s[2 * i] && rest[1] == s[2 * i + 1]);
        assert(rest.skip(2) =~= s.skip(2 * (i + 1)));
        let h = (b / 16) as u8;
        let l = (b % 16) as u8;
        assert(h < 16 && l < 16 && h * 16 + l == b);
        assert(hex_value(hex_digit(h) as u8) == Some(h));
        assert(hex_value(hex_digit(l) as u8) == Some(l));
        assert(bytes.skip(i) =~= seq![b] + bytes.skip(i + 1));
    }
}

/// Bytes come back from their hexadecimal digits.
pub proof fn law_hex_read_back(bytes: Seq<u8>)
    ensures
        hex_decoded(hex_of(bytes)) == Ok::<Seq<u8>, HexErrorView>(bytes),
{
    let text = hex_of(bytes);
    let s = vstd::utf8::encode_utf8(text);
    lemma_hex_chars(bytes);
    vstd::utf8::is_ascii_chars_encode_utf8(text);
    assert forall|k: int| 0 <= k < bytes.len() implies {
        &&& s[2 * k] == hex_digit((#[trigger] bytes[k] / 16) as u8) as u8
        &&& s[2 * k + 1] == hex_digit((bytes[k] % 16) as u8) as u8
    } by {
        assert(text[2 * k] as u8 == s[2 * k]);
        assert(text[2 * k + 1] as u8 == s[2 * k + 1]);
    }
    lemma_pairs_read_back(bytes, s, 0);
    assert(s.skip(0) =~= s);
    assert(bytes.skip(0) =~= bytes);
}

/// The text that a quoted text stands for: two quotes stand for one.
pub open spec fn unquoted(s: Seq<char>) -> Seq<char>
    decreases s.len(),
{
    if s.len() == 0 {
        Seq::empty()
    } else if s.len() > 1 && s.last() == '\'' && s[s.len() - 2] == '\'' {
        unquoted(s.take(s.len() - 2)).push('\'')
    } else {
        unquoted(s.drop_last()).push(s.last())
    }
}

/// A text comes back from its quoted form.
pub proof fn law_quoted_text_comes_back(s: Seq<char>)
    ensures
        unquoted(quoted(s)) == s,
    decreases s.len(),
{
    if s.len() == 0 {
        assert(s =~= Seq::empty());
    } else {
        let front = s.drop_last();
        let q = quoted(s);
        law_quoted_text_comes_back(front);
        assert(s =~= front.push(s.last()));
        if s.last() == '\'' {
            assert(q.take(q.len() - 2) =~= quoted(front));
        } else {
            assert(q.drop_last() =~= quoted(front));
        }
    }
}

/// The row that the query gives for a message.
pub open spec fn row_of(p: packet::PublicationView) -> Seq<char> {
    p.topic + seq![COLUMN_SEPARATOR] + (hex_of(p.payload) + seq![COLUMN_SEPARATOR]
        + scan::decimal(p.qos as nat))
}

/// The rows that the query gives for a list of messages, each ended by a line
/// feed.
pub open spec fn output_of(list: Seq<packet::PublicationView>) -> Seq<char>
    decreases list.len(),
{
    if list.len() == 0 {
        Seq::empty()
    } else {
        row_of(list[0]) + seq!['\n'] + output_of(list.skip(1))
    }
}

/// A message as it is on disk.
pub open spec fn as_stored(p: packet::PublicationView) -> packet::PublicationView {
    stored(p.topic, p.payload, p.qos)
}

/// The row of a message, as the query gives it, is read back as that message,
/// where the topic holds no separator.
pub proof fn law_row_read_back(p: packet::PublicationView)
    requires
        !p.topic.contains(COLUMN_SEPARATOR),
    ensures
        message_of(row_of(p)) == Ok::<packet::PublicationView, HexErrorView>(as_stored(p)),
{
    let digits = hex_of(p.payload);
    let number = scan::decimal(p.qos as nat);
    let tail = digits + seq![COLUMN_SEPARATOR] + number;
    lemma_hex_chars(p.payload);
    scan::law_decimal_read_back(p.qos as nat, 255);
    lemma_digits_hold_no_other(number, COLUMN_SEPARATOR);
    scan::lemma_field(p.topic, tail, COLUMN_SEPARATOR);
    scan::lemma_field(digits, number, COLUMN_SEPARATOR);
    scan::lemma_last_field(number, COLUMN_SEPARATOR);
    law_hex_read_back(p.payload);
    assert(scan::fields_of(row_of(p), COLUMN_SEPARATOR) =~= seq![p.topic, digits, number]);
}

proof fn lemma_digits_hold_no_other(s: Seq<char>, c: char)
    requires
        scan::all_digits(s),
        !scan::is_digit(c),
    ensures
        !s.contains(c),
{
    if s.contains(c) {
        assert(scan::is_digit(s[s.index_of(c)]));
    }
}

proof fn lemma_row_is_a_line(p: packet::PublicationView)
    requires
        !p.topic.contains('\n'),
    ensures
        !row_of(p).contains('\n'),
        row_of(p).len() > 0,
        row_of(p).last() != '\r',
{
    let digits = hex_of(p.payload);
    let number = scan::decimal(p.qos as nat);
    let row = row_of(p);
    lemma_hex_chars(p.payload);
    scan::law_decimal_read_back(p.qos as nat, 255);
    lemma_digits_hold_no_other(number, '\n');
    lemma_digits_hold_no_other(number, '\r');
    assert(row.last() == number.last());
    assert(number.contains(number[number.len() - 1]));
    if row.contains('\n') {
        let i = row.index_of('\n');
        let first = p.topic.len() as int;
        let second = first + 1 + digits.len() as int;
        if i < first {
            assert(p.topic[i] == '\n');
        } else if i == first {
            assert(row[i] == COLUMN_SEPARATOR);
        } else if i < second {
            assert(digits[i - first - 1] == '\n');
        } else if i == second {
            assert(row[i] == COLUMN_SEPARATOR);
        } else {
            assert(number[i - second - 1] == '\n');
        }
    }
}

/// The rows of a list of messages.
pub open spec fn rows_of(list: Seq<packet::PublicationView>) -> Seq<Seq<char>> {
    list.map_values(|p: packet::PublicationView| row_of(p))
}

/// A list of messages as it is on disk.
pub open spec fn all_stored(list: Seq<packet::PublicationView>) -> Seq<packet::PublicationView> {
    list.map_values(|p: packet::PublicationView| as_stored(p))
}

proof fn lemma_output_lines(list: Seq<packet::PublicationView>)
    requires
        forall|i: int| 0 <= i < list.len() ==> !(#[trigger] list[i]).topic.contains('\n'),
    ensures
        scan::lines_of(output_of(list)) == rows_of(list),
    decreases list.len(),
{
    if list.len() == 0 {
        assert(rows_of(list) =~= Seq::empty());
    } else {
        let rest = list.skip(1);
        assert forall|i: int| 0 <= i < rest.len() implies !(
        #[trigger] rest[i]).topic.contains('\n') by {
            assert(rest[i] == list[i + 1]);
        }
        lemma_output_lines(rest);
        lemma_row_is_a_line(list[0]);
        scan::lemma_line(row_of(list[0]), output_of(rest));
        assert(rows_of(list) =~= seq![row_of(list[0])] + rows_of(rest));
    }
}

proof fn lemma_rows_read_back(list: Seq<packet::PublicationView>)
    requires
        forall|i: int|
            0 <= i < list.len() ==> !(#[trigger] list[i]).topic.contains(COLUMN_SEPARATOR),
    ensures
        messages_of(rows_of(list)) == Ok::<Seq<packet::PublicationView>, HexErrorView>(
            all_stored(list),
        ),
    decreases list.len(),
{
    if list.len() == 0 {
        assert(all_stored(list) =~= Seq::empty());
    } else {
        let front = list.drop_last();
        let last = list.last();
        assert forall|i: int| 0 <= i < front.len() implies !(
        #[trigger] front[i]).topic.contains(COLUMN_SEPARATOR) by {
            assert(front[i] == list[i]);
        }
        lemma_rows_read_back(front);
        assert(!list[list.len() - 1].topic.contains(COLUMN_SEPARATOR));
        law_row_read_back(last);
        assert(rows_of(list).drop_last() =~= rows_of(front));
        assert(all_stored(list) =~= all_stored(front).push(as_stored(last)));
    }
}

/// The whole output of the query is read back: rows of messages whose topics hold
/// neither a separator nor a line feed, each ended by a line feed, give these
/// messages as they are on disk, and give them unchanged where they are as on
/// disk already.
pub proof fn law_output_read_back(list: Seq<packet::PublicationView>)
    requires
        forall|i: int|
            0 <= i < list.len() ==> !(#[trigger] list[i]).topic.contains(COLUMN_SEPARATOR)
                && !list[i].topic.contains('\n'),
    ensures
        messages_of(scan::lines_of(output_of(list))) == Ok::<
            Seq<packet::PublicationView>,
            HexErrorView,
        >(all_stored(list)),
        (forall|i: int| 0 <= i < list.len() ==> #[trigger] list[i] == as_stored(list[i]))
            ==> messages_of(scan::lines_of(output_of(list))) == Ok::<
            Seq<packet::PublicationView>,
            HexErrorView,
        >(list),
{
    lemma_output_lines(list);
    lemma_rows_read_back(list);
    if forall|i: int| 0 <= i < list.len() ==> #[trigger] list[i] == as_stored(list[i]) {
        assert(all_stored(list) =~= list);
    }
}

} // verus!
