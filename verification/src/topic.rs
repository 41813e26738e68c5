//! Topic names and topic filters: which are valid, and which match.
//!
//! The rules speak of the UTF-8 bytes of a text. Every character that they give
//! a meaning to is a single byte.

use vstd::prelude::*;

use crate::text;

verus! {

/// How many level separators a topic may hold.
pub const TOPIC_HIERARCHY_LIMIT: usize = 200;

/// How many bytes a topic may have.
pub const TOPIC_LENGTH_LIMIT: usize = 65_535;

/// The level separator, `/`.
pub const SEPARATOR: u8 = 0x2F;

/// The wildcard for one level, `+`.
pub const ANY_LEVEL: u8 = 0x2B;

/// The wildcard for all the levels that follow, `#`.
pub const ALL_LEVELS: u8 = 0x23;

/// The first byte of the topics that wildcards of other filters leave out, `$`.
pub const RESERVED: u8 = 0x24;

/// Why a topic name or filter is refused.
#[derive(Debug, Clone, Copy, PartialEq, Eq, Structural)]
pub enum TopicError {
    Empty,
    TooLong,
    TooDeep,
    WildcardInPublish,
    InvalidWildcard,
}

/// How many level separators there are.
pub open spec fn separators(s: Seq<u8>) -> nat
    decreases s.len(),
{
    if s.len() == 0 {
        0
    } else {
        separators(s.drop_last()) + if s.last() == SEPARATOR {
            1nat
        } else {
            0nat
        }
    }
}

/// Whether a byte is one of the two wildcards.
pub open spec fn is_wildcard(byte: u8) -> bool {
    byte == ANY_LEVEL || byte == ALL_LEVELS
}

/// No byte is a wildcard.
pub open spec fn has_no_wildcard(s: Seq<u8>) -> bool {
    forall|i: int| 0 <= i < s.len() ==> !is_wildcard(#[trigger] s[i])
}

/// A wildcard at a place stands for a whole level, and `#` for the last one.
pub open spec fn wildcard_placed(s: Seq<u8>, i: int) -> bool {
    is_wildcard(s[i]) ==> {
        &&& i == 0 || s[i - 1] == SEPARATOR
        &&& i + 1 == s.len() || (s[i] == ANY_LEVEL && s[i + 1] == SEPARATOR)
    }
}

/// Every wildcard is at a place where it may be.
pub open spec fn wildcards_placed(s: Seq<u8>) -> bool {
    forall|i: int| 0 <= i < s.len() ==> #[trigger] wildcard_placed(s, i)
}

/// What is said of the bytes of a topic name.
pub open spec fn name_verdict(s: Seq<u8>) -> Result<(), TopicError> {
    if s.len() == 0 {
        Err(TopicError::Empty)
    } else if s.len() > TOPIC_LENGTH_LIMIT {
        Err(TopicError::TooLong)
    } else if !has_no_wildcard(s) {
        Err(TopicError::WildcardInPublish)
    } else if separators(s) > TOPIC_HIERARCHY_LIMIT {
        Err(TopicError::TooDeep)
    } else {
        Ok(())
    }
}

/// What is said of the bytes of a topic filter.
pub open spec fn filter_verdict(s: Seq<u8>) -> Result<(), TopicError> {
    if s.len() == 0 {
        Err(TopicError::Empty)
    } else if s.len() > TOPIC_LENGTH_LIMIT {
        Err(TopicError::TooLong)
    } else if !wildcards_placed(s) {
        Err(TopicError::InvalidWildcard)
    } else if separators(s) > TOPIC_HIERARCHY_LIMIT {
        Err(TopicError::TooDeep)
    } else {
        Ok(())
    }
}

/// A text that a message can be published to.
pub open spec fn is_topic_name(topic: Seq<char>) -> bool {
    name_verdict(vstd::utf8::encode_utf8(topic)) is Ok
}

/// A text that can be subscribed to.
pub open spec fn is_topic_filter(filter: Seq<char>) -> bool {
    filter_verdict(vstd::utf8::encode_utf8(filter)) is Ok
}

/// Counts the level separators.
fn count_separators(bytes: &[u8]) -> (count: usize)
    ensures
        count == separators(bytes@),
{
    let mut count: usize = 0;
    let mut i: usize = 0;
    while i < bytes.len()
        invariant
            i <= bytes@.len(),
            count <= i,
            count == separators(bytes@.take(i as int)),
        decreases bytes@.len() - i,
    {
        assert(bytes@.take(i + 1).drop_last() =~= bytes@.take(i as int));
        if bytes[i] == SEPARATOR {
            count = count + 1;
        }
        i = i + 1;
    }
    assert(bytes@.take(i as int) =~= bytes@);
    count
}

/// Whether a byte is one of the two wildcards.
fn wildcard(byte: u8) -> (yes: bool)
    ensures
        yes == is_wildcard(byte),
{
    byte == ANY_LEVEL || byte == ALL_LEVELS
}

/// Whether a text can be published to, and if not, why.
pub fn check_publish_topic(topic: &str) -> (verdict: Result<(), TopicError>)
    ensures
        verdict == name_verdict(vstd::utf8::encode_utf8(topic@)),
{
    let bytes = topic.as_bytes();
    if bytes.len() == 0 {
        return Err(TopicError::Empty);
    }
    if bytes.len() > TOPIC_LENGTH_LIMIT {
        return Err(TopicError::TooLong);
    }
    let mut i: usize = 0;
    while i < bytes.len()
        invariant
            bytes@ == vstd::utf8::encode_utf8(topic@),
            0 < bytes@.len() <= TOPIC_LENGTH_LIMIT,
            i <= bytes@.len(),
            forall|k: int| 0 <= k < i ==> !is_wildcard(#[trigger] bytes@[k]),
        decreases bytes@.len() - i,
    {
        if wildcard(bytes[i]) {
            return Err(TopicError::WildcardInPublish);
        }
        i = i + 1;
    }
    if count_separators(bytes) > TOPIC_HIERARCHY_LIMIT {
        return Err(TopicError::TooDeep);
    }
    Ok(())
}

/// Whether a text can be subscribed to, and if not, why.
pub fn check_subscribe_topic(filter: &str) -> (verdict: Result<(), TopicError>)
    ensures
        verdict == filter_verdict(vstd::utf8::encode_utf8(filter@)),
{
    let bytes = filter.as_bytes();
    if bytes.len() == 0 {
        return Err(TopicError::Empty);
    }
    if bytes.len() > TOPIC_LENGTH_LIMIT {
        return Err(TopicError::TooLong);
    }
    let mut i: usize = 0;
    while i < bytes.len()
        invariant
            bytes@ == vstd::utf8::encode_utf8(filter@),
            0 < bytes@.len() <= TOPIC_LENGTH_LIMIT,
            i <= bytes@.len(),
            forall|k: int| 0 <= k < i ==> #[trigger] wildcard_placed(bytes@, k),
        decreases bytes@.len() - i,
    {
        if wildcard(bytes[i]) {
            if i > 0 && bytes[i - 1] != SEPARATOR {
                assert(!wildcard_placed(bytes@, i as int));
                return Err(TopicError::InvalidWildcard);
            }
            if i + 1 < bytes.len() && (bytes[i] == ALL_LEVELS || bytes[i + 1] != SEPARATOR) {
                assert(!wildcard_placed(bytes@, i as int));
                return Err(TopicError::InvalidWildcard);
            }
        }
        i = i + 1;
    }
    if count_separators(bytes) > TOPIC_HIERARCHY_LIMIT {
        return Err(TopicError::TooDeep);
    }
    Ok(())
}

/// Where the first level ends: at the first separator, or at the end.
pub open spec fn level_end(s: Seq<u8>) -> nat
    decreases s.len(),
{
    if s.len() == 0 || s[0] == SEPARATOR {
        0
    } else {
        1 + level_end(s.skip(1))
    }
}

proof fn lemma_level_end(s: Seq<u8>)
    ensures
        level_end(s) <= s.len(),
        level_end(s) < s.len() ==> s[level_end(s) as int] == SEPARATOR,
        forall|k: int| 0 <= k < level_end(s) ==> #[trigger] s[k] != SEPARATOR,
    decreases s.len(),
{
    if s.len() > 0 && s[0] != SEPARATOR {
        lemma_level_end(s.skip(1));
        assert forall|k: int| 0 <= k < level_end(s) implies #[trigger] s[k] != SEPARATOR by {
            if k > 0 {
                assert(s.skip(1)[k - 1] == s[k]);
            }
        }
    }
}

/// The place is the end of the first level.
proof fn lemma_level_end_is(s: Seq<u8>, end: nat)
    requires
        end <= s.len(),
        end < s.len() ==> s[end as int] == SEPARATOR,
        forall|k: int| 0 <= k < end ==> #[trigger] s[k] != SEPARATOR,
    ensures
        level_end(s) == end,
{
    lemma_level_end(s);
    if level_end(s) < end {
        assert(s[level_end(s) as int] != SEPARATOR);
    }
    if end < level_end(s) {
        assert(s[end as int] != SEPARATOR);
    }
}

/// The levels of a topic: what stands between the separators.
pub open spec fn levels(s: Seq<u8>) -> Seq<Seq<u8>>
    decreases s.len(),
{
    let end = level_end(s);
    if end >= s.len() {
        seq![s]
    } else {
        seq![s.take(end as int)] + levels(s.skip(end as int + 1))
    }
}

/// The levels of a filter match those of a topic: one by one, where `+` matches
/// any level and a `#` that comes last matches all the levels that are left,
/// even none.
pub open spec fn levels_match(filter: Seq<Seq<u8>>, topic: Seq<Seq<u8>>) -> bool
    decreases filter.len(),
{
    if filter.len() == 0 {
        topic.len() == 0
    } else if filter[0] == seq![ALL_LEVELS] {
        filter.len() == 1
    } else {
        &&& topic.len() > 0
        &&& filter[0] == seq![ANY_LEVEL] || filter[0] == topic[0]
        &&& levels_match(filter.drop_first(), topic.drop_first())
    }
}

/// Whether the topic is one of those that start with `$`.
pub open spec fn is_reserved(s: Seq<u8>) -> bool {
    s.len() > 0 && s[0] == RESERVED
}

/// The bytes of a filter match those of a topic. A filter and a topic of which
/// only one starts with `$` never match.
pub open spec fn bytes_match(filter: Seq<u8>, topic: Seq<u8>) -> bool {
    &&& filter.len() > 0
    &&& topic.len() > 0
    &&& is_reserved(filter) == is_reserved(topic)
    &&& levels_match(levels(filter), levels(topic))
}

/// A filter matches a topic.
pub open spec fn filter_matches(filter: Seq<char>, topic: Seq<char>) -> bool {
    bytes_match(vstd::utf8::encode_utf8(filter), vstd::utf8::encode_utf8(topic))
}

/// The levels from a place on; none where there is no such place.
pub open spec fn levels_from(s: Seq<u8>, place: Option<usize>) -> Seq<Seq<u8>> {
    match place {
        Some(start) => levels(s.skip(start as int)),
        None => Seq::empty(),
    }
}

/// Where the level that starts at a place ends.
fn find_level_end(bytes: &[u8], start: usize) -> (end: usize)
    requires
        start <= bytes@.len(),
    ensures
        start <= end <= bytes@.len(),
        end - start == level_end(bytes@.skip(start as int)),
{
    let mut end: usize = start;
    while end < bytes.len() && bytes[end] != SEPARATOR
        invariant
            start <= end <= bytes@.len(),
            forall|k: int| start <= k < end ==> #[trigger] bytes@[k] != SEPARATOR,
        decreases bytes@.len() - end,
    {
        end = end + 1;
    }
    proof {
        let s = bytes@.skip(start as int);
        assert forall|k: int| 0 <= k < end - start implies #[trigger] s[k] != SEPARATOR by {
            assert(s[k] == bytes@[start + k]);
        }
        lemma_level_end_is(s, (end - start) as nat);
    }
    end
}

/// Where the level behind the one that ends at a place starts, if there is one.
fn next_level(bytes: &[u8], start: usize, end: usize) -> (next: Option<usize>)
    requires
        start <= end <= bytes@.len(),
        end - start == level_end(bytes@.skip(start as int)),
    ensures
        next matches Some(n) ==> start < n <= bytes@.len(),
        levels(bytes@.skip(start as int)) == seq![bytes@.subrange(start as int, end as int)]
            + levels_from(bytes@, next),
        levels_from(bytes@, next).len() == 0 <==> next is None,
{
    let ghost s = bytes@.skip(start as int);
    proof {
        lemma_level_end(s);
    }
    if end < bytes.len() {
        proof {
            assert(s.skip(end - start + 1) =~= bytes@.skip(end + 1));
            assert(s.take(end - start) =~= bytes@.subrange(start as int, end as int));
        }
        Some(end + 1)
    } else {
        proof {
            assert(s =~= bytes@.subrange(start as int, end as int));
            assert(seq![s] + Seq::<Seq<u8>>::empty() =~= seq![s]);
        }
        None
    }
}

/// Whether a level is the one byte given.
fn level_is(bytes: &[u8], start: usize, end: usize, byte: u8) -> (yes: bool)
    requires
        start <= end <= bytes@.len(),
    ensures
        yes == (bytes@.subrange(start as int, end as int) == seq![byte]),
{
    let yes = end - start == 1 && bytes[start] == byte;
    proof {
        let level = bytes@.subrange(start as int, end as int);
        if yes {
            assert(level =~= seq![byte]);
        } else if level == seq![byte] {
            assert(level.len() == 1 && level[0] == byte);
        }
    }
    yes
}

/// Whether two levels are equal.
fn same_level(a: &[u8], a_start: usize, a_end: usize, b: &[u8], b_start: usize, b_end: usize) -> (same:
    bool)
    requires
        a_start <= a_end <= a@.len(),
        b_start <= b_end <= b@.len(),
    ensures
        same == (a@.subrange(a_start as int, a_end as int) == b@.subrange(
            b_start as int,
            b_end as int,
        )),
{
    text::same_bytes(
        vstd::slice::slice_subrange(a, a_start, a_end),
        vstd::slice::slice_subrange(b, b_start, b_end),
    )
}

/// Whether the topic filter matches the topic name.
pub fn matches(filter: &str, topic: &str) -> (yes: bool)
    ensures
        yes == filter_matches(filter@, topic@),
{
    let f = filter.as_bytes();
    let t = topic.as_bytes();
    if f.len() == 0 || t.len() == 0 {
        return false;
    }
    if (f[0] == RESERVED) != (t[0] == RESERVED) {
        return false;
    }
    let mut start: usize = 0;
    let mut topic_place: Option<usize> = Some(0);
    assert(f@.skip(0) =~= f@);
    assert(t@.skip(0) =~= t@);
    loop
        invariant
            start <= f@.len(),
            topic_place matches Some(n) ==> n <= t@.len(),
            filter_matches(filter@, topic@) == levels_match(
                levels(f@.skip(start as int)),
                levels_from(t@, topic_place),
            ),
        decreases f@.len() - start,
    {
        let end: usize = find_level_end(f, start);
        let next = next_level(f, start, end);
        let ghost left = levels(f@.skip(start as int));
        proof {
            assert(left[0] == f@.subrange(start as int, end as int));
            assert(left.drop_first() =~= levels_from(f@, next));
        }
        if level_is(f, start, end, ALL_LEVELS) {
            return next.is_none();
        }
        let topic_start: usize = match topic_place {
            Some(place) => place,
            None => {
                return false;
            },
        };
        let topic_end: usize = find_level_end(t, topic_start);
        let topic_next = next_level(t, topic_start, topic_end);
        let ghost topic_left = levels(t@.skip(topic_start as int));
        proof {
            assert(topic_left[0] == t@.subrange(topic_start as int, topic_end as int));
            assert(topic_left.drop_first() =~= levels_from(t@, topic_next));
        }
        if !level_is(f, start, end, ANY_LEVEL) && !same_level(
            f,
            start,
            end,
            t,
            topic_start,
            topic_end,
        ) {
            return false;
        }
        topic_place = topic_next;
        match next {
            Some(place) => {
                start = place;
            },
            None => {
                proof {
                    reveal_with_fuel(levels_match, 2);
                }
                return topic_place.is_none();
            },
        }
    }
}

/// What a shared subscription starts with: `$share/`.
pub open spec fn share_prefix() -> Seq<u8> {
    seq![0x24u8, 0x73u8, 0x68u8, 0x61u8, 0x72u8, 0x65u8, 0x2Fu8]
}

/// The group and the filter of a shared subscription, `$share/group/filter`.
/// Neither of them is empty.
pub open spec fn shared_bytes(s: Seq<u8>) -> Option<(Seq<u8>, Seq<u8>)> {
    if s.len() >= 7 && s.take(7) == share_prefix() {
        let tail = s.skip(7);
        let end = level_end(tail) as int;
        if 0 < end && end + 1 < tail.len() {
            Some((tail.take(end), tail.skip(end + 1)))
        } else {
            None
        }
    } else {
        None
    }
}

/// The group and the filter of a shared subscription, as texts.
pub open spec fn shared_parts(filter: Seq<char>) -> Option<(Seq<char>, Seq<char>)> {
    match shared_bytes(vstd::utf8::encode_utf8(filter)) {
        Some((group, shared)) => Some(
            (vstd::utf8::decode_utf8(group), vstd::utf8::decode_utf8(shared)),
        ),
        None => None,
    }
}

/// Whether the bytes start with `$share/`.
fn has_share_prefix(bytes: &[u8]) -> (yes: bool)
    ensures
        yes == (bytes@.len() >= 7 && bytes@.take(7) == share_prefix()),
{
    if bytes.len() < 7 {
        return false;
    }
    let yes = bytes[0] == 0x24 && bytes[1] == 0x73 && bytes[2] == 0x68 && bytes[3] == 0x61
        && bytes[4] == 0x72 && bytes[5] == 0x65 && bytes[6] == 0x2F;
    proof {
        let head = bytes@.take(7);
        if yes {
            assert(head =~= share_prefix());
        } else if head == share_prefix() {
            assert(head[0] == 0x24 && head[1] == 0x73 && head[2] == 0x68 && head[3] == 0x61
                && head[4] == 0x72 && head[5] == 0x65 && head[6] == 0x2F);
        }
    }
    yes
}

/// Splits a text in two before and behind an ASCII byte of it.
fn split_around(whole: &str, place: usize) -> (parts: (&str, &str))
    requires
        place < vstd::utf8::encode_utf8(whole@).len(),
        vstd::utf8::encode_utf8(whole@)[place as int] < 128,
    ensures
        vstd::utf8::encode_utf8(parts.0@) == vstd::utf8::encode_utf8(whole@).take(place as int),
        vstd::utf8::encode_utf8(parts.1@) == vstd::utf8::encode_utf8(whole@).skip(place + 1),
{
    let ghost s = vstd::utf8::encode_utf8(whole@);
    proof {
        vstd::utf8::encode_utf8_valid_utf8(whole@);
        text::lemma_ascii_boundaries(s, place as int);
    }
    let (head, tail) = whole.split_at(place);
    let ghost t = vstd::utf8::encode_utf8(tail@);
    proof {
        assert(t =~= s.skip(place as int));
        vstd::utf8::encode_utf8_valid_utf8(tail@);
        text::lemma_ascii_boundaries(t, 0);
    }
    let (_, behind) = tail.split_at(1);
    proof {
        assert(vstd::utf8::encode_utf8(behind@) =~= s.skip(place + 1));
        assert(vstd::utf8::encode_utf8(head@) =~= s.take(place as int));
    }
    (head, behind)
}

/// The group and the filter of a shared subscription; nothing for a filter that
/// is not shared.
pub fn shared_filter(filter: &str) -> (parts: Option<(&str, &str)>)
    ensures
        match parts {
            Some((group, shared)) => shared_parts(filter@) == Some((group@, shared@)),
            None => shared_parts(filter@) is None,
        },
{
    let bytes = filter.as_bytes();
    if !has_share_prefix(bytes) {
        return None;
    }
    let end: usize = find_level_end(bytes, 7);
    proof {
        lemma_level_end(bytes@.skip(7));
    }
    if end == 7 || end >= bytes.len() || end + 1 >= bytes.len() {
        return None;
    }
    assert(bytes@[end as int] == bytes@.skip(7)[end - 7]);
    assert(bytes@.take(7)[6] == bytes@[6]);
    let (head, shared) = split_around(filter, end);
    let (_, group) = split_around(head, 6);
    proof {
        let tail = bytes@.skip(7);
        assert(vstd::utf8::encode_utf8(group@) =~= tail.take(end - 7));
        assert(vstd::utf8::encode_utf8(shared@) =~= tail.skip(end - 7 + 1));
        vstd::utf8::encode_utf8_decode_utf8(group@);
        vstd::utf8::encode_utf8_decode_utf8(shared@);
    }
    Some((group, shared))
}

} // verus!
