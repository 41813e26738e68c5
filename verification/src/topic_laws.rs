//! Laws of topic names and filters.

use vstd::prelude::*;

use crate::topic;
use crate::topic::{ALL_LEVELS, ANY_LEVEL, SEPARATOR};

verus! {

/// A text that can be published to can also be subscribed to.
pub proof fn law_name_is_filter(name: Seq<char>)
    requires
        topic::is_topic_name(name),
    ensures
        topic::is_topic_filter(name),
{
    let s = vstd::utf8::encode_utf8(name);
    assert forall|i: int| 0 <= i < s.len() implies #[trigger] topic::wildcard_placed(s, i) by {
        assert(!topic::is_wildcard(s[i]));
    }
}

proof fn lemma_level_end_bounds(s: Seq<u8>)
    ensures
        topic::level_end(s) <= s.len(),
        topic::level_end(s) < s.len() ==> s[topic::level_end(s) as int] == SEPARATOR,
    decreases s.len(),
{
    if s.len() > 0 && s[0] != SEPARATOR {
        lemma_level_end_bounds(s.skip(1));
    }
}

/// A topic has one level more than separators.
pub proof fn law_levels_and_separators(s: Seq<u8>)
    ensures
        topic::levels(s).len() == topic::separators(s) + 1,
    decreases s.len(),
{
    let end = topic::level_end(s) as int;
    lemma_level_end_bounds(s);
    lemma_no_separator_in_level(s);
    if end >= s.len() {
        lemma_separators_none(s);
    } else {
        let rest = s.skip(end + 1);
        law_levels_and_separators(rest);
        lemma_separators_concat(s.take(end + 1), rest);
        assert(s.take(end + 1) + rest =~= s);
        assert(s.take(end + 1).drop_last() =~= s.take(end));
        lemma_separators_none(s.take(end));
    }
}

proof fn lemma_no_separator_in_level(s: Seq<u8>)
    ensures
        forall|k: int| 0 <= k < topic::level_end(s) ==> #[trigger] s[k] != SEPARATOR,
    decreases s.len(),
{
    if s.len() > 0 && s[0] != SEPARATOR {
        lemma_no_separator_in_level(s.skip(1));
        lemma_level_end_bounds(s);
        assert forall|k: int| 0 <= k < topic::level_end(s) implies #[trigger] s[k]
            != SEPARATOR by {
            if k > 0 {
                assert(s.skip(1)[k - 1] == s[k]);
            }
        }
    }
}

proof fn lemma_separators_none(s: Seq<u8>)
    requires
        forall|k: int| 0 <= k < s.len() ==> #[trigger] s[k] != SEPARATOR,
    ensures
        topic::separators(s) == 0,
    decreases s.len(),
{
    if s.len() > 0 {
        assert(s.last() == s[s.len() - 1]);
        assert forall|k: int| 0 <= k < s.drop_last().len() implies #[trigger] s.drop_last()[k]
            != SEPARATOR by {
            assert(s[k] == s.drop_last()[k]);
        }
        lemma_separators_none(s.drop_last());
    }
}

proof fn lemma_separators_concat(a: Seq<u8>, b: Seq<u8>)
    ensures
        topic::separators(a + b) == topic::separators(a) + topic::separators(b),
    decreases b.len(),
{
    if b.len() == 0 {
        assert(a + b =~= a);
    } else {
        lemma_separators_concat(a, b.drop_last());
        assert((a + b).drop_last() =~= a + b.drop_last());
        assert((a + b).last() == b.last());
    }
}

/// What stands before a separator and what stands behind it are levels of
/// their own.
pub proof fn law_levels_of_parts(a: Seq<u8>, b: Seq<u8>)
    ensures
        topic::levels(a.push(SEPARATOR) + b) == topic::levels(a) + topic::levels(b),
    decreases a.len(),
{
    let s = a.push(SEPARATOR) + b;
    let end = topic::level_end(a) as int;
    lemma_level_end_bounds(a);
    lemma_level_end_push(a, b);
    if end >= a.len() {
        assert(s.take(end) =~= a);
        assert(s.skip(end + 1) =~= b);
    } else {
        let rest = a.skip(end + 1);
        law_levels_of_parts(rest, b);
        assert(s.take(end) =~= a.take(end));
        assert(s.skip(end + 1) =~= rest.push(SEPARATOR) + b);
        assert(seq![a.take(end)] + (topic::levels(rest) + topic::levels(b)) =~= (seq![a.take(end)]
            + topic::levels(rest)) + topic::levels(b));
    }
}

proof fn lemma_level_end_push(a: Seq<u8>, b: Seq<u8>)
    ensures
        topic::level_end(a.push(SEPARATOR) + b) == topic::level_end(a),
    decreases a.len(),
{
    let s = a.push(SEPARATOR) + b;
    if a.len() > 0 && a[0] != SEPARATOR {
        assert(s.skip(1) =~= a.skip(1).push(SEPARATOR) + b);
        lemma_level_end_push(a.skip(1), b);
    }
}

/// No level is one of the wildcards.
spec fn levels_are_plain(list: Seq<Seq<u8>>) -> bool {
    forall|i: int|
        0 <= i < list.len() ==> #[trigger] list[i] != seq![ALL_LEVELS] && list[i] != seq![ANY_LEVEL]
}

proof fn lemma_plain_levels(s: Seq<u8>)
    requires
        topic::has_no_wildcard(s),
    ensures
        levels_are_plain(topic::levels(s)),
    decreases s.len(),
{
    let end = topic::level_end(s) as int;
    lemma_level_end_bounds(s);
    let first = s.take(end);
    if first.len() > 0 {
        assert(!topic::is_wildcard(s[0]));
        assert(first[0] == s[0]);
    }
    if end < s.len() {
        let rest = s.skip(end + 1);
        assert forall|i: int| 0 <= i < rest.len() implies !topic::is_wildcard(
            #[trigger] rest[i],
        ) by {
            assert(rest[i] == s[end + 1 + i]);
        }
        lemma_plain_levels(rest);
    } else {
        assert(first =~= s);
    }
}

/// Plain levels in front of both lists match themselves.
proof fn lemma_common_levels(head: Seq<Seq<u8>>, filter: Seq<Seq<u8>>, list: Seq<Seq<u8>>)
    requires
        levels_are_plain(head),
    ensures
        topic::levels_match(head + filter, head + list) == topic::levels_match(filter, list),
    decreases head.len(),
{
    if head.len() == 0 {
        assert(head + filter =~= filter);
        assert(head + list =~= list);
    } else {
        let more = head.drop_first();
        assert forall|i: int| 0 <= i < more.len() implies #[trigger] more[i] != seq![ALL_LEVELS]
            && more[i] != seq![ANY_LEVEL] by {
            assert(more[i] == head[i + 1]);
        }
        lemma_common_levels(more, filter, list);
        assert((head + filter).drop_first() =~= more + filter);
        assert((head + list).drop_first() =~= more + list);
        assert((head + filter)[0] == head[0]);
        assert((head + list)[0] == head[0]);
    }
}

/// A topic name, subscribed to as it is, matches itself.
pub proof fn law_name_matches_itself(name: Seq<char>)
    requires
        topic::is_topic_name(name),
    ensures
        topic::filter_matches(name, name),
{
    let s = vstd::utf8::encode_utf8(name);
    let none = Seq::<Seq<u8>>::empty();
    lemma_plain_levels(s);
    lemma_common_levels(topic::levels(s), none, none);
    assert(topic::levels(s) + none =~= topic::levels(s));
}

proof fn lemma_plain_match_is_equality(filter: Seq<Seq<u8>>, list: Seq<Seq<u8>>)
    requires
        levels_are_plain(filter),
        topic::levels_match(filter, list),
    ensures
        filter == list,
    decreases filter.len(),
{
    if filter.len() == 0 {
        assert(filter =~= list);
    } else {
        let more = filter.drop_first();
        assert(filter[0] != seq![ALL_LEVELS] && filter[0] != seq![ANY_LEVEL]);
        assert forall|i: int| 0 <= i < more.len() implies #[trigger] more[i] != seq![ALL_LEVELS]
            && more[i] != seq![ANY_LEVEL] by {
            assert(more[i] == filter[i + 1]);
        }
        lemma_plain_match_is_equality(more, list.drop_first());
        assert(filter =~= seq![filter[0]] + more);
        assert(list =~= seq![list[0]] + list.drop_first());
    }
}

/// Two topics with the same levels are the same.
pub proof fn law_levels_tell_topics_apart(a: Seq<u8>, b: Seq<u8>)
    requires
        topic::levels(a) == topic::levels(b),
    ensures
        a == b,
    decreases a.len(),
{
    let a_end = topic::level_end(a) as int;
    let b_end = topic::level_end(b) as int;
    lemma_level_end_bounds(a);
    lemma_level_end_bounds(b);
    law_levels_and_separators(a);
    law_levels_and_separators(b);
    if a_end >= a.len() {
        assert(topic::levels(a).len() == 1);
        if b_end < b.len() {
            law_levels_and_separators(b.skip(b_end + 1));
            assert(topic::levels(b).len() > 1);
        }
        assert(topic::levels(a)[0] == topic::levels(b)[0]);
    } else {
        law_levels_and_separators(a.skip(a_end + 1));
        if b_end >= b.len() {
            assert(topic::levels(b).len() == 1);
            assert(topic::levels(a).len() > 1);
        }
        let a_rest = a.skip(a_end + 1);
        let b_rest = b.skip(b_end + 1);
        assert(topic::levels(a).drop_first() =~= topic::levels(a_rest));
        assert(topic::levels(b).drop_first() =~= topic::levels(b_rest));
        law_levels_tell_topics_apart(a_rest, b_rest);
        assert(topic::levels(a)[0] == a.take(a_end));
        assert(topic::levels(b)[0] == b.take(b_end));
        assert(a =~= a.take(a_end).push(SEPARATOR) + a_rest);
        assert(b =~= b.take(b_end).push(SEPARATOR) + b_rest);
    }
}

/// A filter without wildcards matches no topic but itself.
pub proof fn law_plain_filter_matches_only_itself(filter: Seq<char>, name: Seq<char>)
    requires
        topic::has_no_wildcard(vstd::utf8::encode_utf8(filter)),
        topic::filter_matches(filter, name),
    ensures
        filter == name,
{
    let f = vstd::utf8::encode_utf8(filter);
    let t = vstd::utf8::encode_utf8(name);
    lemma_plain_levels(f);
    lemma_plain_match_is_equality(topic::levels(f), topic::levels(t));
    law_levels_tell_topics_apart(f, t);
    crate::text::lemma_bytes_tell_texts_apart(filter, name);
}

/// The filter `#` matches exactly the topics that do not start with `$`.
pub proof fn law_all_levels_leave_out_reserved(name: Seq<u8>)
    requires
        name.len() > 0,
    ensures
        topic::bytes_match(seq![ALL_LEVELS], name) <==> !topic::is_reserved(name),
{
    let f = seq![ALL_LEVELS];
    assert(f.skip(1) =~= Seq::empty());
    assert(topic::level_end(f.skip(1)) == 0);
    assert(topic::level_end(f) == 1);
    assert(topic::levels(f) =~= seq![f]);
}

/// A filter and a topic of which only one starts with `$` do not match.
pub proof fn law_reserved_topics_stay_apart(filter: Seq<u8>, name: Seq<u8>)
    requires
        topic::is_reserved(filter) != topic::is_reserved(name),
    ensures
        !topic::bytes_match(filter, name),
{
}

/// A filter that ends in `/#` matches the topic before it and every topic
/// below that one.
pub proof fn law_all_levels_below(base: Seq<u8>, below: Seq<u8>)
    requires
        base.len() > 0,
        topic::has_no_wildcard(base),
    ensures
        topic::bytes_match(base.push(SEPARATOR) + seq![ALL_LEVELS], base),
        topic::bytes_match(
            base.push(SEPARATOR) + seq![ALL_LEVELS],
            base.push(SEPARATOR) + below,
        ),
{
    let hash = seq![ALL_LEVELS];
    let none = Seq::<Seq<u8>>::empty();
    assert(hash.skip(1) =~= Seq::empty());
    assert(topic::level_end(hash.skip(1)) == 0);
    assert(topic::level_end(hash) == 1);
    assert(topic::levels(hash) =~= seq![hash]);
    law_levels_of_parts(base, hash);
    law_levels_of_parts(base, below);
    lemma_plain_levels(base);
    lemma_common_levels(topic::levels(base), seq![hash], none);
    assert(topic::levels(base) + none =~= topic::levels(base));
    lemma_common_levels(topic::levels(base), seq![hash], topic::levels(below));
}

/// A `+` between levels matches any one level there, and only one.
pub proof fn law_any_level_between(base: Seq<u8>, level: Seq<u8>, below: Seq<u8>)
    requires
        base.len() > 0,
        topic::has_no_wildcard(base),
        topic::has_no_wildcard(below),
    ensures
        topic::bytes_match(
            base.push(SEPARATOR) + (seq![ANY_LEVEL].push(SEPARATOR) + below),
            base.push(SEPARATOR) + (level.push(SEPARATOR) + below),
        ) <==> topic::separators(level) == 0,
{
    let plus = seq![ANY_LEVEL];
    let none = Seq::<Seq<u8>>::empty();
    assert(plus.skip(1) =~= Seq::empty());
    assert(topic::level_end(plus.skip(1)) == 0);
    assert(topic::level_end(plus) == 1);
    assert(topic::levels(plus) =~= seq![plus]);
    law_levels_of_parts(base, plus.push(SEPARATOR) + below);
    law_levels_of_parts(base, level.push(SEPARATOR) + below);
    law_levels_of_parts(plus, below);
    law_levels_of_parts(level, below);
    lemma_plain_levels(base);
    lemma_plain_levels(below);
    let tail = topic::levels(below);
    let between = topic::levels(level);
    lemma_common_levels(topic::levels(base), seq![plus] + tail, between + tail);
    law_levels_and_separators(level);
    assert((seq![plus] + tail).drop_first() =~= tail);
    assert((between + tail).drop_first() =~= between.drop_first() + tail);
    if between.len() == 1 {
        assert(between.drop_first() + tail =~= tail);
        lemma_common_levels(tail, none, none);
        assert(tail + none =~= tail);
    } else if topic::levels_match(tail, between.drop_first() + tail) {
        lemma_plain_match_is_equality(tail, between.drop_first() + tail);
        assert(tail.len() == between.len() - 1 + tail.len());
    }
    assert(plus[0] == ANY_LEVEL && seq![ALL_LEVELS][0] == ALL_LEVELS);
}

/// The group and the filter of a shared subscription make up the text that was
/// subscribed to, and neither of them is empty.
pub proof fn law_shared_parts_make_up_the_filter(filter: Seq<u8>)
    ensures
        topic::shared_bytes(filter) matches Some((group, shared)) ==> {
            &&& filter == topic::share_prefix() + group.push(SEPARATOR) + shared
            &&& group.len() > 0
            &&& shared.len() > 0
            &&& topic::separators(group) == 0
        },
{
    if let Some((group, shared)) = topic::shared_bytes(filter) {
        let tail = filter.skip(7);
        lemma_level_end_bounds(tail);
        lemma_no_separator_in_level(tail);
        assert(tail =~= group.push(SEPARATOR) + shared);
        assert(filter =~= filter.take(7) + tail);
        assert(filter =~= topic::share_prefix() + group.push(SEPARATOR) + shared);
        lemma_separators_none(group);
    }
}

/// The text `$share/`, a group and `/` in front of a filter make a shared subscription
/// of that group and that filter, whatever the filter is.
pub proof fn law_shared_filters_are_told_by_their_parts(
    whole: Seq<char>,
    group: Seq<char>,
    shared: Seq<char>,
)
    requires
        group.len() > 0,
        shared.len() > 0,
        !vstd::utf8::encode_utf8(group).contains(0x2F),
        vstd::utf8::encode_utf8(whole) == seq![
            0x24u8,
            0x73u8,
            0x68u8,
            0x61u8,
            0x72u8,
            0x65u8,
            0x2Fu8,
        ] + vstd::utf8::encode_utf8(group) + seq![0x2Fu8] + vstd::utf8::encode_utf8(shared),
    ensures
        topic::shared_parts(whole) == Some((group, shared)),
{
    let prefix = seq![0x24u8, 0x73u8, 0x68u8, 0x61u8, 0x72u8, 0x65u8, 0x2Fu8];
    let g = vstd::utf8::encode_utf8(group);
    let f = vstd::utf8::encode_utf8(shared);
    let s = vstd::utf8::encode_utf8(whole);
    lemma_bytes_of_a_text(group);
    lemma_bytes_of_a_text(shared);
    assert(s.take(7) =~= prefix);
    let tail = s.skip(7);
    assert(tail =~= g.push(SEPARATOR) + f);
    assert forall|k: int| 0 <= k < g.len() implies #[trigger] g[k] != SEPARATOR by {
        assert(g.contains(g[k]));
    }
    lemma_level_of_its_own(g);
    lemma_level_end_push(g, f);
    assert(tail.take(g.len() as int) =~= g);
    assert(tail.skip(g.len() as int + 1) =~= f);
    vstd::utf8::encode_utf8_decode_utf8(group);
    vstd::utf8::encode_utf8_decode_utf8(shared);
}

proof fn lemma_bytes_of_a_text(t: Seq<char>)
    requires
        t.len() > 0,
    ensures
        vstd::utf8::encode_utf8(t).len() > 0,
{
    crate::text::lemma_bytes_tell_texts_apart(t, Seq::empty());
    reveal_with_fuel(vstd::utf8::encode_utf8, 1);
    if vstd::utf8::encode_utf8(t).len() == 0 {
        assert(vstd::utf8::encode_utf8(t) =~= vstd::utf8::encode_utf8(Seq::empty()));
    }
}

proof fn lemma_level_of_its_own(s: Seq<u8>)
    requires
        forall|k: int| 0 <= k < s.len() ==> #[trigger] s[k] != SEPARATOR,
    ensures
        topic::level_end(s) == s.len(),
    decreases s.len(),
{
    if s.len() > 0 {
        let rest = s.skip(1);
        assert forall|k: int| 0 <= k < rest.len() implies #[trigger] rest[k] != SEPARATOR by {
            assert(rest[k] == s[k + 1]);
        }
        lemma_level_of_its_own(rest);
    }
}

// Matching, level by level.

/// Levels with `/` between them.
pub open spec fn joined(list: Seq<Seq<u8>>) -> Seq<u8>
    decreases list.len(),
{
    if list.len() <= 1 {
        list[0]
    } else {
        list[0] + seq![0x2Fu8] + joined(list.skip(1))
    }
}

/// There are levels, and none of them holds `/`.
pub open spec fn are_levels(list: Seq<Seq<u8>>) -> bool {
    &&& list.len() > 0
    &&& forall|i: int| 0 <= i < list.len() ==> !(#[trigger] list[i]).contains(0x2F)
}

/// Levels that are joined by `/` are the levels of what they make up.
pub proof fn law_joined_levels_come_apart(list: Seq<Seq<u8>>)
    requires
        are_levels(list),
    ensures
        topic::levels(joined(list)) == list,
    decreases list.len(),
{
    let first = list[0];
    assert forall|k: int| 0 <= k < first.len() implies #[trigger] first[k] != SEPARATOR by {
        assert(first.contains(first[k]));
    }
    lemma_level_of_its_own(first);
    if list.len() == 1 {
        assert(topic::levels(first) =~= list);
    } else {
        let more = list.skip(1);
        assert forall|i: int| 0 <= i < more.len() implies !(#[trigger] more[i]).contains(
            0x2F,
        ) by {
            assert(more[i] == list[i + 1]);
        }
        law_joined_levels_come_apart(more);
        law_levels_of_parts(first, joined(more));
        assert(joined(list) =~= first.push(SEPARATOR) + joined(more));
        assert(topic::levels(first) =~= seq![first]);
        assert(seq![first] + more =~= list);
    }
}

/// Whether a level of a filter that is not `#` takes a level of a topic: `+` takes
/// any, and any other level itself.
pub open spec fn takes_level(level: Seq<u8>, other: Seq<u8>) -> bool {
    level != seq![0x23u8] && (level == seq![0x2Bu8] || level == other)
}

/// Whether the levels of a filter take those of a topic one by one, up to a number of
/// them.
pub open spec fn take_levels(filter: Seq<Seq<u8>>, list: Seq<Seq<u8>>, count: int) -> bool {
    forall|i: int| 0 <= i < count ==> takes_level(#[trigger] filter[i], list[i])
}

proof fn lemma_take_levels(filter: Seq<Seq<u8>>, list: Seq<Seq<u8>>, count: int)
    requires
        0 < count <= filter.len(),
        count <= list.len(),
    ensures
        take_levels(filter, list, count) <==> takes_level(filter[0], list[0]) && take_levels(
            filter.drop_first(),
            list.drop_first(),
            count - 1,
        ),
{
    let f = filter.drop_first();
    let l = list.drop_first();
    if take_levels(filter, list, count) {
        assert forall|i: int| 0 <= i < count - 1 implies takes_level(#[trigger] f[i], l[i]) by {
            assert(f[i] == filter[i + 1]);
        }
    }
    if takes_level(filter[0], list[0]) && take_levels(f, l, count - 1) {
        assert forall|i: int| 0 <= i < count implies takes_level(#[trigger] filter[i], list[i]) by {
            if i > 0 {
                assert(f[i - 1] == filter[i] && l[i - 1] == list[i]);
            }
        }
    }
}

proof fn lemma_levels_match(filter: Seq<Seq<u8>>, list: Seq<Seq<u8>>)
    ensures
        topic::levels_match(filter, list) == if filter.len() > 0 && filter.last() == seq![0x23u8] {
            filter.len() - 1 <= list.len() && take_levels(filter, list, filter.len() - 1)
        } else {
            filter.len() == list.len() && take_levels(filter, list, filter.len() as int)
        },
    decreases filter.len(),
{
    if filter.len() > 0 {
        let f = filter.drop_first();
        let l = list.drop_first();
        let hash = filter.last() == seq![0x23u8];
        let count = if hash {
            filter.len() - 1
        } else {
            filter.len() as int
        };
        if filter.len() == 1 && hash {
        } else if filter[0] == seq![0x23u8] {
            assert(!takes_level(filter[0], list[0]));
            assert(!take_levels(filter, list, count));
        } else if list.len() > 0 {
            lemma_levels_match(f, l);
            if filter.len() > 1 {
                assert(f.last() == filter.last());
            }
            if count <= list.len() {
                lemma_take_levels(filter, list, count);
            }
        }
    }
}

/// A filter matches a topic level by level: each level of the filter takes the level
/// in its place, `+` any one, and all others only themselves. Where the filter ends
/// in `#`, the topic may go on, and else it has as many levels as the filter. A
/// filter and a topic of which only one starts with `$` do not match.
pub proof fn law_matching_level_by_level(
    filter: Seq<char>,
    name: Seq<char>,
    f: Seq<Seq<u8>>,
    t: Seq<Seq<u8>>,
)
    requires
        are_levels(f),
        are_levels(t),
        vstd::utf8::encode_utf8(filter) == joined(f),
        vstd::utf8::encode_utf8(name) == joined(t),
        joined(f).len() > 0,
        joined(t).len() > 0,
    ensures
        topic::filter_matches(filter, name) == {
            &&& (joined(f)[0] == 0x24) == (joined(t)[0] == 0x24)
            &&& if f.last() == seq![0x23u8] {
                f.len() - 1 <= t.len() && take_levels(f, t, f.len() - 1)
            } else {
                f.len() == t.len() && take_levels(f, t, f.len() as int)
            }
        },
{
    law_joined_levels_come_apart(f);
    law_joined_levels_come_apart(t);
    lemma_levels_match(f, t);
}

/// What can be published to: 1 to 65535 bytes without wildcards, and at most 200
/// separators. The reasons for a refusal come in this order.
pub proof fn law_which_names_are_valid(s: Seq<u8>)
    ensures
        ({
            let plain = forall|i: int|
                0 <= i < s.len() ==> #[trigger] s[i] != 0x2B && s[i] != 0x23;
            topic::name_verdict(s) == if s.len() == 0 {
                Err::<(), topic::TopicError>(topic::TopicError::Empty)
            } else if s.len() > 65_535 {
                Err(topic::TopicError::TooLong)
            } else if !plain {
                Err(topic::TopicError::WildcardInPublish)
            } else if topic::levels(s).len() > 201 {
                Err(topic::TopicError::TooDeep)
            } else {
                Ok(())
            }
        }),
{
    law_levels_and_separators(s);
}

/// What can be subscribed to: 1 to 65535 bytes in which each wildcard is a level by
/// itself and `#` the last one, and at most 200 separators. The reasons for a
/// refusal come in this order.
pub proof fn law_which_filters_are_valid(s: Seq<u8>)
    ensures
        ({
            let placed = forall|i: int|
                0 <= i < s.len() ==> {
                    &&& #[trigger] s[i] == 0x2B ==> (i == 0 || s[i - 1] == 0x2F) && (i == s.len() - 1
                        || s[i + 1] == 0x2F)
                    &&& s[i] == 0x23 ==> (i == 0 || s[i - 1] == 0x2F) && i == s.len() - 1
                };
            topic::filter_verdict(s) == if s.len() == 0 {
                Err::<(), topic::TopicError>(topic::TopicError::Empty)
            } else if s.len() > 65_535 {
                Err(topic::TopicError::TooLong)
            } else if !placed {
                Err(topic::TopicError::InvalidWildcard)
            } else if topic::levels(s).len() > 201 {
                Err(topic::TopicError::TooDeep)
            } else {
                Ok(())
            }
        }),
{
    law_levels_and_separators(s);
    if topic::wildcards_placed(s) {
        assert forall|i: int| 0 <= i < s.len() implies {
            &&& #[trigger] s[i] == 0x2B ==> (i == 0 || s[i - 1] == 0x2F) && (i == s.len() - 1
                || s[i + 1] == 0x2F)
            &&& s[i] == 0x23 ==> (i == 0 || s[i - 1] == 0x2F) && i == s.len() - 1
        } by {
            assert(topic::wildcard_placed(s, i));
        }
    } else {
        let i = choose|i: int| 0 <= i < s.len() && !#[trigger] topic::wildcard_placed(s, i);
        assert(s[i] == 0x2B || s[i] == 0x23);
    }
}

} // verus!
