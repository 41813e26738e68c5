//! The order of texts by their UTF-8 bytes, and the listing of a set of texts
//! in that order.

use vstd::prelude::*;

verus! {

/// Whether the first byte string comes before the second one, as in a
/// dictionary.
pub open spec fn bytes_less(a: Seq<u8>, b: Seq<u8>) -> bool
    decreases a.len(),
{
    if b.len() == 0 {
        false
    } else if a.len() == 0 {
        true
    } else {
        a[0] < b[0] || (a[0] == b[0] && bytes_less(a.skip(1), b.skip(1)))
    }
}

/// Whether the first text comes before the second one.
pub open spec fn text_less(a: Seq<char>, b: Seq<char>) -> bool {
    bytes_less(vstd::utf8::encode_utf8(a), vstd::utf8::encode_utf8(b))
}

proof fn lemma_bytes_less_irreflexive(a: Seq<u8>)
    ensures
        !bytes_less(a, a),
    decreases a.len(),
{
    if a.len() > 0 {
        lemma_bytes_less_irreflexive(a.skip(1));
    }
}

proof fn lemma_bytes_less_transitive(a: Seq<u8>, b: Seq<u8>, c: Seq<u8>)
    requires
        bytes_less(a, b),
        bytes_less(b, c),
    ensures
        bytes_less(a, c),
    decreases a.len(),
{
    if a.len() > 0 && a[0] == b[0] && b[0] == c[0] {
        lemma_bytes_less_transitive(a.skip(1), b.skip(1), c.skip(1));
    }
}

proof fn lemma_bytes_less_total(a: Seq<u8>, b: Seq<u8>)
    ensures
        bytes_less(a, b) || bytes_less(b, a) || a == b,
    decreases a.len(),
{
    if a.len() == 0 && b.len() == 0 {
        assert(a =~= b);
    } else if a.len() > 0 && b.len() > 0 && a[0] == b[0] {
        lemma_bytes_less_total(a.skip(1), b.skip(1));
        if a.skip(1) == b.skip(1) {
            assert(a =~= seq![a[0]] + a.skip(1));
            assert(b =~= seq![b[0]] + b.skip(1));
        }
    }
}

/// Of two texts the first byte in which they differ decides, and where one of them goes on
/// behind the other it comes later.
pub proof fn law_first_difference_decides(a: Seq<char>, b: Seq<char>, k: int)
    requires
        ({
            let s = vstd::utf8::encode_utf8(a);
            let t = vstd::utf8::encode_utf8(b);
            0 <= k <= s.len() && k <= t.len() && s.take(k) == t.take(k)
        }),
    ensures
        ({
            let s = vstd::utf8::encode_utf8(a);
            let t = vstd::utf8::encode_utf8(b);
            &&& k < s.len() && k < t.len() && s[k] < t[k] ==> text_less(a, b) && !text_less(b, a)
            &&& k == s.len() && k < t.len() ==> text_less(a, b) && !text_less(b, a)
        }),
{
    let s = vstd::utf8::encode_utf8(a);
    let t = vstd::utf8::encode_utf8(b);
    lemma_common_bytes(s, t, k);
    lemma_common_bytes(t, s, k);
}

proof fn lemma_common_bytes(s: Seq<u8>, t: Seq<u8>, k: int)
    requires
        0 <= k <= s.len(),
        k <= t.len(),
        s.take(k) == t.take(k),
    ensures
        bytes_less(s, t) == bytes_less(s.skip(k), t.skip(k)),
    decreases k,
{
    if k == 0 {
        assert(s.skip(0) =~= s && t.skip(0) =~= t);
    } else {
        let a = s.skip(1);
        let b = t.skip(1);
        assert(s.take(k)[0] == s[0] && t.take(k)[0] == t[0]);
        assert(a.take(k - 1) =~= s.take(k).skip(1));
        assert(b.take(k - 1) =~= t.take(k).skip(1));
        lemma_common_bytes(a, b, k - 1);
        assert(a.skip(k - 1) =~= s.skip(k) && b.skip(k - 1) =~= t.skip(k));
    }
}

/// No text comes before itself.
pub proof fn law_text_less_irreflexive(a: Seq<char>)
    ensures
        !text_less(a, a),
{
    lemma_bytes_less_irreflexive(vstd::utf8::encode_utf8(a));
}

/// What comes before a text that comes before a third comes before the third.
pub proof fn law_text_less_transitive(a: Seq<char>, b: Seq<char>, c: Seq<char>)
    requires
        text_less(a, b),
        text_less(b, c),
    ensures
        text_less(a, c),
{
    lemma_bytes_less_transitive(
        vstd::utf8::encode_utf8(a),
        vstd::utf8::encode_utf8(b),
        vstd::utf8::encode_utf8(c),
    );
}

/// Of two different texts one comes before the other.
pub proof fn law_text_less_total(a: Seq<char>, b: Seq<char>)
    ensures
        text_less(a, b) || text_less(b, a) || a == b,
{
    lemma_bytes_less_total(vstd::utf8::encode_utf8(a), vstd::utf8::encode_utf8(b));
    crate::text::lemma_bytes_tell_texts_apart(a, b);
}

/// How two texts stand to each other.
#[derive(Debug, Clone, Copy, PartialEq, Eq)]
pub enum Relation {
    Before,
    Same,
    After,
}

/// Whether the first text comes before the second, is the same, or comes after
/// it.
pub fn relate(a: &str, b: &str) -> (relation: Relation)
    ensures
        match relation {
            Relation::Before => text_less(a@, b@),
            Relation::Same => a@ == b@,
            Relation::After => text_less(b@, a@),
        },
{
    let left = a.as_bytes();
    let right = b.as_bytes();
    let mut i: usize = 0;
    proof {
        assert(left@.skip(0) =~= left@);
        assert(right@.skip(0) =~= right@);
    }
    while i < left.len() && i < right.len()
        invariant
            i <= left@.len(),
            i <= right@.len(),
            left@ == vstd::utf8::encode_utf8(a@),
            right@ == vstd::utf8::encode_utf8(b@),
            left@.take(i as int) == right@.take(i as int),
            bytes_less(left@, right@) == bytes_less(left@.skip(i as int), right@.skip(i as int)),
            bytes_less(right@, left@) == bytes_less(right@.skip(i as int), left@.skip(i as int)),
        decreases left@.len() - i,
    {
        if left[i] < right[i] {
            return Relation::Before;
        }
        if right[i] < left[i] {
            return Relation::After;
        }
        proof {
            assert(left@.skip(i as int).skip(1) =~= left@.skip(i + 1));
            assert(right@.skip(i as int).skip(1) =~= right@.skip(i + 1));
            assert(left@.take(i + 1) =~= left@.take(i as int).push(left@[i as int]));
            assert(right@.take(i + 1) =~= right@.take(i as int).push(right@[i as int]));
        }
        i = i + 1;
    }
    if i < right.len() {
        Relation::Before
    } else if i < left.len() {
        Relation::After
    } else {
        proof {
            assert(left@.take(i as int) =~= left@);
            assert(right@.take(i as int) =~= right@);
            crate::text::lemma_bytes_tell_texts_apart(a@, b@);
        }
        Relation::Same
    }
}

/// Whether each text comes before all that follow it.
pub open spec fn ascending(texts: Seq<Seq<char>>) -> bool {
    forall|i: int, j: int|
        0 <= i < j < texts.len() ==> text_less(#[trigger] texts[i], #[trigger] texts[j])
}

/// Whether a sequence lists each text of a set once, in ascending order.
pub open spec fn lists(texts: Seq<Seq<char>>, set: Set<Seq<char>>) -> bool {
    &&& ascending(texts)
    &&& forall|t: Seq<char>| #[trigger] texts.contains(t) <==> set.contains(t)
}

/// The texts of a set in ascending order.
pub open spec fn in_order(set: Set<Seq<char>>) -> Seq<Seq<char>> {
    choose|texts: Seq<Seq<char>>| lists(texts, set)
}

proof fn lemma_first_is_least(a: Seq<Seq<char>>, b: Seq<Seq<char>>)
    requires
        ascending(a),
        ascending(b),
        forall|t: Seq<char>| #[trigger] a.contains(t) <==> b.contains(t),
        a.len() > 0,
        b.len() > 0,
    ensures
        a[0] == b[0],
{
    assert(a.contains(a[0]));
    assert(b.contains(b[0]));
    assert(a.contains(b[0]));
    let i = b.index_of(a[0]);
    let j = a.index_of(b[0]);
    if i > 0 && j > 0 {
        assert(text_less(b[0], b[i]));
        assert(text_less(a[0], a[j]));
        law_text_less_transitive(a[0], b[0], a[0]);
        law_text_less_irreflexive(a[0]);
    }
}

/// There is only one way to list a set of texts in ascending order.
pub proof fn lemma_listing_unique(a: Seq<Seq<char>>, b: Seq<Seq<char>>)
    requires
        ascending(a),
        ascending(b),
        forall|t: Seq<char>| #[trigger] a.contains(t) <==> b.contains(t),
    ensures
        a == b,
    decreases a.len(),
{
    if a.len() == 0 {
        if b.len() > 0 {
            assert(b.contains(b[0]));
            assert(a.contains(b[0]));
        }
        assert(a =~= b);
    } else if b.len() == 0 {
        assert(a.contains(a[0]));
        assert(b.contains(a[0]));
    } else {
        lemma_first_is_least(a, b);
        let x = a.skip(1);
        let y = b.skip(1);
        assert forall|t: Seq<char>| #[trigger] x.contains(t) <==> y.contains(t) by {
            if x.contains(t) {
                let i = x.index_of(t);
                assert(a[i + 1] == t);
                assert(a.contains(t));
                assert(b.contains(t));
                let j = b.index_of(t);
                if j == 0 {
                    assert(text_less(a[0], a[i + 1]));
                    law_text_less_irreflexive(t);
                }
                assert(y[j - 1] == t);
            }
            if y.contains(t) {
                let i = y.index_of(t);
                assert(b[i + 1] == t);
                assert(b.contains(t));
                assert(a.contains(t));
                let j = a.index_of(t);
                if j == 0 {
                    assert(text_less(b[0], b[i + 1]));
                    law_text_less_irreflexive(t);
                }
                assert(x[j - 1] == t);
            }
        }
        assert(ascending(x)) by {
            assert forall|i: int, j: int| 0 <= i < j < x.len() implies text_less(
                #[trigger] x[i],
                #[trigger] x[j],
            ) by {
                assert(text_less(a[i + 1], a[j + 1]));
            }
        }
        assert(ascending(y)) by {
            assert forall|i: int, j: int| 0 <= i < j < y.len() implies text_less(
                #[trigger] y[i],
                #[trigger] y[j],
            ) by {
                assert(text_less(b[i + 1], b[j + 1]));
            }
        }
        lemma_listing_unique(x, y);
        assert(a =~= seq![a[0]] + x);
        assert(b =~= seq![b[0]] + y);
    }
}

/// A listing of a set is its texts in order.
pub proof fn lemma_lists_in_order(texts: Seq<Seq<char>>, set: Set<Seq<char>>)
    requires
        lists(texts, set),
    ensures
        in_order(set) == texts,
        lists(in_order(set), set),
{
    let chosen = in_order(set);
    assert(lists(chosen, set));
    assert forall|t: Seq<char>| #[trigger] chosen.contains(t) <==> texts.contains(t) by {
        assert(chosen.contains(t) <==> set.contains(t));
    }
    lemma_listing_unique(chosen, texts);
}

/// In an ascending sequence no text stands twice.
pub proof fn lemma_ascending_distinct(texts: Seq<Seq<char>>, i: int, j: int)
    requires
        ascending(texts),
        0 <= i < texts.len(),
        0 <= j < texts.len(),
        texts[i] == texts[j],
    ensures
        i == j,
{
    law_text_less_irreflexive(texts[i]);
}

/// Puts a text where it belongs in an ascending sequence.
proof fn lemma_listing_with(texts: Seq<Seq<char>>, t: Seq<char>) -> (grown: Seq<Seq<char>>)
    requires
        ascending(texts),
        !texts.contains(t),
    ensures
        ascending(grown),
        forall|u: Seq<char>| #[trigger] grown.contains(u) <==> (texts.contains(u) || u == t),
    decreases texts.len(),
{
    if texts.len() == 0 {
        let grown = seq![t];
        assert(grown[0] == t);
        grown
    } else {
        let last = texts.last();
        let front = texts.drop_last();
        assert(texts.contains(last));
        law_text_less_total(last, t);
        if text_less(last, t) {
            let grown = texts.push(t);
            assert forall|i: int, j: int| 0 <= i < j < grown.len() implies text_less(
                #[trigger] grown[i],
                #[trigger] grown[j],
            ) by {
                if j == texts.len() && i < texts.len() - 1 {
                    assert(text_less(texts[i], texts[texts.len() - 1]));
                    law_text_less_transitive(texts[i], last, t);
                }
            }
            assert forall|u: Seq<char>| #[trigger] grown.contains(u) <==> (texts.contains(u) || u
                == t) by {
                if texts.contains(u) {
                    assert(grown[texts.index_of(u)] == u);
                }
                assert(grown[texts.len() as int] == t);
            }
            grown
        } else {
            assert forall|i: int, j: int| 0 <= i < j < front.len() implies text_less(
                #[trigger] front[i],
                #[trigger] front[j],
            ) by {
                assert(text_less(texts[i], texts[j]));
            }
            let inner = lemma_listing_with(front, t);
            let grown = inner.push(last);
            assert forall|i: int, j: int| 0 <= i < j < grown.len() implies text_less(
                #[trigger] grown[i],
                #[trigger] grown[j],
            ) by {
                if j == inner.len() {
                    assert(inner.contains(inner[i]));
                    if inner[i] != t {
                        let k = front.index_of(inner[i]);
                        assert(text_less(texts[k], texts[texts.len() - 1]));
                    }
                }
            }
            assert forall|u: Seq<char>| #[trigger] grown.contains(u) <==> (texts.contains(u) || u
                == t) by {
                if texts.contains(u) {
                    let k = texts.index_of(u);
                    if k < front.len() {
                        assert(front[k] == u);
                        assert(inner.contains(u));
                    }
                }
                if inner.contains(u) {
                    assert(grown[inner.index_of(u)] == u);
                    if front.contains(u) {
                        assert(texts[front.index_of(u)] == u);
                    }
                }
                if grown.contains(u) {
                    let k = grown.index_of(u);
                    if k < inner.len() {
                        assert(inner[k] == u);
                    }
                }
                assert(grown[inner.len() as int] == last);
                assert(inner.contains(t));
            }
            grown
        }
    }
}

/// Every finite set of texts can be listed in ascending order.
pub proof fn lemma_in_order(set: Set<Seq<char>>)
    requires
        set.finite(),
    ensures
        lists(in_order(set), set),
    decreases set.len(),
{
    if set.len() == 0 {
        assert(set =~= Set::empty());
        let none = Seq::<Seq<char>>::empty();
        assert(lists(none, set));
    } else {
        let t = set.choose();
        let rest = set.remove(t);
        lemma_in_order(rest);
        let grown = lemma_listing_with(in_order(rest), t);
        assert(lists(grown, set));
    }
}

} // verus!
