//! Text by characters: lines, fields and words of a text, and numbers written
//! out in digits.

use vstd::prelude::*;

use crate::steps;

verus! {

/// `String::push` puts a character behind the text.
pub assume_specification[ String::push ](target: &mut String, c: char)
    ensures
        final(target)@ == old(target)@.push(c),
;

/// The characters of a text.
pub fn characters(source: &str) -> (chars: Vec<char>)
    ensures
        chars@ == source@,
{
    broadcast use vstd::string::axiom_spec_iter;

    let mut chars: Vec<char> = Vec::new();
    let walk = source.chars();
    for c in it: walk
        invariant
            it.seq() == source@,
            chars@ == it.seq().take(it.index()),
    {
        chars.push(c);
        proof {
            steps::lemma_take_next(source@, it.index());
        }
    }
    assert(source@.take(source@.len() as int) =~= source@);
    chars
}

/// The text of a stretch of characters.
pub fn text_between(chars: &Vec<char>, from: usize, to: usize) -> (part: String)
    requires
        from <= to <= chars@.len(),
    ensures
        part@ == chars@.subrange(from as int, to as int),
{
    let mut part = String::new();
    let mut i: usize = from;
    while i < to
        invariant
            from <= i <= to <= chars@.len(),
            part@ == chars@.subrange(from as int, i as int),
        decreases to - i,
    {
        part.push(chars[i]);
        assert(chars@.subrange(from as int, i + 1) =~= chars@.subrange(from as int, i as int).push(
            chars@[i as int],
        ));
        i = i + 1;
    }
    part
}

/// Where a character comes first in a text; the text's length where it does
/// not come.
pub open spec fn first_place(s: Seq<char>, c: char) -> nat
    decreases s.len(),
{
    if s.len() == 0 || s[0] == c {
        0
    } else {
        1 + first_place(s.skip(1), c)
    }
}

proof fn lemma_first_place(s: Seq<char>, c: char)
    ensures
        first_place(s, c) <= s.len(),
        first_place(s, c) < s.len() ==> s[first_place(s, c) as int] == c,
    decreases s.len(),
{
    if s.len() > 0 && s[0] != c {
        lemma_first_place(s.skip(1), c);
    }
}

/// Where a character comes first from a position on.
fn place_from(chars: &Vec<char>, from: usize, c: char) -> (place: usize)
    requires
        from <= chars@.len(),
    ensures
        place == from + first_place(chars@.skip(from as int), c),
        place <= chars@.len(),
        place < chars@.len() ==> chars@[place as int] == c,
{
    let mut i: usize = from;
    while i < chars.len() && chars[i] != c
        invariant
            from <= i <= chars@.len(),
            from + first_place(chars@.skip(from as int), c) == i + first_place(
                chars@.skip(i as int),
                c,
            ),
        decreases chars@.len() - i,
    {
        assert(chars@.skip(i as int).skip(1) =~= chars@.skip(i + 1));
        i = i + 1;
    }
    i
}

/// The part of a text before a character.
pub open spec fn before(s: Seq<char>, c: char) -> Seq<char> {
    s.take(first_place(s, c) as int)
}

/// What stands before a character stays the same whatever follows it.
pub proof fn lemma_before_comment(s: Seq<char>, rest: Seq<char>, c: char)
    ensures
        before(before(s, c) + seq![c] + rest, c) == before(s, c),
    decreases s.len(),
{
    let head = before(s, c);
    let whole = head + seq![c] + rest;
    if s.len() == 0 || s[0] == c {
        assert(head =~= Seq::empty());
        assert(whole[0] == c);
        assert(before(whole, c) =~= Seq::empty());
    } else {
        lemma_before_comment(s.skip(1), rest, c);
        lemma_first_place(s.skip(1), c);
        let inner = before(s.skip(1), c);
        assert(head =~= seq![s[0]] + inner);
        assert(whole.skip(1) =~= inner + seq![c] + rest);
        assert(whole[0] == s[0]);
        let tail = inner + seq![c] + rest;
        lemma_first_place(tail, c);
        assert(before(whole, c) =~= seq![s[0]] + before(tail, c));
    }
}

/// A line without the carriage return at its end.
pub open spec fn without_return(s: Seq<char>) -> Seq<char> {
    if s.len() > 0 && s.last() == '\r' {
        s.drop_last()
    } else {
        s
    }
}

/// The lines of a text: each ends with a line feed, which a carriage return may
/// precede, and the end of the last line is optional.
pub open spec fn lines_of(s: Seq<char>) -> Seq<Seq<char>>
    decreases s.len(),
{
    let end = first_place(s, '\n') as int;
    if s.len() == 0 {
        Seq::empty()
    } else if end >= s.len() {
        seq![s]
    } else {
        seq![without_return(s.take(end))] + lines_of(s.skip(end + 1))
    }
}

/// The parts of a text between separators.
pub open spec fn fields_of(s: Seq<char>, separator: char) -> Seq<Seq<char>>
    decreases s.len(),
{
    let end = first_place(s, separator) as int;
    if end >= s.len() {
        seq![s]
    } else {
        seq![s.take(end)] + fields_of(s.skip(end + 1), separator)
    }
}

/// The views of the texts of a list.
pub open spec fn views(list: Seq<String>) -> Seq<Seq<char>> {
    list.map_values(|t: String| t@)
}

/// The lines of a text.
pub fn lines(source: &str) -> (list: Vec<String>)
    ensures
        views(list@) == lines_of(source@),
{
    let chars = characters(source);
    let mut list: Vec<String> = Vec::new();
    let mut from: usize = 0;
    proof {
        assert(chars@.skip(0) =~= chars@);
        assert(views(list@) + lines_of(chars@) =~= lines_of(chars@));
    }
    while from < chars.len()
        invariant
            from <= chars@.len(),
            views(list@) + lines_of(chars@.skip(from as int)) == lines_of(chars@),
        decreases chars@.len() - from,
    {
        let ghost rest = chars@.skip(from as int);
        let ghost shown = views(list@);
        let end: usize = place_from(&chars, from, '\n');
        if end >= chars.len() {
            let line = text_between(&chars, from, chars.len());
            assert(line@ =~= rest);
            list.push(line);
            from = chars.len();
            proof {
                assert(views(list@) =~= shown + seq![rest]);
                assert(chars@.skip(from as int) =~= Seq::empty());
                assert(views(list@) + lines_of(Seq::empty()) =~= views(list@));
            }
        } else {
            let stop: usize = if end > from && chars[end - 1] == '\r' {
                end - 1
            } else {
                end
            };
            let line = text_between(&chars, from, stop);
            proof {
                let whole = rest.take(end - from);
                assert(whole =~= chars@.subrange(from as int, end as int));
                assert(line@ =~= without_return(whole));
                assert(rest.skip(end - from + 1) =~= chars@.skip(end + 1));
            }
            list.push(line);
            from = end + 1;
            proof {
                let one = seq![line@];
                let more = lines_of(chars@.skip(from as int));
                assert(views(list@) =~= shown + one);
                assert(views(list@) + more =~= shown + (one + more));
            }
        }
    }
    proof {
        assert(chars@.skip(from as int) =~= Seq::empty());
        assert(views(list@) + lines_of(Seq::empty()) =~= views(list@));
    }
    list
}

/// The parts of a text between separators.
pub fn fields(source: &str, separator: char) -> (list: Vec<String>)
    ensures
        views(list@) == fields_of(source@, separator),
{
    let chars = characters(source);
    let mut list: Vec<String> = Vec::new();
    let mut from: usize = 0;
    proof {
        assert(chars@.skip(0) =~= chars@);
        assert(views(list@) + fields_of(chars@, separator) =~= fields_of(chars@, separator));
    }
    loop
        invariant
            from <= chars@.len(),
            views(list@) + fields_of(chars@.skip(from as int), separator) == fields_of(
                chars@,
                separator,
            ),
            chars@ == source@,
        decreases chars@.len() - from,
    {
        let ghost rest = chars@.skip(from as int);
        let ghost shown = views(list@);
        let end: usize = place_from(&chars, from, separator);
        let field = text_between(&chars, from, end);
        proof {
            assert(field@ =~= rest.take(end - from));
        }
        list.push(field);
        assert(views(list@) =~= shown + seq![field@]);
        if end >= chars.len() {
            assert(field@ =~= rest);
            return list;
        }
        from = end + 1;
        proof {
            let one = seq![field@];
            assert(chars@.skip(end + 1) =~= rest.skip(first_place(rest, separator) as int + 1));
            let more = fields_of(chars@.skip(from as int), separator);
            assert(views(list@) + more =~= shown + (one + more));
        }
    }
}

/// Whether a character has the White_Space property of Unicode.
pub open spec fn is_white_space(c: char) -> bool {
    let n = c as u32;
    ||| 0x09 <= n <= 0x0D
    ||| n == 0x20
    ||| n == 0x85
    ||| n == 0xA0
    ||| n == 0x1680
    ||| 0x2000 <= n <= 0x200A
    ||| n == 0x2028
    ||| n == 0x2029
    ||| n == 0x202F
    ||| n == 0x205F
    ||| n == 0x3000
}

/// Whether a character has the White_Space property of Unicode.
fn white_space(c: char) -> (yes: bool)
    ensures
        yes == is_white_space(c),
{
    let n: u32 = c as u32;
    (0x09 <= n && n <= 0x0D) || n == 0x20 || n == 0x85 || n == 0xA0 || n == 0x1680 || (0x2000 <= n
        && n <= 0x200A) || n == 0x2028 || n == 0x2029 || n == 0x202F || n == 0x205F || n == 0x3000
}

/// A text without the white space before it.
pub open spec fn without_space(s: Seq<char>) -> Seq<char>
    decreases s.len(),
{
    if s.len() > 0 && is_white_space(s[0]) {
        without_space(s.skip(1))
    } else {
        s
    }
}

/// How long the word is that a text starts with.
pub open spec fn word_len(s: Seq<char>) -> nat
    decreases s.len(),
{
    if s.len() == 0 || is_white_space(s[0]) {
        0
    } else {
        1 + word_len(s.skip(1))
    }
}

/// The first word of a text, and what follows it.
pub open spec fn take_word(s: Seq<char>) -> (Option<Seq<char>>, Seq<char>) {
    let t = without_space(s);
    if t.len() == 0 {
        (None, t)
    } else {
        (Some(t.take(word_len(t) as int)), t.skip(word_len(t) as int))
    }
}

/// The view of an optional text.
pub open spec fn word_view(word: Option<String>) -> Option<Seq<char>> {
    match word {
        Some(w) => Some(w@),
        None => None,
    }
}

/// The first word from a position on, and the position behind it.
pub fn next_word(chars: &Vec<char>, from: usize, to: usize) -> (r: (Option<String>, usize))
    requires
        from <= to <= chars@.len(),
    ensures
        from <= r.1 <= to,
        (word_view(r.0), chars@.subrange(r.1 as int, to as int)) == take_word(
            chars@.subrange(from as int, to as int),
        ),
{
    let ghost all = chars@.subrange(from as int, to as int);
    let mut start: usize = from;
    while start < to && white_space(chars[start])
        invariant
            from <= start <= to <= chars@.len(),
            without_space(all) == without_space(chars@.subrange(start as int, to as int)),
        decreases to - start,
    {
        assert(chars@.subrange(start as int, to as int).skip(1) =~= chars@.subrange(
            start + 1,
            to as int,
        ));
        start = start + 1;
    }
    let ghost t = chars@.subrange(start as int, to as int);
    if start >= to {
        return (None, start);
    }
    assert(without_space(all) == t);
    let mut end: usize = start;
    assert(t.skip(0) =~= t);
    while end < to && !white_space(chars[end])
        invariant
            start <= end <= to <= chars@.len(),
            t == chars@.subrange(start as int, to as int),
            word_len(t) == end - start + word_len(t.skip(end - start)),
        decreases to - end,
    {
        assert(t.skip(end - start)[0] == chars@[end as int]);
        assert(t.skip(end - start).skip(1) =~= t.skip(end + 1 - start));
        end = end + 1;
    }
    proof {
        if end < to {
            assert(t.skip(end - start)[0] == chars@[end as int]);
        }
        assert(word_len(t.skip(end - start)) == 0);
        assert(t.skip(end - start) =~= chars@.subrange(end as int, to as int));
        assert(t.take(end - start) =~= chars@.subrange(start as int, end as int));
    }
    (Some(text_between(chars, start, end)), end)
}

/// Where a character comes first among the first characters of a text.
pub fn place_of(chars: &Vec<char>, c: char) -> (place: usize)
    ensures
        place == first_place(chars@, c),
        place <= chars@.len(),
{
    assert(chars@.skip(0) =~= chars@);
    place_from(chars, 0, c)
}

// Numbers.

/// Whether a character is a decimal digit.
pub open spec fn is_digit(c: char) -> bool {
    '0' <= c <= '9'
}

/// Whether a text is made of decimal digits alone.
pub open spec fn all_digits(s: Seq<char>) -> bool {
    forall|i: int| 0 <= i < s.len() ==> is_digit(#[trigger] s[i])
}

/// The number that a text of digits writes.
pub open spec fn number_of(s: Seq<char>) -> nat
    decreases s.len(),
{
    if s.len() == 0 {
        0
    } else {
        number_of(s.drop_last()) * 10 + (s.last() as u32 - '0' as u32) as nat
    }
}

/// The digits of a text that writes a number, which a plus sign may precede.
pub open spec fn digits_of(s: Seq<char>) -> Seq<char> {
    if s.len() > 0 && s[0] == '+' {
        s.skip(1)
    } else {
        s
    }
}

/// The number that a text writes, where it writes one up to a limit.
pub open spec fn parsed(s: Seq<char>, limit: nat) -> Option<nat> {
    let digits = digits_of(s);
    if digits.len() > 0 && all_digits(digits) && number_of(digits) <= limit {
        Some(number_of(digits))
    } else {
        None
    }
}

proof fn lemma_number_grows(s: Seq<char>, n: int)
    requires
        0 <= n <= s.len(),
        all_digits(s),
    ensures
        number_of(s.take(n)) <= number_of(s),
    decreases s.len() - n,
{
    if n < s.len() {
        lemma_number_grows(s, n + 1);
        steps::lemma_take_next(s, n);
        assert(is_digit(s[n]));
        assert(number_of(s.take(n + 1)) >= number_of(s.take(n)) * 10);
    } else {
        assert(s.take(n) =~= s);
    }
}

/// The number that a text writes, where it writes one up to a limit.
pub fn parse_number(source: &str, limit: u16) -> (number: Option<u16>)
    ensures
        match number {
            Some(n) => parsed(source@, limit as nat) == Some(n as nat),
            None => parsed(source@, limit as nat) is None,
        },
{
    let chars = characters(source);
    let start: usize = if chars.len() > 0 && chars[0] == '+' {
        1
    } else {
        0
    };
    let ghost digits = digits_of(source@);
    assert(digits =~= chars@.skip(start as int));
    if start >= chars.len() {
        return None;
    }
    let mut value: u32 = 0;
    let mut i: usize = start;
    assert(digits.take(0) =~= Seq::empty());
    while i < chars.len()
        invariant
            start <= i <= chars@.len(),
            chars@ == source@,
            digits == digits_of(source@),
            digits == chars@.skip(start as int),
            value <= limit,
            forall|k: int| 0 <= k < i - start ==> is_digit(#[trigger] digits[k]),
            value == number_of(digits.take(i - start)),
        decreases chars@.len() - i,
    {
        let c = chars[i];
        assert(digits[i - start] == c);
        if c < '0' || c > '9' {
            assert(!is_digit(digits[i - start]));
            return None;
        }
        proof {
            steps::lemma_take_next(digits, i - start);
        }
        value = value * 10 + (c as u32 - '0' as u32);
        assert(value == number_of(digits.take(i + 1 - start)));
        if value > limit as u32 {
            proof {
                if all_digits(digits) {
                    lemma_number_grows(digits, i + 1 - start);
                }
            }
            return None;
        }
        i = i + 1;
    }
    assert(digits.take(i - start) =~= digits);
    Some(value as u16)
}

/// A decimal digit.
pub open spec fn digit(n: nat) -> char {
    (48 + n) as u8 as char
}

/// A number in decimal digits.
pub open spec fn decimal(n: nat) -> Seq<char>
    decreases n,
{
    if n < 10 {
        seq![digit(n)]
    } else {
        decimal(n / 10).push(digit(n % 10))
    }
}

/// Writes a number in decimal digits.
pub fn write_decimal(n: u128, out: &mut String)
    ensures
        final(out)@ == old(out)@ + decimal(n as nat),
    decreases n,
{
    let last = digit_char((n % 10) as u8);
    if n < 10 {
        let ghost start = out@;
        out.push(last);
        assert(out@ =~= start + seq![digit(n as nat)]);
    } else {
        let ghost start = out@;
        write_decimal(n / 10, out);
        out.push(last);
        assert(out@ =~= start + decimal((n / 10) as nat).push(digit((n % 10) as nat)));
    }
}

/// A decimal digit.
fn digit_char(n: u8) -> (c: char)
    requires
        n < 10,
    ensures
        c == digit(n as nat),
{
    (48 + n) as char
}

/// The decimal digits of a number write it.
pub proof fn lemma_decimal(n: nat)
    ensures
        decimal(n).len() > 0,
        all_digits(decimal(n)),
        number_of(decimal(n)) == n,
    decreases n,
{
    let last = digit(n % 10);
    assert(last as u32 == 48 + n % 10);
    if n < 10 {
        assert(seq![last].drop_last() =~= Seq::empty());
        reveal_with_fuel(number_of, 2);
    } else {
        lemma_decimal(n / 10);
        let front = decimal(n / 10);
        assert(front.push(last).drop_last() =~= front);
        assert forall|i: int| 0 <= i < decimal(n).len() implies is_digit(
            #[trigger] decimal(n)[i],
        ) by {
            if i < front.len() {
                assert(is_digit(front[i]));
            }
        }
    }
}

/// A number comes back from its decimal digits, which are digits alone.
pub proof fn law_decimal_read_back(n: nat, limit: nat)
    requires
        n <= limit,
    ensures
        parsed(decimal(n), limit) == Some(n),
        decimal(n).len() > 0,
        all_digits(decimal(n)),
{
    lemma_decimal(n);
    assert(is_digit(decimal(n)[0]));
}

/// A character that a text lacks comes first right behind it.
pub proof fn lemma_first_place_behind(a: Seq<char>, b: Seq<char>, c: char)
    requires
        !a.contains(c),
    ensures
        first_place(a + seq![c] + b, c) == a.len(),
    decreases a.len(),
{
    let s = a + seq![c] + b;
    if a.len() == 0 {
        assert(s[0] == c);
    } else {
        assert(s[0] == a[0]);
        assert(a.contains(a[0]));
        assert(s.skip(1) =~= a.skip(1) + seq![c] + b);
        if a.skip(1).contains(c) {
            assert(a[a.skip(1).index_of(c) + 1] == c);
        }
        lemma_first_place_behind(a.skip(1), b, c);
    }
}

/// What stands before the first line feed is the first line of a text.
pub proof fn lemma_line(line: Seq<char>, rest: Seq<char>)
    requires
        !line.contains('\n'),
        line.len() > 0 ==> line.last() != '\r',
    ensures
        lines_of(line + seq!['\n'] + rest) == seq![line] + lines_of(rest),
{
    let s = line + seq!['\n'] + rest;
    lemma_first_place_behind(line, rest, '\n');
    assert(s.take(line.len() as int) =~= line);
    assert(s.skip(line.len() as int + 1) =~= rest);
}

/// What stands before the first separator is the first part of a text.
pub proof fn lemma_field(a: Seq<char>, b: Seq<char>, separator: char)
    requires
        !a.contains(separator),
    ensures
        fields_of(a + seq![separator] + b, separator) == seq![a] + fields_of(b, separator),
{
    let s = a + seq![separator] + b;
    lemma_first_place_behind(a, b, separator);
    assert(s.take(a.len() as int) =~= a);
    assert(s.skip(a.len() as int + 1) =~= b);
}

/// A text without separators is its only part.
pub proof fn lemma_last_field(s: Seq<char>, separator: char)
    requires
        !s.contains(separator),
    ensures
        fields_of(s, separator) == seq![s],
{
    lemma_first_place(s, separator);
    if first_place(s, separator) < s.len() {
        assert(s.contains(s[first_place(s, separator) as int]));
    }
}

} // verus!
