//! What the command line and the configuration file settle, as a whole.

use vstd::prelude::*;

use crate::scan;
use crate::settings;
use crate::settings::{ArgumentsView, SettingsView};

verus! {

// Words and numbers.

/// White space alone.
pub open spec fn is_blank(s: Seq<char>) -> bool {
    forall|i: int| 0 <= i < s.len() ==> scan::is_white_space(#[trigger] s[i])
}

/// A word: it has characters, and none of them is white space.
pub open spec fn is_word(s: Seq<char>) -> bool {
    s.len() > 0 && forall|i: int| 0 <= i < s.len() ==> !scan::is_white_space(#[trigger] s[i])
}

/// Nothing, or something that starts with white space.
pub open spec fn is_apart(s: Seq<char>) -> bool {
    s.len() > 0 ==> scan::is_white_space(s[0])
}

/// Which characters are white space.
pub proof fn law_which_characters_are_white_space(c: char)
    ensures
        scan::is_white_space(c) <==> {
            ||| c == ' '
            ||| '\t' <= c <= '\r'
            ||| c == '\u{85}'
            ||| c == '\u{a0}'
            ||| c == '\u{1680}'
            ||| '\u{2000}' <= c <= '\u{200a}'
            ||| c == '\u{2028}'
            ||| c == '\u{2029}'
            ||| c == '\u{202f}'
            ||| c == '\u{205f}'
            ||| c == '\u{3000}'
        },
{
}

proof fn lemma_blank_is_skipped(blank: Seq<char>, rest: Seq<char>)
    requires
        is_blank(blank),
    ensures
        scan::without_space(blank + rest) == scan::without_space(rest),
    decreases blank.len(),
{
    if blank.len() == 0 {
        assert(blank + rest =~= rest);
    } else {
        let more = blank.skip(1);
        assert((blank + rest).skip(1) =~= more + rest);
        assert((blank + rest)[0] == blank[0]);
        assert forall|i: int| 0 <= i < more.len() implies scan::is_white_space(
            #[trigger] more[i],
        ) by {
            assert(more[i] == blank[i + 1]);
        }
        lemma_blank_is_skipped(more, rest);
    }
}

proof fn lemma_word_len(word: Seq<char>, rest: Seq<char>)
    requires
        forall|i: int| 0 <= i < word.len() ==> !scan::is_white_space(#[trigger] word[i]),
        is_apart(rest),
    ensures
        scan::word_len(word + rest) == word.len(),
    decreases word.len(),
{
    if word.len() == 0 {
        assert(word + rest =~= rest);
    } else {
        let more = word.skip(1);
        assert((word + rest).skip(1) =~= more + rest);
        assert((word + rest)[0] == word[0]);
        assert forall|i: int| 0 <= i < more.len() implies !scan::is_white_space(
            #[trigger] more[i],
        ) by {
            assert(more[i] == word[i + 1]);
        }
        lemma_word_len(more, rest);
    }
}

/// A word is taken off the front of a text, behind white space and up to white space.
/// There is none in a text that is blank.
pub proof fn law_words_are_taken(blank: Seq<char>, word: Seq<char>, rest: Seq<char>)
    requires
        is_blank(blank),
        is_word(word),
        is_apart(rest),
    ensures
        scan::take_word(blank + word + rest) == (Some(word), rest),
        scan::take_word(blank).0 is None,
{
    let t = word + rest;
    assert(blank + word + rest =~= blank + t);
    lemma_blank_is_skipped(blank, t);
    assert(t[0] == word[0]);
    assert(scan::without_space(t) == t);
    lemma_word_len(word, rest);
    assert(t.take(word.len() as int) =~= word);
    assert(t.skip(word.len() as int) =~= rest);
    lemma_blank_is_skipped(blank, Seq::empty());
    assert(blank + Seq::<char>::empty() =~= blank);
}

/// A line of a file that holds a key and a value, with white space before, between and
/// behind them and a comment at its end, says this value of this key.
pub proof fn law_lines_are_keys_and_values(
    before: Seq<char>,
    key: Seq<char>,
    between: Seq<char>,
    value: Seq<char>,
    rest: Seq<char>,
    comment: Seq<char>,
)
    requires
        is_blank(before),
        is_word(key),
        between.len() > 0,
        is_blank(between),
        is_word(value),
        is_apart(rest),
        !(before + key + between + value + rest).contains('#'),
    ensures
        key_of(before + key + between + value + rest + seq!['#'] + comment) == Some(key),
        value_of(before + key + between + value + rest + seq!['#'] + comment) == Some(value),
        key_of(before + key + between + value + rest) == Some(key),
        value_of(before + key + between + value + rest) == Some(value),
{
    let s = before + key + between + value + rest;
    let whole = s + seq!['#'] + comment;
    scan::lemma_first_place_behind(s, comment, '#');
    assert(whole.take(s.len() as int) =~= s);
    lemma_no_place(s, '#');
    assert(s.take(s.len() as int) =~= s);
    let tail = between + value + rest;
    assert(s =~= before + key + tail);
    assert(tail[0] == between[0]);
    law_words_are_taken(before, key, tail);
    law_words_are_taken(between, value, rest);
}

proof fn lemma_no_place(s: Seq<char>, c: char)
    requires
        !s.contains(c),
    ensures
        scan::first_place(s, c) == s.len(),
    decreases s.len(),
{
    if s.len() > 0 {
        assert(s.contains(s[0]));
        if s.skip(1).contains(c) {
            assert(s[s.skip(1).index_of(c) + 1] == c);
        }
        lemma_no_place(s.skip(1), c);
    }
}

/// A number is written in decimal digits, the last one behind those of its tenth.
pub proof fn law_numbers_in_digits(n: nat)
    ensures
        ({
            let digits = seq!['0', '1', '2', '3', '4', '5', '6', '7', '8', '9'];
            &&& n < 10 ==> scan::decimal(n) == seq![digits[n as int]]
            &&& n >= 10 ==> scan::decimal(n) == scan::decimal(n / 10).push(digits[n as int % 10])
        }),
{
}

proof fn lemma_zeros(count: nat, s: Seq<char>)
    requires
        scan::all_digits(s),
    ensures
        scan::all_digits(Seq::new(count, |i: int| '0') + s),
        scan::number_of(Seq::new(count, |i: int| '0') + s) == scan::number_of(s),
    decreases count + s.len(),
{
    let zeros = Seq::new(count, |i: int| '0');
    let whole = zeros + s;
    assert forall|i: int| 0 <= i < whole.len() implies scan::is_digit(#[trigger] whole[i]) by {
        if i >= count {
            assert(whole[i] == s[i - count]);
        }
    }
    if s.len() > 0 {
        assert(whole.drop_last() =~= zeros + s.drop_last());
        assert(whole.last() == s.last());
        assert forall|i: int| 0 <= i < s.drop_last().len() implies scan::is_digit(
            #[trigger] s.drop_last()[i],
        ) by {
            assert(s.drop_last()[i] == s[i]);
        }
        lemma_zeros(count, s.drop_last());
    } else if count > 0 {
        let fewer = Seq::new((count - 1) as nat, |i: int| '0');
        assert(whole.drop_last() =~= fewer + s);
        assert(whole.last() == '0');
        lemma_zeros((count - 1) as nat, s);
    } else {
        assert(whole =~= s);
    }
}

/// A number up to a limit is read from its digits, which zeros and a plus sign may
/// precede. A greater number, and a text with any other character behind the first
/// one, writes none.
pub proof fn law_which_texts_are_numbers(
    n: nat,
    limit: nat,
    zeros: nat,
    other: Seq<char>,
    place: int,
)
    ensures
        ({
            let s = Seq::new(zeros, |i: int| '0') + scan::decimal(n);
            let read = if n <= limit {
                Some(n)
            } else {
                None
            };
            &&& scan::parsed(s, limit) == read
            &&& scan::parsed(seq!['+'] + s, limit) == read
        }),
        0 < place < other.len() && !('0' <= other[place] <= '9') ==> scan::parsed(
            other,
            limit,
        ) is None,
        other.len() > 0 && other[0] != '+' && !('0' <= other[0] <= '9') ==> scan::parsed(
            other,
            limit,
        ) is None,
        other.len() == 0 || other == seq!['+'] ==> scan::parsed(other, limit) is None,
{
    let s = Seq::new(zeros, |i: int| '0') + scan::decimal(n);
    scan::lemma_decimal(n);
    lemma_zeros(zeros, scan::decimal(n));
    assert(scan::is_digit(s[0]));
    assert((seq!['+'] + s).skip(1) =~= s);
    if 0 < place < other.len() && !('0' <= other[place] <= '9') {
        let digits = scan::digits_of(other);
        if other[0] == '+' {
            assert(digits[place - 1] == other[place]);
        } else {
            assert(digits[place] == other[place]);
        }
        assert(!scan::all_digits(digits));
    }
    if other.len() > 0 && other[0] != '+' && !('0' <= other[0] <= '9') {
        assert(!scan::is_digit(scan::digits_of(other)[0]));
    }
}

/// Lines that end in a line feed, with or without a carriage return before it, are the
/// lines of the text that they make up.
pub proof fn law_lines_come_apart(line: Seq<char>, rest: Seq<char>)
    requires
        !line.contains('\n'),
    ensures
        line.len() == 0 || line.last() != '\r' ==> scan::lines_of(line + seq!['\n'] + rest)
            == seq![line] + scan::lines_of(rest),
        scan::lines_of(line + seq!['\r', '\n'] + rest) == seq![line] + scan::lines_of(rest),
        line.len() > 0 ==> scan::lines_of(line) == seq![line],
        scan::lines_of(Seq::empty()).len() == 0,
{
    if line.len() == 0 || line.last() != '\r' {
        scan::lemma_line(line, rest);
    }
    let a = line.push('\r');
    if a.contains('\n') {
        let k = a.index_of('\n');
        assert(line[k] == '\n');
    }
    let s = line + seq!['\r', '\n'] + rest;
    assert(s =~= a + seq!['\n'] + rest);
    scan::lemma_first_place_behind(a, rest, '\n');
    assert(s.take(a.len() as int) =~= a);
    assert(a.drop_last() =~= line);
    assert(s.skip(a.len() as int + 1) =~= rest);
    lemma_no_place(line, '\n');
}

// The configuration file.

/// The key of a line: its first word before a comment.
pub open spec fn key_of(line: Seq<char>) -> Option<Seq<char>> {
    scan::take_word(scan::before(line, '#')).0
}

/// The value of a line: its second word before a comment.
pub open spec fn value_of(line: Seq<char>) -> Option<Seq<char>> {
    scan::take_word(scan::take_word(scan::before(line, '#')).1).0
}

/// What the last line says that says something.
pub open spec fn last_said<T>(
    list: Seq<Seq<char>>,
    said: spec_fn(Seq<char>) -> Option<T>,
) -> Option<T>
    decreases list.len(),
{
    if list.len() == 0 {
        None
    } else {
        match said(list.last()) {
            Some(x) => Some(x),
            None => last_said(list.drop_last(), said),
        }
    }
}

/// The truth value of a line.
pub open spec fn truth_said(line: Seq<char>) -> Option<bool> {
    if value_of(line) == Some("true"@) || value_of(line) == Some("1"@) {
        Some(true)
    } else if value_of(line) == Some("false"@) || value_of(line) == Some("0"@) {
        Some(false)
    } else {
        None
    }
}

/// The truth value that a line gives to a key, where it gives one.
pub open spec fn truth_for(key: Seq<char>) -> spec_fn(Seq<char>) -> Option<bool> {
    |line: Seq<char>|
        if key_of(line) == Some(key) {
            truth_said(line)
        } else {
            None
        }
}

/// What a line gives to a key: a truth value, or nothing that can be read as one.
pub open spec fn word_for(key: Seq<char>) -> spec_fn(Seq<char>) -> Option<Option<bool>> {
    |line: Seq<char>|
        if key_of(line) == Some(key) {
            Some(truth_said(line))
        } else {
            None
        }
}

/// Whether a line names a port or a listener.
pub open spec fn is_listener(line: Seq<char>) -> bool {
    key_of(line) == Some("port"@) || key_of(line) == Some("listener"@)
}

/// The port that a line names, where it is a number of 16 bits.
pub open spec fn port_said() -> spec_fn(Seq<char>) -> Option<nat> {
    |line: Seq<char>|
        if is_listener(line) {
            match value_of(line) {
                Some(word) => scan::parsed(word, 65_535),
                None => None,
            }
        } else {
            None
        }
}

/// That a line names a port or a listener.
pub open spec fn listener_said() -> spec_fn(Seq<char>) -> Option<bool> {
    |line: Seq<char>|
        if is_listener(line) {
            Some(true)
        } else {
            None
        }
}

/// The file that a line names for what is kept.
pub open spec fn file_said() -> spec_fn(Seq<char>) -> Option<Seq<char>> {
    |line: Seq<char>|
        if key_of(line) == Some("plugin_opt_db_file"@) {
            value_of(line)
        } else {
            None
        }
}

/// A value, or another one where there is none.
pub open spec fn or_else<T>(value: Option<T>, other: T) -> T {
    match value {
        Some(x) => x,
        None => other,
    }
}

proof fn lemma_keys_differ()
    ensures
        "port"@.len() == 4,
        "listener"@.len() == 8,
        "allow_anonymous"@.len() == 15,
        "listener_allow_anonymous"@.len() == 24,
        "retain_available"@.len() == 16,
        "upgrade_outgoing_qos"@.len() == 20,
        "plugin_opt_db_file"@.len() == 18,
{
    reveal_strlit("port");
    reveal_strlit("listener");
    reveal_strlit("allow_anonymous");
    reveal_strlit("listener_allow_anonymous");
    reveal_strlit("retain_available");
    reveal_strlit("upgrade_outgoing_qos");
    reveal_strlit("plugin_opt_db_file");
}

proof fn lemma_truth(line: Seq<char>)
    ensures
        settings::truth_of(value_of(line)) == truth_said(line),
{
}

proof fn lemma_lines(verbose: bool, list: Seq<Seq<char>>)
    ensures
        ({
            let at = settings::lines_applied(settings::config_start(verbose), list);
            &&& at.settings.port == or_else(last_said(list, port_said()), 1883)
            &&& at.settings.verbose == verbose
            &&& at.settings.retain_available == or_else(
                last_said(list, truth_for("retain_available"@)),
                true,
            )
            &&& at.settings.upgrade_outgoing_qos == or_else(
                last_said(list, truth_for("upgrade_outgoing_qos"@)),
                false,
            )
            &&& at.settings.persistence_db_file == last_said(list, file_said())
            &&& at.declared_listener == or_else(last_said(list, listener_said()), false)
            &&& at.explicit_allow == or_else(last_said(list, word_for("allow_anonymous"@)), None)
            &&& at.listener_allow == or_else(
                last_said(list, word_for("listener_allow_anonymous"@)),
                None,
            )
        }),
    decreases list.len(),
{
    if list.len() > 0 {
        let front = list.drop_last();
        let line = list.last();
        lemma_lines(verbose, front);
        lemma_keys_differ();
        lemma_truth(line);
        lemma_port(front);
    }
}

proof fn lemma_port(list: Seq<Seq<char>>)
    ensures
        last_said(list, port_said()) matches Some(n) ==> n <= 65_535,
    decreases list.len(),
{
    if list.len() > 0 {
        lemma_port(list.drop_last());
    }
}

/// The settings that a command line and a configuration file make. Of each key the last
/// line counts that gives it a value of its kind, and the command line goes before the
/// file. A client needs no user name where the listener's own word allows that; where
/// its last word cannot be read, or there is none, where the general word allows it;
/// and where there is no such word either, where the file names no listener.
pub proof fn law_which_lines_count(arguments: ArgumentsView, contents: Seq<char>)
    ensures
        ({
            let list = scan::lines_of(contents);
            let made = settings::settings_of(arguments, Some(contents));
            let own = or_else(last_said(list, word_for("listener_allow_anonymous"@)), None);
            let general = or_else(last_said(list, word_for("allow_anonymous"@)), None);
            &&& made.port == match arguments.port {
                Some(port) => port as nat,
                None => or_else(last_said(list, port_said()), 1883),
            }
            &&& made.verbose == arguments.verbose
            &&& made.retain_available == or_else(
                last_said(list, truth_for("retain_available"@)),
                true,
            )
            &&& made.upgrade_outgoing_qos == or_else(
                last_said(list, truth_for("upgrade_outgoing_qos"@)),
                false,
            )
            &&& made.persistence_db_file == last_said(list, file_said())
            &&& made.allow_anonymous == or_else(
                own,
                or_else(general, !or_else(last_said(list, listener_said()), false)),
            )
        }),
{
    lemma_lines(arguments.verbose, scan::lines_of(contents));
}

/// Without a configuration file the broker listens on port 1883 or the port of the
/// command line, retains messages, lowers QoS where a subscription asks for less,
/// keeps nothing, and asks nobody for a user name.
pub proof fn law_settings_without_a_file(arguments: ArgumentsView)
    ensures
        settings::settings_of(arguments, None) == (SettingsView {
            port: or_else(arguments.port, 1883),
            verbose: arguments.verbose,
            allow_anonymous: true,
            retain_available: true,
            upgrade_outgoing_qos: false,
            persistence_db_file: None,
        }),
{
}

// The command line.

/// An option of the command line.
pub enum Choice {
    Config(Seq<char>),
    Port(Seq<char>),
    Verbose,
}

/// The words of options.
pub open spec fn words_of(list: Seq<Choice>) -> Seq<Seq<char>>
    decreases list.len(),
{
    if list.len() == 0 {
        Seq::empty()
    } else {
        words_of(list.drop_last()) + match list.last() {
            Choice::Config(path) => seq!["-c"@, path],
            Choice::Port(number) => seq!["-p"@, number],
            Choice::Verbose => seq!["-v"@],
        }
    }
}

/// Whether each port of options is a number of 16 bits.
pub open spec fn ports_are_numbers(list: Seq<Choice>) -> bool {
    forall|i: int|
        0 <= i < list.len() ==> (#[trigger] list[i] matches Choice::Port(number) ==> scan::parsed(
            number,
            65_535,
        ) is Some)
}

/// What options say: of two paths and of two ports the later one counts.
pub open spec fn said_by(list: Seq<Choice>) -> ArgumentsView
    decreases list.len(),
{
    if list.len() == 0 {
        ArgumentsView { help: false, config_path: None, port: None, verbose: false }
    } else {
        let before = said_by(list.drop_last());
        match list.last() {
            Choice::Config(path) => ArgumentsView { config_path: Some(path), ..before },
            Choice::Port(number) => ArgumentsView {
                port: Some(scan::parsed(number, 65_535)->0 as u16),
                ..before
            },
            Choice::Verbose => ArgumentsView { verbose: true, ..before },
        }
    }
}

proof fn lemma_options_differ()
    ensures
        "-h"@.len() == 2 && "-h"@[1] == 'h',
        "--help"@.len() == 6,
        "-c"@.len() == 2 && "-c"@[1] == 'c',
        "-p"@.len() == 2 && "-p"@[1] == 'p',
        "-v"@.len() == 2 && "-v"@[1] == 'v',
{
    reveal_strlit("-h");
    reveal_strlit("--help");
    reveal_strlit("-c");
    reveal_strlit("-p");
    reveal_strlit("-v");
}

proof fn lemma_options(list: Seq<Choice>, args: Seq<Seq<char>>)
    requires
        ports_are_numbers(list),
        words_of(list).len() <= args.len(),
        args.take(words_of(list).len() as int) == words_of(list),
    ensures
        settings::arguments_from(args, 0, settings::no_arguments()) == settings::arguments_from(
            args,
            words_of(list).len() as int,
            said_by(list),
        ),
    decreases list.len(),
{
    if list.len() > 0 {
        let front = list.drop_last();
        let words = words_of(front);
        let all = words_of(list);
        assert forall|i: int| 0 <= i < front.len() implies (#[trigger] front[i] matches Choice::Port(
            number,
        ) ==> scan::parsed(number, 65_535) is Some) by {
            assert(front[i] == list[i]);
        }
        assert(args.take(words.len() as int) =~= words) by {
            assert forall|i: int| 0 <= i < words.len() implies args[i] == words[i] by {
                assert(all[i] == words[i]);
                assert(args.take(all.len() as int)[i] == args[i]);
            }
        }
        lemma_options(front, args);
        lemma_options_differ();
        let n = words.len() as int;
        assert(args.take(all.len() as int)[n] == args[n]);
        assert(list[list.len() - 1] == list.last());
        if !(list.last() is Verbose) {
            assert(args.take(all.len() as int)[n + 1] == args[n + 1]);
        }
    } else {
        assert(said_by(list) =~= settings::no_arguments());
    }
}

/// A command line of options says what they say together. A word for help ends it, and
/// nothing behind that counts; `-c` without a path takes back the path; and `-p`
/// without a number of 16 bits, or any other word, is a mistake.
pub proof fn law_command_lines(list: Seq<Choice>, rest: Seq<Seq<char>>)
    requires
        ports_are_numbers(list),
    ensures
        ({
            let read = settings::arguments_from(words_of(list) + rest, 0, settings::no_arguments());
            let said = said_by(list);
            &&& rest.len() == 0 ==> read == Ok::<ArgumentsView, Seq<char>>(said)
            &&& rest.len() > 0 && (rest[0] == "-h"@ || rest[0] == "--help"@) ==> read == Ok::<
                ArgumentsView,
                Seq<char>,
            >(ArgumentsView { help: true, ..said })
            &&& rest == seq!["-c"@] ==> read == Ok::<ArgumentsView, Seq<char>>(
                ArgumentsView { config_path: None, ..said },
            )
            &&& rest == seq!["-p"@] ==> read == Err::<ArgumentsView, Seq<char>>(
                "-p requires a port"@,
            )
            &&& rest.len() > 1 && rest[0] == "-p"@ && scan::parsed(rest[1], 65_535) is None
                ==> read == Err::<ArgumentsView, Seq<char>>("-p requires a numeric port"@)
            &&& rest.len() > 0 && rest[0] != "-h"@ && rest[0] != "--help"@ && rest[0] != "-c"@
                && rest[0] != "-p"@ && rest[0] != "-v"@ ==> read == Err::<
                ArgumentsView,
                Seq<char>,
            >("unsupported option "@ + rest[0])
        }),
{
    let args = words_of(list) + rest;
    let n = words_of(list).len() as int;
    assert(args.take(n) =~= words_of(list));
    lemma_options(list, args);
    lemma_options_differ();
    if rest.len() > 0 {
        assert(args[n] == rest[0]);
    }
    if rest.len() > 1 {
        assert(args[n + 1] == rest[1]);
    }
    if rest == seq!["-c"@] {
        assert(rest.len() == 1 && rest[0] == "-c"@);
        let at = ArgumentsView { config_path: None, ..said_by(list) };
        assert(settings::arguments_from(args, n + 2, at) == Ok::<ArgumentsView, Seq<char>>(at));
    }
    if rest == seq!["-p"@] {
        assert(rest.len() == 1 && rest[0] == "-p"@);
    }
}

} // verus!
