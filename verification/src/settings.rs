//! The broker's settings: the command line, and the configuration file.

use vstd::prelude::*;
use vstd::string::StringExecFns;

use crate::packet;
use crate::scan;
use crate::scan::{characters, lines, next_word, parse_number, place_of};
use crate::steps;
use crate::text::same_text;

verus! {

/// What the broker is told by its user.
#[derive(Debug, PartialEq, Eq)]
pub struct Settings {
    pub port: u16,
    pub verbose: bool,
    pub allow_anonymous: bool,
    pub retain_available: bool,
    pub upgrade_outgoing_qos: bool,
    pub persistence_db_file: Option<String>,
}

#[verifier::ext_equal]
pub struct SettingsView {
    pub port: u16,
    pub verbose: bool,
    pub allow_anonymous: bool,
    pub retain_available: bool,
    pub upgrade_outgoing_qos: bool,
    pub persistence_db_file: Option<Seq<char>>,
}

impl View for Settings {
    type V = SettingsView;

    open spec fn view(&self) -> SettingsView {
        SettingsView {
            port: self.port,
            verbose: self.verbose,
            allow_anonymous: self.allow_anonymous,
            retain_available: self.retain_available,
            upgrade_outgoing_qos: self.upgrade_outgoing_qos,
            persistence_db_file: packet::text_view(self.persistence_db_file),
        }
    }
}

/// What holds where nothing is said.
pub open spec fn usual_settings() -> SettingsView {
    SettingsView {
        port: 1883,
        verbose: false,
        allow_anonymous: true,
        retain_available: true,
        upgrade_outgoing_qos: false,
        persistence_db_file: None,
    }
}

impl Default for Settings {
    fn default() -> (settings: Self)
        ensures
            settings@ == usual_settings(),
    {
        Settings {
            port: 1883,
            verbose: false,
            allow_anonymous: true,
            retain_available: true,
            upgrade_outgoing_qos: false,
            persistence_db_file: None,
        }
    }
}

impl Clone for Settings {
    fn clone(&self) -> (copy: Self)
        ensures
            copy@ == self@,
    {
        Settings {
            port: self.port,
            verbose: self.verbose,
            allow_anonymous: self.allow_anonymous,
            retain_available: self.retain_available,
            upgrade_outgoing_qos: self.upgrade_outgoing_qos,
            persistence_db_file: match &self.persistence_db_file {
                Some(path) => Some(path.clone()),
                None => None,
            },
        }
    }
}

// The command line.

/// What the command line says.
#[derive(Debug, PartialEq, Eq)]
pub struct Arguments {
    /// Whether to show how the program is used, and nothing else.
    pub help: bool,
    pub config_path: Option<String>,
    pub port: Option<u16>,
    pub verbose: bool,
}

#[verifier::ext_equal]
pub struct ArgumentsView {
    pub help: bool,
    pub config_path: Option<Seq<char>>,
    pub port: Option<u16>,
    pub verbose: bool,
}

impl View for Arguments {
    type V = ArgumentsView;

    open spec fn view(&self) -> ArgumentsView {
        ArgumentsView {
            help: self.help,
            config_path: packet::text_view(self.config_path),
            port: self.port,
            verbose: self.verbose,
        }
    }
}

/// A command line that says nothing.
pub open spec fn no_arguments() -> ArgumentsView {
    ArgumentsView { help: false, config_path: None, port: None, verbose: false }
}

/// The command line from a position on, after what stands before it: the first
/// option that asks for help ends the reading, and so does the first mistake.
pub open spec fn arguments_from(args: Seq<Seq<char>>, i: int, at: ArgumentsView) -> Result<
    ArgumentsView,
    Seq<char>,
>
    decreases args.len() + 1 - i,
{
    if i < 0 || i >= args.len() {
        Ok(at)
    } else if args[i] == "-h"@ || args[i] == "--help"@ {
        Ok(ArgumentsView { help: true, ..at })
    } else if args[i] == "-c"@ {
        let config_path = if i + 1 < args.len() {
            Some(args[i + 1])
        } else {
            None
        };
        arguments_from(args, i + 2, ArgumentsView { config_path, ..at })
    } else if args[i] == "-p"@ {
        if i + 1 >= args.len() {
            Err("-p requires a port"@)
        } else {
            match scan::parsed(args[i + 1], 0xFFFF) {
                Some(port) => arguments_from(
                    args,
                    i + 2,
                    ArgumentsView { port: Some(port as u16), ..at },
                ),
                None => Err("-p requires a numeric port"@),
            }
        }
    } else if args[i] == "-v"@ {
        arguments_from(args, i + 1, ArgumentsView { verbose: true, ..at })
    } else {
        Err("unsupported option "@ + args[i])
    }
}

/// The view of what the command line says, or of the mistake in it.
pub open spec fn arguments_view(result: Result<Arguments, String>) -> Result<
    ArgumentsView,
    Seq<char>,
> {
    match result {
        Ok(arguments) => Ok(arguments@),
        Err(mistake) => Err(mistake@),
    }
}

/// Reads the command line.
pub fn parse_arguments(args: &Vec<String>) -> (result: Result<Arguments, String>)
    ensures
        arguments_view(result) == arguments_from(packet::text_views(args@), 0, no_arguments()),
{
    let ghost views = packet::text_views(args@);
    let mut at = Arguments { help: false, config_path: None, port: None, verbose: false };
    let mut i: usize = 0;
    while i < args.len()
        invariant
            views == packet::text_views(args@),
            arguments_from(views, 0, no_arguments()) == arguments_from(views, i as int, at@),
        decreases args@.len() - i,
    {
        let arg = args[i].as_str();
        assert(views[i as int] == arg@);
        if same_text(arg, "-h") || same_text(arg, "--help") {
            at.help = true;
            return Ok(at);
        } else if same_text(arg, "-c") {
            if i + 1 < args.len() {
                assert(views[i + 1] == args@[i + 1]@);
                at.config_path = Some(args[i + 1].clone());
                i = i + 2;
            } else {
                at.config_path = None;
                assert(arguments_from(views, i + 2, at@) == Ok::<ArgumentsView, Seq<char>>(at@));
                i = i + 1;
            }
        } else if same_text(arg, "-p") {
            if i + 1 >= args.len() {
                return Err("-p requires a port".to_owned());
            }
            assert(views[i + 1] == args@[i + 1]@);
            match parse_number(args[i + 1].as_str(), 0xFFFF) {
                Some(port) => {
                    at.port = Some(port);
                },
                None => {
                    return Err("-p requires a numeric port".to_owned());
                },
            }
            i = i + 2;
        } else if same_text(arg, "-v") {
            at.verbose = true;
            i = i + 1;
        } else {
            let mut mistake = "unsupported option ".to_owned();
            mistake.append(arg);
            return Err(mistake);
        }
    }
    Ok(at)
}

// The configuration file.

/// The truth value that a word stands for.
pub open spec fn truth_of(word: Option<Seq<char>>) -> Option<bool> {
    match word {
        Some(w) => if w == "true"@ || w == "1"@ {
            Some(true)
        } else if w == "false"@ || w == "0"@ {
            Some(false)
        } else {
            None
        },
        None => None,
    }
}

/// The truth value that a word stands for.
pub fn parse_bool(value: Option<&str>) -> (truth: Option<bool>)
    ensures
        truth == truth_of(
            match value {
                Some(v) => Some(v@),
                None => None,
            },
        ),
{
    match value {
        Some(word) => {
            if same_text(word, "true") || same_text(word, "1") {
                Some(true)
            } else if same_text(word, "false") || same_text(word, "0") {
                Some(false)
            } else {
                None
            }
        },
        None => None,
    }
}

/// How far a configuration file has been read.
#[verifier::ext_equal]
pub struct ConfigView {
    pub settings: SettingsView,
    /// Whether a port or a listener has been named.
    pub declared_listener: bool,
    pub explicit_allow: Option<bool>,
    pub listener_allow: Option<bool>,
}

/// Whether a word names the port to listen on.
pub open spec fn names_listener(key: Seq<char>) -> bool {
    key == "port"@ || key == "listener"@
}

/// The settings after one entry of a configuration file.
pub open spec fn entry_applied(
    at: ConfigView,
    key: Seq<char>,
    value: Option<Seq<char>>,
) -> ConfigView {
    let settings = at.settings;
    if names_listener(key) {
        let port = match value {
            Some(word) => match scan::parsed(word, 0xFFFF) {
                Some(port) => port as u16,
                None => settings.port,
            },
            None => settings.port,
        };
        ConfigView {
            declared_listener: true,
            settings: SettingsView { port, ..settings },
            ..at
        }
    } else if key == "allow_anonymous"@ {
        ConfigView { explicit_allow: truth_of(value), ..at }
    } else if key == "listener_allow_anonymous"@ {
        ConfigView { listener_allow: truth_of(value), ..at }
    } else if key == "retain_available"@ {
        match truth_of(value) {
            Some(retain_available) => ConfigView {
                settings: SettingsView { retain_available, ..settings },
                ..at
            },
            None => at,
        }
    } else if key == "upgrade_outgoing_qos"@ {
        match truth_of(value) {
            Some(upgrade_outgoing_qos) => ConfigView {
                settings: SettingsView { upgrade_outgoing_qos, ..settings },
                ..at
            },
            None => at,
        }
    } else if key == "plugin_opt_db_file"@ {
        match value {
            Some(path) => ConfigView {
                settings: SettingsView { persistence_db_file: Some(path), ..settings },
                ..at
            },
            None => at,
        }
    } else {
        at
    }
}

/// The settings after one line of a configuration file: what follows `#` is a
/// comment, the first word is the key, the second one the value.
pub open spec fn line_applied(at: ConfigView, line: Seq<char>) -> ConfigView {
    let (key, rest) = scan::take_word(scan::before(line, '#'));
    match key {
        Some(k) => entry_applied(at, k, scan::take_word(rest).0),
        None => at,
    }
}

/// The settings after a list of lines.
pub open spec fn lines_applied(at: ConfigView, list: Seq<Seq<char>>) -> ConfigView
    decreases list.len(),
{
    if list.len() == 0 {
        at
    } else {
        line_applied(lines_applied(at, list.drop_last()), list.last())
    }
}

/// What a configuration file starts from.
pub open spec fn config_start(verbose: bool) -> ConfigView {
    ConfigView {
        settings: SettingsView { verbose, ..usual_settings() },
        declared_listener: false,
        explicit_allow: None,
        listener_allow: None,
    }
}

/// The settings in the end: the port of the command line goes before the one of
/// the file. Whether a client needs a user name is decided by the listener's
/// own word, else by the general one, and else by whether the file names a
/// listener.
pub open spec fn concluded(at: ConfigView, port: Option<u16>) -> SettingsView {
    SettingsView {
        port: match port {
            Some(p) => p,
            None => at.settings.port,
        },
        allow_anonymous: match at.listener_allow {
            Some(allow) => allow,
            None => match at.explicit_allow {
                Some(allow) => allow,
                None => !at.declared_listener,
            },
        },
        ..at.settings
    }
}

/// The settings that a command line and the text of a configuration file make.
pub open spec fn settings_of(
    arguments: ArgumentsView,
    contents: Option<Seq<char>>,
) -> SettingsView {
    let start = config_start(arguments.verbose);
    concluded(
        match contents {
            Some(text) => lines_applied(start, scan::lines_of(text)),
            None => start,
        },
        arguments.port,
    )
}

/// How far a configuration file has been read.
struct Config {
    settings: Settings,
    declared_listener: bool,
    explicit_allow: Option<bool>,
    listener_allow: Option<bool>,
}

impl View for Config {
    type V = ConfigView;

    closed spec fn view(&self) -> ConfigView {
        ConfigView {
            settings: self.settings@,
            declared_listener: self.declared_listener,
            explicit_allow: self.explicit_allow,
            listener_allow: self.listener_allow,
        }
    }
}

/// Takes one entry of a configuration file.
fn apply_entry(at: &mut Config, key: &str, value: Option<&str>)
    ensures
        final(at)@ == entry_applied(
            old(at)@,
            key@,
            match value {
                Some(v) => Some(v@),
                None => None,
            },
        ),
{
    if same_text(key, "port") || same_text(key, "listener") {
        at.declared_listener = true;
        if let Some(word) = value {
            if let Some(port) = parse_number(word, 0xFFFF) {
                at.settings.port = port;
            }
        }
    } else if same_text(key, "allow_anonymous") {
        at.explicit_allow = parse_bool(value);
    } else if same_text(key, "listener_allow_anonymous") {
        at.listener_allow = parse_bool(value);
    } else if same_text(key, "retain_available") {
        if let Some(truth) = parse_bool(value) {
            at.settings.retain_available = truth;
        }
    } else if same_text(key, "upgrade_outgoing_qos") {
        if let Some(truth) = parse_bool(value) {
            at.settings.upgrade_outgoing_qos = truth;
        }
    } else if same_text(key, "plugin_opt_db_file") {
        if let Some(path) = value {
            at.settings.persistence_db_file = Some(path.to_owned());
        }
    }
}

/// Takes one line of a configuration file.
fn apply_line(at: &mut Config, line: &str)
    ensures
        final(at)@ == line_applied(old(at)@, line@),
{
    let chars = characters(line);
    let end: usize = place_of(&chars, '#');
    let ghost words = scan::before(line@, '#');
    assert(words =~= chars@.subrange(0, end as int));
    let (key, from) = next_word(&chars, 0, end);
    if let Some(key) = key {
        let (value, _) = next_word(&chars, from, end);
        match value {
            Some(value) => apply_entry(at, key.as_str(), Some(value.as_str())),
            None => apply_entry(at, key.as_str(), None),
        }
    }
}

/// Makes the settings out of the command line and the text of the configuration
/// file that it names, where it names one.
pub fn parse_settings(arguments: &Arguments, contents: Option<&str>) -> (settings: Settings)
    ensures
        settings@ == settings_of(
            arguments@,
            match contents {
                Some(text) => Some(text@),
                None => None,
            },
        ),
{
    let mut settings = Settings::default();
    settings.verbose = arguments.verbose;
    let mut at = Config {
        settings,
        declared_listener: false,
        explicit_allow: None,
        listener_allow: None,
    };
    let ghost start = at@;
    assert(start =~= config_start(arguments.verbose));
    if let Some(text) = contents {
        let list = lines(text);
        let ghost all = scan::lines_of(text@);
        let mut i: usize = 0;
        assert(all.take(0) =~= Seq::empty());
        while i < list.len()
            invariant
                i <= list@.len(),
                scan::views(list@) == all,
                at@ == lines_applied(start, all.take(i as int)),
            decreases list@.len() - i,
        {
            proof {
                steps::lemma_take_next(all, i as int);
                assert(all[i as int] == list@[i as int]@);
            }
            apply_line(&mut at, list[i].as_str());
            i = i + 1;
        }
        assert(all.take(i as int) =~= all);
    }
    let ghost done = at@;
    let mut settings = at.settings;
    if let Some(port) = arguments.port {
        settings.port = port;
    }
    settings.allow_anonymous = match at.listener_allow {
        Some(allow) => allow,
        None => match at.explicit_allow {
            Some(allow) => allow,
            None => !at.declared_listener,
        },
    };
    assert(settings@ =~= concluded(done, arguments.port));
    settings
}

// Laws.

/// The port of the command line goes before the one of the configuration file.
pub proof fn law_command_line_port_wins(arguments: ArgumentsView, contents: Option<Seq<char>>)
    ensures
        arguments.port matches Some(port) ==> settings_of(arguments, contents).port == port,
{
}

/// Without a configuration file everything is as usual but what the command
/// line says: clients need no user name.
pub proof fn law_no_file_leaves_the_usual(arguments: ArgumentsView)
    ensures
        settings_of(arguments, None) == (SettingsView {
            port: match arguments.port {
                Some(port) => port,
                None => usual_settings().port,
            },
            verbose: arguments.verbose,
            ..usual_settings()
        }),
{
}

/// The key of a line of a configuration file.
pub open spec fn key_of(line: Seq<char>) -> Option<Seq<char>> {
    scan::take_word(scan::before(line, '#')).0
}

/// Whether a line says who is allowed.
pub open spec fn says_who_is_allowed(line: Seq<char>) -> bool {
    key_of(line) == Some("allow_anonymous"@) || key_of(line) == Some("listener_allow_anonymous"@)
}

/// Whether a line names a listener.
pub open spec fn is_listener_line(line: Seq<char>) -> bool {
    key_of(line) matches Some(key) && names_listener(key)
}

proof fn lemma_silent_lines(at: ConfigView, list: Seq<Seq<char>>)
    requires
        at.explicit_allow is None,
        at.listener_allow is None,
        forall|i: int| 0 <= i < list.len() ==> !says_who_is_allowed(#[trigger] list[i]),
    ensures
        lines_applied(at, list).explicit_allow is None,
        lines_applied(at, list).listener_allow is None,
        lines_applied(at, list).declared_listener <==> at.declared_listener || exists|i: int|
            0 <= i < list.len() && is_listener_line(#[trigger] list[i]),
    decreases list.len(),
{
    if list.len() > 0 {
        let front = list.drop_last();
        let last = list.last();
        assert forall|i: int| 0 <= i < front.len() implies !says_who_is_allowed(
            #[trigger] front[i],
        ) by {
            assert(front[i] == list[i]);
        }
        lemma_silent_lines(at, front);
        assert(!says_who_is_allowed(list[list.len() - 1]));
        if exists|i: int| 0 <= i < front.len() && is_listener_line(#[trigger] front[i]) {
            let i = choose|i: int| 0 <= i < front.len() && is_listener_line(#[trigger] front[i]);
            assert(is_listener_line(list[i]));
        }
        if is_listener_line(last) {
            assert(is_listener_line(list[list.len() - 1]));
        }
        if exists|i: int| 0 <= i < list.len() && is_listener_line(#[trigger] list[i]) {
            let i = choose|i: int| 0 <= i < list.len() && is_listener_line(#[trigger] list[i]);
            if i < front.len() {
                assert(is_listener_line(front[i]));
            }
        }
    }
}

/// Where no line of a file says who is allowed, clients need a user name
/// exactly where a line names a listener.
pub proof fn law_listener_closes_the_broker(arguments: ArgumentsView, contents: Seq<char>)
    requires
        forall|i: int|
            0 <= i < scan::lines_of(contents).len() ==> !says_who_is_allowed(
                #[trigger] scan::lines_of(contents)[i],
            ),
    ensures
        settings_of(arguments, Some(contents)).allow_anonymous <==> !exists|i: int|
            0 <= i < scan::lines_of(contents).len() && is_listener_line(
                #[trigger] scan::lines_of(contents)[i],
            ),
{
    lemma_silent_lines(config_start(arguments.verbose), scan::lines_of(contents));
}

/// A comment changes nothing: a line counts as far as the first `#`.
pub proof fn law_comments_change_nothing(at: ConfigView, line: Seq<char>, comment: Seq<char>)
    ensures
        line_applied(at, scan::before(line, '#') + seq!['#'] + comment) == line_applied(at, line),
{
    scan::lemma_before_comment(line, comment, '#');
}

} // verus!
