//! The command line and the configuration file.

use rusquitto::settings::{parse_arguments, parse_bool, parse_settings, Arguments, Settings};

fn arguments(words: &[&str]) -> Result<Arguments, String> {
    parse_arguments(&words.iter().map(|word| word.to_string()).collect())
}

fn settings(words: &[&str], contents: &str) -> Settings {
    parse_settings(&arguments(words).expect("a good command line"), Some(contents))
}

#[test]
fn nothing_said_leaves_the_usual() {
    let none = arguments(&[]).unwrap();
    assert_eq!(
        none,
        Arguments {
            help: false,
            config_path: None,
            port: None,
            verbose: false
        }
    );
    let usual = parse_settings(&none, None);
    assert_eq!(usual, Settings::default());
    assert_eq!(usual.port, 1883);
    assert!(!usual.verbose && usual.allow_anonymous && usual.retain_available);
    assert!(!usual.upgrade_outgoing_qos);
    assert_eq!(usual.persistence_db_file, None);
    assert_eq!(settings(&[], ""), Settings::default());
}

#[test]
fn command_lines_are_read() {
    assert_eq!(
        arguments(&["-v", "-c", "broker.conf", "-p", "1884"]),
        Ok(Arguments {
            help: false,
            config_path: Some("broker.conf".to_owned()),
            port: Some(1884),
            verbose: true
        })
    );
    assert_eq!(arguments(&["-c", "one", "-c"]).unwrap().config_path, None);
    assert_eq!(arguments(&["-p", "+0080"]).unwrap().port, Some(80));
    assert_eq!(arguments(&["-p", "1", "-p", "65535"]).unwrap().port, Some(65535));
}

#[test]
fn mistakes_on_the_command_line_are_named() {
    assert_eq!(arguments(&["-p"]), Err("-p requires a port".to_owned()));
    for word in ["", "+", "-1", "65536", "99999999999999999999", "80x", " 80", "８０"] {
        assert_eq!(
            arguments(&["-p", word]),
            Err("-p requires a numeric port".to_owned()),
            "{word}"
        );
    }
    assert_eq!(arguments(&["-x"]), Err("unsupported option -x".to_owned()));
    assert_eq!(arguments(&["-v", "größe"]), Err("unsupported option größe".to_owned()));
}

#[test]
fn help_ends_the_reading() {
    assert!(arguments(&["-h", "-x"]).unwrap().help);
    assert!(arguments(&["-v", "--help"]).unwrap().help);
    assert_eq!(arguments(&["-x", "-h"]), Err("unsupported option -x".to_owned()));
}

#[test]
fn every_entry_of_a_file_is_taken() {
    let read = settings(
        &[],
        "# a broker\nport 1885\r\nretain_available false\n\tupgrade_outgoing_qos\t1 # yes\nplugin_opt_db_file /tmp/x.db more\nallow_anonymous true\nunknown 7\n",
    );
    assert_eq!(read.port, 1885);
    assert!(!read.retain_available);
    assert!(read.upgrade_outgoing_qos);
    assert_eq!(read.persistence_db_file, Some("/tmp/x.db".to_owned()));
    assert!(read.allow_anonymous);
}

#[test]
fn values_that_make_no_sense_change_nothing() {
    let read = settings(
        &[],
        "allow_anonymous true\nlistener none\nport\nretain_available maybe\nupgrade_outgoing_qos\nplugin_opt_db_file # nothing\nport#9\n",
    );
    assert_eq!(read.port, 1883);
    assert!(read.retain_available);
    assert!(!read.upgrade_outgoing_qos);
    assert_eq!(read.persistence_db_file, None);
}

#[test]
fn the_port_of_the_command_line_wins() {
    assert_eq!(settings(&["-p", "7"], "port 8\n").port, 7);
    assert_eq!(settings(&[], "port 8\nlistener 9").port, 9);
}

#[test]
fn who_is_allowed() {
    assert!(settings(&[], "retain_available true").allow_anonymous);
    assert!(!settings(&[], "listener 1883").allow_anonymous);
    assert!(!settings(&[], "port nonsense").allow_anonymous);
    assert!(settings(&[], "port 1\nallow_anonymous true").allow_anonymous);
    assert!(!settings(&[], "allow_anonymous false").allow_anonymous);
    assert!(settings(&[], "allow_anonymous false\nlistener_allow_anonymous 1").allow_anonymous);
    assert!(!settings(&[], "listener_allow_anonymous 0\nallow_anonymous 1").allow_anonymous);
    assert!(!settings(&[], "port 1\nallow_anonymous true\nallow_anonymous what").allow_anonymous);
}

#[test]
fn comments_change_nothing() {
    assert_eq!(settings(&[], "port 5#6 7\n#port 8"), settings(&[], "port 5"));
}

#[test]
fn any_white_space_separates_words() {
    assert_eq!(settings(&[], "\u{a0}port\u{3000}5\u{2009}6\u{85}").port, 5);
    assert_eq!(settings(&[], "port\u{200b}5").port, 1883);
}

#[test]
fn truth_values() {
    assert_eq!(parse_bool(Some("true")), Some(true));
    assert_eq!(parse_bool(Some("1")), Some(true));
    assert_eq!(parse_bool(Some("false")), Some(false));
    assert_eq!(parse_bool(Some("0")), Some(false));
    assert_eq!(parse_bool(Some("True")), None);
    assert_eq!(parse_bool(Some("")), None);
    assert_eq!(parse_bool(None), None);
}
