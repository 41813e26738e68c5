//! Rules of topic filters.

use rusquitto::topic::{check_publish_topic, check_subscribe_topic, shared_filter, TopicError};

#[test]
fn every_topic_error_has_its_input() {
    assert_eq!(check_publish_topic(""), Err(TopicError::Empty));
    assert_eq!(check_subscribe_topic(""), Err(TopicError::Empty));
    let long = "a".repeat(65_536);
    assert_eq!(check_publish_topic(&long), Err(TopicError::TooLong));
    assert_eq!(check_subscribe_topic(&long), Err(TopicError::TooLong));
    assert_eq!(check_publish_topic(&"a".repeat(65_535)), Ok(()));
    assert_eq!(check_publish_topic(&"/".repeat(200)), Ok(()));
    assert_eq!(check_subscribe_topic(&"/".repeat(201)), Err(TopicError::TooDeep));
    assert_eq!(check_publish_topic("a/#"), Err(TopicError::WildcardInPublish));
    for filter in ["a+", "+a", "a/b+/c", "#/a", "a/##", "a/+#"] {
        assert_eq!(check_subscribe_topic(filter), Err(TopicError::InvalidWildcard), "{filter}");
    }
    for filter in ["#", "+", "+/+", "/+", "+/", "a/+/#", "$SYS/#"] {
        assert_eq!(check_subscribe_topic(filter), Ok(()), "{filter}");
    }
}

#[test]
fn topic_names_match_themselves() {
    for name in ["a", "a/b", "/", "//", "$SYS/x", "übel/ß", "a b"] {
        assert_eq!(check_publish_topic(name), Ok(()));
        assert_eq!(check_subscribe_topic(name), Ok(()));
        assert!(rusquitto::topic::matches(name, name), "{name}");
    }
    assert!(!rusquitto::topic::matches("a", "a/"));
    assert!(!rusquitto::topic::matches("a/b", "a/c"));
}

#[test]
fn all_levels_match_the_level_above() {
    assert!(rusquitto::topic::matches("a/#", "a"));
    assert!(rusquitto::topic::matches("a/#", "a/"));
    assert!(rusquitto::topic::matches("a/#", "a/b/c"));
    assert!(!rusquitto::topic::matches("a/#", "ab"));
    assert!(rusquitto::topic::matches("#", "a/b"));
    assert!(rusquitto::topic::matches("$SYS/#", "$SYS/broker/uptime"));
    assert!(!rusquitto::topic::matches("+/broker", "$SYS/broker"));
}

#[test]
fn any_level_matches_exactly_one() {
    assert!(rusquitto::topic::matches("a/+/c", "a//c"));
    assert!(rusquitto::topic::matches("+", "a"));
    assert!(!rusquitto::topic::matches("+", "a/b"));
    assert!(!rusquitto::topic::matches("a/+/c", "a/b/d/c"));
    assert!(!rusquitto::topic::matches("a/+", "a"));
}

#[test]
fn shared_filters_come_apart() {
    assert_eq!(shared_filter("$share/one/a/b"), Some(("one", "a/b")));
    assert_eq!(shared_filter("$share/grün/+/ö"), Some(("grün", "+/ö")));
    assert_eq!(shared_filter("$share/one//"), Some(("one", "/")));
    for filter in ["$share/one", "$share/one/", "$share//a", "$share", "share/one/a", "a/$share/b/c"] {
        assert_eq!(shared_filter(filter), None, "{filter}");
    }
}
