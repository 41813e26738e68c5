//! Topic names, topic filters, and how they match.

use rusquitto::topic::{check_publish_topic, check_subscribe_topic, TopicError};

#[test]
fn validates_publish_topics() {
    assert_eq!(check_publish_topic("a/b"), Ok(()));
    assert_eq!(
        check_publish_topic("a/+/b"),
        Err(TopicError::WildcardInPublish)
    );
    assert_eq!(check_publish_topic(""), Err(TopicError::Empty));
    assert_eq!(
        check_publish_topic(&"/".repeat(201)),
        Err(TopicError::TooDeep)
    );
}

#[test]
fn validates_subscribe_topics() {
    assert_eq!(check_subscribe_topic("a/+/b"), Ok(()));
    assert_eq!(check_subscribe_topic("a/#"), Ok(()));
    assert_eq!(
        check_subscribe_topic("a#"),
        Err(TopicError::InvalidWildcard)
    );
    assert_eq!(
        check_subscribe_topic("a/#/b"),
        Err(TopicError::InvalidWildcard)
    );
    assert_eq!(check_subscribe_topic("+/b"), Ok(()));
}

#[test]
fn matches_mqtt_filters() {
    assert!(rusquitto::topic::matches("sensors/+/temp", "sensors/room/temp"));
    assert!(rusquitto::topic::matches("sensors/#", "sensors/room/temp"));
    assert!(rusquitto::topic::matches("/finance", "/finance"));
    assert!(!rusquitto::topic::matches("sensors/+/temp", "sensors/room/humidity"));
    assert!(!rusquitto::topic::matches("#", "$SYS/broker/uptime"));
}
