use zqtt::hash::hash_str;
use zqtt::topic::{parse_publish, parse_subscription, Topic};

#[test]
fn it_parses_basic_topic() {
    let topic = Topic::new(&"a/b/c".to_string());
    assert!(topic.is_ok());
}

#[test]
fn it_parses_non_alpha_topic() {
    let topic = Topic::new(&"it-so_good/42".to_string());
    assert!(topic.is_ok());
}

#[test]
fn it_parses_topic_with_various_sw() {
    let topic = Topic::new(&"a/b/+/+/c".to_string());
    assert!(topic.is_ok());
}

#[test]
fn it_parses_topic_with_toplevel_sw() {
    let topic = Topic::new(&"+/b/+/c".to_string());
    assert!(topic.is_ok());
}

#[test]
fn it_parses_topic_with_mw() {
    let topic = Topic::new(&"+/b/+/c/#".to_string());
    assert!(topic.is_ok());
}

#[test]
fn it_parses_topic_all() {
    let topic = Topic::new(&"#".to_string());
    assert!(topic.is_ok());
}

#[test]
fn it_cannot_parse_empty_topic() {
    let topic = Topic::new(&"".to_string());
    assert!(topic.is_err());
}

#[test]
fn it_cannot_parse_topic_with_toplevel_mw() {
    let topic = Topic::new(&"#/a".to_string());
    assert!(topic.is_err());
}

#[test]
fn it_cannot_parse_topic_with_trailing_sw() {
    let topic = Topic::new(&"a/+".to_string());
    assert!(topic.is_err());
}

#[test]
fn rejects_multi_wildcard_in_the_middle() {
    assert!(Topic::new(&"a/#/b".to_string()).is_err());
}

#[test]
fn rejects_multi_wildcard_after_single_wildcard() {
    assert!(Topic::new(&"+/#".to_string()).is_err());
}

#[test]
fn rejects_lone_single_wildcard() {
    assert!(Topic::new(&"+".to_string()).is_err());
}

#[test]
fn rejects_invalid_characters_and_empty_segments() {
    assert!(Topic::new(&"a b/c".to_string()).is_err());
    assert!(Topic::new(&"a//c".to_string()).is_err());
    assert!(Topic::new(&"a/".to_string()).is_err());
    assert!(Topic::new(&"/a".to_string()).is_err());
    assert!(Topic::new(&"a/$".to_string()).is_err());
    assert!(Topic::new(&"ab#".to_string()).is_err());
}

#[test]
fn accepts_name_then_multi_wildcard() {
    assert!(Topic::new(&"a/#".to_string()).is_ok());
}

#[test]
fn subscription_ssid_hashes_each_segment() {
    let ssid = parse_subscription(&"hello/+/x/#".to_string()).unwrap();
    assert_eq!(
        ssid,
        vec![hash_str("hello"), hash_str("+"), hash_str("x"), hash_str("#")]
    );
    assert!(parse_subscription(&"hello/+/#".to_string()).is_err());
}

#[test]
fn publish_ssid_hashes_each_segment() {
    let ssid = parse_publish(&"a/b/c".to_string()).unwrap();
    assert_eq!(ssid, vec![hash_str("a"), hash_str("b"), hash_str("c")]);
    assert_ne!(hash_str("a"), hash_str("b"));
}

#[test]
fn publish_rejects_wildcards_and_empty() {
    assert!(parse_publish(&"a/+/c".to_string()).is_err());
    assert!(parse_publish(&"a/#".to_string()).is_err());
    assert!(parse_publish(&"#".to_string()).is_err());
    assert!(parse_publish(&"".to_string()).is_err());
    assert!(parse_publish(&"a//b".to_string()).is_err());
}

#[test]
fn subscription_errors_carry_messages() {
    assert_eq!(
        Topic::new(&"".to_string()).err(),
        Some("Invalid empty topic")
    );
    assert_eq!(
        Topic::new(&"a/+".to_string()).err(),
        Some("Wildcard '+' cannot be placed at the end")
    );
    assert_eq!(
        Topic::new(&"a/b c".to_string()).err(),
        Some("Invalid characters in topic")
    );
    assert_eq!(
        Topic::new(&"#/a".to_string()).err(),
        Some("Toplevel wildcard '#' should not have trailing channels")
    );
    assert_eq!(
        Topic::new(&"a/#/b".to_string()).err(),
        Some("Wildcard '#' should be placed at the end")
    );
}

#[test]
fn parse_errors_name_their_kind() {
    assert_eq!(parse_subscription(&"".to_string()).err(), Some("Invalid empty topic"));
    assert_eq!(
        parse_subscription(&"a/b.c".to_string()).err(),
        Some("Invalid characters in topic")
    );
    assert_eq!(parse_publish(&"".to_string()).err(), Some("Invalid empty topic"));
    assert_eq!(
        parse_publish(&"#a".to_string()).err(),
        Some("Invalid characters in topic")
    );
    assert_eq!(
        parse_publish(&"a/+/b".to_string()).err(),
        Some("Wildcards are not allowed in a publish topic")
    );
}
