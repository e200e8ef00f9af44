use std::collections::hash_map::DefaultHasher;
use std::hash::{Hash, Hasher};
use zqtt::message::{SubTrie, SubscribeError};

fn parse_topic(topic: String) -> Vec<u64> {
    let parts: Vec<&str> = topic.split("/").collect();
    let mut result = Vec::new();
    for part in parts.iter() {
        let mut hasher = DefaultHasher::new();
        part.hash(&mut hasher);
        let p = hasher.finish();
        result.push(p);
    }
    result
}

const TOPICS: [&str; 11] = [
    "#",
    "+",
    "hello/#",
    "hello/+",
    "hello/+/zqtt",
    "hello/mqtt/#",
    "hello/mqtt/+",
    "hello/mqtt/zqtt",
    "hello/mqtt/+/+",
    "hello/mqtt/+/foo",
    "hello/mqtt/zqtt/foo",
];

fn filled_trie() -> SubTrie {
    let mut sub_trie = SubTrie::new();
    for topic in TOPICS.iter() {
        // use topic name as subscriber id
        sub_trie
            .subscribe(&parse_topic(topic.to_string()), topic.to_string())
            .unwrap();
    }
    sub_trie
}

fn check_lookup(sub_trie: &SubTrie, topic: &str, match_count: usize, match_ids: &[&str]) {
    let subs = sub_trie.lookup(&parse_topic(topic.to_string())).unwrap();
    assert_eq!(subs.len(), match_count, "lookup {}: {:?}", topic, subs);
    for id in match_ids.iter() {
        assert!(subs.contains(&id.to_string()), "lookup {}: {:?}", topic, subs);
    }
}

#[test]
fn test_subscribe() {
    let mut sub_trie = SubTrie::new();
    let ssid_test: Vec<u64> = (0..10).collect();
    let ssid_test2: Vec<u64> = (0..10).collect();
    let ssid_test3: Vec<u64> = (0..11).collect();

    sub_trie.subscribe(&ssid_test, "Test".to_string()).unwrap();
    sub_trie.subscribe(&ssid_test2, "Test2".to_string()).unwrap();
    sub_trie.subscribe(&ssid_test3, "Test3".to_string()).unwrap();

    let subs = sub_trie.lookup(&ssid_test).unwrap();
    assert!(subs.contains(&"Test".to_string()));
    assert!(subs.contains(&"Test2".to_string()));
    assert_eq!(subs.len(), 2);

    let subs = sub_trie.lookup(&ssid_test3).unwrap();
    assert!(subs.contains(&"Test3".to_string()));
    assert_eq!(subs.len(), 1);

    // the parent of the `Test3` node still holds the other two
    let parent: Vec<u64> = ssid_test3[..10].to_vec();
    let subs = sub_trie.lookup(&parent).unwrap();
    assert!(subs.contains(&"Test".to_string()));
    assert!(subs.contains(&"Test2".to_string()));
    assert_eq!(subs.len(), 2);
}

#[test]
fn test_lookup() {
    let sub_trie = filled_trie();
    check_lookup(&sub_trie, "a", 2, &["#", "+"]);
    check_lookup(&sub_trie, "a/b", 1, &["#"]);
    check_lookup(&sub_trie, "x/y", 1, &["#"]);
    check_lookup(&sub_trie, "hello/world", 3, &["#", "hello/#", "hello/+"]);
    check_lookup(&sub_trie, "hello/world/c", 2, &["#", "hello/#"]);
    check_lookup(&sub_trie, "hello/world/zqtt", 3, &["#", "hello/#", "hello/+/zqtt"]);
    check_lookup(
        &sub_trie,
        "hello/mqtt/zqtt",
        6,
        &["#", "hello/#", "hello/+/zqtt", "hello/mqtt/+", "hello/mqtt/zqtt", "hello/mqtt/#"],
    );
    check_lookup(
        &sub_trie,
        "hello/mqtt/ohh",
        4,
        &["#", "hello/#", "hello/mqtt/#", "hello/mqtt/+"],
    );
    check_lookup(
        &sub_trie,
        "hello/mqtt/ohh/bili",
        4,
        &["#", "hello/#", "hello/mqtt/#", "hello/mqtt/+/+"],
    );
    check_lookup(
        &sub_trie,
        "hello/mqtt/bili/acfun",
        4,
        &["#", "hello/#", "hello/mqtt/#", "hello/mqtt/+/+"],
    );
    check_lookup(
        &sub_trie,
        "hello/mqtt/bili/foo",
        5,
        &["#", "hello/#", "hello/mqtt/#", "hello/mqtt/+/+", "hello/mqtt/+/foo"],
    );
    check_lookup(
        &sub_trie,
        "hello/mqtt/zqtt/foo",
        6,
        &[
            "#",
            "hello/#",
            "hello/mqtt/#",
            "hello/mqtt/+/+",
            "hello/mqtt/+/foo",
            "hello/mqtt/zqtt/foo",
        ],
    );
}

#[test]
fn test_unsubscribe() {
    let mut sub_trie = filled_trie();
    let cases: Vec<(&str, Result<(), SubscribeError>, &str, usize, Vec<&str>)> = vec![
        ("#", Ok(()), "a", 1, vec!["+"]),
        ("#", Err(SubscribeError::SSIDNotFound), "a", 1, vec!["+"]),
        ("+", Ok(()), "a", 0, vec![]),
        // because the "#" subscriber is an orphan
        ("#", Err(SubscribeError::SSIDNotFound), "a/b", 0, vec![]),
        ("#", Err(SubscribeError::SSIDNotFound), "hello/world", 2, vec!["hello/#", "hello/+"]),
        ("hello/#", Ok(()), "hello/world", 1, vec!["hello/+"]),
        ("hello/+", Ok(()), "hello/world", 0, vec![]),
        ("hello/+", Err(SubscribeError::SubscriberNotFound), "hello/world", 0, vec![]),
        (
            "hello/+",
            Err(SubscribeError::SubscriberNotFound),
            "hello/world/zqtt",
            1,
            vec!["hello/+/zqtt"],
        ),
        ("hello/+/zqtt", Ok(()), "hello/world/zqtt", 0, vec![]),
        // after removing "hello/+/zqtt", node "hello/+" is an orphan
        ("hello/+", Err(SubscribeError::SSIDNotFound), "hello/world/zqtt", 0, vec![]),
        ("hello/+", Err(SubscribeError::SSIDNotFound), "hello/world/zqtt", 0, vec![]),
        ("hello/mqtt/#", Ok(()), "hello/mqtt/ohh", 1, vec!["hello/mqtt/+"]),
        (
            "hello/mqtt/#",
            Err(SubscribeError::SSIDNotFound),
            "hello/mqtt/bili/acfun",
            1,
            vec!["hello/mqtt/+/+"],
        ),
    ];
    for (topic, result, lookup_topic, match_count, match_ids) in cases.iter() {
        let got = sub_trie.unsubscribe(&parse_topic(topic.to_string()), &topic.to_string());
        assert_eq!(got, *result, "unsubscribe {}", topic);
        check_lookup(&sub_trie, lookup_topic, *match_count, match_ids);
    }
}

#[test]
fn subscribe_then_unsubscribe_leaves_trie_empty() {
    let mut sub_trie = SubTrie::new();
    let ssid = parse_topic("a/b/c".to_string());
    sub_trie.subscribe(&ssid, "s".to_string()).unwrap();
    assert_eq!(sub_trie.unsubscribe(&ssid, &"s".to_string()), Ok(()));
    // every node on the path was pruned
    assert_eq!(
        sub_trie.unsubscribe(&parse_topic("a".to_string()), &"s".to_string()),
        Err(SubscribeError::SSIDNotFound)
    );
    assert!(sub_trie.lookup(&ssid).unwrap().is_empty());
}

#[test]
fn subscribing_twice_is_subscribing_once() {
    let mut sub_trie = SubTrie::new();
    let ssid = parse_topic("a/b".to_string());
    sub_trie.subscribe(&ssid, "s".to_string()).unwrap();
    sub_trie.subscribe(&ssid, "s".to_string()).unwrap();
    assert_eq!(sub_trie.lookup(&ssid).unwrap(), vec!["s".to_string()]);
    assert_eq!(sub_trie.unsubscribe(&ssid, &"s".to_string()), Ok(()));
    assert!(sub_trie.lookup(&ssid).unwrap().is_empty());
}

#[test]
fn lookup_reports_each_subscriber_once() {
    let mut sub_trie = SubTrie::new();
    for topic in ["a/#", "a/+", "a/b", "#"] {
        sub_trie.subscribe(&parse_topic(topic.to_string()), "same".to_string()).unwrap();
    }
    assert_eq!(
        sub_trie.lookup(&parse_topic("a/b".to_string())).unwrap(),
        vec!["same".to_string()]
    );
}

#[test]
fn multi_wildcard_matches_zero_trailing_channels() {
    let mut sub_trie = SubTrie::new();
    sub_trie.subscribe(&parse_topic("a/#".to_string()), "m".to_string()).unwrap();
    assert_eq!(
        sub_trie.lookup(&parse_topic("a".to_string())).unwrap(),
        vec!["m".to_string()]
    );
    assert!(sub_trie.lookup(&parse_topic("b".to_string())).unwrap().is_empty());
}

#[test]
fn unsubscribe_keeps_nodes_that_still_hold_content() {
    let mut sub_trie = SubTrie::new();
    sub_trie.subscribe(&parse_topic("a".to_string()), "x".to_string()).unwrap();
    sub_trie.subscribe(&parse_topic("a/b".to_string()), "y".to_string()).unwrap();
    assert_eq!(sub_trie.unsubscribe(&parse_topic("a/b".to_string()), &"y".to_string()), Ok(()));
    assert_eq!(
        sub_trie.lookup(&parse_topic("a".to_string())).unwrap(),
        vec!["x".to_string()]
    );
    assert_eq!(
        sub_trie.unsubscribe(&parse_topic("a".to_string()), &"y".to_string()),
        Err(SubscribeError::SubscriberNotFound)
    );
}

/// Deterministic pseudo-random numbers for the scripted test below.
struct Lcg(u64);

impl Lcg {
    fn next(&mut self, bound: usize) -> usize {
        self.0 = self
            .0
            .wrapping_mul(6364136223846793005)
            .wrapping_add(1442695040888963407);
        ((self.0 >> 33) as usize) % bound
    }
}

fn mqtt_match(filter: &[&str], topic: &[&str]) -> bool {
    if filter == ["#"] {
        return true;
    }
    if topic.is_empty() {
        return filter.is_empty();
    }
    !filter.is_empty()
        && (filter[0] == "+" || filter[0] == topic[0])
        && mqtt_match(&filter[1..], &topic[1..])
}

#[test]
fn random_script_keeps_trie_consistent_and_prunes_everything() {
    let names = ["a", "b", "c", "+"];
    let mut rng = Lcg(42);
    let mut patterns: Vec<String> = Vec::new();
    while patterns.len() < 100 {
        let depth = 1 + rng.next(3);
        let mut segs: Vec<&str> = (0..depth).map(|_| names[rng.next(4)]).collect();
        if rng.next(3) == 0 {
            segs.push("#");
        }
        let p = segs.join("/");
        if !patterns.contains(&p) {
            patterns.push(p);
        }
    }
    let mut trie = SubTrie::new();
    let mut model: std::collections::HashSet<(usize, usize)> = std::collections::HashSet::new();
    for step in 0..10_000 {
        let p = rng.next(patterns.len());
        let s = rng.next(100);
        let ssid = parse_topic(patterns[p].clone());
        let id = format!("sub{}", s);
        if rng.next(2) == 0 {
            trie.subscribe(&ssid, id).unwrap();
            model.insert((p, s));
        } else {
            let got = trie.unsubscribe(&ssid, &id);
            assert_eq!(got.is_ok(), model.remove(&(p, s)), "step {}", step);
        }
        if step % 500 == 0 {
            let depth = 1 + rng.next(4);
            let topic: Vec<&str> = (0..depth).map(|_| names[rng.next(3)]).collect();
            let mut got = trie.lookup(&parse_topic(topic.join("/"))).unwrap();
            got.sort();
            let mut want: Vec<String> = model
                .iter()
                .filter(|(p, _)| {
                    let f: Vec<&str> = patterns[*p].split('/').collect();
                    mqtt_match(&f, &topic)
                })
                .map(|(_, s)| format!("sub{}", s))
                .collect();
            want.sort();
            want.dedup();
            assert_eq!(got, want, "lookup {:?} at step {}", topic, step);
        }
    }
    let left: Vec<(usize, usize)> = model.iter().cloned().collect();
    for (p, s) in left {
        let ssid = parse_topic(patterns[p].clone());
        assert_eq!(trie.unsubscribe(&ssid, &format!("sub{}", s)), Ok(()));
    }
    assert!(trie.is_empty());
}
