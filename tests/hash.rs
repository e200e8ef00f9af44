use std::collections::hash_map::DefaultHasher;
use std::hash::{Hash, Hasher};
use zqtt::hash::hash_str;

fn std_str_hash(s: &str) -> u64 {
    let mut h = DefaultHasher::new();
    s.hash(&mut h);
    h.finish()
}

#[test]
fn hash_str_agrees_with_str_hash() {
    for s in ["", "+", "#", "hello", "it-so_good", "42"] {
        assert_eq!(hash_str(s), std_str_hash(s));
    }
}

#[test]
fn hash_str_separates_wildcards() {
    assert_ne!(hash_str("+"), hash_str("#"));
    assert_ne!(hash_str("ab"), hash_str("ba"));
}
