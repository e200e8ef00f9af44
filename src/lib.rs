//! Core of a small MQTT broker: the topic grammar, the wildcard-aware
//! subscription trie, and the decisions of sessions and of the broker.

pub mod broker;
pub mod codec;
pub mod hash;
pub mod message;
pub mod session;
pub mod topic;
pub mod uid;
