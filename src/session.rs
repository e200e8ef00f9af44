use crate::hash::ChanID;
use crate::message::SubscriberKind;
use crate::topic::{parse_subscription, split_topic, ssid_of, subscription_accepted};
use crate::uid::{decimal, uid_string, UID};
use vstd::prelude::*;

verus! {

/// Where a session stands in the MQTT exchange.
#[derive(Debug, Clone, Copy, PartialEq, Eq, Structural)]
pub enum SessionState {
    /// The connection is accepted; the session has not started.
    Accepted,
    /// Started, waiting for CONNECT (or for the broker to register it).
    AwaitingConnect,
    /// CONNECT was acknowledged.
    Connected,
    /// The session is shutting down.
    Closing,
    /// The session is gone.
    Closed,
}

/// An inbound packet, reduced to what the session's logic reads.
pub enum Inbound {
    Connect,
    Subscribe { pid: u16, topics: Vec<String> },
    Unsubscribe { pid: u16, topics: Vec<String> },
    /// A PUBLISH with its QoS level; this broker takes QoS 0 only.
    Publish { topic: String, payload: Vec<u8>, qos: u8 },
    PingReq,
    Disconnect,
    /// Any other packet: one this broker does not take from a client.
    Other,
}

/// What the runtime around the session must do, in order.
pub enum Action {
    /// Ask the broker to register this session.
    Register,
    /// Write CONNACK with `session_present = false` and code Accepted.
    SendConnack,
    /// Ask the broker to subscribe this session: one entry per requested
    /// filter, `None` for a filter that was refused.
    Subscribe(Vec<Option<Vec<ChanID>>>),
    /// Write SUBACK for packet `pid`: for each filter, whether it was granted.
    SendSuback(u16, Vec<bool>),
    /// Ask the broker to unsubscribe this session: one entry per filter,
    /// `None` for a filter that is not a valid topic.
    Unsubscribe(Vec<Option<Vec<ChanID>>>),
    /// Write UNSUBACK for packet `pid`.
    SendUnsuback(u16),
    /// Hand a publish to the broker for fan-out.
    Forward(String, Vec<u8>),
    /// Write PINGRESP.
    SendPingresp,
    /// Ask the broker to drop this session and its subscriptions.
    Unregister,
    /// Close the connection.
    Close,
}

/// The parsed subscription ID of each filter, `None` for an invalid one.
pub open spec fn filters_parsed(topics: Seq<String>, parsed: Seq<Option<Vec<ChanID>>>) -> bool {
    &&& parsed.len() == topics.len()
    &&& forall|i: int|
        0 <= i < topics.len() ==> {
            &&& (#[trigger] parsed[i] is Some <==> subscription_accepted(topics[i]@))
            &&& parsed[i] matches Some(s) ==> s@ == ssid_of(split_topic(topics[i]@))
        }
}

/// Parse each filter of a SUBSCRIBE or UNSUBSCRIBE.
fn parse_filters(topics: &Vec<String>) -> (r: Vec<Option<Vec<ChanID>>>)
    ensures
        filters_parsed(topics@, r@),
{
    let mut out: Vec<Option<Vec<ChanID>>> = Vec::new();
    let mut i: usize = 0;
    while i < topics.len()
        invariant
            i <= topics@.len(),
            filters_parsed(topics@.subrange(0, i as int), out@),
        decreases topics@.len() - i,
    {
        let p = match parse_subscription(&topics[i]) {
            Ok(ssid) => Some(ssid),
            Err(_) => None,
        };
        out.push(p);
        proof {
            let t1 = topics@.subrange(0, i + 1);
            assert forall|k: int| 0 <= k < t1.len() implies {
                &&& (#[trigger] out@[k] is Some <==> subscription_accepted(t1[k]@))
                &&& out@[k] matches Some(s) ==> s@ == ssid_of(split_topic(t1[k]@))
            } by {
                if k < i {
                    assert(t1[k] == topics@.subrange(0, i as int)[k]);
                }
            }
        }
        i = i + 1;
    }
    proof {
        assert(topics@.subrange(0, i as int) =~= topics@);
    }
    out
}

/// Whether each filter was granted.
fn granted(parsed: &Vec<Option<Vec<ChanID>>>) -> (r: Vec<bool>)
    ensures
        r@.len() == parsed@.len(),
        forall|i: int| 0 <= i < parsed@.len() ==> r@[i] == (#[trigger] parsed@[i] is Some),
{
    let mut out: Vec<bool> = Vec::new();
    let mut i: usize = 0;
    while i < parsed.len()
        invariant
            i <= parsed@.len(),
            out@.len() == i,
            forall|k: int| 0 <= k < i ==> out@[k] == (#[trigger] parsed@[k] is Some),
        decreases parsed@.len() - i,
    {
        out.push(parsed[i].is_some());
        i = i + 1;
    }
    out
}

/// An entity that receives messages, identified by a stable string ID.
pub trait Subscriber {
    /// The stable ID of the subscriber.
    fn id(&self) -> String;

    /// Where the subscriber lives.
    fn kind(&self) -> SubscriberKind;
}

/// One client connection: its UID, where it stands, when it started and
/// connected (in the runtime's clock, as plain numbers), and how many
/// deliveries it dropped.
pub struct Session {
    uid: UID,
    state: SessionState,
    started_at: Option<u64>,
    connect_at: Option<u64>,
    dropped: u64,
}

impl Subscriber for Session {
    fn id(&self) -> String {
        uid_string(self.uid)
    }

    fn kind(&self) -> SubscriberKind {
        SubscriberKind::Local
    }
}

impl Session {
    pub closed spec fn uid_view(&self) -> UID {
        self.uid
    }

    pub closed spec fn state_view(&self) -> SessionState {
        self.state
    }

    pub closed spec fn dropped_view(&self) -> nat {
        self.dropped as nat
    }

    pub closed spec fn started_at_view(&self) -> Option<u64> {
        self.started_at
    }

    pub closed spec fn connect_at_view(&self) -> Option<u64> {
        self.connect_at
    }

    /// A session for a connection that was just accepted.
    pub fn new(uid: UID) -> (r: Session)
        ensures
            r.uid_view() == uid,
            r.state_view() == SessionState::Accepted,
            r.dropped_view() == 0,
            r.started_at_view() is None,
            r.connect_at_view() is None,
    {
        Session { uid, state: SessionState::Accepted, started_at: None, connect_at: None, dropped: 0 }
    }

    /// When the session started, if it did.
    pub fn started_at(&self) -> (r: Option<u64>)
        ensures
            r == self.started_at_view(),
    {
        self.started_at
    }

    /// When CONNECT was acknowledged, if it was.
    pub fn connect_at(&self) -> (r: Option<u64>)
        ensures
            r == self.connect_at_view(),
    {
        self.connect_at
    }

    /// The session's UID.
    pub fn uid(&self) -> (r: UID)
        ensures
            r == self.uid_view(),
    {
        self.uid
    }

    /// The subscriber ID of the session: its UID in decimal.
    pub fn id(&self) -> (r: String)
        ensures
            r@ == decimal(self.uid_view() as nat),
    {
        uid_string(self.uid)
    }

    /// A session is a local subscriber.
    pub fn kind(&self) -> (r: SubscriberKind)
        ensures
            r == SubscriberKind::Local,
    {
        SubscriberKind::Local
    }

    /// Where the session stands.
    pub fn state(&self) -> (r: SessionState)
        ensures
            r == self.state_view(),
    {
        self.state
    }

    /// The runtime started the session at time `now`: it now waits for
    /// CONNECT.
    pub fn started(&mut self, now: u64)
        ensures
            final(self).uid_view() == old(self).uid_view(),
            final(self).dropped_view() == old(self).dropped_view(),
            final(self).connect_at_view() == old(self).connect_at_view(),
            old(self).state_view() == SessionState::Accepted ==> final(self).state_view()
                == SessionState::AwaitingConnect && final(self).started_at_view() == Some(now),
            old(self).state_view() != SessionState::Accepted ==> final(self).state_view()
                == old(self).state_view() && final(self).started_at_view()
                == old(self).started_at_view(),
    {
        if self.state == SessionState::Accepted {
            self.state = SessionState::AwaitingConnect;
            self.started_at = Some(now);
        }
    }

    /// The broker answered, at time `now`, the registration that CONNECT
    /// asked for: on success the session is connected, records `now` as its
    /// connect time and writes CONNACK, else it closes.
    pub fn on_connect(&mut self, registered: bool, now: u64) -> (r: Vec<Action>)
        ensures
            final(self).uid_view() == old(self).uid_view(),
            final(self).dropped_view() == old(self).dropped_view(),
            final(self).started_at_view() == old(self).started_at_view(),
            old(self).state_view() == SessionState::AwaitingConnect && registered ==> final(self).state_view() == SessionState::Connected && final(self).connect_at_view() == Some(now) && r@.len() == 1 && r@[0] is SendConnack,
            old(self).state_view() == SessionState::AwaitingConnect && !registered ==> final(self).state_view() == SessionState::Closing && final(self).connect_at_view() == old(self).connect_at_view() && r@.len() == 1 && r@[0] is Close,
            old(self).state_view() != SessionState::AwaitingConnect ==> final(self).state_view()
                == old(self).state_view() && final(self).connect_at_view()
                == old(self).connect_at_view() && r@.len() == 0,
    {
        let mut out: Vec<Action> = Vec::new();
        if self.state == SessionState::AwaitingConnect {
            if registered {
                self.state = SessionState::Connected;
                self.connect_at = Some(now);
                out.push(Action::SendConnack);
            } else {
                self.state = SessionState::Closing;
                out.push(Action::Close);
            }
        }
        out
    }

    /// Handle one inbound packet.
    pub fn handle(&mut self, packet: Inbound) -> (r: Vec<Action>)
        ensures
            final(self).started_at_view() == old(self).started_at_view(),
            final(self).connect_at_view() == old(self).connect_at_view(),
            final(self).uid_view() == old(self).uid_view(),
            final(self).dropped_view() == old(self).dropped_view(),
            old(self).state_view() == SessionState::AwaitingConnect ==> match packet {
                Inbound::Connect => final(self).state_view() == SessionState::AwaitingConnect
                    && r@.len() == 1 && r@[0] is Register,
                _ => final(self).state_view() == SessionState::Closing && r@.len() == 1
                    && r@[0] is Close,
            },
            old(self).state_view() == SessionState::Connected ==> match packet {
                Inbound::Subscribe { pid, topics } => {
                    &&& final(self).state_view() == SessionState::Connected
                    &&& r@.len() == 2
                    &&& r@[0] matches Action::Subscribe(parsed) && filters_parsed(
                        topics@,
                        parsed@,
                    )
                    &&& r@[1] matches Action::SendSuback(p, g) && p == pid && g@.len()
                        == topics@.len() && forall|i: int|
                        0 <= i < topics@.len() ==> #[trigger] g@[i] == subscription_accepted(
                            topics@[i]@,
                        )
                },
                Inbound::Unsubscribe { pid, topics } => {
                    &&& final(self).state_view() == SessionState::Connected
                    &&& r@.len() == 2
                    &&& r@[0] matches Action::Unsubscribe(parsed) && filters_parsed(
                        topics@,
                        parsed@,
                    )
                    &&& r@[1] matches Action::SendUnsuback(p) && p == pid
                },
                Inbound::Publish { topic, payload, qos } => if qos == 0 {
                    &&& final(self).state_view() == SessionState::Connected
                    &&& r@.len() == 1
                    &&& r@[0] matches Action::Forward(t, p) && t@ == topic@ && p@ == payload@
                } else {
                    final(self).state_view() == SessionState::Closing && r@.len() == 2
                        && r@[0] is Unregister && r@[1] is Close
                },
                Inbound::PingReq => final(self).state_view() == SessionState::Connected
                    && r@.len() == 1 && r@[0] is SendPingresp,
                _ => final(self).state_view() == SessionState::Closing && r@.len() == 2
                    && r@[0] is Unregister && r@[1] is Close,
            },
            old(self).state_view() != SessionState::AwaitingConnect && old(self).state_view()
                != SessionState::Connected ==> final(self).state_view() == old(self).state_view()
                && r@.len() == 0,
    {
        let mut out: Vec<Action> = Vec::new();
        if self.state == SessionState::AwaitingConnect {
            match packet {
                Inbound::Connect => {
                    out.push(Action::Register);
                },
                _ => {
                    self.state = SessionState::Closing;
                    out.push(Action::Close);
                },
            }
        } else if self.state == SessionState::Connected {
            match packet {
                Inbound::Subscribe { pid, topics } => {
                    let parsed = parse_filters(&topics);
                    let g = granted(&parsed);
                    proof {
                        assert forall|i: int| 0 <= i < topics@.len() implies #[trigger] g@[i]
                            == subscription_accepted(topics@[i]@) by {
                            assert(parsed@[i] is Some <==> subscription_accepted(topics@[i]@));
                        }
                    }
                    out.push(Action::Subscribe(parsed));
                    out.push(Action::SendSuback(pid, g));
                },
                Inbound::Unsubscribe { pid, topics } => {
                    let parsed = parse_filters(&topics);
                    out.push(Action::Unsubscribe(parsed));
                    out.push(Action::SendUnsuback(pid));
                },
                Inbound::Publish { topic, payload, qos } => {
                    if qos == 0 {
                        out.push(Action::Forward(topic, payload));
                    } else {
                        self.state = SessionState::Closing;
                        out.push(Action::Unregister);
                        out.push(Action::Close);
                    }
                },
                Inbound::PingReq => {
                    out.push(Action::SendPingresp);
                },
                _ => {
                    self.state = SessionState::Closing;
                    out.push(Action::Unregister);
                    out.push(Action::Close);
                },
            }
        }
        out
    }

    /// The socket reached its end, or its bytes could not be decoded.
    pub fn on_stream_end(&mut self) -> (r: Vec<Action>)
        ensures
            final(self).started_at_view() == old(self).started_at_view(),
            final(self).connect_at_view() == old(self).connect_at_view(),
            final(self).uid_view() == old(self).uid_view(),
            final(self).dropped_view() == old(self).dropped_view(),
            old(self).state_view() == SessionState::Connected ==> final(self).state_view()
                == SessionState::Closing && r@.len() == 2 && r@[0] is Unregister && r@[1] is Close,
            (old(self).state_view() == SessionState::Accepted || old(self).state_view()
                == SessionState::AwaitingConnect) ==> final(self).state_view()
                == SessionState::Closing && r@.len() == 1 && r@[0] is Close,
            (old(self).state_view() == SessionState::Closing || old(self).state_view()
                == SessionState::Closed) ==> final(self).state_view() == old(self).state_view()
                && r@.len() == 0,
    {
        let mut out: Vec<Action> = Vec::new();
        if self.state == SessionState::Connected {
            self.state = SessionState::Closing;
            out.push(Action::Unregister);
            out.push(Action::Close);
        } else if self.state == SessionState::Accepted || self.state
            == SessionState::AwaitingConnect {
            self.state = SessionState::Closing;
            out.push(Action::Close);
        }
        out
    }

    /// The connection is closed and released.
    pub fn stopped(&mut self)
        ensures
            final(self).started_at_view() == old(self).started_at_view(),
            final(self).connect_at_view() == old(self).connect_at_view(),
            final(self).uid_view() == old(self).uid_view(),
            final(self).dropped_view() == old(self).dropped_view(),
            final(self).state_view() == SessionState::Closed,
    {
        self.state = SessionState::Closed;
    }

    /// `n` deliveries were dropped because the session's mailbox was full.
    pub fn record_drops(&mut self, n: u64)
        ensures
            final(self).started_at_view() == old(self).started_at_view(),
            final(self).connect_at_view() == old(self).connect_at_view(),
            final(self).uid_view() == old(self).uid_view(),
            final(self).state_view() == old(self).state_view(),
            final(self).dropped_view() == if old(self).dropped_view() + n <= u64::MAX {
                old(self).dropped_view() + n
            } else {
                u64::MAX as int
            },
    {
        self.dropped = self.dropped.saturating_add(n);
    }

    /// How many deliveries were dropped.
    pub fn dropped(&self) -> (r: u64)
        ensures
            r == self.dropped_view(),
    {
        self.dropped
    }
}

} // verus!
