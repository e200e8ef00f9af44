use crate::hash::ChanID;
use crate::message::{id_views, matched_ids, path_exists, SubTrie, SubscribeError};
use crate::topic::{parse_publish, publish_accepted, split_topic, ssid_of};
use crate::uid::{decimal, uid_string, UidGen, UID};
use vstd::prelude::*;

verus! {

/// The subscriber ID under which a session's subscriptions are held: its
/// UID in decimal.
pub open spec fn subscriber_id(uid: UID) -> Seq<char> {
    decimal(uid as nat)
}

/// Keeps every record but session `uid`'s subscription to `ssid`.
pub open spec fn other_than(uid: UID, ssid: Seq<ChanID>) -> spec_fn((UID, Seq<ChanID>)) -> bool {
    |e: (UID, Seq<ChanID>)| !(e.0 == uid && e.1 == ssid)
}

/// Keeps every record of a session other than `uid`.
pub open spec fn not_of(uid: UID) -> spec_fn((UID, Seq<ChanID>)) -> bool {
    |e: (UID, Seq<ChanID>)| e.0 != uid
}

/// The subscription records, with their IDs as sequences.
spec fn entry_views(v: Seq<(UID, Vec<ChanID>)>) -> Seq<(UID, Seq<ChanID>)> {
    v.map_values(|e: (UID, Vec<ChanID>)| (e.0, e.1@))
}

proof fn lemma_entry_views_push(v: Seq<(UID, Vec<ChanID>)>, e: (UID, Vec<ChanID>))
    ensures
        entry_views(v.push(e)) == entry_views(v).push((e.0, e.1@)),
{
    assert(entry_views(v.push(e)) =~= entry_views(v).push((e.0, e.1@)));
}

/// One step of a filtering loop: record `k` is kept exactly when `pred` holds.
proof fn lemma_filter_step(
    all: Seq<(UID, Seq<ChanID>)>,
    k: int,
    pred: spec_fn((UID, Seq<ChanID>)) -> bool,
)
    requires
        0 <= k < all.len(),
    ensures
        all.subrange(0, k + 1).filter(pred) == if pred(all[k]) {
            all.subrange(0, k).filter(pred).push(all[k])
        } else {
            all.subrange(0, k).filter(pred)
        },
{
    reveal(Seq::filter);
    assert(all.subrange(0, k + 1).drop_last() =~= all.subrange(0, k));
}

/// Whether two subscription IDs are equal.
fn same_ssid(a: &Vec<ChanID>, b: &Vec<ChanID>) -> (r: bool)
    ensures
        r == (a@ == b@),
{
    if a.len() != b.len() {
        return false;
    }
    let mut i: usize = 0;
    while i < a.len()
        invariant
            a@.len() == b@.len(),
            i <= a@.len(),
            forall|k: int| 0 <= k < i ==> a@[k] == b@[k],
        decreases a@.len() - i,
    {
        if a[i] != b[i] {
            return false;
        }
        i = i + 1;
    }
    assert(a@ =~= b@);
    true
}

/// The broker's own state: the subscription trie, the sessions that
/// completed CONNECT, the subscriptions each session made, and the UID
/// generator. Mailboxes and sockets stay with the runtime around it.
pub struct Broker {
    trie: SubTrie,
    sessions: Vec<UID>,
    subscriptions: Vec<(UID, Vec<ChanID>)>,
    uid_gen: UidGen,
    dropped: u64,
    stopping: bool,
}

impl Broker {
    pub closed spec fn wf(&self) -> bool {
        self.trie.wf() && self.uid_gen.wf()
    }

    /// The subscriptions in the trie.
    pub closed spec fn trie_view(&self) -> Set<(Seq<ChanID>, Seq<char>)> {
        self.trie@
    }

    /// The registered sessions.
    pub closed spec fn sessions_view(&self) -> Set<UID> {
        self.sessions@.to_set()
    }

    /// Each subscription made, as (session, subscription ID), in order.
    pub closed spec fn subscriptions_view(&self) -> Seq<(UID, Seq<ChanID>)> {
        entry_views(self.subscriptions@)
    }

    /// The generator of session UIDs.
    pub closed spec fn uid_gen_view(&self) -> UidGen {
        self.uid_gen
    }

    /// How many publishes were dropped for an invalid topic.
    pub closed spec fn dropped_view(&self) -> nat {
        self.dropped as nat
    }

    /// Whether the broker is shutting down.
    pub closed spec fn stopping_view(&self) -> bool {
        self.stopping
    }

    /// A broker with no session and no subscription.
    pub fn new(uid_gen: UidGen) -> (r: Broker)
        requires
            uid_gen.wf(),
        ensures
            r.wf(),
            r.trie_view() == Set::<(Seq<ChanID>, Seq<char>)>::empty(),
            r.sessions_view() == Set::<UID>::empty(),
            r.subscriptions_view() == Seq::<(UID, Seq<ChanID>)>::empty(),
            r.uid_gen_view() == uid_gen,
            r.dropped_view() == 0,
            !r.stopping_view(),
    {
        let r = Broker {
            trie: SubTrie::new(),
            sessions: Vec::new(),
            subscriptions: Vec::new(),
            uid_gen,
            dropped: 0,
            stopping: false,
        };
        proof {
            assert(r.sessions_view() =~= Set::<UID>::empty());
            assert(r.subscriptions_view() =~= Seq::<(UID, Seq<ChanID>)>::empty());
        }
        r
    }

    /// Allocate the UID of a newly accepted connection; `None` while
    /// shutting down or once the generator is exhausted.
    pub fn accept(&mut self) -> (r: Option<UID>)
        requires
            old(self).wf(),
        ensures
            final(self).wf(),
            !old(self).stopping_view() && old(self).uid_gen_view().next_uid() < u64::MAX ==> r
                == Some(old(self).uid_gen_view().next_uid() as UID) && final(self).uid_gen_view().next_uid()
                == old(self).uid_gen_view().next_uid() + 1,
            old(self).stopping_view() || old(self).uid_gen_view().next_uid() >= u64::MAX ==> r is None
                && final(self).uid_gen_view() == old(self).uid_gen_view(),
            final(self).trie_view() == old(self).trie_view(),
            final(self).sessions_view() == old(self).sessions_view(),
            final(self).subscriptions_view() == old(self).subscriptions_view(),
            final(self).dropped_view() == old(self).dropped_view(),
            final(self).stopping_view() == old(self).stopping_view(),
    {
        if !self.stopping && self.uid_gen.can_allocate() {
            Some(self.uid_gen.allocate())
        } else {
            None
        }
    }

    /// Start shutting down: no connection is accepted or registered from now
    /// on. Returns the registered sessions, which are to be told to close.
    pub fn stop(&mut self) -> (r: Vec<UID>)
        ensures
            final(self).wf() == old(self).wf(),
            final(self).stopping_view(),
            r@.to_set() == old(self).sessions_view(),
            final(self).sessions_view() == old(self).sessions_view(),
            final(self).trie_view() == old(self).trie_view(),
            final(self).subscriptions_view() == old(self).subscriptions_view(),
            final(self).uid_gen_view() == old(self).uid_gen_view(),
            final(self).dropped_view() == old(self).dropped_view(),
    {
        self.stopping = true;
        let r = self.sessions.clone();
        proof {
            assert(r@ =~= self.sessions@);
        }
        r
    }

    /// Shutdown is complete: the broker is stopping and no session is left.
    pub fn is_done(&self) -> (r: bool)
        ensures
            r == (self.stopping_view() && self.sessions_view() == Set::<UID>::empty()),
    {
        proof {
            if self.sessions@.len() == 0 {
                assert(self.sessions@.to_set() =~= Set::<UID>::empty());
            } else {
                assert(self.sessions@.to_set().contains(self.sessions@[0]));
            }
        }
        self.stopping && self.sessions.len() == 0
    }

    /// Register a session that completed CONNECT; refused (`false`, nothing
    /// changes) while shutting down.
    pub fn connect(&mut self, uid: UID) -> (r: bool)
        ensures
            final(self).wf() == old(self).wf(),
            r == !old(self).stopping_view(),
            r ==> final(self).sessions_view() == old(self).sessions_view().insert(uid),
            !r ==> final(self).sessions_view() == old(self).sessions_view(),
            final(self).trie_view() == old(self).trie_view(),
            final(self).subscriptions_view() == old(self).subscriptions_view(),
            final(self).uid_gen_view() == old(self).uid_gen_view(),
            final(self).dropped_view() == old(self).dropped_view(),
            final(self).stopping_view() == old(self).stopping_view(),
    {
        if self.stopping {
            return false;
        }
        let ghost pre = self.sessions@;
        let mut k: usize = 0;
        let mut found = false;
        while k < self.sessions.len()
            invariant
                k <= self.sessions@.len(),
                found ==> self.sessions@.contains(uid),
            decreases self.sessions@.len() - k,
        {
            if self.sessions[k] == uid {
                found = true;
            }
            k = k + 1;
        }
        if !found {
            self.sessions.push(uid);
        }
        proof {
            assert(self.sessions@.to_set() =~= pre.to_set().insert(uid)) by {
                if !found {
                    assert forall|x: UID| #[trigger]
                        self.sessions@.contains(x) == (pre.contains(x) || x == uid) by {
                        if pre.contains(x) {
                            let i = choose|i: int| 0 <= i < pre.len() && pre[i] == x;
                            assert(self.sessions@[i] == x);
                        }
                        if x == uid {
                            assert(self.sessions@[pre.len() as int] == x);
                        }
                    }
                }
            }
        }
        true
    }

    /// Subscribe session `uid` to `ssid`, and record the subscription so
    /// that it is dropped when the session goes away.
    pub fn subscribe(&mut self, uid: UID, ssid: Vec<ChanID>)
        requires
            old(self).wf(),
        ensures
            final(self).stopping_view() == old(self).stopping_view(),
            final(self).wf(),
            final(self).trie_view() == old(self).trie_view().insert((ssid@, subscriber_id(uid))),
            final(self).subscriptions_view() == old(self).subscriptions_view().push((uid, ssid@)),
            final(self).sessions_view() == old(self).sessions_view(),
            final(self).uid_gen_view() == old(self).uid_gen_view(),
            final(self).dropped_view() == old(self).dropped_view(),
    {
        let id = uid_string(uid);
        let _ = self.trie.subscribe(&ssid, id);
        self.subscriptions.push((uid, ssid));
        proof {
            assert(self.subscriptions_view() =~= old(self).subscriptions_view().push((uid, ssid@)));
        }
    }

    /// Unsubscribe session `uid` from `ssid`, and forget every record of
    /// that subscription.
    pub fn unsubscribe(&mut self, uid: UID, ssid: &Vec<ChanID>) -> (r: Result<(), SubscribeError>)
        requires
            old(self).wf(),
        ensures
            final(self).stopping_view() == old(self).stopping_view(),
            final(self).wf(),
            (r == Err::<(), SubscribeError>(SubscribeError::SSIDNotFound)) == !path_exists(
                old(self).trie_view(),
                ssid@,
            ),
            (r == Err::<(), SubscribeError>(SubscribeError::SubscriberNotFound)) == (path_exists(
                old(self).trie_view(),
                ssid@,
            ) && !old(self).trie_view().contains((ssid@, subscriber_id(uid)))),
            r is Ok <==> old(self).trie_view().contains((ssid@, subscriber_id(uid))),
            final(self).trie_view() == old(self).trie_view().remove((ssid@, subscriber_id(uid))),
            final(self).subscriptions_view() == old(self).subscriptions_view().filter(other_than(uid, ssid@)),
            final(self).sessions_view() == old(self).sessions_view(),
            final(self).uid_gen_view() == old(self).uid_gen_view(),
            final(self).dropped_view() == old(self).dropped_view(),
    {
        let id = uid_string(uid);
        let r = self.trie.unsubscribe(ssid, &id);
        proof {
            let e = (ssid@, subscriber_id(uid));
            if !old(self).trie_view().contains(e) {
                assert(old(self).trie_view() =~= old(self).trie_view().remove(e));
            }
        }
        let ghost all = old(self).subscriptions_view();
        let mut kept: Vec<(UID, Vec<ChanID>)> = Vec::new();
        let mut k: usize = 0;
        while k < self.subscriptions.len()
            invariant
                k <= self.subscriptions@.len(),
                self.subscriptions@ == old(self).subscriptions@,
                all == old(self).subscriptions_view(),
                entry_views(kept@) == all.subrange(
                    0,
                    k as int,
                ).filter(other_than(uid, ssid@)),
            decreases self.subscriptions@.len() - k,
        {
            let ghost before = kept@;
            proof {
                lemma_filter_step(all, k as int, other_than(uid, ssid@));
                assert(all[k as int] == (self.subscriptions@[k as int].0, self.subscriptions@[k as int].1@));
            }
            if !(self.subscriptions[k].0 == uid && same_ssid(&self.subscriptions[k].1, ssid)) {
                let entry = (self.subscriptions[k].0, self.subscriptions[k].1.clone());
                proof {
                    assert(entry.1@ =~= self.subscriptions@[k as int].1@);
                    assert(all[k as int] == (entry.0, entry.1@));
                }
                kept.push(entry);
                proof {
                    lemma_entry_views_push(before, kept@.last());
                }
            }
            k = k + 1;
        }
        proof {
            assert(all.subrange(0, k as int) =~= all);
        }
        self.subscriptions = kept;
        r
    }

    /// Drop a session: unregister it, unsubscribe it from every subscription
    /// it made, and forget those.
    pub fn disconnect(&mut self, uid: UID)
        requires
            old(self).wf(),
        ensures
            final(self).stopping_view() == old(self).stopping_view(),
            final(self).wf(),
            final(self).sessions_view() == old(self).sessions_view().remove(uid),
            final(self).subscriptions_view() == old(self).subscriptions_view().filter(not_of(uid)),
            forall|p: (Seq<ChanID>, Seq<char>)| #[trigger]
                final(self).trie_view().contains(p) == (old(self).trie_view().contains(p) && !(p.1
                    == subscriber_id(uid) && old(self).subscriptions_view().contains((uid, p.0)))),
            final(self).uid_gen_view() == old(self).uid_gen_view(),
            final(self).dropped_view() == old(self).dropped_view(),
    {
        let ghost sess = self.sessions@;
        let mut remaining: Vec<UID> = Vec::new();
        let mut j: usize = 0;
        while j < self.sessions.len()
            invariant
                j <= self.sessions@.len(),
                self.sessions@ == sess,
                forall|x: UID| #[trigger]
                    remaining@.contains(x) == (sess.subrange(0, j as int).contains(x) && x != uid),
            decreases self.sessions@.len() - j,
        {
            let ghost before = remaining@;
            let s = self.sessions[j];
            if s != uid {
                remaining.push(s);
            }
            proof {
                let s0 = sess.subrange(0, j as int);
                let s1 = sess.subrange(0, j + 1);
                assert forall|x: UID| #[trigger]
                    remaining@.contains(x) == (s1.contains(x) && x != uid) by {
                    if s1.contains(x) {
                        let i = choose|i: int| 0 <= i < s1.len() && #[trigger] s1[i] == x;
                        if i < j {
                            assert(s0[i] == x);
                        }
                    }
                    if s0.contains(x) {
                        let i = choose|i: int| 0 <= i < s0.len() && #[trigger] s0[i] == x;
                        assert(s1[i] == x);
                    }
                    if remaining@.contains(x) {
                        let i = choose|i: int| 0 <= i < remaining@.len() && #[trigger] remaining@[i] == x;
                        if i < before.len() {
                            assert(before[i] == x);
                        } else {
                            assert(s1[j as int] == x);
                        }
                    }
                    if before.contains(x) {
                        let i = choose|i: int| 0 <= i < before.len() && #[trigger] before[i] == x;
                        assert(remaining@[i] == x);
                    }
                    if x == s && s != uid {
                        assert(remaining@[remaining@.len() - 1] == x);
                    }
                }
            }
            j = j + 1;
        }
        proof {
            assert(sess.subrange(0, j as int) =~= sess);
        }
        self.sessions = remaining;
        proof {
            assert(self.sessions_view() =~= old(self).sessions_view().remove(uid));
        }
        let id = uid_string(uid);
        let ghost sess_after = self.sessions@;
        let ghost all = old(self).subscriptions_view();
        let ghost t0 = old(self).trie_view();
        let mut kept: Vec<(UID, Vec<ChanID>)> = Vec::new();
        let mut k: usize = 0;
        while k < self.subscriptions.len()
            invariant
                k <= self.subscriptions@.len(),
                self.subscriptions@ == old(self).subscriptions@,
                all == old(self).subscriptions_view(),
                t0 == old(self).trie_view(),
                id@ == subscriber_id(uid),
                self.trie.wf(),
                self.uid_gen == old(self).uid_gen,
                self.dropped == old(self).dropped,
                self.stopping == old(self).stopping,
                self.sessions@ == sess_after,
                entry_views(kept@) == all.subrange(
                    0,
                    k as int,
                ).filter(not_of(uid)),
                forall|p: (Seq<ChanID>, Seq<char>)| #[trigger]
                    self.trie@.contains(p) == (t0.contains(p) && !(p.1 == subscriber_id(uid)
                        && all.subrange(0, k as int).contains((uid, p.0)))),
            decreases self.subscriptions@.len() - k,
        {
            let ghost before = kept@;
            let ghost tb = self.trie@;
            proof {
                lemma_filter_step(all, k as int, not_of(uid));
                assert(all[k as int] == (self.subscriptions@[k as int].0, self.subscriptions@[k as int].1@));
            }
            if self.subscriptions[k].0 == uid {
                let r = self.trie.unsubscribe(&self.subscriptions[k].1, &id);
                proof {
                    let e = (all[k as int].1, id@);
                    if !tb.contains(e) {
                        assert(tb =~= tb.remove(e));
                    }
                }
            } else {
                let entry = (self.subscriptions[k].0, self.subscriptions[k].1.clone());
                proof {
                    assert(entry.1@ =~= self.subscriptions@[k as int].1@);
                    assert(all[k as int] == (entry.0, entry.1@));
                }
                kept.push(entry);
                proof {
                    lemma_entry_views_push(before, kept@.last());
                }
            }
            proof {
                let a0 = all.subrange(0, k as int);
                let a1 = all.subrange(0, k + 1);
                let ek = all[k as int];
                assert(a1 =~= a0.push(ek));
                assert(ek.0 == uid ==> self.trie@ == tb.remove((ek.1, id@)));
                assert(ek.0 != uid ==> self.trie@ == tb);
                assert forall|p: (Seq<ChanID>, Seq<char>)| #[trigger]
                    self.trie@.contains(p) == (t0.contains(p) && !(p.1 == subscriber_id(uid)
                        && a1.contains((uid, p.0)))) by {
                    assert(a1.contains((uid, p.0)) == (a0.contains((uid, p.0)) || ek == (uid, p.0))) by {
                        if a0.contains((uid, p.0)) {
                            let i = choose|i: int| 0 <= i < a0.len() && #[trigger] a0[i] == (uid, p.0);
                            assert(a1[i] == a0[i]);
                        }
                        if ek == (uid, p.0) {
                            assert(a1[k as int] == ek);
                        }
                        if a1.contains((uid, p.0)) {
                            let i = choose|i: int| 0 <= i < a1.len() && #[trigger] a1[i] == (uid, p.0);
                            if i < k {
                                assert(a0[i] == a1[i]);
                            }
                        }
                    }
                    assert(tb.contains(p) == (t0.contains(p) && !(p.1 == subscriber_id(uid)
                        && a0.contains((uid, p.0)))));
                }
            }
            k = k + 1;
        }
        proof {
            assert(all.subrange(0, k as int) =~= all);
        }
        self.subscriptions = kept;
    }

    /// Route a publish: parse its topic and return the IDs of the
    /// subscribers it reaches, each once. A publish with an invalid topic is
    /// dropped and counted.
    pub fn publish(&mut self, topic: &String) -> (r: Result<Vec<String>, &'static str>)
        requires
            old(self).wf(),
        ensures
            final(self).stopping_view() == old(self).stopping_view(),
            final(self).wf(),
            r is Ok <==> publish_accepted(topic@),
            r matches Ok(ids) ==> id_views(ids@).no_duplicates() && id_views(ids@).to_set()
                == matched_ids(old(self).trie_view(), ssid_of(split_topic(topic@))),
            r is Ok ==> final(self).dropped_view() == old(self).dropped_view(),
            r is Err ==> final(self).dropped_view() == if old(self).dropped_view() < u64::MAX {
                old(self).dropped_view() + 1
            } else {
                old(self).dropped_view()
            },
            final(self).trie_view() == old(self).trie_view(),
            final(self).sessions_view() == old(self).sessions_view(),
            final(self).subscriptions_view() == old(self).subscriptions_view(),
            final(self).uid_gen_view() == old(self).uid_gen_view(),
    {
        match parse_publish(topic) {
            Ok(ssid) => {
                match self.trie.lookup(&ssid) {
                    Ok(ids) => Ok(ids),
                    Err(_) => Ok(Vec::new()),
                }
            },
            Err(e) => {
                if self.dropped < u64::MAX {
                    self.dropped = self.dropped + 1;
                }
                Err(e)
            },
        }
    }
}

} // verus!
