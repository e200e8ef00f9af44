use crate::hash::{chan_hash, hash_str, ChanID};
use crate::topic::ssid_of;
use vstd::prelude::*;

verus! {

/// The channel ID of the single-level wildcard `+`.
pub open spec fn single_wildcard_id() -> ChanID {
    chan_hash(seq!['+'])
}

/// The channel ID of the multi-level wildcard `#`.
pub open spec fn multi_wildcard_id() -> ChanID {
    chan_hash(seq!['#'])
}

/// Whether a subscription pattern matches a topic, both given as channel IDs:
/// a pattern that is exactly `#` matches every topic (the empty one too), a `+`
/// matches any one channel, and any other channel matches only itself.
pub open spec fn pattern_matches(pat: Seq<ChanID>, topic: Seq<ChanID>) -> bool
    decreases topic.len(),
{
    if pat == seq![multi_wildcard_id()] {
        true
    } else if topic.len() == 0 {
        pat.len() == 0
    } else {
        &&& pat.len() > 0
        &&& (pat[0] == single_wildcard_id() || pat[0] == topic[0])
        &&& pattern_matches(pat.drop_first(), topic.drop_first())
    }
}

/// Errors of the subscription trie.
#[derive(Debug, Clone, Copy, PartialEq, Eq, Structural)]
pub enum SubscribeError {
    /// No node lies on the path of the subscription ID.
    SSIDNotFound,
    /// The node of the subscription ID does not hold the subscriber.
    SubscriberNotFound,
}

/// A message routed from a publisher to the subscribers of its channel.
pub struct Message {
    /// Globally unique identifier of the publish.
    pub id: Vec<u8>,
    /// The original publish topic.
    pub channel: Vec<u8>,
    /// The payload.
    pub payload: Vec<u8>,
    /// Hop/expiry counter, for bridging between brokers.
    pub ttl: u32,
}

/// Where a subscriber lives.
#[derive(Debug, Clone, Copy, PartialEq, Eq, Structural)]
pub enum SubscriberKind {
    /// A session connected to this broker.
    Local,
    /// A subscriber reached through another broker.
    Remote,
}

/// A node of the trie: its channel ID (meaningless at the root), its
/// children, and the IDs of the subscribers whose subscription ends here.
struct Node {
    chan_id: ChanID,
    children: Vec<Node>,
    subs: Vec<String>,
}

spec fn in_subs(subs: Seq<String>, id: Seq<char>) -> bool {
    exists|k: int| 0 <= k < subs.len() && (#[trigger] subs[k])@ == id
}

/// The node holds subscriber `id` under the relative path `q`.
spec fn holds(n: Node, q: Seq<ChanID>, id: Seq<char>) -> bool
    decreases q.len(),
{
    if q.len() == 0 {
        in_subs(n.subs@, id)
    } else {
        exists|k: int|
            0 <= k < n.children@.len() && (#[trigger] n.children@[k]).chan_id == q[0] && holds(
                n.children@[k],
                q.drop_first(),
                id,
            )
    }
}

/// A node lies under the relative path `p`.
spec fn has_path(n: Node, p: Seq<ChanID>) -> bool
    decreases p.len(),
{
    if p.len() == 0 {
        true
    } else {
        exists|k: int|
            0 <= k < n.children@.len() && (#[trigger] n.children@[k]).chan_id == p[0]
                && has_path(n.children@[k], p.drop_first())
    }
}

spec fn unique_subs(subs: Seq<String>) -> bool {
    forall|j: int, k: int| 0 <= j < subs.len() && 0 <= k < subs.len() && j != k ==> (
    #[trigger] subs[j])@ != (#[trigger] subs[k])@
}

spec fn unique_chans(children: Seq<Node>) -> bool {
    forall|j: int, k: int|
        0 <= j < children.len() && 0 <= k < children.len() && j != k ==> (
        #[trigger] children[j]).chan_id != (#[trigger] children[k]).chan_id
}

spec fn nonempty(n: Node) -> bool {
    n.subs@.len() > 0 || n.children@.len() > 0
}

/// Subscriber IDs are unique per node, channel IDs are unique among
/// siblings, and no node below this one is empty.
spec fn node_wf(n: Node) -> bool
    decreases n,
{
    &&& unique_subs(n.subs@)
    &&& unique_chans(n.children@)
    &&& forall|k: int|
        0 <= k < n.children@.len() ==> nonempty(#[trigger] n.children@[k]) && node_wf(
            n.children@[k],
        )
}

/// Inside a node, the child on channel `q[0]` alone decides what lies under `q`.
proof fn lemma_holds_child(n: Node, j: int, q: Seq<ChanID>, x: Seq<char>)
    requires
        0 <= j < n.children@.len(),
        unique_chans(n.children@),
        q.len() > 0,
        q[0] == n.children@[j].chan_id,
    ensures
        holds(n, q, x) == holds(n.children@[j], q.drop_first(), x),
        has_path(n, q) == has_path(n.children@[j], q.drop_first()),
{
    if holds(n, q, x) {
        let k = choose|k: int|
            0 <= k < n.children@.len() && (#[trigger] n.children@[k]).chan_id == q[0] && holds(
                n.children@[k],
                q.drop_first(),
                x,
            );
        assert(k == j);
    }
    if has_path(n, q) {
        let k = choose|k: int|
            0 <= k < n.children@.len() && (#[trigger] n.children@[k]).chan_id == q[0]
                && has_path(n.children@[k], q.drop_first());
        assert(k == j);
    }
}

/// With no child on channel `q[0]`, nothing lies under `q`.
proof fn lemma_holds_no_child(n: Node, q: Seq<ChanID>, x: Seq<char>)
    requires
        q.len() > 0,
        forall|k: int| 0 <= k < n.children@.len() ==> (#[trigger] n.children@[k]).chan_id != q[0],
    ensures
        !holds(n, q, x),
        !has_path(n, q),
{
}

/// Replacing one child by one on the same channel changes only what lies under
/// that channel.
proof fn lemma_holds_update(n1: Node, n2: Node, j: int, q: Seq<ChanID>, x: Seq<char>)
    requires
        0 <= j < n1.children@.len(),
        unique_chans(n1.children@),
        n2.subs@ == n1.subs@,
        n2.children@.len() == n1.children@.len(),
        n2.children@[j].chan_id == n1.children@[j].chan_id,
        forall|k: int| 0 <= k < n1.children@.len() && k != j ==> n2.children@[k] == n1.children@[k],
    ensures
        unique_chans(n2.children@),
        q.len() == 0 ==> holds(n2, q, x) == holds(n1, q, x),
        q.len() > 0 && q[0] == n1.children@[j].chan_id ==> holds(n2, q, x) == holds(
            n2.children@[j],
            q.drop_first(),
            x,
        ),
        q.len() > 0 && q[0] != n1.children@[j].chan_id ==> holds(n2, q, x) == holds(n1, q, x),
{
    assert forall|a: int, b: int|
        0 <= a < n2.children@.len() && 0 <= b < n2.children@.len() && a != b implies (
        #[trigger] n2.children@[a]).chan_id != (#[trigger] n2.children@[b]).chan_id by {
        assert(n1.children@[a].chan_id != n1.children@[b].chan_id);
    }
    if q.len() > 0 {
        if q[0] == n1.children@[j].chan_id {
            lemma_holds_child(n2, j, q, x);
        } else {
            if holds(n1, q, x) {
                let k = choose|k: int|
                    0 <= k < n1.children@.len() && (#[trigger] n1.children@[k]).chan_id == q[0]
                        && holds(n1.children@[k], q.drop_first(), x);
                assert(n2.children@[k] == n1.children@[k]);
            }
            if holds(n2, q, x) {
                let k = choose|k: int|
                    0 <= k < n2.children@.len() && (#[trigger] n2.children@[k]).chan_id == q[0]
                        && holds(n2.children@[k], q.drop_first(), x);
                assert(n2.children@[k] == n1.children@[k]);
            }
        }
    }
}

/// Removing one child takes away exactly what lies under its channel.
proof fn lemma_holds_remove(n1: Node, n2: Node, j: int, q: Seq<ChanID>, x: Seq<char>)
    requires
        0 <= j < n1.children@.len(),
        unique_chans(n1.children@),
        n2.subs@ == n1.subs@,
        n2.children@ == n1.children@.remove(j),
    ensures
        unique_chans(n2.children@),
        q.len() == 0 ==> holds(n2, q, x) == holds(n1, q, x),
        q.len() > 0 && q[0] == n1.children@[j].chan_id ==> !holds(n2, q, x),
        q.len() > 0 && q[0] != n1.children@[j].chan_id ==> holds(n2, q, x) == holds(n1, q, x),
{
    let c1 = n1.children@;
    let c2 = n2.children@;
    assert forall|a: int, b: int|
        0 <= a < c2.len() && 0 <= b < c2.len() && a != b implies (#[trigger] c2[a]).chan_id != (
        #[trigger] c2[b]).chan_id by {
        let a1 = if a < j { a } else { a + 1 };
        let b1 = if b < j { b } else { b + 1 };
        assert(c2[a] == c1[a1] && c2[b] == c1[b1]);
        assert(c1[a1].chan_id != c1[b1].chan_id);
    }
    if q.len() > 0 {
        if holds(n2, q, x) {
            let k = choose|k: int|
                0 <= k < c2.len() && (#[trigger] c2[k]).chan_id == q[0] && holds(
                    c2[k],
                    q.drop_first(),
                    x,
                );
            let k1 = if k < j { k } else { k + 1 };
            assert(c2[k] == c1[k1]);
            assert(k1 != j);
            assert(c1[k1].chan_id != c1[j].chan_id);
        }
        if q[0] != c1[j].chan_id && holds(n1, q, x) {
            let k1 = choose|k: int|
                0 <= k < c1.len() && (#[trigger] c1[k]).chan_id == q[0] && holds(
                    c1[k],
                    q.drop_first(),
                    x,
                );
            let k = if k1 < j { k1 } else { k1 - 1 };
            assert(c2[k] == c1[k1]);
        }
    }
}

/// Some subscription in the set has `p` as a prefix of its subscription ID
/// (the empty path always counts: it is the root).
pub open spec fn path_exists(subs: Set<(Seq<ChanID>, Seq<char>)>, p: Seq<ChanID>) -> bool {
    p.len() == 0 || exists|e: (Seq<ChanID>, Seq<char>)|
        #![trigger subs.contains(e)]
        subs.contains(e) && p.len() <= e.0.len() && e.0.subrange(0, p.len() as int) == p
}

/// A well-formed node that is not empty holds some subscriber.
proof fn lemma_nonempty_holds(n: Node) -> (e: (Seq<ChanID>, Seq<char>))
    requires
        node_wf(n),
        nonempty(n),
    ensures
        holds(n, e.0, e.1),
    decreases n,
{
    if n.subs@.len() > 0 {
        let e = (Seq::<ChanID>::empty(), n.subs@[0]@);
        assert(in_subs(n.subs@, e.1));
        e
    } else {
        let c = n.children@[0];
        let e1 = lemma_nonempty_holds(c);
        let q = seq![c.chan_id] + e1.0;
        assert(q.drop_first() =~= e1.0);
        assert(holds(n, q, e1.1));
        (q, e1.1)
    }
}

/// In a well-formed node, a path leads to a node exactly when some held
/// subscription extends it.
proof fn lemma_path_prefix(n: Node, p: Seq<ChanID>)
    requires
        node_wf(n),
    ensures
        p.len() > 0 ==> (has_path(n, p) <==> exists|q: Seq<ChanID>, x: Seq<char>|
            #![trigger holds(n, q, x)]
            holds(n, q, x) && p.len() <= q.len() && q.subrange(0, p.len() as int) == p),
    decreases p.len(),
{
    if p.len() > 0 {
        if has_path(n, p) {
            let k = choose|k: int|
                0 <= k < n.children@.len() && (#[trigger] n.children@[k]).chan_id == p[0]
                    && has_path(n.children@[k], p.drop_first());
            let c = n.children@[k];
            let rest = p.drop_first();
            let (q1, x1) = if rest.len() == 0 {
                lemma_nonempty_holds(c)
            } else {
                lemma_path_prefix(c, rest);
                let (q1, x1) = choose|q1: Seq<ChanID>, x1: Seq<char>|
                    holds(c, q1, x1) && rest.len() <= q1.len() && q1.subrange(0, rest.len() as int)
                        == rest;
                (q1, x1)
            };
            let q = seq![p[0]] + q1;
            assert(q.drop_first() =~= q1);
            assert(holds(n, q, x1));
            assert(q.subrange(0, p.len() as int) =~= p) by {
                assert forall|i: int| 0 <= i < p.len() implies q[i] == p[i] by {
                    if i > 0 {
                        assert(q[i] == q1[i - 1]);
                        assert(q1.subrange(0, rest.len() as int)[i - 1] == rest[i - 1]);
                    }
                }
            }
        }
        if exists|q: Seq<ChanID>, x: Seq<char>|
            #![trigger holds(n, q, x)]
            holds(n, q, x) && p.len() <= q.len() && q.subrange(0, p.len() as int) == p {
            let (q, x) = choose|q: Seq<ChanID>, x: Seq<char>|
                #![trigger holds(n, q, x)]
                holds(n, q, x) && p.len() <= q.len() && q.subrange(0, p.len() as int) == p;
            assert(q[0] == q.subrange(0, p.len() as int)[0]);
            let k = choose|k: int|
                0 <= k < n.children@.len() && (#[trigger] n.children@[k]).chan_id == q[0] && holds(
                    n.children@[k],
                    q.drop_first(),
                    x,
                );
            let c = n.children@[k];
            let rest = p.drop_first();
            if rest.len() > 0 {
                lemma_path_prefix(c, rest);
                assert(q.drop_first().subrange(0, rest.len() as int) =~= rest) by {
                    assert forall|i: int| 0 <= i < rest.len() implies q.drop_first()[i]
                        == rest[i] by {
                        assert(q.subrange(0, p.len() as int)[i + 1] == p[i + 1]);
                    }
                }
                assert(holds(c, q.drop_first(), x));
            }
            assert(has_path(c, rest));
        }
    }
}

/// Subscriber `x` holds, under this node, a pattern that matches `t`.
spec fn matched_by(n: Node, t: Seq<ChanID>, x: Seq<char>) -> bool {
    exists|q: Seq<ChanID>| #[trigger] holds(n, q, x) && pattern_matches(q, t)
}

/// The child on channel `c` holds subscriber `x` itself.
spec fn child_subs(n: Node, c: ChanID, x: Seq<char>) -> bool {
    exists|k: int|
        0 <= k < n.children@.len() && (#[trigger] n.children@[k]).chan_id == c && in_subs(
            n.children@[k].subs@,
            x,
        )
}

/// Under the child on channel `c`, `x` holds a pattern that matches `t`.
spec fn child_matched(n: Node, c: ChanID, t: Seq<ChanID>, x: Seq<char>) -> bool {
    exists|k: int|
        0 <= k < n.children@.len() && (#[trigger] n.children@[k]).chan_id == c && matched_by(
            n.children@[k],
            t,
            x,
        )
}

/// One step of matching: the node's own subscribers (once `t` is used up),
/// those of its `#` child, and, for a non-empty `t`, what its `+` child and
/// the child on `t[0]` match against the rest of `t`.
proof fn lemma_matched_split(n: Node, t: Seq<ChanID>, x: Seq<char>)
    ensures
        matched_by(n, t, x) == ((t.len() == 0 && in_subs(n.subs@, x)) || child_subs(
            n,
            multi_wildcard_id(),
            x,
        ) || (t.len() > 0 && (child_matched(n, single_wildcard_id(), t.drop_first(), x)
            || child_matched(n, t[0], t.drop_first(), x)))),
{
    let mw = multi_wildcard_id();
    let sw = single_wildcard_id();
    let mwq = seq![mw];
    assert(mwq.drop_first() =~= Seq::<ChanID>::empty());
    if matched_by(n, t, x) {
        let q = choose|q: Seq<ChanID>| #[trigger] holds(n, q, x) && pattern_matches(q, t);
        if q == mwq {
            let k = choose|k: int|
                0 <= k < n.children@.len() && (#[trigger] n.children@[k]).chan_id == q[0] && holds(
                    n.children@[k],
                    q.drop_first(),
                    x,
                );
            assert(child_subs(n, mw, x));
        } else if t.len() == 0 {
        } else {
            let k = choose|k: int|
                0 <= k < n.children@.len() && (#[trigger] n.children@[k]).chan_id == q[0] && holds(
                    n.children@[k],
                    q.drop_first(),
                    x,
                );
            assert(matched_by(n.children@[k], t.drop_first(), x));
            if q[0] == sw {
                assert(child_matched(n, sw, t.drop_first(), x));
            } else {
                assert(child_matched(n, t[0], t.drop_first(), x));
            }
        }
    }
    if t.len() == 0 && in_subs(n.subs@, x) {
        let q = Seq::<ChanID>::empty();
        assert(holds(n, q, x) && pattern_matches(q, t));
    }
    if child_subs(n, mw, x) {
        let k = choose|k: int|
            0 <= k < n.children@.len() && (#[trigger] n.children@[k]).chan_id == mw && in_subs(
                n.children@[k].subs@,
                x,
            );
        assert(holds(n.children@[k], mwq.drop_first(), x));
        assert(holds(n, mwq, x) && pattern_matches(mwq, t));
    }
    if t.len() > 0 {
        if child_matched(n, sw, t.drop_first(), x) {
            let k = choose|k: int|
                0 <= k < n.children@.len() && (#[trigger] n.children@[k]).chan_id == sw
                    && matched_by(n.children@[k], t.drop_first(), x);
            let q1 = choose|q: Seq<ChanID>|
                #[trigger] holds(n.children@[k], q, x) && pattern_matches(q, t.drop_first());
            let q = seq![sw] + q1;
            assert(q.drop_first() =~= q1);
            assert(holds(n, q, x) && pattern_matches(q, t));
        }
        if child_matched(n, t[0], t.drop_first(), x) {
            let k = choose|k: int|
                0 <= k < n.children@.len() && (#[trigger] n.children@[k]).chan_id == t[0]
                    && matched_by(n.children@[k], t.drop_first(), x);
            let q1 = choose|q: Seq<ChanID>|
                #[trigger] holds(n.children@[k], q, x) && pattern_matches(q, t.drop_first());
            let q = seq![t[0]] + q1;
            assert(q.drop_first() =~= q1);
            assert(holds(n, q, x) && pattern_matches(q, t));
        }
    }
}

/// Append the IDs of `subs` that `out` does not hold yet.
fn add_all(out: &mut Vec<String>, subs: &Vec<String>)
    requires
        unique_subs(old(out)@),
    ensures
        unique_subs(final(out)@),
        forall|x: Seq<char>|
            #![trigger in_subs(final(out)@, x)]
            in_subs(final(out)@, x) == (in_subs(old(out)@, x) || in_subs(subs@, x)),
{
    let ghost o0 = out@;
    let mut k: usize = 0;
    while k < subs.len()
        invariant
            k <= subs@.len(),
            unique_subs(out@),
            forall|x: Seq<char>|
                #![trigger in_subs(out@, x)]
                in_subs(out@, x) == (in_subs(o0, x) || in_subs(subs@.subrange(0, k as int), x)),
        decreases subs@.len() - k,
    {
        let ghost before = out@;
        let ghost sk = subs@[k as int];
        if find_sub(out, &subs[k]).is_none() {
            out.push(subs[k].clone());
            proof {
                assert forall|a: int, b: int|
                    0 <= a < out@.len() && 0 <= b < out@.len() && a != b implies (
                    #[trigger] out@[a])@ != (#[trigger] out@[b])@ by {
                    if a < before.len() && b < before.len() {
                        assert(before[a] == out@[a] && before[b] == out@[b]);
                    } else if a < before.len() {
                        assert(before[a] == out@[a]);
                    } else {
                        assert(before[b] == out@[b]);
                    }
                }
            }
        }
        proof {
            let s0 = subs@.subrange(0, k as int);
            let s1 = subs@.subrange(0, k + 1);
            assert forall|x: Seq<char>| #[trigger]
                in_subs(out@, x) == (in_subs(o0, x) || in_subs(s1, x)) by {
                if in_subs(s1, x) {
                    let a = choose|a: int| 0 <= a < s1.len() && (#[trigger] s1[a])@ == x;
                    if a < k {
                        assert(s0[a] == s1[a]);
                    }
                }
                if in_subs(s0, x) {
                    let a = choose|a: int| 0 <= a < s0.len() && (#[trigger] s0[a])@ == x;
                    assert(s0[a] == s1[a]);
                }
                if in_subs(out@, x) {
                    let a = choose|a: int| 0 <= a < out@.len() && (#[trigger] out@[a])@ == x;
                    if a < before.len() {
                        assert(before[a] == out@[a]);
                    } else {
                        assert(s1[k as int] == sk);
                    }
                }
                if in_subs(before, x) {
                    let a = choose|a: int| 0 <= a < before.len() && (#[trigger] before[a])@ == x;
                    assert(before[a] == out@[a]);
                }
                if x == sk@ {
                    assert(s1[k as int] == sk);
                    if out@.len() > before.len() {
                        assert(out@[before.len() as int]@ == x);
                    }
                }
            }
        }
        k = k + 1;
    }
    proof {
        assert(subs@.subrange(0, k as int) =~= subs@);
    }
}

/// Two non-empty paths with the same first channel are equal exactly when
/// their rests are.
proof fn lemma_same_head(q: Seq<ChanID>, suffix: Seq<ChanID>)
    requires
        q.len() > 0,
        suffix.len() > 0,
        q[0] == suffix[0],
    ensures
        (q == suffix) <==> (q.drop_first() == suffix.drop_first()),
{
    if q.drop_first() == suffix.drop_first() {
        assert(q.len() == q.drop_first().len() + 1 && suffix.len() == suffix.drop_first().len() + 1);
        assert forall|a: int| 0 <= a < q.len() implies q[a] == suffix[a] by {
            if a > 0 {
                assert(q[a] == q.drop_first()[a - 1]);
                assert(suffix[a] == suffix.drop_first()[a - 1]);
            }
        }
        assert(q =~= suffix);
    }
}

/// The index of the child on channel `c`, if there is one.
fn find_child(children: &Vec<Node>, c: ChanID) -> (r: Option<usize>)
    ensures
        r matches Some(j) ==> j < children@.len() && children@[j as int].chan_id == c,
        r is None ==> forall|k: int|
            0 <= k < children@.len() ==> (#[trigger] children@[k]).chan_id != c,
{
    let mut k: usize = 0;
    while k < children.len()
        invariant
            k <= children@.len(),
            forall|a: int| 0 <= a < k ==> (#[trigger] children@[a]).chan_id != c,
        decreases children@.len() - k,
    {
        if children[k].chan_id == c {
            return Some(k);
        }
        k = k + 1;
    }
    None
}

/// The index of subscriber `id`, if the list holds it.
fn find_sub(subs: &Vec<String>, id: &String) -> (r: Option<usize>)
    ensures
        r matches Some(j) ==> j < subs@.len() && subs@[j as int]@ == id@,
        r is None ==> !in_subs(subs@, id@),
{
    let mut k: usize = 0;
    while k < subs.len()
        invariant
            k <= subs@.len(),
            forall|a: int| 0 <= a < k ==> (#[trigger] subs@[a])@ != id@,
        decreases subs@.len() - k,
    {
        if subs[k] == *id {
            return Some(k);
        }
        k = k + 1;
    }
    None
}

impl Node {
    fn leaf(chan_id: ChanID) -> (r: Node)
        ensures
            r.chan_id == chan_id,
            r.subs@.len() == 0,
            r.children@.len() == 0,
            node_wf(r),
    {
        Node { chan_id, children: Vec::new(), subs: Vec::new() }
    }

    /// Add subscriber `id` under the rest of `ssid`, from position `i` on.
    fn subscribe_at(&mut self, ssid: &Vec<ChanID>, i: usize, id: String)
        requires
            node_wf(*old(self)),
            i <= ssid@.len(),
        ensures
            node_wf(*final(self)),
            nonempty(*final(self)),
            final(self).chan_id == old(self).chan_id,
            forall|q: Seq<ChanID>, x: Seq<char>|
                #![trigger holds(*final(self), q, x)]
                holds(*final(self), q, x) == (holds(*old(self), q, x) || (q == ssid@.subrange(
                    i as int,
                    ssid@.len() as int,
                ) && x == id@)),
        decreases ssid@.len() - i,
    {
        let ghost pre = *self;
        let ghost suffix = ssid@.subrange(i as int, ssid@.len() as int);
        if i == ssid.len() {
            let ghost idv = id@;
            let ghost ids = id;
            match find_sub(&self.subs, &id) {
                Some(_) => {},
                None => {
                    self.subs.push(id);
                },
            }
            proof {
                assert(suffix =~= Seq::<ChanID>::empty());
                assert(self.subs@ == pre.subs@ && in_subs(pre.subs@, idv) || self.subs@
                    == pre.subs@.push(ids) && !in_subs(pre.subs@, idv));
                assert forall|a: int, b: int|
                    0 <= a < self.subs@.len() && 0 <= b < self.subs@.len() && a != b implies (
                    #[trigger] self.subs@[a])@ != (#[trigger] self.subs@[b])@ by {
                    if a < pre.subs@.len() && b < pre.subs@.len() {
                        assert(pre.subs@[a] == self.subs@[a] && pre.subs@[b] == self.subs@[b]);
                    } else if a < pre.subs@.len() {
                        assert(pre.subs@[a] == self.subs@[a]);
                    } else {
                        assert(pre.subs@[b] == self.subs@[b]);
                    }
                }
                assert(self.children@ == pre.children@);
                assert forall|q: Seq<ChanID>, x: Seq<char>| #[trigger]
                    holds(*self, q, x) == (holds(pre, q, x) || (q == suffix && x == idv)) by {
                    if q.len() == 0 {
                        assert(q =~= suffix);
                        if in_subs(self.subs@, x) && x != idv {
                            let k = choose|k: int|
                                0 <= k < self.subs@.len() && (#[trigger] self.subs@[k])@ == x;
                            assert(pre.subs@[k] == self.subs@[k]);
                        }
                        if in_subs(pre.subs@, x) {
                            let k = choose|k: int|
                                0 <= k < pre.subs@.len() && (#[trigger] pre.subs@[k])@ == x;
                            assert(pre.subs@[k] == self.subs@[k]);
                        }
                        if x == idv && !in_subs(pre.subs@, x) {
                            assert(self.subs@[self.subs@.len() - 1]@ == x);
                        }
                    }
                }
                if !in_subs(pre.subs@, idv) {
                    assert(self.subs@[self.subs@.len() - 1]@ == idv);
                }
                assert(suffix.len() == 0);
            }
        } else {
            let c = ssid[i];
            let j = match find_child(&self.children, c) {
                Some(j) => j,
                None => {
                    let leaf = Node::leaf(c);
                    self.children.push(leaf);
                    proof {
                        assert forall|q: Seq<ChanID>, x: Seq<char>| #[trigger]
                            holds(*self, q, x) == holds(pre, q, x) by {
                            if q.len() > 0 {
                                if holds(*self, q, x) {
                                    let k = choose|k: int|
                                        0 <= k < self.children@.len() && (#[trigger] self.children@[k]).chan_id == q[0]
                                            && holds(self.children@[k], q.drop_first(), x);
                                    if k == self.children@.len() - 1 {
                                        assert(!holds(self.children@[k], q.drop_first(), x));
                                    } else {
                                        assert(pre.children@[k] == self.children@[k]);
                                    }
                                }
                                if holds(pre, q, x) {
                                    let k = choose|k: int|
                                        0 <= k < pre.children@.len() && (#[trigger] pre.children@[k]).chan_id == q[0]
                                            && holds(pre.children@[k], q.drop_first(), x);
                                    assert(pre.children@[k] == self.children@[k]);
                                }
                            }
                        }
                        assert forall|a: int, b: int|
                            0 <= a < self.children@.len() && 0 <= b < self.children@.len() && a
                                != b implies (#[trigger] self.children@[a]).chan_id != (
                            #[trigger] self.children@[b]).chan_id by {
                            if a < pre.children@.len() && b < pre.children@.len() {
                                assert(pre.children@[a] == self.children@[a]);
                                assert(pre.children@[b] == self.children@[b]);
                            } else if a < pre.children@.len() {
                                assert(pre.children@[a] == self.children@[a]);
                            } else {
                                assert(pre.children@[b] == self.children@[b]);
                            }
                        }
                    }
                    self.children.len() - 1
                },
            };
            let ghost mid = *self;
            proof {
                assert(forall|k: int|
                    0 <= k < mid.children@.len() && k != j ==> nonempty(
                        #[trigger] mid.children@[k],
                    ) && node_wf(mid.children@[k])) by {
                    assert forall|k: int|
                        0 <= k < mid.children@.len() && k != j implies nonempty(
                        #[trigger] mid.children@[k],
                    ) && node_wf(mid.children@[k]) by {
                        if k < pre.children@.len() {
                            assert(pre.children@[k] == mid.children@[k]);
                        }
                    }
                }
                if j < pre.children@.len() {
                    assert(pre.children@[j as int] == mid.children@[j as int]);
                }
            }
            let mut child = self.children.remove(j);
            child.subscribe_at(ssid, i + 1, id);
            self.children.insert(j, child);
            proof {
                assert forall|k: int|
                    0 <= k < mid.children@.len() && k != j implies self.children@[k]
                    == mid.children@[k] by {}
                assert(self.children@[j as int] == child);
                assert forall|q: Seq<ChanID>, x: Seq<char>| #[trigger]
                    holds(*self, q, x) == (holds(pre, q, x) || (q == suffix && x == id@)) by {
                    lemma_holds_update(mid, *self, j as int, q, x);
                    if q.len() > 0 && q[0] == c {
                        lemma_holds_child(mid, j as int, q, x);
                        assert(suffix[0] == c);
                        assert(suffix.drop_first() =~= ssid@.subrange(i + 1, ssid@.len() as int));
                        lemma_same_head(q, suffix);
                    }
                    if q.len() > 0 && q[0] != c {
                        assert(q != suffix);
                    }
                    if q.len() == 0 {
                        assert(q != suffix);
                    }
                }
                assert forall|k: int| 0 <= k < self.children@.len() implies nonempty(
                    #[trigger] self.children@[k],
                ) && node_wf(self.children@[k]) by {
                    if k != j {
                        assert(self.children@[k] == mid.children@[k]);
                    }
                }
            }
        }
    }

    /// Remove subscriber `id` under the rest of `ssid`, from position `i` on,
    /// and drop every node that this leaves empty.
    fn unsubscribe_at(&mut self, ssid: &Vec<ChanID>, i: usize, id: &String) -> (r: Result<
        (),
        SubscribeError,
    >)
        requires
            node_wf(*old(self)),
            i <= ssid@.len(),
        ensures
            node_wf(*final(self)),
            final(self).chan_id == old(self).chan_id,
            (r == Err::<(), SubscribeError>(SubscribeError::SSIDNotFound)) == !has_path(
                *old(self),
                ssid@.subrange(i as int, ssid@.len() as int),
            ),
            (r == Err::<(), SubscribeError>(SubscribeError::SubscriberNotFound)) == (has_path(
                *old(self),
                ssid@.subrange(i as int, ssid@.len() as int),
            ) && !holds(*old(self), ssid@.subrange(i as int, ssid@.len() as int), id@)),
            forall|q: Seq<ChanID>, x: Seq<char>|
                #![trigger holds(*final(self), q, x)]
                holds(*final(self), q, x) == (holds(*old(self), q, x) && !(r is Ok && q
                    == ssid@.subrange(i as int, ssid@.len() as int) && x == id@)),
        decreases ssid@.len() - i,
    {
        let ghost pre = *self;
        let ghost suffix = ssid@.subrange(i as int, ssid@.len() as int);
        if i == ssid.len() {
            proof {
                assert(suffix =~= Seq::<ChanID>::empty());
            }
            match find_sub(&self.subs, id) {
                None => Err(SubscribeError::SubscriberNotFound),
                Some(k) => {
                    self.subs.remove(k);
                    proof {
                        assert(self.children@ == pre.children@);
                        assert forall|a: int, b: int|
                            0 <= a < self.subs@.len() && 0 <= b < self.subs@.len() && a
                                != b implies (#[trigger] self.subs@[a])@ != (
                            #[trigger] self.subs@[b])@ by {
                            let a1 = if a < k { a } else { a + 1 };
                            let b1 = if b < k { b } else { b + 1 };
                            assert(self.subs@[a] == pre.subs@[a1]);
                            assert(self.subs@[b] == pre.subs@[b1]);
                        }
                        assert(in_subs(pre.subs@, id@));
                        assert forall|q: Seq<ChanID>, x: Seq<char>| #[trigger]
                            holds(*self, q, x) == (holds(pre, q, x) && !(q == suffix && x
                                == id@)) by {
                            if q.len() == 0 {
                                assert(q =~= suffix);
                                if in_subs(self.subs@, x) {
                                    let a = choose|a: int|
                                        0 <= a < self.subs@.len() && (#[trigger] self.subs@[a])@
                                            == x;
                                    let a1 = if a < k { a } else { a + 1 };
                                    assert(self.subs@[a] == pre.subs@[a1]);
                                    assert(a1 != k);
                                }
                                if in_subs(pre.subs@, x) && x != id@ {
                                    let a1 = choose|a: int|
                                        0 <= a < pre.subs@.len() && (#[trigger] pre.subs@[a])@
                                            == x;
                                    assert(a1 != k);
                                    let a = if a1 < k { a1 } else { a1 - 1 };
                                    assert(self.subs@[a] == pre.subs@[a1]);
                                }
                            } else {
                                assert(q != suffix);
                            }
                        }
                    }
                    Ok(())
                },
            }
        } else {
            let c = ssid[i];
            proof {
                assert(suffix[0] == c);
                assert(suffix.drop_first() =~= ssid@.subrange(i + 1, ssid@.len() as int));
            }
            match find_child(&self.children, c) {
                None => {
                    proof {
                        lemma_holds_no_child(pre, suffix, id@);
                    }
                    Err(SubscribeError::SSIDNotFound)
                },
                Some(j) => {
                    proof {
                        lemma_holds_child(pre, j as int, suffix, id@);
                    }
                    let mut child = self.children.remove(j);
                    let r = child.unsubscribe_at(ssid, i + 1, id);
                    if child.subs.len() == 0 && child.children.len() == 0 {
                        proof {
                            assert forall|q: Seq<ChanID>, x: Seq<char>| #[trigger]
                                holds(*self, q, x) == (holds(pre, q, x) && !(r is Ok && q
                                    == suffix && x == id@)) by {
                                lemma_holds_remove(pre, *self, j as int, q, x);
                                if q.len() > 0 && q[0] == c {
                                    lemma_holds_child(pre, j as int, q, x);
                                    assert(!holds(child, q.drop_first(), x));
                                    lemma_same_head(q, suffix);
                                } else {
                                    assert(q != suffix);
                                }
                            }
                            assert forall|k: int| 0 <= k < self.children@.len() implies nonempty(
                                #[trigger] self.children@[k],
                            ) && node_wf(self.children@[k]) by {
                                let k1 = if k < j { k } else { k + 1 };
                                assert(self.children@[k] == pre.children@[k1]);
                            }
                        }
                    } else {
                        self.children.insert(j, child);
                        proof {
                            assert forall|k: int|
                                0 <= k < pre.children@.len() && k != j implies self.children@[k]
                                == pre.children@[k] by {}
                            assert(self.children@[j as int] == child);
                            assert forall|q: Seq<ChanID>, x: Seq<char>| #[trigger]
                                holds(*self, q, x) == (holds(pre, q, x) && !(r is Ok && q
                                    == suffix && x == id@)) by {
                                lemma_holds_update(pre, *self, j as int, q, x);
                                if q.len() > 0 && q[0] == c {
                                    lemma_holds_child(pre, j as int, q, x);
                                    lemma_same_head(q, suffix);
                                } else {
                                    assert(q != suffix);
                                }
                            }
                            assert forall|k: int| 0 <= k < self.children@.len() implies nonempty(
                                #[trigger] self.children@[k],
                            ) && node_wf(self.children@[k]) by {
                                if k != j {
                                    assert(self.children@[k] == pre.children@[k]);
                                }
                            }
                        }
                    }
                    r
                },
            }
        }
    }

    /// Collect, into `out`, every subscriber under this node whose pattern
    /// matches the rest of `ssid` from position `i` on.
    fn do_lookup(&self, ssid: &Vec<ChanID>, i: usize, sw: ChanID, mw: ChanID, out: &mut Vec<String>)
        requires
            node_wf(*self),
            i <= ssid@.len(),
            sw == single_wildcard_id(),
            mw == multi_wildcard_id(),
            unique_subs(old(out)@),
        ensures
            unique_subs(final(out)@),
            forall|x: Seq<char>|
                #![trigger in_subs(final(out)@, x)]
                in_subs(final(out)@, x) == (in_subs(old(out)@, x) || matched_by(
                    *self,
                    ssid@.subrange(i as int, ssid@.len() as int),
                    x,
                )),
        decreases ssid@.len() - i,
    {
        let ghost t = ssid@.subrange(i as int, ssid@.len() as int);
        let ghost o0 = out@;
        if i == ssid.len() {
            add_all(out, &self.subs);
        }
        let ghost o1 = out@;
        match find_child(&self.children, mw) {
            Some(j) => {
                add_all(out, &self.children[j].subs);
            },
            None => {},
        }
        let ghost o2 = out@;
        proof {
            assert forall|x: Seq<char>| #[trigger]
                in_subs(o2, x) == (in_subs(o1, x) || child_subs(*self, mw, x)) by {
                if child_subs(*self, mw, x) {
                    let k = choose|k: int|
                        0 <= k < self.children@.len() && (#[trigger] self.children@[k]).chan_id
                            == mw && in_subs(self.children@[k].subs@, x);
                }
            }
        }
        if i < ssid.len() {
            let c = ssid[i];
            proof {
                assert(t[0] == c);
                assert(t.drop_first() =~= ssid@.subrange(i + 1, ssid@.len() as int));
            }
            match find_child(&self.children, sw) {
                Some(j) => {
                    self.children[j].do_lookup(ssid, i + 1, sw, mw, out);
                },
                None => {},
            }
            let ghost o3 = out@;
            proof {
                assert forall|x: Seq<char>| #[trigger]
                    in_subs(o3, x) == (in_subs(o2, x) || child_matched(
                        *self,
                        sw,
                        t.drop_first(),
                        x,
                    )) by {
                    if child_matched(*self, sw, t.drop_first(), x) {
                        let k = choose|k: int|
                            0 <= k < self.children@.len() && (#[trigger] self.children@[k]).chan_id
                                == sw && matched_by(self.children@[k], t.drop_first(), x);
                    }
                }
            }
            match find_child(&self.children, c) {
                Some(j) => {
                    self.children[j].do_lookup(ssid, i + 1, sw, mw, out);
                },
                None => {},
            }
            proof {
                assert forall|x: Seq<char>| #[trigger]
                    in_subs(out@, x) == (in_subs(o3, x) || child_matched(
                        *self,
                        c,
                        t.drop_first(),
                        x,
                    )) by {
                    if child_matched(*self, c, t.drop_first(), x) {
                        let k = choose|k: int|
                            0 <= k < self.children@.len() && (#[trigger] self.children@[k]).chan_id
                                == c && matched_by(self.children@[k], t.drop_first(), x);
                    }
                }
            }
        }
        proof {
            assert forall|x: Seq<char>| #[trigger]
                in_subs(out@, x) == (in_subs(o0, x) || matched_by(*self, t, x)) by {
                lemma_matched_split(*self, t, x);
            }
        }
    }
}

/// The subscriber IDs of a result, as strings.
pub open spec fn id_views(ids: Seq<String>) -> Seq<Seq<char>> {
    ids.map_values(|s: String| s@)
}

/// The subscriber IDs that hold, in the set of subscriptions `subs`, a
/// pattern that matches `topic`.
pub open spec fn matched_ids(subs: Set<(Seq<ChanID>, Seq<char>)>, topic: Seq<ChanID>) -> Set<
    Seq<char>,
> {
    Set::new(
        |x: Seq<char>|
            exists|q: Seq<ChanID>| #[trigger] subs.contains((q, x)) && pattern_matches(q, topic),
    )
}

/// The subscription trie: for every subscription ID, the subscribers on it.
pub struct SubTrie {
    root: Node,
    single: ChanID,
    multi: ChanID,
}

impl View for SubTrie {
    type V = Set<(Seq<ChanID>, Seq<char>)>;

    /// The subscriptions held: pairs of a subscription ID and a subscriber ID.
    closed spec fn view(&self) -> Set<(Seq<ChanID>, Seq<char>)> {
        Set::new(|e: (Seq<ChanID>, Seq<char>)| holds(self.root, e.0, e.1))
    }
}

impl SubTrie {
    /// The nodes are well formed, no node below the root is empty, and the
    /// wildcard IDs are the hashes of `+` and `#`.
    pub closed spec fn wf(&self) -> bool {
        &&& node_wf(self.root)
        &&& self.single == single_wildcard_id()
        &&& self.multi == multi_wildcard_id()
    }

    /// An empty trie.
    pub fn new() -> (r: Self)
        ensures
            r.wf(),
            r@ == Set::<(Seq<ChanID>, Seq<char>)>::empty(),
    {
        proof {
            reveal_strlit("+");
            reveal_strlit("#");
            assert("+"@ =~= seq!['+']);
            assert("#"@ =~= seq!['#']);
        }
        let single = hash_str("+");
        let multi = hash_str("#");
        let r = SubTrie { root: Node::leaf(0), single, multi };
        proof {
            assert(r@ =~= Set::<(Seq<ChanID>, Seq<char>)>::empty());
        }
        r
    }

    /// Subscribe `subscriber_id` to `ssid`. Subscribing twice is the same
    /// as subscribing once.
    pub fn subscribe(&mut self, ssid: &Vec<ChanID>, subscriber_id: String) -> (r: Result<
        (),
        SubscribeError,
    >)
        requires
            old(self).wf(),
        ensures
            final(self).wf(),
            r is Ok,
            final(self)@ == old(self)@.insert((ssid@, subscriber_id@)),
    {
        let ghost e = (ssid@, subscriber_id@);
        self.root.subscribe_at(ssid, 0, subscriber_id);
        proof {
            assert(ssid@.subrange(0, ssid@.len() as int) =~= ssid@);
            assert(self@ =~= old(self)@.insert(e));
        }
        Ok(())
    }

    /// Unsubscribe `subscriber_id` from `ssid`, then drop every node that
    /// this leaves without subscribers and without children.
    pub fn unsubscribe(&mut self, ssid: &Vec<ChanID>, subscriber_id: &String) -> (r: Result<
        (),
        SubscribeError,
    >)
        requires
            old(self).wf(),
        ensures
            final(self).wf(),
            (r == Err::<(), SubscribeError>(SubscribeError::SSIDNotFound)) == !path_exists(
                old(self)@,
                ssid@,
            ),
            (r == Err::<(), SubscribeError>(SubscribeError::SubscriberNotFound)) == (path_exists(
                old(self)@,
                ssid@,
            ) && !old(self)@.contains((ssid@, subscriber_id@))),
            r is Ok <==> old(self)@.contains((ssid@, subscriber_id@)),
            r is Ok ==> final(self)@ == old(self)@.remove((ssid@, subscriber_id@)),
            r is Err ==> final(self)@ == old(self)@,
    {
        let ghost e = (ssid@, subscriber_id@);
        let ghost pre = self.root;
        proof {
            lemma_path_prefix(pre, ssid@);
            assert(ssid@.subrange(0, ssid@.len() as int) =~= ssid@);
            if ssid@.len() > 0 {
                if has_path(pre, ssid@) {
                    let (q, x) = choose|q: Seq<ChanID>, x: Seq<char>|
                        #![trigger holds(pre, q, x)]
                        holds(pre, q, x) && ssid@.len() <= q.len() && q.subrange(
                            0,
                            ssid@.len() as int,
                        ) == ssid@;
                    assert(old(self)@.contains((q, x)));
                }
                if path_exists(old(self)@, ssid@) {
                    let e2 = choose|e2: (Seq<ChanID>, Seq<char>)|
                        #![trigger old(self)@.contains(e2)]
                        old(self)@.contains(e2) && ssid@.len() <= e2.0.len() && e2.0.subrange(
                            0,
                            ssid@.len() as int,
                        ) == ssid@;
                    assert(holds(pre, e2.0, e2.1));
                }
            }
        }
        let r = self.root.unsubscribe_at(ssid, 0, subscriber_id);
        proof {
            if old(self)@.contains(e) {
                assert(path_exists(old(self)@, ssid@));
                assert(r is Ok) by {
                    if let Err(er) = r {
                        match er {
                            SubscribeError::SSIDNotFound => {},
                            SubscribeError::SubscriberNotFound => {},
                        }
                    }
                }
            }
            if r is Ok {
                assert(self@ =~= old(self)@.remove(e));
            } else {
                assert(self@ =~= old(self)@);
            }
        }
        r
    }

    /// The IDs of the subscribers whose pattern matches `ssid`, each once.
    pub fn lookup(&self, ssid: &Vec<ChanID>) -> (r: Result<Vec<String>, SubscribeError>)
        requires
            self.wf(),
        ensures
            r matches Ok(ids) && id_views(ids@).no_duplicates() && id_views(ids@).to_set()
                == matched_ids(self@, ssid@),
    {
        let mut out: Vec<String> = Vec::new();
        self.root.do_lookup(ssid, 0, self.single, self.multi, &mut out);
        proof {
            assert(ssid@.subrange(0, ssid@.len() as int) =~= ssid@);
            let v = id_views(out@);
            assert forall|a: int, b: int| 0 <= a < v.len() && 0 <= b < v.len() && a != b implies v[a]
                != v[b] by {
                assert(out@[a]@ != out@[b]@);
            }
            assert forall|x: Seq<char>| #[trigger] v.to_set().contains(x) == matched_ids(
                self@,
                ssid@,
            ).contains(x) by {
                if v.contains(x) {
                    let a = choose|a: int| 0 <= a < v.len() && v[a] == x;
                    assert(out@[a]@ == x);
                }
                if in_subs(out@, x) {
                    let a = choose|a: int| 0 <= a < out@.len() && (#[trigger] out@[a])@ == x;
                    assert(v[a] == x);
                }
                if matched_by(self.root, ssid@, x) {
                    let q = choose|q: Seq<ChanID>| #[trigger]
                        holds(self.root, q, x) && pattern_matches(q, ssid@);
                    assert(self@.contains((q, x)));
                }
                if matched_ids(self@, ssid@).contains(x) {
                    let q = choose|q: Seq<ChanID>| #[trigger]
                        self@.contains((q, x)) && pattern_matches(q, ssid@);
                    assert(holds(self.root, q, x));
                }
            }
            assert(v.to_set() =~= matched_ids(self@, ssid@));
        }
        Ok(out)
    }

    /// Whether the trie holds no subscription; when it holds none, the
    /// root is the only node left.
    pub fn is_empty(&self) -> (r: bool)
        requires
            self.wf(),
        ensures
            r == (self@ == Set::<(Seq<ChanID>, Seq<char>)>::empty()),
            r ==> self.root_only(),
    {
        let r = self.root.subs.len() == 0 && self.root.children.len() == 0;
        proof {
            if r {
                assert forall|e: (Seq<ChanID>, Seq<char>)| !self@.contains(e) by {
                    assert(!holds(self.root, e.0, e.1));
                }
                assert(self@ =~= Set::<(Seq<ChanID>, Seq<char>)>::empty());
            } else {
                let e = lemma_nonempty_holds(self.root);
                assert(self@.contains(e));
            }
        }
        r
    }

    /// The root holds no subscriber and has no child.
    pub closed spec fn root_only(&self) -> bool {
        self.root.subs@.len() == 0 && self.root.children@.len() == 0
    }
}

/// MQTT filter matching on segments: a filter that is exactly `#` matches
/// every topic, `+` matches any one segment, and any other segment matches
/// only itself.
pub open spec fn filter_matches(filter: Seq<Seq<char>>, topic: Seq<Seq<char>>) -> bool
    decreases topic.len(),
{
    if filter == seq![seq!['#']] {
        true
    } else if topic.len() == 0 {
        filter.len() == 0
    } else {
        &&& filter.len() > 0
        &&& (filter[0] == seq!['+'] || filter[0] == topic[0])
        &&& filter_matches(filter.drop_first(), topic.drop_first())
    }
}

/// A filter that matches a topic by its segments also matches it by their
/// channel IDs, so a lookup of the topic reaches every subscriber of the
/// filter.
pub proof fn law_filter_match_reaches_lookup(filter: Seq<Seq<char>>, topic: Seq<Seq<char>>)
    requires
        filter_matches(filter, topic),
    ensures
        pattern_matches(ssid_of(filter), ssid_of(topic)),
    decreases topic.len(),
{
    let f = ssid_of(filter);
    let t = ssid_of(topic);
    if filter == seq![seq!['#']] {
        assert(f =~= seq![multi_wildcard_id()]);
    } else if topic.len() == 0 {
        assert(f.len() == 0 && t.len() == 0);
    } else if f != seq![multi_wildcard_id()] {
        law_filter_match_reaches_lookup(filter.drop_first(), topic.drop_first());
        assert(f.drop_first() =~= ssid_of(filter.drop_first()));
        assert(t.drop_first() =~= ssid_of(topic.drop_first()));
    }
}

/// Subscribing and then unsubscribing the same subscriber on an empty trie
/// leaves the trie empty again, down to the root alone.
pub proof fn law_subscribe_unsubscribe_restores(
    t0: SubTrie,
    t1: SubTrie,
    t2: SubTrie,
    ssid: Seq<ChanID>,
    id: Seq<char>,
)
    requires
        t0@ == Set::<(Seq<ChanID>, Seq<char>)>::empty(),
        t1@ == t0@.insert((ssid, id)),
        t2@ == t1@.remove((ssid, id)),
    ensures
        t2@ == Set::<(Seq<ChanID>, Seq<char>)>::empty(),
{
    assert(t2@ =~= Set::<(Seq<ChanID>, Seq<char>)>::empty());
}

/// An empty well-formed trie is the root alone: no orphan node survives.
pub proof fn law_empty_is_root_only(t: SubTrie)
    requires
        t.wf(),
        t@ == Set::<(Seq<ChanID>, Seq<char>)>::empty(),
    ensures
        t.root_only(),
{
    if !t.root_only() {
        let e = lemma_nonempty_holds(t.root);
        assert(t@.contains(e));
    }
}

/// Subscribing the same subscriber to the same ID twice gives the same
/// subscriptions, hence the same lookups, as subscribing once.
pub proof fn law_subscribe_idempotent(
    t0: SubTrie,
    t1: SubTrie,
    t2: SubTrie,
    ssid: Seq<ChanID>,
    id: Seq<char>,
)
    requires
        t1@ == t0@.insert((ssid, id)),
        t2@ == t1@.insert((ssid, id)),
    ensures
        t2@ == t1@,
        forall|topic: Seq<ChanID>| matched_ids(t2@, topic) == matched_ids(t1@, topic),
{
    assert(t2@ =~= t1@);
}

/// On a trie that holds one subscription, a lookup finds its subscriber
/// exactly when the pattern matches the topic.
pub proof fn law_single_subscription_lookup(
    t: SubTrie,
    ssid: Seq<ChanID>,
    id: Seq<char>,
    topic: Seq<ChanID>,
)
    requires
        t@ == Set::<(Seq<ChanID>, Seq<char>)>::empty().insert((ssid, id)),
    ensures
        matched_ids(t@, topic).contains(id) == pattern_matches(ssid, topic),
        forall|x: Seq<char>| x != id ==> !(#[trigger] matched_ids(t@, topic).contains(x)),
{
    if pattern_matches(ssid, topic) {
        assert(t@.contains((ssid, id)));
    }
    if matched_ids(t@, topic).contains(id) {
        let q = choose|q: Seq<ChanID>| #[trigger] t@.contains((q, id)) && pattern_matches(q, topic);
        assert(q == ssid);
    }
}

} // verus!
