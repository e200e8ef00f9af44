use crate::hash::{chan_hash, hash_str, ChanID};
use vstd::prelude::*;
use vstd::string::StrSliceExecFns;

verus! {

/// A character allowed in a channel name: `[A-Za-z0-9_-]`.
pub open spec fn is_ident_char(c: char) -> bool {
    ('a' <= c && c <= 'z') || ('A' <= c && c <= 'Z') || ('0' <= c && c <= '9') || c == '_'
        || c == '-'
}

/// A concrete channel name: one or more identifier characters.
pub open spec fn is_ident(seg: Seq<char>) -> bool {
    seg.len() > 0 && forall|i: int| 0 <= i < seg.len() ==> is_ident_char(#[trigger] seg[i])
}

/// The single-level wildcard segment `+`.
pub open spec fn is_single(seg: Seq<char>) -> bool {
    seg == seq!['+']
}

/// The multi-level wildcard segment `#`.
pub open spec fn is_multi(seg: Seq<char>) -> bool {
    seg == seq!['#']
}

/// A segment that the scanner turns into a token.
pub open spec fn is_token(seg: Seq<char>) -> bool {
    is_ident(seg) || is_single(seg) || is_multi(seg)
}

/// The segments of a topic string, split on every `/` (never empty: the
/// empty string is one empty segment).
pub open spec fn split_topic(s: Seq<char>) -> Seq<Seq<char>>
    decreases s.len(),
{
    if s.len() == 0 {
        seq![Seq::empty()]
    } else {
        let init = split_topic(s.drop_last());
        if s.last() == '/' {
            init.push(Seq::empty())
        } else {
            init.update(init.len() - 1, init.last().push(s.last()))
        }
    }
}

/// Every segment is a name or a wildcard.
pub open spec fn all_tokens(segs: Seq<Seq<char>>) -> bool {
    forall|i: int| 0 <= i < segs.len() ==> is_token(#[trigger] segs[i])
}

/// No `#` among the first `n` segments.
pub open spec fn no_multi_before(segs: Seq<Seq<char>>, n: int) -> bool {
    forall|i: int| 0 <= i < n ==> !is_multi(#[trigger] segs[i])
}

/// The subscription grammar over segments:
/// `topic := '#' | channel ('/' '#')?`, where a channel is a run of names and
/// `+` that ends with a name.
pub open spec fn valid_subscription(segs: Seq<Seq<char>>) -> bool {
    &&& forall|i: int| 0 <= i < segs.len() ==> is_token(#[trigger] segs[i])
    &&& {
        ||| segs.len() == 1 && is_multi(segs[0])
        ||| segs.len() >= 1 && no_multi_before(segs, segs.len() - 1) && is_ident(segs.last())
        ||| segs.len() >= 2 && no_multi_before(segs, segs.len() - 1) && is_multi(segs.last())
            && is_ident(segs[segs.len() - 2])
    }
}

/// The publish grammar over segments: every segment is a channel name.
pub open spec fn valid_publish(segs: Seq<Seq<char>>) -> bool {
    forall|i: int| 0 <= i < segs.len() ==> is_ident(#[trigger] segs[i])
}

/// A subscription topic string that `Topic::new` accepts.
pub open spec fn subscription_accepted(s: Seq<char>) -> bool {
    s.len() > 0 && valid_subscription(split_topic(s))
}

/// A publish topic string that `parse_publish` accepts.
pub open spec fn publish_accepted(s: Seq<char>) -> bool {
    s.len() > 0 && valid_publish(split_topic(s))
}

/// The channel IDs of a list of segments.
pub open spec fn ssid_of(segs: Seq<Seq<char>>) -> Seq<ChanID> {
    segs.map_values(|seg: Seq<char>| chan_hash(seg))
}

proof fn lemma_split_len(s: Seq<char>)
    ensures
        split_topic(s).len() >= 1,
    decreases s.len(),
{
    if s.len() > 0 {
        lemma_split_len(s.drop_last());
    }
}

/// Extending a string keeps every segment of its split but the last one.
proof fn lemma_split_stable(s: Seq<char>, i: int, j: int)
    requires
        0 <= i <= j <= s.len(),
    ensures
        split_topic(s.subrange(0, j)).len() >= split_topic(s.subrange(0, i)).len(),
        forall|k: int|
            0 <= k < split_topic(s.subrange(0, i)).len() - 1 ==> split_topic(s.subrange(0, j))[k]
                == split_topic(s.subrange(0, i))[k],
    decreases j - i,
{
    if j > i {
        lemma_split_stable(s, i, j - 1);
        let t = s.subrange(0, j);
        assert(t.drop_last() =~= s.subrange(0, j - 1));
        lemma_split_len(s.subrange(0, j - 1));
    }
}

/// Node of the subscription topic.
#[derive(Debug)]
enum TopicNode {
    /// A concrete channel name.
    Name(String),
    /// The `+` wildcard, matched between its parent and child topics.
    SingleWildcard,
    /// The `#` wildcard, only at the end of the topic string.
    MultiWildcard,
}

impl TopicNode {
    spec fn text(&self) -> Seq<char> {
        match self {
            TopicNode::Name(s) => s@,
            TopicNode::SingleWildcard => seq!['+'],
            TopicNode::MultiWildcard => seq!['#'],
        }
    }

    spec fn wf(&self) -> bool {
        match self {
            TopicNode::Name(s) => is_ident(s@),
            _ => true,
        }
    }
}

spec fn texts(toks: Seq<TopicNode>) -> Seq<Seq<char>> {
    toks.map_values(|n: TopicNode| n.text())
}

spec fn all_wf(toks: Seq<TopicNode>) -> bool {
    forall|i: int| 0 <= i < toks.len() ==> (#[trigger] toks[i]).wf()
}

/// Whether a segment is a channel name.
fn is_ident_str(seg: &str) -> (r: bool)
    ensures
        r == is_ident(seg@),
{
    let n = seg.unicode_len();
    if n == 0 {
        return false;
    }
    let mut i: usize = 0;
    while i < n
        invariant
            n == seg@.len(),
            i <= n,
            forall|k: int| 0 <= k < i ==> is_ident_char(#[trigger] seg@[k]),
        decreases n - i,
    {
        let c = seg.get_char(i);
        let ok = ('a' <= c && c <= 'z') || ('A' <= c && c <= 'Z') || ('0' <= c && c <= '9')
            || c == '_' || c == '-';
        if !ok {
            return false;
        }
        i = i + 1;
    }
    true
}

/// Turn one segment into a token, or `None` for a segment the grammar rejects.
fn classify(seg: &str) -> (r: Option<TopicNode>)
    ensures
        r is Some <==> is_token(seg@),
        r matches Some(t) ==> t.text() == seg@ && t.wf(),
{
    let n = seg.unicode_len();
    if n == 1 {
        let c = seg.get_char(0);
        if c == '+' {
            assert(seg@ =~= seq!['+']);
            return Some(TopicNode::SingleWildcard);
        }
        if c == '#' {
            assert(seg@ =~= seq!['#']);
            return Some(TopicNode::MultiWildcard);
        }
    }
    if is_ident_str(seg) {
        Some(TopicNode::Name(seg.to_owned()))
    } else {
        proof {
            if n == 1 {
                assert(seg@[0] != '+' && seg@[0] != '#');
            }
        }
        None
    }
}

/// Message for an empty topic string.
pub const ERR_EMPTY: &'static str = "Invalid empty topic";

/// Message for a segment that is neither a name nor a wildcard.
pub const ERR_INVALID_CHARS: &'static str = "Invalid characters in topic";

/// Message for a `+` in the last position.
pub const ERR_TRAILING_SINGLE: &'static str = "Wildcard '+' cannot be placed at the end";

/// Message for a `#` that is not preceded by a channel name.
pub const ERR_MULTI_AFTER_NAME: &'static str = "Wildcard '#' should follow a channel name";

/// Message for a top-level `#` followed by more segments.
pub const ERR_TOPLEVEL_MULTI: &'static str = "Toplevel wildcard '#' should not have trailing channels";

/// Message for a `#` that is not the last segment.
pub const ERR_MULTI_NOT_LAST: &'static str = "Wildcard '#' should be placed at the end";

/// Subscription topic.
///
/// ## Syntax
///
/// ```antlr
/// IDENT : [\-_0-9a-zA-Z]+ ;
///
/// topic : channel ('/' '#')? EOF
///       | '#' EOF
///       ;
///
/// channel : IDENT ('/' channel)?
///         | '+' '/' channel
///         ;
/// ```
pub struct Topic {
    channels: Vec<TopicNode>,
}

impl View for Topic {
    type V = Seq<Seq<char>>;

    /// The segments of the topic, wildcards written as `+` and `#`.
    closed spec fn view(&self) -> Seq<Seq<char>> {
        texts(self.channels@)
    }
}

impl Topic {
    /// Create a new subscription topic from a string.
    pub fn new(topic: &String) -> (r: Result<Self, &'static str>)
        ensures
            r is Ok <==> subscription_accepted(topic@),
            r matches Ok(t) ==> t@ == split_topic(topic@),
            topic@.len() == 0 ==> r == Err::<Topic, &'static str>(ERR_EMPTY),
            topic@.len() > 0 && !all_tokens(split_topic(topic@)) ==> r == Err::<Topic, &'static str>(
                ERR_INVALID_CHARS,
            ),
    {
        if topic.as_str().unicode_len() == 0 {
            return Err(ERR_EMPTY);
        }
        match TopicParser::new(topic) {
            Ok(parser) => {
                proof {
                    lemma_tokens_accepted(parser.tokens@);
                }
                parser.parse()
            },
            Err(e) => Err(e),
        }
    }

    /// The channel IDs of the topic: one hash per segment, `+` and `#`
    /// hashed as those one-character strings.
    pub fn ssid(&self) -> (r: Vec<ChanID>)
        ensures
            r@ == ssid_of(self@),
    {
        let mut out: Vec<ChanID> = Vec::new();
        let mut i: usize = 0;
        while i < self.channels.len()
            invariant
                i <= self.channels@.len(),
                out@ =~= ssid_of(texts(self.channels@.subrange(0, i as int))),
            decreases self.channels@.len() - i,
        {
            let h = match &self.channels[i] {
                TopicNode::Name(name) => hash_str(name.as_str()),
                TopicNode::SingleWildcard => {
                    proof {
                        reveal_strlit("+");
                        assert("+"@ =~= seq!['+']);
                    }
                    hash_str("+")
                },
                TopicNode::MultiWildcard => {
                    proof {
                        reveal_strlit("#");
                        assert("#"@ =~= seq!['#']);
                    }
                    hash_str("#")
                },
            };
            assert(h == chan_hash(self.channels@[i as int].text()));
            out.push(h);
            proof {
                let a = self.channels@.subrange(0, i as int);
                let x = self.channels@[i as int];
                assert(texts(a.push(x)) =~= texts(a).push(x.text()));
                assert(ssid_of(texts(a).push(x.text())) =~= ssid_of(texts(a)).push(
                    chan_hash(x.text()),
                ));
                assert(self.channels@.subrange(0, i + 1) =~= self.channels@.subrange(
                    0,
                    i as int,
                ).push(self.channels@[i as int]));
            }
            i = i + 1;
        }
        proof {
            assert(self.channels@.subrange(0, i as int) =~= self.channels@);
        }
        out
    }
}

/// Message for a wildcard in a publish topic.
pub const ERR_WILDCARD_IN_PUBLISH: &'static str = "Wildcards are not allowed in a publish topic";

/// Parse a subscription topic into its channel IDs.
pub fn parse_subscription(topic: &String) -> (r: Result<Vec<ChanID>, &'static str>)
    ensures
        r is Ok <==> subscription_accepted(topic@),
        r matches Ok(ssid) ==> ssid@ == ssid_of(split_topic(topic@)),
        topic@.len() == 0 ==> r == Err::<Vec<ChanID>, &'static str>(ERR_EMPTY),
        topic@.len() > 0 && !all_tokens(split_topic(topic@)) ==> r == Err::<
            Vec<ChanID>,
            &'static str,
        >(ERR_INVALID_CHARS),
{
    match Topic::new(topic) {
        Ok(t) => Ok(t.ssid()),
        Err(e) => Err(e),
    }
}

/// Parse a publish topic into its channel IDs: every segment must be a
/// channel name.
pub fn parse_publish(topic: &String) -> (r: Result<Vec<ChanID>, &'static str>)
    ensures
        r is Ok <==> publish_accepted(topic@),
        r matches Ok(ssid) ==> ssid@ == ssid_of(split_topic(topic@)),
        topic@.len() == 0 ==> r == Err::<Vec<ChanID>, &'static str>(ERR_EMPTY),
        topic@.len() > 0 && !all_tokens(split_topic(topic@)) ==> r == Err::<
            Vec<ChanID>,
            &'static str,
        >(ERR_INVALID_CHARS),
        topic@.len() > 0 && all_tokens(split_topic(topic@)) && !valid_publish(split_topic(topic@))
            ==> r == Err::<Vec<ChanID>, &'static str>(ERR_WILDCARD_IN_PUBLISH),
{
    if topic.as_str().unicode_len() == 0 {
        return Err(ERR_EMPTY);
    }
    match TopicParser::new(topic) {
        Err(e) => {
            proof {
                let segs = split_topic(topic@);
                if valid_publish(segs) {
                    assert forall|i: int| 0 <= i < segs.len() implies is_token(
                        #[trigger] segs[i],
                    ) by {
                        assert(is_ident(segs[i]));
                    }
                }
            }
            Err(e)
        },
        Ok(parser) => {
            let ghost segs = split_topic(topic@);
            let mut i: usize = 0;
            while i < parser.tokens.len()
                invariant
                    i <= parser.tokens@.len(),
                    texts(parser.tokens@) == segs,
                    segs == split_topic(topic@),
                    all_wf(parser.tokens@),
                    forall|k: int| 0 <= k < i ==> is_ident(#[trigger] segs[k]),
                decreases parser.tokens@.len() - i,
            {
                if !matches!(parser.tokens[i], TopicNode::Name(_)) {
                    proof {
                        assert(!is_ident_char('+') && !is_ident_char('#'));
                        assert(segs[i as int] == parser.tokens@[i as int].text());
                        assert(!is_ident(segs[i as int])) by {
                            assert(segs[i as int][0] == '+' || segs[i as int][0] == '#');
                        }
                    }
                    return Err(ERR_WILDCARD_IN_PUBLISH);
                }
                proof {
                    assert(parser.tokens@[i as int].wf());
                    assert(segs[i as int] == parser.tokens@[i as int].text());
                }
                i = i + 1;
            }
            let t = Topic { channels: parser.tokens };
            Ok(t.ssid())
        },
    }
}

/// Parser for the topic string.
struct TopicParser {
    pos: usize,
    tokens: Vec<TopicNode>,
}

spec fn no_multi_node(toks: Seq<TopicNode>, n: int) -> bool {
    forall|i: int| 0 <= i < n ==> !(#[trigger] toks[i] is MultiWildcard)
}

/// `p` is where a channel that starts at the first token ends: the tokens
/// before it hold no `#` and end with a name, and at `p` the input ends or a
/// `#` stands.
spec fn channel_end(toks: Seq<TopicNode>, p: int) -> bool {
    &&& 1 <= p <= toks.len()
    &&& no_multi_node(toks, p)
    &&& toks[p - 1] is Name
    &&& p < toks.len() ==> toks[p] is MultiWildcard
}

/// The subscription grammar over tokens.
spec fn tokens_accepted(toks: Seq<TopicNode>) -> bool {
    ||| toks.len() == 1 && toks[0] is MultiWildcard
    ||| toks.len() >= 1 && no_multi_node(toks, toks.len() - 1) && toks.last() is Name
    ||| toks.len() >= 2 && no_multi_node(toks, toks.len() - 1) && toks.last() is MultiWildcard
        && toks[toks.len() - 2] is Name
}

proof fn lemma_tokens_accepted(toks: Seq<TopicNode>)
    requires
        all_wf(toks),
    ensures
        tokens_accepted(toks) == valid_subscription(texts(toks)),
        (forall|i: int| 0 <= i < toks.len() ==> is_token(#[trigger] texts(toks)[i])),
{
    let ts = texts(toks);
    assert(!is_ident_char('+') && !is_ident_char('#'));
    assert forall|i: int| 0 <= i < toks.len() implies {
        &&& is_token(#[trigger] ts[i])
        &&& (is_ident(ts[i]) <==> toks[i] is Name)
        &&& (is_multi(ts[i]) <==> toks[i] is MultiWildcard)
    } by {
        assert(toks[i].wf());
        if toks[i] is SingleWildcard {
            assert(ts[i][0] == '+');
            assert(seq!['+'] != seq!['#']) by {
                assert(seq!['+'][0] != seq!['#'][0]);
            }
        } else if toks[i] is MultiWildcard {
            assert(ts[i][0] == '#');
        } else {
            assert(ts[i][0] != '#');
        }
    }
    if toks.len() >= 1 {
        let n = toks.len() - 1;
        if no_multi_node(toks, n) {
            assert forall|i: int| 0 <= i < n implies !is_multi(#[trigger] ts[i]) by {
                assert(!(toks[i] is MultiWildcard));
            }
        }
        if no_multi_before(ts, n) {
            assert forall|i: int| 0 <= i < n implies !(#[trigger] toks[i] is MultiWildcard) by {
                assert(!is_multi(ts[i]));
            }
        }
    }
}

impl TopicParser {
    spec fn wf(&self) -> bool {
        self.pos <= self.tokens@.len()
    }

    /// Create a new topic string parser.
    fn new(topic: &String) -> (r: Result<Self, &'static str>)
        ensures
            r is Ok <==> (forall|i: int|
                0 <= i < split_topic(topic@).len() ==> is_token(#[trigger] split_topic(topic@)[i])),
            r matches Ok(p) ==> p.pos == 0 && texts(p.tokens@) == split_topic(topic@) && all_wf(
                p.tokens@,
            ),
            r matches Err(e) ==> e == ERR_INVALID_CHARS,
    {
        match Self::scan(topic) {
            Ok(tokens) => Ok(Self { pos: 0, tokens }),
            Err(e) => Err(e),
        }
    }

    /// Tokenize the subscription string into `TopicNode`s for further parsing.
    fn scan(topic: &String) -> (r: Result<Vec<TopicNode>, &'static str>)
        ensures
            r is Ok <==> (forall|i: int|
                0 <= i < split_topic(topic@).len() ==> is_token(#[trigger] split_topic(topic@)[i])),
            r matches Ok(toks) ==> texts(toks@) == split_topic(topic@) && all_wf(toks@),
            r matches Err(e) ==> e == ERR_INVALID_CHARS,
    {
        let s: &str = topic.as_str();
        let n = s.unicode_len();
        let ghost whole = s@;
        let mut tokens: Vec<TopicNode> = Vec::new();
        let mut start: usize = 0;
        let mut i: usize = 0;
        proof {
            assert(whole.subrange(0, 0) =~= Seq::<char>::empty());
            assert(texts(tokens@) + seq![whole.subrange(0, 0)] =~= split_topic(
                whole.subrange(0, 0),
            ));
        }
        while i < n
            invariant
                n == whole.len(),
                s@ == whole,
                whole == topic@,
                start <= i <= n,
                texts(tokens@) + seq![whole.subrange(start as int, i as int)] == split_topic(
                    whole.subrange(0, i as int),
                ),
                all_wf(tokens@),
            decreases n - i,
        {
            let c = s.get_char(i);
            let ghost pre = whole.subrange(0, i as int);
            let ghost post = whole.subrange(0, i + 1);
            proof {
                assert(post.drop_last() =~= pre);
                assert(post.last() == c);
                lemma_split_len(pre);
            }
            if c == '/' {
                let seg = s.substring_char(start, i);
                match classify(seg) {
                    Some(t) => {
                        tokens.push(t);
                        proof {
                            assert(texts(tokens@) =~= split_topic(post).drop_last());
                            assert(whole.subrange(i + 1, i + 1) =~= Seq::<char>::empty());
                            assert(texts(tokens@) + seq![whole.subrange(i + 1, i + 1)]
                                =~= split_topic(post));
                        }
                    },
                    None => {
                        proof {
                            let k = tokens@.len() as int;
                            assert(split_topic(post)[k] == seg@);
                            assert(split_topic(post).len() == k + 2);
                            lemma_split_stable(whole, i + 1, n as int);
                            assert(whole.subrange(0, n as int) =~= whole);
                            assert(split_topic(whole)[k] == seg@);
                        }
                        return Err(ERR_INVALID_CHARS);
                    },
                }
                start = i + 1;
            } else {
                proof {
                    assert(whole.subrange(start as int, i + 1) =~= whole.subrange(
                        start as int,
                        i as int,
                    ).push(c));
                    assert(texts(tokens@) + seq![whole.subrange(start as int, i + 1)]
                        =~= split_topic(post));
                }
            }
            i = i + 1;
        }
        proof {
            assert(whole.subrange(0, n as int) =~= whole);
        }
        let seg = s.substring_char(start, n);
        match classify(seg) {
            Some(t) => {
                tokens.push(t);
                proof {
                    assert(texts(tokens@) =~= split_topic(whole));
                    assert forall|k: int| 0 <= k < split_topic(whole).len() implies is_token(
                        #[trigger] split_topic(whole)[k],
                    ) by {
                        assert(tokens@[k].wf());
                    }
                }
                Ok(tokens)
            },
            None => {
                proof {
                    assert(split_topic(whole)[tokens@.len() as int] == seg@);
                }
                Err(ERR_INVALID_CHARS)
            },
        }
    }

    /// Parse the token stream.
    fn parse(self) -> (r: Result<Topic, &'static str>)
        requires
            self.pos == 0,
            all_wf(self.tokens@),
        ensures
            r is Ok <==> tokens_accepted(self.tokens@),
            r matches Ok(t) ==> t.channels@ == self.tokens@,
    {
        let mut parser = self;
        match parser.parse_topic() {
            Ok(_) => Ok(Topic { channels: parser.tokens }),
            Err(e) => Err(e),
        }
    }

    /// Parse the `topic` rule.
    fn parse_topic(&mut self) -> (r: Result<(), &'static str>)
        requires
            old(self).pos == 0,
        ensures
            final(self).tokens@ == old(self).tokens@,
            r is Ok <==> tokens_accepted(old(self).tokens@),
    {
        let ghost toks = self.tokens@;
        match self.cur() {
            Some(TopicNode::MultiWildcard) => {
                if self.lookahead().is_none() {
                    return Ok(());
                }
                proof {
                    assert(!no_multi_node(toks, toks.len() - 1));
                }
                Err(ERR_TOPLEVEL_MULTI)
            },
            _ => {
                match self.parse_channel() {
                    Ok(_) => {},
                    Err(e) => {
                        proof {
                            if tokens_accepted(toks) {
                                if toks.last() is Name {
                                    assert(channel_end(toks, toks.len() as int));
                                } else {
                                    assert(channel_end(toks, toks.len() - 1));
                                }
                            }
                        }
                        return Err(e);
                    },
                }
                let ghost p = self.pos as int;
                if self.cur().is_none() {
                    return Ok(());
                }
                if self.lookahead().is_none() {
                    return Ok(());
                }
                proof {
                    assert(!no_multi_node(toks, toks.len() - 1)) by {
                        assert(toks[p] is MultiWildcard);
                    }
                }
                Err(ERR_MULTI_NOT_LAST)
            },
        }
    }

    /// Parse the `channel` rule, from the first token.
    fn parse_channel(&mut self) -> (r: Result<(), &'static str>)
        requires
            old(self).pos == 0,
        ensures
            final(self).tokens@ == old(self).tokens@,
            final(self).wf(),
            r is Ok ==> channel_end(old(self).tokens@, final(self).pos as int),
            r is Err ==> forall|p: int| !channel_end(old(self).tokens@, p),
    {
        let ghost toks = self.tokens@;
        loop
            invariant_except_break
                self.pos == 0 || self.pos < toks.len(),
            invariant
                self.tokens@ == toks,
                toks == old(self).tokens@,
                self.wf(),
                no_multi_node(toks, self.pos as int),
            ensures
                self.tokens@ == toks,
                self.wf(),
                channel_end(toks, self.pos as int),
            decreases toks.len() - self.pos,
        {
            match self.cur() {
                Some(TopicNode::Name(_)) => {
                    if self.lookahead().is_none() {
                        self.advance();
                        break ;
                    }
                    self.advance();
                },
                Some(TopicNode::SingleWildcard) => {
                    if self.lookahead().is_none() {
                        proof {
                            assert forall|p: int| !channel_end(toks, p) by {
                                if channel_end(toks, p) && p < toks.len() {
                                    assert(toks[p] is MultiWildcard);
                                    assert(no_multi_node(toks, self.pos as int));
                                }
                            }
                        }
                        return Err(ERR_TRAILING_SINGLE);
                    }
                    self.advance();
                },
                Some(TopicNode::MultiWildcard) => {
                    if self.pos == 0 || !matches!(self.tokens[self.pos - 1], TopicNode::Name(_)) {
                        proof {
                            assert forall|p: int| !channel_end(toks, p) by {
                                if channel_end(toks, p) {
                                    if p > self.pos {
                                        assert(toks[self.pos as int] is MultiWildcard);
                                    } else if p < self.pos {
                                        assert(toks[p] is MultiWildcard);
                                    }
                                }
                            }
                        }
                        return Err(ERR_MULTI_AFTER_NAME);
                    }
                    break ;
                },
                None => {
                    proof {
                        assert forall|p: int| !channel_end(toks, p) by {
                            if channel_end(toks, p) && p < toks.len() {
                                assert(toks[p] is MultiWildcard);
                            }
                        }
                    }
                    return Err(ERR_EMPTY);
                },
            }
        }
        Ok(())
    }

    /// Get the current token.
    fn cur(&self) -> (r: Option<&TopicNode>)
        ensures
            self.pos < self.tokens@.len() ==> r == Some(&self.tokens@[self.pos as int]),
            self.pos >= self.tokens@.len() ==> r is None,
    {
        if self.pos < self.tokens.len() {
            Some(&self.tokens[self.pos])
        } else {
            None
        }
    }

    /// Get the current lookahead token.
    fn lookahead(&self) -> (r: Option<&TopicNode>)
        ensures
            self.pos + 1 < self.tokens@.len() ==> r == Some(&self.tokens@[self.pos + 1]),
            self.pos + 1 >= self.tokens@.len() ==> r is None,
    {
        if self.pos < self.tokens.len() && self.pos + 1 < self.tokens.len() {
            Some(&self.tokens[self.pos + 1])
        } else {
            None
        }
    }

    /// Advance the parser position.
    fn advance(&mut self)
        ensures
            final(self).tokens == old(self).tokens,
            old(self).pos < old(self).tokens@.len() ==> final(self).pos == old(self).pos + 1,
            old(self).pos >= old(self).tokens@.len() ==> final(self).pos == old(self).pos,
    {
        if self.pos < self.tokens.len() {
            self.pos += 1;
        }
    }
}


} // verus!
