//! Flood-based publish/subscribe: the broadcast service keeps the set of
//! topics this peer subscribes to and the partial view of peers to forward
//! to. Publishing sends the payload to every peer in the view; a received
//! message is handed to the application exactly when its topic is
//! subscribed, and is forwarded to every peer in the view but the sender,
//! whether or not the topic is locally subscribed (flood semantics).
//!
//! Delivery is best effort: no acknowledgment, no retry, no ordering across
//! receivers. Re-flooded duplicates are not suppressed; a message carried
//! around a cycle may be delivered more than once. That is a documented
//! limitation of the flooding scheme, not something this module hides.

use vstd::prelude::*;
use crate::peer::PeerId;
use crate::view::PartialView;

verus! {

/// A human-readable name of a broadcast channel.
#[derive(Debug)]
pub struct Topic {
    pub name: String,
}

impl Topic {
    /// The topic name as a character sequence.
    pub open spec fn chars(self) -> Seq<char> {
        self.name@
    }

    /// Wraps a name.
    pub fn new(name: String) -> (t: Topic)
        ensures
            t.chars() == name@,
    {
        Topic { name }
    }

    /// A copy with the same name.
    pub fn duplicate(&self) -> (t: Topic)
        ensures
            t.chars() == self.chars(),
    {
        Topic { name: self.name.clone() }
    }

    /// Whether two topics name the same channel.
    pub fn same_as(&self, other: &Topic) -> (r: bool)
        ensures
            r == (self.chars() == other.chars()),
    {
        self.name == other.name
    }
}

/// A topic message: an opaque byte payload, the peer that published it, and
/// the topic it was published on. Transient: not stored after delivery.
#[derive(Debug)]
pub struct Message {
    pub source: PeerId,
    pub topic: Topic,
    pub data: Vec<u8>,
}

impl Message {
    /// Whether the message carries exactly these fields.
    pub open spec fn is_from(self, source: PeerId, topic: Seq<char>, data: Seq<u8>) -> bool {
        self.source == source && self.topic.chars() == topic && self.data@ == data
    }

    /// A copy carrying the same fields.
    pub fn duplicate(&self) -> (m: Message)
        ensures
            m.is_from(self.source, self.topic.chars(), self.data@),
    {
        Message { source: self.source, topic: self.topic.duplicate(), data: copy_bytes(&self.data) }
    }
}

/// One outbound wire transmission: the peer it goes to, and the message.
#[derive(Debug)]
pub struct OutboundSend {
    pub to: PeerId,
    pub msg: Message,
}

/// A byte-for-byte copy of a payload.
fn copy_bytes(v: &Vec<u8>) -> (r: Vec<u8>)
    ensures
        r@ == v@,
{
    let mut r: Vec<u8> = Vec::new();
    let mut i: usize = 0;
    while i < v.len()
        invariant
            i <= v@.len(),
            r@ == v@.take(i as int),
        decreases v@.len() - i,
    {
        r.push(v[i]);
        assert(r@ =~= v@.take(i + 1));
        i = i + 1;
    }
    assert(r@ =~= v@);
    r
}

/// The peers a received message is forwarded to: everyone in the view, in
/// view order, except the peer it came from.
pub open spec fn non_senders(s: Seq<PeerId>, src: PeerId) -> Seq<PeerId>
    decreases s.len(),
{
    if s.len() == 0 {
        Seq::empty()
    } else {
        non_senders(s.drop_last(), src) + (if s.last() == src {
            Seq::<PeerId>::empty()
        } else {
            seq![s.last()]
        })
    }
}

/// The forwarding targets are exactly the view members other than the
/// sender, and are distinct when the view holds no duplicates.
pub proof fn lemma_non_senders(s: Seq<PeerId>, src: PeerId)
    ensures
        forall|i: int|
            0 <= i < non_senders(s, src).len() ==> s.contains(#[trigger] non_senders(s, src)[i])
                && non_senders(s, src)[i] != src,
        forall|p: PeerId|
            s.contains(p) && p != src ==> non_senders(s, src).contains(p),
        (forall|i: int, j: int| 0 <= i < j < s.len() ==> s[i] != s[j]) ==> (forall|i: int, j: int|
            0 <= i < j < non_senders(s, src).len() ==> non_senders(s, src)[i] != non_senders(
                s,
                src,
            )[j]),
    decreases s.len(),
{
    if s.len() == 0 {
    } else {
        let head = s.drop_last();
        lemma_non_senders(head, src);
        assert forall|i: int| 0 <= i < non_senders(s, src).len() implies s.contains(
            #[trigger] non_senders(s, src)[i],
        ) && non_senders(s, src)[i] != src by {
            if i < non_senders(head, src).len() {
                assert(non_senders(s, src)[i] == non_senders(head, src)[i]);
                assert(head.contains(non_senders(head, src)[i]));
                let k = choose|k: int|
                    0 <= k < head.len() && head[k] == non_senders(head, src)[i];
                assert(s[k] == non_senders(s, src)[i]);
            } else {
                assert(non_senders(s, src)[i] == s.last());
                assert(s[s.len() - 1] == s.last());
            }
        }
        assert forall|p: PeerId| s.contains(p) && p != src implies non_senders(
            s,
            src,
        ).contains(p) by {
            let k = choose|k: int| 0 <= k < s.len() && s[k] == p;
            if k < s.len() - 1 {
                assert(head[k] == p);
                assert(head.contains(p));
                assert(non_senders(head, src).contains(p));
                let k2 = choose|k2: int|
                    0 <= k2 < non_senders(head, src).len() && non_senders(head, src)[k2] == p;
                assert(non_senders(s, src)[k2] == p);
            } else {
                assert(s.last() == p);
                assert(non_senders(s, src)[non_senders(s, src).len() - 1] == p);
            }
        }
        if forall|i: int, j: int| 0 <= i < j < s.len() ==> s[i] != s[j] {
            assert forall|i: int, j: int| 0 <= i < j < head.len() implies head[i] != head[j] by {
                assert(s[i] == head[i] && s[j] == head[j]);
            }
            assert forall|i: int, j: int|
                0 <= i < j < non_senders(s, src).len() implies non_senders(s, src)[i]
                != non_senders(s, src)[j] by {
                if j < non_senders(head, src).len() {
                    assert(non_senders(s, src)[i] == non_senders(head, src)[i]);
                    assert(non_senders(s, src)[j] == non_senders(head, src)[j]);
                } else {
                    assert(non_senders(s, src)[j] == s.last());
                    assert(non_senders(s, src)[i] == non_senders(head, src)[i]);
                    assert(head.contains(non_senders(head, src)[i]));
                    let k = choose|k: int|
                        0 <= k < head.len() && head[k] == non_senders(head, src)[i];
                    assert(s[k] == non_senders(head, src)[i]);
                    assert(s[s.len() - 1] == s.last());
                }
            }
        }
    }
}

/// The broadcast service: this peer's identifier, its subscription set, and
/// the partial view it floods messages to.
pub struct BroadcastService {
    local: PeerId,
    topics: Vec<Topic>,
    view: PartialView,
}

impl BroadcastService {
    /// The identifier messages published here carry as their source.
    pub closed spec fn local_peer(self) -> PeerId {
        self.local
    }

    /// The subscribed topics, in subscription order.
    pub closed spec fn topics_seq(self) -> Seq<Topic> {
        self.topics@
    }

    /// The partial view itself.
    pub closed spec fn the_view(self) -> PartialView {
        self.view
    }

    /// The members of the partial view, in insertion order.
    pub open spec fn view_members(self) -> Seq<PeerId> {
        self.the_view().members()
    }

    /// Whether a peer is in the partial view.
    pub open spec fn in_view(self, p: PeerId) -> bool {
        self.the_view().has(p)
    }

    /// Whether this peer subscribes to the topic with the given name.
    pub open spec fn subscribed(self, t: Seq<char>) -> bool {
        exists|i: int|
            0 <= i < self.topics_seq().len() && #[trigger] self.topics_seq()[i].chars() == t
    }

    /// Well-formedness: the view holds no duplicate peer, the subscription
    /// set no duplicate topic.
    pub open spec fn wf(self) -> bool {
        &&& self.the_view().wf()
        &&& forall|i: int, j: int|
            0 <= i < j < self.topics_seq().len() ==> self.topics_seq()[i].chars()
                != self.topics_seq()[j].chars()
    }

    /// A service with no subscriptions and an empty view.
    pub fn new(local: PeerId) -> (b: BroadcastService)
        ensures
            b.wf(),
            b.local_peer() == local,
            b.view_members() == Seq::<PeerId>::empty(),
            b.topics_seq() == Seq::<Topic>::empty(),
    {
        BroadcastService { local, topics: Vec::new(), view: PartialView::new() }
    }

    /// Whether the topic is in the subscription set.
    pub fn is_subscribed(&self, t: &Topic) -> (r: bool)
        ensures
            r == self.subscribed(t.chars()),
    {
        let mut i: usize = 0;
        while i < self.topics.len()
            invariant
                i <= self.topics_seq().len(),
                forall|k: int| 0 <= k < i ==> #[trigger] self.topics_seq()[k].chars() != t.chars(),
            decreases self.topics_seq().len() - i,
        {
            if self.topics[i].name == t.name {
                assert(self.topics_seq()[i as int].chars() == t.chars());
                return true;
            }
            i = i + 1;
        }
        false
    }

    /// Subscribes to a topic; idempotent.
    pub fn subscribe(&mut self, t: Topic)
        requires
            old(self).wf(),
        ensures
            final(self).wf(),
            final(self).subscribed(t.chars()),
            forall|s: Seq<char>|
                final(self).subscribed(s) <==> (old(self).subscribed(s) || s == t.chars()),
            final(self).local_peer() == old(self).local_peer(),
            final(self).view_members() == old(self).view_members(),
    {
        let ghost pre = old(self).topics_seq();
        if !self.is_subscribed(&t) {
            let ghost tc = t.chars();
            self.topics.push(t);
            assert(self.subscribed(tc)) by {
                assert(self.topics_seq()[self.topics_seq().len() - 1].chars() == tc);
            }
            assert forall|s: Seq<char>|
                self.subscribed(s) <==> (old(self).subscribed(s) || s == tc) by {
                if self.subscribed(s) {
                    let k = choose|k: int|
                        0 <= k < self.topics_seq().len()
                            && #[trigger] self.topics_seq()[k].chars() == s;
                    if k < pre.len() {
                        assert(pre[k].chars() == s);
                        assert(old(self).subscribed(s));
                    } else {
                        assert(s == tc);
                    }
                }
                if old(self).subscribed(s) {
                    let k = choose|k: int|
                        0 <= k < pre.len() && #[trigger] pre[k].chars() == s;
                    assert(self.topics_seq()[k].chars() == s);
                }
            }
            assert forall|i: int, j: int| 0 <= i < j < self.topics_seq().len()
                implies self.topics_seq()[i].chars() != self.topics_seq()[j].chars() by {
                if j < pre.len() {
                    assert(self.topics_seq()[i] == pre[i]);
                    assert(self.topics_seq()[j] == pre[j]);
                } else {
                    assert(self.topics_seq()[i] == pre[i]);
                    assert(self.topics_seq()[j].chars() == tc);
                    if pre[i].chars() == tc {
                        assert(old(self).subscribed(tc));
                    }
                }
            }
        }
    }

    /// A peer was discovered: add it to the partial view. A repeat addition
    /// leaves the view as it was.
    pub fn on_peer_discovered(&mut self, p: PeerId)
        requires
            old(self).wf(),
        ensures
            final(self).wf(),
            final(self).in_view(p),
            forall|q: PeerId| final(self).in_view(q) <==> (old(self).in_view(q) || q == p),
            !old(self).in_view(p) ==> final(self).view_members() == old(self).view_members().push(
                p,
            ),
            old(self).in_view(p) ==> final(self).view_members() == old(self).view_members(),
            final(self).local_peer() == old(self).local_peer(),
            final(self).topics_seq() == old(self).topics_seq(),
    {
        self.view.insert(p);
        proof {
            assert(self.topics_seq() == old(self).topics_seq());
        }
    }

    /// A peer expired: drop it from the partial view. Removing an absent
    /// peer is a no-op.
    pub fn on_peer_expired(&mut self, p: PeerId)
        requires
            old(self).wf(),
        ensures
            final(self).wf(),
            !final(self).in_view(p),
            forall|q: PeerId| q != p ==> (final(self).in_view(q) <==> old(self).in_view(q)),
            final(self).local_peer() == old(self).local_peer(),
            final(self).topics_seq() == old(self).topics_seq(),
    {
        self.view.remove(p);
        proof {
            assert(self.topics_seq() == old(self).topics_seq());
        }
    }

    /// Publishes a payload on a topic: one send per peer currently in the
    /// partial view, each carrying this peer as the source. With an empty
    /// view the call succeeds and produces no sends; an empty payload is
    /// sent as a zero-length message.
    pub fn publish(&self, topic: &Topic, data: &Vec<u8>) -> (sends: Vec<OutboundSend>)
        ensures
            sends@.len() == self.view_members().len(),
            forall|i: int|
                0 <= i < sends@.len() ==> (#[trigger] sends@[i]).to == self.view_members()[i]
                    && sends@[i].msg.is_from(self.local_peer(), topic.chars(), data@),
            self.view_members().len() == 0 ==> sends@.len() == 0,
    {
        let mut sends: Vec<OutboundSend> = Vec::new();
        let mut i: usize = 0;
        while i < self.view.len()
            invariant
                i <= self.view_members().len(),
                sends@.len() == i,
                forall|k: int|
                    0 <= k < i ==> (#[trigger] sends@[k]).to == self.view_members()[k]
                        && sends@[k].msg.is_from(self.local_peer(), topic.chars(), data@),
            decreases self.view_members().len() - i,
        {
            let to = self.view.peer_at(i);
            let msg = Message { source: self.local, topic: topic.duplicate(), data: copy_bytes(
                data,
            ) };
            sends.push(OutboundSend { to, msg });
            i = i + 1;
        }
        sends
    }

    /// A message arrived from a remote peer. It is handed to the application
    /// exactly when its topic is locally subscribed — once per inbound
    /// transmission — and is forwarded to every peer in the view except the
    /// one it came from, subscribed or not.
    pub fn on_message_received(&self, msg: Message) -> (r: (Option<Message>, Vec<OutboundSend>))
        ensures
            r.0 is Some <==> self.subscribed(msg.topic.chars()),
            r.0 is Some ==> r.0.unwrap() == msg,
            r.1@.len() == non_senders(self.view_members(), msg.source).len(),
            forall|i: int|
                0 <= i < r.1@.len() ==> (#[trigger] r.1@[i]).to == non_senders(
                    self.view_members(),
                    msg.source,
                )[i] && r.1@[i].msg.is_from(msg.source, msg.topic.chars(), msg.data@),
    {
        let mut forwards: Vec<OutboundSend> = Vec::new();
        let mut i: usize = 0;
        while i < self.view.len()
            invariant
                i <= self.view_members().len(),
                forwards@.len() == non_senders(self.view_members().take(i as int), msg.source).len(),
                forall|k: int|
                    0 <= k < forwards@.len() ==> (#[trigger] forwards@[k]).to == non_senders(
                        self.view_members().take(i as int),
                        msg.source,
                    )[k] && forwards@[k].msg.is_from(msg.source, msg.topic.chars(), msg.data@),
            decreases self.view_members().len() - i,
        {
            let ghost prefix = self.view_members().take(i as int);
            let to = self.view.peer_at(i);
            proof {
                assert(self.view_members().take(i + 1).drop_last() =~= prefix);
                assert(self.view_members().take(i + 1).last() == self.view_members()[i as int]);
            }
            if !(to == msg.source) {
                let fwd = msg.duplicate();
                forwards.push(OutboundSend { to, msg: fwd });
                proof {
                    let cur = non_senders(self.view_members().take(i + 1), msg.source);
                    assert(cur == non_senders(prefix, msg.source) + seq![
                        self.view_members()[i as int],
                    ]);
                    assert forall|k: int| 0 <= k < forwards@.len() implies (
                    #[trigger] forwards@[k]).to == cur[k] && forwards@[k].msg.is_from(
                        msg.source,
                        msg.topic.chars(),
                        msg.data@,
                    ) by {
                        if k < forwards@.len() - 1 {
                            assert(cur[k] == non_senders(prefix, msg.source)[k]);
                        } else {
                            assert(cur[k] == self.view_members()[i as int]);
                        }
                    }
                }
            } else {
                proof {
                    let cur = non_senders(self.view_members().take(i + 1), msg.source);
                    assert(cur =~= non_senders(prefix, msg.source));
                }
            }
            i = i + 1;
        }
        proof {
            assert(self.view_members().take(self.view_members().len() as int)
                =~= self.view_members());
        }
        let delivery = if self.is_subscribed(&msg.topic) {
            Some(msg)
        } else {
            None
        };
        (delivery, forwards)
    }
}

} // verus!
