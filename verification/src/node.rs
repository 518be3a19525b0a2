//! The application loop's decision core: one step function from the current
//! state and one event to the next state and the actions to perform.
//!
//! The surrounding loop races two wait sources — the connection manager's
//! event stream and line-delimited local input — and hands whatever arrives
//! first to [`Node::step`]. Every decision the loop makes is here; what
//! remains outside is only the waiting, the wire, and the printing.

use vstd::prelude::*;
use crate::behaviour::{is_transmit, Action, BehaviourEvent, ChatBehaviour};
use crate::broadcast::{non_senders, Message, OutboundSend, Topic};
use crate::peer::{Addr, PeerId};

verus! {

/// One thing the application loop can wake up on.
pub enum NodeEvent {
    /// The transport bound a listening address.
    NewListenAddr(Addr),
    /// A discovery advertisement arrived from an address of a peer.
    Advertisement(PeerId, Addr),
    /// The discovery refresh/expiry timers fired.
    DiscoveryTick,
    /// A remote peer forwarded a topic message.
    Inbound(Message),
    /// One complete line was read from local input, as payload bytes.
    InputLine(Vec<u8>),
}

/// One chat peer: the composed behaviour plus the single fixed topic this
/// system joins at startup.
pub struct Node {
    behaviour: ChatBehaviour,
    topic: Topic,
}

/// Wraps each outbound send as a transmit action, in order.
fn to_transmits(sends: Vec<OutboundSend>) -> (acts: Vec<Action>)
    ensures
        acts@.len() == sends@.len(),
        forall|i: int|
            0 <= i < sends@.len() ==> acts@[i] == Action::Transmit(#[trigger] sends@[i]),
{
    let ghost gs = sends@;
    let flen: usize = sends.len();
    let mut rest = sends;
    let mut acts: Vec<Action> = Vec::new();
    let mut done: usize = 0;
    while rest.len() > 0
        invariant
            gs.len() == flen,
            done + rest@.len() == gs.len(),
            rest@ == gs.skip(done as int),
            acts@.len() == done,
            forall|k: int| 0 <= k < done ==> acts@[k] == Action::Transmit(#[trigger] gs[k]),
        decreases rest@.len(),
    {
        let ghost acts_snap = acts@;
        let ghost d = done as int;
        let s = rest.remove(0);
        proof {
            assert(s == gs.skip(d)[0]);
            assert(gs.skip(d)[0] == gs[d]);
            assert forall|x: int| 0 <= x < rest@.len() implies rest@[x] == gs.skip(d + 1)[x] by {
                assert(rest@[x] == gs.skip(d)[x + 1]);
                assert(gs.skip(d)[x + 1] == gs[x + 1 + d]);
                assert(gs.skip(d + 1)[x] == gs[x + d + 1]);
            }
            assert(rest@ =~= gs.skip(d + 1));
        }
        acts.push(Action::Transmit(s));
        proof {
            assert(acts@ == acts_snap.push(Action::Transmit(s)));
            assert forall|k: int| 0 <= k < d + 1 implies acts@[k] == Action::Transmit(
                #[trigger] gs[k],
            ) by {
                if k < d {
                    assert(acts_snap.push(Action::Transmit(s))[k] == acts_snap[k]);
                    assert(acts_snap[k] == Action::Transmit(gs[k]));
                } else {
                    assert(acts_snap.push(Action::Transmit(s))[d] == Action::Transmit(s));
                }
            }
        }
        done = done + 1;
    }
    proof {
        assert(gs.skip(done as int).len() == 0);
    }
    acts
}

impl Node {
    /// The composed behaviour.
    pub closed spec fn beh(self) -> ChatBehaviour {
        self.behaviour
    }

    /// The one topic this peer chats on.
    pub closed spec fn chat_topic(self) -> Topic {
        self.topic
    }

    /// The behaviour is well-formed and the chat topic is subscribed.
    pub open spec fn wf(self) -> bool {
        &&& self.beh().wf()
        &&& self.beh().bcast().subscribed(self.chat_topic().chars())
    }

    /// A fresh node: a new identity's peer, subscribed to the given topic,
    /// with an empty view and no discovery records.
    pub fn new(local: PeerId, topic: Topic, window: u64) -> (n: Node)
        ensures
            n.wf(),
            n.beh().bcast().local_peer() == local,
            n.chat_topic().chars() == topic.chars(),
            n.beh().disc().refresh_window() == window,
            n.beh().bcast().view_members() == Seq::<PeerId>::empty(),
            forall|s: Seq<char>| n.beh().bcast().subscribed(s) <==> s == topic.chars(),
    {
        let mut behaviour = ChatBehaviour::new(local, window);
        proof {
            assert forall|s: Seq<char>| !behaviour.bcast().subscribed(s) by {
                assert(behaviour.bcast().topics_seq().len() == 0);
            }
        }
        let t = topic.duplicate();
        behaviour.subscribe(t);
        Node { behaviour, topic }
    }

    /// Advances the loop by one event: report a bound address, route an
    /// advertisement or a timer tick through discovery into the view, route
    /// an inbound message into a delivery and forwards, or publish one input
    /// line to everyone currently in the view.
    pub fn step(&mut self, event: NodeEvent, now: u64) -> (acts: Vec<Action>)
        requires
            old(self).wf(),
            event matches NodeEvent::Advertisement(p, a) ==> now <= u64::MAX - old(
                self,
            ).beh().disc().refresh_window(),
        ensures
            final(self).wf(),
            final(self).chat_topic() == old(self).chat_topic(),
            final(self).beh().bcast().local_peer() == old(self).beh().bcast().local_peer(),
            forall|s: Seq<char>|
                final(self).beh().bcast().subscribed(s) == old(self).beh().bcast().subscribed(s),
            (event matches NodeEvent::NewListenAddr(a) ==> *final(self) == *old(self) && acts@
                == seq![Action::ReportListenAddr(a)]),
            (event matches NodeEvent::Advertisement(p, a) ==> {
                &&& final(self).beh().disc().tracks(p, a)
                &&& final(self).beh().disc().expiry_of(p, a) == now + old(
                    self,
                ).beh().disc().refresh_window()
                &&& (old(self).beh().disc().emits_discovery(p, a, now) ==> {
                    &&& forall|q: PeerId|
                        final(self).beh().bcast().in_view(q) <==> (old(
                            self,
                        ).beh().bcast().in_view(q) || q == p)
                    &&& acts@ == seq![Action::LogDiscovered(p)]
                })
                &&& (!old(self).beh().disc().emits_discovery(p, a, now)
                    ==> final(self).beh().bcast() == old(self).beh().bcast() && acts@
                        == Seq::<Action>::empty())
            }),
            (event matches NodeEvent::DiscoveryTick ==> {
                &&& forall|q: PeerId|
                    final(self).beh().bcast().in_view(q) <==> (old(self).beh().bcast().in_view(q)
                        && old(self).beh().disc().live_peer(q, now))
                &&& forall|k: int| 0 <= k < acts@.len() ==> acts@[k] is LogExpired
                &&& forall|q: PeerId|
                    acts@.contains(Action::LogExpired(q)) <==> (old(
                        self,
                    ).beh().disc().tracks_peer(q) && !old(self).beh().disc().live_peer(q, now))
                &&& forall|k1: int, k2: int| 0 <= k1 < k2 < acts@.len() ==> acts@[k1] != acts@[k2]
            }),
            (event matches NodeEvent::Inbound(m) ==> {
                &&& final(self).beh().bcast() == old(self).beh().bcast()
                &&& final(self).beh().disc() == old(self).beh().disc()
                &&& (old(self).beh().bcast().subscribed(m.topic.chars()) ==> {
                    &&& acts@.len() == 1 + non_senders(
                        old(self).beh().bcast().view_members(),
                        m.source,
                    ).len()
                    &&& acts@[0] == Action::Deliver(m)
                    &&& forall|i: int|
                        0 <= i < non_senders(old(self).beh().bcast().view_members(), m.source).len()
                            ==> is_transmit(
                            acts@[i + 1],
                            #[trigger] non_senders(
                                old(self).beh().bcast().view_members(),
                                m.source,
                            )[i],
                            m.source,
                            m.topic.chars(),
                            m.data@,
                        )
                })
                &&& (!old(self).beh().bcast().subscribed(m.topic.chars()) ==> {
                    &&& acts@.len() == non_senders(
                        old(self).beh().bcast().view_members(),
                        m.source,
                    ).len()
                    &&& forall|i: int|
                        0 <= i < non_senders(old(self).beh().bcast().view_members(), m.source).len()
                            ==> is_transmit(
                            acts@[i],
                            #[trigger] non_senders(
                                old(self).beh().bcast().view_members(),
                                m.source,
                            )[i],
                            m.source,
                            m.topic.chars(),
                            m.data@,
                        )
                })
            }),
            (event matches NodeEvent::InputLine(line) ==> {
                &&& *final(self) == *old(self)
                &&& acts@.len() == old(self).beh().bcast().view_members().len()
                &&& forall|i: int|
                    0 <= i < acts@.len() ==> is_transmit(
                        acts@[i],
                        #[trigger] old(self).beh().bcast().view_members()[i],
                        old(self).beh().bcast().local_peer(),
                        old(self).chat_topic().chars(),
                        line@,
                    )
            }),
    {
        match event {
            NodeEvent::NewListenAddr(a) => {
                let mut acts: Vec<Action> = Vec::new();
                acts.push(Action::ReportListenAddr(a));
                proof {
                    assert(acts@ =~= seq![Action::ReportListenAddr(a)]);
                }
                acts
            },
            NodeEvent::Advertisement(p, a) => self.behaviour.handle_advertisement(p, a, now),
            NodeEvent::DiscoveryTick => self.behaviour.handle_tick(now),
            NodeEvent::Inbound(m) => {
                let acts = self.behaviour.inject_event(BehaviourEvent::Inbound(m), now);
                proof {
                    assert(self.beh().disc() == old(self).beh().disc());
                    assert forall|q: PeerId| self.beh().bcast().in_view(q) implies self.beh(
                    ).disc().tracks_peer(q) by {
                        assert(old(self).beh().bcast().in_view(q));
                    }
                }
                acts
            },
            NodeEvent::InputLine(line) => {
                let sends = self.behaviour.publish(&self.topic, &line);
                let acts = to_transmits(sends);
                proof {
                    assert forall|i: int| 0 <= i < acts@.len() implies is_transmit(
                        acts@[i],
                        #[trigger] old(self).beh().bcast().view_members()[i],
                        old(self).beh().bcast().local_peer(),
                        old(self).chat_topic().chars(),
                        line@,
                    ) by {
                        assert(acts@[i] == Action::Transmit(sends@[i]));
                        assert(sends@[i].to == self.beh().bcast().view_members()[i]);
                        assert(sends@[i].msg.is_from(
                            self.beh().bcast().local_peer(),
                            self.chat_topic().chars(),
                            line@,
                        ));
                    }
                }
                acts
            },
        }
    }
}

} // verus!
