//! The behaviour composer: owns the discovery service and the broadcast
//! service, and routes events between them. A discovered peer is added to
//! the broadcast partial view; an expired peer is removed, unless discovery
//! still reports it live on another address; an inbound message becomes a
//! delivery to the application and forwards to the rest of the view.
//!
//! The composer never performs I/O itself: every side effect it decides on
//! is returned as an [`Action`] for the surrounding loop to carry out.

use vstd::prelude::*;
use crate::broadcast::{non_senders, BroadcastService, Message, OutboundSend, Topic};
use crate::discovery::{DiscoveryEvent, DiscoveryService};
use crate::peer::{Addr, PeerId};

verus! {

/// A side effect the composer asks the surrounding loop to perform.
#[derive(Debug)]
pub enum Action {
    /// Hand the message to the application (print source and payload).
    Deliver(Message),
    /// Write the message to the given peer's connection.
    Transmit(OutboundSend),
    /// Report a newly discovered peer.
    LogDiscovered(PeerId),
    /// Report a peer whose every address has expired.
    LogExpired(PeerId),
    /// Report the address the transport has started listening on.
    ReportListenAddr(Addr),
}

/// Whether an action is a transmission of exactly this message to this peer.
pub open spec fn is_transmit(a: Action, to: PeerId, source: PeerId, topic: Seq<char>, data: Seq<
    u8,
>) -> bool {
    a matches Action::Transmit(s) && s.to == to && s.msg.is_from(source, topic, data)
}

/// An event one of the two subordinate services produced.
pub enum BehaviourEvent {
    /// Discovery reported a peer discovered or expired.
    Discovery(DiscoveryEvent),
    /// A remote peer forwarded a topic message.
    Inbound(Message),
}

/// The composed behaviour of this peer: local discovery plus flooding
/// publish/subscribe over the discovered partial view.
pub struct ChatBehaviour {
    discovery: DiscoveryService,
    broadcast: BroadcastService,
}

impl ChatBehaviour {
    /// The discovery service.
    pub closed spec fn disc(self) -> DiscoveryService {
        self.discovery
    }

    /// The broadcast service.
    pub closed spec fn bcast(self) -> BroadcastService {
        self.broadcast
    }

    /// Both services are well-formed, and every peer in the partial view is
    /// still tracked by discovery on at least one address: the view never
    /// holds a peer whose every known address has been reported expired.
    pub open spec fn wf(self) -> bool {
        &&& self.disc().wf()
        &&& self.bcast().wf()
        &&& forall|p: PeerId| self.bcast().in_view(p) ==> self.disc().tracks_peer(p)
    }

    /// A behaviour for the given local peer, with the given discovery
    /// refresh window, no subscriptions, and an empty view.
    pub fn new(local: PeerId, window: u64) -> (b: ChatBehaviour)
        ensures
            b.wf(),
            b.bcast().local_peer() == local,
            b.disc().refresh_window() == window,
            b.bcast().view_members() == Seq::<PeerId>::empty(),
            b.bcast().topics_seq() == Seq::<Topic>::empty(),
            forall|q: PeerId| !b.disc().tracks_peer(q),
    {
        let b = ChatBehaviour {
            discovery: DiscoveryService::new(window),
            broadcast: BroadcastService::new(local),
        };
        proof {
            assert(b.bcast().view_members() == Seq::<PeerId>::empty());
            assert(b.disc().recs() == Seq::<crate::discovery::DiscoveryRecord>::empty());
            assert forall|p: PeerId| !b.bcast().in_view(p) by {
                assert(b.bcast().view_members().len() == 0);
            }
        }
        b
    }

    /// Subscribes the local peer to a topic; idempotent.
    pub fn subscribe(&mut self, t: Topic)
        requires
            old(self).wf(),
        ensures
            final(self).wf(),
            final(self).bcast().subscribed(t.chars()),
            forall|s: Seq<char>|
                final(self).bcast().subscribed(s) <==> (old(self).bcast().subscribed(s) || s
                    == t.chars()),
            final(self).disc() == old(self).disc(),
            final(self).bcast().local_peer() == old(self).bcast().local_peer(),
            final(self).bcast().view_members() == old(self).bcast().view_members(),
    {
        self.broadcast.subscribe(t);
        proof {
            assert(self.disc() == old(self).disc());
            assert(self.bcast().view_members() == old(self).bcast().view_members());
        }
    }

    /// Publishes a payload on a topic to every peer currently in the view.
    pub fn publish(&self, topic: &Topic, data: &Vec<u8>) -> (sends: Vec<OutboundSend>)
        ensures
            sends@.len() == self.bcast().view_members().len(),
            forall|i: int|
                0 <= i < sends@.len() ==> (#[trigger] sends@[i]).to
                    == self.bcast().view_members()[i] && sends@[i].msg.is_from(
                    self.bcast().local_peer(),
                    topic.chars(),
                    data@,
                ),
            self.bcast().view_members().len() == 0 ==> sends@.len() == 0,
    {
        self.broadcast.publish(topic, data)
    }

    /// Routes one event from a subordinate service. A discovered peer joins
    /// the view; an expired peer leaves it unless discovery still reports it
    /// live at `now`; an inbound message becomes a delivery exactly when its
    /// topic is subscribed, plus one forward per view member but the sender.
    pub fn inject_event(&mut self, event: BehaviourEvent, now: u64) -> (acts: Vec<Action>)
        requires
            old(self).bcast().wf(),
        ensures
            final(self).bcast().wf(),
            final(self).disc() == old(self).disc(),
            final(self).bcast().local_peer() == old(self).bcast().local_peer(),
            forall|s: Seq<char>|
                final(self).bcast().subscribed(s) == old(self).bcast().subscribed(s),
            (event matches BehaviourEvent::Discovery(DiscoveryEvent::PeerDiscovered(p, a)) ==> {
                &&& forall|q: PeerId|
                    final(self).bcast().in_view(q) <==> (old(self).bcast().in_view(q) || q == p)
                &&& acts@ == seq![Action::LogDiscovered(p)]
            }),
            (event matches BehaviourEvent::Discovery(DiscoveryEvent::PeerExpired(p)) ==> {
                &&& old(self).disc().live_peer(p, now) ==> final(self).bcast() == old(
                    self,
                ).bcast() && acts@ == Seq::<Action>::empty()
                &&& !old(self).disc().live_peer(p, now) ==> {
                    &&& !final(self).bcast().in_view(p)
                    &&& forall|q: PeerId|
                        q != p ==> (final(self).bcast().in_view(q) <==> old(self).bcast().in_view(
                            q,
                        ))
                    &&& acts@ == seq![Action::LogExpired(p)]
                }
            }),
            (event matches BehaviourEvent::Inbound(m) ==> {
                &&& final(self).bcast() == old(self).bcast()
                &&& (old(self).bcast().subscribed(m.topic.chars()) ==> {
                    &&& acts@.len() == 1 + non_senders(
                        old(self).bcast().view_members(),
                        m.source,
                    ).len()
                    &&& acts@[0] == Action::Deliver(m)
                    &&& forall|i: int|
                        0 <= i < non_senders(old(self).bcast().view_members(), m.source).len()
                            ==> is_transmit(
                            acts@[i + 1],
                            #[trigger] non_senders(old(self).bcast().view_members(), m.source)[i],
                            m.source,
                            m.topic.chars(),
                            m.data@,
                        )
                })
                &&& (!old(self).bcast().subscribed(m.topic.chars()) ==> {
                    &&& acts@.len() == non_senders(
                        old(self).bcast().view_members(),
                        m.source,
                    ).len()
                    &&& forall|i: int|
                        0 <= i < non_senders(old(self).bcast().view_members(), m.source).len()
                            ==> is_transmit(
                            acts@[i],
                            #[trigger] non_senders(old(self).bcast().view_members(), m.source)[i],
                            m.source,
                            m.topic.chars(),
                            m.data@,
                        )
                })
            }),
    {
        match event {
            BehaviourEvent::Discovery(DiscoveryEvent::PeerDiscovered(p, _a)) => {
                self.broadcast.on_peer_discovered(p);
                let mut acts: Vec<Action> = Vec::new();
                acts.push(Action::LogDiscovered(p));
                proof {
                    assert(self.disc() == old(self).disc());
                    assert(acts@ =~= seq![Action::LogDiscovered(p)]);
                }
                acts
            },
            BehaviourEvent::Discovery(DiscoveryEvent::PeerExpired(p)) => {
                let mut acts: Vec<Action> = Vec::new();
                if !self.discovery.has_node(p, now) {
                    self.broadcast.on_peer_expired(p);
                    acts.push(Action::LogExpired(p));
                    proof {
                        assert(self.disc() == old(self).disc());
                        assert(acts@ =~= seq![Action::LogExpired(p)]);
                    }
                } else {
                    proof {
                        assert(acts@ =~= Seq::<Action>::empty());
                    }
                }
                acts
            },
            BehaviourEvent::Inbound(m) => {
                let ghost gm = m;
                let ghost fseq = non_senders(self.bcast().view_members(), m.source);
                let ghost base: int = if self.bcast().subscribed(m.topic.chars()) {
                    1
                } else {
                    0
                };
                let (delivery, forwards) = self.broadcast.on_message_received(m);
                let ghost gfw = forwards@;
                let mut acts: Vec<Action> = Vec::new();
                match delivery {
                    Some(d) => {
                        acts.push(Action::Deliver(d));
                    },
                    None => {},
                }
                let flen: usize = forwards.len();
                let mut rest = forwards;
                let mut done: usize = 0;
                while rest.len() > 0
                    invariant
                        base == 0 || base == 1,
                        gfw.len() == flen,
                        done + rest@.len() == gfw.len(),
                        rest@ == gfw.skip(done as int),
                        acts@.len() == base + done,
                        base == 1 ==> acts@[0] == Action::Deliver(gm),
                        forall|k: int|
                            0 <= k < done ==> acts@[base + k] == Action::Transmit(
                                #[trigger] gfw[k],
                            ),
                    decreases rest@.len(),
                {
                    let ghost acts_snap = acts@;
                    let ghost d = done as int;
                    let s = rest.remove(0);
                    proof {
                        assert(s == gfw.skip(d)[0]);
                        assert(gfw.skip(d)[0] == gfw[d]);
                        assert forall|x: int| 0 <= x < rest@.len() implies rest@[x] == gfw.skip(
                            d + 1,
                        )[x] by {
                            assert(rest@[x] == gfw.skip(d)[x + 1]);
                            assert(gfw.skip(d)[x + 1] == gfw[x + 1 + d]);
                            assert(gfw.skip(d + 1)[x] == gfw[x + d + 1]);
                        }
                        assert(rest@ =~= gfw.skip(d + 1));
                    }
                    acts.push(Action::Transmit(s));
                    proof {
                        assert(acts@ == acts_snap.push(Action::Transmit(s)));
                        assert forall|k: int| 0 <= k < d + 1 implies acts@[base + k]
                            == Action::Transmit(#[trigger] gfw[k]) by {
                            if k < d {
                                assert(acts_snap.push(Action::Transmit(s))[base + k]
                                    == acts_snap[base + k]);
                                assert(acts_snap[base + k] == Action::Transmit(gfw[k]));
                            } else {
                                assert(acts_snap.push(Action::Transmit(s))[base + d]
                                    == Action::Transmit(s));
                            }
                        }
                    }
                    done = done + 1;
                }
                proof {
                    assert(self.disc() == old(self).disc());
                    assert(gfw.skip(done as int).len() == 0);
                    assert(done == gfw.len());
                    assert forall|i: int| 0 <= i < fseq.len() implies is_transmit(
                        acts@[i + base],
                        #[trigger] fseq[i],
                        gm.source,
                        gm.topic.chars(),
                        gm.data@,
                    ) by {
                        assert(acts@[base + i] == Action::Transmit(gfw[i]));
                        assert(gfw[i].to == fseq[i]);
                        assert(gfw[i].msg.is_from(gm.source, gm.topic.chars(), gm.data@));
                    }
                }
                acts
            },
        }
    }

    /// A discovery advertisement from address `a` of peer `p` arrived at
    /// `now`. The address record is created or refreshed; exactly when the
    /// address was not already fresh, the peer joins the partial view and
    /// the discovery is reported once — a repeat advertisement within the
    /// refresh window changes the view not at all and reports nothing.
    pub fn handle_advertisement(&mut self, p: PeerId, a: Addr, now: u64) -> (acts: Vec<Action>)
        requires
            old(self).wf(),
            now <= u64::MAX - old(self).disc().refresh_window(),
        ensures
            final(self).wf(),
            final(self).disc().refresh_window() == old(self).disc().refresh_window(),
            final(self).disc().tracks(p, a),
            final(self).disc().expiry_of(p, a) == now + old(self).disc().refresh_window(),
            forall|q: PeerId, b: Addr|
                !(q == p && b == a) ==> (final(self).disc().tracks(q, b)
                    <==> old(self).disc().tracks(q, b)),
            forall|q: PeerId, b: Addr|
                !(q == p && b == a) && old(self).disc().tracks(q, b)
                    ==> final(self).disc().expiry_of(q, b) == old(self).disc().expiry_of(q, b),
            forall|s: Seq<char>|
                final(self).bcast().subscribed(s) == old(self).bcast().subscribed(s),
            final(self).bcast().local_peer() == old(self).bcast().local_peer(),
            old(self).disc().emits_discovery(p, a, now) ==> {
                &&& forall|q: PeerId|
                    final(self).bcast().in_view(q) <==> (old(self).bcast().in_view(q) || q == p)
                &&& acts@ == seq![Action::LogDiscovered(p)]
            },
            !old(self).disc().emits_discovery(p, a, now) ==> final(self).bcast() == old(
                self,
            ).bcast() && acts@ == Seq::<Action>::empty(),
    {
        let ghost pre = *self;
        match self.discovery.on_advertisement(p, a, now) {
            Some(ev) => {
                let ghost mid = *self;
                let acts = self.inject_event(BehaviourEvent::Discovery(ev), now);
                proof {
                    assert(self.disc() == mid.disc());
                    assert forall|q: PeerId| self.bcast().in_view(q) implies self.disc(
                    ).tracks_peer(q) by {
                        if q != p {
                            assert(pre.bcast().in_view(q));
                            assert(pre.disc().tracks_peer(q));
                        }
                    }
                }
                acts
            },
            None => {
                let acts: Vec<Action> = Vec::new();
                proof {
                    assert(acts@ =~= Seq::<Action>::empty());
                    assert(self.bcast() == pre.bcast());
                    assert forall|q: PeerId| self.bcast().in_view(q) implies self.disc(
                    ).tracks_peer(q) by {
                        assert(pre.disc().tracks_peer(q));
                    }
                }
                acts
            },
        }
    }

    /// The discovery timers fire at `now`: records past their window are
    /// dropped, and each peer whose every known address lapsed leaves the
    /// partial view, with one expiry report per such peer. A peer still
    /// fresh on any address stays.
    pub fn handle_tick(&mut self, now: u64) -> (acts: Vec<Action>)
        requires
            old(self).wf(),
        ensures
            final(self).wf(),
            final(self).disc().refresh_window() == old(self).disc().refresh_window(),
            forall|q: PeerId, b: Addr|
                final(self).disc().tracks(q, b) <==> (old(self).disc().tracks(q, b) && old(
                    self,
                ).disc().expiry_of(q, b) > now),
            forall|q: PeerId|
                final(self).bcast().in_view(q) <==> (old(self).bcast().in_view(q) && old(
                    self,
                ).disc().live_peer(q, now)),
            forall|s: Seq<char>|
                final(self).bcast().subscribed(s) == old(self).bcast().subscribed(s),
            final(self).bcast().local_peer() == old(self).bcast().local_peer(),
            forall|k: int| 0 <= k < acts@.len() ==> acts@[k] is LogExpired,
            forall|q: PeerId|
                acts@.contains(Action::LogExpired(q)) <==> (old(self).disc().tracks_peer(q)
                    && !old(self).disc().live_peer(q, now)),
            forall|k1: int, k2: int| 0 <= k1 < k2 < acts@.len() ==> acts@[k1] != acts@[k2],
    {
        let ghost pre = *self;
        let evs = self.discovery.tick(now);
        let ghost dpost = self.disc();
        let mut acts: Vec<Action> = Vec::new();
        let mut i: usize = 0;
        while i < evs.len()
            invariant
                pre.wf(),
                i <= evs@.len(),
                self.disc() == dpost,
                self.bcast().wf(),
                forall|q: PeerId| dpost.tracks_peer(q) <==> pre.disc().live_peer(q, now),
                forall|q: PeerId| dpost.live_peer(q, now) <==> pre.disc().live_peer(q, now),
                forall|k: int| 0 <= k < evs@.len() ==> evs@[k] is PeerExpired,
                forall|q: PeerId|
                    #![trigger evs@.contains(DiscoveryEvent::PeerExpired(q))]
                    evs@.contains(DiscoveryEvent::PeerExpired(q)) <==> (pre.disc().tracks_peer(q)
                        && !pre.disc().live_peer(q, now)),
                forall|k1: int, k2: int| 0 <= k1 < k2 < evs@.len() ==> evs@[k1] != evs@[k2],
                forall|s: Seq<char>| self.bcast().subscribed(s) == pre.bcast().subscribed(s),
                self.bcast().local_peer() == pre.bcast().local_peer(),
                forall|q: PeerId|
                    #![trigger pre.bcast().in_view(q)]
                    #![trigger self.bcast().in_view(q)]
                    self.bcast().in_view(q) <==> (pre.bcast().in_view(q) && !(exists|k: int|
                        #![trigger evs@[k]]
                        0 <= k < i && evs@[k] == DiscoveryEvent::PeerExpired(q))),
                acts@.len() == i,
                forall|k: int|
                    0 <= k < i ==> #[trigger] acts@[k] == log_expired(evs@[k]),
            decreases evs@.len() - i,
        {
            let ghost vpre = self.bcast();
            let ghost acts_snap = acts@;
            let ghost d = i as int;
            match evs[i] {
                DiscoveryEvent::PeerExpired(p) => {
                    proof {
                        assert(evs@[d] == DiscoveryEvent::PeerExpired(p));
                        assert(!dpost.live_peer(p, now)) by {
                            assert(evs@.contains(DiscoveryEvent::PeerExpired(p)));
                            if dpost.live_peer(p, now) {
                                assert(pre.disc().live_peer(p, now));
                            }
                        }
                    }
                    let mut sub = self.inject_event(
                        BehaviourEvent::Discovery(DiscoveryEvent::PeerExpired(p)),
                        now,
                    );
                    acts.append(&mut sub);
                    proof {
                        assert(acts@ == acts_snap + seq![Action::LogExpired(p)]);
                        assert(acts@.len() == d + 1);
                        assert forall|k: int| 0 <= k < d + 1 implies #[trigger] acts@[k]
                            == log_expired(evs@[k]) by {
                            if k < d {
                                assert(acts@[k] == acts_snap[k]);
                            } else {
                                assert(acts@[d] == Action::LogExpired(p));
                            }
                        }
                        assert forall|q: PeerId|
                            #![trigger pre.bcast().in_view(q)]
                            #![trigger self.bcast().in_view(q)]
                            self.bcast().in_view(q) <==> (pre.bcast().in_view(q) && !(exists|
                                k: int,
                            |
                                #![trigger evs@[k]]
                                0 <= k < d + 1 && evs@[k] == DiscoveryEvent::PeerExpired(
                                    q,
                                ))) by {
                            if q == p {
                                assert(!self.bcast().in_view(q));
                                assert(evs@[d] == DiscoveryEvent::PeerExpired(q));
                            } else {
                                assert(self.bcast().in_view(q) <==> vpre.in_view(q));
                                assert(vpre.in_view(q) <==> (pre.bcast().in_view(q) && !(exists|
                                    k: int,
                                |
                                    #![trigger evs@[k]]
                                    0 <= k < d && evs@[k] == DiscoveryEvent::PeerExpired(q))));
                                assert((exists|k: int|
                                    #![trigger evs@[k]]
                                    0 <= k < d + 1 && evs@[k] == DiscoveryEvent::PeerExpired(q))
                                    <==> (exists|k: int|
                                    #![trigger evs@[k]]
                                    0 <= k < d && evs@[k] == DiscoveryEvent::PeerExpired(
                                        q,
                                    ))) by {
                                    if exists|k: int|
                                        #![trigger evs@[k]]
                                        0 <= k < d + 1 && evs@[k] == DiscoveryEvent::PeerExpired(
                                            q,
                                        ) {
                                        let k = choose|k: int|
                                            0 <= k < d + 1 && evs@[k]
                                                == DiscoveryEvent::PeerExpired(q);
                                        assert(k != d);
                                        assert(0 <= k < d && evs@[k]
                                            == DiscoveryEvent::PeerExpired(q));
                                    }
                                }
                            }
                        }
                    }
                },
                DiscoveryEvent::PeerDiscovered(_, _) => {
                    proof {
                        assert(evs@[d] is PeerExpired);
                        assert(false);
                    }
                },
            }
            i = i + 1;
        }
        proof {
            assert forall|q: PeerId|
                self.bcast().in_view(q) <==> (pre.bcast().in_view(q) && pre.disc().live_peer(
                    q,
                    now,
                )) by {
                if self.bcast().in_view(q) {
                    assert(pre.bcast().in_view(q));
                    assert(!evs@.contains(DiscoveryEvent::PeerExpired(q))) by {
                        if evs@.contains(DiscoveryEvent::PeerExpired(q)) {
                            let k = choose|k: int|
                                0 <= k < evs@.len() && evs@[k] == DiscoveryEvent::PeerExpired(q);
                            assert(exists|k2: int|
                                0 <= k2 < i && evs@[k2] == DiscoveryEvent::PeerExpired(q));
                        }
                    }
                    assert(pre.disc().tracks_peer(q));
                    assert(pre.disc().live_peer(q, now));
                }
                if pre.bcast().in_view(q) && pre.disc().live_peer(q, now) {
                    assert(!evs@.contains(DiscoveryEvent::PeerExpired(q)));
                    assert(!(exists|k: int|
                        0 <= k < i && evs@[k] == DiscoveryEvent::PeerExpired(q))) by {
                        if exists|k: int|
                            0 <= k < i && evs@[k] == DiscoveryEvent::PeerExpired(q) {
                            let k = choose|k: int|
                                0 <= k < i && evs@[k] == DiscoveryEvent::PeerExpired(q);
                            assert(evs@.contains(DiscoveryEvent::PeerExpired(q)));
                        }
                    }
                }
            }
            assert forall|q: PeerId| self.bcast().in_view(q) implies self.disc().tracks_peer(
                q,
            ) by {
                assert(pre.disc().live_peer(q, now));
            }
            assert forall|k: int| 0 <= k < acts@.len() implies acts@[k] is LogExpired by {
                assert(acts@[k] == log_expired(evs@[k]));
                assert(evs@[k] is PeerExpired);
            }
            assert forall|q: PeerId|
                acts@.contains(Action::LogExpired(q)) <==> (pre.disc().tracks_peer(q)
                    && !pre.disc().live_peer(q, now)) by {
                if acts@.contains(Action::LogExpired(q)) {
                    let k = choose|k: int|
                        0 <= k < acts@.len() && acts@[k] == Action::LogExpired(q);
                    assert(acts@[k] == log_expired(evs@[k]));
                    assert(evs@[k] is PeerExpired);
                    assert(evs@[k] == DiscoveryEvent::PeerExpired(q));
                    assert(evs@.contains(DiscoveryEvent::PeerExpired(q)));
                }
                if pre.disc().tracks_peer(q) && !pre.disc().live_peer(q, now) {
                    assert(evs@.contains(DiscoveryEvent::PeerExpired(q)));
                    let k = choose|k: int|
                        0 <= k < evs@.len() && evs@[k] == DiscoveryEvent::PeerExpired(q);
                    assert(acts@[k] == log_expired(evs@[k]));
                    assert(acts@[k] == Action::LogExpired(q));
                    assert(acts@.contains(Action::LogExpired(q)));
                }
            }
            assert forall|k1: int, k2: int| 0 <= k1 < k2 < acts@.len() implies acts@[k1]
                != acts@[k2] by {
                assert(acts@[k1] == log_expired(evs@[k1]));
                assert(acts@[k2] == log_expired(evs@[k2]));
                assert(evs@[k1] is PeerExpired);
                assert(evs@[k2] is PeerExpired);
                assert(evs@[k1] != evs@[k2]);
            }
        }
        acts
    }
}

/// Law: whatever sequence of discover and expire events a well-formed
/// behaviour has been driven through, its partial view holds no duplicate
/// peer identifier, and holds no peer for which discovery has reported
/// expiry on all known addresses: every view member is still tracked on at
/// least one address. Every constructor establishes `wf` and every mutator
/// preserves it, so this holds in every reachable state.
pub proof fn lemma_view_integrity(b: ChatBehaviour)
    requires
        b.wf(),
    ensures
        forall|i: int, j: int|
            0 <= i < j < b.bcast().view_members().len() ==> b.bcast().view_members()[i]
                != b.bcast().view_members()[j],
        forall|p: PeerId| b.bcast().in_view(p) ==> b.disc().tracks_peer(p),
{
    assert(b.bcast().the_view().wf());
}

/// The report the composer makes for an expiry event.
pub open spec fn log_expired(e: DiscoveryEvent) -> Action {
    match e {
        DiscoveryEvent::PeerExpired(p) => Action::LogExpired(p),
        DiscoveryEvent::PeerDiscovered(p, _) => Action::LogDiscovered(p),
    }
}

} // verus!
