//! Local peer discovery: per-peer, per-address freshness records.
//!
//! Each valid advertisement from a peer's address creates or refreshes one
//! record; a record whose freshness window elapses without a refresh is
//! dropped. A `PeerDiscovered` event is emitted when an address is first
//! seen (or seen again after lapsing); a `PeerExpired` event is emitted only
//! once every address record of that peer has lapsed. Malformed
//! advertisements never reach this module: the wire layer drops them.

use vstd::prelude::*;
use crate::peer::{Addr, PeerId};

verus! {

/// One tracked address of a peer, with the time at which it lapses unless a
/// fresh advertisement arrives first.
#[derive(Clone, Copy, PartialEq, Eq, Structural, Debug)]
pub struct DiscoveryRecord {
    pub peer: PeerId,
    pub addr: Addr,
    pub expires_at: u64,
}

/// What discovery reports upward: a peer (newly) reachable at an address, or
/// a peer all of whose known addresses have lapsed.
#[derive(Clone, Copy, PartialEq, Eq, Structural, Debug)]
pub enum DiscoveryEvent {
    PeerDiscovered(PeerId, Addr),
    PeerExpired(PeerId),
}

/// The discovery service: owns the address records; everything above it only
/// sees the events derived from them, never the addresses themselves.
pub struct DiscoveryService {
    records: Vec<DiscoveryRecord>,
    window: u64,
}

impl DiscoveryService {
    /// The tracked records, one per (peer, address) pair.
    pub closed spec fn recs(self) -> Seq<DiscoveryRecord> {
        self.records@
    }

    /// The refresh window: how long a record stays fresh after an
    /// advertisement.
    pub closed spec fn refresh_window(self) -> u64 {
        self.window
    }

    /// Well-formedness: at most one record per (peer, address) pair.
    pub open spec fn wf(self) -> bool {
        forall|i: int, j: int|
            0 <= i < j < self.recs().len() ==> !(self.recs()[i].peer == self.recs()[j].peer
                && self.recs()[i].addr == self.recs()[j].addr)
    }

    /// Whether an address of a peer is tracked at all.
    pub open spec fn tracks(self, p: PeerId, a: Addr) -> bool {
        exists|i: int|
            0 <= i < self.recs().len() && self.recs()[i].peer == p && self.recs()[i].addr == a
    }

    /// The index of the record for (p, a); meaningful only when tracked.
    pub open spec fn idx_of(self, p: PeerId, a: Addr) -> int {
        choose|i: int|
            0 <= i < self.recs().len() && self.recs()[i].peer == p && self.recs()[i].addr == a
    }

    /// The time at which the record for (p, a) lapses; meaningful only when
    /// tracked.
    pub open spec fn expiry_of(self, p: PeerId, a: Addr) -> u64 {
        self.recs()[self.idx_of(p, a)].expires_at
    }

    /// Whether the record for (p, a) is tracked and still fresh at `now`.
    pub open spec fn live(self, p: PeerId, a: Addr, now: u64) -> bool {
        self.tracks(p, a) && self.expiry_of(p, a) > now
    }

    /// Whether any address of the peer is tracked.
    pub open spec fn tracks_peer(self, p: PeerId) -> bool {
        exists|i: int| 0 <= i < self.recs().len() && self.recs()[i].peer == p
    }

    /// Whether any address of the peer is still fresh at `now`.
    pub open spec fn live_peer(self, p: PeerId, now: u64) -> bool {
        exists|i: int|
            0 <= i < self.recs().len() && self.recs()[i].peer == p
                && self.recs()[i].expires_at > now
    }

    /// Whether an advertisement from (p, a) at `now` would be reported
    /// upward: only an address that is not currently fresh is news.
    pub open spec fn emits_discovery(self, p: PeerId, a: Addr, now: u64) -> bool {
        !self.live(p, a, now)
    }

    /// Peer-level tracking and freshness are the address-level facts folded
    /// over the peer's addresses.
    pub proof fn lemma_peer_level(self, q: PeerId, now: u64)
        requires
            self.wf(),
        ensures
            self.tracks_peer(q) <==> (exists|b: Addr| self.tracks(q, b)),
            self.live_peer(q, now) <==> (exists|b: Addr| self.live(q, b, now)),
    {
        if self.tracks_peer(q) {
            let i = choose|i: int| 0 <= i < self.recs().len() && self.recs()[i].peer == q;
            let b = self.recs()[i].addr;
            assert(self.tracks(q, b));
        }
        if exists|b: Addr| self.tracks(q, b) {
            let b = choose|b: Addr| self.tracks(q, b);
            let i = self.idx_of(q, b);
            assert(0 <= i < self.recs().len() && self.recs()[i].peer == q);
        }
        if self.live_peer(q, now) {
            let i = choose|i: int|
                0 <= i < self.recs().len() && self.recs()[i].peer == q
                    && self.recs()[i].expires_at > now;
            let b = self.recs()[i].addr;
            self.lemma_key_at(q, b, i);
            assert(self.live(q, b, now));
        }
        if exists|b: Addr| self.live(q, b, now) {
            let b = choose|b: Addr| self.live(q, b, now);
            let i = self.idx_of(q, b);
            assert(0 <= i < self.recs().len() && self.recs()[i].peer == q
                && self.recs()[i].expires_at > now);
        }
    }

    /// With at most one record per pair, the record index is determined.
    pub proof fn lemma_key_at(self, p: PeerId, a: Addr, j: int)
        requires
            self.wf(),
            0 <= j < self.recs().len(),
            self.recs()[j].peer == p,
            self.recs()[j].addr == a,
        ensures
            self.tracks(p, a),
            self.idx_of(p, a) == j,
            self.expiry_of(p, a) == self.recs()[j].expires_at,
    {
        assert(self.tracks(p, a));
        let i = self.idx_of(p, a);
        assert(0 <= i < self.recs().len() && self.recs()[i].peer == p && self.recs()[i].addr
            == a);
        if i < j {
            assert(false);
        } else if j < i {
            assert(false);
        }
    }

    /// A service with no records and the given refresh window.
    pub fn new(window: u64) -> (d: DiscoveryService)
        ensures
            d.wf(),
            d.refresh_window() == window,
            d.recs() == Seq::<DiscoveryRecord>::empty(),
    {
        DiscoveryService { records: Vec::new(), window }
    }

    /// The index of the record for (p, a), if one is tracked.
    fn find(&self, p: PeerId, a: Addr) -> (r: Option<usize>)
        ensures
            match r {
                Some(i) => i < self.recs().len() && self.recs()[i as int].peer == p
                    && self.recs()[i as int].addr == a,
                None => !self.tracks(p, a),
            },
    {
        let mut i: usize = 0;
        while i < self.records.len()
            invariant
                i <= self.recs().len(),
                forall|k: int|
                    0 <= k < i ==> !(self.recs()[k].peer == p && self.recs()[k].addr == a),
            decreases self.recs().len() - i,
        {
            if self.records[i].peer == p && self.records[i].addr == a {
                return Some(i);
            }
            i = i + 1;
        }
        None
    }

    /// Whether any address of the peer is still fresh at `now`.
    pub fn has_node(&self, p: PeerId, now: u64) -> (r: bool)
        ensures
            r == self.live_peer(p, now),
    {
        let mut i: usize = 0;
        while i < self.records.len()
            invariant
                i <= self.recs().len(),
                forall|k: int|
                    0 <= k < i ==> !(self.recs()[k].peer == p && self.recs()[k].expires_at
                        > now),
            decreases self.recs().len() - i,
        {
            if self.records[i].peer == p && self.records[i].expires_at > now {
                return true;
            }
            i = i + 1;
        }
        false
    }

    /// A valid advertisement from address `a` of peer `p` arrived at `now`:
    /// the record is created or its freshness reset, and `PeerDiscovered` is
    /// reported exactly when the address was not already fresh (a repeat
    /// advertisement within the window is a silent refresh).
    pub fn on_advertisement(&mut self, p: PeerId, a: Addr, now: u64) -> (ev: Option<
        DiscoveryEvent,
    >)
        requires
            old(self).wf(),
            now <= u64::MAX - old(self).refresh_window(),
        ensures
            final(self).wf(),
            final(self).refresh_window() == old(self).refresh_window(),
            final(self).tracks(p, a),
            final(self).expiry_of(p, a) == now + old(self).refresh_window(),
            forall|q: PeerId, b: Addr|
                !(q == p && b == a) ==> (final(self).tracks(q, b) <==> old(self).tracks(q, b)),
            forall|q: PeerId, b: Addr|
                !(q == p && b == a) && old(self).tracks(q, b) ==> final(self).expiry_of(q, b)
                    == old(self).expiry_of(q, b),
            forall|q: PeerId| final(self).tracks_peer(q) <==> (old(self).tracks_peer(q) || q == p),
            ev is Some <==> old(self).emits_discovery(p, a, now),
            ev is Some ==> ev == Some(DiscoveryEvent::PeerDiscovered(p, a)),
    {
        let ghost pre = *self;
        let fresh = DiscoveryRecord { peer: p, addr: a, expires_at: now + self.window };
        match self.find(p, a) {
            Some(i) => {
                let ghost idx = i as int;
                let was_fresh = self.records[i].expires_at > now;
                proof {
                    pre.lemma_key_at(p, a, idx);
                }
                self.records[i] = fresh;
                assert(self.recs() == pre.recs().update(idx, fresh));
                proof {
                    self.lemma_advertise_update(pre, p, a, idx, fresh);
                    self.lemma_key_at(p, a, idx);
                }
                if was_fresh {
                    None
                } else {
                    Some(DiscoveryEvent::PeerDiscovered(p, a))
                }
            },
            None => {
                let ghost idx = pre.recs().len() as int;
                self.records.push(fresh);
                assert(self.recs() == pre.recs().push(fresh));
                proof {
                    self.lemma_advertise_push(pre, p, a, fresh);
                    self.lemma_key_at(p, a, idx);
                }
                Some(DiscoveryEvent::PeerDiscovered(p, a))
            },
        }
    }

    /// The freshness windows elapse: every record whose expiry time has been
    /// reached is dropped, and `PeerExpired(q)` is reported exactly for the
    /// peers that were tracked but no address of which is still fresh — a
    /// peer reachable through several addresses must lose all of them before
    /// it is reported gone.
    pub fn tick(&mut self, now: u64) -> (evs: Vec<DiscoveryEvent>)
        requires
            old(self).wf(),
        ensures
            final(self).wf(),
            final(self).refresh_window() == old(self).refresh_window(),
            forall|q: PeerId, b: Addr|
                final(self).tracks(q, b) <==> (old(self).tracks(q, b) && old(self).expiry_of(q, b)
                    > now),
            forall|q: PeerId, b: Addr|
                final(self).tracks(q, b) ==> final(self).expiry_of(q, b) == old(self).expiry_of(
                    q,
                    b,
                ),
            forall|q: PeerId| final(self).tracks_peer(q) <==> old(self).live_peer(q, now),
            forall|q: PeerId| final(self).live_peer(q, now) <==> old(self).live_peer(q, now),
            forall|k: int| 0 <= k < evs@.len() ==> evs@[k] is PeerExpired,
            forall|q: PeerId|
                evs@.contains(DiscoveryEvent::PeerExpired(q)) <==> (old(self).tracks_peer(q)
                    && !old(self).live_peer(q, now)),
            forall|k1: int, k2: int| 0 <= k1 < k2 < evs@.len() ==> evs@[k1] != evs@[k2],
    {
        let ghost pre = *self;
        let mut evs: Vec<DiscoveryEvent> = Vec::new();
        let mut i: usize = 0;
        while i < self.records.len()
            invariant
                *self == pre,
                pre.wf(),
                i <= pre.recs().len(),
                forall|k: int| 0 <= k < evs@.len() ==> evs@[k] is PeerExpired,
                forall|q: PeerId|
                    #![trigger evs@.contains(DiscoveryEvent::PeerExpired(q))]
                    #![trigger pre.live_peer(q, now)]
                    evs@.contains(DiscoveryEvent::PeerExpired(q)) <==> ((exists|j: int|
                        #![trigger pre.recs()[j]]
                        0 <= j < i && pre.recs()[j].peer == q) && !pre.live_peer(q, now)),
                forall|k1: int, k2: int| 0 <= k1 < k2 < evs@.len() ==> evs@[k1] != evs@[k2],
            decreases self.recs().len() - i,
        {
            let ghost evs_snap = evs@;
            let p = self.records[i].peer;
            let lapsed = !self.has_node(p, now);
            let already = contains_expired(&evs, p);
            if lapsed && !already {
                evs.push(DiscoveryEvent::PeerExpired(p));
            }
            proof {
                assert forall|k: int| 0 <= k < evs@.len() implies evs@[k] is PeerExpired by {
                    if k < evs_snap.len() {
                        assert(evs@[k] == evs_snap[k]);
                    }
                }
                assert forall|q: PeerId|
                    #![trigger evs@.contains(DiscoveryEvent::PeerExpired(q))]
                    #![trigger pre.live_peer(q, now)]
                    evs@.contains(DiscoveryEvent::PeerExpired(q)) <==> ((exists|j: int|
                        #![trigger pre.recs()[j]]
                        0 <= j < i + 1 && pre.recs()[j].peer == q) && !pre.live_peer(
                        q,
                        now,
                    )) by {
                    let pe = DiscoveryEvent::PeerExpired(q);
                    if evs_snap.contains(pe) {
                        assert((exists|j: int| 0 <= j < i && pre.recs()[j].peer == q)
                            && !pre.live_peer(q, now));
                        let j = choose|j: int| 0 <= j < i && pre.recs()[j].peer == q;
                        assert(0 <= j < i + 1 && pre.recs()[j].peer == q);
                        let k = choose|k: int| 0 <= k < evs_snap.len() && evs_snap[k] == pe;
                        assert(evs@[k] == pe);
                        assert(evs@.contains(pe));
                    } else if lapsed && !already && q == p {
                        assert(evs@[evs@.len() - 1] == pe);
                        assert(evs@.contains(pe));
                        assert(pre.recs()[i as int].peer == q);
                        assert(!pre.live_peer(q, now));
                    } else {
                        assert(!evs@.contains(pe)) by {
                            if evs@.contains(pe) {
                                let k = choose|k: int| 0 <= k < evs@.len() && evs@[k] == pe;
                                if k < evs_snap.len() {
                                    assert(evs_snap[k] == pe);
                                    assert(evs_snap.contains(pe));
                                } else {
                                    assert(evs@[k] == DiscoveryEvent::PeerExpired(p));
                                }
                            }
                        }
                        assert(!((exists|j: int| 0 <= j < i + 1 && pre.recs()[j].peer == q)
                            && !pre.live_peer(q, now))) by {
                            if (exists|j: int| 0 <= j < i + 1 && pre.recs()[j].peer == q)
                                && !pre.live_peer(q, now) {
                                let j = choose|j: int|
                                    0 <= j < i + 1 && pre.recs()[j].peer == q;
                                if j < i {
                                    assert(exists|j2: int|
                                        0 <= j2 < i && pre.recs()[j2].peer == q);
                                    assert(evs_snap.contains(pe));
                                } else {
                                    assert(q == p);
                                    assert(lapsed);
                                    assert(already);
                                    assert(evs_snap.contains(pe));
                                }
                            }
                        }
                    }
                }
                assert forall|k1: int, k2: int| 0 <= k1 < k2 < evs@.len()
                    implies evs@[k1] != evs@[k2] by {
                    if k2 < evs_snap.len() {
                        assert(evs_snap[k1] == evs@[k1]);
                        assert(evs_snap[k2] == evs@[k2]);
                    } else {
                        assert(evs_snap[k1] == evs@[k1]);
                        if evs@[k1] == DiscoveryEvent::PeerExpired(p) {
                            assert(evs_snap.contains(DiscoveryEvent::PeerExpired(p)));
                        }
                    }
                }
            }
            i = i + 1;
        }
        self.sweep(now);
        proof {
            assert forall|q: PeerId|
                evs@.contains(DiscoveryEvent::PeerExpired(q)) <==> (pre.tracks_peer(q)
                    && !pre.live_peer(q, now)) by {
                let pe = DiscoveryEvent::PeerExpired(q);
                if evs@.contains(pe) {
                    assert((exists|j2: int| 0 <= j2 < i && pre.recs()[j2].peer == q)
                        && !pre.live_peer(q, now));
                    let j2 = choose|j2: int| 0 <= j2 < i && pre.recs()[j2].peer == q;
                    assert(pre.tracks_peer(q));
                }
                if pre.tracks_peer(q) && !pre.live_peer(q, now) {
                    let j2 = choose|j2: int|
                        0 <= j2 < pre.recs().len() && pre.recs()[j2].peer == q;
                    assert(0 <= j2 < i && pre.recs()[j2].peer == q);
                    assert(evs@.contains(pe));
                }
            }
        }
        evs
    }

    /// Drops every record whose freshness window has elapsed; what each peer
    /// and address was tracked as is otherwise unchanged.
    fn sweep(&mut self, now: u64)
        requires
            old(self).wf(),
        ensures
            final(self).wf(),
            final(self).refresh_window() == old(self).refresh_window(),
            forall|q: PeerId, b: Addr|
                final(self).tracks(q, b) <==> (old(self).tracks(q, b) && old(self).expiry_of(q, b)
                    > now),
            forall|q: PeerId, b: Addr|
                final(self).tracks(q, b) ==> final(self).expiry_of(q, b) == old(self).expiry_of(
                    q,
                    b,
                ),
            forall|q: PeerId| final(self).tracks_peer(q) <==> old(self).live_peer(q, now),
            forall|q: PeerId| final(self).live_peer(q, now) <==> old(self).live_peer(q, now),
    {
        let ghost pre = *self;
        let mut kept: Vec<DiscoveryRecord> = Vec::new();
        let mut j: usize = 0;
        while j < self.records.len()
            invariant
                *self == pre,
                pre.wf(),
                j <= pre.recs().len(),
                forall|k: int| 0 <= k < kept@.len() ==> kept@[k].expires_at > now,
                forall|k: int|
                    0 <= k < kept@.len() ==> pre.recs().contains(#[trigger] kept@[k]),
                forall|k: int|
                    #![trigger kept@[k]]
                    0 <= k < kept@.len() ==> exists|j2: int|
                        #![trigger pre.recs()[j2]]
                        0 <= j2 < j && pre.recs()[j2] == kept@[k],
                forall|j2: int|
                    0 <= j2 < j && pre.recs()[j2].expires_at > now ==> kept@.contains(
                        pre.recs()[j2],
                    ),
                forall|k1: int, k2: int|
                    0 <= k1 < k2 < kept@.len() ==> !(kept@[k1].peer == kept@[k2].peer
                        && kept@[k1].addr == kept@[k2].addr),
            decreases self.recs().len() - j,
        {
            let ghost kept_snap = kept@;
            if self.records[j].expires_at > now {
                kept.push(self.records[j]);
                assert forall|k: int| #![trigger kept@[k]] 0 <= k < kept@.len()
                    implies exists|j2: int|
                    #![trigger pre.recs()[j2]]
                    0 <= j2 < j + 1 && pre.recs()[j2] == kept@[k] by {
                    if k < kept@.len() - 1 {
                        assert(kept@[k] == kept_snap[k]);
                        let j2 = choose|j2: int| 0 <= j2 < j && pre.recs()[j2] == kept_snap[k];
                        assert(0 <= j2 < j + 1 && pre.recs()[j2] == kept@[k]);
                    } else {
                        assert(pre.recs()[j as int] == kept@[k]);
                    }
                }
                assert forall|k: int| 0 <= k < kept@.len() implies pre.recs().contains(
                    #[trigger] kept@[k],
                ) by {
                    if k < kept@.len() - 1 {
                        assert(kept@[k] == kept_snap[k]);
                        assert(pre.recs().contains(kept_snap[k]));
                    } else {
                        assert(pre.recs()[j as int] == kept@[k]);
                    }
                }
                assert forall|j2: int| 0 <= j2 < j + 1 && pre.recs()[j2].expires_at > now
                    implies kept@.contains(pre.recs()[j2]) by {
                    if j2 < j {
                        assert(kept_snap.contains(pre.recs()[j2]));
                        let k = choose|k: int|
                            0 <= k < kept_snap.len() && kept_snap[k] == pre.recs()[j2];
                        assert(kept@[k] == pre.recs()[j2]);
                    } else {
                        assert(kept@[kept@.len() - 1] == pre.recs()[j2]);
                    }
                }
                assert forall|k1: int, k2: int| 0 <= k1 < k2 < kept@.len()
                    implies !(kept@[k1].peer == kept@[k2].peer && kept@[k1].addr
                    == kept@[k2].addr) by {
                    if k2 == kept@.len() - 1 {
                        assert(kept@[k1] == kept_snap[k1]);
                        let j2 = choose|j2: int| 0 <= j2 < j && pre.recs()[j2] == kept_snap[k1];
                        assert(pre.recs()[j2] == kept@[k1]);
                        assert(kept@[k2] == pre.recs()[j as int]);
                    } else {
                        assert(kept@[k1] == kept_snap[k1]);
                        assert(kept@[k2] == kept_snap[k2]);
                    }
                }
            } else {
                assert forall|j2: int| 0 <= j2 < j + 1 && pre.recs()[j2].expires_at > now
                    implies kept@.contains(pre.recs()[j2]) by {
                }
            }
            j = j + 1;
        }
        let ghost keptv = kept@;
        self.records = kept;
        proof {
            assert(self.recs() == keptv);
            assert forall|k: int| 0 <= k < self.recs().len()
                implies #[trigger] self.recs()[k].expires_at > now && pre.recs().contains(
                self.recs()[k],
            ) by {
                assert(keptv[k] == self.recs()[k]);
                assert(keptv[k].expires_at > now);
                assert(pre.recs().contains(keptv[k]));
            }
            assert forall|j2: int| 0 <= j2 < pre.recs().len() && pre.recs()[j2].expires_at > now
                implies self.recs().contains(pre.recs()[j2]) by {
                assert(keptv.contains(pre.recs()[j2]));
            }
            assert forall|k1: int, k2: int| 0 <= k1 < k2 < self.recs().len()
                implies !(self.recs()[k1].peer == self.recs()[k2].peer && self.recs()[k1].addr
                == self.recs()[k2].addr) by {
                assert(keptv[k1] == self.recs()[k1]);
                assert(keptv[k2] == self.recs()[k2]);
            }
            self.lemma_tick_post(pre, now);
        }
    }

    /// Relates the surviving records to the records before the sweep.
    proof fn lemma_tick_post(self, pre: DiscoveryService, now: u64)
        requires
            pre.wf(),
            forall|k: int| 0 <= k < self.recs().len() ==> self.recs()[k].expires_at > now,
            forall|k: int|
                0 <= k < self.recs().len() ==> pre.recs().contains(#[trigger] self.recs()[k]),
            forall|j2: int|
                0 <= j2 < pre.recs().len() && pre.recs()[j2].expires_at > now
                    ==> self.recs().contains(pre.recs()[j2]),
            forall|k1: int, k2: int|
                0 <= k1 < k2 < self.recs().len() ==> !(self.recs()[k1].peer
                    == self.recs()[k2].peer && self.recs()[k1].addr == self.recs()[k2].addr),
        ensures
            self.wf(),
            forall|q: PeerId, b: Addr|
                self.tracks(q, b) <==> (pre.tracks(q, b) && pre.expiry_of(q, b) > now),
            forall|q: PeerId, b: Addr|
                self.tracks(q, b) ==> self.expiry_of(q, b) == pre.expiry_of(q, b),
            forall|q: PeerId| self.tracks_peer(q) <==> pre.live_peer(q, now),
            forall|q: PeerId| self.live_peer(q, now) <==> pre.live_peer(q, now),
    {
        assert forall|q: PeerId, b: Addr| self.tracks(q, b)
            implies (pre.tracks(q, b) && pre.expiry_of(q, b) > now && self.expiry_of(q, b)
            == pre.expiry_of(q, b)) by {
            let k = self.idx_of(q, b);
            assert(0 <= k < self.recs().len() && self.recs()[k].peer == q && self.recs()[k].addr
                == b);
            self.lemma_key_at(q, b, k);
            assert(pre.recs().contains(self.recs()[k]));
            let j2 = choose|j2: int|
                0 <= j2 < pre.recs().len() && pre.recs()[j2] == self.recs()[k];
            pre.lemma_key_at(q, b, j2);
        }
        assert forall|q: PeerId, b: Addr| pre.tracks(q, b) && pre.expiry_of(q, b) > now
            implies self.tracks(q, b) by {
            let j2 = pre.idx_of(q, b);
            assert(0 <= j2 < pre.recs().len() && pre.recs()[j2].peer == q && pre.recs()[j2].addr
                == b);
            pre.lemma_key_at(q, b, j2);
            assert(self.recs().contains(pre.recs()[j2]));
            let k = choose|k: int|
                0 <= k < self.recs().len() && self.recs()[k] == pre.recs()[j2];
            assert(self.recs()[k].peer == q);
        }
        assert forall|q: PeerId| self.tracks_peer(q) implies pre.live_peer(q, now) by {
            let k = choose|k: int| 0 <= k < self.recs().len() && self.recs()[k].peer == q;
            assert(pre.recs().contains(self.recs()[k]));
            let j2 = choose|j2: int|
                0 <= j2 < pre.recs().len() && pre.recs()[j2] == self.recs()[k];
            assert(pre.recs()[j2].peer == q && pre.recs()[j2].expires_at > now);
        }
        assert forall|q: PeerId| pre.live_peer(q, now) implies self.live_peer(q, now) by {
            let j2 = choose|j2: int|
                0 <= j2 < pre.recs().len() && pre.recs()[j2].peer == q
                    && pre.recs()[j2].expires_at > now;
            assert(self.recs().contains(pre.recs()[j2]));
            let k = choose|k: int|
                0 <= k < self.recs().len() && self.recs()[k] == pre.recs()[j2];
            assert(self.recs()[k].peer == q && self.recs()[k].expires_at > now);
        }
    }

    /// Frame facts for refreshing the record at `idx` in place.
    proof fn lemma_advertise_update(
        self,
        pre: DiscoveryService,
        p: PeerId,
        a: Addr,
        idx: int,
        fresh: DiscoveryRecord,
    )
        requires
            pre.wf(),
            0 <= idx < pre.recs().len(),
            pre.recs()[idx].peer == p,
            pre.recs()[idx].addr == a,
            fresh.peer == p,
            fresh.addr == a,
            self.recs() == pre.recs().update(idx, fresh),
        ensures
            self.wf(),
            forall|q: PeerId, b: Addr|
                !(q == p && b == a) ==> (self.tracks(q, b) <==> pre.tracks(q, b)),
            forall|q: PeerId, b: Addr|
                !(q == p && b == a) && pre.tracks(q, b) ==> self.expiry_of(q, b) == pre.expiry_of(
                    q,
                    b,
                ),
            forall|q: PeerId| self.tracks_peer(q) <==> (pre.tracks_peer(q) || q == p),
    {
        assert forall|i: int, j: int|
            0 <= i < j < self.recs().len() implies !(self.recs()[i].peer == self.recs()[j].peer
            && self.recs()[i].addr == self.recs()[j].addr) by {
            assert(pre.recs()[i].peer == (if i == idx { p } else { self.recs()[i].peer }));
        }
        assert forall|q: PeerId, b: Addr| !(q == p && b == a) && self.tracks(q, b)
            implies pre.tracks(q, b) by {
            let k = choose|k: int|
                0 <= k < self.recs().len() && self.recs()[k].peer == q && self.recs()[k].addr
                    == b;
            assert(k != idx);
            assert(pre.recs()[k] == self.recs()[k]);
        }
        assert forall|q: PeerId, b: Addr| !(q == p && b == a) && pre.tracks(q, b)
            implies self.tracks(q, b) by {
            let k = choose|k: int|
                0 <= k < pre.recs().len() && pre.recs()[k].peer == q && pre.recs()[k].addr == b;
            assert(k != idx);
            assert(self.recs()[k] == pre.recs()[k]);
        }
        assert forall|q: PeerId, b: Addr| !(q == p && b == a) && pre.tracks(q, b)
            implies self.expiry_of(q, b) == pre.expiry_of(q, b) by {
            let k2 = pre.idx_of(q, b);
            assert(0 <= k2 < pre.recs().len() && pre.recs()[k2].peer == q && pre.recs()[k2].addr
                == b);
            assert(k2 != idx);
            assert(self.recs()[k2] == pre.recs()[k2]);
            self.lemma_key_at(q, b, k2);
        }
        assert forall|q: PeerId| self.tracks_peer(q) implies (pre.tracks_peer(q) || q == p) by {
            let k = choose|k: int| 0 <= k < self.recs().len() && self.recs()[k].peer == q;
            if k != idx {
                assert(pre.recs()[k] == self.recs()[k]);
            }
        }
        assert forall|q: PeerId| pre.tracks_peer(q) implies self.tracks_peer(q) || q == p by {
            let k = choose|k: int| 0 <= k < pre.recs().len() && pre.recs()[k].peer == q;
            if k != idx {
                assert(self.recs()[k] == pre.recs()[k]);
            }
        }
        assert(self.recs()[idx].peer == p);
    }

    /// Frame facts for appending a record for a pair not tracked before.
    proof fn lemma_advertise_push(
        self,
        pre: DiscoveryService,
        p: PeerId,
        a: Addr,
        fresh: DiscoveryRecord,
    )
        requires
            pre.wf(),
            !pre.tracks(p, a),
            fresh.peer == p,
            fresh.addr == a,
            self.recs() == pre.recs().push(fresh),
        ensures
            self.wf(),
            forall|q: PeerId, b: Addr|
                !(q == p && b == a) ==> (self.tracks(q, b) <==> pre.tracks(q, b)),
            forall|q: PeerId, b: Addr|
                !(q == p && b == a) && pre.tracks(q, b) ==> self.expiry_of(q, b) == pre.expiry_of(
                    q,
                    b,
                ),
            forall|q: PeerId| self.tracks_peer(q) <==> (pre.tracks_peer(q) || q == p),
    {
        let n = pre.recs().len() as int;
        assert forall|i: int, j: int|
            0 <= i < j < self.recs().len() implies !(self.recs()[i].peer == self.recs()[j].peer
            && self.recs()[i].addr == self.recs()[j].addr) by {
            if j == n {
                assert(self.recs()[i] == pre.recs()[i]);
                if self.recs()[i].peer == p && self.recs()[i].addr == a {
                    assert(pre.tracks(p, a));
                }
            } else {
                assert(self.recs()[i] == pre.recs()[i]);
                assert(self.recs()[j] == pre.recs()[j]);
            }
        }
        assert forall|q: PeerId, b: Addr| !(q == p && b == a) && self.tracks(q, b)
            implies pre.tracks(q, b) by {
            let k = choose|k: int|
                0 <= k < self.recs().len() && self.recs()[k].peer == q && self.recs()[k].addr
                    == b;
            assert(k != n);
            assert(pre.recs()[k] == self.recs()[k]);
        }
        assert forall|q: PeerId, b: Addr| !(q == p && b == a) && pre.tracks(q, b)
            implies self.tracks(q, b) by {
            let k = choose|k: int|
                0 <= k < pre.recs().len() && pre.recs()[k].peer == q && pre.recs()[k].addr == b;
            assert(self.recs()[k] == pre.recs()[k]);
        }
        assert forall|q: PeerId, b: Addr| !(q == p && b == a) && pre.tracks(q, b)
            implies self.expiry_of(q, b) == pre.expiry_of(q, b) by {
            let k2 = pre.idx_of(q, b);
            assert(0 <= k2 < pre.recs().len() && pre.recs()[k2].peer == q && pre.recs()[k2].addr
                == b);
            assert(self.recs()[k2] == pre.recs()[k2]);
            self.lemma_key_at(q, b, k2);
        }
        assert forall|q: PeerId| self.tracks_peer(q) implies (pre.tracks_peer(q) || q == p) by {
            let k = choose|k: int| 0 <= k < self.recs().len() && self.recs()[k].peer == q;
            if k != n {
                assert(pre.recs()[k] == self.recs()[k]);
            }
        }
        assert forall|q: PeerId| pre.tracks_peer(q) implies self.tracks_peer(q) || q == p by {
            let k = choose|k: int| 0 <= k < pre.recs().len() && pre.recs()[k].peer == q;
            assert(self.recs()[k] == pre.recs()[k]);
        }
        assert(self.recs()[n].peer == p);
    }
}

/// Whether a `PeerExpired(p)` event is already in the batch.
fn contains_expired(evs: &Vec<DiscoveryEvent>, p: PeerId) -> (r: bool)
    ensures
        r == evs@.contains(DiscoveryEvent::PeerExpired(p)),
{
    let mut i: usize = 0;
    while i < evs.len()
        invariant
            i <= evs@.len(),
            forall|k: int| 0 <= k < i ==> evs@[k] != DiscoveryEvent::PeerExpired(p),
        decreases evs@.len() - i,
    {
        if evs[i] == DiscoveryEvent::PeerExpired(p) {
            return true;
        }
        i = i + 1;
    }
    false
}

/// Law: discovering the same peer twice in a row is reported once. After an
/// advertisement from (p, a) at time `t1` has been recorded, a repeat
/// advertisement from the same address at any `t2` before the refresh window
/// has elapsed emits no further `PeerDiscovered` event.
pub proof fn lemma_rediscovery_is_silent(
    mid: DiscoveryService,
    p: PeerId,
    a: Addr,
    t1: u64,
    t2: u64,
)
    requires
        mid.wf(),
        mid.tracks(p, a),
        mid.expiry_of(p, a) == t1 + mid.refresh_window(),
        t1 <= t2 < t1 + mid.refresh_window(),
    ensures
        !mid.emits_discovery(p, a, t2),
{
}

} // verus!
