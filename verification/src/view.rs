//! The partial view: the set of peers this peer forwards topic messages to.
//!
//! The view is mutated only by discovery events (add on discovery, remove on
//! expiry). Its invariant: a peer identifier appears at most once, and
//! removing an identifier that is not present is a no-op.

use vstd::prelude::*;
use crate::peer::PeerId;

verus! {

/// The locally-known subset of the network that this peer actively forwards
/// messages to; it need not be the full peer set.
pub struct PartialView {
    peers: Vec<PeerId>,
}

impl PartialView {
    /// The members of the view, in insertion order.
    pub closed spec fn members(self) -> Seq<PeerId> {
        self.peers@
    }

    /// Well-formedness: no peer identifier appears twice.
    pub open spec fn wf(self) -> bool {
        forall|i: int, j: int|
            0 <= i < j < self.members().len() ==> self.members()[i] != self.members()[j]
    }

    /// Whether the view holds the given peer.
    pub open spec fn has(self, p: PeerId) -> bool {
        self.members().contains(p)
    }

    /// An empty view.
    pub fn new() -> (v: PartialView)
        ensures
            v.wf(),
            v.members() == Seq::<PeerId>::empty(),
    {
        PartialView { peers: Vec::new() }
    }

    /// The number of peers in the view.
    pub fn len(&self) -> (n: usize)
        ensures
            n == self.members().len(),
    {
        self.peers.len()
    }

    /// The peer at the given position, in insertion order.
    pub fn peer_at(&self, i: usize) -> (p: PeerId)
        requires
            i < self.members().len(),
        ensures
            p == self.members()[i as int],
    {
        self.peers[i]
    }

    /// Membership test.
    pub fn contains_peer(&self, p: PeerId) -> (r: bool)
        ensures
            r == self.has(p),
    {
        let mut i: usize = 0;
        while i < self.peers.len()
            invariant
                i <= self.peers.len(),
                forall|k: int| 0 <= k < i ==> self.members()[k] != p,
            decreases self.peers.len() - i,
        {
            if self.peers[i] == p {
                return true;
            }
            i = i + 1;
        }
        false
    }

    /// Adds a peer; a no-op if it is already present, so the view never
    /// holds a duplicate identifier.
    pub fn insert(&mut self, p: PeerId)
        requires
            old(self).wf(),
        ensures
            final(self).wf(),
            old(self).has(p) ==> final(self).members() == old(self).members(),
            !old(self).has(p) ==> final(self).members() == old(self).members().push(p),
            final(self).has(p),
            forall|q: PeerId| final(self).has(q) <==> (old(self).has(q) || q == p),
    {
        let ghost pre = self.members();
        if !self.contains_peer(p) {
            self.peers.push(p);
            assert(self.has(p)) by {
                assert(self.members()[self.members().len() - 1] == p);
            }
            assert forall|q: PeerId| self.has(q) implies (pre.contains(q) || q == p) by {
                let k = choose|k: int| 0 <= k < self.members().len() && self.members()[k] == q;
                if k < pre.len() {
                    assert(pre[k] == q);
                }
            }
            assert forall|q: PeerId| pre.contains(q) implies self.has(q) by {
                let k = choose|k: int| 0 <= k < pre.len() && pre[k] == q;
                assert(self.members()[k] == q);
            }
        }
    }

    /// Removes a peer; a no-op if it is absent.
    pub fn remove(&mut self, p: PeerId)
        requires
            old(self).wf(),
        ensures
            final(self).wf(),
            !final(self).has(p),
            !old(self).has(p) ==> final(self).members() == old(self).members(),
            old(self).has(p) ==> (exists|k: int|
                0 <= k < old(self).members().len() && old(self).members()[k] == p
                    && final(self).members() == old(self).members().remove(k)),
            forall|q: PeerId| q != p ==> (final(self).has(q) <==> old(self).has(q)),
    {
        let ghost pre = self.members();
        let mut i: usize = 0;
        while i < self.peers.len()
            invariant
                i <= pre.len(),
                old(self).wf(),
                self.members() == pre,
                pre == old(self).members(),
                forall|k: int| 0 <= k < i ==> pre[k] != p,
            decreases self.peers.len() - i,
        {
            if self.peers[i] == p {
                let ghost idx = i as int;
                self.peers.remove(i);
                assert(self.members() == pre.remove(idx));
                assert forall|k: int| 0 <= k < self.members().len()
                    implies self.members()[k] == (if k < idx { pre[k] } else { pre[k + 1] }) by {
                }
                assert(self.wf());
                assert(!self.has(p)) by {
                    assert forall|k: int| 0 <= k < self.members().len()
                        implies self.members()[k] != p by {
                        if k >= idx {
                            assert(pre[k + 1] != p);
                        }
                    }
                }
                assert forall|q: PeerId| q != p && pre.contains(q)
                    implies self.has(q) by {
                    let k = choose|k: int| 0 <= k < pre.len() && pre[k] == q;
                    if k < idx {
                        assert(self.members()[k] == q);
                    } else {
                        assert(self.members()[k - 1] == q);
                    }
                }
                assert forall|q: PeerId| q != p && self.has(q)
                    implies pre.contains(q) by {
                    let k = choose|k: int|
                        0 <= k < self.members().len() && self.members()[k] == q;
                    if k < idx {
                        assert(pre[k] == q);
                    } else {
                        assert(pre[k + 1] == q);
                    }
                }
                return;
            }
            i = i + 1;
        }
    }
}

} // verus!
