//! Broker decisions: the peer registry and its pruning policy.
//!
//! The unverified rim owns the listening socket and the peer sockets,
//! keyed by the tokens held here. On each dispatch it writes the current
//! frame to every registered peer, records which writes succeeded, and
//! calls [`PeerRegistry::prune`]: a failed write is the only way a peer
//! leaves the registry.

use vstd::prelude::*;

verus! {

/// The registry after one dispatch: the peers whose write succeeded, in
/// their old order.
pub open spec fn pruned(peers: Seq<u64>, delivered: Seq<bool>) -> Seq<u64>
    decreases peers.len(),
{
    if peers.len() == 0 {
        Seq::empty()
    } else {
        pruned(peers.drop_last(), delivered.drop_last()) + if delivered.last() {
            seq![peers.last()]
        } else {
            Seq::empty()
        }
    }
}

/// A token is in the pruned registry exactly when it was registered at
/// some position whose write succeeded.
pub proof fn lemma_pruned_contains(peers: Seq<u64>, delivered: Seq<bool>, p: u64)
    requires
        peers.len() == delivered.len(),
    ensures
        pruned(peers, delivered).contains(p) <==> exists|i: int|
            0 <= i < peers.len() && peers[i] == p && delivered[i],
    decreases peers.len(),
{
    if peers.len() == 0 {
    } else {
        lemma_pruned_contains(peers.drop_last(), delivered.drop_last(), p);
        let n = peers.len() as int;
        if pruned(peers, delivered).contains(p) {
            if pruned(peers.drop_last(), delivered.drop_last()).contains(p) {
                let i = choose|i: int|
                    0 <= i < peers.drop_last().len() && peers.drop_last()[i] == p
                        && delivered.drop_last()[i];
                assert(peers[i] == p && delivered[i]);
            } else {
                assert(delivered.last() && peers.last() == p);
                assert(peers[n - 1] == p && delivered[n - 1]);
            }
        }
        if exists|i: int| 0 <= i < peers.len() && peers[i] == p && delivered[i] {
            let i = choose|i: int| 0 <= i < peers.len() && peers[i] == p && delivered[i];
            if i < n - 1 {
                assert(peers.drop_last()[i] == p && delivered.drop_last()[i]);
                let sub = pruned(peers.drop_last(), delivered.drop_last());
                let j = choose|j: int| 0 <= j < sub.len() && sub[j] == p;
                assert(pruned(peers, delivered)[j] == p);
            } else {
                assert(delivered.last());
                assert(pruned(peers, delivered).last() == p);
            }
        }
    }
}

/// Broker pruning: a peer whose write failed is absent from the registry
/// before the next dispatch — provided, as the registry's invariant
/// guarantees, that no other position holds the same token.
pub proof fn lemma_failed_peer_absent(peers: Seq<u64>, delivered: Seq<bool>, i: int)
    requires
        peers.len() == delivered.len(),
        0 <= i < peers.len(),
        !delivered[i],
        forall|j: int, k: int| 0 <= j < k < peers.len() ==> peers[j] != peers[k],
    ensures
        !pruned(peers, delivered).contains(peers[i]),
{
    lemma_pruned_contains(peers, delivered, peers[i]);
    if pruned(peers, delivered).contains(peers[i]) {
        let j = choose|j: int| 0 <= j < peers.len() && peers[j] == peers[i] && delivered[j];
        if j < i {
            assert(peers[j] != peers[i]);
        } else if j > i {
            assert(peers[i] != peers[j]);
        }
    }
}

/// The broker's set of connected peers, each named by a token the rim
/// maps to a socket. Mutated only by the dispatch loop.
pub struct PeerRegistry {
    /// Registered peer tokens, in order of connection.
    pub peers: Vec<u64>,
}

impl PeerRegistry {
    /// No token appears twice.
    pub open spec fn wf(&self) -> bool {
        forall|j: int, k: int| 0 <= j < k < self.peers@.len() ==> self.peers@[j] != self.peers@[k]
    }

    /// An empty registry.
    pub fn new() -> (r: PeerRegistry)
        ensures
            r.wf(),
            r.peers@ == Seq::<u64>::empty(),
    {
        let r = PeerRegistry { peers: Vec::new() };
        proof {
            assert(r.peers@ =~= Seq::<u64>::empty());
        }
        r
    }

    /// Number of registered peers.
    pub fn len(&self) -> (n: usize)
        ensures
            n == self.peers@.len(),
    {
        self.peers.len()
    }

    /// The token at position `i`, for the rim's dispatch loop.
    pub fn peer_at(&self, i: usize) -> (p: u64)
        requires
            i < self.peers@.len(),
        ensures
            p == self.peers@[i as int],
    {
        self.peers[i]
    }

    /// Admit a newly accepted peer under a token not yet in use.
    pub fn register(&mut self, peer: u64)
        requires
            old(self).wf(),
            forall|j: int| 0 <= j < old(self).peers@.len() ==> old(self).peers@[j] != peer,
        ensures
            final(self).peers@ == old(self).peers@.push(peer),
            final(self).wf(),
    {
        self.peers.push(peer);
    }

    /// Keep exactly the peers whose write succeeded, in order: `delivered`
    /// reports, position by position, the outcome of the dispatch.
    pub fn prune(&mut self, delivered: &Vec<bool>)
        requires
            old(self).wf(),
            delivered@.len() == old(self).peers@.len(),
        ensures
            final(self).peers@ == pruned(old(self).peers@, delivered@),
            final(self).wf(),
    {
        let n = self.peers.len();
        let mut kept: Vec<u64> = Vec::new();
        let mut i: usize = 0;
        while i < n
            invariant
                i <= n,
                n == self.peers@.len(),
                delivered@.len() == n,
                kept@ == pruned(self.peers@.take(i as int), delivered@.take(i as int)),
            decreases n - i,
        {
            proof {
                let pi = self.peers@.take(i as int + 1);
                let di = delivered@.take(i as int + 1);
                assert(pi.drop_last() =~= self.peers@.take(i as int));
                assert(di.drop_last() =~= delivered@.take(i as int));
                assert(pi.last() == self.peers@[i as int]);
                assert(di.last() == delivered@[i as int]);
            }
            if delivered[i] {
                kept.push(self.peers[i]);
                proof {
                    assert(kept@ =~= pruned(
                        self.peers@.take(i as int + 1),
                        delivered@.take(i as int + 1),
                    ));
                }
            } else {
                proof {
                    assert(kept@ =~= pruned(
                        self.peers@.take(i as int + 1),
                        delivered@.take(i as int + 1),
                    ));
                }
            }
            i = i + 1;
        }
        proof {
            assert(self.peers@.take(n as int) =~= self.peers@);
            assert(delivered@.take(n as int) =~= delivered@);
        }
        let ghost old_peers = self.peers@;
        self.peers = kept;
        proof {
            lemma_pruned_wf(old_peers, delivered@);
        }
    }
}

/// Pruning keeps tokens distinct.
proof fn lemma_pruned_wf(peers: Seq<u64>, delivered: Seq<bool>)
    requires
        peers.len() == delivered.len(),
        forall|j: int, k: int| 0 <= j < k < peers.len() ==> peers[j] != peers[k],
    ensures
        forall|j: int, k: int|
            0 <= j < k < pruned(peers, delivered).len() ==> pruned(peers, delivered)[j] != pruned(
                peers,
                delivered,
            )[k],
    decreases peers.len(),
{
    if peers.len() == 0 {
    } else {
        let sub = pruned(peers.drop_last(), delivered.drop_last());
        lemma_pruned_wf(peers.drop_last(), delivered.drop_last());
        let whole = pruned(peers, delivered);
        if delivered.last() {
            assert forall|j: int, k: int| 0 <= j < k < whole.len() implies whole[j] != whole[k] by {
                if k < whole.len() - 1 {
                    assert(sub[j] != sub[k]);
                } else {
                    assert(whole[j] == sub[j]);
                    assert(whole[k] == peers.last());
                    lemma_pruned_contains(peers.drop_last(), delivered.drop_last(), peers.last());
                    assert(sub.contains(sub[j]));
                    if sub[j] == peers.last() {
                        let m = choose|m: int|
                            0 <= m < peers.drop_last().len() && peers.drop_last()[m]
                                == peers.last() && delivered.drop_last()[m];
                        assert(peers[m] != peers[peers.len() - 1]);
                    }
                }
            }
        } else {
            assert(whole =~= sub);
        }
    }
}

} // verus!
