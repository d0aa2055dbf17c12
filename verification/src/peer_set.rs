use vstd::prelude::*;
use crate::addr::PeerAddr;

verus! {

/// A finite set of peers, as a partial view of the overlay holds them.
///
/// The peers are kept in a vector in which no peer occurs twice; the
/// order of that vector is not part of the set's meaning.
#[derive(Debug)]
pub struct PeerSet {
    peers: Vec<PeerAddr>,
}

impl View for PeerSet {
    type V = Set<PeerAddr>;

    closed spec fn view(&self) -> Set<PeerAddr> {
        self.peers@.to_set()
    }
}

impl PeerSet {
    /// Well-formedness: no peer is held twice.
    pub closed spec fn wf(&self) -> bool {
        self.peers@.no_duplicates()
    }

    /// The peers in the order in which they are held.
    pub closed spec fn order(&self) -> Seq<PeerAddr> {
        self.peers@
    }

    /// A set of peers is finite.
    pub proof fn lemma_finite(&self)
        ensures
            self@.finite(),
    {
        vstd::seq_lib::seq_to_set_is_finite(self.peers@);
    }

    /// The held order lists each peer of the set exactly once.
    pub proof fn lemma_order(&self)
        requires
            self.wf(),
        ensures
            self.order().no_duplicates(),
            self.order().to_set() == self@,
            self.order().len() == self@.len(),
    {
        self.peers@.unique_seq_to_set();
    }

    /// An empty set.
    pub fn new() -> (r: PeerSet)
        ensures
            r.wf(),
            r@ == Set::<PeerAddr>::empty(),
    {
        let r = PeerSet { peers: Vec::new() };
        assert(r@ =~= Set::<PeerAddr>::empty());
        r
    }

    /// The number of peers in the set.
    pub fn len(&self) -> (r: usize)
        requires
            self.wf(),
        ensures
            r == self@.len(),
    {
        proof {
            self.lemma_order();
        }
        self.peers.len()
    }

    /// Whether the set holds no peer.
    pub fn is_empty(&self) -> (r: bool)
        requires
            self.wf(),
        ensures
            r == (self@.len() == 0),
            r == (self@ == Set::<PeerAddr>::empty()),
    {
        proof {
            self.lemma_order();
            if self@.len() != 0 {
                assert(self@.contains(self.peers@[0]));
            }
            if self.peers@.len() == 0 {
                assert(self@ =~= Set::<PeerAddr>::empty());
            }
        }
        self.peers.len() == 0
    }

    /// The position of `peer` in the held order, if the set holds it.
    fn position(&self, peer: &PeerAddr) -> (r: Option<usize>)
        ensures
            match r {
                Some(i) => i < self.peers@.len() && self.peers@[i as int] == *peer,
                None => !self@.contains(*peer),
            },
    {
        let mut i: usize = 0;
        while i < self.peers.len()
            invariant
                i <= self.peers@.len(),
                forall|j: int| 0 <= j < i ==> self.peers@[j] != *peer,
            decreases self.peers@.len() - i,
        {
            if self.peers[i] == *peer {
                return Some(i);
            }
            i = i + 1;
        }
        None
    }

    /// Whether the set holds `peer`.
    pub fn contains(&self, peer: &PeerAddr) -> (r: bool)
        requires
            self.wf(),
        ensures
            r == self@.contains(*peer),
    {
        match self.position(peer) {
            Some(_) => true,
            None => false,
        }
    }

    /// Adds `peer` to the set.
    pub fn insert(&mut self, peer: PeerAddr)
        requires
            old(self).wf(),
        ensures
            final(self).wf(),
            final(self)@ == old(self)@.insert(peer),
    {
        if self.position(&peer).is_none() {
            let ghost before = self.peers@;
            self.peers.push(peer);
            assert forall|x: PeerAddr| self.peers@.contains(x) <==> before.to_set().insert(peer).contains(x) by {
                if before.contains(x) {
                    let k = choose|k: int| 0 <= k < before.len() && before[k] == x;
                    assert(self.peers@[k] == x);
                }
                if x == peer {
                    assert(self.peers@[before.len() as int] == x);
                }
            }
            assert(self.peers@.to_set() =~= before.to_set().insert(peer));
        } else {
            assert(old(self)@.insert(peer) =~= old(self)@);
        }
    }

    /// Removes `peer` from the set; says whether the set held it.
    pub fn remove(&mut self, peer: &PeerAddr) -> (r: bool)
        requires
            old(self).wf(),
        ensures
            final(self).wf(),
            r == old(self)@.contains(*peer),
            final(self)@ == old(self)@.remove(*peer),
    {
        match self.position(peer) {
            Some(i) => {
                let ghost before = self.peers@;
                let _ = self.peers.remove(i);
                assert(self.peers@ == before.remove(i as int));
                assert forall|x: PeerAddr| self.peers@.contains(x) <==> before.to_set().remove(*peer).contains(x) by {
                    if before.contains(x) && x != *peer {
                        let k = choose|k: int| 0 <= k < before.len() && before[k] == x;
                        assert(k != i);
                        if k < i {
                            assert(self.peers@[k] == x);
                        } else {
                            assert(self.peers@[k - 1] == x);
                        }
                    }
                }
                assert(self.peers@.to_set() =~= before.to_set().remove(*peer));
                true
            },
            None => {
                assert(old(self)@.remove(*peer) =~= old(self)@);
                false
            },
        }
    }

    /// The peers of the set, each once, in the held order.
    pub fn to_vec(&self) -> (r: Vec<PeerAddr>)
        requires
            self.wf(),
        ensures
            r@ == self.order(),
            r@.no_duplicates(),
            r@.to_set() == self@,
    {
        self.peers.clone()
    }
}

} // verus!
