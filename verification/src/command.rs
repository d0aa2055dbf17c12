use vstd::prelude::*;
use crate::addr::PeerAddr;
use crate::peer_set::PeerSet;

verus! {

/// A join to be carried out.
#[derive(Debug)]
pub struct Join {}

/// A shuffle to be carried out.
pub struct Shuffle {
    origin: PeerAddr,
    nodes: PeerSet,
    ttl: u32,
}

/// A shuffle answer to be handled.
pub struct ShuffleReply {
    nodes: PeerSet,
}

/// A join to be forwarded on behalf of `peer` with `ttl` hops left.
pub struct ForwardJoin {
    peer: PeerAddr,
    ttl: u32,
}

impl ForwardJoin {
    /// A forwarded join of `peer` with `ttl` hops left.
    pub fn new(peer: PeerAddr, ttl: u32) -> (r: Self)
        ensures
            r.peer_of() == peer,
            r.ttl_of() == ttl,
    {
        ForwardJoin { peer: peer, ttl: ttl }
    }

    /// The peer the join is forwarded for.
    pub closed spec fn peer_of(&self) -> PeerAddr {
        self.peer
    }

    /// The hops left.
    pub closed spec fn ttl_of(&self) -> u32 {
        self.ttl
    }
}

/// A neighbour request to be handled.
pub struct Neighbor {
    high_priority: bool,
}

/// A disconnect to be carried out.
pub struct Disconnect {
    alive: bool,
    respond: bool,
}

/// Every command a node carries out.
pub enum Command {
    Join(Join),
    Shuffle(Shuffle),
    ShuffleReply(ShuffleReply),
    ForwardJoin(ForwardJoin),
    Neighbor(Neighbor),
    Disconnect(Disconnect),
}

} // verus!
