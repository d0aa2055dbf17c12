use vstd::prelude::*;
use crate::addr::PeerAddr;

verus! {

/// A request of `sender` to join the overlay through the receiver.
#[derive(Clone, Copy, Debug, PartialEq, Eq)]
pub struct Join {
    pub sender: PeerAddr,
}

/// A shuffle request that started at `origin`, carrying a sample of
/// `nodes`, with `ttl` hops left to walk.
#[derive(Clone, Debug, PartialEq, Eq)]
pub struct Shuffle {
    pub sender: PeerAddr,
    pub origin: PeerAddr,
    pub nodes: Vec<PeerAddr>,
    pub ttl: u32,
}

/// The answer to a shuffle: a sample of the answering peer's passive view.
#[derive(Clone, Debug, PartialEq, Eq)]
pub struct ShuffleReply {
    pub sender: PeerAddr,
    pub nodes: Vec<PeerAddr>,
}

/// A join being forwarded along a random walk of `ttl` more hops on
/// behalf of `peer`.
#[derive(Clone, Copy, Debug, PartialEq, Eq)]
pub struct ForwardJoin {
    pub sender: PeerAddr,
    pub peer: PeerAddr,
    pub ttl: u32,
}

/// A request to become a neighbour (enter the receiver's active view).
#[derive(Clone, Copy, Debug, PartialEq, Eq)]
pub struct Neighbor {
    pub sender: PeerAddr,
    pub high_priority: bool,
}

/// Notice that `sender` drops its link to the receiver.
#[derive(Clone, Copy, Debug, PartialEq, Eq)]
pub struct Disconnect {
    pub sender: PeerAddr,
    pub alive: bool,
    pub respond: bool,
}

/// Every message that one peer sends another.
#[derive(Clone, Debug, PartialEq, Eq)]
pub enum ProtocolMessage {
    Join(Join),
    Shuffle(Shuffle),
    ShuffleReply(ShuffleReply),
    ForwardJoin(ForwardJoin),
    Neighbor(Neighbor),
    Disconnect(Disconnect),
}

impl ProtocolMessage {
    /// The peer that sent the message.
    pub open spec fn sender_of(self) -> PeerAddr {
        match self {
            ProtocolMessage::Join(m) => m.sender,
            ProtocolMessage::Shuffle(m) => m.sender,
            ProtocolMessage::ShuffleReply(m) => m.sender,
            ProtocolMessage::ForwardJoin(m) => m.sender,
            ProtocolMessage::Neighbor(m) => m.sender,
            ProtocolMessage::Disconnect(m) => m.sender,
        }
    }

    /// The peer that sent the message.
    pub fn sender(&self) -> (r: PeerAddr)
        ensures
            r == self.sender_of(),
    {
        match self {
            ProtocolMessage::Join(m) => m.sender,
            ProtocolMessage::Shuffle(m) => m.sender,
            ProtocolMessage::ShuffleReply(m) => m.sender,
            ProtocolMessage::ForwardJoin(m) => m.sender,
            ProtocolMessage::Neighbor(m) => m.sender,
            ProtocolMessage::Disconnect(m) => m.sender,
        }
    }

    /// A join request from `sender`.
    pub fn join(sender: PeerAddr) -> (r: Self)
        ensures
            r == ProtocolMessage::Join(Join { sender }),
    {
        ProtocolMessage::Join(Join { sender: sender })
    }

    /// A join of `peer` forwarded by `sender` with `ttl` hops left.
    pub fn forward_join(sender: PeerAddr, peer: PeerAddr, ttl: u32) -> (r: Self)
        ensures
            r == ProtocolMessage::ForwardJoin(ForwardJoin { sender, peer, ttl }),
    {
        ProtocolMessage::ForwardJoin(ForwardJoin { sender: sender, peer: peer, ttl: ttl })
    }

    /// A neighbour request from `sender`.
    pub fn neighbor(sender: PeerAddr, high_priority: bool) -> (r: Self)
        ensures
            r == ProtocolMessage::Neighbor(Neighbor { sender, high_priority }),
    {
        ProtocolMessage::Neighbor(Neighbor { sender: sender, high_priority })
    }

    /// A disconnect notice from `sender`.
    pub fn disconnect(sender: PeerAddr, alive: bool, respond: bool) -> (r: Self)
        ensures
            r == ProtocolMessage::Disconnect(Disconnect { sender, alive, respond }),
    {
        ProtocolMessage::Disconnect(Disconnect { sender, alive, respond })
    }

    /// A shuffle answer from `sender` carrying `nodes`.
    pub fn shuffle_reply(sender: PeerAddr, nodes: Vec<PeerAddr>) -> (r: Self)
        ensures
            r == ProtocolMessage::ShuffleReply(ShuffleReply { sender, nodes }),
    {
        ProtocolMessage::ShuffleReply(ShuffleReply { sender, nodes })
    }
}

/// Every message reports as its sender the peer in its own `sender` field
/// (for a shuffle: the peer that passed it on, not its origin).
pub proof fn lemma_constructed_sender(
    sender: PeerAddr,
    origin: PeerAddr,
    peer: PeerAddr,
    ttl: u32,
    flag1: bool,
    flag2: bool,
    nodes: Vec<PeerAddr>,
)
    ensures
        ProtocolMessage::Join(Join { sender }).sender_of() == sender,
        ProtocolMessage::ForwardJoin(ForwardJoin { sender, peer, ttl }).sender_of() == sender,
        ProtocolMessage::Neighbor(Neighbor { sender, high_priority: flag1 }).sender_of() == sender,
        ProtocolMessage::Disconnect(Disconnect { sender, alive: flag1, respond: flag2 }).sender_of()
            == sender,
        ProtocolMessage::ShuffleReply(ShuffleReply { sender, nodes }).sender_of() == sender,
        ProtocolMessage::Shuffle(Shuffle { sender, origin, nodes, ttl }).sender_of() == sender,
        origin != sender ==> ProtocolMessage::Shuffle(Shuffle { sender, origin, nodes, ttl }).sender_of()
            != origin,
{
}

} // verus!
