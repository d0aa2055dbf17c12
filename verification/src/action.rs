use vstd::prelude::*;
use crate::addr::PeerAddr;
use crate::message::ProtocolMessage;

verus! {

/// Something the node has decided to do towards another peer.
#[derive(Clone, Debug, PartialEq, Eq)]
pub enum Action {
    Send { destination: PeerAddr, message: ProtocolMessage },
    Disconnect { peer: PeerAddr },
}

impl Action {
    /// Send `message` to `destination`.
    pub fn send(destination: PeerAddr, message: ProtocolMessage) -> (r: Self)
        ensures
            r == (Action::Send { destination, message }),
    {
        Action::Send { destination, message }
    }

    /// Drop the link to `peer`.
    pub fn disconnect(peer: PeerAddr) -> (r: Self)
        ensures
            r == (Action::Disconnect { peer }),
    {
        Action::Disconnect { peer }
    }
}

} // verus!
