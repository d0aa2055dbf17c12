use vstd::prelude::*;

verus! {

/// The network address of a peer: an IP address and a port.
///
/// An IPv4 address is held as its 32-bit value (the first octet in the
/// high byte), an IPv6 address as its 128-bit value together with the flow
/// information and scope identifier that an IPv6 socket address carries.
/// Two addresses name the same peer exactly when all their fields agree.
#[derive(Clone, Copy, Debug, PartialEq, Eq, Hash, Structural)]
pub enum PeerAddr {
    V4 { ip: u32, port: u16 },
    V6 { ip6: u128, port: u16, flowinfo: u32, scope_id: u32 },
}

} // verus!
