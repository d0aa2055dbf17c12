use hyparview::action::Action;
use hyparview::addr::PeerAddr;
use hyparview::command::ForwardJoin as ForwardJoinCommand;
use hyparview::message::{Disconnect, ForwardJoin, Join, Neighbor, ProtocolMessage, ShuffleReply};

fn a() -> PeerAddr {
    PeerAddr::V4 { ip: 0x0a00_0001, port: 1 }
}

fn b() -> PeerAddr {
    PeerAddr::V6 { ip6: 1, port: 2, flowinfo: 0, scope_id: 0 }
}

#[test]
fn constructors_build_the_named_messages() {
    assert_eq!(ProtocolMessage::join(a()), ProtocolMessage::Join(Join { sender: a() }));
    assert_eq!(
        ProtocolMessage::forward_join(a(), b(), 3),
        ProtocolMessage::ForwardJoin(ForwardJoin { sender: a(), peer: b(), ttl: 3 })
    );
    assert_eq!(
        ProtocolMessage::neighbor(a(), true),
        ProtocolMessage::Neighbor(Neighbor { sender: a(), high_priority: true })
    );
    assert_eq!(
        ProtocolMessage::disconnect(a(), true, false),
        ProtocolMessage::Disconnect(Disconnect { sender: a(), alive: true, respond: false })
    );
    assert_eq!(
        ProtocolMessage::shuffle_reply(a(), vec![b()]),
        ProtocolMessage::ShuffleReply(ShuffleReply { sender: a(), nodes: vec![b()] })
    );
}

#[test]
fn sender_is_the_constructing_peer() {
    assert_eq!(ProtocolMessage::join(a()).sender(), a());
    assert_eq!(ProtocolMessage::forward_join(b(), a(), 1).sender(), b());
    assert_eq!(ProtocolMessage::neighbor(b(), false).sender(), b());
    assert_eq!(ProtocolMessage::disconnect(a(), false, false).sender(), a());
    assert_eq!(ProtocolMessage::shuffle_reply(b(), vec![]).sender(), b());
}

#[test]
fn actions_carry_their_arguments() {
    assert_eq!(
        Action::send(a(), ProtocolMessage::join(b())),
        Action::Send { destination: a(), message: ProtocolMessage::Join(Join { sender: b() }) }
    );
    assert_eq!(Action::disconnect(b()), Action::Disconnect { peer: b() });
}

#[test]
fn addresses_differ_by_any_field() {
    let v6 = PeerAddr::V6 { ip6: 1, port: 2, flowinfo: 0, scope_id: 0 };
    assert_ne!(v6, PeerAddr::V6 { ip6: 1, port: 2, flowinfo: 1, scope_id: 0 });
    assert_ne!(a(), PeerAddr::V4 { ip: 0x0a00_0001, port: 2 });
}

#[test]
fn forward_join_command_is_built() {
    let _ = ForwardJoinCommand::new(a(), 0);
}
