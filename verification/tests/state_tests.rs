use hyparview::action::Action;
use hyparview::addr::PeerAddr;
use hyparview::message::{Disconnect, ForwardJoin, Join, Neighbor, ProtocolMessage, Shuffle, ShuffleReply};
use hyparview::state::{Config, State};
use std::collections::VecDeque;

fn peer(last: u8) -> PeerAddr {
    PeerAddr::V4 { ip: 0x0a00_0000 + last as u32, port: 9000 }
}

fn config(active: usize, passive: usize) -> Config {
    let mut c = Config::default();
    c.active_view_capacity = active;
    c.passive_view_capacity = passive;
    c
}

fn sorted(mut v: Vec<PeerAddr>) -> Vec<PeerAddr> {
    v.sort_by_key(|p| format!("{:?}", p));
    v
}

#[test]
fn default_config_values() {
    let c = Config::default();
    assert_eq!(c.local_peer, PeerAddr::V4 { ip: 0x7f00_0001, port: 8080 });
    assert_eq!(c.active_random_walk_length, 6);
    assert_eq!(c.passive_random_walk_length, 6);
    assert_eq!(c.active_view_capacity, 4);
    assert_eq!(c.passive_view_capacity, 24);
    assert_eq!(c.shuffle_ttl, 4);
    assert_eq!(c.shuffle_active_view_count, 4);
    assert_eq!(c.shuffle_passive_view_count, 4);
    assert_eq!(c.shuffle_interval, 5);
}

#[test]
fn new_state_has_empty_views() {
    let s = State::new(Config::default());
    assert!(s.active_peers().is_empty());
    assert!(s.passive_peers().is_empty());
}

#[test]
fn join_makes_sender_active_and_forwards_to_others() {
    let mut s = State::new(Config::default());
    let mut actions = VecDeque::new();
    s.on_join(Join { sender: peer(1) }, &mut actions);
    assert_eq!(s.active_peers(), vec![peer(1)]);
    assert!(actions.is_empty());

    s.on_join(Join { sender: peer(2) }, &mut actions);
    assert_eq!(sorted(s.active_peers()), sorted(vec![peer(1), peer(2)]));
    assert_eq!(actions.len(), 1);
    let local = Config::default().local_peer;
    assert_eq!(
        actions[0],
        Action::Send {
            destination: peer(1),
            message: ProtocolMessage::ForwardJoin(ForwardJoin { sender: local, peer: peer(2), ttl: 6 }),
        }
    );
}

#[test]
fn join_of_the_node_itself_changes_nothing() {
    let mut s = State::new(Config::default());
    let mut actions = VecDeque::new();
    s.on_join(Join { sender: Config::default().local_peer }, &mut actions);
    assert!(s.active_peers().is_empty());
    assert!(actions.is_empty());
}

#[test]
fn join_into_full_active_view_drops_a_peer_and_keeps_newcomer_in_both_views() {
    let mut s = State::new(config(1, 10));
    let mut actions = VecDeque::new();
    s.on_join(Join { sender: peer(1) }, &mut actions);
    s.on_join(Join { sender: peer(2) }, &mut actions);
    assert_eq!(s.active_peers(), vec![peer(2)]);
    assert_eq!(s.passive_peers(), vec![peer(2)]);
    assert!(actions.is_empty());
}

#[test]
fn active_view_never_exceeds_capacity() {
    let mut s = State::new(config(3, 10));
    let mut actions = VecDeque::new();
    for i in 1..20 {
        s.on_join(Join { sender: peer(i) }, &mut actions);
        assert!(s.active_peers().len() <= 3);
        assert!(s.active_peers().contains(&peer(i)));
    }
}

#[test]
fn active_view_of_capacity_zero_holds_one_peer() {
    let mut s = State::new(config(0, 10));
    let mut actions = VecDeque::new();
    s.on_join(Join { sender: peer(1) }, &mut actions);
    s.on_join(Join { sender: peer(2) }, &mut actions);
    assert_eq!(s.active_peers(), vec![peer(2)]);
}

#[test]
fn forward_join_with_no_hops_left_adds_sender_to_active_view() {
    let mut s = State::new(Config::default());
    let mut actions = VecDeque::new();
    s.on_join(Join { sender: peer(1) }, &mut actions);
    s.on_forward_join(ForwardJoin { sender: peer(2), peer: peer(3), ttl: 0 }, &mut actions);
    assert_eq!(sorted(s.active_peers()), sorted(vec![peer(1), peer(2)]));
    assert!(actions.is_empty());
}

#[test]
fn forward_join_with_empty_active_view_adds_sender() {
    let mut s = State::new(Config::default());
    let mut actions = VecDeque::new();
    s.on_forward_join(ForwardJoin { sender: peer(2), peer: peer(3), ttl: 5 }, &mut actions);
    assert_eq!(s.active_peers(), vec![peer(2)]);
    assert!(actions.is_empty());
}

#[test]
fn forward_join_at_passive_walk_length_keeps_sender_passive_and_forwards() {
    let mut s = State::new(Config::default());
    let mut actions = VecDeque::new();
    s.on_join(Join { sender: peer(1) }, &mut actions);
    s.on_join(Join { sender: peer(4) }, &mut actions);
    actions.clear();
    s.on_forward_join(ForwardJoin { sender: peer(2), peer: peer(3), ttl: 6 }, &mut actions);
    assert_eq!(s.passive_peers(), vec![peer(2)]);
    assert_eq!(actions.len(), 1);
    let local = Config::default().local_peer;
    match &actions[0] {
        Action::Send { destination, message } => {
            assert!(*destination == peer(1) || *destination == peer(4));
            assert_eq!(*message, ProtocolMessage::ForwardJoin(ForwardJoin { sender: local, peer: peer(2), ttl: 5 }));
        }
        other => panic!("unexpected action {:?}", other),
    }
}

#[test]
fn forward_join_mid_walk_only_forwards() {
    let mut s = State::new(Config::default());
    let mut actions = VecDeque::new();
    s.on_join(Join { sender: peer(1) }, &mut actions);
    s.on_forward_join(ForwardJoin { sender: peer(2), peer: peer(3), ttl: 3 }, &mut actions);
    assert!(s.passive_peers().is_empty());
    assert_eq!(s.active_peers(), vec![peer(1)]);
    let local = Config::default().local_peer;
    assert_eq!(
        actions[0],
        Action::Send {
            destination: peer(1),
            message: ProtocolMessage::ForwardJoin(ForwardJoin { sender: local, peer: peer(2), ttl: 2 }),
        }
    );
}

fn state_with_passive(n: u8) -> State {
    let mut s = State::new(Config::default());
    let mut actions = VecDeque::new();
    s.on_shuffle_reply(ShuffleReply { sender: peer(200), nodes: (1..=n).map(peer).collect() }, &mut actions);
    assert!(actions.is_empty());
    s
}

#[test]
fn shuffle_reply_fills_passive_view() {
    let s = state_with_passive(3);
    assert_eq!(sorted(s.passive_peers()), sorted(vec![peer(1), peer(2), peer(3)]));
    assert!(s.active_peers().is_empty());
}

#[test]
fn shuffle_reply_skips_active_peers_and_the_node_itself() {
    let mut s = State::new(Config::default());
    let mut actions = VecDeque::new();
    s.on_join(Join { sender: peer(1) }, &mut actions);
    let local = Config::default().local_peer;
    s.on_shuffle_reply(ShuffleReply { sender: peer(9), nodes: vec![peer(1), local, peer(2), peer(2)] }, &mut actions);
    assert_eq!(s.passive_peers(), vec![peer(2)]);
}

#[test]
fn passive_view_is_bounded_by_eviction() {
    let mut s = State::new(config(4, 3));
    let mut actions = VecDeque::new();
    s.on_shuffle_reply(ShuffleReply { sender: peer(200), nodes: (1..=10).map(peer).collect() }, &mut actions);
    assert_eq!(s.passive_peers().len(), 3);
    assert!(s.passive_peers().contains(&peer(10)));
}

#[test]
fn shuffle_at_end_of_walk_answers_with_sample_of_passive_view() {
    let mut s = state_with_passive(3);
    let mut actions = VecDeque::new();
    let origin = peer(100);
    s.on_shuffle(Shuffle { sender: peer(50), origin, nodes: vec![peer(7), peer(8)], ttl: 0 }, &mut actions);
    assert_eq!(actions.len(), 1);
    let local = Config::default().local_peer;
    match &actions[0] {
        Action::Send { destination, message: ProtocolMessage::ShuffleReply(reply) } => {
            assert_eq!(*destination, origin);
            assert_eq!(reply.sender, local);
            assert_eq!(reply.nodes.len(), 2);
            assert_ne!(reply.nodes[0], reply.nodes[1]);
            for n in &reply.nodes {
                assert!(s.passive_peers().contains(n));
            }
        }
        other => panic!("unexpected action {:?}", other),
    }
    assert_eq!(s.passive_peers().len(), 3);
}

#[test]
fn shuffle_sample_is_capped_by_passive_view_size() {
    let mut s = state_with_passive(2);
    let mut actions = VecDeque::new();
    s.on_shuffle(Shuffle { sender: peer(50), origin: peer(100), nodes: (10..20).map(peer).collect(), ttl: 0 }, &mut actions);
    match &actions[0] {
        Action::Send { message: ProtocolMessage::ShuffleReply(reply), .. } => {
            assert_eq!(sorted(reply.nodes.clone()), sorted(vec![peer(1), peer(2)]));
        }
        other => panic!("unexpected action {:?}", other),
    }
}

#[test]
fn shuffle_mid_walk_does_nothing() {
    let mut s = state_with_passive(3);
    let mut actions = VecDeque::new();
    s.on_shuffle(Shuffle { sender: peer(50), origin: peer(100), nodes: vec![peer(7)], ttl: 2 }, &mut actions);
    assert!(actions.is_empty());
    assert_eq!(s.passive_peers().len(), 3);
}

#[test]
fn neighbor_request_respects_priority_when_full() {
    let mut s = State::new(config(1, 10));
    let mut actions = VecDeque::new();
    s.on_join(Join { sender: peer(1) }, &mut actions);
    assert!(s.on_neighbor(Neighbor { sender: peer(2), high_priority: false }, &mut actions).is_ok());
    assert_eq!(s.active_peers(), vec![peer(1)]);
    assert!(s.on_neighbor(Neighbor { sender: peer(2), high_priority: true }, &mut actions).is_ok());
    assert_eq!(s.active_peers(), vec![peer(2)]);
    assert!(actions.is_empty());
}

#[test]
fn neighbor_request_accepted_when_not_full() {
    let mut s = State::new(Config::default());
    let mut actions = VecDeque::new();
    assert!(s.on_neighbor(Neighbor { sender: peer(2), high_priority: false }, &mut actions).is_ok());
    assert_eq!(s.active_peers(), vec![peer(2)]);
}

#[test]
fn disconnect_from_active_peer_answers_and_asks_a_passive_peer() {
    let mut s = state_with_passive(1);
    let mut actions = VecDeque::new();
    s.on_join(Join { sender: peer(5) }, &mut actions);
    actions.clear();
    s.on_disconnect(Disconnect { sender: peer(5), alive: true, respond: true }, &mut actions);
    let local = Config::default().local_peer;
    assert!(s.active_peers().is_empty());
    assert_eq!(sorted(s.passive_peers()), sorted(vec![peer(1), peer(5)]));
    assert_eq!(actions.len(), 2);
    assert_eq!(
        actions[0],
        Action::Send {
            destination: peer(5),
            message: ProtocolMessage::Disconnect(Disconnect { sender: local, alive: true, respond: false }),
        }
    );
    assert_eq!(
        actions[1],
        Action::Send {
            destination: peer(1),
            message: ProtocolMessage::Neighbor(Neighbor { sender: local, high_priority: true }),
        }
    );
}

#[test]
fn disconnect_from_unknown_peer_only_remembers_it_when_alive() {
    let mut s = State::new(Config::default());
    let mut actions = VecDeque::new();
    s.on_disconnect(Disconnect { sender: peer(5), alive: false, respond: true }, &mut actions);
    assert!(s.passive_peers().is_empty());
    assert!(actions.is_empty());
    s.on_disconnect(Disconnect { sender: peer(5), alive: true, respond: true }, &mut actions);
    assert_eq!(s.passive_peers(), vec![peer(5)]);
    assert!(actions.is_empty());
}

#[test]
fn disconnect_without_respond_and_no_passive_peers_sends_nothing() {
    let mut s = State::new(Config::default());
    let mut actions = VecDeque::new();
    s.on_join(Join { sender: peer(5) }, &mut actions);
    s.on_join(Join { sender: peer(6) }, &mut actions);
    actions.clear();
    s.on_disconnect(Disconnect { sender: peer(5), alive: false, respond: false }, &mut actions);
    assert_eq!(s.active_peers(), vec![peer(6)]);
    assert!(actions.is_empty());
}

#[test]
fn neighbor_request_after_disconnect_is_low_priority_when_others_remain() {
    let mut s = state_with_passive(1);
    let mut actions = VecDeque::new();
    s.on_join(Join { sender: peer(5) }, &mut actions);
    s.on_join(Join { sender: peer(6) }, &mut actions);
    actions.clear();
    s.on_disconnect(Disconnect { sender: peer(5), alive: false, respond: false }, &mut actions);
    let local = Config::default().local_peer;
    assert_eq!(
        actions[0],
        Action::Send {
            destination: peer(1),
            message: ProtocolMessage::Neighbor(Neighbor { sender: local, high_priority: false }),
        }
    );
}

#[test]
fn local_peer_never_enters_a_view() {
    let local = Config::default().local_peer;
    let mut s = State::new(Config::default());
    let mut actions = VecDeque::new();
    s.on_forward_join(ForwardJoin { sender: local, peer: peer(1), ttl: 0 }, &mut actions);
    s.on_disconnect(Disconnect { sender: local, alive: true, respond: false }, &mut actions);
    let _ = s.on_neighbor(Neighbor { sender: local, high_priority: true }, &mut actions);
    assert!(!s.active_peers().contains(&local));
    assert!(!s.passive_peers().contains(&local));
}

#[test]
fn views_stay_apart_while_active_view_has_room() {
    let mut s = State::new(config(10, 3));
    let mut actions = VecDeque::new();
    s.on_shuffle_reply(ShuffleReply { sender: peer(200), nodes: (1..=6).map(peer).collect() }, &mut actions);
    s.on_join(Join { sender: peer(2) }, &mut actions);
    s.on_join(Join { sender: peer(5) }, &mut actions);
    s.on_disconnect(Disconnect { sender: peer(2), alive: true, respond: false }, &mut actions);
    let active = s.active_peers();
    let passive = s.passive_peers();
    assert!(passive.len() <= 3);
    for p in &active {
        assert!(!passive.contains(p));
    }
}
