use bytes::BytesMut;
use hyparview::addr::PeerAddr;
use hyparview::peer_set::PeerSet;
use hyparview::codec::{address_fields, HyParViewCodec, WireMessage};
use hyparview::messages::{DisconnectMessage, ForwardJoinMessage, JoinMessage, NeighborMessage, ShuffleMessage, ShuffleReplyMessage, WireError};

fn p(last: u8) -> PeerAddr {
    PeerAddr::V4 { ip: 0x0a00_0000 + last as u32, port: 80 }
}

fn set(peers: &[PeerAddr]) -> PeerSet {
    let mut s = PeerSet::new();
    for x in peers {
        s.insert(*x);
    }
    s
}

#[test]
fn join_is_one_kind_byte() {
    let mut buf = BytesMut::new();
    JoinMessage {}.encode(&mut buf).unwrap();
    assert_eq!(&buf[..], &[1u8][..]);
    let mut m = JoinMessage {};
    assert!(m.decode(&mut buf).is_ok());
    assert_eq!(&buf[..], &[1u8][..]);
}

#[test]
fn neighbor_round_trip() {
    let mut buf = BytesMut::new();
    NeighborMessage { high_priority: true }.encode(&mut buf).unwrap();
    assert_eq!(&buf[..], &[6u8, 1][..]);
    let _ = bytes::Buf::get_u8(&mut buf);
    let mut m = NeighborMessage { high_priority: false };
    m.decode(&mut buf).unwrap();
    assert!(m.high_priority);
    assert!(buf.is_empty());
}

#[test]
fn neighbor_decode_reads_any_nonzero_as_set_and_fails_when_empty() {
    let mut buf = BytesMut::from(&[7u8][..]);
    let mut m = NeighborMessage { high_priority: false };
    m.decode(&mut buf).unwrap();
    assert!(m.high_priority);
    assert_eq!(m.decode(&mut buf), Err(WireError::Truncated));
}

#[test]
fn disconnect_round_trip() {
    let mut buf = BytesMut::new();
    DisconnectMessage { alive: false, respond: true }.encode(&mut buf).unwrap();
    assert_eq!(&buf[..], &[5u8, 0, 1][..]);
    let _ = bytes::Buf::get_u8(&mut buf);
    let mut m = DisconnectMessage { alive: true, respond: false };
    m.decode(&mut buf).unwrap();
    assert_eq!(m, DisconnectMessage { alive: false, respond: true });
    let mut short = BytesMut::from(&[1u8][..]);
    assert_eq!(m.decode(&mut short), Err(WireError::Truncated));
    assert_eq!(&short[..], &[1u8][..]);
}

#[test]
fn forward_join_layout_and_quirky_hop_count() {
    let mut buf = BytesMut::new();
    ForwardJoinMessage { peer: p(1), ttl: 0x01020304 }.encode(b"1.2.3.4:5", &mut buf).unwrap();
    let mut expected = vec![3u8];
    expected.extend_from_slice(b"1.2.3.4:5");
    expected.push(0);
    expected.extend_from_slice(&[1, 2, 3, 4]);
    assert_eq!(&buf[..], &expected[..]);

    let mut body = BytesMut::from(&expected[1..]);
    assert_eq!(address_fields(3, &body[..]), vec![b"1.2.3.4:5".to_vec()]);
    let mut m = ForwardJoinMessage { peer: p(9), ttl: 0 };
    m.decode(&mut body, Some(p(1))).unwrap();
    assert_eq!(m.peer, p(1));
    assert_eq!(m.ttl, u32::from_be_bytes(*b"1.2."));
    assert_eq!(body.len(), expected.len() - 1 - 4);

    let mut body = BytesMut::from(&expected[1..]);
    assert_eq!(m.decode(&mut body, None), Err(WireError::InvalidOrigin));
    let mut no_nul = BytesMut::from(&b"abcdef"[..]);
    assert_eq!(m.decode(&mut no_nul, Some(p(2))), Err(WireError::Truncated));
}

#[test]
fn shuffle_reply_layout() {
    let mut buf = BytesMut::new();
    let reply = ShuffleReplyMessage { nodes: set(&[p(1), p(2)]) };
    reply.encode(&[b"a".to_vec(), b"bc".to_vec()], &mut buf).unwrap();
    assert_eq!(&buf[..], &[4u8, 0, 0, 0, 2, b'a', 0, b'b', b'c', 0][..]);
}

#[test]
fn shuffle_reply_with_short_texts_is_refused_as_too_short() {
    let body = [0u8, 0, 0, 2, b'a', 0, b'b', 0];
    let mut buf = BytesMut::from(&body[..]);
    let mut m = ShuffleReplyMessage { nodes: set(&[p(7)]) };
    assert_eq!(m.decode(&mut buf, &[Some(p(1)), Some(p(2))]), Err(WireError::ShortNodes));
    assert!(m.nodes.to_vec().is_empty());
    assert_eq!(buf.len(), 4);
}

#[test]
fn shuffle_reply_reads_nodes_when_enough_bytes_follow() {
    let mut body = vec![0u8, 0, 0, 2, b'a', 0, b'b', 0];
    body.extend_from_slice(&[9u8; 70]);
    let mut buf = BytesMut::from(&body[..]);
    assert_eq!(address_fields(4, &buf[..]), vec![b"a".to_vec(), b"b".to_vec()]);
    let mut m = ShuffleReplyMessage { nodes: PeerSet::new() };
    m.decode(&mut buf, &[Some(p(1)), Some(p(2))]).unwrap();
    let mut nodes = m.nodes.to_vec();
    nodes.sort_by_key(|x| format!("{:?}", x));
    assert_eq!(nodes, vec![p(1), p(2)]);
    assert_eq!(buf.len(), 70);
}

#[test]
fn shuffle_reply_stops_at_an_invalid_node() {
    let mut body = vec![0u8, 0, 0, 2, b'a', 0, b'b', 0];
    body.extend_from_slice(&[9u8; 70]);
    let mut buf = BytesMut::from(&body[..]);
    let mut m = ShuffleReplyMessage { nodes: PeerSet::new() };
    assert_eq!(m.decode(&mut buf, &[Some(p(1)), None]), Err(WireError::InvalidNode));
    assert_eq!(m.nodes.to_vec(), vec![p(1)]);
    assert_eq!(buf.len(), 72);
}

fn shuffle_body(origin: &[u8], nodes: &[&[u8]], ttl: u32, padding: usize) -> Vec<u8> {
    let mut v = origin.to_vec();
    v.push(0);
    v.extend_from_slice(&(nodes.len() as u32).to_be_bytes());
    for n in nodes {
        v.extend_from_slice(n);
        v.push(0);
    }
    v.extend_from_slice(&ttl.to_be_bytes());
    v.extend(std::iter::repeat(0xee).take(padding));
    v
}

#[test]
fn shuffle_layout() {
    let mut buf = BytesMut::new();
    let m = ShuffleMessage { origin: p(1), nodes: set(&[p(2)]), ttl: 7 };
    m.encode(b"o", &[b"n".to_vec()], &mut buf).unwrap();
    let mut expected = vec![2u8];
    expected.extend(shuffle_body(b"o", &[b"n"], 7, 0));
    assert_eq!(&buf[..], &expected[..]);
}

#[test]
fn shuffle_decode_reads_all_fields() {
    let body = shuffle_body(b"origin", &[b"x", b"y"], 9, 70);
    let mut buf = BytesMut::from(&body[..]);
    assert_eq!(address_fields(2, &buf[..]), vec![b"origin".to_vec(), b"x".to_vec(), b"y".to_vec()]);
    let mut m = ShuffleMessage::default();
    m.decode(&mut buf, &[Some(p(1)), Some(p(2)), Some(p(3))]).unwrap();
    assert_eq!(m.origin, p(1));
    assert_eq!(m.ttl, 9);
    let mut nodes = m.nodes.to_vec();
    nodes.sort_by_key(|x| format!("{:?}", x));
    assert_eq!(nodes, vec![p(2), p(3)]);
    assert_eq!(buf.len(), 70);
}

#[test]
fn shuffle_decode_errors() {
    let mut short = BytesMut::from(&b"abc\0"[..]);
    let mut m = ShuffleMessage::default();
    assert_eq!(m.decode(&mut short, &[]), Err(WireError::ShortShuffle));

    let body = shuffle_body(b"origin", &[b"x"], 9, 0);
    let mut buf = BytesMut::from(&body[..]);
    assert_eq!(m.decode(&mut buf, &[None]), Err(WireError::InvalidOrigin));
    assert_eq!(buf.len(), body.len());

    let mut buf = BytesMut::from(&body[..]);
    assert_eq!(m.decode(&mut buf, &[Some(p(4)), Some(p(5))]), Err(WireError::ShortNodes));
    assert_eq!(m.origin, p(4));
    assert!(m.nodes.to_vec().is_empty());

    let mut no_nul = BytesMut::from(&b"abcdefghij"[..]);
    assert_eq!(m.decode(&mut no_nul, &[Some(p(4))]), Err(WireError::Truncated));
}

#[test]
fn default_shuffle_message() {
    let m = ShuffleMessage::default();
    assert_eq!(m.origin, PeerAddr::V4 { ip: 0x7f00_0001, port: 8080 });
    assert!(m.nodes.to_vec().is_empty());
    assert_eq!(m.ttl, 0);
}

#[test]
fn codec_reads_nothing_from_empty_buffer() {
    let mut codec = HyParViewCodec::new();
    let mut buf = BytesMut::new();
    assert!(matches!(codec.decode(&mut buf, &[]), Ok(None)));
}

#[test]
fn codec_reads_join_and_refuses_unknown_kinds() {
    let mut codec = HyParViewCodec::new();
    let mut buf = BytesMut::from(&[1u8, 6, 1][..]);
    assert!(matches!(codec.decode(&mut buf, &[]), Ok(Some(WireMessage::Join(_)))));
    assert_eq!(&buf[..], &[6u8, 1][..]);
    assert!(matches!(codec.decode(&mut buf, &[]), Err(WireError::UnknownKind(6))));
    assert_eq!(&buf[..], &[1u8][..]);
}

#[test]
fn codec_round_trips_a_shuffle_with_enough_following_bytes() {
    let mut codec = HyParViewCodec::new();
    let item = WireMessage::Shuffle(ShuffleMessage { origin: p(1), nodes: set(&[p(2)]), ttl: 3 });
    let addrs = item.addresses();
    assert_eq!(addrs, vec![p(1), p(2)]);
    let texts: Vec<Vec<u8>> = addrs.iter().map(|a| format!("{:?}", a).into_bytes()).collect();
    let mut buf = BytesMut::new();
    codec.encode(&item, &texts, &mut buf).unwrap();
    buf.extend_from_slice(&[0xaa; 40]);
    let fields = address_fields(buf[0], &buf[1..]);
    assert_eq!(fields, texts);
    let parsed: Vec<Option<PeerAddr>> = fields
        .iter()
        .map(|t| addrs.iter().copied().find(|a| format!("{:?}", a).into_bytes() == *t))
        .collect();
    match codec.decode(&mut buf, &parsed) {
        Ok(Some(WireMessage::Shuffle(m))) => {
            assert_eq!(m.origin, p(1));
            assert_eq!(m.nodes.to_vec(), vec![p(2)]);
            assert_eq!(m.ttl, 3);
        }
        other => panic!("unexpected {:?}", other),
    }
    assert_eq!(buf.len(), 40);
}

#[test]
fn codec_encodes_every_kind() {
    let mut codec = HyParViewCodec::new();
    let mut buf = BytesMut::new();
    codec.encode(&WireMessage::Join(JoinMessage {}), &[], &mut buf).unwrap();
    codec.encode(&WireMessage::Neighbor(NeighborMessage { high_priority: false }), &[], &mut buf).unwrap();
    codec.encode(&WireMessage::Disconnect(DisconnectMessage { alive: true, respond: true }), &[], &mut buf).unwrap();
    codec
        .encode(&WireMessage::ForwardJoin(ForwardJoinMessage { peer: p(1), ttl: 1 }), &[b"q".to_vec()], &mut buf)
        .unwrap();
    codec
        .encode(&WireMessage::ShuffleReply(ShuffleReplyMessage { nodes: PeerSet::new() }), &[], &mut buf)
        .unwrap();
    assert_eq!(
        &buf[..],
        &[1u8, 6, 0, 5, 1, 1, 3, b'q', 0, 0, 0, 0, 1, 4, 0, 0, 0, 0][..]
    );
}
