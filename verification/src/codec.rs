use vstd::prelude::*;
use bytes::BytesMut;
use crate::addr::PeerAddr;
use crate::buffer::{be32_bytes, be32_value, lemma_be32_round_trip, buffer_bytes, buffer_get_u8, buffer_slice};
use crate::messages::{
    find_nul, first_nul, flag_byte, is_first_nul, node_texts, nodes_need, nul_fields, read_shuffle, text_views,
    too_few_for_nodes, nul_free, read_shuffle_reply, lemma_shuffle_round_trip, lemma_shuffle_reply_round_trip,
    DisconnectMessage, ForwardJoinMessage, JoinMessage, NeighborMessage, ShuffleMessage,
    ShuffleReplyMessage, WireError,
};

verus! {

/// The texts that the reader of a message of the given kind parses into
/// addresses, in the order in which it parses them, when the bytes after
/// the kind byte are `body`.
pub open spec fn address_texts(kind: u8, body: Seq<u8>) -> Seq<Seq<u8>> {
    if kind == 2 {
        if body.len() < 8 || first_nul(body) is None {
            Seq::empty()
        } else {
            let i = first_nul(body)->0;
            let after_origin = body.skip(i + 1);
            if after_origin.len() < 4 || after_origin.skip(4).len() < nodes_need(be32_value(after_origin)) {
                seq![body.take(i)]
            } else {
                seq![body.take(i)] + node_texts(after_origin.skip(4), be32_value(after_origin) as nat)
            }
        }
    } else if kind == 3 {
        match first_nul(body) {
            Some(i) => seq![body.take(i)],
            None => Seq::empty(),
        }
    } else if kind == 4 {
        if body.len() < 4 || body.skip(4).len() < nodes_need(be32_value(body)) {
            Seq::empty()
        } else {
            node_texts(body.skip(4), be32_value(body) as nat)
        }
    } else {
        Seq::empty()
    }
}

/// Collects the texts of up to `count` node fields at the front of `bytes`.
fn collect_node_texts(bytes: &[u8], count: u32, texts: &mut Vec<Vec<u8>>)
    ensures
        text_views(final(texts)@) == text_views(old(texts)@) + node_texts(bytes@, count as nat),
{
    let mut k: u32 = 0;
    let mut offset: usize = 0;
    let ghost start = text_views(texts@);
    proof {
        assert(bytes@.skip(0) =~= bytes@);
        assert(start + node_texts(bytes@, count as nat) =~= start + node_texts(bytes@.skip(0), count as nat));
    }
    while k < count
        invariant
            k <= count,
            offset <= bytes@.len(),
            start == text_views(old(texts)@),
            start + node_texts(bytes@, count as nat) == text_views(texts@) + node_texts(
                bytes@.skip(offset as int),
                (count - k) as nat,
            ),
        decreases count - k,
    {
        let rest = vstd::slice::slice_subrange(bytes, offset, bytes.len());
        let end = match find_nul(rest) {
            Some(end) => end,
            None => {
                assert(node_texts(bytes@.skip(offset as int), (count - k) as nat) == Seq::<Seq<u8>>::empty());
                assert(text_views(texts@) + Seq::<Seq<u8>>::empty() =~= text_views(texts@));
                return;
            },
        };
        assert(is_first_nul(rest@, end as int));
        let text = vstd::slice::slice_to_vec(vstd::slice::slice_subrange(rest, 0, end));
        let ghost before = texts@;
        texts.push(text);
        proof {
            assert(rest@ == bytes@.skip(offset as int));
            assert(rest@.skip(end + 1) =~= bytes@.skip(offset + end + 1));
            assert(text@ == rest@.take(end as int));
            assert(text_views(texts@) =~= text_views(before).push(text@));
            let later = node_texts(bytes@.skip(offset + end + 1), (count - k - 1) as nat);
            assert(text_views(before) + (seq![text@] + later) =~= text_views(texts@) + later);
        }
        offset = offset + end + 1;
        k = k + 1;
    }
    proof {
        assert(text_views(texts@) + Seq::<Seq<u8>>::empty() =~= text_views(texts@));
    }
}

/// The texts that the reader of a message of the given kind will parse into
/// addresses, in order, when the bytes after the kind byte are `body`: a
/// caller parses each and hands the results to the reader.
pub fn address_fields(kind: u8, body: &[u8]) -> (r: Vec<Vec<u8>>)
    ensures
        text_views(r@) == address_texts(kind, body@),
{
    let mut texts: Vec<Vec<u8>> = Vec::new();
    proof {
        assert(text_views(texts@) =~= Seq::<Seq<u8>>::empty());
    }
    if kind == 2 {
        if body.len() < 8 {
            return texts;
        }
        let end = match find_nul(body) {
            Some(end) => end,
            None => {
                return texts;
            },
        };
        assert(is_first_nul(body@, end as int));
        texts.push(vstd::slice::slice_to_vec(vstd::slice::slice_subrange(body, 0, end)));
        proof {
            assert(text_views(texts@) =~= seq![body@.take(end as int)]);
        }
        let after_origin = vstd::slice::slice_subrange(body, end + 1, body.len());
        assert(after_origin@ =~= body@.skip(end + 1));
        if after_origin.len() < 4 {
            return texts;
        }
        let count = be32_of(after_origin);
        let after_count = vstd::slice::slice_subrange(after_origin, 4, after_origin.len());
        assert(after_count@ =~= after_origin@.skip(4));
        if too_few_for_nodes(after_count.len(), count) {
            return texts;
        }
        collect_node_texts(after_count, count, &mut texts);
    } else if kind == 3 {
        if let Some(end) = find_nul(body) {
            assert(is_first_nul(body@, end as int));
            texts.push(vstd::slice::slice_to_vec(vstd::slice::slice_subrange(body, 0, end)));
            proof {
                assert(text_views(texts@) =~= seq![body@.take(end as int)]);
            }
        }
    } else if kind == 4 {
        if body.len() < 4 {
            return texts;
        }
        let count = be32_of(body);
        let after_count = vstd::slice::slice_subrange(body, 4, body.len());
        assert(after_count@ =~= body@.skip(4));
        if too_few_for_nodes(after_count.len(), count) {
            return texts;
        }
        collect_node_texts(after_count, count, &mut texts);
        proof {
            assert(Seq::<Seq<u8>>::empty() + node_texts(body@.skip(4), be32_value(body@) as nat)
                =~= node_texts(body@.skip(4), be32_value(body@) as nat));
        }
    }
    texts
}

/// The number whose four bytes, most significant first, start `bytes`.
fn be32_of(bytes: &[u8]) -> (r: u32)
    requires
        bytes@.len() >= 4,
    ensures
        r == be32_value(bytes@),
{
    let v: u64 = (bytes[0] as u64) * 0x100_0000 + (bytes[1] as u64) * 0x1_0000 + (bytes[2] as u64) * 0x100
        + bytes[3] as u64;
    v as u32
}


/// Any message of the wire format.
#[derive(Debug)]
pub enum WireMessage {
    Join(JoinMessage),
    Shuffle(ShuffleMessage),
    ShuffleReply(ShuffleReplyMessage),
    ForwardJoin(ForwardJoinMessage),
    Neighbor(NeighborMessage),
    Disconnect(DisconnectMessage),
}

/// The addresses that the writer of `message` writes, in the order in which
/// it writes their texts.
pub open spec fn addresses_of(message: WireMessage) -> Seq<PeerAddr> {
    match message {
        WireMessage::Shuffle(m) => seq![m.origin] + m.nodes.order(),
        WireMessage::ShuffleReply(m) => m.nodes.order(),
        WireMessage::ForwardJoin(m) => seq![m.peer],
        _ => Seq::empty(),
    }
}

/// The bytes that the writer of `message` appends, where `texts[k]` is the
/// text of the `k`-th of its addresses.
pub open spec fn encoding(message: WireMessage, texts: Seq<Seq<u8>>) -> Seq<u8> {
    match message {
        WireMessage::Join(_) => seq![1u8],
        WireMessage::Shuffle(m) => seq![2u8] + texts[0] + seq![0u8] + be32_bytes(m.nodes@.len() as u32)
            + nul_fields(texts.skip(1)) + be32_bytes(m.ttl),
        WireMessage::ForwardJoin(m) => seq![3u8] + texts[0] + seq![0u8] + be32_bytes(m.ttl),
        WireMessage::ShuffleReply(m) => seq![4u8] + be32_bytes(m.nodes@.len() as u32) + nul_fields(texts),
        WireMessage::Disconnect(m) => seq![5u8, flag_byte(m.alive), flag_byte(m.respond)],
        WireMessage::Neighbor(m) => seq![6u8, flag_byte(m.high_priority)],
    }
}

/// The node sets inside `message` are well formed.
pub open spec fn wire_message_wf(message: WireMessage) -> bool {
    match message {
        WireMessage::Shuffle(m) => m.nodes.wf(),
        WireMessage::ShuffleReply(m) => m.nodes.wf(),
        _ => true,
    }
}

impl WireMessage {
    /// The addresses whose texts the writer needs, in the order it writes them.
    pub fn addresses(&self) -> (r: Vec<PeerAddr>)
        requires
            wire_message_wf(*self),
        ensures
            r@ == addresses_of(*self),
    {
        match self {
            WireMessage::Shuffle(m) => {
                let mut r: Vec<PeerAddr> = Vec::new();
                r.push(m.origin);
                let mut nodes = m.nodes.to_vec();
                r.append(&mut nodes);
                r
            },
            WireMessage::ShuffleReply(m) => m.nodes.to_vec(),
            WireMessage::ForwardJoin(m) => {
                let mut r: Vec<PeerAddr> = Vec::new();
                r.push(m.peer);
                assert(r@ =~= seq![m.peer]);
                r
            },
            _ => {
                let r: Vec<PeerAddr> = Vec::new();
                assert(r@ =~= Seq::<PeerAddr>::empty());
                r
            },
        }
    }
}

/// The codec that writes and reads the wire format of messages.
#[derive(Debug)]
pub struct HyParViewCodec;

impl HyParViewCodec {
    /// A codec.
    pub fn new() -> (r: HyParViewCodec)
        ensures
            r == HyParViewCodec,
    {
        HyParViewCodec {}
    }

    /// Appends `item` to `buffer`, where `texts[k]` is the text of the
    /// `k`-th address that `item.addresses()` lists.
    pub fn encode(&mut self, item: &WireMessage, texts: &[Vec<u8>], buffer: &mut BytesMut) -> (r: Result<(), WireError>)
        requires
            wire_message_wf(*item),
            texts@.len() == addresses_of(*item).len(),
            buffer_bytes(*old(buffer)).len() + encoding(*item, text_views(texts@)).len() <= isize::MAX,
        ensures
            r is Ok,
            buffer_bytes(*final(buffer)) == buffer_bytes(*old(buffer)) + encoding(*item, text_views(texts@)),
    {
        match item {
            WireMessage::Join(m) => m.encode(buffer),
            WireMessage::Shuffle(m) => {
                proof {
                    m.nodes.lemma_finite();
                }
                let nodes = vstd::slice::slice_subrange(texts, 1, texts.len());
                assert(text_views(nodes@) =~= text_views(texts@).skip(1));
                assert(text_views(texts@)[0] == texts@[0]@);
                m.encode(texts[0].as_slice(), nodes, buffer)
            },
            WireMessage::ForwardJoin(m) => {
                assert(text_views(texts@)[0] == texts@[0]@);
                m.encode(texts[0].as_slice(), buffer)
            },
            WireMessage::ShuffleReply(m) => m.encode(texts, buffer),
            WireMessage::Disconnect(m) => m.encode(buffer),
            WireMessage::Neighbor(m) => m.encode(buffer),
        }
    }

    /// Reads the next message off `buffer`: nothing when the buffer is empty;
    /// otherwise the kind byte, then a join or a shuffle request (the only
    /// kinds this codec reads), where `parsed` holds what the texts that
    /// `address_fields` lists for the rest of the buffer parse to.
    pub fn decode(&mut self, buffer: &mut BytesMut, parsed: &[Option<PeerAddr>]) -> (r: Result<Option<WireMessage>, WireError>)
        ensures
            ({
                let bytes = buffer_bytes(*old(buffer));
                if bytes.len() < 1 {
                    r == Ok::<Option<WireMessage>, WireError>(None) && buffer_bytes(*final(buffer)) == bytes
                } else if bytes[0] == 1 {
                    r matches Ok(Some(WireMessage::Join(_))) && buffer_bytes(*final(buffer)) == bytes.skip(1)
                } else if bytes[0] == 2 {
                    let read = read_shuffle(bytes.skip(1), parsed@);
                    &&& buffer_bytes(*final(buffer)) == read.rest
                    &&& match read.result {
                        Err(e) => r == Err::<Option<WireMessage>, WireError>(e),
                        Ok(_) => r matches Ok(Some(WireMessage::Shuffle(m))) && m.origin == read.origin->0
                            && m.nodes.wf() && m.nodes@ == read.nodes->0.to_set() && m.ttl == read.ttl->0,
                    }
                } else {
                    r == Err::<Option<WireMessage>, WireError>(WireError::UnknownKind(bytes[0]))
                        && buffer_bytes(*final(buffer)) == bytes.skip(1)
                }
            }),
    {
        if buffer_slice(buffer).len() < 1 {
            return Ok(None);
        }
        let message_type = buffer_get_u8(buffer);
        if message_type == 1 {
            let mut message = JoinMessage {};
            let _ = message.decode(buffer);
            Ok(Some(WireMessage::Join(message)))
        } else if message_type == 2 {
            let mut message = ShuffleMessage::default();
            match message.decode(buffer, parsed) {
                Ok(_) => Ok(Some(WireMessage::Shuffle(message))),
                Err(err) => Err(err),
            }
        } else {
            Err(WireError::UnknownKind(message_type))
        }
    }
}



/// What the codec writes for a shuffle answer reads back as that answer:
/// the first byte is the shuffle-answer kind, and reading the rest (when the
/// node texts are free of zero bytes, parse back to the nodes in the order
/// they were written, and enough bytes follow the count) gives every node of
/// the message, in its order, and leaves exactly what followed.
pub proof fn lemma_codec_shuffle_reply_round_trip(m: ShuffleReplyMessage, texts: Seq<Seq<u8>>, rest: Seq<u8>)
    requires
        m.nodes.wf(),
        m.nodes@.len() <= u32::MAX,
        texts.len() == m.nodes@.len(),
        forall|k: int| 0 <= k < texts.len() ==> nul_free(#[trigger] texts[k]),
        nul_fields(texts).len() + rest.len() >= nodes_need(m.nodes@.len() as u32),
    ensures
        ({
            let bytes = encoding(WireMessage::ShuffleReply(m), texts) + rest;
            let read = read_shuffle_reply(bytes.skip(1), m.nodes.order().map_values(|a: PeerAddr| Some(a)));
            &&& bytes[0] == 4
            &&& read.0 == Ok::<(), WireError>(())
            &&& read.1 == m.nodes.order()
            &&& read.1.to_set() == m.nodes@
            &&& read.2 == rest
        }),
{
    m.nodes.lemma_order();
    let nodes = m.nodes.order();
    let bytes = encoding(WireMessage::ShuffleReply(m), texts) + rest;
    assert(bytes.skip(1) =~= be32_bytes(nodes.len() as u32) + nul_fields(texts) + rest);
    lemma_shuffle_reply_round_trip(nodes, texts, rest);
}

/// What the codec writes for a shuffle request reads back as that request:
/// the first byte is the shuffle kind, and reading the rest (when the address
/// texts are free of zero bytes, parse back to the origin and to the nodes in
/// the order they were written, and enough bytes follow the count) gives the
/// origin, every node of the message in its order, and the hop count, and
/// leaves exactly what followed.
pub proof fn lemma_codec_shuffle_round_trip(m: ShuffleMessage, texts: Seq<Seq<u8>>, rest: Seq<u8>)
    requires
        m.nodes.wf(),
        m.nodes@.len() <= u32::MAX,
        texts.len() == m.nodes@.len() + 1,
        forall|k: int| 0 <= k < texts.len() ==> nul_free(#[trigger] texts[k]),
        nul_fields(texts.skip(1)).len() + 4 + rest.len() >= nodes_need(m.nodes@.len() as u32),
    ensures
        ({
            let bytes = encoding(WireMessage::Shuffle(m), texts) + rest;
            let parsed = seq![Some(m.origin)] + m.nodes.order().map_values(|a: PeerAddr| Some(a));
            let read = read_shuffle(bytes.skip(1), parsed);
            &&& bytes[0] == 2
            &&& read.result == Ok::<(), WireError>(())
            &&& read.origin == Some(m.origin)
            &&& read.nodes == Some(m.nodes.order())
            &&& read.nodes->0.to_set() == m.nodes@
            &&& read.ttl == Some(m.ttl)
            &&& read.rest == rest
        }),
{
    m.nodes.lemma_order();
    let nodes = m.nodes.order();
    let bytes = encoding(WireMessage::Shuffle(m), texts) + rest;
    assert(bytes.skip(1) =~= texts[0] + seq![0u8] + be32_bytes(nodes.len() as u32) + nul_fields(texts.skip(1))
        + be32_bytes(m.ttl) + rest);
    lemma_shuffle_round_trip(m.origin, nodes, m.ttl, texts, rest);
}


/// What the codec writes for a forward join is the forward-join kind byte,
/// the peer's text with its terminator, and the hop count: the text is found
/// again by its terminator (when it has no zero byte), and the four bytes
/// after it read back as the hop count.
pub proof fn lemma_codec_forward_join_layout(m: ForwardJoinMessage, texts: Seq<Seq<u8>>)
    requires
        texts.len() == 1,
        nul_free(texts[0]),
    ensures
        ({
            let bytes = encoding(WireMessage::ForwardJoin(m), texts);
            let body = bytes.skip(1);
            &&& bytes[0] == 3
            &&& first_nul(body) == Some(texts[0].len() as int)
            &&& body.take(texts[0].len() as int) == texts[0]
            &&& body.len() == texts[0].len() + 5
            &&& be32_value(body.skip(texts[0].len() as int + 1)) == m.ttl
        }),
{
    let bytes = encoding(WireMessage::ForwardJoin(m), texts);
    let body = bytes.skip(1);
    assert(body =~= texts[0] + seq![0u8] + be32_bytes(m.ttl));
    crate::messages::lemma_first_nul_of_field(texts[0], be32_bytes(m.ttl));
    lemma_be32_round_trip(m.ttl);
    assert(body.skip(texts[0].len() as int + 1) =~= be32_bytes(m.ttl));
}

/// Each message the codec writes starts with its own kind byte: join 1,
/// shuffle 2, forward join 3, shuffle answer 4, disconnect 5, neighbour 6.
pub proof fn lemma_codec_kind_byte(message: WireMessage, texts: Seq<Seq<u8>>)
    ensures
        encoding(message, texts)[0] == match message {
            WireMessage::Join(_) => 1u8,
            WireMessage::Shuffle(_) => 2u8,
            WireMessage::ForwardJoin(_) => 3u8,
            WireMessage::ShuffleReply(_) => 4u8,
            WireMessage::Disconnect(_) => 5u8,
            WireMessage::Neighbor(_) => 6u8,
        },
{
}

} // verus!
