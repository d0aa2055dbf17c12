//! The byte-level format of the membership messages. Each message starts
//! with a kind byte; addresses travel as their text followed by a zero byte,
//! and counts and hop numbers as four bytes, most significant first.
//!
//! Turning an address into its text, and a text back into an address, is
//! left to the caller: writers take the texts of a message's addresses, and
//! readers take what the texts found in the buffer parse to (see
//! `codec::address_fields` for which texts those are).

use vstd::prelude::*;
use bytes::BytesMut;
use crate::addr::PeerAddr;
use crate::buffer::{
    be32, be32_bytes, be32_value, buffer_advance, buffer_bytes, buffer_extend, buffer_get_u32,
    buffer_get_u8, buffer_put_u32, buffer_put_u8, buffer_slice, lemma_be32_round_trip,
};
use crate::peer_set::PeerSet;
use crate::codec::{encoding, WireMessage};

verus! {

/// Why a message could not be read off the wire.
#[derive(Clone, Copy, Debug, PartialEq, Eq, Structural)]
pub enum WireError {
    /// A shuffle message shorter than eight bytes.
    ShortShuffle,
    /// The origin (or peer) address text does not parse.
    InvalidOrigin,
    /// Fewer bytes than the announced nodes need.
    ShortNodes,
    /// A node address text does not parse.
    InvalidNode,
    /// A message kind this codec does not read.
    UnknownKind(u8),
    /// The bytes end inside a field or a number: a reader would run past
    /// the end of the buffer.
    Truncated,
}

/// The size of a socket address in memory; each announced node is taken to
/// need this many bytes plus its terminator.
pub const SOCKET_ADDR_SIZE: u64 = 32;

/// A join request.
#[derive(Clone, Copy, Debug, PartialEq, Eq)]
pub struct JoinMessage {}

/// A shuffle request.
#[derive(Debug)]
pub struct ShuffleMessage {
    pub origin: PeerAddr,
    pub nodes: PeerSet,
    pub ttl: u32,
}

/// A forwarded join.
#[derive(Clone, Copy, Debug, PartialEq, Eq)]
pub struct ForwardJoinMessage {
    pub peer: PeerAddr,
    pub ttl: u32,
}

/// A shuffle answer.
#[derive(Debug)]
pub struct ShuffleReplyMessage {
    pub nodes: PeerSet,
}

/// A neighbour request.
#[derive(Clone, Copy, Debug, PartialEq, Eq)]
pub struct NeighborMessage {
    pub high_priority: bool,
}

/// A disconnect notice.
#[derive(Clone, Copy, Debug, PartialEq, Eq)]
pub struct DisconnectMessage {
    pub alive: bool,
    pub respond: bool,
}

/// The byte that encodes a flag.
pub open spec fn flag_byte(b: bool) -> u8 {
    if b { 1 } else { 0 }
}

/// `i` is the position of the first zero byte of `s`.
pub open spec fn is_first_nul(s: Seq<u8>, i: int) -> bool {
    0 <= i < s.len() && s[i] == 0 && forall|j: int| 0 <= j < i ==> s[j] != 0
}

/// The position of the first zero byte of `s`, if it has one.
pub open spec fn first_nul(s: Seq<u8>) -> Option<int> {
    if exists|i: int| is_first_nul(s, i) {
        Some(choose|i: int| is_first_nul(s, i))
    } else {
        None
    }
}

/// A sequence has at most one first zero byte.
pub proof fn lemma_first_nul_unique(s: Seq<u8>, i: int, j: int)
    requires
        is_first_nul(s, i),
        is_first_nul(s, j),
    ensures
        i == j,
{
}

/// Finds the first zero byte of `bytes`.
pub fn find_nul(bytes: &[u8]) -> (r: Option<usize>)
    ensures
        match r {
            Some(i) => first_nul(bytes@) == Some(i as int),
            None => first_nul(bytes@) is None,
        },
{
    let mut i: usize = 0;
    while i < bytes.len()
        invariant
            i <= bytes@.len(),
            forall|j: int| 0 <= j < i ==> bytes@[j] != 0,
        decreases bytes@.len() - i,
    {
        if bytes[i] == 0 {
            proof {
                assert(is_first_nul(bytes@, i as int));
                let c = choose|c: int| is_first_nul(bytes@, c);
                lemma_first_nul_unique(bytes@, i as int, c);
            }
            return Some(i);
        }
        i = i + 1;
    }
    None
}

/// The zero-terminated fields of `texts`, one after the other.
pub open spec fn nul_fields(texts: Seq<Seq<u8>>) -> Seq<u8>
    decreases texts.len(),
{
    if texts.len() == 0 {
        Seq::empty()
    } else {
        nul_fields(texts.drop_last()) + texts.last() + seq![0u8]
    }
}

/// Reading `count` node fields off `bytes`, where `parsed[at + k]` is what
/// the text of the `k`-th field parses to: how the reading ended, the nodes
/// read in order, and the bytes left. Reading stops at the first field
/// without a terminator (the bytes are left as they are) or whose text does
/// not parse (the field is left unread).
pub open spec fn read_nodes(bytes: Seq<u8>, count: nat, parsed: Seq<Option<PeerAddr>>, at: int) -> (Result<(), WireError>, Seq<PeerAddr>, Seq<u8>)
    decreases count,
{
    if count == 0 {
        (Ok(()), Seq::empty(), bytes)
    } else {
        match first_nul(bytes) {
            None => (Err(WireError::Truncated), Seq::empty(), bytes),
            Some(i) => if !(0 <= at < parsed.len()) || parsed[at] is None {
                (Err(WireError::InvalidNode), Seq::empty(), bytes)
            } else {
                let rest = read_nodes(bytes.skip(i + 1), (count - 1) as nat, parsed, at + 1);
                (rest.0, seq![parsed[at]->0] + rest.1, rest.2)
            },
        }
    }
}

/// The texts of the node fields that reading `count` nodes off `bytes`
/// looks at: each field up to its terminator, stopping at the first field
/// that has none.
pub open spec fn node_texts(bytes: Seq<u8>, count: nat) -> Seq<Seq<u8>>
    decreases count,
{
    if count == 0 {
        Seq::empty()
    } else {
        match first_nul(bytes) {
            None => Seq::empty(),
            Some(i) => seq![bytes.take(i)] + node_texts(bytes.skip(i + 1), (count - 1) as nat),
        }
    }
}

/// Reads `count` node fields off `buffer` into `nodes`, taking what each
/// field's text parses to from `parsed`.
fn read_nodes_into(buffer: &mut BytesMut, count: u32, parsed: &[Option<PeerAddr>], at: usize, nodes: &mut PeerSet) -> (r: Result<(), WireError>)
    requires
        old(nodes).wf(),
        at <= parsed@.len(),
    ensures
        final(nodes).wf(),
        ({
            let outcome = read_nodes(buffer_bytes(*old(buffer)), count as nat, parsed@, at as int);
            &&& r == outcome.0
            &&& final(nodes)@ == old(nodes)@.union(outcome.1.to_set())
            &&& buffer_bytes(*final(buffer)) == outcome.2
        }),
{
    let ghost bytes0 = buffer_bytes(*old(buffer));
    let ghost nodes0 = nodes@;
    let ghost mut done: Seq<PeerAddr> = Seq::empty();
    let mut k: u32 = 0;
    proof {
        let whole = read_nodes(bytes0, count as nat, parsed@, at as int);
        assert(done + whole.1 =~= whole.1);
        assert(nodes0.union(done.to_set()) =~= nodes0);
    }
    while k < count
        invariant
            k <= count,
            at <= parsed@.len(),
            bytes0 == buffer_bytes(*old(buffer)),
            nodes0 == old(nodes)@,
            nodes.wf(),
            nodes@ == nodes0.union(done.to_set()),
            ({
                let whole = read_nodes(bytes0, count as nat, parsed@, at as int);
                let tail = read_nodes(buffer_bytes(*buffer), (count - k) as nat, parsed@, at + k);
                whole == (tail.0, done + tail.1, tail.2)
            }),
        decreases count - k,
    {
        let ghost cur = buffer_bytes(*buffer);
        let ghost whole = read_nodes(bytes0, count as nat, parsed@, at as int);
        let ghost tail = read_nodes(cur, (count - k) as nat, parsed@, at + k);
        let bytes = buffer_slice(buffer);
        let n = bytes.len();
        let pos = match find_nul(bytes) {
            Some(pos) => pos,
            None => {
                assert(tail == (Err::<(), WireError>(WireError::Truncated), Seq::<PeerAddr>::empty(), cur));
                assert(whole.1 =~= done);
                return Err(WireError::Truncated);
            },
        };
        if k as usize >= parsed.len() - at {
            assert(tail == (Err::<(), WireError>(WireError::InvalidNode), Seq::<PeerAddr>::empty(), cur));
            assert(whole.1 =~= done);
            return Err(WireError::InvalidNode);
        }
        let node = match parsed[at + k as usize] {
            Some(node) => node,
            None => {
                assert(tail == (Err::<(), WireError>(WireError::InvalidNode), Seq::<PeerAddr>::empty(), cur));
                assert(whole.1 =~= done);
                return Err(WireError::InvalidNode);
            },
        };
        assert(is_first_nul(bytes@, pos as int));
        let ghost before_insert = nodes@;
        nodes.insert(node);
        buffer_advance(buffer, pos + 1);
        proof {
            let tail = read_nodes(buffer_bytes(*buffer), (count - k - 1) as nat, parsed@, at + k + 1);
            assert(done + (seq![node] + tail.1) =~= done.push(node) + tail.1);
            assert(nodes@ =~= nodes0.union(done.push(node).to_set())) by {
                assert forall|x: PeerAddr| done.push(node).to_set().contains(x) <==> (done.to_set().contains(x) || x == node) by {
                    if done.push(node).contains(x) {
                        let m = choose|m: int| 0 <= m < done.push(node).len() && done.push(node)[m] == x;
                        if m < done.len() {
                            assert(done[m] == x);
                        }
                    }
                    if done.contains(x) {
                        let m = choose|m: int| 0 <= m < done.len() && done[m] == x;
                        assert(done.push(node)[m] == x);
                    }
                    if x == node {
                        assert(done.push(node)[done.len() as int] == x);
                    }
                }
                assert(nodes@ == before_insert.insert(node));
                assert(before_insert == nodes0.union(done.to_set()));
                assert forall|x: PeerAddr| nodes@.contains(x) <==> nodes0.union(done.push(node).to_set()).contains(x) by {
                    assert(done.push(node).to_set().contains(x) <==> (done.to_set().contains(x) || x == node));
                }
            }
            done = done.push(node);
        }
        k = k + 1;
    }
    proof {
        let whole = read_nodes(bytes0, count as nat, parsed@, at as int);
        assert(whole.1 =~= done);
    }
    Ok(())
}


/// The views of `texts`.
pub open spec fn text_views(texts: Seq<Vec<u8>>) -> Seq<Seq<u8>> {
    texts.map_values(|t: Vec<u8>| t@)
}

/// The fields of a prefix of `texts` are no longer than those of all of them.
pub proof fn lemma_nul_fields_prefix(texts: Seq<Seq<u8>>, i: int)
    requires
        0 <= i <= texts.len(),
    ensures
        nul_fields(texts.take(i)).len() <= nul_fields(texts).len(),
    decreases texts.len(),
{
    if i < texts.len() {
        assert(texts.drop_last().take(i) =~= texts.take(i));
        lemma_nul_fields_prefix(texts.drop_last(), i);
    } else {
        assert(texts.take(i) =~= texts);
    }
}

/// Appends each of `texts`, followed by a zero byte, to `buffer`.
fn write_nul_fields(buffer: &mut BytesMut, texts: &[Vec<u8>])
    requires
        buffer_bytes(*old(buffer)).len() + nul_fields(text_views(texts@)).len() <= isize::MAX,
    ensures
        buffer_bytes(*final(buffer)) == buffer_bytes(*old(buffer)) + nul_fields(text_views(texts@)),
{
    let ghost start = buffer_bytes(*buffer);
    let ghost all = text_views(texts@);
    let mut i: usize = 0;
    proof {
        assert(all.take(0) =~= Seq::<Seq<u8>>::empty());
        assert(start + nul_fields(all.take(0)) =~= start);
    }
    while i < texts.len()
        invariant
            i <= texts@.len(),
            all == text_views(texts@),
            start == buffer_bytes(*old(buffer)),
            start.len() + nul_fields(all).len() <= isize::MAX,
            buffer_bytes(*buffer) == start + nul_fields(all.take(i as int)),
        decreases texts@.len() - i,
    {
        proof {
            lemma_nul_fields_prefix(all, i + 1);
            assert(all.take(i + 1).drop_last() =~= all.take(i as int));
            assert(all.take(i + 1).last() == texts@[i as int]@);
        }
        buffer_extend(buffer, texts[i].as_slice());
        buffer_put_u8(buffer, 0);
        proof {
            assert(buffer_bytes(*buffer) =~= start + nul_fields(all.take(i + 1)));
        }
        i = i + 1;
    }
    proof {
        assert(all.take(i as int) =~= all);
    }
}

impl JoinMessage {
    /// Writes the join kind byte.
    pub fn encode(&self, buffer: &mut BytesMut) -> (r: Result<(), WireError>)
        requires
            buffer_bytes(*old(buffer)).len() < isize::MAX,
        ensures
            r is Ok,
            buffer_bytes(*final(buffer)) == buffer_bytes(*old(buffer)).push(1),
    {
        buffer_put_u8(buffer, 1);
        Ok(())
    }

    /// A join carries nothing after its kind byte: nothing is read.
    pub fn decode(&mut self, buffer: &mut BytesMut) -> (r: Result<(), WireError>)
        ensures
            r is Ok,
            buffer_bytes(*final(buffer)) == buffer_bytes(*old(buffer)),
    {
        Ok(())
    }
}

impl NeighborMessage {
    /// Writes the neighbour kind byte and the priority flag.
    pub fn encode(&self, buffer: &mut BytesMut) -> (r: Result<(), WireError>)
        requires
            buffer_bytes(*old(buffer)).len() + 2 <= isize::MAX,
        ensures
            r is Ok,
            buffer_bytes(*final(buffer)) == buffer_bytes(*old(buffer)) + seq![6u8, flag_byte(self.high_priority)],
    {
        buffer_put_u8(buffer, 6);
        buffer_put_u8(buffer, if self.high_priority { 1 } else { 0 });
        assert(buffer_bytes(*buffer) =~= buffer_bytes(*old(buffer)) + seq![6u8, flag_byte(self.high_priority)]);
        Ok(())
    }

    /// Reads the priority flag (any byte but zero is set); the buffer must
    /// hold at least one byte.
    pub fn decode(&mut self, buffer: &mut BytesMut) -> (r: Result<(), WireError>)
        ensures
            ({
                let bytes = buffer_bytes(*old(buffer));
                if bytes.len() >= 1 {
                    &&& r is Ok
                    &&& final(self).high_priority == (bytes[0] != 0)
                    &&& buffer_bytes(*final(buffer)) == bytes.skip(1)
                } else {
                    &&& r == Err::<(), WireError>(WireError::Truncated)
                    &&& *final(self) == *old(self)
                    &&& buffer_bytes(*final(buffer)) == bytes
                }
            }),
    {
        if buffer_slice(buffer).len() < 1 {
            return Err(WireError::Truncated);
        }
        self.high_priority = match buffer_get_u8(buffer) {
            0 => false,
            _ => true,
        };
        Ok(())
    }
}

impl DisconnectMessage {
    /// Writes the disconnect kind byte and the two flags.
    pub fn encode(&self, buffer: &mut BytesMut) -> (r: Result<(), WireError>)
        requires
            buffer_bytes(*old(buffer)).len() + 3 <= isize::MAX,
        ensures
            r is Ok,
            buffer_bytes(*final(buffer)) == buffer_bytes(*old(buffer)) + seq![5u8, flag_byte(self.alive), flag_byte(self.respond)],
    {
        buffer_put_u8(buffer, 5);
        buffer_put_u8(buffer, if self.alive { 1 } else { 0 });
        buffer_put_u8(buffer, if self.respond { 1 } else { 0 });
        assert(buffer_bytes(*buffer) =~= buffer_bytes(*old(buffer)) + seq![5u8, flag_byte(self.alive), flag_byte(self.respond)]);
        Ok(())
    }

    /// Reads the two flags (any byte but zero is set); the buffer must hold
    /// at least two bytes.
    pub fn decode(&mut self, buffer: &mut BytesMut) -> (r: Result<(), WireError>)
        ensures
            ({
                let bytes = buffer_bytes(*old(buffer));
                if bytes.len() >= 2 {
                    &&& r is Ok
                    &&& final(self).alive == (bytes[0] != 0)
                    &&& final(self).respond == (bytes[1] != 0)
                    &&& buffer_bytes(*final(buffer)) == bytes.skip(2)
                } else {
                    &&& r == Err::<(), WireError>(WireError::Truncated)
                    &&& *final(self) == *old(self)
                    &&& buffer_bytes(*final(buffer)) == bytes
                }
            }),
    {
        if buffer_slice(buffer).len() < 2 {
            return Err(WireError::Truncated);
        }
        self.alive = match buffer_get_u8(buffer) {
            0 => false,
            _ => true,
        };
        self.respond = match buffer_get_u8(buffer) {
            0 => false,
            _ => true,
        };
        assert(buffer_bytes(*buffer) =~= buffer_bytes(*old(buffer)).skip(2));
        Ok(())
    }
}


impl ForwardJoinMessage {
    /// Writes the forward-join kind byte, `peer_text` (the text of the
    /// peer's address) with a zero terminator, and the hop count.
    pub fn encode(&self, peer_text: &[u8], buffer: &mut BytesMut) -> (r: Result<(), WireError>)
        requires
            buffer_bytes(*old(buffer)).len() + peer_text@.len() + 6 <= isize::MAX,
        ensures
            r is Ok,
            buffer_bytes(*final(buffer)) == buffer_bytes(*old(buffer)) + seq![3u8] + peer_text@ + seq![0u8]
                + be32_bytes(self.ttl),
    {
        buffer_put_u8(buffer, 3);
        buffer_extend(buffer, peer_text);
        buffer_put_u8(buffer, 0);
        buffer_put_u32(buffer, self.ttl);
        assert(buffer_bytes(*buffer) =~= buffer_bytes(*old(buffer)) + seq![3u8] + peer_text@ + seq![0u8] + be32_bytes(self.ttl));
        Ok(())
    }

    /// Reads a forward join, given what the address text before the first
    /// zero byte parses to (`peer`). The hop count is read from the four
    /// bytes at the front of the buffer, which still start with the address
    /// text: the text itself is not consumed.
    pub fn decode(&mut self, buffer: &mut BytesMut, peer: Option<PeerAddr>) -> (r: Result<(), WireError>)
        ensures
            ({
                let bytes = buffer_bytes(*old(buffer));
                if first_nul(bytes) is None {
                    &&& r == Err::<(), WireError>(WireError::Truncated)
                    &&& *final(self) == *old(self)
                    &&& buffer_bytes(*final(buffer)) == bytes
                } else if peer is None {
                    &&& r == Err::<(), WireError>(WireError::InvalidOrigin)
                    &&& *final(self) == *old(self)
                    &&& buffer_bytes(*final(buffer)) == bytes
                } else if bytes.len() < 4 {
                    &&& r == Err::<(), WireError>(WireError::Truncated)
                    &&& final(self).peer == peer->0
                    &&& final(self).ttl == old(self).ttl
                    &&& buffer_bytes(*final(buffer)) == bytes
                } else {
                    &&& r is Ok
                    &&& final(self).peer == peer->0
                    &&& final(self).ttl == be32_value(bytes)
                    &&& buffer_bytes(*final(buffer)) == bytes.skip(4)
                }
            }),
    {
        let bytes = buffer_slice(buffer);
        if find_nul(bytes).is_none() {
            return Err(WireError::Truncated);
        }
        self.peer = match peer {
            Some(addr) => addr,
            None => {
                return Err(WireError::InvalidOrigin);
            },
        };
        if bytes.len() < 4 {
            return Err(WireError::Truncated);
        }
        self.ttl = buffer_get_u32(buffer);
        Ok(())
    }
}

/// The number of bytes that `count` announced nodes are taken to need.
pub open spec fn nodes_need(count: u32) -> int {
    count * (SOCKET_ADDR_SIZE + 1)
}

/// Whether `have` bytes are too few for `count` announced nodes.
pub(crate) fn too_few_for_nodes(have: usize, count: u32) -> (r: bool)
    ensures
        r == (have < nodes_need(count)),
{
    (have as u64) < (count as u64) * (SOCKET_ADDR_SIZE + 1)
}

/// What reading a shuffle answer off `bytes` gives, where `parsed[k]` is
/// what the `k`-th node text parses to: how it ended, the nodes read (in
/// order), and the bytes left.
pub open spec fn read_shuffle_reply(bytes: Seq<u8>, parsed: Seq<Option<PeerAddr>>) -> (Result<(), WireError>, Seq<PeerAddr>, Seq<u8>) {
    if bytes.len() < 4 {
        (Err(WireError::Truncated), Seq::empty(), bytes)
    } else {
        let count = be32_value(bytes);
        let rest = bytes.skip(4);
        if rest.len() < nodes_need(count) {
            (Err(WireError::ShortNodes), Seq::empty(), rest)
        } else {
            read_nodes(rest, count as nat, parsed, 0)
        }
    }
}

impl ShuffleReplyMessage {
    /// Writes the shuffle-answer kind byte, the number of nodes, and
    /// `node_texts` (the texts of the nodes' addresses, in the set's order),
    /// each with a zero terminator.
    pub fn encode(&self, node_texts: &[Vec<u8>], buffer: &mut BytesMut) -> (r: Result<(), WireError>)
        requires
            self.nodes.wf(),
            buffer_bytes(*old(buffer)).len() + nul_fields(text_views(node_texts@)).len() + 5 <= isize::MAX,
        ensures
            r is Ok,
            buffer_bytes(*final(buffer)) == buffer_bytes(*old(buffer)) + seq![4u8] + be32_bytes(self.nodes@.len() as u32)
                + nul_fields(text_views(node_texts@)),
    {
        buffer_put_u8(buffer, 4);
        let count = be32(self.nodes.len() as u32);
        buffer_extend(buffer, &count);
        write_nul_fields(buffer, node_texts);
        Ok(())
    }

    /// Reads a shuffle answer: the node count, then that many node fields,
    /// taking what each field's text parses to from `parsed`. The node set
    /// is emptied first and holds the nodes read so far when reading stops.
    pub fn decode(&mut self, buffer: &mut BytesMut, parsed: &[Option<PeerAddr>]) -> (r: Result<(), WireError>)
        ensures
            final(self).nodes.wf(),
            ({
                let outcome = read_shuffle_reply(buffer_bytes(*old(buffer)), parsed@);
                &&& r == outcome.0
                &&& final(self).nodes@ == outcome.1.to_set()
                &&& buffer_bytes(*final(buffer)) == outcome.2
            }),
    {
        self.nodes = PeerSet::new();
        if buffer_slice(buffer).len() < 4 {
            assert(Set::<PeerAddr>::empty() =~= Seq::<PeerAddr>::empty().to_set());
            return Err(WireError::Truncated);
        }
        let node_count = buffer_get_u32(buffer);
        if too_few_for_nodes(buffer_slice(buffer).len(), node_count) {
            assert(Set::<PeerAddr>::empty() =~= Seq::<PeerAddr>::empty().to_set());
            return Err(WireError::ShortNodes);
        }
        let r = read_nodes_into(buffer, node_count, parsed, 0, &mut self.nodes);
        proof {
            let outcome = read_nodes(buffer_bytes(*old(buffer)).skip(4), node_count as nat, parsed@, 0);
            assert(Set::<PeerAddr>::empty().union(outcome.1.to_set()) =~= outcome.1.to_set());
        }
        r
    }
}


/// What reading a shuffle request off a buffer gives: how it ended, and the
/// origin, node list and hop count that were set (`None` where the field
/// was left untouched), and the bytes left.
pub struct ShuffleRead {
    pub result: Result<(), WireError>,
    pub origin: Option<PeerAddr>,
    pub nodes: Option<Seq<PeerAddr>>,
    pub ttl: Option<u32>,
    pub rest: Seq<u8>,
}

/// Reading a shuffle request off `bytes`, where `parsed[0]` is what the
/// origin text parses to and `parsed[1 + k]` what the `k`-th node text
/// parses to.
pub open spec fn read_shuffle(bytes: Seq<u8>, parsed: Seq<Option<PeerAddr>>) -> ShuffleRead {
    if bytes.len() < 8 {
        ShuffleRead { result: Err(WireError::ShortShuffle), origin: None, nodes: None, ttl: None, rest: bytes }
    } else {
        match first_nul(bytes) {
            None => ShuffleRead { result: Err(WireError::Truncated), origin: None, nodes: None, ttl: None, rest: bytes },
            Some(i) => if parsed.len() == 0 || parsed[0] is None {
                ShuffleRead { result: Err(WireError::InvalidOrigin), origin: None, nodes: None, ttl: None, rest: bytes }
            } else {
                let origin = Some(parsed[0]->0);
                let after_origin = bytes.skip(i + 1);
                if after_origin.len() < 4 {
                    ShuffleRead { result: Err(WireError::Truncated), origin, nodes: Some(Seq::empty()), ttl: None, rest: after_origin }
                } else {
                    let count = be32_value(after_origin);
                    let after_count = after_origin.skip(4);
                    if after_count.len() < nodes_need(count) {
                        ShuffleRead { result: Err(WireError::ShortNodes), origin, nodes: Some(Seq::empty()), ttl: None, rest: after_count }
                    } else {
                        let read = read_nodes(after_count, count as nat, parsed, 1);
                        if read.0 is Err {
                            ShuffleRead { result: read.0, origin, nodes: Some(read.1), ttl: None, rest: read.2 }
                        } else if read.2.len() < 4 {
                            ShuffleRead { result: Err(WireError::Truncated), origin, nodes: Some(read.1), ttl: None, rest: read.2 }
                        } else {
                            ShuffleRead { result: Ok(()), origin, nodes: Some(read.1), ttl: Some(be32_value(read.2)), rest: read.2.skip(4) }
                        }
                    }
                }
            },
        }
    }
}

impl Default for ShuffleMessage {
    /// A shuffle from 127.0.0.1:8080 with no nodes and no hops left.
    fn default() -> (r: Self)
        ensures
            r.origin == (PeerAddr::V4 { ip: 0x7f00_0001, port: 8080 }),
            r.nodes.wf(),
            r.nodes@ == Set::<PeerAddr>::empty(),
            r.ttl == 0,
    {
        ShuffleMessage { origin: PeerAddr::V4 { ip: 0x7f00_0001, port: 8080 }, nodes: PeerSet::new(), ttl: 0 }
    }
}

impl ShuffleMessage {
    /// Writes the shuffle kind byte, `origin_text` (the text of the origin's
    /// address) with a zero terminator, the number of nodes, `node_texts`
    /// (the texts of the nodes' addresses, in the set's order) each with a
    /// zero terminator, and the hop count.
    pub fn encode(&self, origin_text: &[u8], node_texts: &[Vec<u8>], buffer: &mut BytesMut) -> (r: Result<(), WireError>)
        requires
            self.nodes.wf(),
            buffer_bytes(*old(buffer)).len() + origin_text@.len() + nul_fields(text_views(node_texts@)).len() + 10
                <= isize::MAX,
        ensures
            r is Ok,
            buffer_bytes(*final(buffer)) == buffer_bytes(*old(buffer)) + seq![2u8] + origin_text@ + seq![0u8]
                + be32_bytes(self.nodes@.len() as u32) + nul_fields(text_views(node_texts@)) + be32_bytes(self.ttl),
    {
        buffer_put_u8(buffer, 2);
        buffer_extend(buffer, origin_text);
        buffer_put_u8(buffer, 0);
        let count = be32(self.nodes.len() as u32);
        buffer_extend(buffer, &count);
        write_nul_fields(buffer, node_texts);
        let ttl = be32(self.ttl);
        buffer_extend(buffer, &ttl);
        Ok(())
    }

    /// Reads a shuffle request, given what the origin text parses to
    /// (`parsed[0]`) and what each node text parses to (`parsed[1..]`).
    pub fn decode(&mut self, buffer: &mut BytesMut, parsed: &[Option<PeerAddr>]) -> (r: Result<(), WireError>)
        requires
            old(self).nodes.wf(),
        ensures
            final(self).nodes.wf(),
            ({
                let read = read_shuffle(buffer_bytes(*old(buffer)), parsed@);
                &&& r == read.result
                &&& final(self).origin == match read.origin {
                    Some(origin) => origin,
                    None => old(self).origin,
                }
                &&& match read.nodes {
                    Some(nodes) => final(self).nodes@ == nodes.to_set(),
                    None => final(self).nodes == old(self).nodes,
                }
                &&& final(self).ttl == match read.ttl {
                    Some(ttl) => ttl,
                    None => old(self).ttl,
                }
                &&& buffer_bytes(*final(buffer)) == read.rest
            }),
    {
        let bytes = buffer_slice(buffer);
        if bytes.len() < 8 {
            return Err(WireError::ShortShuffle);
        }
        let end = match find_nul(bytes) {
            Some(end) => end,
            None => {
                return Err(WireError::Truncated);
            },
        };
        assert(is_first_nul(bytes@, end as int));
        if parsed.len() == 0 {
            return Err(WireError::InvalidOrigin);
        }
        self.origin = match parsed[0] {
            Some(addr) => addr,
            None => {
                return Err(WireError::InvalidOrigin);
            },
        };
        buffer_advance(buffer, end + 1);
        self.nodes = PeerSet::new();
        if buffer_slice(buffer).len() < 4 {
            assert(Set::<PeerAddr>::empty() =~= Seq::<PeerAddr>::empty().to_set());
            return Err(WireError::Truncated);
        }
        let node_count = buffer_get_u32(buffer);
        if too_few_for_nodes(buffer_slice(buffer).len(), node_count) {
            assert(Set::<PeerAddr>::empty() =~= Seq::<PeerAddr>::empty().to_set());
            return Err(WireError::ShortNodes);
        }
        let ghost before_nodes = buffer_bytes(*buffer);
        let read = read_nodes_into(buffer, node_count, parsed, 1, &mut self.nodes);
        proof {
            let outcome = read_nodes(before_nodes, node_count as nat, parsed@, 1);
            assert(Set::<PeerAddr>::empty().union(outcome.1.to_set()) =~= outcome.1.to_set());
        }
        if read.is_err() {
            return read;
        }
        if buffer_slice(buffer).len() < 4 {
            return Err(WireError::Truncated);
        }
        self.ttl = buffer_get_u32(buffer);
        Ok(())
    }
}


/// A text with no zero byte in it.
pub open spec fn nul_free(text: Seq<u8>) -> bool {
    forall|j: int| 0 <= j < text.len() ==> text[j] != 0
}

/// A field written as a text without zero bytes followed by a zero byte is
/// found again by its terminator.
pub proof fn lemma_first_nul_of_field(text: Seq<u8>, tail: Seq<u8>)
    requires
        nul_free(text),
    ensures
        first_nul(text + seq![0u8] + tail) == Some(text.len() as int),
        (text + seq![0u8] + tail).take(text.len() as int) == text,
        (text + seq![0u8] + tail).skip(text.len() as int + 1) == tail,
{
    let bytes = text + seq![0u8] + tail;
    assert(is_first_nul(bytes, text.len() as int));
    let c = choose|c: int| is_first_nul(bytes, c);
    lemma_first_nul_unique(bytes, text.len() as int, c);
    assert(bytes.take(text.len() as int) =~= text);
    assert(bytes.skip(text.len() as int + 1) =~= tail);
}

/// The fields of a list are the first text's field followed by the fields
/// of the rest.
pub proof fn lemma_nul_fields_front(texts: Seq<Seq<u8>>)
    requires
        texts.len() > 0,
    ensures
        nul_fields(texts) == texts[0] + seq![0u8] + nul_fields(texts.drop_first()),
    decreases texts.len(),
{
    if texts.len() == 1 {
        assert(texts.drop_last() =~= Seq::<Seq<u8>>::empty());
        assert(texts.drop_first() =~= Seq::<Seq<u8>>::empty());
        assert(nul_fields(texts) =~= texts[0] + seq![0u8] + nul_fields(texts.drop_first()));
    } else {
        lemma_nul_fields_front(texts.drop_last());
        assert(texts.drop_last().drop_first() =~= texts.drop_first().drop_last());
        assert(texts.drop_first().last() == texts.last());
        assert(nul_fields(texts) =~= texts[0] + seq![0u8] + nul_fields(texts.drop_first()));
    }
}

/// Reading back node fields written from `texts`, when each text is free of
/// zero bytes and parses (per `parsed`, from position `at`) to the matching
/// address of `nodes`, gives back exactly those addresses and leaves what
/// followed.
pub proof fn lemma_read_nodes_of_fields(
    texts: Seq<Seq<u8>>,
    nodes: Seq<PeerAddr>,
    tail: Seq<u8>,
    parsed: Seq<Option<PeerAddr>>,
    at: int,
)
    requires
        texts.len() == nodes.len(),
        0 <= at,
        at + nodes.len() <= parsed.len(),
        forall|k: int| 0 <= k < texts.len() ==> nul_free(#[trigger] texts[k]),
        forall|k: int| 0 <= k < nodes.len() ==> parsed[at + k] == Some(#[trigger] nodes[k]),
    ensures
        read_nodes(nul_fields(texts) + tail, texts.len(), parsed, at) == (Ok::<(), WireError>(()), nodes, tail),
    decreases texts.len(),
{
    if texts.len() == 0 {
        assert(nul_fields(texts) + tail =~= tail);
        assert(nodes =~= Seq::<PeerAddr>::empty());
    } else {
        lemma_nul_fields_front(texts);
        let rest_texts = texts.drop_first();
        let bytes = nul_fields(texts) + tail;
        assert(bytes =~= texts[0] + seq![0u8] + (nul_fields(rest_texts) + tail));
        assert(nul_free(texts[0]));
        lemma_first_nul_of_field(texts[0], nul_fields(rest_texts) + tail);
        assert(parsed[at + 0] == Some(nodes[0]));
        assert forall|k: int| 0 <= k < rest_texts.len() implies nul_free(#[trigger] rest_texts[k]) by {
            assert(rest_texts[k] == texts[k + 1]);
        }
        assert forall|k: int| 0 <= k < nodes.drop_first().len() implies parsed[at + 1 + k] == Some(#[trigger] nodes.drop_first()[k]) by {
            assert(nodes.drop_first()[k] == nodes[k + 1]);
            assert(parsed[at + (k + 1)] == Some(nodes[k + 1]));
        }
        lemma_read_nodes_of_fields(rest_texts, nodes.drop_first(), tail, parsed, at + 1);
        assert(seq![nodes[0]] + nodes.drop_first() =~= nodes);
    }
}

/// Reading back a written shuffle request (after its kind byte): when the
/// address texts are free of zero bytes and parse back to the origin and to
/// the nodes in the order they were written, and enough bytes follow the
/// node count for the announced nodes, the reader gets back the origin, the
/// nodes and the hop count, and leaves exactly what followed the message.
pub proof fn lemma_shuffle_round_trip(
    origin: PeerAddr,
    nodes: Seq<PeerAddr>,
    ttl: u32,
    texts: Seq<Seq<u8>>,
    rest: Seq<u8>,
)
    requires
        nodes.len() <= u32::MAX,
        texts.len() == nodes.len() + 1,
        forall|k: int| 0 <= k < texts.len() ==> nul_free(#[trigger] texts[k]),
        nul_fields(texts.skip(1)).len() + 4 + rest.len() >= nodes_need(nodes.len() as u32),
    ensures
        ({
            let bytes = texts[0] + seq![0u8] + be32_bytes(nodes.len() as u32) + nul_fields(texts.skip(1))
                + be32_bytes(ttl) + rest;
            let parsed = seq![Some(origin)] + nodes.map_values(|a: PeerAddr| Some(a));
            let read = read_shuffle(bytes, parsed);
            &&& read.result == Ok::<(), WireError>(())
            &&& read.origin == Some(origin)
            &&& read.nodes == Some(nodes)
            &&& read.ttl == Some(ttl)
            &&& read.rest == rest
        }),
{
    let count = nodes.len() as u32;
    let node_texts = texts.skip(1);
    let bytes = texts[0] + seq![0u8] + be32_bytes(count) + nul_fields(node_texts) + be32_bytes(ttl) + rest;
    let parsed = seq![Some(origin)] + nodes.map_values(|a: PeerAddr| Some(a));
    let after_origin = be32_bytes(count) + nul_fields(node_texts) + be32_bytes(ttl) + rest;
    assert(bytes =~= texts[0] + seq![0u8] + after_origin);
    assert(nul_free(texts[0]));
    lemma_first_nul_of_field(texts[0], after_origin);
    assert(parsed[0] == Some(origin));
    lemma_be32_round_trip(count);
    assert(after_origin.take(4) =~= be32_bytes(count));
    assert(be32_value(after_origin) == be32_value(be32_bytes(count)));
    let after_count = nul_fields(node_texts) + (be32_bytes(ttl) + rest);
    assert(after_origin.skip(4) =~= after_count);
    assert forall|k: int| 0 <= k < node_texts.len() implies nul_free(#[trigger] node_texts[k]) by {
        assert(node_texts[k] == texts[k + 1]);
    }
    assert forall|k: int| 0 <= k < nodes.len() implies parsed[1 + k] == Some(#[trigger] nodes[k]) by {
    }
    lemma_read_nodes_of_fields(node_texts, nodes, be32_bytes(ttl) + rest, parsed, 1);
    lemma_be32_round_trip(ttl);
    assert((be32_bytes(ttl) + rest).skip(4) =~= rest);
    assert(be32_value(be32_bytes(ttl) + rest) == be32_value(be32_bytes(ttl)));
}


/// Reading back a written shuffle answer (after its kind byte): when the
/// node texts are free of zero bytes and parse back to the nodes in the
/// order they were written, and enough bytes follow the node count for the
/// announced nodes, the reader gets back the nodes and leaves exactly what
/// followed the message.
pub proof fn lemma_shuffle_reply_round_trip(nodes: Seq<PeerAddr>, texts: Seq<Seq<u8>>, rest: Seq<u8>)
    requires
        nodes.len() <= u32::MAX,
        texts.len() == nodes.len(),
        forall|k: int| 0 <= k < texts.len() ==> nul_free(#[trigger] texts[k]),
        nul_fields(texts).len() + rest.len() >= nodes_need(nodes.len() as u32),
    ensures
        read_shuffle_reply(
            be32_bytes(nodes.len() as u32) + nul_fields(texts) + rest,
            nodes.map_values(|a: PeerAddr| Some(a)),
        ) == (Ok::<(), WireError>(()), nodes, rest),
{
    let count = nodes.len() as u32;
    let bytes = be32_bytes(count) + nul_fields(texts) + rest;
    let parsed = nodes.map_values(|a: PeerAddr| Some(a));
    lemma_be32_round_trip(count);
    assert(be32_value(bytes) == be32_value(be32_bytes(count)));
    assert(bytes.skip(4) =~= nul_fields(texts) + rest);
    lemma_read_nodes_of_fields(texts, nodes, rest, parsed, 0);
}

/// Reading back a written neighbour request (after its kind byte) gives
/// its priority flag and leaves exactly what followed the message.
pub proof fn lemma_neighbor_round_trip(m: NeighborMessage, rest: Seq<u8>)
    ensures
        ({
            let bytes = encoding(WireMessage::Neighbor(m), Seq::empty()).skip(1) + rest;
            &&& bytes.len() >= 1
            &&& (bytes[0] != 0) == m.high_priority
            &&& bytes.skip(1) == rest
        }),
{
    let bytes = encoding(WireMessage::Neighbor(m), Seq::empty()).skip(1) + rest;
    assert(bytes.skip(1) =~= rest);
}

/// Reading back a written disconnect notice (after its kind byte) gives its
/// two flags and leaves exactly what followed the message.
pub proof fn lemma_disconnect_round_trip(m: DisconnectMessage, rest: Seq<u8>)
    ensures
        ({
            let bytes = encoding(WireMessage::Disconnect(m), Seq::empty()).skip(1) + rest;
            &&& bytes.len() >= 2
            &&& (bytes[0] != 0) == m.alive
            &&& (bytes[1] != 0) == m.respond
            &&& bytes.skip(2) == rest
        }),
{
    let bytes = encoding(WireMessage::Disconnect(m), Seq::empty()).skip(1) + rest;
    assert(bytes.skip(2) =~= rest);
}

} // verus!
