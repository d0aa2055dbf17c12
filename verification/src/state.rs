use vstd::prelude::*;
use std::collections::VecDeque;
use crate::action::Action;
use crate::addr::PeerAddr;
use crate::message::{Disconnect, ForwardJoin, Join, Neighbor, ProtocolMessage, Shuffle, ShuffleReply};
use crate::peer_set::PeerSet;
use crate::random::{choose_peer, choose_peers, lemma_picked_distinct, picked_at, thread_rng};

verus! {

/// `std::io::Error`, the error type that a neighbour request may answer with.
#[verifier::external_type_specification]
#[verifier::external_body]
pub struct ExIoError(std::io::Error);

/// The parameters of a node.
#[derive(Clone, Copy, Debug)]
pub struct Config {
    pub local_peer: PeerAddr,
    pub active_random_walk_length: u32,
    pub passive_random_walk_length: u32,
    pub active_view_capacity: usize,
    pub passive_view_capacity: usize,
    pub shuffle_ttl: u32,
    pub shuffle_active_view_count: usize,
    pub shuffle_passive_view_count: usize,
    pub shuffle_interval: u32,
}

impl Default for Config {
    /// A node at 127.0.0.1:8080 with an active view of 4, a passive view
    /// of 24, random walks of 6 hops and shuffles of 4 hops every 5 units.
    fn default() -> (r: Self)
        ensures
            r == (Config {
                local_peer: PeerAddr::V4 { ip: 0x7f00_0001, port: 8080 },
                active_random_walk_length: 6,
                passive_random_walk_length: 6,
                active_view_capacity: 4,
                passive_view_capacity: 24,
                shuffle_ttl: 4,
                shuffle_active_view_count: 4,
                shuffle_passive_view_count: 4,
                shuffle_interval: 5,
            }),
    {
        Config {
            local_peer: PeerAddr::V4 { ip: 0x7f00_0001, port: 8080 },
            active_random_walk_length: 6,
            passive_random_walk_length: 6,
            active_view_capacity: 4,
            passive_view_capacity: 24,
            shuffle_ttl: 4,
            shuffle_active_view_count: 4,
            shuffle_passive_view_count: 4,
            shuffle_interval: 5,
        }
    }
}

/// The two partial views of a node, as sets of peers.
pub struct Views {
    pub active: Set<PeerAddr>,
    pub passive: Set<PeerAddr>,
}

/// Adding `peer` to the active view takes `pre` to `post`: nothing changes
/// when the peer is already active or is the node itself; otherwise the peer
/// leaves the passive view and enters the active view, and when the active
/// view is full and not empty one active peer chosen at random is dropped and
/// the added peer is (also) put into the passive view.
pub open spec fn add_active_step(cfg: Config, pre: Views, peer: PeerAddr, post: Views) -> bool {
    if pre.active.contains(peer) || peer == cfg.local_peer {
        post == pre
    } else if pre.active.len() >= cfg.active_view_capacity && pre.active.len() > 0 {
        exists|dropped: PeerAddr|
            #![trigger pre.active.remove(dropped)]
            pre.active.contains(dropped) && post.active == pre.active.remove(dropped).insert(peer)
                && post.passive == pre.passive.insert(peer)
    } else {
        post.active == pre.active.insert(peer) && post.passive == pre.passive.remove(peer)
    }
}

/// Adding `peer` to the passive view takes `pre` to `post`: nothing changes
/// when the peer is in either view or is the node itself; otherwise the peer
/// enters the passive view, after one passive peer chosen at random has been
/// dropped when the passive view is full and not empty.
pub open spec fn add_passive_step(cfg: Config, pre: Views, peer: PeerAddr, post: Views) -> bool {
    &&& post.active == pre.active
    &&& if pre.passive.contains(peer) || pre.active.contains(peer) || peer == cfg.local_peer {
        post.passive == pre.passive
    } else if pre.passive.len() >= cfg.passive_view_capacity && pre.passive.len() > 0 {
        exists|dropped: PeerAddr|
            #![trigger pre.passive.remove(dropped)]
            pre.passive.contains(dropped) && post.passive == pre.passive.remove(dropped).insert(peer)
    } else {
        post.passive == pre.passive.insert(peer)
    }
}

/// Adding each of `peers`, in order, to the passive view takes `pre` to `post`.
pub open spec fn add_passive_all(cfg: Config, pre: Views, peers: Seq<PeerAddr>, post: Views) -> bool
    decreases peers.len(),
{
    if peers.len() == 0 {
        post == pre
    } else {
        exists|mid: Views|
            #![trigger add_passive_step(cfg, mid, peers.last(), post)]
            add_passive_all(cfg, pre, peers.drop_last(), mid) && add_passive_step(cfg, mid, peers.last(), post)
    }
}

/// The actions that send `message` to each of `destinations`, in order.
pub open spec fn sends(destinations: Seq<PeerAddr>, message: ProtocolMessage) -> Seq<Action> {
    destinations.map_values(|d: PeerAddr| Action::Send { destination: d, message })
}

/// `destinations` lists each peer of `peers` exactly once.
pub open spec fn lists(destinations: Seq<PeerAddr>, peers: Set<PeerAddr>) -> bool {
    destinations.no_duplicates() && destinations.to_set() == peers
}

/// What adding a peer to the active view does, in terms of set sizes and
/// members: a peer that is already active, or is the node itself, changes
/// nothing. Any other peer ends up active; the new active view holds only
/// the old active peers and the added one; when the view was full (and not
/// empty) exactly one old active peer gives way, so the size stays the same,
/// and otherwise the view grows by one. Adding never shrinks the active view.
pub proof fn lemma_add_active_law(cfg: Config, pre: Views, peer: PeerAddr, post: Views)
    requires
        add_active_step(cfg, pre, peer, post),
        pre.active.finite(),
        pre.passive.finite(),
    ensures
        pre.active.contains(peer) || peer == cfg.local_peer ==> post == pre,
        post.active.len() >= pre.active.len(),
        post.active.finite(),
        !pre.active.contains(peer) && peer != cfg.local_peer ==> {
            &&& post.active.contains(peer)
            &&& post.active.subset_of(pre.active.insert(peer))
            &&& if pre.active.len() >= cfg.active_view_capacity && pre.active.len() > 0 {
                &&& post.active.len() == pre.active.len()
                &&& pre.active.difference(post.active).len() == 1
            } else {
                &&& post.active.len() == pre.active.len() + 1
                &&& pre.active.subset_of(post.active)
            }
        },
{
    if pre.active.contains(peer) || peer == cfg.local_peer {
    } else if pre.active.len() >= cfg.active_view_capacity && pre.active.len() > 0 {
        let dropped = choose|dropped: PeerAddr|
            #![trigger pre.active.remove(dropped)]
            pre.active.contains(dropped) && post.active == pre.active.remove(dropped).insert(peer)
                && post.passive == pre.passive.insert(peer);
        assert(pre.active.remove(dropped).len() == pre.active.len() - 1);
        assert(!pre.active.remove(dropped).contains(peer));
        assert(pre.active.difference(post.active) =~= Set::<PeerAddr>::empty().insert(dropped));
    } else {
    }
}

/// What adding a peer to the passive view does: the active view never
/// changes. A peer that is already passive or active, or is the node itself
/// (the exact same address), changes nothing. Any other peer ends up
/// passive; the new passive view holds only the old passive peers and the
/// added one, and never has fewer peers than before, so a passive peer is
/// only dropped when the new one takes its place.
pub proof fn lemma_add_passive_law(cfg: Config, pre: Views, peer: PeerAddr, post: Views)
    requires
        add_passive_step(cfg, pre, peer, post),
        pre.active.finite(),
        pre.passive.finite(),
    ensures
        post.active == pre.active,
        pre.passive.contains(peer) || pre.active.contains(peer) || peer == cfg.local_peer ==> post == pre,
        post.passive.finite(),
        post.passive.len() >= pre.passive.len(),
        !pre.passive.contains(peer) && !pre.active.contains(peer) && peer != cfg.local_peer ==> {
            &&& post.passive.contains(peer)
            &&& post.passive.subset_of(pre.passive.insert(peer))
            &&& post.passive.len() <= pre.passive.len() + 1
        },
{
    if pre.passive.contains(peer) || pre.active.contains(peer) || peer == cfg.local_peer {
    } else if pre.passive.len() >= cfg.passive_view_capacity && pre.passive.len() > 0 {
        let dropped = choose|dropped: PeerAddr|
            #![trigger pre.passive.remove(dropped)]
            pre.passive.contains(dropped) && post.passive == pre.passive.remove(dropped).insert(peer);
        assert(pre.passive.remove(dropped).len() == pre.passive.len() - 1);
        assert(!pre.passive.remove(dropped).contains(peer));
    } else {
    }
}

/// Adding a peer to the active view keeps the node out of its own views and
/// keeps the active view within its capacity (at least one).
pub proof fn lemma_add_active_keeps_invariant(cfg: Config, pre: Views, peer: PeerAddr, post: Views)
    requires
        add_active_step(cfg, pre, peer, post),
        views_invariant(cfg, pre),
        pre.active.finite(),
        pre.passive.finite(),
    ensures
        views_invariant(cfg, post),
        post.active.finite(),
        post.passive.finite(),
{
    if pre.active.contains(peer) || peer == cfg.local_peer {
    } else if pre.active.len() >= cfg.active_view_capacity && pre.active.len() > 0 {
        let dropped = choose|dropped: PeerAddr|
            #![trigger pre.active.remove(dropped)]
            pre.active.contains(dropped) && post.active == pre.active.remove(dropped).insert(peer)
                && post.passive == pre.passive.insert(peer);
        assert(pre.active.remove(dropped).len() == pre.active.len() - 1);
        assert(!pre.active.remove(dropped).contains(peer));
    } else {
    }
}

/// Adding a peer to the passive view keeps the node out of its own views
/// and leaves the active view as it was.
pub proof fn lemma_add_passive_keeps_invariant(cfg: Config, pre: Views, peer: PeerAddr, post: Views)
    requires
        add_passive_step(cfg, pre, peer, post),
        views_invariant(cfg, pre),
        pre.active.finite(),
        pre.passive.finite(),
    ensures
        views_invariant(cfg, post),
        post.active.finite(),
        post.passive.finite(),
{
    if pre.passive.contains(peer) || pre.active.contains(peer) || peer == cfg.local_peer {
    } else if pre.passive.len() >= cfg.passive_view_capacity && pre.passive.len() > 0 {
        let dropped = choose|dropped: PeerAddr|
            #![trigger pre.passive.remove(dropped)]
            pre.passive.contains(dropped) && post.passive == pre.passive.remove(dropped).insert(peer);
    } else {
    }
}

/// The active and passive views share no peer, and the passive view holds
/// no more peers than its capacity (or one, when the capacity is zero).
pub open spec fn views_apart(cfg: Config, v: Views) -> bool {
    &&& v.active.disjoint(v.passive)
    &&& v.passive.len() <= if cfg.passive_view_capacity == 0 { 1 } else { cfg.passive_view_capacity as int }
}

/// Adding a peer to the passive view keeps the views apart and the passive
/// view within its capacity.
pub proof fn lemma_add_passive_keeps_views_apart(cfg: Config, pre: Views, peer: PeerAddr, post: Views)
    requires
        add_passive_step(cfg, pre, peer, post),
        views_apart(cfg, pre),
        pre.active.finite(),
        pre.passive.finite(),
    ensures
        views_apart(cfg, post),
{
    if pre.passive.contains(peer) || pre.active.contains(peer) || peer == cfg.local_peer {
    } else if pre.passive.len() >= cfg.passive_view_capacity && pre.passive.len() > 0 {
        let dropped = choose|dropped: PeerAddr|
            #![trigger pre.passive.remove(dropped)]
            pre.passive.contains(dropped) && post.passive == pre.passive.remove(dropped).insert(peer);
        assert(pre.passive.remove(dropped).len() == pre.passive.len() - 1);
        assert(!pre.passive.remove(dropped).contains(peer));
    } else {
    }
}

/// Adding a peer to the active view keeps the views apart and the passive
/// view within its capacity, except when the active view was full and a
/// peer had to be dropped from it: then the added peer is put into both
/// views.
pub proof fn lemma_add_active_keeps_views_apart(cfg: Config, pre: Views, peer: PeerAddr, post: Views)
    requires
        add_active_step(cfg, pre, peer, post),
        views_apart(cfg, pre),
        pre.active.finite(),
        pre.passive.finite(),
        !(pre.active.len() >= cfg.active_view_capacity && pre.active.len() > 0) || pre.active.contains(peer)
            || peer == cfg.local_peer,
    ensures
        views_apart(cfg, post),
{
    if pre.active.contains(peer) || peer == cfg.local_peer {
    } else {
        assert(pre.passive.remove(peer).len() <= pre.passive.len());
    }
}

/// When the active view is full and a new peer is added to it, the peer
/// ends up in both views.
pub proof fn lemma_add_active_when_full_shares_peer(cfg: Config, pre: Views, peer: PeerAddr, post: Views)
    requires
        add_active_step(cfg, pre, peer, post),
        pre.active.len() >= cfg.active_view_capacity,
        pre.active.len() > 0,
        !pre.active.contains(peer),
        peer != cfg.local_peer,
    ensures
        post.active.contains(peer),
        post.passive.contains(peer),
{
}

/// The node's own address is in neither view, and the active view holds no
/// more peers than its capacity (or one, when the capacity is zero).
pub open spec fn views_invariant(cfg: Config, v: Views) -> bool {
    &&& !v.active.contains(cfg.local_peer)
    &&& !v.passive.contains(cfg.local_peer)
    &&& v.active.len() <= if cfg.active_view_capacity == 0 { 1 } else { cfg.active_view_capacity as int }
}

/// The membership state of a node: its active and passive views.
#[derive(Debug)]
pub struct State {
    active_view: PeerSet,
    passive_view: PeerSet,
    config: Config,
}

impl View for State {
    type V = Views;

    closed spec fn view(&self) -> Views {
        Views { active: self.active_view@, passive: self.passive_view@ }
    }
}

impl State {
    /// Well-formedness of the two views.
    pub closed spec fn wf(&self) -> bool {
        self.active_view.wf() && self.passive_view.wf()
    }

    /// The parameters the node was made with.
    pub closed spec fn config_of(&self) -> Config {
        self.config
    }

    /// Both views are finite.
    pub proof fn lemma_finite(&self)
        ensures
            self@.active.finite(),
            self@.passive.finite(),
    {
        self.active_view.lemma_finite();
        self.passive_view.lemma_finite();
    }

    /// A node with the given parameters and empty views.
    pub fn new(config: Config) -> (r: State)
        ensures
            r.wf(),
            r.config_of() == config,
            r@.active == Set::<PeerAddr>::empty(),
            r@.passive == Set::<PeerAddr>::empty(),
            views_invariant(config, r@),
    {
        State { active_view: PeerSet::new(), passive_view: PeerSet::new(), config }
    }

    fn is_passive_view_full(&self) -> (r: bool)
        requires
            self.wf(),
        ensures
            r == (self@.passive.len() >= self.config.passive_view_capacity),
    {
        self.passive_view.len() >= self.config.passive_view_capacity
    }

    fn is_active_view_full(&self) -> (r: bool)
        requires
            self.wf(),
        ensures
            r == (self@.active.len() >= self.config.active_view_capacity),
    {
        self.active_view.len() >= self.config.active_view_capacity
    }

    fn select_random_peer(set: &PeerSet) -> (r: Option<PeerAddr>)
        requires
            set.wf(),
        ensures
            r is None <==> set@.len() == 0,
            r matches Some(p) ==> set@.contains(p),
    {
        let mut rng = thread_rng();
        let vec = set.to_vec();
        proof {
            vec@.unique_seq_to_set();
        }
        choose_peer(&vec, &mut rng)
    }

    fn select_random_n_peers(set: &PeerSet, n: usize) -> (r: Vec<PeerAddr>)
        requires
            set.wf(),
        ensures
            r@.len() == if n < set@.len() { n as int } else { set@.len() as int },
            r@.no_duplicates(),
            r@.to_set().subset_of(set@),
    {
        let mut rng = thread_rng();
        let vec = set.to_vec();
        proof {
            vec@.unique_seq_to_set();
        }
        let r = choose_peers(&vec, &mut rng, n);
        proof {
            let at = choose|at: Seq<int>| picked_at(r@, vec@, at);
            lemma_picked_distinct(r@, vec@, at);
        }
        r
    }

    fn add_peer_to_passive_view(&mut self, peer_addr: PeerAddr)
        requires
            old(self).wf(),
        ensures
            final(self).wf(),
            final(self).config == old(self).config,
            add_passive_step(old(self).config, old(self)@, peer_addr, final(self)@),
    {
        if self.passive_view.contains(&peer_addr) || self.active_view.contains(&peer_addr)
            || peer_addr == self.config.local_peer {
            return;
        }
        if self.is_passive_view_full() {
            if let Some(peer) = Self::select_random_peer(&self.passive_view) {
                let ghost before = self.passive_view@;
                self.passive_view.remove(&peer);
                assert(before.contains(peer) && before.remove(peer) == self.passive_view@);
            }
        }
        self.passive_view.insert(peer_addr);
    }

    fn add_peer_to_active_view(&mut self, peer_addr: PeerAddr)
        requires
            old(self).wf(),
        ensures
            final(self).wf(),
            final(self).config == old(self).config,
            add_active_step(old(self).config, old(self)@, peer_addr, final(self)@),
    {
        if self.active_view.contains(&peer_addr) || peer_addr == self.config.local_peer {
            return;
        }
        if self.passive_view.contains(&peer_addr) {
            self.passive_view.remove(&peer_addr);
        }
        let ghost passive0 = old(self)@.passive;
        assert(self.passive_view@ =~= passive0.remove(peer_addr));
        if self.is_active_view_full() {
            if let Some(peer) = Self::select_random_peer(&self.active_view) {
                let ghost before = self.active_view@;
                self.active_view.remove(&peer);
                self.passive_view.insert(peer_addr);
                assert(self.passive_view@ =~= passive0.insert(peer_addr));
                assert(before.contains(peer) && before.remove(peer) == self.active_view@);
            }
        }
        self.active_view.insert(peer_addr);
    }

    /// Handles a join request: the sender enters the active view, and a
    /// forwarded join for it, with the full active random walk length, is
    /// sent to every other active peer.
    pub fn on_join(&mut self, message: Join, actions: &mut VecDeque<Action>)
        requires
            old(self).wf(),
        ensures
            final(self).wf(),
            final(self).config_of() == old(self).config_of(),
            add_active_step(old(self).config_of(), old(self)@, message.sender, final(self)@),
            message.sender != old(self).config_of().local_peer ==> final(self)@.active.contains(message.sender),
            exists|destinations: Seq<PeerAddr>|
                #![trigger lists(destinations, final(self)@.active.remove(message.sender))]
                lists(destinations, final(self)@.active.remove(message.sender))
                && final(actions)@ == old(actions)@ + sends(
                    destinations,
                    ProtocolMessage::ForwardJoin(ForwardJoin {
                        sender: old(self).config_of().local_peer,
                        peer: message.sender,
                        ttl: old(self).config_of().active_random_walk_length,
                    }),
                ),
            views_invariant(old(self).config_of(), old(self)@) ==> views_invariant(
                final(self).config_of(),
                final(self)@,
            ),
    {
        proof {
            self.lemma_finite();
        }
        let ghost pre = self@;
        self.add_peer_to_active_view(message.sender);
        proof {
            if views_invariant(self.config, pre) {
                lemma_add_active_keeps_invariant(self.config, pre, message.sender, self@);
            }
        }
        let ghost fj = ProtocolMessage::ForwardJoin(ForwardJoin {
            sender: self.config.local_peer,
            peer: message.sender,
            ttl: self.config.active_random_walk_length,
        });
        let peers = self.active_view.to_vec();
        let ghost actions0 = actions@;
        let ghost mut destinations: Seq<PeerAddr> = Seq::empty();
        let mut i: usize = 0;
        while i < peers.len()
            invariant
                i <= peers@.len(),
                peers@.no_duplicates(),
                destinations.no_duplicates(),
                destinations.to_set() == peers@.take(i as int).to_set().remove(message.sender),
                actions@ == actions0 + sends(destinations, fj),
                fj == ProtocolMessage::ForwardJoin(ForwardJoin {
                    sender: self.config.local_peer,
                    peer: message.sender,
                    ttl: self.config.active_random_walk_length,
                }),
            decreases peers@.len() - i,
        {
            let peer = peers[i];
            let ghost before = destinations;
            if peer != message.sender {
                actions.push_back(
                    Action::send(
                        peer,
                        ProtocolMessage::forward_join(
                            self.config.local_peer,
                            message.sender,
                            self.config.active_random_walk_length,
                        ),
                    ),
                );
                proof {
                    assert(!peers@.take(i as int).contains(peer)) by {
                        if peers@.take(i as int).contains(peer) {
                            let k = choose|k: int| 0 <= k < i && peers@.take(i as int)[k] == peer;
                            assert(peers@[k] == peers@[i as int]);
                        }
                    }
                    assert(!before.to_set().contains(peer));
                    destinations = before.push(peer);
                    assert(sends(destinations, fj) =~= sends(before, fj).push(
                        Action::Send { destination: peer, message: fj },
                    ));
                }
            }
            proof {
                assert(peers@.take(i + 1) =~= peers@.take(i as int).push(peer));
                let t = peers@.take(i as int);
                let t1 = peers@.take(i + 1);
                assert(t1 =~= t.push(peer));
                assert forall|x: PeerAddr| destinations.to_set().contains(x) <==> t1.to_set().remove(message.sender).contains(x) by {
                    if x != message.sender && t1.contains(x) {
                        let k = choose|k: int| 0 <= k < t1.len() && t1[k] == x;
                        if k < i {
                            assert(t[k] == x);
                            assert(t.to_set().remove(message.sender).contains(x));
                            assert(before.to_set().contains(x));
                            let m = choose|m: int| 0 <= m < before.len() && before[m] == x;
                            assert(destinations[m] == x);
                        } else {
                            assert(x == peer);
                            assert(destinations[destinations.len() - 1] == x);
                        }
                    }
                    if destinations.contains(x) {
                        let m = choose|m: int| 0 <= m < destinations.len() && destinations[m] == x;
                        if m < before.len() {
                            assert(before[m] == x);
                            assert(before.to_set().contains(x));
                            assert(t.to_set().remove(message.sender).contains(x));
                            let k = choose|k: int| 0 <= k < t.len() && t[k] == x;
                            assert(t1[k] == x);
                        } else {
                            assert(x == peer);
                            assert(t1[i as int] == x);
                        }
                    }
                }
                assert(destinations.to_set() =~= peers@.take(i + 1).to_set().remove(message.sender));
            }
            i = i + 1;
        }
        proof {
            assert(peers@.take(i as int) =~= peers@);
            assert(lists(destinations, self@.active.remove(message.sender)));
        }
    }

    /// Handles a forwarded join. When the walk has ended (no hops left) or
    /// the active view is empty, the message's sender enters the active
    /// view. Otherwise the sender enters the passive view when the walk is
    /// at the passive random walk length, and the join is forwarded, with one
    /// hop less, to an active peer chosen at random.
    pub fn on_forward_join(&mut self, message: ForwardJoin, actions: &mut VecDeque<Action>)
        requires
            old(self).wf(),
        ensures
            final(self).wf(),
            final(self).config_of() == old(self).config_of(),
            if message.ttl == 0 || old(self)@.active.len() == 0 {
                &&& add_active_step(old(self).config_of(), old(self)@, message.sender, final(self)@)
                &&& final(actions)@ == old(actions)@
            } else {
                &&& if message.ttl == old(self).config_of().passive_random_walk_length {
                    add_passive_step(old(self).config_of(), old(self)@, message.sender, final(self)@)
                } else {
                    final(self)@ == old(self)@
                }
                &&& exists|next: PeerAddr|
                    #![trigger old(self)@.active.contains(next)]
                    old(self)@.active.contains(next) && final(actions)@ == old(actions)@.push(
                        Action::Send {
                            destination: next,
                            message: ProtocolMessage::ForwardJoin(ForwardJoin {
                                sender: old(self).config_of().local_peer,
                                peer: message.sender,
                                ttl: (message.ttl - 1) as u32,
                            }),
                        },
                    )
            },
            views_invariant(old(self).config_of(), old(self)@) ==> views_invariant(
                final(self).config_of(),
                final(self)@,
            ),
    {
        proof {
            self.lemma_finite();
        }
        let ghost pre = self@;
        if message.ttl == 0 || self.active_view.is_empty() {
            self.add_peer_to_active_view(message.sender);
            proof {
                if views_invariant(self.config, pre) {
                    lemma_add_active_keeps_invariant(self.config, pre, message.sender, self@);
                }
            }
            return;
        }
        if message.ttl == self.config.passive_random_walk_length {
            self.add_peer_to_passive_view(message.sender);
            proof {
                if views_invariant(self.config, pre) {
                    lemma_add_passive_keeps_invariant(self.config, pre, message.sender, self@);
                }
            }
        }
        if !self.active_view.is_empty() {
            if let Some(peer) = Self::select_random_peer(&self.active_view) {
                let forward_join = ProtocolMessage::forward_join(
                    self.config.local_peer,
                    message.sender,
                    message.ttl - 1,
                );
                actions.push_back(Action::send(peer, forward_join));
                assert(pre.active.contains(peer));
            }
        } else {
            self.add_peer_to_active_view(message.sender);
        }
    }

    /// Handles a shuffle request. When the walk has ended, a sample of the
    /// passive view as large as the request's sample (or the whole passive
    /// view, when it is smaller) is sent back to the origin; otherwise
    /// nothing happens. The views are left as they were.
    pub fn on_shuffle(&mut self, message: Shuffle, actions: &mut VecDeque<Action>)
        requires
            old(self).wf(),
        ensures
            final(self).wf(),
            final(self).config_of() == old(self).config_of(),
            final(self)@ == old(self)@,
            if message.ttl == 0 {
                exists|nodes: Vec<PeerAddr>|
                    #![trigger nodes@.to_set()]
                    nodes@.len() == (if message.nodes@.len() < old(self)@.passive.len() {
                        message.nodes@.len() as int
                    } else {
                        old(self)@.passive.len() as int
                    }) && nodes@.no_duplicates() && nodes@.to_set().subset_of(old(self)@.passive)
                        && final(actions)@ == old(actions)@.push(
                        Action::Send {
                            destination: message.origin,
                            message: ProtocolMessage::ShuffleReply(ShuffleReply {
                                sender: old(self).config_of().local_peer,
                                nodes,
                            }),
                        },
                    )
            } else {
                final(actions)@ == old(actions)@
            },
    {
        if message.ttl == 0 {
            let node_count = message.nodes.len();
            let shuffled_peers = Self::select_random_n_peers(&self.passive_view, node_count);
            let ghost chosen = shuffled_peers;
            let shuffle_reply = ProtocolMessage::shuffle_reply(self.config.local_peer, shuffled_peers);
            actions.push_back(Action::send(message.origin, shuffle_reply));
            assert(chosen@.to_set().subset_of(self@.passive));
        }
    }

    /// Handles a shuffle answer: each peer it carries is added, in order, to
    /// the passive view.
    pub fn on_shuffle_reply(&mut self, message: ShuffleReply, actions: &mut VecDeque<Action>)
        requires
            old(self).wf(),
        ensures
            final(self).wf(),
            final(self).config_of() == old(self).config_of(),
            add_passive_all(old(self).config_of(), old(self)@, message.nodes@, final(self)@),
            final(actions)@ == old(actions)@,
            views_invariant(old(self).config_of(), old(self)@) ==> views_invariant(
                final(self).config_of(),
                final(self)@,
            ),
    {
        let ghost pre = self@;
        let ghost inv0 = views_invariant(self.config, pre);
        let mut i: usize = 0;
        while i < message.nodes.len()
            invariant
                i <= message.nodes@.len(),
                self.wf(),
                self.config == old(self).config,
                pre == old(self)@,
                add_passive_all(self.config, pre, message.nodes@.take(i as int), self@),
                inv0 ==> views_invariant(self.config, self@),
            decreases message.nodes@.len() - i,
        {
            let ghost mid = self@;
            proof {
                self.lemma_finite();
            }
            self.add_peer_to_passive_view(message.nodes[i]);
            proof {
                if inv0 {
                    lemma_add_passive_keeps_invariant(self.config, mid, message.nodes@[i as int], self@);
                }
                let taken = message.nodes@.take(i + 1);
                assert(taken.drop_last() =~= message.nodes@.take(i as int));
                assert(taken.last() == message.nodes@[i as int]);
                assert(add_passive_step(self.config, mid, taken.last(), self@));
            }
            i = i + 1;
        }
        proof {
            assert(message.nodes@.take(i as int) =~= message.nodes@);
        }
    }

    /// Handles a neighbour request: the sender enters the active view when
    /// the request has high priority or the active view is not full. The
    /// answer is always `Ok`.
    pub fn on_neighbor(&mut self, message: Neighbor, actions: &mut VecDeque<Action>) -> (r: Result<(), std::io::Error>)
        requires
            old(self).wf(),
        ensures
            final(self).wf(),
            final(self).config_of() == old(self).config_of(),
            r is Ok,
            if message.high_priority || old(self)@.active.len() < old(self).config_of().active_view_capacity {
                add_active_step(old(self).config_of(), old(self)@, message.sender, final(self)@)
            } else {
                final(self)@ == old(self)@
            },
            final(actions)@ == old(actions)@,
            views_invariant(old(self).config_of(), old(self)@) ==> views_invariant(
                final(self).config_of(),
                final(self)@,
            ),
    {
        proof {
            self.lemma_finite();
        }
        let ghost pre = self@;
        if message.high_priority || !self.is_active_view_full() {
            self.add_peer_to_active_view(message.sender);
            proof {
                if views_invariant(self.config, pre) {
                    lemma_add_active_keeps_invariant(self.config, pre, message.sender, self@);
                }
            }
        }
        Ok(())
    }

    /// Handles a disconnect notice. When the sender was active it leaves the
    /// active view; then, when asked to, a disconnect (alive, not asking for
    /// an answer) is sent back, and when the active view is no longer full a
    /// neighbour request is sent to a passive peer chosen at random, with
    /// high priority exactly when the active view is now empty. Finally, when
    /// the sender is still alive, it is added to the passive view.
    pub fn on_disconnect(&mut self, message: Disconnect, actions: &mut VecDeque<Action>)
        requires
            old(self).wf(),
        ensures
            final(self).wf(),
            final(self).config_of() == old(self).config_of(),
            ({
                let cfg = old(self).config_of();
                let was_active = old(self)@.active.contains(message.sender);
                let left = Views { active: old(self)@.active.remove(message.sender), passive: old(self)@.passive };
                let answer = if was_active && message.respond {
                    seq![Action::Send {
                        destination: message.sender,
                        message: ProtocolMessage::Disconnect(Disconnect { sender: cfg.local_peer, alive: true, respond: false }),
                    }]
                } else {
                    Seq::<Action>::empty()
                };
                &&& if message.alive {
                    add_passive_step(cfg, left, message.sender, final(self)@)
                } else {
                    final(self)@ == left
                }
                &&& if was_active && left.active.len() < cfg.active_view_capacity && left.passive.len() > 0 {
                    exists|next: PeerAddr|
                        #![trigger left.passive.contains(next)]
                        left.passive.contains(next) && final(actions)@ == old(actions)@ + answer + seq![Action::Send {
                            destination: next,
                            message: ProtocolMessage::Neighbor(Neighbor { sender: cfg.local_peer, high_priority: left.active.len() == 0 }),
                        }]
                } else {
                    final(actions)@ == old(actions)@ + answer
                }
            }),
            !final(self)@.active.contains(message.sender),
            views_invariant(old(self).config_of(), old(self)@) ==> views_invariant(
                final(self).config_of(),
                final(self)@,
            ),
    {
        proof {
            self.lemma_finite();
        }
        let ghost pre = self@;
        let ghost actions0 = actions@;
        if self.active_view.remove(&message.sender) {
            if message.respond {
                let disconnect_message = ProtocolMessage::disconnect(self.config.local_peer, true, false);
                actions.push_back(Action::send(message.sender, disconnect_message));
            }
            let ghost answered = actions@;
            if !self.is_active_view_full() {
                if let Some(peer) = Self::select_random_peer(&self.passive_view) {
                    let high_priority = self.active_view.is_empty();
                    let neighbor_message = ProtocolMessage::neighbor(self.config.local_peer, high_priority);
                    actions.push_back(Action::send(peer, neighbor_message));
                    assert(actions@ =~= answered + seq![Action::Send { destination: peer, message: neighbor_message }]);
                }
            }
        } else {
            assert(pre.active.remove(message.sender) =~= pre.active);
        }
        let ghost left = self@;
        proof {
            self.lemma_finite();
            if views_invariant(self.config, pre) {
                assert(left.active.len() <= pre.active.len());
                assert(views_invariant(self.config, left));
            }
        }
        if message.alive {
            self.add_peer_to_passive_view(message.sender);
            proof {
                if views_invariant(self.config, pre) {
                    lemma_add_passive_keeps_invariant(self.config, left, message.sender, self@);
                }
            }
        }
    }

    /// The peers of the active view, each once.
    pub fn active_peers(&self) -> (r: Vec<PeerAddr>)
        requires
            self.wf(),
        ensures
            r@.no_duplicates(),
            r@.to_set() == self@.active,
    {
        self.active_view.to_vec()
    }

    /// The peers of the passive view, each once.
    pub fn passive_peers(&self) -> (r: Vec<PeerAddr>)
        requires
            self.wf(),
        ensures
            r@.no_duplicates(),
            r@.to_set() == self@.passive,
    {
        self.passive_view.to_vec()
    }

    /// The parameters the node was made with.
    pub fn config(&self) -> (r: Config)
        ensures
            r == self.config_of(),
    {
        self.config
    }
}

} // verus!
