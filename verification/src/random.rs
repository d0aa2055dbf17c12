use vstd::prelude::*;
use rand::seq::SliceRandom;
use crate::addr::PeerAddr;

verus! {

/// The random number generator of the current thread (`rand::rngs::ThreadRng`).
#[verifier::external_type_specification]
#[verifier::external_body]
pub struct ExThreadRng(rand::rngs::ThreadRng);

/// `picked` lists items of `from` taken at the pairwise distinct positions `at`.
pub open spec fn picked_at(picked: Seq<PeerAddr>, from: Seq<PeerAddr>, at: Seq<int>) -> bool {
    &&& at.len() == picked.len()
    &&& at.no_duplicates()
    &&& forall|i: int| 0 <= i < at.len() ==> 0 <= #[trigger] at[i] < from.len() && picked[i] == from[at[i]]
}

/// Calls `rand::thread_rng`, which hands out the generator of the current
/// thread (seeding it from the operating system on first use, and
/// panicking only if that source fails). Nothing is claimed of the
/// generator's state.
#[verifier::external_body]
pub(crate) fn thread_rng() -> (r: rand::rngs::ThreadRng) {
    rand::thread_rng()
}

/// Calls `SliceRandom::choose` on `peers` with `rng`. As rand's source
/// shows, the result is `None` exactly when `peers` is empty, and otherwise
/// one of its items; which one is left to chance and not claimed.
#[verifier::external_body]
pub(crate) fn choose_peer(peers: &Vec<PeerAddr>, rng: &mut rand::rngs::ThreadRng) -> (r: Option<PeerAddr>)
    ensures
        r is None <==> peers@.len() == 0,
        r matches Some(p) ==> peers@.contains(p),
{
    peers.as_slice().choose(rng).copied()
}

/// Calls `SliceRandom::choose_multiple` on `peers` with `rng` and `amount`
/// and collects what it yields. As rand's source shows, it yields
/// `min(amount, peers.len())` items taken at distinct positions of `peers`;
/// which positions, and in which order, is left to chance and not claimed.
#[verifier::external_body]
pub(crate) fn choose_peers(peers: &Vec<PeerAddr>, rng: &mut rand::rngs::ThreadRng, amount: usize) -> (r: Vec<PeerAddr>)
    ensures
        r@.len() == if amount < peers@.len() { amount as int } else { peers@.len() as int },
        exists|at: Seq<int>| picked_at(r@, peers@, at),
{
    peers.as_slice().choose_multiple(rng, amount).copied().collect()
}

/// Items taken at distinct positions of a sequence without repeats are
/// themselves without repeats and all belong to it.
pub proof fn lemma_picked_distinct(picked: Seq<PeerAddr>, from: Seq<PeerAddr>, at: Seq<int>)
    requires
        picked_at(picked, from, at),
        from.no_duplicates(),
    ensures
        picked.no_duplicates(),
        picked.to_set().subset_of(from.to_set()),
{
    assert forall|i: int, j: int| 0 <= i < picked.len() && 0 <= j < picked.len() && i != j implies picked[i] != picked[j] by {
        assert(at[i] != at[j]);
    }
    assert forall|x: PeerAddr| picked.to_set().contains(x) implies from.to_set().contains(x) by {
        let k = choose|k: int| 0 <= k < picked.len() && picked[k] == x;
        assert(from[at[k]] == x);
    }
}

} // verus!
