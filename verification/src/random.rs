use rand::seq::SliceRandom;

use vstd::prelude::*;

use crate::graph::NodeId;

verus! {

/// `rand`'s thread-local random number generator.
#[verifier::external_type_specification]
#[verifier::external_body]
pub struct ExThreadRng(rand::rngs::ThreadRng);

/// `rand`'s seedable standard generator.
#[verifier::external_type_specification]
#[verifier::external_body]
pub struct ExStdRng(rand::rngs::StdRng);

/// A handle on the thread-local generator, from `rand::thread_rng`.
///
/// Trusted: nothing is stated of the generator's state.
#[verifier::external_body]
pub(crate) fn thread_rng() -> rand::rngs::ThreadRng {
    rand::thread_rng()
}

/// A standard generator seeded with `seed`, from
/// `rand::SeedableRng::seed_from_u64`.
///
/// Trusted: nothing is stated of the generator's state; rand documents the
/// construction as deterministic in the seed. It does not panic.
#[verifier::external_body]
pub(crate) fn seeded_rng(seed: u64) -> rand::rngs::StdRng {
    <rand::rngs::StdRng as rand::SeedableRng>::seed_from_u64(seed)
}

/// Shuffles `nodes` in place with `SliceRandom::shuffle` and the
/// thread-local generator.
///
/// Trusted: rand's source performs a Fisher-Yates shuffle, a sequence of
/// swaps, so the result is a permutation of the input; which permutation
/// depends on the generator and is not stated. It does not panic.
#[verifier::external_body]
pub(crate) fn shuffle_nodes(nodes: &mut Vec<NodeId>, rng: &mut rand::rngs::ThreadRng)
    ensures
        final(nodes)@.to_multiset() == old(nodes)@.to_multiset(),
{
    nodes.shuffle(rng);
}

/// Shuffles `nodes` in place with `SliceRandom::shuffle` and a seeded
/// standard generator.
///
/// Trusted: as for the thread-local generator, the result is a permutation
/// of the input; which one depends on the generator's state and is not
/// stated. It does not panic.
#[verifier::external_body]
pub(crate) fn shuffle_nodes_seeded(nodes: &mut Vec<NodeId>, rng: &mut rand::rngs::StdRng)
    ensures
        final(nodes)@.to_multiset() == old(nodes)@.to_multiset(),
{
    nodes.shuffle(rng);
}

/// Where node orders come from: a generator seeded for reproducible runs,
/// or else the thread-local generator.
pub struct NodeShuffler {
    seeded: Option<rand::rngs::StdRng>,
    thread: rand::rngs::ThreadRng,
}

impl NodeShuffler {
    /// A shuffler seeded with `seed` where one is given, drawing from the
    /// thread-local generator otherwise.
    pub fn new(seed: Option<u64>) -> (r: Self)
        ensures
            r.is_seeded() == seed is Some,
    {
        let seeded = match seed {
            Some(s) => Some(seeded_rng(s)),
            None => None,
        };
        NodeShuffler { seeded, thread: thread_rng() }
    }

    /// The shuffler draws from a seeded generator.
    pub closed spec fn is_seeded(&self) -> bool {
        self.seeded is Some
    }

    /// Puts `nodes` in a random order: a permutation of the input.
    pub fn shuffle(&mut self, nodes: &mut Vec<NodeId>)
        ensures
            final(nodes)@.to_multiset() == old(nodes)@.to_multiset(),
            final(self).is_seeded() == old(self).is_seeded(),
    {
        match self.seeded.take() {
            Some(mut rng) => {
                shuffle_nodes_seeded(nodes, &mut rng);
                self.seeded = Some(rng);
            },
            None => {
                shuffle_nodes(nodes, &mut self.thread);
            },
        }
    }
}

} // verus!
