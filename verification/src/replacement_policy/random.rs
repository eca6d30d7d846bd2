//! The RAND replacement policy.

use crate::item::Item;
use crate::item_set::{total_size, ItemSet};
use crate::replacement_policy::{lemma_total_size_item, single, ReplacementPolicy};
use ::rand::rngs::OsRng;
use ::rand::rngs::StdRng;
use ::rand::seq::IteratorRandom;
use ::rand::SeedableRng;
use vstd::prelude::*;

verus! {

/// The standard random number generator of the crate `rand`,
/// `rand::rngs::StdRng`. Proofs see nothing of its state.
#[verifier::external_type_specification]
#[verifier::external_body]
pub struct ExStdRng(::rand::rngs::StdRng);

/// A random number generator seeded by the operating system, from
/// `rand::SeedableRng::from_rng` on `rand::rngs::OsRng`. There is none where
/// the operating system gives no randomness. Nothing is claimed of the
/// generator.
#[verifier::external_body]
fn rng_from_os() -> (rng: Option<StdRng>) {
    StdRng::from_rng(OsRng).ok()
}

/// A random number generator for the seed `seed`, from
/// `rand::SeedableRng::seed_from_u64`. Nothing is claimed of it.
#[verifier::external_body]
fn rng_from_seed(seed: u64) -> (rng: StdRng) {
    StdRng::seed_from_u64(seed)
}

/// A random number below `len`, drawn by `rand::seq::IteratorRandom::choose`
/// from the range of these numbers. The contract claims what holds of every
/// draw: there is a number exactly if the range is not empty, and it lies in
/// the range.
#[verifier::external_body]
fn choose_index(rng: &mut StdRng, len: usize) -> (index: Option<usize>)
    ensures
        index is None <==> len == 0,
        index matches Some(i) ==> i < len,
{
    (0..len).choose(rng)
}

/// The seed of a generator that the operating system could not seed.
pub const FALLBACK_SEED: u64 = 0;

/// The RAND replacement policy, which evicts a random item.
pub struct Rand {
    rng: StdRng,
}

impl Rand {
    /// Create a RAND policy on a random number generator that the operating
    /// system seeds. Where the operating system gives no randomness, the
    /// generator has the seed [`FALLBACK_SEED`].
    #[must_use]
    pub fn new() -> (policy: Self) {
        match rng_from_os() {
            Some(rng) => Self { rng },
            None => Self::with_seed(FALLBACK_SEED),
        }
    }

    /// Create a RAND policy on a random number generator with the seed `seed`.
    /// Two policies with one seed draw the same numbers, so that a simulation
    /// can be repeated.
    #[must_use]
    pub fn with_seed(seed: u64) -> (policy: Self) {
        Self { rng: rng_from_seed(seed) }
    }
}

impl Default for Rand {
    fn default() -> (policy: Self) {
        Self::new()
    }
}

impl<I: Item> ReplacementPolicy<I> for Rand {
    type Model = ();

    open spec fn model(&self) -> () {
        ()
    }

    /// The policy keeps no books: it tracks every set.
    open spec fn tracks(model: (), resident: Seq<I>) -> bool {
        true
    }

    open spec fn deterministic() -> bool {
        false
    }

    open spec fn size_aware() -> bool {
        false
    }

    open spec fn model_update(model: (), set: Seq<I>, capacity: u32, next: I) -> () {
        ()
    }

    open spec fn model_replace(model: (), set: Seq<I>, capacity: u32, next: I) -> () {
        ()
    }

    /// The victim is drawn at random, so the model names none.
    open spec fn model_victims(model: (), set: Seq<I>, capacity: u32, next: I) -> Seq<I> {
        Seq::empty()
    }

    proof fn lemma_victims_suffice(model: (), set: Seq<I>, capacity: u32, next: I) {
    }

    proof fn lemma_update_tracks(model: (), set: Seq<I>, capacity: u32, next: I) {
    }

    proof fn lemma_replace_tracks(model: (), set: Seq<I>, capacity: u32, next: I) {
    }

    fn update_state(&mut self, set: &ItemSet<I>, capacity: u32, next: I) {
    }

    /// Evicts one resident item, any of them.
    fn replace(&mut self, set: &ItemSet<I>, capacity: u32, next: I) -> (evicted: ItemSet<I>)
        ensures
            evicted@.len() == 1,
    {
        proof {
            if set@.len() == 0 {
                assert(total_size(set@) == 0);
            }
        }
        let index = choose_index(&mut self.rng, set.len()).unwrap();
        let victim = set.get(index);
        let evicted = single(victim);
        proof {
            assert(evicted@[0] == victim);
            lemma_total_size_item(evicted@, 0);
        }
        evicted
    }
}

} // verus!
