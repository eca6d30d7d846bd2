//! The MRU replacement policy.

use crate::item::Item;
use crate::item_set::{lemma_with_item, total_size, without_all, ItemSet};
use crate::replacement_policy::fifo::lemma_one_resident;
use crate::replacement_policy::lru::{lemma_pick, lemma_touched, names_all, take_out, touched};
use crate::replacement_policy::{
    last_of, last_resident, lemma_total_size_item, residents_in_order, single, ReplacementPolicy,
};
use vstd::prelude::*;

verus! {

/// The MRU replacement policy, which evicts the most recently used item.
///
/// It keeps the items it has seen in a stack, oldest access first. The item
/// that is coming in is the most recent of all and is not resident, so what is
/// evicted is the most recently used among the resident items.
pub struct Mru<I: Item = u32> {
    stack: ItemSet<I>,
}

impl<I: Item> View for Mru<I> {
    type V = Seq<I>;

    /// The recency stack, least recently used item first.
    closed spec fn view(&self) -> Seq<I> {
        self.stack@
    }
}

impl<I: Item> Mru<I> {
    /// Create an MRU policy that has seen no access.
    #[must_use]
    pub fn new() -> (policy: Self)
        ensures
            policy@ == Seq::<I>::empty(),
    {
        Self { stack: ItemSet::new() }
    }
}

impl<I: Item> Default for Mru<I> {
    fn default() -> (policy: Self)
        ensures
            policy@ == Seq::<I>::empty(),
    {
        Self::new()
    }
}

impl<I: Item> ReplacementPolicy<I> for Mru<I> {
    type Model = Seq<I>;

    open spec fn model(&self) -> Seq<I> {
        self@
    }

    open spec fn tracks(model: Seq<I>, resident: Seq<I>) -> bool {
        names_all(model, resident)
    }

    open spec fn deterministic() -> bool {
        true
    }

    open spec fn size_aware() -> bool {
        false
    }

    /// The accessed item moves to the recent end of the stack.
    open spec fn model_update(model: Seq<I>, set: Seq<I>, capacity: u32, next: I) -> Seq<I> {
        touched(model, next)
    }

    /// The resident item nearest the recent end of the stack.
    open spec fn model_victims(model: Seq<I>, set: Seq<I>, capacity: u32, next: I) -> Seq<I> {
        last_of(residents_in_order(touched(model, next), set))
    }

    open spec fn model_replace(model: Seq<I>, set: Seq<I>, capacity: u32, next: I) -> Seq<I> {
        without_all(touched(model, next), Self::model_victims(model, set, capacity, next))
    }

    proof fn lemma_victims_suffice(model: Seq<I>, set: Seq<I>, capacity: u32, next: I) {
        let victims = Self::model_victims(model, set, capacity, next);
        Self::lemma_replace_tracks(model, set, capacity, next);
        assert(set.contains(victims[0]));
        let p = choose|p: int| 0 <= p < set.len() && set[p] == victims[0];
        assert(set[p].spec_size() >= next.spec_size());
        lemma_total_size_item(victims, 0);
    }

    proof fn lemma_update_tracks(model: Seq<I>, set: Seq<I>, capacity: u32, next: I) {
        lemma_touched(model, next);
        lemma_with_item(set, next);
    }

    proof fn lemma_replace_tracks(model: Seq<I>, set: Seq<I>, capacity: u32, next: I) {
        let queue = touched(model, next);
        let victims = Self::model_victims(model, set, capacity, next);
        Self::lemma_update_tracks(model, set, capacity, next);
        lemma_with_item(set, next);
        if set.len() == 0 {
            assert(total_size(set) == 0);
        }
        lemma_one_resident(queue, set, victims);
        lemma_pick(queue, set, next, victims);
    }

    fn update_state(&mut self, set: &ItemSet<I>, capacity: u32, next: I) {
        proof {
            Self::lemma_update_tracks(self@, set@, capacity, next);
            lemma_touched(self@, next);
        }
        self.stack.remove(&next);
        self.stack.insert(next);
    }

    fn replace(&mut self, set: &ItemSet<I>, capacity: u32, next: I) -> (evicted: ItemSet<I>) {
        proof {
            Self::lemma_replace_tracks(self@, set@, capacity, next);
        }
        self.update_state(set, capacity, next);
        let victim = last_resident(&self.stack, set).unwrap();
        let evicted = single(victim);
        proof {
            assert(evicted@ =~= last_of(residents_in_order(self@, set@)));
        }
        take_out(&mut self.stack, &evicted);
        evicted
    }
}

} // verus!
