//! The FIFO replacement policy.

use crate::item::Item;
use crate::item_set::{
    distinct_ids, has_id, items_of, lemma_with_item, total_size, with_item, without_all, ItemSet,
};
use crate::replacement_policy::lru::{lemma_pick, names_all, take_out};
use crate::replacement_policy::{
    first_of, first_resident, last_of, lemma_residents_in_order, lemma_total_size_item,
    residents_in_order, single, ReplacementPolicy,
};
use vstd::prelude::*;

verus! {

/// The FIFO replacement policy, which evicts the first-inserted item.
///
/// It keeps the items it has seen in a queue, in the order in which it first
/// saw them; an access to an item in the queue does not move it. To make room
/// it evicts the resident item nearest the front of the queue.
pub struct Fifo<I: Item = u32> {
    queue: ItemSet<I>,
}

impl<I: Item> View for Fifo<I> {
    type V = Seq<I>;

    /// The queue, first-inserted item first.
    closed spec fn view(&self) -> Seq<I> {
        self.queue@
    }
}

/// One resident of `set` that an order names, where the order names all of
/// them and `set` is not empty: `picked` is the first or the last of the
/// residents in the order. It is an item of the set.
pub proof fn lemma_one_resident<I: Item>(order: Seq<I>, set: Seq<I>, picked: Seq<I>)
    requires
        names_all(order, set),
        distinct_ids(set),
        set.len() > 0,
        picked == first_of(residents_in_order(order, set)) || picked == last_of(
            residents_in_order(order, set),
        ),
    ensures
        picked.len() == 1,
        distinct_ids(picked),
        items_of(picked, set),
        total_size(picked) == picked[0].spec_size(),
{
    let residents = residents_in_order(order, set);
    lemma_residents_in_order(order, set);
    assert(has_id(set, set[0].spec_id()));
    assert(has_id(residents, set[0].spec_id()));
    assert(set.contains(residents[0]));
    assert(set.contains(residents[residents.len() - 1]));
    assert(picked.drop_last() =~= Seq::<I>::empty());
    assert(total_size(picked.drop_last()) == 0);
}

impl<I: Item> Fifo<I> {
    /// Create a FIFO policy that has seen no access.
    #[must_use]
    pub fn new() -> (policy: Self)
        ensures
            policy@ == Seq::<I>::empty(),
    {
        Self { queue: ItemSet::new() }
    }
}

impl<I: Item> Default for Fifo<I> {
    fn default() -> (policy: Self)
        ensures
            policy@ == Seq::<I>::empty(),
    {
        Self::new()
    }
}

impl<I: Item> ReplacementPolicy<I> for Fifo<I> {
    type Model = Seq<I>;

    open spec fn model(&self) -> Seq<I> {
        self@
    }

    open spec fn tracks(model: Seq<I>, resident: Seq<I>) -> bool {
        names_all(model, resident)
    }

    open spec fn deterministic() -> bool {
        true
    }

    open spec fn size_aware() -> bool {
        false
    }

    /// A new item joins the queue at the back; a known one stays where it is.
    open spec fn model_update(model: Seq<I>, set: Seq<I>, capacity: u32, next: I) -> Seq<I> {
        with_item(model, next)
    }

    /// The resident item nearest the front of the queue.
    open spec fn model_victims(model: Seq<I>, set: Seq<I>, capacity: u32, next: I) -> Seq<I> {
        first_of(residents_in_order(with_item(model, next), set))
    }

    open spec fn model_replace(model: Seq<I>, set: Seq<I>, capacity: u32, next: I) -> Seq<I> {
        without_all(with_item(model, next), Self::model_victims(model, set, capacity, next))
    }

    proof fn lemma_victims_suffice(model: Seq<I>, set: Seq<I>, capacity: u32, next: I) {
        let victims = Self::model_victims(model, set, capacity, next);
        Self::lemma_replace_tracks(model, set, capacity, next);
        assert(set.contains(victims[0]));
        let p = choose|p: int| 0 <= p < set.len() && set[p] == victims[0];
        assert(set[p].spec_size() >= next.spec_size());
        lemma_total_size_item(victims, 0);
    }

    proof fn lemma_update_tracks(model: Seq<I>, set: Seq<I>, capacity: u32, next: I) {
        lemma_with_item(model, next);
        lemma_with_item(set, next);
    }

    proof fn lemma_replace_tracks(model: Seq<I>, set: Seq<I>, capacity: u32, next: I) {
        let queue = with_item(model, next);
        let victims = Self::model_victims(model, set, capacity, next);
        Self::lemma_update_tracks(model, set, capacity, next);
        lemma_with_item(set, next);
        if set.len() == 0 {
            assert(total_size(set) == 0);
        }
        lemma_one_resident(queue, set, victims);
        lemma_pick(queue, set, next, victims);
    }

    fn update_state(&mut self, set: &ItemSet<I>, capacity: u32, next: I) {
        proof {
            Self::lemma_update_tracks(self@, set@, capacity, next);
        }
        self.queue.insert(next);
    }

    fn replace(&mut self, set: &ItemSet<I>, capacity: u32, next: I) -> (evicted: ItemSet<I>) {
        proof {
            Self::lemma_replace_tracks(self@, set@, capacity, next);
        }
        self.update_state(set, capacity, next);
        let victim = first_resident(&self.queue, set).unwrap();
        let evicted = single(victim);
        proof {
            assert(evicted@ =~= first_of(residents_in_order(self@, set@)));
        }
        take_out(&mut self.queue, &evicted);
        evicted
    }
}

} // verus!
