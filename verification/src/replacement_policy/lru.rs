//! The LRU replacement policy.

use crate::item::Item;
use crate::item_set::{
    distinct_ids, has_id, items_of, lemma_with_item, lemma_without_all, lemma_without_id,
    total_size, with_item, without_all, without_id, ItemSet,
};
use crate::replacement_policy::{
    covering_prefix, covering_residents, lemma_covering_prefix, lemma_residents_cover,
    lemma_residents_in_order, residents_in_order, room_needed, ReplacementPolicy, Tiebreaker,
};
use vstd::prelude::*;

verus! {

/// The LRU replacement policy, which evicts the least recently used items.
///
/// It keeps the items it has seen in a stack, oldest access first. To make
/// room it evicts resident items from the old end of the stack, as many as the
/// incoming item needs.
pub struct Lru<I: Item = u32> {
    stack: ItemSet<I>,
}

impl<I: Item> View for Lru<I> {
    type V = Seq<I>;

    /// The recency stack, least recently used item first.
    closed spec fn view(&self) -> Seq<I> {
        self.stack@
    }
}

/// The recency stack after an access to `next`: `next` moves to the recent end.
pub open spec fn touched<I: Item>(stack: Seq<I>, next: I) -> Seq<I> {
    with_item(without_id(stack, next.spec_id()), next)
}

/// Whether an order of items names each item once and each item of `resident`.
pub open spec fn names_all<I: Item>(order: Seq<I>, resident: Seq<I>) -> bool {
    &&& distinct_ids(order)
    &&& forall|id: u64| #[trigger] has_id(resident, id) ==> has_id(order, id)
}

/// What `touched` holds: the ids of the stack and that of `next`, each once.
pub proof fn lemma_touched<I: Item>(stack: Seq<I>, next: I)
    requires
        distinct_ids(stack),
    ensures
        distinct_ids(touched(stack, next)),
        forall|id: u64|
            #![trigger has_id(touched(stack, next), id)]
            #![trigger has_id(stack, id)]
            has_id(touched(stack, next), id) <==> (has_id(stack, id) || id == next.spec_id()),
        touched(stack, next) == without_id(stack, next.spec_id()).push(next),
{
    lemma_without_id(stack, next.spec_id());
    lemma_with_item(without_id(stack, next.spec_id()), next);
}

/// Picking residents of `set` in an order that names them all, and taking them
/// away from the order and from the set: what is picked are distinct items of
/// the set, at least one if something is needed, and the order still names
/// what is left and the item `next` that it named before.
pub proof fn lemma_pick<I: Item>(order: Seq<I>, set: Seq<I>, next: I, picked: Seq<I>)
    requires
        names_all(order, with_item(set, next)),
        distinct_ids(set),
        distinct_ids(picked),
        items_of(picked, set),
        !has_id(set, next.spec_id()),
    ensures
        names_all(without_all(order, picked), with_item(without_all(set, picked), next)),
{
    lemma_without_all(order, picked);
    lemma_without_all(set, picked);
    lemma_with_item(set, next);
    lemma_with_item(without_all(set, picked), next);
    assert(!has_id(picked, next.spec_id())) by {
        if has_id(picked, next.spec_id()) {
            let j = choose|j: int|
                0 <= j < picked.len() && (#[trigger] picked[j]).spec_id() == next.spec_id();
            let p = choose|p: int| 0 <= p < set.len() && set[p] == picked[j];
            assert(set[p].spec_id() == next.spec_id());
        }
    }
}

/// A prefix of the residents in an order that names each item once holds
/// distinct items of the set.
pub proof fn lemma_prefix_of_residents<I: Item>(order: Seq<I>, set: Seq<I>, prefix: Seq<I>)
    requires
        distinct_ids(order),
        distinct_ids(set),
        prefix.len() <= residents_in_order(order, set).len(),
        prefix == residents_in_order(order, set).take(prefix.len() as int),
    ensures
        distinct_ids(prefix),
        items_of(prefix, set),
{
    let all = residents_in_order(order, set);
    lemma_residents_in_order(order, set);
    assert forall|i: int| 0 <= i < prefix.len() implies set.contains(#[trigger] prefix[i]) by {
        assert(prefix[i] == all[i]);
    }
    assert forall|i: int, j: int| 0 <= i < j < prefix.len() implies (#[trigger] prefix[i]).spec_id()
        != (#[trigger] prefix[j]).spec_id() by {
        assert(prefix[i] == all[i] && prefix[j] == all[j]);
    }
}

impl<I: Item> Lru<I> {
    /// Create an LRU policy that has seen no access.
    #[must_use]
    pub fn new() -> (policy: Self)
        ensures
            policy@ == Seq::<I>::empty(),
    {
        Self { stack: ItemSet::new() }
    }
}

impl<I: Item> Default for Lru<I> {
    fn default() -> (policy: Self)
        ensures
            policy@ == Seq::<I>::empty(),
    {
        Self::new()
    }
}

impl<I: Item> ReplacementPolicy<I> for Lru<I> {
    type Model = Seq<I>;

    open spec fn model(&self) -> Seq<I> {
        self@
    }

    open spec fn tracks(model: Seq<I>, resident: Seq<I>) -> bool {
        names_all(model, resident)
    }

    open spec fn deterministic() -> bool {
        true
    }

    open spec fn size_aware() -> bool {
        true
    }

    open spec fn model_update(model: Seq<I>, set: Seq<I>, capacity: u32, next: I) -> Seq<I> {
        touched(model, next)
    }

    /// The least recently used resident items, up to the first that frees
    /// enough room.
    open spec fn model_victims(model: Seq<I>, set: Seq<I>, capacity: u32, next: I) -> Seq<I> {
        covering_prefix(
            residents_in_order(touched(model, next), set),
            room_needed(set, capacity, next),
        )
    }

    open spec fn model_replace(model: Seq<I>, set: Seq<I>, capacity: u32, next: I) -> Seq<I> {
        without_all(touched(model, next), Self::model_victims(model, set, capacity, next))
    }

    proof fn lemma_victims_suffice(model: Seq<I>, set: Seq<I>, capacity: u32, next: I) {
        let stack = touched(model, next);
        let needed = room_needed(set, capacity, next);
        lemma_touched(model, next);
        lemma_residents_cover(stack, set);
        lemma_covering_prefix(residents_in_order(stack, set), needed);
    }

    proof fn lemma_update_tracks(model: Seq<I>, set: Seq<I>, capacity: u32, next: I) {
        lemma_touched(model, next);
        lemma_with_item(set, next);
    }

    proof fn lemma_replace_tracks(model: Seq<I>, set: Seq<I>, capacity: u32, next: I) {
        let stack = touched(model, next);
        let all = residents_in_order(stack, set);
        let victims = Self::model_victims(model, set, capacity, next);
        Self::lemma_update_tracks(model, set, capacity, next);
        lemma_residents_in_order(stack, set);
        lemma_covering_prefix(all, room_needed(set, capacity, next));
        lemma_prefix_of_residents(stack, set, victims);
        if set.len() == 0 {
            assert(total_size(set) == 0);
        }
        assert(has_id(set, set[0].spec_id()));
        assert(has_id(all, set[0].spec_id()));
        lemma_pick(stack, set, next, victims);
    }

    fn update_state(&mut self, set: &ItemSet<I>, capacity: u32, next: I) {
        proof {
            Self::lemma_update_tracks(self@, set@, capacity, next);
            lemma_touched(self@, next);
        }
        self.stack.remove(&next);
        self.stack.insert(next);
    }

    fn replace(&mut self, set: &ItemSet<I>, capacity: u32, next: I) -> (evicted: ItemSet<I>) {
        proof {
            Self::lemma_replace_tracks(self@, set@, capacity, next);
        }
        self.update_state(set, capacity, next);
        let needed: u128 = set.total_size() + next.size() as u128 - capacity as u128;
        let evicted = covering_residents(&self.stack, set, needed as u32);
        take_out(&mut self.stack, &evicted);
        evicted
    }
}

/// Take the items of `gone` out of `order`.
pub fn take_out<I: Item>(order: &mut ItemSet<I>, gone: &ItemSet<I>)
    requires
        old(order).wf(),
    ensures
        final(order).wf(),
        final(order)@ == without_all(old(order)@, gone@),
{
    let ghost before = order@;
    let mut k: usize = 0;
    while k < gone.len()
        invariant
            k <= gone@.len(),
            order.wf(),
            order@ == without_all(before, gone@.take(k as int)),
        decreases gone@.len() - k,
    {
        let item = gone.get(k);
        proof {
            assert(gone@.take(k + 1).drop_last() =~= gone@.take(k as int));
            assert(gone@.take(k + 1).last() == item);
        }
        order.remove(&item);
        k += 1;
    }
    proof {
        assert(gone@.take(gone@.len() as int) =~= gone@);
    }
}

impl<I: Item> Tiebreaker<I> for Lru<I> {
    /// The least recently used candidates, up to the first that frees enough.
    open spec fn model_tiebreak(model: Seq<I>, from: Seq<I>, size_to_free: u32) -> Seq<I> {
        covering_prefix(residents_in_order(model, from), size_to_free as int)
    }

    proof fn lemma_tracks_part(model: Seq<I>, whole: Seq<I>, part: Seq<I>) {
    }

    proof fn lemma_model_tiebreak(model: Seq<I>, from: Seq<I>, size_to_free: u32) {
        let all = residents_in_order(model, from);
        let chosen = covering_prefix(all, size_to_free as int);
        lemma_residents_in_order(model, from);
        lemma_covering_prefix(all, size_to_free as int);
        assert(all.len() > 0) by {
            assert(has_id(from, from[0].spec_id()));
            assert(has_id(all, from[0].spec_id()));
        }
        lemma_prefix_of_residents(model, from, chosen);
    }

    fn tiebreak(&mut self, from: &ItemSet<I>, size_to_free: u32) -> (chosen: ItemSet<I>) {
        proof {
            Self::lemma_model_tiebreak(self@, from@, size_to_free);
        }
        covering_residents(&self.stack, from, size_to_free)
    }
}

} // verus!
