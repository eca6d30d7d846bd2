//! The LFU replacement policy.

use crate::item::Item;
use crate::item_set::{
    distinct_ids, has_id, items_of, lemma_with_item, lemma_without_all, total_size, with_item,
    without_all, ItemSet,
};
use crate::replacement_policy::{
    lemma_total_size_item, room_needed, Lru, ReplacementPolicy, Tiebreaker,
};
use crate::stats::counted_up;
use std::collections::HashMap;
use std::marker::PhantomData;
use vstd::prelude::*;

verus! {

broadcast use vstd::std_specs::hash::group_hash_axioms;

/// How often the item with the id `id` was accessed, by the counts `counts`.
pub open spec fn count_of(counts: Map<u64, u32>, id: u64) -> u32 {
    if counts.contains_key(id) {
        counts[id]
    } else {
        0
    }
}

/// The counts after one more access to the item with the id `id`.
pub open spec fn counted(counts: Map<u64, u32>, id: u64) -> Map<u64, u32> {
    counts.insert(id, counted_up(count_of(counts, id)))
}

/// The least access count of any item of `set`; `u32::MAX` if `set` is empty.
pub open spec fn fewest_accesses<I: Item>(set: Seq<I>, counts: Map<u64, u32>) -> u32
    decreases set.len(),
{
    if set.len() == 0 {
        u32::MAX
    } else {
        let rest = fewest_accesses(set.drop_last(), counts);
        let count = count_of(counts, set.last().spec_id());
        if count < rest {
            count
        } else {
            rest
        }
    }
}

/// The items of `set` that were accessed `times` times, in the order of `set`.
pub open spec fn accessed_times<I: Item>(set: Seq<I>, counts: Map<u64, u32>, times: u32) -> Seq<I>
    decreases set.len(),
{
    if set.len() == 0 {
        Seq::empty()
    } else if count_of(counts, set.last().spec_id()) == times {
        accessed_times(set.drop_last(), counts, times).push(set.last())
    } else {
        accessed_times(set.drop_last(), counts, times)
    }
}

/// The items of `set` with the least access count, in the order of `set`.
pub open spec fn least_frequent<I: Item>(set: Seq<I>, counts: Map<u64, u32>) -> Seq<I> {
    accessed_times(set, counts, fewest_accesses(set, counts))
}

/// The least count is the count of some item and no more than that of any.
pub proof fn lemma_fewest_accesses<I: Item>(set: Seq<I>, counts: Map<u64, u32>)
    ensures
        forall|i: int|
            0 <= i < set.len() ==> fewest_accesses(set, counts) <= count_of(
                counts,
                (#[trigger] set[i]).spec_id(),
            ),
        set.len() > 0 ==> exists|i: int|
            0 <= i < set.len() && count_of(counts, (#[trigger] set[i]).spec_id())
                == fewest_accesses(set, counts),
    decreases set.len(),
{
    if set.len() > 0 {
        let init = set.drop_last();
        lemma_fewest_accesses(init, counts);
        assert forall|i: int| 0 <= i < set.len() implies fewest_accesses(set, counts) <= count_of(
            counts,
            (#[trigger] set[i]).spec_id(),
        ) by {
            if i < init.len() {
                assert(init[i] == set[i]);
            }
        }
        let count = count_of(counts, set.last().spec_id());
        if init.len() > 0 && !(count < fewest_accesses(init, counts)) {
            let w = choose|i: int|
                0 <= i < init.len() && count_of(counts, (#[trigger] init[i]).spec_id())
                    == fewest_accesses(init, counts);
            assert(set[w] == init[w]);
        } else {
            assert(set[set.len() - 1] == set.last());
        }
    }
}

/// What `accessed_times` holds: the items of `set` with that count.
pub proof fn lemma_accessed_times<I: Item>(set: Seq<I>, counts: Map<u64, u32>, times: u32)
    requires
        distinct_ids(set),
    ensures
        distinct_ids(accessed_times(set, counts, times)),
        items_of(accessed_times(set, counts, times), set),
        forall|i: int|
            0 <= i < set.len() && count_of(counts, (#[trigger] set[i]).spec_id()) == times
                ==> accessed_times(set, counts, times).contains(set[i]),
        forall|id: u64| #[trigger]
            has_id(accessed_times(set, counts, times), id) ==> has_id(set, id),
    decreases set.len(),
{
    let r = accessed_times(set, counts, times);
    if set.len() > 0 {
        let init = set.drop_last();
        let ri = accessed_times(init, counts, times);
        assert(distinct_ids(init)) by {
            assert forall|i: int, j: int| 0 <= i < j < init.len() implies (#[trigger] init[i]).spec_id()
                != (#[trigger] init[j]).spec_id() by {
                assert(init[i] == set[i] && init[j] == set[j]);
            }
        }
        lemma_accessed_times(init, counts, times);
        assert forall|i: int| 0 <= i < r.len() implies set.contains(#[trigger] r[i]) by {
            if i < ri.len() {
                assert(r[i] == ri[i]);
                assert(init.contains(ri[i]));
                let p = choose|p: int| 0 <= p < init.len() && init[p] == ri[i];
                assert(set[p] == r[i]);
            } else {
                assert(set[set.len() - 1] == r[i]);
            }
        }
        assert forall|id: u64| #[trigger] has_id(r, id) implies has_id(set, id) by {
            let k = choose|k: int| 0 <= k < r.len() && (#[trigger] r[k]).spec_id() == id;
            assert(set.contains(r[k]));
            let p = choose|p: int| 0 <= p < set.len() && set[p] == r[k];
            assert(set[p].spec_id() == id);
        }
        assert forall|i: int, j: int| 0 <= i < j < r.len() implies (#[trigger] r[i]).spec_id() != (
        #[trigger] r[j]).spec_id() by {
            if j < ri.len() {
                assert(r[i] == ri[i] && r[j] == ri[j]);
            } else {
                assert(r[i] == ri[i]);
                assert(has_id(ri, ri[i].spec_id()));
                assert(has_id(init, ri[i].spec_id()));
                let p = choose|p: int|
                    0 <= p < init.len() && (#[trigger] init[p]).spec_id() == ri[i].spec_id();
                assert(set[p].spec_id() != set[set.len() - 1].spec_id());
            }
        }
        assert forall|i: int|
            0 <= i < set.len() && count_of(counts, (#[trigger] set[i]).spec_id())
                == times implies r.contains(set[i]) by {
            if i < init.len() {
                assert(init[i] == set[i]);
                assert(ri.contains(set[i]));
                let k = choose|k: int| 0 <= k < ri.len() && ri[k] == set[i];
                assert(r[k] == set[i]);
            } else {
                assert(r[r.len() - 1] == set[i]);
            }
        }
    }
}

/// The LFU replacement policy, which evicts the least frequently used item.
///
/// It counts the accesses to each id, up to `u32::MAX`. To make room it takes
/// the resident items with the least count, in the order of their admission,
/// and lets the tiebreaker pick among them, for one unit of room. The
/// tiebreaker defaults to Lru.
pub struct Lfu<I: Item = u32, T: Tiebreaker<I> = Lru> {
    counts: HashMap<u64, u32>,
    tiebreaker: T,
    item: PhantomData<I>,
}

/// The mathematical model of an [`Lfu`]: the access count of each id, and the
/// model of the tiebreaker.
pub ghost struct LfuModel<M> {
    pub counts: Map<u64, u32>,
    pub tiebreaker: M,
}

impl<I: Item, T: Tiebreaker<I>> View for Lfu<I, T> {
    type V = LfuModel<T::Model>;

    closed spec fn view(&self) -> Self::V {
        LfuModel { counts: self.counts@, tiebreaker: self.tiebreaker.model() }
    }
}

impl<I: Item, T: Tiebreaker<I>> Lfu<I, T> {
    /// The tiebreaker, as a mathematical value.
    pub closed spec fn spec_tiebreaker(&self) -> T {
        self.tiebreaker
    }

    /// How often the item with the id `id` was accessed.
    pub fn count(&self, id: u64) -> (count: u32)
        ensures
            count == count_of(self@.counts, id),
    {
        match self.counts.get(&id) {
            Some(count) => *count,
            None => 0,
        }
    }
}

impl<I: Item, T: Tiebreaker<I> + Default> Default for Lfu<I, T> {
    fn default() -> (policy: Self)
        ensures
            policy@.counts == Map::<u64, u32>::empty(),
            policy@.tiebreaker == policy.spec_tiebreaker().model(),
            call_ensures(T::default, (), policy.spec_tiebreaker()),
    {
        Self { counts: HashMap::new(), tiebreaker: T::default(), item: PhantomData }
    }
}

impl<I: Item, T: Tiebreaker<I>> ReplacementPolicy<I> for Lfu<I, T> {
    type Model = LfuModel<T::Model>;

    open spec fn model(&self) -> LfuModel<T::Model> {
        self@
    }

    open spec fn tracks(model: LfuModel<T::Model>, resident: Seq<I>) -> bool {
        T::tracks(model.tiebreaker, resident)
    }

    open spec fn deterministic() -> bool {
        T::deterministic()
    }

    open spec fn size_aware() -> bool {
        false
    }

    /// The count of `next` goes up, and the tiebreaker sees the access.
    open spec fn model_update(
        model: LfuModel<T::Model>,
        set: Seq<I>,
        capacity: u32,
        next: I,
    ) -> LfuModel<T::Model> {
        LfuModel {
            counts: counted(model.counts, next.spec_id()),
            tiebreaker: T::model_update(model.tiebreaker, set, capacity, next),
        }
    }

    open spec fn model_replace(
        model: LfuModel<T::Model>,
        set: Seq<I>,
        capacity: u32,
        next: I,
    ) -> LfuModel<T::Model> {
        Self::model_update(model, set, capacity, next)
    }

    /// What the tiebreaker picks, for one unit of room, among the resident
    /// items with the least count.
    open spec fn model_victims(
        model: LfuModel<T::Model>,
        set: Seq<I>,
        capacity: u32,
        next: I,
    ) -> Seq<I> {
        T::model_tiebreak(
            T::model_update(model.tiebreaker, set, capacity, next),
            least_frequent(set, counted(model.counts, next.spec_id())),
            1,
        )
    }

    proof fn lemma_victims_suffice(
        model: LfuModel<T::Model>,
        set: Seq<I>,
        capacity: u32,
        next: I,
    ) {
        if T::deterministic() {
            let chosen = Self::model_victims(model, set, capacity, next);
            Self::lemma_replace_tracks(model, set, capacity, next);
            lemma_total_size_item(chosen, 0);
            assert(set.contains(chosen[0]));
            let p = choose|p: int| 0 <= p < set.len() && set[p] == chosen[0];
            assert(set[p].spec_size() >= next.spec_size());
        }
    }

    proof fn lemma_update_tracks(
        model: LfuModel<T::Model>,
        set: Seq<I>,
        capacity: u32,
        next: I,
    ) {
        T::lemma_update_tracks(model.tiebreaker, set, capacity, next);
    }

    proof fn lemma_replace_tracks(
        model: LfuModel<T::Model>,
        set: Seq<I>,
        capacity: u32,
        next: I,
    ) {
        if T::deterministic() {
            let counts = counted(model.counts, next.spec_id());
            let candidates = least_frequent(set, counts);
            let tiebreaker = T::model_update(model.tiebreaker, set, capacity, next);
            let chosen = Self::model_victims(model, set, capacity, next);
            lemma_candidates(set, counts);
            if set.len() == 0 {
                assert(total_size(set) == 0);
            }
            lemma_with_item(set, next);
            T::lemma_update_tracks(model.tiebreaker, set, capacity, next);
            T::lemma_tracks_part(tiebreaker, with_item(set, next), candidates);
            T::lemma_model_tiebreak(tiebreaker, candidates, 1);
            assert forall|k: int| 0 <= k < chosen.len() implies set.contains(#[trigger] chosen[k]) by {
                assert(candidates.contains(chosen[k]));
                let c = choose|c: int| 0 <= c < candidates.len() && candidates[c] == chosen[k];
                assert(set.contains(candidates[c]));
            }
            lemma_without_all(set, chosen);
            lemma_with_item(without_all(set, chosen), next);
            T::lemma_tracks_part(
                tiebreaker,
                with_item(set, next),
                with_item(without_all(set, chosen), next),
            );
        }
    }

    /// The count of `next` goes up, whatever the tiebreaker.
    fn update_state(&mut self, set: &ItemSet<I>, capacity: u32, next: I)
        ensures
            final(self)@.counts == counted(old(self)@.counts, next.spec_id()),
    {
        let id = next.id();
        let count = self.count(id);
        let count = if count < u32::MAX {
            count + 1
        } else {
            count
        };
        self.counts.insert(id, count);
        self.tiebreaker.update_state(set, capacity, next);
    }

    /// The victims are items of least count, whatever the tiebreaker.
    fn replace(&mut self, set: &ItemSet<I>, capacity: u32, next: I) -> (evicted: ItemSet<I>)
        ensures
            items_of(
                evicted@,
                least_frequent(set@, counted(old(self)@.counts, next.spec_id())),
            ),
            final(self)@.counts == counted(old(self)@.counts, next.spec_id()),
    {
        self.update_state(set, capacity, next);
        let ghost counts = self@.counts;
        proof {
            lemma_candidates(set@, counts);
            if set@.len() == 0 {
                assert(total_size(set@) == 0);
            }
            lemma_with_item(set@, next);
        }
        let mut fewest: u32 = u32::MAX;
        let mut i: usize = 0;
        proof {
            assert(set@.take(0) =~= Seq::<I>::empty());
        }
        while i < set.len()
            invariant
                i <= set@.len(),
                self.counts@ == counts,
                fewest == fewest_accesses(set@.take(i as int), counts),
            decreases set@.len() - i,
        {
            proof {
                assert(set@.take(i + 1).drop_last() =~= set@.take(i as int));
                assert(set@.take(i + 1).last() == set@[i as int]);
            }
            let count = self.count(set.get(i).id());
            if count < fewest {
                fewest = count;
            }
            i += 1;
        }
        proof {
            assert(set@.take(set@.len() as int) =~= set@);
        }
        let mut candidates: ItemSet<I> = ItemSet::new();
        let mut i: usize = 0;
        while i < set.len()
            invariant
                i <= set@.len(),
                set.wf(),
                self.counts@ == counts,
                candidates.wf(),
                candidates@ == accessed_times(set@.take(i as int), counts, fewest),
            decreases set@.len() - i,
        {
            let item = set.get(i);
            proof {
                assert(set@.take(i + 1).drop_last() =~= set@.take(i as int));
                assert(set@.take(i + 1).last() == item);
                assert(distinct_ids(set@.take(i as int))) by {
                    assert forall|a: int, b: int| 0 <= a < b < i implies (#[trigger] set@.take(
                        i as int,
                    )[a]).spec_id() != (#[trigger] set@.take(i as int)[b]).spec_id() by {
                        assert(set@[a].spec_id() != set@[b].spec_id());
                    }
                }
                lemma_accessed_times(set@.take(i as int), counts, fewest);
                assert(!has_id(candidates@, item.spec_id())) by {
                    if has_id(set@.take(i as int), item.spec_id()) {
                        let k = choose|k: int|
                            0 <= k < i && (#[trigger] set@.take(i as int)[k]).spec_id()
                                == item.spec_id();
                        assert(set@[k].spec_id() != set@[i as int].spec_id());
                    }
                }
            }
            if self.count(item.id()) == fewest {
                candidates.insert(item);
            }
            i += 1;
        }
        proof {
            assert(set@.take(set@.len() as int) =~= set@);
            assert(candidates@ == least_frequent(set@, counts));
            T::lemma_tracks_part(self.tiebreaker.model(), with_item(set@, next), candidates@);
        }
        let evicted = self.tiebreaker.tiebreak(&candidates, 1);
        proof {
            assert forall|k: int| 0 <= k < evicted@.len() implies set@.contains(
                #[trigger] evicted@[k],
            ) by {
                assert(candidates@.contains(evicted@[k]));
                let c = choose|c: int| 0 <= c < candidates@.len() && candidates@[c] == evicted@[k];
                assert(set@.contains(candidates@[c]));
            }
            if !T::deterministic() {
                lemma_total_size_item(evicted@, 0);
                let p = choose|p: int| 0 <= p < set@.len() && set@[p] == evicted@[0];
                assert(set@[p].spec_size() >= room_needed(set@, capacity, next));
            }
            lemma_without_all(set@, evicted@);
            lemma_with_item(without_all(set@, evicted@), next);
            T::lemma_tracks_part(
                self.tiebreaker.model(),
                with_item(set@, next),
                with_item(without_all(set@, evicted@), next),
            );
        }
        evicted
    }
}

/// The items with the least count are distinct items of `set`, and there is
/// one if `set` is not empty.
pub proof fn lemma_candidates<I: Item>(set: Seq<I>, counts: Map<u64, u32>)
    requires
        distinct_ids(set),
    ensures
        distinct_ids(least_frequent(set, counts)),
        items_of(least_frequent(set, counts), set),
        set.len() > 0 ==> least_frequent(set, counts).len() > 0,
        forall|id: u64| #[trigger] has_id(least_frequent(set, counts), id) ==> has_id(set, id),
{
    lemma_fewest_accesses(set, counts);
    lemma_accessed_times(set, counts, fewest_accesses(set, counts));
    if set.len() > 0 {
        let w = choose|i: int|
            0 <= i < set.len() && count_of(counts, (#[trigger] set[i]).spec_id())
                == fewest_accesses(set, counts);
        assert(least_frequent(set, counts).contains(set[w]));
    }
}

} // verus!
