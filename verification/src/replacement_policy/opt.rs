//! The optimal replacement policy of Belady.

use crate::item::Item;
use crate::item_set::{ids_in_order, total_size, ItemSet};
use crate::replacement_policy::{lemma_total_size_item, single, ReplacementPolicy};
use crate::trace::Trace;
use vstd::prelude::*;

verus! {

/// How many accesses lie before the next access to the id `id` in the accesses
/// `future`; as many as `future` holds if there is none.
pub open spec fn next_use(future: Seq<u64>, id: u64) -> nat
    decreases future.len(),
{
    if future.len() == 0 {
        0
    } else if future.first() == id {
        0
    } else {
        1 + next_use(future.drop_first(), id)
    }
}

/// The position in `set` of the item whose next access lies farthest in the
/// future; of those that are equally far, the one that was admitted first.
/// An item that is not accessed again is farther than any that is.
pub open spec fn farthest<I: Item>(set: Seq<I>, future: Seq<u64>) -> int
    decreases set.len(),
{
    if set.len() <= 1 {
        0
    } else {
        let best = farthest(set.drop_last(), future);
        if next_use(future, set.last().spec_id()) > next_use(future, set[best].spec_id()) {
            set.len() - 1
        } else {
            best
        }
    }
}

/// The future after one more access: without its first access.
pub open spec fn after_access(future: Seq<u64>) -> Seq<u64> {
    if future.len() > 0 {
        future.drop_first()
    } else {
        future
    }
}

/// The item that is farthest is an item of the set, and none is farther.
pub proof fn lemma_farthest<I: Item>(set: Seq<I>, future: Seq<u64>)
    requires
        set.len() > 0,
    ensures
        0 <= farthest(set, future) < set.len(),
        forall|i: int|
            0 <= i < set.len() ==> next_use(future, (#[trigger] set[i]).spec_id()) <= next_use(
                future,
                set[farthest(set, future)].spec_id(),
            ),
    decreases set.len(),
{
    if set.len() > 1 {
        let init = set.drop_last();
        lemma_farthest(init, future);
        assert forall|i: int| 0 <= i < set.len() implies next_use(
            future,
            (#[trigger] set[i]).spec_id(),
        ) <= next_use(future, set[farthest(set, future)].spec_id()) by {
            if i < init.len() {
                assert(init[i] == set[i]);
            }
            assert(init[farthest(init, future)] == set[farthest(init, future)]);
        }
    }
}

/// Where `id` is not among the first `n` accesses, its next use is the `n`th
/// access if that is an access to it, and not before the end if `n` is the
/// end.
pub proof fn lemma_next_use(future: Seq<u64>, id: u64, n: int)
    requires
        0 <= n <= future.len(),
        forall|j: int| 0 <= j < n ==> #[trigger] future[j] != id,
        n < future.len() ==> future[n] == id,
    ensures
        next_use(future, id) == n,
    decreases n,
{
    if n > 0 {
        let rest = future.drop_first();
        assert forall|j: int| 0 <= j < n - 1 implies #[trigger] rest[j] != id by {
            assert(rest[j] == future[j + 1]);
        }
        if n < future.len() {
            assert(rest[n - 1] == future[n]);
        }
        lemma_next_use(rest, id, n - 1);
    }
}

/// The optimal replacement policy: it knows the accesses that are to come, and
/// evicts the resident item whose next access lies farthest in the future. An
/// item that is not accessed again goes before any that is. Where several
/// items are equally far, the one that was admitted first goes.
///
/// The policy is meant for a replay of the trace that it was made from. Each
/// access takes one access off its future, whatever the item.
pub struct Opt {
    future: Vec<u64>,
    cursor: usize,
}

impl View for Opt {
    type V = Seq<u64>;

    /// The ids of the accesses that are to come.
    closed spec fn view(&self) -> Seq<u64> {
        self.future@.skip(self.cursor as int)
    }
}

impl Opt {
    /// The invariant of the type: the cursor stands within the future.
    #[verifier::type_invariant]
    spec fn wf(&self) -> bool {
        self.cursor <= self.future@.len()
    }

    /// Create the policy for a replay of `trace`.
    #[must_use]
    pub fn new<I: Item>(trace: &Trace<I>) -> (policy: Self)
        ensures
            policy@ == ids_in_order(trace@),
    {
        let mut future: Vec<u64> = Vec::new();
        let mut i: usize = 0;
        while i < trace.len()
            invariant
                i <= trace@.len(),
                future@.len() == i,
                forall|k: int| 0 <= k < i ==> #[trigger] future@[k] == trace@[k].spec_id(),
            decreases trace@.len() - i,
        {
            future.push(trace.get(i).id());
            i += 1;
        }
        proof {
            assert(future@.skip(0) =~= ids_in_order(trace@));
        }
        Self { future, cursor: 0 }
    }

    /// How many accesses lie before the next access to the id `id`.
    pub fn next_use(&self, id: u64) -> (distance: usize)
        ensures
            distance == next_use(self@, id),
    {
        proof {
            use_type_invariant(self);
        }
        let mut k: usize = self.cursor;
        while k < self.future.len()
            invariant
                self.cursor <= k <= self.future@.len(),
                forall|j: int| 0 <= j < k - self.cursor ==> #[trigger] self@[j] != id,
            decreases self.future@.len() - k,
        {
            if self.future[k] == id {
                proof {
                    lemma_next_use(self@, id, k - self.cursor);
                }
                return k - self.cursor;
            }
            k += 1;
        }
        proof {
            lemma_next_use(self@, id, k - self.cursor);
        }
        k - self.cursor
    }
}

impl<I: Item> ReplacementPolicy<I> for Opt {
    type Model = Seq<u64>;

    open spec fn model(&self) -> Seq<u64> {
        self@
    }

    /// The policy needs no word of the resident items: it tracks every set.
    open spec fn tracks(model: Seq<u64>, resident: Seq<I>) -> bool {
        true
    }

    open spec fn deterministic() -> bool {
        true
    }

    open spec fn size_aware() -> bool {
        false
    }

    open spec fn model_update(model: Seq<u64>, set: Seq<I>, capacity: u32, next: I) -> Seq<u64> {
        after_access(model)
    }

    open spec fn model_replace(model: Seq<u64>, set: Seq<I>, capacity: u32, next: I) -> Seq<u64> {
        after_access(model)
    }

    /// The resident item whose next access lies farthest in the future.
    open spec fn model_victims(model: Seq<u64>, set: Seq<I>, capacity: u32, next: I) -> Seq<I> {
        if set.len() > 0 {
            seq![set[farthest(set, after_access(model))]]
        } else {
            Seq::empty()
        }
    }

    proof fn lemma_victims_suffice(model: Seq<u64>, set: Seq<I>, capacity: u32, next: I) {
        if set.len() == 0 {
            assert(total_size(set) == 0);
        }
        lemma_farthest(set, after_access(model));
        let victim = set[farthest(set, after_access(model))];
        lemma_total_size_item(seq![victim], 0);
    }

    proof fn lemma_update_tracks(model: Seq<u64>, set: Seq<I>, capacity: u32, next: I) {
    }

    proof fn lemma_replace_tracks(model: Seq<u64>, set: Seq<I>, capacity: u32, next: I) {
        if set.len() == 0 {
            assert(total_size(set) == 0);
        }
        lemma_farthest(set, after_access(model));
        let victims = Self::model_victims(model, set, capacity, next);
        assert(victims[0] == set[farthest(set, after_access(model))]);
    }

    fn update_state(&mut self, set: &ItemSet<I>, capacity: u32, next: I) {
        proof {
            use_type_invariant(&*self);
        }
        if self.cursor < self.future.len() {
            proof {
                assert(self.future@.skip(self.cursor + 1) =~= self@.drop_first());
            }
            self.cursor = self.cursor + 1;
        }
    }

    fn replace(&mut self, set: &ItemSet<I>, capacity: u32, next: I) -> (evicted: ItemSet<I>) {
        proof {
            if set@.len() == 0 {
                assert(total_size(set@) == 0);
            }
        }
        self.update_state(set, capacity, next);
        let ghost future = self@;
        let mut best: usize = 0;
        let mut best_use: usize = self.next_use(set.get(0).id());
        let mut i: usize = 1;
        proof {
            assert(set@.take(1).drop_last() =~= Seq::<I>::empty());
        }
        while i < set.len()
            invariant
                self@ == future,
                1 <= i <= set@.len(),
                best == farthest(set@.take(i as int), future),
                best < i,
                best_use == next_use(future, set@[best as int].spec_id()),
            decreases set@.len() - i,
        {
            proof {
                assert(set@.take(i + 1).drop_last() =~= set@.take(i as int));
                assert(set@.take(i + 1).last() == set@[i as int]);
                assert(set@.take(i + 1)[best as int] == set@[best as int]);
                assert(set@.take(i as int)[best as int] == set@[best as int]);
            }
            let this_use = self.next_use(set.get(i).id());
            if this_use > best_use {
                best = i;
                best_use = this_use;
            }
            i += 1;
        }
        proof {
            assert(set@.take(set@.len() as int) =~= set@);
        }
        let victim = set.get(best);
        let evicted = single(victim);
        proof {
            assert(evicted@[0] == victim);
            lemma_total_size_item(evicted@, 0);
        }
        evicted
    }
}

} // verus!
