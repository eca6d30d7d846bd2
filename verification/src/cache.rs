//! A simple demand cache simulator.

use crate::item::Item;
use crate::item_set::{
    distinct_ids, has_id, items_of, lemma_contains_with_item, lemma_with_item, lemma_without_all,
    lemma_without_all_size, total_size, with_item, without_all, ItemSet,
};
use crate::replacement_policy::{must_evict, room_needed, ReplacementPolicy};
use crate::stats::Stat;
use crate::trace::Trace;
use vstd::prelude::*;

verus! {

/// A cache, generic over a replacement policy and set of statistics.
pub struct Cache<R: ReplacementPolicy<I>, S: Stat<I> = (), I: Item = u32> {
    set: ItemSet<I>,
    replacement_policy: R,
    capacity: u32,
    stat: S,
}

/// The mathematical model of a cache: the resident items in the order of their
/// admission, the models of the policy and of the statistic, and the capacity.
pub ghost struct CacheModel<I, P, T> {
    pub set: Seq<I>,
    pub policy: P,
    pub stat: T,
    pub capacity: u32,
}

/// Whether `evicted` is a fitting eviction for an access to `next`: nothing
/// where nothing has to go, and else distinct resident items, at least one,
/// that free the room that `next` needs.
pub open spec fn fitting_eviction<I: Item>(set: Seq<I>, capacity: u32, next: I, evicted: Seq<I>) -> bool {
    if must_evict(set, capacity, next) {
        &&& distinct_ids(evicted)
        &&& evicted.len() > 0
        &&& items_of(evicted, set)
        &&& total_size(evicted) >= room_needed(set, capacity, next)
    } else {
        evicted.len() == 0
    }
}

/// Whether an access to `next` with the eviction `evicted` leads from the
/// resident items `set` and the statistic `stat` to `set_after` and
/// `stat_after`: the eviction is fitting, the evicted items leave and `next` is
/// admitted, and the statistic observes the access.
pub open spec fn accessed<S: Stat<I>, I: Item>(
    set: Seq<I>,
    stat: S::Model,
    capacity: u32,
    next: I,
    evicted: Seq<I>,
    set_after: Seq<I>,
    stat_after: S::Model,
) -> bool {
    &&& fitting_eviction(set, capacity, next, evicted)
    &&& set_after == with_item(without_all(set, evicted), next)
    &&& stat_after == S::model_update(stat, set, next, evicted)
}

/// Whether the accesses of `trace`, one after the other and each with some
/// fitting eviction, lead from the resident items `set` and the statistic
/// `stat` to `set_after` and `stat_after`. This holds of every replay,
/// whatever the policy.
pub open spec fn replayed<S: Stat<I>, I: Item>(
    set: Seq<I>,
    stat: S::Model,
    capacity: u32,
    trace: Seq<I>,
    set_after: Seq<I>,
    stat_after: S::Model,
) -> bool
    decreases trace.len(),
{
    if trace.len() == 0 {
        set_after == set && stat_after == stat
    } else {
        exists|set_before: Seq<I>, stat_before: S::Model, evicted: Seq<I>|
            replayed::<S, I>(set, stat, capacity, trace.drop_last(), set_before, stat_before)
                && #[trigger] accessed::<S, I>(
                set_before,
                stat_before,
                capacity,
                trace.last(),
                evicted,
                set_after,
                stat_after,
            )
    }
}

/// Whether the items of `set` and of `trace` all have one size.
pub open spec fn same_sizes<I: Item>(set: Seq<I>, trace: Seq<I>) -> bool {
    &&& forall|i: int, j: int|
        0 <= i < trace.len() && 0 <= j < trace.len() ==> (#[trigger] trace[i]).spec_size() == (
        #[trigger] trace[j]).spec_size()
    &&& forall|i: int, j: int|
        0 <= i < set.len() && 0 <= j < trace.len() ==> (#[trigger] set[i]).spec_size() == (
        #[trigger] trace[j]).spec_size()
}

impl<R: ReplacementPolicy<I>, S: Stat<I>, I: Item> View for Cache<R, S, I> {
    type V = CacheModel<I, R::Model, S::Model>;

    closed spec fn view(&self) -> Self::V {
        CacheModel {
            set: self.set@,
            policy: self.replacement_policy.model(),
            stat: self.stat.model(),
            capacity: self.capacity,
        }
    }
}

impl<R: ReplacementPolicy<I>, S: Stat<I>, I: Item> Cache<R, S, I> {
    /// The invariant of the type: the resident items have distinct ids and fit
    /// the capacity, and the policy knows each of them.
    pub open spec fn wf(&self) -> bool {
        Self::model_wf(self@)
    }

    /// What an access to `item` asks: that the item is resident or fits the
    /// capacity and, if the access has to evict, what the policy asks.
    pub open spec fn can_access(&self, item: I) -> bool {
        Self::model_can_access(self@, item)
    }

    /// The model of a cache with a deterministic policy after an access.
    pub open spec fn model_access(model: CacheModel<I, R::Model, S::Model>, item: I) -> CacheModel<
        I,
        R::Model,
        S::Model,
    > {
        if must_evict(model.set, model.capacity, item) {
            let evicted = R::model_victims(model.policy, model.set, model.capacity, item);
            CacheModel {
                set: with_item(without_all(model.set, evicted), item),
                policy: R::model_replace(model.policy, model.set, model.capacity, item),
                stat: S::model_update(model.stat, model.set, item, evicted),
                capacity: model.capacity,
            }
        } else {
            CacheModel {
                set: with_item(model.set, item),
                policy: R::model_update(model.policy, model.set, model.capacity, item),
                stat: S::model_update(model.stat, model.set, item, Seq::empty()),
                capacity: model.capacity,
            }
        }
    }

    /// The model of a cache with a deterministic policy after the accesses of
    /// `trace`, one after the other.
    pub open spec fn model_run(model: CacheModel<I, R::Model, S::Model>, trace: Seq<I>) -> CacheModel<
        I,
        R::Model,
        S::Model,
    >
        decreases trace.len(),
    {
        if trace.len() == 0 {
            model
        } else {
            Self::model_access(Self::model_run(model, trace.drop_last()), trace.last())
        }
    }

    /// What a replay of `trace` asks: that each item fits the capacity, and
    /// that the policy is size-aware, or else that the items in the cache and
    /// in the trace all have one size.
    pub open spec fn can_run(&self, trace: Seq<I>) -> bool {
        Self::model_can_run(self@, trace)
    }

    /// The invariant in terms of the model: the resident items have distinct
    /// ids and fit the capacity, and the policy knows each of them.
    pub open spec fn model_wf(model: CacheModel<I, R::Model, S::Model>) -> bool {
        &&& distinct_ids(model.set)
        &&& total_size(model.set) <= model.capacity
        &&& R::tracks(model.policy, model.set)
    }

    /// What an access to `item` asks, in terms of the model: that the item is
    /// resident or fits the capacity and, if the access has to evict, what the
    /// policy asks. A
    /// deterministic policy asks that the victims of its rule free enough room.
    /// One that is not deterministic asks, unless it is size-aware, that any
    /// resident item does.
    pub open spec fn model_can_access(model: CacheModel<I, R::Model, S::Model>, item: I) -> bool {
        &&& has_id(model.set, item.spec_id()) || item.spec_size() <= model.capacity
        &&& must_evict(model.set, model.capacity, item) ==> {
            &&& R::deterministic() ==> total_size(
                R::model_victims(model.policy, model.set, model.capacity, item),
            ) >= room_needed(model.set, model.capacity, item)
            &&& !R::deterministic() && !R::size_aware() ==> forall|i: int|
                0 <= i < model.set.len() ==> (#[trigger] model.set[i]).spec_size() >= room_needed(
                    model.set,
                    model.capacity,
                    item,
                )
        }
    }

    /// Whether the items of `trace` fit the capacity one by one, and the
    /// policy is size-aware or else the items in the cache and in the trace
    /// all have one size. Then every access of a replay succeeds.
    pub open spec fn model_fits_by_size(
        model: CacheModel<I, R::Model, S::Model>,
        trace: Seq<I>,
    ) -> bool {
        &&& forall|i: int|
            0 <= i < trace.len() ==> (#[trigger] trace[i]).spec_size() <= model.capacity
        &&& R::size_aware() || same_sizes(model.set, trace)
    }

    /// What a replay of `trace` asks, in terms of the model: what each of its
    /// accesses asks of the cache that the accesses before it leave. Where the
    /// policy is not deterministic, so that this cache is not known
    /// beforehand, it asks that the items fit by their sizes.
    pub open spec fn model_can_run(model: CacheModel<I, R::Model, S::Model>, trace: Seq<I>) -> bool {
        if R::deterministic() {
            forall|i: int|
                0 <= i < trace.len() ==> Self::model_can_access(
                    Self::model_run(model, #[trigger] trace.take(i)),
                    trace[i],
                )
        } else {
            Self::model_fits_by_size(model, trace)
        }
    }

    /// A replay of a part of a trace asks no more than a replay of the trace.
    pub proof fn lemma_can_run_part(
        model: CacheModel<I, R::Model, S::Model>,
        trace: Seq<I>,
        accesses: int,
    )
        requires
            Self::model_can_run(model, trace),
            0 <= accesses <= trace.len(),
        ensures
            Self::model_can_run(model, trace.take(accesses)),
    {
        let part = trace.take(accesses);
        if R::deterministic() {
            assert forall|i: int| 0 <= i < part.len() implies Self::model_can_access(
                Self::model_run(model, #[trigger] part.take(i)),
                part[i],
            ) by {
                assert(part.take(i) =~= trace.take(i));
                assert(part[i] == trace[i]);
            }
        } else {
            Self::lemma_fits_by_size_part(model, trace, accesses);
        }
    }

    /// The items of a part of a trace fit by their sizes if those of the trace
    /// do.
    pub proof fn lemma_fits_by_size_part(
        model: CacheModel<I, R::Model, S::Model>,
        trace: Seq<I>,
        accesses: int,
    )
        requires
            Self::model_fits_by_size(model, trace),
            0 <= accesses <= trace.len(),
        ensures
            Self::model_fits_by_size(model, trace.take(accesses)),
    {
        let part = trace.take(accesses);
        assert forall|i: int| 0 <= i < part.len() implies (#[trigger] part[i]).spec_size()
            <= model.capacity by {
            assert(part[i] == trace[i]);
        }
        if !R::size_aware() {
            assert forall|i: int, j: int| 0 <= i < part.len() && 0 <= j < part.len() implies (
            #[trigger] part[i]).spec_size() == (#[trigger] part[j]).spec_size() by {
                assert(part[i] == trace[i] && part[j] == trace[j]);
            }
            assert forall|i: int, j: int|
                0 <= i < model.set.len() && 0 <= j < part.len() implies (
            #[trigger] model.set[i]).spec_size() == (#[trigger] part[j]).spec_size() by {
                assert(part[j] == trace[j]);
            }
        }
    }

    /// The capacity invariant, for one access: with a deterministic policy, an
    /// access leaves the resident items within the capacity, with distinct
    /// ids, and known to the policy. The accessed item is resident after it.
    pub proof fn lemma_access_keeps_capacity(model: CacheModel<I, R::Model, S::Model>, item: I)
        requires
            R::deterministic(),
            Self::model_wf(model),
            Self::model_can_access(model, item),
        ensures
            Self::model_wf(Self::model_access(model, item)),
            total_size(Self::model_access(model, item).set) <= model.capacity,
            Self::model_access(model, item).capacity == model.capacity,
            has_id(Self::model_access(model, item).set, item.spec_id()),
            forall|x: I| #[trigger]
                Self::model_access(model, item).set.contains(x) ==> model.set.contains(x) || x
                    == item,
    {
        let after = Self::model_access(model, item);
        lemma_with_item(model.set, item);
        if must_evict(model.set, model.capacity, item) {
            let evicted = R::model_victims(model.policy, model.set, model.capacity, item);
            R::lemma_replace_tracks(model.policy, model.set, model.capacity, item);
            lemma_without_all(model.set, evicted);
            lemma_without_all_size(model.set, evicted);
            lemma_with_item(without_all(model.set, evicted), item);
            assert forall|x: I| #[trigger] after.set.contains(x) implies model.set.contains(x) || x
                == item by {
                lemma_contains_with_item(without_all(model.set, evicted), item, x);
            }
        } else {
            R::lemma_update_tracks(model.policy, model.set, model.capacity, item);
            assert forall|x: I| #[trigger] after.set.contains(x) implies model.set.contains(x) || x
                == item by {
                lemma_contains_with_item(model.set, item, x);
            }
        }
    }

    /// The capacity invariant, for a replay: with a deterministic policy, the
    /// resident items are within the capacity after every access of a trace.
    pub proof fn lemma_run_keeps_capacity(model: CacheModel<I, R::Model, S::Model>, trace: Seq<I>)
        requires
            R::deterministic(),
            Self::model_wf(model),
            Self::model_can_run(model, trace),
        ensures
            Self::model_wf(Self::model_run(model, trace)),
            total_size(Self::model_run(model, trace).set) <= model.capacity,
            Self::model_run(model, trace).capacity == model.capacity,
            forall|x: I| #[trigger]
                Self::model_run(model, trace).set.contains(x) ==> model.set.contains(x)
                    || trace.contains(x),
        decreases trace.len(),
    {
        if trace.len() > 0 {
            let init = trace.drop_last();
            let item = trace.last();
            let before = Self::model_run(model, init);
            assert(init =~= trace.take(trace.len() - 1));
            Self::lemma_can_run_part(model, trace, trace.len() - 1);
            Self::lemma_run_keeps_capacity(model, init);
            assert(trace[trace.len() - 1] == item);
            assert(Self::model_can_access(before, item));
            Self::lemma_access_keeps_capacity(before, item);
            assert forall|x: I| #[trigger]
                Self::model_run(model, trace).set.contains(x) implies model.set.contains(x)
                || trace.contains(x) by {
                if x != item && !model.set.contains(x) {
                    assert(before.set.contains(x));
                    let p = choose|p: int| 0 <= p < init.len() && init[p] == x;
                    assert(trace[p] == x);
                }
            }
        }
    }

    /// A trace whose items fit by their sizes can be replayed: every access
    /// succeeds.
    pub proof fn lemma_sizes_can_run(model: CacheModel<I, R::Model, S::Model>, trace: Seq<I>)
        requires
            Self::model_wf(model),
            Self::model_fits_by_size(model, trace),
        ensures
            Self::model_can_run(model, trace),
        decreases trace.len(),
    {
        if R::deterministic() && trace.len() > 0 {
            let init = trace.drop_last();
            let item = trace.last();
            let before = Self::model_run(model, init);
            assert(init =~= trace.take(trace.len() - 1));
            Self::lemma_fits_by_size_part(model, trace, trace.len() - 1);
            Self::lemma_sizes_can_run(model, init);
            Self::lemma_run_keeps_capacity(model, init);
            assert(trace[trace.len() - 1] == item);
            assert(Self::model_can_access(before, item)) by {
                if must_evict(before.set, before.capacity, item) {
                    if !R::size_aware() {
                        assert forall|i: int| 0 <= i < before.set.len() implies (
                        #[trigger] before.set[i]).spec_size() >= item.spec_size() by {
                            let x = before.set[i];
                            assert(before.set.contains(x));
                            if model.set.contains(x) {
                                let p = choose|p: int| 0 <= p < model.set.len() && model.set[p] == x;
                                assert(model.set[p].spec_size() == trace[trace.len() - 1].spec_size());
                            } else {
                                let p = choose|p: int| 0 <= p < init.len() && init[p] == x;
                                assert(trace[p] == x);
                                assert(trace[p].spec_size() == trace[trace.len() - 1].spec_size());
                            }
                        }
                    }
                    R::lemma_victims_suffice(before.policy, before.set, before.capacity, item);
                }
            }
            assert forall|i: int| 0 <= i < trace.len() implies Self::model_can_access(
                Self::model_run(model, #[trigger] trace.take(i)),
                trace[i],
            ) by {
                if i < trace.len() - 1 {
                    assert(init.take(i) =~= trace.take(i));
                    assert(init[i] == trace[i]);
                }
            }
        }
    }

    /// Create an empty cache using an explicitly configured replacement policy.
    pub fn with_replacement_policy(policy: R, capacity: u32) -> (cache: Self)
        requires
            R::tracks(policy.model(), Seq::<I>::empty()),
        ensures
            cache.wf(),
            cache@.set == Seq::<I>::empty(),
            cache@.policy == policy.model(),
            cache.spec_policy() == policy,
            cache@.stat == cache.spec_stat().model(),
            cache@.capacity == capacity,
            call_ensures(S::default, (), cache.spec_stat()),
    {
        Self { set: ItemSet::new(), replacement_policy: policy, capacity, stat: S::default() }
    }

    /// Update the cache after an access to item.
    ///
    /// A resident item, or one that fits beside the resident items, is admitted
    /// without eviction. For any other the replacement policy picks resident
    /// items to evict, which leave before the item is admitted. The policy
    /// updates its bookkeeping and the statistic observes the access in either
    /// case.
    pub fn access(&mut self, item: I)
        requires
            old(self).wf(),
            old(self).can_access(item),
        ensures
            final(self).wf(),
            total_size(final(self)@.set) <= final(self)@.capacity,
            final(self)@.capacity == old(self)@.capacity,
            has_id(final(self)@.set, item.spec_id()),
            exists|evicted: Seq<I>| #[trigger]
                accessed::<S, I>(
                    old(self)@.set,
                    old(self)@.stat,
                    old(self)@.capacity,
                    item,
                    evicted,
                    final(self)@.set,
                    final(self)@.stat,
                ),
            !must_evict(old(self)@.set, old(self)@.capacity, item) ==> exists|policy: &mut R|
                *policy == old(self).spec_policy() && *final(policy) == final(self).spec_policy()
                    && #[trigger] call_ensures(
                    R::update_state,
                    (policy, &old(self).spec_set(), old(self)@.capacity, item),
                    (),
                ),
            must_evict(old(self)@.set, old(self)@.capacity, item) ==> exists|
                policy: &mut R,
                evicted: ItemSet<I>,
            |
                *policy == old(self).spec_policy() && *final(policy) == final(self).spec_policy()
                    && #[trigger] call_ensures(
                    R::replace,
                    (policy, &old(self).spec_set(), old(self)@.capacity, item),
                    evicted,
                ) && accessed::<S, I>(
                    old(self)@.set,
                    old(self)@.stat,
                    old(self)@.capacity,
                    item,
                    evicted@,
                    final(self)@.set,
                    final(self)@.stat,
                ),
            R::deterministic() ==> final(self)@ == Self::model_access(old(self)@, item),
    {
        let ghost before = self@;
        proof {
            lemma_with_item(self.set@, item);
        }
        if self.set.contains(&item) || self.set.total_size() + item.size() as u128
            <= self.capacity as u128 {
            // demand caching: nothing has to leave, so only the policy and the
            // statistic see the access
            self.replacement_policy.update_state(&self.set, self.capacity, item);
            let ghost updated = self.replacement_policy;
            proof {
                assert(exists|policy: &mut R|
                    *policy == old(self).replacement_policy && *final(policy) == updated
                        && #[trigger] call_ensures(
                        R::update_state,
                        (policy, &old(self).set, old(self).capacity, item),
                        (),
                    ));
            }
            let none: ItemSet<I> = ItemSet::new();
            self.stat.update(&self.set, item, &none);
            self.set.insert(item);
            proof {
                assert(fitting_eviction(before.set, before.capacity, item, none@));
                assert(without_all(before.set, none@) == before.set);
                assert(accessed::<S, I>(
                    before.set,
                    before.stat,
                    before.capacity,
                    item,
                    none@,
                    self@.set,
                    self@.stat,
                ));
                assert(self.replacement_policy == updated);
                assert(old(self).spec_set() == old(self).set);
                assert(!must_evict(before.set, before.capacity, item));
            }
        } else {
            // here we actually need to evict something
            let to_evict = self.replacement_policy.replace(&self.set, self.capacity, item);
            let ghost replaced = self.replacement_policy;
            proof {
                assert(exists|policy: &mut R|
                    *policy == old(self).replacement_policy && *final(policy) == replaced
                        && #[trigger] call_ensures(
                        R::replace,
                        (policy, &old(self).set, old(self).capacity, item),
                        to_evict,
                    ));
            }
            self.stat.update(&self.set, item, &to_evict);
            proof {
                lemma_without_all(before.set, to_evict@);
                lemma_without_all_size(before.set, to_evict@);
                lemma_with_item(without_all(before.set, to_evict@), item);
            }
            let ghost policy = self.replacement_policy;
            let ghost stat = self.stat;
            let mut k: usize = 0;
            while k < to_evict.len()
                invariant
                    k <= to_evict@.len(),
                    self.set.wf(),
                    self.set@ == without_all(before.set, to_evict@.take(k as int)),
                    self.replacement_policy == policy,
                    self.stat == stat,
                    self.capacity == before.capacity,
                decreases to_evict@.len() - k,
            {
                let victim = to_evict.get(k);
                proof {
                    assert(to_evict@.take(k + 1).drop_last() =~= to_evict@.take(k as int));
                    assert(to_evict@.take(k + 1).last() == victim);
                }
                self.set.remove(&victim);
                k += 1;
            }
            proof {
                assert(to_evict@.take(to_evict@.len() as int) =~= to_evict@);
            }
            // this is demand paging: the last access always goes into the cache
            self.set.insert(item);
            proof {
                assert(fitting_eviction(before.set, before.capacity, item, to_evict@));
                assert(accessed::<S, I>(
                    before.set,
                    before.stat,
                    before.capacity,
                    item,
                    to_evict@,
                    self@.set,
                    self@.stat,
                ));
                assert(self.replacement_policy == replaced);
                assert(old(self).spec_set() == old(self).set);
                assert(must_evict(before.set, before.capacity, item));
            }
        }
    }

    /// Update the cache after accessing all items in the trace, in order.
    ///
    /// The capacity invariant holds after every access: each is made by
    /// `access`. Whatever the policy, the cache is afterwards what the accesses
    /// with some fitting evictions leave: the last item of the trace is
    /// resident, and every resident item was resident before or is an item of
    /// the trace.
    pub fn run_trace(&mut self, trace: &Trace<I>)
        requires
            old(self).wf(),
            old(self).can_run(trace@),
        ensures
            final(self).wf(),
            total_size(final(self)@.set) <= final(self)@.capacity,
            final(self)@.capacity == old(self)@.capacity,
            replayed::<S, I>(
                old(self)@.set,
                old(self)@.stat,
                old(self)@.capacity,
                trace@,
                final(self)@.set,
                final(self)@.stat,
            ),
            trace@.len() > 0 ==> has_id(final(self)@.set, trace@.last().spec_id()),
            forall|x: I| #[trigger]
                final(self)@.set.contains(x) ==> old(self)@.set.contains(x) || trace@.contains(x),
            R::deterministic() ==> final(self)@ == Self::model_run(old(self)@, trace@),
    {
        let ghost before = self@;
        let mut i: usize = 0;
        proof {
            assert(trace@.take(0) =~= Seq::<I>::empty());
        }
        while i < trace.len()
            invariant
                i <= trace@.len(),
                self.wf(),
                self@.capacity == before.capacity,
                Self::model_can_run(before, trace@),
                !R::deterministic() ==> Self::model_fits_by_size(self@, trace@),
                R::deterministic() ==> self@ == Self::model_run(before, trace@.take(i as int)),
                replayed::<S, I>(
                    before.set,
                    before.stat,
                    before.capacity,
                    trace@.take(i as int),
                    self@.set,
                    self@.stat,
                ),
                i > 0 ==> has_id(self@.set, trace@[i - 1].spec_id()),
                forall|x: I| #[trigger]
                    self@.set.contains(x) ==> before.set.contains(x) || trace@.take(
                        i as int,
                    ).contains(x),
            decreases trace@.len() - i,
        {
            let item = trace.get(i);
            let ghost set = self@.set;
            let ghost stat = self@.stat;
            proof {
                assert(trace@.take(i + 1).drop_last() =~= trace@.take(i as int));
                assert(trace@.take(i + 1).last() == item);
                if R::deterministic() {
                    assert(Self::model_can_access(
                        Self::model_run(before, trace@.take(i as int)),
                        trace@[i as int],
                    ));
                } else {
                    assert(trace@[i as int].spec_size() <= self@.capacity);
                }
            }
            self.access(item);
            proof {
                let evicted = choose|evicted: Seq<I>| #[trigger]
                    accessed::<S, I>(
                        set,
                        stat,
                        before.capacity,
                        item,
                        evicted,
                        self@.set,
                        self@.stat,
                    );
                lemma_without_all(set, evicted);
                assert forall|x: I| #[trigger] self@.set.contains(x) implies set.contains(x) || x
                    == item by {
                    lemma_contains_with_item(without_all(set, evicted), item, x);
                }
                assert forall|x: I| #[trigger] self@.set.contains(x) implies before.set.contains(x)
                    || trace@.take(i + 1).contains(x) by {
                    if x == item {
                        assert(trace@.take(i + 1)[i as int] == x);
                    } else if !before.set.contains(x) {
                        assert(set.contains(x));
                        let p = choose|p: int| 0 <= p < i && trace@.take(i as int)[p] == x;
                        assert(trace@.take(i + 1)[p] == x);
                    }
                }
                if !R::deterministic() && !R::size_aware() {
                    assert forall|a: int, b: int|
                        0 <= a < self@.set.len() && 0 <= b < trace@.len() implies (
                    #[trigger] self@.set[a]).spec_size() == (#[trigger] trace@[b]).spec_size() by {
                        let x = self@.set[a];
                        assert(self@.set.contains(x));
                        if x != item {
                            assert(set.contains(x));
                            let p = choose|p: int| 0 <= p < set.len() && set[p] == x;
                            assert(set[p].spec_size() == trace@[b].spec_size());
                        } else {
                            assert(trace@[i as int].spec_size() == trace@[b].spec_size());
                        }
                    }
                }
            }
            i += 1;
        }
        proof {
            assert(trace@.take(trace@.len() as int) =~= trace@);
            assert forall|x: I| #[trigger] self@.set.contains(x) implies before.set.contains(x)
                || trace@.contains(x) by {
                if !before.set.contains(x) {
                    let p = choose|p: int| 0 <= p < trace@.len() && trace@[p] == x;
                }
            }
        }
    }

    /// The set of resident items, as a mathematical value.
    pub closed spec fn spec_set(&self) -> ItemSet<I> {
        self.set
    }

    /// The replacement policy, as a mathematical value.
    pub closed spec fn spec_policy(&self) -> R {
        self.replacement_policy
    }

    /// The statistic, as a mathematical value.
    pub closed spec fn spec_stat(&self) -> S {
        self.stat
    }

    /// Get a reference to cache's replacement policy.
    pub fn policy(&self) -> (policy: &R)
        ensures
            *policy == self.spec_policy(),
            policy.model() == self@.policy,
    {
        &self.replacement_policy
    }

    /// Get a reference to cache's statistic.
    pub fn stat(&self) -> (stat: &S)
        ensures
            *stat == self.spec_stat(),
            stat.model() == self@.stat,
    {
        &self.stat
    }

    /// Get a reference to cache's set of items.
    pub fn set(&self) -> (set: &ItemSet<I>)
        ensures
            *set == self.spec_set(),
            set@ == self@.set,
            self.wf() ==> set.wf(),
    {
        &self.set
    }
}

/// The capacity invariant, after every access: with a deterministic policy,
/// the resident items are within the capacity after each of the accesses of a
/// trace.
pub proof fn lemma_capacity_after_every_access<R: ReplacementPolicy<I>, S: Stat<I>, I: Item>(
    model: CacheModel<I, R::Model, S::Model>,
    trace: Seq<I>,
    accesses: int,
)
    requires
        R::deterministic(),
        Cache::<R, S, I>::model_wf(model),
        Cache::<R, S, I>::model_can_run(model, trace),
        0 <= accesses <= trace.len(),
    ensures
        total_size(Cache::<R, S, I>::model_run(model, trace.take(accesses)).set) <= model.capacity,
{
    Cache::<R, S, I>::lemma_can_run_part(model, trace, accesses);
    Cache::<R, S, I>::lemma_run_keeps_capacity(model, trace.take(accesses));
}

/// Replaying a trace is deterministic: two caches with a deterministic policy
/// that are in the same state before they replay the same trace are in the
/// same state after it. They hold the same items and their statistics have
/// gathered the same.
pub proof fn lemma_replay_deterministic<R: ReplacementPolicy<I>, S: Stat<I>, I: Item>(
    first: CacheModel<I, R::Model, S::Model>,
    second: CacheModel<I, R::Model, S::Model>,
    trace: Seq<I>,
    first_after: CacheModel<I, R::Model, S::Model>,
    second_after: CacheModel<I, R::Model, S::Model>,
)
    requires
        R::deterministic(),
        first == second,
        first_after == Cache::<R, S, I>::model_run(first, trace),
        second_after == Cache::<R, S, I>::model_run(second, trace),
    ensures
        first_after.set == second_after.set,
        first_after.stat == second_after.stat,
        first_after == second_after,
{
}

impl<R: ReplacementPolicy<I> + Default, S: Stat<I>, I: Item> Cache<R, S, I> {
    /// Create an empty cache using the default parameters for the replacement
    /// policy.
    #[must_use]
    pub fn new(capacity: u32) -> (cache: Self)
        requires
            forall|policy: R| #[trigger]
                call_ensures(R::default, (), policy) ==> R::tracks(
                    policy.model(),
                    Seq::<I>::empty(),
                ),
        ensures
            cache.wf(),
            cache@.set == Seq::<I>::empty(),
            cache@.capacity == capacity,
            cache@.policy == cache.spec_policy().model(),
            cache@.stat == cache.spec_stat().model(),
            call_ensures(R::default, (), cache.spec_policy()),
            call_ensures(S::default, (), cache.spec_stat()),
    {
        Self {
            set: ItemSet::new(),
            replacement_policy: R::default(),
            capacity,
            stat: S::default(),
        }
    }
}

} // verus!
