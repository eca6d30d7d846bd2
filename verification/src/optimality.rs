//! Why the policy of Belady is optimal.
//!
//! For items of one size, no way of evicting misses less often than evicting
//! the item whose next access lies farthest in the future. This module states
//! what a cache can achieve at all, and proves that the replay of a trace with
//! [`Opt`](crate::replacement_policy::Opt) misses no more often than that.

use crate::cache::{Cache, CacheModel};
use crate::item::Item;
use crate::item_set::{
    distinct_ids, has_id, ids_in_order, ids_of, lemma_with_item, lemma_without_all, lemma_without_id,
    lemma_without_single, total_size, with_item, without_all, without_id,
};
use crate::replacement_policy::opt::{after_access, farthest, lemma_farthest, next_use};
use crate::replacement_policy::{must_evict, Opt, ReplacementPolicy};
use crate::stats::{MissCount, Stat};
use vstd::prelude::*;

verus! {

/// Whether a cache may keep the items `kept` of the items `cache` when it
/// admits one more item: it keeps none that it did not hold, and fewer than
/// its capacity.
pub open spec fn may_keep(capacity: nat, cache: Set<u64>, kept: Set<u64>) -> bool {
    &&& kept.subset_of(cache)
    &&& kept.finite()
    &&& kept.len() < capacity
}

/// Whether a cache of `capacity` items that holds the ids `cache` can serve
/// the accesses `future` with `misses` misses or fewer. The cache admits every
/// item that it misses, and may evict whatever it likes to make room.
pub open spec fn achievable(capacity: nat, cache: Set<u64>, future: Seq<u64>, misses: nat) -> bool
    decreases future.len(),
{
    if future.len() == 0 {
        true
    } else if cache.contains(future.first()) {
        achievable(capacity, cache, future.drop_first(), misses)
    } else {
        misses > 0 && exists|kept: Set<u64>|
            #[trigger] may_keep(capacity, cache, kept) && achievable(
                capacity,
                kept.insert(future.first()),
                future.drop_first(),
                (misses - 1) as nat,
            )
    }
}

/// What can be achieved with some misses can be achieved with one more.
pub proof fn lemma_one_more_miss(capacity: nat, cache: Set<u64>, future: Seq<u64>, misses: nat)
    requires
        achievable(capacity, cache, future, misses),
    ensures
        achievable(capacity, cache, future, misses + 1),
    decreases future.len(),
{
    if future.len() > 0 {
        if cache.contains(future.first()) {
            lemma_one_more_miss(capacity, cache, future.drop_first(), misses);
        } else {
            let kept = choose|kept: Set<u64>|
                #[trigger] may_keep(capacity, cache, kept) && achievable(
                    capacity,
                    kept.insert(future.first()),
                    future.drop_first(),
                    (misses - 1) as nat,
                );
            lemma_one_more_miss(
                capacity,
                kept.insert(future.first()),
                future.drop_first(),
                (misses - 1) as nat,
            );
        }
    }
}

/// A cache that holds more achieves what one that holds less achieves.
pub proof fn lemma_more_is_no_worse(
    capacity: nat,
    less: Set<u64>,
    more: Set<u64>,
    future: Seq<u64>,
    misses: nat,
)
    requires
        less.subset_of(more),
        achievable(capacity, less, future, misses),
    ensures
        achievable(capacity, more, future, misses),
    decreases future.len(),
{
    if future.len() > 0 {
        let next = future.first();
        let rest = future.drop_first();
        if less.contains(next) {
            lemma_more_is_no_worse(capacity, less, more, rest, misses);
        } else {
            let kept = choose|kept: Set<u64>|
                #[trigger] may_keep(capacity, less, kept) && achievable(
                    capacity,
                    kept.insert(next),
                    rest,
                    (misses - 1) as nat,
                );
            if more.contains(next) {
                lemma_more_is_no_worse(
                    capacity,
                    kept.insert(next),
                    more,
                    rest,
                    (misses - 1) as nat,
                );
                lemma_one_more_miss(capacity, more, rest, (misses - 1) as nat);
            } else {
                assert(may_keep(capacity, more, kept));
            }
        }
    }
}

/// A cache that lacks one item of another misses at most once more often.
pub proof fn lemma_one_less(
    capacity: nat,
    cache: Set<u64>,
    extra: u64,
    future: Seq<u64>,
    misses: nat,
)
    requires
        cache.finite(),
        cache.insert(extra).len() <= capacity,
        achievable(capacity, cache.insert(extra), future, misses),
    ensures
        achievable(capacity, cache, future, misses + 1),
    decreases future.len(),
{
    let with_extra = cache.insert(extra);
    if cache.contains(extra) {
        assert(with_extra =~= cache);
        lemma_one_more_miss(capacity, cache, future, misses);
    } else if future.len() > 0 {
        let next = future.first();
        let rest = future.drop_first();
        if cache.contains(next) {
            lemma_one_less(capacity, cache, extra, rest, misses);
        } else if next == extra {
            // the smaller cache misses the item and holds it from then on
            assert(may_keep(capacity, cache, cache));
        } else {
            let kept = choose|kept: Set<u64>|
                #[trigger] may_keep(capacity, with_extra, kept) && achievable(
                    capacity,
                    kept.insert(next),
                    rest,
                    (misses - 1) as nat,
                );
            let kept_less = kept.remove(extra);
            assert(may_keep(capacity, cache, kept_less));
            if kept.contains(extra) {
                assert(kept.insert(next) =~= kept_less.insert(next).insert(extra));
                lemma_one_less(
                    capacity,
                    kept_less.insert(next),
                    extra,
                    rest,
                    (misses - 1) as nat,
                );
            } else {
                assert(kept_less =~= kept);
                lemma_one_more_miss(capacity, kept.insert(next), rest, (misses - 1) as nat);
            }
        }
    }
}

/// The next use of an item that is not accessed first lies one access later
/// than in the rest of the accesses.
pub proof fn lemma_next_use_later(future: Seq<u64>, id: u64)
    requires
        future.len() > 0,
        future.first() != id,
    ensures
        next_use(future, id) == next_use(future.drop_first(), id) + 1,
{
}

/// Of two caches that differ in one item, the one whose item is used sooner
/// achieves what the other achieves.
pub proof fn lemma_sooner_is_no_worse(
    capacity: nat,
    common: Set<u64>,
    sooner: u64,
    later: u64,
    future: Seq<u64>,
    misses: nat,
)
    requires
        common.finite(),
        common.len() + 1 <= capacity,
        sooner != later,
        !common.contains(sooner),
        !common.contains(later),
        next_use(future, sooner) <= next_use(future, later),
        achievable(capacity, common.insert(later), future, misses),
    ensures
        achievable(capacity, common.insert(sooner), future, misses),
    decreases future.len(),
{
    let with_sooner = common.insert(sooner);
    let with_later = common.insert(later);
    if future.len() > 0 {
        let next = future.first();
        let rest = future.drop_first();
        if next == later {
            // then `sooner` would be accessed first as well
            assert(next_use(future, later) == 0);
            assert(false);
        } else if common.contains(next) {
            lemma_next_use_later(future, sooner);
            lemma_next_use_later(future, later);
            lemma_sooner_is_no_worse(capacity, common, sooner, later, rest, misses);
        } else {
            let kept = choose|kept: Set<u64>|
                #[trigger] may_keep(capacity, with_later, kept) && achievable(
                    capacity,
                    kept.insert(next),
                    rest,
                    (misses - 1) as nat,
                );
            let kept_common = kept.remove(later);
            if next == sooner {
                // a hit for the cache with `sooner`
                if kept.contains(later) {
                    assert(kept.insert(next) =~= kept_common.insert(sooner).insert(later));
                    lemma_one_less(
                        capacity,
                        kept_common.insert(sooner),
                        later,
                        rest,
                        (misses - 1) as nat,
                    );
                    lemma_more_is_no_worse(
                        capacity,
                        kept_common.insert(sooner),
                        with_sooner,
                        rest,
                        misses,
                    );
                } else {
                    lemma_more_is_no_worse(
                        capacity,
                        kept.insert(next),
                        with_sooner,
                        rest,
                        (misses - 1) as nat,
                    );
                    lemma_one_more_miss(capacity, with_sooner, rest, (misses - 1) as nat);
                }
            } else {
                lemma_next_use_later(future, sooner);
                lemma_next_use_later(future, later);
                if kept.contains(later) {
                    let kept_sooner = kept_common.insert(sooner);
                    assert(may_keep(capacity, with_sooner, kept_sooner));
                    let shared = kept_common.insert(next);
                    assert(kept.insert(next) =~= shared.insert(later));
                    assert(kept_sooner.insert(next) =~= shared.insert(sooner));
                    lemma_sooner_is_no_worse(
                        capacity,
                        shared,
                        sooner,
                        later,
                        rest,
                        (misses - 1) as nat,
                    );
                } else {
                    assert(may_keep(capacity, with_sooner, kept));
                }
            }
        }
    }
}

/// Whether every item has the size `size`.
pub open spec fn one_size<I: Item>(items: Seq<I>, size: u32) -> bool {
    forall|i: int| 0 <= i < items.len() ==> (#[trigger] items[i]).spec_size() == size
}

/// Whether a cache of `capacity` for items of the size `size` is a cache of
/// `slots` items, as far as `items` items are concerned: `slots` is the number
/// of such items that fit the capacity, and any number above `items` if the
/// items take no room.
pub open spec fn enough_slots(capacity: u32, size: u32, slots: nat, items: nat) -> bool {
    if size == 0 {
        slots > items
    } else {
        slots == capacity as nat / size as nat
    }
}

/// How many of the accesses of `trace` miss in a cache with a deterministic
/// policy that starts as `model`.
pub open spec fn misses_in_run<R: ReplacementPolicy<I>, S: Stat<I>, I: Item>(
    model: CacheModel<I, R::Model, S::Model>,
    trace: Seq<I>,
) -> nat
    decreases trace.len(),
{
    if trace.len() == 0 {
        0
    } else {
        misses_in_run::<R, S, I>(
            Cache::<R, S, I>::model_access(model, trace.first()),
            trace.drop_first(),
        ) + if has_id(model.set, trace.first().spec_id()) {
            0nat
        } else {
            1nat
        }
    }
}

/// Items of one size take as much room as their number times that size.
pub proof fn lemma_one_size_total<I: Item>(items: Seq<I>, size: u32)
    requires
        one_size(items, size),
    ensures
        total_size(items) == size * items.len(),
    decreases items.len(),
{
    if items.len() > 0 {
        assert forall|i: int| 0 <= i < items.len() - 1 implies (#[trigger] items.drop_last()[i]).spec_size()
            == size by {
            assert(items.drop_last()[i] == items[i]);
        }
        lemma_one_size_total(items.drop_last(), size);
        assert(items[items.len() - 1].spec_size() == size);
        assert(size * items.len() == size * (items.len() - 1) + size) by (nonlinear_arith);
    } else {
        assert(size * items.len() == 0) by (nonlinear_arith)
            requires
                items.len() == 0,
        ;
    }
}

/// As many items of a size fit a capacity as the capacity divided by the size.
pub proof fn lemma_slots(capacity: nat, size: nat, items: nat)
    requires
        size > 0,
    ensures
        size * items <= capacity <==> items <= capacity / size,
{
    vstd::arithmetic::div_mod::lemma_fundamental_div_mod(capacity as int, size as int);
    vstd::arithmetic::div_mod::lemma_mod_bound(capacity as int, size as int);
    let slots = capacity / size;
    if items <= slots {
        assert(size * items <= size * slots) by (nonlinear_arith)
            requires
                items <= slots,
        ;
    } else {
        assert(size * items >= size * (slots + 1)) by (nonlinear_arith)
            requires
                items >= slots + 1,
        ;
        assert(size * (slots + 1) == size * slots + size) by (nonlinear_arith);
    }
}

/// Items with distinct ids have as many ids as there are of them.
pub proof fn lemma_ids_of_len<I: Item>(items: Seq<I>)
    requires
        distinct_ids(items),
    ensures
        ids_of(items).finite(),
        ids_of(items).len() == items.len(),
    decreases items.len(),
{
    if items.len() == 0 {
        assert(ids_of(items) =~= Set::<u64>::empty());
    } else {
        let init = items.drop_last();
        let last = items.last();
        assert(distinct_ids(init)) by {
            assert forall|i: int, j: int| 0 <= i < j < init.len() implies (#[trigger] init[i]).spec_id()
                != (#[trigger] init[j]).spec_id() by {
                assert(init[i] == items[i] && init[j] == items[j]);
            }
        }
        lemma_ids_of_len(init);
        assert(!has_id(init, last.spec_id())) by {
            if has_id(init, last.spec_id()) {
                let k = choose|k: int|
                    0 <= k < init.len() && (#[trigger] init[k]).spec_id() == last.spec_id();
                assert(items[k].spec_id() != items[items.len() - 1].spec_id());
            }
        }
        assert(ids_of(items) =~= ids_of(init).insert(last.spec_id())) by {
            assert forall|id: u64| ids_of(items).contains(id) <==> ids_of(init).insert(
                last.spec_id(),
            ).contains(id) by {
                if has_id(items, id) {
                    let k = choose|k: int|
                        0 <= k < items.len() && (#[trigger] items[k]).spec_id() == id;
                    if k < init.len() {
                        assert(init[k].spec_id() == id);
                    }
                }
                if has_id(init, id) {
                    let k = choose|k: int| 0 <= k < init.len() && (#[trigger] init[k]).spec_id() == id;
                    assert(items[k].spec_id() == id);
                }
                if id == last.spec_id() {
                    assert(items[items.len() - 1].spec_id() == id);
                }
            }
        }
    }
}

/// What an access does to the ids in a cache of items of one size, whatever
/// the deterministic policy: a hit changes nothing, and a miss admits the item
/// beside some of the items that were resident, fewer than the cache has
/// slots. An access that evicts finds every slot taken. The cache is sound
/// after the access and holds items of that size.
pub proof fn lemma_access_ids<R: ReplacementPolicy<I>, S: Stat<I>, I: Item>(
    model: CacheModel<I, R::Model, S::Model>,
    item: I,
    size: u32,
    slots: nat,
    later: nat,
) -> (kept: Set<u64>)
    requires
        R::deterministic(),
        Cache::<R, S, I>::model_wf(model),
        one_size(model.set, size),
        item.spec_size() == size,
        size <= model.capacity,
        enough_slots(model.capacity, size, slots, model.set.len() + 1 + later),
    ensures
        Cache::<R, S, I>::model_wf(Cache::<R, S, I>::model_access(model, item)),
        Cache::<R, S, I>::model_access(model, item).capacity == model.capacity,
        one_size(Cache::<R, S, I>::model_access(model, item).set, size),
        enough_slots(
            model.capacity,
            size,
            slots,
            Cache::<R, S, I>::model_access(model, item).set.len() + later,
        ),
        ids_of(model.set).finite(),
        ids_of(model.set).len() == model.set.len(),
        must_evict(model.set, model.capacity, item) ==> model.set.len() == slots,
        has_id(model.set, item.spec_id()) ==> Cache::<R, S, I>::model_access(model, item).set
            == model.set,
        !has_id(model.set, item.spec_id()) ==> may_keep(slots, ids_of(model.set), kept) && ids_of(
            Cache::<R, S, I>::model_access(model, item).set,
        ) == kept.insert(item.spec_id()),
{
    let after = Cache::<R, S, I>::model_access(model, item);
    lemma_ids_of_len(model.set);
    lemma_one_size_total(model.set, size);
    assert(Cache::<R, S, I>::model_can_access(model, item)) by {
        if must_evict(model.set, model.capacity, item) {
            R::lemma_victims_suffice(model.policy, model.set, model.capacity, item);
        }
    }
    Cache::<R, S, I>::lemma_access_keeps_capacity(model, item);
    assert(one_size(after.set, size)) by {
        assert forall|i: int| 0 <= i < after.set.len() implies (#[trigger] after.set[i]).spec_size()
            == size by {
            let x = after.set[i];
            assert(after.set.contains(x));
            if model.set.contains(x) {
                let p = choose|p: int| 0 <= p < model.set.len() && model.set[p] == x;
                assert(model.set[p].spec_size() == size);
            }
        }
    }
    lemma_with_item(model.set, item);
    if must_evict(model.set, model.capacity, item) {
        assert(size > 0) by {
            if size == 0 {
                assert(size * model.set.len() == 0) by (nonlinear_arith)
                    requires
                        size == 0,
                ;
            }
        }
        lemma_slots(model.capacity as nat, size as nat, model.set.len());
        lemma_slots(model.capacity as nat, size as nat, model.set.len() + 1);
        assert(size * (model.set.len() + 1) == size * model.set.len() + size) by (nonlinear_arith);
    }
    if has_id(model.set, item.spec_id()) {
        Set::empty()
    } else {
        let rest = if must_evict(model.set, model.capacity, item) {
            without_all(
                model.set,
                R::model_victims(model.policy, model.set, model.capacity, item),
            )
        } else {
            model.set
        };
        if must_evict(model.set, model.capacity, item) {
            let victims = R::model_victims(model.policy, model.set, model.capacity, item);
            R::lemma_replace_tracks(model.policy, model.set, model.capacity, item);
            lemma_without_all(model.set, victims);
            crate::item_set::lemma_without_all_len(model.set, victims);
        }
        lemma_with_item(rest, item);
        lemma_ids_of_len(rest);
        lemma_ids_of_len(after.set);
        lemma_one_size_total(after.set, size);
        assert(after.set == rest.push(item));
        assert(ids_of(after.set) =~= ids_of(rest).insert(item.spec_id()));
        assert(ids_of(rest).subset_of(ids_of(model.set)));
        if size > 0 {
            lemma_slots(model.capacity as nat, size as nat, after.set.len());
        }
        ids_of(rest)
    }
}

/// The ids of a trace without its first access.
pub proof fn lemma_ids_rest<I: Item>(trace: Seq<I>, size: u32)
    requires
        trace.len() > 0,
    ensures
        ids_in_order(trace).first() == trace.first().spec_id(),
        ids_in_order(trace).drop_first() == ids_in_order(trace.drop_first()),
        one_size(trace, size) ==> one_size(trace.drop_first(), size) && trace.first().spec_size()
            == size,
{
    assert(ids_in_order(trace).drop_first() =~= ids_in_order(trace.drop_first()));
    if one_size(trace, size) {
        assert forall|i: int| 0 <= i < trace.drop_first().len() implies (
        #[trigger] trace.drop_first()[i]).spec_size() == size by {
            assert(trace.drop_first()[i] == trace[i + 1]);
        }
        assert(trace[0].spec_size() == size);
    }
}

/// The replay of a trace of items of one size by a cache with a deterministic
/// policy is one of the ways to serve the trace: what it misses is achievable.
pub proof fn lemma_run_is_achievable<R: ReplacementPolicy<I>, S: Stat<I>, I: Item>(
    model: CacheModel<I, R::Model, S::Model>,
    trace: Seq<I>,
    size: u32,
    slots: nat,
)
    requires
        R::deterministic(),
        Cache::<R, S, I>::model_wf(model),
        one_size(model.set, size),
        one_size(trace, size),
        size <= model.capacity,
        enough_slots(model.capacity, size, slots, model.set.len() + trace.len()),
    ensures
        achievable(
            slots,
            ids_of(model.set),
            ids_in_order(trace),
            misses_in_run::<R, S, I>(model, trace),
        ),
    decreases trace.len(),
{
    if trace.len() > 0 {
        let item = trace.first();
        let after = Cache::<R, S, I>::model_access(model, item);
        let later = (trace.len() - 1) as nat;
        lemma_ids_rest(trace, size);
        let kept = lemma_access_ids::<R, S, I>(model, item, size, slots, later);
        lemma_run_is_achievable::<R, S, I>(after, trace.drop_first(), size, slots);
        if !has_id(model.set, item.spec_id()) {
            assert(may_keep(slots, ids_of(model.set), kept));
        }
    }
}

/// A set that has fewer items than a set that includes it lacks one of them.
pub proof fn lemma_lacks_one(part: Set<u64>, whole: Set<u64>) -> (lacking: u64)
    requires
        whole.finite(),
        part.subset_of(whole),
        part.len() < whole.len(),
    ensures
        whole.contains(lacking),
        !part.contains(lacking),
{
    if whole.subset_of(part) {
        assert(whole =~= part);
    }
    choose|id: u64| whole.contains(id) && !part.contains(id)
}

/// The policy of Belady is optimal: where the trace that is replayed is the
/// future that the policy knows, the replay misses no more often than any way
/// to serve the trace does.
pub proof fn lemma_opt_is_optimal<S: Stat<I>, I: Item>(
    model: CacheModel<I, Seq<u64>, S::Model>,
    trace: Seq<I>,
    size: u32,
    slots: nat,
    misses: nat,
)
    requires
        Cache::<Opt, S, I>::model_wf(model),
        one_size(model.set, size),
        one_size(trace, size),
        size <= model.capacity,
        enough_slots(model.capacity, size, slots, model.set.len() + trace.len()),
        model.policy == ids_in_order(trace),
        achievable(slots, ids_of(model.set), ids_in_order(trace), misses),
    ensures
        misses_in_run::<Opt, S, I>(model, trace) <= misses,
    decreases trace.len(),
{
    if trace.len() > 0 {
        let item = trace.first();
        let next = item.spec_id();
        let rest = trace.drop_first();
        let future = ids_in_order(rest);
        let cache = ids_of(model.set);
        let after = Cache::<Opt, S, I>::model_access(model, item);
        let later = (trace.len() - 1) as nat;
        lemma_ids_rest(trace, size);
        let admitted = lemma_access_ids::<Opt, S, I>(model, item, size, slots, later);
        assert(after.policy == future);
        if has_id(model.set, next) {
            lemma_opt_is_optimal::<S, I>(after, rest, size, slots, misses);
        } else {
            let kept = choose|kept: Set<u64>|
                #[trigger] may_keep(slots, cache, kept) && achievable(
                    slots,
                    kept.insert(next),
                    future,
                    (misses - 1) as nat,
                );
            if must_evict(model.set, model.capacity, item) {
                lemma_farthest(model.set, future);
                let victim = model.set[farthest(model.set, future)];
                let later_used = victim.spec_id();
                assert(has_id(model.set, later_used));
                let left = without_id(model.set, later_used);
                lemma_without_single(model.set, victim);
                lemma_without_id(model.set, later_used);
                lemma_with_item(left, item);
                assert(after_access(model.policy) == future);
                assert(after.set == with_item(left, item));
                assert(ids_of(after.set) =~= cache.remove(later_used).insert(next)) by {
                    assert forall|id: u64| ids_of(after.set).contains(id) <==> cache.remove(
                        later_used,
                    ).insert(next).contains(id) by {
                        assert(has_id(with_item(left, item), id) <==> (has_id(left, id) || id
                            == next));
                        if id != later_used {
                            assert(has_id(left, id) <==> has_id(model.set, id));
                        }
                    }
                }
                let sooner = lemma_lacks_one(kept, cache);
                lemma_more_is_no_worse(
                    slots,
                    kept.insert(next),
                    cache.remove(sooner).insert(next),
                    future,
                    (misses - 1) as nat,
                );
                if sooner != later_used {
                    let common = cache.remove(sooner).remove(later_used).insert(next);
                    assert(common.insert(later_used) =~= cache.remove(sooner).insert(next));
                    assert(common.insert(sooner) =~= cache.remove(later_used).insert(next));
                    let j = choose|j: int|
                        0 <= j < model.set.len() && (#[trigger] model.set[j]).spec_id() == sooner;
                    lemma_sooner_is_no_worse(
                        slots,
                        common,
                        sooner,
                        later_used,
                        future,
                        (misses - 1) as nat,
                    );
                }
            } else {
                lemma_with_item(model.set, item);
                assert(ids_of(after.set) =~= cache.insert(next)) by {
                    assert forall|id: u64| ids_of(after.set).contains(id) <==> cache.insert(
                        next,
                    ).contains(id) by {
                        assert(has_id(with_item(model.set, item), id) <==> (has_id(model.set, id)
                            || id == next));
                    }
                }
                lemma_more_is_no_worse(
                    slots,
                    kept.insert(next),
                    cache.insert(next),
                    future,
                    (misses - 1) as nat,
                );
            }
            lemma_opt_is_optimal::<S, I>(after, rest, size, slots, (misses - 1) as nat);
        }
    }
}

/// The policy of Belady never performs worse than another: a cache with the
/// optimal policy that replays the trace it was made for misses no more often
/// than a cache with any deterministic policy that starts with the same items
/// and the same capacity and replays the same trace. This holds where the
/// items in the cache and in the trace all have one size, and fit the
/// capacity.
pub proof fn lemma_opt_misses_least<R: ReplacementPolicy<I>, S: Stat<I>, I: Item>(
    optimal: CacheModel<I, Seq<u64>, S::Model>,
    other: CacheModel<I, R::Model, S::Model>,
    trace: Seq<I>,
)
    requires
        R::deterministic(),
        Cache::<Opt, S, I>::model_wf(optimal),
        Cache::<R, S, I>::model_wf(other),
        Cache::<Opt, S, I>::model_fits_by_size(optimal, trace),
        optimal.policy == ids_in_order(trace),
        optimal.set == other.set,
        optimal.capacity == other.capacity,
    ensures
        misses_in_run::<Opt, S, I>(optimal, trace) <= misses_in_run::<R, S, I>(other, trace),
{
    if trace.len() > 0 {
        let size = trace[0].spec_size();
        let slots: nat = if size == 0 {
            optimal.set.len() + trace.len() + 1
        } else {
            optimal.capacity as nat / size as nat
        };
        assert(one_size(trace, size));
        assert(one_size(optimal.set, size));
        lemma_run_is_achievable::<R, S, I>(other, trace, size, slots);
        lemma_opt_is_optimal::<S, I>(
            optimal,
            trace,
            size,
            slots,
            misses_in_run::<R, S, I>(other, trace),
        );
    }
}

/// The count `count` after `more` more misses: the sum, and `u32::MAX` where
/// the sum is larger.
pub open spec fn counted_more(count: u32, more: nat) -> u32 {
    if count + more > u32::MAX {
        u32::MAX
    } else {
        (count + more) as u32
    }
}

/// A replay is the first access and then the replay of the rest.
pub proof fn lemma_run_from_first<R: ReplacementPolicy<I>, S: Stat<I>, I: Item>(
    model: CacheModel<I, R::Model, S::Model>,
    trace: Seq<I>,
)
    requires
        trace.len() > 0,
    ensures
        Cache::<R, S, I>::model_run(model, trace) == Cache::<R, S, I>::model_run(
            Cache::<R, S, I>::model_access(model, trace.first()),
            trace.drop_first(),
        ),
    decreases trace.len(),
{
    let after = Cache::<R, S, I>::model_access(model, trace.first());
    if trace.len() == 1 {
        assert(trace.drop_last() =~= Seq::<I>::empty());
        assert(trace.drop_first() =~= Seq::<I>::empty());
        assert(trace.last() == trace.first());
        assert(Cache::<R, S, I>::model_run(model, trace.drop_last()) == model);
    } else {
        lemma_run_from_first::<R, S, I>(model, trace.drop_last());
        assert(trace.drop_last().first() == trace.first());
        assert(trace.drop_last().drop_first() =~= trace.drop_first().drop_last());
        assert(trace.drop_first().last() == trace.last());
    }
}

/// A miss counter counts the misses of a replay.
pub proof fn lemma_miss_count<R: ReplacementPolicy<I>, I: Item>(
    model: CacheModel<I, R::Model, u32>,
    trace: Seq<I>,
)
    ensures
        Cache::<R, MissCount, I>::model_run(model, trace).stat == counted_more(
            model.stat,
            misses_in_run::<R, MissCount, I>(model, trace),
        ),
    decreases trace.len(),
{
    if trace.len() > 0 {
        let after = Cache::<R, MissCount, I>::model_access(model, trace.first());
        lemma_run_from_first::<R, MissCount, I>(model, trace);
        lemma_miss_count::<R, I>(after, trace.drop_first());
    }
}

/// The policy of Belady never performs worse than another, by the count of
/// the misses: of two caches that count their misses and start with the same
/// count, the same items and the same capacity, the one with the optimal
/// policy for the trace has counted no more misses after the replay of the
/// trace than the one with any deterministic policy. This holds where the
/// items in the cache and in the trace all have one size, and fit the
/// capacity.
pub proof fn lemma_opt_counts_fewest<R: ReplacementPolicy<I>, I: Item>(
    optimal: CacheModel<I, Seq<u64>, u32>,
    other: CacheModel<I, R::Model, u32>,
    trace: Seq<I>,
)
    requires
        R::deterministic(),
        Cache::<Opt, MissCount, I>::model_wf(optimal),
        Cache::<R, MissCount, I>::model_wf(other),
        Cache::<Opt, MissCount, I>::model_fits_by_size(optimal, trace),
        optimal.policy == ids_in_order(trace),
        optimal.set == other.set,
        optimal.stat == other.stat,
        optimal.capacity == other.capacity,
    ensures
        Cache::<Opt, MissCount, I>::model_run(optimal, trace).stat <= Cache::<
            R,
            MissCount,
            I,
        >::model_run(other, trace).stat,
{
    lemma_opt_misses_least::<R, MissCount, I>(optimal, other, trace);
    lemma_miss_count::<Opt, I>(optimal, trace);
    lemma_miss_count::<R, I>(other, trace);
}

} // verus!
