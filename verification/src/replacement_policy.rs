//! Implementations of cache replacement policies.

use crate::item::Item;
use crate::item_set::{
    distinct_ids, has_id, items_of, lemma_with_item, lemma_without_all, lemma_without_all_size,
    position_of, total_size, with_item, without_all, ItemSet,
};
use vstd::prelude::*;

pub mod credits;
pub mod fifo;
pub mod landlord;
pub mod lfu;
pub mod lru;
pub mod mru;
pub mod opt;
pub mod random;

pub use fifo::Fifo;
pub use landlord::Landlord;
pub use lfu::Lfu;
pub use lru::Lru;
pub use mru::Mru;
pub use opt::Opt;
pub use random::Rand;

verus! {

/// The room that has to be freed before `next` fits beside the items of `set`.
pub open spec fn room_needed<I: Item>(set: Seq<I>, capacity: u32, next: I) -> int {
    total_size(set) + next.spec_size() - capacity
}

/// Whether a cache of `capacity` that holds `set` has to evict before it can
/// admit `next`: the item is not resident and does not fit.
pub open spec fn must_evict<I: Item>(set: Seq<I>, capacity: u32, next: I) -> bool {
    !has_id(set, next.spec_id()) && room_needed(set, capacity, next) > 0
}

/// An abstracted cache replacement policy.
///
/// A policy keeps its own bookkeeping, whose mathematical model is `Model`. A
/// deterministic policy is described by three functions on models:
/// `model_update`, `model_replace` and `model_victims`.
pub trait ReplacementPolicy<I: Item>: Sized {
    /// The mathematical model of the bookkeeping.
    type Model;

    /// The model of this policy's bookkeeping.
    spec fn model(&self) -> Self::Model;

    /// Whether the bookkeeping `model` is sound and knows every item of
    /// `resident`. A policy with no bookkeeping tracks every set.
    spec fn tracks(model: Self::Model, resident: Seq<I>) -> bool;

    /// Whether what the policy does is a function of its model and arguments.
    spec fn deterministic() -> bool;

    /// Whether the policy evicts as many items as the incoming item needs. A
    /// policy that is not size-aware evicts by a rule that ignores sizes.
    spec fn size_aware() -> bool;

    /// The model after an access to `next` that evicts nothing.
    spec fn model_update(model: Self::Model, set: Seq<I>, capacity: u32, next: I) -> Self::Model;

    /// The model after an access to `next` that evicts.
    spec fn model_replace(model: Self::Model, set: Seq<I>, capacity: u32, next: I) -> Self::Model;

    /// The items that an access to `next` evicts.
    spec fn model_victims(model: Self::Model, set: Seq<I>, capacity: u32, next: I) -> Seq<I>;

    /// A deterministic policy frees enough room if it is size-aware, or if no
    /// resident item is smaller than the incoming one.
    proof fn lemma_victims_suffice(model: Self::Model, set: Seq<I>, capacity: u32, next: I)
        requires
            Self::tracks(model, set),
            distinct_ids(set),
            total_size(set) <= capacity,
            next.spec_size() <= capacity,
            must_evict(set, capacity, next),
            Self::size_aware() || forall|i: int|
                0 <= i < set.len() ==> (#[trigger] set[i]).spec_size() >= next.spec_size(),
        ensures
            Self::deterministic() ==> total_size(Self::model_victims(model, set, capacity, next))
                >= room_needed(set, capacity, next),
    ;

    /// After an access that evicts nothing, a deterministic policy knows the
    /// accessed item beside those it knew.
    proof fn lemma_update_tracks(model: Self::Model, set: Seq<I>, capacity: u32, next: I)
        requires
            Self::tracks(model, set),
            distinct_ids(set),
        ensures
            Self::deterministic() ==> Self::tracks(
                Self::model_update(model, set, capacity, next),
                with_item(set, next),
            ),
    ;

    /// The victims of a deterministic policy are distinct resident items, at
    /// least one, and after the eviction the policy knows the items that are
    /// left and the accessed one.
    proof fn lemma_replace_tracks(model: Self::Model, set: Seq<I>, capacity: u32, next: I)
        requires
            Self::tracks(model, set),
            distinct_ids(set),
            total_size(set) <= capacity,
            next.spec_size() <= capacity,
            must_evict(set, capacity, next),
        ensures
            Self::deterministic() ==> distinct_ids(
                Self::model_victims(model, set, capacity, next),
            ),
            Self::deterministic() ==> Self::model_victims(model, set, capacity, next).len() > 0,
            Self::deterministic() ==> items_of(
                Self::model_victims(model, set, capacity, next),
                set,
            ),
            Self::deterministic() ==> Self::tracks(
                Self::model_replace(model, set, capacity, next),
                with_item(
                    without_all(set, Self::model_victims(model, set, capacity, next)),
                    next,
                ),
            ),
    ;

    /// Update the replacement policy's state, without evicting an item.
    fn update_state(&mut self, set: &ItemSet<I>, capacity: u32, next: I)
        requires
            Self::tracks(old(self).model(), set@),
            set.wf(),
        ensures
            Self::tracks(final(self).model(), with_item(set@, next)),
            Self::deterministic() ==> final(self).model() == Self::model_update(
                old(self).model(),
                set@,
                capacity,
                next,
            ),
    ;

    /// Return the items to be evicted to make room for `next`, none of which is
    /// `next`. Updates the state for the access to `next` as well.
    ///
    /// It is called only when eviction is required. A deterministic policy
    /// asks that the victims of its rule free enough room. One that is not
    /// deterministic asks, unless it is size-aware, that any resident item
    /// does.
    fn replace(&mut self, set: &ItemSet<I>, capacity: u32, next: I) -> (evicted: ItemSet<I>)
        requires
            Self::tracks(old(self).model(), set@),
            set.wf(),
            total_size(set@) <= capacity,
            next.spec_size() <= capacity,
            must_evict(set@, capacity, next),
            Self::deterministic() ==> total_size(
                Self::model_victims(old(self).model(), set@, capacity, next),
            ) >= room_needed(set@, capacity, next),
            !Self::deterministic() && !Self::size_aware() ==> forall|i: int|
                0 <= i < set@.len() ==> (#[trigger] set@[i]).spec_size() >= room_needed(
                    set@,
                    capacity,
                    next,
                ),
        ensures
            evicted.wf(),
            evicted@.len() > 0,
            items_of(evicted@, set@),
            total_size(evicted@) >= room_needed(set@, capacity, next),
            Self::tracks(final(self).model(), with_item(without_all(set@, evicted@), next)),
            Self::deterministic() ==> final(self).model() == Self::model_replace(
                old(self).model(),
                set@,
                capacity,
                next,
            ),
            Self::deterministic() ==> evicted@ == Self::model_victims(
                old(self).model(),
                set@,
                capacity,
                next,
            ),
    ;
}

/// A policy that can also narrow a set of equally ranked candidates down to
/// those that are to be evicted.
pub trait Tiebreaker<I: Item>: ReplacementPolicy<I> {
    /// The candidates that `tiebreak` picks.
    spec fn model_tiebreak(model: Self::Model, from: Seq<I>, size_to_free: u32) -> Seq<I>;

    /// A tiebreaker that knows a set of items knows each part of it.
    proof fn lemma_tracks_part(model: Self::Model, whole: Seq<I>, part: Seq<I>)
        requires
            Self::tracks(model, whole),
            forall|id: u64| has_id(part, id) ==> has_id(whole, id),
        ensures
            Self::tracks(model, part),
    ;

    /// What the candidates picked are: distinct candidates, at least one, that
    /// free `size_to_free` unless they are all the candidates, and that stop
    /// freeing it without the last of them.
    proof fn lemma_model_tiebreak(model: Self::Model, from: Seq<I>, size_to_free: u32)
        requires
            Self::tracks(model, from),
            distinct_ids(from),
            from.len() > 0,
            size_to_free > 0,
        ensures
            Self::deterministic() ==> distinct_ids(Self::model_tiebreak(model, from, size_to_free)),
            Self::deterministic() ==> Self::model_tiebreak(model, from, size_to_free).len() > 0,
            Self::deterministic() ==> items_of(
                Self::model_tiebreak(model, from, size_to_free),
                from,
            ),
            Self::deterministic() ==> (total_size(Self::model_tiebreak(model, from, size_to_free))
                >= size_to_free || forall|id: u64|
                has_id(from, id) ==> has_id(Self::model_tiebreak(model, from, size_to_free), id)),
            Self::deterministic() ==> total_size(
                Self::model_tiebreak(model, from, size_to_free).drop_last(),
            ) < size_to_free,
    ;

    /// Pick the items to evict among the candidates `from`: read in the
    /// tiebreaker's own order, the fewest that free `size_to_free`, and all of
    /// them if even that is not enough.
    fn tiebreak(&mut self, from: &ItemSet<I>, size_to_free: u32) -> (chosen: ItemSet<I>)
        requires
            Self::tracks(old(self).model(), from@),
            from.wf(),
            from@.len() > 0,
            size_to_free > 0,
        ensures
            chosen.wf(),
            chosen@.len() > 0,
            items_of(chosen@, from@),
            total_size(chosen@) >= size_to_free || forall|id: u64|
                has_id(from@, id) ==> has_id(chosen@, id),
            total_size(chosen@.drop_last()) < size_to_free,
            final(self).model() == old(self).model(),
            Self::deterministic() ==> chosen@ == Self::model_tiebreak(
                old(self).model(),
                from@,
                size_to_free,
            ),
    ;
}

/// The items of `set` whose ids occur in `order`, in the order in which `order`
/// names them.
pub open spec fn residents_in_order<I: Item>(order: Seq<I>, set: Seq<I>) -> Seq<I>
    decreases order.len(),
{
    if order.len() == 0 {
        Seq::empty()
    } else if has_id(set, order.last().spec_id()) {
        residents_in_order(order.drop_last(), set).push(
            set[position_of(set, order.last().spec_id())],
        )
    } else {
        residents_in_order(order.drop_last(), set)
    }
}

/// The shortest prefix of `s` whose sizes add up to `needed` or more, and all
/// of `s` if there is none.
pub open spec fn covering_prefix<I: Item>(s: Seq<I>, needed: int) -> Seq<I>
    decreases s.len(),
{
    if s.len() == 0 {
        s
    } else if total_size(s.drop_last()) >= needed {
        covering_prefix(s.drop_last(), needed)
    } else {
        s
    }
}

/// What `residents_in_order` holds: items of `set`, one for each id of `order`
/// that is resident, with distinct ids if `order` has distinct ids.
pub proof fn lemma_residents_in_order<I: Item>(order: Seq<I>, set: Seq<I>)
    requires
        distinct_ids(order),
        distinct_ids(set),
    ensures
        distinct_ids(residents_in_order(order, set)),
        items_of(residents_in_order(order, set), set),
        forall|id: u64|
            #![trigger has_id(residents_in_order(order, set), id)]
            #![trigger has_id(order, id)]
            #![trigger has_id(set, id)]
            has_id(residents_in_order(order, set), id) <==> (has_id(order, id) && has_id(set, id)),
        residents_in_order(order, set).len() <= order.len(),
    decreases order.len(),
{
    let r = residents_in_order(order, set);
    if order.len() > 0 {
        let init = order.drop_last();
        let last_id = order.last().spec_id();
        let ri = residents_in_order(init, set);
        assert(distinct_ids(init)) by {
            assert forall|i: int, j: int| 0 <= i < j < init.len() implies (#[trigger] init[i]).spec_id()
                != (#[trigger] init[j]).spec_id() by {
                assert(init[i] == order[i] && init[j] == order[j]);
            }
        }
        lemma_residents_in_order(init, set);
        assert(!has_id(init, last_id)) by {
            if has_id(init, last_id) {
                let k = choose|k: int| 0 <= k < init.len() && (#[trigger] init[k]).spec_id() == last_id;
                assert(order[k].spec_id() != order[order.len() - 1].spec_id());
            }
        }
        assert forall|id: u64| has_id(order, id) <==> (has_id(init, id) || id == last_id) by {
            if has_id(order, id) {
                let k = choose|k: int| 0 <= k < order.len() && (#[trigger] order[k]).spec_id() == id;
                if k < init.len() {
                    assert(init[k].spec_id() == id);
                }
            }
            if has_id(init, id) {
                let k = choose|k: int| 0 <= k < init.len() && (#[trigger] init[k]).spec_id() == id;
                assert(order[k].spec_id() == id);
            }
            if id == last_id {
                assert(order[order.len() - 1].spec_id() == id);
            }
        }
        if has_id(set, last_id) {
            let p = position_of(set, last_id);
            let x = set[p];
            assert(r == ri.push(x));
            assert(x.spec_id() == last_id);
            assert forall|i: int, j: int| 0 <= i < j < r.len() implies (#[trigger] r[i]).spec_id() != (
            #[trigger] r[j]).spec_id() by {
                if j == ri.len() {
                    assert(r[i] == ri[i]);
                    assert(has_id(ri, ri[i].spec_id()));
                } else {
                    assert(r[i] == ri[i] && r[j] == ri[j]);
                }
            }
            assert forall|i: int| 0 <= i < r.len() implies set.contains(#[trigger] r[i]) by {
                if i < ri.len() {
                    assert(r[i] == ri[i]);
                } else {
                    assert(set[p] == r[i]);
                }
            }
            assert forall|id: u64| has_id(r, id) <==> (has_id(order, id) && has_id(set, id)) by {
                if has_id(r, id) {
                    let k = choose|k: int| 0 <= k < r.len() && (#[trigger] r[k]).spec_id() == id;
                    if k < ri.len() {
                        assert(ri[k].spec_id() == id);
                    }
                }
                if has_id(ri, id) {
                    let k = choose|k: int| 0 <= k < ri.len() && (#[trigger] ri[k]).spec_id() == id;
                    assert(r[k].spec_id() == id);
                }
                if id == last_id {
                    assert(r[r.len() - 1].spec_id() == id);
                }
            }
        }
    }
}

/// The sizes of a sequence add up to no less than any one of them.
pub proof fn lemma_total_size_item<I: Item>(s: Seq<I>, i: int)
    requires
        0 <= i < s.len(),
    ensures
        total_size(s) >= s[i].spec_size(),
    decreases s.len(),
{
    if i < s.len() - 1 {
        lemma_total_size_item(s.drop_last(), i);
    }
}

/// The residents named by a prefix of `order` are a prefix of those named by
/// `order`.
pub proof fn lemma_residents_in_order_prefix<I: Item>(order: Seq<I>, set: Seq<I>, n: int)
    requires
        0 <= n <= order.len(),
    ensures
        residents_in_order(order.take(n), set).len() <= residents_in_order(order, set).len(),
        residents_in_order(order.take(n), set) == residents_in_order(order, set).take(
            residents_in_order(order.take(n), set).len() as int,
        ),
    decreases order.len() - n,
{
    if n == order.len() {
        assert(order.take(n) =~= order);
        assert(residents_in_order(order, set).take(residents_in_order(order, set).len() as int)
            =~= residents_in_order(order, set));
    } else {
        let init = order.drop_last();
        assert(init.take(n) =~= order.take(n));
        lemma_residents_in_order_prefix(init, set, n);
        let part = residents_in_order(order.take(n), set);
        let ri = residents_in_order(init, set);
        let r = residents_in_order(order, set);
        assert(part =~= r.take(part.len() as int)) by {
            if has_id(set, order.last().spec_id()) {
                assert(r == ri.push(set[position_of(set, order.last().spec_id())]));
                assert(ri.take(part.len() as int) =~= r.take(part.len() as int));
            }
        }
    }
}

/// The sizes of a prefix add up to no more than those of the whole.
pub proof fn lemma_total_size_take<I: Item>(s: Seq<I>, n: int)
    requires
        0 <= n <= s.len(),
    ensures
        total_size(s.take(n)) <= total_size(s),
    decreases s.len() - n,
{
    if n == s.len() {
        assert(s.take(n) =~= s);
    } else {
        assert(s.drop_last().take(n) =~= s.take(n));
        lemma_total_size_take(s.drop_last(), n);
    }
}

/// A prefix that covers `needed` and stops covering it without its last item
/// is the covering prefix.
pub proof fn lemma_covering_prefix_found<I: Item>(s: Seq<I>, needed: int, n: int)
    requires
        0 < n <= s.len(),
        total_size(s.take(n)) >= needed,
        total_size(s.take(n - 1)) < needed,
    ensures
        covering_prefix(s, needed) == s.take(n),
    decreases s.len() - n,
{
    if n == s.len() {
        assert(s.take(n) =~= s);
        assert(s.take(n - 1) =~= s.drop_last());
    } else {
        let init = s.drop_last();
        assert(init.take(n) =~= s.take(n));
        assert(init.take(n - 1) =~= s.take(n - 1));
        lemma_total_size_take(init, n);
        lemma_covering_prefix_found(init, needed, n);
    }
}

/// Where nothing short of all of `s` covers `needed`, the covering prefix is
/// `s`.
pub proof fn lemma_covering_prefix_all<I: Item>(s: Seq<I>, needed: int)
    requires
        s.len() == 0 || total_size(s.drop_last()) < needed,
    ensures
        covering_prefix(s, needed) == s,
{
}

/// What the covering prefix is: a prefix, not empty where `s` is not and
/// something is needed, that covers `needed` unless it is all of `s`, and that
/// stops covering it without its last item.
pub proof fn lemma_covering_prefix<I: Item>(s: Seq<I>, needed: int)
    ensures
        covering_prefix(s, needed).len() <= s.len(),
        covering_prefix(s, needed) == s.take(covering_prefix(s, needed).len() as int),
        s.len() > 0 && needed > 0 ==> covering_prefix(s, needed).len() > 0,
        total_size(covering_prefix(s, needed)) >= needed || covering_prefix(s, needed) == s,
        covering_prefix(s, needed).len() > 0 ==> total_size(
            covering_prefix(s, needed).drop_last(),
        ) < needed,
    decreases s.len(),
{
    let c = covering_prefix(s, needed);
    if s.len() == 0 {
        assert(s.take(0) =~= s);
    } else if total_size(s.drop_last()) >= needed {
        let init = s.drop_last();
        lemma_covering_prefix(init, needed);
        assert(init.take(c.len() as int) =~= s.take(c.len() as int));
    } else {
        assert(s.take(s.len() as int) =~= s);
    }
}

/// Where `order` names every resident item, the residents in its order take
/// the room of the whole set.
pub proof fn lemma_residents_cover<I: Item>(order: Seq<I>, set: Seq<I>)
    requires
        distinct_ids(order),
        distinct_ids(set),
        forall|id: u64| has_id(set, id) ==> has_id(order, id),
    ensures
        total_size(residents_in_order(order, set)) == total_size(set),
{
    let r = residents_in_order(order, set);
    lemma_residents_in_order(order, set);
    lemma_without_all_size(set, r);
    lemma_without_all(set, r);
    let rest = without_all(set, r);
    if rest.len() > 0 {
        assert(has_id(rest, rest[0].spec_id()));
    }
}

/// The first item of `s` as a sequence of its own; empty if `s` is.
pub open spec fn first_of<I: Item>(s: Seq<I>) -> Seq<I> {
    if s.len() > 0 {
        seq![s.first()]
    } else {
        Seq::empty()
    }
}

/// The last item of `s` as a sequence of its own; empty if `s` is.
pub open spec fn last_of<I: Item>(s: Seq<I>) -> Seq<I> {
    if s.len() > 0 {
        seq![s.last()]
    } else {
        Seq::empty()
    }
}

/// The set that holds `item` and nothing else.
pub fn single<I: Item>(item: I) -> (set: ItemSet<I>)
    ensures
        set.wf(),
        set@ == seq![item],
{
    let mut set: ItemSet<I> = ItemSet::new();
    proof {
        assert(Seq::<I>::empty().push(item) =~= seq![item]);
    }
    set.insert(item);
    set
}

/// The first item of `set` that `order` names, if it names any.
pub fn first_resident<I: Item>(order: &ItemSet<I>, set: &ItemSet<I>) -> (found: Option<I>)
    requires
        order.wf(),
        set.wf(),
    ensures
        match found {
            Some(item) => residents_in_order(order@, set@).len() > 0 && item == residents_in_order(
                order@,
                set@,
            ).first(),
            None => residents_in_order(order@, set@).len() == 0,
        },
{
    let mut i: usize = 0;
    proof {
        assert(order@.take(0) =~= Seq::<I>::empty());
    }
    while i < order.len()
        invariant
            set.wf(),
            i <= order@.len(),
            residents_in_order(order@.take(i as int), set@).len() == 0,
        decreases order@.len() - i,
    {
        proof {
            assert(order@.take(i + 1).drop_last() =~= order@.take(i as int));
            assert(order@.take(i + 1).last() == order@[i as int]);
        }
        match set.position(order.get(i).id()) {
            Some(p) => {
                proof {
                    lemma_residents_in_order_prefix(order@, set@, i + 1);
                    let part = residents_in_order(order@.take(i + 1), set@);
                    assert(part[0] == set@[p as int]);
                }
                return Some(set.get(p));
            },
            None => {},
        }
        i += 1;
    }
    proof {
        assert(order@.take(order@.len() as int) =~= order@);
    }
    None
}

/// The last item of `set` that `order` names, if it names any.
pub fn last_resident<I: Item>(order: &ItemSet<I>, set: &ItemSet<I>) -> (found: Option<I>)
    requires
        order.wf(),
        set.wf(),
    ensures
        match found {
            Some(item) => residents_in_order(order@, set@).len() > 0 && item == residents_in_order(
                order@,
                set@,
            ).last(),
            None => residents_in_order(order@, set@).len() == 0,
        },
{
    let mut i: usize = order.len();
    proof {
        assert(order@.take(order@.len() as int) =~= order@);
    }
    while i > 0
        invariant
            set.wf(),
            i <= order@.len(),
            residents_in_order(order@, set@) == residents_in_order(order@.take(i as int), set@),
        decreases i,
    {
        proof {
            assert(order@.take(i as int).drop_last() =~= order@.take(i - 1));
            assert(order@.take(i as int).last() == order@[i - 1]);
        }
        match set.position(order.get(i - 1).id()) {
            Some(p) => {
                return Some(set.get(p));
            },
            None => {},
        }
        i -= 1;
    }
    proof {
        assert(order@.take(0) =~= Seq::<I>::empty());
    }
    None
}

/// The items of `set` that `order` names, in its order, up to the first that
/// brings their sizes to `needed`.
pub fn covering_residents<I: Item>(order: &ItemSet<I>, set: &ItemSet<I>, needed: u32) -> (chosen:
    ItemSet<I>)
    requires
        order.wf(),
        set.wf(),
        needed > 0,
    ensures
        chosen.wf(),
        chosen@ == covering_prefix(residents_in_order(order@, set@), needed as int),
{
    let mut chosen: ItemSet<I> = ItemSet::new();
    let mut freed: u64 = 0;
    let mut i: usize = 0;
    proof {
        assert(order@.take(0) =~= Seq::<I>::empty());
    }
    while i < order.len() && freed < needed as u64
        invariant
            order.wf(),
            set.wf(),
            needed > 0,
            i <= order@.len(),
            chosen.wf(),
            chosen@ == residents_in_order(order@.take(i as int), set@),
            freed == total_size(chosen@),
            freed >= needed ==> chosen@.len() > 0 && total_size(chosen@.drop_last()) < needed,
        decreases order@.len() - i,
    {
        let entry = order.get(i);
        proof {
            assert(order@.take(i + 1).drop_last() =~= order@.take(i as int));
            assert(order@.take(i + 1).last() == order@[i as int]);
            assert(distinct_ids(order@.take(i as int))) by {
                assert forall|a: int, b: int| 0 <= a < b < i implies (#[trigger] order@.take(
                    i as int,
                )[a]).spec_id() != (#[trigger] order@.take(i as int)[b]).spec_id() by {
                    assert(order@[a].spec_id() != order@[b].spec_id());
                }
            }
            lemma_residents_in_order(order@.take(i as int), set@);
        }
        match set.position(entry.id()) {
            Some(p) => {
                let victim = set.get(p);
                proof {
                    let before = chosen@;
                    assert(!has_id(before, victim.spec_id())) by {
                        if has_id(order@.take(i as int), victim.spec_id()) {
                            let k = choose|k: int|
                                0 <= k < i && (#[trigger] order@.take(i as int)[k]).spec_id()
                                    == victim.spec_id();
                            assert(order@[k].spec_id() != order@[i as int].spec_id());
                        }
                    }
                    lemma_with_item(before, victim);
                    assert(before.push(victim).drop_last() =~= before);
                }
                chosen.insert(victim);
                freed = freed + victim.size() as u64;
            },
            None => {},
        }
        i += 1;
    }
    proof {
        let all = residents_in_order(order@, set@);
        lemma_residents_in_order_prefix(order@, set@, i as int);
        if freed >= needed {
            let n = chosen@.len() as int;
            assert(all.take(n - 1) =~= chosen@.drop_last());
            lemma_covering_prefix_found(all, needed as int, n);
        } else {
            assert(order@.take(i as int) =~= order@);
            if all.len() > 0 {
                lemma_total_size_take(all, all.len() - 1);
                assert(all.take(all.len() - 1) =~= all.drop_last());
                // the whole of `all` falls short, so what comes before its last item does too
                assert(total_size(all.drop_last()) <= total_size(all));
            }
            lemma_covering_prefix_all(all, needed as int);
        }
    }
    chosen
}

} // verus!
