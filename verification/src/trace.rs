//! A trace of accesses.

use crate::condition::{Condition, ConstantStride};
use crate::item::Item;
use crate::item_set::{has_id, position_of, total_size, ItemSet};
use crate::replacement_policy::lru::{lemma_touched, touched};
use crate::stats::Stat;
use std::collections::HashMap;
use vstd::prelude::*;
use vstd::std_specs::convert::FromSpecImpl;

verus! {

broadcast use vstd::std_specs::hash::group_hash_axioms;

/// The stride from the id `from` to the id `to`: their difference, read as a
/// signed 64-bit number. It is the plain difference wherever that fits.
pub open spec fn stride_between(from: u64, to: u64) -> i64 {
    let plain = to - from;
    if plain > i64::MAX {
        (plain - 0x1_0000_0000_0000_0000) as i64
    } else if plain < i64::MIN {
        (plain + 0x1_0000_0000_0000_0000) as i64
    } else {
        plain as i64
    }
}

/// The strides of a sequence of items: one for each pair of neighbours.
pub open spec fn strides_of<I: Item>(items: Seq<I>) -> Seq<i64> {
    Seq::new(
        if items.len() == 0 {
            0
        } else {
            (items.len() - 1) as nat
        },
        |i: int| stride_between(items[i].spec_id(), items[i + 1].spec_id()),
    )
}

/// The stride from the id `from` to the id `to`.
pub fn stride(from: u64, to: u64) -> (stride: i64)
    ensures
        stride == stride_between(from, to),
{
    if to >= from {
        let plain = to - from;
        if plain <= 0x7FFF_FFFF_FFFF_FFFF {
            plain as i64
        } else {
            (plain - 0x8000_0000_0000_0000) as i64 + i64::MIN
        }
    } else {
        let back = from - to;
        if back <= 0x8000_0000_0000_0000 {
            -((back - 1) as i64) - 1
        } else {
            (u64::MAX - back + 1) as i64
        }
    }
}

/// Creates a vector holding the differences between consecutive items (stride)
/// in `trace`.
pub fn trace_strides<I: Item>(trace: &Vec<I>) -> (strides: Vec<i64>)
    ensures
        strides@ == strides_of(trace@),
{
    let mut strides: Vec<i64> = Vec::new();
    if trace.len() == 0 {
        proof {
            assert(strides@ =~= strides_of(trace@));
        }
        return strides;
    }
    let mut i: usize = 0;
    while i < trace.len() - 1
        invariant
            trace@.len() > 0,
            i <= trace@.len() - 1,
            strides@.len() == i,
            forall|k: int|
                0 <= k < i ==> #[trigger] strides@[k] == stride_between(
                    trace@[k].spec_id(),
                    trace@[k + 1].spec_id(),
                ),
        decreases trace@.len() - i,
    {
        strides.push(stride(trace[i].id(), trace[i + 1].id()));
        i += 1;
    }
    proof {
        assert(strides@ =~= strides_of(trace@));
    }
    strides
}

/// A trace: the items that were accessed, in the order of the accesses.
#[derive(Debug)]
pub struct Trace<I: Item = u32> {
    inner: Vec<I>,
    strides: Vec<i64>,
}

impl<I: Item> View for Trace<I> {
    type V = Seq<I>;

    closed spec fn view(&self) -> Seq<I> {
        self.inner@
    }
}

impl<I: Item> From<Vec<I>> for Trace<I> {
    fn from(trace: Vec<I>) -> (made: Self)
        ensures
            made@ == trace@,
    {
        let strides = trace_strides::<I>(&trace);
        Self { inner: trace, strides }
    }
}

impl<I: Item> FromSpecImpl<Vec<I>> for Trace<I> {
    /// A trace is not a function of the vector alone in specifications: what
    /// `from` returns is stated by its own contract.
    open spec fn obeys_from_spec() -> bool {
        false
    }

    open spec fn from_spec(v: Vec<I>) -> Self {
        arbitrary()
    }
}

impl<I: Item> Default for Trace<I> {
    fn default() -> (made: Self)
        ensures
            made@ == Seq::<I>::empty(),
    {
        let inner: Vec<I> = Vec::new();
        let strides: Vec<i64> = Vec::new();
        proof {
            assert(strides@ =~= strides_of(inner@));
        }
        Self { inner, strides }
    }
}

/// How many of the first `upto` accesses of `trace` are accesses to the item
/// with the id `id` at which `condition` holds.
pub open spec fn times_counted<I: Item, C: Condition<I>>(
    trace: Seq<I>,
    condition: &C,
    id: u64,
    upto: int,
) -> nat
    decreases upto,
{
    if upto <= 0 {
        0
    } else {
        times_counted(trace, condition, id, upto - 1) + if condition.holds(trace, upto - 1)
            && trace[upto - 1].spec_id() == id {
            1nat
        } else {
            0nat
        }
    }
}

/// The frequency histogram of the first `upto` accesses of `trace` under
/// `condition`: for each id that was counted, how often it was.
pub open spec fn item_histogram<I: Item, C: Condition<I>>(
    trace: Seq<I>,
    condition: &C,
    upto: int,
) -> Map<u64, u32> {
    Map::new(
        |id: u64| times_counted(trace, condition, id, upto) > 0,
        |id: u64| times_counted(trace, condition, id, upto) as u32,
    )
}

/// How many of the first `upto` strides of `trace` are the stride `stride`, at
/// an index at which `condition` holds.
pub open spec fn stride_times_counted<I: Item, C: Condition<I>>(
    trace: Seq<I>,
    condition: &C,
    stride: i64,
    upto: int,
) -> nat
    decreases upto,
{
    if upto <= 0 {
        0
    } else {
        stride_times_counted(trace, condition, stride, upto - 1) + if condition.holds(
            trace,
            upto - 1,
        ) && strides_of(trace)[upto - 1] == stride {
            1nat
        } else {
            0nat
        }
    }
}

/// The frequency histogram of the first `upto` strides of `trace` under
/// `condition`: for each stride that was counted, how often it was.
pub open spec fn stride_histogram<I: Item, C: Condition<I>>(
    trace: Seq<I>,
    condition: &C,
    upto: int,
) -> Map<i64, u32> {
    Map::new(
        |stride: i64| stride_times_counted(trace, condition, stride, upto) > 0,
        |stride: i64| stride_times_counted(trace, condition, stride, upto) as u32,
    )
}

/// The item histogram that a batch holds for the entry `entry` after `upto`
/// accesses: that of its condition, and nothing if the entry asks for strides.
pub open spec fn batched_items<I: Item, C: Condition<I>>(
    trace: Seq<I>,
    entry: (C, bool),
    upto: int,
) -> Map<u64, u32> {
    if entry.1 {
        Map::empty()
    } else {
        item_histogram(trace, &entry.0, upto)
    }
}

/// The stride histogram that a batch holds for the entry `entry` after `upto`
/// accesses: that of its condition over the strides that start at these
/// accesses, and nothing if the entry asks for items.
pub open spec fn batched_strides<I: Item, C: Condition<I>>(
    trace: Seq<I>,
    entry: (C, bool),
    upto: int,
) -> Map<i64, u32> {
    if entry.1 {
        stride_histogram(
            trace,
            &entry.0,
            if upto <= strides_of(trace).len() {
                upto
            } else {
                strides_of(trace).len() as int
            },
        )
    } else {
        Map::empty()
    }
}

/// No id is counted more often than there are accesses.
pub proof fn lemma_times_counted_bound<I: Item, C: Condition<I>>(
    trace: Seq<I>,
    condition: &C,
    id: u64,
    upto: int,
)
    requires
        0 <= upto,
    ensures
        times_counted(trace, condition, id, upto) <= upto,
    decreases upto,
{
    if upto > 0 {
        lemma_times_counted_bound(trace, condition, id, upto - 1);
    }
}

/// No stride is counted more often than there are strides.
pub proof fn lemma_stride_times_counted_bound<I: Item, C: Condition<I>>(
    trace: Seq<I>,
    condition: &C,
    stride: i64,
    upto: int,
)
    requires
        0 <= upto,
    ensures
        stride_times_counted(trace, condition, stride, upto) <= upto,
    decreases upto,
{
    if upto > 0 {
        lemma_stride_times_counted_bound(trace, condition, stride, upto - 1);
    }
}

/// The recency stack after the accesses `accesses`: each item that was
/// accessed, once, the least recently accessed first.
pub open spec fn recency_stack<I: Item>(accesses: Seq<I>) -> Seq<I>
    decreases accesses.len(),
{
    if accesses.len() == 0 {
        Seq::empty()
    } else {
        touched(recency_stack(accesses.drop_last()), accesses.last())
    }
}

/// The number `n` as a `u32`, and `u32::MAX` where it does not fit.
pub open spec fn clamped(n: nat) -> u32 {
    if n > u32::MAX {
        u32::MAX
    } else {
        n as u32
    }
}

/// The stack distance of an access to `item` when the recency stack is
/// `stack`: nothing if the stack does not hold the item, and else what lies
/// above it on the stack, by number under the paging model and by size if not.
/// A distance that a `u32` cannot hold is `u32::MAX`.
pub open spec fn distance_on<I: Item>(stack: Seq<I>, item: I, paging_model: bool) -> Option<u32> {
    if has_id(stack, item.spec_id()) {
        let above = stack.skip(position_of(stack, item.spec_id()) + 1);
        if paging_model {
            Some(clamped(above.len()))
        } else {
            Some(clamped(total_size(above)))
        }
    } else {
        None
    }
}

/// The stack distances of the accesses of a trace.
pub open spec fn distances_of<I: Item>(accesses: Seq<I>, paging_model: bool) -> Seq<Option<u32>> {
    Seq::new(
        accesses.len(),
        |i: int| distance_on(recency_stack(accesses.take(i)), accesses[i], paging_model),
    )
}

/// The stack distance of an access to `item` when the recency stack is `stack`.
pub fn distance_from<I: Item>(stack: &ItemSet<I>, item: I, paging_model: bool) -> (distance: Option<
    u32,
>)
    requires
        stack.wf(),
    ensures
        distance == distance_on(stack@, item, paging_model),
{
    match stack.position(item.id()) {
        Some(position) => {
            // what lies above the item on the stack is what was accessed since
            // its last access
            if paging_model {
                let above = stack.len() - position - 1;
                if above > 0xFFFF_FFFF {
                    Some(u32::MAX)
                } else {
                    Some(above as u32)
                }
            } else {
                let len = stack.len();
                let mut sum: u128 = 0;
                let mut k: usize = position + 1;
                proof {
                    assert(stack@.subrange(position + 1, k as int) =~= Seq::<I>::empty());
                }
                while k < len
                    invariant
                        len == stack@.len(),
                        position < k <= stack@.len(),
                        sum == total_size(stack@.subrange(position + 1, k as int)),
                        sum <= k * 0x1_0000_0000,
                    decreases stack@.len() - k,
                {
                    proof {
                        assert(stack@.subrange(position + 1, k + 1).drop_last()
                            =~= stack@.subrange(position + 1, k as int));
                        assert(stack@.subrange(position + 1, k + 1).last() == stack@[k as int]);
                    }
                    sum = sum + stack.get(k).size() as u128;
                    k += 1;
                }
                proof {
                    assert(stack@.subrange(position + 1, stack@.len() as int) =~= stack@.skip(
                        position + 1,
                    ));
                }
                if sum > 0xFFFF_FFFF {
                    Some(u32::MAX)
                } else {
                    Some(sum as u32)
                }
            }
        },
        None => None,
    }
}

impl<I: Item> Trace<I> {
    /// The invariant of the type: the strides are those of the items.
    #[verifier::type_invariant]
    spec fn wf(&self) -> bool {
        self.strides@ == strides_of(self.inner@)
    }

    /// Calculate the frequency histogram of the items based on a given
    /// condition: how often each id was accessed, at the accesses at which the
    /// condition holds.
    #[must_use]
    pub fn frequency_histogram<C: Condition<I>>(&self, condition: &C) -> (freqs: HashMap<u64, u32>)
        requires
            self@.len() <= u32::MAX,
        ensures
            freqs@ == item_histogram(self@, condition, self@.len() as int),
    {
        let mut freqs: HashMap<u64, u32> = HashMap::new();
        let mut i: usize = 0;
        proof {
            assert(freqs@ =~= item_histogram(self@, condition, 0));
        }
        while i < self.inner.len()
            invariant
                self@.len() <= u32::MAX,
                i <= self.inner@.len(),
                freqs@ == item_histogram(self@, condition, i as int),
            decreases self.inner@.len() - i,
        {
            if condition.check(self, i) {
                let id = self.inner[i].id();
                proof {
                    lemma_times_counted_bound(self@, condition, id, i as int);
                }
                let count = match freqs.get(&id) {
                    Some(count) => *count,
                    None => 0,
                };
                freqs.insert(id, count + 1);
            }
            proof {
                assert(freqs@ =~= item_histogram(self@, condition, i + 1));
            }
            i += 1;
        }
        freqs
    }

    /// Calculate the frequency histogram of the strides based on a given
    /// condition: how often each stride occurs, at the indices at which the
    /// condition holds. The stride at an index leads from the item there to
    /// the next.
    pub fn stride_histogram<C: Condition<I>>(&self, condition: &C) -> (freqs: HashMap<i64, u32>)
        requires
            self@.len() <= u32::MAX,
        ensures
            freqs@ == stride_histogram(self@, condition, strides_of(self@).len() as int),
    {
        let mut freqs: HashMap<i64, u32> = HashMap::new();
        let mut i: usize = 0;
        proof {
            use_type_invariant(self);
            assert(freqs@ =~= stride_histogram(self@, condition, 0));
        }
        while i < self.strides.len()
            invariant
                self.strides@ == strides_of(self@),
                self@.len() <= u32::MAX,
                i <= self.strides@.len(),
                freqs@ == stride_histogram(self@, condition, i as int),
            decreases self.strides@.len() - i,
        {
            if condition.check(self, i) {
                let stride = self.strides[i];
                proof {
                    lemma_stride_times_counted_bound(self@, condition, stride, i as int);
                }
                let count = match freqs.get(&stride) {
                    Some(count) => *count,
                    None => 0,
                };
                freqs.insert(stride, count + 1);
            }
            proof {
                assert(freqs@ =~= stride_histogram(self@, condition, i + 1));
            }
            i += 1;
        }
        freqs
    }

    /// Count the strides at whose index `condition` holds.
    pub fn count_strides<C: Condition<I>>(&self, condition: &C) -> (count: usize)
        ensures
            count == strides_counted(self@, condition, strides_of(self@).len() as int),
    {
        let mut count: usize = 0;
        let mut i: usize = 0;
        proof {
            use_type_invariant(self);
        }
        while i < self.strides.len()
            invariant
                self.strides@ == strides_of(self@),
                i <= self.strides@.len(),
                count == strides_counted(self@, condition, i as int),
            decreases self.strides@.len() - i,
        {
            proof {
                lemma_strides_counted_bound(self@, condition, i as int);
            }
            if condition.check(self, i) {
                count += 1;
            }
            i += 1;
        }
        count
    }

    /// Calculate several frequency histograms in one pass over the trace. Each
    /// entry of `conditions` is a condition and a flag that asks for a histogram
    /// of strides (`true`) or of items (`false`).
    ///
    /// Returns the item histograms and the stride histograms. Both vectors have
    /// an entry for each entry of `conditions`, at the same index: the
    /// histogram of the kind that was asked for, and an empty one of the other
    /// kind.
    pub fn frequency_histogram_many<C: Condition<I>>(&self, conditions: &Vec<(C, bool)>) -> (dists:
        (Vec<HashMap<u64, u32>>, Vec<HashMap<i64, u32>>))
        requires
            self@.len() <= u32::MAX,
        ensures
            dists.0@.len() == conditions@.len(),
            dists.1@.len() == conditions@.len(),
            forall|k: int|
                0 <= k < conditions@.len() ==> (#[trigger] dists.0@[k])@ == batched_items(
                    self@,
                    conditions@[k],
                    self@.len() as int,
                ),
            forall|k: int|
                0 <= k < conditions@.len() ==> (#[trigger] dists.1@[k])@ == batched_strides(
                    self@,
                    conditions@[k],
                    self@.len() as int,
                ),
    {
        let mut dists: Vec<HashMap<u64, u32>> = Vec::new();
        let mut dists2: Vec<HashMap<i64, u32>> = Vec::new();
        let mut k: usize = 0;
        while k < conditions.len()
            invariant
                k <= conditions@.len(),
                dists@.len() == k,
                dists2@.len() == k,
                forall|j: int|
                    0 <= j < k ==> (#[trigger] dists@[j])@ == batched_items(
                        self@,
                        conditions@[j],
                        0,
                    ),
                forall|j: int|
                    0 <= j < k ==> (#[trigger] dists2@[j])@ == batched_strides(
                        self@,
                        conditions@[j],
                        0,
                    ),
            decreases conditions@.len() - k,
        {
            let items: HashMap<u64, u32> = HashMap::new();
            let strides: HashMap<i64, u32> = HashMap::new();
            proof {
                assert(items@ =~= batched_items(self@, conditions@[k as int], 0));
                assert(strides@ =~= batched_strides(self@, conditions@[k as int], 0));
            }
            dists.push(items);
            dists2.push(strides);
            k += 1;
        }
        let mut i: usize = 0;
        proof {
            use_type_invariant(self);
        }
        while i < self.inner.len()
            invariant
                self.strides@ == strides_of(self@),
                self@.len() <= u32::MAX,
                i <= self.inner@.len(),
                dists@.len() == conditions@.len(),
                dists2@.len() == conditions@.len(),
                forall|j: int|
                    0 <= j < conditions@.len() ==> (#[trigger] dists@[j])@ == batched_items(
                        self@,
                        conditions@[j],
                        i as int,
                    ),
                forall|j: int|
                    0 <= j < conditions@.len() ==> (#[trigger] dists2@[j])@ == batched_strides(
                        self@,
                        conditions@[j],
                        i as int,
                    ),
            decreases self.inner@.len() - i,
        {
            let mut k: usize = 0;
            while k < conditions.len()
                invariant
                    self.strides@ == strides_of(self@),
                    self@.len() <= u32::MAX,
                    i < self.inner@.len(),
                    k <= conditions@.len(),
                    dists@.len() == conditions@.len(),
                    dists2@.len() == conditions@.len(),
                    forall|j: int|
                        0 <= j < conditions@.len() ==> (#[trigger] dists@[j])@ == batched_items(
                            self@,
                            conditions@[j],
                            if j < k {
                                i + 1
                            } else {
                                i as int
                            },
                        ),
                    forall|j: int|
                        0 <= j < conditions@.len() ==> (#[trigger] dists2@[j])@ == batched_strides(
                            self@,
                            conditions@[j],
                            if j < k {
                                i + 1
                            } else {
                                i as int
                            },
                        ),
                decreases conditions@.len() - k,
            {
                let ghost entry = conditions@[k as int];
                let ghost items_before = dists@;
                let ghost strides_before = dists2@;
                let use_stride = conditions[k].1;
                if !use_stride {
                    if conditions[k].0.check(self, i) {
                        let id = self.inner[i].id();
                        proof {
                            lemma_times_counted_bound(self@, &entry.0, id, i as int);
                        }
                        let count = match dists[k].get(&id) {
                            Some(count) => *count,
                            None => 0,
                        };
                        dists[k].insert(id, count + 1);
                    }
                    proof {
                        assert(dists@[k as int]@ =~= batched_items(self@, entry, i + 1));
                    }
                } else {
                    if i < self.strides.len() {
                        if conditions[k].0.check(self, i) {
                            let stride = self.strides[i];
                            proof {
                                lemma_stride_times_counted_bound(self@, &entry.0, stride, i as int);
                            }
                            let count = match dists2[k].get(&stride) {
                                Some(count) => *count,
                                None => 0,
                            };
                            dists2[k].insert(stride, count + 1);
                        }
                    }
                    proof {
                        assert(dists2@[k as int]@ =~= batched_strides(self@, entry, i + 1));
                    }
                }
                proof {
                    assert forall|j: int| 0 <= j < conditions@.len() && j != k implies dists@[j]
                        == items_before[j] && dists2@[j] == strides_before[j] by {}
                }
                k += 1;
            }
            i += 1;
        }
        (dists, dists2)
    }

    /// Calculate the stack distances. Under the paging model, size is
    /// considered 1 for all items.
    ///
    /// For more details, see [`StackDistance`].
    #[must_use]
    pub fn stack_distances(&self, paging_model: bool) -> (distances: StackDistance)
        ensures
            distances@ == distances_of(self@, paging_model),
    {
        let mut distances: Vec<Option<u32>> = Vec::new();
        let mut stack: ItemSet<I> = ItemSet::new();
        let mut i: usize = 0;
        proof {
            assert(self.inner@.take(0) =~= Seq::<I>::empty());
        }
        while i < self.inner.len()
            invariant
                i <= self.inner@.len(),
                stack.wf(),
                stack@ == recency_stack(self.inner@.take(i as int)),
                distances@.len() == i,
                forall|k: int|
                    0 <= k < i ==> distances@[k] == distance_on(
                        recency_stack(self.inner@.take(k)),
                        self.inner@[k],
                        paging_model,
                    ),
            decreases self.inner@.len() - i,
        {
            let curr = self.inner[i];
            proof {
                assert(self.inner@.take(i + 1).drop_last() =~= self.inner@.take(i as int));
                assert(self.inner@.take(i + 1).last() == curr);
                lemma_touched(stack@, curr);
            }
            let distance = distance_from(&stack, curr, paging_model);
            distances.push(distance);
            stack.remove(&curr);
            stack.insert(curr);
            i += 1;
        }
        proof {
            assert(distances@ =~= distances_of(self@, paging_model));
        }
        StackDistance { inner: distances }
    }

    /// Get an iterator over the inner vector of items
    pub fn iter(&self) -> (items: core::slice::Iter<'_, I>)
        ensures
            vstd::std_specs::slice::into_iter_elts(items) == self@,
    {
        self.inner.iter()
    }

    /// Get a reference to the inner vector of items.
    #[must_use]
    pub fn inner(&self) -> (items: &[I])
        ensures
            items@ == self@,
    {
        self.inner.as_slice()
    }

    /// Take ownership of the inner vector of items.
    ///
    /// The ith element of the vector is the ith access of the trace.
    #[must_use]
    pub fn into_inner(self) -> (items: Vec<I>)
        ensures
            items@ == self@,
    {
        self.inner
    }

    /// Get a reference to the inner vector of strides.
    pub fn strides(&self) -> (strides: &[i64])
        ensures
            strides@ == strides_of(self@),
    {
        proof {
            use_type_invariant(self);
        }
        self.strides.as_slice()
    }

    /// Get the length of the trace.
    #[must_use]
    pub fn len(&self) -> (len: usize)
        ensures
            len == self@.len(),
    {
        self.inner.len()
    }

    /// Check whether the trace is empty.
    #[must_use]
    pub fn is_empty(&self) -> (empty: bool)
        ensures
            empty == (self@.len() == 0),
    {
        self.inner.len() == 0
    }

    /// The item of the access at `index`.
    pub fn get(&self, index: usize) -> (item: I)
        requires
            index < self@.len(),
        ensures
            item == self@[index as int],
    {
        self.inner[index]
    }

    /// Record one more access at the end of the trace.
    pub fn append(&mut self, next: I)
        ensures
            final(self)@ == old(self)@.push(next),
    {
        let mut taken: Trace<I> = Trace::default();
        std::mem::swap(self, &mut taken);
        proof {
            use_type_invariant(&taken);
        }
        let Trace { inner: mut inner, strides: mut strides } = taken;
        let len = inner.len();
        if len > 0 {
            let last = inner[len - 1];
            strides.push(stride(last.id(), next.id()));
        }
        inner.push(next);
        proof {
            assert(strides@ =~= strides_of(inner@));
        }
        *self = Trace { inner, strides };
    }
}

/// At how many of the first `upto` stride indices of `trace` the condition
/// `condition` holds.
pub open spec fn strides_counted<I: Item, C: Condition<I>>(
    trace: Seq<I>,
    condition: &C,
    upto: int,
) -> nat
    decreases upto,
{
    if upto <= 0 {
        0
    } else {
        strides_counted(trace, condition, upto - 1) + if condition.holds(trace, upto - 1) {
            1nat
        } else {
            0nat
        }
    }
}

/// The condition that the stride at an index continues a run of `prefix` equal
/// strides before it.
pub open spec fn continues_run(prefix: usize) -> ConstantStride {
    ConstantStride { prefix, cont: 1 }
}

/// How many strides of `trace` continue a run of `prefix` equal strides.
pub open spec fn runs_continued<I: Item>(trace: Seq<I>, prefix: usize) -> nat {
    strides_counted(trace, &continues_run(prefix), strides_of(trace).len() as int)
}

/// No more strides are counted than there are.
pub proof fn lemma_strides_counted_bound<I: Item, C: Condition<I>>(
    trace: Seq<I>,
    condition: &C,
    upto: int,
)
    requires
        0 <= upto,
    ensures
        strides_counted(trace, condition, upto) <= upto,
    decreases upto,
{
    if upto > 0 {
        lemma_strides_counted_bound(trace, condition, upto - 1);
    }
}

/// No stride continues a run that is longer than the strides before it.
pub proof fn lemma_no_long_runs<I: Item>(trace: Seq<I>, prefix: usize, upto: int)
    requires
        0 <= upto <= prefix,
    ensures
        strides_counted(trace, &continues_run(prefix), upto) == 0,
    decreases upto,
{
    if upto > 0 {
        lemma_no_long_runs(trace, prefix, upto - 1);
    }
}

/// Produces a list recording how often a run of equal strides is continued.
/// The entry at index `p - 1` says how many strides continue a run of `p`
/// equal strides; runs can overlap. The list ends with the first length that
/// no stride continues.
pub fn linear_function_continuation<I: Item>(trace: &Trace<I>) -> (counts: Vec<usize>)
    ensures
        counts@.len() > 0,
        forall|p: int|
            0 <= p < counts@.len() ==> #[trigger] counts@[p] == runs_continued(
                trace@,
                (p + 1) as usize,
            ),
        forall|p: int| 0 <= p < counts@.len() - 1 ==> #[trigger] counts@[p] > 0,
        counts@.last() == 0,
{
    let mut counts: Vec<usize> = Vec::new();
    let strides = trace.strides().len();
    let mut prefix: usize = 1;
    // checks every length up to the longest that occurs in the trace
    loop
        invariant_except_break
            strides == strides_of(trace@).len(),
            1 <= prefix <= strides + 1,
            counts@.len() == prefix - 1,
            forall|p: int|
                0 <= p < counts@.len() ==> #[trigger] counts@[p] == runs_continued(
                    trace@,
                    (p + 1) as usize,
                ),
            forall|p: int| 0 <= p < counts@.len() ==> #[trigger] counts@[p] > 0,
        ensures
            counts@.len() > 0,
            forall|p: int|
                0 <= p < counts@.len() ==> #[trigger] counts@[p] == runs_continued(
                    trace@,
                    (p + 1) as usize,
                ),
            forall|p: int| 0 <= p < counts@.len() - 1 ==> #[trigger] counts@[p] > 0,
            counts@.last() == 0,
        decreases strides + 1 - prefix,
    {
        let continued = trace.count_strides(&ConstantStride { prefix, cont: 1 });
        counts.push(continued);
        if continued == 0 {
            break ;
        }
        proof {
            if prefix >= strides {
                lemma_no_long_runs(trace@, prefix, strides as int);
            }
        }
        prefix += 1;
    }
    counts
}

impl<I: Item> IntoIterator for Trace<I> {
    type Item = I;

    type IntoIter = std::vec::IntoIter<I>;

    /// The items, in the order of the accesses.
    fn into_iter(self) -> (items: Self::IntoIter)
        ensures
            vstd::std_specs::iter::IteratorSpec::remaining(&items) == self@,
    {
        self.inner.into_iter()
    }
}

impl<I: Item> vstd::std_specs::core::IndexSpecImpl<usize> for Trace<I> {
    /// An index has to lie within the trace.
    open spec fn index_req(&self, index: &usize) -> bool {
        *index < self@.len()
    }
}

impl<I: Item> core::ops::Index<usize> for Trace<I> {
    type Output = I;

    /// The item of the access at `index`.
    fn index(&self, index: usize) -> (item: &I)
        ensures
            *item == self@[index as int],
    {
        &self.inner[index]
    }
}

impl<I: Item> Trace<I> {
    /// The items of the accesses from `from` up to, and without, `to`.
    pub fn range(&self, from: usize, to: usize) -> (items: &[I])
        requires
            from <= to <= self@.len(),
        ensures
            items@ == self@.subrange(from as int, to as int),
    {
        vstd::slice::slice_subrange(self.inner.as_slice(), from, to)
    }
}

impl<I: Item> vstd::std_specs::core::IndexSpecImpl<core::ops::Range<usize>> for Trace<I> {
    /// A range has to lie within the trace.
    open spec fn index_req(&self, index: &core::ops::Range<usize>) -> bool {
        index.start <= index.end <= self@.len()
    }
}

impl<I: Item> core::ops::Index<core::ops::Range<usize>> for Trace<I> {
    type Output = [I];

    /// The items of the accesses in the range `index`.
    fn index(&self, index: core::ops::Range<usize>) -> (items: &[I])
        ensures
            items@ == self@.subrange(index.start as int, index.end as int),
    {
        self.range(index.start, index.end)
    }
}

/// A trace as a statistic records the accesses of a cache.
impl<I: Item> Stat<I> for Trace<I> {
    type Model = Seq<I>;

    open spec fn model(&self) -> Seq<I> {
        self@
    }

    open spec fn model_update(model: Seq<I>, set: Seq<I>, next: I, evicted: Seq<I>) -> Seq<I> {
        model.push(next)
    }

    fn update(&mut self, set: &ItemSet<I>, next: I, evicted: &ItemSet<I>) {
        self.append(next);
    }
}

/// The stack distances of each access in the trace.
///
/// Infinities are represented by `None`; finite distances by `Some(n)`.
pub struct StackDistance {
    inner: Vec<Option<u32>>,
}

impl View for StackDistance {
    type V = Seq<Option<u32>>;

    closed spec fn view(&self) -> Seq<Option<u32>> {
        self.inner@
    }
}

/// How often `value` occurs in `s`.
pub open spec fn occurrences<T>(s: Seq<T>, value: T) -> nat
    decreases s.len(),
{
    if s.len() == 0 {
        0
    } else {
        occurrences(s.drop_last(), value) + if s.last() == value {
            1nat
        } else {
            0nat
        }
    }
}

/// The number of entries of a stack distance histogram: one more than the
/// largest finite distance, and none if no distance is finite.
pub open spec fn histogram_len(distances: Seq<Option<u32>>) -> nat
    decreases distances.len(),
{
    if distances.len() == 0 {
        0
    } else {
        let rest = histogram_len(distances.drop_last());
        match distances.last() {
            Some(d) => if d + 1 > rest {
                (d + 1) as nat
            } else {
                rest
            },
            None => rest,
        }
    }
}

/// No value occurs more often than the sequence is long.
pub proof fn lemma_occurrences_bound<T>(s: Seq<T>, value: T)
    ensures
        occurrences(s, value) <= s.len(),
    decreases s.len(),
{
    if s.len() > 0 {
        lemma_occurrences_bound(s.drop_last(), value);
    }
}

/// A histogram has at most one entry for each `u32`.
pub proof fn lemma_histogram_len_bound(distances: Seq<Option<u32>>)
    ensures
        histogram_len(distances) <= 0x1_0000_0000,
    decreases distances.len(),
{
    if distances.len() > 0 {
        lemma_histogram_len_bound(distances.drop_last());
    }
}

/// Every finite distance has an entry in the histogram.
pub proof fn lemma_histogram_len(distances: Seq<Option<u32>>, i: int)
    requires
        0 <= i < distances.len(),
    ensures
        distances[i] matches Some(d) ==> d < histogram_len(distances),
    decreases distances.len(),
{
    if i < distances.len() - 1 {
        lemma_histogram_len(distances.drop_last(), i);
    }
}

impl StackDistance {
    /// Calculate the stack distance histogram.
    ///
    /// Returns a vector of frequencies of stack distances, plus the count of
    /// infinities. The vector has an entry for each distance up to the largest
    /// finite one.
    pub fn histogram(&self) -> (histogram: (Vec<usize>, usize))
        requires
            forall|i: int|
                0 <= i < self@.len() ==> ((#[trigger] self@[i]) matches Some(d) ==> d
                    < usize::MAX),
        ensures
            histogram.0@.len() == histogram_len(self@),
            forall|d: int|
                0 <= d < histogram.0@.len() ==> (#[trigger] histogram.0@[d]) == occurrences(
                    self@,
                    Some(d as u32),
                ),
            histogram.1 == occurrences(self@, None::<u32>),
    {
        let mut len: usize = 0;
        let mut i: usize = 0;
        proof {
            assert(self.inner@.take(0) =~= Seq::<Option<u32>>::empty());
        }
        while i < self.inner.len()
            invariant
                i <= self.inner@.len(),
                len == histogram_len(self.inner@.take(i as int)),
                forall|k: int|
                    0 <= k < self@.len() ==> ((#[trigger] self@[k]) matches Some(d) ==> d
                        < usize::MAX),
            decreases self.inner@.len() - i,
        {
            proof {
                assert(self.inner@.take(i + 1).drop_last() =~= self.inner@.take(i as int));
                assert(self.inner@.take(i + 1).last() == self.inner@[i as int]);
                assert(self@[i as int] == self.inner@[i as int]);
            }
            match self.inner[i] {
                Some(d) => {
                    if d as usize + 1 > len {
                        len = d as usize + 1;
                    }
                },
                None => {},
            }
            i += 1;
        }
        proof {
            assert(self.inner@.take(self.inner@.len() as int) =~= self.inner@);
        }
        let mut freqs: Vec<usize> = Vec::new();
        while freqs.len() < len
            invariant
                freqs@.len() <= len,
                forall|d: int| 0 <= d < freqs@.len() ==> freqs@[d] == 0,
            decreases len - freqs@.len(),
        {
            freqs.push(0);
        }
        let mut infinities: usize = 0;
        let mut i: usize = 0;
        proof {
            lemma_histogram_len_bound(self.inner@);
        }
        while i < self.inner.len()
            invariant
                i <= self.inner@.len(),
                freqs@.len() == len,
                len == histogram_len(self.inner@),
                len <= 0x1_0000_0000,
                forall|d: int|
                    0 <= d < len ==> (#[trigger] freqs@[d]) == occurrences(
                        self.inner@.take(i as int),
                        Some(d as u32),
                    ),
                infinities == occurrences(self.inner@.take(i as int), None::<u32>),
            decreases self.inner@.len() - i,
        {
            proof {
                assert(self.inner@.take(i + 1).drop_last() =~= self.inner@.take(i as int));
                assert(self.inner@.take(i + 1).last() == self.inner@[i as int]);
                lemma_histogram_len(self.inner@, i as int);
                lemma_occurrences_bound(self.inner@.take(i as int), self.inner@[i as int]);
            }
            match self.inner[i] {
                Some(d) => {
                    let count = freqs[d as usize];
                    freqs.set(d as usize, count + 1);
                },
                None => {
                    infinities += 1;
                },
            }
            i += 1;
        }
        proof {
            assert(self.inner@.take(self.inner@.len() as int) =~= self.inner@);
        }
        (freqs, infinities)
    }

    /// Get a reference to the inner vector of distances.
    ///
    /// The ith element of the vector is the ith access of the trace.
    #[must_use]
    pub fn inner(&self) -> (distances: &[Option<u32>])
        ensures
            distances@ == self@,
    {
        self.inner.as_slice()
    }

    /// Take ownership of the inner vector of distances.
    ///
    /// The ith element of the vector is the ith access of the trace.
    #[must_use]
    pub fn into_inner(self) -> (distances: Vec<Option<u32>>)
        ensures
            distances@ == self@,
    {
        self.inner
    }
}

} // verus!
