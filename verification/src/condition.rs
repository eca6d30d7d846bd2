//! Implementations of conditions for filtering the frequency histogram

use crate::item::Item;
use crate::trace::{strides_of, Trace};
use vstd::prelude::*;

verus! {

/// An abstract representation of a condition on a frequency histogram.
pub trait Condition<I: Item> {
    /// Whether the access at `index` of `trace` counts.
    spec fn holds(&self, trace: Seq<I>, index: int) -> bool;

    /// Check whether a certain element should be counted by the histogram.
    /// Needs the trace and the index of the element to check.
    fn check(&self, trace: &Trace<I>, index: usize) -> (counted: bool)
        requires
            index <= trace@.len(),
        ensures
            counted == self.holds(trace@, index as int),
    ;
}

/// No condition on the trace, includes all elements for a full frequency
/// histogram
#[derive(Default, Debug)]
pub struct NoCondition;

impl<I: Item> Condition<I> for NoCondition {
    open spec fn holds(&self, trace: Seq<I>, index: int) -> bool {
        true
    }

    //always returns true
    fn check(&self, trace: &Trace<I>, index: usize) -> (counted: bool) {
        true
    }
}

/// A general condition for checking the previous N items.  Can take any vector
/// of items and filters for accesses in the trace where the last N items were
/// the exact contents of the vector.
#[derive(Debug)]
pub struct LastNItems<I: Item> {
    items: Vec<I>,
}

impl<I: Item> View for LastNItems<I> {
    type V = Seq<I>;

    /// The items that have to come before an access.
    closed spec fn view(&self) -> Seq<I> {
        self.items@
    }
}

/// Whether the accesses before `index` are accesses to the items `items`, in
/// this order. Items are the same if their ids are.
pub open spec fn preceded_by<I: Item>(trace: Seq<I>, index: int, items: Seq<I>) -> bool {
    &&& index >= items.len()
    &&& forall|k: int|
        0 <= k < items.len() ==> (#[trigger] trace[index - items.len() + k]).spec_id()
            == items[k].spec_id()
}

impl<I: Item> LastNItems<I> {
    #[must_use]
    pub fn new(items: Vec<I>) -> (condition: Self)
        ensures
            condition@ == items@,
    {
        Self { items }
    }
}

impl<I: Item> Default for LastNItems<I> {
    fn default() -> (condition: Self)
        ensures
            condition@ == Seq::<I>::empty(),
    {
        Self { items: Vec::new() }
    }
}

impl<I: Item> Condition<I> for LastNItems<I> {
    open spec fn holds(&self, trace: Seq<I>, index: int) -> bool {
        preceded_by(trace, index, self@)
    }

    fn check(&self, trace: &Trace<I>, index: usize) -> (counted: bool) {
        let n = self.items.len();
        if index >= n {
            let start = index - n;
            let mut k: usize = 0;
            while k < n
                invariant
                    n == self.items@.len(),
                    start == index - n,
                    index <= trace@.len(),
                    k <= n,
                    forall|j: int|
                        0 <= j < k ==> (#[trigger] trace@[start + j]).spec_id()
                            == self.items@[j].spec_id(),
                decreases n - k,
            {
                if trace.get(start + k).id() != self.items[k].id() {
                    return false;
                }
                k += 1;
            }
            true
        } else {
            false
        }
    }
}

/// The condition that an access continues a run of one stride: the `prefix`
/// strides before the stride at the index and the `cont` strides from it on
/// are all the same.
///
/// `cont` says how far to look ahead, where `1` means that the stride at the
/// index is included. Where the trace has too few strides from the index on,
/// the condition does not hold.
#[derive(Debug)]
pub struct ConstantStride {
    pub prefix: usize,
    pub cont: usize,
}

/// Whether the strides from `index - prefix` up to `index + cont` exist and
/// are all the same, the stride at `index - prefix` among them.
pub open spec fn constant_stride(strides: Seq<i64>, index: int, prefix: int, cont: int) -> bool {
    &&& index >= prefix
    &&& index - prefix < strides.len()
    &&& index + cont <= strides.len()
    &&& forall|k: int|
        index - prefix <= k < index + cont ==> #[trigger] strides[k] == strides[index - prefix]
}

impl<I: Item> Condition<I> for ConstantStride {
    open spec fn holds(&self, trace: Seq<I>, index: int) -> bool {
        constant_stride(strides_of(trace), index, self.prefix as int, self.cont as int)
    }

    fn check(&self, trace: &Trace<I>, index: usize) -> (counted: bool) {
        let strides = trace.strides();
        if index < self.prefix {
            return false;
        }
        let start = index - self.prefix;
        if start >= strides.len() || index > strides.len() || self.cont > strides.len() - index {
            return false;
        }
        let end = index + self.cont;
        let first = strides[start];
        let mut k: usize = start;
        while k < end
            invariant
                strides@ == strides_of(trace@),
                start == index - self.prefix,
                end == index + self.cont,
                start <= k,
                k <= end || end < start,
                end <= strides@.len(),
                start < strides@.len(),
                first == strides@[start as int],
                forall|j: int| start <= j < k ==> #[trigger] strides@[j] == first,
            decreases end - k,
        {
            if strides[k] != first {
                return false;
            }
            k += 1;
        }
        true
    }
}

/// A condition that was evaluated beforehand: it holds at the indices for
/// which `outcomes` says so, and at no index beyond them. This is the way to
/// count by a predicate of one's own.
#[derive(Debug)]
pub struct Recorded {
    outcomes: Vec<bool>,
}

impl View for Recorded {
    type V = Seq<bool>;

    /// For each index, whether the condition holds there.
    closed spec fn view(&self) -> Seq<bool> {
        self.outcomes@
    }
}

impl Recorded {
    /// The condition that holds at the indices at which `outcomes` is true.
    #[must_use]
    pub fn new(outcomes: Vec<bool>) -> (condition: Self)
        ensures
            condition@ == outcomes@,
    {
        Self { outcomes }
    }

    /// Evaluate `predicate` at every index of `trace`, strides included, and
    /// record what it returns.
    pub fn of<I: Item, F: Fn(&Trace<I>, usize) -> bool>(trace: &Trace<I>, predicate: F) -> (condition:
        Self)
        requires
            forall|index: usize| index < trace@.len() ==> call_requires(predicate, (trace, index)),
        ensures
            condition@.len() == trace@.len(),
            forall|index: usize|
                index < trace@.len() ==> call_ensures(
                    predicate,
                    (trace, index),
                    #[trigger] condition@[index as int],
                ),
    {
        let mut outcomes: Vec<bool> = Vec::new();
        let mut index: usize = 0;
        while index < trace.len()
            invariant
                index <= trace@.len(),
                outcomes@.len() == index,
                forall|i: usize| i < trace@.len() ==> call_requires(predicate, (trace, i)),
                forall|i: usize|
                    i < index ==> call_ensures(predicate, (trace, i), #[trigger] outcomes@[i as int]),
            decreases trace@.len() - index,
        {
            let outcome = predicate(trace, index);
            outcomes.push(outcome);
            index += 1;
        }
        Self { outcomes }
    }
}

impl<I: Item> Condition<I> for Recorded {
    open spec fn holds(&self, trace: Seq<I>, index: int) -> bool {
        0 <= index < self@.len() && self@[index]
    }

    fn check(&self, trace: &Trace<I>, index: usize) -> (counted: bool) {
        index < self.outcomes.len() && self.outcomes[index]
    }
}

/// Any of the conditions of this module, so that conditions of different kinds
/// can stand in one collection.
#[derive(Debug)]
pub enum AnyCondition<I: Item> {
    /// Every access counts.
    All,
    /// The accesses before were accesses to these items.
    LastN(LastNItems<I>),
    /// The access continues a run of one stride.
    Run(ConstantStride),
    /// The condition was evaluated beforehand.
    Recorded(Recorded),
}

impl<I: Item> Condition<I> for AnyCondition<I> {
    open spec fn holds(&self, trace: Seq<I>, index: int) -> bool {
        match self {
            AnyCondition::All => true,
            AnyCondition::LastN(condition) => condition.holds(trace, index),
            AnyCondition::Run(condition) => Condition::<I>::holds(condition, trace, index),
            AnyCondition::Recorded(condition) => Condition::<I>::holds(condition, trace, index),
        }
    }

    fn check(&self, trace: &Trace<I>, index: usize) -> (counted: bool) {
        match self {
            AnyCondition::All => true,
            AnyCondition::LastN(condition) => condition.check(trace, index),
            AnyCondition::Run(condition) => condition.check(trace, index),
            AnyCondition::Recorded(condition) => condition.check(trace, index),
        }
    }
}

} // verus!
