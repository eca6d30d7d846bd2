//! Implementations of statistics computed by the cache simulator.

use crate::item::Item;
use crate::item_set::{has_id, ItemSet};
use vstd::prelude::*;

verus! {

/// An abstract representation of a cache statistic.
///
/// A statistic observes every access of a cache: the resident set before the
/// access, the accessed item, and what the access evicted. What it has gathered
/// is its `Model`, and `model_update` says how one access changes it.
///
/// This is implemented for any tuple of statistics, up to size 12, so to track
/// multiple statistics, you can use a tuple of statistics.
pub trait Stat<I: Item>: Default {
    /// The mathematical model of what the statistic has gathered.
    type Model;

    /// What this statistic has gathered.
    spec fn model(&self) -> Self::Model;

    /// What the statistic has gathered after one more access.
    spec fn model_update(model: Self::Model, set: Seq<I>, next: I, evicted: Seq<I>) -> Self::Model;

    /// Observe an access to `next` of a cache that held `set` before it and
    /// evicts `evicted` for it.
    fn update(&mut self, set: &ItemSet<I>, next: I, evicted: &ItemSet<I>)
        ensures
            final(self).model() == Self::model_update(old(self).model(), set@, next, evicted@),
    ;
}

impl<I: Item> Stat<I> for () {
    type Model = ();

    open spec fn model(&self) -> () {
        ()
    }

    open spec fn model_update(model: (), set: Seq<I>, next: I, evicted: Seq<I>) -> () {
        ()
    }

    fn update(&mut self, set: &ItemSet<I>, next: I, evicted: &ItemSet<I>) {
    }
}

/// One more, up to the largest count that a `u32` holds.
pub open spec fn counted_up(count: u32) -> u32 {
    if count < u32::MAX {
        (count + 1) as u32
    } else {
        count
    }
}

/// The raw count of cache hits. It stops counting at `u32::MAX`.
#[derive(Debug)]
pub struct HitCount(pub u32);

impl Default for HitCount {
    fn default() -> (count: Self)
        ensures
            count.0 == 0,
    {
        HitCount(0)
    }
}

impl<I: Item> Stat<I> for HitCount {
    type Model = u32;

    open spec fn model(&self) -> u32 {
        self.0
    }

    /// An access is a hit if the item was resident before it.
    open spec fn model_update(model: u32, set: Seq<I>, next: I, evicted: Seq<I>) -> u32 {
        if has_id(set, next.spec_id()) {
            counted_up(model)
        } else {
            model
        }
    }

    fn update(&mut self, set: &ItemSet<I>, next: I, evicted: &ItemSet<I>) {
        if set.contains(&next) && self.0 < u32::MAX {
            self.0 = self.0 + 1;
        }
    }
}

/// The raw count of cache misses. It stops counting at `u32::MAX`.
#[derive(Debug)]
pub struct MissCount(pub u32);

impl Default for MissCount {
    fn default() -> (count: Self)
        ensures
            count.0 == 0,
    {
        MissCount(0)
    }
}

impl<I: Item> Stat<I> for MissCount {
    type Model = u32;

    open spec fn model(&self) -> u32 {
        self.0
    }

    /// An access is a miss if the item was not resident before it.
    open spec fn model_update(model: u32, set: Seq<I>, next: I, evicted: Seq<I>) -> u32 {
        if has_id(set, next.spec_id()) {
            model
        } else {
            counted_up(model)
        }
    }

    fn update(&mut self, set: &ItemSet<I>, next: I, evicted: &ItemSet<I>) {
        if !set.contains(&next) && self.0 < u32::MAX {
            self.0 = self.0 + 1;
        }
    }
}

/// An observer of cache accesses without a contract: the way to gather a
/// statistic of one's own. The proofs know nothing of what it gathers.
pub trait Observer<I: Item>: Default {
    /// Observe an access to `next` of a cache that held `set` before it and
    /// evicts `evicted` for it.
    fn observe(&mut self, set: &ItemSet<I>, next: I, evicted: &ItemSet<I>);
}

/// The statistic that an [`Observer`] gathers.
#[derive(Debug)]
pub struct Observed<O>(pub O);

impl<O: Default> Default for Observed<O> {
    fn default() -> (observed: Self)
        ensures
            call_ensures(O::default, (), observed.0),
    {
        Observed(O::default())
    }
}

impl<I: Item, O: Observer<I>> Stat<I> for Observed<O> {
    type Model = ();

    open spec fn model(&self) -> () {
        ()
    }

    open spec fn model_update(model: (), set: Seq<I>, next: I, evicted: Seq<I>) -> () {
        ()
    }

    fn update(&mut self, set: &ItemSet<I>, next: I, evicted: &ItemSet<I>)
        ensures
            exists|observer: &mut O|
                *observer == old(self).0 && *final(observer) == final(self).0
                    && #[trigger] call_ensures(O::observe, (observer, set, next, evicted), ()),
    {
        // the observer is afterwards what its `observe`, called on it with
        // this access, leaves of it: for an observer with a contract, what
        // the contract says
        self.0.observe(set, next, evicted);
    }
}

impl<I: Item, A: Stat<I>, B: Stat<I>> Stat<I> for (A, B) {
    type Model = (A::Model, B::Model);

    open spec fn model(&self) -> (A::Model, B::Model) {
        (self.0.model(), self.1.model())
    }

    /// Each member observes the access by itself.
    open spec fn model_update(
        model: (A::Model, B::Model),
        set: Seq<I>,
        next: I,
        evicted: Seq<I>,
    ) -> (A::Model, B::Model) {
        (A::model_update(model.0, set, next, evicted), B::model_update(model.1, set, next, evicted))
    }

    fn update(&mut self, set: &ItemSet<I>, next: I, evicted: &ItemSet<I>) {
        self.0.update(set, next, evicted);
        self.1.update(set, next, evicted);
    }
}

impl<I: Item, A: Stat<I>, B: Stat<I>, C: Stat<I>> Stat<I> for (A, B, C) {
    type Model = (A::Model, B::Model, C::Model);

    open spec fn model(&self) -> (A::Model, B::Model, C::Model) {
        (self.0.model(), self.1.model(), self.2.model())
    }

    /// Each member observes the access by itself.
    open spec fn model_update(
        model: (A::Model, B::Model, C::Model),
        set: Seq<I>,
        next: I,
        evicted: Seq<I>,
    ) -> (A::Model, B::Model, C::Model) {
        (
            A::model_update(model.0, set, next, evicted),
            B::model_update(model.1, set, next, evicted),
            C::model_update(model.2, set, next, evicted),
        )
    }

    fn update(&mut self, set: &ItemSet<I>, next: I, evicted: &ItemSet<I>) {
        self.0.update(set, next, evicted);
        self.1.update(set, next, evicted);
        self.2.update(set, next, evicted);
    }
}

impl<I: Item, A: Stat<I>, B: Stat<I>, C: Stat<I>, D: Stat<I>> Stat<I> for (A, B, C, D) {
    type Model = (A::Model, B::Model, C::Model, D::Model);

    open spec fn model(&self) -> Self::Model {
        (
            self.0.model(),
            self.1.model(),
            self.2.model(),
            self.3.model(),
        )
    }

    /// Each member observes the access by itself.
    open spec fn model_update(model: Self::Model, set: Seq<I>, next: I, evicted: Seq<I>) -> Self::Model {
        (
            A::model_update(model.0, set, next, evicted),
            B::model_update(model.1, set, next, evicted),
            C::model_update(model.2, set, next, evicted),
            D::model_update(model.3, set, next, evicted),
        )
    }

    fn update(&mut self, set: &ItemSet<I>, next: I, evicted: &ItemSet<I>) {
        self.0.update(set, next, evicted);
        self.1.update(set, next, evicted);
        self.2.update(set, next, evicted);
        self.3.update(set, next, evicted);
    }
}

impl<I: Item, A: Stat<I>, B: Stat<I>, C: Stat<I>, D: Stat<I>, E: Stat<I>> Stat<I> for (A, B, C, D, E) {
    type Model = (A::Model, B::Model, C::Model, D::Model, E::Model);

    open spec fn model(&self) -> Self::Model {
        (
            self.0.model(),
            self.1.model(),
            self.2.model(),
            self.3.model(),
            self.4.model(),
        )
    }

    /// Each member observes the access by itself.
    open spec fn model_update(model: Self::Model, set: Seq<I>, next: I, evicted: Seq<I>) -> Self::Model {
        (
            A::model_update(model.0, set, next, evicted),
            B::model_update(model.1, set, next, evicted),
            C::model_update(model.2, set, next, evicted),
            D::model_update(model.3, set, next, evicted),
            E::model_update(model.4, set, next, evicted),
        )
    }

    fn update(&mut self, set: &ItemSet<I>, next: I, evicted: &ItemSet<I>) {
        self.0.update(set, next, evicted);
        self.1.update(set, next, evicted);
        self.2.update(set, next, evicted);
        self.3.update(set, next, evicted);
        self.4.update(set, next, evicted);
    }
}

impl<I: Item, A: Stat<I>, B: Stat<I>, C: Stat<I>, D: Stat<I>, E: Stat<I>, F: Stat<I>> Stat<I> for (A, B, C, D, E, F) {
    type Model = (A::Model, B::Model, C::Model, D::Model, E::Model, F::Model);

    open spec fn model(&self) -> Self::Model {
        (
            self.0.model(),
            self.1.model(),
            self.2.model(),
            self.3.model(),
            self.4.model(),
            self.5.model(),
        )
    }

    /// Each member observes the access by itself.
    open spec fn model_update(model: Self::Model, set: Seq<I>, next: I, evicted: Seq<I>) -> Self::Model {
        (
            A::model_update(model.0, set, next, evicted),
            B::model_update(model.1, set, next, evicted),
            C::model_update(model.2, set, next, evicted),
            D::model_update(model.3, set, next, evicted),
            E::model_update(model.4, set, next, evicted),
            F::model_update(model.5, set, next, evicted),
        )
    }

    fn update(&mut self, set: &ItemSet<I>, next: I, evicted: &ItemSet<I>) {
        self.0.update(set, next, evicted);
        self.1.update(set, next, evicted);
        self.2.update(set, next, evicted);
        self.3.update(set, next, evicted);
        self.4.update(set, next, evicted);
        self.5.update(set, next, evicted);
    }
}

impl<I: Item, A: Stat<I>, B: Stat<I>, C: Stat<I>, D: Stat<I>, E: Stat<I>, F: Stat<I>, G: Stat<I>> Stat<I> for (A, B, C, D, E, F, G) {
    type Model = (A::Model, B::Model, C::Model, D::Model, E::Model, F::Model, G::Model);

    open spec fn model(&self) -> Self::Model {
        (
            self.0.model(),
            self.1.model(),
            self.2.model(),
            self.3.model(),
            self.4.model(),
            self.5.model(),
            self.6.model(),
        )
    }

    /// Each member observes the access by itself.
    open spec fn model_update(model: Self::Model, set: Seq<I>, next: I, evicted: Seq<I>) -> Self::Model {
        (
            A::model_update(model.0, set, next, evicted),
            B::model_update(model.1, set, next, evicted),
            C::model_update(model.2, set, next, evicted),
            D::model_update(model.3, set, next, evicted),
            E::model_update(model.4, set, next, evicted),
            F::model_update(model.5, set, next, evicted),
            G::model_update(model.6, set, next, evicted),
        )
    }

    fn update(&mut self, set: &ItemSet<I>, next: I, evicted: &ItemSet<I>) {
        self.0.update(set, next, evicted);
        self.1.update(set, next, evicted);
        self.2.update(set, next, evicted);
        self.3.update(set, next, evicted);
        self.4.update(set, next, evicted);
        self.5.update(set, next, evicted);
        self.6.update(set, next, evicted);
    }
}

impl<I: Item, A: Stat<I>, B: Stat<I>, C: Stat<I>, D: Stat<I>, E: Stat<I>, F: Stat<I>, G: Stat<I>, H: Stat<I>> Stat<I> for (A, B, C, D, E, F, G, H) {
    type Model = (A::Model, B::Model, C::Model, D::Model, E::Model, F::Model, G::Model, H::Model);

    open spec fn model(&self) -> Self::Model {
        (
            self.0.model(),
            self.1.model(),
            self.2.model(),
            self.3.model(),
            self.4.model(),
            self.5.model(),
            self.6.model(),
            self.7.model(),
        )
    }

    /// Each member observes the access by itself.
    open spec fn model_update(model: Self::Model, set: Seq<I>, next: I, evicted: Seq<I>) -> Self::Model {
        (
            A::model_update(model.0, set, next, evicted),
            B::model_update(model.1, set, next, evicted),
            C::model_update(model.2, set, next, evicted),
            D::model_update(model.3, set, next, evicted),
            E::model_update(model.4, set, next, evicted),
            F::model_update(model.5, set, next, evicted),
            G::model_update(model.6, set, next, evicted),
            H::model_update(model.7, set, next, evicted),
        )
    }

    fn update(&mut self, set: &ItemSet<I>, next: I, evicted: &ItemSet<I>) {
        self.0.update(set, next, evicted);
        self.1.update(set, next, evicted);
        self.2.update(set, next, evicted);
        self.3.update(set, next, evicted);
        self.4.update(set, next, evicted);
        self.5.update(set, next, evicted);
        self.6.update(set, next, evicted);
        self.7.update(set, next, evicted);
    }
}

impl<I: Item, A: Stat<I>, B: Stat<I>, C: Stat<I>, D: Stat<I>, E: Stat<I>, F: Stat<I>, G: Stat<I>, H: Stat<I>, J: Stat<I>> Stat<I> for (A, B, C, D, E, F, G, H, J) {
    type Model = (A::Model, B::Model, C::Model, D::Model, E::Model, F::Model, G::Model, H::Model, J::Model);

    open spec fn model(&self) -> Self::Model {
        (
            self.0.model(),
            self.1.model(),
            self.2.model(),
            self.3.model(),
            self.4.model(),
            self.5.model(),
            self.6.model(),
            self.7.model(),
            self.8.model(),
        )
    }

    /// Each member observes the access by itself.
    open spec fn model_update(model: Self::Model, set: Seq<I>, next: I, evicted: Seq<I>) -> Self::Model {
        (
            A::model_update(model.0, set, next, evicted),
            B::model_update(model.1, set, next, evicted),
            C::model_update(model.2, set, next, evicted),
            D::model_update(model.3, set, next, evicted),
            E::model_update(model.4, set, next, evicted),
            F::model_update(model.5, set, next, evicted),
            G::model_update(model.6, set, next, evicted),
            H::model_update(model.7, set, next, evicted),
            J::model_update(model.8, set, next, evicted),
        )
    }

    fn update(&mut self, set: &ItemSet<I>, next: I, evicted: &ItemSet<I>) {
        self.0.update(set, next, evicted);
        self.1.update(set, next, evicted);
        self.2.update(set, next, evicted);
        self.3.update(set, next, evicted);
        self.4.update(set, next, evicted);
        self.5.update(set, next, evicted);
        self.6.update(set, next, evicted);
        self.7.update(set, next, evicted);
        self.8.update(set, next, evicted);
    }
}

impl<I: Item, A: Stat<I>, B: Stat<I>, C: Stat<I>, D: Stat<I>, E: Stat<I>, F: Stat<I>, G: Stat<I>, H: Stat<I>, J: Stat<I>, K: Stat<I>> Stat<I> for (A, B, C, D, E, F, G, H, J, K) {
    type Model = (A::Model, B::Model, C::Model, D::Model, E::Model, F::Model, G::Model, H::Model, J::Model, K::Model);

    open spec fn model(&self) -> Self::Model {
        (
            self.0.model(),
            self.1.model(),
            self.2.model(),
            self.3.model(),
            self.4.model(),
            self.5.model(),
            self.6.model(),
            self.7.model(),
            self.8.model(),
            self.9.model(),
        )
    }

    /// Each member observes the access by itself.
    open spec fn model_update(model: Self::Model, set: Seq<I>, next: I, evicted: Seq<I>) -> Self::Model {
        (
            A::model_update(model.0, set, next, evicted),
            B::model_update(model.1, set, next, evicted),
            C::model_update(model.2, set, next, evicted),
            D::model_update(model.3, set, next, evicted),
            E::model_update(model.4, set, next, evicted),
            F::model_update(model.5, set, next, evicted),
            G::model_update(model.6, set, next, evicted),
            H::model_update(model.7, set, next, evicted),
            J::model_update(model.8, set, next, evicted),
            K::model_update(model.9, set, next, evicted),
        )
    }

    fn update(&mut self, set: &ItemSet<I>, next: I, evicted: &ItemSet<I>) {
        self.0.update(set, next, evicted);
        self.1.update(set, next, evicted);
        self.2.update(set, next, evicted);
        self.3.update(set, next, evicted);
        self.4.update(set, next, evicted);
        self.5.update(set, next, evicted);
        self.6.update(set, next, evicted);
        self.7.update(set, next, evicted);
        self.8.update(set, next, evicted);
        self.9.update(set, next, evicted);
    }
}

impl<I: Item, A: Stat<I>, B: Stat<I>, C: Stat<I>, D: Stat<I>, E: Stat<I>, F: Stat<I>, G: Stat<I>, H: Stat<I>, J: Stat<I>, K: Stat<I>, L: Stat<I>> Stat<I> for (A, B, C, D, E, F, G, H, J, K, L) {
    type Model = (A::Model, B::Model, C::Model, D::Model, E::Model, F::Model, G::Model, H::Model, J::Model, K::Model, L::Model);

    open spec fn model(&self) -> Self::Model {
        (
            self.0.model(),
            self.1.model(),
            self.2.model(),
            self.3.model(),
            self.4.model(),
            self.5.model(),
            self.6.model(),
            self.7.model(),
            self.8.model(),
            self.9.model(),
            self.10.model(),
        )
    }

    /// Each member observes the access by itself.
    open spec fn model_update(model: Self::Model, set: Seq<I>, next: I, evicted: Seq<I>) -> Self::Model {
        (
            A::model_update(model.0, set, next, evicted),
            B::model_update(model.1, set, next, evicted),
            C::model_update(model.2, set, next, evicted),
            D::model_update(model.3, set, next, evicted),
            E::model_update(model.4, set, next, evicted),
            F::model_update(model.5, set, next, evicted),
            G::model_update(model.6, set, next, evicted),
            H::model_update(model.7, set, next, evicted),
            J::model_update(model.8, set, next, evicted),
            K::model_update(model.9, set, next, evicted),
            L::model_update(model.10, set, next, evicted),
        )
    }

    fn update(&mut self, set: &ItemSet<I>, next: I, evicted: &ItemSet<I>) {
        self.0.update(set, next, evicted);
        self.1.update(set, next, evicted);
        self.2.update(set, next, evicted);
        self.3.update(set, next, evicted);
        self.4.update(set, next, evicted);
        self.5.update(set, next, evicted);
        self.6.update(set, next, evicted);
        self.7.update(set, next, evicted);
        self.8.update(set, next, evicted);
        self.9.update(set, next, evicted);
        self.10.update(set, next, evicted);
    }
}

impl<I: Item, A: Stat<I>, B: Stat<I>, C: Stat<I>, D: Stat<I>, E: Stat<I>, F: Stat<I>, G: Stat<I>, H: Stat<I>, J: Stat<I>, K: Stat<I>, L: Stat<I>, M: Stat<I>> Stat<I> for (A, B, C, D, E, F, G, H, J, K, L, M) {
    type Model = (A::Model, B::Model, C::Model, D::Model, E::Model, F::Model, G::Model, H::Model, J::Model, K::Model, L::Model, M::Model);

    open spec fn model(&self) -> Self::Model {
        (
            self.0.model(),
            self.1.model(),
            self.2.model(),
            self.3.model(),
            self.4.model(),
            self.5.model(),
            self.6.model(),
            self.7.model(),
            self.8.model(),
            self.9.model(),
            self.10.model(),
            self.11.model(),
        )
    }

    /// Each member observes the access by itself.
    open spec fn model_update(model: Self::Model, set: Seq<I>, next: I, evicted: Seq<I>) -> Self::Model {
        (
            A::model_update(model.0, set, next, evicted),
            B::model_update(model.1, set, next, evicted),
            C::model_update(model.2, set, next, evicted),
            D::model_update(model.3, set, next, evicted),
            E::model_update(model.4, set, next, evicted),
            F::model_update(model.5, set, next, evicted),
            G::model_update(model.6, set, next, evicted),
            H::model_update(model.7, set, next, evicted),
            J::model_update(model.8, set, next, evicted),
            K::model_update(model.9, set, next, evicted),
            L::model_update(model.10, set, next, evicted),
            M::model_update(model.11, set, next, evicted),
        )
    }

    fn update(&mut self, set: &ItemSet<I>, next: I, evicted: &ItemSet<I>) {
        self.0.update(set, next, evicted);
        self.1.update(set, next, evicted);
        self.2.update(set, next, evicted);
        self.3.update(set, next, evicted);
        self.4.update(set, next, evicted);
        self.5.update(set, next, evicted);
        self.6.update(set, next, evicted);
        self.7.update(set, next, evicted);
        self.8.update(set, next, evicted);
        self.9.update(set, next, evicted);
        self.10.update(set, next, evicted);
        self.11.update(set, next, evicted);
    }
}

} // verus!
