//! An abstracted cacheable item.

use vstd::prelude::*;
use vstd::std_specs::cmp::PartialEqSpecImpl;

verus! {

/// The bit pattern of the miss cost of a paging-model item: the IEEE-754
/// binary64 encoding of one.
pub const UNIT_COST_BITS: u64 = 0x3FF0_0000_0000_0000;

/// Abstracts over a single item in a cache.
///
/// An item is identified by its id alone: two items with the same id are the
/// same cacheable unit, whatever else they carry.
pub trait Item: Copy {
    /// The id, as a mathematical value.
    spec fn spec_id(&self) -> u64;

    /// The size, as a mathematical value.
    spec fn spec_size(&self) -> u32;

    /// The encoded miss cost, as a mathematical value.
    spec fn spec_cost_bits(&self) -> u64;

    /// The cost to cache the item, i.e. the cost of a miss, as the IEEE-754
    /// binary64 bit pattern of that cost. The simulator never computes with it.
    fn cost_bits(&self) -> (cost: u64)
        ensures
            cost == self.spec_cost_bits(),
    ;

    /// The size of the item in the cache.
    fn size(&self) -> (size: u32)
        ensures
            size == self.spec_size(),
    ;

    /// The (unique) id of the item; i.e. the address on disk.
    fn id(&self) -> (id: u64)
        ensures
            id == self.spec_id(),
    ;
}

impl Item for u32 {
    open spec fn spec_id(&self) -> u64 {
        *self as u64
    }

    open spec fn spec_size(&self) -> u32 {
        1
    }

    open spec fn spec_cost_bits(&self) -> u64 {
        UNIT_COST_BITS
    }

    fn cost_bits(&self) -> u64 {
        UNIT_COST_BITS
    }

    fn size(&self) -> u32 {
        1
    }

    fn id(&self) -> u64 {
        *self as u64
    }
}

impl Item for u64 {
    open spec fn spec_id(&self) -> u64 {
        *self
    }

    open spec fn spec_size(&self) -> u32 {
        1
    }

    open spec fn spec_cost_bits(&self) -> u64 {
        UNIT_COST_BITS
    }

    fn cost_bits(&self) -> u64 {
        UNIT_COST_BITS
    }

    fn size(&self) -> u32 {
        1
    }

    fn id(&self) -> u64 {
        *self
    }
}

impl Item for i64 {
    /// A negative value is identified by its two's complement bit pattern.
    open spec fn spec_id(&self) -> u64 {
        *self as u64
    }

    open spec fn spec_size(&self) -> u32 {
        1
    }

    open spec fn spec_cost_bits(&self) -> u64 {
        UNIT_COST_BITS
    }

    fn cost_bits(&self) -> u64 {
        UNIT_COST_BITS
    }

    fn size(&self) -> u32 {
        1
    }

    fn id(&self) -> u64 {
        #[verifier::truncate]
        (*self as u64)
    }
}

/// A cacheable item with arbitrary const cost and size.
///
/// Equality looks at the identifier only, so make sure that the identifier is
/// different for each item in a trace.
#[derive(Debug, Copy, Clone)]
pub struct GeneralModelItem {
    uid: u64,
    cost: u64,
    size: u32,
}

impl GeneralModelItem {
    /// Create a new general model item. `cost` is the IEEE-754 binary64 bit
    /// pattern of the miss cost.
    ///
    /// If you don't care about the unique identifier, prefer using a
    /// [`GeneralModelGenerator`].
    #[must_use]
    pub fn new(uid: u64, cost: u64, size: u32) -> (item: Self)
        ensures
            item.spec_id() == uid,
            item.spec_cost_bits() == cost,
            item.spec_size() == size,
    {
        Self { uid, cost, size }
    }
}

impl Default for GeneralModelItem {
    fn default() -> (item: Self)
        ensures
            item.spec_id() == 0,
            item.spec_cost_bits() == 0,
            item.spec_size() == 0,
    {
        Self { uid: 0, cost: 0, size: 0 }
    }
}

impl PartialEq for GeneralModelItem {
    fn eq(&self, other: &Self) -> (equal: bool) {
        self.uid == other.uid
    }
}

impl PartialEqSpecImpl for GeneralModelItem {
    open spec fn obeys_eq_spec() -> bool {
        true
    }

    open spec fn eq_spec(&self, other: &Self) -> bool {
        self.spec_id() == other.spec_id()
    }
}

impl Eq for GeneralModelItem {

}

impl core::hash::Hash for GeneralModelItem {
    /// An item hashes as its identifier does: the identifier is handed to
    /// `<u64 as Hash>::hash`. Nothing is claimed of what the hasher does.
    #[verifier::external_body]
    fn hash<H: core::hash::Hasher>(&self, state: &mut H) {
        self.uid.hash(state);
    }
}

impl Item for GeneralModelItem {
    closed spec fn spec_id(&self) -> u64 {
        self.uid
    }

    closed spec fn spec_size(&self) -> u32 {
        self.size
    }

    closed spec fn spec_cost_bits(&self) -> u64 {
        self.cost
    }

    fn cost_bits(&self) -> u64 {
        self.cost
    }

    fn size(&self) -> u32 {
        self.size
    }

    fn id(&self) -> u64 {
        self.uid
    }
}

/// A generator for general model items.
///
/// If you don't care about the unique identifier, this is the preferred way to
/// create these items.
pub struct GeneralModelGenerator {
    counter: u64,
}

impl GeneralModelGenerator {
    /// The identifier that the next item will get.
    pub closed spec fn next_uid(&self) -> u64 {
        self.counter
    }

    /// Create the next item. Identifiers count up from zero, so no two items
    /// of one generator share an identifier.
    pub fn item(&mut self, cost: u64, size: u32) -> (item: GeneralModelItem)
        requires
            old(self).next_uid() < u64::MAX,
        ensures
            item.spec_id() == old(self).next_uid(),
            item.spec_cost_bits() == cost,
            item.spec_size() == size,
            final(self).next_uid() == old(self).next_uid() + 1,
    {
        let ret = GeneralModelItem { uid: self.counter, cost, size };
        self.counter = self.counter + 1;
        ret
    }

    /// Create a new general model item generator.
    #[must_use]
    pub fn new() -> (generator: Self)
        ensures
            generator.next_uid() == 0,
    {
        Self { counter: 0 }
    }
}

impl Default for GeneralModelGenerator {
    fn default() -> (generator: Self)
        ensures
            generator.next_uid() == 0,
    {
        Self::new()
    }
}

} // verus!
