//! A cache simulator.
//!
//! A [`Cache`] replays accesses to items against a replacement policy and lets
//! statistics observe every access. A [`Trace`] holds accesses and measures
//! their structure: frequency histograms under a condition, stack distances,
//! and what follows each context of the trace.
//!
//! The policies are LRU, FIFO, MRU, LFU, RAND, the optimal policy of Belady and
//! Landlord. Every policy is proved to keep a cache within its capacity, a
//! replay with a deterministic policy, which is any but RAND, is proved to be
//! a function of the cache and the trace, and the optimal policy is proved to
//! miss least often.
//!
//! The crate computes with integers only. The miss cost of an item is carried
//! as the bit pattern of a floating point number. The credits of Landlord are
//! kept by a ledger: the crate has one in whole numbers for items that all
//! cost the same, and a caller can supply another. Entropies of the counted
//! distributions are left to the caller.

pub mod cache;
pub mod condition;
pub mod contexts;
pub mod item;
pub mod item_set;
pub mod optimality;
pub mod pretty;
pub mod replacement_policy;
pub mod stats;
pub mod trace;

pub use cache::Cache;
pub use condition::{LastNItems, NoCondition};
pub use item::{GeneralModelGenerator, GeneralModelItem};
pub use replacement_policy::{Fifo, Landlord, Lfu, Lru, Mru, Opt, Rand};
pub use trace::Trace;
