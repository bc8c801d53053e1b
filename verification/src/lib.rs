//! Bounded search over a capability manifest: a precomputed subsumption
//! resolver over a concept hierarchy (with a persisted index and importers
//! for text and KKO exports), isomorphism canonicalization of sections by
//! instance relabeling, and the decisions of the completion search.
use vstd::prelude::*;

pub mod canon;
pub mod enumerate;
pub mod graph;
pub mod index_codec;
pub mod kko;
pub mod loader;
pub mod order;
pub mod resolver_index;
pub mod sorted;
pub mod text;
pub mod walk_order;

pub use canon::{BondKey, InstanceGroup, PlacementKey, PortKey};
pub use enumerate::Bound;
pub use index_codec::IndexDecodeError;
pub use kko::KkoStats;
pub use resolver_index::{IndexedResolver, ResolverBuilder, ResolverError, SubsumptionWitness};

verus! {
} // verus!
