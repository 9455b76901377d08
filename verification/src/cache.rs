//! The abstract cache interface: a bounded, mapping-like container keyed by
//! a hashable, equatable key type.

use std::hash::Hash;
use vstd::prelude::*;

verus! {

/// Interface for a cache.  An implementor supplies its own invariant, which
/// insertion and lookup preserve; the exact eviction and recency behaviour is
/// stated on the implementing type.
pub trait Cache<K, V>: Sized where K: Hash + Eq, V: Copy {
    /// The implementor's well-formedness condition.
    spec fn inv(&self) -> bool;

    /// Insert a new key-value pair.
    fn insert(&mut self, key: K, value: V)
        requires
            old(self).inv(),
        ensures
            final(self).inv(),
    ;

    /// Get the value corresponding to `key`.
    fn get(&mut self, key: &K) -> (r: Option<V>)
        requires
            old(self).inv(),
        ensures
            final(self).inv(),
    ;
}

} // verus!
