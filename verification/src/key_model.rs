//! What a key type must satisfy for the maps in this crate to behave as maps.
use vstd::prelude::*;
use vstd::pervasive::strictly_cloned;
use vstd::std_specs::hash::obeys_key_model;

verus! {

/// Cloning a value of `K` gives back an equal value.
pub open spec fn clone_is_identity<K: Clone>() -> bool {
    forall|a: K, b: K| #[trigger] strictly_cloned(a, b) ==> a == b
}

/// Deterministic hashing, `==` agreeing with equality, and faithful clones:
/// with such keys a `HashMap` behaves as a finite map.
pub open spec fn lawful_key<K: Clone>() -> bool {
    obeys_key_model::<K>() && clone_is_identity::<K>()
}

} // verus!
