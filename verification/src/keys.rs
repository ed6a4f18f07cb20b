//! What the library asks of a node key type.

use std::hash::Hash;
use vstd::laws_eq::obeys_concrete_eq;
use vstd::prelude::*;
use vstd::std_specs::cmp::PartialEqSpec;
use vstd::std_specs::hash::obeys_key_model;

verus! {

/// A key type is usable as a node when its executable operations agree with
/// mathematical equality on its values: it can key a hash table (its hash is
/// a function of the value), `==` holds of two keys exactly when they are the
/// same value, and `clone` returns the value it was given.
pub open spec fn key_model<T: Eq + Hash + Clone>() -> bool {
    &&& obeys_key_model::<T>()
    &&& obeys_concrete_eq::<T>()
    &&& forall|a: T, b: T| call_ensures(T::clone, (&a,), b) ==> a == b
}

/// What holds of the executable operations on a key type that fits.
pub proof fn lemma_key_laws<T: Eq + Hash + Clone>()
    requires
        key_model::<T>(),
    ensures
        obeys_key_model::<T>(),
        T::obeys_eq_spec(),
        forall|a: T, b: T| a.eq_spec(&b) <==> a == b,
        forall|a: T, b: T| cloned(a, b) ==> a == b,
{
    reveal(obeys_concrete_eq);
}

/// The built-in integer types and `bool` are usable as node keys.
pub proof fn lemma_primitives_are_keys()
    ensures
        key_model::<bool>(),
        key_model::<u8>(),
        key_model::<u16>(),
        key_model::<u32>(),
        key_model::<u64>(),
        key_model::<u128>(),
        key_model::<usize>(),
        key_model::<i8>(),
        key_model::<i16>(),
        key_model::<i32>(),
        key_model::<i64>(),
        key_model::<i128>(),
        key_model::<isize>(),
{
}

} // verus!
