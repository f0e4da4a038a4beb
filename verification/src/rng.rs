//! Randomness for transaction identifiers and the variable tail of the peer
//! id. Nothing is promised of the values drawn.

use vstd::prelude::*;

verus! {

/// Relies on `rand::random`: it returns some value of the requested type;
/// nothing further can be said of a random draw.
pub assume_specification<T>[ rand::random::<T> ]() -> (r: T)
    where
        rand::distributions::Standard: rand::distributions::Distribution<T>,
;

} // verus!
