//! Fresh correlation ids for outgoing requests.
use vstd::prelude::*;

verus! {

/// Relies on `rand::random`: nothing is assumed of the drawn value.
pub assume_specification<T>[ rand::random::<T> ]() -> (r: T)
    where
        rand::distr::StandardUniform: rand::distr::Distribution<T>,
;

/// Draws a fresh request id.  Ids are random and collision-improbable,
/// but nothing here depends on that: correlation treats any id match as
/// the response it waits for.
pub fn fresh_request_id() -> u64 {
    rand::random::<u64>()
}

} // verus!
