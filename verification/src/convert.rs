//! What the standard conversions into an optional value return.
//!
//! The writes of this library take a value or an optional value, `V:
//! Into<Option<N>>`. Their contracts say that what is written is what the
//! conversion returns; the two conversions that the standard library offers
//! for every `N` are specified here, and are taken on trust.

use vstd::prelude::*;

verus! {

/// `Option::<T>::from` of the standard library, which converts a value into
/// an optional value: the result holds the value, as `Some`.
pub assume_specification<T>[ <Option<T> as core::convert::From<T>>::from ](value: T) -> (result:
    Option<T>)
    ensures
        result == Some(value),
;

/// The conversion of the standard library from a type into itself: the
/// result is the argument, unchanged.
pub assume_specification<T>[ <T as core::convert::From<T>>::from ](value: T) -> (result: T)
    ensures
        result == value,
;

} // verus!
