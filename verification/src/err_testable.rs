//! The failure predicate a driver applies to a pass's return value.

use vstd::prelude::*;

verus! {

/// Whether a routine's return value signals failure.  Generalizes the
/// `is_err` test of `Result` and the `is_none` test of `Option`; a unit
/// return never fails.
pub trait ErrTestable {
    /// Whether the value counts as a failure.
    spec fn err_spec(&self) -> bool;

    /// Returns `true` if `self` indicates error or absence of value.
    fn is_err(&self) -> (r: bool)
        ensures
            r == self.err_spec(),
    ;
}

impl<T, E: core::fmt::Debug> ErrTestable for Result<T, E> {
    open spec fn err_spec(&self) -> bool {
        self is Err
    }

    fn is_err(&self) -> (r: bool) {
        match self {
            Result::Ok(_) => false,
            Result::Err(_) => true,
        }
    }
}

impl<T> ErrTestable for Option<T> {
    open spec fn err_spec(&self) -> bool {
        self is None
    }

    fn is_err(&self) -> (r: bool) {
        match self {
            Option::Some(_) => false,
            Option::None => true,
        }
    }
}

impl ErrTestable for () {
    open spec fn err_spec(&self) -> bool {
        false
    }

    fn is_err(&self) -> (r: bool) {
        false
    }
}

} // verus!
