//! Unsigned integers that are known not to be zero.

use vstd::prelude::*;

verus! {

/// A `u64` above zero.
#[derive(Debug, Clone, Copy, PartialEq, Eq)]
pub struct NonZeroU64 {
    value: u64,
}

impl View for NonZeroU64 {
    type V = u64;

    closed spec fn view(&self) -> u64 {
        self.value
    }
}

impl NonZeroU64 {
    #[verifier::type_invariant]
    spec fn well_formed(self) -> bool {
        self.value > 0
    }

    /// The number, unless it is zero.
    pub fn new(value: u64) -> (result: Option<NonZeroU64>)
        ensures
            match result {
                Some(n) => value > 0 && n@ == value,
                None => value == 0,
            },
    {
        if value == 0 {
            None
        } else {
            Some(NonZeroU64 { value })
        }
    }

    /// The number itself.
    pub fn get(self) -> (value: u64)
        ensures
            value == self@,
            value > 0,
    {
        proof {
            use_type_invariant(&self);
        }
        self.value
    }
}

/// A `usize` above zero.
#[derive(Debug, Clone, Copy, PartialEq, Eq)]
pub struct NonZeroUsize {
    value: usize,
}

impl View for NonZeroUsize {
    type V = usize;

    closed spec fn view(&self) -> usize {
        self.value
    }
}

impl NonZeroUsize {
    #[verifier::type_invariant]
    spec fn well_formed(self) -> bool {
        self.value > 0
    }

    /// The number, unless it is zero.
    pub fn new(value: usize) -> (result: Option<NonZeroUsize>)
        ensures
            match result {
                Some(n) => value > 0 && n@ == value,
                None => value == 0,
            },
    {
        if value == 0 {
            None
        } else {
            Some(NonZeroUsize { value })
        }
    }

    /// The number itself.
    pub fn get(self) -> (value: usize)
        ensures
            value == self@,
            value > 0,
    {
        proof {
            use_type_invariant(&self);
        }
        self.value
    }
}

} // verus!
