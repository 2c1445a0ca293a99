use vstd::prelude::*;

use crate::corpus::{KnownLength, SubsetTest};

verus! {

/// A value kept together with the text it was read from.
pub struct StringWrapped<T> {
    /// The text.
    pub payload: String,
    /// The wrapped value.
    pub internal: T,
}

impl<T> StringWrapped<T> {
    /// The text.
    pub fn to_string(&self) -> (r: String)
        ensures
            r@ == self.payload@,
    {
        self.payload.clone()
    }

    /// The wrapped value.
    pub fn deref(&self) -> (r: &T)
        ensures
            *r == self.internal,
    {
        &self.internal
    }
}

impl<T: KnownLength> KnownLength for StringWrapped<T> {
    open spec fn spec_len(&self) -> nat {
        self.internal.spec_len()
    }

    open spec fn valid(&self) -> bool {
        self.internal.valid()
    }

    fn len(&self) -> (r: usize) {
        self.internal.len()
    }
}

impl<T: SubsetTest> SubsetTest for StringWrapped<T> {
    open spec fn subset_spec(&self, other: &Self) -> bool {
        self.internal.subset_spec(&other.internal)
    }

    fn is_subset(&self, other: &Self) -> (r: bool) {
        self.internal.is_subset(&other.internal)
    }
}

} // verus!
