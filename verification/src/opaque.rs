//! Storage for data that this library does not look at.

use vstd::prelude::*;

verus! {

/// Data that others own and interpret. It may not be there yet.
pub struct Opaque<T> {
    value: Option<T>,
}

impl<T> Opaque<T> {
    /// The data, if it is there.
    pub closed spec fn held(self) -> Option<T> {
        self.value
    }

    /// Storage that holds `value`.
    pub fn new(value: T) -> (o: Self)
        ensures
            o.held() == Some(value),
    {
        Opaque { value: Some(value) }
    }

    /// Storage that holds nothing yet.
    pub fn uninit() -> (o: Self)
        ensures
            o.held() is None,
    {
        Opaque { value: None }
    }

    /// Access to the data, for its owner.
    pub fn get(&mut self) -> (value: &mut Option<T>)
        ensures
            *value == old(self).held(),
            final(self).held() == *final(value),
    {
        &mut self.value
    }
}

/// Bytes that this library does not look at.
pub type OpaqueBytes<const SIZE: usize> = Opaque<[u8; SIZE]>;

} // verus!
