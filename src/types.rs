//! Sensor readings: one unsigned 16-bit magnitude per channel.

use vstd::prelude::*;

verus! {

/// One reading of `N` channels, in channel order.
#[derive(Clone, Copy, Debug, PartialEq, Eq)]
pub struct AdcValues<const N: usize>(pub [u16; N]);

impl<const N: usize> AdcValues<N> {
    /// The readings as an array.
    pub fn as_array(&self) -> (r: &[u16; N])
        ensures
            r@ == self.0@,
    {
        &self.0
    }
}

impl<const N: usize> Default for AdcValues<N> {
    /// All channels read zero.
    fn default() -> (r: Self)
        ensures
            forall|i: int| 0 <= i < N ==> r.0@[i] == 0,
    {
        AdcValues([0u16; N])
    }
}


impl<const N: usize> From<AdcValues<N>> for [u16; N] {
    fn from(value: AdcValues<N>) -> (r: [u16; N])
        ensures
            r == value.0,
    {
        value.0
    }
}

impl<const N: usize> vstd::std_specs::convert::FromSpecImpl<AdcValues<N>> for [u16; N] {
    open spec fn obeys_from_spec() -> bool {
        true
    }

    open spec fn from_spec(v: AdcValues<N>) -> [u16; N] {
        v.0
    }
}

impl<const N: usize> From<[u16; N]> for AdcValues<N> {
    fn from(value: [u16; N]) -> (r: AdcValues<N>)
        ensures
            r.0 == value,
    {
        AdcValues(value)
    }
}

impl<const N: usize> vstd::std_specs::convert::FromSpecImpl<[u16; N]> for AdcValues<N> {
    open spec fn obeys_from_spec() -> bool {
        true
    }

    open spec fn from_spec(v: [u16; N]) -> AdcValues<N> {
        AdcValues(v)
    }
}

impl<const N: usize> core::ops::Deref for AdcValues<N> {
    type Target = [u16; N];

    fn deref(&self) -> (r: &[u16; N])
        ensures
            *r == self.0,
    {
        &self.0
    }
}

} // verus!
