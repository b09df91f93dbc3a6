//! A throwaway span marker for hosts that only care whether a parse
//! succeeded, not which rules matched.

use vstd::prelude::*;

verus! {

/// A marker that every rule name maps to.
#[derive(Clone, Copy, PartialEq, Eq, PartialOrd, Ord, Hash, Debug)]
pub struct Dummy(pub i32);

impl core::str::FromStr for Dummy {
    type Err = usize;

    fn from_str(_s: &str) -> Result<Self, Self::Err> {
        Ok(Dummy(0))
    }
}

} // verus!
