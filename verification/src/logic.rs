//! Boolean helpers.

use vstd::prelude::*;

verus! {

/// The NAND of two booleans: false only when both are true.
pub fn nand(a: bool, b: bool) -> (c: bool)
    ensures
        c == !(a && b),
{
    !(a && b)
}

} // verus!
