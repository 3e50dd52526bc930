//! A one-parameter function with a defaulted argument, offered as two entry
//! points: one taking the argument, one supplying the default.

use vstd::prelude::*;

verus! {

/// Adds ten to its argument.
pub fn f(a: u32) -> (r: u32)
    requires
        a <= u32::MAX - 10,
    ensures
        r == a + 10,
{
    a + 10
}

/// `f` applied to its default argument of ten.
pub fn f_default() -> (r: u32)
    ensures
        r == 20,
{
    f(10)
}

} // verus!
