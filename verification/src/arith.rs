//! Small arithmetic helpers with exact contracts, usable by handlers and
//! exercised by the test suite.

use vstd::prelude::*;

verus! {

/// Sum of two machine integers; the caller guarantees the sum fits.
pub fn add(a: i32, b: i32) -> (r: i32)
    requires
        i32::MIN <= a as int + b as int <= i32::MAX,
    ensures
        r as int == a as int + b as int,
{
    a + b
}

/// Product of two machine integers; the caller guarantees the product fits.
pub fn multiply(a: i32, b: i32) -> (r: i32)
    requires
        i32::MIN <= a as int * b as int <= i32::MAX,
    ensures
        r as int == a as int * b as int,
{
    a * b
}

/// Whether `n` is divisible by two.
pub fn is_even(n: i32) -> (r: bool)
    ensures
        r == (n as int % 2 == 0),
{
    n % 2 == 0
}

} // verus!
