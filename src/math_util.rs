//! Digit counting on machine-sized numbers.
use vstd::prelude::*;
use crate::math::digit_count;

verus! {

/// Returns how many decimal digits a number has; zero has none.
pub fn digits(x: usize) -> (r: usize)
    ensures
        r == digit_count(x as nat),
{
    let mut n: usize = x;
    let mut count: usize = 0;
    while n > 0
        invariant
            count + digit_count(n as nat) == digit_count(x as nat),
            count <= x - n,
        decreases n,
    {
        assert(n / 10 <= n - 1);
        n = n / 10;
        count = count + 1;
    }
    count
}

} // verus!
