//! Shared argument checks and a small integer gcd, used by the container and
//! number types.  The check functions guard conditions that contracts rule
//! out, so their bodies have nothing left to do.

use vstd::prelude::*;
use crate::arith::gcd_nat;

verus! {

/// Guard an index against the bounds of a container.
pub fn check_bounds(pos: i32, begin: i32, end: i32)
    requires
        begin <= pos < end,
{
}

/// Guard a container against being empty.
pub fn check_empty(size: usize)
    requires
        size != 0,
{
}

/// Guard a container against exceeding its maximum size.
pub fn check_full(size: usize, capacity: usize)
    requires
        size < capacity,
{
}

/// Guard a divisor against being zero.
pub fn check_zero(number: i128)
    requires
        number != 0,
{
}

/// Convert a possibly negative index into the matching absolute position.
pub fn calc_index(index: i32, size: usize) -> (r: usize)
    requires
        size <= i32::MAX,
        -(size as int) <= index < size as int,
    ensures
        r == if index < 0 {
            index + size
        } else {
            index as int
        },
{
    if index < 0 {
        (index + size as i32) as usize
    } else {
        index as usize
    }
}

/// Calculate the greatest common divisor of two non-negative integers by the
/// Euclidean algorithm.
pub fn gcd(a: i128, b: i128) -> (r: i128)
    requires
        a >= 0,
        b >= 0,
    ensures
        r == gcd_nat(a as nat, b as nat),
{
    let mut x = a;
    let mut y = b;
    while y != 0
        invariant
            x >= 0,
            y >= 0,
            gcd_nat(x as nat, y as nat) == gcd_nat(a as nat, b as nat),
        decreases y,
    {
        let t = y;
        y = x % y;
        x = t;
    }
    x
}

} // verus!
