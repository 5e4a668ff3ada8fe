//! Powers of two as weights of the bits of a byte.

use vstd::prelude::*;

verus! {

/// `2^k` for `0 <= k <= 8`.
pub open spec fn two_to(k: int) -> int {
    if k <= 0 {
        1
    } else if k == 1 {
        2
    } else if k == 2 {
        4
    } else if k == 3 {
        8
    } else if k == 4 {
        16
    } else if k == 5 {
        32
    } else if k == 6 {
        64
    } else if k == 7 {
        128
    } else {
        256
    }
}

/// Computes `two_to`.
pub fn two_to_exec(k: usize) -> (r: usize)
    requires
        k <= 8,
    ensures
        r == two_to(k as int),
        1 <= r <= 256,
{
    if k == 0 {
        1
    } else if k == 1 {
        2
    } else if k == 2 {
        4
    } else if k == 3 {
        8
    } else if k == 4 {
        16
    } else if k == 5 {
        32
    } else if k == 6 {
        64
    } else if k == 7 {
        128
    } else {
        256
    }
}

/// The weight of bit `k` of a byte.
pub fn bit_weight(k: u8) -> (r: u8)
    requires
        k <= 7,
    ensures
        r == two_to(k as int),
{
    if k == 0 {
        1
    } else if k == 1 {
        2
    } else if k == 2 {
        4
    } else if k == 3 {
        8
    } else if k == 4 {
        16
    } else if k == 5 {
        32
    } else if k == 6 {
        64
    } else {
        128
    }
}

} // verus!
