//! Numbers of 32 bits.

use vstd::prelude::*;

verus! {

/// A number of 32 bits, where the highest one is the sign.
pub open spec fn signed_bits(n: u32) -> int {
    if n <= i32::MAX {
        n as int
    } else {
        n - 0x1_0000_0000
    }
}

/// Takes the highest of 32 bits as the sign.
pub fn to_signed(n: u32) -> (r: i32)
    ensures
        r == signed_bits(n),
{
    if n <= 0x7FFF_FFFF {
        n as i32
    } else {
        (n as i64 - 0x1_0000_0000) as i32
    }
}

/// The number that the lowest 32 bits of `n` hold, the highest of them the sign.
pub open spec fn wrapped(n: int) -> int {
    let low = n % 0x1_0000_0000;
    if low < 0x8000_0000 {
        low
    } else {
        low - 0x1_0000_0000
    }
}

/// Keeps the lowest 32 bits.
pub fn wrap_i32(n: i64) -> (r: i32)
    ensures
        r == wrapped(n as int),
{
    let positive: u128 = (n as i128 + 0x1_0000_0000_0000_0000) as u128;
    let low: u32 = (positive % 0x1_0000_0000) as u32;
    to_signed(low)
}

/// Numbers of 32 bits are not changed.
pub proof fn small_numbers_stay(n: int)
    requires
        i32::MIN <= n <= i32::MAX,
    ensures
        wrapped(n) == n,
{
}

/// Keeping the lowest 32 bits gives a number of 32 bits that differs from the
/// whole one by a multiple of 4294967296.
pub proof fn wrapping_drops_high_bits(n: int)
    ensures
        i32::MIN <= wrapped(n) <= i32::MAX,
        (n - wrapped(n)) % 0x1_0000_0000 == 0,
{
}

/// Taking the highest bit as the sign changes a number by nothing, or by
/// 4294967296 where that bit is set.
pub proof fn sign_is_the_highest_bit(n: u32)
    ensures
        i32::MIN <= signed_bits(n) <= i32::MAX,
        (n - signed_bits(n)) % 0x1_0000_0000 == 0,
        signed_bits(n) < 0 <==> n >= 0x8000_0000,
{
}

} // verus!
