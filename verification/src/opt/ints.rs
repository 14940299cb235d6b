//! Integers of the declared widths, held in 128 bits.

use crate::ir::types::IntWidth;
use vstd::prelude::*;

verus! {

/// The low bits of `v` at a width, read as a signed number.
pub open spec fn sext(v: i128, w: IntWidth) -> i128 {
    match w {
        IntWidth::I8 => (v as i8) as i128,
        IntWidth::I16 => (v as i16) as i128,
        IntWidth::I32 => (v as i32) as i128,
        IntWidth::I64 => (v as i64) as i128,
        IntWidth::I128 => v,
    }
}

/// The low bits of `v` at a width, read as an unsigned number where they are
/// fewer than all.
pub open spec fn zext(v: i128, w: IntWidth) -> i128 {
    match w {
        IntWidth::I8 => (v as u8) as i128,
        IntWidth::I16 => (v as u16) as i128,
        IntWidth::I32 => (v as u32) as i128,
        IntWidth::I64 => (v as u64) as i128,
        IntWidth::I128 => v,
    }
}

/// The low bits of `v` at a width.
pub open spec fn low_bits(v: i128, w: IntWidth) -> u128 {
    match w {
        IntWidth::I8 => (v as u8) as u128,
        IntWidth::I16 => (v as u16) as u128,
        IntWidth::I32 => (v as u32) as u128,
        IntWidth::I64 => (v as u64) as u128,
        IntWidth::I128 => v as u128,
    }
}

/// The smallest number of a width.
pub open spec fn smallest(w: IntWidth) -> i128 {
    match w {
        IntWidth::I8 => -0x80i128,
        IntWidth::I16 => -0x8000i128,
        IntWidth::I32 => -0x8000_0000i128,
        IntWidth::I64 => -0x8000_0000_0000_0000i128,
        IntWidth::I128 => i128::MIN,
    }
}

/// The largest number of a width.
pub open spec fn largest(w: IntWidth) -> i128 {
    match w {
        IntWidth::I8 => 0x7fi128,
        IntWidth::I16 => 0x7fffi128,
        IntWidth::I32 => 0x7fff_ffffi128,
        IntWidth::I64 => 0x7fff_ffff_ffff_ffffi128,
        IntWidth::I128 => i128::MAX,
    }
}

/// Sign-extends the low bits of `v`.
pub fn sign_extend(v: i128, w: IntWidth) -> (r: i128)
    ensures
        r == sext(v, w),
{
    match w {
        IntWidth::I8 => (v as i8) as i128,
        IntWidth::I16 => (v as i16) as i128,
        IntWidth::I32 => (v as i32) as i128,
        IntWidth::I64 => (v as i64) as i128,
        IntWidth::I128 => v,
    }
}

/// Zero-extends the low bits of `v`.
pub fn zero_extend(v: i128, w: IntWidth) -> (r: i128)
    ensures
        r == zext(v, w),
{
    match w {
        IntWidth::I8 => (v as u8) as i128,
        IntWidth::I16 => (v as u16) as i128,
        IntWidth::I32 => (v as u32) as i128,
        IntWidth::I64 => (v as u64) as i128,
        IntWidth::I128 => v,
    }
}

/// Cuts `v` to its low bits.
pub fn mask(v: i128, w: IntWidth) -> (r: u128)
    ensures
        r == low_bits(v, w),
{
    match w {
        IntWidth::I8 => (v as u8) as u128,
        IntWidth::I16 => (v as u16) as u128,
        IntWidth::I32 => (v as u32) as u128,
        IntWidth::I64 => (v as u64) as u128,
        IntWidth::I128 => v as u128,
    }
}

/// The smallest number of a width.
pub fn least(w: IntWidth) -> (r: i128)
    ensures
        r == smallest(w),
{
    match w {
        IntWidth::I8 => -0x80i128,
        IntWidth::I16 => -0x8000i128,
        IntWidth::I32 => -0x8000_0000i128,
        IntWidth::I64 => -0x8000_0000_0000_0000i128,
        IntWidth::I128 => i128::MIN,
    }
}

/// Sign extension gives a number of the width, and keeps the numbers of the
/// width.
pub proof fn sign_extension_is_canonical(v: i128, w: IntWidth)
    ensures
        smallest(w) <= sext(v, w) <= largest(w),
        smallest(w) <= v <= largest(w) ==> sext(v, w) == v,
        sext(sext(v, w), w) == sext(v, w),
{
}

/// Sign extension keeps the bits of the width.
pub proof fn sign_extension_keeps_bits(v: i128, w: IntWidth)
    ensures
        low_bits(sext(v, w), w) == low_bits(v, w),
{
    assert(((v as i8) as i128) as u8 == v as u8) by (bit_vector);
    assert(((v as i16) as i128) as u16 == v as u16) by (bit_vector);
    assert(((v as i32) as i128) as u32 == v as u32) by (bit_vector);
    assert(((v as i64) as i128) as u64 == v as u64) by (bit_vector);
}

/// How many bits of `n` are set.
pub open spec fn ones(n: nat) -> nat
    decreases n,
{
    if n == 0 {
        0
    } else {
        (n % 2) + ones(n / 2)
    }
}

/// How many bits `n` takes.
pub open spec fn bit_length(n: nat) -> nat
    decreases n,
{
    if n == 0 {
        0
    } else {
        1 + bit_length(n / 2)
    }
}

/// How many bits of `n` below its lowest set bit are clear.
pub open spec fn low_zeros(n: nat) -> nat
    decreases n,
{
    if n == 0 || n % 2 == 1 {
        0
    } else {
        1 + low_zeros(n / 2)
    }
}

proof fn lemma_bit_length(n: nat, k: nat)
    requires
        n < vstd::arithmetic::power2::pow2(k),
    ensures
        bit_length(n) <= k,
        ones(n) <= k,
        low_zeros(n) <= k,
    decreases k,
{
    if n > 0 {
        if k == 0 {
            vstd::arithmetic::power2::lemma2_to64();
        } else {
            vstd::arithmetic::power2::lemma_pow2_unfold(k);
            lemma_bit_length(n / 2, (k - 1) as nat);
        }
    }
}

proof fn lemma_counts_fit(n: u128)
    ensures
        bit_length(n as nat) <= 128,
        ones(n as nat) <= 128,
        low_zeros(n as nat) <= 128,
{
    vstd::arithmetic::power2::lemma_pow2_adds(64, 64);
    vstd::arithmetic::power2::lemma2_to64();
    lemma_bit_length(n as nat, 128);
}

/// Counts the set bits.
pub fn count_ones(n: u128) -> (r: u32)
    ensures
        r == ones(n as nat),
{
    proof {
        lemma_counts_fit(n);
    }
    let mut rest: u128 = n;
    let mut found: u32 = 0;
    while rest > 0
        invariant
            found + ones(rest as nat) == ones(n as nat),
            ones(n as nat) <= 128,
        decreases rest,
    {
        found = found + (rest % 2) as u32;
        rest = rest / 2;
    }
    found
}

/// Counts the bits that a number takes.
pub fn count_bits(n: u128) -> (r: u32)
    ensures
        r == bit_length(n as nat),
        r <= 128,
{
    proof {
        lemma_counts_fit(n);
    }
    let mut rest: u128 = n;
    let mut found: u32 = 0;
    while rest > 0
        invariant
            found + bit_length(rest as nat) == bit_length(n as nat),
            bit_length(n as nat) <= 128,
        decreases rest,
    {
        found = found + 1;
        rest = rest / 2;
    }
    found
}

/// Counts the clear bits below the lowest set bit.
pub fn count_low_zeros(n: u128) -> (r: u32)
    ensures
        r == low_zeros(n as nat),
{
    proof {
        lemma_counts_fit(n);
    }
    let mut rest: u128 = n;
    let mut found: u32 = 0;
    while rest > 0 && rest % 2 == 0
        invariant
            found + low_zeros(rest as nat) == low_zeros(n as nat),
            low_zeros(n as nat) <= 128,
        decreases rest,
    {
        found = found + 1;
        rest = rest / 2;
    }
    found
}

} // verus!
