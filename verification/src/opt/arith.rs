//! Arithmetic on the integers of a width, over mathematical integers.

use crate::ir::types::IntWidth;
use crate::opt::ints::{bit_length, low_bits, low_zeros, ones, sext, zext};
use vstd::arithmetic::power2::{lemma2_to64, lemma_pow2_adds, lemma_pow2_pos, lemma_pow2_unfold, pow2};
use vstd::prelude::*;

verus! {

/// How many integers have a width.
pub open spec fn size(w: IntWidth) -> int {
    match w {
        IntWidth::I8 => 0x100,
        IntWidth::I16 => 0x1_0000,
        IntWidth::I32 => 0x1_0000_0000,
        IntWidth::I64 => 0x1_0000_0000_0000_0000,
        IntWidth::I128 => 0x1_0000_0000_0000_0000_0000_0000_0000_0000int,
    }
}

/// How many binary digits a width has.
pub open spec fn digits(w: IntWidth) -> nat {
    match w {
        IntWidth::I8 => 8,
        IntWidth::I16 => 16,
        IntWidth::I32 => 32,
        IntWidth::I64 => 64,
        IntWidth::I128 => 128,
    }
}

/// Is `n` among the integers of a width, half of them below zero?
pub open spec fn fits(n: int, w: IntWidth) -> bool {
    -size(w) <= 2 * n < size(w)
}

/// Are `a` and `b` the same number at a width?
pub open spec fn congruent(a: int, b: int, w: IntWidth) -> bool {
    (a - b) % size(w) == 0
}

/// The digits of an integer of a width, read without a sign.
pub open spec fn unsigned(x: int, w: IntWidth) -> int {
    if x < 0 {
        x + size(w)
    } else {
        x
    }
}

/// The size of a number.
pub open spec fn abs(x: int) -> int {
    if x < 0 {
        -x
    } else {
        x
    }
}

/// Is `q` the quotient of `x` by `y` rounded to zero? What is left over is
/// smaller than `y` and has the sign of `x`.
pub open spec fn quotient(x: int, y: int, q: int) -> bool {
    let r = x - q * y;
    abs(r) < abs(y) && (r == 0 || (r < 0 <==> x < 0))
}

/// Is there a quotient, and does it have the width?
pub open spec fn divides(x: int, y: int, w: IntWidth) -> bool {
    y != 0 && !(2 * x == -size(w) && y == -1)
}

/// How many of the lowest `k` binary digits of `n` are one.
pub open spec fn digit_sum(n: int, k: nat) -> nat
    decreases k,
{
    if k == 0 {
        0
    } else {
        digit_sum(n, (k - 1) as nat) + if (n / pow2((k - 1) as nat) as int) % 2 == 1 {
            1nat
        } else {
            0nat
        }
    }
}

/// How many zeros `n` starts with, written with `k` binary digits.
pub open spec fn zeros_in_front(n: int, k: nat) -> nat
    decreases k,
{
    if k == 0 || n >= pow2((k - 1) as nat) {
        0
    } else {
        1 + zeros_in_front(n, (k - 1) as nat)
    }
}

/// How many zeros `n` ends with, written with `k` binary digits.
pub open spec fn zeros_at_the_end(n: int, k: nat) -> nat
    decreases k,
{
    if k == 0 || n % 2 == 1 {
        0
    } else {
        1 + zeros_at_the_end(n / 2, (k - 1) as nat)
    }
}

/// A number of a width is told by its digits there.
pub proof fn lemma_same_number(a: int, b: int, w: IntWidth)
    requires
        fits(a, w),
        fits(b, w),
        congruent(a, b, w),
    ensures
        a == b,
{
    let d = a - b;
    match w {
        IntWidth::I8 => assert(d % 0x100 == 0 && -0x100 < d < 0x100 ==> d == 0),
        IntWidth::I16 => assert(d % 0x1_0000 == 0 && -0x1_0000 < d < 0x1_0000 ==> d == 0),
        IntWidth::I32 => assert(d % 0x1_0000_0000 == 0 && -0x1_0000_0000 < d < 0x1_0000_0000 ==> d
            == 0),
        IntWidth::I64 => assert(d % 0x1_0000_0000_0000_0000 == 0 && -0x1_0000_0000_0000_0000 < d
            < 0x1_0000_0000_0000_0000 ==> d == 0),
        IntWidth::I128 => assert(d % 0x1_0000_0000_0000_0000_0000_0000_0000_0000int == 0
            && -0x1_0000_0000_0000_0000_0000_0000_0000_0000int < d
            < 0x1_0000_0000_0000_0000_0000_0000_0000_0000int ==> d == 0),
    }
}

/// Sign extension keeps the number at the width.
pub proof fn lemma_sext(v: i128, w: IntWidth)
    ensures
        fits(sext(v, w) as int, w),
        congruent(sext(v, w) as int, v as int, w),
        fits(v as int, w) ==> sext(v, w) == v,
{
    match w {
        IntWidth::I8 => {
            let s = (v as i8) as i128;
            let k = v >> 8u32;
            assert(s == v - k * 256 || s == v - k * 256 - 256) by (bit_vector)
                requires
                    s == (v as i8) as i128,
                    k == v >> 8u32,
            ;
        },
        IntWidth::I16 => {
            let s = (v as i16) as i128;
            let k = v >> 16u32;
            assert(s == v - k * 0x1_0000 || s == v - k * 0x1_0000 - 0x1_0000) by (bit_vector)
                requires
                    s == (v as i16) as i128,
                    k == v >> 16u32,
            ;
        },
        IntWidth::I32 => {
            let s = (v as i32) as i128;
            let k = v >> 32u32;
            assert(s == v - k * 0x1_0000_0000 || s == v - k * 0x1_0000_0000 - 0x1_0000_0000)
                by (bit_vector)
                requires
                    s == (v as i32) as i128,
                    k == v >> 32u32,
            ;
        },
        IntWidth::I64 => {
            let s = (v as i64) as i128;
            let k = v >> 64u32;
            assert(s == v - k * 0x1_0000_0000_0000_0000 || s == v - k * 0x1_0000_0000_0000_0000
                - 0x1_0000_0000_0000_0000) by (bit_vector)
                requires
                    s == (v as i64) as i128,
                    k == v >> 64u32,
            ;
        },
        IntWidth::I128 => {},
    }
}

/// The low bits of an integer of a width are its digits.
pub proof fn lemma_low_bits(x: i128, w: IntWidth)
    requires
        fits(x as int, w),
    ensures
        low_bits(x, w) == unsigned(x as int, w),
        congruent(zext(x, w) as int, unsigned(x as int, w), w),
        w != IntWidth::I128 ==> zext(x, w) == unsigned(x as int, w),
{
    match w {
        IntWidth::I8 => {
            assert(-128 <= x < 128 ==> (x as u8) as i128 == if x < 0 {
                x + 256
            } else {
                x as int
            }) by (bit_vector);
        },
        IntWidth::I16 => {
            assert(-0x8000 <= x < 0x8000 ==> (x as u16) as i128 == if x < 0 {
                x + 0x1_0000
            } else {
                x as int
            }) by (bit_vector);
        },
        IntWidth::I32 => {
            assert(-0x8000_0000 <= x < 0x8000_0000 ==> (x as u32) as i128 == if x < 0 {
                x + 0x1_0000_0000
            } else {
                x as int
            }) by (bit_vector);
        },
        IntWidth::I64 => {
            assert(-0x8000_0000_0000_0000 <= x < 0x8000_0000_0000_0000 ==> (x as u64) as i128 == if x
                < 0 {
                x + 0x1_0000_0000_0000_0000
            } else {
                x as int
            }) by (bit_vector);
        },
        IntWidth::I128 => {
            assert((x as u128) == if x < 0 {
                x + 0xffff_ffff_ffff_ffff_ffff_ffff_ffff_ffffu128 + 1
            } else {
                x as int
            }) by (bit_vector);
        },
    }
}

/// Numbers that are the same at the largest width are the same at each.
pub proof fn lemma_narrower(a: int, b: int, w: IntWidth)
    requires
        congruent(a, b, IntWidth::I128),
    ensures
        congruent(a, b, w),
{
}

/// To be the same number carries over.
pub proof fn lemma_congruent(a: int, b: int, c: int, w: IntWidth)
    requires
        congruent(a, b, w),
        congruent(b, c, w),
    ensures
        congruent(a, c, w),
{
    let m = size(w);
    let x = a - b;
    let y = b - c;
    vstd::arithmetic::div_mod::lemma_add_mod_noop(x, y, m);
    assert(x + y == a - c);
}

/// To be the same number goes both ways.
pub proof fn lemma_congruent_back(a: int, b: int, w: IntWidth)
    requires
        congruent(a, b, w),
    ensures
        congruent(b, a, w),
{
    let m = size(w);
    let x = a - b;
    vstd::arithmetic::div_mod::lemma_sub_mod_noop(0, x, m);
    assert(0 - x == b - a);
}

/// There is one quotient.
pub proof fn lemma_one_quotient(x: int, y: int, p: int, q: int)
    requires
        quotient(x, y, p),
        quotient(x, y, q),
    ensures
        p == q,
{
    let r = x - p * y;
    let s = x - q * y;
    assert((p - q) * y == s - r) by (nonlinear_arith)
        requires
            r == x - p * y,
            s == x - q * y,
    ;
    assert(abs(s - r) < abs(y));
    let d = p - q;
    assert(d == 0) by (nonlinear_arith)
        requires
            d * y == s - r,
            -abs(y) < s - r < abs(y),
            abs(y) == y || abs(y) == -y,
    ;
}

/// A quotient of two numbers of one sign, and its signs elsewhere.
proof fn lemma_floor(x: int, y: int)
    requires
        x >= 0,
        y > 0,
    ensures
        x == (x / y) * y + x % y,
        0 <= x % y < y,
        0 <= x / y <= x,
{
    vstd::arithmetic::div_mod::lemma_fundamental_div_mod(x, y);
    vstd::arithmetic::mul::lemma_mul_is_commutative(y, x / y);
    vstd::arithmetic::div_mod::lemma_mod_bound(x, y);
    vstd::arithmetic::div_mod::lemma_div_pos_is_pos(x, y);
    vstd::arithmetic::div_mod::lemma_div_is_ordered_by_denominator(x, 1, y);
    vstd::arithmetic::div_mod::lemma_div_basics(x);
}

/// The quotient of the machine is the quotient rounded to zero, and what it
/// leaves over is the remainder.
pub proof fn lemma_machine_division(x: i128, y: i128, w: IntWidth)
    requires
        fits(x as int, w),
        fits(y as int, w),
        divides(x as int, y as int, w),
    ensures
        x.checked_div(y) is Some,
        x.checked_rem(y) is Some,
        quotient(x as int, y as int, x.checked_div(y)->0 as int),
        x == (x.checked_div(y)->0) * y + x.checked_rem(y)->0,
        fits(x.checked_div(y)->0 as int, w),
        fits(x.checked_rem(y)->0 as int, w),
{
    let a = abs(x as int);
    let b = abs(y as int);
    lemma_floor(a, b);
    let q = a / b;
    let r = a % b;
    let sq: int = if x == 0 {
        0
    } else if (x > 0) == (y > 0) {
        q
    } else {
        -q
    };
    let sr: int = if x < 0 {
        -r
    } else {
        r
    };
    if x == 0 {
        assert(q == 0);
        assert(q * b == 0) by (nonlinear_arith)
            requires
                q == 0,
        ;
        assert(r == 0);
    }
    assert(x == sq * y + sr) by (nonlinear_arith)
        requires
            a == q * b + r,
            x == a || x == -a,
            y == b || y == -b,
            x < 0 ==> x == -a,
            x >= 0 ==> x == a,
            y < 0 ==> y == -b,
            y >= 0 ==> y == b,
            x == 0 ==> sq == 0 && sr == 0,
            x != 0 ==> (sq == q && (x > 0) == (y > 0)) || (sq == -q && (x > 0) != (y > 0)),
            sr == r || sr == -r,
            x < 0 ==> sr == -r,
            x >= 0 ==> sr == r,
            y != 0,
    ;
    assert(q <= a);
    if 2 * x == -size(w) && b > 1 {
        assert(2 * q <= a) by (nonlinear_arith)
            requires
                a == q * b + r,
                r >= 0,
                q >= 0,
                b >= 2,
        ;
    }
    if b == 1 {
        assert(q == a) by (nonlinear_arith)
            requires
                a == q * b + r,
                b == 1,
                0 <= r < b,
        ;
    }
    assert(x.checked_div(y) == Some(sq as i128));
    assert(x.checked_rem(y) == Some(sr as i128));
}

/// A shift to the left multiplies.
pub proof fn lemma_shift_left(x: i128, k: u32)
    requires
        k < 128,
    ensures
        congruent((x << k) as int, x * pow2(k as nat), IntWidth::I128),
    decreases k,
{
    if k == 0 {
        lemma2_to64();
        assert(x << 0u32 == x) by (bit_vector);
        assert(x * 1 == x);
    } else {
        let j = (k - 1) as u32;
        lemma_shift_left(x, j);
        lemma_pow2_unfold(k as nat);
        let a = x << j;
        let b = x << k;
        assert(b == a << 1u32) by (bit_vector)
            requires
                0 < k < 128,
                j == k - 1,
                a == x << j,
                b == x << k,
        ;
        assert(b == 2 * a || b == 2 * a - 0xffff_ffff_ffff_ffff_ffff_ffff_ffff_ffffu128 - 1 || b == 2 * a
            + 0xffff_ffff_ffff_ffff_ffff_ffff_ffff_ffffu128 + 1) by (bit_vector)
            requires
                b == a << 1u32,
        ;
        let p = pow2(j as nat) as int;
        assert(x * (2 * p) == 2 * (x * p)) by (nonlinear_arith);
        lemma_doubled(a as int, x * p);
    }
}

proof fn lemma_doubled(a: int, b: int)
    requires
        congruent(a, b, IntWidth::I128),
    ensures
        congruent(2 * a, 2 * b, IntWidth::I128),
{
}

/// To divide by a number and by two is to divide by its double.
proof fn lemma_halved(x: int, p: int)
    requires
        p > 0,
    ensures
        x / (2 * p) == (x / p) / 2,
        x / (2 * p) == (x / 2) / p,
{
    let q = x / p;
    let r = x % p;
    vstd::arithmetic::div_mod::lemma_fundamental_div_mod(x, p);
    vstd::arithmetic::div_mod::lemma_mod_bound(x, p);
    let h = q / 2;
    let b = q % 2;
    assert(x == h * (2 * p) + (b * p + r) && 0 <= b * p + r < 2 * p) by (nonlinear_arith)
        requires
            x == p * q + r,
            q == 2 * h + b,
            0 <= b < 2,
            0 <= r < p,
    ;
    vstd::arithmetic::div_mod::lemma_fundamental_div_mod_converse(x, 2 * p, h, b * p + r);
    let y = x / 2;
    let c = x % 2;
    let t = y / p;
    let u = y % p;
    vstd::arithmetic::div_mod::lemma_fundamental_div_mod(y, p);
    vstd::arithmetic::div_mod::lemma_mod_bound(y, p);
    assert(x == t * (2 * p) + (2 * u + c) && 0 <= 2 * u + c < 2 * p) by (nonlinear_arith)
        requires
            x == 2 * y + c,
            y == p * t + u,
            0 <= c < 2,
            0 <= u < p,
    ;
    vstd::arithmetic::div_mod::lemma_fundamental_div_mod_converse(x, 2 * p, t, 2 * u + c);
}

/// A shift to the right divides.
pub proof fn lemma_shift_right(x: i128, k: u32)
    requires
        k < 128,
    ensures
        x >> k == x as int / pow2(k as nat) as int,
    decreases k,
{
    if k == 0 {
        lemma2_to64();
        assert(x >> 0u32 == x) by (bit_vector);
        assert(x as int / 1 == x);
    } else {
        let j = (k - 1) as u32;
        lemma_shift_right(x, j);
        lemma_pow2_unfold(k as nat);
        lemma_pow2_pos(j as nat);
        let a = x >> j;
        let b = x >> k;
        assert(2 * b <= a <= 2 * b + 1) by (bit_vector)
            requires
                0 < k < 128,
                j == k - 1,
                a == x >> j,
                b == x >> k,
        ;
        let p = pow2(j as nat) as int;
        lemma_halved(x as int, p);
        assert(b == a / 2);
    }
}

/// A shift to the right of the digits divides.
pub proof fn lemma_digits_right(x: u128, k: u32)
    requires
        k < 128,
    ensures
        x >> k == x as int / pow2(k as nat) as int,
{
    let j = k as u128;
    vstd::bits::lemma_u128_shr_is_div(x, j);
    assert(x >> k == x >> j) by (bit_vector)
        requires
            j == k as u128,
            k < 128,
    ;
}

/// A number of a width has that many digits.
pub proof fn lemma_digits(w: IntWidth)
    ensures
        size(w) == pow2(digits(w)),
{
    lemma2_to64();
    lemma_pow2_adds(64, 64);
}

proof fn lemma_digit_sum_halved(n: int, k: nat)
    requires
        k > 0,
    ensures
        digit_sum(n, k) == digit_sum(n / 2, (k - 1) as nat) + if n % 2 == 1 {
            1nat
        } else {
            0nat
        },
    decreases k,
{
    lemma2_to64();
    if k == 1 {
        assert(digit_sum(n, 0) == 0);
        assert(digit_sum(n / 2, 0) == 0);
        assert(n / 1 == n);
    } else {
        lemma_digit_sum_halved(n, (k - 1) as nat);
        let p = pow2((k - 2) as nat) as int;
        lemma_pow2_pos((k - 2) as nat);
        lemma_pow2_unfold((k - 1) as nat);
        lemma_halved(n, p);
    }
}

/// The counts of digits are the ones of the machine.
pub proof fn lemma_counts(n: nat, k: nat)
    requires
        n < pow2(k),
    ensures
        ones(n) == digit_sum(n as int, k),
        k - bit_length(n) == zeros_in_front(n as int, k),
        (if n == 0 {
            k
        } else {
            low_zeros(n)
        }) == zeros_at_the_end(n as int, k),
    decreases k,
{
    lemma2_to64();
    if k == 0 {
        assert(n == 0);
    } else {
        lemma_pow2_unfold(k);
        lemma_counts(n / 2, (k - 1) as nat);
        lemma_digit_sum_halved(n as int, k);
        lemma_front(n, k);
    }
}

proof fn lemma_front(n: nat, k: nat)
    requires
        n < pow2(k),
    ensures
        k - bit_length(n) == zeros_in_front(n as int, k),
    decreases k,
{
    lemma2_to64();
    if k > 0 {
        lemma_pow2_unfold(k);
        if n >= pow2((k - 1) as nat) {
            lemma_full(n, k);
        } else {
            lemma_front(n, (k - 1) as nat);
        }
    }
}

proof fn lemma_full(n: nat, k: nat)
    requires
        k > 0,
        pow2((k - 1) as nat) <= n < pow2(k),
    ensures
        bit_length(n) == k,
    decreases k,
{
    lemma2_to64();
    lemma_pow2_unfold(k);
    if k == 1 {
        assert(n == 1);
        assert(bit_length(0) == 0);
        assert(bit_length(1) == 1 + bit_length(0));
    } else {
        lemma_pow2_unfold((k - 1) as nat);
        lemma_full(n / 2, (k - 1) as nat);
        lemma_pow2_pos((k - 1) as nat);
    }
}

} // verus!
