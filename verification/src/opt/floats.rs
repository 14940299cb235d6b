//! Floating-point questions, put to an evaluator that the caller supplies.
//!
//! Floating-point values are bit patterns of the 64-bit format. What an
//! operation gives is asked of the evaluator; everything around the answer is
//! decided here.

use crate::ir::inst::CmpOp;
use crate::ir::types::FloatWidth;
use vstd::prelude::*;

verus! {

/// An operation on two numbers.
#[derive(Debug, Clone, Copy, PartialEq, Eq, Structural)]
pub enum FloatBin {
    Add,
    Sub,
    Mul,
    Div,
    Pow,
}

/// An operation on one number.
#[derive(Debug, Clone, Copy, PartialEq, Eq, Structural)]
pub enum FloatUn {
    Neg,
    Abs,
    Sqrt,
}

/// A question to the evaluator.
#[derive(Debug, Clone, Copy, PartialEq, Eq, Structural)]
pub enum FloatRequest {
    /// The result of an operation on two numbers, as bits.
    Binary(FloatBin, u64, u64),
    /// The result of an operation on one number, as bits.
    Unary(FloatUn, u64),
    /// A number rounded to the 32-bit format, as bits of the 64-bit format.
    Round(u64),
    /// A comparison, as a truth value.
    Compare(CmpOp, u64, u64),
    /// An integer as a number of the given format, as bits.
    FromInt(i128, FloatWidth),
    /// A number without its fraction, nearest to it among the integers that fit,
    /// as a whole; none of a number that is not finite.
    Truncate(u64),
}

/// An answer of the evaluator.
#[derive(Debug, Clone, Copy, PartialEq, Eq, Structural)]
pub enum FloatReply {
    Bits(u64),
    Truth(bool),
    Whole(Option<i128>),
}

/// Does the evaluator answer every question, and the same question alike?
pub open spec fn is_evaluator<E: Fn(FloatRequest) -> FloatReply>(e: E) -> bool {
    &&& forall|q: FloatRequest| #[trigger] call_requires(e, (q,))
    &&& forall|q: FloatRequest, a: FloatReply, b: FloatReply| #[trigger]
        call_ensures(e, (q,), a) && #[trigger] call_ensures(e, (q,), b) ==> a == b
}

/// What the evaluator answers.
pub open spec fn answer<E: Fn(FloatRequest) -> FloatReply>(e: E, q: FloatRequest) -> FloatReply {
    choose|a: FloatReply| call_ensures(e, (q,), a)
}

/// The bits that the evaluator answers with.
pub open spec fn bits_for<E: Fn(FloatRequest) -> FloatReply>(e: E, q: FloatRequest) -> Option<u64> {
    match answer(e, q) {
        FloatReply::Bits(b) => Some(b),
        _ => None,
    }
}

/// The truth value that the evaluator answers with.
pub open spec fn truth_for<E: Fn(FloatRequest) -> FloatReply>(e: E, q: FloatRequest) -> Option<
    bool,
> {
    match answer(e, q) {
        FloatReply::Truth(b) => Some(b),
        _ => None,
    }
}

/// The integer that the evaluator answers with.
pub open spec fn whole_for<E: Fn(FloatRequest) -> FloatReply>(e: E, q: FloatRequest) -> Option<
    i128,
> {
    match answer(e, q) {
        FloatReply::Whole(n) => n,
        _ => None,
    }
}

/// A number rounded to a format.
pub open spec fn rounded<E: Fn(FloatRequest) -> FloatReply>(
    e: E,
    bits: u64,
    w: FloatWidth,
) -> Option<u64> {
    match w {
        FloatWidth::F32 => bits_for(e, FloatRequest::Round(bits)),
        FloatWidth::F64 => Some(bits),
    }
}

/// The bits of a number without its sign.
pub open spec fn magnitude(bits: u64) -> u64 {
    (bits % 0x8000_0000_0000_0000) as u64
}

/// Is a number finite? Its exponent is then not all ones.
pub open spec fn is_finite(bits: u64) -> bool {
    magnitude(bits) < 0x7ff0_0000_0000_0000
}

/// Is a number zero, of either sign?
pub open spec fn is_zero(bits: u64) -> bool {
    magnitude(bits) == 0
}

/// Does the first number come before the second by magnitude, and where both
/// have the same by sign, the negative one first?
pub open spec fn comes_before(a: u64, b: u64) -> bool {
    magnitude(a) < magnitude(b) || (magnitude(a) == magnitude(b) && a > b)
}

/// Reads off whether a number is finite.
pub fn finite(bits: u64) -> (r: bool)
    ensures
        r == is_finite(bits),
{
    bits % 0x8000_0000_0000_0000 < 0x7ff0_0000_0000_0000
}

/// Reads off whether a number is zero.
pub fn zero(bits: u64) -> (r: bool)
    ensures
        r == is_zero(bits),
{
    bits % 0x8000_0000_0000_0000 == 0
}

/// Reads off which of two numbers comes first.
pub fn precedes(a: u64, b: u64) -> (r: bool)
    ensures
        r == comes_before(a, b),
{
    let x: u64 = a % 0x8000_0000_0000_0000;
    let y: u64 = b % 0x8000_0000_0000_0000;
    x < y || (x == y && a > b)
}

fn ask<E: Fn(FloatRequest) -> FloatReply>(e: &E, q: FloatRequest) -> (r: FloatReply)
    requires
        is_evaluator(*e),
    ensures
        r == answer(*e, q),
{
    let a = e(q);
    proof {
        assert(call_ensures(*e, (q,), a));
        assert(call_ensures(*e, (q,), answer(*e, q)));
    }
    a
}

/// Asks for bits.
pub fn ask_bits<E: Fn(FloatRequest) -> FloatReply>(e: &E, q: FloatRequest) -> (r: Option<u64>)
    requires
        is_evaluator(*e),
    ensures
        r == bits_for(*e, q),
{
    match ask(e, q) {
        FloatReply::Bits(b) => Some(b),
        _ => None,
    }
}

/// Asks for a truth value.
pub fn ask_truth<E: Fn(FloatRequest) -> FloatReply>(e: &E, q: FloatRequest) -> (r: Option<bool>)
    requires
        is_evaluator(*e),
    ensures
        r == truth_for(*e, q),
{
    match ask(e, q) {
        FloatReply::Truth(b) => Some(b),
        _ => None,
    }
}

/// Asks for an integer.
pub fn ask_whole<E: Fn(FloatRequest) -> FloatReply>(e: &E, q: FloatRequest) -> (r: Option<i128>)
    requires
        is_evaluator(*e),
    ensures
        r == whole_for(*e, q),
{
    match ask(e, q) {
        FloatReply::Whole(n) => n,
        _ => None,
    }
}

/// Rounds a number to a format.
pub fn round_for_width<E: Fn(FloatRequest) -> FloatReply>(e: &E, bits: u64, w: FloatWidth) -> (r:
    Option<u64>)
    requires
        is_evaluator(*e),
    ensures
        r == rounded(*e, bits, w),
{
    match w {
        FloatWidth::F32 => ask_bits(e, FloatRequest::Round(bits)),
        FloatWidth::F64 => Some(bits),
    }
}

} // verus!
