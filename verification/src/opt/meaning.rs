//! What instructions compute, over the integers and over the answers of an
//! evaluator of floating-point operations.
//!
//! A run gives values to names. An instruction ties the value that it defines to
//! those of its operands, and says nothing where the operation has no result.

use crate::ir::inst::{CmpOp, FuncView, InstView, Op, ValueId};
use crate::ir::types::{FloatWidth, IntWidth, IrType};
use crate::opt::arith::{
    congruent, digit_sum, digits, divides, fits, quotient, unsigned, zeros_at_the_end,
    zeros_in_front,
};
use crate::opt::const_fold::Const;
use crate::opt::floats::{answer, FloatBin, FloatReply, FloatRequest, FloatUn};
use crate::opt::insts::insts_of;
use vstd::arithmetic::power2::pow2;
use vstd::prelude::*;

verus! {

/// Is `z` what an operation gives on two integers of a width?
pub open spec fn int_meaning(op: Op, x: i128, y: i128, w: IntWidth, z: i128) -> bool {
    match op {
        Op::IAdd => congruent(z as int, x + y, w),
        Op::ISub => congruent(z as int, x - y, w),
        Op::IMul => congruent(z as int, x * y, w),
        Op::IDiv => divides(x as int, y as int, w) ==> quotient(x as int, y as int, z as int),
        Op::IMod => divides(x as int, y as int, w) ==> exists|q: int| #[trigger]
            quotient(x as int, y as int, q) && x == q * y + z,
        Op::BitAnd => z == x & y,
        Op::BitOr => z == x | y,
        Op::BitXor => z == x ^ y,
        Op::Shl => 0 <= y < digits(w) ==> congruent(z as int, x * pow2(y as nat), w),
        Op::LShr => 0 <= y < digits(w) ==> congruent(
            z as int,
            unsigned(x as int, w) / pow2(y as nat) as int,
            w,
        ),
        Op::AShr => 0 <= y < digits(w) ==> z == x as int / pow2(y as nat) as int,
        _ => true,
    }
}

/// Is `z` what an operation gives on an integer of width `from`, at width `w`?
pub open spec fn int_unary_meaning(op: Op, x: i128, from: IntWidth, w: IntWidth, z: i128) -> bool {
    let n = unsigned(x as int, from);
    match op {
        Op::INeg => congruent(z as int, -x, w),
        Op::BitNot => congruent(z as int, -x - 1, w),
        Op::PopCount => congruent(z as int, digit_sum(n, digits(from)) as int, w),
        Op::CountLeadingZeros => congruent(z as int, zeros_in_front(n, digits(from)) as int, w),
        Op::CountTrailingZeros => congruent(z as int, zeros_at_the_end(n, digits(from)) as int, w),
        Op::IntExtend(_, signed) => congruent(
            z as int,
            if signed {
                x as int
            } else {
                n
            },
            w,
        ),
        Op::IntTrunc(_) => congruent(z as int, x as int, w),
        _ => true,
    }
}

/// Does a comparison of integers hold?
pub open spec fn int_relation(op: CmpOp, x: int, y: int) -> bool {
    match op {
        CmpOp::Eq => x - y == 0,
        CmpOp::Ne => x < y || y < x,
        CmpOp::Lt => y - x > 0,
        CmpOp::Le => !(y < x),
        CmpOp::Gt => y < x,
        CmpOp::Ge => !(x < y),
    }
}

/// Is `r` the number that the bits are in a format?
pub open spec fn rounds_to<E: Fn(FloatRequest) -> FloatReply>(
    e: E,
    bits: u64,
    w: FloatWidth,
    r: u64,
) -> bool {
    match w {
        FloatWidth::F32 => answer(e, FloatRequest::Round(bits)) == FloatReply::Bits(r),
        FloatWidth::F64 => r == bits,
    }
}

/// Does rounding a number of a format change nothing?
pub open spec fn rounds_once<E: Fn(FloatRequest) -> FloatReply>(e: E) -> bool {
    &&& forall|a: u64|
        #[trigger] answer(e, FloatRequest::Round(a)) matches FloatReply::Bits(r) ==> answer(
            e,
            FloatRequest::Round(r),
        ) == FloatReply::Bits(r)
    &&& forall|n: i128|
        #[trigger] answer(e, FloatRequest::FromInt(n, FloatWidth::F32)) matches FloatReply::Bits(r)
            ==> answer(e, FloatRequest::Round(r)) == FloatReply::Bits(r)
}

/// Is `r` what the evaluator answers, in a format? It need not answer.
pub open spec fn float_meaning<E: Fn(FloatRequest) -> FloatReply>(
    e: E,
    q: FloatRequest,
    w: FloatWidth,
    r: u64,
) -> bool {
    answer(e, q) matches FloatReply::Bits(b) ==> rounds_to(e, b, w, r)
}

/// The question that an operation on two numbers asks.
pub open spec fn question(op: Op, x: u64, y: u64) -> FloatRequest {
    match op {
        Op::FAdd => FloatRequest::Binary(FloatBin::Add, x, y),
        Op::FSub => FloatRequest::Binary(FloatBin::Sub, x, y),
        Op::FMul => FloatRequest::Binary(FloatBin::Mul, x, y),
        Op::FDiv => FloatRequest::Binary(FloatBin::Div, x, y),
        _ => FloatRequest::Binary(FloatBin::Pow, x, y),
    }
}

/// The question that an operation on one number asks.
pub open spec fn unary_question(op: Op, x: u64) -> FloatRequest {
    match op {
        Op::FNeg => FloatRequest::Unary(FloatUn::Neg, x),
        Op::FAbs => FloatRequest::Unary(FloatUn::Abs, x),
        _ => FloatRequest::Unary(FloatUn::Sqrt, x),
    }
}

/// Does the result of an operation depend on how numbers are rounded?
pub open spec fn rounds(op: Op) -> bool {
    match op {
        Op::FAdd | Op::FSub | Op::FMul | Op::FDiv | Op::FPow | Op::FSqrt => true,
        Op::IntToFloat(_) | Op::FloatTrunc(_) => true,
        _ => false,
    }
}

/// Does an instruction hold of the values that a run gives? Where the rounding
/// is `unsure`, nothing is said of what depends on it.
pub open spec fn holds<E: Fn(FloatRequest) -> FloatReply>(
    e: E,
    i: InstView,
    env: spec_fn(ValueId) -> Const,
    unsure: bool,
) -> bool {
    let k = i.kind;
    let a = env(k.args[0]);
    let b = env(k.args[1]);
    let c = env(k.args[2]);
    let r = env(i.id);
    match k.op {
        Op::ConstInt(v, w) => r matches Const::Int(z, u) && u == w && fits(z as int, w)
            && congruent(z as int, v as int, w),
        Op::ConstFloat(v, w) => r matches Const::Float(z, u) && u == w && rounds_to(e, v, w, z),
        Op::ConstBool(v) => r == Const::Bool(v),
        Op::IAdd | Op::ISub | Op::IMul | Op::IDiv | Op::IMod | Op::BitAnd | Op::BitOr | Op::BitXor
        | Op::Shl | Op::LShr | Op::AShr => match (a, b, r, i.ty) {
            (Const::Int(x, s), Const::Int(y, t), Const::Int(z, u), IrType::Int(w)) => {
                &&& s == w && t == w && u == w
                &&& fits(x as int, w) && fits(y as int, w) && fits(z as int, w)
                &&& int_meaning(k.op, x, y, w, z)
            },
            _ => false,
        },
        Op::INeg | Op::BitNot | Op::PopCount | Op::CountLeadingZeros | Op::CountTrailingZeros => match (
            a,
            r,
            i.ty,
        ) {
            (Const::Int(x, from), Const::Int(z, u), IrType::Int(w)) => {
                &&& u == w && fits(x as int, from) && fits(z as int, w)
                &&& int_unary_meaning(k.op, x, from, w, z)
            },
            _ => false,
        },
        Op::IntExtend(w, _) | Op::IntTrunc(w) => match (a, r) {
            (Const::Int(x, from), Const::Int(z, u)) => {
                &&& u == w && fits(x as int, from) && fits(z as int, w)
                &&& int_unary_meaning(k.op, x, from, w, z)
            },
            _ => false,
        },
        Op::FAdd | Op::FSub | Op::FMul | Op::FDiv | Op::FPow => match (a, b, r, i.ty) {
            (Const::Float(x, _), Const::Float(y, _), Const::Float(z, u), IrType::Float(w)) => u == w
                && (unsure || float_meaning(e, question(k.op, x, y), w, z)),
            _ => false,
        },
        Op::FNeg | Op::FAbs | Op::FSqrt => match (a, r, i.ty) {
            (Const::Float(x, _), Const::Float(z, u), IrType::Float(w)) => u == w && ((unsure
                && rounds(k.op)) || float_meaning(e, unary_question(k.op, x), w, z)),
            _ => false,
        },
        Op::ICmp(op) => match (a, b, r) {
            (Const::Int(x, s), Const::Int(y, t), Const::Bool(z)) => fits(x as int, s) && fits(
                y as int,
                t,
            ) && (z <==> int_relation(op, x as int, y as int)),
            _ => false,
        },
        Op::FCmp(op) => match (a, b, r) {
            (Const::Float(x, s), Const::Float(y, t), Const::Bool(z)) => rounds_to(e, x, s, x)
                && rounds_to(e, y, t, y) && (answer(e, FloatRequest::Compare(op, x, y)) matches FloatReply::Truth(
                v,
            ) ==> z == v),
            _ => false,
        },
        Op::And => match (a, b, r) {
            (Const::Bool(x), Const::Bool(y), Const::Bool(z)) => z <==> (x && y),
            _ => false,
        },
        Op::Or => match (a, b, r) {
            (Const::Bool(x), Const::Bool(y), Const::Bool(z)) => !z <==> (!x && !y),
            _ => false,
        },
        Op::Not => match (a, r) {
            (Const::Bool(x), Const::Bool(z)) => z != x,
            _ => false,
        },
        Op::Select => match i.ty {
            IrType::Int(_) | IrType::Float(_) | IrType::Bool => match a {
                Const::Bool(x) => of_type(e, r, i.ty) && (x ==> r == b) && (!x ==> r == c),
                _ => false,
            },
            _ => true,
        },
        Op::IntToFloat(w) => match (a, r) {
            (Const::Int(x, from), Const::Float(z, u)) => u == w && fits(x as int, from) && (unsure
                || (answer(e, FloatRequest::FromInt(x, w)) matches FloatReply::Bits(v) ==> z == v)),
            _ => false,
        },
        Op::FloatExtend(w) => match (a, r) {
            (Const::Float(x, _), Const::Float(z, u)) => u == w && rounds_to(e, x, w, z),
            _ => false,
        },
        Op::FloatTrunc(w) => match (a, r) {
            (Const::Float(x, _), Const::Float(z, u)) => u == w && (unsure || rounds_to(e, x, w, z)),
            _ => false,
        },
        Op::FloatToInt(w) => match (a, r) {
            (Const::Float(x, s), Const::Int(z, u)) => u == w && fits(z as int, w) && rounds_to(
                e,
                x,
                s,
                x,
            ) && (answer(e, FloatRequest::Truncate(x)) matches FloatReply::Whole(Some(n)) ==> (fits(
                n as int,
                w,
            ) || fits(n - 1, w)) ==> congruent(z as int, n as int, w)),
            _ => false,
        },
        _ => true,
    }
}

/// Is a value one of the type?
pub open spec fn of_type<E: Fn(FloatRequest) -> FloatReply>(e: E, c: Const, ty: IrType) -> bool {
    match c {
        Const::Int(x, w) => ty == IrType::Int(w) && fits(x as int, w),
        Const::Float(x, w) => ty == IrType::Float(w) && rounds_to(e, x, w, x),
        Const::Bool(_) => ty == IrType::Bool,
    }
}

/// Do all instructions of a function hold?
pub open spec fn all_hold<E: Fn(FloatRequest) -> FloatReply>(
    e: E,
    f: FuncView,
    env: spec_fn(ValueId) -> Const,
    unsure: bool,
) -> bool {
    forall|k: int| 0 <= k < insts_of(f).len() ==> holds(e, #[trigger] insts_of(f)[k], env, unsure)
}

} // verus!
