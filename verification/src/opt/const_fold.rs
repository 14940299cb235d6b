//! Constant folding: an instruction whose operands are all constants becomes a
//! constant itself, under the same name.
//!
//! Integers wrap at the declared width. A division by zero, a quotient that does
//! not fit, and a shift by no less than the width stay as they are. Floating
//! point is asked of an evaluator.

use crate::ids::IdMap;
use crate::ir::inst::{
    BasicBlock, BlockView, CmpOp, FuncView, Function, InstKind, InstView, KindView, Module,
    ModuleView, Op, ValueId,
};
use crate::ir::types::{FloatWidth, IntWidth, IrType};
use crate::opt::floats::{
    ask_bits, ask_truth, ask_whole, bits_for, is_evaluator, round_for_width, rounded, truth_for,
    whole_for, FloatBin, FloatReply, FloatRequest, FloatUn,
};
use crate::opt::fpenv::{analyze_rounding_effects, may_change_rounding, may_run_among};
use crate::opt::insts::{all_insts, insts_of, refs_view};
use crate::opt::ints::{
    bit_length, count_bits, count_low_zeros, count_ones, largest, least, low_bits, low_zeros, mask,
    ones, sext, sign_extend, smallest, zero_extend, zext,
};
use crate::opt::pass::Pass;
use vstd::prelude::*;

verus! {

/// A known value.
#[derive(Debug, Clone, Copy, PartialEq, Eq, Structural)]
pub enum Const {
    /// An integer, canonical at its width.
    Int(i128, IntWidth),
    /// A number, rounded to its format.
    Float(u64, FloatWidth),
    Bool(bool),
}

/// The operations on two integers.
#[derive(Debug, Clone, Copy, PartialEq, Eq, Structural)]
pub enum IntBin {
    Add,
    Sub,
    Mul,
    Div,
    Mod,
    And,
    Or,
    Xor,
    Shl,
    LShr,
    AShr,
}

/// The operations on one integer.
#[derive(Debug, Clone, Copy, PartialEq, Eq, Structural)]
pub enum IntUn {
    Neg,
    Not,
    PopCount,
    LeadingZeros,
    TrailingZeros,
}

/// The known value that a constant instruction gives.
pub open spec fn const_of<E: Fn(FloatRequest) -> FloatReply>(e: E, op: Op) -> Option<Const> {
    match op {
        Op::ConstInt(v, w) => Some(Const::Int(sext(v, w), w)),
        Op::ConstFloat(v, w) => match rounded(e, v, w) {
            Some(b) => Some(Const::Float(b, w)),
            None => None,
        },
        Op::ConstBool(b) => Some(Const::Bool(b)),
        _ => None,
    }
}

/// What is known of a value.
pub open spec fn known(consts: Map<ValueId, Const>, v: ValueId) -> Option<Const> {
    if consts.contains_key(v) {
        Some(consts[v])
    } else {
        None
    }
}

/// The quotient or the remainder is left to the run: it does not exist, or does
/// not fit the width.
pub open spec fn undivided(x: i128, y: i128, w: IntWidth) -> bool {
    y == 0 || (x == smallest(w) && y == -1)
}

/// What an operation on two integers gives, before it is cut to its width.
pub open spec fn int_result(op: IntBin, x: i128, y: i128, w: IntWidth) -> Option<i128> {
    match op {
        IntBin::Add => Some(x.wrapping_add(y)),
        IntBin::Sub => Some(x.wrapping_sub(y)),
        IntBin::Mul => Some(x.wrapping_mul(y)),
        IntBin::Div => if undivided(x, y, w) {
            None
        } else {
            x.checked_div(y)
        },
        IntBin::Mod => if undivided(x, y, w) {
            None
        } else {
            x.checked_rem(y)
        },
        IntBin::And => Some(x & y),
        IntBin::Or => Some(x | y),
        IntBin::Xor => Some(x ^ y),
        IntBin::Shl => if 0 <= y < w.spec_bits() {
            Some(x << (y as u32))
        } else {
            None
        },
        IntBin::LShr => if 0 <= y < w.spec_bits() {
            Some((low_bits(x, w) >> (y as u32)) as i128)
        } else {
            None
        },
        IntBin::AShr => if 0 <= y < w.spec_bits() {
            Some(sext(x, w) >> (y as u32))
        } else {
            None
        },
    }
}

/// What an operation on one integer of width `from` gives, before it is cut to
/// its width.
pub open spec fn int_value(op: IntUn, x: i128, from: IntWidth) -> i128 {
    let bits = low_bits(x, from) as nat;
    match op {
        IntUn::Neg => 0i128.wrapping_sub(x),
        IntUn::Not => !x,
        IntUn::PopCount => ones(bits) as i128,
        IntUn::LeadingZeros => (from.spec_bits() - bit_length(bits)) as i128,
        IntUn::TrailingZeros => if bits == 0 {
            from.spec_bits() as i128
        } else {
            low_zeros(bits) as i128
        },
    }
}

/// What a comparison gives.
pub open spec fn compared(op: CmpOp, x: i128, y: i128) -> bool {
    match op {
        CmpOp::Eq => x == y,
        CmpOp::Ne => x != y,
        CmpOp::Lt => x < y,
        CmpOp::Le => x <= y,
        CmpOp::Gt => x > y,
        CmpOp::Ge => x >= y,
    }
}

/// An integer constant of a width.
pub open spec fn int_const(v: i128, w: IntWidth) -> Op {
    Op::ConstInt(sext(v, w), w)
}

/// A floating-point constant rounded to a format.
pub open spec fn float_const<E: Fn(FloatRequest) -> FloatReply>(
    e: E,
    bits: Option<u64>,
    w: FloatWidth,
) -> Option<Op> {
    match bits {
        Some(b) => match rounded(e, b, w) {
            Some(r) => Some(Op::ConstFloat(r, w)),
            None => None,
        },
        None => None,
    }
}

/// The constant that an operation on two integers becomes.
#[verifier::opaque]
pub open spec fn folded_int(op: IntBin, a: Option<Const>, b: Option<Const>, ty: IrType) -> Option<
    Op,
> {
    match (a, b, ty) {
        (Some(Const::Int(x, _)), Some(Const::Int(y, _)), IrType::Int(w)) => match int_result(
            op,
            x,
            y,
            w,
        ) {
            Some(z) => Some(int_const(z, w)),
            None => None,
        },
        _ => None,
    }
}

/// The constant that an operation on one integer becomes.
#[verifier::opaque]
pub open spec fn folded_int_unary(op: IntUn, a: Option<Const>, ty: IrType) -> Option<Op> {
    match (a, ty) {
        (Some(Const::Int(x, from)), IrType::Int(w)) => Some(int_const(int_value(op, x, from), w)),
        _ => None,
    }
}

/// The constant that an operation on two numbers becomes.
#[verifier::opaque]
pub open spec fn folded_float<E: Fn(FloatRequest) -> FloatReply>(
    e: E,
    op: FloatBin,
    a: Option<Const>,
    b: Option<Const>,
    ty: IrType,
) -> Option<Op> {
    match (a, b, ty) {
        (Some(Const::Float(x, _)), Some(Const::Float(y, _)), IrType::Float(w)) => float_const(
            e,
            bits_for(e, FloatRequest::Binary(op, x, y)),
            w,
        ),
        _ => None,
    }
}

/// The constant that an operation on one number becomes.
#[verifier::opaque]
pub open spec fn folded_float_unary<E: Fn(FloatRequest) -> FloatReply>(
    e: E,
    op: FloatUn,
    a: Option<Const>,
    ty: IrType,
) -> Option<Op> {
    match (a, ty) {
        (Some(Const::Float(x, _)), IrType::Float(w)) => float_const(
            e,
            bits_for(e, FloatRequest::Unary(op, x)),
            w,
        ),
        _ => None,
    }
}

/// The largest number that is converted to a width. At 64 bits it is the least
/// number of the floating-point format that is not below the largest integer.
pub open spec fn convert_limit(w: IntWidth) -> int {
    match w {
        IntWidth::I64 => 0x8000_0000_0000_0000,
        _ => largest(w) as int,
    }
}

/// The constant that a conversion to an integer becomes: the fraction is cut off.
#[verifier::opaque]
pub open spec fn folded_truncation<E: Fn(FloatRequest) -> FloatReply>(
    e: E,
    a: Option<Const>,
    w: IntWidth,
) -> Option<Op> {
    match a {
        Some(Const::Float(x, from)) => match rounded(e, x, from) {
            Some(y) => match whole_for(e, FloatRequest::Truncate(y)) {
                Some(n) => if w == IntWidth::I128 || n < smallest(w) || n > convert_limit(w) {
                    None
                } else {
                    Some(int_const(n, w))
                },
                None => None,
            },
            None => None,
        },
        _ => None,
    }
}

/// The constant that a comparison of integers becomes, each read at its own
/// width.
#[verifier::opaque]
pub open spec fn folded_int_compare(op: CmpOp, a: Option<Const>, b: Option<Const>) -> Option<Op> {
    match (a, b) {
        (Some(Const::Int(x, v)), Some(Const::Int(y, w))) => Some(
            Op::ConstBool(compared(op, sext(x, v), sext(y, w))),
        ),
        _ => None,
    }
}

/// The constant that a comparison of numbers becomes, each rounded to its own
/// format.
#[verifier::opaque]
pub open spec fn folded_float_compare<E: Fn(FloatRequest) -> FloatReply>(
    e: E,
    op: CmpOp,
    a: Option<Const>,
    b: Option<Const>,
) -> Option<Op> {
    match (a, b) {
        (Some(Const::Float(x, v)), Some(Const::Float(y, w))) => match (
            rounded(e, x, v),
            rounded(e, y, w),
        ) {
            (Some(p), Some(q)) => match truth_for(e, FloatRequest::Compare(op, p, q)) {
                Some(t) => Some(Op::ConstBool(t)),
                None => None,
            },
            _ => None,
        },
        _ => None,
    }
}

/// The constant that a selection becomes.
#[verifier::opaque]
pub open spec fn folded_select<E: Fn(FloatRequest) -> FloatReply>(
    e: E,
    c: Option<Const>,
    t: Option<Const>,
    f: Option<Const>,
    ty: IrType,
) -> Option<Op> {
    match c {
        Some(Const::Bool(cond)) => {
            let chosen = if cond {
                t
            } else {
                f
            };
            match (chosen, ty) {
                (Some(Const::Int(x, from)), IrType::Int(w)) => Some(int_const(sext(x, from), w)),
                (Some(Const::Float(x, _)), IrType::Float(w)) => float_const(e, Some(x), w),
                (Some(Const::Bool(b)), IrType::Bool) => Some(Op::ConstBool(b)),
                _ => None,
            }
        },
        _ => None,
    }
}

/// The constant that an operation on truth values becomes.
#[verifier::opaque]
pub open spec fn folded_logic(op: Op, a: Option<Const>, b: Option<Const>) -> Option<Op> {
    match op {
        Op::And => match (a, b) {
            (Some(Const::Bool(x)), Some(Const::Bool(y))) => Some(Op::ConstBool(x && y)),
            _ => None,
        },
        Op::Or => match (a, b) {
            (Some(Const::Bool(x)), Some(Const::Bool(y))) => Some(Op::ConstBool(x || y)),
            _ => None,
        },
        Op::Not => match a {
            Some(Const::Bool(x)) => Some(Op::ConstBool(!x)),
            _ => None,
        },
        _ => None,
    }
}

/// The constant that a conversion becomes.
#[verifier::opaque]
pub open spec fn folded_conversion<E: Fn(FloatRequest) -> FloatReply>(
    e: E,
    op: Op,
    a: Option<Const>,
) -> Option<Op> {
    match op {
        Op::IntToFloat(w) => match a {
            Some(Const::Int(x, from)) => match bits_for(
                e,
                FloatRequest::FromInt(sext(x, from), w),
            ) {
                Some(bits) => Some(Op::ConstFloat(bits, w)),
                None => None,
            },
            _ => None,
        },
        Op::FloatToInt(w) => folded_truncation(e, a, w),
        Op::FloatExtend(w) => match a {
            Some(Const::Float(x, _)) => float_const(e, Some(x), w),
            _ => None,
        },
        Op::FloatTrunc(w) => match a {
            Some(Const::Float(x, _)) => float_const(e, Some(x), w),
            _ => None,
        },
        Op::IntExtend(w, signed) => match a {
            Some(Const::Int(x, from)) => Some(
                int_const(
                    if signed {
                        sext(x, from)
                    } else {
                        zext(x, from)
                    },
                    w,
                ),
            ),
            _ => None,
        },
        Op::IntTrunc(w) => match a {
            Some(Const::Int(x, _)) => Some(int_const(x, w)),
            _ => None,
        },
        _ => None,
    }
}

/// The constant that an instruction becomes. Where the rounding mode may have
/// been changed, `held` keeps what depends on it.
pub open spec fn folded<E: Fn(FloatRequest) -> FloatReply>(
    e: E,
    k: KindView,
    ty: IrType,
    consts: Map<ValueId, Const>,
    held: bool,
) -> Option<Op> {
    let a = known(consts, k.args[0]);
    let b = known(consts, k.args[1]);
    let c = known(consts, k.args[2]);
    if held && crate::opt::fpenv::rounding_dependent(k.op) {
        None
    } else {
        match k.op {
            Op::IAdd => folded_int(IntBin::Add, a, b, ty),
            Op::ISub => folded_int(IntBin::Sub, a, b, ty),
            Op::IMul => folded_int(IntBin::Mul, a, b, ty),
            Op::IDiv => folded_int(IntBin::Div, a, b, ty),
            Op::IMod => folded_int(IntBin::Mod, a, b, ty),
            Op::BitAnd => folded_int(IntBin::And, a, b, ty),
            Op::BitOr => folded_int(IntBin::Or, a, b, ty),
            Op::BitXor => folded_int(IntBin::Xor, a, b, ty),
            Op::Shl => folded_int(IntBin::Shl, a, b, ty),
            Op::LShr => folded_int(IntBin::LShr, a, b, ty),
            Op::AShr => folded_int(IntBin::AShr, a, b, ty),
            Op::INeg => folded_int_unary(IntUn::Neg, a, ty),
            Op::BitNot => folded_int_unary(IntUn::Not, a, ty),
            Op::PopCount => folded_int_unary(IntUn::PopCount, a, ty),
            Op::CountLeadingZeros => folded_int_unary(IntUn::LeadingZeros, a, ty),
            Op::CountTrailingZeros => folded_int_unary(IntUn::TrailingZeros, a, ty),
            Op::FAdd => folded_float(e, FloatBin::Add, a, b, ty),
            Op::FSub => folded_float(e, FloatBin::Sub, a, b, ty),
            Op::FMul => folded_float(e, FloatBin::Mul, a, b, ty),
            Op::FDiv => folded_float(e, FloatBin::Div, a, b, ty),
            Op::FPow => folded_float(e, FloatBin::Pow, a, b, ty),
            Op::FNeg => folded_float_unary(e, FloatUn::Neg, a, ty),
            Op::FAbs => folded_float_unary(e, FloatUn::Abs, a, ty),
            Op::FSqrt => folded_float_unary(e, FloatUn::Sqrt, a, ty),
            Op::ICmp(op) => folded_int_compare(op, a, b),
            Op::FCmp(op) => folded_float_compare(e, op, a, b),
            Op::And | Op::Or | Op::Not => folded_logic(k.op, a, b),
            Op::IntToFloat(_) | Op::FloatToInt(_) | Op::FloatExtend(_) | Op::FloatTrunc(
                _,
            ) | Op::IntExtend(_, _) | Op::IntTrunc(_) => folded_conversion(e, k.op, a),
            Op::Select => folded_select(e, a, b, c, ty),
            _ => None,
        }
    }
}

/// Is `r` the constant instruction that `m` says, if any?
pub open spec fn made(r: Option<InstKind>, m: Option<Op>) -> bool {
    match (r, m) {
        (Some(k), Some(op)) => k@.op == op && k@.args.len() == 0,
        (None, None) => true,
        _ => false,
    }
}

fn look(consts: &IdMap<ValueId, Const>, v: ValueId) -> (r: Option<Const>)
    ensures
        r == known(consts@, v),
{
    match consts.get(&v) {
        Some(c) => Some(*c),
        None => None,
    }
}

fn const_from_kind<E: Fn(FloatRequest) -> FloatReply>(e: &E, kind: &InstKind) -> (r: Option<Const>)
    requires
        is_evaluator(*e),
    ensures
        r == const_of(*e, kind@.op),
{
    match kind {
        InstKind::ConstInt(v, w) => Some(Const::Int(sign_extend(*v, *w), *w)),
        InstKind::ConstFloat(v, w) => match round_for_width(e, *v, *w) {
            Some(b) => Some(Const::Float(b, *w)),
            None => None,
        },
        InstKind::ConstBool(b) => Some(Const::Bool(*b)),
        InstKind::Call(callee, _) => match callee {
            crate::ir::inst::FuncRef::Internal(_) => None,
            crate::ir::inst::FuncRef::External(_) => None,
            crate::ir::inst::FuncRef::Indirect(_) => None,
        },
        _ => None,
    }
}

fn int_kind(v: i128, w: IntWidth) -> (r: InstKind)
    ensures
        r@.op == int_const(v, w),
        r@.args.len() == 0,
{
    InstKind::ConstInt(sign_extend(v, w), w)
}

fn compute(op: IntBin, x: i128, y: i128, w: IntWidth) -> (r: Option<i128>)
    ensures
        r == int_result(op, x, y, w),
{
    match op {
        IntBin::Add => Some(x.wrapping_add(y)),
        IntBin::Sub => Some(x.wrapping_sub(y)),
        IntBin::Mul => Some(x.wrapping_mul(y)),
        IntBin::Div => if y == 0 || (x == least(w) && y == -1) {
            None
        } else {
            x.checked_div(y)
        },
        IntBin::Mod => if y == 0 || (x == least(w) && y == -1) {
            None
        } else {
            x.checked_rem(y)
        },
        IntBin::And => Some(x & y),
        IntBin::Or => Some(x | y),
        IntBin::Xor => Some(x ^ y),
        IntBin::Shl => if 0 <= y && y < w.bits() as i128 {
            Some(x << (y as u32))
        } else {
            None
        },
        IntBin::LShr => if 0 <= y && y < w.bits() as i128 {
            Some((mask(x, w) >> (y as u32)) as i128)
        } else {
            None
        },
        IntBin::AShr => if 0 <= y && y < w.bits() as i128 {
            Some(sign_extend(x, w) >> (y as u32))
        } else {
            None
        },
    }
}

fn compute_unary(op: IntUn, x: i128, from: IntWidth) -> (r: i128)
    ensures
        r == int_value(op, x, from),
{
    let bits: u128 = mask(x, from);
    match op {
        IntUn::Neg => 0i128.wrapping_sub(x),
        IntUn::Not => !x,
        IntUn::PopCount => count_ones(bits) as i128,
        IntUn::LeadingZeros => from.bits() as i128 - count_bits(bits) as i128,
        IntUn::TrailingZeros => if bits == 0 {
            from.bits() as i128
        } else {
            count_low_zeros(bits) as i128
        },
    }
}

fn compare_ints(op: CmpOp, x: i128, y: i128) -> (r: bool)
    ensures
        r == compared(op, x, y),
{
    match op {
        CmpOp::Eq => x == y,
        CmpOp::Ne => x != y,
        CmpOp::Lt => x < y,
        CmpOp::Le => x <= y,
        CmpOp::Gt => x > y,
        CmpOp::Ge => x >= y,
    }
}

fn fold_int_bin(op: IntBin, a: Option<Const>, b: Option<Const>, ty: &IrType) -> (r: Option<
    InstKind,
>)
    ensures
        made(r, folded_int(op, a, b, *ty)),
{
    proof {
        reveal(folded_int);
    }
    match (a, b, ty) {
        (Some(Const::Int(x, _)), Some(Const::Int(y, _)), IrType::Int(w)) => match compute(
            op,
            x,
            y,
            *w,
        ) {
            Some(z) => Some(int_kind(z, *w)),
            None => None,
        },
        _ => None,
    }
}

fn fold_int_un(op: IntUn, a: Option<Const>, ty: &IrType) -> (r: Option<InstKind>)
    ensures
        made(r, folded_int_unary(op, a, *ty)),
{
    proof {
        reveal(folded_int_unary);
    }
    match (a, ty) {
        (Some(Const::Int(x, from)), IrType::Int(w)) => Some(
            int_kind(compute_unary(op, x, from), *w),
        ),
        _ => None,
    }
}

fn float_kind<E: Fn(FloatRequest) -> FloatReply>(e: &E, bits: Option<u64>, w: FloatWidth) -> (r:
    Option<InstKind>)
    requires
        is_evaluator(*e),
    ensures
        made(r, float_const(*e, bits, w)),
{
    match bits {
        Some(b) => match round_for_width(e, b, w) {
            Some(x) => Some(InstKind::ConstFloat(x, w)),
            None => None,
        },
        None => None,
    }
}

fn fold_float_bin<E: Fn(FloatRequest) -> FloatReply>(
    e: &E,
    op: FloatBin,
    a: Option<Const>,
    b: Option<Const>,
    ty: &IrType,
) -> (r: Option<InstKind>)
    requires
        is_evaluator(*e),
    ensures
        made(r, folded_float(*e, op, a, b, *ty)),
{
    proof {
        reveal(folded_float);
    }
    match (a, b, ty) {
        (Some(Const::Float(x, _)), Some(Const::Float(y, _)), IrType::Float(w)) => float_kind(
            e,
            ask_bits(e, FloatRequest::Binary(op, x, y)),
            *w,
        ),
        _ => None,
    }
}

fn fold_float_un<E: Fn(FloatRequest) -> FloatReply>(
    e: &E,
    op: FloatUn,
    a: Option<Const>,
    ty: &IrType,
) -> (r: Option<InstKind>)
    requires
        is_evaluator(*e),
    ensures
        made(r, folded_float_unary(*e, op, a, *ty)),
{
    proof {
        reveal(folded_float_unary);
    }
    match (a, ty) {
        (Some(Const::Float(x, _)), IrType::Float(w)) => float_kind(
            e,
            ask_bits(e, FloatRequest::Unary(op, x)),
            *w,
        ),
        _ => None,
    }
}

fn fold_truncation<E: Fn(FloatRequest) -> FloatReply>(e: &E, a: Option<Const>, w: IntWidth) -> (r:
    Option<InstKind>)
    requires
        is_evaluator(*e),
    ensures
        made(r, folded_truncation(*e, a, w)),
{
    proof {
        reveal(folded_truncation);
    }
    let limit: i128 = match w {
        IntWidth::I8 => 0x7f,
        IntWidth::I16 => 0x7fff,
        IntWidth::I32 => 0x7fff_ffff,
        IntWidth::I64 => 0x8000_0000_0000_0000,
        IntWidth::I128 => {
            return None;
        },
    };
    match a {
        Some(Const::Float(x, from)) => match round_for_width(e, x, from) {
            Some(y) => match ask_whole(e, FloatRequest::Truncate(y)) {
                Some(n) => if n < least(w) || n > limit {
                    None
                } else {
                    Some(int_kind(n, w))
                },
                None => None,
            },
            None => None,
        },
        _ => None,
    }
}

fn fold_int_compare(op: CmpOp, a: Option<Const>, b: Option<Const>) -> (r: Option<InstKind>)
    ensures
        made(r, folded_int_compare(op, a, b)),
{
    proof {
        reveal(folded_int_compare);
    }
    match (a, b) {
        (Some(Const::Int(x, v)), Some(Const::Int(y, w))) => Some(
            InstKind::ConstBool(compare_ints(op, sign_extend(x, v), sign_extend(y, w))),
        ),
        _ => None,
    }
}

fn fold_float_compare<E: Fn(FloatRequest) -> FloatReply>(
    e: &E,
    op: CmpOp,
    a: Option<Const>,
    b: Option<Const>,
) -> (r: Option<InstKind>)
    requires
        is_evaluator(*e),
    ensures
        made(r, folded_float_compare(*e, op, a, b)),
{
    proof {
        reveal(folded_float_compare);
    }
    match (a, b) {
        (Some(Const::Float(x, v)), Some(Const::Float(y, w))) => match (
            round_for_width(e, x, v),
            round_for_width(e, y, w),
        ) {
            (Some(p), Some(q)) => match ask_truth(e, FloatRequest::Compare(op, p, q)) {
                Some(t) => Some(InstKind::ConstBool(t)),
                None => None,
            },
            _ => None,
        },
        _ => None,
    }
}

fn fold_select<E: Fn(FloatRequest) -> FloatReply>(
    e: &E,
    c: Option<Const>,
    t: Option<Const>,
    f: Option<Const>,
    ty: &IrType,
) -> (r: Option<InstKind>)
    requires
        is_evaluator(*e),
    ensures
        made(r, folded_select(*e, c, t, f, *ty)),
{
    proof {
        reveal(folded_select);
    }
    match c {
        Some(Const::Bool(cond)) => {
            let chosen = if cond {
                t
            } else {
                f
            };
            match (chosen, ty) {
                (Some(Const::Int(x, from)), IrType::Int(w)) => Some(
                    int_kind(sign_extend(x, from), *w),
                ),
                (Some(Const::Float(x, _)), IrType::Float(w)) => float_kind(e, Some(x), *w),
                (Some(Const::Bool(b)), IrType::Bool) => Some(InstKind::ConstBool(b)),
                _ => None,
            }
        },
        _ => None,
    }
}

fn fold_logic(kind: &InstKind, consts: &IdMap<ValueId, Const>) -> (r: Option<InstKind>)
    ensures
        made(r, folded_logic(kind@.op, known(consts@, kind@.args[0]), known(consts@, kind@.args[1]))),
{
    proof {
        reveal(folded_logic);
    }
    match kind {
        InstKind::And(a, b) => match (look(consts, *a), look(consts, *b)) {
            (Some(Const::Bool(x)), Some(Const::Bool(y))) => Some(InstKind::ConstBool(x && y)),
            _ => None,
        },
        InstKind::Or(a, b) => match (look(consts, *a), look(consts, *b)) {
            (Some(Const::Bool(x)), Some(Const::Bool(y))) => Some(InstKind::ConstBool(x || y)),
            _ => None,
        },
        InstKind::Not(a) => match look(consts, *a) {
            Some(Const::Bool(x)) => Some(InstKind::ConstBool(!x)),
            _ => None,
        },
        InstKind::Call(callee, _) => match callee {
            crate::ir::inst::FuncRef::Internal(_) => None,
            crate::ir::inst::FuncRef::External(_) => None,
            crate::ir::inst::FuncRef::Indirect(_) => None,
        },
        _ => None,
    }
}

fn fold_conversion<E: Fn(FloatRequest) -> FloatReply>(
    e: &E,
    kind: &InstKind,
    consts: &IdMap<ValueId, Const>,
) -> (r: Option<InstKind>)
    requires
        is_evaluator(*e),
    ensures
        made(r, folded_conversion(*e, kind@.op, known(consts@, kind@.args[0]))),
{
    proof {
        reveal(folded_conversion);
    }
    match kind {
        InstKind::IntToFloat(a, w) => match look(consts, *a) {
            Some(Const::Int(x, from)) => match ask_bits(
                e,
                FloatRequest::FromInt(sign_extend(x, from), *w),
            ) {
                Some(bits) => Some(InstKind::ConstFloat(bits, *w)),
                None => None,
            },
            _ => None,
        },
        InstKind::FloatToInt(a, w) => fold_truncation(e, look(consts, *a), *w),
        InstKind::FloatExtend(a, w) => match look(consts, *a) {
            Some(Const::Float(x, _)) => float_kind(e, Some(x), *w),
            _ => None,
        },
        InstKind::FloatTrunc(a, w) => match look(consts, *a) {
            Some(Const::Float(x, _)) => float_kind(e, Some(x), *w),
            _ => None,
        },
        InstKind::IntExtend(a, w, signed) => match look(consts, *a) {
            Some(Const::Int(x, from)) => {
                let v: i128 = if *signed {
                    sign_extend(x, from)
                } else {
                    zero_extend(x, from)
                };
                Some(int_kind(v, *w))
            },
            _ => None,
        },
        InstKind::IntTrunc(a, w) => match look(consts, *a) {
            Some(Const::Int(x, _)) => Some(int_kind(x, *w)),
            _ => None,
        },
        InstKind::Call(callee, _) => match callee {
            crate::ir::inst::FuncRef::Internal(_) => None,
            crate::ir::inst::FuncRef::External(_) => None,
            crate::ir::inst::FuncRef::Indirect(_) => None,
        },
        _ => None,
    }
}

/// The constant that an instruction becomes, if it does.
#[verifier::rlimit(60)]
pub fn try_fold<E: Fn(FloatRequest) -> FloatReply>(
    e: &E,
    kind: &InstKind,
    ty: &IrType,
    consts: &IdMap<ValueId, Const>,
    fpenv_barrier: bool,
) -> (r: Option<InstKind>)
    requires
        is_evaluator(*e),
    ensures
        made(r, folded(*e, kind@, *ty, consts@, fpenv_barrier)),
{
    if fpenv_barrier && crate::opt::fpenv::is_rounding_dependent_fp(kind) {
        return None;
    }
    match kind {
        InstKind::IAdd(a, b) => fold_int_bin(IntBin::Add, look(consts, *a), look(consts, *b), ty),
        InstKind::ISub(a, b) => fold_int_bin(IntBin::Sub, look(consts, *a), look(consts, *b), ty),
        InstKind::IMul(a, b) => fold_int_bin(IntBin::Mul, look(consts, *a), look(consts, *b), ty),
        InstKind::IDiv(a, b) => fold_int_bin(IntBin::Div, look(consts, *a), look(consts, *b), ty),
        InstKind::IMod(a, b) => fold_int_bin(IntBin::Mod, look(consts, *a), look(consts, *b), ty),
        InstKind::BitAnd(a, b) => fold_int_bin(IntBin::And, look(consts, *a), look(consts, *b), ty),
        InstKind::BitOr(a, b) => fold_int_bin(IntBin::Or, look(consts, *a), look(consts, *b), ty),
        InstKind::BitXor(a, b) => fold_int_bin(IntBin::Xor, look(consts, *a), look(consts, *b), ty),
        InstKind::Shl(a, b) => fold_int_bin(IntBin::Shl, look(consts, *a), look(consts, *b), ty),
        InstKind::LShr(a, b) => fold_int_bin(IntBin::LShr, look(consts, *a), look(consts, *b), ty),
        InstKind::AShr(a, b) => fold_int_bin(IntBin::AShr, look(consts, *a), look(consts, *b), ty),
        InstKind::INeg(a) => fold_int_un(IntUn::Neg, look(consts, *a), ty),
        InstKind::BitNot(a) => fold_int_un(IntUn::Not, look(consts, *a), ty),
        InstKind::PopCount(a) => fold_int_un(IntUn::PopCount, look(consts, *a), ty),
        InstKind::CountLeadingZeros(a) => fold_int_un(IntUn::LeadingZeros, look(consts, *a), ty),
        InstKind::CountTrailingZeros(a) => fold_int_un(IntUn::TrailingZeros, look(consts, *a), ty),
        InstKind::FAdd(a, b) => fold_float_bin(
            e,
            FloatBin::Add,
            look(consts, *a),
            look(consts, *b),
            ty,
        ),
        InstKind::FSub(a, b) => fold_float_bin(
            e,
            FloatBin::Sub,
            look(consts, *a),
            look(consts, *b),
            ty,
        ),
        InstKind::FMul(a, b) => fold_float_bin(
            e,
            FloatBin::Mul,
            look(consts, *a),
            look(consts, *b),
            ty,
        ),
        InstKind::FDiv(a, b) => fold_float_bin(
            e,
            FloatBin::Div,
            look(consts, *a),
            look(consts, *b),
            ty,
        ),
        InstKind::FPow(a, b) => fold_float_bin(
            e,
            FloatBin::Pow,
            look(consts, *a),
            look(consts, *b),
            ty,
        ),
        InstKind::FNeg(a) => fold_float_un(e, FloatUn::Neg, look(consts, *a), ty),
        InstKind::FAbs(a) => fold_float_un(e, FloatUn::Abs, look(consts, *a), ty),
        InstKind::FSqrt(a) => fold_float_un(e, FloatUn::Sqrt, look(consts, *a), ty),
        InstKind::ICmp(op, a, b) => fold_int_compare(*op, look(consts, *a), look(consts, *b)),
        InstKind::FCmp(op, a, b) => fold_float_compare(
            e,
            *op,
            look(consts, *a),
            look(consts, *b),
        ),
        InstKind::And(_, _) | InstKind::Or(_, _) | InstKind::Not(_) => fold_logic(kind, consts),
        InstKind::IntToFloat(_, _)
        | InstKind::FloatToInt(_, _)
        | InstKind::FloatExtend(_, _)
        | InstKind::FloatTrunc(_, _)
        | InstKind::IntExtend(_, _, _)
        | InstKind::IntTrunc(_, _) => fold_conversion(e, kind, consts),
        InstKind::Select(c, t, f) => fold_select(
            e,
            look(consts, *c),
            look(consts, *t),
            look(consts, *f),
            ty,
        ),
        InstKind::Call(callee, _) => match callee {
            crate::ir::inst::FuncRef::Internal(_) => None,
            crate::ir::inst::FuncRef::External(_) => None,
            crate::ir::inst::FuncRef::Indirect(_) => None,
        },
        _ => None,
    }
}

/// The constant that an instruction becomes whose value is not known yet.
pub open spec fn fold_of<E: Fn(FloatRequest) -> FloatReply>(
    e: E,
    i: InstView,
    consts: Map<ValueId, Const>,
    held: bool,
) -> Option<Op> {
    if consts.contains_key(i.id) {
        None
    } else {
        folded(e, i.kind, i.ty, consts, held)
    }
}

/// The known values with that of one more instruction.
pub open spec fn learnt<E: Fn(FloatRequest) -> FloatReply>(
    e: E,
    consts: Map<ValueId, Const>,
    v: ValueId,
    op: Op,
) -> Map<ValueId, Const> {
    match const_of(e, op) {
        Some(c) => consts.insert(v, c),
        None => consts,
    }
}

/// An instruction that became a constant.
pub open spec fn as_const(i: InstView, op: Op) -> InstView {
    InstView { kind: KindView { op, args: Seq::empty() }, ..i }
}

/// The first `n` instructions folded one after the other, what is known then,
/// and whether any was folded.
pub open spec fn swept<E: Fn(FloatRequest) -> FloatReply>(
    e: E,
    s: Seq<InstView>,
    n: nat,
    consts: Map<ValueId, Const>,
    held: bool,
) -> (Seq<InstView>, Map<ValueId, Const>, bool)
    decreases n,
{
    if n == 0 {
        (Seq::empty(), consts, false)
    } else {
        let (done, c, changed) = swept(e, s, (n - 1) as nat, consts, held);
        let i = s[n - 1];
        match fold_of(e, i, c, held) {
            Some(op) => (done.push(as_const(i, op)), learnt(e, c, i.id, op), true),
            None => (done.push(i), c, changed),
        }
    }
}

/// The first `n` blocks folded one after the other, what is known then, and
/// whether any instruction was folded.
pub open spec fn swept_blocks<E: Fn(FloatRequest) -> FloatReply>(
    e: E,
    blocks: Seq<BlockView>,
    n: nat,
    consts: Map<ValueId, Const>,
    held: bool,
) -> (Seq<BlockView>, Map<ValueId, Const>, bool)
    decreases n,
{
    if n == 0 {
        (Seq::empty(), consts, false)
    } else {
        let (done, c, changed) = swept_blocks(e, blocks, (n - 1) as nat, consts, held);
        let b = blocks[n - 1];
        let (insts, d, more) = swept(e, b.insts, b.insts.len(), c, held);
        (done.push(BlockView { insts, ..b }), d, changed || more)
    }
}

/// Is an operation a call?
pub open spec fn is_call(op: Op) -> bool {
    op is CallInternal || op is CallExternal || op is CallIndirect
}

/// Is an operation a constant that folding knows?
pub open spec fn is_const_op(op: Op) -> bool {
    op is ConstInt || op is ConstFloat || op is ConstBool
}

/// How many instructions are no constants.
pub open spec fn unfolded(s: Seq<InstView>) -> nat
    decreases s.len(),
{
    if s.len() == 0 {
        0
    } else {
        unfolded(s.drop_last()) + if is_const_op(s.last().kind.op) {
            0nat
        } else {
            1nat
        }
    }
}

/// How many instructions of blocks are no constants.
pub open spec fn unfolded_blocks(blocks: Seq<BlockView>) -> nat
    decreases blocks.len(),
{
    if blocks.len() == 0 {
        0
    } else {
        unfolded_blocks(blocks.drop_last()) + unfolded(blocks.last().insts)
    }
}

/// Folding gives constants, and folds no constants.
pub proof fn lemma_fold_is_const<E: Fn(FloatRequest) -> FloatReply>(
    e: E,
    i: InstView,
    consts: Map<ValueId, Const>,
    held: bool,
)
    ensures
        fold_of(e, i, consts, held) matches Some(op) ==> is_const_op(op) && !is_const_op(i.kind.op)
            && !is_call(i.kind.op),
{
    reveal(folded_logic);
    reveal(folded_conversion);
    reveal(folded_int_compare);
    reveal(folded_float_compare);
    reveal(folded_int);
    reveal(folded_int_unary);
    reveal(folded_float);
    reveal(folded_float_unary);
    reveal(folded_truncation);
    reveal(folded_select);
}

/// A sweep keeps the instructions but for what they do, and leaves fewer that
/// are no constants where it folds any.
pub proof fn lemma_swept<E: Fn(FloatRequest) -> FloatReply>(
    e: E,
    s: Seq<InstView>,
    n: nat,
    consts: Map<ValueId, Const>,
    held: bool,
)
    requires
        n <= s.len(),
    ensures
        swept(e, s, n, consts, held).0.len() == n,
        forall|k: int|
            0 <= k < n ==> (#[trigger] swept(e, s, n, consts, held).0[k]).id == s[k].id,
        unfolded(swept(e, s, n, consts, held).0) <= unfolded(s.take(n as int)),
        swept(e, s, n, consts, held).2 ==> unfolded(swept(e, s, n, consts, held).0) < unfolded(
            s.take(n as int),
        ),
        !swept(e, s, n, consts, held).2 ==> swept(e, s, n, consts, held).0 == s.take(n as int)
            && swept(e, s, n, consts, held).1 == consts,
    decreases n,
{
    if n > 0 {
        lemma_swept(e, s, (n - 1) as nat, consts, held);
        let (done, c, changed) = swept(e, s, (n - 1) as nat, consts, held);
        let i = s[n - 1];
        let t = s.take(n as int);
        assert(t.drop_last() =~= s.take(n - 1));
        lemma_fold_is_const(e, i, c, held);
        let next = swept(e, s, n, consts, held).0;
        assert(next.drop_last() =~= done);
        if !swept(e, s, n, consts, held).2 {
            assert(next =~= t);
        }
    } else {
        assert(s.take(0) =~= Seq::<InstView>::empty());
    }
}

/// A sweep over blocks keeps the blocks but for what their instructions do, and
/// leaves fewer that are no constants where it folds any.
pub proof fn lemma_swept_blocks<E: Fn(FloatRequest) -> FloatReply>(
    e: E,
    blocks: Seq<BlockView>,
    n: nat,
    consts: Map<ValueId, Const>,
    held: bool,
)
    requires
        n <= blocks.len(),
    ensures
        swept_blocks(e, blocks, n, consts, held).0.len() == n,
        unfolded_blocks(swept_blocks(e, blocks, n, consts, held).0) <= unfolded_blocks(
            blocks.take(n as int),
        ),
        swept_blocks(e, blocks, n, consts, held).2 ==> unfolded_blocks(
            swept_blocks(e, blocks, n, consts, held).0,
        ) < unfolded_blocks(blocks.take(n as int)),
        !swept_blocks(e, blocks, n, consts, held).2 ==> swept_blocks(e, blocks, n, consts, held).0
            == blocks.take(n as int) && swept_blocks(e, blocks, n, consts, held).1 == consts,
    decreases n,
{
    if n > 0 {
        lemma_swept_blocks(e, blocks, (n - 1) as nat, consts, held);
        let (done, c, changed) = swept_blocks(e, blocks, (n - 1) as nat, consts, held);
        let b = blocks[n - 1];
        lemma_swept(e, b.insts, b.insts.len(), c, held);
        assert(b.insts.take(b.insts.len() as int) =~= b.insts);
        let t = blocks.take(n as int);
        assert(t.drop_last() =~= blocks.take(n - 1));
        let next = swept_blocks(e, blocks, n, consts, held).0;
        assert(next.drop_last() =~= done);
        if !swept_blocks(e, blocks, n, consts, held).2 {
            assert(next =~= t);
        }
    } else {
        assert(blocks.take(0) =~= Seq::<BlockView>::empty());
    }
}

/// The blocks swept until nothing folds any more.
pub open spec fn settled<E: Fn(FloatRequest) -> FloatReply>(
    e: E,
    blocks: Seq<BlockView>,
    consts: Map<ValueId, Const>,
    held: bool,
) -> Seq<BlockView>
    decreases unfolded_blocks(blocks),
{
    proof {
        lemma_swept_blocks(e, blocks, blocks.len(), consts, held);
        assert(blocks.take(blocks.len() as int) =~= blocks);
    }
    let (next, c, changed) = swept_blocks(e, blocks, blocks.len(), consts, held);
    if changed {
        settled(e, next, c, held)
    } else {
        blocks
    }
}

/// What the constant instructions among the first `n` make known.
pub open spec fn known_upto<E: Fn(FloatRequest) -> FloatReply>(
    e: E,
    s: Seq<InstView>,
    n: nat,
) -> Map<ValueId, Const>
    decreases n,
{
    if n == 0 {
        Map::empty()
    } else {
        learnt(e, known_upto(e, s, (n - 1) as nat), s[n - 1].id, s[n - 1].kind.op)
    }
}

/// What the constant instructions of a function make known.
pub open spec fn known_in<E: Fn(FloatRequest) -> FloatReply>(e: E, f: FuncView) -> Map<
    ValueId,
    Const,
> {
    known_upto(e, insts_of(f), insts_of(f).len())
}

/// A function with all folded that folds.
pub open spec fn folded_func<E: Fn(FloatRequest) -> FloatReply>(
    e: E,
    f: FuncView,
    held: bool,
) -> FuncView {
    FuncView { blocks: settled(e, f.blocks, known_in(e, f), held), ..f }
}

/// Does anything fold in a function?
pub open spec fn folds<E: Fn(FloatRequest) -> FloatReply>(e: E, f: FuncView, held: bool) -> bool {
    swept_blocks(e, f.blocks, f.blocks.len(), known_in(e, f), held).2
}

/// May the function numbered `i` run after the rounding mode was changed?
pub open spec fn rounding_unsure(m: ModuleView, i: int) -> bool {
    may_run_among(m, |op: Op| may_change_rounding(op), i)
}

/// The constant folding pass, with the evaluator that it asks.
pub struct ConstFold<E> {
    pub floats: E,
}

fn fold_block<E: Fn(FloatRequest) -> FloatReply>(
    e: &E,
    block: &mut BasicBlock,
    consts: &mut IdMap<ValueId, Const>,
    held: bool,
) -> (changed: bool)
    requires
        is_evaluator(*e),
    ensures
        ({
            let b = old(block)@;
            let (insts, c, more) = swept(*e, b.insts, b.insts.len(), old(consts)@, held);
            final(block)@ == (BlockView { insts, ..b }) && final(consts)@ == c && changed == more
        }),
{
    let ghost b = block@;
    let ghost s = b.insts;
    let ghost c0 = consts@;
    let mut changed: bool = false;
    let mut j: usize = 0;
    while j < block.insts.len()
        invariant
            is_evaluator(*e),
            s == b.insts,
            j <= s.len(),
            block.insts@.len() == s.len(),
            block@.id == b.id,
            block@.name == b.name,
            block@.params == b.params,
            block@.term == b.term,
            swept(*e, s, j as nat, c0, held).1 == consts@,
            swept(*e, s, j as nat, c0, held).2 == changed,
            swept(*e, s, j as nat, c0, held).0.len() == j,
            forall|k: int|
                0 <= k < j ==> (#[trigger] block.insts@[k])@ == swept(
                    *e,
                    s,
                    j as nat,
                    c0,
                    held,
                ).0[k],
            forall|k: int| j <= k < s.len() ==> (#[trigger] block.insts@[k])@ == s[k],
        decreases s.len() - j,
    {
        let ghost here = block.insts@[j as int];
        proof {
            assert(here@ == s[j as int]);
        }
        if !consts.contains_key(&block.insts[j].id) {
            match try_fold(e, &block.insts[j].kind, &block.insts[j].ty, consts, held) {
                Some(kind) => {
                    let id = block.insts[j].id;
                    match const_from_kind(e, &kind) {
                        Some(c) => {
                            consts.insert(id, c);
                        },
                        None => {},
                    }
                    proof {
                        assert(kind@.args =~= Seq::<ValueId>::empty());
                    }
                    block.insts[j].kind = kind;
                    changed = true;
                },
                None => {},
            }
        }
        j = j + 1;
    }
    proof {
        assert(block@.insts =~= swept(*e, s, s.len(), c0, held).0);
    }
    changed
}

fn sweep<E: Fn(FloatRequest) -> FloatReply>(
    e: &E,
    func: &mut Function,
    consts: &mut IdMap<ValueId, Const>,
    held: bool,
) -> (changed: bool)
    requires
        is_evaluator(*e),
    ensures
        ({
            let f = old(func)@;
            let (blocks, c, more) = swept_blocks(
                *e,
                f.blocks,
                f.blocks.len(),
                old(consts)@,
                held,
            );
            final(func)@ == (FuncView { blocks, ..f }) && final(consts)@ == c && changed == more
        }),
{
    let ghost f = func@;
    let ghost c0 = consts@;
    let mut changed: bool = false;
    let mut i: usize = 0;
    while i < func.blocks.len()
        invariant
            is_evaluator(*e),
            i <= f.blocks.len(),
            func.blocks@.len() == f.blocks.len(),
            func@ == (FuncView { blocks: func@.blocks, ..f }),
            swept_blocks(*e, f.blocks, i as nat, c0, held).1 == consts@,
            swept_blocks(*e, f.blocks, i as nat, c0, held).2 == changed,
            swept_blocks(*e, f.blocks, i as nat, c0, held).0.len() == i,
            forall|k: int|
                0 <= k < i ==> (#[trigger] func.blocks@[k])@ == swept_blocks(
                    *e,
                    f.blocks,
                    i as nat,
                    c0,
                    held,
                ).0[k],
            forall|k: int| i <= k < f.blocks.len() ==> (#[trigger] func.blocks@[k])@ == f.blocks[k],
        decreases f.blocks.len() - i,
    {
        proof {
            assert(func.blocks@[i as int]@ == f.blocks[i as int]);
        }
        if fold_block(e, &mut func.blocks[i], consts, held) {
            changed = true;
        }
        i = i + 1;
    }
    proof {
        assert(func@.blocks =~= swept_blocks(*e, f.blocks, f.blocks.len(), c0, held).0);
    }
    changed
}

fn collect_consts<E: Fn(FloatRequest) -> FloatReply>(e: &E, func: &Function) -> (r: IdMap<
    ValueId,
    Const,
>)
    requires
        is_evaluator(*e),
    ensures
        r@ == known_in(*e, func@),
{
    let list = all_insts(func);
    let ghost s = insts_of(func@);
    let mut consts: IdMap<ValueId, Const> = IdMap::new();
    let mut i: usize = 0;
    while i < list.len()
        invariant
            is_evaluator(*e),
            i <= list@.len(),
            s == insts_of(func@),
            s == refs_view(list@),
            consts@ == known_upto(*e, s, i as nat),
        decreases list@.len() - i,
    {
        proof {
            assert(s[i as int] == list@[i as int]@);
        }
        match const_from_kind(e, &list[i].kind) {
            Some(c) => {
                consts.insert(list[i].id, c);
            },
            None => {},
        }
        i = i + 1;
    }
    consts
}

fn fold_function<E: Fn(FloatRequest) -> FloatReply>(e: &E, func: &mut Function, held: bool) -> (
    changed: bool)
    requires
        is_evaluator(*e),
    ensures
        final(func)@ == folded_func(*e, old(func)@, held),
        changed == folds(*e, old(func)@, held),
{
    let ghost f = func@;
    let mut consts = collect_consts(e, func);
    let ghost want = settled(*e, f.blocks, known_in(*e, f), held);
    let mut changed: bool = false;
    loop
        invariant
            is_evaluator(*e),
            func@ == (FuncView { blocks: func@.blocks, ..f }),
            settled(*e, func@.blocks, consts@, held) == want,
            want == settled(*e, f.blocks, known_in(*e, f), held),
            !changed ==> func@ == f && consts@ == known_in(*e, f),
            changed ==> folds(*e, f, held),
        ensures
            func@ == (FuncView { blocks: want, ..f }),
            changed == folds(*e, f, held),
        decreases unfolded_blocks(func@.blocks),
    {
        let ghost before = func@.blocks;
        proof {
            lemma_swept_blocks(*e, before, before.len(), consts@, held);
            assert(before.take(before.len() as int) =~= before);
        }
        if sweep(e, func, &mut consts, held) {
            changed = true;
        } else {
            break;
        }
    }
    changed
}

/// Does the pass change the module?
pub open spec fn anything_folds<E: Fn(FloatRequest) -> FloatReply>(e: E, m: ModuleView) -> bool {
    exists|i: int|
        0 <= i < m.functions.len() && folds(e, #[trigger] m.functions[i], rounding_unsure(m, i))
}

/// A module with all folded that folds.
pub open spec fn folded_module<E: Fn(FloatRequest) -> FloatReply>(e: E, m: ModuleView) -> ModuleView {
    ModuleView {
        functions: Seq::new(
            m.functions.len(),
            |i: int| folded_func(e, m.functions[i], rounding_unsure(m, i)),
        ),
        ..m
    }
}

impl<E: Fn(FloatRequest) -> FloatReply> Pass for ConstFold<E> {
    open spec fn accepts(&self, m: ModuleView) -> bool {
        is_evaluator(self.floats)
    }

    open spec fn outcome(&self, before: ModuleView, after: ModuleView, changed: bool) -> bool {
        after == folded_module(self.floats, before) && changed == anything_folds(
            self.floats,
            before,
        )
    }

    fn name(&self) -> (r: &'static str)
        ensures
            r@ == "const-fold"@,
    {
        "const-fold"
    }

    fn run(&self, module: &mut Module) -> (changed: bool) {
        let ghost m = module@;
        let effects = analyze_rounding_effects(module);
        let mut changed: bool = false;
        let mut i: usize = 0;
        while i < module.functions.len()
            invariant
                is_evaluator(self.floats),
                i <= m.functions.len(),
                module.functions@.len() == m.functions.len(),
                module@ == (ModuleView { functions: module@.functions, ..m }),
                effects.may_run_after_change@.len() == m.functions.len(),
                forall|a: int|
                    0 <= a < m.functions.len() ==> #[trigger] effects.may_run_after_change@[a]
                        == rounding_unsure(m, a),
                forall|k: int|
                    0 <= k < i ==> (#[trigger] module.functions@[k])@ == folded_func(
                        self.floats,
                        m.functions[k],
                        rounding_unsure(m, k),
                    ),
                forall|k: int|
                    i <= k < m.functions.len() ==> (#[trigger] module.functions@[k])@
                        == m.functions[k],
                changed == exists|k: int|
                    0 <= k < i && folds(
                        self.floats,
                        #[trigger] m.functions[k],
                        rounding_unsure(m, k),
                    ),
            decreases m.functions.len() - i,
        {
            proof {
                assert(module.functions@[i as int]@ == m.functions[i as int]);
            }
            let held = effects.may_run_after_change[i];
            if fold_function(&self.floats, &mut module.functions[i], held) {
                changed = true;
            }
            i = i + 1;
        }
        proof {
            assert(module@.functions =~= folded_module(self.floats, m).functions);
        }
        changed
    }
}

} // verus!
