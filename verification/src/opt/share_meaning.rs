//! What common-subexpression elimination shares has one value.

use crate::ir::inst::{CmpOp, FuncView, InstView, KindView, Op, ValueId};
use crate::ir::types::{IntWidth, IrType};
use crate::opt::arith::{congruent, lemma_congruent, lemma_congruent_back, lemma_sext};
use crate::opt::cse::{
    commutes, earlier, key_of, lemma_first_with, rewrites_of, same_key_same_computation, shareable,
};
use crate::opt::fpenv::fpenv_sensitive;
use crate::opt::insts::{insts_of, insts_upto};
use crate::opt::ints::sext;
use crate::opt::meaning::int_meaning;
use crate::opt::share_laws::lemma_rewrites_upto;
use crate::opt::share_laws::repeats_at;
use vstd::prelude::*;

verus! {

/// Does an operation give the same whichever way round its two operands are?
pub open spec fn either_way_round(op: Op) -> bool {
    match op {
        Op::IAdd | Op::IMul | Op::FAdd | Op::FMul => true,
        Op::And | Op::Or | Op::BitAnd | Op::BitOr | Op::BitXor => true,
        Op::ICmp(CmpOp::Eq) | Op::ICmp(CmpOp::Ne) | Op::FCmp(CmpOp::Eq) | Op::FCmp(CmpOp::Ne) => true,
        _ => false,
    }
}

/// Does the result of an operation depend on its operands alone?
pub open spec fn computation(op: Op) -> bool {
    match op {
        Op::ConstInt(_, _) | Op::ConstFloat(_, _) | Op::ConstBool(_) | Op::GlobalAddr(_) => true,
        Op::IAdd | Op::ISub | Op::IMul | Op::IDiv | Op::IMod | Op::INeg => true,
        Op::FAdd | Op::FSub | Op::FMul | Op::FDiv | Op::FPow => true,
        Op::FNeg | Op::FAbs | Op::FSqrt => true,
        Op::ICmp(_) | Op::FCmp(_) | Op::And | Op::Or | Op::Not | Op::Select => true,
        Op::BitAnd | Op::BitOr | Op::BitXor | Op::BitNot | Op::Shl | Op::LShr | Op::AShr => true,
        Op::CountLeadingZeros | Op::CountTrailingZeros | Op::PopCount => true,
        Op::IntToFloat(_) | Op::FloatToInt(_) | Op::FloatExtend(_) | Op::FloatTrunc(_) => true,
        Op::IntExtend(_, _) | Op::IntTrunc(_) | Op::PtrToInt | Op::IntToPtr(_) => true,
        Op::GetElementPtr | Op::ExtractField(_) | Op::InsertField(_) => true,
        _ => false,
    }
}

/// Does an operation read the floating-point environment, or write to it?
pub open spec fn meets_environment(op: Op) -> bool {
    match op {
        Op::FAdd | Op::FSub | Op::FMul | Op::FDiv | Op::FPow | Op::FSqrt | Op::FCmp(_) => true,
        Op::IntToFloat(_) | Op::FloatToInt(_) | Op::FloatExtend(_) | Op::FloatTrunc(_) => true,
        _ => false,
    }
}

/// A way to read operations: what each gives, by the type of the result and the
/// values of the operands.
pub type Reading = spec_fn(Op, IrType, Seq<int>) -> int;

/// Is a reading one of the machine, as far as it matters which operations are
/// told apart? Operands may change places where that makes no difference, a
/// constant is told by its digits at its width, and a pointer made of a number by
/// the type of the result.
pub open spec fn regular(den: Reading) -> bool {
    &&& forall|op: Op, ty: IrType, s: Seq<int>, t: Seq<int>|
        #![trigger den(op, ty, s), den(op, ty, t)]
        either_way_round(op) && s.len() == 2 && t.len() == 2 && s[0] == t[1] && s[1] == t[0]
            ==> den(op, ty, s) == den(op, ty, t)
    &&& forall|v: i128, u: i128, w: IntWidth, ty: IrType, s: Seq<int>|
        #![trigger den(Op::ConstInt(v, w), ty, s), den(Op::ConstInt(u, w), ty, s)]
        congruent(v as int, u as int, w) ==> den(Op::ConstInt(v, w), ty, s) == den(
            Op::ConstInt(u, w),
            ty,
            s,
        )
    &&& forall|t: IrType, u: IrType, ty: IrType, s: Seq<int>|
        #![trigger den(Op::IntToPtr(t), ty, s), den(Op::IntToPtr(u), ty, s)]
        den(Op::IntToPtr(t), ty, s) == den(Op::IntToPtr(u), ty, s)
}

/// Has a constant the type of its width?
pub open spec fn constant_is_typed(i: InstView) -> bool {
    match i.kind.op {
        Op::ConstInt(_, w) => i.ty == IrType::Int(w),
        Op::ConstFloat(_, w) => i.ty == IrType::Float(w),
        _ => true,
    }
}

/// Has an operation on two values two operands?
pub open spec fn has_both_operands(i: InstView) -> bool {
    either_way_round(i.kind.op) ==> i.kind.args.len() == 2
}

/// The values of operands.
pub open spec fn values(args: Seq<ValueId>, env: spec_fn(ValueId) -> int) -> Seq<int> {
    Seq::new(args.len(), |k: int| env(args[k]))
}

proof fn lemma_commutes(op: Op)
    ensures
        commutes(op) == either_way_round(op),
{
}

/// Two instructions that have one key give one value, whatever the operations
/// mean and whatever the operands are.
pub proof fn same_key_same_value(
    den: Reading,
    a: InstView,
    b: InstView,
    env: spec_fn(ValueId) -> int,
)
    requires
        regular(den),
        constant_is_typed(a),
        constant_is_typed(b),
        has_both_operands(a),
        has_both_operands(b),
        key_of(a) is Some,
        key_of(a) == key_of(b),
    ensures
        den(a.kind.op, a.ty, values(a.kind.args, env)) == den(
            b.kind.op,
            b.ty,
            values(b.kind.args, env),
        ),
{
    lemma_commutes(a.kind.op);
    lemma_commutes(b.kind.op);
    same_key_same_computation(a, b);
    let p = values(a.kind.args, env);
    let q = values(b.kind.args, env);
    let x = a.kind.op;
    let y = b.kind.op;
    if a.kind.args == b.kind.args {
        assert(p == q);
    } else {
        assert(a.kind.args[0] == b.kind.args[1] && a.kind.args[1] == b.kind.args[0]);
        assert(p[0] == q[1] && p[1] == q[0]);
        assert(x == y);
        assert(den(x, a.ty, p) == den(x, a.ty, q));
    }
    match x {
        Op::ConstInt(v, w) => {
            if let Op::ConstInt(u, t) = y {
                lemma_sext(v, w);
                lemma_sext(u, w);
                assert(y == Op::ConstInt(u, w));
                lemma_congruent_back(sext(v, w) as int, v as int, w);
                lemma_congruent(v as int, sext(v, w) as int, u as int, w);
                assert(den(Op::ConstInt(v, w), a.ty, p) == den(Op::ConstInt(u, w), a.ty, p));
            }
        },
        Op::IntToPtr(t) => {
            if let Op::IntToPtr(u) = y {
                assert(den(Op::IntToPtr(t), a.ty, p) == den(Op::IntToPtr(u), a.ty, p));
            }
        },
        _ => {
            assert(x == y);
        },
    }
}

/// Operands that change places where the order matters make another key.
pub proof fn swapped_operands_differ(i: InstView, a: ValueId, b: ValueId)
    requires
        !either_way_round(i.kind.op),
        computation(i.kind.op),
        a != b,
    ensures
        key_of(InstView { kind: KindView { op: i.kind.op, args: seq![a, b] }, ..i }) != key_of(
            InstView { kind: KindView { op: i.kind.op, args: seq![b, a] }, ..i },
        ),
{
    let s = seq![a, b];
    let t = seq![b, a];
    assert(s[0] != t[0]);
}

/// Operands that change places where the order makes no difference make no other
/// key.
pub proof fn swapped_operands_share(i: InstView, a: ValueId, b: ValueId)
    requires
        either_way_round(i.kind.op),
    ensures
        key_of(InstView { kind: KindView { op: i.kind.op, args: seq![a, b] }, ..i }) == key_of(
            InstView { kind: KindView { op: i.kind.op, args: seq![b, a] }, ..i },
        ),
{
    if a.0 == b.0 {
        assert(a == b);
    }
}

/// Every computation has a key, and nothing else has one.
pub proof fn computations_have_keys(i: InstView)
    ensures
        key_of(i) is Some <==> computation(i.kind.op),
{
}

/// Integers may change places in the operations on which order makes no
/// difference.
pub proof fn order_makes_no_difference(op: Op, x: i128, y: i128, w: IntWidth, z: i128)
    requires
        either_way_round(op),
    ensures
        int_meaning(op, x, y, w, z) <==> int_meaning(op, y, x, w, z),
{
    assert(x & y == y & x) by (bit_vector);
    assert(x | y == y | x) by (bit_vector);
    assert(x ^ y == y ^ x) by (bit_vector);
    assert(x * y == y * x) by (nonlinear_arith);
}

/// Does a run give each computation of a function its value? Where the
/// floating-point environment may change, nothing is said of what meets it.
pub open spec fn computes(
    den: Reading,
    f: FuncView,
    env: spec_fn(ValueId) -> int,
    unsure: bool,
) -> bool {
    forall|k: int|
        0 <= k < insts_of(f).len() && computation((#[trigger] insts_of(f)[k]).kind.op) && !(unsure
            && meets_environment(insts_of(f)[k].kind.op)) ==> env(insts_of(f)[k].id) == den(
            insts_of(f)[k].kind.op,
            insts_of(f)[k].ty,
            values(insts_of(f)[k].kind.args, env),
        )
}

/// Are the operands and constants of a function in order?
pub open spec fn in_order(f: FuncView) -> bool {
    forall|k: int|
        0 <= k < insts_of(f).len() ==> constant_is_typed(#[trigger] insts_of(f)[k])
            && has_both_operands(insts_of(f)[k])
}

/// What is read instead of a repeated computation has its value in every run.
pub proof fn sharing_keeps_values(
    den: Reading,
    f: FuncView,
    env: spec_fn(ValueId) -> int,
    held: bool,
    v: ValueId,
)
    requires
        regular(den),
        in_order(f),
        computes(den, f, env, held),
        rewrites_of(f, held).contains_key(v),
    ensures
        env(v) == env(rewrites_of(f, held)[v]),
{
    let n = f.blocks.len();
    let m = rewrites_of(f, held);
    lemma_rewrites_upto(f, n, held, v);
    let (b, j) = choose|b: int, j: int|
        0 <= b < n && #[trigger] repeats_at(f, held, b, j) && f.blocks[b].insts[j].id == v
            && earlier(f.blocks[b].insts, j, held) == Some(m[v]);
    let s = f.blocks[b].insts;
    let key = key_of(s[j])->0;
    lemma_first_with(s, j as nat, key, held);
    let i = choose|i: int|
        0 <= i < j && #[trigger] s[i].id == m[v] && shareable(s[i], held) && key_of(s[i]) == Some(key)
            && crate::opt::cse::first_with(s, i as nat, key, held) is None;
    lemma_placed(f.blocks, n, b, i);
    lemma_placed(f.blocks, n, b, j);
    let p = choose|p: int| 0 <= p < insts_of(f).len() && #[trigger] insts_of(f)[p] == s[i];
    let q = choose|q: int| 0 <= q < insts_of(f).len() && #[trigger] insts_of(f)[q] == s[j];
    computations_have_keys(s[i]);
    computations_have_keys(s[j]);
    assert(fpenv_sensitive(s[i].kind.op) == meets_environment(s[i].kind.op));
    assert(fpenv_sensitive(s[j].kind.op) == meets_environment(s[j].kind.op));
    same_key_same_value(den, s[i], s[j], env);
}

/// An instruction of a block is one of the function.
pub proof fn lemma_placed(blocks: Seq<crate::ir::inst::BlockView>, n: nat, b: int, j: int)
    requires
        n <= blocks.len(),
        0 <= b < n,
        0 <= j < blocks[b].insts.len(),
    ensures
        exists|p: int|
            0 <= p < insts_upto(blocks, n).len() && #[trigger] insts_upto(blocks, n)[p]
                == blocks[b].insts[j],
    decreases n,
{
    let before = insts_upto(blocks, (n - 1) as nat);
    let all = insts_upto(blocks, n);
    if b == n - 1 {
        assert(all[before.len() + j] == blocks[b].insts[j]);
    } else {
        lemma_placed(blocks, (n - 1) as nat, b, j);
        let p = choose|p: int| 0 <= p < before.len() && #[trigger] before[p] == blocks[b].insts[j];
        assert(all[p] == before[p]);
    }
}

} // verus!
