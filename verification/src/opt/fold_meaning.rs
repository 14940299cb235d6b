//! Constant folding computes what the instructions compute.

use crate::ir::inst::{BlockView, FuncView, InstView, KindView, Op, ValueId};
use crate::ir::types::{FloatWidth, IntWidth, IrType};
use crate::opt::arith::{
    congruent, digit_sum, digits, divides, fits, lemma_congruent, lemma_congruent_back,
    lemma_counts, lemma_digits, lemma_digits_right, lemma_low_bits, lemma_machine_division,
    lemma_narrower, lemma_one_quotient, lemma_same_number, lemma_sext, lemma_shift_left,
    lemma_shift_right, quotient, size, unsigned, zeros_at_the_end, zeros_in_front,
};
use crate::opt::const_fold::{
    as_const, const_of, fold_of, folded, folded_conversion, folded_float, folded_float_compare,
    folded_float_unary, folded_func, folded_int, folded_int_compare, folded_int_unary,
    folded_logic, folded_select, folded_truncation, int_result, int_value, known, known_in,
    known_upto, learnt, lemma_swept_blocks, settled, swept, swept_blocks, unfolded_blocks, Const,
    IntBin, IntUn,
};
use crate::opt::floats::{answer, FloatReply, FloatRequest};
use crate::opt::insts::{insts_of, insts_upto};
use crate::opt::ints::{low_bits, sext, zext};
use crate::opt::meaning::{
    all_hold, holds, int_meaning, int_unary_meaning, of_type, question, rounds, rounds_once,
    rounds_to, unary_question,
};
use vstd::arithmetic::power2::pow2;
use vstd::prelude::*;

verus! {

/// The operation on integers that an instruction is.
spec fn int_bin(op: Op) -> IntBin {
    match op {
        Op::IAdd => IntBin::Add,
        Op::ISub => IntBin::Sub,
        Op::IMul => IntBin::Mul,
        Op::IDiv => IntBin::Div,
        Op::IMod => IntBin::Mod,
        Op::BitAnd => IntBin::And,
        Op::BitOr => IntBin::Or,
        Op::BitXor => IntBin::Xor,
        Op::Shl => IntBin::Shl,
        Op::LShr => IntBin::LShr,
        _ => IntBin::AShr,
    }
}

spec fn is_int_bin(op: Op) -> bool {
    match op {
        Op::IAdd | Op::ISub | Op::IMul | Op::IDiv | Op::IMod | Op::BitAnd | Op::BitOr | Op::BitXor
        | Op::Shl | Op::LShr | Op::AShr => true,
        _ => false,
    }
}

proof fn lemma_bits_fit(x: i128, y: i128, w: IntWidth)
    requires
        fits(x as int, w),
        fits(y as int, w),
    ensures
        fits((x & y) as int, w),
        fits((x | y) as int, w),
        fits((x ^ y) as int, w),
{
    match w {
        IntWidth::I8 => {
            assert(-0x80 <= x < 0x80 && -0x80 <= y < 0x80 ==> -0x80 <= x & y < 0x80 && -0x80 <= x | y
                < 0x80 && -0x80 <= x ^ y < 0x80) by (bit_vector);
        },
        IntWidth::I16 => {
            assert(-0x8000 <= x < 0x8000 && -0x8000 <= y < 0x8000 ==> -0x8000 <= x & y < 0x8000
                && -0x8000 <= x | y < 0x8000 && -0x8000 <= x ^ y < 0x8000) by (bit_vector);
        },
        IntWidth::I32 => {
            assert(-0x8000_0000 <= x < 0x8000_0000 && -0x8000_0000 <= y < 0x8000_0000
                ==> -0x8000_0000 <= x & y < 0x8000_0000 && -0x8000_0000 <= x | y < 0x8000_0000
                && -0x8000_0000 <= x ^ y < 0x8000_0000) by (bit_vector);
        },
        IntWidth::I64 => {
            assert(-0x8000_0000_0000_0000 <= x < 0x8000_0000_0000_0000 && -0x8000_0000_0000_0000 <= y
                < 0x8000_0000_0000_0000 ==> -0x8000_0000_0000_0000 <= x & y < 0x8000_0000_0000_0000
                && -0x8000_0000_0000_0000 <= x | y < 0x8000_0000_0000_0000 && -0x8000_0000_0000_0000
                <= x ^ y < 0x8000_0000_0000_0000) by (bit_vector);
        },
        IntWidth::I128 => {},
    }
}

/// What the machine computes on two integers is what the operation means.
proof fn lemma_int_result(op: Op, x: i128, y: i128, w: IntWidth)
    requires
        is_int_bin(op),
        fits(x as int, w),
        fits(y as int, w),
    ensures
        match op {
            Op::IDiv | Op::IMod => int_result(int_bin(op), x, y, w) is Some <==> divides(
                x as int,
                y as int,
                w,
            ),
            Op::Shl | Op::LShr | Op::AShr => int_result(int_bin(op), x, y, w) is Some <==> 0 <= y
                < digits(w),
            _ => int_result(int_bin(op), x, y, w) is Some,
        },
        int_result(int_bin(op), x, y, w) matches Some(z) ==> int_meaning(op, x, y, w, sext(z, w)),
{
    if let Some(z) = int_result(int_bin(op), x, y, w) {
        lemma_sext(z, w);
        match op {
            Op::IAdd => {
                lemma_narrower(z as int, x + y, w);
                lemma_congruent(sext(z, w) as int, z as int, x + y, w);
            },
            Op::ISub => {
                lemma_narrower(z as int, x - y, w);
                lemma_congruent(sext(z, w) as int, z as int, x - y, w);
            },
            Op::IMul => {
                let p = x * y;
                lemma_narrower(z as int, p, w);
                lemma_congruent(sext(z, w) as int, z as int, p, w);
            },
            Op::IDiv | Op::IMod => {
                lemma_machine_division(x, y, w);
            },
            Op::BitAnd | Op::BitOr | Op::BitXor => {
                lemma_bits_fit(x, y, w);
            },
            Op::Shl => {
                lemma_shift_left(x, y as u32);
                lemma_narrower(z as int, x * pow2(y as nat), w);
                lemma_congruent(sext(z, w) as int, z as int, x * pow2(y as nat), w);
            },
            Op::LShr => {
                lemma_low_bits(x, w);
                lemma_digits_right(low_bits(x, w), y as u32);
                let q = low_bits(x, w) >> (y as u32);
                lemma_as_signed(q);
                lemma_narrower(z as int, q as int, w);
                lemma_congruent(sext(z, w) as int, z as int, q as int, w);
            },
            _ => {
                lemma_sext(x, w);
                lemma_shift_right(x, y as u32);
                lemma_shrunk(x as int, y as nat, w);
            },
        }
    } else {
        if op is IDiv || op is IMod {
            if divides(x as int, y as int, w) {
                lemma_machine_division(x, y, w);
            }
        }
    }
}

proof fn lemma_as_signed(q: u128)
    ensures
        congruent((q as i128) as int, q as int, IntWidth::I128),
{
    assert((q as i128) == q || (q as i128) == q - 0xffff_ffff_ffff_ffff_ffff_ffff_ffff_ffffu128 - 1)
        by (bit_vector);
}

proof fn lemma_shrunk(x: int, k: nat, w: IntWidth)
    requires
        fits(x, w),
    ensures
        fits(x / pow2(k) as int, w),
{
    vstd::arithmetic::power2::lemma_pow2_pos(k);
    let p = pow2(k) as int;
    vstd::arithmetic::div_mod::lemma_fundamental_div_mod(x, p);
    vstd::arithmetic::div_mod::lemma_mod_bound(x, p);
    let q = x / p;
    let r = x % p;
    assert((x >= 0 ==> 0 <= q <= x) && (x < 0 ==> x <= q < 0)) by (nonlinear_arith)
        requires
            x == p * q + r,
            0 <= r < p,
            p >= 1,
    ;
}

/// Only one integer of a width is what the operation means, where it has a
/// result.
proof fn lemma_one_result(op: Op, x: i128, y: i128, w: IntWidth, a: i128, b: i128)
    requires
        is_int_bin(op),
        fits(x as int, w),
        fits(y as int, w),
        fits(a as int, w),
        fits(b as int, w),
        int_meaning(op, x, y, w, a),
        int_meaning(op, x, y, w, b),
        (op is IDiv || op is IMod) ==> divides(x as int, y as int, w),
        (op is Shl || op is LShr || op is AShr) ==> 0 <= y < digits(w),
    ensures
        a == b,
{
    match op {
        Op::IDiv => lemma_one_quotient(x as int, y as int, a as int, b as int),
        Op::IMod => {
            let p = choose|q: int| #[trigger] quotient(x as int, y as int, q) && x == q * y + a;
            let q = choose|q: int| #[trigger] quotient(x as int, y as int, q) && x == q * y + b;
            lemma_one_quotient(x as int, y as int, p, q);
        },
        Op::IAdd => lemma_both(a as int, b as int, x + y, w),
        Op::ISub => lemma_both(a as int, b as int, x - y, w),
        Op::IMul => lemma_both(a as int, b as int, x * y, w),
        Op::Shl => lemma_both(a as int, b as int, x * pow2(y as nat), w),
        Op::LShr => lemma_both(
            a as int,
            b as int,
            unsigned(x as int, w) / pow2(y as nat) as int,
            w,
        ),
        _ => {},
    }
}

proof fn lemma_both(a: int, b: int, c: int, w: IntWidth)
    requires
        fits(a, w),
        fits(b, w),
        congruent(a, c, w),
        congruent(b, c, w),
    ensures
        a == b,
{
    lemma_congruent_back(b, c, w);
    lemma_congruent(a, c, b, w);
    lemma_same_number(a, b, w);
}

spec fn int_un(op: Op) -> IntUn {
    match op {
        Op::INeg => IntUn::Neg,
        Op::BitNot => IntUn::Not,
        Op::PopCount => IntUn::PopCount,
        Op::CountLeadingZeros => IntUn::LeadingZeros,
        _ => IntUn::TrailingZeros,
    }
}

spec fn is_int_un(op: Op) -> bool {
    match op {
        Op::INeg | Op::BitNot | Op::PopCount | Op::CountLeadingZeros | Op::CountTrailingZeros => true,
        _ => false,
    }
}

/// What the machine computes on one integer is what the operation means.
proof fn lemma_int_value(op: Op, x: i128, from: IntWidth, w: IntWidth)
    requires
        is_int_un(op),
        fits(x as int, from),
    ensures
        int_unary_meaning(op, x, from, w, sext(int_value(int_un(op), x, from), w)),
{
    let z = int_value(int_un(op), x, from);
    lemma_sext(z, w);
    lemma_low_bits(x, from);
    lemma_digits(from);
    lemma_counts(low_bits(x, from) as nat, digits(from));
    lemma_small_counts(low_bits(x, from) as nat, digits(from));
    match op {
        Op::INeg => {
            lemma_narrower(z as int, -x, w);
            lemma_congruent(sext(z, w) as int, z as int, -x, w);
        },
        Op::BitNot => {
            assert(!x == -x - 1) by (bit_vector);
        },
        _ => {},
    }
}

proof fn lemma_small_counts(n: nat, k: nat)
    ensures
        digit_sum(n as int, k) <= k,
        zeros_in_front(n as int, k) <= k,
        zeros_at_the_end(n as int, k) <= k,
    decreases k,
{
    if k > 0 {
        lemma_small_counts(n, (k - 1) as nat);
        lemma_small_counts(n / 2, (k - 1) as nat);
    }
}

/// Do the known values agree with those of a run?
spec fn agree(consts: Map<ValueId, Const>, env: spec_fn(ValueId) -> Const) -> bool {
    forall|v: ValueId| #[trigger] consts.contains_key(v) ==> consts[v] == env(v)
}

/// Is `op` the constant that a run gives the value `v`?
spec fn names_value<E: Fn(FloatRequest) -> FloatReply>(
    e: E,
    op: Op,
    v: ValueId,
    env: spec_fn(ValueId) -> Const,
) -> bool {
    const_of(e, op) == Some(env(v)) && match op {
        Op::ConstInt(v, w) => fits(v as int, w),
        Op::ConstFloat(v, w) => rounds_to(e, v, w, v),
        Op::ConstBool(_) => true,
        _ => false,
    }
}

proof fn lemma_folded_int(op: Op, x: i128, y: i128, w: IntWidth, z: i128)
    requires
        is_int_bin(op),
        fits(x as int, w),
        fits(y as int, w),
        fits(z as int, w),
        int_meaning(op, x, y, w, z),
    ensures
        folded_int(int_bin(op), Some(Const::Int(x, w)), Some(Const::Int(y, w)), IrType::Int(w)) matches Some(r)
            ==> r == Op::ConstInt(z, w),
{
    reveal(folded_int);
    lemma_int_result(op, x, y, w);
    if let Some(t) = int_result(int_bin(op), x, y, w) {
        lemma_sext(t, w);
        lemma_one_result(op, x, y, w, sext(t, w), z);
    }
}

proof fn lemma_folded_unary(op: Op, x: i128, from: IntWidth, w: IntWidth, z: i128)
    requires
        is_int_un(op),
        fits(x as int, from),
        fits(z as int, w),
        int_unary_meaning(op, x, from, w, z),
    ensures
        folded_int_unary(int_un(op), Some(Const::Int(x, from)), IrType::Int(w)) == Some(
            Op::ConstInt(z, w),
        ),
{
    reveal(folded_int_unary);
    lemma_int_value(op, x, from, w);
    let t = int_value(int_un(op), x, from);
    lemma_sext(t, w);
    let n = unsigned(x as int, from);
    match op {
        Op::INeg => lemma_both(sext(t, w) as int, z as int, -x, w),
        Op::BitNot => lemma_both(sext(t, w) as int, z as int, -x - 1, w),
        Op::PopCount => lemma_both(sext(t, w) as int, z as int, digit_sum(n, digits(from)) as int, w),
        Op::CountLeadingZeros => lemma_both(
            sext(t, w) as int,
            z as int,
            zeros_in_front(n, digits(from)) as int,
            w,
        ),
        _ => lemma_both(
            sext(t, w) as int,
            z as int,
            zeros_at_the_end(n, digits(from)) as int,
            w,
        ),
    }
}

proof fn lemma_folded_extension(op: Op, x: i128, from: IntWidth, w: IntWidth, z: i128)
    requires
        op matches Op::IntExtend(t, _) && t == w || op == Op::IntTrunc(w),
        fits(x as int, from),
        fits(z as int, w),
        int_unary_meaning(op, x, from, w, z),
    ensures
        op matches Op::IntExtend(_, signed) ==> sext(
            if signed {
                sext(x, from)
            } else {
                zext(x, from)
            },
            w,
        ) == z,
        op is IntTrunc ==> sext(x, w) == z,
{
    lemma_sext(x, from);
    lemma_low_bits(x, from);
    match op {
        Op::IntExtend(_, signed) => {
            let t = if signed {
                sext(x, from)
            } else {
                zext(x, from)
            };
            let n = if signed {
                x as int
            } else {
                unsigned(x as int, from)
            };
            lemma_sext(t, w);
            if from == IntWidth::I128 {
                lemma_narrower(t as int, n, w);
            }
            lemma_congruent(sext(t, w) as int, t as int, n, w);
            lemma_both(sext(t, w) as int, z as int, n, w);
        },
        _ => {
            lemma_sext(x, w);
            lemma_both(sext(x, w) as int, z as int, x as int, w);
        },
    }
}

proof fn lemma_folded_truncation<E: Fn(FloatRequest) -> FloatReply>(
    e: E,
    x: u64,
    s: FloatWidth,
    w: IntWidth,
    z: i128,
)
    requires
        fits(z as int, w),
        rounds_to(e, x, s, x),
        answer(e, FloatRequest::Truncate(x)) matches FloatReply::Whole(Some(n)) ==> (fits(
            n as int,
            w,
        ) || fits(n - 1, w)) ==> congruent(z as int, n as int, w),
    ensures
        folded_truncation(e, Some(Const::Float(x, s)), w) matches Some(r) ==> r == Op::ConstInt(z, w),
{
    reveal(folded_truncation);
    if let FloatReply::Whole(Some(n)) = answer(e, FloatRequest::Truncate(x)) {
        lemma_sext(n, w);
        if folded_truncation(e, Some(Const::Float(x, s)), w) is Some {
            lemma_both(sext(n, w) as int, z as int, n as int, w);
        }
    }
}

/// What an instruction is folded to is the value that a run gives.
#[verifier::rlimit(60)]
#[verifier::spinoff_prover]
proof fn lemma_folded<E: Fn(FloatRequest) -> FloatReply>(
    e: E,
    i: InstView,
    consts: Map<ValueId, Const>,
    env: spec_fn(ValueId) -> Const,
    held: bool,
    op: Op,
)
    requires
        rounds_once(e),
        agree(consts, env),
        holds(e, i, env, held),
        folded(e, i.kind, i.ty, consts, held) == Some(op),
    ensures
        names_value(e, op, i.id, env),
{
    let k = i.kind;
    let a = env(k.args[0]);
    let b = env(k.args[1]);
    let c = env(k.args[2]);
    let r = env(i.id);
    reveal(folded_int);
    reveal(folded_int_unary);
    reveal(folded_float);
    reveal(folded_float_unary);
    reveal(folded_int_compare);
    reveal(folded_float_compare);
    reveal(folded_select);
    reveal(folded_logic);
    reveal(folded_conversion);
    reveal(folded_truncation);
    if is_int_bin(k.op) {
        if let (Const::Int(x, s), Const::Int(y, t), Const::Int(z, u), IrType::Int(w)) = (a, b, r, i.ty) {
            lemma_folded_int(k.op, x, y, w, z);
            lemma_sext(z, w);
        }
    } else if is_int_un(k.op) {
        if let (Const::Int(x, from), Const::Int(z, u), IrType::Int(w)) = (a, r, i.ty) {
            lemma_folded_unary(k.op, x, from, w, z);
            lemma_sext(z, w);
        }
    } else {
        match k.op {
            Op::IntExtend(w, _) | Op::IntTrunc(w) => {
                if let (Const::Int(x, from), Const::Int(z, u)) = (a, r) {
                    lemma_folded_extension(k.op, x, from, w, z);
                    lemma_sext(z, w);
                }
            },
            Op::FloatToInt(w) => {
                if let (Const::Float(x, s), Const::Int(z, u)) = (a, r) {
                    lemma_folded_truncation(e, x, s, w, z);
                    lemma_sext(z, w);
                }
            },
            Op::ICmp(_) => {
                if let (Const::Int(x, s), Const::Int(y, t)) = (a, b) {
                    lemma_sext(x, s);
                    lemma_sext(y, t);
                }
            },
            Op::IntToFloat(w) => {
                if let Const::Int(x, from) = a {
                    lemma_sext(x, from);
                }
            },
            Op::Select => {
                if let (Const::Int(z, u), IrType::Int(w)) = (r, i.ty) {
                    lemma_sext(z, u);
                }
            },
            _ => {},
        }
    }
}

proof fn lemma_learnt<E: Fn(FloatRequest) -> FloatReply>(
    e: E,
    consts: Map<ValueId, Const>,
    i: InstView,
    env: spec_fn(ValueId) -> Const,
    held: bool,
)
    requires
        agree(consts, env),
        holds(e, i, env, held),
    ensures
        agree(learnt(e, consts, i.id, i.kind.op), env),
{
    match i.kind.op {
        Op::ConstInt(v, w) => {
            lemma_sext(v, w);
            if let Const::Int(z, u) = env(i.id) {
                lemma_both(sext(v, w) as int, z as int, v as int, w);
            }
        },
        _ => {},
    }
}

proof fn lemma_known_agree<E: Fn(FloatRequest) -> FloatReply>(
    e: E,
    s: Seq<InstView>,
    n: nat,
    env: spec_fn(ValueId) -> Const,
    held: bool,
)
    requires
        n <= s.len(),
        forall|k: int| 0 <= k < s.len() ==> holds(e, #[trigger] s[k], env, held),
    ensures
        agree(known_upto(e, s, n), env),
    decreases n,
{
    if n > 0 {
        lemma_known_agree(e, s, (n - 1) as nat, env, held);
        lemma_learnt(e, known_upto(e, s, (n - 1) as nat), s[n - 1], env, held);
    }
}

proof fn lemma_swept_holds<E: Fn(FloatRequest) -> FloatReply>(
    e: E,
    s: Seq<InstView>,
    n: nat,
    consts: Map<ValueId, Const>,
    env: spec_fn(ValueId) -> Const,
    held: bool,
)
    requires
        rounds_once(e),
        n <= s.len(),
        agree(consts, env),
        forall|k: int| 0 <= k < s.len() ==> holds(e, #[trigger] s[k], env, held),
    ensures
        agree(swept(e, s, n, consts, held).1, env),
        swept(e, s, n, consts, held).0.len() == n,
        forall|k: int|
            0 <= k < n ==> holds(e, #[trigger] swept(e, s, n, consts, held).0[k], env, held),
    decreases n,
{
    if n > 0 {
        lemma_swept_holds(e, s, (n - 1) as nat, consts, env, held);
        let (done, c, changed) = swept(e, s, (n - 1) as nat, consts, held);
        let i = s[n - 1];
        if let Some(op) = fold_of(e, i, c, held) {
            lemma_folded(e, i, c, env, held, op);
            match op {
                Op::ConstInt(v, w) => lemma_sext(v, w),
                _ => {},
            }
            assert(holds(e, as_const(i, op), env, held));
        }
    }
}

/// Do all instructions of blocks hold?
spec fn blocks_hold<E: Fn(FloatRequest) -> FloatReply>(
    e: E,
    blocks: Seq<BlockView>,
    env: spec_fn(ValueId) -> Const,
    held: bool,
) -> bool {
    forall|b: int, k: int|
        0 <= b < blocks.len() && 0 <= k < blocks[b].insts.len() ==> holds(
            e,
            #[trigger] blocks[b].insts[k],
            env,
            held,
        )
}

proof fn lemma_swept_blocks_hold<E: Fn(FloatRequest) -> FloatReply>(
    e: E,
    blocks: Seq<BlockView>,
    n: nat,
    consts: Map<ValueId, Const>,
    env: spec_fn(ValueId) -> Const,
    held: bool,
)
    requires
        rounds_once(e),
        n <= blocks.len(),
        agree(consts, env),
        blocks_hold(e, blocks, env, held),
    ensures
        agree(swept_blocks(e, blocks, n, consts, held).1, env),
        swept_blocks(e, blocks, n, consts, held).0.len() == n,
        blocks_hold(e, swept_blocks(e, blocks, n, consts, held).0, env, held),
    decreases n,
{
    if n > 0 {
        lemma_swept_blocks_hold(e, blocks, (n - 1) as nat, consts, env, held);
        let (done, c, changed) = swept_blocks(e, blocks, (n - 1) as nat, consts, held);
        let b = blocks[n - 1];
        lemma_swept_holds(e, b.insts, b.insts.len(), c, env, held);
        let after = swept_blocks(e, blocks, n, consts, held).0;
        assert forall|j: int, k: int|
            0 <= j < after.len() && 0 <= k < after[j].insts.len() implies holds(
            e,
            #[trigger] after[j].insts[k],
            env,
            held,
        ) by {
            if j < n - 1 {
                assert(after[j] == done[j]);
            }
        }
    }
}

proof fn lemma_settled_hold<E: Fn(FloatRequest) -> FloatReply>(
    e: E,
    blocks: Seq<BlockView>,
    consts: Map<ValueId, Const>,
    env: spec_fn(ValueId) -> Const,
    held: bool,
)
    requires
        rounds_once(e),
        agree(consts, env),
        blocks_hold(e, blocks, env, held),
    ensures
        blocks_hold(e, settled(e, blocks, consts, held), env, held),
    decreases unfolded_blocks(blocks),
{
    lemma_swept_blocks(e, blocks, blocks.len(), consts, held);
    assert(blocks.take(blocks.len() as int) =~= blocks);
    let (next, c, changed) = swept_blocks(e, blocks, blocks.len(), consts, held);
    if changed {
        lemma_swept_blocks_hold(e, blocks, blocks.len(), consts, env, held);
        lemma_settled_hold(e, next, c, env, held);
    }
}

proof fn lemma_flat_hold<E: Fn(FloatRequest) -> FloatReply>(
    e: E,
    blocks: Seq<BlockView>,
    n: nat,
    env: spec_fn(ValueId) -> Const,
    held: bool,
)
    requires
        n <= blocks.len(),
    ensures
        (forall|k: int|
            0 <= k < insts_upto(blocks, n).len() ==> holds(
                e,
                #[trigger] insts_upto(blocks, n)[k],
                env,
                held,
            )) <==> blocks_hold(e, blocks.take(n as int), env, held),
    decreases n,
{
    if n > 0 {
        lemma_flat_hold(e, blocks, (n - 1) as nat, env, held);
        let before = insts_upto(blocks, (n - 1) as nat);
        let all = insts_upto(blocks, n);
        let last = blocks[n - 1].insts;
        let t = blocks.take(n as int);
        let u = blocks.take(n - 1);
        if forall|k: int| 0 <= k < all.len() ==> holds(e, #[trigger] all[k], env, held) {
            assert forall|k: int| 0 <= k < before.len() implies holds(e, #[trigger] before[k], env, held) by {
                assert(all[k] == before[k]);
            }
            assert forall|b: int, k: int|
                0 <= b < t.len() && 0 <= k < t[b].insts.len() implies holds(
                e,
                #[trigger] t[b].insts[k],
                env,
                held,
            ) by {
                if b < n - 1 {
                    assert(u[b].insts[k] == t[b].insts[k]);
                } else {
                    assert(all[before.len() + k] == last[k]);
                }
            }
        }
        if blocks_hold(e, t, env, held) {
            assert forall|b: int, k: int|
                0 <= b < u.len() && 0 <= k < u[b].insts.len() implies holds(
                e,
                #[trigger] u[b].insts[k],
                env,
                held,
            ) by {
                assert(t[b].insts[k] == u[b].insts[k]);
            }
            assert forall|k: int| 0 <= k < all.len() implies holds(e, #[trigger] all[k], env, held) by {
                if k < before.len() {
                    assert(all[k] == before[k]);
                } else {
                    assert(all[k] == t[n - 1].insts[k - before.len()]);
                }
            }
        }
    }
}

/// Folding keeps what a function computes: where a run gives values of which all
/// instructions hold, all instructions of the folded function hold of them too.
pub proof fn folding_keeps_values<E: Fn(FloatRequest) -> FloatReply>(
    e: E,
    f: FuncView,
    env: spec_fn(ValueId) -> Const,
    held: bool,
)
    requires
        rounds_once(e),
        all_hold(e, f, env, held),
    ensures
        all_hold(e, folded_func(e, f, held), env, held),
{
    lemma_known_agree(e, insts_of(f), insts_of(f).len(), env, held);
    lemma_flat_hold(e, f.blocks, f.blocks.len(), env, held);
    assert(f.blocks.take(f.blocks.len() as int) =~= f.blocks);
    lemma_settled_hold(e, f.blocks, known_in(e, f), env, held);
    let g = folded_func(e, f, held);
    lemma_flat_hold(e, g.blocks, g.blocks.len(), env, held);
    assert(g.blocks.take(g.blocks.len() as int) =~= g.blocks);
}

/// A sum, a difference and a product of known integers become the integer of the
/// width that is the same number there.
pub proof fn folded_sums_are_sums<E: Fn(FloatRequest) -> FloatReply>(
    e: E,
    a: ValueId,
    b: ValueId,
    x: i128,
    y: i128,
    w: IntWidth,
    held: bool,
)
    requires
        fits(x as int, w),
        fits(y as int, w),
        a != b,
    ensures
        ({
            let consts = Map::<ValueId, Const>::empty().insert(a, Const::Int(x, w)).insert(
                b,
                Const::Int(y, w),
            );
            let args = seq![a, b];
            let ty = IrType::Int(w);
            &&& folded(e, KindView { op: Op::IAdd, args }, ty, consts, held) matches Some(r)
                && r matches Op::ConstInt(z, u) && u == w && fits(z as int, w) && congruent(
                z as int,
                x + y,
                w,
            )
            &&& folded(e, KindView { op: Op::ISub, args }, ty, consts, held) matches Some(r)
                && r matches Op::ConstInt(z, u) && u == w && fits(z as int, w) && congruent(
                z as int,
                x - y,
                w,
            )
            &&& folded(e, KindView { op: Op::IMul, args }, ty, consts, held) matches Some(r)
                && r matches Op::ConstInt(z, u) && u == w && fits(z as int, w) && congruent(
                z as int,
                x * y,
                w,
            )
        }),
{
    reveal(folded_int);
    lemma_int_result(Op::IAdd, x, y, w);
    lemma_int_result(Op::ISub, x, y, w);
    lemma_int_result(Op::IMul, x, y, w);
    lemma_sext(int_result(IntBin::Add, x, y, w)->0, w);
    lemma_sext(int_result(IntBin::Sub, x, y, w)->0, w);
    lemma_sext(int_result(IntBin::Mul, x, y, w)->0, w);
}

/// A quotient and a remainder of known integers make up the dividend, and the
/// remainder is smaller than the divisor and has the sign of the dividend. A
/// division by zero, and one whose quotient is too large, stays.
pub proof fn folded_quotients_are_quotients<E: Fn(FloatRequest) -> FloatReply>(
    e: E,
    a: ValueId,
    b: ValueId,
    x: i128,
    y: i128,
    w: IntWidth,
    held: bool,
)
    requires
        fits(x as int, w),
        fits(y as int, w),
        a != b,
    ensures
        ({
            let consts = Map::<ValueId, Const>::empty().insert(a, Const::Int(x, w)).insert(
                b,
                Const::Int(y, w),
            );
            let quotient = folded(
                e,
                KindView { op: Op::IDiv, args: seq![a, b] },
                IrType::Int(w),
                consts,
                held,
            );
            let rest = folded(
                e,
                KindView { op: Op::IMod, args: seq![a, b] },
                IrType::Int(w),
                consts,
                held,
            );
            if y == 0 || (2 * x == -size(w) && y == -1) {
                quotient is None && rest is None
            } else {
                &&& quotient matches Some(s)
                &&& s matches Op::ConstInt(q, u)
                &&& rest matches Some(t)
                &&& t matches Op::ConstInt(r, v)
                &&& u == w && v == w
                &&& fits(q as int, w) && fits(r as int, w)
                &&& x == q * y + r
                &&& y > 0 ==> -y < r < y
                &&& y < 0 ==> y < r < -y
                &&& r == 0 || (r < 0 <==> x < 0)
            }
        }),
{
    reveal(folded_int);
    lemma_int_result(Op::IDiv, x, y, w);
    lemma_int_result(Op::IMod, x, y, w);
    if divides(x as int, y as int, w) {
        lemma_machine_division(x, y, w);
        let q = x.checked_div(y)->0;
        let r = x.checked_rem(y)->0;
        lemma_sext(q, w);
        lemma_sext(r, w);
    }
}

/// Does the evaluator answer with a number of the format?
pub open spec fn answers<E: Fn(FloatRequest) -> FloatReply>(
    e: E,
    q: FloatRequest,
    w: FloatWidth,
) -> bool {
    answer(e, q) matches FloatReply::Bits(b) && exists|r: u64| #[trigger] rounds_to(e, b, w, r)
}

/// Does an operation on these known values have a result?
pub open spec fn has_result<E: Fn(FloatRequest) -> FloatReply>(
    e: E,
    op: Op,
    ty: IrType,
    a: Const,
    b: Const,
    c: Const,
) -> bool {
    match op {
        Op::IAdd | Op::ISub | Op::IMul | Op::BitAnd | Op::BitOr | Op::BitXor => a is Int && b is Int
            && ty is Int,
        Op::IDiv | Op::IMod => match (a, b, ty) {
            (Const::Int(x, _), Const::Int(y, _), IrType::Int(w)) => fits(x as int, w) && fits(
                y as int,
                w,
            ) && divides(x as int, y as int, w),
            _ => false,
        },
        Op::Shl | Op::LShr | Op::AShr => match (a, b, ty) {
            (Const::Int(_, _), Const::Int(y, _), IrType::Int(w)) => 0 <= y < digits(w),
            _ => false,
        },
        Op::INeg | Op::BitNot | Op::PopCount | Op::CountLeadingZeros | Op::CountTrailingZeros => a is Int
            && ty is Int,
        Op::IntExtend(_, _) | Op::IntTrunc(_) => a is Int,
        Op::FAdd | Op::FSub | Op::FMul | Op::FDiv | Op::FPow => match (a, b, ty) {
            (Const::Float(x, _), Const::Float(y, _), IrType::Float(w)) => answers(
                e,
                question(op, x, y),
                w,
            ),
            _ => false,
        },
        Op::FNeg | Op::FAbs | Op::FSqrt => match (a, ty) {
            (Const::Float(x, _), IrType::Float(w)) => answers(e, unary_question(op, x), w),
            _ => false,
        },
        Op::ICmp(_) => a is Int && b is Int,
        Op::FCmp(op) => match (a, b) {
            (Const::Float(x, s), Const::Float(y, t)) => rounds_to(e, x, s, x) && rounds_to(e, y, t, y)
                && answer(e, FloatRequest::Compare(op, x, y)) is Truth,
            _ => false,
        },
        Op::And | Op::Or => a is Bool && b is Bool,
        Op::Not => a is Bool,
        Op::Select => match a {
            Const::Bool(x) => of_type(
                e,
                if x {
                    b
                } else {
                    c
                },
                ty,
            ),
            _ => false,
        },
        Op::IntToFloat(w) => match a {
            Const::Int(x, from) => fits(x as int, from) && answer(e, FloatRequest::FromInt(x, w)) is Bits,
            _ => false,
        },
        Op::FloatExtend(w) | Op::FloatTrunc(w) => match a {
            Const::Float(x, _) => exists|r: u64| #[trigger] rounds_to(e, x, w, r),
            _ => false,
        },
        Op::FloatToInt(w) => match a {
            Const::Float(x, s) => w != IntWidth::I128 && rounds_to(e, x, s, x) && (answer(
                e,
                FloatRequest::Truncate(x),
            ) matches FloatReply::Whole(Some(n)) && fits(n as int, w)),
            _ => false,
        },
        _ => false,
    }
}

/// What has a result on known values is folded, unless it depends on a rounding
/// that is unsure: that is never folded.
pub proof fn known_values_fold<E: Fn(FloatRequest) -> FloatReply>(
    e: E,
    k: KindView,
    ty: IrType,
    consts: Map<ValueId, Const>,
    held: bool,
    a: Const,
    b: Const,
    c: Const,
)
    requires
        known(consts, k.args[0]) == Some(a),
        known(consts, k.args[1]) == Some(b),
        known(consts, k.args[2]) == Some(c),
        has_result(e, k.op, ty, a, b, c),
    ensures
        folded(e, k, ty, consts, held) is Some <==> !(held && rounds(k.op)),
{
    reveal(folded_int);
    reveal(folded_int_unary);
    reveal(folded_float);
    reveal(folded_float_unary);
    reveal(folded_int_compare);
    reveal(folded_float_compare);
    reveal(folded_select);
    reveal(folded_logic);
    reveal(folded_conversion);
    reveal(folded_truncation);
    match (a, b, ty) {
        (Const::Int(x, s), Const::Int(y, _), IrType::Int(w)) => {
            lemma_sext(x, s);
            if is_int_bin(k.op) && fits(x as int, w) && fits(y as int, w) {
                lemma_int_result(k.op, x, y, w);
            }
        },
        (Const::Int(x, s), _, _) => {
            lemma_sext(x, s);
        },
        _ => {},
    }
}

} // verus!
