//! Bounds-check elimination.
//!
//! A bounds check is dropped where the index is proved to lie within the bounds:
//! index and bounds are constants, or the index is a linear function of the
//! induction variable of a counted loop whose range is known, and the check
//! stands where the loop has just found the variable within its bound.

use crate::ids::{same_id, IdMap};
use crate::ir::cfg::{edge, lemma_entry_reachable, predecessors, reachable, targets_of};
use crate::ir::dom::{is_walk, lemma_entry_dominator};
use crate::ir::inst::{
    has_block, is_first_block, the_block, type_of, BasicBlock, BlockId, BlockParam, BlockView, CmpOp, FuncRef,
    FuncView, Function, Inst, InstKind, InstView, KindView, Module, ModuleView, Op, RuntimeFunc,
    TermView, Terminator, ValueId,
};
use crate::ir::loops::{
    back_edge, back_sources, find_natural_loops, header_dominates_loop, in_loop, is_loop,
    lemma_back_sources, lemma_leads_back_from, lemma_same_members, NaturalLoop,
};
use crate::ir::sound::{sound_block, sound_function};
use crate::ir::types::{IntWidth, IrType};
use crate::ir::verify::has_duplicate_blocks;
use crate::lists::lemma_masked_filter;
use crate::opt::affine::narrow;
use crate::opt::edit::keep_insts;
use crate::opt::graph::{
    graph_view, leads, lemma_reaches_self, lemma_reaches_step, linked, reach_from, reached, reaches,
};
use crate::opt::insts::{
    all_insts, find_first, first_inst, insts_of, lemma_first_inst, refs_view,
};
use crate::opt::ints::{sext, sign_extend, zero_extend, zext};
use crate::opt::loop_utils::{find_preheader, preds_are, preheader_of};
use crate::opt::pass::Pass;
use vstd::prelude::*;

verus! {

/// The instruction that defines `v`.
pub open spec fn inst_at(f: FuncView, v: ValueId) -> Option<InstView> {
    first_inst(insts_of(f), v)
}

/// The width of an integer value.
#[verifier::opaque]
pub open spec fn width_of(f: FuncView, v: ValueId) -> Option<IntWidth> {
    match type_of(f, v) {
        Some(IrType::Int(w)) => Some(w),
        _ => None,
    }
}

/// What a sign extension to a wider type extends.
pub open spec fn widened(f: FuncView, v: ValueId) -> Option<ValueId> {
    match inst_at(f, v) {
        Some(i) => match i.kind.op {
            Op::IntExtend(to, signed) => match width_of(f, i.kind.args[0]) {
                Some(from) => if signed && from.spec_bits() < to.spec_bits() {
                    Some(i.kind.args[0])
                } else {
                    None
                },
                None => None,
            },
            _ => None,
        },
        None => None,
    }
}

/// A value without the sign extensions round it, found in at most `fuel` steps.
pub open spec fn stripped(f: FuncView, v: ValueId, fuel: nat) -> ValueId
    decreases fuel,
{
    if fuel == 0 {
        v
    } else {
        match widened(f, v) {
            Some(w) => stripped(f, w, (fuel - 1) as nat),
            None => v,
        }
    }
}

/// How many steps are enough to follow a value through a function.
pub open spec fn depth(f: FuncView) -> nat {
    insts_of(f).len()
}

/// How an integer is made from another.
#[derive(Clone, Copy, Debug, PartialEq, Eq, Structural)]
pub enum Conversion {
    Constant(i128, IntWidth),
    Signed(ValueId),
    Unsigned(ValueId),
    Truncated(ValueId, IntWidth),
    Other,
}

/// How an instruction makes an integer.
pub open spec fn kind_conversion(k: KindView) -> Conversion {
    match k.op {
        Op::ConstInt(c, w) => Conversion::Constant(c, w),
        Op::IntExtend(_, signed) => if signed {
            Conversion::Signed(k.args[0])
        } else {
            Conversion::Unsigned(k.args[0])
        },
        Op::IntTrunc(w) => Conversion::Truncated(k.args[0], w),
        _ => Conversion::Other,
    }
}

/// How `v` is made.
#[verifier::opaque]
pub open spec fn conversion_of(f: FuncView, v: ValueId) -> Conversion {
    match inst_at(f, v) {
        Some(i) => kind_conversion(i.kind),
        None => Conversion::Other,
    }
}

/// The integer that a value is known to be, followed through at most `fuel`
/// conversions.
pub open spec fn wide_constant(f: FuncView, v: ValueId, fuel: nat) -> Option<i128>
    decreases fuel,
{
    if fuel == 0 {
        None
    } else {
        let less = (fuel - 1) as nat;
        match conversion_of(f, v) {
            Conversion::Constant(c, w) => Some(sext(c, w)),
            Conversion::Signed(src) => wide_constant(f, src, less),
            Conversion::Unsigned(src) => match (width_of(f, src), wide_constant(f, src, less)) {
                (Some(w), Some(c)) => Some(zext(c, w)),
                _ => None,
            },
            Conversion::Truncated(src, w) => match wide_constant(f, src, less) {
                Some(c) => Some(sext(c, w)),
                None => None,
            },
            Conversion::Other => None,
        }
    }
}

/// The integer of 64 bits that a value is known to be.
#[verifier::opaque]
pub open spec fn scalar(f: FuncView, v: ValueId) -> Option<i64> {
    match wide_constant(f, v, depth(f)) {
        Some(c) => narrow(c as int),
        None => None,
    }
}

/// A value as a linear function of another: the other, the factor and the
/// addend.
pub struct Linear {
    pub base: ValueId,
    pub scale: i64,
    pub offset: i64,
}

/// A linear function with something added.
pub open spec fn shifted(l: Linear, d: int) -> Option<Linear> {
    match narrow(l.offset + d) {
        Some(n) => Some(Linear { offset: n, ..l }),
        None => None,
    }
}

/// A linear function multiplied.
pub open spec fn multiplied(l: Linear, k: int) -> Option<Linear> {
    match (narrow(l.scale * k), narrow(l.offset * k)) {
        (Some(s), Some(o)) => Some(Linear { base: l.base, scale: s, offset: o }),
        _ => None,
    }
}

/// How a value is computed from two others.
#[derive(Clone, Copy, Debug, PartialEq, Eq, Structural)]
pub enum Arith {
    Add(ValueId, ValueId),
    Sub(ValueId, ValueId),
    Mul(ValueId, ValueId),
    Other,
}

/// How an instruction computes its value.
pub open spec fn kind_arith(k: KindView) -> Arith {
    match k.op {
        Op::IAdd => Arith::Add(k.args[0], k.args[1]),
        Op::ISub => Arith::Sub(k.args[0], k.args[1]),
        Op::IMul => Arith::Mul(k.args[0], k.args[1]),
        _ => Arith::Other,
    }
}

/// How `v` is computed.
#[verifier::opaque]
pub open spec fn arith_of(f: FuncView, v: ValueId) -> Arith {
    match inst_at(f, v) {
        Some(i) => kind_arith(i.kind),
        None => Arith::Other,
    }
}

/// What `v` is a linear function of, followed through at most `fuel`
/// instructions; none where a number does not fit.
pub open spec fn linear_of(f: FuncView, v: ValueId, fuel: nat) -> Option<Linear>
    decreases fuel,
{
    let at = stripped(f, v, depth(f));
    let alone = Some(Linear { base: at, scale: 1, offset: 0 });
    if fuel == 0 {
        alone
    } else {
        let less = (fuel - 1) as nat;
        match arith_of(f, at) {
            Arith::Add(a, b) => if linear_of(f, a, less) is Some && scalar(f, b) is Some {
                shifted(linear_of(f, a, less)->0, scalar(f, b)->0 as int)
            } else if linear_of(f, b, less) is Some && scalar(f, a) is Some {
                shifted(linear_of(f, b, less)->0, scalar(f, a)->0 as int)
            } else {
                alone
            },
            Arith::Sub(a, b) => if linear_of(f, a, less) is Some && scalar(f, b) is Some {
                shifted(linear_of(f, a, less)->0, -(scalar(f, b)->0 as int))
            } else {
                alone
            },
            Arith::Mul(a, b) => if linear_of(f, a, less) is Some && scalar(f, b) is Some {
                multiplied(linear_of(f, a, less)->0, scalar(f, b)->0 as int)
            } else if linear_of(f, b, less) is Some && scalar(f, a) is Some {
                multiplied(linear_of(f, b, less)->0, scalar(f, a)->0 as int)
            } else {
                alone
            },
            Arith::Other => alone,
        }
    }
}

/// Do the values of a function agree with what its integer instructions compute,
/// where nothing overflows?
pub open spec fn computes(f: FuncView, env: spec_fn(ValueId) -> int) -> bool {
    forall|k: int|
        0 <= k < insts_of(f).len() ==> inst_computes(f, #[trigger] insts_of(f)[k], env)
}

/// Does the value of an instruction agree with what it computes?
pub open spec fn inst_computes(f: FuncView, i: InstView, env: spec_fn(ValueId) -> int) -> bool {
    match i.kind.op {
        Op::ConstInt(c, w) => env(i.id) == sext(c, w),
        Op::IAdd => env(i.id) == env(i.kind.args[0]) + env(i.kind.args[1]),
        Op::ISub => env(i.id) == env(i.kind.args[0]) - env(i.kind.args[1]),
        Op::IMul => env(i.id) == env(i.kind.args[0]) * env(i.kind.args[1]),
        Op::IntExtend(_, signed) => if signed {
            env(i.id) == env(i.kind.args[0])
        } else {
            forall|c: i128, w: IntWidth|
                env(i.kind.args[0]) == c && width_of(f, i.kind.args[0]) == Some(w) ==> env(i.id)
                    == #[trigger] zext(c, w)
        },
        Op::IntTrunc(w) => forall|c: i128|
            env(i.kind.args[0]) == c ==> env(i.id) == #[trigger] sext(c, w),
        _ => true,
    }
}

pub proof fn lemma_computes(f: FuncView, v: ValueId, env: spec_fn(ValueId) -> int)
    requires
        computes(f, env),
        inst_at(f, v) is Some,
    ensures
        inst_computes(f, inst_at(f, v)->0, env),
        (inst_at(f, v)->0).id == v,
{
    lemma_first_inst(insts_of(f), v);
    let k = insts_of(f).index_of(inst_at(f, v)->0);
    assert(inst_computes(f, insts_of(f)[k], env));
}

/// A value known to be a constant has that value.
pub proof fn constants_hold(f: FuncView, v: ValueId, fuel: nat, env: spec_fn(ValueId) -> int)
    requires
        computes(f, env),
        wide_constant(f, v, fuel) is Some,
    ensures
        env(v) == wide_constant(f, v, fuel)->0,
    decreases fuel,
{
    reveal(conversion_of);
    lemma_computes(f, v, env);
    let i = inst_at(f, v)->0;
    let less = (fuel - 1) as nat;
    match conversion_of(f, v) {
        Conversion::Signed(src) => {
            constants_hold(f, src, less, env);
        },
        Conversion::Unsigned(src) => {
            constants_hold(f, src, less, env);
            assert(env(i.id) == zext(wide_constant(f, src, less)->0, width_of(f, src)->0));
        },
        Conversion::Truncated(src, w) => {
            constants_hold(f, src, less, env);
            assert(env(i.id) == sext(wide_constant(f, src, less)->0, w));
        },
        _ => {},
    }
}

pub proof fn lemma_stripped_holds(f: FuncView, v: ValueId, fuel: nat, env: spec_fn(ValueId) -> int)
    requires
        computes(f, env),
    ensures
        env(stripped(f, v, fuel)) == env(v),
    decreases fuel,
{
    if fuel > 0 && widened(f, v) is Some {
        lemma_computes(f, v, env);
        lemma_stripped_holds(f, widened(f, v)->0, (fuel - 1) as nat, env);
    }
}

/// A value is the linear function of the base that it is taken for, where
/// nothing overflows.
pub proof fn linear_form_holds(f: FuncView, v: ValueId, fuel: nat, env: spec_fn(ValueId) -> int)
    requires
        computes(f, env),
        linear_of(f, v, fuel) is Some,
    ensures
        ({
            let l = linear_of(f, v, fuel)->0;
            env(v) == l.scale * env(l.base) + l.offset
        }),
    decreases fuel,
{
    reveal(scalar);
    let at = stripped(f, v, depth(f));
    lemma_stripped_holds(f, v, depth(f), env);
    let l = linear_of(f, v, fuel)->0;
    let x = env(at);
    assert(1 * x + 0 == x);
    if fuel > 0 && inst_at(f, at) is Some {
        reveal(arith_of);
        lemma_computes(f, at, env);
        let less = (fuel - 1) as nat;
        match arith_of(f, at) {
            Arith::Add(a, b) => {
                if linear_of(f, a, less) is Some && scalar(f, b) is Some {
                    linear_form_holds(f, a, less, env);
                    constants_hold(f, b, depth(f), env);
                } else if linear_of(f, b, less) is Some && scalar(f, a) is Some {
                    linear_form_holds(f, b, less, env);
                    constants_hold(f, a, depth(f), env);
                }
            },
            Arith::Sub(a, b) => {
                if linear_of(f, a, less) is Some && scalar(f, b) is Some {
                    linear_form_holds(f, a, less, env);
                    constants_hold(f, b, depth(f), env);
                }
            },
            Arith::Mul(a, b) => {
                if linear_of(f, a, less) is Some && scalar(f, b) is Some {
                    linear_form_holds(f, a, less, env);
                    constants_hold(f, b, depth(f), env);
                    let m = linear_of(f, a, less)->0;
                    lemma_multiplied(
                        m.scale as int,
                        env(m.base),
                        m.offset as int,
                        scalar(f, b)->0 as int,
                    );
                } else if linear_of(f, b, less) is Some && scalar(f, a) is Some {
                    linear_form_holds(f, b, less, env);
                    constants_hold(f, a, depth(f), env);
                    let m = linear_of(f, b, less)->0;
                    let k = scalar(f, a)->0 as int;
                    lemma_multiplied(m.scale as int, env(m.base), m.offset as int, k);
                    assert(k * (m.scale * env(m.base) + m.offset) == (m.scale * env(m.base)
                        + m.offset) * k) by (nonlinear_arith);
                }
            },
            Arith::Other => {},
        }
    } else if fuel > 0 {
        reveal(arith_of);
    }
}

proof fn lemma_multiplied(s: int, x: int, o: int, k: int)
    ensures
        (s * x + o) * k == (s * k) * x + o * k,
{
    assert((s * x + o) * k == (s * k) * x + o * k) by (nonlinear_arith);
}

/// Which way a loop counts.
#[derive(Clone, Copy, Debug, PartialEq, Eq, Structural)]
pub enum LoopDir {
    Ascending,
    Descending,
}

/// The first and the last value of a counter that starts at `init`, goes on in
/// steps of `step` and does not pass `bound`, in ascending order.
pub open spec fn counter_range(init: i64, bound: i64, dir: LoopDir, step: i64) -> Option<(int, int)> {
    match dir {
        LoopDir::Ascending => if step > 0 && init <= bound && bound - init <= i64::MAX {
            Some((init as int, init + ((bound - init) / (step as int)) * step))
        } else {
            None
        },
        LoopDir::Descending => if step < 0 && step > i64::MIN && init >= bound && init - bound
            <= i64::MAX {
            Some((init - ((init - bound) / (-step as int)) * (-step as int), init as int))
        } else {
            None
        },
    }
}

/// Every value of the counter lies in the range.
pub proof fn counter_stays_in_range(
    init: i64,
    bound: i64,
    dir: LoopDir,
    step: i64,
    n: nat,
)
    requires
        counter_range(init, bound, dir, step) is Some,
        dir == LoopDir::Ascending ==> init + n * step <= bound,
        dir == LoopDir::Descending ==> init + n * step >= bound,
    ensures
        ({
            let (lo, hi) = counter_range(init, bound, dir, step)->0;
            lo <= init + n * step <= hi
        }),
{
    match dir {
        LoopDir::Ascending => {
            let d = bound - init;
            let s = step as int;
            lemma_steps(d, s, n as int);
        },
        LoopDir::Descending => {
            let d = init - bound;
            let s = -(step as int);
            assert(n * step == -(n * s)) by (nonlinear_arith)
                requires
                    s == -(step as int),
            ;
            lemma_steps(d, s, n as int);
        },
    }
}

proof fn lemma_steps(d: int, s: int, n: int)
    requires
        s > 0,
        d >= 0,
        n >= 0,
        n * s <= d,
    ensures
        0 <= n * s <= (d / s) * s,
{
    assert(0 <= n * s) by (nonlinear_arith)
        requires
            s > 0,
            n >= 0,
    ;
    assert(n <= d / s) by {
        vstd::arithmetic::div_mod::lemma_div_is_ordered(n * s, d, s);
        vstd::arithmetic::div_mod::lemma_div_multiples_vanish(n, s);
        assert(s * n == n * s) by (nonlinear_arith);
    }
    let q = d / s;
    assert(n * s <= q * s) by (nonlinear_arith)
        requires
            n <= q,
            s > 0,
    ;
}

/// A range under a linear function, where all numbers fit.
pub open spec fn image(scale: i64, offset: i64, lo: int, hi: int) -> Option<(i64, i64)> {
    match (narrow(scale * lo), narrow(scale * hi)) {
        (Some(a), Some(b)) => {
            let small = if a <= b {
                a
            } else {
                b
            };
            let large = if a <= b {
                b
            } else {
                a
            };
            match (narrow(small + offset), narrow(large + offset)) {
                (Some(x), Some(y)) => Some((x, y)),
                _ => None,
            }
        },
        _ => None,
    }
}

/// The linear function of a number in the range lies in the image of the range.
pub proof fn image_covers(scale: i64, offset: i64, lo: int, hi: int, x: int)
    requires
        lo <= x <= hi,
        image(scale, offset, lo, hi) is Some,
    ensures
        ({
            let (a, b) = image(scale, offset, lo, hi)->0;
            a <= scale * x + offset <= b
        }),
{
    let s = scale as int;
    if s >= 0 {
        assert(s * lo <= s * x <= s * hi) by (nonlinear_arith)
            requires
                lo <= x <= hi,
                s >= 0,
        ;
    } else {
        assert(s * hi <= s * x <= s * lo) by (nonlinear_arith)
            requires
                lo <= x <= hi,
                s < 0,
        ;
    }
}

/// The place of a parameter of a block.
pub open spec fn param_place(params: Seq<BlockParam>, v: ValueId) -> Option<int>
    decreases params.len(),
{
    if params.len() == 0 {
        None
    } else {
        match param_place(params.drop_last(), v) {
            Some(i) => Some(i),
            None => if params.last().id == v {
                Some(params.len() - 1)
            } else {
                None
            },
        }
    }
}

/// The constant that a loop passes to parameter `k` of its header when it is
/// entered.
pub open spec fn loop_start(f: FuncView, h: BlockId, body: Set<BlockId>, k: int) -> Option<i64> {
    match preheader_of(f, h, body) {
        Some(p) => match the_block(f.blocks, p).term {
            Some(TermView::Branch(d, args)) => if d == h && k < args.len() {
                scalar(f, args[k])
            } else {
                None
            },
            _ => None,
        },
        None => None,
    }
}

/// What a comparison says of the bound of `v`: the value it is compared with,
/// and which way it counts.
pub open spec fn compared_bound(i: InstView, v: ValueId) -> Option<(ValueId, LoopDir)> {
    let a = i.kind.args[0];
    let b = i.kind.args[1];
    match i.kind.op {
        Op::ICmp(CmpOp::Le) => if a == v {
            Some((b, LoopDir::Ascending))
        } else if b == v {
            Some((a, LoopDir::Descending))
        } else {
            None
        },
        Op::ICmp(CmpOp::Ge) => if a == v {
            Some((b, LoopDir::Descending))
        } else if b == v {
            Some((a, LoopDir::Ascending))
        } else {
            None
        },
        _ => None,
    }
}

/// What the first comparison of `v` among the first `n` instructions says.
pub open spec fn first_bound(s: Seq<InstView>, n: nat, v: ValueId) -> Option<(ValueId, LoopDir)>
    decreases n,
{
    if n == 0 {
        None
    } else {
        match first_bound(s, (n - 1) as nat, v) {
            Some(x) => Some(x),
            None => compared_bound(s[n - 1], v),
        }
    }
}

/// The constant bound of `v` that the header of a loop tests.
pub open spec fn loop_bound(f: FuncView, h: BlockId, v: ValueId) -> Option<(i64, LoopDir)> {
    let s = the_block(f.blocks, h).insts;
    match first_bound(s, s.len(), v) {
        Some((b, dir)) => match scalar(f, b) {
            Some(n) => Some((n, dir)),
            None => None,
        },
        None => None,
    }
}

/// The argument at place `k` that a terminator passes to `h`.
pub open spec fn passed(t: TermView, h: BlockId, k: int) -> Option<ValueId> {
    match t {
        TermView::Branch(d, args) => if d == h && k < args.len() {
            Some(args[k])
        } else {
            None
        },
        TermView::CondBranch { true_dest, true_args, false_dest, false_args, .. } => if true_dest
            == h {
            if k < true_args.len() {
                Some(true_args[k])
            } else {
                None
            }
        } else if false_dest == h {
            if k < false_args.len() {
                Some(false_args[k])
            } else {
                None
            }
        } else {
            None
        },
        _ => None,
    }
}

/// By how much `next` exceeds `v`.
pub open spec fn step_between(f: FuncView, v: ValueId, next: ValueId) -> Option<i64> {
    let at = stripped(f, next, depth(f));
    if at == v {
        Some(0)
    } else {
        match arith_of(f, at) {
            Arith::Add(a, b) => if a == v {
                scalar(f, b)
            } else if b == v {
                scalar(f, a)
            } else {
                None
            },
            Arith::Sub(a, b) => if a == v {
                match scalar(f, b) {
                    Some(n) => narrow(-(n as int)),
                    None => None,
                }
            } else {
                None
            },
            _ => None,
        }
    }
}

/// By how much parameter `k` of the header, which is `v`, grows on the way back
/// from latch `l`.
pub open spec fn latch_step(f: FuncView, l: BlockId, h: BlockId, k: int, v: ValueId) -> Option<i64> {
    match the_block(f.blocks, l).term {
        Some(t) => match passed(t, h, k) {
            Some(next) => step_between(f, v, next),
            None => None,
        },
        None => None,
    }
}

/// Is `s` the step of the loop: the same from every latch, and not zero?
pub open spec fn is_loop_step(f: FuncView, h: BlockId, k: int, v: ValueId, s: i64) -> bool {
    s != 0 && forall|l: BlockId| #[trigger]
        back_edge(f, l, h) ==> latch_step(f, l, h, k, v) == Some(s)
}

/// The range of `index` while the loop of header `h` runs.
pub open spec fn loop_range(
    f: FuncView,
    h: BlockId,
    body: Set<BlockId>,
    index: ValueId,
    range: (i64, i64),
) -> bool {
    exists|k: int, init: i64, bound: (i64, LoopDir), step: i64| #[trigger]
        has_loop_range(f, h, body, index, range, k, init, bound, step)
}

/// The parts from which the range of `index` is computed.
pub open spec fn has_loop_range(
    f: FuncView,
    h: BlockId,
    body: Set<BlockId>,
    index: ValueId,
    range: (i64, i64),
    k: int,
    init: i64,
    bound: (i64, LoopDir),
    step: i64,
) -> bool {
    &&& has_block(f.blocks, h)
    &&& linear_of(f, index, depth(f)) matches Some(l)
    &&& param_place(the_block(f.blocks, h).params, l.base) == Some(k)
    &&& loop_start(f, h, body, k) == Some(init)
    &&& loop_bound(f, h, l.base) == Some(bound)
    &&& is_loop_step(f, h, k, l.base, step)
    &&& counter_range(init, bound.0, bound.1, step) matches Some(r)
    &&& image(l.scale, l.offset, r.0, r.1) == Some(range)
}

/// Is `h` the header of a loop?
pub open spec fn is_header(f: FuncView, h: BlockId) -> bool {
    exists|l: BlockId| back_edge(f, l, h)
}

/// The blocks of the loop of header `h`.
pub open spec fn loop_body(f: FuncView, h: BlockId) -> Set<BlockId> {
    Set::new(|x: BlockId| in_loop(f, h, x))
}

/// Is `p` a way from `a` to `c` that does not come by `h`?
pub open spec fn leads_around(f: FuncView, h: BlockId, a: BlockId, c: BlockId, p: Seq<BlockId>) -> bool {
    &&& p.len() > 0
    &&& p[0] == a
    &&& p.last() == c
    &&& forall|i: int| 0 <= i < p.len() ==> #[trigger] p[i] != h
    &&& forall|i: int| 0 <= i < p.len() - 1 ==> edge(f.blocks, #[trigger] p[i], p[i + 1])
}

/// Can `c` be reached from `a` without coming by `h`?
pub open spec fn reaches_around(f: FuncView, h: BlockId, a: BlockId, c: BlockId) -> bool {
    exists|p: Seq<BlockId>| leads_around(f, h, a, c, p)
}

/// Is instruction `k` the first that compares `v` with a bound?
pub open spec fn tests_bound_at(s: Seq<InstView>, v: ValueId, k: int) -> bool {
    0 <= k < s.len() && compared_bound(s[k], v) is Some && first_bound(s, k as nat, v) is None
}

/// Is `cond` what the first comparison of `v` with a bound gives?
pub open spec fn tests_bound(s: Seq<InstView>, v: ValueId, cond: ValueId) -> bool {
    exists|k: int| #[trigger] tests_bound_at(s, v, k) && s[k].id == cond
}

/// Does `c`, a block of the loop of `h`, come behind the side of the header's
/// branch on which `v` is within its bound, and behind that side alone?
pub open spec fn guarded(f: FuncView, h: BlockId, v: ValueId, c: BlockId) -> bool {
    &&& c != h
    &&& in_loop(f, h, c)
    &&& the_block(f.blocks, h).term matches Some(
        TermView::CondBranch { cond, false_dest, .. },
    ) && tests_bound(the_block(f.blocks, h).insts, v, cond) && !reaches_around(f, h, false_dest, c)
}

/// Is what `index` counts by within its bound wherever control comes to `c`?
pub open spec fn index_guarded(f: FuncView, h: BlockId, index: ValueId, c: BlockId) -> bool {
    linear_of(f, index, depth(f)) matches Some(l) && guarded(f, h, l.base, c)
}

/// Is the index proved to lie within the bounds in block `c`?
pub open spec fn provably_safe(
    f: FuncView,
    c: BlockId,
    index: ValueId,
    lower: ValueId,
    upper: ValueId,
) -> bool {
    let at = stripped(f, index, depth(f));
    match (scalar(f, lower), scalar(f, upper)) {
        (Some(lo), Some(hi)) => match scalar(f, at) {
            Some(i) => lo <= i <= hi,
            None => exists|h: BlockId, range: (i64, i64)|
                is_header(f, h) && #[trigger] loop_range(f, h, loop_body(f, h), at, range)
                    && range.0 >= lo && range.1 <= hi && index_guarded(f, h, at, c),
        },
        _ => false,
    }
}

/// Is `x` a value that a counter takes before it passes its bound?
pub open spec fn counter_takes(init: i64, bound: (i64, LoopDir), step: i64, n: nat, x: int) -> bool {
    &&& x == init + n * step
    &&& bound.1 == LoopDir::Ascending ==> x <= bound.0
    &&& bound.1 == LoopDir::Descending ==> x >= bound.0
}

/// Is a counter within its bound?
pub open spec fn within(bound: (i64, LoopDir), x: int) -> bool {
    match bound.1 {
        LoopDir::Ascending => x <= bound.0,
        LoopDir::Descending => x >= bound.0,
    }
}

/// What the value of a counter of the loop of `h` is at the next place of the way
/// `w`: `init` where the loop is entered, `step` more on a way back, and the same
/// elsewhere.
pub open spec fn next_count(
    f: FuncView,
    h: BlockId,
    w: Seq<BlockId>,
    init: i64,
    step: i64,
    i: int,
    now: int,
) -> int {
    if w[i + 1] != h {
        now
    } else if in_loop(f, h, w[i]) {
        now + step
    } else {
        init as int
    }
}

/// Is place `i` of a way the header, and the next one on the side of its branch
/// on which its condition holds?
pub open spec fn takes_true_side(f: FuncView, h: BlockId, w: Seq<BlockId>, i: int) -> bool {
    w[i] == h && (the_block(f.blocks, h).term matches Some(TermView::CondBranch { false_dest, .. })
        && w[i + 1] != false_dest)
}

/// Does a counter of the loop of `h` have the values `x` along the way `w`, among
/// them one within its bound where the header branches to the side on which it
/// found that?
pub open spec fn follows(
    f: FuncView,
    h: BlockId,
    w: Seq<BlockId>,
    init: i64,
    bound: (i64, LoopDir),
    step: i64,
    x: spec_fn(int) -> int,
) -> bool {
    &&& forall|i: int|
        0 <= i < w.len() - 1 ==> x(i + 1) == #[trigger] next_count(f, h, w, init, step, i, x(i))
    &&& forall|i: int|
        0 <= i < w.len() - 1 && #[trigger] takes_true_side(f, h, w, i) ==> within(bound, x(i))
}

/// Within a loop, a counter has grown by whole steps.
proof fn lemma_counted(
    f: FuncView,
    h: BlockId,
    w: Seq<BlockId>,
    init: i64,
    bound: (i64, LoopDir),
    step: i64,
    x: spec_fn(int) -> int,
    i: int,
) -> (n: nat)
    requires
        sound_function(f),
        is_header(f, h),
        is_walk(f, w),
        follows(f, h, w, init, bound, step, x),
        0 <= i < w.len(),
        in_loop(f, h, w[i]),
    ensures
        x(i) == init + n * step,
    decreases i,
{
    if i == 0 {
        lemma_entry_outside(f, h);
        0
    } else {
        let j = i - 1;
        assert(x(j + 1) == next_count(f, h, w, init, step, j, x(j)));
        assert(edge(f.blocks, w[j], w[j + 1]));
        if w[i] == h && !in_loop(f, h, w[j]) {
            assert(0 * step == 0);
            0
        } else {
            if w[i] != h && w[j] != h {
                lemma_leads_back_from(f, h, w[j], w[i]);
            }
            let n = lemma_counted(f, h, w, init, bound, step, x, j);
            if w[i] == h {
                lemma_one_more(n as int, step as int);
                n + 1
            } else {
                n
            }
        }
    }
}

proof fn lemma_one_more(n: int, s: int)
    ensures
        (n + 1) * s == n * s + s,
{
    assert((n + 1) * s == n * s + s) by (nonlinear_arith);
}

pub proof fn lemma_apart(f: FuncView)
    requires
        sound_function(f),
    ensures
        forall|i: int| 0 <= i < f.blocks.len() ==> is_first_block(
            f.blocks,
            (#[trigger] f.blocks[i]).id,
            i,
        ),
{
    assert(!has_duplicate_blocks(f));
}

/// The entry is in no loop of a sound function.
proof fn lemma_entry_outside(f: FuncView, h: BlockId)
    requires
        sound_function(f),
        is_header(f, h),
    ensures
        !in_loop(f, h, f.entry),
{
    lemma_apart(f);
    let l = choose|l: BlockId| back_edge(f, l, h);
    let k = choose|k: int|
        0 <= k < f.blocks.len() && (#[trigger] f.blocks[k]).id == l && targets_of(
            f.blocks[k],
        ).contains(h);
    assert(sound_block(f, f.blocks[k]));
    if in_loop(f, h, f.entry) {
        lemma_entry_reachable(f);
        header_dominates_loop(f, h, f.entry);
        lemma_entry_dominator(f, h);
    }
}

/// The last place before `n` at which a way comes by `h`.
proof fn lemma_last_visit(w: Seq<BlockId>, h: BlockId, n: int) -> (i: int)
    requires
        0 < n <= w.len(),
        exists|k: int| 0 <= k < n && #[trigger] w[k] == h,
    ensures
        0 <= i < n,
        w[i] == h,
        forall|k: int| i < k < n ==> #[trigger] w[k] != h,
    decreases n,
{
    if w[n - 1] == h {
        n - 1
    } else {
        lemma_last_visit(w, h, n - 1)
    }
}

/// A counter keeps its value until the header is reached again.
proof fn lemma_kept(
    f: FuncView,
    h: BlockId,
    w: Seq<BlockId>,
    init: i64,
    bound: (i64, LoopDir),
    step: i64,
    x: spec_fn(int) -> int,
    i: int,
    n: int,
)
    requires
        follows(f, h, w, init, bound, step, x),
        0 <= i <= n < w.len(),
        forall|k: int| i < k <= n ==> #[trigger] w[k] != h,
    ensures
        x(n) == x(i),
    decreases n - i,
{
    if i < n {
        lemma_kept(f, h, w, init, bound, step, x, i, n - 1);
        assert(x((n - 1) + 1) == next_count(f, h, w, init, step, n - 1, x(n - 1)));
    }
}

/// Wherever control comes to a guarded block, the counter of the loop has one of
/// the values that it takes before it passes its bound.
pub proof fn guarded_counters_are_within_bounds(
    f: FuncView,
    h: BlockId,
    v: ValueId,
    w: Seq<BlockId>,
    init: i64,
    bound: (i64, LoopDir),
    step: i64,
    x: spec_fn(int) -> int,
)
    requires
        sound_function(f),
        is_header(f, h),
        is_walk(f, w),
        guarded(f, h, v, w.last()),
        follows(f, h, w, init, bound, step, x),
    ensures
        exists|n: nat| #[trigger] counter_takes(init, bound, step, n, x(w.len() - 1)),
{
    let c = w.last();
    let last = w.len() - 1;
    lemma_apart(f);
    assert(reachable(f, w[last]));
    header_dominates_loop(f, h, c);
    assert(w.contains(h));
    let at = w.index_of(h);
    assert(w[at] == h);
    let i = lemma_last_visit(w, h, w.len() as int);
    let n = lemma_counted(f, h, w, init, bound, step, x, i);
    lemma_kept(f, h, w, init, bound, step, x, i, last);
    let t = the_block(f.blocks, h).term->0;
    if w[i + 1] == t->CondBranch_false_dest {
        let p = w.skip(i + 1);
        assert forall|k: int| 0 <= k < p.len() - 1 implies edge(f.blocks, #[trigger] p[k], p[k + 1]) by {
            assert(edge(f.blocks, w[i + 1 + k], w[i + 1 + k + 1]));
        }
        assert(leads_around(f, h, t->CondBranch_false_dest, c, p));
    }
    assert(takes_true_side(f, h, w, i));
    assert(within(bound, x(i)));
    assert(counter_takes(init, bound, step, n, x(last)));
}

/// Has every counter that `index` counts by, when control has come along `w`, the
/// value that `env` gives it?
pub open spec fn counts(
    f: FuncView,
    index: ValueId,
    w: Seq<BlockId>,
    env: spec_fn(ValueId) -> int,
) -> bool {
    forall|
        h: BlockId,
        range: (i64, i64),
        k: int,
        init: i64,
        bound: (i64, LoopDir),
        step: i64,
    | #[trigger]
        has_loop_range(f, h, loop_body(f, h), index, range, k, init, bound, step) ==> exists|
            x: spec_fn(int) -> int,
        | #[trigger]
            follows(f, h, w, init, bound, step, x) && x(w.len() - 1) == env(
                (linear_of(f, index, depth(f))->0).base,
            )
}

/// Where a check is found needless, the index lies within the bounds when control
/// has come to it, on whatever way, as long as nothing overflows.
pub proof fn needless_checks_pass(
    f: FuncView,
    index: ValueId,
    lower: ValueId,
    upper: ValueId,
    w: Seq<BlockId>,
    env: spec_fn(ValueId) -> int,
)
    requires
        sound_function(f),
        is_walk(f, w),
        provably_safe(f, w.last(), index, lower, upper),
        computes(f, env),
        counts(f, stripped(f, index, depth(f)), w, env),
    ensures
        env(lower) <= env(index) <= env(upper),
{
    reveal(scalar);
    let at = stripped(f, index, depth(f));
    let c = w.last();
    lemma_stripped_holds(f, index, depth(f), env);
    constants_hold(f, lower, depth(f), env);
    constants_hold(f, upper, depth(f), env);
    let lo = scalar(f, lower)->0;
    let hi = scalar(f, upper)->0;
    if scalar(f, at) is Some {
        constants_hold(f, at, depth(f), env);
    } else {
        let (h, range) = choose|h: BlockId, range: (i64, i64)|
            is_header(f, h) && #[trigger] loop_range(f, h, loop_body(f, h), at, range) && range.0
                >= lo && range.1 <= hi && index_guarded(f, h, at, c);
        let (k, init, bound, step) = choose|k: int, init: i64, bound: (i64, LoopDir), step: i64|
            #[trigger]
            has_loop_range(f, h, loop_body(f, h), at, range, k, init, bound, step);
        let l = linear_of(f, at, depth(f))->0;
        let x = choose|x: spec_fn(int) -> int| #[trigger]
            follows(f, h, w, init, bound, step, x) && x(w.len() - 1) == env(l.base);
        guarded_counters_are_within_bounds(f, h, l.base, w, init, bound, step, x);
        let n = choose|n: nat| #[trigger] counter_takes(init, bound, step, n, env(l.base));
        counter_stays_in_range(init, bound.0, bound.1, step, n);
        let r = counter_range(init, bound.0, bound.1, step)->0;
        image_covers(l.scale, l.offset, r.0, r.1, env(l.base));
        linear_form_holds(f, at, depth(f), env);
    }
}

/// Is an instruction of block `c` a bounds check that always passes?
pub open spec fn needless(f: FuncView, c: BlockId, i: InstView) -> bool {
    i.kind.op == Op::RuntimeCall(RuntimeFunc::CheckBounds) && i.kind.args.len() == 3
        && provably_safe(f, c, i.kind.args[0], i.kind.args[1], i.kind.args[2])
}

/// A function without the bounds checks that always pass.
pub open spec fn unchecked_func(f: FuncView) -> FuncView {
    FuncView {
        blocks: Seq::new(
            f.blocks.len(),
            |b: int|
                BlockView {
                    insts: f.blocks[b].insts.filter(
                        |i: InstView| !needless(f, f.blocks[b].id, i),
                    ),
                    ..f.blocks[b]
                },
        ),
        ..f
    }
}

/// Is there a bounds check that always passes?
pub open spec fn has_needless(f: FuncView) -> bool {
    exists|b: int, k: int|
        0 <= b < f.blocks.len() && 0 <= k < f.blocks[b].insts.len() && needless(
            f,
            f.blocks[b].id,
            #[trigger] f.blocks[b].insts[k],
        )
}

fn int_width_of(func: &Function, v: ValueId) -> (r: Option<IntWidth>)
    ensures
        r == width_of(func@, v),
{
    proof {
        reveal(width_of);
    }
    match func.value_type(v) {
        Some(IrType::Int(w)) => Some(w),
        _ => None,
    }
}

fn sign_extension_source(func: &Function, list: &Vec<&Inst>, v: ValueId) -> (r: Option<ValueId>)
    requires
        refs_view(list@) == insts_of(func@),
    ensures
        r == widened(func@, v),
{
    match find_first(list, v) {
        Some(i) => match &i.kind {
            InstKind::IntExtend(src, to, signed) => match int_width_of(func, *src) {
                Some(from) => if *signed && from.bits() < to.bits() {
                    Some(*src)
                } else {
                    None
                },
                None => None,
            },
            InstKind::Call(callee, _) => match callee {
                FuncRef::Internal(_) => None,
                FuncRef::External(_) => None,
                FuncRef::Indirect(_) => None,
            },
            _ => None,
        },
        None => None,
    }
}

fn strip_value_preserving_int_extends(func: &Function, list: &Vec<&Inst>, value: ValueId) -> (r:
    ValueId)
    requires
        refs_view(list@) == insts_of(func@),
    ensures
        r == stripped(func@, value, depth(func@)),
{
    let ghost f = func@;
    let mut at = value;
    let mut fuel: usize = list.len();
    proof {
        assert(refs_view(list@).len() == list@.len());
    }
    while fuel > 0
        invariant
            f == func@,
            refs_view(list@) == insts_of(f),
            stripped(f, at, fuel as nat) == stripped(f, value, depth(f)),
        decreases fuel,
    {
        match sign_extension_source(func, list, at) {
            Some(w) => {
                at = w;
            },
            None => {
                return at;
            },
        }
        fuel = fuel - 1;
    }
    at
}

fn conversion_in(kind: &InstKind) -> (r: Conversion)
    ensures
        r == kind_conversion(kind@),
{
    match kind {
        InstKind::ConstInt(c, w) => Conversion::Constant(*c, *w),
        InstKind::IntExtend(src, _, signed) => if *signed {
            Conversion::Signed(*src)
        } else {
            Conversion::Unsigned(*src)
        },
        InstKind::IntTrunc(src, w) => Conversion::Truncated(*src, *w),
        InstKind::Call(callee, _) => match callee {
            FuncRef::Internal(_) => Conversion::Other,
            FuncRef::External(_) => Conversion::Other,
            FuncRef::Indirect(_) => Conversion::Other,
        },
        _ => Conversion::Other,
    }
}

fn conversion_at(list: &Vec<&Inst>, v: ValueId, Ghost(f): Ghost<FuncView>) -> (r: Conversion)
    requires
        refs_view(list@) == insts_of(f),
    ensures
        r == conversion_of(f, v),
{
    proof {
        reveal(conversion_of);
    }
    match find_first(list, v) {
        Some(i) => conversion_in(&i.kind),
        None => Conversion::Other,
    }
}

fn resolve_wide(func: &Function, list: &Vec<&Inst>, v: ValueId, fuel: usize) -> (r: Option<i128>)
    requires
        refs_view(list@) == insts_of(func@),
    ensures
        r == wide_constant(func@, v, fuel as nat),
    decreases fuel,
{
    if fuel == 0 {
        return None;
    }
    match conversion_at(list, v, Ghost(func@)) {
        Conversion::Constant(c, w) => Some(sign_extend(c, w)),
        Conversion::Signed(src) => resolve_wide(func, list, src, fuel - 1),
        Conversion::Unsigned(src) => match (
            int_width_of(func, src),
            resolve_wide(func, list, src, fuel - 1),
        ) {
            (Some(w), Some(c)) => Some(zero_extend(c, w)),
            _ => None,
        },
        Conversion::Truncated(src, w) => match resolve_wide(func, list, src, fuel - 1) {
            Some(c) => Some(sign_extend(c, w)),
            None => None,
        },
        Conversion::Other => None,
    }
}

fn resolve_scalar(func: &Function, list: &Vec<&Inst>, v: ValueId) -> (r: Option<i64>)
    requires
        refs_view(list@) == insts_of(func@),
    ensures
        r == scalar(func@, v),
{
    let fuel: usize = list.len();
    proof {
        reveal(scalar);
        assert(refs_view(list@).len() == list@.len());
    }
    match resolve_wide(func, list, v, fuel) {
        Some(c) => if i64::MIN as i128 <= c && c <= i64::MAX as i128 {
            Some(c as i64)
        } else {
            None
        },
        None => None,
    }
}

/// The integer of 64 bits that a value is known to be.
pub fn resolve_int_scalar(func: &Function, value: ValueId) -> (r: Option<i64>)
    ensures
        r == scalar(func@, value),
{
    let list = all_insts(func);
    resolve_scalar(func, &list, value)
}

/// Is `r` the linear function that `m` is?
pub open spec fn linear_is(r: Option<(ValueId, i64, i64)>, m: Option<Linear>) -> bool {
    match (r, m) {
        (Some(t), Some(l)) => t.0 == l.base && t.1 == l.scale && t.2 == l.offset,
        (None, None) => true,
        _ => false,
    }
}

fn multiply(t: (ValueId, i64, i64), k: i64) -> (r: Option<(ValueId, i64, i64)>)
    ensures
        linear_is(r, multiplied(Linear { base: t.0, scale: t.1, offset: t.2 }, k as int)),
{
    match (t.1.checked_mul(k), t.2.checked_mul(k)) {
        (Some(s), Some(o)) => Some((t.0, s, o)),
        _ => None,
    }
}

fn arith_in(kind: &InstKind) -> (r: Arith)
    ensures
        r == kind_arith(kind@),
{
    match kind {
        InstKind::IAdd(a, b) => Arith::Add(*a, *b),
        InstKind::ISub(a, b) => Arith::Sub(*a, *b),
        InstKind::IMul(a, b) => Arith::Mul(*a, *b),
        InstKind::Call(callee, _) => match callee {
            FuncRef::Internal(_) => Arith::Other,
            FuncRef::External(_) => Arith::Other,
            FuncRef::Indirect(_) => Arith::Other,
        },
        _ => Arith::Other,
    }
}

fn arith_at(list: &Vec<&Inst>, v: ValueId, Ghost(f): Ghost<FuncView>) -> (r: Arith)
    requires
        refs_view(list@) == insts_of(f),
    ensures
        r == arith_of(f, v),
{
    proof {
        reveal(arith_of);
    }
    match find_first(list, v) {
        Some(i) => arith_in(&i.kind),
        None => Arith::Other,
    }
}

fn shift(t: (ValueId, i64, i64), d: i64) -> (r: Option<(ValueId, i64, i64)>)
    ensures
        linear_is(r, shifted(Linear { base: t.0, scale: t.1, offset: t.2 }, d as int)),
{
    match t.2.checked_add(d) {
        Some(o) => Some((t.0, t.1, o)),
        None => None,
    }
}

fn linear_from(func: &Function, list: &Vec<&Inst>, v: ValueId, fuel: usize) -> (r: Option<
    (ValueId, i64, i64),
>)
    requires
        refs_view(list@) == insts_of(func@),
    ensures
        linear_is(r, linear_of(func@, v, fuel as nat)),
    decreases fuel,
{
    let at = strip_value_preserving_int_extends(func, list, v);
    if fuel == 0 {
        return Some((at, 1, 0));
    }
    let less: usize = fuel - 1;
    match arith_at(list, at, Ghost(func@)) {
        Arith::Add(a, b) => {
            if let Some(t) = linear_from(func, list, a, less) {
                if let Some(d) = resolve_scalar(func, list, b) {
                    return shift(t, d);
                }
            }
            if let Some(t) = linear_from(func, list, b, less) {
                if let Some(d) = resolve_scalar(func, list, a) {
                    return shift(t, d);
                }
            }
            Some((at, 1, 0))
        },
        Arith::Sub(a, b) => {
            if let Some(t) = linear_from(func, list, a, less) {
                if let Some(d) = resolve_scalar(func, list, b) {
                    return match t.2.checked_sub(d) {
                        Some(o) => Some((t.0, t.1, o)),
                        None => None,
                    };
                }
            }
            Some((at, 1, 0))
        },
        Arith::Mul(a, b) => {
            if let Some(t) = linear_from(func, list, a, less) {
                if let Some(k) = resolve_scalar(func, list, b) {
                    return multiply(t, k);
                }
            }
            if let Some(t) = linear_from(func, list, b, less) {
                if let Some(k) = resolve_scalar(func, list, a) {
                    return multiply(t, k);
                }
            }
            Some((at, 1, 0))
        },
        Arith::Other => Some((at, 1, 0)),
    }
}

/// What a value is a linear function of, with the factor and the addend.
pub fn loop_index_base_and_offset(func: &Function, value: ValueId) -> (r: Option<
    (ValueId, i64, i64),
>)
    ensures
        linear_is(r, linear_of(func@, value, depth(func@))),
{
    let list = all_insts(func);
    let fuel: usize = list.len();
    proof {
        assert(refs_view(list@).len() == list@.len());
    }
    linear_from(func, &list, value, fuel)
}

fn place_of(block: &BasicBlock, v: ValueId) -> (r: Option<usize>)
    ensures
        match r {
            Some(i) => param_place(block@.params, v) == Some(i as int),
            None => param_place(block@.params, v) is None,
        },
{
    let ghost ps = block@.params;
    let mut i: usize = 0;
    proof {
        assert(ps.take(0) =~= Seq::<BlockParam>::empty());
    }
    while i < block.params.len()
        invariant
            i <= ps.len(),
            ps == block.params@,
            param_place(ps.take(i as int), v) is None,
        decreases ps.len() - i,
    {
        proof {
            assert(ps.take(i + 1).drop_last() =~= ps.take(i as int));
        }
        if same_id(block.params[i].id, v) {
            proof {
                lemma_place_stays(ps, i + 1, v);
            }
            return Some(i);
        }
        i = i + 1;
    }
    proof {
        assert(ps.take(i as int) =~= ps);
    }
    None
}

proof fn lemma_place_stays(ps: Seq<BlockParam>, n: int, v: ValueId)
    requires
        0 <= n <= ps.len(),
        param_place(ps.take(n), v) is Some,
    ensures
        param_place(ps, v) == param_place(ps.take(n), v),
    decreases ps.len() - n,
{
    if n < ps.len() {
        assert(ps.take(n + 1).drop_last() =~= ps.take(n));
        lemma_place_stays(ps, n + 1, v);
    } else {
        assert(ps.take(n) =~= ps);
    }
}

fn loop_init_const(
    func: &Function,
    list: &Vec<&Inst>,
    lp: &NaturalLoop,
    preds: &IdMap<BlockId, Vec<BlockId>>,
    k: usize,
) -> (r: Option<i64>)
    requires
        refs_view(list@) == insts_of(func@),
        preds_are(func@, preds@),
        has_block(func@.blocks, lp.header),
    ensures
        r == loop_start(func@, lp.header, lp.body@, k as int),
{
    match find_preheader(func, lp, preds) {
        Some(p) => match &func.block(p).terminator {
            Some(Terminator::Branch(dest, args)) => if same_id(*dest, lp.header) && k < args.len() {
                resolve_scalar(func, list, args[k])
            } else {
                None
            },
            _ => None,
        },
        None => None,
    }
}

fn bound_in(inst: &Inst, v: ValueId) -> (r: Option<(ValueId, LoopDir)>)
    ensures
        r == compared_bound(inst@, v),
{
    match &inst.kind {
        InstKind::ICmp(op, a, b) => match op {
            CmpOp::Le => if same_id(*a, v) {
                Some((*b, LoopDir::Ascending))
            } else if same_id(*b, v) {
                Some((*a, LoopDir::Descending))
            } else {
                None
            },
            CmpOp::Ge => if same_id(*a, v) {
                Some((*b, LoopDir::Descending))
            } else if same_id(*b, v) {
                Some((*a, LoopDir::Ascending))
            } else {
                None
            },
            _ => None,
        },
        InstKind::Call(callee, _) => match callee {
            FuncRef::Internal(_) => None,
            FuncRef::External(_) => None,
            FuncRef::Indirect(_) => None,
        },
        _ => None,
    }
}

pub proof fn lemma_bound_stays(s: Seq<InstView>, i: nat, n: nat, v: ValueId)
    requires
        i <= n,
        first_bound(s, i, v) is Some,
    ensures
        first_bound(s, n, v) == first_bound(s, i, v),
    decreases n,
{
    if i < n {
        lemma_bound_stays(s, i, (n - 1) as nat, v);
    }
}

fn loop_bound_const(func: &Function, list: &Vec<&Inst>, header: BlockId, v: ValueId) -> (r: Option<
    (i64, LoopDir),
>)
    requires
        refs_view(list@) == insts_of(func@),
        has_block(func@.blocks, header),
    ensures
        r == loop_bound(func@, header, v),
{
    let block = func.block(header);
    let ghost s = the_block(func@.blocks, header).insts;
    let mut i: usize = 0;
    while i < block.insts.len()
        invariant
            i <= s.len(),
            s == block@.insts,
            s == the_block(func@.blocks, header).insts,
            refs_view(list@) == insts_of(func@),
            first_bound(s, i as nat, v) is None,
        decreases s.len() - i,
    {
        proof {
            assert(s[i as int] == block.insts@[i as int]@);
        }
        match bound_in(&block.insts[i], v) {
            Some((b, dir)) => {
                proof {
                    lemma_bound_stays(s, (i + 1) as nat, s.len(), v);
                }
                return match resolve_scalar(func, list, b) {
                    Some(n) => Some((n, dir)),
                    None => None,
                };
            },
            None => {},
        }
        i = i + 1;
    }
    None
}

fn edge_arg_value(term: &Terminator, target: BlockId, k: usize) -> (r: Option<ValueId>)
    ensures
        r == passed(term@, target, k as int),
{
    match term {
        Terminator::Branch(d, args) => if same_id(*d, target) && k < args.len() {
            Some(args[k])
        } else {
            None
        },
        Terminator::CondBranch { true_dest, true_args, false_dest, false_args, .. } => {
            if same_id(*true_dest, target) {
                if k < true_args.len() {
                    Some(true_args[k])
                } else {
                    None
                }
            } else if same_id(*false_dest, target) {
                if k < false_args.len() {
                    Some(false_args[k])
                } else {
                    None
                }
            } else {
                None
            }
        },
        _ => None,
    }
}

fn update_step_const(func: &Function, list: &Vec<&Inst>, v: ValueId, next: ValueId) -> (r: Option<
    i64,
>)
    requires
        refs_view(list@) == insts_of(func@),
    ensures
        r == step_between(func@, v, next),
{
    let at = strip_value_preserving_int_extends(func, list, next);
    if same_id(at, v) {
        return Some(0);
    }
    match arith_at(list, at, Ghost(func@)) {
        Arith::Add(a, b) => if same_id(a, v) {
            resolve_scalar(func, list, b)
        } else if same_id(b, v) {
            resolve_scalar(func, list, a)
        } else {
            None
        },
        Arith::Sub(a, b) => if same_id(a, v) {
            match resolve_scalar(func, list, b) {
                Some(n) => if n == i64::MIN {
                    None
                } else {
                    Some(-n)
                },
                None => None,
            }
        } else {
            None
        },
        _ => None,
    }
}

/// The latches of a loop are the blocks with an edge back to its header.
proof fn lemma_latches(f: FuncView, lp: NaturalLoop, l: BlockId)
    requires
        is_loop(f, lp),
    ensures
        lp.latches@.contains(l) == back_edge(f, l, lp.header),
        lp.latches@.len() > 0,
        back_edge(f, l, lp.header) ==> has_block(f.blocks, l),
{
    lemma_latch_member(f, lp, l);
    let some = choose|x: BlockId| back_edge(f, x, lp.header);
    lemma_latch_member(f, lp, some);
}

proof fn lemma_latch_member(f: FuncView, lp: NaturalLoop, l: BlockId)
    requires
        is_loop(f, lp),
    ensures
        lp.latches@.contains(l) == back_edge(f, l, lp.header),
        back_edge(f, l, lp.header) ==> has_block(f.blocks, l),
{
    lemma_same_members(lp.latches@, back_sources(f, f.blocks.len(), lp.header), l);
    lemma_back_sources(f, f.blocks.len(), lp.header, l);
}

fn loop_step_const(func: &Function, list: &Vec<&Inst>, lp: &NaturalLoop, k: usize, v: ValueId) -> (r:
    Option<i64>)
    requires
        refs_view(list@) == insts_of(func@),
        is_loop(func@, *lp),
    ensures
        match r {
            Some(s) => is_loop_step(func@, lp.header, k as int, v, s),
            None => forall|s: i64| !#[trigger] is_loop_step(func@, lp.header, k as int, v, s),
        },
{
    let ghost f = func@;
    let ghost h = lp.header;
    let mut step: Option<i64> = None;
    let mut i: usize = 0;
    while i < lp.latches.len()
        invariant
            f == func@,
            h == lp.header,
            refs_view(list@) == insts_of(f),
            is_loop(f, *lp),
            i <= lp.latches@.len(),
            (i == 0) == (step is None),
            step matches Some(s) ==> s != 0 && forall|j: int|
                0 <= j < i ==> latch_step(f, #[trigger] lp.latches@[j], h, k as int, v) == Some(s),
        decreases lp.latches@.len() - i,
    {
        let l = lp.latches[i];
        proof {
            assert(lp.latches@.contains(l));
            lemma_latches(f, *lp, l);
            if i > 0 {
                assert(lp.latches@.contains(lp.latches@[0]));
                lemma_latches(f, *lp, lp.latches@[0]);
                assert(latch_step(f, lp.latches@[0], h, k as int, v) == step);
            }
        }
        let found: Option<i64> = match &func.block(l).terminator {
            Some(t) => match edge_arg_value(t, lp.header, k) {
                Some(next) => update_step_const(func, list, v, next),
                None => None,
            },
            None => None,
        };
        proof {
            assert(found == latch_step(f, l, h, k as int, v));
        }
        match found {
            Some(s) => {
                if s == 0 {
                    proof {
                        assert forall|x: i64| !#[trigger] is_loop_step(f, h, k as int, v, x) by {
                            assert(back_edge(f, l, h));
                        }
                    }
                    return None;
                }
                match step {
                    Some(t) => {
                        if s != t {
                            proof {
                                assert forall|x: i64| !#[trigger] is_loop_step(
                                    f,
                                    h,
                                    k as int,
                                    v,
                                    x,
                                ) by {
                                    assert(back_edge(f, l, h));
                                    assert(back_edge(f, lp.latches@[0], h));
                                }
                            }
                            return None;
                        }
                    },
                    None => {
                        step = Some(s);
                    },
                }
            },
            None => {
                proof {
                    assert forall|x: i64| !#[trigger] is_loop_step(f, h, k as int, v, x) by {
                        assert(back_edge(f, l, h));
                    }
                }
                return None;
            },
        }
        i = i + 1;
    }
    proof {
        lemma_latches(f, *lp, lp.latches@[0]);
        match step {
            Some(s) => {
                assert forall|l: BlockId| #[trigger] back_edge(f, l, h) implies latch_step(
                    f,
                    l,
                    h,
                    k as int,
                    v,
                ) == Some(s) by {
                    lemma_latches(f, *lp, l);
                    let j = lp.latches@.index_of(l);
                    assert(latch_step(f, lp.latches@[j], h, k as int, v) == Some(s));
                }
            },
            None => {},
        }
    }
    step
}

fn range_of_counter(init: i64, bound: i64, dir: LoopDir, step: i64) -> (r: Option<(i64, i64)>)
    ensures
        match r {
            Some(p) => counter_range(init, bound, dir, step) == Some((p.0 as int, p.1 as int)),
            None => counter_range(init, bound, dir, step) is None,
        },
{
    match dir {
        LoopDir::Ascending => {
            if step <= 0 || init > bound {
                return None;
            }
            match bound.checked_sub(init) {
                Some(trip) => {
                    proof {
                        lemma_quotient(trip as int, step as int);
                    }
                    let whole: i64 = (trip / step) * step;
                    Some((init, init + whole))
                },
                None => None,
            }
        },
        LoopDir::Descending => {
            if step >= 0 || step == i64::MIN || init < bound {
                return None;
            }
            let mag: i64 = -step;
            match init.checked_sub(bound) {
                Some(trip) => {
                    proof {
                        lemma_quotient(trip as int, mag as int);
                    }
                    let whole: i64 = (trip / mag) * mag;
                    Some((init - whole, init))
                },
                None => None,
            }
        },
    }
}

proof fn lemma_quotient(d: int, s: int)
    requires
        d >= 0,
        s > 0,
    ensures
        0 <= (d / s) * s <= d,
        0 <= d / s <= d,
{
    vstd::arithmetic::div_mod::lemma_fundamental_div_mod(d, s);
    vstd::arithmetic::div_mod::lemma_mod_bound(d, s);
    vstd::arithmetic::div_mod::lemma_div_pos_is_pos(d, s);
    let q = d / s;
    assert(q * s == s * q) by (nonlinear_arith);
    assert(0 <= q * s) by (nonlinear_arith)
        requires
            q >= 0,
            s > 0,
    ;
    assert(q <= q * s) by (nonlinear_arith)
        requires
            q >= 0,
            s > 0,
    ;
}

fn range_image(scale: i64, offset: i64, lo: i64, hi: i64) -> (r: Option<(i64, i64)>)
    ensures
        r == image(scale, offset, lo as int, hi as int),
{
    match (scale.checked_mul(lo), scale.checked_mul(hi)) {
        (Some(a), Some(b)) => {
            let small: i64 = if a <= b {
                a
            } else {
                b
            };
            let large: i64 = if a <= b {
                b
            } else {
                a
            };
            match (small.checked_add(offset), large.checked_add(offset)) {
                (Some(x), Some(y)) => Some((x, y)),
                _ => None,
            }
        },
        _ => None,
    }
}

fn loop_index_range(
    func: &Function,
    list: &Vec<&Inst>,
    lp: &NaturalLoop,
    preds: &IdMap<BlockId, Vec<BlockId>>,
    index: ValueId,
) -> (r: Option<(i64, i64)>)
    requires
        refs_view(list@) == insts_of(func@),
        preds_are(func@, preds@),
        is_loop(func@, *lp),
    ensures
        match r {
            Some(p) => loop_range(func@, lp.header, lp.body@, index, p),
            None => forall|p: (i64, i64)| !#[trigger]
                loop_range(func@, lp.header, lp.body@, index, p),
        },
        forall|p: (i64, i64)| #[trigger]
            loop_range(func@, lp.header, lp.body@, index, p) ==> r == Some(p),
{
    let ghost f = func@;
    let ghost h = lp.header;
    let fuel: usize = list.len();
    proof {
        assert(refs_view(list@).len() == list@.len());
    }
    if func.try_block(lp.header).is_none() {
        return None;
    }
    match linear_from(func, list, index, fuel) {
        Some((base, scale, offset)) => match place_of(func.block(lp.header), base) {
            Some(k) => match loop_init_const(func, list, lp, preds, k) {
                Some(init) => match loop_bound_const(func, list, lp.header, base) {
                    Some((bound, dir)) => match loop_step_const(func, list, lp, k, base) {
                        Some(step) => {
                            proof {
                                lemma_step_unique(f, *lp, k as int, base, step);
                            }
                            match range_of_counter(init, bound, dir, step) {
                                Some((lo, hi)) => {
                                    let r = range_image(scale, offset, lo, hi);
                                    proof {
                                        if r is Some {
                                            assert(has_loop_range(
                                                f,
                                                h,
                                                lp.body@,
                                                index,
                                                r->0,
                                                k as int,
                                                init,
                                                (bound, dir),
                                                step,
                                            ));
                                        }
                                    }
                                    r
                                },
                                None => None,
                            }
                        },
                        None => None,
                    },
                    None => None,
                },
                None => None,
            },
            None => None,
        },
        None => None,
    }
}

proof fn lemma_step_unique(f: FuncView, lp: NaturalLoop, k: int, v: ValueId, s: i64)
    requires
        is_loop(f, lp),
        is_loop_step(f, lp.header, k, v, s),
    ensures
        forall|t: i64| #[trigger] is_loop_step(f, lp.header, k, v, t) ==> t == s,
{
    let l = choose|x: BlockId| back_edge(f, x, lp.header);
    assert(back_edge(f, l, lp.header));
}

/// Where each block goes without coming by `h`, and which blocks are named `a`.
fn ways_around(func: &Function, h: BlockId, a: BlockId) -> (r: (Vec<Vec<usize>>, Vec<bool>))
    ensures
        r.0@.len() == func@.blocks.len(),
        r.1@.len() == func@.blocks.len(),
        forall|x: int, y: int| #[trigger]
            linked(graph_view(r.0@), x, y) == steps_around(func@, h, x, y),
        forall|x: int|
            0 <= x < r.1@.len() ==> #[trigger] r.1@[x] == (func@.blocks[x].id == a && a != h),
{
    let ghost f = func@;
    let n: usize = func.blocks.len();
    let mut g: Vec<Vec<usize>> = Vec::new();
    let mut marks: Vec<bool> = Vec::new();
    let mut x: usize = 0;
    while x < n
        invariant
            x <= n,
            n == func.blocks@.len(),
            f == func@,
            g@.len() == x,
            marks@.len() == x,
            forall|i: int, y: usize|
                0 <= i < x ==> (#[trigger] g@[i]@.contains(y)) == steps_around(f, h, i, y as int),
            forall|i: int|
                0 <= i < x ==> #[trigger] marks@[i] == (f.blocks[i].id == a && a != h),
        decreases n - x,
    {
        let block = &func.blocks[x];
        let to = block.targets();
        proof {
            assert(f.blocks[x as int] == block@);
        }
        let mut next: Vec<usize> = Vec::new();
        let mut y: usize = 0;
        while y < n
            invariant
                x < n,
                y <= n,
                n == func.blocks@.len(),
                f == func@,
                block@ == f.blocks[x as int],
                to@ == targets_of(f.blocks[x as int]),
                forall|k: usize| (#[trigger] next@.contains(k)) == (k < y && steps_around(
                    f,
                    h,
                    x as int,
                    k as int,
                )),
            decreases n - y,
        {
            let ghost before = next@;
            proof {
                assert(f.blocks[y as int] == func.blocks@[y as int]@);
            }
            let id = func.blocks[y].id;
            if !same_id(block.id, h) && !same_id(id, h) && has_id(&to, id) {
                next.push(y);
                proof {
                    assert forall|k: usize| (#[trigger] next@.contains(k)) == (k < y + 1
                        && steps_around(f, h, x as int, k as int)) by {
                        assert(next@[next@.len() - 1] == y);
                        if before.contains(k) {
                            assert(next@[before.index_of(k)] == k);
                        }
                        if next@.contains(k) && k != y {
                            assert(before[next@.index_of(k)] == k);
                        }
                    }
                }
            }
            y = y + 1;
        }
        g.push(next);
        marks.push(same_id(block.id, a) && !same_id(a, h));
        x = x + 1;
    }
    proof {
        let gv = graph_view(g@);
        assert forall|i: int, y: int| #[trigger] linked(gv, i, y) == steps_around(f, h, i, y) by {
            if 0 <= i < n && 0 <= y < n {
                assert(gv[i] == g@[i]@);
                assert(g@[i]@.contains(y as usize) == steps_around(f, h, i, (y as usize) as int));
            }
        }
    }
    (g, marks)
}

/// Does the block at `x` branch to the one at `y`, and is none of them `h`?
spec fn steps_around(f: FuncView, h: BlockId, x: int, y: int) -> bool {
    &&& 0 <= x < f.blocks.len()
    &&& 0 <= y < f.blocks.len()
    &&& f.blocks[x].id != h
    &&& f.blocks[y].id != h
    &&& targets_of(f.blocks[x]).contains(f.blocks[y].id)
}

fn has_id(list: &Vec<BlockId>, id: BlockId) -> (r: bool)
    ensures
        r == list@.contains(id),
{
    let mut i: usize = 0;
    while i < list.len()
        invariant
            i <= list@.len(),
            forall|k: int| 0 <= k < i ==> #[trigger] list@[k] != id,
        decreases list@.len() - i,
    {
        if same_id(list[i], id) {
            return true;
        }
        i = i + 1;
    }
    false
}

/// A way along block places is a way along their names, and back.
proof fn lemma_ways_around(
    f: FuncView,
    h: BlockId,
    a: BlockId,
    g: Seq<Seq<usize>>,
    marks: Seq<bool>,
    c: int,
)
    requires
        g.len() == f.blocks.len(),
        marks.len() == f.blocks.len(),
        forall|x: int, y: int| #[trigger] linked(g, x, y) == steps_around(f, h, x, y),
        forall|x: int|
            0 <= x < marks.len() ==> #[trigger] marks[x] == (f.blocks[x].id == a && a != h),
        0 <= c < f.blocks.len(),
    ensures
        reached(g, marks, c) ==> reaches_around(f, h, a, f.blocks[c].id),
        (forall|x: int|
            0 <= x < f.blocks.len() && f.blocks[x].id == f.blocks[c].id ==> !#[trigger] reached(
                g,
                marks,
                x,
            )) ==> !reaches_around(f, h, a, f.blocks[c].id),
{
    reveal(reached);
    if reached(g, marks, c) {
        let s = choose|s: int| 0 <= s < marks.len() && #[trigger] marks[s] && reaches(g, s, c);
        let q = choose|q: Seq<int>| leads(g, q, s, c);
        let p = Seq::new(q.len(), |i: int| f.blocks[q[i]].id);
        assert forall|i: int| 0 <= i < p.len() - 1 implies edge(f.blocks, #[trigger] p[i], p[i + 1]) by {
            assert(linked(g, q[i], q[i + 1]));
            assert(steps_around(f, h, q[i], q[i + 1]));
        }
        assert forall|i: int| 0 <= i < p.len() implies #[trigger] p[i] != h by {
            if i > 0 {
                assert(linked(g, q[i - 1], q[(i - 1) + 1]));
                assert(steps_around(f, h, q[i - 1], q[i]));
            }
        }
        assert(leads_around(f, h, a, f.blocks[c].id, p));
    }
    if reaches_around(f, h, a, f.blocks[c].id) {
        let p = choose|p: Seq<BlockId>| leads_around(f, h, a, f.blocks[c].id, p);
        let x = lemma_way_places(f, h, a, g, marks, p, c, p.len() - 1);
        assert(reached(g, marks, x));
    }
}

/// Each block on a way is reached.
proof fn lemma_way_places(
    f: FuncView,
    h: BlockId,
    a: BlockId,
    g: Seq<Seq<usize>>,
    marks: Seq<bool>,
    p: Seq<BlockId>,
    c: int,
    i: int,
) -> (x: int)
    requires
        g.len() == f.blocks.len(),
        marks.len() == f.blocks.len(),
        forall|x: int, y: int| #[trigger] linked(g, x, y) == steps_around(f, h, x, y),
        forall|x: int|
            0 <= x < marks.len() ==> #[trigger] marks[x] == (f.blocks[x].id == a && a != h),
        0 <= c < f.blocks.len(),
        leads_around(f, h, a, f.blocks[c].id, p),
        0 <= i < p.len(),
    ensures
        0 <= x < f.blocks.len(),
        f.blocks[x].id == p[i],
        reached(g, marks, x),
        i < p.len() - 1 ==> targets_of(f.blocks[x]).contains(p[i + 1]),
    decreases i,
{
    reveal(reached);
    let x = if i == p.len() - 1 {
        c
    } else {
        assert(edge(f.blocks, p[i], p[i + 1]));
        choose|k: int|
            0 <= k < f.blocks.len() && (#[trigger] f.blocks[k]).id == p[i] && targets_of(
                f.blocks[k],
            ).contains(p[i + 1])
    };
    assert(p[i] != h);
    if i == 0 {
        lemma_reaches_self(g, x);
        assert(marks[x]);
    } else {
        let y = lemma_way_places(f, h, a, g, marks, p, c, i - 1);
        assert(p[i - 1] != h);
        assert(linked(g, y, x));
        let s = choose|s: int| 0 <= s < marks.len() && #[trigger] marks[s] && reaches(g, s, y);
        lemma_reaches_step(g, s, y, x);
        assert(marks[s] && reaches(g, s, x));
    }
    x
}

/// Can block `c` be reached from `a` without coming by `h`?
fn can_go_around(func: &Function, h: BlockId, a: BlockId, c: BlockId) -> (r: bool)
    requires
        has_block(func@.blocks, c),
    ensures
        r == reaches_around(func@, h, a, c),
{
    let ghost f = func@;
    let (g, marks) = ways_around(func, h, a);
    let seen = reach_from(&g, &marks);
    let mut x: usize = 0;
    while x < func.blocks.len()
        invariant
            x <= func.blocks@.len(),
            f == func@,
            g@.len() == f.blocks.len(),
            marks@.len() == f.blocks.len(),
            seen@.len() == f.blocks.len(),
            forall|i: int, y: int| #[trigger]
                linked(graph_view(g@), i, y) == steps_around(f, h, i, y),
            forall|i: int|
                0 <= i < marks@.len() ==> #[trigger] marks@[i] == (f.blocks[i].id == a && a != h),
            forall|i: int|
                0 <= i < seen@.len() ==> (#[trigger] seen@[i] == reached(graph_view(g@), marks@, i)),
            forall|i: int|
                0 <= i < x && f.blocks[i].id == c ==> !#[trigger] reached(graph_view(g@), marks@, i),
        decreases func.blocks@.len() - x,
    {
        proof {
            assert(f.blocks[x as int] == func.blocks@[x as int]@);
        }
        if same_id(func.blocks[x].id, c) && seen[x] {
            proof {
                lemma_ways_around(f, h, a, graph_view(g@), marks@, x as int);
            }
            return true;
        }
        x = x + 1;
    }
    proof {
        let k = choose|k: int| 0 <= k < f.blocks.len() && (#[trigger] f.blocks[k]).id == c;
        lemma_ways_around(f, h, a, graph_view(g@), marks@, k);
    }
    false
}

/// Is `cond` what the first comparison of `v` with a bound gives?
fn is_bound_test(block: &BasicBlock, v: ValueId, cond: ValueId) -> (r: bool)
    ensures
        r == tests_bound(block@.insts, v, cond),
{
    let ghost s = block@.insts;
    let mut i: usize = 0;
    while i < block.insts.len()
        invariant
            i <= s.len(),
            s == block@.insts,
            first_bound(s, i as nat, v) is None,
            forall|k: int| 0 <= k < i ==> !#[trigger] tests_bound_at(s, v, k),
        decreases s.len() - i,
    {
        proof {
            assert(s[i as int] == block.insts@[i as int]@);
        }
        if bound_in(&block.insts[i], v).is_some() {
            proof {
                assert(tests_bound_at(s, v, i as int));
                assert forall|k: int| #[trigger] tests_bound_at(s, v, k) implies k == i by {
                    if k > i {
                        lemma_bound_stays(s, (i + 1) as nat, k as nat, v);
                    }
                }
            }
            return same_id(block.insts[i].id, cond);
        }
        i = i + 1;
    }
    false
}

/// Is what `index` counts by within its bound wherever control comes to `c`?
fn is_index_guarded(func: &Function, list: &Vec<&Inst>, lp: &NaturalLoop, index: ValueId, c: BlockId) -> (r:
    bool)
    requires
        refs_view(list@) == insts_of(func@),
        is_loop(func@, *lp),
        has_block(func@.blocks, lp.header),
        has_block(func@.blocks, c),
    ensures
        r == index_guarded(func@, lp.header, index, c),
{
    let fuel: usize = list.len();
    proof {
        assert(refs_view(list@).len() == list@.len());
    }
    if same_id(c, lp.header) || !lp.body.contains(&c) {
        return false;
    }
    match linear_from(func, list, index, fuel) {
        Some((base, _, _)) => {
            let block = func.block(lp.header);
            match &block.terminator {
                Some(Terminator::CondBranch { cond, false_dest, .. }) => is_bound_test(
                    block,
                    base,
                    *cond,
                ) && !can_go_around(func, lp.header, *false_dest, c),
                _ => false,
            }
        },
        None => false,
    }
}

/// Is the index proved to lie within the bounds in block `c`?
fn is_provably_safe(
    func: &Function,
    list: &Vec<&Inst>,
    loops: &Vec<NaturalLoop>,
    preds: &IdMap<BlockId, Vec<BlockId>>,
    c: BlockId,
    index: ValueId,
    lower: ValueId,
    upper: ValueId,
) -> (r: bool)
    requires
        refs_view(list@) == insts_of(func@),
        preds_are(func@, preds@),
        has_block(func@.blocks, c),
        forall|i: int| 0 <= i < loops@.len() ==> is_loop(func@, #[trigger] loops@[i]),
        forall|l: BlockId, h: BlockId| #[trigger]
            back_edge(func@, l, h) ==> exists|i: int|
                0 <= i < loops@.len() && (#[trigger] loops@[i]).header == h,
    ensures
        r == provably_safe(func@, c, index, lower, upper),
{
    let ghost f = func@;
    let at = strip_value_preserving_int_extends(func, list, index);
    let lo: i64 = match resolve_scalar(func, list, lower) {
        Some(n) => n,
        None => {
            return false;
        },
    };
    let hi: i64 = match resolve_scalar(func, list, upper) {
        Some(n) => n,
        None => {
            return false;
        },
    };
    match resolve_scalar(func, list, at) {
        Some(i) => {
            return lo <= i && i <= hi;
        },
        None => {},
    }
    let mut i: usize = 0;
    while i < loops.len()
        invariant
            f == func@,
            i <= loops@.len(),
            at == stripped(f, index, depth(f)),
            scalar(f, lower) == Some(lo),
            scalar(f, upper) == Some(hi),
            scalar(f, at) is None,
            refs_view(list@) == insts_of(f),
            preds_are(f, preds@),
            has_block(f.blocks, c),
            forall|k: int| 0 <= k < loops@.len() ==> is_loop(f, #[trigger] loops@[k]),
            forall|k: int, p: (i64, i64)|
                0 <= k < i && p.0 >= lo && p.1 <= hi && index_guarded(f, loops@[k].header, at, c)
                    ==> !#[trigger] loop_range(
                    f,
                    (#[trigger] loops@[k]).header,
                    loops@[k].body@,
                    at,
                    p,
                ),
        decreases loops@.len() - i,
    {
        let lp = &loops[i];
        match loop_index_range(func, list, lp, preds, at) {
            Some((x, y)) => {
                if x >= lo && y <= hi && is_index_guarded(func, list, lp, at, c) {
                    proof {
                        assert(lp.body@ =~= loop_body(f, lp.header));
                        assert(loop_range(f, lp.header, loop_body(f, lp.header), at, (x, y)));
                        let l = choose|l: BlockId| back_edge(f, l, lp.header);
                        assert(is_header(f, lp.header));
                    }
                    return true;
                }
            },
            None => {},
        }
        i = i + 1;
    }
    proof {
        assert forall|h: BlockId, range: (i64, i64)|
            is_header(f, h) && range.0 >= lo && range.1 <= hi && index_guarded(
                f,
                h,
                at,
                c,
            ) implies !#[trigger] loop_range(f, h, loop_body(f, h), at, range) by {
            let l = choose|l: BlockId| back_edge(f, l, h);
            let k = choose|k: int| 0 <= k < loops@.len() && (#[trigger] loops@[k]).header == h;
            assert(is_loop(f, loops@[k]));
            assert(loops@[k].body@ =~= loop_body(f, h));
            assert(!loop_range(f, loops@[k].header, loops@[k].body@, at, range));
        }
    }
    false
}

fn is_needless(
    func: &Function,
    list: &Vec<&Inst>,
    loops: &Vec<NaturalLoop>,
    preds: &IdMap<BlockId, Vec<BlockId>>,
    c: BlockId,
    inst: &Inst,
) -> (r: bool)
    requires
        refs_view(list@) == insts_of(func@),
        preds_are(func@, preds@),
        has_block(func@.blocks, c),
        forall|i: int| 0 <= i < loops@.len() ==> is_loop(func@, #[trigger] loops@[i]),
        forall|l: BlockId, h: BlockId| #[trigger]
            back_edge(func@, l, h) ==> exists|i: int|
                0 <= i < loops@.len() && (#[trigger] loops@[i]).header == h,
    ensures
        r == needless(func@, c, inst@),
{
    match &inst.kind {
        InstKind::RuntimeCall(rf, args) => match rf {
            RuntimeFunc::CheckBounds => args.len() == 3 && is_provably_safe(
                func,
                list,
                loops,
                preds,
                c,
                args[0],
                args[1],
                args[2],
            ),
            _ => false,
        },
        InstKind::Call(callee, _) => match callee {
            FuncRef::Internal(_) => false,
            FuncRef::External(_) => false,
            FuncRef::Indirect(_) => false,
        },
        _ => false,
    }
}

/// For each block, which instructions stay.
fn keep_masks(func: &Function) -> (r: Vec<Vec<bool>>)
    ensures
        r@.len() == func@.blocks.len(),
        forall|b: int|
            0 <= b < r@.len() ==> (#[trigger] r@[b])@ == Seq::new(
                func@.blocks[b].insts.len(),
                |k: int| !needless(func@, func@.blocks[b].id, func@.blocks[b].insts[k]),
            ),
{
    let ghost f = func@;
    let list = all_insts(func);
    let loops = find_natural_loops(func);
    let preds = predecessors(func);
    let mut out: Vec<Vec<bool>> = Vec::new();
    let mut b: usize = 0;
    while b < func.blocks.len()
        invariant
            f == func@,
            b <= func.blocks@.len(),
            refs_view(list@) == insts_of(f),
            preds_are(f, preds@),
            forall|i: int| 0 <= i < loops@.len() ==> is_loop(f, #[trigger] loops@[i]),
            forall|l: BlockId, h: BlockId| #[trigger]
                back_edge(f, l, h) ==> exists|i: int|
                    0 <= i < loops@.len() && (#[trigger] loops@[i]).header == h,
            out@.len() == b,
            forall|c: int|
                0 <= c < b ==> (#[trigger] out@[c])@ == Seq::new(
                    f.blocks[c].insts.len(),
                    |k: int| !needless(f, f.blocks[c].id, f.blocks[c].insts[k]),
                ),
        decreases func.blocks@.len() - b,
    {
        let block = &func.blocks[b];
        let ghost s = f.blocks[b as int].insts;
        let mut keep: Vec<bool> = Vec::new();
        let mut k: usize = 0;
        proof {
            assert(f.blocks[b as int] == block@);
            assert(f.blocks[b as int].id == block.id);
        }
        while k < block.insts.len()
            invariant
                f == func@,
                refs_view(list@) == insts_of(f),
                preds_are(f, preds@),
                forall|i: int| 0 <= i < loops@.len() ==> is_loop(f, #[trigger] loops@[i]),
                forall|l: BlockId, h: BlockId| #[trigger]
                    back_edge(f, l, h) ==> exists|i: int|
                        0 <= i < loops@.len() && (#[trigger] loops@[i]).header == h,
                s == block@.insts,
                has_block(f.blocks, block.id),
                k <= s.len(),
                keep@.len() == k,
                forall|j: int| 0 <= j < k ==> #[trigger] keep@[j] == !needless(f, block.id, s[j]),
            decreases s.len() - k,
        {
            proof {
                assert(s[k as int] == block.insts@[k as int]@);
            }
            keep.push(!is_needless(func, &list, &loops, &preds, block.id, &block.insts[k]));
            k = k + 1;
        }
        proof {
            assert(keep@ =~= Seq::new(
                f.blocks[b as int].insts.len(),
                |k: int| !needless(f, f.blocks[b as int].id, f.blocks[b as int].insts[k]),
            ));
        }
        out.push(keep);
        b = b + 1;
    }
    out
}

fn bce_function(func: &mut Function) -> (changed: bool)
    ensures
        final(func)@ == unchecked_func(old(func)@),
        changed == has_needless(old(func)@),
{
    let ghost f = func@;
    let masks = keep_masks(func);
    let mut changed: bool = false;
    let mut b: usize = 0;
    while b < func.blocks.len()
        invariant
            b <= f.blocks.len(),
            func.blocks@.len() == f.blocks.len(),
            func@ == (FuncView { blocks: func@.blocks, ..f }),
            masks@.len() == f.blocks.len(),
            forall|c: int|
                0 <= c < masks@.len() ==> (#[trigger] masks@[c])@ == Seq::new(
                    f.blocks[c].insts.len(),
                    |k: int| !needless(f, f.blocks[c].id, f.blocks[c].insts[k]),
                ),
            forall|c: int|
                0 <= c < b ==> (#[trigger] func.blocks@[c])@ == unchecked_func(f).blocks[c],
            forall|c: int| b <= c < f.blocks.len() ==> (#[trigger] func.blocks@[c])@ == f.blocks[c],
            changed == exists|c: int, k: int|
                0 <= c < b && 0 <= k < f.blocks[c].insts.len() && needless(
                    f,
                    f.blocks[c].id,
                    #[trigger] f.blocks[c].insts[k],
                ),
        decreases f.blocks.len() - b,
    {
        let ghost s = f.blocks[b as int].insts;
        proof {
            assert(func.blocks@[b as int]@ == f.blocks[b as int]);
        }
        let before: usize = func.blocks[b].insts.len();
        keep_insts(&mut func.blocks[b], &masks[b]);
        let hit = func.blocks[b].insts.len() != before;
        proof {
            let keep = masks@[b as int]@;
            lemma_masked_filter(s, keep, |i: InstView| !needless(f, f.blocks[b as int].id, i));
            if hit {
                let k = choose|k: int| 0 <= k < keep.len() && !#[trigger] keep[k];
                assert(needless(f, f.blocks[b as int].id, f.blocks[b as int].insts[k]));
            } else {
                assert forall|k: int| 0 <= k < s.len() implies !needless(
                    f,
                    f.blocks[b as int].id,
                    #[trigger] s[k],
                ) by {
                    assert(keep[k]);
                }
            }
        }
        if hit {
            changed = true;
        }
        b = b + 1;
    }
    proof {
        assert(func@.blocks =~= unchecked_func(f).blocks);
    }
    changed
}

/// The bounds-check elimination pass.
pub struct Bce;

/// A module without the bounds checks that always pass.
pub open spec fn unchecked_module(m: ModuleView) -> ModuleView {
    ModuleView {
        functions: Seq::new(m.functions.len(), |i: int| unchecked_func(m.functions[i])),
        ..m
    }
}

/// Is there a bounds check in a module that always passes?
pub open spec fn any_needless(m: ModuleView) -> bool {
    exists|i: int| 0 <= i < m.functions.len() && has_needless(#[trigger] m.functions[i])
}

impl Pass for Bce {
    open spec fn accepts(&self, m: ModuleView) -> bool {
        true
    }

    open spec fn outcome(&self, before: ModuleView, after: ModuleView, changed: bool) -> bool {
        after == unchecked_module(before) && changed == any_needless(before)
    }

    fn name(&self) -> (r: &'static str)
        ensures
            r@ == "bce"@,
    {
        "bce"
    }

    fn run(&self, module: &mut Module) -> (changed: bool) {
        let ghost m = module@;
        let mut changed: bool = false;
        let mut i: usize = 0;
        while i < module.functions.len()
            invariant
                i <= m.functions.len(),
                module.functions@.len() == m.functions.len(),
                module@ == (ModuleView { functions: module@.functions, ..m }),
                forall|k: int|
                    0 <= k < i ==> (#[trigger] module.functions@[k])@ == unchecked_func(
                        m.functions[k],
                    ),
                forall|k: int|
                    i <= k < m.functions.len() ==> (#[trigger] module.functions@[k])@
                        == m.functions[k],
                changed == exists|k: int| 0 <= k < i && has_needless(#[trigger] m.functions[k]),
            decreases m.functions.len() - i,
        {
            proof {
                assert(module.functions@[i as int]@ == m.functions[i as int]);
            }
            if bce_function(&mut module.functions[i]) {
                changed = true;
            }
            i = i + 1;
        }
        proof {
            assert(module@.functions =~= unchecked_module(m).functions);
        }
        changed
    }
}

} // verus!
