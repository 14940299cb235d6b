//! What a bounds check that is dropped would have found, on any run.

use crate::ir::cfg::{edge, reachable, targets_of};
use crate::ir::dom::is_walk;
use crate::ir::inst::{
    block_pos, has_block, lemma_block_pos, the_block, BlockId, BlockParam, CmpOp, FuncView,
    InstView, Op, RuntimeFunc, TermView, ValueId,
};
use crate::ir::loops::{back_edge, header_dominates_loop, in_loop};
use crate::ir::sound::sound_function;
use crate::ir::types::IntWidth;
use crate::opt::bce::{
    arith_of, compared_bound, computes, constants_hold, conversion_of, counter_range, counter_stays_in_range,
    counter_takes, depth, first_bound, follows, guarded_counters_are_within_bounds, has_loop_range,
    image, image_covers, index_guarded, inst_at, is_header, is_loop_step, latch_step, lemma_apart,
    lemma_bound_stays, lemma_computes, lemma_stripped_holds, linear_form_holds, linear_of,
    loop_body, loop_range, loop_start, needless, next_count, param_place, passed, provably_safe,
    scalar, step_between, stripped, takes_true_side, tests_bound_at, unchecked_func, within,
    LoopDir,
};
use crate::opt::insts::{insts_of, lemma_block_inst, lemma_first_inst};
use crate::opt::ints::sext;
use crate::opt::loop_laws::preheaders_lead_into_the_loop;
use crate::opt::loop_utils::preheader_of;
use crate::opt::meaning::int_relation;
use vstd::prelude::*;

verus! {

/// Is every comparison of integers nonzero where it holds?
pub open spec fn compares(f: FuncView, env: spec_fn(ValueId) -> int) -> bool {
    forall|k: int|
        0 <= k < insts_of(f).len() ==> match (#[trigger] insts_of(f)[k]).kind.op {
            Op::ICmp(op) => env(insts_of(f)[k].id) != 0 <==> int_relation(
                op,
                env(insts_of(f)[k].kind.args[0]),
                env(insts_of(f)[k].kind.args[1]),
            ),
            _ => true,
        }
}

/// Have the parameters of a block afterwards the values that the arguments had?
pub open spec fn hands_over(
    f: FuncView,
    to: BlockId,
    args: Seq<ValueId>,
    a: spec_fn(ValueId) -> int,
    b: spec_fn(ValueId) -> int,
) -> bool {
    let params = the_block(f.blocks, to).params;
    forall|k: int|
        0 <= k < params.len() && k < args.len() ==> b((#[trigger] params[k]).id) == a(args[k])
}

/// Does a terminator lead to a block, by the values that it reads?
pub open spec fn goes(
    f: FuncView,
    t: TermView,
    to: BlockId,
    a: spec_fn(ValueId) -> int,
    b: spec_fn(ValueId) -> int,
) -> bool {
    match t {
        TermView::Branch(d, args) => d == to && hands_over(f, to, args, a, b),
        TermView::CondBranch { cond, true_dest, true_args, false_dest, false_args } => {
            ||| a(cond) != 0 && true_dest == to && hands_over(f, to, true_args, a, b)
            ||| a(cond) == 0 && false_dest == to && hands_over(f, to, false_args, a, b)
        },
        TermView::Switch { cases, default, .. } => default == to || exists|k: int|
            0 <= k < cases.len() && (#[trigger] cases[k]).1 == to,
        _ => false,
    }
}

/// Does control go from one block to another, and are the parameters of all
/// blocks but the other left alone?
pub open spec fn steps(
    f: FuncView,
    from: BlockId,
    to: BlockId,
    a: spec_fn(ValueId) -> int,
    b: spec_fn(ValueId) -> int,
) -> bool {
    &&& the_block(f.blocks, from).term matches Some(t) && goes(f, t, to, a, b)
    &&& forall|n: int, k: int|
        0 <= n < f.blocks.len() && f.blocks[n].id != to && 0 <= k < f.blocks[n].params.len() ==> b(
            (#[trigger] f.blocks[n].params[k]).id,
        ) == a(f.blocks[n].params[k].id)
}

/// Is this a run of the function: the blocks that control comes by, and the values
/// at each of them? Nothing overflows.
pub open spec fn runs(
    f: FuncView,
    w: Seq<BlockId>,
    e: Seq<spec_fn(ValueId) -> int>,
) -> bool {
    &&& is_walk(f, w)
    &&& e.len() == w.len()
    &&& forall|i: int| 0 <= i < w.len() ==> computes(f, #[trigger] e[i]) && compares(f, e[i])
    &&& forall|i: int| 0 <= i < w.len() - 1 ==> steps(f, #[trigger] w[i], w[i + 1], e[i], e[i + 1])
}

/// Does each branch on a condition lead to two blocks?
pub open spec fn sides_differ(f: FuncView) -> bool {
    forall|n: int|
        0 <= n < f.blocks.len() ==> ((#[trigger] f.blocks[n]).term matches Some(
            TermView::CondBranch { true_dest, false_dest, .. },
        ) ==> true_dest != false_dest)
}

/// A comparison that bounds a counter holds only where the counter is on the near
/// side of the bound.
pub proof fn comparisons_bound_their_counter(
    i: InstView,
    v: ValueId,
    op: CmpOp,
    env: spec_fn(ValueId) -> int,
)
    requires
        compared_bound(i, v) is Some,
        i.kind.op == Op::ICmp(op),
        int_relation(op, env(i.kind.args[0]), env(i.kind.args[1])),
    ensures
        match (compared_bound(i, v)->0).1 {
            LoopDir::Ascending => env(v) <= env((compared_bound(i, v)->0).0),
            LoopDir::Descending => env(v) >= env((compared_bound(i, v)->0).0),
        },
{
}

/// A step is what is added to a counter.
pub proof fn steps_are_added(
    f: FuncView,
    v: ValueId,
    next: ValueId,
    env: spec_fn(ValueId) -> int,
)
    requires
        computes(f, env),
        step_between(f, v, next) is Some,
    ensures
        env(next) == env(v) + step_between(f, v, next)->0,
{
    reveal(arith_of);
    reveal(scalar);
    let at = stripped(f, next, depth(f));
    lemma_stripped_holds(f, next, depth(f), env);
    if at != v {
        lemma_computes(f, at, env);
        let i = inst_at(f, at)->0;
        let a = i.kind.args[0];
        let b = i.kind.args[1];
        if a == v {
            constants_hold(f, b, depth(f), env);
        } else {
            constants_hold(f, a, depth(f), env);
        }
    }
}

proof fn lemma_place(params: Seq<BlockParam>, v: ValueId)
    requires
        param_place(params, v) is Some,
    ensures
        0 <= param_place(params, v)->0 < params.len(),
        params[param_place(params, v)->0].id == v,
    decreases params.len(),
{
    if params.len() > 0 && param_place(params.drop_last(), v) is Some {
        lemma_place(params.drop_last(), v);
    }
}

/// On a run, a counter starts with its first value, goes up by its step each time
/// round, and stays within its bound where the loop goes on.
proof fn lemma_counts(
    f: FuncView,
    w: Seq<BlockId>,
    e: Seq<spec_fn(ValueId) -> int>,
    h: BlockId,
    index: ValueId,
    range: (i64, i64),
    k: int,
    init: i64,
    bound: (i64, LoopDir),
    step: i64,
) -> (x: spec_fn(int) -> int)
    requires
        sound_function(f),
        sides_differ(f),
        runs(f, w, e),
        is_header(f, h),
        has_loop_range(f, h, loop_body(f, h), index, range, k, init, bound, step),
        index_guarded(f, h, index, w.last()),
    ensures
        follows(f, h, w, init, bound, step, x),
        x(w.len() - 1) == e[w.len() - 1]((linear_of(f, index, depth(f))->0).base),
{
    reveal(scalar);
    let base = (linear_of(f, index, depth(f))->0).base;
    let head = the_block(f.blocks, h);
    let x = |i: int| e[i](base);
    lemma_place(head.params, base);
    lemma_block_pos(f.blocks, h);
    lemma_apart(f);
    assert forall|i: int| 0 <= i < w.len() - 1 implies x(i + 1) == #[trigger] next_count(
        f,
        h,
        w,
        init,
        step,
        i,
        x(i),
    ) by {
        assert(steps(f, w[i], w[i + 1], e[i], e[i + 1]));
        assert(computes(f, e[i]));
        if w[i + 1] != h {
            assert(head.params[k].id == base);
        } else {
            lemma_round(f, w, e, h, base, k, init, step, i);
        }
    }
    assert forall|i: int| 0 <= i < w.len() - 1 && #[trigger] takes_true_side(f, h, w, i) implies within(
        bound,
        x(i),
    ) by {
        assert(steps(f, w[i], w[i + 1], e[i], e[i + 1]));
        assert(computes(f, e[i]) && compares(f, e[i]));
        let s = head.insts;
        let cond = (head.term->0)->CondBranch_cond;
        assert(e[i](cond) != 0);
        let j = choose|j: int| #[trigger] tests_bound_at(s, base, j) && s[j].id == cond;
        assert(first_bound(s, (j + 1) as nat, base) == compared_bound(s[j], base));
        lemma_bound_stays(s, (j + 1) as nat, s.len(), base);
        let p = block_pos(f.blocks, h);
        lemma_block_inst(f.blocks, f.blocks.len(), p, j);
        let n = insts_of(f).index_of(s[j]);
        assert(insts_of(f)[n] == s[j]);
        assert(compared_bound(s[j], base) is Some);
        let op = s[j].kind.op->ICmp_0;
        comparisons_bound_their_counter(s[j], base, op, e[i]);
        constants_hold(f, (compared_bound(s[j], base)->0).0, depth(f), e[i]);
    }
    x
}

proof fn lemma_round(
    f: FuncView,
    w: Seq<BlockId>,
    e: Seq<spec_fn(ValueId) -> int>,
    h: BlockId,
    base: ValueId,
    k: int,
    init: i64,
    step: i64,
    i: int,
)
    requires
        sound_function(f),
        sides_differ(f),
        runs(f, w, e),
        0 <= i < w.len() - 1,
        w[i + 1] == h,
        has_block(f.blocks, h),
        0 <= k < the_block(f.blocks, h).params.len(),
        the_block(f.blocks, h).params[k].id == base,
        loop_start(f, h, loop_body(f, h), k) == Some(init),
        is_loop_step(f, h, k, base, step),
    ensures
        e[i + 1](base) == if in_loop(f, h, w[i]) {
            e[i](base) + step
        } else {
            init as int
        },
{
    reveal(scalar);
    let a = e[i];
    let b = e[i + 1];
    let body = loop_body(f, h);
    let params = the_block(f.blocks, h).params;
    lemma_apart(f);
    assert(steps(f, w[i], w[i + 1], a, b));
    assert(computes(f, a));
    assert(edge(f.blocks, w[i], w[i + 1]));
    assert(reachable(f, w[i]));
    assert(params[k].id == base);
    let t = the_block(f.blocks, w[i]).term->0;
    if in_loop(f, h, w[i]) {
        header_dominates_loop(f, h, w[i]);
        assert(back_edge(f, w[i], h));
        assert(latch_step(f, w[i], h, k, base) == Some(step));
        let next = passed(t, h, k)->0;
        steps_are_added(f, base, next, a);
        let n = choose|n: int|
            0 <= n < f.blocks.len() && (#[trigger] f.blocks[n]).id == w[i]
                && targets_of(f.blocks[n]).contains(h);
        lemma_block_pos(f.blocks, w[i]);
        let p = block_pos(f.blocks, w[i]);
        assert(f.blocks[p].term == Some(t));
        assert(b(base) == a(next));
    } else {
        let p = preheader_of(f, h, body)->0;
        preheaders_lead_into_the_loop(f, h, body, p, w[i]);
        assert(!body.contains(w[i]));
        assert(w[i] == p);
        let args = t->Branch_1;
        assert(b(base) == a(args[k]));
        constants_hold(f, args[k], depth(f), a);
    }
}

/// A bounds check that is dropped would have passed: on any run that comes to it,
/// the index is not below the lower bound and not above the upper one.
pub proof fn dropped_checks_would_pass(
    f: FuncView,
    n: int,
    m: int,
    w: Seq<BlockId>,
    e: Seq<spec_fn(ValueId) -> int>,
)
    requires
        sound_function(f),
        sides_differ(f),
        0 <= n < f.blocks.len(),
        0 <= m < f.blocks[n].insts.len(),
        !unchecked_func(f).blocks[n].insts.contains(f.blocks[n].insts[m]),
        runs(f, w, e),
        w.last() == f.blocks[n].id,
    ensures
        ({
            let i = f.blocks[n].insts[m];
            let env = e[w.len() - 1];
            &&& i.kind.op == Op::RuntimeCall(RuntimeFunc::CheckBounds)
            &&& i.kind.args.len() == 3
            &&& env(i.kind.args[1]) <= env(i.kind.args[0]) <= env(i.kind.args[2])
        }),
{
    let s = f.blocks[n].insts;
    let i = s[m];
    let c = f.blocks[n].id;
    let keep = |i: InstView| !needless(f, c, i);
    if keep(i) {
        s.lemma_filter_contains(keep, m);
        assert(unchecked_func(f).blocks[n].insts =~= s.filter(keep));
    }
    assert(needless(f, c, i));
    lemma_checks_pass(f, i.kind.args[0], i.kind.args[1], i.kind.args[2], w, e);
}

proof fn lemma_checks_pass(
    f: FuncView,
    index: ValueId,
    lower: ValueId,
    upper: ValueId,
    w: Seq<BlockId>,
    e: Seq<spec_fn(ValueId) -> int>,
)
    requires
        sound_function(f),
        sides_differ(f),
        runs(f, w, e),
        provably_safe(f, w.last(), index, lower, upper),
    ensures
        e[w.len() - 1](lower) <= e[w.len() - 1](index) <= e[w.len() - 1](upper),
{
    reveal(scalar);
    let env = e[w.len() - 1];
    let at = stripped(f, index, depth(f));
    let c = w.last();
    assert(computes(f, env));
    lemma_stripped_holds(f, index, depth(f), env);
    constants_hold(f, lower, depth(f), env);
    constants_hold(f, upper, depth(f), env);
    let lo = scalar(f, lower)->0;
    let hi = scalar(f, upper)->0;
    if scalar(f, at) is Some {
        constants_hold(f, at, depth(f), env);
    } else {
        let (h, range) = choose|h: BlockId, range: (i64, i64)|
            is_header(f, h) && #[trigger] loop_range(f, h, loop_body(f, h), at, range) && range.0
                >= lo && range.1 <= hi && index_guarded(f, h, at, c);
        let (k, init, bound, step) = choose|k: int, init: i64, bound: (i64, LoopDir), step: i64|
            #[trigger]
            has_loop_range(f, h, loop_body(f, h), at, range, k, init, bound, step);
        let l = linear_of(f, at, depth(f))->0;
        let x = lemma_counts(f, w, e, h, at, range, k, init, bound, step);
        guarded_counters_are_within_bounds(f, h, l.base, w, init, bound, step, x);
        let t = choose|t: nat| #[trigger] counter_takes(init, bound, step, t, env(l.base));
        counter_stays_in_range(init, bound.0, bound.1, step, t);
        let r = counter_range(init, bound.0, bound.1, step)->0;
        image_covers(l.scale, l.offset, r.0, r.1, env(l.base));
        linear_form_holds(f, at, depth(f), env);
    }
}

/// The range of a counter is known wherever it goes towards its bound and the way
/// is not too long, and it is tight: the ends are the first value and the last
/// that does not pass the bound.
pub proof fn counter_ranges_are_tight(init: i64, bound: i64, dir: LoopDir, step: i64)
    ensures
        dir == LoopDir::Ascending ==> (counter_range(init, bound, dir, step) is Some <==> 0 < step && 0
            <= bound - init <= i64::MAX),
        dir == LoopDir::Descending ==> (counter_range(init, bound, dir, step) is Some <==> i64::MIN < step
            < 0 && 0 <= init - bound <= i64::MAX),
        counter_range(init, bound, dir, step) matches Some(r) ==> {
            let first = if dir == LoopDir::Ascending {
                r.0
            } else {
                r.1
            };
            let last = if dir == LoopDir::Ascending {
                r.1
            } else {
                r.0
            };
            &&& first == init
            &&& exists|n: nat| last == init + #[trigger] (n * step)
            &&& dir == LoopDir::Ascending ==> last <= bound < last + step
            &&& dir == LoopDir::Descending ==> last + step < bound <= last
        },
{
    if let Some(r) = counter_range(init, bound, dir, step) {
        let s = step as int;
        match dir {
            LoopDir::Ascending => {
                let d = bound - init;
                let n = d / s;
                assert(0 <= n && n * s <= d < n * s + s) by (nonlinear_arith)
                    requires
                        s > 0,
                        d >= 0,
                        n == d / s,
                ;
                assert(r.1 == init + (n as nat) * step);
            },
            LoopDir::Descending => {
                let d = init - bound;
                let n = d / -s;
                assert(0 <= n && n * -s <= d < n * -s + -s && n * -s == -(n * s)) by (nonlinear_arith)
                    requires
                        s < 0,
                        d >= 0,
                        n == d / -s,
                ;
                assert(r.0 == init + (n as nat) * step);
            },
        }
    }
}

/// The range of a linear function of a counter has the values at the ends as its
/// ends.
pub proof fn images_are_tight(scale: i64, offset: i64, lo: int, hi: int)
    requires
        image(scale, offset, lo, hi) is Some,
    ensures
        ({
            let r = image(scale, offset, lo, hi)->0;
            let x = scale * lo + offset;
            let y = scale * hi + offset;
            (r.0 == x && r.1 == y) || (r.0 == y && r.1 == x)
        }),
{
}

/// A comparison for at most or at least bounds a counter on either side of it, and
/// a constant is known as such.
pub proof fn bounds_and_constants_are_found(f: FuncView, i: InstView, v: ValueId, c: i128, w: IntWidth)
    ensures
        (i.kind.op == Op::ICmp(CmpOp::Le) || i.kind.op == Op::ICmp(CmpOp::Ge)) && (i.kind.args[0] == v
            || i.kind.args[1] == v) ==> compared_bound(i, v) is Some,
        inst_at(f, v) is Some && (inst_at(f, v)->0).kind.op == Op::ConstInt(c, w) && i64::MIN <= sext(c, w)
            <= i64::MAX ==> scalar(f, v) == Some(sext(c, w) as i64),
{
    reveal(scalar);
    reveal(conversion_of);
    if inst_at(f, v) is Some && (inst_at(f, v)->0).kind.op == Op::ConstInt(c, w) {
        lemma_first_inst(insts_of(f), v);
        assert(depth(f) > 0);
    }
}

/// Where a counter's next value is the counter with a constant added or taken off,
/// that is its step.
pub proof fn additions_are_steps(f: FuncView, v: ValueId, next: ValueId, a: ValueId, b: ValueId)
    requires
        stripped(f, next, depth(f)) == next,
        next != v,
        inst_at(f, next) is Some,
        (inst_at(f, next)->0).kind.args == seq![a, b],
    ensures
        (inst_at(f, next)->0).kind.op is IAdd && a == v ==> step_between(f, v, next) == scalar(f, b),
        (inst_at(f, next)->0).kind.op is IAdd && b == v && a != v ==> step_between(f, v, next) == scalar(
            f,
            a,
        ),
        (inst_at(f, next)->0).kind.op is ISub && a == v && scalar(f, b) is Some && scalar(f, b)->0
            > i64::MIN ==> step_between(f, v, next) == Some((-(scalar(f, b)->0)) as i64),
{
    reveal(arith_of);
}

} // verus!
