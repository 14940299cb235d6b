//! Reassociated sums have their value, where arithmetic is exact.

use crate::ir::inst::{
    block_pos, has_block, lemma_block_pos, BlockId, BlockView, FuncView, InstView, Op, ValueId,
};
use crate::ir::types::{FloatWidth, IrType};
use crate::opt::fast_math::{
    block_plans, combined, const_of, defines_first, known, lemma_survivors_exist, negated, net,
    plans_upto, repeated, same_upto, settled, settled_map, sum_at, sum_of, survivors, total,
    verdict, with_const, with_plan, with_plans, with_sum, Progress, RewritePlan, Sum, Verdict,
};
use crate::opt::floats::{answer, is_zero, FloatBin, FloatReply, FloatRequest};
use crate::opt::insts::{insts_of, last_inst, lemma_last_inst};
use vstd::prelude::*;

verus! {

/// Numbers that bits stand for.
pub type Numbers = spec_fn(u64) -> int;

/// Does the evaluator add, subtract and round without error?
pub open spec fn exact<E: Fn(FloatRequest) -> FloatReply>(e: E, num: Numbers) -> bool {
    &&& forall|x: u64, y: u64|
        #[trigger] answer(e, FloatRequest::Binary(FloatBin::Add, x, y)) matches FloatReply::Bits(z)
            ==> num(z) == num(x) + num(y)
    &&& forall|x: u64, y: u64|
        #[trigger] answer(e, FloatRequest::Binary(FloatBin::Sub, x, y)) matches FloatReply::Bits(z)
            ==> num(z) == num(x) - num(y)
    &&& forall|x: u64|
        #[trigger] answer(e, FloatRequest::Round(x)) matches FloatReply::Bits(z) ==> num(z) == num(x)
    &&& num(0) == 0
    &&& num(0x8000_0000_0000_0000) == 0
}

/// Does an instruction hold of the values of a run, as far as sums go?
pub open spec fn sum_holds(num: Numbers, i: InstView, env: spec_fn(ValueId) -> int) -> bool {
    match i.kind.op {
        Op::ConstFloat(b, _) => env(i.id) == num(b),
        Op::FAdd => env(i.id) == env(i.kind.args[0]) + env(i.kind.args[1]),
        Op::FSub => env(i.id) == env(i.kind.args[0]) - env(i.kind.args[1]),
        _ => true,
    }
}

/// Do all instructions of a function hold, as far as sums go?
pub open spec fn sums_hold(num: Numbers, f: FuncView, env: spec_fn(ValueId) -> int) -> bool {
    forall|k: int| 0 <= k < insts_of(f).len() ==> sum_holds(num, #[trigger] insts_of(f)[k], env)
}

/// What terms add up to.
pub open spec fn signed(num: Numbers, terms: Seq<(u64, bool)>) -> int
    decreases terms.len(),
{
    if terms.len() == 0 {
        0
    } else {
        signed(num, terms.drop_last()) + if terms.last().1 {
            -num(terms.last().0)
        } else {
            num(terms.last().0)
        }
    }
}

proof fn lemma_signed_concat(num: Numbers, a: Seq<(u64, bool)>, b: Seq<(u64, bool)>)
    ensures
        signed(num, a + b) == signed(num, a) + signed(num, b),
    decreases b.len(),
{
    if b.len() == 0 {
        assert(a + b =~= a);
    } else {
        lemma_signed_concat(num, a, b.drop_last());
        assert((a + b).drop_last() =~= a + b.drop_last());
        assert((a + b).last() == b.last());
    }
}

proof fn lemma_signed_negated(num: Numbers, a: Seq<(u64, bool)>)
    ensures
        signed(num, negated(a)) == -signed(num, a),
    decreases a.len(),
{
    if a.len() > 0 {
        lemma_signed_negated(num, a.drop_last());
        assert(negated(a).drop_last() =~= negated(a.drop_last()));
        assert(negated(a).last() == (a.last().0, !a.last().1));
    }
}

/// The value of a sum in a run.
pub open spec fn sum_value(num: Numbers, s: Sum, env: spec_fn(ValueId) -> int) -> int {
    signed(num, s.terms) + match s.base {
        Some(v) => env(v),
        None => 0,
    }
}

proof fn lemma_const<E: Fn(FloatRequest) -> FloatReply>(
    e: E,
    num: Numbers,
    f: FuncView,
    v: ValueId,
    w: FloatWidth,
    env: spec_fn(ValueId) -> int,
)
    requires
        exact(e, num),
        sums_hold(num, f, env),
        const_of(e, f, v, w) is Some,
    ensures
        env(v) == num(const_of(e, f, v, w)->0),
{
    let i = last_inst(insts_of(f), v)->0;
    lemma_last_inst(insts_of(f), v);
    let k = insts_of(f).index_of(i);
    assert(insts_of(f)[k] == i);
    assert(sum_holds(num, insts_of(f)[k], env));
}

/// A value is the sum that it is read as, where arithmetic is exact.
proof fn lemma_sum_at<E: Fn(FloatRequest) -> FloatReply>(
    e: E,
    num: Numbers,
    f: FuncView,
    v: ValueId,
    w: FloatWidth,
    fuel: nat,
    env: spec_fn(ValueId) -> int,
)
    requires
        exact(e, num),
        sums_hold(num, f, env),
        sum_at(e, f, v, w, fuel) is Some,
    ensures
        env(v) == sum_value(num, sum_at(e, f, v, w, fuel)->0, env),
    decreases fuel,
{
    if const_of(e, f, v, w) is Some {
        lemma_const(e, num, f, v, w, env);
        let t = seq![(const_of(e, f, v, w)->0, false)];
        assert(t.drop_last() =~= Seq::<(u64, bool)>::empty());
        assert(signed(num, t.drop_last()) == 0);
    } else if last_inst(insts_of(f), v) is Some {
        let i = last_inst(insts_of(f), v)->0;
        lemma_last_inst(insts_of(f), v);
        let k = insts_of(f).index_of(i);
        assert(insts_of(f)[k] == i);
        assert(sum_holds(num, insts_of(f)[k], env));
        let less = (fuel - 1) as nat;
        if i.ty == IrType::Float(w) && (i.kind.op is FAdd || i.kind.op is FSub) {
            lemma_sum_at(e, num, f, i.kind.args[0], w, less, env);
            lemma_sum_at(e, num, f, i.kind.args[1], w, less, env);
            let x = sum_at(e, f, i.kind.args[0], w, less)->0;
            let y = sum_at(e, f, i.kind.args[1], w, less)->0;
            lemma_signed_concat(num, x.terms, y.terms);
            lemma_signed_concat(num, x.terms, negated(y.terms));
            lemma_signed_negated(num, y.terms);
        }
    }
}

/// The terms but for one constant.
spec fn but_for(terms: Seq<(u64, bool)>, c: u64) -> Seq<(u64, bool)>
    decreases terms.len(),
{
    if terms.len() == 0 {
        Seq::empty()
    } else if terms.last().0 == c {
        but_for(terms.drop_last(), c)
    } else {
        but_for(terms.drop_last(), c).push(terms.last())
    }
}

proof fn lemma_but_for(num: Numbers, terms: Seq<(u64, bool)>, c: u64)
    ensures
        signed(num, terms) == signed(num, but_for(terms, c)) + net(terms, c) * num(c),
        but_for(terms, c).len() <= terms.len(),
        terms.len() > 0 && terms.last().0 == c ==> but_for(terms, c).len() < terms.len(),
        forall|d: u64| d != c ==> #[trigger] net(but_for(terms, c), d) == net(terms, d),
        net(but_for(terms, c), c) == 0,
    decreases terms.len(),
{
    if terms.len() > 0 {
        let t = terms.drop_last();
        lemma_but_for(num, t, c);
        let n = num(c);
        let k = net(t, c);
        assert((k + 1) * n == k * n + n) by (nonlinear_arith);
        assert((k - 1) * n == k * n - n) by (nonlinear_arith);
        if terms.last().0 != c {
            let b = but_for(t, c);
            let p = b.push(terms.last());
            assert(p.drop_last() =~= b);
            assert(p.last() == terms.last());
        }
        assert forall|d: u64| d != c implies #[trigger] net(but_for(terms, c), d) == net(terms, d) by {
            assert(net(but_for(t, c), d) == net(t, d));
        }
    } else {
        assert(0 * num(c) == 0) by (nonlinear_arith);
    }
}

/// What the first `n` of the constants add up to, each as often as it counts.
spec fn weighted(num: Numbers, terms: Seq<(u64, bool)>, s: Seq<u64>, n: nat) -> int
    decreases n,
{
    if n == 0 {
        0
    } else {
        weighted(num, terms, s, (n - 1) as nat) + net(terms, s[n - 1]) * num(s[n - 1])
    }
}

proof fn lemma_weighted_same(
    num: Numbers,
    a: Seq<(u64, bool)>,
    b: Seq<(u64, bool)>,
    s: Seq<u64>,
    t: Seq<u64>,
    n: nat,
)
    requires
        n <= s.len(),
        n <= t.len(),
        forall|i: int| 0 <= i < n ==> #[trigger] s[i] == t[i] && net(a, s[i]) == net(b, s[i]),
    ensures
        weighted(num, a, s, n) == weighted(num, b, t, n),
    decreases n,
{
    if n > 0 {
        lemma_weighted_same(num, a, b, s, t, (n - 1) as nat);
        assert(s[n - 1] == t[n - 1] && net(a, s[n - 1]) == net(b, s[n - 1]));
    }
}

proof fn lemma_weighted(num: Numbers, terms: Seq<(u64, bool)>, s: Seq<u64>)
    requires
        forall|i: int, j: int| 0 <= i < j < s.len() ==> #[trigger] s[i] != #[trigger] s[j],
        forall|c: u64| #[trigger] s.contains(c) == (net(terms, c) != 0),
    ensures
        signed(num, terms) == weighted(num, terms, s, s.len()),
    decreases s.len(), terms.len(),
{
    if s.len() > 0 {
        let c = s.last();
        let t = s.drop_last();
        let b = but_for(terms, c);
        lemma_but_for(num, terms, c);
        assert forall|d: u64| #[trigger] t.contains(d) == (net(b, d) != 0) by {
            if t.contains(d) {
                let i = t.index_of(d);
                assert(s[i] == d);
                assert(s.contains(d));
                assert(s[i] != s[s.len() - 1]);
            }
            if net(b, d) != 0 {
                assert(d != c);
                assert(net(terms, d) != 0);
                assert(s.contains(d));
                let i = s.index_of(d);
                assert(i < s.len() - 1);
                assert(t[i] == d);
            }
        }
        assert forall|i: int, j: int| 0 <= i < j < t.len() implies #[trigger] t[i] != #[trigger] t[j] by {
            assert(s[i] != s[j]);
        }
        lemma_weighted(num, b, t);
        assert forall|i: int| 0 <= i < t.len() implies #[trigger] t[i] == s[i] && net(b, t[i]) == net(
            terms,
            t[i],
        ) by {
            assert(s[i] != s[s.len() - 1]);
        }
        lemma_weighted_same(num, b, terms, t, s, t.len());
    } else if terms.len() > 0 {
        let c = terms.last().0;
        let b = but_for(terms, c);
        lemma_but_for(num, terms, c);
        assert(!s.contains(c));
        assert(net(terms, c) == 0);
        assert(0 * num(c) == 0) by (nonlinear_arith);
        assert forall|d: u64| #[trigger] s.contains(d) == (net(b, d) != 0) by {
            assert(!s.contains(d));
            assert(net(terms, d) == 0);
        }
        lemma_weighted(num, b, s);
        lemma_weighted_same(num, b, terms, s, s, 0);
    }
}

proof fn lemma_repeated<E: Fn(FloatRequest) -> FloatReply>(
    e: E,
    num: Numbers,
    start: Option<u64>,
    c: u64,
    op: FloatBin,
    n: nat,
)
    requires
        exact(e, num),
        op == FloatBin::Add || op == FloatBin::Sub,
        repeated(e, start, c, op, n) is Some,
    ensures
        start is Some,
        op == FloatBin::Add ==> num(repeated(e, start, c, op, n)->0) == num(start->0) + n * num(c),
        op == FloatBin::Sub ==> num(repeated(e, start, c, op, n)->0) == num(start->0) - n * num(c),
    decreases n,
{
    let k = num(c);
    if n > 0 {
        lemma_repeated(e, num, start, c, op, (n - 1) as nat);
        let m = n - 1;
        assert((m + 1) * k == m * k + k) by (nonlinear_arith);
    } else {
        assert(0 * k == 0) by (nonlinear_arith);
    }
}

proof fn lemma_total<E: Fn(FloatRequest) -> FloatReply>(
    e: E,
    num: Numbers,
    terms: Seq<(u64, bool)>,
    s: Seq<u64>,
    n: nat,
)
    requires
        exact(e, num),
        n <= s.len(),
        total(e, terms, s, n) is Some,
    ensures
        num(total(e, terms, s, n)->0) == weighted(num, terms, s, n),
    decreases n,
{
    if n > 0 {
        let c = s[n - 1];
        let count = net(terms, c);
        let before = total(e, terms, s, (n - 1) as nat);
        if count > 0 {
            lemma_repeated(e, num, before, c, FloatBin::Add, count as nat);
        } else {
            lemma_repeated(e, num, before, c, FloatBin::Sub, (-count) as nat);
            let k = num(c);
            assert((-count) * k == -(count * k)) by (nonlinear_arith);
        }
        lemma_total(e, num, terms, s, (n - 1) as nat);
    }
}

/// The constants of a sum are combined to what they add up to, where arithmetic
/// is exact.
pub proof fn constants_are_added_up<E: Fn(FloatRequest) -> FloatReply>(
    e: E,
    num: Numbers,
    terms: Seq<(u64, bool)>,
    w: FloatWidth,
)
    requires
        exact(e, num),
        combined(e, terms, w) is Some,
    ensures
        num(combined(e, terms, w)->0) == signed(num, terms),
{
    let t = lemma_survivors_exist(terms, terms.len());
    let s = choose|s: Seq<u64>| survivors(terms, s);
    lemma_total(e, num, terms, s, s.len());
    assert forall|i: int, j: int| 0 <= i < j < s.len() implies #[trigger] s[i] != #[trigger] s[j] by {
        assert(crate::opt::floats::comes_before(s[i], s[j]));
    }
    lemma_weighted(num, terms, s);
}

/// What becomes of a sum has its value, where arithmetic is exact: the value that
/// it is said to be the same as, or the value and the constant that it is said to
/// be the sum of.
pub proof fn reassociated_sums_have_their_value<E: Fn(FloatRequest) -> FloatReply>(
    e: E,
    num: Numbers,
    f: FuncView,
    i: InstView,
    env: spec_fn(ValueId) -> int,
)
    requires
        exact(e, num),
        sums_hold(num, f, env),
    ensures
        verdict(e, f, i) matches Verdict::Same(base) ==> env(i.id) == env(base),
        verdict(e, f, i) matches Verdict::Plus(base, c, _) ==> env(i.id) == env(base) + num(c),
        !(i.kind.op is FAdd || i.kind.op is FSub) ==> verdict(e, f, i) == Verdict::Keep,
{
    reveal(verdict);
    if let IrType::Float(w) = i.ty {
        if let Some(s) = sum_of(e, f, i.id, w) {
            lemma_sum_at(e, num, f, i.id, w, insts_of(f).len() + 1, env);
            if let Some(x) = combined(e, s.terms, w) {
                constants_are_added_up(e, num, s.terms, w);
                assert(is_zero(x) ==> x == 0 || x == 0x8000_0000_0000_0000);
            }
        }
    }
}

/// Do all instructions of blocks hold, as far as sums go?
spec fn blocks_hold(num: Numbers, blocks: Seq<BlockView>, env: spec_fn(ValueId) -> int) -> bool {
    forall|b: int, k: int|
        0 <= b < blocks.len() && 0 <= k < blocks[b].insts.len() ==> sum_holds(
            num,
            #[trigger] blocks[b].insts[k],
            env,
        )
}

/// Have the constants that were put in front of a function their values?
pub open spec fn cache_holds(
    num: Numbers,
    cache: Seq<(FloatWidth, u64, ValueId)>,
    env: spec_fn(ValueId) -> int,
) -> bool {
    forall|k: int| 0 <= k < cache.len() ==> env((#[trigger] cache[k]).2) == num(cache[k].1)
}

proof fn lemma_cached(
    num: Numbers,
    cache: Seq<(FloatWidth, u64, ValueId)>,
    w: FloatWidth,
    c: u64,
    env: spec_fn(ValueId) -> int,
)
    requires
        cache_holds(num, cache, env),
        known(cache, w, c) is Some,
    ensures
        env(known(cache, w, c)->0) == num(c),
    decreases cache.len(),
{
    let last = cache[cache.len() - 1];
    assert(cache.last() == last);
    if !(last.0 == w && last.1 == c) {
        let t = cache.drop_last();
        assert forall|k: int| 0 <= k < t.len() implies env((#[trigger] t[k]).2) == num(t[k].1) by {
            assert(t[k] == cache[k]);
        }
        lemma_cached(num, t, w, c, env);
    } else {
        assert(env(cache[cache.len() - 1].2) == num(c));
    }
}

proof fn lemma_with_const(
    num: Numbers,
    p: Progress,
    w: FloatWidth,
    c: u64,
    span: crate::lexer::Span,
    env: spec_fn(ValueId) -> int,
)
    requires
        has_block(p.f.blocks, p.f.entry),
        blocks_hold(num, p.f.blocks, env),
        cache_holds(num, with_const(p, w, c, span).cache, env),
    ensures
        blocks_hold(num, with_const(p, w, c, span).f.blocks, env),
        known(with_const(p, w, c, span).cache, w, c) is Some,
        env(known(with_const(p, w, c, span).cache, w, c)->0) == num(c),
        with_const(p, w, c, span).f.blocks.len() == p.f.blocks.len(),
        with_const(p, w, c, span).f.entry == p.f.entry,
        forall|b: int|
            0 <= b < p.f.blocks.len() ==> (#[trigger] with_const(p, w, c, span).f.blocks[b]).id
                == p.f.blocks[b].id,
{
    let q = with_const(p, w, c, span);
    lemma_block_pos(p.f.blocks, p.f.entry);
    if known(p.cache, w, c) is None {
        let at = block_pos(p.f.blocks, p.f.entry);
        let id = ValueId(p.f.next_value);
        let last = q.cache[q.cache.len() - 1];
        assert(q.cache.last() == last);
        assert(last == (w, c, id));
        assert(env(last.2) == num(last.1));
        assert forall|b: int, k: int|
            0 <= b < q.f.blocks.len() && 0 <= k < q.f.blocks[b].insts.len() implies sum_holds(
            num,
            #[trigger] q.f.blocks[b].insts[k],
            env,
        ) by {
            if b == at {
                if k > 0 {
                    assert(q.f.blocks[b].insts[k] == p.f.blocks[b].insts[k - 1]);
                }
            } else {
                assert(q.f.blocks[b] == p.f.blocks[b]);
                assert(sum_holds(num, p.f.blocks[b].insts[k], env));
            }
        }
    }
    lemma_cached(num, q.cache, w, c, env);
}

proof fn lemma_with_plan(
    num: Numbers,
    p: Progress,
    plan: RewritePlan,
    env: spec_fn(ValueId) -> int,
)
    requires
        has_block(p.f.blocks, p.f.entry),
        has_block(p.f.blocks, plan.block),
        blocks_hold(num, p.f.blocks, env),
        cache_holds(num, with_plan(p, plan).cache, env),
        env(plan.inst) == env(plan.base) + num(plan.constant),
    ensures
        blocks_hold(num, with_plan(p, plan).f.blocks, env),
        with_plan(p, plan).f.blocks.len() == p.f.blocks.len(),
        with_plan(p, plan).f.entry == p.f.entry,
        forall|b: int|
            0 <= b < p.f.blocks.len() ==> (#[trigger] with_plan(p, plan).f.blocks[b]).id
                == p.f.blocks[b].id,
{
    let q = with_const(p, plan.width, plan.constant, plan.span);
    lemma_with_const(num, p, plan.width, plan.constant, plan.span, env);
    let c = known(q.cache, plan.width, plan.constant)->0;
    lemma_same_blocks(p.f.blocks, q.f.blocks, plan.block);
    lemma_block_pos(q.f.blocks, plan.block);
    let at = block_pos(q.f.blocks, plan.block);
    let b0 = q.f.blocks[at];
    let r = with_plan(p, plan);
    let t = with_sum(b0.insts, plan.inst, plan.base, c);
    assert forall|k: int| 0 <= k < t.len() implies sum_holds(num, #[trigger] t[k], env) by {
        if exists|j: int| defines_first(b0.insts, plan.inst, j) {
            let j = choose|j: int| defines_first(b0.insts, plan.inst, j);
            if k != j {
                assert(t[k] == b0.insts[k]);
            }
        }
    }
    assert forall|b: int, k: int|
        0 <= b < r.f.blocks.len() && 0 <= k < r.f.blocks[b].insts.len() implies sum_holds(
        num,
        #[trigger] r.f.blocks[b].insts[k],
        env,
    ) by {
        if b != at {
            assert(r.f.blocks[b] == q.f.blocks[b]);
            assert(sum_holds(num, q.f.blocks[b].insts[k], env));
        } else {
            assert(r.f.blocks[b].insts[k] == t[k]);
        }
    }
    assert forall|b: int| 0 <= b < p.f.blocks.len() implies (#[trigger] r.f.blocks[b]).id
        == p.f.blocks[b].id by {
        assert(q.f.blocks[b].id == p.f.blocks[b].id);
    }
}

proof fn lemma_same_blocks(a: Seq<BlockView>, b: Seq<BlockView>, id: BlockId)
    requires
        a.len() == b.len(),
        forall|i: int| 0 <= i < a.len() ==> (#[trigger] b[i]).id == a[i].id,
        has_block(a, id),
    ensures
        has_block(b, id),
{
    lemma_block_pos(a, id);
    let p = block_pos(a, id);
    assert(b[p].id == id);
}

proof fn lemma_with_plans(
    num: Numbers,
    f: FuncView,
    plans: Seq<RewritePlan>,
    n: nat,
    env: spec_fn(ValueId) -> int,
)
    requires
        n <= plans.len(),
        has_block(f.blocks, f.entry),
        blocks_hold(num, f.blocks, env),
        cache_holds(num, with_plans(f, plans, n).cache, env),
        forall|k: int|
            0 <= k < plans.len() ==> has_block(f.blocks, (#[trigger] plans[k]).block) && env(
                plans[k].inst,
            ) == env(plans[k].base) + num(plans[k].constant),
    ensures
        blocks_hold(num, with_plans(f, plans, n).f.blocks, env),
        with_plans(f, plans, n).f.blocks.len() == f.blocks.len(),
        with_plans(f, plans, n).f.entry == f.entry,
        forall|b: int|
            0 <= b < f.blocks.len() ==> (#[trigger] with_plans(f, plans, n).f.blocks[b]).id
                == f.blocks[b].id,
    decreases n,
{
    if n > 0 {
        let p = with_plans(f, plans, (n - 1) as nat);
        let plan = plans[n - 1];
        let r = with_plan(p, plan);
        assert(cache_holds(num, p.cache, env)) by {
            assert forall|k: int| 0 <= k < p.cache.len() implies env((#[trigger] p.cache[k]).2) == num(
                p.cache[k].1,
            ) by {
                assert(r.cache[k] == p.cache[k]);
            }
        }
        lemma_with_plans(num, f, plans, (n - 1) as nat, env);
        lemma_same_blocks(f.blocks, p.f.blocks, f.entry);
        lemma_same_blocks(f.blocks, p.f.blocks, plan.block);
        lemma_with_plan(num, p, plan, env);
        assert forall|b: int| 0 <= b < f.blocks.len() implies (#[trigger] with_plans(f, plans, n).f.blocks[b]).id
            == f.blocks[b].id by {
            assert(p.f.blocks[b].id == f.blocks[b].id);
        }
    }
}

/// Is a change one that keeps the value of the instruction that it changes?
spec fn plan_holds(num: Numbers, f: FuncView, plan: RewritePlan, env: spec_fn(ValueId) -> int) -> bool {
    has_block(f.blocks, plan.block) && env(plan.inst) == env(plan.base) + num(plan.constant)
}

proof fn lemma_block_plans<E: Fn(FloatRequest) -> FloatReply>(
    e: E,
    num: Numbers,
    f: FuncView,
    b: int,
    n: nat,
    env: spec_fn(ValueId) -> int,
)
    requires
        exact(e, num),
        sums_hold(num, f, env),
        0 <= b < f.blocks.len(),
        n <= f.blocks[b].insts.len(),
    ensures
        forall|k: int|
            0 <= k < block_plans(e, f, f.blocks[b], n).len() ==> plan_holds(
                num,
                f,
                #[trigger] block_plans(e, f, f.blocks[b], n)[k],
                env,
            ),
    decreases n,
{
    if n > 0 {
        lemma_block_plans(e, num, f, b, (n - 1) as nat, env);
        let i = f.blocks[b].insts[n - 1];
        reassociated_sums_have_their_value(e, num, f, i, env);
        let before = block_plans(e, f, f.blocks[b], (n - 1) as nat);
        let now = block_plans(e, f, f.blocks[b], n);
        assert(has_block(f.blocks, f.blocks[b].id));
        assert forall|k: int| 0 <= k < now.len() implies plan_holds(num, f, #[trigger] now[k], env) by {
            if k < before.len() {
                assert(now[k] == before[k]);
            }
        }
    }
}

proof fn lemma_plans<E: Fn(FloatRequest) -> FloatReply>(
    e: E,
    num: Numbers,
    f: FuncView,
    n: nat,
    env: spec_fn(ValueId) -> int,
)
    requires
        exact(e, num),
        sums_hold(num, f, env),
        n <= f.blocks.len(),
    ensures
        forall|k: int|
            0 <= k < plans_upto(e, f, n).len() ==> plan_holds(
                num,
                f,
                #[trigger] plans_upto(e, f, n)[k],
                env,
            ),
    decreases n,
{
    if n > 0 {
        lemma_plans(e, num, f, (n - 1) as nat, env);
        lemma_block_plans(e, num, f, n - 1, f.blocks[n - 1].insts.len(), env);
        let before = plans_upto(e, f, (n - 1) as nat);
        let more = block_plans(e, f, f.blocks[n - 1], f.blocks[n - 1].insts.len());
        let now = plans_upto(e, f, n);
        assert forall|k: int| 0 <= k < now.len() implies plan_holds(num, f, #[trigger] now[k], env) by {
            if k < before.len() {
                assert(now[k] == before[k]);
            } else {
                assert(now[k] == more[k - before.len()]);
            }
        }
    }
}

/// The instructions of a function whose sums were changed hold of the values that
/// those of the function hold of, where arithmetic is exact and the new constants
/// have their values.
pub proof fn changed_sums_hold<E: Fn(FloatRequest) -> FloatReply>(
    e: E,
    num: Numbers,
    f: FuncView,
    env: spec_fn(ValueId) -> int,
    b: int,
    k: int,
)
    requires
        exact(e, num),
        sums_hold(num, f, env),
        has_block(f.blocks, f.entry),
        ({
            let plans = plans_upto(e, f, f.blocks.len());
            let g = with_plans(f, plans, plans.len());
            &&& cache_holds(num, g.cache, env)
            &&& 0 <= b < g.f.blocks.len()
            &&& 0 <= k < g.f.blocks[b].insts.len()
        }),
    ensures
        ({
            let plans = plans_upto(e, f, f.blocks.len());
            sum_holds(num, with_plans(f, plans, plans.len()).f.blocks[b].insts[k], env)
        }),
{
    let plans = plans_upto(e, f, f.blocks.len());
    lemma_plans(e, num, f, f.blocks.len(), env);
    assert(blocks_hold(num, f.blocks, env)) by {
        assert forall|x: int, y: int|
            0 <= x < f.blocks.len() && 0 <= y < f.blocks[x].insts.len() implies sum_holds(
            num,
            #[trigger] f.blocks[x].insts[y],
            env,
        ) by {
            crate::opt::share_meaning::lemma_placed(f.blocks, f.blocks.len(), x, y);
            let p = choose|p: int|
                0 <= p < insts_of(f).len() && #[trigger] insts_of(f)[p] == f.blocks[x].insts[y];
            assert(sum_holds(num, insts_of(f)[p], env));
        }
    }
    assert forall|j: int| 0 <= j < plans.len() implies has_block(f.blocks, (#[trigger] plans[j]).block)
        && env(plans[j].inst) == env(plans[j].base) + num(plans[j].constant) by {
        assert(plan_holds(num, f, plans[j], env));
    }
    lemma_with_plans(num, f, plans, plans.len(), env);
}

proof fn lemma_same<E: Fn(FloatRequest) -> FloatReply>(
    e: E,
    num: Numbers,
    f: FuncView,
    n: nat,
    env: spec_fn(ValueId) -> int,
    v: ValueId,
)
    requires
        exact(e, num),
        sums_hold(num, f, env),
        n <= insts_of(f).len(),
        same_upto(e, f, insts_of(f), n).contains_key(v),
    ensures
        env(v) == env(same_upto(e, f, insts_of(f), n)[v]),
    decreases n,
{
    if n > 0 {
        let i = insts_of(f)[n - 1];
        reassociated_sums_have_their_value(e, num, f, i, env);
        if verdict(e, f, i) is Same && i.id == v {
        } else {
            lemma_same(e, num, f, (n - 1) as nat, env, v);
        }
    }
}

proof fn lemma_settled(m: Map<ValueId, ValueId>, env: spec_fn(ValueId) -> int, v: ValueId, fuel: nat)
    requires
        forall|x: ValueId| #[trigger] m.contains_key(x) ==> env(x) == env(m[x]),
    ensures
        env(settled(m, v, fuel)) == env(v),
    decreases fuel,
{
    if fuel != 0 && m.contains_key(v) && m[v] != v {
        lemma_settled(m, env, m[v], (fuel - 1) as nat);
    }
}

/// What is read instead of a sum has its value, where arithmetic is exact.
pub proof fn replaced_sums_have_their_value<E: Fn(FloatRequest) -> FloatReply>(
    e: E,
    num: Numbers,
    f: FuncView,
    env: spec_fn(ValueId) -> int,
    v: ValueId,
)
    requires
        exact(e, num),
        sums_hold(num, f, env),
        settled_map(same_upto(e, f, insts_of(f), insts_of(f).len())).contains_key(v),
    ensures
        env(v) == env(settled_map(same_upto(e, f, insts_of(f), insts_of(f).len()))[v]),
{
    let m = same_upto(e, f, insts_of(f), insts_of(f).len());
    assert forall|x: ValueId| #[trigger] m.contains_key(x) implies env(x) == env(m[x]) by {
        lemma_same(e, num, f, insts_of(f).len(), env, x);
    }
    lemma_settled(m, env, m[v], m.dom().len() + 1);
}

} // verus!
