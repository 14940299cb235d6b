//! What takes the place of parameters and arguments.

use crate::ir::inst::{FuncView, InstView, ModuleView, Op, ValueId};
use crate::ir::types::IntWidth;
use crate::ir::walk::term_uses;
use crate::lists::masked;
use crate::opt::arith::congruent;
use crate::opt::const_arg::{
    agreed, edits_for, holds_const, is_call_of, loads_from, loads_upto, only_loaded, paired,
    slot_mode, slot_plan, stores_at, value_const, ParamMode, ScalarConst,
};
use crate::opt::const_fold::Const;
use crate::opt::dead_arg::{
    ends_with_value, exposed, inst_passes, is_live, is_slot, kept_args, kept_params,
    lemma_live_step, live_mask, observed_chain, observes_value, passes,
};
use crate::opt::floats::{FloatReply, FloatRequest};
use crate::opt::insts::{insts_of, last_inst, lemma_last_inst};
use crate::opt::meaning::{all_hold, holds};
use vstd::prelude::*;

verus! {

/// Is a value of a run the constant?
pub open spec fn is_value(v: Const, c: ScalarConst) -> bool {
    match (v, c) {
        (Const::Int(x, s), ScalarConst::Int(y, t)) => s == t && congruent(x as int, y as int, t),
        (Const::Float(x, s), ScalarConst::Float(y, t)) => s == t && x == y,
        (Const::Bool(x), ScalarConst::Bool(y)) => x == y,
        _ => false,
    }
}

/// A constant that takes the place of a parameter that is passed by value is what
/// every call of the function passes, in every run; all calls are known, and
/// there is one.
pub proof fn planned_values_are_passed<E: Fn(FloatRequest) -> FloatReply>(
    e: E,
    m: ModuleView,
    f: int,
    p: int,
    c: ScalarConst,
    a: int,
    k: int,
    env: spec_fn(ValueId) -> Const,
)
    requires
        slot_plan(e, m, f, p) == Some((ParamMode::ByValueScalar, c)),
        0 <= a < m.functions.len(),
        0 <= k < insts_of(m.functions[a]).len(),
        insts_of(m.functions[a])[k].kind.op matches Op::CallInternal(callee) && callee == f,
        all_hold(e, m.functions[a], env, true),
    ensures
        m.functions[f].internal_only,
        p < insts_of(m.functions[a])[k].kind.args.len(),
        is_value(env(insts_of(m.functions[a])[k].kind.args[p]), c),
{
    lemma_agreed(e, m, f, p);
    assert(is_call_of(m, a, k, f));
    let arg = insts_of(m.functions[a])[k].kind.args[p];
    lemma_value_const(e, m.functions[a], arg, c, env);
}

proof fn lemma_agreed<E: Fn(FloatRequest) -> FloatReply>(e: E, m: ModuleView, f: int, p: int)
    requires
        slot_plan(e, m, f, p) is Some,
    ensures
        agreed(e, m, f, p, (slot_plan(e, m, f, p)->0).1),
        slot_mode(m, f, p) == Some((slot_plan(e, m, f, p)->0).0),
{
}

proof fn lemma_value_const<E: Fn(FloatRequest) -> FloatReply>(
    e: E,
    f: FuncView,
    v: ValueId,
    c: ScalarConst,
    env: spec_fn(ValueId) -> Const,
)
    requires
        value_const(e, f, v) == Some(c),
        all_hold(e, f, env, true),
    ensures
        is_value(env(v), c),
{
    let i = last_inst(insts_of(f), v)->0;
    lemma_last_inst(insts_of(f), v);
    let k = insts_of(f).index_of(i);
    assert(insts_of(f)[k] == i);
    assert(holds(e, insts_of(f)[k], env, true));
}

/// Is `v` read only as the address of loads?
pub open spec fn only_read_through(f: FuncView, v: ValueId) -> bool {
    &&& forall|k: int|
        0 <= k < insts_of(f).len() && (#[trigger] insts_of(f)[k]).kind.args.contains(v)
            ==> insts_of(f)[k].kind.op is Load && insts_of(f)[k].kind.args[0] == v
    &&& forall|b: int|
        0 <= b < f.blocks.len() ==> !((#[trigger] f.blocks[b]).term matches Some(t) && term_uses(
            t,
        ).contains(v))
}

/// A constant that takes the place of what is loaded through a parameter is what
/// every call leaves behind the pointer that it passes: the parameter is only
/// loaded through, the pointer is a slot of its own, and all that is ever stored
/// to it is the constant, in every run; it goes nowhere but to calls.
pub proof fn planned_slots_hold_the_value<E: Fn(FloatRequest) -> FloatReply>(
    e: E,
    m: ModuleView,
    f: int,
    p: int,
    c: ScalarConst,
    a: int,
    k: int,
    j: int,
    env: spec_fn(ValueId) -> Const,
)
    requires
        slot_plan(e, m, f, p) == Some((ParamMode::ReadOnlyScalarPtr, c)),
        0 <= a < m.functions.len(),
        0 <= k < insts_of(m.functions[a]).len(),
        insts_of(m.functions[a])[k].kind.op matches Op::CallInternal(callee) && callee == f,
        all_hold(e, m.functions[a], env, true),
        0 <= j < insts_of(m.functions[a]).len(),
        p < insts_of(m.functions[a])[k].kind.args.len() && insts_of(m.functions[a])[j].kind.args.contains(
            insts_of(m.functions[a])[k].kind.args[p],
        ),
    ensures
        m.functions[f].internal_only,
        only_read_through(m.functions[f], m.functions[f].params[p].id),
        ({
            let slot = insts_of(m.functions[a])[k].kind.args[p];
            let i = insts_of(m.functions[a])[j];
            &&& last_inst(insts_of(m.functions[a]), slot) matches Some(d) && d.kind.op is Alloca
            &&& i.kind.op is Store && i.kind.args[1] == slot ==> is_value(env(i.kind.args[0]), c)
            &&& !(i.kind.op is Store && i.kind.args[1] == slot) ==> i.kind.op is CallInternal
            &&& i.kind.op matches Op::CallInternal(d) ==> d < m.functions.len() && forall|q: int|
                0 <= q < i.kind.args.len() && #[trigger] i.kind.args[q] == slot ==> q
                    < m.functions[d as int].params.len() && only_read_through(
                    m.functions[d as int],
                    m.functions[d as int].params[q].id,
                )
        }),
{
    lemma_agreed(e, m, f, p);
    assert(is_call_of(m, a, k, f));
    let func = m.functions[a];
    let slot = insts_of(func)[k].kind.args[p];
    let i = insts_of(func)[j];
    assert(holds_const(e, m, func, slot, c));
    lemma_mode(m, f, p);
    if stores_at(i, slot) {
        lemma_value_const(e, func, i.kind.args[0], c, env);
    } else {
        if let Op::CallInternal(d) = i.kind.op {
            let q = i.kind.args.index_of(slot);
            assert(i.kind.args[q] == slot);
            assert forall|q: int| 0 <= q < i.kind.args.len() && #[trigger] i.kind.args[q] == slot implies q
                < m.functions[d as int].params.len() && only_read_through(
                m.functions[d as int],
                m.functions[d as int].params[q].id,
            ) by {
                assert(slot_mode(m, d as int, q) == Some(ParamMode::ReadOnlyScalarPtr));
                lemma_mode(m, d as int, q);
            }
        }
    }
}

proof fn lemma_mode(m: ModuleView, f: int, p: int)
    requires
        slot_mode(m, f, p) is Some,
    ensures
        0 <= f < m.functions.len(),
        0 <= p < m.functions[f].params.len(),
        m.functions[f].internal_only,
        slot_mode(m, f, p) == Some(ParamMode::ReadOnlyScalarPtr) ==> only_read_through(
            m.functions[f],
            m.functions[f].params[p].id,
        ),
{
    let g = m.functions[f];
    if slot_mode(m, f, p) == Some(ParamMode::ReadOnlyScalarPtr) {
        let v = g.params[p].id;
        assert(only_loaded(g, v));
        assert forall|b: int| 0 <= b < g.blocks.len() implies !((#[trigger] g.blocks[b]).term matches Some(t)
            && term_uses(t).contains(v)) by {
            if g.blocks[b].term matches Some(t) && term_uses(t).contains(v) {
                assert(ends_with_value(g, v));
            }
        }
        assert forall|k: int|
            0 <= k < insts_of(g).len() && (#[trigger] insts_of(g)[k]).kind.args.contains(v) implies insts_of(
            g,
        )[k].kind.op is Load && insts_of(g)[k].kind.args[0] == v by {
            assert(loads_from(insts_of(g)[k], v));
        }
    }
}

/// Is `op` the constant?
pub open spec fn makes(op: Op, c: ScalarConst) -> bool {
    match c {
        ScalarConst::Int(v, w) => op == Op::ConstInt(v, w),
        ScalarConst::Float(b, w) => op == Op::ConstFloat(b, w),
        ScalarConst::Bool(b) => op == Op::ConstBool(b),
    }
}

/// Is `v` the parameter, or a load through it, for which the plan has the
/// constant?
pub open spec fn planned_for(
    f: FuncView,
    plan: Seq<Option<(ParamMode, ScalarConst)>>,
    p: int,
    v: ValueId,
    c: ScalarConst,
) -> bool {
    &&& 0 <= p < plan.len()
    &&& plan[p] == Some((ParamMode::ByValueScalar, c)) && v == f.params[p].id || (plan[p] == Some(
        (ParamMode::ReadOnlyScalarPtr, c),
    ) && exists|k: int|
        0 <= k < insts_of(f).len() && (#[trigger] insts_of(f)[k]).id == v && insts_of(f)[k].kind.op is Load
            && insts_of(f)[k].kind.args[0] == f.params[p].id)
}

/// Does instruction `j` of a list define `id` as a constant?
pub open spec fn made_at(consts: Seq<InstView>, j: int, id: ValueId, c: ScalarConst) -> bool {
    0 <= j < consts.len() && consts[j].id == id && makes(consts[j].kind.op, c)
}

proof fn lemma_loads_upto(s: Seq<InstView>, n: nat, v: ValueId, i: int)
    requires
        n <= s.len(),
        0 <= i < loads_upto(s, n, v).len(),
    ensures
        exists|k: int|
            0 <= k < n && (#[trigger] s[k]).id == loads_upto(s, n, v)[i] && s[k].kind.op is Load
                && s[k].kind.args[0] == v,
    decreases n,
{
    if n > 0 {
        if loads_from(s[n - 1], v) && i == loads_upto(s, (n - 1) as nat, v).len() {
            assert(s[n - 1].id == loads_upto(s, n, v)[i]);
        } else {
            lemma_loads_upto(s, (n - 1) as nat, v, i);
            let k = choose|k: int|
                0 <= k < n - 1 && (#[trigger] s[k]).id == loads_upto(s, (n - 1) as nat, v)[i]
                    && s[k].kind.op is Load && s[k].kind.args[0] == v;
            assert(s[k].id == loads_upto(s, n, v)[i]);
        }
    }
}

/// What is read instead of a parameter, or of a load through it, is a new
/// instruction that makes the constant which is planned for that parameter.
pub proof fn substitutes_make_the_constant(
    f: FuncView,
    plan: Seq<Option<(ParamMode, ScalarConst)>>,
    n: nat,
    i: int,
)
    requires
        n <= plan.len(),
        plan.len() == f.params.len(),
        0 <= i < edits_for(f, plan, n).subs.len(),
    ensures
        exists|p: int, c: ScalarConst, j: int| #[trigger]
            planned_for(f, plan, p, edits_for(f, plan, n).subs[i].0, c) && #[trigger] made_at(
                edits_for(f, plan, n).consts,
                j,
                edits_for(f, plan, n).subs[i].1,
                c,
            ),
    decreases n,
{
    if n > 0 {
        let before = edits_for(f, plan, (n - 1) as nat);
        let now = edits_for(f, plan, n);
        if i < before.subs.len() {
            substitutes_make_the_constant(f, plan, (n - 1) as nat, i);
            assert(now.subs[i] == before.subs[i]);
            let (p, c, j) = choose|p: int, c: ScalarConst, j: int| #[trigger]
                planned_for(f, plan, p, before.subs[i].0, c) && #[trigger] made_at(
                    before.consts,
                    j,
                    before.subs[i].1,
                    c,
                );
            assert(now.consts[j] == before.consts[j]);
            assert(planned_for(f, plan, p, now.subs[i].0, c));
            assert(made_at(now.consts, j, now.subs[i].1, c));
        } else {
            let (mode, c) = plan[n - 1]->0;
            let j = before.consts.len() as int;
            let v = now.subs[i].0;
            if mode == ParamMode::ReadOnlyScalarPtr {
                let s = insts_of(f);
                let loads = loads_upto(s, s.len(), f.params[n - 1].id);
                let x = i - before.subs.len();
                assert(now.subs[i] == paired(loads, now.subs[i].1)[x]);
                lemma_loads_upto(s, s.len(), f.params[n - 1].id, x);
            }
            assert(planned_for(f, plan, n - 1, v, c));
            assert(made_at(now.consts, j, now.subs[i].1, c));
        }
    }
}

proof fn lemma_pairs<A, B>(s: Seq<A>, t: Seq<B>, keep: Seq<bool>, j: int) -> (a: int)
    requires
        s.len() == t.len(),
        0 <= j < masked(s, keep).len(),
    ensures
        masked(s, keep).len() == masked(t, keep).len(),
        0 <= a < s.len(),
        masked(s, keep)[j] == s[a],
        masked(t, keep)[j] == t[a],
        keep[a],
    decreases s.len(),
{
    let s0 = s.drop_last();
    let t0 = t.drop_last();
    if keep[s.len() - 1] && j == masked(s0, keep).len() {
        lemma_lens(s0, t0, keep);
        s.len() - 1
    } else {
        let a = lemma_pairs(s0, t0, keep, j);
        assert(s0[a] == s[a] && t0[a] == t[a]);
        a
    }
}

proof fn lemma_lens<A, B>(s: Seq<A>, t: Seq<B>, keep: Seq<bool>)
    requires
        s.len() == t.len(),
    ensures
        masked(s, keep).len() == masked(t, keep).len(),
    decreases s.len(),
{
    if s.len() > 0 {
        lemma_lens(s.drop_last(), t.drop_last(), keep);
    }
}

/// An argument that is kept is handed to the parameter that it was handed to.
pub proof fn arguments_keep_their_parameters(m: ModuleView, c: int, args: Seq<ValueId>, j: int)
    requires
        0 <= c < m.functions.len(),
        m.functions[c].internal_only,
        args.len() == m.functions[c].params.len(),
        0 <= j < kept_args(m, c, args).len(),
    ensures
        kept_params(m, c).len() == kept_args(m, c, args).len(),
        exists|a: int|
            0 <= a < args.len() && #[trigger] args[a] == kept_args(m, c, args)[j]
                && m.functions[c].params[a] == kept_params(m, c)[j],
{
    let mask = live_mask(m, c);
    assert(args.take(args.len() as int) =~= args);
    let a = lemma_pairs(args, m.functions[c].params, mask, j);
    assert(args[a] == kept_args(m, c, args)[j]);
}

/// A parameter that an instruction reads, other than to pass it on to a function
/// of the module, or that a terminator reads, is kept; and so is one that is
/// passed for a parameter that is kept.
pub proof fn read_parameters_are_kept(m: ModuleView, f: int, p: int, k: int, a: int, b: int)
    requires
        0 <= f < m.functions.len(),
        0 <= p < m.functions[f].params.len(),
    ensures
        0 <= k < insts_of(m.functions[f]).len() && !(insts_of(m.functions[f])[k].kind.op is CallInternal)
            && insts_of(m.functions[f])[k].kind.args.contains(m.functions[f].params[p].id) ==> is_live(
            m,
            f,
            p,
        ),
        0 <= b < m.functions[f].blocks.len() && (m.functions[f].blocks[b].term matches Some(t)
            && term_uses(t).contains(m.functions[f].params[p].id)) ==> is_live(m, f, p),
        0 <= k < insts_of(m.functions[f]).len() && (insts_of(m.functions[f])[k].kind.op matches Op::CallInternal(
            c,
        ) && 0 <= a < insts_of(m.functions[f])[k].kind.args.len() && insts_of(m.functions[f])[k].kind.args[a]
            == m.functions[f].params[p].id && (c >= m.functions.len()
            || !m.functions[c as int].internal_only || a >= m.functions[c as int].params.len()
            || is_live(m, c as int, a))) ==> is_live(m, f, p),
{
    lemma_live_step(m, f, p);
    let v = m.functions[f].params[p].id;
    let g = m.functions[f];
    if 0 <= b < g.blocks.len() && (g.blocks[b].term matches Some(t) && term_uses(t).contains(v)) {
        assert(ends_with_value(g, v));
        assert(exposed(m, f, p));
    }
    if 0 <= k < insts_of(g).len() {
        let i = insts_of(g)[k];
        if !(i.kind.op is CallInternal) && i.kind.args.contains(v) {
            assert(observes_value(m, i, v));
            assert(exposed(m, f, p));
        }
        if let Op::CallInternal(c) = i.kind.op {
            if 0 <= a < i.kind.args.len() && i.kind.args[a] == v {
                if !is_slot(m, c as int, a) {
                    assert(observes_value(m, i, v));
                    assert(exposed(m, f, p));
                } else if is_live(m, c as int, a) {
                    assert(crate::opt::dead_arg::inst_passes(m, i, v, c as int, a));
                    assert(crate::opt::dead_arg::passes(m, f, p, c as int, a));
                }
            }
        }
    }
}

/// Functions that may be called from elsewhere keep all parameters.
pub proof fn open_functions_keep_their_parameters(m: ModuleView, f: int)
    requires
        0 <= f < m.functions.len(),
        !m.functions[f].internal_only,
    ensures
        kept_params(m, f) == m.functions[f].params,
{
}

/// Where all calls of a function pass the same constant for a parameter, it is
/// planned to take the parameter's place.
pub proof fn same_constants_are_planned<E: Fn(FloatRequest) -> FloatReply>(
    e: E,
    m: ModuleView,
    f: int,
    p: int,
    c: i128,
    w: IntWidth,
)
    requires
        0 <= f < m.functions.len(),
        0 <= p < m.functions[f].params.len(),
        m.functions[f].internal_only,
        m.functions[f].params[p].ty is Int,
        exists|a: int, k: int| #[trigger] is_call_of(m, a, k, f),
        forall|a: int, k: int| #[trigger]
            is_call_of(m, a, k, f) ==> {
                let args = insts_of(m.functions[a])[k].kind.args;
                p < args.len() && (last_inst(insts_of(m.functions[a]), args[p]) matches Some(i)
                    && i.kind.op == Op::ConstInt(c, w))
            },
    ensures
        slot_plan(e, m, f, p) == Some((ParamMode::ByValueScalar, ScalarConst::Int(c, w))),
{
    let x = ScalarConst::Int(c, w);
    assert(slot_mode(m, f, p) == Some(ParamMode::ByValueScalar));
    assert forall|a: int, k: int| #[trigger] is_call_of(m, a, k, f) implies value_const(
        e,
        m.functions[a],
        insts_of(m.functions[a])[k].kind.args[p],
    ) == Some(x) by {}
    assert(agreed(e, m, f, p, x));
    let (a, k) = choose|a: int, k: int| #[trigger] is_call_of(m, a, k, f);
    assert forall|y: ScalarConst| agreed(e, m, f, p, y) implies y == x by {
        assert(is_call_of(m, a, k, f));
    }
}

/// A parameter that nothing in its function reads is not live.
pub proof fn unread_parameters_are_dropped(m: ModuleView, f: int, p: int)
    requires
        0 <= f < m.functions.len(),
        0 <= p < m.functions[f].params.len(),
        forall|k: int|
            0 <= k < insts_of(m.functions[f]).len() ==> !(#[trigger] insts_of(
                m.functions[f],
            )[k]).kind.args.contains(m.functions[f].params[p].id),
        forall|b: int|
            0 <= b < m.functions[f].blocks.len() ==> !((#[trigger] m.functions[f].blocks[b]).term matches Some(
                t,
            ) && term_uses(t).contains(m.functions[f].params[p].id)),
    ensures
        !is_live(m, f, p),
{
    let v = m.functions[f].params[p].id;
    if is_live(m, f, p) {
        let q = choose|q: Seq<(int, int)>| #[trigger] observed_chain(m, q) && q[0] == (f, p);
        if q.len() > 1 {
            assert(passes(m, q[0].0, q[0].1, q[0int + 1].0, q[0int + 1].1));
            let k = choose|k: int|
                0 <= k < insts_of(m.functions[f]).len() && inst_passes(
                    m,
                    #[trigger] insts_of(m.functions[f])[k],
                    v,
                    q[1].0,
                    q[1].1,
                );
            assert(insts_of(m.functions[f])[k].kind.args[q[1].1] == v);
        } else {
            assert(exposed(m, f, p));
            if !ends_with_value(m.functions[f], v) {
                let k = choose|k: int|
                    0 <= k < insts_of(m.functions[f]).len() && observes_value(
                        m,
                        #[trigger] insts_of(m.functions[f])[k],
                        v,
                    );
                assert(!insts_of(m.functions[f])[k].kind.args.contains(v));
            }
        }
    }
}

} // verus!
