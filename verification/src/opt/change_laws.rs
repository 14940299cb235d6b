//! What passes leave alone, and that they tell truly whether they changed
//! anything.

use crate::ir::inst::{FuncView, InstView, ModuleView, Op, RuntimeFunc};
use crate::lists::lemma_masked_len;
use crate::opt::bce::{needless, unchecked_func};
use crate::opt::call_resolve::{
    block_resolves, func_resolves, module_resolves, resolved_inst, resolved_op, CallResolve,
};
use crate::opt::const_arg::{func_plan, is_plan, ConstArgSpecialize};
use crate::opt::const_prop::ConstProp;
use crate::opt::cse::{environment_unsure, repeats, LocalCse};
use crate::opt::dce::kept_values;
use crate::opt::dead_arg::{is_live, is_slot, kept_params, live_mask, DeadArgElim};
use crate::opt::dead_func::{
    calls_name, is_called, is_called_by_name, is_kept, kept_mask, DeadFuncElim,
};
use crate::opt::dse::{
    any_dead_store, dead_store, has_dead_store, live_mask as stores_left, stored_func, Dse,
};
use crate::opt::fission::{fissioned, LoopFission};
use crate::opt::floats::{FloatReply, FloatRequest};
use crate::opt::fpenv::{calls_internal, holds_op, is_barrier, may_enter};
use crate::opt::insts::insts_of;
use crate::opt::pass::Pass;
use crate::opt::share_meaning::meets_environment;
use vstd::prelude::*;

verus! {

/// Dead-store elimination tells of a change exactly where it made one.
pub proof fn dropped_stores_are_told(before: ModuleView, after: ModuleView, changed: bool)
    requires
        Dse.outcome(before, after, changed),
    ensures
        changed <==> after != before,
{
    if any_dead_store(before) {
        let i = choose|i: int|
            0 <= i < before.functions.len() && has_dead_store(
                #[trigger] before.functions[i],
                before.layout,
            );
        let f = before.functions[i];
        let (b, j) = choose|b: int, j: int|
            0 <= b < f.blocks.len() && #[trigger] dead_store(f, before.layout, f.blocks[b].insts, j);
        let s = f.blocks[b].insts;
        let mask = stores_left(f, before.layout, s);
        lemma_masked_len(s, mask);
        let k = choose|k: int|
            #[trigger] crate::opt::dse::overwrites(f, before.layout, s, j, k);
        assert(!mask[j]);
        assert(after.functions[i].blocks[b].insts.len() < s.len());
        assert(after.functions[i] != f);
    } else {
        assert forall|i: int| 0 <= i < before.functions.len() implies #[trigger] after.functions[i]
            == before.functions[i] by {
            let f = before.functions[i];
            assert(!has_dead_store(f, before.layout));
            let g = stored_func(f, before.layout);
            assert forall|b: int| 0 <= b < f.blocks.len() implies #[trigger] g.blocks[b] == f.blocks[b] by {
                let s = f.blocks[b].insts;
                let mask = stores_left(f, before.layout, s);
                assert forall|j: int| 0 <= j < s.len() implies #[trigger] mask[j] by {
                    assert(!dead_store(f, before.layout, s, j));
                }
                lemma_masked_len(s, mask);
            }
            assert(g.blocks =~= f.blocks);
        }
        assert(after.functions =~= before.functions);
    }
}

/// Call resolution tells of a change exactly where it made one.
pub proof fn resolved_calls_are_told(before: ModuleView, after: ModuleView, changed: bool)
    requires
        CallResolve.outcome(before, after, changed),
    ensures
        changed <==> after != before,
{
    if module_resolves(before) {
        let i = choose|i: int|
            0 <= i < before.functions.len() && func_resolves(before, #[trigger] before.functions[i]);
        let f = before.functions[i];
        let b = choose|b: int|
            0 <= b < f.blocks.len() && block_resolves(before, #[trigger] f.blocks[b]);
        let k = choose|k: int|
            0 <= k < f.blocks[b].insts.len() && resolved_op(
                before,
                (#[trigger] f.blocks[b].insts[k]).kind.op,
            ) is Some;
        let x = f.blocks[b].insts[k];
        assert(after.functions[i].blocks[b].insts[k] == resolved_inst(before, x));
        assert(resolved_inst(before, x).kind.op != x.kind.op);
    } else {
        assert forall|i: int| 0 <= i < before.functions.len() implies #[trigger] after.functions[i]
            == before.functions[i] by {
            let f = before.functions[i];
            let g = after.functions[i];
            assert(!func_resolves(before, f));
            assert forall|b: int| 0 <= b < f.blocks.len() implies #[trigger] g.blocks[b] == f.blocks[b] by {
                assert(!block_resolves(before, f.blocks[b]));
                assert forall|k: int| 0 <= k < f.blocks[b].insts.len() implies #[trigger] g.blocks[b].insts[k]
                    == f.blocks[b].insts[k] by {
                    assert(resolved_op(before, f.blocks[b].insts[k].kind.op) is None);
                }
                assert(g.blocks[b].insts =~= f.blocks[b].insts);
            }
            assert(g.blocks =~= f.blocks);
        }
        assert(after.functions =~= before.functions);
    }
}

/// Where these passes tell of no change, there is none.
pub proof fn no_change_is_none<E: Fn(FloatRequest) -> FloatReply>(
    e: E,
    before: ModuleView,
    after: ModuleView,
)
    ensures
        LocalCse.outcome(before, after, false) ==> after == before,
        ConstProp.outcome(before, after, false) ==> after == before,
        DeadArgElim.outcome(before, after, false) ==> after == before,
        DeadFuncElim.outcome(before, after, false) ==> after == before,
        LoopFission.outcome(before, after, false) ==> after == before,
        (ConstArgSpecialize { floats: e }).outcome(before, after, false) ==> after == before,
{
    if LocalCse.outcome(before, after, false) {
        assert forall|i: int| 0 <= i < before.functions.len() implies #[trigger] after.functions[i]
            == before.functions[i] by {
            assert(!repeats(before.functions[i], environment_unsure(before, i)));
        }
        assert(after.functions =~= before.functions);
    }
    if ConstProp.outcome(before, after, false) {
        assert(after.functions =~= before.functions);
    }
    if LoopFission.outcome(before, after, false) {
        assert forall|i: int| 0 <= i < before.functions.len() implies #[trigger] after.functions[i]
            == before.functions[i] by {
            assert(fissioned(before.functions[i], before.layout, after.functions[i]));
        }
        assert(after.functions =~= before.functions);
    }
    if (ConstArgSpecialize { floats: e }).outcome(before, after, false) {
        assert forall|i: int| 0 <= i < before.functions.len() implies #[trigger] after.functions[i]
            == before.functions[i] by {
            assert(!is_plan(func_plan(e, before, i)));
        }
        assert(after.functions =~= before.functions);
    }
}

/// Dead-argument elimination tells of a change only where a parameter went.
pub proof fn dropped_parameters_are_told(before: ModuleView, after: ModuleView)
    requires
        DeadArgElim.outcome(before, after, true),
    ensures
        exists|f: int|
            0 <= f < before.functions.len() && (#[trigger] after.functions[f]).params.len()
                < before.functions[f].params.len(),
{
    let (f, p) = choose|f: int, p: int| #[trigger] is_slot(before, f, p) && !is_live(before, f, p);
    let params = before.functions[f].params;
    let mask = live_mask(before, f);
    lemma_masked_len(params, mask);
    assert(!mask[p]);
    assert(after.functions[f].params == kept_params(before, f));
    assert(after.functions[f].params.len() < params.len());
}

/// Dead-function elimination tells of a change only where a function went.
pub proof fn dropped_functions_are_told(before: ModuleView, after: ModuleView)
    requires
        DeadFuncElim.outcome(before, after, true),
    ensures
        after.functions.len() < before.functions.len(),
{
    let mask = kept_mask(before);
    lemma_masked_len(before.functions, mask);
    let i = choose|i: int| 0 <= i < before.functions.len() && !#[trigger] mask[i];
    assert(!mask[i]);
}

/// A function is dropped exactly where it is not the first and nothing calls it,
/// by its number or by its name.
pub proof fn uncalled_functions_are_dropped(m: ModuleView, i: u32)
    requires
        i < m.functions.len(),
    ensures
        !is_kept(m, i as int) <==> i != 0 && forall|a: int, k: int|
            0 <= a < m.functions.len() && 0 <= k < insts_of(m.functions[a]).len() ==> (#[trigger] insts_of(
                m.functions[a],
            )[k]).kind.op != Op::CallInternal(i) && insts_of(m.functions[a])[k].kind.op
                != Op::CallExternal(m.functions[i as int].name),
{
    let name = m.functions[i as int].name;
    if is_called(m, i as int) {
        let a = choose|a: int|
            0 <= a < m.functions.len() && calls_internal(#[trigger] m.functions[a], i as int);
        let k = choose|k: int|
            0 <= k < insts_of(m.functions[a]).len() && ((#[trigger] insts_of(
                m.functions[a],
            )[k]).kind.op matches Op::CallInternal(c) && c == i);
        assert(insts_of(m.functions[a])[k].kind.op == Op::CallInternal(i));
    }
    if is_called_by_name(m, name) {
        let a = choose|a: int|
            0 <= a < m.functions.len() && calls_name(#[trigger] m.functions[a], name);
        let k = choose|k: int|
            0 <= k < insts_of(m.functions[a]).len() && (#[trigger] insts_of(m.functions[a])[k]).kind.op
                == Op::CallExternal(name);
        assert(insts_of(m.functions[a])[k].kind.op == Op::CallExternal(name));
    }
    assert forall|a: int, k: int|
        0 <= a < m.functions.len() && 0 <= k < insts_of(m.functions[a]).len() && !is_kept(m, i as int) implies (
    #[trigger] insts_of(m.functions[a])[k]).kind.op != Op::CallInternal(i) && insts_of(
        m.functions[a],
    )[k].kind.op != Op::CallExternal(name) by {
        assert(!calls_internal(m.functions[a], i as int));
        assert(!calls_name(m.functions[a], name));
    }
}

/// Is an instruction a bounds check?
pub open spec fn is_check(i: InstView) -> bool {
    i.kind.op == Op::RuntimeCall(RuntimeFunc::CheckBounds)
}

/// All instructions but bounds checks stay, each as often and in the same order.
pub proof fn all_but_checks_stay(f: FuncView, b: int)
    requires
        0 <= b < f.blocks.len(),
    ensures
        unchecked_func(f).blocks[b].insts.filter(|i: InstView| !is_check(i))
            == f.blocks[b].insts.filter(|i: InstView| !is_check(i)),
{
    let s = f.blocks[b].insts;
    let c = f.blocks[b].id;
    let keep = |i: InstView| !needless(f, c, i);
    let other = |i: InstView| !is_check(i);
    lemma_filter_again(s, keep, other);
    assert(unchecked_func(f).blocks[b].insts =~= s.filter(keep));
}

proof fn lemma_filter_again(
    s: Seq<InstView>,
    keep: spec_fn(InstView) -> bool,
    other: spec_fn(InstView) -> bool,
)
    requires
        forall|i: InstView| #[trigger] other(i) ==> keep(i),
    ensures
        s.filter(keep).filter(other) == s.filter(other),
    decreases s.len(),
{
    reveal(Seq::filter);
    if s.len() > 0 {
        let t = s.drop_last();
        lemma_filter_again(t, keep, other);
        let x = s.last();
        if keep(x) {
            let k = t.filter(keep);
            assert(k.push(x).drop_last() =~= k);
            assert(k.push(x).last() == x);
        }
    }
}

/// Where the floating-point environment is observed, dead-code elimination keeps
/// what meets it; and sharing leaves it alone in every function that may leave
/// the module while it runs.
pub proof fn the_environment_is_respected(m: ModuleView, f: FuncView, a: int, c: int, k: int)
    ensures
        0 <= k < insts_of(f).len() && meets_environment(insts_of(f)[k].kind.op) ==> kept_values(
            f,
            true,
        ).contains(insts_of(f)[k].id),
        0 <= c < m.functions.len() && may_enter(m, a, c) && 0 <= k < insts_of(m.functions[c]).len() && (
        insts_of(m.functions[c])[k].kind.op is CallExternal || insts_of(m.functions[c])[k].kind.op is CallIndirect)
            ==> environment_unsure(m, a),
{
    if 0 <= k < insts_of(f).len() && meets_environment(insts_of(f)[k].kind.op) {
        assert(crate::opt::fpenv::fpenv_sensitive(insts_of(f)[k].kind.op));
    }
    if 0 <= c < m.functions.len() && may_enter(m, a, c) && 0 <= k < insts_of(m.functions[c]).len() && (
    insts_of(m.functions[c])[k].kind.op is CallExternal || insts_of(m.functions[c])[k].kind.op is CallIndirect) {
        let barrier = |op: Op| is_barrier(op);
        assert(barrier(insts_of(m.functions[c])[k].kind.op));
        assert(holds_op(m.functions[c], barrier));
    }
}

} // verus!
