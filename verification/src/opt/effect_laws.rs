//! What dead-code elimination, constant propagation and call resolution may not
//! change.

use crate::ir::inst::{BlockId, FuncView, InstView, KindView, ModuleView, Op, TermView, ValueId};
use crate::ir::types::{IntWidth, IrType};
use crate::opt::arith::{
    congruent, lemma_congruent, lemma_congruent_back, lemma_same_number, lemma_sext,
};
use crate::opt::call_resolve::{named, resolved_inst};
use crate::opt::callgraph::{call_links, is_call_graph, node_calls, on_cycle, CallNode};
use crate::opt::const_fold::rounding_unsure;
use crate::opt::const_prop::{chosen_case, const_of, decided, known_in, known_upto, Const};
use crate::opt::dce::{cleaned, cleaning_keeps_effects, effectful, reads};
use crate::opt::fpenv::{
    call_chain, calls_indirect, calls_internal, fpenv_sensitive, holds_op, is_barrier, may_call,
    may_change_rounding, may_enter, may_run, may_run_among,
};
use crate::opt::graph::{leads, linked, reaches};
use crate::opt::insts::insts_of;
use crate::opt::ints::sext;
use crate::opt::places::{laid_out, points, slot_at, Whereabouts};
use crate::opt::purity::{
    derived_from, discardable, local_address, observable, observed_fp, slot_chain, sound_alone,
};
use crate::opt::share_meaning::meets_environment;
use crate::target::TargetLayout;
use vstd::prelude::*;

verus! {

/// Does an instruction do more than give a value? A call of a function of the
/// module may do no more.
pub open spec fn does_more(op: Op) -> bool {
    match op {
        Op::Store | Op::VolatileStore | Op::VStore | Op::Alloca(_) => true,
        Op::CallExternal(_) | Op::CallIndirect | Op::RuntimeCall(_) => true,
        _ => false,
    }
}

/// Is the call one of a function of the module that is known to do no more than
/// give a value?
pub open spec fn idle_call(op: Op, loose: Seq<bool>) -> bool {
    op matches Op::CallInternal(c) && c < loose.len() && loose[c as int]
}

/// Cleaning keeps every store, every slot, every call but idle ones, and every
/// value that is to be kept, each as often and in the same order.
pub proof fn cleaning_keeps_every_effect(
    f: FuncView,
    loose: Seq<bool>,
    kept: Set<ValueId>,
    b: int,
)
    requires
        0 <= b < f.blocks.len(),
    ensures
        ({
            let matters = |i: InstView|
                kept.contains(i.id) || does_more(i.kind.op) || (i.kind.op is CallInternal && !idle_call(
                    i.kind.op,
                    loose,
                ));
            cleaned(f, loose, kept).blocks[b].insts.filter(matters) == f.blocks[b].insts.filter(matters)
        }),
{
    let matters = |i: InstView|
        kept.contains(i.id) || does_more(i.kind.op) || (i.kind.op is CallInternal && !idle_call(
            i.kind.op,
            loose,
        ));
    cleaning_keeps_effects(f, loose, kept, b);
    let same = |i: InstView| effectful(i, loose, kept);
    assert(matters =~= same);
}

/// Does an instruction write outside the stack frame of its function, or leave
/// the module?
pub open spec fn reaches_out(
    w: Whereabouts,
    f: FuncView,
    i: InstView,
) -> bool {
    match i.kind.op {
        Op::Store | Op::VStore => forall|k: int| #[trigger]
            slot_at(f, k) ==> (w.at)(insts_of(f)[k].id).area != (w.at)(i.kind.args[1]).area,
        Op::VolatileStore | Op::CallExternal(_) | Op::CallIndirect | Op::RuntimeCall(_) => true,
        _ => false,
    }
}

proof fn lemma_frame(w: Whereabouts, f: FuncView, layout: TargetLayout, p: Seq<int>, n: int)
    requires
        laid_out(w, f, layout),
        slot_chain(insts_of(f), p),
        0 <= n < p.len(),
    ensures
        (w.at)(insts_of(f)[p[n]].id).area == (w.at)(insts_of(f)[p[0]].id).area,
    decreases n,
{
    if n > 0 {
        lemma_frame(w, f, layout, p, n - 1);
        let a = insts_of(f)[p[n - 1]];
        assert(derived_from(insts_of(f)[p[n - 1]], insts_of(f)[p[n - 1 + 1]]));
        assert(points(w, f, layout, insts_of(f)[p[n]]));
    }
}

/// A call that may be dropped runs nothing that reaches out of the stack frames
/// of what it runs, wherever pointers point, nothing that meets the
/// floating-point environment where that is observed, and always returns.
pub proof fn dropped_calls_do_nothing(
    w: Whereabouts,
    m: ModuleView,
    a: int,
    b: int,
    k: int,
)
    requires
        discardable(m, observed_fp(m), a),
        may_enter(m, a, b),
        0 <= b < m.functions.len(),
        laid_out(w, m.functions[b], m.layout),
        0 <= k < insts_of(m.functions[b]).len(),
    ensures
        m.functions[b].is_pure,
        !reaches_out(w, m.functions[b], insts_of(m.functions[b])[k]),
        observed_fp(m)[b] ==> !meets_environment(insts_of(m.functions[b])[k].kind.op),
        insts_of(m.functions[b])[k].kind.op matches Op::CallInternal(c) ==> c < m.functions.len(),
        forall|x: int|
            0 <= x < m.functions[b].blocks.len() ==> (#[trigger] m.functions[b].blocks[x]).term != Some(
                TermView::Unreachable,
            ),
{
    let f = m.functions[b];
    let i = insts_of(f)[k];
    let fp = observed_fp(m)[b];
    assert(sound_alone(f, fp, m.functions.len()));
    assert(!observable(f, i, fp));
    assert(fpenv_sensitive(i.kind.op) == meets_environment(i.kind.op));
    if i.kind.op is Store || i.kind.op is VStore {
        let v = i.kind.args[1];
        assert(local_address(f, v));
        let p = choose|p: Seq<int>| #[trigger]
            slot_chain(insts_of(f), p) && insts_of(f)[p.last()].id == v;
        lemma_frame(w, f, m.layout, p, p.len() - 1);
        assert(0 <= p[0] < insts_of(f).len());
        assert(slot_at(f, p[0]));
    }
}

/// A function is entered by itself, by what calls it, and by what calls through a
/// pointer; and what is entered by an entered function is entered.
pub proof fn calls_are_entries(m: ModuleView, a: int, b: int, c: int, k: int)
    requires
        0 <= a < m.functions.len(),
        0 <= b < m.functions.len(),
    ensures
        may_enter(m, a, a),
        0 <= k < insts_of(m.functions[a]).len() && (insts_of(m.functions[a])[k].kind.op is CallIndirect
            || insts_of(m.functions[a])[k].kind.op == Op::CallInternal(b as u32)) && b <= u32::MAX
            ==> may_enter(m, a, b),
        may_enter(m, a, b) && may_enter(m, b, c) ==> may_enter(m, a, c),
{
    let own = seq![a];
    assert(call_chain(m, own) && own[0] == a && own.last() == a);
    if 0 <= k < insts_of(m.functions[a]).len() && (insts_of(m.functions[a])[k].kind.op is CallIndirect
        || insts_of(m.functions[a])[k].kind.op == Op::CallInternal(b as u32)) && b <= u32::MAX {
        let p = seq![a, b];
        assert(insts_of(m.functions[a])[k].kind.op is CallIndirect ==> calls_indirect(m.functions[a]));
        assert(insts_of(m.functions[a])[k].kind.op is CallInternal ==> calls_internal(
            m.functions[a],
            b,
        ));
        assert(may_call(m, a, b));
        assert(p[0] == a && p[1] == b);
        assert(call_chain(m, p));
        assert(p.last() == b);
    }
    if may_enter(m, a, b) && may_enter(m, b, c) {
        let p = choose|p: Seq<int>| #[trigger] call_chain(m, p) && p[0] == a && p.last() == b;
        let q = choose|q: Seq<int>| #[trigger] call_chain(m, q) && q[0] == b && q.last() == c;
        let r = p + q.drop_first();
        assert forall|i: int| 0 <= i < r.len() implies 0 <= #[trigger] r[i] < m.functions.len() by {
            if i < p.len() {
                assert(r[i] == p[i]);
            } else {
                assert(r[i] == q[i - p.len() + 1]);
            }
        }
        assert forall|i: int| 0 <= i < r.len() - 1 implies #[trigger] may_call(m, r[i], r[i + 1]) by {
            if i < p.len() - 1 {
                assert(r[i] == p[i] && r[i + 1] == p[i + 1]);
                assert(may_call(m, p[i], p[i + 1]));
            } else {
                let j = i - (p.len() - 1);
                assert(r[i] == q[j]);
                assert(r[i + 1] == q[j + 1]);
                assert(may_call(m, q[j], q[j + 1]));
            }
        }
        assert(call_chain(m, r));
        assert(r[0] == a);
        assert(r.last() == c) by {
            if q.len() == 1 {
                assert(r =~= p);
            }
        }
    }
}

/// Where a call leaves the module, or goes through a pointer, rounding is unsure
/// in every function that runs with it; only what reads and sets the status flags
/// leaves the rounding alone. All of them are observers of the environment.
pub proof fn foreign_calls_make_rounding_unsure(m: ModuleView, top: int, b: int, c: int, k: int)
    requires
        may_enter(m, top, b),
        may_enter(m, top, c),
        0 <= b < m.functions.len(),
        0 <= c < m.functions.len(),
        0 <= k < insts_of(m.functions[c]).len(),
        insts_of(m.functions[c])[k].kind.op is CallIndirect || insts_of(m.functions[c])[k].kind.op is CallExternal,
    ensures
        observed_fp(m)[b],
        insts_of(m.functions[c])[k].kind.op != Op::CallExternal("afs_ieee_set_flag"@)
            && insts_of(m.functions[c])[k].kind.op != Op::CallExternal("afs_ieee_test_flag"@)
            ==> rounding_unsure(m, b),
{
    let barrier = |op: Op| is_barrier(op);
    let change = |op: Op| may_change_rounding(op);
    let op = insts_of(m.functions[c])[k].kind.op;
    assert(barrier(op));
    assert(holds_op(m.functions[c], barrier));
    assert(may_run(m, barrier, top));
    assert(may_run_among(m, barrier, b));
    if op != Op::CallExternal("afs_ieee_set_flag"@) && op != Op::CallExternal("afs_ieee_test_flag"@) {
        assert(change(op));
        assert(holds_op(m.functions[c], change));
        assert(may_run(m, change, top));
    }
}

/// Where a terminator leads, and with what, by the values of a run.
pub open spec fn leads_to(t: TermView, env: spec_fn(ValueId) -> Const, to: BlockId, args: Seq<ValueId>) -> bool {
    match t {
        TermView::Branch(dest, with) => to == dest && args == with,
        TermView::CondBranch { cond, true_dest, true_args, false_dest, false_args } => {
            ||| env(cond) == Const::Bool(true) && to == true_dest && args == true_args
            ||| env(cond) == Const::Bool(false) && to == false_dest && args == false_args
        },
        TermView::Switch { selector, cases, default } => {
            &&& args.len() == 0
            &&& env(selector) matches Const::Int(v, w)
            &&& (exists|k: int|
                0 <= k < cases.len() && congruent((#[trigger] cases[k]).0 as int, v as int, w) && to
                    == cases[k].1 && forall|j: int|
                    0 <= j < k ==> !congruent((#[trigger] cases[j]).0 as int, v as int, w)) || (to
                == default && forall|j: int|
                0 <= j < cases.len() ==> !congruent((#[trigger] cases[j]).0 as int, v as int, w))
        },
        _ => false,
    }
}

/// Do the constants of a function have their values in a run?
pub open spec fn constants_are(f: FuncView, env: spec_fn(ValueId) -> Const) -> bool {
    forall|k: int|
        0 <= k < insts_of(f).len() ==> match (#[trigger] insts_of(f)[k]).kind.op {
            Op::ConstInt(v, w) => env(insts_of(f)[k].id) matches Const::Int(u, x) && x == w
                && congruent(u as int, v as int, w),
            Op::ConstBool(b) => env(insts_of(f)[k].id) == Const::Bool(b),
            _ => true,
        }
}

proof fn lemma_known(f: FuncView, env: spec_fn(ValueId) -> Const, n: nat, v: ValueId)
    requires
        constants_are(f, env),
        n <= insts_of(f).len(),
        known_upto(insts_of(f), n).contains_key(v),
    ensures
        match known_upto(insts_of(f), n)[v] {
            Const::Bool(b) => env(v) == Const::Bool(b),
            Const::Int(u, w) => env(v) matches Const::Int(x, y) && y == w && congruent(
                x as int,
                u as int,
                w,
            ),
        },
    decreases n,
{
    if n > 0 {
        let i = insts_of(f)[n - 1];
        if i.id == v && const_of(i.kind.op) is Some {
        } else {
            lemma_known(f, env, (n - 1) as nat, v);
        }
    }
}

proof fn lemma_case(cases: Seq<(i64, BlockId)>, n: nat, v: i128, w: IntWidth)
    requires
        n <= cases.len(),
    ensures
        match chosen_case(cases, n, v, w) {
            Some(b) => exists|k: int|
                0 <= k < n && congruent((#[trigger] cases[k]).0 as int, v as int, w) && b == cases[k].1
                    && forall|j: int|
                    0 <= j < k ==> !congruent((#[trigger] cases[j]).0 as int, v as int, w),
            None => forall|j: int|
                0 <= j < n ==> !congruent((#[trigger] cases[j]).0 as int, v as int, w),
        },
    decreases n,
{
    if n > 0 {
        lemma_case(cases, (n - 1) as nat, v, w);
        let c = cases[n - 1].0 as i128;
        lemma_sext(c, w);
        lemma_sext(v, w);
        if congruent(c as int, v as int, w) {
            lemma_congruent(sext(c, w) as int, c as int, v as int, w);
            lemma_congruent_back(sext(v, w) as int, v as int, w);
            lemma_congruent(sext(c, w) as int, v as int, sext(v, w) as int, w);
            lemma_same_number(sext(c, w) as int, sext(v, w) as int, w);
        } else if sext(c, w) == sext(v, w) {
            lemma_congruent_back(sext(c, w) as int, c as int, w);
            lemma_congruent(c as int, sext(c, w) as int, v as int, w);
        }
        if chosen_case(cases, (n - 1) as nat, v, w) is None && sext(c, w) == sext(v, w) {
            assert(congruent(cases[n - 1].0 as int, v as int, w));
        }
    }
}

/// A terminator that is decided leads where it led, with what it handed over, in
/// every run.
pub proof fn decided_terminators_lead_on(
    f: FuncView,
    env: spec_fn(ValueId) -> Const,
    t: TermView,
    to: BlockId,
    args: Seq<ValueId>,
)
    requires
        constants_are(f, env),
        decided(t, known_in(f)) is Some,
        leads_to(decided(t, known_in(f))->0, env, to, args),
    ensures
        leads_to(t, env, to, args),
{
    let known = known_in(f);
    match t {
        TermView::CondBranch { cond, true_dest, true_args, false_dest, false_args } => {
            lemma_known(f, env, insts_of(f).len(), cond);
        },
        TermView::Switch { selector, cases, default } => {
            lemma_known(f, env, insts_of(f).len(), selector);
            if let Const::Int(v, w) = known[selector] {
                lemma_case(cases, cases.len(), v, w);
                if let Const::Int(x, y) = env(selector) {
                    assert forall|k: int| 0 <= k < cases.len() implies (congruent(
                        (#[trigger] cases[k]).0 as int,
                        v as int,
                        w,
                    ) <==> congruent(cases[k].0 as int, x as int, w)) by {
                        let c = cases[k].0 as int;
                        if congruent(c, v as int, w) {
                            lemma_congruent_back(x as int, v as int, w);
                            lemma_congruent(c, v as int, x as int, w);
                        }
                        if congruent(c, x as int, w) {
                            lemma_congruent(c, x as int, v as int, w);
                        }
                    }
                    match chosen_case(cases, cases.len(), v, w) {
                        Some(b) => {
                            let k = choose|k: int|
                                0 <= k < cases.len() && congruent(
                                    (#[trigger] cases[k]).0 as int,
                                    v as int,
                                    w,
                                ) && b == cases[k].1 && forall|j: int|
                                    0 <= j < k ==> !congruent(
                                        (#[trigger] cases[j]).0 as int,
                                        v as int,
                                        w,
                                    );
                            assert(congruent(cases[k].0 as int, x as int, w));
                        },
                        None => {},
                    }
                }
            }
        },
        _ => {},
    }
}

/// A branch or a switch on a constant of the function is decided.
pub proof fn constant_conditions_are_decided(f: FuncView, t: TermView, k: int)
    requires
        0 <= k < insts_of(f).len(),
        forall|j: int|
            k < j < insts_of(f).len() ==> (#[trigger] insts_of(f)[j]).id != insts_of(f)[k].id,
        match t {
            TermView::CondBranch { cond, .. } => cond == insts_of(f)[k].id && insts_of(f)[k].kind.op is ConstBool,
            TermView::Switch { selector, .. } => selector == insts_of(f)[k].id && insts_of(f)[k].kind.op is ConstInt,
            _ => false,
        },
    ensures
        decided(t, known_in(f)) is Some,
        decided(t, known_in(f))->0 is Branch,
{
    lemma_knows(f, k, insts_of(f).len());
}

proof fn lemma_knows(f: FuncView, k: int, n: nat)
    requires
        0 <= k < n <= insts_of(f).len(),
        forall|j: int|
            k < j < insts_of(f).len() ==> (#[trigger] insts_of(f)[j]).id != insts_of(f)[k].id,
        const_of(insts_of(f)[k].kind.op) is Some,
    ensures
        known_upto(insts_of(f), n).contains_key(insts_of(f)[k].id),
        known_upto(insts_of(f), n)[insts_of(f)[k].id] == const_of(insts_of(f)[k].kind.op)->0,
    decreases n,
{
    if k < n - 1 {
        lemma_knows(f, k, (n - 1) as nat);
        assert(insts_of(f)[n - 1].id != insts_of(f)[k].id);
    }
}

/// A call by name goes to the last function of that name, where there is one, and
/// stays by name where there is none. Nothing else of an instruction changes.
pub proof fn names_go_to_the_last_function(m: ModuleView, i: InstView, name: Seq<char>, k: int)
    requires
        m.functions.len() <= u32::MAX,
        i.kind.op == Op::CallExternal(name),
    ensures
        0 <= k < m.functions.len() && m.functions[k].name == name && (forall|j: int|
            k < j < m.functions.len() ==> (#[trigger] m.functions[j]).name != name) ==> resolved_inst(
            m,
            i,
        ) == (InstView {
            kind: KindView { op: Op::CallInternal(k as u32), args: i.kind.args },
            ..i
        }),
        (forall|j: int| 0 <= j < m.functions.len() ==> (#[trigger] m.functions[j]).name != name)
            ==> resolved_inst(m, i) == i,
{
    lemma_last_named(m.functions, m.functions.len(), name);
}

proof fn lemma_last_named(functions: Seq<FuncView>, n: nat, name: Seq<char>)
    requires
        n <= functions.len(),
        functions.len() <= u32::MAX,
    ensures
        match named(functions, n, name) {
            Some(i) => i < n && functions[i as int].name == name && forall|j: int|
                i < j < n ==> (#[trigger] functions[j]).name != name,
            None => forall|j: int| 0 <= j < n ==> (#[trigger] functions[j]).name != name,
        },
    decreases n,
{
    if n > 0 {
        lemma_last_named(functions, (n - 1) as nat, name);
    }
}

/// Does `p` lead from function to function by calls and back to `i`?
pub open spec fn calls_back(m: ModuleView, i: int, p: Seq<int>) -> bool {
    &&& p.len() > 1
    &&& p[0] == i
    &&& p.last() == i
    &&& forall|k: int| 0 <= k < p.len() ==> 0 <= #[trigger] p[k] < m.functions.len()
    &&& forall|k: int|
        0 <= k < p.len() - 1 ==> calls_internal(m.functions[#[trigger] p[k]], p[k + 1])
}

proof fn lemma_links_are_calls(m: ModuleView, nodes: Seq<CallNode>, a: int, b: int)
    requires
        is_call_graph(m, nodes),
        0 <= a < nodes.len(),
        0 <= b < nodes.len(),
        nodes.len() <= u32::MAX,
    ensures
        linked(call_links(nodes), a, b) <==> calls_internal(m.functions[a], b),
{
    let node = nodes[a];
    let row = call_links(nodes)[a];
    assert(node_calls(m, node, a));
    if row.contains(b as usize) {
        let k = choose|k: int| 0 <= k < row.len() && row[k] == b as usize;
        assert(node.callees@[k] as usize == b as usize);
        assert(node.callees@.contains(node.callees@[k]));
    }
    if calls_internal(m.functions[a], b) {
        assert(node.callees@.contains(b as u32));
        let k = choose|k: int| 0 <= k < node.callees@.len() && node.callees@[k] == b as u32;
        assert(row[k] == b as usize);
    }
}

/// A function is recursive exactly where calls lead from it back to itself, in one
/// step or through others.
pub proof fn recursion_leads_back(m: ModuleView, nodes: Seq<CallNode>, i: int)
    requires
        is_call_graph(m, nodes),
        0 <= i < nodes.len(),
        nodes.len() <= u32::MAX,
    ensures
        nodes[i].is_recursive <==> exists|p: Seq<int>| calls_back(m, i, p),
{
    let g = call_links(nodes);
    if nodes[i].is_recursive {
        assert(on_cycle(g, i));
        let b = choose|b: int| #[trigger] linked(g, i, b) && reaches(g, b, i);
        let q = choose|q: Seq<int>| leads(g, q, b, i);
        let p = seq![i] + q;
        assert forall|k: int| 0 <= k < p.len() - 1 implies calls_internal(
            m.functions[#[trigger] p[k]],
            p[k + 1],
        ) by {
            if k > 0 {
                assert(p[k] == q[k - 1] && p[k + 1] == q[k]);
                assert(linked(g, q[k - 1], q[k - 1 + 1]));
            }
            lemma_links_are_calls(m, nodes, p[k], p[k + 1]);
        }
        assert forall|k: int| 0 <= k < p.len() implies 0 <= #[trigger] p[k] < m.functions.len() by {
            if k > 0 {
                assert(p[k] == q[k - 1]);
            }
        }
        assert(p.last() == q.last());
        assert(calls_back(m, i, p));
    }
    if exists|p: Seq<int>| calls_back(m, i, p) {
        let p = choose|p: Seq<int>| calls_back(m, i, p);
        let q = p.skip(1);
        lemma_links_are_calls(m, nodes, p[0], p[1]);
        assert forall|k: int| 0 <= k < q.len() - 1 implies #[trigger] linked(g, q[k], q[k + 1]) by {
            assert(calls_internal(m.functions[p[k + 1]], p[k + 1 + 1]));
            lemma_links_are_calls(m, nodes, p[k + 1], p[k + 2]);
        }
        assert forall|k: int| 0 <= k < q.len() implies 0 <= #[trigger] q[k] < g.len() by {
            assert(q[k] == p[k + 1]);
        }
        assert(q.last() == p.last());
        assert(leads(g, q, p[1], i));
        assert(linked(g, i, p[1]));
        assert(on_cycle(g, i));
    }
}

/// Is an instruction there for its value alone?
pub open spec fn only_gives_value(op: Op) -> bool {
    !does_more(op) && op !is CallInternal
}

/// A call of a pure function that gives a value may be dropped where the function
/// holds nothing but slots and instructions that are there for their value, and
/// nothing that meets the environment where that is observed.
pub proof fn harmless_calls_may_be_dropped(m: ModuleView, fp: Seq<bool>, a: int)
    requires
        0 <= a < m.functions.len(),
        m.functions[a].is_pure,
        m.functions[a].return_type != IrType::Void,
        forall|k: int|
            0 <= k < insts_of(m.functions[a]).len() ==> only_gives_value(
                (#[trigger] insts_of(m.functions[a])[k]).kind.op,
            ) || insts_of(m.functions[a])[k].kind.op is Alloca,
        fp[a] ==> forall|k: int|
            0 <= k < insts_of(m.functions[a]).len() ==> !meets_environment(
                (#[trigger] insts_of(m.functions[a])[k]).kind.op,
            ),
        forall|b: int|
            0 <= b < m.functions[a].blocks.len() ==> (#[trigger] m.functions[a].blocks[b]).term != Some(
                TermView::Unreachable,
            ),
    ensures
        discardable(m, fp, a),
{
    let f = m.functions[a];
    assert forall|b: int| #[trigger] may_enter(m, a, b) implies sound_alone(
        m.functions[b],
        fp[b],
        m.functions.len(),
    ) by {
        let p = choose|p: Seq<int>| #[trigger] call_chain(m, p) && p[0] == a && p.last() == b;
        if p.len() > 1 {
            assert(may_call(m, p[0], p[0int + 1]));
        }
        assert forall|k: int| 0 <= k < insts_of(f).len() implies !observable(
            f,
            #[trigger] insts_of(f)[k],
            fp[a],
        ) by {
            assert(fpenv_sensitive(insts_of(f)[k].kind.op) ==> meets_environment(
                insts_of(f)[k].kind.op,
            ));
        }
    }
}

} // verus!
