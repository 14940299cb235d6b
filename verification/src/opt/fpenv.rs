//! The floating-point environment: rounding mode and status flags.
//!
//! A call that leaves the module, or goes through a function pointer, may read
//! or change the environment. What such a call means for a function depends on
//! what the function calls, and on what calls the function.

use crate::ir::inst::{FuncRef, FuncView, Function, InstKind, Module, ModuleView, Op};
use crate::opt::graph::{
    graph_view, leads, lemma_turned, linked, reach_from, reached, reaches, reversed, turned,
};
use crate::opt::insts::{all_insts, insts_of, refs_view};
use crate::text::same_text;
use vstd::prelude::*;

verus! {

/// Does an operation depend on the rounding mode?
pub open spec fn rounding_dependent(op: Op) -> bool {
    op is FAdd || op is FSub || op is FMul || op is FDiv || op is FPow || op is FSqrt
        || op is IntToFloat || op is FloatTrunc
}

/// Does a scalar operation read or change the floating-point environment?
pub open spec fn fpenv_sensitive(op: Op) -> bool {
    rounding_dependent(op) || op is FCmp || op is FloatToInt || op is FloatExtend
}

/// Does an operation depend on the rounding mode?
pub fn is_rounding_dependent_fp(kind: &InstKind) -> (r: bool)
    ensures
        r == rounding_dependent(kind@.op),
{
    match kind {
        InstKind::FAdd(_, _) => true,
        InstKind::FSub(_, _) => true,
        InstKind::FMul(_, _) => true,
        InstKind::FDiv(_, _) => true,
        InstKind::FPow(_, _) => true,
        InstKind::FSqrt(_) => true,
        InstKind::IntToFloat(_, _) => true,
        InstKind::FloatTrunc(_, _) => true,
        InstKind::Call(callee, _) => match callee {
            FuncRef::Internal(_) => false,
            FuncRef::External(_) => false,
            FuncRef::Indirect(_) => false,
        },
        _ => false,
    }
}

/// Does an operation read or change the floating-point environment?
pub fn is_fpenv_sensitive(kind: &InstKind) -> (r: bool)
    ensures
        r == fpenv_sensitive(kind@.op),
{
    match kind {
        InstKind::FCmp(_, _, _) => true,
        InstKind::FloatToInt(_, _) => true,
        InstKind::FloatExtend(_, _) => true,
        _ => is_rounding_dependent_fp(kind),
    }
}

/// Does `f` call the function numbered `b`?
pub open spec fn calls_internal(f: FuncView, b: int) -> bool {
    exists|k: int|
        0 <= k < insts_of(f).len() && ((#[trigger] insts_of(f)[k]).kind.op matches Op::CallInternal(
            i,
        ) && i == b)
}

/// Does `f` call through a function pointer?
pub open spec fn calls_indirect(f: FuncView) -> bool {
    exists|k: int|
        0 <= k < insts_of(f).len() && (#[trigger] insts_of(f)[k]).kind.op is CallIndirect
}

/// May the function numbered `a` call the one numbered `b`? A function pointer
/// may lead to any function.
pub open spec fn may_call(m: ModuleView, a: int, b: int) -> bool {
    &&& 0 <= a < m.functions.len()
    &&& 0 <= b < m.functions.len()
    &&& calls_internal(m.functions[a], b) || calls_indirect(m.functions[a])
}

/// Is `p` a chain of calls?
pub open spec fn call_chain(m: ModuleView, p: Seq<int>) -> bool {
    &&& p.len() > 0
    &&& forall|i: int| 0 <= i < p.len() ==> 0 <= #[trigger] p[i] < m.functions.len()
    &&& forall|i: int| 0 <= i < p.len() - 1 ==> #[trigger] may_call(m, p[i], p[i + 1])
}

/// Does a chain of calls lead from `a` to `b`?
pub open spec fn may_enter(m: ModuleView, a: int, b: int) -> bool {
    exists|p: Seq<int>| #[trigger] call_chain(m, p) && p[0] == a && p.last() == b
}

/// Does a call of this function leave the module or go through a pointer?
pub open spec fn is_barrier(op: Op) -> bool {
    op is CallExternal || op is CallIndirect
}

/// Can this call change the rounding mode? The entry points for the status flags
/// do not.
pub open spec fn may_change_rounding(op: Op) -> bool {
    match op {
        Op::CallExternal(name) => name != "afs_ieee_set_flag"@ && name != "afs_ieee_test_flag"@,
        _ => op is CallIndirect,
    }
}

/// Does `f` hold an instruction of this kind?
pub open spec fn holds_op(f: FuncView, p: spec_fn(Op) -> bool) -> bool {
    exists|k: int| 0 <= k < insts_of(f).len() && p((#[trigger] insts_of(f)[k]).kind.op)
}

/// May running the function numbered `a` run an instruction of this kind?
pub open spec fn may_run(m: ModuleView, p: spec_fn(Op) -> bool, a: int) -> bool {
    exists|b: int| #[trigger] may_enter(m, a, b) && holds_op(m.functions[b], p)
}

/// May the function numbered `b` run where an instruction of this kind is run
/// too?
pub open spec fn may_run_among(m: ModuleView, p: spec_fn(Op) -> bool, b: int) -> bool {
    exists|a: int| #[trigger] may_enter(m, a, b) && may_run(m, p, a)
}

/// What the environment means for each function.
pub struct FpenvEffects {
    /// May a barrier be crossed while the function runs?
    pub may_cross_fpenv_barrier: Vec<bool>,
    /// May the function run where a barrier is crossed too?
    pub may_run_in_dynamic_fpenv: Vec<bool>,
}

/// What changes of the rounding mode mean for each function.
pub struct RoundingEffects {
    /// May the function run after a change of the rounding mode?
    pub may_run_after_change: Vec<bool>,
}

fn barrier_kind(kind: &InstKind) -> (r: bool)
    ensures
        r == is_barrier(kind@.op),
{
    match kind {
        InstKind::Call(callee, _) => match callee {
            FuncRef::Internal(_) => false,
            FuncRef::External(_) => true,
            FuncRef::Indirect(_) => true,
        },
        _ => false,
    }
}

fn rounding_kind(kind: &InstKind) -> (r: bool)
    ensures
        r == may_change_rounding(kind@.op),
{
    match kind {
        InstKind::Call(callee, _) => match callee {
            FuncRef::Internal(_) => false,
            FuncRef::External(name) => !same_text(name.as_str(), "afs_ieee_set_flag") && !same_text(
                name.as_str(),
                "afs_ieee_test_flag",
            ),
            FuncRef::Indirect(_) => true,
        },
        _ => false,
    }
}

/// Which of the two questions is asked of an instruction.
#[derive(Clone, Copy)]
enum Question {
    Barrier,
    Rounding,
}

impl Question {
    spec fn asks(self, op: Op) -> bool {
        match self {
            Question::Barrier => is_barrier(op),
            Question::Rounding => may_change_rounding(op),
        }
    }
}

fn function_holds(func: &Function, q: Question) -> (r: bool)
    ensures
        r == holds_op(func@, |op: Op| q.asks(op)),
{
    let list = all_insts(func);
    let ghost s = insts_of(func@);
    let mut i: usize = 0;
    while i < list.len()
        invariant
            i <= list@.len(),
            s == insts_of(func@),
            s == refs_view(list@),
            forall|k: int| 0 <= k < i ==> !q.asks((#[trigger] s[k]).kind.op),
        decreases list@.len() - i,
    {
        proof {
            assert(s[i as int] == list@[i as int]@);
        }
        let hit = match q {
            Question::Barrier => barrier_kind(&list[i].kind),
            Question::Rounding => rounding_kind(&list[i].kind),
        };
        if hit {
            return true;
        }
        i = i + 1;
    }
    false
}

/// The functions that a function may call; those of the module up to `n` if it
/// calls through a pointer.
fn callees_of(func: &Function, n: usize) -> (r: Vec<usize>)
    ensures
        forall|b: usize|
            b < n ==> (#[trigger] r@.contains(b)) == (calls_internal(func@, b as int)
                || calls_indirect(func@)),
{
    let list = all_insts(func);
    let ghost s = insts_of(func@);
    let mut out: Vec<usize> = Vec::new();
    let mut i: usize = 0;
    while i < list.len()
        invariant
            i <= list@.len(),
            s == insts_of(func@),
            s == refs_view(list@),
            forall|b: usize|
                (#[trigger] out@.contains(b)) == (exists|k: int|
                    0 <= k < i && ((#[trigger] s[k]).kind.op matches Op::CallInternal(c) && c == b)),
            forall|k: int| 0 <= k < i ==> !((#[trigger] s[k]).kind.op is CallIndirect),
        decreases list@.len() - i,
    {
        let ghost before = out@;
        proof {
            assert(s[i as int] == list@[i as int]@);
        }
        match &list[i].kind {
            InstKind::Call(callee, _) => match callee {
                FuncRef::Internal(c) => {
                    let at: usize = *c as usize;
                    out.push(at);
                    proof {
                        assert forall|b: usize| (#[trigger] out@.contains(b)) == (exists|k: int|
                            0 <= k < i + 1 && ((#[trigger] s[k]).kind.op matches Op::CallInternal(c)
                                && c == b)) by {
                            assert(out@[out@.len() - 1] == at);
                            if before.contains(b) {
                                assert(out@[before.index_of(b)] == b);
                            }
                            if out@.contains(b) && b != at {
                                assert(before[out@.index_of(b)] == b);
                            }
                        }
                    }
                },
                FuncRef::External(_) => {},
                FuncRef::Indirect(_) => {
                    return up_to(n);
                },
            },
            _ => {},
        }
        i = i + 1;
    }
    out
}

fn up_to(n: usize) -> (r: Vec<usize>)
    ensures
        forall|b: usize| b < n ==> #[trigger] r@.contains(b),
{
    let mut out: Vec<usize> = Vec::new();
    let mut i: usize = 0;
    while i < n
        invariant
            i <= n,
            out@.len() == i,
            forall|k: int| 0 <= k < i ==> #[trigger] out@[k] == k,
        decreases n - i,
    {
        out.push(i);
        i = i + 1;
    }
    proof {
        assert forall|b: usize| b < n implies #[trigger] out@.contains(b) by {
            assert(out@[b as int] == b);
        }
    }
    out
}

/// Which functions each function may call.
pub fn call_edges(module: &Module) -> (r: Vec<Vec<usize>>)
    ensures
        r@.len() == module@.functions.len(),
        forall|a: int, b: int| #[trigger]
            linked(graph_view(r@), a, b) == may_call(module@, a, b),
{
    let n: usize = module.functions.len();
    let mut out: Vec<Vec<usize>> = Vec::new();
    let mut i: usize = 0;
    while i < n
        invariant
            i <= n,
            n == module.functions@.len(),
            out@.len() == i,
            forall|a: int, b: usize|
                0 <= a < i && b < n ==> (#[trigger] out@[a]@.contains(b)) == (calls_internal(
                    module@.functions[a],
                    b as int,
                ) || calls_indirect(module@.functions[a])),
        decreases n - i,
    {
        let list = callees_of(&module.functions[i], n);
        out.push(list);
        i = i + 1;
    }
    proof {
        let gv = graph_view(out@);
        assert forall|a: int, b: int| #[trigger]
            linked(gv, a, b) == may_call(module@, a, b) by {
            if 0 <= a < n && 0 <= b < n {
                assert(gv[a] == out@[a]@);
                assert(out@[a]@.contains(b as usize) == (calls_internal(module@.functions[a], b)
                    || calls_indirect(module@.functions[a])));
            }
        }
    }
    out
}

/// Reaching along call edges is being entered by a chain of calls.
pub proof fn lemma_chains(m: ModuleView, g: Seq<Seq<usize>>, a: int, b: int)
    requires
        g.len() == m.functions.len(),
        forall|x: int, y: int| #[trigger] linked(g, x, y) == may_call(m, x, y),
    ensures
        reaches(g, a, b) == may_enter(m, a, b),
{
    if reaches(g, a, b) {
        let p = choose|p: Seq<int>| leads(g, p, a, b);
        assert forall|i: int| 0 <= i < p.len() - 1 implies #[trigger] may_call(m, p[i], p[i + 1]) by {
            assert(linked(g, p[i], p[i + 1]));
        }
        assert(call_chain(m, p));
    }
    if may_enter(m, a, b) {
        let p = choose|p: Seq<int>| #[trigger] call_chain(m, p) && p[0] == a && p.last() == b;
        assert forall|i: int| 0 <= i < p.len() - 1 implies #[trigger] linked(g, p[i], p[i + 1]) by {
            assert(may_call(m, p[i], p[i + 1]));
        }
        assert(leads(g, p, a, b));
    }
}

/// For each function: may it run an instruction that the question is about, and
/// may it run among such?
fn effects(module: &Module, q: Question) -> (r: (Vec<bool>, Vec<bool>))
    ensures
        r.0@.len() == module@.functions.len(),
        r.1@.len() == module@.functions.len(),
        forall|a: int|
            0 <= a < r.0@.len() ==> #[trigger] r.0@[a] == may_run(
                module@,
                |op: Op| q.asks(op),
                a,
            ),
        forall|a: int|
            0 <= a < r.1@.len() ==> #[trigger] r.1@[a] == may_run_among(
                module@,
                |op: Op| q.asks(op),
                a,
            ),
{
    let n: usize = module.functions.len();
    let ghost p = |op: Op| q.asks(op);
    let mut direct: Vec<bool> = Vec::new();
    let mut i: usize = 0;
    while i < n
        invariant
            i <= n,
            n == module.functions@.len(),
            p == (|op: Op| q.asks(op)),
            direct@.len() == i,
            forall|a: int| 0 <= a < i ==> #[trigger] direct@[a] == holds_op(module@.functions[a], p),
        decreases n - i,
    {
        direct.push(function_holds(&module.functions[i], q));
        i = i + 1;
    }
    let g = call_edges(module);
    let h = reversed(&g);
    let up = reach_from(&h, &direct);
    let down = reach_from(&g, &up);
    proof {
        let m = module@;
        let gv = graph_view(g@);
        let hv = graph_view(h@);
        reveal(reached);
        assert(turned(hv, gv));
        assert forall|a: int| 0 <= a < n implies #[trigger] up@[a] == may_run(m, p, a) by {
            if up@[a] {
                let b = choose|b: int| 0 <= b < n && #[trigger] direct@[b] && reaches(hv, b, a);
                lemma_turned(gv, hv, b, a);
                lemma_chains(m, gv, a, b);
            }
            if may_run(m, p, a) {
                let b = choose|b: int| #[trigger] may_enter(m, a, b) && holds_op(m.functions[b], p);
                lemma_chains(m, gv, a, b);
                lemma_turned(hv, gv, a, b);
                let route = choose|r: Seq<int>| leads(gv, r, a, b);
                assert(0 <= route[route.len() - 1] < n);
                assert(direct@[b]);
            }
        }
        assert forall|b: int| 0 <= b < n implies #[trigger] down@[b] == may_run_among(m, p, b) by {
            if down@[b] {
                let a = choose|a: int| 0 <= a < n && #[trigger] up@[a] && reaches(gv, a, b);
                lemma_chains(m, gv, a, b);
            }
            if may_run_among(m, p, b) {
                let a = choose|a: int| #[trigger] may_enter(m, a, b) && may_run(m, p, a);
                lemma_chains(m, gv, a, b);
                let route = choose|r: Seq<int>| leads(gv, r, a, b);
                assert(0 <= route[0] < n);
                assert(up@[a]);
            }
        }
    }
    (up, down)
}

/// What barriers mean for each function.
pub fn analyze_fpenv_effects(module: &Module) -> (r: FpenvEffects)
    ensures
        r.may_cross_fpenv_barrier@.len() == module@.functions.len(),
        r.may_run_in_dynamic_fpenv@.len() == module@.functions.len(),
        forall|a: int|
            0 <= a < module@.functions.len() ==> #[trigger] r.may_cross_fpenv_barrier@[a]
                == may_run(module@, |op: Op| is_barrier(op), a),
        forall|a: int|
            0 <= a < module@.functions.len() ==> #[trigger] r.may_run_in_dynamic_fpenv@[a]
                == may_run_among(module@, |op: Op| is_barrier(op), a),
{
    let (up, down) = effects(module, Question::Barrier);
    proof {
        assert((|op: Op| Question::Barrier.asks(op)) =~= (|op: Op| is_barrier(op)));
    }
    FpenvEffects { may_cross_fpenv_barrier: up, may_run_in_dynamic_fpenv: down }
}

/// What changes of the rounding mode mean for each function.
pub fn analyze_rounding_effects(module: &Module) -> (r: RoundingEffects)
    ensures
        r.may_run_after_change@.len() == module@.functions.len(),
        forall|a: int|
            0 <= a < module@.functions.len() ==> #[trigger] r.may_run_after_change@[a]
                == may_run_among(module@, |op: Op| may_change_rounding(op), a),
{
    let (_, down) = effects(module, Question::Rounding);
    proof {
        assert((|op: Op| Question::Rounding.asks(op)) =~= (|op: Op| may_change_rounding(op)));
    }
    RoundingEffects { may_run_after_change: down }
}

} // verus!
