//! Which internal calls can be dropped when their results are not used.
//!
//! A function is droppable where it is declared pure, returns a value, and
//! neither it nor anything it calls has an effect that can be observed.

use crate::ids::{same_id, IdSet};
use crate::ir::inst::{
    FuncRef, FuncView, Function, InstKind, InstView, Module, ModuleView, Op, TermView, Terminator,
    ValueId,
};
use crate::ir::types::IrType;
use crate::opt::fpenv::{
    analyze_fpenv_effects, call_edges, fpenv_sensitive, is_barrier, is_fpenv_sensitive,
    lemma_chains, may_enter, may_run_among,
};
use crate::opt::graph::{
    graph_view, leads, lemma_turned, linked, reach_from, reached, reaches, reversed, turned,
};
use crate::opt::insts::{all_insts, insts_of, refs_view};
use vstd::prelude::*;

verus! {

/// Does instruction `b` give the address of an element of what `a` gives?
pub open spec fn derived_from(a: InstView, b: InstView) -> bool {
    b.kind.op is GetElementPtr && b.kind.args[0] == a.id
}

/// Is `p` a chain of addresses of the list, each an element address of the one
/// before, that starts at a stack slot?
pub open spec fn slot_chain(s: Seq<InstView>, p: Seq<int>) -> bool {
    &&& p.len() > 0
    &&& forall|i: int| 0 <= i < p.len() ==> 0 <= #[trigger] p[i] < s.len()
    &&& s[p[0]].kind.op is Alloca
    &&& forall|i: int| 0 <= i < p.len() - 1 ==> derived_from(#[trigger] s[p[i]], s[p[i + 1]])
}

/// Is `v` an address within the stack frame of the function?
pub open spec fn local_address(f: FuncView, v: ValueId) -> bool {
    exists|p: Seq<int>| #[trigger] slot_chain(insts_of(f), p) && insts_of(f)[p.last()].id == v
}

/// Does an instruction have an effect outside the function, by itself?
///
/// A store within the stack frame has none, nor has a load, unlike a volatile
/// store. Floating-point operations count
/// where the environment is observed.
pub open spec fn observable(f: FuncView, i: InstView, fp: bool) -> bool {
    ||| fp && fpenv_sensitive(i.kind.op)
    ||| i.kind.op is Store && !local_address(f, i.kind.args[1])
    ||| i.kind.op is VStore && !local_address(f, i.kind.args[1])
    ||| i.kind.op is VolatileStore
    ||| i.kind.op is RuntimeCall
    ||| i.kind.op is CallExternal
    ||| i.kind.op is CallIndirect
}

/// Is no effect of the function's own body observable?
pub open spec fn effect_free(f: FuncView, fp: bool) -> bool {
    &&& forall|k: int| 0 <= k < insts_of(f).len() ==> !observable(f, #[trigger] insts_of(f)[k], fp)
    &&& forall|b: int|
        0 <= b < f.blocks.len() ==> (#[trigger] f.blocks[b]).term != Some(TermView::Unreachable)
}

/// Does the function call a function that the module does not have?
pub open spec fn calls_missing(f: FuncView, n: nat) -> bool {
    exists|k: int|
        0 <= k < insts_of(f).len() && ((#[trigger] insts_of(f)[k]).kind.op matches Op::CallInternal(
            i,
        ) && i >= n)
}

/// May calls of the function be dropped, as far as the function itself goes?
pub open spec fn sound_alone(f: FuncView, fp: bool, n: nat) -> bool {
    f.return_type != IrType::Void && f.is_pure && effect_free(f, fp) && !calls_missing(f, n)
}

/// May calls of the function numbered `a` be dropped when the result is not
/// used? Everything that the function may enter must allow it.
pub open spec fn discardable(m: ModuleView, fp: Seq<bool>, a: int) -> bool {
    forall|b: int| #[trigger]
        may_enter(m, a, b) ==> sound_alone(m.functions[b], fp[b], m.functions.len())
}

/// What is known of calls of an internal function.
#[derive(Clone, Copy, Debug, PartialEq, Eq, Structural)]
pub struct InternalCallDceInfo {
    pub discardable_when_unused: bool,
}

fn derivations(func: &Function) -> (r: (Vec<Vec<usize>>, Vec<bool>))
    ensures
        r.0@.len() == insts_of(func@).len(),
        r.1@.len() == insts_of(func@).len(),
        forall|a: int, b: int| #[trigger]
            linked(graph_view(r.0@), a, b) == (0 <= a < insts_of(func@).len() && 0 <= b < insts_of(
                func@,
            ).len() && derived_from(insts_of(func@)[a], insts_of(func@)[b])),
        forall|a: int|
            0 <= a < r.1@.len() ==> (#[trigger] r.1@[a] == insts_of(func@)[a].kind.op is Alloca),
{
    let list = all_insts(func);
    let ghost s = insts_of(func@);
    let n: usize = list.len();
    let mut g: Vec<Vec<usize>> = Vec::new();
    let mut marks: Vec<bool> = Vec::new();
    let mut a: usize = 0;
    while a < n
        invariant
            a <= n,
            n == list@.len(),
            s == insts_of(func@),
            s == refs_view(list@),
            g@.len() == a,
            marks@.len() == a,
            forall|x: int, y: usize|
                0 <= x < a ==> (#[trigger] g@[x]@.contains(y)) == (y < n && derived_from(
                    s[x],
                    s[y as int],
                )),
            forall|x: int| 0 <= x < a ==> (#[trigger] marks@[x] == s[x].kind.op is Alloca),
        decreases n - a,
    {
        proof {
            assert(s[a as int] == list@[a as int]@);
        }
        let slot = match &list[a].kind {
            InstKind::Alloca(_) => true,
            InstKind::Call(callee, _) => match callee {
                FuncRef::Internal(_) => false,
                FuncRef::External(_) => false,
                FuncRef::Indirect(_) => false,
            },
            _ => false,
        };
        let mut next: Vec<usize> = Vec::new();
        let mut b: usize = 0;
        while b < n
            invariant
                a < n,
                b <= n,
                n == list@.len(),
                s == refs_view(list@),
                s[a as int] == list@[a as int]@,
                forall|y: usize|
                    (#[trigger] next@.contains(y)) == (y < b && derived_from(
                        s[a as int],
                        s[y as int],
                    )),
            decreases n - b,
        {
            let ghost before = next@;
            proof {
                assert(s[b as int] == list@[b as int]@);
            }
            let hit = match &list[b].kind {
                InstKind::GetElementPtr(base, _) => same_id(*base, list[a].id),
                InstKind::Call(callee, _) => match callee {
                    FuncRef::Internal(_) => false,
                    FuncRef::External(_) => false,
                    FuncRef::Indirect(_) => false,
                },
                _ => false,
            };
            if hit {
                next.push(b);
                proof {
                    assert forall|y: usize| (#[trigger] next@.contains(y)) == (y < b + 1
                        && derived_from(s[a as int], s[y as int])) by {
                        assert(next@[next@.len() - 1] == b);
                        if before.contains(y) {
                            assert(next@[before.index_of(y)] == y);
                        }
                        if next@.contains(y) && y != b {
                            assert(before[next@.index_of(y)] == y);
                        }
                    }
                }
            }
            b = b + 1;
        }
        g.push(next);
        marks.push(slot);
        a = a + 1;
    }
    proof {
        let gv = graph_view(g@);
        assert forall|x: int, y: int| #[trigger]
            linked(gv, x, y) == (0 <= x < s.len() && 0 <= y < s.len() && derived_from(s[x], s[y])) by {
            if 0 <= x < n && 0 <= y < n {
                assert(gv[x] == g@[x]@);
                assert(g@[x]@.contains(y as usize) == derived_from(s[x], s[y]));
            }
        }
    }
    (g, marks)
}

proof fn lemma_slot_chain(s: Seq<InstView>, g: Seq<Seq<usize>>, marks: Seq<bool>, b: int)
    requires
        g.len() == s.len(),
        marks.len() == s.len(),
        forall|x: int, y: int| #[trigger]
            linked(g, x, y) == (0 <= x < s.len() && 0 <= y < s.len() && derived_from(s[x], s[y])),
        forall|a: int| 0 <= a < marks.len() ==> (#[trigger] marks[a] == s[a].kind.op is Alloca),
    ensures
        reached(g, marks, b) == exists|p: Seq<int>| #[trigger] slot_chain(s, p) && p.last() == b,
{
    reveal(reached);
    if reached(g, marks, b) {
        let a = choose|a: int| 0 <= a < marks.len() && #[trigger] marks[a] && reaches(g, a, b);
        let p = choose|p: Seq<int>| leads(g, p, a, b);
        assert forall|i: int| 0 <= i < p.len() - 1 implies derived_from(
            #[trigger] s[p[i]],
            s[p[i + 1]],
        ) by {
            assert(linked(g, p[i], p[i + 1]));
        }
        assert(slot_chain(s, p));
    }
    if exists|p: Seq<int>| #[trigger] slot_chain(s, p) && p.last() == b {
        let p = choose|p: Seq<int>| #[trigger] slot_chain(s, p) && p.last() == b;
        assert forall|i: int| 0 <= i < p.len() - 1 implies #[trigger] linked(g, p[i], p[i + 1]) by {
            assert(derived_from(s[p[i]], s[p[i + 1]]));
        }
        assert(leads(g, p, p[0], b));
        assert(0 <= p[0] < s.len());
        assert(marks[p[0]]);
    }
}

/// Every address within the stack frame of the function.
pub fn local_stack_addresses(func: &Function) -> (r: IdSet<ValueId>)
    ensures
        forall|v: ValueId| (#[trigger] r@.contains(v)) == local_address(func@, v),
{
    let list = all_insts(func);
    let ghost s = insts_of(func@);
    let (g, marks) = derivations(func);
    let hit = reach_from(&g, &marks);
    let ghost gv = graph_view(g@);
    let mut local: IdSet<ValueId> = IdSet::new();
    let mut i: usize = 0;
    while i < list.len()
        invariant
            i <= list@.len(),
            s == refs_view(list@),
            hit@.len() == s.len(),
            forall|v: ValueId|
                (#[trigger] local@.contains(v)) == (exists|k: int|
                    0 <= k < i && #[trigger] hit@[k] && s[k].id == v),
        decreases list@.len() - i,
    {
        let ghost before = local@;
        proof {
            assert(s[i as int] == list@[i as int]@);
        }
        if hit[i] {
            local.insert(list[i].id);
        }
        proof {
            assert forall|v: ValueId| (#[trigger] local@.contains(v)) == (exists|k: int|
                0 <= k < i + 1 && #[trigger] hit@[k] && s[k].id == v) by {
                if before.contains(v) {
                    let k = choose|k: int| 0 <= k < i && #[trigger] hit@[k] && s[k].id == v;
                    assert(hit@[k]);
                }
                if hit@[i as int] && s[i as int].id == v {
                    assert(local@.contains(v));
                }
            }
        }
        i = i + 1;
    }
    proof {
        assert forall|v: ValueId| (#[trigger] local@.contains(v)) == local_address(func@, v) by {
            if local@.contains(v) {
                let k = choose|k: int| 0 <= k < i && #[trigger] hit@[k] && s[k].id == v;
                lemma_slot_chain(s, gv, marks@, k);
            }
            if local_address(func@, v) {
                let p = choose|p: Seq<int>| #[trigger] slot_chain(s, p) && s[p.last()].id == v;
                lemma_slot_chain(s, gv, marks@, p.last());
                assert(0 <= p[p.len() - 1] < s.len());
                assert(hit@[p.last()]);
            }
        }
    }
    local
}

fn is_observable(inst: &crate::ir::inst::Inst, local: &IdSet<ValueId>, fp: bool, Ghost(f): Ghost<
    FuncView,
>) -> (r: bool)
    requires
        forall|v: ValueId| (#[trigger] local@.contains(v)) == local_address(f, v),
    ensures
        r == observable(f, inst@, fp),
{
    if fp && is_fpenv_sensitive(&inst.kind) {
        return true;
    }
    match &inst.kind {
        InstKind::Store(_, addr) => !local.contains(addr),
        InstKind::VStore(_, addr) => !local.contains(addr),
        InstKind::VolatileStore(_, _) => true,
        InstKind::RuntimeCall(_, _) => true,
        InstKind::Call(callee, _) => match callee {
            FuncRef::Internal(_) => false,
            FuncRef::External(_) => true,
            FuncRef::Indirect(_) => true,
        },
        _ => false,
    }
}

fn body_is_effect_free(func: &Function, fp: bool) -> (r: bool)
    ensures
        r == effect_free(func@, fp),
{
    let local = local_stack_addresses(func);
    let list = all_insts(func);
    let ghost s = insts_of(func@);
    let mut i: usize = 0;
    while i < list.len()
        invariant
            i <= list@.len(),
            s == insts_of(func@),
            s == refs_view(list@),
            forall|v: ValueId| (#[trigger] local@.contains(v)) == local_address(func@, v),
            forall|k: int| 0 <= k < i ==> !observable(func@, #[trigger] s[k], fp),
        decreases list@.len() - i,
    {
        proof {
            assert(s[i as int] == list@[i as int]@);
        }
        if is_observable(list[i], &local, fp, Ghost(func@)) {
            return false;
        }
        i = i + 1;
    }
    let mut b: usize = 0;
    while b < func.blocks.len()
        invariant
            b <= func.blocks@.len(),
            forall|k: int|
                0 <= k < b ==> (#[trigger] func@.blocks[k]).term != Some(TermView::Unreachable),
        decreases func.blocks@.len() - b,
    {
        proof {
            assert(func@.blocks[b as int] == func.blocks@[b as int]@);
        }
        match &func.blocks[b].terminator {
            Some(Terminator::Unreachable) => {
                return false;
            },
            _ => {},
        }
        b = b + 1;
    }
    true
}

fn calls_are_present(func: &Function, n: usize) -> (r: bool)
    ensures
        r == !calls_missing(func@, n as nat),
{
    let list = all_insts(func);
    let ghost s = insts_of(func@);
    let mut i: usize = 0;
    while i < list.len()
        invariant
            i <= list@.len(),
            s == insts_of(func@),
            s == refs_view(list@),
            forall|k: int|
                0 <= k < i ==> !((#[trigger] s[k]).kind.op matches Op::CallInternal(c) && c >= n),
        decreases list@.len() - i,
    {
        proof {
            assert(s[i as int] == list@[i as int]@);
        }
        match &list[i].kind {
            InstKind::Call(callee, _) => match callee {
                FuncRef::Internal(c) => {
                    if *c as usize >= n {
                        return false;
                    }
                },
                FuncRef::External(_) => {},
                FuncRef::Indirect(_) => {},
            },
            _ => {},
        }
        i = i + 1;
    }
    true
}

/// Which internal calls can be dropped, where `fp` says which functions run
/// under an observed floating-point environment.
pub fn derive_internal_call_dce_info_for_context(module: &Module, fp: &Vec<bool>) -> (r: Vec<
    InternalCallDceInfo,
>)
    requires
        fp@.len() == module@.functions.len(),
    ensures
        r@.len() == module@.functions.len(),
        forall|a: int|
            0 <= a < r@.len() ==> (#[trigger] r@[a]).discardable_when_unused == discardable(
                module@,
                fp@,
                a,
            ),
{
    let n: usize = module.functions.len();
    let ghost m = module@;
    let mut bad: Vec<bool> = Vec::new();
    let mut i: usize = 0;
    while i < n
        invariant
            i <= n,
            m == module@,
            n == m.functions.len(),
            n == module.functions@.len(),
            fp@.len() == n,
            bad@.len() == i,
            forall|a: int|
                0 <= a < i ==> #[trigger] bad@[a] == !sound_alone(m.functions[a], fp@[a], n as nat),
        decreases n - i,
    {
        let func = &module.functions[i];
        proof {
            assert(m.functions[i as int] == func@);
        }
        let value = match &func.return_type {
            IrType::Void => false,
            _ => true,
        };
        let sound = value && func.is_pure && body_is_effect_free(func, fp[i]) && calls_are_present(
            func,
            n,
        );
        bad.push(!sound);
        i = i + 1;
    }
    let g = call_edges(module);
    let h = reversed(&g);
    let spoilt = reach_from(&h, &bad);
    let mut out: Vec<InternalCallDceInfo> = Vec::new();
    let mut k: usize = 0;
    proof {
        let gv = graph_view(g@);
        let hv = graph_view(h@);
        reveal(reached);
        assert(turned(hv, gv));
        assert forall|a: int| 0 <= a < n implies #[trigger] spoilt@[a] == !discardable(m, fp@, a) by {
            if spoilt@[a] {
                let b = choose|b: int| 0 <= b < n && #[trigger] bad@[b] && reaches(hv, b, a);
                lemma_turned(gv, hv, b, a);
                lemma_chains(m, gv, a, b);
                assert(may_enter(m, a, b));
            }
            if !discardable(m, fp@, a) {
                let b = choose|b: int| #[trigger]
                    may_enter(m, a, b) && !sound_alone(m.functions[b], fp@[b], n as nat);
                lemma_chains(m, gv, a, b);
                lemma_turned(hv, gv, a, b);
                let route = choose|r: Seq<int>| leads(gv, r, a, b);
                assert(0 <= route[route.len() - 1] < n);
                assert(bad@[b]);
            }
        }
    }
    while k < n
        invariant
            k <= n,
            n == spoilt@.len(),
            out@.len() == k,
            forall|a: int| 0 <= a < n ==> #[trigger] spoilt@[a] == !discardable(m, fp@, a),
            forall|a: int|
                0 <= a < k ==> (#[trigger] out@[a]).discardable_when_unused == discardable(m, fp@, a),
        decreases n - k,
    {
        out.push(InternalCallDceInfo { discardable_when_unused: !spoilt[k] });
        k = k + 1;
    }
    out
}

/// Which functions may run under an observed floating-point environment.
pub open spec fn observed_fp(m: ModuleView) -> Seq<bool> {
    Seq::new(m.functions.len(), |i: int| may_run_among(m, |op: Op| is_barrier(op), i))
}

/// Which internal calls can be dropped.
pub fn derive_internal_call_dce_info(module: &Module) -> (r: Vec<InternalCallDceInfo>)
    ensures
        r@.len() == module@.functions.len(),
        forall|a: int|
            0 <= a < r@.len() ==> (#[trigger] r@[a]).discardable_when_unused == discardable(
                module@,
                observed_fp(module@),
                a,
            ),
{
    let effects = analyze_fpenv_effects(module);
    proof {
        assert(effects.may_run_in_dynamic_fpenv@ =~= observed_fp(module@));
    }
    derive_internal_call_dce_info_for_context(module, &effects.may_run_in_dynamic_fpenv)
}

} // verus!
