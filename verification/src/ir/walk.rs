//! Walking the IR: operands, terminators, and the control-flow graph.

use crate::ids::{copy_list, extend_list, IdMap};
use crate::ir::inst::{
    BasicBlock, BlockId, BlockView, FuncRef, FuncView, Function, InstKind, InstView, KindView,
    TermView, Terminator, ValueId,
};
use vstd::prelude::*;

verus! {

/// Every value that an instruction reads, in order.
pub fn inst_uses(kind: &InstKind) -> (r: Vec<ValueId>)
    ensures
        r@ == kind@.args,
{
    let r: Vec<ValueId> = match kind {
        InstKind::ConstInt(_, _)
        | InstKind::ConstFloat(_, _)
        | InstKind::ConstBool(_)
        | InstKind::ConstString(_)
        | InstKind::Undef(_)
        | InstKind::Alloca(_)
        | InstKind::GlobalAddr(_) => vec![],
        InstKind::IAdd(a, b)
        | InstKind::ISub(a, b)
        | InstKind::IMul(a, b)
        | InstKind::IDiv(a, b)
        | InstKind::IMod(a, b)
        | InstKind::FAdd(a, b)
        | InstKind::FSub(a, b)
        | InstKind::FMul(a, b)
        | InstKind::FDiv(a, b)
        | InstKind::FPow(a, b)
        | InstKind::ICmp(_, a, b)
        | InstKind::FCmp(_, a, b)
        | InstKind::And(a, b)
        | InstKind::Or(a, b)
        | InstKind::BitAnd(a, b)
        | InstKind::BitOr(a, b)
        | InstKind::BitXor(a, b)
        | InstKind::Shl(a, b)
        | InstKind::LShr(a, b)
        | InstKind::AShr(a, b)
        | InstKind::Store(a, b)
        | InstKind::VolatileStore(a, b)
        | InstKind::InsertField(a, _, b)
        | InstKind::VAdd(a, b)
        | InstKind::VSub(a, b)
        | InstKind::VMul(a, b)
        | InstKind::VDiv(a, b)
        | InstKind::VMin(a, b)
        | InstKind::VMax(a, b)
        | InstKind::VICmp(_, a, b)
        | InstKind::VFCmp(_, a, b)
        | InstKind::VStore(a, b)
        | InstKind::VInsert(a, _, b) => vec![*a, *b],
        InstKind::INeg(a)
        | InstKind::FNeg(a)
        | InstKind::FAbs(a)
        | InstKind::FSqrt(a)
        | InstKind::Not(a)
        | InstKind::BitNot(a)
        | InstKind::CountLeadingZeros(a)
        | InstKind::CountTrailingZeros(a)
        | InstKind::PopCount(a)
        | InstKind::IntToFloat(a, _)
        | InstKind::FloatToInt(a, _)
        | InstKind::FloatExtend(a, _)
        | InstKind::FloatTrunc(a, _)
        | InstKind::IntExtend(a, _, _)
        | InstKind::IntTrunc(a, _)
        | InstKind::PtrToInt(a)
        | InstKind::IntToPtr(a, _)
        | InstKind::Load(a)
        | InstKind::VolatileLoad(a)
        | InstKind::ExtractField(a, _)
        | InstKind::VNeg(a)
        | InstKind::VAbs(a)
        | InstKind::VSqrt(a)
        | InstKind::VLoad(a)
        | InstKind::VBitcast(a)
        | InstKind::VExtract(a, _)
        | InstKind::VBroadcast(a)
        | InstKind::VReduceSum(a)
        | InstKind::VReduceMin(a)
        | InstKind::VReduceMax(a) => vec![*a],
        InstKind::Select(a, b, c)
        | InstKind::VFma(a, b, c)
        | InstKind::VSelect(a, b, c) => vec![*a, *b, *c],
        InstKind::GetElementPtr(base, list) => {
            let mut uses = vec![*base];
            extend_list(&mut uses, list);
            uses
        },
        InstKind::Call(FuncRef::Indirect(target), list) => {
            let mut uses = vec![*target];
            extend_list(&mut uses, list);
            uses
        },
        InstKind::Call(_, list) | InstKind::RuntimeCall(_, list) => copy_list(list),
    };
    assert(r@ =~= kind@.args);
    r
}

/// Every value that a terminator reads, in order.
pub open spec fn term_uses(t: TermView) -> Seq<ValueId> {
    match t {
        TermView::Return(None) => Seq::empty(),
        TermView::Return(Some(v)) => seq![v],
        TermView::Branch(_, args) => args,
        TermView::CondBranch { cond, true_args, false_args, .. } => seq![cond] + true_args
            + false_args,
        TermView::Switch { selector, .. } => seq![selector],
        TermView::Unreachable => Seq::empty(),
    }
}

/// Every block that a terminator may continue in, in order.
pub open spec fn term_targets(t: TermView) -> Seq<BlockId> {
    match t {
        TermView::Return(_) => Seq::empty(),
        TermView::Branch(dest, _) => seq![dest],
        TermView::CondBranch { true_dest, false_dest, .. } => seq![true_dest, false_dest],
        TermView::Switch { cases, default, .. } => case_targets(cases).push(default),
        TermView::Unreachable => Seq::empty(),
    }
}

/// The targets of the cases of a switch.
pub open spec fn case_targets(cases: Seq<(i64, BlockId)>) -> Seq<BlockId> {
    Seq::new(cases.len(), |i: int| cases[i].1)
}

/// Every value that a terminator reads, in order.
pub fn terminator_uses(term: &Terminator) -> (r: Vec<ValueId>)
    ensures
        r@ == term_uses(term@),
{
    let r: Vec<ValueId> = match term {
        Terminator::Return(None) | Terminator::Unreachable => vec![],
        Terminator::Return(Some(v)) => vec![*v],
        Terminator::Branch(_, args) => copy_list(args),
        Terminator::CondBranch { cond, true_args, false_args, .. } => {
            let mut uses = vec![*cond];
            extend_list(&mut uses, true_args);
            extend_list(&mut uses, false_args);
            uses
        },
        Terminator::Switch { selector, .. } => vec![*selector],
    };
    assert(r@ =~= term_uses(term@));
    r
}

/// Every block that a terminator may continue in, in order.
pub fn terminator_targets(term: &Terminator) -> (r: Vec<BlockId>)
    ensures
        r@ == term_targets(term@),
{
    let r: Vec<BlockId> = match term {
        Terminator::Return(_) | Terminator::Unreachable => vec![],
        Terminator::Branch(d, _) => vec![*d],
        Terminator::CondBranch { true_dest, false_dest, .. } => vec![*true_dest, *false_dest],
        Terminator::Switch { cases, default, .. } => {
            let mut t: Vec<BlockId> = Vec::new();
            let mut i: usize = 0;
            while i < cases.len()
                invariant
                    i <= cases.len(),
                    t@ == case_targets(cases@).take(i as int),
                decreases cases.len() - i,
            {
                t.push(cases[i].1);
                proof {
                    assert(case_targets(cases@).take(i + 1) =~= case_targets(cases@).take(
                        i as int,
                    ).push(cases@[i as int].1));
                }
                i = i + 1;
            }
            t.push(*default);
            proof {
                assert(t@ =~= case_targets(cases@).push(*default));
            }
            t
        },
    };
    assert(r@ =~= term_targets(term@));
    r
}

/// Does `trace` hold the states between calls of `r`, one for each value of `from`
/// in order, that leave the values of `to`?
pub open spec fn is_run<S, F: Fn(S, ValueId) -> (S, ValueId)>(
    r: F,
    from: Seq<ValueId>,
    to: Seq<ValueId>,
    trace: Seq<S>,
) -> bool {
    &&& to.len() == from.len()
    &&& trace.len() == from.len() + 1
    &&& forall|i: int|
        0 <= i < from.len() ==> call_ensures(r, (trace[i], from[i]), (trace[i + 1], #[trigger] to[i]))
}

/// Is `r` called once for each value of `from`, in order, the first time with the
/// state `start`, then with the state that the call before left, and does that
/// leave the values of `to` and in the end the state `end`?
pub open spec fn called_on_each<S, F: Fn(S, ValueId) -> (S, ValueId)>(
    r: F,
    start: S,
    from: Seq<ValueId>,
    to: Seq<ValueId>,
    end: S,
) -> bool {
    exists|trace: Seq<S>| #[trigger]
        is_run(r, from, to, trace) && trace[0] == start && trace.last() == end
}

/// Calls on some values, and then on others, are calls on all of them.
proof fn lemma_calls_join<S, F: Fn(S, ValueId) -> (S, ValueId)>(
    r: F,
    start: S,
    a: Seq<ValueId>,
    x: Seq<ValueId>,
    mid: S,
    b: Seq<ValueId>,
    y: Seq<ValueId>,
    end: S,
)
    requires
        called_on_each(r, start, a, x, mid),
        called_on_each(r, mid, b, y, end),
    ensures
        called_on_each(r, start, a + b, x + y, end),
{
    let s = choose|s: Seq<S>| #[trigger]
        is_run(r, a, x, s) && s[0] == start && s.last() == mid;
    let t = choose|t: Seq<S>| #[trigger] is_run(r, b, y, t) && t[0] == mid && t.last() == end;
    let all = s + t.skip(1);
    assert forall|i: int| 0 <= i < (a + b).len() implies call_ensures(
        r,
        (all[i], (a + b)[i]),
        (all[i + 1], #[trigger] (x + y)[i]),
    ) by {
        let n = a.len() as int;
        if i < n {
            assert((x + y)[i] == x[i]);
        } else {
            assert((x + y)[i] == y[i - n]);
            assert(all[i] == t[i - n]);
            assert(all[i + 1] == t[i - n + 1]);
        }
    }
    assert(is_run(r, a + b, x + y, all));
}

fn visit<S, F: Fn(S, ValueId) -> (S, ValueId)>(a: &mut ValueId, state: S, r: &F) -> (end: S)
    requires
        forall|s: S, v: ValueId| call_requires(*r, (s, v)),
    ensures
        called_on_each(*r, state, seq![*old(a)], seq![*final(a)], end),
{
    let ghost u = *a;
    let ghost s = state;
    let (end, w) = r(state, *a);
    *a = w;
    proof {
        assert(is_run(*r, seq![u], seq![w], seq![s, end]));
    }
    end
}

fn visit_two<S, F: Fn(S, ValueId) -> (S, ValueId)>(
    a: &mut ValueId,
    b: &mut ValueId,
    state: S,
    r: &F,
) -> (end: S)
    requires
        forall|s: S, v: ValueId| call_requires(*r, (s, v)),
    ensures
        called_on_each(*r, state, seq![*old(a), *old(b)], seq![*final(a), *final(b)], end),
{
    let ghost (u, v, s) = (*a, *b, state);
    let mid = visit(a, state, r);
    let ghost m = mid;
    let end = visit(b, mid, r);
    proof {
        lemma_calls_join(*r, s, seq![u], seq![*a], m, seq![v], seq![*b], end);
        assert(seq![u] + seq![v] =~= seq![u, v]);
        assert(seq![*a] + seq![*b] =~= seq![*a, *b]);
    }
    end
}

fn visit_three<S, F: Fn(S, ValueId) -> (S, ValueId)>(
    a: &mut ValueId,
    b: &mut ValueId,
    c: &mut ValueId,
    state: S,
    r: &F,
) -> (end: S)
    requires
        forall|s: S, v: ValueId| call_requires(*r, (s, v)),
    ensures
        called_on_each(
            *r,
            state,
            seq![*old(a), *old(b), *old(c)],
            seq![*final(a), *final(b), *final(c)],
            end,
        ),
{
    let ghost (u, v, w, s) = (*a, *b, *c, state);
    let mid = visit_two(a, b, state, r);
    let ghost m = mid;
    let end = visit(c, mid, r);
    proof {
        lemma_calls_join(*r, s, seq![u, v], seq![*a, *b], m, seq![w], seq![*c], end);
        assert(seq![u, v] + seq![w] =~= seq![u, v, w]);
        assert(seq![*a, *b] + seq![*c] =~= seq![*a, *b, *c]);
    }
    end
}

fn visit_list<S, F: Fn(S, ValueId) -> (S, ValueId)>(list: &mut Vec<ValueId>, state: S, r: &F) -> (end:
    S)
    requires
        forall|s: S, v: ValueId| call_requires(*r, (s, v)),
    ensures
        called_on_each(*r, state, old(list)@, final(list)@, end),
{
    let ghost s = state;
    let ghost from = list@;
    let mut now: S = state;
    let mut i: usize = 0;
    proof {
        assert(is_run(*r, from.take(0), list@.take(0), seq![s]));
    }
    while i < list.len()
        invariant
            i <= list@.len(),
            list@.len() == from.len(),
            forall|s: S, v: ValueId| call_requires(*r, (s, v)),
            called_on_each(*r, s, from.take(i as int), list@.take(i as int), now),
            forall|k: int| i <= k < list@.len() ==> list@[k] == from[k],
        decreases list@.len() - i,
    {
        let ghost before = list@;
        let ghost m = now;
        let (next, w) = r(now, list[i]);
        list.set(i, w);
        now = next;
        proof {
            let u = from[i as int];
            assert(is_run(*r, seq![u], seq![w], seq![m, next]));
            lemma_calls_join(
                *r,
                s,
                from.take(i as int),
                before.take(i as int),
                m,
                seq![u],
                seq![w],
                next,
            );
            assert(from.take(i as int) + seq![u] =~= from.take(i + 1));
            assert(before.take(i as int) + seq![w] =~= list@.take(i + 1));
        }
        i = i + 1;
    }
    proof {
        assert(from.take(i as int) =~= from);
        assert(list@.take(i as int) =~= list@);
    }
    now
}

fn visit_with_list<S, F: Fn(S, ValueId) -> (S, ValueId)>(
    a: &mut ValueId,
    list: &mut Vec<ValueId>,
    state: S,
    r: &F,
) -> (end: S)
    requires
        forall|s: S, v: ValueId| call_requires(*r, (s, v)),
    ensures
        called_on_each(
            *r,
            state,
            seq![*old(a)] + old(list)@,
            seq![*final(a)] + final(list)@,
            end,
        ),
{
    let ghost (u, from, s) = (*a, list@, state);
    let mid = visit(a, state, r);
    let ghost m = mid;
    let end = visit_list(list, mid, r);
    proof {
        lemma_calls_join(*r, s, seq![u], seq![*a], m, from, list@, end);
    }
    end
}

/// Applies `r` to every operand slot of an instruction in place.
///
/// `r` takes the value of the slot and gives the one to leave there. It is called
/// once for each operand, in the order in which `inst_uses` lists them. Whatever
/// it has to keep from call to call is handed through as the state.
#[verifier::rlimit(100)]
pub fn for_each_operand_mut<S, F: Fn(S, ValueId) -> (S, ValueId)>(
    kind: &mut InstKind,
    state: S,
    r: &F,
) -> (end: S)
    requires
        forall|s: S, v: ValueId| call_requires(*r, (s, v)),
    ensures
        final(kind)@.op == old(kind)@.op,
        final(kind)@.args.len() == old(kind)@.args.len(),
        called_on_each(*r, state, old(kind)@.args, final(kind)@.args, end),
{
    let ghost s = state;
    proof {
        assert(is_run(*r, Seq::<ValueId>::empty(), Seq::<ValueId>::empty(), seq![s]));
    }
    match kind {
        InstKind::ConstInt(_, _) => state,
        InstKind::ConstFloat(_, _) => state,
        InstKind::ConstBool(_) => state,
        InstKind::ConstString(_) => state,
        InstKind::Undef(_) => state,
        InstKind::IAdd(a, b) => visit_two(a, b, state, r),
        InstKind::ISub(a, b) => visit_two(a, b, state, r),
        InstKind::IMul(a, b) => visit_two(a, b, state, r),
        InstKind::IDiv(a, b) => visit_two(a, b, state, r),
        InstKind::IMod(a, b) => visit_two(a, b, state, r),
        InstKind::INeg(a) => visit(a, state, r),
        InstKind::FAdd(a, b) => visit_two(a, b, state, r),
        InstKind::FSub(a, b) => visit_two(a, b, state, r),
        InstKind::FMul(a, b) => visit_two(a, b, state, r),
        InstKind::FDiv(a, b) => visit_two(a, b, state, r),
        InstKind::FPow(a, b) => visit_two(a, b, state, r),
        InstKind::FNeg(a) => visit(a, state, r),
        InstKind::FAbs(a) => visit(a, state, r),
        InstKind::FSqrt(a) => visit(a, state, r),
        InstKind::ICmp(_, a, b) => visit_two(a, b, state, r),
        InstKind::FCmp(_, a, b) => visit_two(a, b, state, r),
        InstKind::And(a, b) => visit_two(a, b, state, r),
        InstKind::Or(a, b) => visit_two(a, b, state, r),
        InstKind::Not(a) => visit(a, state, r),
        InstKind::Select(a, b, c) => visit_three(a, b, c, state, r),
        InstKind::BitAnd(a, b) => visit_two(a, b, state, r),
        InstKind::BitOr(a, b) => visit_two(a, b, state, r),
        InstKind::BitXor(a, b) => visit_two(a, b, state, r),
        InstKind::BitNot(a) => visit(a, state, r),
        InstKind::Shl(a, b) => visit_two(a, b, state, r),
        InstKind::LShr(a, b) => visit_two(a, b, state, r),
        InstKind::AShr(a, b) => visit_two(a, b, state, r),
        InstKind::CountLeadingZeros(a) => visit(a, state, r),
        InstKind::CountTrailingZeros(a) => visit(a, state, r),
        InstKind::PopCount(a) => visit(a, state, r),
        InstKind::IntToFloat(a, _) => visit(a, state, r),
        InstKind::FloatToInt(a, _) => visit(a, state, r),
        InstKind::FloatExtend(a, _) => visit(a, state, r),
        InstKind::FloatTrunc(a, _) => visit(a, state, r),
        InstKind::IntExtend(a, _, _) => visit(a, state, r),
        InstKind::IntTrunc(a, _) => visit(a, state, r),
        InstKind::PtrToInt(a) => visit(a, state, r),
        InstKind::IntToPtr(a, _) => visit(a, state, r),
        InstKind::Alloca(_) => state,
        InstKind::GlobalAddr(_) => state,
        InstKind::Load(a) => visit(a, state, r),
        InstKind::Store(a, b) => visit_two(a, b, state, r),
        InstKind::VolatileLoad(a) => visit(a, state, r),
        InstKind::VolatileStore(a, b) => visit_two(a, b, state, r),
        InstKind::ExtractField(a, _) => visit(a, state, r),
        InstKind::InsertField(a, _, b) => visit_two(a, b, state, r),
        InstKind::VAdd(a, b) => visit_two(a, b, state, r),
        InstKind::VSub(a, b) => visit_two(a, b, state, r),
        InstKind::VMul(a, b) => visit_two(a, b, state, r),
        InstKind::VDiv(a, b) => visit_two(a, b, state, r),
        InstKind::VMin(a, b) => visit_two(a, b, state, r),
        InstKind::VMax(a, b) => visit_two(a, b, state, r),
        InstKind::VNeg(a) => visit(a, state, r),
        InstKind::VAbs(a) => visit(a, state, r),
        InstKind::VSqrt(a) => visit(a, state, r),
        InstKind::VFma(a, b, c) => visit_three(a, b, c, state, r),
        InstKind::VSelect(a, b, c) => visit_three(a, b, c, state, r),
        InstKind::VICmp(_, a, b) => visit_two(a, b, state, r),
        InstKind::VFCmp(_, a, b) => visit_two(a, b, state, r),
        InstKind::VLoad(a) => visit(a, state, r),
        InstKind::VStore(a, b) => visit_two(a, b, state, r),
        InstKind::VBitcast(a) => visit(a, state, r),
        InstKind::VExtract(a, _) => visit(a, state, r),
        InstKind::VInsert(a, _, b) => visit_two(a, b, state, r),
        InstKind::VBroadcast(a) => visit(a, state, r),
        InstKind::VReduceSum(a) => visit(a, state, r),
        InstKind::VReduceMin(a) => visit(a, state, r),
        InstKind::VReduceMax(a) => visit(a, state, r),
        InstKind::GetElementPtr(base, list) => visit_with_list(base, list, state, r),
        InstKind::Call(FuncRef::Indirect(target), list) => visit_with_list(target, list, state, r),
        InstKind::Call(FuncRef::Internal(_), list) => visit_list(list, state, r),
        InstKind::Call(FuncRef::External(_), list) => visit_list(list, state, r),
        InstKind::RuntimeCall(_, list) => visit_list(list, state, r),
    }
}

/// Are both terminators alike but for the values that they read?
pub open spec fn same_shape(a: TermView, b: TermView) -> bool {
    match (a, b) {
        (TermView::Return(None), TermView::Return(None)) => true,
        (TermView::Return(Some(_)), TermView::Return(Some(_))) => true,
        (TermView::Branch(d, x), TermView::Branch(e, y)) => d == e && x.len() == y.len(),
        (
            TermView::CondBranch {
                true_dest: t,
                true_args: ta,
                false_dest: f,
                false_args: fa,
                ..
            },
            TermView::CondBranch {
                true_dest: u,
                true_args: ua,
                false_dest: g,
                false_args: ga,
                ..
            },
        ) => t == u && f == g && ta.len() == ua.len() && fa.len() == ga.len(),
        (
            TermView::Switch { cases: c, default: d, .. },
            TermView::Switch { cases: k, default: e, .. },
        ) => c == k && d == e,
        (TermView::Unreachable, TermView::Unreachable) => true,
        _ => false,
    }
}

/// Applies `r` to every operand slot of a terminator in place, once for each, in
/// the order in which `terminator_uses` lists them. What `r` has to keep from call
/// to call is handed through as the state.
pub fn for_each_terminator_operand_mut<S, F: Fn(S, ValueId) -> (S, ValueId)>(
    term: &mut Terminator,
    state: S,
    r: &F,
) -> (end: S)
    requires
        forall|s: S, v: ValueId| call_requires(*r, (s, v)),
    ensures
        same_shape(old(term)@, final(term)@),
        term_uses(final(term)@).len() == term_uses(old(term)@).len(),
        called_on_each(*r, state, term_uses(old(term)@), term_uses(final(term)@), end),
{
    let ghost s = state;
    proof {
        assert(is_run(*r, Seq::<ValueId>::empty(), Seq::<ValueId>::empty(), seq![s]));
    }
    match term {
        Terminator::Return(None) => state,
        Terminator::Unreachable => state,
        Terminator::Return(Some(v)) => visit(v, state, r),
        Terminator::Branch(_, args) => visit_list(args, state, r),
        Terminator::CondBranch { cond, true_args, false_args, .. } => {
            let ghost (u, x, y) = (*cond, true_args@, false_args@);
            let mid = visit_with_list(cond, true_args, state, r);
            let ghost m = mid;
            let end = visit_list(false_args, mid, r);
            proof {
                lemma_calls_join(
                    *r,
                    s,
                    seq![u] + x,
                    seq![*cond] + true_args@,
                    m,
                    y,
                    false_args@,
                    end,
                );
            }
            end
        },
        Terminator::Switch { selector, .. } => visit(selector, state, r),
    }
}

/// `v`, or what the map has in place of it.
pub open spec fn renamed(v: ValueId, m: Map<ValueId, ValueId>) -> ValueId {
    if m.contains_key(v) {
        m[v]
    } else {
        v
    }
}

/// A list of values, renamed.
pub open spec fn renamed_list(s: Seq<ValueId>, m: Map<ValueId, ValueId>) -> Seq<ValueId> {
    Seq::new(s.len(), |i: int| renamed(s[i], m))
}

/// An instruction with renamed operands.
pub open spec fn renamed_inst(inst: InstView, m: Map<ValueId, ValueId>) -> InstView {
    InstView {
        kind: KindView { op: inst.kind.op, args: renamed_list(inst.kind.args, m) },
        ..inst
    }
}

/// A terminator with renamed operands.
pub open spec fn renamed_term(t: TermView, m: Map<ValueId, ValueId>) -> TermView {
    match t {
        TermView::Return(None) => t,
        TermView::Return(Some(v)) => TermView::Return(Some(renamed(v, m))),
        TermView::Branch(d, args) => TermView::Branch(d, renamed_list(args, m)),
        TermView::CondBranch { cond, true_dest, true_args, false_dest, false_args } => {
            TermView::CondBranch {
                cond: renamed(cond, m),
                true_dest,
                true_args: renamed_list(true_args, m),
                false_dest,
                false_args: renamed_list(false_args, m),
            }
        },
        TermView::Switch { selector, cases, default } => TermView::Switch {
            selector: renamed(selector, m),
            cases,
            default,
        },
        TermView::Unreachable => t,
    }
}

/// A block with renamed operands.
pub open spec fn renamed_block(b: BlockView, m: Map<ValueId, ValueId>) -> BlockView {
    BlockView {
        insts: Seq::new(b.insts.len(), |i: int| renamed_inst(b.insts[i], m)),
        term: match b.term {
            Some(t) => Some(renamed_term(t, m)),
            None => None,
        },
        ..b
    }
}

/// A function with renamed operands; definitions keep their names.
pub open spec fn renamed_func(f: FuncView, m: Map<ValueId, ValueId>) -> FuncView {
    FuncView {
        blocks: Seq::new(f.blocks.len(), |i: int| renamed_block(f.blocks[i], m)),
        ..f
    }
}

/// What a terminator with renamed operands reads.
pub proof fn lemma_renamed_uses(t: TermView, m: Map<ValueId, ValueId>)
    ensures
        term_uses(renamed_term(t, m)) == renamed_list(term_uses(t), m),
{
    assert(term_uses(renamed_term(t, m)) =~= renamed_list(term_uses(t), m));
}

/// Renames the operands of a block.
pub fn substitute_in_block(block: &mut BasicBlock, rewrites: &IdMap<ValueId, ValueId>)
    ensures
        final(block)@ == renamed_block(old(block)@, rewrites@),
{
    let ghost m = rewrites@;
    let r = |s: (), v: ValueId| -> (w: ((), ValueId))
        ensures
            w.1 == renamed(v, rewrites@),
        {
            match rewrites.get(&v) {
                Some(w) => (s, *w),
                None => (s, v),
            }
        };
    let mut i: usize = 0;
    while i < block.insts.len()
        invariant
            i <= block.insts.len(),
            block.insts.len() == old(block).insts.len(),
            block.id == old(block).id,
            block.name == old(block).name,
            block.params == old(block).params,
            block.terminator == old(block).terminator,
            forall|s: (), v: ValueId| call_requires(r, (s, v)),
            forall|s: (), v: ValueId, w: ((), ValueId)|
                call_ensures(r, (s, v), w) ==> w.1 == renamed(v, m),
            forall|k: int|
                0 <= k < i ==> (#[trigger] block.insts@[k])@ == renamed_inst(
                    old(block).insts@[k]@,
                    m,
                ),
            forall|k: int|
                i <= k < block.insts.len() ==> #[trigger] block.insts@[k] == old(block).insts@[k],
        decreases block.insts.len() - i,
    {
        let ghost before = block.insts@[i as int];
        for_each_operand_mut(&mut block.insts[i].kind, (), &r);
        proof {
            lemma_calls_rename(r, before.kind@.args, block.insts@[i as int].kind@.args, m);
            assert(block.insts@[i as int].kind@.args =~= renamed_list(before.kind@.args, m));
        }
        i = i + 1;
    }
    match &mut block.terminator {
        Some(term) => {
            let ghost before = term@;
            for_each_terminator_operand_mut(term, (), &r);
            proof {
                lemma_calls_rename(r, term_uses(before), term_uses(term@), m);
                lemma_renamed_term(before, term@, m);
            }
        },
        None => {},
    }
    proof {
        assert(block@.insts =~= renamed_block(old(block)@, m).insts);
        assert(block@ == renamed_block(old(block)@, m));
    }
}

proof fn lemma_calls_rename<F: Fn((), ValueId) -> ((), ValueId)>(
    r: F,
    from: Seq<ValueId>,
    to: Seq<ValueId>,
    m: Map<ValueId, ValueId>,
)
    requires
        called_on_each(r, (), from, to, ()),
        forall|s: (), v: ValueId, w: ((), ValueId)|
            call_ensures(r, (s, v), w) ==> w.1 == renamed(v, m),
    ensures
        to == renamed_list(from, m),
{
    let trace = choose|t: Seq<()>| #[trigger] is_run(r, from, to, t);
    assert forall|i: int| 0 <= i < to.len() implies to[i] == renamed(from[i], m) by {
        assert(call_ensures(r, (trace[i], from[i]), (trace[i + 1], to[i])));
    }
    assert(to =~= renamed_list(from, m));
}

proof fn lemma_renamed_term(a: TermView, b: TermView, m: Map<ValueId, ValueId>)
    requires
        same_shape(a, b),
        term_uses(a).len() == term_uses(b).len(),
        forall|i: int|
            0 <= i < term_uses(a).len() ==> #[trigger] term_uses(b)[i] == renamed(
                term_uses(a)[i],
                m,
            ),
    ensures
        b == renamed_term(a, m),
{
    let u = term_uses(a);
    let w = term_uses(b);
    match (a, b) {
        (TermView::Return(Some(x)), TermView::Return(Some(y))) => {
            assert(w[0] == renamed(u[0], m));
        },
        (TermView::Branch(_, x), TermView::Branch(_, y)) => {
            assert(y =~= renamed_list(x, m));
        },
        (
            TermView::CondBranch { cond: c, true_args: ta, false_args: fa, .. },
            TermView::CondBranch { cond: d, true_args: ua, false_args: ga, .. },
        ) => {
            assert(w[0] == renamed(u[0], m));
            assert forall|i: int| 0 <= i < ta.len() implies ua[i] == renamed(ta[i], m) by {
                assert(w[i + 1] == ua[i]);
                assert(u[i + 1] == ta[i]);
            }
            assert forall|i: int| 0 <= i < fa.len() implies ga[i] == renamed(fa[i], m) by {
                assert(w[i + 1 + ta.len()] == ga[i]);
                assert(u[i + 1 + ta.len()] == fa[i]);
            }
            assert(ua =~= renamed_list(ta, m));
            assert(ga =~= renamed_list(fa, m));
        },
        (TermView::Switch { selector: x, .. }, TermView::Switch { selector: y, .. }) => {
            assert(w[0] == renamed(u[0], m));
        },
        _ => {},
    }
}

/// Renames the operands of the whole function.
///
/// Definitions keep their names: only operands change.
pub fn substitute_uses_batch(func: &mut Function, rewrites: &IdMap<ValueId, ValueId>)
    ensures
        final(func)@ == renamed_func(old(func)@, rewrites@),
{
    let mut i: usize = 0;
    while i < func.blocks.len()
        invariant
            i <= func.blocks.len(),
            func.blocks.len() == old(func).blocks.len(),
            func@ == (FuncView { blocks: func@.blocks, ..old(func)@ }),
            forall|k: int|
                0 <= k < i ==> (#[trigger] func.blocks@[k])@ == renamed_block(
                    old(func).blocks@[k]@,
                    rewrites@,
                ),
            forall|k: int|
                i <= k < func.blocks.len() ==> #[trigger] func.blocks@[k] == old(func).blocks@[k],
        decreases func.blocks.len() - i,
    {
        substitute_in_block(&mut func.blocks[i], rewrites);
        i = i + 1;
    }
    proof {
        assert(func@.blocks =~= renamed_func(old(func)@, rewrites@).blocks);
    }
}

/// The map that names `to` in place of `from`.
pub open spec fn renaming(from: ValueId, to: ValueId) -> Map<ValueId, ValueId> {
    Map::empty().insert(from, to)
}

/// Makes the whole function read `new_value` wherever it reads `old_value`.
///
/// Definitions keep their names: only operands change.
pub fn substitute_uses(func: &mut Function, old_value: ValueId, new_value: ValueId)
    ensures
        final(func)@ == renamed_func(old(func)@, renaming(old_value, new_value)),
{
    let mut rewrites: IdMap<ValueId, ValueId> = IdMap::new();
    rewrites.insert(old_value, new_value);
    proof {
        assert(rewrites@ =~= renaming(old_value, new_value));
    }
    substitute_uses_batch(func, &rewrites);
}

} // verus!
