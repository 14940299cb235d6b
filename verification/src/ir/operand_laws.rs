//! Which values instructions and terminators read, and where terminators lead.

use crate::ir::inst::{BlockId, FuncRef, InstKind, TermView, ValueId};
use crate::ir::walk::{renamed_term, term_targets, term_uses};
use vstd::prelude::*;

verus! {

/// Does an instruction read `v`?
pub open spec fn reads_value(k: InstKind, v: ValueId) -> bool {
    match k {
        InstKind::IAdd(a, b) => v == a || v == b,
        InstKind::ISub(a, b) => v == a || v == b,
        InstKind::IMul(a, b) => v == a || v == b,
        InstKind::IDiv(a, b) => v == a || v == b,
        InstKind::IMod(a, b) => v == a || v == b,
        InstKind::INeg(a) => v == a,
        InstKind::FAdd(a, b) => v == a || v == b,
        InstKind::FSub(a, b) => v == a || v == b,
        InstKind::FMul(a, b) => v == a || v == b,
        InstKind::FDiv(a, b) => v == a || v == b,
        InstKind::FPow(a, b) => v == a || v == b,
        InstKind::FNeg(a) => v == a,
        InstKind::FAbs(a) => v == a,
        InstKind::FSqrt(a) => v == a,
        InstKind::ICmp(_, a, b) => v == a || v == b,
        InstKind::FCmp(_, a, b) => v == a || v == b,
        InstKind::And(a, b) => v == a || v == b,
        InstKind::Or(a, b) => v == a || v == b,
        InstKind::Not(a) => v == a,
        InstKind::Select(a, b, c) => v == a || v == b || v == c,
        InstKind::BitAnd(a, b) => v == a || v == b,
        InstKind::BitOr(a, b) => v == a || v == b,
        InstKind::BitXor(a, b) => v == a || v == b,
        InstKind::BitNot(a) => v == a,
        InstKind::Shl(a, b) => v == a || v == b,
        InstKind::LShr(a, b) => v == a || v == b,
        InstKind::AShr(a, b) => v == a || v == b,
        InstKind::CountLeadingZeros(a) => v == a,
        InstKind::CountTrailingZeros(a) => v == a,
        InstKind::PopCount(a) => v == a,
        InstKind::IntToFloat(a, _) => v == a,
        InstKind::FloatToInt(a, _) => v == a,
        InstKind::FloatExtend(a, _) => v == a,
        InstKind::FloatTrunc(a, _) => v == a,
        InstKind::IntExtend(a, _, _) => v == a,
        InstKind::IntTrunc(a, _) => v == a,
        InstKind::PtrToInt(a) => v == a,
        InstKind::IntToPtr(a, _) => v == a,
        InstKind::Load(a) => v == a,
        InstKind::Store(a, b) => v == a || v == b,
        InstKind::VolatileLoad(a) => v == a,
        InstKind::VolatileStore(a, b) => v == a || v == b,
        InstKind::GetElementPtr(a, list) => v == a || list@.contains(v),
        InstKind::RuntimeCall(_, list) => list@.contains(v),
        InstKind::ExtractField(a, _) => v == a,
        InstKind::InsertField(a, _, b) => v == a || v == b,
        InstKind::VAdd(a, b) => v == a || v == b,
        InstKind::VSub(a, b) => v == a || v == b,
        InstKind::VMul(a, b) => v == a || v == b,
        InstKind::VDiv(a, b) => v == a || v == b,
        InstKind::VMin(a, b) => v == a || v == b,
        InstKind::VMax(a, b) => v == a || v == b,
        InstKind::VNeg(a) => v == a,
        InstKind::VAbs(a) => v == a,
        InstKind::VSqrt(a) => v == a,
        InstKind::VFma(a, b, c) => v == a || v == b || v == c,
        InstKind::VSelect(a, b, c) => v == a || v == b || v == c,
        InstKind::VICmp(_, a, b) => v == a || v == b,
        InstKind::VFCmp(_, a, b) => v == a || v == b,
        InstKind::VLoad(a) => v == a,
        InstKind::VStore(a, b) => v == a || v == b,
        InstKind::VBitcast(a) => v == a,
        InstKind::VExtract(a, _) => v == a,
        InstKind::VInsert(a, _, b) => v == a || v == b,
        InstKind::VBroadcast(a) => v == a,
        InstKind::VReduceSum(a) => v == a,
        InstKind::VReduceMin(a) => v == a,
        InstKind::VReduceMax(a) => v == a,
        InstKind::Call(callee, list) => list@.contains(v) || (callee matches FuncRef::Indirect(t) && t == v),
        _ => false,
    }
}

/// The operands of an instruction are the values that it reads.
#[verifier::rlimit(60)]
pub proof fn instructions_read_their_operands(k: InstKind, v: ValueId)
    ensures
        k@.args.contains(v) <==> reads_value(k, v),
{
    let s = k@.args;
    if s.len() > 0 {
        assert(s[0] == v ==> s.contains(v));
    }
    if s.len() > 1 {
        assert(s[1] == v ==> s.contains(v));
    }
    if s.len() > 2 {
        assert(s[2] == v ==> s.contains(v));
    }
    match k {
        InstKind::GetElementPtr(a, list) => lemma_behind(a, list@, v),
        InstKind::Call(callee, list) => {
            if let FuncRef::Indirect(t) = callee {
                lemma_behind(t, list@, v);
            }
        },
        _ => {},
    }
}

proof fn lemma_behind(a: ValueId, list: Seq<ValueId>, v: ValueId)
    ensures
        (seq![a] + list).contains(v) <==> v == a || list.contains(v),
{
    let s = seq![a] + list;
    assert(s[0] == a);
    if list.contains(v) {
        let k = list.index_of(v);
        assert(s[k + 1] == v);
    }
    if s.contains(v) {
        let k = s.index_of(v);
        if k > 0 {
            assert(list[k - 1] == v);
        }
    }
}

/// A terminator reads its condition or selector, what it hands over and what it
/// returns, and nothing else.
pub proof fn terminators_read_their_operands(t: TermView, v: ValueId)
    ensures
        term_uses(t).contains(v) <==> match t {
            TermView::Return(Some(r)) => v == r,
            TermView::Branch(_, args) => args.contains(v),
            TermView::CondBranch { cond, true_args, false_args, .. } => v == cond
                || true_args.contains(v) || false_args.contains(v),
            TermView::Switch { selector, .. } => v == selector,
            _ => false,
        },
{
    match t {
        TermView::Return(Some(r)) => {
            assert(seq![r][0] == r);
        },
        TermView::Switch { selector, .. } => {
            assert(seq![selector][0] == selector);
        },
        TermView::CondBranch { cond, true_args, false_args, .. } => {
            let s = term_uses(t);
            lemma_behind(cond, true_args, v);
            let head = seq![cond] + true_args;
            if head.contains(v) {
                let k = head.index_of(v);
                assert(s[k] == v);
            }
            if false_args.contains(v) {
                let k = false_args.index_of(v);
                assert(s[head.len() + k] == v);
            }
            if s.contains(v) {
                let k = s.index_of(v);
                if k < head.len() {
                    assert(head[k] == v);
                } else {
                    assert(false_args[k - head.len()] == v);
                }
            }
        },
        _ => {},
    }
}

/// A terminator leads to its destinations, and nowhere else.
pub proof fn terminators_lead_to_their_destinations(t: TermView, b: BlockId)
    ensures
        term_targets(t).contains(b) <==> match t {
            TermView::Branch(dest, _) => b == dest,
            TermView::CondBranch { true_dest, false_dest, .. } => b == true_dest || b == false_dest,
            TermView::Switch { cases, default, .. } => b == default || exists|k: int|
                0 <= k < cases.len() && (#[trigger] cases[k]).1 == b,
            _ => false,
        },
{
    let s = term_targets(t);
    match t {
        TermView::Branch(dest, _) => {
            assert(s[0] == dest);
        },
        TermView::CondBranch { true_dest, false_dest, .. } => {
            assert(s[0] == true_dest);
            assert(s[1] == false_dest);
        },
        TermView::Switch { cases, default, .. } => {
            assert(s[cases.len() as int] == default);
            if exists|k: int| 0 <= k < cases.len() && (#[trigger] cases[k]).1 == b {
                let k = choose|k: int| 0 <= k < cases.len() && (#[trigger] cases[k]).1 == b;
                assert(s[k] == b);
            }
            if s.contains(b) {
                let k = s.index_of(b);
                if k < cases.len() {
                    assert(cases[k].1 == b);
                }
            }
        },
        _ => {},
    }
}

/// Renamed operands lead a terminator where it led.
pub proof fn renaming_keeps_destinations(t: TermView, m: Map<ValueId, ValueId>)
    ensures
        term_targets(renamed_term(t, m)) == term_targets(t),
{
}

} // verus!
