//! Constant propagation into terminators.
//!
//! A conditional branch on a known condition, and a switch on a known selector,
//! become a branch. Blocks that cannot be reached any more are dropped.

use crate::ids::{copy_list, IdMap};
use crate::ir::cfg::{
    block_reachable, prune_unreachable, pruned, pruning_keeps_reachability, reachable,
};
use crate::ir::inst::{
    BlockId, BlockView, FuncRef, FuncView, Function, InstKind, InstView, Module, ModuleView, Op,
    TermView, Terminator, ValueId,
};
use crate::ir::types::IntWidth;
use crate::opt::insts::{all_insts, insts_of, refs_view};
use crate::opt::ints::{sext, sign_extend};
use crate::opt::pass::Pass;
use vstd::prelude::*;

verus! {

/// What is known of a value.
#[derive(Debug, Clone, Copy, PartialEq, Eq, Structural)]
pub enum Const {
    Bool(bool),
    Int(i128, IntWidth),
}

/// The known value that an instruction gives.
pub open spec fn const_of(op: Op) -> Option<Const> {
    match op {
        Op::ConstBool(b) => Some(Const::Bool(b)),
        Op::ConstInt(v, w) => Some(Const::Int(v, w)),
        _ => None,
    }
}

/// What the first `n` instructions make known.
pub open spec fn known_upto(s: Seq<InstView>, n: nat) -> Map<ValueId, Const>
    decreases n,
{
    if n == 0 {
        Map::empty()
    } else {
        let before = known_upto(s, (n - 1) as nat);
        match const_of(s[n - 1].kind.op) {
            Some(c) => before.insert(s[n - 1].id, c),
            None => before,
        }
    }
}

/// What the instructions of a function make known.
pub open spec fn known_in(f: FuncView) -> Map<ValueId, Const> {
    known_upto(insts_of(f), insts_of(f).len())
}

/// Where a switch goes on the value `v` of width `w`, by its first `n` cases: to
/// the first that agrees at that width.
pub open spec fn chosen_case(cases: Seq<(i64, BlockId)>, n: nat, v: i128, w: IntWidth) -> Option<
    BlockId,
>
    decreases n,
{
    if n == 0 {
        None
    } else {
        match chosen_case(cases, (n - 1) as nat, v, w) {
            Some(b) => Some(b),
            None => if sext(cases[n - 1].0 as i128, w) == sext(v, w) {
                Some(cases[n - 1].1)
            } else {
                None
            },
        }
    }
}

/// The branch that a terminator becomes, if it does.
pub open spec fn decided(t: TermView, known: Map<ValueId, Const>) -> Option<TermView> {
    match t {
        TermView::CondBranch { cond, true_dest, true_args, false_dest, false_args } => {
            if known.contains_key(cond) {
                match known[cond] {
                    Const::Bool(c) => Some(
                        if c {
                            TermView::Branch(true_dest, true_args)
                        } else {
                            TermView::Branch(false_dest, false_args)
                        },
                    ),
                    _ => None,
                }
            } else {
                None
            }
        },
        TermView::Switch { selector, cases, default } => {
            if known.contains_key(selector) {
                match known[selector] {
                    Const::Int(v, w) => Some(
                        TermView::Branch(
                            match chosen_case(cases, cases.len(), v, w) {
                                Some(b) => b,
                                None => default,
                            },
                            Seq::empty(),
                        ),
                    ),
                    _ => None,
                }
            } else {
                None
            }
        },
        _ => None,
    }
}

/// Does the terminator of a block become a branch?
pub open spec fn block_decided(b: BlockView, known: Map<ValueId, Const>) -> bool {
    b.term matches Some(t) && decided(t, known) is Some
}

/// A block whose terminator is a branch where that is known.
pub open spec fn decided_block(b: BlockView, known: Map<ValueId, Const>) -> BlockView {
    if block_decided(b, known) {
        BlockView { term: decided(b.term->0, known), ..b }
    } else {
        b
    }
}

/// A function whose terminators are branches where that is known.
pub open spec fn decided_func(f: FuncView) -> FuncView {
    FuncView {
        blocks: Seq::new(f.blocks.len(), |i: int| decided_block(f.blocks[i], known_in(f))),
        ..f
    }
}

/// Does some terminator become a branch?
pub open spec fn decides(f: FuncView) -> bool {
    exists|i: int| 0 <= i < f.blocks.len() && block_decided(#[trigger] f.blocks[i], known_in(f))
}

/// A function with constants propagated.
pub open spec fn propagated(f: FuncView) -> FuncView {
    if decides(f) {
        pruned(decided_func(f))
    } else {
        f
    }
}

/// A decided terminator goes where the terminator could go before.
pub proof fn decided_target_was_possible(t: TermView, known: Map<ValueId, Const>, b: BlockId)
    requires
        decided(t, known) is Some,
        crate::ir::walk::term_targets(decided(t, known)->0).contains(b),
    ensures
        crate::ir::walk::term_targets(t).contains(b),
{
    let d = crate::ir::walk::term_targets(decided(t, known)->0);
    let all = crate::ir::walk::term_targets(t);
    assert(d[0] == b);
    match t {
        TermView::CondBranch { cond, true_dest, true_args, false_dest, false_args } => {
            assert(all[0] == true_dest);
            assert(all[1] == false_dest);
        },
        TermView::Switch { selector, cases, default } => {
            match known[selector] {
                Const::Int(v, w) => {
                    lemma_chosen_case(cases, cases.len(), v, w);
                    let listed = crate::ir::walk::case_targets(cases);
                    match chosen_case(cases, cases.len(), v, w) {
                        Some(c) => {
                            let k = choose|k: int| 0 <= k < cases.len() && (#[trigger] cases[k]).1 == c;
                            assert(listed[k] == c);
                            assert(all[k] == c);
                        },
                        None => {
                            assert(all[all.len() - 1] == default);
                        },
                    }
                },
                _ => {},
            }
        },
        _ => {},
    }
}

/// Where a terminator was decided, only blocks are left that can be reached.
pub proof fn propagation_leaves_reachable_blocks(f: FuncView, i: int)
    requires
        decides(f),
        0 <= i < propagated(f).blocks.len(),
    ensures
        reachable(propagated(f), propagated(f).blocks[i].id),
{
    let g = decided_func(f);
    let keep = block_reachable(g);
    let b = propagated(f).blocks[i];
    g.blocks.lemma_filter_pred(keep, i);
    pruning_keeps_reachability(g, b.id);
}

/// A case that is chosen is one of them.
pub proof fn lemma_chosen_case(cases: Seq<(i64, BlockId)>, n: nat, v: i128, w: IntWidth)
    requires
        n <= cases.len(),
    ensures
        chosen_case(cases, n, v, w) matches Some(b) ==> exists|k: int|
            0 <= k < n && (#[trigger] cases[k]).1 == b,
    decreases n,
{
    if n > 0 {
        lemma_chosen_case(cases, (n - 1) as nat, v, w);
        if chosen_case(cases, (n - 1) as nat, v, w) is None {
            if chosen_case(cases, n, v, w) is Some {
                assert(cases[n - 1].1 == chosen_case(cases, n, v, w)->0);
            }
        }
    }
}

fn const_from_kind(kind: &InstKind) -> (r: Option<Const>)
    ensures
        r == const_of(kind@.op),
{
    match kind {
        InstKind::ConstBool(b) => Some(Const::Bool(*b)),
        InstKind::ConstInt(v, w) => Some(Const::Int(*v, *w)),
        InstKind::Call(callee, _) => match callee {
            FuncRef::Internal(_) => None,
            FuncRef::External(_) => None,
            FuncRef::Indirect(_) => None,
        },
        _ => None,
    }
}

fn collect_consts(func: &Function) -> (r: IdMap<ValueId, Const>)
    ensures
        r@ == known_in(func@),
{
    let list = all_insts(func);
    let ghost s = insts_of(func@);
    let mut consts: IdMap<ValueId, Const> = IdMap::new();
    let mut i: usize = 0;
    while i < list.len()
        invariant
            i <= list@.len(),
            s == refs_view(list@),
            consts@ == known_upto(s, i as nat),
        decreases list@.len() - i,
    {
        proof {
            assert(s[i as int] == list@[i as int]@);
        }
        match const_from_kind(&list[i].kind) {
            Some(c) => {
                consts.insert(list[i].id, c);
            },
            None => {},
        }
        i = i + 1;
    }
    consts
}

fn choose_case(cases: &Vec<(i64, BlockId)>, v: i128, w: IntWidth) -> (r: Option<BlockId>)
    ensures
        r == chosen_case(cases@, cases@.len(), v, w),
{
    let want = sign_extend(v, w);
    let mut i: usize = 0;
    while i < cases.len()
        invariant
            i <= cases@.len(),
            want == sext(v, w),
            chosen_case(cases@, i as nat, v, w) is None,
        decreases cases@.len() - i,
    {
        let (k, b) = cases[i];
        if sign_extend(k as i128, w) == want {
            proof {
                lemma_case_stays(cases@, (i + 1) as nat, cases@.len(), v, w);
            }
            return Some(b);
        }
        i = i + 1;
    }
    None
}

proof fn lemma_case_stays(cases: Seq<(i64, BlockId)>, i: nat, n: nat, v: i128, w: IntWidth)
    requires
        i <= n,
        chosen_case(cases, i, v, w) is Some,
    ensures
        chosen_case(cases, n, v, w) == chosen_case(cases, i, v, w),
    decreases n,
{
    if i < n {
        lemma_case_stays(cases, i, (n - 1) as nat, v, w);
    }
}

fn simplify_terminator(term: &Terminator, consts: &IdMap<ValueId, Const>) -> (r: Option<Terminator>)
    ensures
        match r {
            Some(t) => decided(term@, consts@) == Some(t@),
            None => decided(term@, consts@) is None,
        },
{
    match term {
        Terminator::CondBranch { cond, true_dest, true_args, false_dest, false_args } => {
            match consts.get(cond) {
                Some(Const::Bool(c)) => if *c {
                    Some(Terminator::Branch(*true_dest, copy_list(true_args)))
                } else {
                    Some(Terminator::Branch(*false_dest, copy_list(false_args)))
                },
                _ => None,
            }
        },
        Terminator::Switch { selector, cases, default } => match consts.get(selector) {
            Some(Const::Int(v, w)) => {
                let target = match choose_case(cases, *v, *w) {
                    Some(b) => b,
                    None => *default,
                };
                let none: Vec<ValueId> = Vec::new();
                proof {
                    assert(none@ =~= Seq::<ValueId>::empty());
                }
                Some(Terminator::Branch(target, none))
            },
            _ => None,
        },
        _ => None,
    }
}

fn propagate(func: &mut Function) -> (changed: bool)
    ensures
        final(func)@ == propagated(old(func)@),
        changed == decides(old(func)@),
{
    let ghost f = func@;
    let consts = collect_consts(func);
    let mut changed: bool = false;
    let mut i: usize = 0;
    while i < func.blocks.len()
        invariant
            i <= f.blocks.len(),
            consts@ == known_in(f),
            func.blocks@.len() == f.blocks.len(),
            func@ == (FuncView { blocks: func@.blocks, ..f }),
            forall|k: int|
                0 <= k < i ==> (#[trigger] func.blocks@[k])@ == decided_block(
                    f.blocks[k],
                    known_in(f),
                ),
            forall|k: int| i <= k < f.blocks.len() ==> (#[trigger] func.blocks@[k])@ == f.blocks[k],
            changed == exists|k: int|
                0 <= k < i && block_decided(#[trigger] f.blocks[k], known_in(f)),
        decreases f.blocks.len() - i,
    {
        proof {
            assert(func.blocks@[i as int]@ == f.blocks[i as int]);
        }
        let found: Option<Terminator> = match &func.blocks[i].terminator {
            Some(t) => simplify_terminator(t, &consts),
            None => None,
        };
        proof {
            assert(found is Some == block_decided(f.blocks[i as int], known_in(f)));
        }
        match found {
            Some(t) => {
                func.blocks[i].terminator = Some(t);
                changed = true;
            },
            None => {},
        }
        i = i + 1;
    }
    proof {
        assert(func@.blocks =~= decided_func(f).blocks);
        if !changed {
            assert(decided_func(f).blocks =~= f.blocks);
        }
    }
    if changed {
        prune_unreachable(func);
    }
    changed
}

/// The constant propagation pass.
pub struct ConstProp;

/// A module with constants propagated.
pub open spec fn propagated_module(m: ModuleView) -> ModuleView {
    ModuleView {
        functions: Seq::new(m.functions.len(), |i: int| propagated(m.functions[i])),
        ..m
    }
}

/// Does some terminator of a module become a branch?
pub open spec fn any_decides(m: ModuleView) -> bool {
    exists|i: int| 0 <= i < m.functions.len() && decides(#[trigger] m.functions[i])
}

impl Pass for ConstProp {
    open spec fn accepts(&self, m: ModuleView) -> bool {
        true
    }

    open spec fn outcome(&self, before: ModuleView, after: ModuleView, changed: bool) -> bool {
        after == propagated_module(before) && changed == any_decides(before)
    }

    fn name(&self) -> (r: &'static str)
        ensures
            r@ == "const-prop"@,
    {
        "const-prop"
    }

    fn run(&self, module: &mut Module) -> (changed: bool) {
        let ghost m = module@;
        let mut changed: bool = false;
        let mut i: usize = 0;
        while i < module.functions.len()
            invariant
                i <= m.functions.len(),
                module.functions@.len() == m.functions.len(),
                module@ == (ModuleView { functions: module@.functions, ..m }),
                forall|k: int|
                    0 <= k < i ==> (#[trigger] module.functions@[k])@ == propagated(m.functions[k]),
                forall|k: int|
                    i <= k < m.functions.len() ==> (#[trigger] module.functions@[k])@
                        == m.functions[k],
                changed == exists|k: int| 0 <= k < i && decides(#[trigger] m.functions[k]),
            decreases m.functions.len() - i,
        {
            proof {
                assert(module.functions@[i as int]@ == m.functions[i as int]);
            }
            if propagate(&mut module.functions[i]) {
                changed = true;
            }
            i = i + 1;
        }
        proof {
            assert(module@.functions =~= propagated_module(m).functions);
        }
        changed
    }
}

} // verus!
