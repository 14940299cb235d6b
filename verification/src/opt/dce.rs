//! Dead-code elimination.
//!
//! An instruction is dropped that has no effect of its own and whose value is
//! not read. Loads, volatile or not, count as having none. Then block parameters are dropped that are not read, with the
//! arguments that branches pass for them, and the search starts over. Blocks
//! that cannot be reached are dropped in the end.

use crate::ids::{same_id, IdSet};
use crate::ir::cfg::{prune_unreachable, pruned};
use crate::ir::inst::{
    has_block, the_block, BasicBlock, BlockId, BlockParam, BlockView, FuncRef, FuncView, Function,
    Inst, InstKind, InstView, Module, ModuleView, Op, TermView, Terminator, ValueId,
};
use crate::ir::walk::{inst_uses, term_uses, terminator_uses};
use crate::lists::{lemma_masked_filter, lemma_masked_len, masked, retain_mask};
use crate::opt::edit::keep_insts;
use crate::opt::fpenv::{analyze_fpenv_effects, fpenv_sensitive, is_fpenv_sensitive};
use crate::opt::insts::{all_insts, insts_of, refs_view};
use crate::opt::pass::Pass;
use crate::opt::purity::{
    derive_internal_call_dce_info_for_context, discardable, observed_fp, InternalCallDceInfo,
};
use vstd::prelude::*;

verus! {

/// May a call of the function numbered `c` be dropped?
pub open spec fn call_is_loose(loose: Seq<bool>, c: u32) -> bool {
    c < loose.len() && loose[c as int]
}

/// Does an instruction have an effect that keeps it, whether or not its value is
/// read? `loose` says which internal calls have none, `kept` which values are
/// kept in any case.
pub open spec fn effectful(i: InstView, loose: Seq<bool>, kept: Set<ValueId>) -> bool {
    kept.contains(i.id) || match i.kind.op {
        Op::Store => true,
        Op::VStore => true,
        Op::VolatileStore => true,
        Op::RuntimeCall(_) => true,
        Op::Alloca(_) => true,
        Op::CallInternal(c) => !call_is_loose(loose, c),
        Op::CallExternal(_) => true,
        Op::CallIndirect => true,
        _ => false,
    }
}

/// Does a block read `v`?
pub open spec fn block_reads(b: BlockView, v: ValueId) -> bool {
    ||| exists|k: int| 0 <= k < b.insts.len() && (#[trigger] b.insts[k]).kind.args.contains(v)
    ||| (b.term matches Some(t) && term_uses(t).contains(v))
}

/// Does a function read `v`?
pub open spec fn reads(f: FuncView, v: ValueId) -> bool {
    exists|b: int| 0 <= b < f.blocks.len() && block_reads(#[trigger] f.blocks[b], v)
}

/// Does an instruction stay?
pub open spec fn stays(f: FuncView, i: InstView, loose: Seq<bool>, kept: Set<ValueId>) -> bool {
    effectful(i, loose, kept) || reads(f, i.id)
}

/// A block without the instructions that do not stay.
pub open spec fn swept_block(f: FuncView, b: BlockView, loose: Seq<bool>, kept: Set<ValueId>) -> BlockView {
    BlockView { insts: b.insts.filter(|i: InstView| stays(f, i, loose, kept)), ..b }
}

/// A function without the instructions that do not stay.
pub open spec fn swept_once(f: FuncView, loose: Seq<bool>, kept: Set<ValueId>) -> FuncView {
    FuncView {
        blocks: Seq::new(f.blocks.len(), |b: int| swept_block(f, f.blocks[b], loose, kept)),
        ..f
    }
}

/// Does some instruction not stay?
pub open spec fn has_dead_inst(f: FuncView, loose: Seq<bool>, kept: Set<ValueId>) -> bool {
    exists|b: int, k: int|
        0 <= b < f.blocks.len() && 0 <= k < f.blocks[b].insts.len() && !stays(
            f,
            #[trigger] f.blocks[b].insts[k],
            loose,
            kept,
        )
}

/// How many instructions the first `n` blocks hold.
pub open spec fn inst_count(blocks: Seq<BlockView>, n: nat) -> nat
    decreases n,
{
    if n == 0 {
        0
    } else {
        inst_count(blocks, (n - 1) as nat) + blocks[n - 1].insts.len()
    }
}

/// How many parameters the first `n` blocks have.
pub open spec fn param_count(blocks: Seq<BlockView>, n: nat) -> nat
    decreases n,
{
    if n == 0 {
        0
    } else {
        param_count(blocks, (n - 1) as nat) + blocks[n - 1].params.len()
    }
}

/// A sweep drops instructions where some do not stay, and nothing else.
pub proof fn lemma_sweep_shrinks(f: FuncView, loose: Seq<bool>, kept: Set<ValueId>, n: nat)
    requires
        n <= f.blocks.len(),
    ensures
        inst_count(swept_once(f, loose, kept).blocks, n) <= inst_count(f.blocks, n),
        (exists|b: int, k: int|
            0 <= b < n && 0 <= k < f.blocks[b].insts.len() && !stays(
                f,
                #[trigger] f.blocks[b].insts[k],
                loose,
                kept,
            )) ==> inst_count(swept_once(f, loose, kept).blocks, n) < inst_count(f.blocks, n),
        param_count(swept_once(f, loose, kept).blocks, n) == param_count(f.blocks, n),
    decreases n,
{
    if n > 0 {
        lemma_sweep_shrinks(f, loose, kept, (n - 1) as nat);
        let b = f.blocks[n - 1];
        let keep = Seq::new(b.insts.len(), |k: int| stays(f, b.insts[k], loose, kept));
        lemma_masked_filter(b.insts, keep, |i: InstView| stays(f, i, loose, kept));
        lemma_masked_len(b.insts, keep);
        if exists|c: int, k: int|
            0 <= c < n && 0 <= k < f.blocks[c].insts.len() && !stays(
                f,
                #[trigger] f.blocks[c].insts[k],
                loose,
                kept,
            ) {
            let (c, k) = choose|c: int, k: int|
                0 <= c < n && 0 <= k < f.blocks[c].insts.len() && !stays(
                    f,
                    #[trigger] f.blocks[c].insts[k],
                    loose,
                    kept,
                );
            if c == n - 1 {
                assert(!keep[k]);
            }
        }
    }
}

/// A sweep that drops nothing changes nothing.
pub proof fn lemma_sweep_same(f: FuncView, loose: Seq<bool>, kept: Set<ValueId>)
    requires
        !has_dead_inst(f, loose, kept),
    ensures
        swept_once(f, loose, kept) == f,
{
    assert forall|c: int| 0 <= c < f.blocks.len() implies swept_block(f, #[trigger] f.blocks[c], loose, kept)
        == f.blocks[c] by {
        let b = f.blocks[c];
        let keep = Seq::new(b.insts.len(), |k: int| stays(f, b.insts[k], loose, kept));
        lemma_masked_filter(b.insts, keep, |i: InstView| stays(f, i, loose, kept));
        assert forall|k: int| 0 <= k < b.insts.len() implies #[trigger] keep[k] by {
            assert(stays(f, f.blocks[c].insts[k], loose, kept));
        }
        lemma_masked_len(b.insts, keep);
    }
    assert(swept_once(f, loose, kept).blocks =~= f.blocks);
}

/// A function swept until every instruction stays.
pub open spec fn swept(f: FuncView, loose: Seq<bool>, kept: Set<ValueId>) -> FuncView
    decreases inst_count(f.blocks, f.blocks.len()),
{
    proof {
        lemma_sweep_shrinks(f, loose, kept, f.blocks.len());
    }
    if has_dead_inst(f, loose, kept) {
        swept(swept_once(f, loose, kept), loose, kept)
    } else {
        f
    }
}

/// Is a parameter of a block kept? The entry keeps all.
pub open spec fn param_stays(f: FuncView, b: BlockId, p: BlockParam) -> bool {
    b == f.entry || reads(f, p.id)
}

/// Which parameters of a block are kept.
pub open spec fn param_mask(f: FuncView, b: BlockView) -> Seq<bool> {
    Seq::new(b.params.len(), |i: int| param_stays(f, b.id, b.params[i]))
}

/// Is the argument at place `i` of a branch to `dest` kept? One goes where the
/// parameter goes that it is passed for.
pub open spec fn arg_stays(f: FuncView, dest: BlockId, i: int) -> bool {
    has_block(f.blocks, dest) && i < the_block(f.blocks, dest).params.len() ==> param_stays(
        f,
        dest,
        the_block(f.blocks, dest).params[i],
    )
}

/// The arguments of a branch to `dest` that are kept.
pub open spec fn trimmed_args(f: FuncView, dest: BlockId, args: Seq<ValueId>) -> Seq<ValueId> {
    masked(args, Seq::new(args.len(), |i: int| arg_stays(f, dest, i)))
}

/// A terminator with the arguments that are kept.
pub open spec fn trimmed_term(f: FuncView, t: TermView) -> TermView {
    match t {
        TermView::Branch(d, args) => TermView::Branch(d, trimmed_args(f, d, args)),
        TermView::CondBranch { cond, true_dest, true_args, false_dest, false_args } => {
            TermView::CondBranch {
                cond,
                true_dest,
                true_args: trimmed_args(f, true_dest, true_args),
                false_dest,
                false_args: trimmed_args(f, false_dest, false_args),
            }
        },
        _ => t,
    }
}

/// A block with the parameters and arguments that are kept.
pub open spec fn trimmed_block(f: FuncView, b: BlockView) -> BlockView {
    BlockView {
        params: masked(b.params, param_mask(f, b)),
        term: match b.term {
            Some(t) => Some(trimmed_term(f, t)),
            None => None,
        },
        ..b
    }
}

/// A function with the parameters and arguments that are kept.
pub open spec fn trimmed_func(f: FuncView) -> FuncView {
    FuncView { blocks: Seq::new(f.blocks.len(), |b: int| trimmed_block(f, f.blocks[b])), ..f }
}

/// Is some parameter not kept?
pub open spec fn has_dead_param(f: FuncView) -> bool {
    exists|b: int, k: int|
        0 <= b < f.blocks.len() && 0 <= k < f.blocks[b].params.len() && !param_stays(
            f,
            f.blocks[b].id,
            #[trigger] f.blocks[b].params[k],
        )
}

/// Trimming drops parameters where some are not kept.
pub proof fn lemma_trim_shrinks(f: FuncView, n: nat)
    requires
        n <= f.blocks.len(),
    ensures
        param_count(trimmed_func(f).blocks, n) <= param_count(f.blocks, n),
        (exists|b: int, k: int|
            0 <= b < n && 0 <= k < f.blocks[b].params.len() && !param_stays(
                f,
                f.blocks[b].id,
                #[trigger] f.blocks[b].params[k],
            )) ==> param_count(trimmed_func(f).blocks, n) < param_count(f.blocks, n),
    decreases n,
{
    if n > 0 {
        lemma_trim_shrinks(f, (n - 1) as nat);
        let b = f.blocks[n - 1];
        lemma_masked_len(b.params, param_mask(f, b));
        if exists|c: int, k: int|
            0 <= c < n && 0 <= k < f.blocks[c].params.len() && !param_stays(
                f,
                f.blocks[c].id,
                #[trigger] f.blocks[c].params[k],
            ) {
            let (c, k) = choose|c: int, k: int|
                0 <= c < n && 0 <= k < f.blocks[c].params.len() && !param_stays(
                    f,
                    f.blocks[c].id,
                    #[trigger] f.blocks[c].params[k],
                );
            if c == n - 1 {
                assert(!param_mask(f, b)[k]);
            }
        }
    }
}

/// Sweeping keeps the parameters.
pub proof fn lemma_swept_params(f: FuncView, loose: Seq<bool>, kept: Set<ValueId>)
    ensures
        swept(f, loose, kept).blocks.len() == f.blocks.len(),
        param_count(swept(f, loose, kept).blocks, f.blocks.len()) == param_count(
            f.blocks,
            f.blocks.len(),
        ),
        inst_count(swept(f, loose, kept).blocks, f.blocks.len()) <= inst_count(
            f.blocks,
            f.blocks.len(),
        ),
        has_dead_inst(f, loose, kept) ==> inst_count(swept(f, loose, kept).blocks, f.blocks.len())
            < inst_count(f.blocks, f.blocks.len()),
        !has_dead_inst(swept(f, loose, kept), loose, kept),
    decreases inst_count(f.blocks, f.blocks.len()),
{
    if has_dead_inst(f, loose, kept) {
        lemma_sweep_shrinks(f, loose, kept, f.blocks.len());
        lemma_swept_params(swept_once(f, loose, kept), loose, kept);
    }
}

/// A function without dead instructions and dead block parameters.
pub open spec fn cleaned(f: FuncView, loose: Seq<bool>, kept: Set<ValueId>) -> FuncView
    decreases param_count(f.blocks, f.blocks.len()),
{
    let g = swept(f, loose, kept);
    proof {
        lemma_swept_params(f, loose, kept);
        lemma_trim_shrinks(g, g.blocks.len());
    }
    if has_dead_param(g) {
        cleaned(trimmed_func(g), loose, kept)
    } else {
        g
    }
}

/// The values that are kept in any case: those of floating-point operations
/// where the environment is observed.
pub open spec fn kept_values(f: FuncView, fp: bool) -> Set<ValueId> {
    Set::new(
        |v: ValueId|
            fp && exists|k: int|
                0 <= k < insts_of(f).len() && (#[trigger] insts_of(f)[k]).id == v && fpenv_sensitive(
                    insts_of(f)[k].kind.op,
                ),
    )
}

/// A function without dead code.
pub open spec fn live_func(f: FuncView, loose: Seq<bool>, fp: bool) -> FuncView {
    pruned(cleaned(f, loose, kept_values(f, fp)))
}

/// In a cleaned function every instruction has an effect or is read, and every
/// block parameter is read, but for those of the entry.
pub proof fn cleaned_code_is_live(f: FuncView, loose: Seq<bool>, kept: Set<ValueId>)
    ensures
        !has_dead_inst(cleaned(f, loose, kept), loose, kept),
        !has_dead_param(cleaned(f, loose, kept)),
    decreases param_count(f.blocks, f.blocks.len()),
{
    let g = swept(f, loose, kept);
    lemma_swept_params(f, loose, kept);
    lemma_trim_shrinks(g, g.blocks.len());
    if has_dead_param(g) {
        cleaned_code_is_live(trimmed_func(g), loose, kept);
    }
}

/// The instructions of a block that have an effect.
pub open spec fn effects_of(b: BlockView, loose: Seq<bool>, kept: Set<ValueId>) -> Seq<InstView> {
    b.insts.filter(|i: InstView| effectful(i, loose, kept))
}

proof fn lemma_filter_twice<T>(s: Seq<T>, weak: spec_fn(T) -> bool, strong: spec_fn(T) -> bool)
    requires
        forall|x: T| #[trigger] strong(x) ==> weak(x),
    ensures
        s.filter(weak).filter(strong) == s.filter(strong),
    decreases s.len(),
{
    reveal(Seq::filter);
    if s.len() > 0 {
        lemma_filter_twice(s.drop_last(), weak, strong);
        let t = s.drop_last().filter(weak);
        if weak(s.last()) {
            assert(t.push(s.last()).drop_last() =~= t);
        }
    }
}

proof fn lemma_swept_effects(f: FuncView, loose: Seq<bool>, kept: Set<ValueId>, b: int)
    requires
        0 <= b < f.blocks.len(),
    ensures
        swept(f, loose, kept).blocks.len() == f.blocks.len(),
        effects_of(swept(f, loose, kept).blocks[b], loose, kept) == effects_of(
            f.blocks[b],
            loose,
            kept,
        ),
    decreases inst_count(f.blocks, f.blocks.len()),
{
    if has_dead_inst(f, loose, kept) {
        lemma_sweep_shrinks(f, loose, kept, f.blocks.len());
        let g = swept_once(f, loose, kept);
        lemma_swept_effects(g, loose, kept, b);
        lemma_filter_twice(
            f.blocks[b].insts,
            |i: InstView| stays(f, i, loose, kept),
            |i: InstView| effectful(i, loose, kept),
        );
    }
}

/// Cleaning keeps the instructions with an effect, in every block and in order.
pub proof fn cleaning_keeps_effects(f: FuncView, loose: Seq<bool>, kept: Set<ValueId>, b: int)
    requires
        0 <= b < f.blocks.len(),
    ensures
        cleaned(f, loose, kept).blocks.len() == f.blocks.len(),
        cleaned(f, loose, kept).blocks[b].id == f.blocks[b].id,
        effects_of(cleaned(f, loose, kept).blocks[b], loose, kept) == effects_of(
            f.blocks[b],
            loose,
            kept,
        ),
    decreases param_count(f.blocks, f.blocks.len()),
{
    let g = swept(f, loose, kept);
    lemma_swept_params(f, loose, kept);
    lemma_trim_shrinks(g, g.blocks.len());
    lemma_swept_effects(f, loose, kept, b);
    lemma_swept_ids(f, loose, kept, b);
    if has_dead_param(g) {
        let h = trimmed_func(g);
        cleaning_keeps_effects(h, loose, kept, b);
        assert(h.blocks[b].insts == g.blocks[b].insts);
    }
}

proof fn lemma_swept_ids(f: FuncView, loose: Seq<bool>, kept: Set<ValueId>, b: int)
    requires
        0 <= b < f.blocks.len(),
    ensures
        swept(f, loose, kept).blocks.len() == f.blocks.len(),
        swept(f, loose, kept).blocks[b].id == f.blocks[b].id,
    decreases inst_count(f.blocks, f.blocks.len()),
{
    if has_dead_inst(f, loose, kept) {
        lemma_sweep_shrinks(f, loose, kept, f.blocks.len());
        lemma_swept_ids(swept_once(f, loose, kept), loose, kept, b);
    }
}

/// Which internal calls can be dropped, by number.
pub open spec fn loose_view(info: Seq<InternalCallDceInfo>) -> Seq<bool> {
    Seq::new(info.len(), |i: int| info[i].discardable_when_unused)
}

/// Does an instruction have an effect that keeps it?
fn has_side_effect(inst: &Inst, info: &Vec<InternalCallDceInfo>, kept: &IdSet<ValueId>) -> (r: bool)
    ensures
        r == effectful(inst@, loose_view(info@), kept@),
{
    if kept.contains(&inst.id) {
        return true;
    }
    match &inst.kind {
        InstKind::Store(_, _) => true,
        InstKind::VStore(_, _) => true,
        InstKind::VolatileStore(_, _) => true,
        InstKind::RuntimeCall(_, _) => true,
        InstKind::Alloca(_) => true,
        InstKind::Call(callee, _) => match callee {
            FuncRef::Internal(c) => {
                let at: usize = *c as usize;
                !(at < info.len() && info[at].discardable_when_unused)
            },
            FuncRef::External(_) => true,
            FuncRef::Indirect(_) => true,
        },
        _ => false,
    }
}

fn add_all(live: &mut IdSet<ValueId>, list: &Vec<ValueId>)
    ensures
        forall|v: ValueId| #[trigger]
            final(live)@.contains(v) == (old(live)@.contains(v) || list@.contains(v)),
{
    let mut i: usize = 0;
    proof {
        assert(list@.take(0) =~= Seq::<ValueId>::empty());
    }
    while i < list.len()
        invariant
            i <= list@.len(),
            forall|v: ValueId| #[trigger]
                live@.contains(v) == (old(live)@.contains(v) || list@.take(i as int).contains(v)),
        decreases list@.len() - i,
    {
        let ghost before = live@;
        live.insert(list[i]);
        proof {
            let t = list@.take(i as int);
            let u = list@.take(i + 1);
            assert(u =~= t.push(list@[i as int]));
            assert forall|v: ValueId| #[trigger]
                live@.contains(v) == (old(live)@.contains(v) || u.contains(v)) by {
                assert(before.contains(v) == (old(live)@.contains(v) || t.contains(v)));
                assert(u[i as int] == list@[i as int]);
                if t.contains(v) {
                    assert(u[t.index_of(v)] == v);
                }
                if u.contains(v) && v != list@[i as int] {
                    assert(t[u.index_of(v)] == v);
                }
            }
        }
        i = i + 1;
    }
    proof {
        assert(list@.take(i as int) =~= list@);
    }
}

fn add_block_uses(live: &mut IdSet<ValueId>, block: &BasicBlock)
    ensures
        forall|v: ValueId| #[trigger]
            final(live)@.contains(v) == (old(live)@.contains(v) || block_reads(block@, v)),
{
    let ghost b = block@;
    let ghost start = live@;
    let mut i: usize = 0;
    while i < block.insts.len()
        invariant
            i <= block.insts@.len(),
            b == block@,
            forall|v: ValueId| #[trigger]
                live@.contains(v) == (start.contains(v) || exists|k: int|
                    0 <= k < i && (#[trigger] b.insts[k]).kind.args.contains(v)),
        decreases block.insts@.len() - i,
    {
        let ghost before = live@;
        let uses = inst_uses(&block.insts[i].kind);
        add_all(live, &uses);
        proof {
            assert(b.insts[i as int].kind.args == uses@);
            assert forall|v: ValueId| #[trigger]
                live@.contains(v) == (start.contains(v) || exists|k: int|
                    0 <= k < i + 1 && (#[trigger] b.insts[k]).kind.args.contains(v)) by {
                assert(before.contains(v) == (start.contains(v) || exists|k: int|
                    0 <= k < i && (#[trigger] b.insts[k]).kind.args.contains(v)));
                if uses@.contains(v) {
                    assert(b.insts[i as int].kind.args.contains(v));
                }
            }
        }
        i = i + 1;
    }
    match &block.terminator {
        Some(term) => {
            let uses = terminator_uses(term);
            add_all(live, &uses);
        },
        None => {},
    }
}

/// Every value that a function reads.
fn collect_live_uses(func: &Function) -> (r: IdSet<ValueId>)
    ensures
        forall|v: ValueId| #[trigger] r@.contains(v) == reads(func@, v),
{
    let ghost f = func@;
    let mut live: IdSet<ValueId> = IdSet::new();
    let mut i: usize = 0;
    while i < func.blocks.len()
        invariant
            i <= func.blocks@.len(),
            f == func@,
            forall|v: ValueId| #[trigger]
                live@.contains(v) == (exists|b: int|
                    0 <= b < i && block_reads(#[trigger] f.blocks[b], v)),
        decreases func.blocks@.len() - i,
    {
        let ghost before = live@;
        add_block_uses(&mut live, &func.blocks[i]);
        proof {
            assert(f.blocks[i as int] == func.blocks@[i as int]@);
            assert forall|v: ValueId| #[trigger]
                live@.contains(v) == (exists|b: int|
                    0 <= b < i + 1 && block_reads(#[trigger] f.blocks[b], v)) by {
                assert(before.contains(v) == (exists|b: int|
                    0 <= b < i && block_reads(#[trigger] f.blocks[b], v)));
                if block_reads(f.blocks[i as int], v) {
                    assert(live@.contains(v));
                }
            }
        }
        i = i + 1;
    }
    live
}

fn sweep_block(
    block: &mut BasicBlock,
    live: &IdSet<ValueId>,
    info: &Vec<InternalCallDceInfo>,
    kept: &IdSet<ValueId>,
    Ghost(f): Ghost<FuncView>,
) -> (changed: bool)
    requires
        forall|v: ValueId| #[trigger] live@.contains(v) == reads(f, v),
    ensures
        final(block)@ == swept_block(f, old(block)@, loose_view(info@), kept@),
        changed == (exists|k: int|
            0 <= k < old(block)@.insts.len() && !stays(
                f,
                #[trigger] old(block)@.insts[k],
                loose_view(info@),
                kept@,
            )),
{
    let ghost b = block@;
    let ghost loose = loose_view(info@);
    let mut keep: Vec<bool> = Vec::new();
    let mut i: usize = 0;
    while i < block.insts.len()
        invariant
            *block == *old(block),
            b == block@,
            loose == loose_view(info@),
            i <= block.insts@.len(),
            keep@.len() == i,
            forall|v: ValueId| #[trigger] live@.contains(v) == reads(f, v),
            forall|k: int| 0 <= k < i ==> #[trigger] keep@[k] == stays(f, b.insts[k], loose, kept@),
        decreases block.insts@.len() - i,
    {
        proof {
            assert(b.insts[i as int] == block.insts@[i as int]@);
        }
        let stay = has_side_effect(&block.insts[i], info, kept) || live.contains(&block.insts[i].id);
        keep.push(stay);
        i = i + 1;
    }
    let before: usize = block.insts.len();
    keep_insts(block, &keep);
    proof {
        lemma_masked_filter(b.insts, keep@, |i: InstView| stays(f, i, loose, kept@));
        if block.insts@.len() != before {
            let k = choose|k: int| 0 <= k < keep@.len() && !#[trigger] keep@[k];
            assert(!stays(f, b.insts[k], loose, kept@));
        } else {
            assert forall|k: int| 0 <= k < b.insts.len() implies stays(
                f,
                #[trigger] b.insts[k],
                loose,
                kept@,
            ) by {
                assert(keep@[k]);
            }
        }
    }
    block.insts.len() != before
}

fn sweep(func: &mut Function, info: &Vec<InternalCallDceInfo>, kept: &IdSet<ValueId>) -> (changed:
    bool)
    ensures
        final(func)@ == swept_once(old(func)@, loose_view(info@), kept@),
        changed == has_dead_inst(old(func)@, loose_view(info@), kept@),
{
    let ghost f = func@;
    let ghost loose = loose_view(info@);
    let live = collect_live_uses(func);
    let mut changed: bool = false;
    let mut i: usize = 0;
    while i < func.blocks.len()
        invariant
            i <= f.blocks.len(),
            loose == loose_view(info@),
            func.blocks@.len() == f.blocks.len(),
            func@ == (FuncView { blocks: func@.blocks, ..f }),
            forall|v: ValueId| #[trigger] live@.contains(v) == reads(f, v),
            forall|k: int|
                0 <= k < i ==> (#[trigger] func.blocks@[k])@ == swept_block(
                    f,
                    f.blocks[k],
                    loose,
                    kept@,
                ),
            forall|k: int| i <= k < f.blocks.len() ==> (#[trigger] func.blocks@[k])@ == f.blocks[k],
            changed == exists|b: int, k: int|
                0 <= b < i && 0 <= k < f.blocks[b].insts.len() && !stays(
                    f,
                    #[trigger] f.blocks[b].insts[k],
                    loose,
                    kept@,
                ),
        decreases f.blocks.len() - i,
    {
        proof {
            assert(func.blocks@[i as int]@ == f.blocks[i as int]);
        }
        let ghost was = changed;
        let hit = sweep_block(&mut func.blocks[i], &live, info, kept, Ghost(f));
        if hit {
            changed = true;
        }
        proof {
            if hit {
                let k = choose|k: int|
                    0 <= k < f.blocks[i as int].insts.len() && !stays(
                        f,
                        #[trigger] f.blocks[i as int].insts[k],
                        loose,
                        kept@,
                    );
                assert(!stays(f, f.blocks[i as int].insts[k], loose, kept@));
            }
        }
        i = i + 1;
    }
    proof {
        assert(func@.blocks =~= swept_once(f, loose, kept@).blocks);
    }
    changed
}

fn trim_args(func: &Function, dest: BlockId, args: &Vec<ValueId>, live: &IdSet<ValueId>) -> (r: Vec<
    ValueId,
>)
    requires
        forall|v: ValueId| #[trigger] live@.contains(v) == reads(func@, v),
    ensures
        r@ == trimmed_args(func@, dest, args@),
{
    let ghost f = func@;
    let target = func.try_block(dest);
    let mut keep: Vec<bool> = Vec::new();
    let mut i: usize = 0;
    while i < args.len()
        invariant
            i <= args@.len(),
            f == func@,
            keep@.len() == i,
            forall|v: ValueId| #[trigger] live@.contains(v) == reads(f, v),
            match target {
                Some(b) => has_block(f.blocks, dest) && b@ == the_block(f.blocks, dest),
                None => !has_block(f.blocks, dest),
            },
            forall|k: int| 0 <= k < i ==> #[trigger] keep@[k] == arg_stays(f, dest, k),
        decreases args@.len() - i,
    {
        let stay = match target {
            Some(b) => i >= b.params.len() || same_id(dest, func.entry) || live.contains(
                &b.params[i].id,
            ),
            None => true,
        };
        keep.push(stay);
        i = i + 1;
    }
    let mut out = crate::ids::copy_list(args);
    retain_mask(&mut out, &keep);
    proof {
        assert(keep@ =~= Seq::new(args@.len(), |k: int| arg_stays(f, dest, k)));
    }
    out
}

fn trim_term(func: &Function, term: &Terminator, live: &IdSet<ValueId>) -> (r: Terminator)
    requires
        forall|v: ValueId| #[trigger] live@.contains(v) == reads(func@, v),
    ensures
        r@ == trimmed_term(func@, term@),
{
    match term {
        Terminator::Branch(d, args) => Terminator::Branch(*d, trim_args(func, *d, args, live)),
        Terminator::CondBranch { cond, true_dest, true_args, false_dest, false_args } => {
            Terminator::CondBranch {
                cond: *cond,
                true_dest: *true_dest,
                true_args: trim_args(func, *true_dest, true_args, live),
                false_dest: *false_dest,
                false_args: trim_args(func, *false_dest, false_args, live),
            }
        },
        Terminator::Return(v) => Terminator::Return(*v),
        Terminator::Switch { selector, cases, default } => Terminator::Switch {
            selector: *selector,
            cases: crate::ir::inst::copy_cases(cases),
            default: *default,
        },
        Terminator::Unreachable => Terminator::Unreachable,
    }
}

/// The parameters of a block that are kept.
fn block_mask(block: &BasicBlock, entry: BlockId, live: &IdSet<ValueId>, Ghost(f): Ghost<
    FuncView,
>) -> (r: Vec<bool>)
    requires
        entry == f.entry,
        forall|v: ValueId| #[trigger] live@.contains(v) == reads(f, v),
    ensures
        r@ == param_mask(f, block@),
{
    let mut keep: Vec<bool> = Vec::new();
    let mut i: usize = 0;
    while i < block.params.len()
        invariant
            i <= block.params@.len(),
            entry == f.entry,
            forall|v: ValueId| #[trigger] live@.contains(v) == reads(f, v),
            keep@.len() == i,
            forall|k: int| 0 <= k < i ==> #[trigger] keep@[k] == param_mask(f, block@)[k],
        decreases block.params@.len() - i,
    {
        keep.push(same_id(block.id, entry) || live.contains(&block.params[i].id));
        i = i + 1;
    }
    proof {
        assert(keep@ =~= param_mask(f, block@));
    }
    keep
}

fn any_dropped(keep: &Vec<bool>) -> (r: bool)
    ensures
        r == exists|k: int| 0 <= k < keep@.len() && !#[trigger] keep@[k],
{
    let mut i: usize = 0;
    while i < keep.len()
        invariant
            i <= keep@.len(),
            forall|k: int| 0 <= k < i ==> #[trigger] keep@[k],
        decreases keep@.len() - i,
    {
        if !keep[i] {
            return true;
        }
        i = i + 1;
    }
    false
}

/// Drops the block parameters that are not read, and the arguments passed for
/// them.
fn remove_dead_block_params(func: &mut Function) -> (changed: bool)
    ensures
        final(func)@ == if has_dead_param(old(func)@) {
            trimmed_func(old(func)@)
        } else {
            old(func)@
        },
        changed == has_dead_param(old(func)@),
{
    let ghost f = func@;
    let live = collect_live_uses(func);
    let mut masks: Vec<Vec<bool>> = Vec::new();
    let mut terms: Vec<Option<Terminator>> = Vec::new();
    let mut changed: bool = false;
    let mut i: usize = 0;
    while i < func.blocks.len()
        invariant
            *func == *old(func),
            f == func@,
            i <= func.blocks@.len(),
            masks@.len() == i,
            terms@.len() == i,
            forall|v: ValueId| #[trigger] live@.contains(v) == reads(f, v),
            forall|k: int| 0 <= k < i ==> (#[trigger] masks@[k])@ == param_mask(f, f.blocks[k]),
            forall|k: int|
                0 <= k < i ==> crate::ir::inst::term_view(#[trigger] terms@[k]) == trimmed_block(
                    f,
                    f.blocks[k],
                ).term,
            changed == exists|b: int, k: int|
                0 <= b < i && 0 <= k < f.blocks[b].params.len() && !param_stays(
                    f,
                    f.blocks[b].id,
                    #[trigger] f.blocks[b].params[k],
                ),
        decreases func.blocks@.len() - i,
    {
        proof {
            assert(f.blocks[i as int] == func.blocks@[i as int]@);
        }
        let keep = block_mask(&func.blocks[i], func.entry, &live, Ghost(f));
        let hit = any_dropped(&keep);
        proof {
            let b = f.blocks[i as int];
            if hit {
                let k = choose|k: int| 0 <= k < keep@.len() && !#[trigger] keep@[k];
                assert(!param_stays(f, f.blocks[i as int].id, f.blocks[i as int].params[k]));
            } else {
                assert forall|k: int| 0 <= k < b.params.len() implies param_stays(
                    f,
                    b.id,
                    #[trigger] b.params[k],
                ) by {
                    assert(keep@[k]);
                }
            }
        }
        if hit {
            changed = true;
        }
        let term = match &func.blocks[i].terminator {
            Some(t) => Some(trim_term(func, t, &live)),
            None => None,
        };
        masks.push(keep);
        terms.push(term);
        i = i + 1;
    }
    if !changed {
        return false;
    }
    let mut j: usize = func.blocks.len();
    while j > 0
        invariant
            j <= f.blocks.len(),
            func.blocks@.len() == f.blocks.len(),
            func@ == (FuncView { blocks: func@.blocks, ..f }),
            masks@.len() == j,
            terms@.len() == j,
            forall|k: int| 0 <= k < j ==> (#[trigger] masks@[k])@ == param_mask(f, f.blocks[k]),
            forall|k: int|
                0 <= k < j ==> crate::ir::inst::term_view(#[trigger] terms@[k]) == trimmed_block(
                    f,
                    f.blocks[k],
                ).term,
            forall|k: int| 0 <= k < j ==> (#[trigger] func.blocks@[k])@ == f.blocks[k],
            forall|k: int|
                j <= k < f.blocks.len() ==> (#[trigger] func.blocks@[k])@ == trimmed_block(
                    f,
                    f.blocks[k],
                ),
        decreases j,
    {
        let p: usize = j - 1;
        proof {
            assert(func.blocks@[p as int]@ == f.blocks[p as int]);
            assert(masks@[p as int]@ == param_mask(f, f.blocks[p as int]));
            assert(crate::ir::inst::term_view(terms@[p as int]) == trimmed_block(f, f.blocks[p as int]).term);
        }
        match masks.pop() {
            Some(keep) => {
                retain_mask(&mut func.blocks[p].params, &keep);
            },
            None => {},
        }
        match terms.pop() {
            Some(term) => {
                func.blocks[p].terminator = term;
            },
            None => {},
        }
        j = p;
    }
    proof {
        assert(func@.blocks =~= trimmed_func(f).blocks);
    }
    true
}

fn collect_kept(func: &Function, fp: bool) -> (r: IdSet<ValueId>)
    ensures
        r@ == kept_values(func@, fp),
{
    let list = all_insts(func);
    let ghost s = insts_of(func@);
    let mut kept: IdSet<ValueId> = IdSet::new();
    if fp {
        let mut i: usize = 0;
        while i < list.len()
            invariant
                i <= list@.len(),
                s == refs_view(list@),
                forall|v: ValueId| #[trigger]
                    kept@.contains(v) == (exists|k: int|
                        0 <= k < i && (#[trigger] s[k]).id == v && fpenv_sensitive(s[k].kind.op)),
            decreases list@.len() - i,
        {
            let ghost before = kept@;
            proof {
                assert(s[i as int] == list@[i as int]@);
            }
            if is_fpenv_sensitive(&list[i].kind) {
                kept.insert(list[i].id);
            }
            proof {
                assert forall|v: ValueId| #[trigger]
                    kept@.contains(v) == (exists|k: int|
                        0 <= k < i + 1 && (#[trigger] s[k]).id == v && fpenv_sensitive(
                            s[k].kind.op,
                        )) by {
                    assert(before.contains(v) == (exists|k: int|
                        0 <= k < i && (#[trigger] s[k]).id == v && fpenv_sensitive(s[k].kind.op)));
                    assert(s[i as int].id == list@[i as int].id);
                }
            }
            i = i + 1;
        }
    }
    proof {
        assert(kept@ =~= kept_values(func@, fp));
    }
    kept
}


proof fn lemma_pruned_smaller(f: FuncView)
    requires
        exists|i: int|
            0 <= i < f.blocks.len() && !crate::ir::cfg::reachable(f, (#[trigger] f.blocks[i]).id),
    ensures
        pruned(f).blocks.len() < f.blocks.len(),
{
    let cond = crate::ir::cfg::block_reachable(f);
    let keep = Seq::new(f.blocks.len(), |i: int| cond(f.blocks[i]));
    lemma_masked_filter(f.blocks, keep, cond);
    lemma_masked_len(f.blocks, keep);
    let i = choose|i: int|
        0 <= i < f.blocks.len() && !crate::ir::cfg::reachable(f, (#[trigger] f.blocks[i]).id);
    assert(!keep[i]);
}

proof fn lemma_pruned_same(f: FuncView)
    requires
        forall|i: int|
            0 <= i < f.blocks.len() ==> crate::ir::cfg::reachable(f, (#[trigger] f.blocks[i]).id),
    ensures
        pruned(f) == f,
{
    let cond = crate::ir::cfg::block_reachable(f);
    let keep = Seq::new(f.blocks.len(), |i: int| cond(f.blocks[i]));
    lemma_masked_filter(f.blocks, keep, cond);
    assert forall|i: int| 0 <= i < f.blocks.len() implies #[trigger] keep[i] by {
        assert(crate::ir::cfg::reachable(f, f.blocks[i].id));
    }
    lemma_masked_len(f.blocks, keep);
}

fn dce_function(func: &mut Function, info: &Vec<InternalCallDceInfo>, fp: bool) -> (changed: bool)
    ensures
        final(func)@ == live_func(old(func)@, loose_view(info@), fp),
        changed == (final(func)@ != old(func)@),
{
    let ghost f = func@;
    let ghost loose = loose_view(info@);
    let kept = collect_kept(func, fp);
    let ghost want = cleaned(f, loose, kept@);
    let mut changed: bool = false;
    loop
        invariant
            loose == loose_view(info@),
            cleaned(func@, loose, kept@) == want,
            func@.blocks.len() == f.blocks.len(),
            changed ==> inst_count(func@.blocks, f.blocks.len()) + param_count(
                func@.blocks,
                f.blocks.len(),
            ) < inst_count(f.blocks, f.blocks.len()) + param_count(f.blocks, f.blocks.len()),
            !changed ==> func@ == f,
        ensures
            func@ == want,
            func@.blocks.len() == f.blocks.len(),
            changed ==> inst_count(func@.blocks, f.blocks.len()) + param_count(
                func@.blocks,
                f.blocks.len(),
            ) < inst_count(f.blocks, f.blocks.len()) + param_count(f.blocks, f.blocks.len()),
            !changed ==> func@ == f,
        decreases param_count(func@.blocks, func@.blocks.len()),
    {
        let ghost start = func@;
        let ghost tidy = swept(start, loose, kept@);
        let mut going: bool = true;
        proof {
            lemma_swept_params(start, loose, kept@);
            lemma_trim_shrinks(tidy, tidy.blocks.len());
        }
        while going
            invariant
                loose == loose_view(info@),
                tidy == swept(start, loose, kept@),
                start.blocks.len() == f.blocks.len(),
                func@.blocks.len() == f.blocks.len(),
                going ==> swept(func@, loose, kept@) == tidy,
                !going ==> func@ == tidy,
                param_count(func@.blocks, f.blocks.len()) == param_count(
                    start.blocks,
                    f.blocks.len(),
                ),
                changed ==> inst_count(func@.blocks, f.blocks.len()) + param_count(
                    func@.blocks,
                    f.blocks.len(),
                ) < inst_count(f.blocks, f.blocks.len()) + param_count(f.blocks, f.blocks.len()),
                !changed ==> func@ == f,
            decreases
                    inst_count(func@.blocks, f.blocks.len()),
                    (if going {
                        1nat
                    } else {
                        0nat
                    }),
        {
            let ghost now = func@;
            proof {
                lemma_sweep_shrinks(now, loose, kept@, now.blocks.len());
                if !has_dead_inst(now, loose, kept@) {
                    lemma_sweep_same(now, loose, kept@);
                }
            }
            if sweep(func, info, &kept) {
                changed = true;
            } else {
                going = false;
            }
        }
        if remove_dead_block_params(func) {
            changed = true;
            proof {
                lemma_trim_insts(tidy, f.blocks.len());
            }
        } else {
            break;
        }
    }
    let ghost before = func@;
    let cut = prune_unreachable(func);
    proof {
        if cut {
            lemma_pruned_smaller(before);
            assert(func@.blocks.len() < f.blocks.len());
        } else {
            lemma_pruned_same(before);
        }
    }
    changed || cut
}

/// Trimming keeps the instructions.
proof fn lemma_trim_insts(f: FuncView, n: nat)
    requires
        n <= f.blocks.len(),
    ensures
        inst_count(trimmed_func(f).blocks, n) == inst_count(f.blocks, n),
    decreases n,
{
    if n > 0 {
        lemma_trim_insts(f, (n - 1) as nat);
    }
}

/// The dead-code elimination pass.
pub struct Dce;

/// Which internal calls of a module can be dropped.
pub open spec fn loose_calls(m: ModuleView) -> Seq<bool> {
    Seq::new(m.functions.len(), |i: int| discardable(m, observed_fp(m), i))
}

/// A module without dead code.
pub open spec fn live_module(m: ModuleView) -> ModuleView {
    ModuleView {
        functions: Seq::new(
            m.functions.len(),
            |i: int| live_func(m.functions[i], loose_calls(m), observed_fp(m)[i]),
        ),
        ..m
    }
}

impl Pass for Dce {
    open spec fn accepts(&self, m: ModuleView) -> bool {
        true
    }

    open spec fn outcome(&self, before: ModuleView, after: ModuleView, changed: bool) -> bool {
        after == live_module(before) && changed == (after != before)
    }

    fn name(&self) -> (r: &'static str)
        ensures
            r@ == "dce"@,
    {
        "dce"
    }

    fn run(&self, module: &mut Module) -> (changed: bool) {
        let ghost m = module@;
        let effects = analyze_fpenv_effects(module);
        proof {
            assert(effects.may_run_in_dynamic_fpenv@ =~= observed_fp(m));
        }
        let info = derive_internal_call_dce_info_for_context(
            module,
            &effects.may_run_in_dynamic_fpenv,
        );
        proof {
            assert(loose_view(info@) =~= loose_calls(m));
        }
        let mut changed: bool = false;
        let mut i: usize = 0;
        while i < module.functions.len()
            invariant
                i <= m.functions.len(),
                module.functions@.len() == m.functions.len(),
                module@ == (ModuleView { functions: module@.functions, ..m }),
                effects.may_run_in_dynamic_fpenv@ == observed_fp(m),
                loose_view(info@) == loose_calls(m),
                forall|k: int|
                    0 <= k < i ==> (#[trigger] module.functions@[k])@ == live_func(
                        m.functions[k],
                        loose_calls(m),
                        observed_fp(m)[k],
                    ),
                forall|k: int|
                    i <= k < m.functions.len() ==> (#[trigger] module.functions@[k])@
                        == m.functions[k],
                changed == exists|k: int|
                    0 <= k < i && live_func(
                        #[trigger] m.functions[k],
                        loose_calls(m),
                        observed_fp(m)[k],
                    ) != m.functions[k],
            decreases m.functions.len() - i,
        {
            proof {
                assert(module.functions@[i as int]@ == m.functions[i as int]);
            }
            let fp = effects.may_run_in_dynamic_fpenv[i];
            if dce_function(&mut module.functions[i], &info, fp) {
                changed = true;
            }
            i = i + 1;
        }
        proof {
            assert(module@.functions =~= live_module(m).functions);
            if changed {
                let k = choose|k: int|
                    0 <= k < i && live_func(
                        #[trigger] m.functions[k],
                        loose_calls(m),
                        observed_fp(m)[k],
                    ) != m.functions[k];
                assert(live_module(m).functions[k] != m.functions[k]);
            } else {
                assert forall|k: int| 0 <= k < m.functions.len() implies live_module(m).functions[k]
                    == m.functions[k] by {
                    assert(live_func(m.functions[k], loose_calls(m), observed_fp(m)[k])
                        == m.functions[k]);
                }
                assert(live_module(m).functions =~= m.functions);
            }
        }
        changed
    }
}

} // verus!
