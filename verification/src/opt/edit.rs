//! Removing instructions from a function.

use crate::ids::IdSet;
use crate::ir::inst::{BasicBlock, BlockView, FuncView, Function, Inst, InstView, ValueId};
use crate::lists::{lemma_masked_filter, lemma_masked_len, lemma_masked_map, masked, retain_mask};
use crate::ir::walk::{
    lemma_renamed_uses, renamed_block, renamed_func, renamed_term, renaming, term_uses,
};
use crate::opt::dce::{block_reads, reads};
use vstd::prelude::*;

verus! {

/// Instructions without those that define one of the values.
pub open spec fn insts_without(s: Seq<InstView>, dead: Set<ValueId>) -> Seq<InstView> {
    s.filter(|i: InstView| !dead.contains(i.id))
}

/// A block without the instructions that define one of the values.
pub open spec fn block_without(b: BlockView, dead: Set<ValueId>) -> BlockView {
    BlockView { insts: insts_without(b.insts, dead), ..b }
}

/// A function without the instructions that define one of the values.
pub open spec fn func_without(f: FuncView, dead: Set<ValueId>) -> FuncView {
    FuncView { blocks: Seq::new(f.blocks.len(), |i: int| block_without(f.blocks[i], dead)), ..f }
}

/// Keeps the instructions at the places where the mask holds.
pub fn keep_insts(block: &mut BasicBlock, keep: &Vec<bool>)
    requires
        keep@.len() == old(block).insts@.len(),
    ensures
        final(block)@ == (BlockView { insts: masked(old(block)@.insts, keep@), ..old(block)@ }),
        final(block).insts@.len() <= old(block).insts@.len(),
        (final(block).insts@.len() == old(block).insts@.len()) == (forall|i: int|
            0 <= i < keep@.len() ==> #[trigger] keep@[i]),
{
    let ghost before = block.insts@;
    let ghost view = block@.insts;
    retain_mask(&mut block.insts, keep);
    proof {
        lemma_masked_map(before, view, keep@, |i: Inst| i@);
        assert(block@.insts =~= masked(view, keep@));
        lemma_masked_len(view, keep@);
    }
}

fn remove_from_block(block: &mut BasicBlock, dead: &IdSet<ValueId>)
    ensures
        final(block)@ == block_without(old(block)@, dead@),
{
    let ghost b = block@;
    let mut keep: Vec<bool> = Vec::new();
    let mut i: usize = 0;
    while i < block.insts.len()
        invariant
            *block == *old(block),
            b == block@,
            i <= block.insts@.len(),
            keep@.len() == i,
            forall|k: int| 0 <= k < i ==> #[trigger] keep@[k] == !dead@.contains(b.insts[k].id),
        decreases block.insts@.len() - i,
    {
        keep.push(!dead.contains(&block.insts[i].id));
        i = i + 1;
    }
    keep_insts(block, &keep);
    proof {
        lemma_masked_filter(b.insts, keep@, |i: InstView| !dead@.contains(i.id));
    }
}

/// Removes the instructions that define one of the values.
pub fn remove_insts(func: &mut Function, dead: &IdSet<ValueId>)
    ensures
        final(func)@ == func_without(old(func)@, dead@),
{
    let mut i: usize = 0;
    while i < func.blocks.len()
        invariant
            i <= func.blocks@.len(),
            func.blocks@.len() == old(func).blocks@.len(),
            func@ == (FuncView { blocks: func@.blocks, ..old(func)@ }),
            forall|k: int|
                0 <= k < i ==> (#[trigger] func.blocks@[k])@ == block_without(
                    old(func).blocks@[k]@,
                    dead@,
                ),
            forall|k: int|
                i <= k < func.blocks@.len() ==> #[trigger] func.blocks@[k] == old(func).blocks@[k],
        decreases func.blocks@.len() - i,
    {
        remove_from_block(&mut func.blocks[i], dead);
        i = i + 1;
    }
    proof {
        assert(func@.blocks =~= func_without(old(func)@, dead@).blocks);
    }
}

/// What stays was there, and defines none of the values.
pub proof fn lemma_insts_without(s: Seq<InstView>, dead: Set<ValueId>, k: int)
    requires
        0 <= k < insts_without(s, dead).len(),
    ensures
        s.contains(insts_without(s, dead)[k]),
        !dead.contains(insts_without(s, dead)[k].id),
{
    let keep = |i: InstView| !dead.contains(i.id);
    s.lemma_filter_pred(keep, k);
    s.lemma_filter_contains_rev(keep, s.filter(keep)[k]);
}

/// A renaming that does not lead to `v` makes nothing read it.
pub proof fn lemma_renamed_reads(b: BlockView, from: ValueId, to: ValueId, v: ValueId)
    requires
        to != v,
    ensures
        forall|k: int|
            0 <= k < b.insts.len() && (#[trigger] renamed_block(b, renaming(from, to)).insts[k]).kind.args.contains(v)
                ==> b.insts[k].kind.args.contains(v) && from != v,
        renamed_block(b, renaming(from, to)).term matches Some(t) && term_uses(t).contains(v) ==> (
        b.term matches Some(u) && term_uses(u).contains(v) && from != v),
{
    let m = renaming(from, to);
    let r = renamed_block(b, m);
    assert forall|k: int| 0 <= k < b.insts.len() && (#[trigger] r.insts[k]).kind.args.contains(v) implies b.insts[k].kind.args.contains(
        v,
    ) && from != v by {
        let j = r.insts[k].kind.args.index_of(v);
        assert(b.insts[k].kind.args[j] == v);
    }
    if let Some(u) = b.term {
        lemma_renamed_uses(u, m);
        let s = term_uses(renamed_term(u, m));
        if s.contains(v) {
            let j = s.index_of(v);
            assert(term_uses(u)[j] == v);
        }
    }
}

/// Once another value is read in place of it, a value is not read.
pub proof fn replaced_value_is_unread(f: FuncView, v: ValueId, w: ValueId)
    requires
        v != w,
    ensures
        !reads(renamed_func(f, renaming(v, w)), v),
{
    let g = renamed_func(f, renaming(v, w));
    if reads(g, v) {
        let b = choose|b: int| 0 <= b < g.blocks.len() && block_reads(#[trigger] g.blocks[b], v);
        lemma_renamed_reads(f.blocks[b], v, w, v);
    }
}

} // verus!
