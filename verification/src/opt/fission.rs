//! Loop fission: one loop with two independent stores becomes two loops.
//!
//! The loop is copied. The first loop keeps the first store and the copy keeps
//! the second. The first loop leads to the copy through a bridge, and the copy
//! leads to where the loop led.

use crate::ids::{same_id, IdMap, IdSet};
use crate::ir::cfg::predecessors;
use crate::ir::dom::lemma_dominator_is_block;
use crate::ir::inst::{
    block_pos, defs, has_block, insts_view, lemma_block_pos, the_block, BasicBlock,
    BlockId, BlockView, FuncRef, FuncView, Function, InstKind, InstView, Module, ModuleView,
    Op, TermView, Terminator, ValueId,
};
use crate::ir::loops::{back_edge, back_sources, find_natural_loops, in_loop, is_loop, NaturalLoop};
use crate::ir::walk::inst_uses;
use crate::opt::alias::{alias, AliasOracle, AliasResult};
use crate::opt::clone::{
    block_names, body_of, body_positions, clone_loop, clones, in_body,
    lemma_body_defs, lemma_body_upto, lemma_has_clone, positions_are, with_clones,
};
use crate::opt::insts::{all_insts, insts_of, refs_view};
use crate::opt::loop_utils::{find_preheader, preds_are, preheader_of};
use crate::opt::pass::Pass;
use crate::target::TargetLayout;
use vstd::prelude::*;

verus! {

/// The smallest block that is worth a split.
pub const FISSION_MIN_BODY: usize = 4;

/// Does a block define `v`?
pub open spec fn block_defines(b: BlockView, v: ValueId) -> bool {
    ||| exists|k: int| 0 <= k < b.params.len() && (#[trigger] b.params[k]).id == v
    ||| exists|k: int| 0 <= k < b.insts.len() && (#[trigger] b.insts[k]).id == v
}

/// Does one of the blocks of a set define `v`?
pub open spec fn body_defines(f: FuncView, body: Set<BlockId>, v: ValueId) -> bool {
    exists|i: int|
        0 <= i < f.blocks.len() && in_body(f, body, i) && block_defines(#[trigger] f.blocks[i], v)
}

/// With a value, does a set hold what its definition reads of `local`?
pub open spec fn holds_operands(f: FuncView, local: Set<ValueId>, s: Set<ValueId>) -> bool {
    forall|k: int, v: ValueId|
        0 <= k < insts_of(f).len() && s.contains((#[trigger] insts_of(f)[k]).id)
            && #[trigger] insts_of(f)[k].kind.args.contains(v) && local.contains(v) ==> s.contains(v)
}

/// Is `v` in the least set that holds `root` and with each value what its
/// definition reads of `local`?
pub open spec fn in_slice(f: FuncView, local: Set<ValueId>, root: ValueId, v: ValueId) -> bool {
    forall|s: Set<ValueId>|
        #![trigger holds_operands(f, local, s)]
        s.contains(root) && holds_operands(f, local, s) ==> s.contains(v)
}

/// Where an instruction reads or writes memory.
pub open spec fn access_of(i: InstView) -> Option<(ValueId, bool)> {
    match i.kind.op {
        Op::Load => Some((i.kind.args[0], false)),
        Op::VolatileLoad => Some((i.kind.args[0], false)),
        Op::VLoad => Some((i.kind.args[0], false)),
        Op::Store => Some((i.kind.args[1], true)),
        Op::VolatileStore => Some((i.kind.args[1], true)),
        Op::VStore => Some((i.kind.args[1], true)),
        _ => None,
    }
}

/// Can two accesses trade places?
pub open spec fn can_swap(
    f: FuncView,
    layout: TargetLayout,
    x: (ValueId, bool),
    y: (ValueId, bool),
) -> bool {
    (!x.1 && !y.1) || alias(f, layout, x.0, y.0) == AliasResult::NoAlias
}

/// Can every access in `a` trade places with every access in `b`?
pub open spec fn independent(
    f: FuncView,
    layout: TargetLayout,
    a: spec_fn(ValueId) -> bool,
    b: spec_fn(ValueId) -> bool,
) -> bool {
    forall|i: int, j: int|
        0 <= i < insts_of(f).len() && 0 <= j < insts_of(f).len() && a(
            (#[trigger] insts_of(f)[i]).id,
        ) && b((#[trigger] insts_of(f)[j]).id) && access_of(insts_of(f)[i]) is Some && access_of(
            insts_of(f)[j],
        ) is Some ==> can_swap(
            f,
            layout,
            access_of(insts_of(f)[i])->0,
            access_of(insts_of(f)[j])->0,
        )
}

/// The blocks of the natural loop of `h`.
pub open spec fn loop_body(f: FuncView, h: BlockId) -> Set<BlockId> {
    Set::new(|x: BlockId| in_loop(f, h, x))
}

/// Does a block hold a store?
pub open spec fn has_store(b: BlockView) -> bool {
    exists|k: int| 0 <= k < b.insts.len() && (#[trigger] b.insts[k]).kind.op is Store
}

/// Is the block at `i` one of the loop that is neither header nor latch, and
/// stores?
pub open spec fn computes(f: FuncView, h: BlockId, latch: BlockId, i: int) -> bool {
    &&& in_body(f, loop_body(f, h), i)
    &&& f.blocks[i].id != h
    &&& f.blocks[i].id != latch
    &&& has_store(f.blocks[i])
}

/// Is the block at `k` the only one of the loop that computes?
pub open spec fn alone_computes(f: FuncView, h: BlockId, latch: BlockId, k: int) -> bool {
    &&& 0 <= k < f.blocks.len()
    &&& forall|i: int|
        0 <= i < f.blocks.len() ==> #[trigger] computes(f, h, latch, i) == (i == k)
}

/// Can an operation not be in two loops at once?
pub open spec fn cannot_repeat(op: Op) -> bool {
    match op {
        Op::CallInternal(_) => true,
        Op::CallExternal(_) => true,
        Op::CallIndirect => true,
        Op::RuntimeCall(_) => true,
        Op::VStore => true,
        Op::VolatileLoad => true,
        Op::VolatileStore => true,
        _ => false,
    }
}

/// Does a block hold an operation that cannot be in two loops at once?
pub open spec fn block_cannot_repeat(b: BlockView) -> bool {
    exists|k: int| 0 <= k < b.insts.len() && cannot_repeat((#[trigger] b.insts[k]).kind.op)
}

/// Does the block at `i` leave the loop where its condition is false?
pub open spec fn leaves(f: FuncView, body: Set<BlockId>, i: int) -> bool {
    in_body(f, body, i) && (f.blocks[i].term matches Some(
        TermView::CondBranch { false_dest, .. },
    ) && !body.contains(false_dest))
}

/// How a loop is split.
#[derive(Debug, Clone, Copy)]
pub struct Split {
    /// The block with the two stores.
    pub block: BlockId,
    /// Where the first store stands in it.
    pub first: usize,
    /// Where the second store stands in it.
    pub second: usize,
    /// Where the block stands that leaves the loop.
    pub exit_at: usize,
    /// What the loop starts with.
    pub init: ValueId,
}

/// Are `first` and `second` where a block stores, in order, and is there no
/// other?
pub open spec fn stores_are(b: BlockView, first: int, second: int) -> bool {
    &&& 0 <= first < second < b.insts.len()
    &&& forall|k: int|
        0 <= k < b.insts.len() ==> (#[trigger] b.insts[k]).kind.op is Store == (k == first || k
            == second)
}

/// The slice of the value `root` within the loop of `h`.
pub open spec fn loop_slice(f: FuncView, h: BlockId, root: ValueId) -> spec_fn(ValueId) -> bool {
    |v: ValueId|
        in_slice(f, Set::new(|w: ValueId| body_defines(f, loop_body(f, h), w)), root, v)
}

/// Can the loop of `h` be split as `s` says?
pub open spec fn is_split(f: FuncView, layout: TargetLayout, h: BlockId, s: Split) -> bool {
    let body = loop_body(f, h);
    let latches = back_sources(f, f.blocks.len(), h);
    let at = block_pos(f.blocks, s.block);
    let b = f.blocks[at];
    &&& exists|l: BlockId| back_edge(f, l, h)
    &&& latches.len() == 1
    &&& the_block(f.blocks, h).params.len() == 1
    &&& has_block(f.blocks, s.block)
    &&& alone_computes(f, h, latches[0], at)
    &&& b.insts.len() >= FISSION_MIN_BODY
    &&& stores_are(b, s.first as int, s.second as int)
    &&& forall|i: int|
        0 <= i < f.blocks.len() && #[trigger] in_body(f, body, i) ==> !block_cannot_repeat(
            f.blocks[i],
        )
    &&& independent(
        f,
        layout,
        loop_slice(f, h, b.insts[s.first as int].id),
        loop_slice(f, h, b.insts[s.second as int].id),
    )
    &&& s.exit_at < f.blocks.len()
    &&& leaves(f, body, s.exit_at as int)
    &&& forall|i: int| 0 <= i < s.exit_at ==> !#[trigger] leaves(f, body, i)
    &&& preheader_of(f, h, body) matches Some(p) && (the_block(f.blocks, p).term matches Some(
        TermView::Branch(_, args),
    ) && args.len() > 0 && args[0] == s.init)
}

/// A function without instruction `k` of the block named `id`.
pub open spec fn without_inst(f: FuncView, id: BlockId, k: int) -> FuncView {
    let at = block_pos(f.blocks, id);
    let b = f.blocks[at];
    if k < b.insts.len() {
        FuncView { blocks: f.blocks.update(at, BlockView { insts: b.insts.remove(k), ..b }), ..f }
    } else {
        f
    }
}

/// A function with a new block at the end that branches to `dest` with `arg`.
pub open spec fn with_bridge(f: FuncView, dest: BlockId, arg: ValueId) -> FuncView {
    FuncView {
        blocks: f.blocks.push(
            BlockView {
                id: BlockId(f.next_block),
                name: "fission_bridge"@,
                params: Seq::empty(),
                insts: Seq::empty(),
                term: Some(TermView::Branch(dest, seq![arg])),
            },
        ),
        next_block: (f.next_block + 1) as u32,
        ..f
    }
}

/// A terminator that leads to `dest`, with nothing, where its condition is false.
pub open spec fn rerouted(t: Option<TermView>, dest: BlockId) -> Option<TermView> {
    match t {
        Some(TermView::CondBranch { cond, true_dest, true_args, .. }) => Some(
            TermView::CondBranch {
                cond,
                true_dest,
                true_args,
                false_dest: dest,
                false_args: Seq::empty(),
            },
        ),
        _ => t,
    }
}

/// A function whose block at `i` leads to `dest` where its condition is false.
pub open spec fn rerouted_at(f: FuncView, i: int, dest: BlockId) -> FuncView {
    FuncView {
        blocks: f.blocks.update(
            i,
            BlockView { term: rerouted(f.blocks[i].term, dest), ..f.blocks[i] },
        ),
        ..f
    }
}

/// A function after the loop of `h` is split.
pub open spec fn split_func(f: FuncView, h: BlockId, s: Split) -> FuncView {
    let body = loop_body(f, h);
    let names = block_names(f, body);
    let copied = with_clones(f, body);
    let halved = without_inst(
        without_inst(copied, s.block, s.second as int),
        names[s.block],
        s.first as int,
    );
    rerouted_at(
        with_bridge(halved, names[h], s.init),
        s.exit_at as int,
        BlockId(halved.next_block),
    )
}

/// Is there a loop to split?
pub open spec fn splittable(f: FuncView, layout: TargetLayout) -> bool {
    exists|h: BlockId, s: Split| is_split(f, layout, h, s)
}

/// Is `g` what `f` becomes: split at the first header that allows it, or the
/// same?
pub open spec fn fissioned(f: FuncView, layout: TargetLayout, g: FuncView) -> bool {
    if splittable(f, layout) {
        exists|h: BlockId, s: Split| #[trigger]
            is_split(f, layout, h, s) && g == split_func(f, h, s) && forall|k: BlockId, t: Split|
             #[trigger] is_split(f, layout, k, t) ==> h.0 <= k.0
    } else {
        g == f
    }
}

fn collect_block_values(block: &BasicBlock, out: &mut IdSet<ValueId>)
    ensures
        final(out)@ == old(out)@.union(Set::new(|v: ValueId| block_defines(block@, v))),
{
    let ghost b = block@;
    let ghost start = out@;
    let mut i: usize = 0;
    while i < block.params.len()
        invariant
            b == block@,
            i <= block.params@.len(),
            forall|v: ValueId| #[trigger]
                out@.contains(v) == (start.contains(v) || exists|k: int|
                    0 <= k < i && (#[trigger] b.params[k]).id == v),
        decreases block.params@.len() - i,
    {
        let ghost before = out@;
        let added: bool = out.insert(block.params[i].id);
        proof {
            assert forall|v: ValueId| #[trigger] out@.contains(v) == (start.contains(v) || exists|k: int|
             0 <= k < i + 1 && (#[trigger] b.params[k]).id == v) by {
                assert(before.contains(v) == (start.contains(v) || exists|k: int|
                    0 <= k < i && (#[trigger] b.params[k]).id == v));
                if v == b.params[i as int].id {
                    assert(out@.contains(v));
                }
            }
        }
        i = i + 1;
    }
    let ghost middle = out@;
    let mut j: usize = 0;
    while j < block.insts.len()
        invariant
            b == block@,
            j <= block.insts@.len(),
            forall|v: ValueId| #[trigger]
                out@.contains(v) == (middle.contains(v) || exists|k: int|
                    0 <= k < j && (#[trigger] b.insts[k]).id == v),
        decreases block.insts@.len() - j,
    {
        let ghost before = out@;
        proof {
            assert(b.insts[j as int] == block.insts@[j as int]@);
        }
        let added: bool = out.insert(block.insts[j].id);
        proof {
            assert forall|v: ValueId| #[trigger] out@.contains(v) == (middle.contains(v) || exists|k: int|
             0 <= k < j + 1 && (#[trigger] b.insts[k]).id == v) by {
                assert(before.contains(v) == (middle.contains(v) || exists|k: int|
                    0 <= k < j && (#[trigger] b.insts[k]).id == v));
                if v == b.insts[j as int].id {
                    assert(out@.contains(v));
                }
            }
        }
        j = j + 1;
    }
    proof {
        assert(out@ =~= start.union(Set::new(|v: ValueId| block_defines(b, v))));
    }
}

/// The values that the blocks of a set define.
pub fn loop_defined_values(func: &Function, body: &IdSet<BlockId>) -> (r: IdSet<ValueId>)
    ensures
        r@ == Set::new(|v: ValueId| body_defines(func@, body@, v)),
{
    let ghost f = func@;
    let at = body_positions(func, body);
    let ghost ps = body_of(f, body@);
    proof {
        lemma_body_upto(f, body@, f.blocks.len());
    }
    let mut out: IdSet<ValueId> = IdSet::new();
    let mut i: usize = 0;
    while i < at.len()
        invariant
            f == func@,
            ps == body_of(f, body@),
            positions_are(at@, ps),
            forall|r: int|
                0 <= r < ps.len() ==> 0 <= #[trigger] ps[r] < f.blocks.len() && in_body(
                    f,
                    body@,
                    ps[r],
                ),
            i <= at@.len(),
            forall|v: ValueId| #[trigger]
                out@.contains(v) == exists|r: int|
                    0 <= r < i && block_defines(f.blocks[#[trigger] ps[r]], v),
        decreases at@.len() - i,
    {
        let k: usize = at[i];
        let ghost before = out@;
        proof {
            assert(k == ps[i as int]);
            assert(f.blocks[k as int] == func.blocks@[k as int]@);
        }
        collect_block_values(&func.blocks[k], &mut out);
        proof {
            assert forall|v: ValueId| #[trigger] out@.contains(v) == exists|r: int|
                0 <= r < i + 1 && block_defines(f.blocks[#[trigger] ps[r]], v) by {
                assert(before.contains(v) == exists|r: int|
                    0 <= r < i && block_defines(f.blocks[#[trigger] ps[r]], v));
                if block_defines(f.blocks[k as int], v) {
                    assert(block_defines(f.blocks[ps[i as int]], v));
                }
            }
        }
        i = i + 1;
    }
    proof {
        assert forall|v: ValueId| #[trigger] out@.contains(v) == body_defines(f, body@, v) by {
            if body_defines(f, body@, v) {
                let b = choose|b: int|
                    0 <= b < f.blocks.len() && in_body(f, body@, b) && block_defines(
                        #[trigger] f.blocks[b],
                        v,
                    );
                assert(ps.contains(b));
                let r = ps.index_of(b);
                assert(block_defines(f.blocks[ps[r]], v));
            }
        }
        assert(out@ =~= Set::new(|v: ValueId| body_defines(f, body@, v)));
    }
    out
}

/// The least set that holds `root` and with each value what its definition reads
/// of `local`.
fn backward_slice(func: &Function, root: ValueId, local: &IdSet<ValueId>) -> (r: IdSet<ValueId>)
    ensures
        forall|v: ValueId| #[trigger] r@.contains(v) == in_slice(func@, local@, root, v),
{
    let ghost f = func@;
    let list = all_insts(func);
    let ghost s = insts_of(f);
    let mut seen: IdSet<ValueId> = IdSet::new();
    let mut work: Vec<ValueId> = Vec::new();
    work.push(root);
    let ghost all = local@.insert(root);
    proof {
        local.order_facts();
        seen.order_facts();
        assert(work@[0] == root);
        assert(work@.contains(root));
    }
    while work.len() > 0
        invariant
            f == func@,
            s == insts_of(f),
            s == refs_view(list@),
            all == local@.insert(root),
            all.finite(),
            seen@.subset_of(all),
            seen@.finite(),
            seen@.contains(root) || work@.contains(root),
            forall|i: int| 0 <= i < work@.len() ==> all.contains(#[trigger] work@[i]),
            forall|i: int| 0 <= i < work@.len() ==> in_slice(f, local@, root, #[trigger] work@[i]),
            forall|v: ValueId| #[trigger] seen@.contains(v) ==> in_slice(f, local@, root, v),
            forall|k: int, v: ValueId|
                0 <= k < s.len() && seen@.contains((#[trigger] s[k]).id)
                    && #[trigger] s[k].kind.args.contains(v) && local@.contains(v) ==> seen@.contains(
                    v,
                ) || work@.contains(v),
        decreases all.len() - seen@.len(), work@.len(),
    {
        let ghost before_work = work@;
        let ghost before_seen = seen@;
        proof {
            vstd::set_lib::lemma_len_subset(seen@, all);
        }
        match work.pop() {
            Some(v) => {
                proof {
                    assert(v == before_work.last());
                    assert(before_work[before_work.len() - 1] == v);
                    assert forall|x: ValueId| before_work.contains(x) && x != v implies work@.contains(
                        x,
                    ) by {
                        let i = before_work.index_of(x);
                        assert(work@[i] == x);
                    }
                    assert forall|i: int| 0 <= i < work@.len() implies before_work[i]
                        == #[trigger] work@[i] by {}
                }
                if seen.insert(v) {
                    proof {
                        assert(seen@.subset_of(all));
                        vstd::set_lib::lemma_len_subset(seen@, all);
                    }
                    let ghost popped = work@;
                    let mut i: usize = 0;
                    while i < list.len()
                        invariant
                            f == func@,
                            s == insts_of(f),
                            s == refs_view(list@),
                            all == local@.insert(root),
                            i <= list@.len(),
                            in_slice(f, local@, root, v),
                            forall|x: ValueId| #[trigger] popped.contains(x) ==> work@.contains(x),
                            forall|k: int| 0 <= k < work@.len() ==> all.contains(#[trigger] work@[k]),
                            forall|k: int|
                                0 <= k < work@.len() ==> in_slice(
                                    f,
                                    local@,
                                    root,
                                    #[trigger] work@[k],
                                ),
                            forall|k: int, x: ValueId|
                                0 <= k < i && (#[trigger] s[k]).id == v
                                    && #[trigger] s[k].kind.args.contains(x) && local@.contains(x)
                                    ==> seen@.contains(x) || work@.contains(x),
                        decreases list@.len() - i,
                    {
                        proof {
                            assert(s[i as int] == list@[i as int]@);
                        }
                        if same_id(list[i].id, v) {
                            push_operands(
                                &list[i].kind,
                                local,
                                &seen,
                                &mut work,
                                Ghost(f),
                                Ghost(root),
                                Ghost(v),
                                Ghost(i as int),
                            );
                        }
                        i = i + 1;
                    }
                    proof {
                        assert forall|k: int, x: ValueId|
                            0 <= k < s.len() && seen@.contains((#[trigger] s[k]).id)
                                && #[trigger] s[k].kind.args.contains(x) && local@.contains(x) implies seen@.contains(
                            x,
                        ) || work@.contains(x) by {
                            if s[k].id != v {
                                assert(before_seen.contains(s[k].id));
                                assert(before_seen.contains(x) || before_work.contains(x));
                                if before_work.contains(x) && x != v {
                                    assert(popped.contains(x));
                                }
                            }
                        }
                    }
                } else {
                    proof {
                        assert(seen@ =~= before_seen);
                    }
                }
            },
            None => {},
        }
    }
    proof {
        assert(holds_operands(f, local@, seen@));
    }
    seen
}

fn push_operands(
    kind: &InstKind,
    local: &IdSet<ValueId>,
    seen: &IdSet<ValueId>,
    work: &mut Vec<ValueId>,
    Ghost(f): Ghost<FuncView>,
    Ghost(root): Ghost<ValueId>,
    Ghost(v): Ghost<ValueId>,
    Ghost(at): Ghost<int>,
)
    requires
        0 <= at < insts_of(f).len(),
        insts_of(f)[at].kind == kind@,
        insts_of(f)[at].id == v,
        in_slice(f, local@, root, v),
        forall|k: int|
            0 <= k < old(work)@.len() ==> local@.insert(root).contains(#[trigger] old(work)@[k]),
        forall|k: int|
            0 <= k < old(work)@.len() ==> in_slice(f, local@, root, #[trigger] old(work)@[k]),
    ensures
        forall|x: ValueId| #[trigger] old(work)@.contains(x) ==> final(work)@.contains(x),
        forall|k: int|
            0 <= k < final(work)@.len() ==> local@.insert(root).contains(
                #[trigger] final(work)@[k],
            ),
        forall|k: int|
            0 <= k < final(work)@.len() ==> in_slice(f, local@, root, #[trigger] final(work)@[k]),
        forall|x: ValueId| #[trigger]
            kind@.args.contains(x) && local@.contains(x) ==> seen@.contains(x)
                || final(work)@.contains(x),
{
    let uses = inst_uses(kind);
    let mut i: usize = 0;
    while i < uses.len()
        invariant
            i <= uses@.len(),
            uses@ == kind@.args,
            0 <= at < insts_of(f).len(),
            insts_of(f)[at].kind == kind@,
            insts_of(f)[at].id == v,
            in_slice(f, local@, root, v),
            forall|x: ValueId| #[trigger] old(work)@.contains(x) ==> work@.contains(x),
            forall|k: int|
                0 <= k < work@.len() ==> local@.insert(root).contains(#[trigger] work@[k]),
            forall|k: int| 0 <= k < work@.len() ==> in_slice(f, local@, root, #[trigger] work@[k]),
            forall|k: int|
                0 <= k < i && local@.contains(#[trigger] uses@[k]) ==> seen@.contains(uses@[k])
                    || work@.contains(uses@[k]),
        decreases uses@.len() - i,
    {
        let x = uses[i];
        let ghost before = work@;
        if local.contains(&x) && !seen.contains(&x) {
            proof {
                assert(kind@.args.contains(x));
                assert forall|t: Set<ValueId>|
                    #![trigger holds_operands(f, local@, t)]
                    t.contains(root) && holds_operands(f, local@, t) implies t.contains(x) by {
                    assert(t.contains(v));
                    assert(insts_of(f)[at].kind.args.contains(x));
                }
            }
            work.push(x);
            proof {
                assert(work@[before.len() as int] == x);
                assert forall|y: ValueId| #[trigger] before.contains(y) implies work@.contains(y) by {
                    assert(work@[before.index_of(y)] == y);
                }
            }
        }
        i = i + 1;
    }
    proof {
        assert forall|x: ValueId| #[trigger] kind@.args.contains(x) && local@.contains(x) implies seen@.contains(
            x,
        ) || work@.contains(x) by {
            let k = uses@.index_of(x);
            assert(uses@[k] == x);
        }
    }
}


fn access_in(kind: &InstKind, Ghost(i): Ghost<InstView>) -> (r: Option<(ValueId, bool)>)
    requires
        i.kind == kind@,
    ensures
        r == access_of(i),
{
    match kind {
        InstKind::Load(p) => Some((*p, false)),
        InstKind::VolatileLoad(p) => Some((*p, false)),
        InstKind::VLoad(p) => Some((*p, false)),
        InstKind::Store(_, p) => Some((*p, true)),
        InstKind::VolatileStore(_, p) => Some((*p, true)),
        InstKind::VStore(_, p) => Some((*p, true)),
        InstKind::Call(callee, _) => match callee {
            FuncRef::Internal(_) => None,
            FuncRef::External(_) => None,
            FuncRef::Indirect(_) => None,
        },
        _ => None,
    }
}

/// The accesses of a list of instructions that are in a set.
pub open spec fn accesses_upto(s: Seq<InstView>, set: Set<ValueId>, n: nat) -> Seq<(ValueId, bool)>
    decreases n,
{
    if n == 0 {
        Seq::empty()
    } else {
        let before = accesses_upto(s, set, (n - 1) as nat);
        if set.contains(s[n - 1].id) && access_of(s[n - 1]) is Some {
            before.push(access_of(s[n - 1])->0)
        } else {
            before
        }
    }
}

proof fn lemma_accesses(s: Seq<InstView>, set: Set<ValueId>, n: nat)
    requires
        n <= s.len(),
    ensures
        forall|k: int|
            0 <= k < n && set.contains((#[trigger] s[k]).id) && access_of(s[k]) is Some
                ==> accesses_upto(s, set, n).contains(access_of(s[k])->0),
        forall|j: int|
            0 <= j < accesses_upto(s, set, n).len() ==> exists|k: int|
                0 <= k < n && set.contains((#[trigger] s[k]).id) && access_of(s[k]) == Some(
                    #[trigger] accesses_upto(s, set, n)[j],
                ),
    decreases n,
{
    if n > 0 {
        lemma_accesses(s, set, (n - 1) as nat);
        let before = accesses_upto(s, set, (n - 1) as nat);
        let after = accesses_upto(s, set, n);
        assert forall|k: int|
            0 <= k < n && set.contains((#[trigger] s[k]).id) && access_of(s[k]) is Some implies after.contains(
            access_of(s[k])->0,
        ) by {
            if k < n - 1 {
                let j = before.index_of(access_of(s[k])->0);
                assert(after[j] == before[j]);
            } else {
                assert(after[before.len() as int] == access_of(s[k])->0);
            }
        }
        assert forall|j: int| 0 <= j < after.len() implies exists|k: int|
            0 <= k < n && set.contains((#[trigger] s[k]).id) && access_of(s[k]) == Some(
                #[trigger] after[j],
            ) by {
            if j < before.len() {
                assert(after[j] == before[j]);
            } else {
                assert(access_of(s[n - 1]) == Some(after[j]));
            }
        }
    }
}

fn partition_memory_accesses(func: &Function, slice: &IdSet<ValueId>) -> (r: Vec<(ValueId, bool)>)
    ensures
        r@ == accesses_upto(insts_of(func@), slice@, insts_of(func@).len()),
{
    let list = all_insts(func);
    let ghost s = insts_of(func@);
    let mut out: Vec<(ValueId, bool)> = Vec::new();
    let mut i: usize = 0;
    while i < list.len()
        invariant
            i <= list@.len(),
            s == insts_of(func@),
            s == refs_view(list@),
            out@ == accesses_upto(s, slice@, i as nat),
        decreases list@.len() - i,
    {
        proof {
            assert(s[i as int] == list@[i as int]@);
        }
        if slice.contains(&list[i].id) {
            match access_in(&list[i].kind, Ghost(s[i as int])) {
                Some(x) => {
                    out.push(x);
                },
                None => {},
            }
        }
        i = i + 1;
    }
    out
}

/// Can all of one group run before all of the other?
///
/// That is so where no pair of accesses, one of each group and one of them a
/// write, can meet.
pub fn partitions_are_memory_independent(
    func: &Function,
    slice_a: &IdSet<ValueId>,
    slice_b: &IdSet<ValueId>,
    layout: TargetLayout,
) -> (r: bool)
    ensures
        r == independent(
            func@,
            layout,
            |v: ValueId| slice_a@.contains(v),
            |v: ValueId| slice_b@.contains(v),
        ),
{
    let ghost f = func@;
    let ghost s = insts_of(f);
    let ghost in_a = |v: ValueId| slice_a@.contains(v);
    let ghost in_b = |v: ValueId| slice_b@.contains(v);
    let a = partition_memory_accesses(func, slice_a);
    let b = partition_memory_accesses(func, slice_b);
    proof {
        lemma_accesses(s, slice_a@, s.len());
        lemma_accesses(s, slice_b@, s.len());
    }
    let mut oracle = AliasOracle::new(func, layout);
    let mut i: usize = 0;
    while i < a.len()
        invariant
            f == func@,
            s == insts_of(f),
            i <= a@.len(),
            a@ == accesses_upto(s, slice_a@, s.len()),
            b@ == accesses_upto(s, slice_b@, s.len()),
            oracle.function() == f,
            oracle.target() == layout,
            in_a == (|v: ValueId| slice_a@.contains(v)),
            in_b == (|v: ValueId| slice_b@.contains(v)),
            forall|j: int|
                0 <= j < a@.len() ==> exists|k: int|
                    0 <= k < s.len() && slice_a@.contains((#[trigger] s[k]).id) && access_of(s[k])
                        == Some(#[trigger] a@[j]),
            forall|j: int|
                0 <= j < b@.len() ==> exists|k: int|
                    0 <= k < s.len() && slice_b@.contains((#[trigger] s[k]).id) && access_of(s[k])
                        == Some(#[trigger] b@[j]),
            forall|x: int, y: int|
                0 <= x < i && 0 <= y < b@.len() ==> can_swap(
                    f,
                    layout,
                    #[trigger] a@[x],
                    #[trigger] b@[y],
                ),
        decreases a@.len() - i,
    {
        let mut j: usize = 0;
        while j < b.len()
            invariant
                f == func@,
                s == insts_of(f),
                i < a@.len(),
                j <= b@.len(),
                a@ == accesses_upto(s, slice_a@, s.len()),
                b@ == accesses_upto(s, slice_b@, s.len()),
                oracle.function() == f,
                oracle.target() == layout,
                in_a == (|v: ValueId| slice_a@.contains(v)),
                in_b == (|v: ValueId| slice_b@.contains(v)),
                forall|j: int|
                    0 <= j < a@.len() ==> exists|k: int|
                        0 <= k < s.len() && slice_a@.contains((#[trigger] s[k]).id) && access_of(
                            s[k],
                        ) == Some(#[trigger] a@[j]),
                forall|j: int|
                    0 <= j < b@.len() ==> exists|k: int|
                        0 <= k < s.len() && slice_b@.contains((#[trigger] s[k]).id) && access_of(
                            s[k],
                        ) == Some(#[trigger] b@[j]),
                forall|x: int, y: int|
                    0 <= x < i && 0 <= y < b@.len() ==> can_swap(
                        f,
                        layout,
                        #[trigger] a@[x],
                        #[trigger] b@[y],
                    ),
                forall|y: int|
                    0 <= y < j ==> can_swap(f, layout, a@[i as int], #[trigger] b@[y]),
            decreases b@.len() - j,
        {
            let (ptr_a, write_a) = a[i];
            let (ptr_b, write_b) = b[j];
            if write_a || write_b {
                let clear = match oracle.query(ptr_a, ptr_b) {
                    AliasResult::NoAlias => true,
                    _ => false,
                };
                if !clear {
                    proof {
                        let x = choose|k: int|
                            0 <= k < s.len() && slice_a@.contains((#[trigger] s[k]).id)
                                && access_of(s[k]) == Some(a@[i as int]);
                        let y = choose|k: int|
                            0 <= k < s.len() && slice_b@.contains((#[trigger] s[k]).id)
                                && access_of(s[k]) == Some(b@[j as int]);
                        assert(in_a(s[x].id) && in_b(s[y].id));
                        assert(!can_swap(f, layout, a@[i as int], b@[j as int]));
                        assert(!independent(f, layout, in_a, in_b));
                    }
                    return false;
                }
            }
            proof {
                assert(can_swap(f, layout, a@[i as int], b@[j as int]));
            }
            j = j + 1;
        }
        i = i + 1;
    }
    proof {
        assert forall|x: int, y: int|
            0 <= x < s.len() && 0 <= y < s.len() && in_a((#[trigger] s[x]).id) && in_b(
                (#[trigger] s[y]).id,
            ) && access_of(s[x]) is Some && access_of(s[y]) is Some implies can_swap(
            f,
            layout,
            access_of(s[x])->0,
            access_of(s[y])->0,
        ) by {
            assert(a@.contains(access_of(s[x])->0));
            assert(b@.contains(access_of(s[y])->0));
            let p = a@.index_of(access_of(s[x])->0);
            let q = b@.index_of(access_of(s[y])->0);
            assert(can_swap(f, layout, a@[p], b@[q]));
        }
    }
    true
}

fn is_store(kind: &InstKind) -> (r: bool)
    ensures
        r == kind@.op is Store,
{
    match kind {
        InstKind::Store(_, _) => true,
        InstKind::Call(callee, _) => match callee {
            FuncRef::Internal(_) => false,
            FuncRef::External(_) => false,
            FuncRef::Indirect(_) => false,
        },
        _ => false,
    }
}

fn repeats_badly(kind: &InstKind) -> (r: bool)
    ensures
        r == cannot_repeat(kind@.op),
{
    match kind {
        InstKind::Call(callee, _) => match callee {
            FuncRef::Internal(_) => true,
            FuncRef::External(_) => true,
            FuncRef::Indirect(_) => true,
        },
        InstKind::RuntimeCall(_, _) => true,
        InstKind::VStore(_, _) => true,
        InstKind::VolatileLoad(_) => true,
        InstKind::VolatileStore(_, _) => true,
        _ => false,
    }
}

fn block_stores(block: &BasicBlock) -> (r: bool)
    ensures
        r == has_store(block@),
{
    let ghost b = block@;
    let mut i: usize = 0;
    while i < block.insts.len()
        invariant
            b == block@,
            i <= block.insts@.len(),
            forall|k: int| 0 <= k < i ==> !((#[trigger] b.insts[k]).kind.op is Store),
        decreases block.insts@.len() - i,
    {
        proof {
            assert(b.insts[i as int] == block.insts@[i as int]@);
        }
        if is_store(&block.insts[i].kind) {
            return true;
        }
        i = i + 1;
    }
    false
}

fn block_repeats_badly(block: &BasicBlock) -> (r: bool)
    ensures
        r == block_cannot_repeat(block@),
{
    let ghost b = block@;
    let mut i: usize = 0;
    while i < block.insts.len()
        invariant
            b == block@,
            i <= block.insts@.len(),
            forall|k: int| 0 <= k < i ==> !cannot_repeat((#[trigger] b.insts[k]).kind.op),
        decreases block.insts@.len() - i,
    {
        proof {
            assert(b.insts[i as int] == block.insts@[i as int]@);
        }
        if repeats_badly(&block.insts[i].kind) {
            return true;
        }
        i = i + 1;
    }
    false
}

fn store_pair(block: &BasicBlock) -> (r: Option<(usize, usize)>)
    ensures
        match r {
            Some((x, y)) => stores_are(block@, x as int, y as int),
            None => forall|x: int, y: int| !#[trigger] stores_are(block@, x, y),
        },
{
    let ghost b = block@;
    let mut first: Option<usize> = None;
    let mut second: Option<usize> = None;
    let mut i: usize = 0;
    while i < block.insts.len()
        invariant
            b == block@,
            i <= block.insts@.len(),
            second is Some ==> first is Some && first->0 < second->0 < i,
            first is Some ==> first->0 < i,
            forall|k: int|
                0 <= k < i ==> (#[trigger] b.insts[k]).kind.op is Store == ((first is Some && first->0
                    == k) || (second is Some && second->0 == k)),
        decreases block.insts@.len() - i,
    {
        proof {
            assert(b.insts[i as int] == block.insts@[i as int]@);
        }
        if is_store(&block.insts[i].kind) {
            if first.is_none() {
                first = Some(i);
            } else if second.is_none() {
                second = Some(i);
            } else {
                proof {
                    assert(b.insts[first->0 as int].kind.op is Store);
                    assert(b.insts[second->0 as int].kind.op is Store);
                    assert(b.insts[i as int].kind.op is Store);
                }
                return None;
            }
        }
        i = i + 1;
    }
    match (first, second) {
        (Some(x), Some(y)) => Some((x, y)),
        _ => {
            proof {
                assert forall|x: int, y: int| !#[trigger] stores_are(b, x, y) by {
                    if stores_are(b, x, y) {
                        assert(b.insts[x].kind.op is Store);
                        assert(b.insts[y].kind.op is Store);
                    }
                }
            }
            None
        },
    }
}

fn find_computation_block(
    func: &Function,
    at: &Vec<usize>,
    h: BlockId,
    latch: BlockId,
) -> (r: Option<usize>)
    requires
        positions_are(at@, body_of(func@, loop_body(func@, h))),
    ensures
        match r {
            Some(k) => alone_computes(func@, h, latch, k as int),
            None => forall|k: int| !#[trigger] alone_computes(func@, h, latch, k),
        },
{
    let ghost f = func@;
    let ghost body = loop_body(f, h);
    let ghost ps = body_of(f, body);
    proof {
        lemma_body_upto(f, body, f.blocks.len());
    }
    let mut found: Option<usize> = None;
    let mut i: usize = 0;
    while i < at.len()
        invariant
            f == func@,
            body == loop_body(f, h),
            ps == body_of(f, body),
            positions_are(at@, ps),
            i <= at@.len(),
            forall|r: int|
                0 <= r < ps.len() ==> 0 <= #[trigger] ps[r] < f.blocks.len() && in_body(
                    f,
                    body,
                    ps[r],
                ),
            forall|r: int, q: int| 0 <= r < q < ps.len() ==> #[trigger] ps[r] < #[trigger] ps[q],
            found matches Some(k) ==> 0 <= k < f.blocks.len() && computes(f, h, latch, k as int)
                && exists|r: int| 0 <= r < i && #[trigger] ps[r] == k,
            forall|r: int|
                0 <= r < i && computes(f, h, latch, #[trigger] ps[r]) ==> found is Some
                    && found->0 == ps[r],
        decreases at@.len() - i,
    {
        let k: usize = at[i];
        proof {
            assert(k == ps[i as int]);
            assert(f.blocks[k as int] == func.blocks@[k as int]@);
        }
        let id = func.blocks[k].id;
        if !same_id(id, h) && !same_id(id, latch) {
            if block_stores(&func.blocks[k]) {
                proof {
                    assert(computes(f, h, latch, k as int));
                }
                match found {
                    Some(other) => {
                        proof {
                            assert(other != k);
                            assert forall|j: int| !#[trigger] alone_computes(f, h, latch, j) by {
                                assert(computes(f, h, latch, other as int));
                            }
                        }
                        return None;
                    },
                    None => {
                        found = Some(k);
                    },
                }
            }
        }
        i = i + 1;
    }
    proof {
        assert forall|j: int| 0 <= j < f.blocks.len() && #[trigger] computes(f, h, latch, j) implies found is Some && found->0
            == j by {
            assert(in_body(f, body, j));
            assert(ps.contains(j));
            let r = ps.index_of(j);
            assert(ps[r] == j);
        }
        if found is None {
            assert forall|j: int| !#[trigger] alone_computes(f, h, latch, j) by {
                if 0 <= j < f.blocks.len() {
                    assert(!computes(f, h, latch, j));
                }
            }
        }
    }
    found
}

fn body_cannot_repeat(func: &Function, at: &Vec<usize>, Ghost(body): Ghost<Set<BlockId>>) -> (r:
    bool)
    requires
        positions_are(at@, body_of(func@, body)),
    ensures
        r == exists|i: int|
            0 <= i < func@.blocks.len() && #[trigger] in_body(func@, body, i)
                && block_cannot_repeat(func@.blocks[i]),
{
    let ghost f = func@;
    let ghost ps = body_of(f, body);
    proof {
        lemma_body_upto(f, body, f.blocks.len());
    }
    let mut i: usize = 0;
    while i < at.len()
        invariant
            f == func@,
            ps == body_of(f, body),
            positions_are(at@, ps),
            i <= at@.len(),
            forall|r: int|
                0 <= r < ps.len() ==> 0 <= #[trigger] ps[r] < f.blocks.len() && in_body(
                    f,
                    body,
                    ps[r],
                ),
            forall|r: int| 0 <= r < i ==> !block_cannot_repeat(f.blocks[#[trigger] ps[r]]),
        decreases at@.len() - i,
    {
        let k: usize = at[i];
        proof {
            assert(k == ps[i as int]);
            assert(f.blocks[k as int] == func.blocks@[k as int]@);
        }
        if block_repeats_badly(&func.blocks[k]) {
            return true;
        }
        i = i + 1;
    }
    proof {
        assert forall|j: int| 0 <= j < f.blocks.len() && #[trigger] in_body(f, body, j) implies !block_cannot_repeat(
            f.blocks[j],
        ) by {
            let r = ps.index_of(j);
            assert(ps[r] == j);
        }
    }
    false
}

fn find_loop_exit(func: &Function, at: &Vec<usize>, body: &IdSet<BlockId>) -> (r: Option<usize>)
    requires
        positions_are(at@, body_of(func@, body@)),
    ensures
        match r {
            Some(k) => k < func@.blocks.len() && leaves(func@, body@, k as int) && forall|i: int|
                0 <= i < k ==> !#[trigger] leaves(func@, body@, i),
            None => forall|i: int|
                0 <= i < func@.blocks.len() ==> !#[trigger] leaves(func@, body@, i),
        },
{
    let ghost f = func@;
    let ghost ps = body_of(f, body@);
    proof {
        lemma_body_upto(f, body@, f.blocks.len());
    }
    let mut i: usize = 0;
    while i < at.len()
        invariant
            f == func@,
            ps == body_of(f, body@),
            positions_are(at@, ps),
            i <= at@.len(),
            forall|r: int|
                0 <= r < ps.len() ==> 0 <= #[trigger] ps[r] < f.blocks.len() && in_body(
                    f,
                    body@,
                    ps[r],
                ),
            forall|r: int, q: int| 0 <= r < q < ps.len() ==> #[trigger] ps[r] < #[trigger] ps[q],
            forall|j: int|
                0 <= j < f.blocks.len() && #[trigger] in_body(f, body@, j) ==> ps.contains(j),
            forall|r: int| 0 <= r < i ==> !leaves(f, body@, #[trigger] ps[r]),
        decreases at@.len() - i,
    {
        let k: usize = at[i];
        proof {
            assert(k == ps[i as int]);
            assert(f.blocks[k as int] == func.blocks@[k as int]@);
        }
        match &func.blocks[k].terminator {
            Some(Terminator::CondBranch { false_dest, .. }) => {
                if !body.contains(false_dest) {
                    proof {
                        assert forall|j: int| 0 <= j < k implies !#[trigger] leaves(f, body@, j) by {
                            if in_body(f, body@, j) {
                                let r = ps.index_of(j);
                                assert(ps[r] == j);
                                if r >= i {
                                    assert(ps[i as int] <= ps[r]);
                                }
                            }
                        }
                    }
                    return Some(k);
                }
            },
            _ => {},
        }
        i = i + 1;
    }
    proof {
        assert forall|j: int| 0 <= j < f.blocks.len() implies !#[trigger] leaves(f, body@, j) by {
            if in_body(f, body@, j) {
                let r = ps.index_of(j);
                assert(ps[r] == j);
            }
        }
    }
    None
}

proof fn lemma_independent_same(
    f: FuncView,
    layout: TargetLayout,
    a: spec_fn(ValueId) -> bool,
    b: spec_fn(ValueId) -> bool,
    c: spec_fn(ValueId) -> bool,
    d: spec_fn(ValueId) -> bool,
)
    requires
        forall|v: ValueId| #[trigger] a(v) == c(v),
        forall|v: ValueId| #[trigger] b(v) == d(v),
    ensures
        independent(f, layout, a, b) == independent(f, layout, c, d),
{
    assert(a =~= c);
    assert(b =~= d);
}


fn start_value(func: &Function, p: BlockId) -> (r: Option<ValueId>)
    requires
        has_block(func@.blocks, p),
    ensures
        r == (match the_block(func@.blocks, p).term {
            Some(TermView::Branch(_, args)) => if args.len() > 0 {
                Some(args[0])
            } else {
                None
            },
            _ => None,
        }),
{
    match &func.block(p).terminator {
        Some(Terminator::Branch(_, args)) => if args.len() > 0 {
            Some(args[0])
        } else {
            None
        },
        _ => None,
    }
}

/// The header of a loop is a block.
proof fn lemma_header(f: FuncView, lp: NaturalLoop)
    requires
        is_loop(f, lp),
    ensures
        has_block(f.blocks, lp.header),
        lp.body@ == loop_body(f, lp.header),
        loop_body(f, lp.header).contains(lp.header),
{
    let l = choose|l: BlockId| back_edge(f, l, lp.header);
    lemma_dominator_is_block(f, lp.header, l);
    assert(lp.body@ =~= loop_body(f, lp.header));
}

/// How the loop can be split, if it can.
fn split_of(
    func: &Function,
    lp: &NaturalLoop,
    preds: &IdMap<BlockId, Vec<BlockId>>,
    layout: TargetLayout,
) -> (r: Option<Split>)
    requires
        is_loop(func@, *lp),
        preds_are(func@, preds@),
    ensures
        match r {
            Some(s) => is_split(func@, layout, lp.header, s),
            None => forall|s: Split| !#[trigger] is_split(func@, layout, lp.header, s),
        },
{
    let ghost f = func@;
    let h = lp.header;
    let ghost latches = back_sources(f, f.blocks.len(), h);
    proof {
        lemma_header(f, *lp);
        lemma_block_pos(f.blocks, h);
    }
    let p = match find_preheader(func, lp, preds) {
        Some(p) => p,
        None => {
            return None;
        },
    };
    proof {
        lp.latches@.to_multiset_ensures();
        latches.to_multiset_ensures();
    }
    if lp.latches.len() != 1 {
        return None;
    }
    let latch = lp.latches[0];
    proof {
        assert(lp.latches@.to_multiset().count(latch) > 0) by {
            assert(lp.latches@.contains(lp.latches@[0]));
        }
        assert(latches.contains(latch));
        assert(latches[0] == latch);
    }
    if func.block(h).params.len() != 1 {
        return None;
    }
    let at = body_positions(func, &lp.body);
    let k: usize = match find_computation_block(func, &at, h, latch) {
        Some(k) => k,
        None => {
            return None;
        },
    };
    let block = &func.blocks[k];
    let id = block.id;
    proof {
        assert(f.blocks[k as int] == block@);
        assert(computes(f, h, latch, k as int));
        assert(has_block(f.blocks, id));
        assert forall|s: Split| #[trigger] is_split(f, layout, h, s) implies block_pos(
            f.blocks,
            s.block,
        ) == k && s.block == id by {
            let a = block_pos(f.blocks, s.block);
            lemma_block_pos(f.blocks, s.block);
            assert(computes(f, h, latches[0], a) == (a == a));
        }
    }
    if block.insts.len() < FISSION_MIN_BODY {
        return None;
    }
    let (first, second) = match store_pair(block) {
        Some(pair) => pair,
        None => {
            proof {
                assert forall|s: Split| !#[trigger] is_split(f, layout, h, s) by {
                    assert(!stores_are(block@, s.first as int, s.second as int));
                }
            }
            return None;
        },
    };
    proof {
        assert forall|s: Split| #[trigger] is_split(f, layout, h, s) implies s.first == first
            && s.second == second by {
            assert(stores_are(block@, s.first as int, s.second as int));
            assert(block@.insts[s.first as int].kind.op is Store);
            assert(block@.insts[s.second as int].kind.op is Store);
        }
    }
    if body_cannot_repeat(func, &at, Ghost(lp.body@)) {
        return None;
    }
    let local = loop_defined_values(func, &lp.body);
    proof {
        assert(block@.insts[first as int] == block.insts@[first as int]@);
        assert(block@.insts[second as int] == block.insts@[second as int]@);
    }
    let slice_a = backward_slice(func, block.insts[first].id, &local);
    let slice_b = backward_slice(func, block.insts[second].id, &local);
    proof {
        lemma_independent_same(
            f,
            layout,
            |v: ValueId| slice_a@.contains(v),
            |v: ValueId| slice_b@.contains(v),
            loop_slice(f, h, block@.insts[first as int].id),
            loop_slice(f, h, block@.insts[second as int].id),
        );
    }
    if !partitions_are_memory_independent(func, &slice_a, &slice_b, layout) {
        return None;
    }
    let exit_at: usize = match find_loop_exit(func, &at, &lp.body) {
        Some(e) => e,
        None => {
            proof {
                assert forall|s: Split| !#[trigger] is_split(f, layout, h, s) by {
                    if is_split(f, layout, h, s) {
                        assert(leaves(f, lp.body@, s.exit_at as int));
                    }
                }
            }
            return None;
        },
    };
    match start_value(func, p) {
        Some(init) => Some(Split { block: id, first, second, exit_at, init }),
        None => None,
    }
}

fn remove_store(func: &mut Function, id: BlockId, k: usize)
    requires
        has_block(old(func)@.blocks, id),
    ensures
        final(func)@ == without_inst(old(func)@, id, k as int),
{
    let ghost f = func@;
    let ghost at = block_pos(f.blocks, id);
    proof {
        lemma_block_pos(f.blocks, id);
        assert(f.blocks[at] == func.blocks@[at]@);
    }
    let block = func.block_mut(id);
    let ghost b = *block;
    if k < block.insts.len() {
        let gone = block.insts.remove(k);
        proof {
            assert(insts_view(block.insts@) =~= insts_view(b.insts@).remove(k as int));
        }
    }
    proof {
        assert(f.blocks.update(at, f.blocks[at]) =~= f.blocks);
    }
}

fn add_bridge(func: &mut Function, dest: BlockId, arg: ValueId) -> (r: BlockId)
    requires
        old(func).next_block < u32::MAX,
    ensures
        r == BlockId(old(func).next_block),
        final(func)@ == with_bridge(old(func)@, dest, arg),
{
    let ghost f = func@;
    let id = func.create_block("fission_bridge");
    proof {
        assert(func.blocks@.len() == func@.blocks.len());
    }
    let last: usize = func.blocks.len() - 1;
    let mut args: Vec<ValueId> = Vec::new();
    args.push(arg);
    let ghost before = func@;
    let ghost empty = func.blocks@[last as int];
    proof {
        assert(before.blocks[last as int] == empty@);
        assert(args@ =~= seq![arg]);
    }
    func.blocks[last].terminator = Some(Terminator::Branch(dest, args));
    proof {
        let added = func.blocks@[last as int]@;
        assert(func@.blocks =~= before.blocks.update(last as int, added));
        assert(added == with_bridge(f, dest, arg).blocks[last as int]);
        assert(func@.blocks =~= with_bridge(f, dest, arg).blocks);
    }
    id
}

fn reroute(func: &mut Function, i: usize, dest: BlockId)
    requires
        i < old(func)@.blocks.len(),
    ensures
        final(func)@ == rerouted_at(old(func)@, i as int, dest),
{
    let ghost f = func@;
    proof {
        assert(f.blocks[i as int] == func.blocks@[i as int]@);
    }
    match &mut func.blocks[i].terminator {
        Some(Terminator::CondBranch { false_dest, false_args, .. }) => {
            *false_dest = dest;
            *false_args = Vec::new();
            proof {
                assert(false_args@ =~= Seq::<ValueId>::empty());
            }
        },
        _ => {},
    }
    proof {
        assert(func@.blocks =~= rerouted_at(f, i as int, dest).blocks);
    }
}


/// Can a loop of the function be copied without running out of names?
pub open spec fn has_room(f: FuncView) -> bool {
    &&& f.next_block + f.blocks.len() < u32::MAX
    &&& f.next_value + defs(f).len() <= u32::MAX
}

/// Removing an instruction keeps the blocks.
pub proof fn lemma_without_inst(f: FuncView, id: BlockId, k: int, x: BlockId)
    requires
        has_block(f.blocks, id),
        0 <= k,
    ensures
        has_block(without_inst(f, id, k).blocks, x) == has_block(f.blocks, x),
        without_inst(f, id, k).blocks.len() == f.blocks.len(),
        without_inst(f, id, k).next_block == f.next_block,
{
    lemma_block_pos(f.blocks, id);
    let g = without_inst(f, id, k);
    assert(forall|i: int| 0 <= i < f.blocks.len() ==> (#[trigger] g.blocks[i]).id == f.blocks[i].id);
    if has_block(f.blocks, x) {
        lemma_block_pos(f.blocks, x);
        assert(g.blocks[block_pos(f.blocks, x)].id == x);
    }
    if has_block(g.blocks, x) {
        lemma_block_pos(g.blocks, x);
        assert(f.blocks[block_pos(g.blocks, x)].id == x);
    }
}

fn split_loop(func: &mut Function, lp: &NaturalLoop, s: Split, Ghost(layout): Ghost<TargetLayout>)
    requires
        is_loop(old(func)@, *lp),
        is_split(old(func)@, layout, lp.header, s),
        has_room(old(func)@),
    ensures
        final(func)@ == split_func(old(func)@, lp.header, s),
{
    let ghost f = func@;
    let h = lp.header;
    let ghost body = lp.body@;
    proof {
        lemma_header(f, *lp);
        lemma_body_upto(f, body, f.blocks.len());
        lemma_body_defs(f, body, f.blocks.len());
        lemma_block_pos(f.blocks, s.block);
        let latches = back_sources(f, f.blocks.len(), h);
        let a = block_pos(f.blocks, s.block);
        assert(computes(f, h, latches[0], a));
        assert(body.contains(s.block));
        let r = lemma_has_clone(f, body, s.block);
        let q = lemma_has_clone(f, body, h);
    }
    let (names, values) = clone_loop(func, &lp.body);
    let ghost copied = func@;
    let clone_body: BlockId = match names.get(&s.block) {
        Some(b) => *b,
        None => s.block,
    };
    let clone_header: BlockId = match names.get(&h) {
        Some(b) => *b,
        None => h,
    };
    proof {
        lemma_without_inst(copied, s.block, s.second as int, clone_body);
    }
    remove_store(func, s.block, s.second);
    proof {
        lemma_without_inst(func@, clone_body, s.first as int, clone_body);
    }
    remove_store(func, clone_body, s.first);
    let bridge = add_bridge(func, clone_header, s.init);
    reroute(func, s.exit_at, bridge);
}

fn fission_in_function(func: &mut Function, layout: TargetLayout) -> (changed: bool)
    requires
        has_room(old(func)@),
    ensures
        fissioned(old(func)@, layout, final(func)@),
        changed == splittable(old(func)@, layout),
{
    let ghost f = func@;
    let loops = find_natural_loops(func);
    let preds = predecessors(func);
    let mut i: usize = 0;
    while i < loops.len()
        invariant
            f == func@,
            f == old(func)@,
            has_room(f),
            i <= loops@.len(),
            preds_are(f, preds@),
            forall|k: int| 0 <= k < loops@.len() ==> is_loop(f, #[trigger] loops@[k]),
            forall|k: int, j: int|
                0 <= k < j < loops@.len() ==> (#[trigger] loops@[k]).header.0 < (
                #[trigger] loops@[j]).header.0,
            forall|l: BlockId, h: BlockId| #[trigger]
                back_edge(f, l, h) ==> exists|k: int|
                    0 <= k < loops@.len() && (#[trigger] loops@[k]).header == h,
            forall|k: int, s: Split|
                0 <= k < i ==> !#[trigger] is_split(f, layout, loops@[k].header, s),
        decreases loops@.len() - i,
    {
        match split_of(func, &loops[i], &preds, layout) {
            Some(s) => {
                proof {
                    let h = loops@[i as int].header;
                    assert(is_split(f, layout, h, s));
                    assert forall|k: BlockId, t: Split| #[trigger] is_split(f, layout, k, t) implies h.0
                        <= k.0 by {
                        let l = choose|l: BlockId| back_edge(f, l, k);
                        assert(back_edge(f, l, k));
                        let j = choose|j: int|
                            0 <= j < loops@.len() && (#[trigger] loops@[j]).header == k;
                        if j < i {
                            assert(!is_split(f, layout, loops@[j].header, t));
                        }
                    }
                }
                split_loop(func, &loops[i], s, Ghost(layout));
                return true;
            },
            None => {},
        }
        i = i + 1;
    }
    proof {
        assert forall|k: BlockId, t: Split| !#[trigger] is_split(f, layout, k, t) by {
            if is_split(f, layout, k, t) {
                let l = choose|l: BlockId| back_edge(f, l, k);
                assert(back_edge(f, l, k));
                let j = choose|j: int| 0 <= j < loops@.len() && (#[trigger] loops@[j]).header == k;
                assert(!is_split(f, layout, loops@[j].header, t));
            }
        }
    }
    false
}

/// Splits loops with two independent stores.
pub struct LoopFission;

impl Pass for LoopFission {
    open spec fn accepts(&self, m: ModuleView) -> bool {
        forall|i: int| 0 <= i < m.functions.len() ==> has_room(#[trigger] m.functions[i])
    }

    open spec fn outcome(&self, before: ModuleView, after: ModuleView, changed: bool) -> bool {
        &&& after == (ModuleView { functions: after.functions, ..before })
        &&& after.functions.len() == before.functions.len()
        &&& forall|i: int|
            0 <= i < before.functions.len() ==> fissioned(
                before.functions[i],
                before.layout,
                #[trigger] after.functions[i],
            )
        &&& changed == exists|i: int|
            0 <= i < before.functions.len() && splittable(
                #[trigger] before.functions[i],
                before.layout,
            )
    }

    fn name(&self) -> (r: &'static str)
        ensures
            r@ == "loop-fission"@,
    {
        "loop-fission"
    }

    fn run(&self, module: &mut Module) -> (changed: bool) {
        let ghost m = module@;
        let layout = module.layout;
        let mut changed: bool = false;
        let mut i: usize = 0;
        while i < module.functions.len()
            invariant
                i <= m.functions.len(),
                self.accepts(m),
                layout == m.layout,
                module.functions@.len() == m.functions.len(),
                module@ == (ModuleView { functions: module@.functions, ..m }),
                forall|k: int|
                    0 <= k < i ==> fissioned(
                        m.functions[k],
                        layout,
                        (#[trigger] module.functions@[k])@,
                    ),
                forall|k: int|
                    i <= k < m.functions.len() ==> (#[trigger] module.functions@[k])@
                        == m.functions[k],
                changed == exists|k: int|
                    0 <= k < i && splittable(#[trigger] m.functions[k], layout),
            decreases m.functions.len() - i,
        {
            proof {
                assert(module.functions@[i as int]@ == m.functions[i as int]);
            }
            if fission_in_function(&mut module.functions[i], layout) {
                changed = true;
            }
            i = i + 1;
        }
        proof {
            assert forall|k: int| 0 <= k < m.functions.len() implies fissioned(
                m.functions[k],
                m.layout,
                #[trigger] module@.functions[k],
            ) by {
                assert(module@.functions[k] == module.functions@[k]@);
            }
        }
        changed
    }
}


/// Is instruction `k` the only store of a block?
pub open spec fn only_store_at(b: BlockView, k: int) -> bool {
    &&& 0 <= k < b.insts.len()
    &&& forall|i: int|
        0 <= i < b.insts.len() ==> (#[trigger] b.insts[i]).kind.op is Store == (i == k)
}

/// Were the names of all blocks handed out by the function?
pub open spec fn block_names_used(f: FuncView) -> bool {
    forall|i: int| 0 <= i < f.blocks.len() ==> (#[trigger] f.blocks[i]).id.0 < f.next_block
}

/// Where the copy of the block named `id` stands.
pub open spec fn clone_at(f: FuncView, h: BlockId, id: BlockId) -> int {
    block_pos(with_clones(f, loop_body(f, h)).blocks, block_names(f, loop_body(f, h))[id])
}

/// Of the two stores, the loop keeps the first and its copy keeps the second.
pub proof fn each_half_keeps_one_store(f: FuncView, layout: TargetLayout, h: BlockId, s: Split)
    requires
        is_split(f, layout, h, s),
        has_room(f),
        block_names_used(f),
    ensures
        only_store_at(
            split_func(f, h, s).blocks[block_pos(f.blocks, s.block)],
            s.first as int,
        ),
        only_store_at(
            split_func(f, h, s).blocks[clone_at(f, h, s.block)],
            s.second - 1,
        ),
{
    let body = loop_body(f, h);
    let a = block_pos(f.blocks, s.block);
    lemma_block_pos(f.blocks, s.block);
    assert(computes(f, h, back_sources(f, f.blocks.len(), h)[0], a));
    let r = lemma_has_clone(f, body, s.block);
    lemma_body_upto(f, body, f.blocks.len());
    let c = with_clones(f, body);
    let name = block_names(f, body)[s.block];
    let n = f.blocks.len();
    let b = f.blocks[a];
    lemma_block_pos(c.blocks, s.block);
    lemma_block_pos(c.blocks, name);
    assert(c.blocks[a] == b);
    assert(block_pos(c.blocks, s.block) == a) by {
        let p = block_pos(c.blocks, s.block);
        if p < a {
            assert(c.blocks[p] == f.blocks[p]);
        }
    }
    assert(block_pos(c.blocks, name) == n + r) by {
        let p = block_pos(c.blocks, name);
        assert(c.blocks[n + r] == clones(f, body)[r]);
        if p < n {
            assert(c.blocks[p] == f.blocks[p]);
            assert(f.blocks[p].id.0 < f.next_block);
        } else {
            assert(c.blocks[p] == clones(f, body)[p - n]);
        }
    }
    let copy = c.blocks[n + r];
    assert(copy == clones(f, body)[r]);
    assert(copy.insts.len() == b.insts.len());
    assert forall|i: int| 0 <= i < b.insts.len() implies (#[trigger] copy.insts[i]).kind.op
        == b.insts[i].kind.op by {}
    let d = without_inst(c, s.block, s.second as int);
    assert(d.blocks[n + r] == copy);
    assert(forall|i: int| 0 <= i < c.blocks.len() ==> (#[trigger] d.blocks[i]).id == c.blocks[i].id);
    lemma_without_inst(c, s.block, s.second as int, name);
    lemma_block_pos(d.blocks, name);
    assert(block_pos(d.blocks, name) == n + r) by {
        let p = block_pos(d.blocks, name);
        assert(d.blocks[p].id == c.blocks[p].id);
        assert(d.blocks[n + r].id == name);
        if p < n + r {
            assert(c.blocks[p].id == name);
        }
    }
    let e = without_inst(d, name, s.first as int);
    let g = split_func(f, h, s);
    let x = b.insts.remove(s.second as int);
    let y = copy.insts.remove(s.first as int);
    assert(e.blocks[a].insts == x);
    assert(e.blocks[n + r].insts == y);
    assert(g.blocks[a].insts == x);
    assert(g.blocks[n + r].insts == y);
    assert forall|i: int| 0 <= i < x.len() implies (#[trigger] x[i]).kind.op is Store == (i == s.first) by {
        if i < s.second {
            assert(x[i] == b.insts[i]);
        } else {
            assert(x[i] == b.insts[i + 1]);
        }
    }
    assert forall|i: int| 0 <= i < y.len() implies (#[trigger] y[i]).kind.op is Store == (i == s.second
        - 1) by {
        if i < s.first {
            assert(y[i] == copy.insts[i]);
            assert(copy.insts[i].kind.op is Store == b.insts[i].kind.op is Store);
        } else {
            assert(y[i] == copy.insts[i + 1]);
            assert(copy.insts[i + 1].kind.op is Store == b.insts[i + 1].kind.op is Store);
        }
    }
}

} // verus!
