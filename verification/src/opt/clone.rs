//! Copying the blocks of a loop.

use crate::ids::{IdMap, IdSet};
use crate::ir::inst::{
    block_param_defs, block_pos, blocks_view, defs_upto, has_block, inst_defs, insts_view,
    lemma_block_pos, BasicBlock, BlockId, BlockParam, BlockView, Def, FuncView, Function, Inst,
    InstView, TermView, Terminator, ValueId,
};
use crate::ir::types::IrType;
use crate::ir::walk::{renamed, renamed_block, substitute_in_block};
use vstd::prelude::*;

verus! {

/// Is the block at `i` the one that its name stands for, and in the set?
pub open spec fn in_body(f: FuncView, body: Set<BlockId>, i: int) -> bool {
    body.contains(f.blocks[i].id) && block_pos(f.blocks, f.blocks[i].id) == i
}

/// Where the blocks of a set stand among the first `n`.
pub open spec fn body_upto(f: FuncView, body: Set<BlockId>, n: nat) -> Seq<int>
    decreases n,
{
    if n == 0 {
        Seq::empty()
    } else if in_body(f, body, n - 1) {
        body_upto(f, body, (n - 1) as nat).push(n - 1)
    } else {
        body_upto(f, body, (n - 1) as nat)
    }
}

/// Where the blocks of a set stand.
pub open spec fn body_of(f: FuncView, body: Set<BlockId>) -> Seq<int> {
    body_upto(f, body, f.blocks.len())
}

/// What a block defines, in order: its parameters, then its instructions.
pub open spec fn block_defs(b: BlockView) -> Seq<Def> {
    block_param_defs(b) + inst_defs(b)
}

/// What the first `n` of some blocks define, in order.
pub open spec fn defs_at(f: FuncView, at: Seq<int>, n: nat) -> Seq<Def>
    decreases n,
{
    if n == 0 {
        Seq::empty()
    } else {
        defs_at(f, at, (n - 1) as nat) + block_defs(f.blocks[at[n - 1]])
    }
}

/// The new name of each of the first `n` definitions; names start at `from`.
pub open spec fn fresh_values(list: Seq<Def>, from: int, n: nat) -> Map<ValueId, ValueId>
    decreases n,
{
    if n == 0 {
        Map::empty()
    } else {
        fresh_values(list, from, (n - 1) as nat).insert(
            list[n - 1].id,
            ValueId((from + n - 1) as u32),
        )
    }
}

/// The types of the first `n` new names, added to `types`.
pub open spec fn fresh_types(
    list: Seq<Def>,
    from: int,
    n: nat,
    types: Map<ValueId, IrType>,
) -> Map<ValueId, IrType>
    decreases n,
{
    if n == 0 {
        types
    } else {
        fresh_types(list, from, (n - 1) as nat, types).insert(
            ValueId((from + n - 1) as u32),
            list[n - 1].ty,
        )
    }
}

/// The new name of each of the first `n` of some blocks.
pub open spec fn fresh_blocks(f: FuncView, at: Seq<int>, n: nat) -> Map<BlockId, BlockId>
    decreases n,
{
    if n == 0 {
        Map::empty()
    } else {
        fresh_blocks(f, at, (n - 1) as nat).insert(
            f.blocks[at[n - 1]].id,
            BlockId((f.next_block + n - 1) as u32),
        )
    }
}

/// `b`, or what the map has in place of it.
pub open spec fn led(b: BlockId, m: Map<BlockId, BlockId>) -> BlockId {
    if m.contains_key(b) {
        m[b]
    } else {
        b
    }
}

/// A terminator with other targets.
pub open spec fn led_term(t: TermView, m: Map<BlockId, BlockId>) -> TermView {
    match t {
        TermView::Return(_) => t,
        TermView::Branch(d, args) => TermView::Branch(led(d, m), args),
        TermView::CondBranch { cond, true_dest, true_args, false_dest, false_args } => {
            TermView::CondBranch {
                cond,
                true_dest: led(true_dest, m),
                true_args,
                false_dest: led(false_dest, m),
                false_args,
            }
        },
        TermView::Switch { selector, cases, default } => TermView::Switch {
            selector,
            cases: Seq::new(cases.len(), |i: int| (cases[i].0, led(cases[i].1, m))),
            default: led(default, m),
        },
        TermView::Unreachable => t,
    }
}

/// A copy of a block under the name `to`, with new names for blocks and values.
pub open spec fn cloned_block(
    b: BlockView,
    to: BlockId,
    bm: Map<BlockId, BlockId>,
    vm: Map<ValueId, ValueId>,
) -> BlockView {
    let r = renamed_block(b, vm);
    BlockView {
        id: to,
        name: b.name + "_clone"@,
        params: Seq::new(
            b.params.len(),
            |i: int| BlockParam { id: renamed(b.params[i].id, vm), ty: b.params[i].ty },
        ),
        insts: Seq::new(
            b.insts.len(),
            |i: int| InstView { id: renamed(b.insts[i].id, vm), ..r.insts[i] },
        ),
        term: match r.term {
            Some(t) => Some(led_term(t, bm)),
            None => None,
        },
    }
}

/// The definitions in the blocks of a set.
pub open spec fn body_defs(f: FuncView, body: Set<BlockId>) -> Seq<Def> {
    defs_at(f, body_of(f, body), body_of(f, body).len())
}

/// The new names of the blocks of a set.
pub open spec fn block_names(f: FuncView, body: Set<BlockId>) -> Map<BlockId, BlockId> {
    fresh_blocks(f, body_of(f, body), body_of(f, body).len())
}

/// The new names of the values that the blocks of a set define.
pub open spec fn value_names(f: FuncView, body: Set<BlockId>) -> Map<ValueId, ValueId> {
    fresh_values(body_defs(f, body), f.next_value as int, body_defs(f, body).len())
}

/// The copies of the blocks of a set, in order.
pub open spec fn clones(f: FuncView, body: Set<BlockId>) -> Seq<BlockView> {
    Seq::new(
        body_of(f, body).len(),
        |r: int|
            cloned_block(
                f.blocks[body_of(f, body)[r]],
                BlockId((f.next_block + r) as u32),
                block_names(f, body),
                value_names(f, body),
            ),
    )
}

/// A function with copies of the blocks of a set behind its own.
pub open spec fn with_clones(f: FuncView, body: Set<BlockId>) -> FuncView {
    FuncView {
        blocks: f.blocks + clones(f, body),
        next_block: (f.next_block + body_of(f, body).len()) as u32,
        next_value: (f.next_value + body_defs(f, body).len()) as u32,
        type_cache: fresh_types(
            body_defs(f, body),
            f.next_value as int,
            body_defs(f, body).len(),
            f.type_cache,
        ),
        ..f
    }
}

/// The blocks of a set stand in order, each in the function.
pub proof fn lemma_body_upto(f: FuncView, body: Set<BlockId>, n: nat)
    requires
        n <= f.blocks.len(),
    ensures
        body_upto(f, body, n).len() <= n,
        forall|r: int|
            0 <= r < body_upto(f, body, n).len() ==> 0 <= #[trigger] body_upto(f, body, n)[r] < n
                && in_body(f, body, body_upto(f, body, n)[r]),
        forall|r: int, s: int|
            0 <= r < s < body_upto(f, body, n).len() ==> #[trigger] body_upto(f, body, n)[r]
                < #[trigger] body_upto(f, body, n)[s],
        forall|i: int|
            0 <= i < n && #[trigger] in_body(f, body, i) ==> body_upto(f, body, n).contains(i),
    decreases n,
{
    if n > 0 {
        lemma_body_upto(f, body, (n - 1) as nat);
        let before = body_upto(f, body, (n - 1) as nat);
        let s = body_upto(f, body, n);
        assert forall|i: int| 0 <= i < n && #[trigger] in_body(f, body, i) implies s.contains(i) by {
            if i < n - 1 {
                assert(before.contains(i));
                assert(s[before.index_of(i)] == i);
            } else {
                assert(s[before.len() as int] == i);
            }
        }
    }
}

/// The blocks of a set define no more than all blocks do.
pub proof fn lemma_body_defs(f: FuncView, body: Set<BlockId>, n: nat)
    requires
        n <= f.blocks.len(),
    ensures
        defs_at(f, body_upto(f, body, n), body_upto(f, body, n).len()).len() <= defs_upto(
            f.blocks,
            n,
        ).len(),
    decreases n,
{
    if n > 0 {
        lemma_body_defs(f, body, (n - 1) as nat);
        let before = body_upto(f, body, (n - 1) as nat);
        if in_body(f, body, n - 1) {
            lemma_defs_at_prefix(f, before, n - 1, before.len());
        }
    }
}

proof fn lemma_defs_at_prefix(f: FuncView, at: Seq<int>, x: int, n: nat)
    requires
        n <= at.len(),
    ensures
        defs_at(f, at.push(x), n) == defs_at(f, at, n),
    decreases n,
{
    if n > 0 {
        lemma_defs_at_prefix(f, at, x, (n - 1) as nat);
    }
}

/// Each block of a set has a new name of its own.
pub proof fn lemma_fresh_blocks(f: FuncView, body: Set<BlockId>, n: nat, r: int)
    requires
        0 <= r < n <= body_of(f, body).len(),
    ensures
        fresh_blocks(f, body_of(f, body), n).contains_key(f.blocks[body_of(f, body)[r]].id),
        fresh_blocks(f, body_of(f, body), n)[f.blocks[body_of(f, body)[r]].id] == BlockId(
            (f.next_block + r) as u32,
        ),
    decreases n,
{
    let ps = body_of(f, body);
    lemma_body_upto(f, body, f.blocks.len());
    if r < n - 1 {
        lemma_fresh_blocks(f, body, (n - 1) as nat, r);
        assert(in_body(f, body, ps[r]));
        assert(in_body(f, body, ps[n - 1]));
        assert(ps[r] < ps[n - 1]);
    }
}

/// A block of a set has a copy, under its new name.
pub proof fn lemma_has_clone(f: FuncView, body: Set<BlockId>, id: BlockId) -> (r: int)
    requires
        body.contains(id),
        has_block(f.blocks, id),
    ensures
        0 <= r < clones(f, body).len(),
        body_of(f, body)[r] == block_pos(f.blocks, id),
        block_names(f, body).contains_key(id),
        block_names(f, body)[id] == BlockId((f.next_block + r) as u32),
        clones(f, body)[r].id == block_names(f, body)[id],
        has_block(with_clones(f, body).blocks, block_names(f, body)[id]),
        has_block(with_clones(f, body).blocks, id),
{
    let ps = body_of(f, body);
    lemma_body_upto(f, body, f.blocks.len());
    lemma_block_pos(f.blocks, id);
    let at = block_pos(f.blocks, id);
    assert(in_body(f, body, at));
    let r = ps.index_of(at);
    assert(ps[r] == at);
    lemma_fresh_blocks(f, body, ps.len(), r);
    let g = with_clones(f, body);
    assert(g.blocks[f.blocks.len() + r] == clones(f, body)[r]);
    assert(g.blocks[f.blocks.len() + r].id == block_names(f, body)[id]);
    assert(g.blocks[at].id == id);
    r
}

/// Where the blocks of a set stand, as a list.
pub fn body_positions(func: &Function, body: &IdSet<BlockId>) -> (r: Vec<usize>)
    ensures
        positions_are(r@, body_of(func@, body@)),
{
    let ghost f = func@;
    let mut out: Vec<usize> = Vec::new();
    let mut i: usize = 0;
    while i < func.blocks.len()
        invariant
            f == func@,
            i <= func.blocks@.len(),
            positions_are(out@, body_upto(f, body@, i as nat)),
        decreases func.blocks@.len() - i,
    {
        let id = func.blocks[i].id;
        proof {
            assert(f.blocks[i as int] == func.blocks@[i as int]@);
            assert(f.blocks[i as int].id == id);
        }
        if body.contains(&id) {
            match func.block_index(id) {
                Some(k) => {
                    if k == i {
                        out.push(i);
                    }
                },
                None => {
                    proof {
                        assert(has_block(f.blocks, id));
                    }
                },
            }
        }
        i = i + 1;
    }
    out
}

/// Is one list that of the other, as machine integers?
pub open spec fn positions_are(s: Seq<usize>, t: Seq<int>) -> bool {
    s.len() == t.len() && forall|r: int| 0 <= r < s.len() ==> #[trigger] s[r] == t[r]
}

fn name_blocks(func: &Function, at: &Vec<usize>, Ghost(ps): Ghost<Seq<int>>) -> (r: IdMap<
    BlockId,
    BlockId,
>)
    requires
        positions_are(at@, ps),
        forall|r: int| 0 <= r < at@.len() ==> #[trigger] at@[r] < func.blocks@.len(),
        func.next_block + at@.len() <= u32::MAX,
    ensures
        r@ == fresh_blocks(func@, ps, ps.len()),
{
    let mut out: IdMap<BlockId, BlockId> = IdMap::new();
    let mut next: u32 = func.next_block;
    let mut i: usize = 0;
    while i < at.len()
        invariant
            i <= at@.len(),
            positions_are(at@, ps),
            forall|r: int| 0 <= r < at@.len() ==> #[trigger] at@[r] < func.blocks@.len(),
            func.next_block + at@.len() <= u32::MAX,
            next == func.next_block + i,
            out@ == fresh_blocks(func@, ps, i as nat),
        decreases at@.len() - i,
    {
        let k: usize = at[i];
        proof {
            assert(func@.blocks[k as int] == func.blocks@[k as int]@);
        }
        out.insert(func.blocks[k].id, BlockId(next));
        next = next + 1;
        i = i + 1;
    }
    out
}

/// Appends what a block defines.
fn push_block_defs(out: &mut Vec<Def>, block: &BasicBlock)
    ensures
        final(out)@ == old(out)@ + block_defs(block@),
{
    let ghost b = block@;
    let ghost start = out@;
    let mut i: usize = 0;
    proof {
        assert(out@ =~= start + block_param_defs(b).take(0));
    }
    while i < block.params.len()
        invariant
            i <= block.params@.len(),
            b == block@,
            out@ == start + block_param_defs(b).take(i as int),
        decreases block.params@.len() - i,
    {
        let ghost before = out@;
        out.push(Def { id: block.params[i].id, ty: block.params[i].ty.clone(), block: block.id });
        proof {
            assert(out@ =~= start + block_param_defs(b).take(i + 1));
        }
        i = i + 1;
    }
    proof {
        assert(out@ =~= start + block_param_defs(b) + inst_defs(b).take(0));
    }
    let mut k: usize = 0;
    while k < block.insts.len()
        invariant
            k <= block.insts@.len(),
            b == block@,
            out@ == start + block_param_defs(b) + inst_defs(b).take(k as int),
        decreases block.insts@.len() - k,
    {
        proof {
            assert(b.insts[k as int] == block.insts@[k as int]@);
        }
        out.push(Def { id: block.insts[k].id, ty: block.insts[k].ty.clone(), block: block.id });
        proof {
            assert(out@ =~= start + block_param_defs(b) + inst_defs(b).take(k + 1));
        }
        k = k + 1;
    }
    proof {
        assert(out@ =~= start + block_defs(b));
    }
}

fn list_defs(func: &Function, at: &Vec<usize>, Ghost(ps): Ghost<Seq<int>>) -> (r: Vec<Def>)
    requires
        positions_are(at@, ps),
        forall|r: int| 0 <= r < at@.len() ==> #[trigger] at@[r] < func.blocks@.len(),
    ensures
        r@ == defs_at(func@, ps, ps.len()),
{
    let mut out: Vec<Def> = Vec::new();
    let mut i: usize = 0;
    while i < at.len()
        invariant
            i <= at@.len(),
            positions_are(at@, ps),
            forall|r: int| 0 <= r < at@.len() ==> #[trigger] at@[r] < func.blocks@.len(),
            out@ == defs_at(func@, ps, i as nat),
        decreases at@.len() - i,
    {
        let k: usize = at[i];
        proof {
            assert(func@.blocks[k as int] == func.blocks@[k as int]@);
        }
        push_block_defs(&mut out, &func.blocks[k]);
        i = i + 1;
    }
    out
}

fn name_values(func: &mut Function, list: &Vec<Def>) -> (r: IdMap<ValueId, ValueId>)
    requires
        old(func).next_value + list@.len() <= u32::MAX,
    ensures
        r@ == fresh_values(list@, old(func).next_value as int, list@.len()),
        final(func)@ == (FuncView {
            next_value: (old(func).next_value + list@.len()) as u32,
            type_cache: fresh_types(
                list@,
                old(func).next_value as int,
                list@.len(),
                old(func)@.type_cache,
            ),
            ..old(func)@
        }),
{
    let ghost f = func@;
    let mut out: IdMap<ValueId, ValueId> = IdMap::new();
    let mut i: usize = 0;
    while i < list.len()
        invariant
            i <= list@.len(),
            f.next_value + list@.len() <= u32::MAX,
            out@ == fresh_values(list@, f.next_value as int, i as nat),
            func@ == (FuncView {
                next_value: (f.next_value + i) as u32,
                type_cache: fresh_types(list@, f.next_value as int, i as nat, f.type_cache),
                ..f
            }),
        decreases list@.len() - i,
    {
        let id = func.next_value_id();
        func.register_type(id, list[i].ty.clone());
        out.insert(list[i].id, id);
        i = i + 1;
    }
    out
}

fn lead(b: BlockId, m: &IdMap<BlockId, BlockId>) -> (r: BlockId)
    ensures
        r == led(b, m@),
{
    match m.get(&b) {
        Some(c) => *c,
        None => b,
    }
}

fn lead_cases(cases: &mut Vec<(i64, BlockId)>, m: &IdMap<BlockId, BlockId>)
    ensures
        final(cases)@ == Seq::new(
            old(cases)@.len(),
            |i: int| (old(cases)@[i].0, led(old(cases)@[i].1, m@)),
        ),
{
    let ghost s = cases@;
    let mut i: usize = 0;
    while i < cases.len()
        invariant
            i <= cases@.len(),
            cases@.len() == s.len(),
            forall|k: int| 0 <= k < i ==> #[trigger] cases@[k] == (s[k].0, led(s[k].1, m@)),
            forall|k: int| i <= k < s.len() ==> #[trigger] cases@[k] == s[k],
        decreases s.len() - i,
    {
        let (value, dest) = cases[i];
        cases.set(i, (value, lead(dest, m)));
        i = i + 1;
    }
    proof {
        assert(cases@ =~= Seq::new(s.len(), |i: int| (s[i].0, led(s[i].1, m@))));
    }
}

fn lead_term(term: &mut Terminator, m: &IdMap<BlockId, BlockId>)
    ensures
        final(term)@ == led_term(old(term)@, m@),
{
    match term {
        Terminator::Return(_) => {},
        Terminator::Branch(dest, _) => {
            *dest = lead(*dest, m);
        },
        Terminator::CondBranch { true_dest, false_dest, .. } => {
            *true_dest = lead(*true_dest, m);
            *false_dest = lead(*false_dest, m);
        },
        Terminator::Switch { cases, default, .. } => {
            lead_cases(cases, m);
            *default = lead(*default, m);
        },
        Terminator::Unreachable => {},
    }
}

fn new_name(v: ValueId, m: &IdMap<ValueId, ValueId>) -> (r: ValueId)
    ensures
        r == renamed(v, m@),
{
    match m.get(&v) {
        Some(w) => *w,
        None => v,
    }
}

fn copy_insts(list: &Vec<Inst>) -> (r: Vec<Inst>)
    ensures
        insts_view(r@) == insts_view(list@),
{
    let mut out: Vec<Inst> = Vec::new();
    let mut i: usize = 0;
    while i < list.len()
        invariant
            i <= list@.len(),
            out@.len() == i,
            forall|k: int| 0 <= k < i ==> (#[trigger] out@[k])@ == list@[k]@,
        decreases list@.len() - i,
    {
        out.push(list[i].clone());
        i = i + 1;
    }
    proof {
        assert(insts_view(out@) =~= insts_view(list@));
    }
    out
}

fn copy_params(list: &Vec<BlockParam>, m: &IdMap<ValueId, ValueId>) -> (r: Vec<BlockParam>)
    ensures
        r@ == Seq::new(
            list@.len(),
            |i: int| BlockParam { id: renamed(list@[i].id, m@), ty: list@[i].ty },
        ),
{
    let mut out: Vec<BlockParam> = Vec::new();
    let mut i: usize = 0;
    while i < list.len()
        invariant
            i <= list@.len(),
            out@.len() == i,
            forall|k: int|
                0 <= k < i ==> #[trigger] out@[k] == (BlockParam {
                    id: renamed(list@[k].id, m@),
                    ty: list@[k].ty,
                }),
        decreases list@.len() - i,
    {
        out.push(BlockParam { id: new_name(list[i].id, m), ty: list[i].ty.clone() });
        i = i + 1;
    }
    proof {
        assert(out@ =~= Seq::new(
            list@.len(),
            |i: int| BlockParam { id: renamed(list@[i].id, m@), ty: list@[i].ty },
        ));
    }
    out
}

fn name_insts(block: &mut BasicBlock, m: &IdMap<ValueId, ValueId>)
    ensures
        final(block)@ == (BlockView {
            insts: Seq::new(
                old(block)@.insts.len(),
                |i: int|
                    InstView { id: renamed(old(block)@.insts[i].id, m@), ..old(block)@.insts[i] },
            ),
            ..old(block)@
        }),
{
    let ghost b = block@;
    let mut i: usize = 0;
    while i < block.insts.len()
        invariant
            i <= b.insts.len(),
            block.insts@.len() == b.insts.len(),
            block@ == (BlockView { insts: block@.insts, ..b }),
            forall|k: int|
                0 <= k < i ==> (#[trigger] block.insts@[k])@ == (InstView {
                    id: renamed(b.insts[k].id, m@),
                    ..b.insts[k]
                }),
            forall|k: int| i <= k < b.insts.len() ==> (#[trigger] block.insts@[k])@ == b.insts[k],
        decreases b.insts.len() - i,
    {
        proof {
            assert(block.insts@[i as int]@ == b.insts[i as int]);
        }
        let id = new_name(block.insts[i].id, m);
        block.insts[i].id = id;
        i = i + 1;
    }
    proof {
        assert(block@.insts =~= Seq::new(
            b.insts.len(),
            |i: int| InstView { id: renamed(b.insts[i].id, m@), ..b.insts[i] },
        ));
    }
}

fn clone_block(
    block: &BasicBlock,
    to: BlockId,
    bm: &IdMap<BlockId, BlockId>,
    vm: &IdMap<ValueId, ValueId>,
) -> (r: BasicBlock)
    ensures
        r@ == cloned_block(block@, to, bm@, vm@),
{
    let ghost b = block@;
    let mut name: String = crate::text::text(block.name.as_str());
    name.append("_clone");
    let mut out = BasicBlock {
        id: to,
        name,
        params: copy_params(&block.params, vm),
        insts: copy_insts(&block.insts),
        terminator: match &block.terminator {
            Some(t) => Some(t.clone()),
            None => None,
        },
    };
    let ghost first = out@;
    proof {
        assert(first.insts == b.insts);
        assert(first.term == b.term);
    }
    substitute_in_block(&mut out, vm);
    let ghost second = out@;
    name_insts(&mut out, vm);
    match &mut out.terminator {
        Some(t) => {
            lead_term(t, bm);
        },
        None => {},
    }
    proof {
        let c = cloned_block(b, to, bm@, vm@);
        assert(out@.insts =~= c.insts);
        assert(out@.params =~= c.params);
        assert(out@.name =~= c.name);
        assert(out@.term == c.term);
    }
    out
}

/// Copies the blocks of a set, and tells the new names of blocks and of the
/// values that they define.
///
/// Branches among the blocks lead to the copies, and other branches where they
/// led before.
pub fn clone_loop(func: &mut Function, body: &IdSet<BlockId>) -> (r: (
    IdMap<BlockId, BlockId>,
    IdMap<ValueId, ValueId>,
))
    requires
        old(func).next_block + body_of(old(func)@, body@).len() <= u32::MAX,
        old(func).next_value + body_defs(old(func)@, body@).len() <= u32::MAX,
    ensures
        final(func)@ == with_clones(old(func)@, body@),
        (r.0)@ == block_names(old(func)@, body@),
        (r.1)@ == value_names(old(func)@, body@),
{
    let ghost f = func@;
    let ghost ps = body_of(f, body@);
    let at = body_positions(func, body);
    proof {
        lemma_body_upto(f, body@, f.blocks.len());
        assert forall|r: int| 0 <= r < at@.len() implies #[trigger] at@[r] < func.blocks@.len() by {
            assert(at@[r] == ps[r]);
        }
    }
    let bm = name_blocks(func, &at, Ghost(ps));
    let list = list_defs(func, &at, Ghost(ps));
    let vm = name_values(func, &list);
    let ghost g = func@;
    let mut i: usize = 0;
    while i < at.len()
        invariant
            i <= at@.len(),
            positions_are(at@, ps),
            ps == body_of(f, body@),
            bm@ == block_names(f, body@),
            vm@ == value_names(f, body@),
            f.next_block + ps.len() <= u32::MAX,
            g.blocks == f.blocks,
            g.next_block == f.next_block,
            forall|r: int| 0 <= r < at@.len() ==> #[trigger] at@[r] < f.blocks.len(),
            func@ == (FuncView {
                blocks: f.blocks + clones(f, body@).take(i as int),
                next_block: (f.next_block + i) as u32,
                ..g
            }),
        decreases at@.len() - i,
    {
        let k: usize = at[i];
        let to = BlockId(func.next_block);
        let ghost before = func.blocks@;
        proof {
            assert(func.blocks@.len() == func@.blocks.len());
            assert(func@.blocks[k as int] == func.blocks@[k as int]@);
            assert(func@.blocks[k as int] == f.blocks[k as int]);
        }
        let copy = clone_block(&func.blocks[k], to, &bm, &vm);
        func.next_block = func.next_block + 1;
        func.blocks.push(copy);
        proof {
            assert(copy@ == clones(f, body@)[i as int]);
            assert(blocks_view(func.blocks@) =~= blocks_view(before).push(copy@));
            assert(func@.blocks =~= f.blocks + clones(f, body@).take(i + 1));
        }
        i = i + 1;
    }
    proof {
        assert(clones(f, body@).take(ps.len() as int) =~= clones(f, body@));
    }
    (bm, vm)
}

} // verus!
