//! The control-flow graph: reachability, predecessors and dominators.

use crate::ids::{copy_list, IdMap, IdSet};
use crate::ir::inst::{
    block_pos, has_block, lemma_block_pos, the_block, BasicBlock, BlockId, BlockView, FuncView,
    Function,
};
use crate::ir::walk::{term_targets, terminator_targets};
use crate::lists::{lemma_masked_filter, lemma_masked_len, lemma_masked_map, masked, retain_mask};
use vstd::prelude::*;

verus! {

/// The targets of a block's terminator.
pub open spec fn targets_of(b: BlockView) -> Seq<BlockId> {
    match b.term {
        Some(t) => term_targets(t),
        None => Seq::empty(),
    }
}

/// Where control may go next from the block named `id`.
pub open spec fn succs(blocks: Seq<BlockView>, id: BlockId) -> Seq<BlockId> {
    if has_block(blocks, id) {
        targets_of(the_block(blocks, id))
    } else {
        Seq::empty()
    }
}

/// Does each block of `p` continue in the next one?
pub open spec fn is_path(blocks: Seq<BlockView>, p: Seq<BlockId>) -> bool {
    &&& p.len() > 0
    &&& forall|i: int| 0 <= i < p.len() - 1 ==> succs(blocks, #[trigger] p[i]).contains(p[i + 1])
}

/// Is there a path from the entry to `b`?
pub open spec fn reachable(f: FuncView, b: BlockId) -> bool {
    exists|p: Seq<BlockId>| #[trigger] is_path(f.blocks, p) && p[0] == f.entry && p.last() == b
}

/// Does some block named `a` branch to `b`?
pub open spec fn edge(blocks: Seq<BlockView>, a: BlockId, b: BlockId) -> bool {
    exists|i: int|
        0 <= i < blocks.len() && (#[trigger] blocks[i]).id == a && targets_of(blocks[i]).contains(b)
}

/// The entry is reachable.
pub proof fn lemma_entry_reachable(f: FuncView)
    ensures
        reachable(f, f.entry),
{
    let p = seq![f.entry];
    assert(is_path(f.blocks, p));
    assert(p.last() == f.entry);
}

/// What a reachable block branches to is reachable.
pub proof fn lemma_reachable_step(f: FuncView, a: BlockId, b: BlockId)
    requires
        reachable(f, a),
        succs(f.blocks, a).contains(b),
    ensures
        reachable(f, b),
{
    let p = choose|p: Seq<BlockId>| #[trigger]
        is_path(f.blocks, p) && p[0] == f.entry && p.last() == a;
    let q = p.push(b);
    assert forall|i: int| 0 <= i < q.len() - 1 implies succs(f.blocks, #[trigger] q[i]).contains(
        q[i + 1],
    ) by {
        if i < p.len() - 1 {
            assert(q[i] == p[i] && q[i + 1] == p[i + 1]);
        } else {
            assert(q[i] == a && q[i + 1] == b);
        }
    }
    assert(is_path(f.blocks, q));
    assert(q.last() == b);
}

/// A reachable block other than the entry is branched to by a reachable block.
pub proof fn lemma_reachable_from(f: FuncView, b: BlockId) -> (a: BlockId)
    requires
        reachable(f, b),
        b != f.entry,
    ensures
        reachable(f, a),
        succs(f.blocks, a).contains(b),
{
    let p = choose|p: Seq<BlockId>| #[trigger]
        is_path(f.blocks, p) && p[0] == f.entry && p.last() == b;
    assert(p.len() > 1);
    let q = p.drop_last();
    assert(is_path(f.blocks, q)) by {
        assert forall|i: int| 0 <= i < q.len() - 1 implies succs(
            f.blocks,
            #[trigger] q[i],
        ).contains(q[i + 1]) by {
            assert(q[i] == p[i] && q[i + 1] == p[i + 1]);
        }
    }
    assert(q[0] == f.entry);
    let a = q.last();
    assert(p[p.len() - 2] == a);
    a
}

/// A set that holds the entry and all successors of its members holds every
/// reachable block.
pub proof fn lemma_closed_covers(f: FuncView, s: Set<BlockId>, b: BlockId)
    requires
        s.contains(f.entry),
        forall|x: BlockId, y: BlockId|
            s.contains(x) && #[trigger] succs(f.blocks, x).contains(y) ==> s.contains(y),
        reachable(f, b),
    ensures
        s.contains(b),
{
    let p = choose|p: Seq<BlockId>| #[trigger]
        is_path(f.blocks, p) && p[0] == f.entry && p.last() == b;
    lemma_closed_along(f, s, p, p.len() - 1);
}

proof fn lemma_closed_along(f: FuncView, s: Set<BlockId>, p: Seq<BlockId>, i: int)
    requires
        s.contains(f.entry),
        forall|x: BlockId, y: BlockId|
            s.contains(x) && #[trigger] succs(f.blocks, x).contains(y) ==> s.contains(y),
        is_path(f.blocks, p),
        p[0] == f.entry,
        0 <= i < p.len(),
    ensures
        s.contains(p[i]),
    decreases i,
{
    if i > 0 {
        lemma_closed_along(f, s, p, i - 1);
        assert(succs(f.blocks, p[i - 1]).contains(p[i - 1 + 1]));
    }
}

/// A successor comes by an edge.
pub proof fn lemma_succ_edge(blocks: Seq<BlockView>, a: BlockId, b: BlockId)
    requires
        succs(blocks, a).contains(b),
    ensures
        edge(blocks, a, b),
{
    lemma_block_pos(blocks, a);
    let i = block_pos(blocks, a);
    assert(blocks[i].id == a && targets_of(blocks[i]).contains(b));
}

/// The targets of the first `n` blocks.
spec fn all_targets(blocks: Seq<BlockView>, n: nat) -> Seq<BlockId>
    decreases n,
{
    if n == 0 {
        Seq::empty()
    } else {
        all_targets(blocks, (n - 1) as nat) + targets_of(blocks[n - 1])
    }
}

proof fn lemma_all_targets(blocks: Seq<BlockView>, n: nat, i: int, b: BlockId)
    requires
        0 <= i < n <= blocks.len(),
        targets_of(blocks[i]).contains(b),
    ensures
        all_targets(blocks, n).contains(b),
    decreases n,
{
    let before = all_targets(blocks, (n - 1) as nat);
    let here = targets_of(blocks[n - 1]);
    if i == n - 1 {
        let k = here.index_of(b);
        assert((before + here)[before.len() + k] == b);
    } else {
        lemma_all_targets(blocks, (n - 1) as nat, i, b);
        let k = before.index_of(b);
        assert((before + here)[k] == b);
    }
}

/// Every block that some walk from the entry can come to.
spec fn universe(f: FuncView) -> Seq<BlockId> {
    seq![f.entry] + all_targets(f.blocks, f.blocks.len())
}

proof fn lemma_universe(f: FuncView, b: BlockId)
    requires
        reachable(f, b),
    ensures
        universe(f).contains(b),
{
    if b == f.entry {
        assert(universe(f)[0] == b);
    } else {
        let a = lemma_reachable_from(f, b);
        lemma_block_pos(f.blocks, a);
        let i = block_pos(f.blocks, a);
        lemma_all_targets(f.blocks, f.blocks.len(), i, b);
        let all = all_targets(f.blocks, f.blocks.len());
        let k = all.index_of(b);
        assert(universe(f)[k + 1] == b);
    }
}

proof fn lemma_within_universe(f: FuncView, s: Seq<BlockId>)
    requires
        s.no_duplicates(),
        forall|i: int| 0 <= i < s.len() ==> reachable(f, #[trigger] s[i]),
    ensures
        s.len() <= universe(f).len(),
{
    let u = universe(f);
    assert forall|x: BlockId| s.to_set().contains(x) implies u.to_set().contains(x) by {
        let i = s.index_of(x);
        lemma_universe(f, s[i]);
    }
    s.unique_seq_to_set();
    u.lemma_cardinality_of_set();
    vstd::seq_lib::seq_to_set_is_finite(u);
    vstd::set_lib::lemma_len_subset(s.to_set(), u.to_set());
}

impl BasicBlock {
    /// The targets of the terminator.
    pub fn targets(&self) -> (r: Vec<BlockId>)
        ensures
            r@ == targets_of(self@),
    {
        match &self.terminator {
            Some(t) => terminator_targets(t),
            None => {
                let none: Vec<BlockId> = Vec::new();
                assert(none@ =~= targets_of(self@));
                none
            },
        }
    }
}

/// Where control may go next from the block named `id`.
pub fn successors(func: &Function, id: BlockId) -> (r: Vec<BlockId>)
    ensures
        r@ == succs(func@.blocks, id),
{
    match func.try_block(id) {
        Some(b) => b.targets(),
        None => {
            let none: Vec<BlockId> = Vec::new();
            assert(none@ =~= succs(func@.blocks, id));
            none
        },
    }
}

/// The blocks reachable from the entry, in breadth-first order.
pub fn reachable_blocks(func: &Function) -> (r: IdSet<BlockId>)
    ensures
        forall|b: BlockId| #[trigger] r@.contains(b) == reachable(func@, b),
{
    let ghost f = func@;
    let mut reach: IdSet<BlockId> = IdSet::new();
    let added: bool = reach.insert(func.entry);
    let mut i: usize = 0;
    proof {
        lemma_entry_reachable(f);
        reach.order_facts();
    }
    while i < reach.len()
        invariant
            f == func@,
            i <= reach.order().len(),
            reach@.contains(f.entry),
            reach.order().to_set() == reach@,
            reach.order().no_duplicates(),
            forall|k: int|
                0 <= k < reach.order().len() ==> reachable(f, #[trigger] reach.order()[k]),
            forall|k: int, y: BlockId|
                0 <= k < i && #[trigger] succs(f.blocks, reach.order()[k]).contains(y)
                    ==> reach@.contains(y),
        decreases universe(f).len() - i,
    {
        let b: BlockId = reach.items()[i];
        let next = successors(func, b);
        let ghost order0 = reach.order();
        let mut j: usize = 0;
        while j < next.len()
            invariant
                f == func@,
                j <= next.len(),
                next@ == succs(f.blocks, b),
                reachable(f, b),
                reach.order().len() >= order0.len(),
                reach.order().take(order0.len() as int) == order0,
                reach@.contains(f.entry),
                reach.order().to_set() == reach@,
                reach.order().no_duplicates(),
                forall|k: int|
                    0 <= k < reach.order().len() ==> reachable(f, #[trigger] reach.order()[k]),
                forall|k: int, y: BlockId|
                    0 <= k < i && #[trigger] succs(f.blocks, order0[k]).contains(y)
                        ==> reach@.contains(y),
                forall|k: int| 0 <= k < j ==> reach@.contains(#[trigger] next@[k]),
            decreases next.len() - j,
        {
            let t = next[j];
            proof {
                assert(succs(f.blocks, b).contains(next@[j as int]));
                lemma_reachable_step(f, b, t);
            }
            let ghost before = reach.order();
            let fresh: bool = reach.insert(t);
            let listed = reach.items();
            proof {
                reach.order_facts();
                if fresh {
                    assert(reach.order().take(order0.len() as int) =~= before.take(
                        order0.len() as int,
                    ));
                }
            }
            j = j + 1;
        }
        proof {
            assert forall|k: int, y: BlockId|
                0 <= k < i + 1 && #[trigger] succs(f.blocks, reach.order()[k]).contains(
                    y,
                ) implies reach@.contains(y) by {
                assert(reach.order().take(order0.len() as int)[k] == reach.order()[k]);
                if k == i {
                    let n = next@.index_of(y);
                    assert(next@[n] == y);
                }
            }
            lemma_within_universe(f, reach.order());
        }
        i = i + 1;
    }
    proof {
        let n = reach.order();
        assert forall|b: BlockId| #[trigger] reach@.contains(b) == reachable(f, b) by {
            if reach@.contains(b) {
                assert(n.to_set().contains(b));
                assert(reachable(f, n[n.index_of(b)]));
            }
            if reachable(f, b) {
                assert forall|x: BlockId, y: BlockId|
                    reach@.contains(x) && #[trigger] succs(f.blocks, x).contains(
                        y,
                    ) implies reach@.contains(y) by {
                    assert(n.to_set().contains(x));
                    let k = n.index_of(x);
                    assert(succs(f.blocks, n[k]).contains(y));
                }
                lemma_closed_covers(f, reach@, b);
            }
        }
    }
    reach
}

/// `id`, once for each occurrence of `b` in `targets`.
pub open spec fn hits(targets: Seq<BlockId>, b: BlockId, id: BlockId) -> Seq<BlockId>
    decreases targets.len(),
{
    if targets.len() == 0 {
        Seq::empty()
    } else if targets.last() == b {
        hits(targets.drop_last(), b, id).push(id)
    } else {
        hits(targets.drop_last(), b, id)
    }
}

/// The blocks among the first `n` that branch to `b`, once for each branch.
pub open spec fn pred_list(blocks: Seq<BlockView>, n: nat, b: BlockId) -> Seq<BlockId>
    decreases n,
{
    if n == 0 {
        Seq::empty()
    } else {
        pred_list(blocks, (n - 1) as nat, b) + hits(
            targets_of(blocks[n - 1]),
            b,
            blocks[n - 1].id,
        )
    }
}

/// The blocks that branch to `b`, in block order, once for each branch.
pub open spec fn preds_of(blocks: Seq<BlockView>, b: BlockId) -> Seq<BlockId> {
    pred_list(blocks, blocks.len(), b)
}

/// What is hit is the block itself, once for each time that it goes to `b`.
pub proof fn lemma_hits(targets: Seq<BlockId>, b: BlockId, id: BlockId, x: BlockId)
    ensures
        hits(targets, b, id).contains(x) == (x == id && targets.contains(b)),
    decreases targets.len(),
{
    if targets.len() > 0 {
        let rest = targets.drop_last();
        lemma_hits(rest, b, id, x);
        if targets.contains(b) && targets.last() != b {
            let k = targets.index_of(b);
            assert(rest[k] == b);
        }
        if rest.contains(b) {
            let k = rest.index_of(b);
            assert(targets[k] == b);
        }
        let h = hits(rest, b, id);
        if targets.last() == b {
            assert(targets[targets.len() - 1] == b);
            assert(h.push(id)[h.len() as int] == id);
            if h.contains(x) {
                assert(h.push(id)[h.index_of(x)] == x);
            }
            if h.push(id).contains(x) {
                let k = h.push(id).index_of(x);
                if k < h.len() {
                    assert(h[k] == x);
                }
            }
        }
    }
}

proof fn lemma_pred_list(blocks: Seq<BlockView>, n: nat, b: BlockId, x: BlockId)
    requires
        n <= blocks.len(),
    ensures
        pred_list(blocks, n, b).contains(x) == (exists|i: int|
            0 <= i < n && (#[trigger] blocks[i]).id == x && targets_of(blocks[i]).contains(b)),
    decreases n,
{
    if n > 0 {
        let m = (n - 1) as nat;
        lemma_pred_list(blocks, m, b, x);
        lemma_hits(targets_of(blocks[m as int]), b, blocks[m as int].id, x);
        let s = pred_list(blocks, m, b);
        let t = hits(targets_of(blocks[m as int]), b, blocks[m as int].id);
        if s.contains(x) {
            assert((s + t)[s.index_of(x)] == x);
        }
        if t.contains(x) {
            assert((s + t)[s.len() + t.index_of(x)] == x);
            assert(blocks[m as int].id == x);
        }
        if (s + t).contains(x) {
            let k = (s + t).index_of(x);
            if k < s.len() {
                assert(s[k] == x);
            } else {
                assert(t[k - s.len()] == x);
            }
        }
    }
}

/// The predecessors of a block are the sources of the edges into it.
pub proof fn lemma_preds_are_edges(blocks: Seq<BlockView>, b: BlockId, x: BlockId)
    ensures
        preds_of(blocks, b).contains(x) == edge(blocks, x, b),
{
    lemma_pred_list(blocks, blocks.len(), b, x);
}

/// Does the predecessor map have an entry for `b`?
pub open spec fn mentioned(blocks: Seq<BlockView>, b: BlockId) -> bool {
    has_block(blocks, b) || exists|a: BlockId| edge(blocks, a, b)
}

/// For each block, and each target of a branch, the blocks that branch to it.
pub fn predecessors(func: &Function) -> (r: IdMap<BlockId, Vec<BlockId>>)
    ensures
        forall|b: BlockId| #[trigger] r@.contains_key(b) == mentioned(func@.blocks, b),
        forall|b: BlockId|
            r@.contains_key(b) ==> (#[trigger] r@[b])@ == preds_of(func@.blocks, b),
{
    let ghost blocks = func@.blocks;
    let mut preds: IdMap<BlockId, Vec<BlockId>> = IdMap::new();
    let mut i: usize = 0;
    while i < func.blocks.len()
        invariant
            blocks == func@.blocks,
            i <= func.blocks.len(),
            forall|b: BlockId| #[trigger] preds@.contains_key(b) == has_block(
                blocks.take(i as int),
                b,
            ),
            forall|b: BlockId| preds@.contains_key(b) ==> (#[trigger] preds@[b])@.len() == 0,
        decreases func.blocks.len() - i,
    {
        let id = func.blocks[i].id;
        preds.insert(id, Vec::new());
        proof {
            let s = blocks.take(i as int);
            let t = blocks.take(i + 1);
            assert forall|b: BlockId| #[trigger] preds@.contains_key(b) == has_block(t, b) by {
                assert(t[i as int].id == id);
                if has_block(s, b) {
                    let k = choose|k: int| 0 <= k < s.len() && (#[trigger] s[k]).id == b;
                    assert(t[k].id == b);
                }
                if has_block(t, b) {
                    let k = choose|k: int| 0 <= k < t.len() && (#[trigger] t[k]).id == b;
                    if k < i {
                        assert(s[k].id == b);
                    }
                }
            }
        }
        i = i + 1;
    }
    proof {
        assert(blocks.take(blocks.len() as int) =~= blocks);
    }
    let mut n: usize = 0;
    while n < func.blocks.len()
        invariant
            blocks == func@.blocks,
            n <= func.blocks.len(),
            forall|b: BlockId| #[trigger] preds@.contains_key(b) == (has_block(blocks, b)
                || pred_list(blocks, n as nat, b).len() > 0),
            forall|b: BlockId|
                preds@.contains_key(b) ==> (#[trigger] preds@[b])@ == pred_list(
                    blocks,
                    n as nat,
                    b,
                ),
        decreases func.blocks.len() - n,
    {
        let id = func.blocks[n].id;
        let targets = func.blocks[n].targets();
        let ghost before = preds@;
        let mut j: usize = 0;
        proof {
            assert forall|b: BlockId| #[trigger]
                pred_list(blocks, n as nat, b) + hits(targets@.take(0), b, id) == pred_list(
                blocks,
                n as nat,
                b,
            ) by {
                assert(targets@.take(0).len() == 0);
                assert(pred_list(blocks, n as nat, b) + hits(targets@.take(0), b, id)
                    =~= pred_list(blocks, n as nat, b));
            }
        }
        while j < targets.len()
            invariant
                blocks == func@.blocks,
                n < func.blocks.len(),
                j <= targets.len(),
                forall|b: BlockId| #[trigger] preds@.contains_key(b) == (has_block(blocks, b) || (
                pred_list(blocks, n as nat, b) + hits(targets@.take(j as int), b, id)).len() > 0),
                forall|b: BlockId|
                    preds@.contains_key(b) ==> (#[trigger] preds@[b])@ == pred_list(
                        blocks,
                        n as nat,
                        b,
                    ) + hits(targets@.take(j as int), b, id),
            decreases targets.len() - j,
        {
            let t = targets[j];
            let mut list: Vec<BlockId> = match preds.get(&t) {
                Some(known) => copy_list(known),
                None => Vec::new(),
            };
            proof {
                if !preds@.contains_key(t) {
                    assert(list@ =~= pred_list(blocks, n as nat, t) + hits(
                        targets@.take(j as int),
                        t,
                        id,
                    ));
                }
            }
            list.push(id);
            let ghost pushed = list@;
            preds.insert(t, list);
            proof {
                assert(targets@.take(j + 1).drop_last() =~= targets@.take(j as int));
                assert(targets@.take(j + 1).last() == t);
                assert(pushed =~= pred_list(blocks, n as nat, t) + hits(
                    targets@.take(j + 1),
                    t,
                    id,
                ));
            }
            j = j + 1;
        }
        proof {
            assert(targets@.take(targets@.len() as int) =~= targets@);
            assert(targets@ == targets_of(blocks[n as int]));
            assert forall|b: BlockId| #[trigger]
                pred_list(blocks, n as nat, b) + hits(targets@, b, id) == pred_list(
                blocks,
                (n + 1) as nat,
                b,
            ) by {}
        }
        n = n + 1;
    }
    proof {
        assert forall|b: BlockId| #[trigger] preds@.contains_key(b) == mentioned(blocks, b) by {
            let s = preds_of(blocks, b);
            if s.len() > 0 {
                lemma_preds_are_edges(blocks, b, s[0]);
                assert(s.contains(s[0]));
            }
            if exists|a: BlockId| edge(blocks, a, b) {
                let a = choose|a: BlockId| edge(blocks, a, b);
                lemma_preds_are_edges(blocks, b, a);
            }
        }
    }
    preds
}

/// Can the block be reached from the entry of `f`?
pub open spec fn block_reachable(f: FuncView) -> spec_fn(BlockView) -> bool {
    |b: BlockView| reachable(f, b.id)
}

/// The function without the blocks that cannot be reached.
pub open spec fn pruned(f: FuncView) -> FuncView {
    FuncView { blocks: f.blocks.filter(block_reachable(f)), ..f }
}

/// Drops the blocks that cannot be reached from the entry; says whether any
/// were dropped.
pub fn prune_unreachable(func: &mut Function) -> (r: bool)
    ensures
        final(func)@ == pruned(old(func)@),
        r == (exists|i: int|
            0 <= i < old(func)@.blocks.len() && !reachable(
                old(func)@,
                (#[trigger] old(func)@.blocks[i]).id,
            )),
{
    let ghost f = func@;
    let reach = reachable_blocks(func);
    let mut keep: Vec<bool> = Vec::new();
    let mut i: usize = 0;
    while i < func.blocks.len()
        invariant
            f == func@,
            *func == *old(func),
            i <= func.blocks.len(),
            keep.len() == i,
            forall|b: BlockId| #[trigger] reach@.contains(b) == reachable(f, b),
            forall|k: int| 0 <= k < i ==> #[trigger] keep@[k] == reachable(f, f.blocks[k].id),
        decreases func.blocks.len() - i,
    {
        keep.push(reach.contains(&func.blocks[i].id));
        i = i + 1;
    }
    let before: usize = func.blocks.len();
    retain_mask(&mut func.blocks, &keep);
    proof {
        lemma_masked_map(old(func).blocks@, f.blocks, keep@, |b: BasicBlock| b@);
        assert(func@.blocks =~= masked(f.blocks, keep@));
        lemma_masked_filter(f.blocks, keep@, block_reachable(f));
        lemma_masked_len(f.blocks, keep@);
        if func.blocks.len() != before {
            let k = choose|k: int| 0 <= k < f.blocks.len() && !#[trigger] keep@[k];
            assert(!reachable(f, f.blocks[k].id));
        }
    }
    func.blocks.len() != before
}

/// Looking for a block among those that pass a test on names.
pub proof fn lemma_first_in_filter(s: Seq<BlockView>, cond: spec_fn(BlockView) -> bool, id: BlockId)
    requires
        forall|a: BlockView, b: BlockView| a.id == b.id ==> #[trigger] cond(a) == #[trigger] cond(b),
    ensures
        has_block(s.filter(cond), id) == (has_block(s, id) && cond(the_block(s, id))),
        has_block(s.filter(cond), id) ==> the_block(s.filter(cond), id) == the_block(s, id),
    decreases s.len(),
{
    reveal(Seq::filter);
    if s.len() == 0 {
        assert(s.filter(cond) =~= s);
    } else {
        let t = s.drop_last();
        let x = s.last();
        lemma_first_in_filter(t, cond, id);
        lemma_has_block_push(t, x, id);
        assert(t.push(x) =~= s);
        let ft = t.filter(cond);
        if cond(x) {
            lemma_has_block_push(ft, x, id);
            assert(s.filter(cond) == ft.push(x));
        } else {
            assert(s.filter(cond) == ft);
        }
        if has_block(t, id) {
            lemma_block_pos(t, id);
        }
    }
}

/// Looking for a block among those that end in one more.
pub proof fn lemma_has_block_push(s: Seq<BlockView>, x: BlockView, id: BlockId)
    ensures
        has_block(s.push(x), id) == (has_block(s, id) || x.id == id),
        has_block(s, id) ==> the_block(s.push(x), id) == the_block(s, id),
        !has_block(s, id) && x.id == id ==> the_block(s.push(x), id) == x,
{
    let t = s.push(x);
    assert(t[s.len() as int] == x);
    if has_block(s, id) {
        lemma_block_pos(s, id);
        let i = block_pos(s, id);
        assert(t[i] == s[i]);
        assert(t[i].id == id);
        lemma_block_pos(t, id);
        let j = block_pos(t, id);
        assert(i == j) by {
            if i < j {
                assert(t[i].id != id);
            } else if j < i {
                assert(s[j] == t[j]);
                assert(s[j].id != id);
            }
        }
    } else if x.id == id {
        assert(t[s.len() as int].id == id);
        lemma_block_pos(t, id);
        let j = block_pos(t, id);
        if j < s.len() {
            assert(s[j].id == id);
        }
    }
    if has_block(t, id) {
        let k = choose|k: int| 0 <= k < t.len() && (#[trigger] t[k]).id == id;
        if k < s.len() {
            assert(s[k].id == id);
        }
    }
}

/// Pruning changes neither what a reachable block branches to nor which blocks
/// are reachable.
pub proof fn pruning_keeps_reachability(f: FuncView, b: BlockId)
    ensures
        reachable(pruned(f), b) == reachable(f, b),
        reachable(f, b) ==> succs(pruned(f).blocks, b) == succs(f.blocks, b),
{
    let g = pruned(f);
    let cond = block_reachable(f);
    assert forall|x: BlockId| reachable(f, x) implies #[trigger] succs(g.blocks, x) == succs(
        f.blocks,
        x,
    ) by {
        lemma_first_in_filter(f.blocks, cond, x);
        if has_block(f.blocks, x) {
            lemma_block_pos(f.blocks, x);
            assert(cond(the_block(f.blocks, x)));
        }
    }
    let r = Set::new(|x: BlockId| reachable(f, x));
    let h = Set::new(|x: BlockId| reachable(g, x) && reachable(f, x));
    if reachable(f, b) {
        lemma_entry_reachable(f);
        lemma_entry_reachable(g);
        assert forall|x: BlockId, y: BlockId|
            h.contains(x) && #[trigger] succs(f.blocks, x).contains(y) implies h.contains(y) by {
            lemma_reachable_step(f, x, y);
            assert(succs(g.blocks, x) == succs(f.blocks, x));
            lemma_reachable_step(g, x, y);
        }
        lemma_closed_covers(f, h, b);
    }
    if reachable(g, b) {
        lemma_entry_reachable(f);
        assert forall|x: BlockId, y: BlockId|
            r.contains(x) && #[trigger] succs(g.blocks, x).contains(y) implies r.contains(y) by {
            assert(succs(g.blocks, x) == succs(f.blocks, x));
            lemma_reachable_step(f, x, y);
        }
        lemma_closed_covers(g, r, b);
    }
}

/// Pruning twice is pruning once.
pub proof fn pruning_is_idempotent(f: FuncView)
    ensures
        pruned(pruned(f)) == pruned(f),
{
    let g = pruned(f);
    let cond = block_reachable(f);
    broadcast use vstd::seq_lib::group_filter_ensures;

    let all = Seq::new(g.blocks.len(), |i: int| true);
    assert forall|i: int| 0 <= i < g.blocks.len() implies #[trigger] all[i] == block_reachable(g)(
        g.blocks[i],
    ) by {
        assert(cond(g.blocks[i]));
        pruning_keeps_reachability(f, g.blocks[i].id);
    }
    lemma_masked_filter(g.blocks, all, block_reachable(g));
    lemma_masked_len(g.blocks, all);
}

} // verus!
