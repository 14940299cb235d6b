//! The dominator tree: children, preorder, and dominance frontiers.

use crate::ids::{copy_list, same_id, Id, IdMap, IdSet};
use crate::ir::cfg::{
    edge, lemma_entry_reachable, lemma_preds_are_edges, mentioned, predecessors, preds_of,
    reachable, targets_of,
};
use crate::ir::dom::{
    compute_immediate_dominators, dominates, has_idom_entry, idom_map, is_idom, is_walk,
    lemma_above_idom, lemma_dominates_pred, lemma_dominates_self, lemma_dominates_trans,
    lemma_dominator_is_block, lemma_dominator_reachable, lemma_entry_dominator, lemma_walk_prefix,
    lemma_walk_to, strictly_dominates,
};
use crate::ir::inst::{has_block, BlockId, FuncView, Function};
use crate::ir::loops::lemma_sorted_distinct;
use crate::lists::sort_ids;
use vstd::prelude::*;

verus! {

/// Do the numbers of the blocks rise?
pub open spec fn rising(s: Seq<BlockId>) -> bool {
    forall|i: int, j: int| 0 <= i < j < s.len() ==> (#[trigger] s[i]).0 < (#[trigger] s[j]).0
}

/// Does `c` hold, for each value of `m`, the keys mapped to it, rising?
pub open spec fn child_lists(m: Map<BlockId, BlockId>, c: Map<BlockId, Vec<BlockId>>) -> bool {
    &&& forall|p: BlockId| #[trigger] c.contains_key(p) == (exists|k: BlockId| #[trigger]
        m.contains_key(k) && m[k] == p)
    &&& forall|p: BlockId| c.contains_key(p) ==> rising((#[trigger] c[p])@)
    &&& forall|p: BlockId, k: BlockId|
        #![trigger c[p]@.contains(k)]
        c.contains_key(p) ==> c[p]@.contains(k) == (m.contains_key(k) && m[k] == p)
}

/// For each parent in the map of immediate dominators, its children.
pub fn dominator_tree_children(idoms: &IdMap<BlockId, BlockId>) -> (r: IdMap<
    BlockId,
    Vec<BlockId>,
>)
    ensures
        child_lists(idoms@, r@),
{
    let listed = idoms.keys();
    let ordered = sort_ids(listed);
    proof {
        lemma_sorted_distinct(listed@, ordered@);
        assert forall|k: BlockId| #[trigger] ordered@.contains(k) == idoms@.contains_key(k) by {
            assert(listed@.to_set().contains(k) == listed@.contains(k));
        }
    }
    let mut children: IdMap<BlockId, Vec<BlockId>> = IdMap::new();
    let mut i: usize = 0;
    while i < ordered.len()
        invariant
            i <= ordered.len(),
            forall|a: int, b: int|
                0 <= a < b < ordered@.len() ==> (#[trigger] ordered@[a]).key() < (
                #[trigger] ordered@[b]).key(),
            forall|k: BlockId| #[trigger] ordered@.contains(k) == idoms@.contains_key(k),
            forall|p: BlockId| #[trigger] children@.contains_key(p) == (exists|a: int|
                0 <= a < i && idoms@[#[trigger] ordered@[a]] == p),
            forall|p: BlockId| children@.contains_key(p) ==> rising((#[trigger] children@[p])@),
            forall|p: BlockId, k: BlockId|
                #![trigger children@[p]@.contains(k)]
                children@.contains_key(p) ==> children@[p]@.contains(k) == (exists|a: int|
                    0 <= a < i && #[trigger] ordered@[a] == k && idoms@[k] == p),
        decreases ordered.len() - i,
    {
        let child = ordered[i];
        proof {
            assert(ordered@.contains(child));
        }
        if let Some(parent) = idoms.get(&child) {
            let p = *parent;
            let mut list: Vec<BlockId> = match children.get(&p) {
                Some(known) => copy_list(known),
                None => Vec::new(),
            };
            let ghost before = list@;
            let ghost held = children@;
            proof {
                assert forall|k: BlockId| #[trigger] before.contains(k) == (exists|a: int|
                    0 <= a < i && #[trigger] ordered@[a] == k && idoms@[k] == p) by {
                    if held.contains_key(p) {
                        assert(held[p]@.contains(k) == before.contains(k));
                    } else if exists|a: int| 0 <= a < i && #[trigger] ordered@[a] == k && idoms@[k] == p {
                        let a = choose|a: int|
                            0 <= a < i && #[trigger] ordered@[a] == k && idoms@[k] == p;
                        assert(idoms@[ordered@[a]] == p);
                    }
                }
            }
            list.push(child);
            let ghost after = list@;
            proof {
                assert forall|k: BlockId| #[trigger] after.contains(k) == (exists|a: int|
                    0 <= a < i + 1 && #[trigger] ordered@[a] == k && idoms@[k] == p) by {
                    assert(after[before.len() as int] == child);
                    if before.contains(k) {
                        assert(after[before.index_of(k)] == k);
                        let a = choose|a: int|
                            0 <= a < i && #[trigger] ordered@[a] == k && idoms@[k] == p;
                        assert(ordered@[a] == k);
                    }
                    if after.contains(k) {
                        let m = after.index_of(k);
                        if m < before.len() {
                            assert(before[m] == k);
                        } else {
                            assert(ordered@[i as int] == k);
                        }
                    }
                    if exists|a: int|
                        0 <= a < i + 1 && #[trigger] ordered@[a] == k && idoms@[k] == p {
                        let a = choose|a: int|
                            0 <= a < i + 1 && #[trigger] ordered@[a] == k && idoms@[k] == p;
                        if a < i {
                            assert(ordered@[a] == k);
                            assert(before.contains(k));
                        }
                    }
                }
                assert(rising(after)) by {
                    assert forall|a: int, b: int| 0 <= a < b < after.len() implies (#[trigger] after[a]).0 < (
                    #[trigger] after[b]).0 by {
                        if b == before.len() {
                            assert(before.contains(before[a]));
                            let m = choose|m: int|
                                0 <= m < i && #[trigger] ordered@[m] == before[a] && idoms@[before[a]] == p;
                            assert(ordered@[m].key() < ordered@[i as int].key());
                        } else {
                            assert(after[a] == before[a] && after[b] == before[b]);
                        }
                    }
                }
            }
            children.insert(p, list);
            proof {
                assert forall|q: BlockId| #[trigger] children@.contains_key(q) == (exists|a: int|
                    0 <= a < i + 1 && idoms@[#[trigger] ordered@[a]] == q) by {
                    if held.contains_key(q) {
                        let a = choose|a: int| 0 <= a < i && idoms@[#[trigger] ordered@[a]] == q;
                        assert(idoms@[ordered@[a]] == q);
                    }
                    assert(idoms@[ordered@[i as int]] == p);
                }
                assert forall|q: BlockId, k: BlockId|
                    #![trigger children@[q]@.contains(k)]
                    children@.contains_key(q) implies children@[q]@.contains(k) == (exists|a: int|
                    0 <= a < i + 1 && #[trigger] ordered@[a] == k && idoms@[k] == q) by {
                    if q == p {
                        assert(after.contains(k) == children@[q]@.contains(k));
                    } else {
                        assert(held[q]@.contains(k) == children@[q]@.contains(k));
                        if held[q]@.contains(k) {
                            let a = choose|a: int|
                                0 <= a < i && #[trigger] ordered@[a] == k && idoms@[k] == q;
                            assert(ordered@[a] == k);
                        }
                        if exists|a: int|
                            0 <= a < i + 1 && #[trigger] ordered@[a] == k && idoms@[k] == q {
                            let a = choose|a: int|
                                0 <= a < i + 1 && #[trigger] ordered@[a] == k && idoms@[k] == q;
                            assert(a != i);
                            assert(ordered@[a] == k);
                        }
                    }
                }
            }
        }
        i = i + 1;
    }
    proof {
        assert forall|p: BlockId| #[trigger] children@.contains_key(p) == (exists|k: BlockId|
            #[trigger] idoms@.contains_key(k) && idoms@[k] == p) by {
            if children@.contains_key(p) {
                let a = choose|a: int| 0 <= a < ordered@.len() && idoms@[#[trigger] ordered@[a]] == p;
                assert(ordered@.contains(ordered@[a]));
                assert(idoms@.contains_key(ordered@[a]));
            }
            if exists|k: BlockId| #[trigger] idoms@.contains_key(k) && idoms@[k] == p {
                let k = choose|k: BlockId| #[trigger] idoms@.contains_key(k) && idoms@[k] == p;
                assert(ordered@.contains(k));
                let a = ordered@.index_of(k);
                assert(idoms@[ordered@[a]] == p);
            }
        }
        assert forall|p: BlockId, k: BlockId|
            #![trigger children@[p]@.contains(k)]
            children@.contains_key(p) implies children@[p]@.contains(k) == (idoms@.contains_key(k)
            && idoms@[k] == p) by {
            if children@[p]@.contains(k) {
                let a = choose|a: int|
                    0 <= a < ordered@.len() && #[trigger] ordered@[a] == k && idoms@[k] == p;
                assert(ordered@.contains(ordered@[a]));
            }
            if idoms@.contains_key(k) && idoms@[k] == p {
                assert(ordered@.contains(k));
                let a = ordered@.index_of(k);
                assert(ordered@[a] == k);
            }
        }
    }
    children
}

/// The reachable blocks that branch to `x`, once for each branch.
pub open spec fn reachable_preds(f: FuncView, x: BlockId) -> Seq<BlockId> {
    preds_of(f.blocks, x).filter(|p: BlockId| reachable(f, p))
}

/// Is `x` in the dominance frontier of `b`: a join that `b` does not strictly
/// dominate, with a predecessor that `b` dominates?
///
/// A join is a reachable block with two or more branches into it from
/// reachable blocks.
pub open spec fn in_frontier(f: FuncView, b: BlockId, x: BlockId) -> bool {
    &&& has_block(f.blocks, x)
    &&& reachable(f, x)
    &&& reachable_preds(f, x).len() >= 2
    &&& !strictly_dominates(f, b, x)
    &&& exists|p: BlockId| reachable(f, p) && #[trigger] edge(f.blocks, p, x) && dominates(f, b, p)
}

/// Does the map of sets hold `x` under `b`?
spec fn df_has(m: Map<BlockId, IdSet<BlockId>>, b: BlockId, x: BlockId) -> bool {
    m.contains_key(b) && m[b]@.contains(x)
}

fn add_to_frontier(df: &mut IdMap<BlockId, IdSet<BlockId>>, b: BlockId, x: BlockId)
    ensures
        forall|k: BlockId| #[trigger] final(df)@.contains_key(k) == (old(df)@.contains_key(k) || k
            == b),
        forall|k: BlockId, y: BlockId| #[trigger]
            df_has(final(df)@, k, y) == (df_has(old(df)@, k, y) || (k == b && y == x)),
{
    let mut held: IdSet<BlockId> = match df.get(&b) {
        Some(s) => s.copied(),
        None => IdSet::new(),
    };
    let added: bool = held.insert(x);
    df.insert(b, held);
}

/// Adds `x` to the frontier of each dominator of `p` below the immediate
/// dominator of `x`.
fn climb(
    func: &Function,
    idoms: &IdMap<BlockId, BlockId>,
    df: &mut IdMap<BlockId, IdSet<BlockId>>,
    p: BlockId,
    x: BlockId,
)
    requires
        idom_map(func@, idoms@),
        reachable(func@, p),
        has_block(func@.blocks, p),
        edge(func@.blocks, p, x),
        has_block(func@.blocks, x),
        reachable(func@, x),
        forall|k: BlockId| #[trigger] old(df)@.contains_key(k) == (has_block(func@.blocks, k)
            && reachable(func@, k)),
    ensures
        forall|k: BlockId| #[trigger] final(df)@.contains_key(k) == (has_block(func@.blocks, k)
            && reachable(func@, k)),
        forall|k: BlockId, y: BlockId| #[trigger]
            df_has(final(df)@, k, y) == (df_has(old(df)@, k, y) || (y == x && dominates(
                func@,
                k,
                p,
            ) && !strictly_dominates(func@, k, x))),
{
    let ghost f = func@;
    let stop: Option<BlockId> = match idoms.get(&x) {
        Some(d) => Some(*d),
        None => None,
    };
    let mut runner: BlockId = p;
    let ghost mut steps: Seq<BlockId> = lemma_walk_to(f, p);
    let mut going: bool = true;
    proof {
        lemma_dominates_self(f, p);
        if x != f.entry {
            assert(idoms@.contains_key(x));
            lemma_dominates_pred(f, idoms@[x], p, x);
        }
        assert forall|k: BlockId, y: BlockId| #[trigger] df_has(df@, k, y) == (df_has(old(df)@, k, y)
            || (y == x && dominates(f, k, p) && !dominates(f, k, runner))) by {}
    }
    while going
        invariant
            f == func@,
            idom_map(f, idoms@),
            x != f.entry ==> stop == Some(idoms@[x]) && is_idom(f, idoms@[x], x),
            x == f.entry ==> stop is None,
            dominates(f, runner, p),
            has_block(f.blocks, p),
            has_block(f.blocks, runner),
            reachable(f, runner),
            is_walk(f, steps),
            steps.last() == runner,
            x != f.entry && going ==> dominates(f, idoms@[x], runner),
            forall|k: BlockId| #[trigger] df@.contains_key(k) == (has_block(f.blocks, k)
                && reachable(f, k)),
            going ==> forall|k: BlockId, y: BlockId| #[trigger]
                df_has(df@, k, y) == (df_has(old(df)@, k, y) || (y == x && dominates(f, k, p)
                    && !dominates(f, k, runner))),
            !going ==> forall|k: BlockId, y: BlockId| #[trigger]
                df_has(df@, k, y) == (df_has(old(df)@, k, y) || (y == x && dominates(f, k, p)
                    && !strictly_dominates(f, k, x))),
        decreases steps.len(), (if going { 1nat } else { 0nat }),
    {
        let arrived: bool = match stop {
            Some(d) => same_id(d, runner),
            None => false,
        };
        if arrived {
            proof {
                assert(x != f.entry);
                assert forall|k: BlockId| dominates(f, k, p) implies (!#[trigger] dominates(
                    f,
                    k,
                    runner,
                )) == !strictly_dominates(f, k, x) by {
                    lemma_above_idom(f, k, runner, x);
                }
            }
            going = false;
        } else {
            let ghost before = df@;
            add_to_frontier(df, runner, x);
            match idoms.get(&runner) {
                Some(parent) => {
                    let up = *parent;
                    proof {
                        assert(is_idom(f, up, runner));
                        assert forall|k: BlockId, y: BlockId| #[trigger] df_has(df@, k, y) == (df_has(
                            old(df)@,
                            k,
                            y,
                        ) || (y == x && dominates(f, k, p) && !dominates(f, k, up))) by {
                            assert(df_has(df@, k, y) == (df_has(before, k, y) || (k == runner && y == x)));
                            lemma_above_idom(f, k, up, runner);
                        }
                        lemma_dominates_trans(f, up, runner, p);
                        lemma_dominator_reachable(f, up, runner);
                        lemma_dominator_is_block(f, up, runner);
                        if up == f.entry {
                            lemma_entry_is_block(f, runner);
                        }
                        if x != f.entry {
                            lemma_above_idom(f, idoms@[x], up, runner);
                        }
                        assert(steps.contains(up));
                        let i = steps.index_of(up);
                        assert(steps[steps.len() - 1] == runner);
                        lemma_walk_prefix(f, steps, i + 1);
                        steps = steps.take(i + 1);
                    }
                    runner = up;
                },
                None => {
                    proof {
                        assert(!idoms@.contains_key(runner));
                        assert(runner == f.entry);
                        if x != f.entry {
                            lemma_entry_dominator(f, idoms@[x]);
                        }
                        assert(x == f.entry);
                        assert forall|k: BlockId, y: BlockId| #[trigger] df_has(df@, k, y) == (df_has(
                            old(df)@,
                            k,
                            y,
                        ) || (y == x && dominates(f, k, p) && !strictly_dominates(f, k, x))) by {
                            assert(df_has(df@, k, y) == (df_has(before, k, y) || (k == runner && y == x)));
                            lemma_entry_dominator(f, k);
                        }
                    }
                    going = false;
                },
            }
        }
    }
}

/// Where some other block is reachable, the entry is a block.
proof fn lemma_entry_is_block(f: FuncView, b: BlockId)
    requires
        reachable(f, b),
        has_block(f.blocks, b),
    ensures
        has_block(f.blocks, f.entry),
{
    let p = lemma_walk_to(f, b);
    if p.len() > 1 {
        let zero: int = 0;
        assert(edge(f.blocks, p[zero], p[zero + 1]));
        let k = choose|k: int|
            0 <= k < f.blocks.len() && (#[trigger] f.blocks[k]).id == p[0] && targets_of(
                f.blocks[k],
            ).contains(p[1]);
        assert(f.blocks[k].id == f.entry);
    } else {
        assert(p[0] == f.entry);
    }
}

/// The dominance frontier of every reachable block.
pub fn compute_dominance_frontiers(func: &Function) -> (r: IdMap<BlockId, IdSet<BlockId>>)
    ensures
        forall|b: BlockId| #[trigger] r@.contains_key(b) == (has_block(func@.blocks, b)
            && reachable(func@, b)),
        forall|b: BlockId, x: BlockId|
            #![trigger r@[b]@.contains(x)]
            r@.contains_key(b) ==> r@[b]@.contains(x) == in_frontier(func@, b, x),
{
    let ghost f = func@;
    let idoms = compute_immediate_dominators(func);
    let preds = predecessors(func);
    let mut df: IdMap<BlockId, IdSet<BlockId>> = IdMap::new();
    let mut i: usize = 0;
    while i < func.blocks.len()
        invariant
            f == func@,
            i <= func.blocks.len(),
            idom_map(f, idoms@),
            forall|b: BlockId| #[trigger] df@.contains_key(b) == (reachable(f, b) && exists|k: int|
                0 <= k < i && (#[trigger] f.blocks[k]).id == b),
            forall|b: BlockId, x: BlockId| !#[trigger] df_has(df@, b, x),
        decreases func.blocks.len() - i,
    {
        let id = func.blocks[i].id;
        let ghost before = df@;
        proof {
            assert(f.blocks[i as int].id == id);
            assert(has_block(f.blocks, id));
            lemma_entry_reachable(f);
        }
        if same_id(id, func.entry) || idoms.contains_key(&id) {
            df.insert(id, IdSet::new());
        }
        proof {
            assert forall|b: BlockId| #[trigger] df@.contains_key(b) == (reachable(f, b) && exists|
                k: int,
            |
                0 <= k < i + 1 && (#[trigger] f.blocks[k]).id == b) by {
                if before.contains_key(b) {
                    let k = choose|k: int| 0 <= k < i && (#[trigger] f.blocks[k]).id == b;
                    assert(f.blocks[k].id == b);
                }
            }
            assert forall|b: BlockId, x: BlockId| !#[trigger] df_has(df@, b, x) by {
                assert(!df_has(before, b, x));
            }
        }
        i = i + 1;
    }
    let mut n: usize = 0;
    while n < func.blocks.len()
        invariant
            f == func@,
            n <= func.blocks.len(),
            idom_map(f, idoms@),
            forall|b: BlockId| #[trigger] preds@.contains_key(b) == mentioned(f.blocks, b),
            forall|b: BlockId|
                preds@.contains_key(b) ==> (#[trigger] preds@[b])@ == preds_of(f.blocks, b),
            forall|b: BlockId| #[trigger] df@.contains_key(b) == (has_block(f.blocks, b)
                && reachable(f, b)),
            forall|b: BlockId, x: BlockId| #[trigger]
                df_has(df@, b, x) == (in_frontier(f, b, x) && exists|k: int|
                    0 <= k < n && (#[trigger] f.blocks[k]).id == x),
        decreases func.blocks.len() - n,
    {
        let x = func.blocks[n].id;
        let ghost before = df@;
        proof {
            assert(f.blocks[n as int].id == x);
            assert(has_block(f.blocks, x));
            lemma_entry_reachable(f);
        }
        if same_id(x, func.entry) || idoms.contains_key(&x) {
            let sources = reachable_sources(func, &idoms, &preds, x);
            if sources.len() >= 2 {
                let mut j: usize = 0;
                while j < sources.len()
                    invariant
                        f == func@,
                        j <= sources.len(),
                        idom_map(f, idoms@),
                        has_block(f.blocks, x),
                        reachable(f, x),
                        sources@ == reachable_preds(f, x),
                        forall|b: BlockId| #[trigger] df@.contains_key(b) == (has_block(
                            f.blocks,
                            b,
                        ) && reachable(f, b)),
                        forall|b: BlockId, y: BlockId| #[trigger]
                            df_has(df@, b, y) == (df_has(before, b, y) || (y == x
                                && !strictly_dominates(f, b, x) && exists|k: int|
                                0 <= k < j && dominates(f, b, #[trigger] sources@[k]))),
                    decreases sources.len() - j,
                {
                    let p = sources[j];
                    let ghost held = df@;
                    proof {
                        lemma_reachable_pred(f, x, p);
                        assert(sources@.contains(sources@[j as int]));
                    }
                    climb(func, &idoms, &mut df, p, x);
                    proof {
                        assert forall|b: BlockId, y: BlockId| #[trigger] df_has(df@, b, y) == (df_has(
                            before,
                            b,
                            y,
                        ) || (y == x && !strictly_dominates(f, b, x) && exists|k: int|
                            0 <= k < j + 1 && dominates(f, b, #[trigger] sources@[k]))) by {
                            if y == x && !strictly_dominates(f, b, x) && exists|k: int|
                                0 <= k < j && dominates(f, b, #[trigger] sources@[k]) {
                                let k = choose|k: int|
                                    0 <= k < j && dominates(f, b, #[trigger] sources@[k]);
                                assert(dominates(f, b, sources@[k]));
                            }
                            if dominates(f, b, p) {
                                assert(dominates(f, b, sources@[j as int]));
                            }
                        }
                    }
                    j = j + 1;
                }
            }
            proof {
                assert forall|b: BlockId, y: BlockId| #[trigger] df_has(df@, b, y) == (in_frontier(
                    f,
                    b,
                    y,
                ) && exists|k: int| 0 <= k < n + 1 && (#[trigger] f.blocks[k]).id == y) by {
                    lemma_frontier_members(f, b, x);
                    if df_has(before, b, y) {
                        let k = choose|k: int| 0 <= k < n && (#[trigger] f.blocks[k]).id == y;
                        assert(f.blocks[k].id == y);
                    }
                    assert(f.blocks[n as int].id == x);
                }
            }
        } else {
            proof {
                assert(!reachable(f, x));
                assert forall|b: BlockId, y: BlockId| #[trigger] df_has(df@, b, y) == (in_frontier(
                    f,
                    b,
                    y,
                ) && exists|k: int| 0 <= k < n + 1 && (#[trigger] f.blocks[k]).id == y) by {
                    if df_has(before, b, y) {
                        let k = choose|k: int| 0 <= k < n && (#[trigger] f.blocks[k]).id == y;
                        assert(f.blocks[k].id == y);
                    }
                }
            }
        }
        n = n + 1;
    }
    proof {
        assert forall|b: BlockId, x: BlockId|
            #![trigger df@[b]@.contains(x)]
            df@.contains_key(b) implies df@[b]@.contains(x) == in_frontier(f, b, x) by {
            assert(df_has(df@, b, x) == df@[b]@.contains(x));
        }
    }
    df
}

proof fn lemma_reachable_pred(f: FuncView, x: BlockId, p: BlockId)
    ensures
        reachable_preds(f, x).contains(p) == (reachable(f, p) && edge(f.blocks, p, x)),
        edge(f.blocks, p, x) ==> has_block(f.blocks, p),
{
    broadcast use vstd::seq_lib::group_filter_ensures;

    let s = preds_of(f.blocks, x);
    let cond = |p: BlockId| reachable(f, p);
    lemma_preds_are_edges(f.blocks, x, p);
    if reachable_preds(f, x).contains(p) {
        let i = s.filter(cond).index_of(p);
        assert(cond(s.filter(cond)[i]));
        s.lemma_filter_contains_rev(cond, p);
    }
    if reachable(f, p) && edge(f.blocks, p, x) {
        let i = s.index_of(p);
        assert(s[i] == p);
        assert(cond(s[i]));
        assert(s.filter(cond).contains(s[i]));
    }
    if edge(f.blocks, p, x) {
        let k = choose|k: int|
            0 <= k < f.blocks.len() && (#[trigger] f.blocks[k]).id == p && targets_of(
                f.blocks[k],
            ).contains(x);
        assert(f.blocks[k].id == p);
    }
}

proof fn lemma_frontier_members(f: FuncView, b: BlockId, x: BlockId)
    requires
        has_block(f.blocks, x),
        reachable(f, x),
    ensures
        in_frontier(f, b, x) == (reachable_preds(f, x).len() >= 2 && !strictly_dominates(f, b, x)
            && exists|k: int|
            0 <= k < reachable_preds(f, x).len() && dominates(
                f,
                b,
                #[trigger] reachable_preds(f, x)[k],
            )),
{
    let s = reachable_preds(f, x);
    if exists|p: BlockId| reachable(f, p) && #[trigger] edge(f.blocks, p, x) && dominates(f, b, p) {
        let p = choose|p: BlockId|
            reachable(f, p) && #[trigger] edge(f.blocks, p, x) && dominates(f, b, p);
        lemma_reachable_pred(f, x, p);
        let k = s.index_of(p);
        assert(dominates(f, b, s[k]));
    }
    if exists|k: int| 0 <= k < s.len() && dominates(f, b, #[trigger] s[k]) {
        let k = choose|k: int| 0 <= k < s.len() && dominates(f, b, #[trigger] s[k]);
        assert(s.contains(s[k]));
        lemma_reachable_pred(f, x, s[k]);
    }
}

/// The reachable blocks that branch to `x`.
fn reachable_sources(
    func: &Function,
    idoms: &IdMap<BlockId, BlockId>,
    preds: &IdMap<BlockId, Vec<BlockId>>,
    x: BlockId,
) -> (r: Vec<BlockId>)
    requires
        idom_map(func@, idoms@),
        has_block(func@.blocks, x),
        forall|b: BlockId| #[trigger] preds@.contains_key(b) == mentioned(func@.blocks, b),
        forall|b: BlockId|
            preds@.contains_key(b) ==> (#[trigger] preds@[b])@ == preds_of(func@.blocks, b),
    ensures
        r@ == reachable_preds(func@, x),
{
    let ghost f = func@;
    let ghost cond = |p: BlockId| reachable(f, p);
    let mut out: Vec<BlockId> = Vec::new();
    let empty: Vec<BlockId> = Vec::new();
    let list: &Vec<BlockId> = match preds.get(&x) {
        Some(l) => l,
        None => &empty,
    };
    let mut i: usize = 0;
    proof {
        reveal(Seq::filter);
        assert(list@.take(0).filter(cond) =~= Seq::<BlockId>::empty());
    }
    while i < list.len()
        invariant
            f == func@,
            cond == (|p: BlockId| reachable(f, p)),
            idom_map(f, idoms@),
            i <= list.len(),
            list@ == preds_of(f.blocks, x),
            out@ == list@.take(i as int).filter(cond),
        decreases list.len() - i,
    {
        let p = list[i];
        proof {
            reveal(Seq::filter);
            assert(list@.take(i + 1).drop_last() =~= list@.take(i as int));
            assert(list@.take(i + 1).last() == p);
            assert(list@.contains(list@[i as int]));
            lemma_preds_are_edges(f.blocks, x, p);
            lemma_reachable_pred(f, x, p);
            lemma_entry_reachable(f);
        }
        if same_id(p, func.entry) || idoms.contains_key(&p) {
            out.push(p);
        }
        i = i + 1;
    }
    proof {
        assert(list@.take(list@.len() as int) =~= list@);
    }
    out
}

/// Is `b` the entry, or a block with an immediate dominator?
pub open spec fn in_tree(f: FuncView, b: BlockId) -> bool {
    b == f.entry || has_idom_entry(f, b)
}

/// Is `s` the preorder of the dominator tree in which siblings rise?
pub open spec fn is_preorder(f: FuncView, s: Seq<BlockId>) -> bool {
    // The entry comes first, and each block of the tree once.
    &&& s.len() > 0
    &&& s[0] == f.entry
    &&& s.no_duplicates()
    &&& forall|b: BlockId| #[trigger] s.contains(b) == in_tree(f, b)
    // What a block dominates follows it without a gap.
    &&& forall|i: int, j: int, k: int|
        #![trigger s[i], s[j], s[k]]
        0 <= i < j < k < s.len() && dominates(f, s[i], s[k]) ==> dominates(f, s[i], s[j])
    &&& forall|i: int, j: int|
        #![trigger s[i], s[j]]
        0 <= i < j < s.len() ==> !dominates(f, s[j], s[i])
    // Children of one block rise.
    &&& forall|i: int, j: int, d: BlockId|
        #![trigger is_idom(f, d, s[i]), is_idom(f, d, s[j])]
        0 <= i < j < s.len() && is_idom(f, d, s[i]) && is_idom(f, d, s[j]) ==> s[i].0 < s[j].0
}

/// Below `t`, a block is dominated by a child of `t`.
proof fn lemma_child_above(f: FuncView, t: BlockId, n: BlockId, p: Seq<BlockId>) -> (k: BlockId)
    requires
        strictly_dominates(f, t, n),
        has_idom_entry(f, n),
        is_walk(f, p),
        p.last() == n,
    ensures
        is_idom(f, t, k),
        dominates(f, k, n),
        has_idom_entry(f, k),
    decreases p.len(),
{
    let d = crate::ir::dom::lemma_idom_exists(f, n);
    if d == t {
        lemma_dominates_self(f, n);
        n
    } else {
        assert(dominates(f, t, d));
        lemma_dominator_reachable(f, d, n);
        lemma_dominator_is_block(f, d, n);
        lemma_entry_dominator(f, t);
        assert(p.contains(d));
        let i = p.index_of(d);
        assert(p[p.len() - 1] == n);
        lemma_walk_prefix(f, p, i + 1);
        let k = lemma_child_above(f, t, d, p.take(i + 1));
        lemma_dominates_trans(f, k, d, n);
        k
    }
}

/// What holds between the blocks put out so far and those on the stack.
spec fn preorder_inv(f: FuncView, o: Seq<BlockId>, s: Seq<BlockId>) -> bool {
    &&& o.len() == 0 ==> s == seq![f.entry]
    &&& o.len() > 0 ==> o[0] == f.entry
    &&& o.no_duplicates()
    &&& forall|i: int| 0 <= i < o.len() ==> in_tree(f, #[trigger] o[i])
    &&& forall|a: int| 0 <= a < s.len() ==> in_tree(f, #[trigger] s[a])
    // Every block of the tree is out or below the stack, not both.
    &&& forall|b: BlockId| #[trigger] in_tree(f, b) && !o.contains(b) ==> exists|a: int|
        0 <= a < s.len() && dominates(f, #[trigger] s[a], b)
    &&& forall|i: int, a: int|
        #![trigger o[i], s[a]]
        0 <= i < o.len() && 0 <= a < s.len() ==> !dominates(f, s[a], o[i])
    &&& forall|a: int, b: int|
        #![trigger s[a], s[b]]
        0 <= a < s.len() && 0 <= b < s.len() && a != b ==> !dominates(f, s[a], s[b])
    // What a block dominates lies on top.
    &&& forall|i: int, a: int, b: int|
        #![trigger o[i], s[a], s[b]]
        0 <= i < o.len() && 0 <= a < b < s.len() && dominates(f, o[i], s[a]) ==> dominates(
            f,
            o[i],
            s[b],
        )
    &&& forall|i: int, j: int, a: int|
        #![trigger o[i], o[j], s[a]]
        0 <= i < j < o.len() && 0 <= a < s.len() && dominates(f, o[i], s[a]) ==> dominates(
            f,
            o[i],
            o[j],
        )
    &&& forall|i: int, j: int, k: int|
        #![trigger o[i], o[j], o[k]]
        0 <= i < j < k < o.len() && dominates(f, o[i], o[k]) ==> dominates(f, o[i], o[j])
    &&& forall|i: int, j: int|
        #![trigger o[i], o[j]]
        0 <= i < j < o.len() ==> !dominates(f, o[j], o[i])
    // Siblings rise in what is out, then down the stack.
    &&& forall|i: int, j: int, d: BlockId|
        #![trigger is_idom(f, d, o[i]), is_idom(f, d, o[j])]
        0 <= i < j < o.len() && is_idom(f, d, o[i]) && is_idom(f, d, o[j]) ==> o[i].0 < o[j].0
    &&& forall|i: int, a: int, d: BlockId|
        #![trigger is_idom(f, d, o[i]), is_idom(f, d, s[a])]
        0 <= i < o.len() && 0 <= a < s.len() && is_idom(f, d, o[i]) && is_idom(f, d, s[a])
            ==> o[i].0 < s[a].0
    &&& forall|a: int, b: int, d: BlockId|
        #![trigger is_idom(f, d, s[a]), is_idom(f, d, s[b])]
        0 <= a < b < s.len() && is_idom(f, d, s[a]) && is_idom(f, d, s[b]) ==> s[b].0 < s[a].0
}

/// The children of `t` in falling order.
spec fn falling_children(f: FuncView, t: BlockId, kids: Seq<BlockId>) -> bool {
    &&& forall|i: int, j: int| 0 <= i < j < kids.len() ==> (#[trigger] kids[j]).0 < (
    #[trigger] kids[i]).0
    &&& forall|k: BlockId| #[trigger] kids.contains(k) == (has_idom_entry(f, k) && is_idom(f, t, k))
}

#[verifier::rlimit(60)]
proof fn lemma_preorder_step(
    f: FuncView,
    o: Seq<BlockId>,
    s: Seq<BlockId>,
    kids: Seq<BlockId>,
)
    requires
        preorder_inv(f, o, s),
        s.len() > 0,
        falling_children(f, s.last(), kids),
    ensures
        preorder_inv(f, o.push(s.last()), s.drop_last() + kids),
{
    let t = s.last();
    let o2 = o.push(t);
    let rest = s.drop_last();
    let s2 = rest + kids;
    let top = s.len() - 1;
    assert(s[top] == t);
    assert(in_tree(f, t));
    assert forall|a: int| 0 <= a < s2.len() implies (a < top && #[trigger] s2[a] == s[a]) || (a >= top
        && s2[a] == kids[a - top] && is_idom(f, t, s2[a]) && has_idom_entry(f, s2[a])) by {
        if a >= top {
            assert(kids.contains(kids[a - top]));
        }
    }
    assert forall|i: int| 0 <= i < o2.len() implies (i < o.len() && #[trigger] o2[i] == o[i]) || (i
        == o.len() && o2[i] == t) by {}
    // A block that dominates a child of `t` is the child or dominates `t`.
    assert forall|c: BlockId, k: BlockId| #[trigger] is_idom(f, t, k) implies #[trigger] dominates(
        f,
        c,
        k,
    ) == (c == k || dominates(f, c, t)) && !dominates(f, k, t) by {
        lemma_above_idom(f, c, t, k);
    }
    assert(reachable(f, t)) by {
        lemma_entry_reachable(f);
    }
    lemma_dominates_self(f, t);
    assert forall|k: BlockId, x: BlockId|
        #[trigger] is_idom(f, t, k) && #[trigger] dominates(f, k, x) implies dominates(f, t, x) by {
        lemma_dominates_trans(f, t, k, x);
    }
    assert(o2[0] == f.entry) by {
        if o.len() == 0 {
            assert(s[0] == f.entry);
        }
    }
    assert(o2.no_duplicates()) by {
        assert forall|i: int, j: int| 0 <= i < j < o2.len() implies o2[i] != o2[j] by {
            if j == o.len() {
                assert(!dominates(f, s[top], o[i]));
            }
        }
    }
    assert forall|b: BlockId| #[trigger] in_tree(f, b) && !o2.contains(b) implies exists|a: int|
        0 <= a < s2.len() && dominates(f, #[trigger] s2[a], b) by {
        assert(o2[o.len() as int] == t);
        if o.contains(b) {
            assert(o2[o.index_of(b)] == b);
        }
        let a = choose|a: int| 0 <= a < s.len() && dominates(f, #[trigger] s[a], b);
        if a < top {
            assert(s2[a] == s[a]);
        } else {
            lemma_entry_dominator(f, t);
            let p = lemma_walk_to(f, b);
            let k = lemma_child_above(f, t, b, p);
            assert(kids.contains(k));
            let m = kids.index_of(k);
            assert(s2[top + m] == k);
        }
    }
    assert forall|i: int, a: int|
        #![trigger o2[i], s2[a]]
        0 <= i < o2.len() && 0 <= a < s2.len() implies !dominates(f, s2[a], o2[i]) by {
        if a < top {
            if i < o.len() {
                assert(!dominates(f, s[a], o[i]));
            } else {
                assert(!dominates(f, s[a], s[top]));
            }
        } else if i < o.len() {
            assert(!dominates(f, s[top], o[i]));
        }
    }
    assert forall|a: int, b: int|
        #![trigger s2[a], s2[b]]
        0 <= a < s2.len() && 0 <= b < s2.len() && a != b implies !dominates(f, s2[a], s2[b]) by {
        if a < top && b < top {
            assert(!dominates(f, s[a], s[b]));
        } else if a < top {
            assert(!dominates(f, s[a], s[top]));
            assert(!dominates(f, s[top], s[a]));
            if s2[a] == s2[b] {
                assert(dominates(f, t, s2[b]));
            }
        } else if b < top {
            assert(!dominates(f, s[top], s[b]));
        } else {
            assert(kids[a - top].0 != kids[b - top].0);
        }
    }
    assert forall|i: int, a: int, b: int|
        #![trigger o2[i], s2[a], s2[b]]
        0 <= i < o2.len() && 0 <= a < b < s2.len() && dominates(f, o2[i], s2[a]) implies dominates(
        f,
        o2[i],
        s2[b],
    ) by {
        if i == o.len() {
            if a < top {
                assert(!dominates(f, s[top], s[a]));
            }
        } else if a < top {
            if b < top {
                assert(s2[b] == s[b]);
            } else {
                assert(dominates(f, o[i], s[top]));
            }
        } else {
            if o2[i] == s2[a] {
                assert(dominates(f, t, o[i]));
                assert(!dominates(f, s[top], o[i]));
            }
        }
    }
    assert forall|i: int, j: int, a: int|
        #![trigger o2[i], o2[j], s2[a]]
        0 <= i < j < o2.len() && 0 <= a < s2.len() && dominates(f, o2[i], s2[a]) implies dominates(
        f,
        o2[i],
        o2[j],
    ) by {
        if a < top {
            if j < o.len() {
                assert(dominates(f, o[i], o[j]));
            } else {
                assert(dominates(f, o[i], s[top]));
            }
        } else {
            if o2[i] == s2[a] {
                assert(dominates(f, t, o[i]));
                assert(!dominates(f, s[top], o[i]));
            }
            assert(dominates(f, o[i], s[top]));
            if j < o.len() {
                assert(dominates(f, o[i], o[j]));
            }
        }
    }
    assert forall|i: int, j: int, k: int|
        #![trigger o2[i], o2[j], o2[k]]
        0 <= i < j < k < o2.len() && dominates(f, o2[i], o2[k]) implies dominates(
        f,
        o2[i],
        o2[j],
    ) by {
        if k == o.len() {
            assert(dominates(f, o[i], s[top]));
            assert(dominates(f, o[i], o[j]));
        } else {
            assert(dominates(f, o[i], o[k]));
        }
    }
    assert forall|i: int, j: int|
        #![trigger o2[i], o2[j]]
        0 <= i < j < o2.len() implies !dominates(f, o2[j], o2[i]) by {
        if j == o.len() {
            assert(!dominates(f, s[top], o[i]));
        } else {
            assert(!dominates(f, o[j], o[i]));
        }
    }
    assert forall|i: int, j: int, d: BlockId|
        #![trigger is_idom(f, d, o2[i]), is_idom(f, d, o2[j])]
        0 <= i < j < o2.len() && is_idom(f, d, o2[i]) && is_idom(f, d, o2[j]) implies o2[i].0
        < o2[j].0 by {
        if j == o.len() {
            assert(is_idom(f, d, o[i]) && is_idom(f, d, s[top]));
        } else {
            assert(is_idom(f, d, o[i]) && is_idom(f, d, o[j]));
        }
    }
    assert forall|i: int, a: int, d: BlockId|
        #![trigger is_idom(f, d, o2[i]), is_idom(f, d, s2[a])]
        0 <= i < o2.len() && 0 <= a < s2.len() && is_idom(f, d, o2[i]) && is_idom(
            f,
            d,
            s2[a],
        ) implies o2[i].0 < s2[a].0 by {
        if a < top {
            if i < o.len() {
                assert(is_idom(f, d, o[i]) && is_idom(f, d, s[a]));
            } else {
                assert(is_idom(f, d, s[a]) && is_idom(f, d, s[top]));
            }
        } else {
            crate::ir::dom::lemma_idom_unique(f, d, t, s2[a]);
            if i < o.len() {
                assert(strictly_dominates(f, t, o[i]));
                assert(!dominates(f, s[top], o[i]));
            } else {
                assert(strictly_dominates(f, t, t));
            }
        }
    }
    assert forall|a: int, b: int, d: BlockId|
        #![trigger is_idom(f, d, s2[a]), is_idom(f, d, s2[b])]
        0 <= a < b < s2.len() && is_idom(f, d, s2[a]) && is_idom(f, d, s2[b]) implies s2[b].0
        < s2[a].0 by {
        if b < top {
            assert(is_idom(f, d, s[a]) && is_idom(f, d, s[b]));
        } else {
            crate::ir::dom::lemma_idom_unique(f, d, t, s2[b]);
            if a < top {
                assert(strictly_dominates(f, t, s[a]));
                assert(!dominates(f, s[top], s[a]));
            }
        }
    }
}

proof fn lemma_tree_size(f: FuncView, o: Seq<BlockId>)
    requires
        o.no_duplicates(),
        forall|i: int| 0 <= i < o.len() ==> in_tree(f, #[trigger] o[i]),
    ensures
        o.len() <= f.blocks.len() + 1,
{
    crate::ir::loops::lemma_loop_size(f, f.entry, o);
}

/// A preorder of the dominator tree from the entry, children in rising order.
pub fn dominator_tree_preorder(func: &Function) -> (r: Vec<BlockId>)
    ensures
        is_preorder(func@, r@),
{
    let ghost f = func@;
    let idoms = compute_immediate_dominators(func);
    let children = dominator_tree_children(&idoms);
    let mut order: Vec<BlockId> = Vec::new();
    let mut stack: Vec<BlockId> = vec![func.entry];
    proof {
        assert(stack@ =~= seq![f.entry]);
        assert forall|b: BlockId| #[trigger] in_tree(f, b) && !order@.contains(b) implies exists|a: int|
            0 <= a < stack@.len() && dominates(f, #[trigger] stack@[a], b) by {
            lemma_entry_reachable(f);
            lemma_dominates_self(f, b);
            assert(dominates(f, stack@[0], b));
        }
        assert(preorder_inv(f, order@, stack@));
    }
    while stack.len() > 0
        invariant
            f == func@,
            idom_map(f, idoms@),
            child_lists(idoms@, children@),
            preorder_inv(f, order@, stack@),
        decreases f.blocks.len() + 1 - order@.len(),
    {
        let ghost s0 = stack@;
        let ghost o0 = order@;
        let b: BlockId = stack[stack.len() - 1];
        let popped = stack.pop();
        order.push(b);
        let ghost mut fallen: Seq<BlockId> = Seq::empty();
        match children.get(&b) {
            Some(kids) => {
                let mut i: usize = kids.len();
                while i > 0
                    invariant
                        i <= kids.len(),
                        rising(kids@),
                        fallen.len() == kids.len() - i,
                        forall|k: int|
                            0 <= k < fallen.len() ==> #[trigger] fallen[k] == kids@[kids.len() - 1 - k],
                        stack@ == s0.drop_last() + fallen,
                    decreases i,
                {
                    i = i - 1;
                    stack.push(kids[i]);
                    proof {
                        fallen = fallen.push(kids@[i as int]);
                        assert(stack@ =~= s0.drop_last() + fallen);
                    }
                }
                proof {
                    assert forall|k: BlockId| #[trigger] fallen.contains(k) == (has_idom_entry(f, k)
                        && is_idom(f, b, k)) by {
                        assert(children@[b]@.contains(k) == (idoms@.contains_key(k) && idoms@[k] == b));
                        if kids@.contains(k) {
                            let m = kids@.index_of(k);
                            assert(fallen[kids@.len() - 1 - m] == k);
                        }
                        if fallen.contains(k) {
                            let m = fallen.index_of(k);
                            assert(kids@[kids.len() - 1 - m] == k);
                        }
                        if has_idom_entry(f, k) && is_idom(f, b, k) {
                            assert(idoms@.contains_key(k));
                            crate::ir::dom::lemma_idom_unique(f, b, idoms@[k], k);
                        }
                    }
                    assert(falling_children(f, b, fallen));
                }
            },
            None => {
                proof {
                    assert forall|k: BlockId| #[trigger] fallen.contains(k) == (has_idom_entry(f, k)
                        && is_idom(f, b, k)) by {
                        if has_idom_entry(f, k) && is_idom(f, b, k) {
                            assert(idoms@.contains_key(k));
                            crate::ir::dom::lemma_idom_unique(f, b, idoms@[k], k);
                        }
                    }
                    assert(stack@ =~= s0.drop_last() + fallen);
                }
            },
        }
        proof {
            assert(order@ == o0.push(s0.last()));
            lemma_preorder_step(f, o0, s0, fallen);
            lemma_tree_size(f, order@);
        }
    }
    proof {
        assert forall|b: BlockId| #[trigger] order@.contains(b) == in_tree(f, b) by {
            if order@.contains(b) {
                assert(in_tree(f, order@[order@.index_of(b)]));
            }
            if in_tree(f, b) && !order@.contains(b) {
                let a = choose|a: int| 0 <= a < stack@.len() && dominates(f, #[trigger] stack@[a], b);
            }
        }
        assert(in_tree(f, f.entry));
        assert(order@.contains(f.entry));
    }
    order
}

} // verus!
