//! Dominators: sets, the tree of immediate dominators, and frontiers.

use crate::ids::{same_id, IdMap, IdSet};
use crate::ir::cfg::{
    edge, is_path, lemma_entry_reachable, lemma_preds_are_edges, lemma_succ_edge, mentioned,
    predecessors, preds_of, reachable, reachable_blocks, succs,
};
use crate::ir::inst::{has_block, BlockId, BlockView, FuncView, Function};
use vstd::prelude::*;

verus! {

/// Does `p` start at the entry and follow edges between reachable blocks?
pub open spec fn is_walk(f: FuncView, p: Seq<BlockId>) -> bool {
    &&& p.len() > 0
    &&& p[0] == f.entry
    &&& forall|i: int| 0 <= i < p.len() ==> reachable(f, #[trigger] p[i])
    &&& forall|i: int| 0 <= i < p.len() - 1 ==> edge(f.blocks, #[trigger] p[i], p[i + 1])
}

/// Does every walk from the entry to `b`, a reachable block, come by `a`?
pub open spec fn dominates(f: FuncView, a: BlockId, b: BlockId) -> bool {
    &&& reachable(f, b)
    &&& forall|p: Seq<BlockId>| #[trigger] is_walk(f, p) && p.last() == b ==> p.contains(a)
}

/// Does `a` dominate `b` without being `b`?
pub open spec fn strictly_dominates(f: FuncView, a: BlockId, b: BlockId) -> bool {
    a != b && dominates(f, a, b)
}

/// A reachable block lies at the end of a walk.
pub proof fn lemma_walk_to(f: FuncView, b: BlockId) -> (p: Seq<BlockId>)
    requires
        reachable(f, b),
    ensures
        is_walk(f, p),
        p.last() == b,
{
    let p = choose|p: Seq<BlockId>| #[trigger]
        is_path(f.blocks, p) && p[0] == f.entry && p.last() == b;
    assert forall|i: int| 0 <= i < p.len() implies reachable(f, #[trigger] p[i]) by {
        let q = p.take(i + 1);
        assert(is_path(f.blocks, q)) by {
            assert forall|k: int| 0 <= k < q.len() - 1 implies succs(
                f.blocks,
                #[trigger] q[k],
            ).contains(q[k + 1]) by {
                assert(q[k] == p[k] && q[k + 1] == p[k + 1]);
            }
        }
        assert(q[0] == f.entry);
        assert(q.last() == p[i]);
    }
    assert forall|i: int| 0 <= i < p.len() - 1 implies edge(f.blocks, #[trigger] p[i], p[i + 1]) by {
        lemma_succ_edge(f.blocks, p[i], p[i + 1]);
    }
    p
}

/// A walk goes on along an edge to a reachable block.
pub proof fn lemma_walk_extend(f: FuncView, p: Seq<BlockId>, b: BlockId)
    requires
        is_walk(f, p),
        reachable(f, b),
        edge(f.blocks, p.last(), b),
    ensures
        is_walk(f, p.push(b)),
        p.push(b).last() == b,
{
    let q = p.push(b);
    assert forall|i: int| 0 <= i < q.len() implies reachable(f, #[trigger] q[i]) by {
        if i < p.len() {
            assert(q[i] == p[i]);
        }
    }
    assert forall|i: int| 0 <= i < q.len() - 1 implies edge(f.blocks, #[trigger] q[i], q[i + 1]) by {
        if i < p.len() - 1 {
            assert(q[i] == p[i] && q[i + 1] == p[i + 1]);
        } else {
            assert(q[i] == p.last() && q[i + 1] == b);
        }
    }
}

/// The start of a walk is a walk.
pub proof fn lemma_walk_prefix(f: FuncView, p: Seq<BlockId>, n: int)
    requires
        is_walk(f, p),
        0 < n <= p.len(),
    ensures
        is_walk(f, p.take(n)),
        p.take(n).last() == p[n - 1],
{
    let q = p.take(n);
    assert forall|i: int| 0 <= i < q.len() implies reachable(f, #[trigger] q[i]) by {
        assert(q[i] == p[i]);
    }
    assert forall|i: int| 0 <= i < q.len() - 1 implies edge(f.blocks, #[trigger] q[i], q[i + 1]) by {
        assert(q[i] == p[i] && q[i + 1] == p[i + 1]);
    }
}

/// A walk to `p[i]` goes on as `p` does.
#[verifier::rlimit(40)]
#[verifier::spinoff_prover]
pub proof fn lemma_walk_join(f: FuncView, w: Seq<BlockId>, p: Seq<BlockId>, i: int)
    requires
        is_walk(f, w),
        is_walk(f, p),
        0 <= i < p.len(),
        w.last() == p[i],
    ensures
        is_walk(f, w + p.skip(i + 1)),
        (w + p.skip(i + 1)).last() == p.last(),
{
    let q = w + p.skip(i + 1);
    assert forall|k: int| 0 <= k < q.len() implies reachable(f, #[trigger] q[k]) by {
        if k < w.len() {
            assert(q[k] == w[k]);
        } else {
            assert(q[k] == p[k - w.len() + i + 1]);
        }
    }
    assert forall|k: int| 0 <= k < q.len() - 1 implies edge(f.blocks, #[trigger] q[k], q[k + 1]) by {
        if k + 1 < w.len() {
            assert(q[k] == w[k] && q[k + 1] == w[k + 1]);
        } else if k < w.len() {
            assert(q[k] == p[i] && q[k + 1] == p[i + 1]);
        } else {
            let m = k - w.len() + i + 1;
            assert(q[k] == p[m] && q[k + 1] == p[m + 1]);
        }
    }
    if p.skip(i + 1).len() == 0 {
        assert(q =~= w);
    }
}

/// What dominates a block is reachable.
pub proof fn lemma_dominator_reachable(f: FuncView, a: BlockId, b: BlockId)
    requires
        dominates(f, a, b),
    ensures
        reachable(f, a),
{
    let p = lemma_walk_to(f, b);
    assert(p.contains(a));
    let i = p.index_of(a);
    assert(reachable(f, p[i]));
}

/// A reachable block dominates itself, and the entry dominates it.
pub proof fn lemma_dominates_self(f: FuncView, b: BlockId)
    requires
        reachable(f, b),
    ensures
        dominates(f, b, b),
        dominates(f, f.entry, b),
{
    assert forall|p: Seq<BlockId>| #[trigger] is_walk(f, p) && p.last() == b implies p.contains(b)
        && p.contains(f.entry) by {
        assert(p[p.len() - 1] == b);
        assert(p[0] == f.entry);
    }
}

/// Only the entry dominates the entry.
pub proof fn lemma_entry_dominator(f: FuncView, a: BlockId)
    ensures
        dominates(f, a, f.entry) == (a == f.entry),
{
    lemma_entry_reachable(f);
    let p = seq![f.entry];
    assert(is_walk(f, p));
    if dominates(f, a, f.entry) {
        assert(p.contains(a));
    }
    lemma_dominates_self(f, f.entry);
}

/// A strict dominator of `b` dominates each reachable predecessor of `b`.
pub proof fn lemma_dominates_pred(f: FuncView, a: BlockId, q: BlockId, b: BlockId)
    requires
        strictly_dominates(f, a, b),
        reachable(f, q),
        edge(f.blocks, q, b),
    ensures
        dominates(f, a, q),
{
    assert forall|p: Seq<BlockId>| #[trigger] is_walk(f, p) && p.last() == q implies p.contains(
        a,
    ) by {
        lemma_walk_extend(f, p, b);
        let w = p.push(b);
        assert(w.contains(a));
        let i = w.index_of(a);
        assert(i < p.len());
        assert(p[i] == a);
    }
}

/// Dominance is transitive.
pub proof fn lemma_dominates_trans(f: FuncView, a: BlockId, b: BlockId, c: BlockId)
    requires
        dominates(f, a, b),
        dominates(f, b, c),
    ensures
        dominates(f, a, c),
{
    assert forall|p: Seq<BlockId>| #[trigger] is_walk(f, p) && p.last() == c implies p.contains(
        a,
    ) by {
        let i = p.index_of(b);
        lemma_walk_prefix(f, p, i + 1);
        let q = p.take(i + 1);
        assert(q.contains(a));
        let k = q.index_of(a);
        assert(p[k] == a);
    }
}

/// Two blocks that dominate each other are one block.
pub proof fn lemma_dominates_antisym(f: FuncView, a: BlockId, b: BlockId)
    requires
        dominates(f, a, b),
        dominates(f, b, a),
    ensures
        a == b,
{
    let p = lemma_walk_to(f, a);
    lemma_cut_short(f, a, b, p);
}

proof fn lemma_cut_short(f: FuncView, a: BlockId, b: BlockId, p: Seq<BlockId>)
    requires
        dominates(f, a, b),
        dominates(f, b, a),
        is_walk(f, p),
        p.last() == a,
    ensures
        a == b,
    decreases p.len(),
{
    if a != b {
        let i = p.index_of(b);
        lemma_walk_prefix(f, p, i + 1);
        let q = p.take(i + 1);
        assert(q.contains(a));
        let k = q.index_of(a);
        lemma_walk_prefix(f, p, k + 1);
        assert(p[k] == a);
        assert(p[p.len() - 1] == a);
        assert(i != p.len() - 1);
        lemma_cut_short(f, a, b, p.take(k + 1));
    }
}

/// Is `b` a key of the map of dominator sets?
pub open spec fn has_dom_entry(f: FuncView, b: BlockId) -> bool {
    b == f.entry || has_block(f.blocks, b)
}

type DomMap = Map<BlockId, IdSet<BlockId>>;

/// The reachable blocks in the set of each reachable predecessor of `b`.
spec fn in_meet(f: FuncView, doms: DomMap, b: BlockId, x: BlockId) -> bool {
    reachable(f, x) && forall|q: BlockId|
        reachable(f, q) && #[trigger] edge(f.blocks, q, b) ==> doms[q]@.contains(x)
}

/// What holds of the sets while they shrink towards the dominators.
spec fn dom_inv(f: FuncView, doms: DomMap) -> bool {
    &&& forall|b: BlockId| #[trigger] doms.contains_key(b) == has_dom_entry(f, b)
    &&& doms[f.entry]@ == set![f.entry]
    &&& forall|b: BlockId, x: BlockId|
        #![trigger doms[b]@.contains(x)]
        has_dom_entry(f, b) && doms[b]@.contains(x) ==> reachable(f, b) && reachable(f, x)
    &&& forall|b: BlockId, x: BlockId|
        #![trigger doms[b]@.contains(x)]
        has_dom_entry(f, b) && dominates(f, x, b) ==> doms[b]@.contains(x)
    &&& forall|b: BlockId, x: BlockId|
        #![trigger doms[b]@.contains(x)]
        has_dom_entry(f, b) && reachable(f, b) && b != f.entry && (x == b || in_meet(
            f,
            doms,
            b,
            x,
        )) ==> doms[b]@.contains(x)
}

/// Is the set of `b` what its predecessors say?
spec fn settled(f: FuncView, doms: DomMap, b: BlockId) -> bool {
    b != f.entry && reachable(f, b) ==> forall|x: BlockId| #[trigger]
        doms[b]@.contains(x) ==> x == b || in_meet(f, doms, b, x)
}

/// The sizes of the sets of the first `n` blocks, added up.
spec fn total(blocks: Seq<BlockView>, doms: DomMap, n: nat) -> nat
    decreases n,
{
    if n == 0 {
        0
    } else {
        total(blocks, doms, (n - 1) as nat) + doms[blocks[n - 1].id]@.len()
    }
}

proof fn lemma_total_shrinks(
    blocks: Seq<BlockView>,
    doms: DomMap,
    b: BlockId,
    s: IdSet<BlockId>,
    n: nat,
)
    requires
        n <= blocks.len(),
        s@.len() < doms[b]@.len(),
    ensures
        total(blocks, doms.insert(b, s), n) <= total(blocks, doms, n),
        (exists|i: int| 0 <= i < n && (#[trigger] blocks[i]).id == b) ==> total(
            blocks,
            doms.insert(b, s),
            n,
        ) < total(blocks, doms, n),
    decreases n,
{
    if n > 0 {
        lemma_total_shrinks(blocks, doms, b, s, (n - 1) as nat);
        if blocks[n - 1].id != b {
            assert((exists|i: int| 0 <= i < n && (#[trigger] blocks[i]).id == b) ==> (exists|i: int|
                0 <= i < n - 1 && (#[trigger] blocks[i]).id == b));
        }
    }
}

proof fn lemma_settled_is_dominance(f: FuncView, doms: DomMap, p: Seq<BlockId>, x: BlockId)
    requires
        dom_inv(f, doms),
        forall|i: int| 0 <= i < f.blocks.len() ==> settled(f, doms, (#[trigger] f.blocks[i]).id),
        is_walk(f, p),
        has_dom_entry(f, p.last()),
        doms[p.last()]@.contains(x),
    ensures
        p.contains(x),
    decreases p.len(),
{
    let b = p.last();
    assert(p[p.len() - 1] == b);
    if b == f.entry {
        assert(x == f.entry);
        assert(p[0] == x);
    } else if x != b {
        let i = choose|i: int| 0 <= i < f.blocks.len() && (#[trigger] f.blocks[i]).id == b;
        assert(settled(f, doms, f.blocks[i].id));
        assert(in_meet(f, doms, b, x));
        assert(p.len() > 1);
        let q = p[p.len() - 2];
        assert(edge(f.blocks, p[p.len() - 2], p[p.len() - 2 + 1]));
        assert(reachable(f, q));
        lemma_walk_prefix(f, p, p.len() - 1);
        let w = p.take(p.len() - 1);
        let k = choose|k: int|
            0 <= k < f.blocks.len() && (#[trigger] f.blocks[k]).id == q;
        assert(has_dom_entry(f, q));
        lemma_settled_is_dominance(f, doms, w, x);
        assert(p[w.index_of(x)] == x);
    }
}

/// The reachable blocks that are in the set of each reachable predecessor.
fn meet_of_preds(
    func: &Function,
    reach: &IdSet<BlockId>,
    preds: &IdMap<BlockId, Vec<BlockId>>,
    doms: &IdMap<BlockId, IdSet<BlockId>>,
    b: BlockId,
) -> (r: IdSet<BlockId>)
    requires
        forall|x: BlockId| #[trigger] reach@.contains(x) == reachable(func@, x),
        preds@.contains_key(b),
        preds@[b]@ == preds_of(func@.blocks, b),
        forall|x: BlockId| #[trigger] doms@.contains_key(x) == has_dom_entry(func@, x),
    ensures
        forall|x: BlockId| #[trigger] r@.contains(x) == in_meet(func@, doms@, b, x),
{
    let ghost f = func@;
    let mut out = reach.copied();
    let empty: Vec<BlockId> = Vec::new();
    let list: &Vec<BlockId> = match preds.get(&b) {
        Some(l) => l,
        None => &empty,
    };
    let mut i: usize = 0;
    while i < list.len()
        invariant
            f == func@,
            i <= list.len(),
            list@ == preds_of(f.blocks, b),
            forall|x: BlockId| #[trigger] reach@.contains(x) == reachable(f, x),
            forall|x: BlockId| #[trigger] doms@.contains_key(x) == has_dom_entry(f, x),
            forall|x: BlockId| #[trigger]
                out@.contains(x) == (reachable(f, x) && forall|k: int|
                    0 <= k < i && reachable(f, #[trigger] list@[k]) ==> doms@[list@[k]]@.contains(
                        x,
                    )),
        decreases list.len() - i,
    {
        let q = list[i];
        proof {
            assert(list@.contains(q));
            lemma_preds_are_edges(f.blocks, b, q);
            let k = choose|k: int|
                0 <= k < f.blocks.len() && (#[trigger] f.blocks[k]).id == q;
            assert(has_dom_entry(f, q));
        }
        if reach.contains(&q) {
            match doms.get(&q) {
                Some(d) => {
                    out = out.intersection(d);
                },
                None => {},
            }
        }
        i = i + 1;
    }
    proof {
        assert forall|x: BlockId| #[trigger] out@.contains(x) == in_meet(f, doms@, b, x) by {
            if out@.contains(x) {
                assert forall|q: BlockId|
                    reachable(f, q) && #[trigger] edge(f.blocks, q, b) implies doms@[q]@.contains(
                    x,
                ) by {
                    lemma_preds_are_edges(f.blocks, b, q);
                    let k = list@.index_of(q);
                    assert(list@[k] == q);
                }
            }
            if in_meet(f, doms@, b, x) {
                assert forall|k: int|
                    0 <= k < list@.len() && reachable(
                        f,
                        #[trigger] list@[k],
                    ) implies doms@[list@[k]]@.contains(x) by {
                    assert(list@.contains(list@[k]));
                    lemma_preds_are_edges(f.blocks, b, list@[k]);
                }
            }
        }
    }
    out
}

/// The dominators of every block, by iterating until nothing changes.
///
/// A block that cannot be reached from the entry has the empty set.
pub fn compute_dominators(func: &Function) -> (r: IdMap<BlockId, IdSet<BlockId>>)
    ensures
        forall|b: BlockId| #[trigger] r@.contains_key(b) == has_dom_entry(func@, b),
        forall|a: BlockId, b: BlockId|
            #![trigger r@[b]@.contains(a)]
            r@.contains_key(b) ==> r@[b]@.contains(a) == dominates(func@, a, b),
{
    let ghost f = func@;
    let reach = reachable_blocks(func);
    let preds = predecessors(func);
    let mut doms: IdMap<BlockId, IdSet<BlockId>> = IdMap::new();
    let mut own: IdSet<BlockId> = IdSet::new();
    let first: bool = own.insert(func.entry);
    proof {
        assert(own@ =~= set![f.entry]);
        lemma_entry_reachable(f);
    }
    doms.insert(func.entry, own);
    let mut i: usize = 0;
    while i < func.blocks.len()
        invariant
            f == func@,
            i <= func.blocks.len(),
            forall|x: BlockId| #[trigger] reach@.contains(x) == reachable(f, x),
            forall|b: BlockId| #[trigger] doms@.contains_key(b) == (b == f.entry || exists|k: int|
                0 <= k < i && (#[trigger] f.blocks[k]).id == b),
            doms@.contains_key(f.entry),
            doms@[f.entry]@ == set![f.entry],
            forall|b: BlockId|
                doms@.contains_key(b) && b != f.entry ==> (#[trigger] doms@[b])@ == if reachable(
                    f,
                    b,
                ) {
                    reach@
                } else {
                    Set::empty()
                },
        decreases func.blocks.len() - i,
    {
        let id = func.blocks[i].id;
        proof {
            assert(f.blocks[i as int].id == id);
        }
        let ghost before = doms@;
        if !same_id(id, func.entry) {
            if reach.contains(&id) {
                doms.insert(id, reach.copied());
            } else {
                doms.insert(id, IdSet::new());
            }
        }
        proof {
            assert forall|b: BlockId| #[trigger] doms@.contains_key(b) == (b == f.entry || exists|
                k: int,
            |
                0 <= k < i + 1 && (#[trigger] f.blocks[k]).id == b) by {
                if before.contains_key(b) && b != f.entry {
                    let k = choose|k: int| 0 <= k < i && (#[trigger] f.blocks[k]).id == b;
                    assert(f.blocks[k].id == b);
                }
            }
        }
        i = i + 1;
    }
    proof {
        lemma_start_inv(f, doms@, reach@);
    }
    let mut changed: bool = true;
    while changed
        invariant
            f == func@,
            forall|x: BlockId| #[trigger] reach@.contains(x) == reachable(f, x),
            forall|b: BlockId| #[trigger] preds@.contains_key(b) == mentioned(f.blocks, b),
            forall|b: BlockId|
                preds@.contains_key(b) ==> (#[trigger] preds@[b])@ == preds_of(f.blocks, b),
            dom_inv(f, doms@),
            !changed ==> forall|k: int|
                0 <= k < f.blocks.len() ==> settled(f, doms@, (#[trigger] f.blocks[k]).id),
        decreases total(f.blocks, doms@, f.blocks.len()), (if changed { 1nat } else { 0nat }),
    {
        changed = false;
        let ghost start = total(f.blocks, doms@, f.blocks.len());
        let mut n: usize = 0;
        while n < func.blocks.len()
            invariant
                f == func@,
                n <= func.blocks.len(),
                forall|x: BlockId| #[trigger] reach@.contains(x) == reachable(f, x),
                forall|b: BlockId| #[trigger] preds@.contains_key(b) == mentioned(f.blocks, b),
                forall|b: BlockId|
                    preds@.contains_key(b) ==> (#[trigger] preds@[b])@ == preds_of(f.blocks, b),
                dom_inv(f, doms@),
                total(f.blocks, doms@, f.blocks.len()) <= start,
                changed ==> total(f.blocks, doms@, f.blocks.len()) < start,
                !changed ==> forall|k: int|
                    0 <= k < n ==> settled(f, doms@, (#[trigger] f.blocks[k]).id),
            decreases func.blocks.len() - n,
        {
            let id = func.blocks[n].id;
            proof {
                assert(f.blocks[n as int].id == id);
                assert(has_block(f.blocks, id));
            }
            if !same_id(id, func.entry) && reach.contains(&id) {
                let mut fresh = meet_of_preds(func, &reach, &preds, &doms, id);
                let ghost meet = fresh@;
                let extra: bool = fresh.insert(id);
                let same: bool = match doms.get(&id) {
                    Some(held) => held.equals(&fresh),
                    None => false,
                };
                proof {
                    assert forall|x: BlockId| fresh@.contains(x) implies doms@[id]@.contains(
                        x,
                    ) by {
                        if x != id {
                            assert(meet.contains(x));
                        }
                    }
                    assert(fresh@.subset_of(doms@[id]@));
                }
                if !same {
                    let ghost before = doms@;
                    let ghost set = fresh;
                    proof {
                        doms@[id].order_facts();
                        vstd::set_lib::lemma_len_subset(fresh@, doms@[id]@);
                        if fresh@.len() == doms@[id]@.len() {
                            vstd::set_lib::lemma_subset_equality(fresh@, doms@[id]@);
                        }
                        lemma_total_shrinks(f.blocks, doms@, id, fresh, f.blocks.len());
                        lemma_step_inv(f, doms@, id, fresh);
                    }
                    doms.insert(id, fresh);
                    changed = true;
                } else {
                    proof {
                        assert(settled(f, doms@, id)) by {
                            assert forall|x: BlockId| #[trigger]
                                doms@[id]@.contains(x) implies x == id || in_meet(
                                f,
                                doms@,
                                id,
                                x,
                            ) by {
                                assert(fresh@.contains(x));
                                if x != id {
                                    assert(meet.contains(x));
                                }
                            }
                        }
                    }
                }
            }
            n = n + 1;
        }
    }
    proof {
        assert forall|a: BlockId, b: BlockId|
            #![trigger doms@[b]@.contains(a)]
            doms@.contains_key(b) implies doms@[b]@.contains(a) == dominates(f, a, b) by {
            if doms@[b]@.contains(a) {
                assert(reachable(f, b));
                assert forall|p: Seq<BlockId>| #[trigger]
                    is_walk(f, p) && p.last() == b implies p.contains(a) by {
                    lemma_settled_is_dominance(f, doms@, p, a);
                }
            }
        }
    }
    doms
}

proof fn lemma_start_inv(f: FuncView, doms: DomMap, reach: Set<BlockId>)
    requires
        forall|x: BlockId| #[trigger] reach.contains(x) == reachable(f, x),
        forall|b: BlockId| #[trigger] doms.contains_key(b) == (b == f.entry || exists|k: int|
            0 <= k < f.blocks.len() && (#[trigger] f.blocks[k]).id == b),
        doms.contains_key(f.entry),
        doms[f.entry]@ == set![f.entry],
        forall|b: BlockId|
            doms.contains_key(b) && b != f.entry ==> (#[trigger] doms[b])@ == if reachable(f, b) {
                reach
            } else {
                Set::empty()
            },
    ensures
        dom_inv(f, doms),
{
    lemma_entry_reachable(f);
    assert forall|b: BlockId| #[trigger] doms.contains_key(b) == has_dom_entry(f, b) by {}
    assert forall|b: BlockId, x: BlockId|
        #![trigger doms[b]@.contains(x)]
        has_dom_entry(f, b) && doms[b]@.contains(x) implies reachable(f, b) && reachable(f, x) by {
        assert(doms.contains_key(b));
    }
    assert forall|b: BlockId, x: BlockId|
        #![trigger doms[b]@.contains(x)]
        has_dom_entry(f, b) && dominates(f, x, b) implies doms[b]@.contains(x) by {
        assert(doms.contains_key(b));
        lemma_dominator_reachable(f, x, b);
        lemma_entry_dominator(f, x);
    }
    assert forall|b: BlockId, x: BlockId|
        #![trigger doms[b]@.contains(x)]
        has_dom_entry(f, b) && reachable(f, b) && b != f.entry && (x == b || in_meet(
            f,
            doms,
            b,
            x,
        )) implies doms[b]@.contains(x) by {
        assert(doms.contains_key(b));
    }
}

proof fn lemma_step_inv(f: FuncView, doms: DomMap, b: BlockId, s: IdSet<BlockId>)
    requires
        dom_inv(f, doms),
        b != f.entry,
        reachable(f, b),
        has_block(f.blocks, b),
        s@.subset_of(doms[b]@),
        forall|x: BlockId| #[trigger] s@.contains(x) == (x == b || in_meet(f, doms, b, x)),
    ensures
        dom_inv(f, doms.insert(b, s)),
{
    let after = doms.insert(b, s);
    assert forall|c: BlockId, x: BlockId| in_meet(f, after, c, x) implies #[trigger] in_meet(
        f,
        doms,
        c,
        x,
    ) by {
        assert forall|q: BlockId|
            reachable(f, q) && #[trigger] edge(f.blocks, q, c) implies doms[q]@.contains(x) by {
            assert(after[q]@.contains(x));
            if q == b {
                assert(s@.contains(x));
            }
        }
    }
    assert forall|c: BlockId, x: BlockId|
        #![trigger after[c]@.contains(x)]
        has_dom_entry(f, c) && after[c]@.contains(x) implies reachable(f, c) && reachable(f, x) by {
        assert(doms[c]@.contains(x));
    }
    assert forall|c: BlockId, x: BlockId|
        #![trigger after[c]@.contains(x)]
        has_dom_entry(f, c) && dominates(f, x, c) implies after[c]@.contains(x) by {
        assert(doms[c]@.contains(x));
        if c == b && x != b {
            assert(in_meet(f, doms, b, x)) by {
                lemma_dominator_reachable(f, x, b);
                assert forall|q: BlockId|
                    reachable(f, q) && #[trigger] edge(f.blocks, q, b) implies doms[q]@.contains(
                    x,
                ) by {
                    lemma_dominates_pred(f, x, q, b);
                    let k = choose|k: int|
                        0 <= k < f.blocks.len() && (#[trigger] f.blocks[k]).id == q;
                    assert(has_dom_entry(f, q));
                }
            }
        }
    }
    assert forall|c: BlockId, x: BlockId|
        #![trigger after[c]@.contains(x)]
        has_dom_entry(f, c) && reachable(f, c) && c != f.entry && (x == c || in_meet(
            f,
            after,
            c,
            x,
        )) implies after[c]@.contains(x) by {
        if x != c {
            assert(in_meet(f, doms, c, x));
        }
        assert(doms[c]@.contains(x));
    }
}

/// Is `d` the closest strict dominator of `b`?
pub open spec fn is_idom(f: FuncView, d: BlockId, b: BlockId) -> bool {
    &&& strictly_dominates(f, d, b)
    &&& forall|c: BlockId| #[trigger] strictly_dominates(f, c, b) ==> dominates(f, c, d)
}

/// Every reachable block but the entry has an immediate dominator.
pub proof fn lemma_idom_exists(f: FuncView, b: BlockId) -> (d: BlockId)
    requires
        reachable(f, b),
        b != f.entry,
    ensures
        is_idom(f, d, b),
{
    let p = lemma_walk_to(f, b);
    lemma_dominates_self(f, b);
    assert(p[0] == f.entry);
    let i = lemma_last_dominator(f, b, p, p.len() - 1);
    let d = p[i];
    assert forall|c: BlockId| #[trigger] strictly_dominates(f, c, b) implies dominates(f, c, d) by {
        if c != d {
            assert(reachable(f, p[i]));
            assert forall|w: Seq<BlockId>| #[trigger] is_walk(f, w) && w.last() == d implies w.contains(
                c,
            ) by {
                lemma_walk_join(f, w, p, i);
                let q = w + p.skip(i + 1);
                assert(q.contains(c));
                let k = q.index_of(c);
                if k >= w.len() {
                    let m = k - w.len() + i + 1;
                    assert(p[m] == c);
                    assert(!strictly_dominates(f, p[m], b));
                } else {
                    assert(w[k] == c);
                }
            }
        } else {
            assert(reachable(f, p[i]));
            lemma_dominates_self(f, d);
        }
    }
    d
}

proof fn lemma_last_dominator(f: FuncView, b: BlockId, p: Seq<BlockId>, from: int) -> (i: int)
    requires
        is_walk(f, p),
        0 <= from < p.len(),
        strictly_dominates(f, p[0], b),
        forall|k: int| from < k < p.len() ==> !strictly_dominates(f, #[trigger] p[k], b),
    ensures
        0 <= i < p.len(),
        strictly_dominates(f, p[i], b),
        forall|k: int| i < k < p.len() ==> !strictly_dominates(f, #[trigger] p[k], b),
    decreases from,
{
    if strictly_dominates(f, p[from], b) {
        from
    } else {
        lemma_last_dominator(f, b, p, from - 1)
    }
}

/// A block has at most one immediate dominator.
pub proof fn lemma_idom_unique(f: FuncView, d: BlockId, e: BlockId, b: BlockId)
    requires
        is_idom(f, d, b),
        is_idom(f, e, b),
    ensures
        d == e,
{
    assert(strictly_dominates(f, d, b));
    assert(strictly_dominates(f, e, b));
    lemma_dominates_antisym(f, d, e);
}

/// What dominates `b` is `b` or dominates its immediate dominator.
pub proof fn lemma_above_idom(f: FuncView, c: BlockId, d: BlockId, b: BlockId)
    requires
        is_idom(f, d, b),
    ensures
        dominates(f, c, b) == (c == b || dominates(f, c, d)),
        !dominates(f, b, d),
{
    lemma_dominates_self(f, b);
    if dominates(f, c, b) && c != b {
        assert(strictly_dominates(f, c, b));
    }
    if dominates(f, c, d) {
        lemma_dominates_trans(f, c, d, b);
    }
    if dominates(f, b, d) {
        lemma_dominates_antisym(f, b, d);
    }
}

/// Is `b` a key of the map of immediate dominators?
pub open spec fn has_idom_entry(f: FuncView, b: BlockId) -> bool {
    b != f.entry && has_block(f.blocks, b) && reachable(f, b)
}

/// What the map of immediate dominators holds.
pub open spec fn idom_map(f: FuncView, m: Map<BlockId, BlockId>) -> bool {
    &&& forall|b: BlockId| #[trigger] m.contains_key(b) == has_idom_entry(f, b)
    &&& forall|b: BlockId| m.contains_key(b) ==> is_idom(f, #[trigger] m[b], b)
}

/// Among the dominators of `b` in `mine`, the one that all others dominate.
fn closest_dominator(
    func: &Function,
    doms: &IdMap<BlockId, IdSet<BlockId>>,
    mine: &Vec<BlockId>,
    b: BlockId,
) -> (r: Option<BlockId>)
    requires
        forall|x: BlockId| #[trigger] doms@.contains_key(x) == has_dom_entry(func@, x),
        forall|x: BlockId, y: BlockId|
            #![trigger doms@[y]@.contains(x)]
            doms@.contains_key(y) ==> doms@[y]@.contains(x) == dominates(func@, x, y),
        forall|x: BlockId| #[trigger] mine@.contains(x) == dominates(func@, x, b),
        reachable(func@, b),
        b != func@.entry,
        forall|x: BlockId| #[trigger] dominates(func@, x, b) ==> has_dom_entry(func@, x),
    ensures
        r matches Some(d) && is_idom(func@, d, b),
{
    let ghost f = func@;
    let mut i: usize = 0;
    while i < mine.len()
        invariant
            f == func@,
            i <= mine.len(),
            forall|x: BlockId| #[trigger] doms@.contains_key(x) == has_dom_entry(f, x),
            forall|x: BlockId, y: BlockId|
                #![trigger doms@[y]@.contains(x)]
                doms@.contains_key(y) ==> doms@[y]@.contains(x) == dominates(f, x, y),
            forall|x: BlockId| #[trigger] mine@.contains(x) == dominates(f, x, b),
            forall|x: BlockId| #[trigger] dominates(f, x, b) ==> has_dom_entry(f, x),
            forall|k: int| 0 <= k < i ==> !is_idom(f, #[trigger] mine@[k], b),
        decreases mine.len() - i,
    {
        let cand = mine[i];
        proof {
            assert(mine@.contains(cand));
        }
        if !same_id(cand, b) {
            let mut all: bool = true;
            match doms.get(&cand) {
                Some(above) => {
                    let mut k: usize = 0;
                    while k < mine.len()
                        invariant
                            f == func@,
                            k <= mine.len(),
                            forall|x: BlockId| above@.contains(x) == dominates(f, x, cand),
                            forall|x: BlockId| #[trigger] mine@.contains(x) == dominates(f, x, b),
                            dominates(f, cand, b),
                            all == (forall|m: int|
                                0 <= m < k && #[trigger] mine@[m] != b ==> dominates(
                                    f,
                                    mine@[m],
                                    cand,
                                )),
                        decreases mine.len() - k,
                    {
                        let other = mine[k];
                        proof {
                            lemma_dominator_reachable(f, cand, b);
                            lemma_dominates_self(f, cand);
                        }
                        if !same_id(other, b) && !same_id(other, cand) && !above.contains(&other) {
                            all = false;
                        }
                        k = k + 1;
                    }
                },
                None => {
                    all = false;
                },
            }
            if all {
                proof {
                    assert forall|c: BlockId| #[trigger] strictly_dominates(f, c, b) implies dominates(
                        f,
                        c,
                        cand,
                    ) by {
                        assert(mine@.contains(c));
                        let m = mine@.index_of(c);
                        assert(mine@[m] == c);
                    }
                }
                return Some(cand);
            }
            proof {
                if is_idom(f, cand, b) {
                    assert forall|m: int|
                        0 <= m < mine@.len() && #[trigger] mine@[m] != b implies dominates(
                        f,
                        mine@[m],
                        cand,
                    ) by {
                        assert(mine@.contains(mine@[m]));
                        assert(strictly_dominates(f, mine@[m], b));
                    }
                }
            }
        }
        i = i + 1;
    }
    proof {
        let d = lemma_idom_exists(f, b);
        assert(dominates(f, d, b));
        assert(mine@.contains(d));
        let k = mine@.index_of(d);
        assert(is_idom(f, mine@[k], b));
    }
    None
}

/// The immediate dominator of every reachable block but the entry.
pub fn compute_immediate_dominators(func: &Function) -> (r: IdMap<BlockId, BlockId>)
    ensures
        idom_map(func@, r@),
{
    let ghost f = func@;
    let doms = compute_dominators(func);
    let mut idoms: IdMap<BlockId, BlockId> = IdMap::new();
    let mut i: usize = 0;
    while i < func.blocks.len()
        invariant
            f == func@,
            i <= func.blocks.len(),
            forall|x: BlockId| #[trigger] doms@.contains_key(x) == has_dom_entry(f, x),
            forall|x: BlockId, y: BlockId|
                #![trigger doms@[y]@.contains(x)]
                doms@.contains_key(y) ==> doms@[y]@.contains(x) == dominates(f, x, y),
            forall|b: BlockId| #[trigger] idoms@.contains_key(b) == (has_idom_entry(f, b) && exists|
                k: int,
            |
                0 <= k < i && (#[trigger] f.blocks[k]).id == b),
            forall|b: BlockId| idoms@.contains_key(b) ==> is_idom(f, #[trigger] idoms@[b], b),
        decreases func.blocks.len() - i,
    {
        let id = func.blocks[i].id;
        let ghost before = idoms@;
        proof {
            assert(f.blocks[i as int].id == id);
            assert(has_block(f.blocks, id));
        }
        if !same_id(id, func.entry) {
            match doms.get(&id) {
                Some(mine) => {
                    if !mine.is_empty() {
                        proof {
                            mine.order_facts();
                            assert(exists|x: BlockId| mine@.contains(x)) by {
                                if forall|x: BlockId| !mine@.contains(x) {
                                    assert(mine@ =~= Set::<BlockId>::empty());
                                }
                            }
                            let x = choose|x: BlockId| mine@.contains(x);
                            assert(dominates(f, x, id));
                            assert forall|x: BlockId| #[trigger] dominates(f, x, id) implies has_dom_entry(
                                f,
                                x,
                            ) by {
                                lemma_dominator_is_block(f, x, id);
                            }
                        }
                        let list = mine.items();
                        proof {
                            assert forall|x: BlockId| #[trigger] list@.contains(x) == dominates(
                                f,
                                x,
                                id,
                            ) by {
                                assert(list@.to_set().contains(x) == list@.contains(x));
                            }
                        }
                        let found = closest_dominator(func, &doms, list, id);
                        if let Some(d) = found {
                            idoms.insert(id, d);
                        }
                    } else {
                        proof {
                            if reachable(f, id) {
                                lemma_dominates_self(f, id);
                                assert(mine@.contains(id));
                            }
                        }
                    }
                },
                None => {},
            }
        }
        proof {
            assert forall|b: BlockId| #[trigger] idoms@.contains_key(b) == (has_idom_entry(f, b)
                && exists|k: int| 0 <= k < i + 1 && (#[trigger] f.blocks[k]).id == b) by {
                if before.contains_key(b) {
                    let k = choose|k: int| 0 <= k < i && (#[trigger] f.blocks[k]).id == b;
                    assert(f.blocks[k].id == b);
                }
            }
        }
        i = i + 1;
    }
    proof {
        assert forall|b: BlockId| #[trigger] idoms@.contains_key(b) == has_idom_entry(f, b) by {}
    }
    idoms
}

/// A dominator of an existing block is the entry or a block itself.
pub proof fn lemma_dominator_is_block(f: FuncView, a: BlockId, b: BlockId)
    requires
        dominates(f, a, b),
        has_dom_entry(f, b),
    ensures
        has_dom_entry(f, a),
{
    let p = lemma_walk_to(f, b);
    assert(p.contains(a));
    let i = p.index_of(a);
    if i < p.len() - 1 {
        assert(edge(f.blocks, p[i], p[i + 1]));
        let k = choose|k: int| 0 <= k < f.blocks.len() && (#[trigger] f.blocks[k]).id == p[i];
        assert(f.blocks[k].id == a);
    }
}

} // verus!
