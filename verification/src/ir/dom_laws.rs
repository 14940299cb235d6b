//! Where dominance ends.

use crate::ir::cfg::{edge, lemma_preds_are_edges, preds_of, reachable};
use crate::ir::dom::{dominates, is_walk, lemma_walk_prefix, lemma_walk_to, strictly_dominates};
use crate::ir::domtree::{in_frontier, reachable_preds};
use crate::ir::inst::{has_block, BlockId, FuncView};
use vstd::prelude::*;

verus! {

proof fn lemma_first_visit(w: Seq<BlockId>, x: BlockId, n: int) -> (i: int)
    requires
        0 < n <= w.len(),
        exists|k: int| 0 <= k < n && #[trigger] w[k] == x,
    ensures
        0 <= i < n,
        w[i] == x,
        forall|k: int| 0 <= k < i ==> #[trigger] w[k] != x,
    decreases n,
{
    if exists|k: int| 0 <= k < n - 1 && #[trigger] w[k] == x {
        lemma_first_visit(w, x, n - 1)
    } else {
        n - 1
    }
}

/// Where one branch into a block comes from what `b` dominates and `b` does not
/// strictly dominate the block, another branch leads there from elsewhere.
proof fn lemma_another_way(f: FuncView, b: BlockId, x: BlockId, p: BlockId) -> (q: BlockId)
    requires
        x != f.entry,
        reachable(f, x),
        !strictly_dominates(f, b, x),
        reachable(f, p),
        edge(f.blocks, p, x),
        dominates(f, b, p),
    ensures
        q != p,
        reachable(f, q),
        edge(f.blocks, q, x),
{
    if exists|q: BlockId| q != p && reachable(f, q) && #[trigger] edge(f.blocks, q, x) {
        choose|q: BlockId| q != p && reachable(f, q) && #[trigger] edge(f.blocks, q, x)
    } else {
        assert forall|u: Seq<BlockId>| #[trigger] is_walk(f, u) && u.last() == x implies u.contains(b) by {
            let n = u.len() - 1;
            assert(edge(f.blocks, u[n - 1], u[n - 1 + 1]));
            assert(reachable(f, u[n - 1]));
            lemma_walk_prefix(f, u, n);
            assert(u.take(n).contains(b));
            let k = u.take(n).index_of(b);
            assert(u[k] == b);
        }
        assert(b == x);
        let w = lemma_walk_to(f, x);
        assert(w[w.len() - 1] == x);
        let i = lemma_first_visit(w, x, w.len() as int);
        assert(edge(f.blocks, w[i - 1], w[i - 1 + 1]));
        assert(reachable(f, w[i - 1]));
        lemma_walk_prefix(f, w, i);
        assert(w.take(i).contains(x));
        let k = w.take(i).index_of(x);
        assert(w[k] == x);
        p
    }
}

/// But for the entry, the frontier of a block is where its dominance ends: the
/// blocks that it does not strictly dominate, with a branch into them from a block
/// that it dominates.
pub proof fn frontiers_are_where_dominance_ends(f: FuncView, b: BlockId, x: BlockId)
    requires
        x != f.entry,
        has_block(f.blocks, x),
        reachable(f, x),
    ensures
        in_frontier(f, b, x) <==> !strictly_dominates(f, b, x) && exists|p: BlockId|
            reachable(f, p) && #[trigger] edge(f.blocks, p, x) && dominates(f, b, p),
{
    if !strictly_dominates(f, b, x) && exists|p: BlockId|
        reachable(f, p) && #[trigger] edge(f.blocks, p, x) && dominates(f, b, p) {
        let p = choose|p: BlockId|
            reachable(f, p) && #[trigger] edge(f.blocks, p, x) && dominates(f, b, p);
        let q = lemma_another_way(f, b, x, p);
        let s = preds_of(f.blocks, x);
        let keep = |p: BlockId| reachable(f, p);
        lemma_preds_are_edges(f.blocks, x, p);
        lemma_preds_are_edges(f.blocks, x, q);
        s.lemma_filter_contains(keep, s.index_of(p));
        s.lemma_filter_contains(keep, s.index_of(q));
        let r = reachable_preds(f, x);
        assert(r =~= s.filter(keep));
        assert(r.contains(p) && r.contains(q));
        assert(r.index_of(p) != r.index_of(q));
    }
}

} // verus!
