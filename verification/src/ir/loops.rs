//! Natural loops.

use crate::ids::{same_id, IdMap, IdSet, Id};
use crate::ir::cfg::{
    edge, hits, lemma_hits, lemma_preds_are_edges, lemma_reachable_step, mentioned, predecessors,
    preds_of, reachable, succs, targets_of,
};
use crate::ir::dom::{
    compute_dominators, dominates, has_dom_entry, is_walk, lemma_dominates_self, lemma_walk_extend,
};
use crate::ir::inst::{
    block_pos, has_block, is_first_block, lemma_block_pos, BlockId, FuncView, Function,
};
use crate::lists::{sort_ids, sorted_ids};
use vstd::prelude::*;

verus! {

/// A natural loop: its header, its blocks, and where it branches back from.
#[derive(Debug)]
pub struct NaturalLoop {
    /// The only way into the loop.
    pub header: BlockId,
    /// Every block of the loop, the header included.
    pub body: IdSet<BlockId>,
    /// The blocks with an edge back to the header, ordered by number, once for
    /// each such edge.
    pub latches: Vec<BlockId>,
}

/// Is there an edge from `l` back to `h`, a dominator of `l`?
pub open spec fn back_edge(f: FuncView, l: BlockId, h: BlockId) -> bool {
    edge(f.blocks, l, h) && dominates(f, h, l)
}

/// The sources among the first `n` blocks of the edges back to `h`, in block
/// order, once for each edge.
pub open spec fn back_sources(f: FuncView, n: nat, h: BlockId) -> Seq<BlockId>
    decreases n,
{
    if n == 0 {
        Seq::empty()
    } else {
        let b = f.blocks[n - 1];
        let before = back_sources(f, (n - 1) as nat, h);
        if dominates(f, h, b.id) {
            before + hits(targets_of(b), h, b.id)
        } else {
            before
        }
    }
}

/// Does `p` lead along edges from `x` to a latch of `h` without coming by `h`?
pub open spec fn leads_back(f: FuncView, h: BlockId, x: BlockId, p: Seq<BlockId>) -> bool {
    &&& p.len() > 0
    &&& p[0] == x
    &&& back_edge(f, p.last(), h)
    &&& forall|i: int| 0 <= i < p.len() ==> #[trigger] p[i] != h
    &&& forall|i: int| 0 <= i < p.len() - 1 ==> edge(f.blocks, #[trigger] p[i], p[i + 1])
}

/// Is `x` the header `h`, or can it reach a latch without coming by `h`?
pub open spec fn in_loop(f: FuncView, h: BlockId, x: BlockId) -> bool {
    x == h || exists|p: Seq<BlockId>| leads_back(f, h, x, p)
}

/// Is `lp` the natural loop of its header?
pub open spec fn is_loop(f: FuncView, lp: NaturalLoop) -> bool {
    &&& exists|l: BlockId| back_edge(f, l, lp.header)
    &&& forall|x: BlockId| #[trigger] lp.body@.contains(x) == in_loop(f, lp.header, x)
    &&& sorted_ids(lp.latches@)
    &&& lp.latches@.to_multiset() == back_sources(f, f.blocks.len(), lp.header).to_multiset()
}

/// The sources of the edges back to `h` are its latches.
pub proof fn lemma_back_sources(f: FuncView, n: nat, h: BlockId, x: BlockId)
    requires
        n <= f.blocks.len(),
    ensures
        back_sources(f, n, h).contains(x) == (dominates(f, h, x) && exists|i: int|
            0 <= i < n && (#[trigger] f.blocks[i]).id == x && targets_of(f.blocks[i]).contains(h)),
    decreases n,
{
    if n > 0 {
        let m = n - 1;
        let b = f.blocks[m];
        let s = back_sources(f, m as nat, h);
        lemma_back_sources(f, m as nat, h, x);
        lemma_hits(targets_of(b), h, b.id, x);
        let t = hits(targets_of(b), h, b.id);
        if dominates(f, h, b.id) {
            if s.contains(x) {
                assert((s + t)[s.index_of(x)] == x);
            }
            if t.contains(x) {
                assert((s + t)[s.len() + t.index_of(x)] == x);
            }
            if (s + t).contains(x) {
                let k = (s + t).index_of(x);
                if k < s.len() {
                    assert(s[k] == x);
                } else {
                    assert(t[k - s.len()] == x);
                }
            }
        }
    }
}

fn collect_latches(
    func: &Function,
    doms: &IdMap<BlockId, IdSet<BlockId>>,
    header: BlockId,
) -> (r: Vec<BlockId>)
    requires
        forall|b: BlockId| #[trigger] doms@.contains_key(b) == has_dom_entry(func@, b),
        forall|a: BlockId, b: BlockId|
            #![trigger doms@[b]@.contains(a)]
            doms@.contains_key(b) ==> doms@[b]@.contains(a) == dominates(func@, a, b),
    ensures
        r@ == back_sources(func@, func@.blocks.len(), header),
{
    let ghost f = func@;
    let mut out: Vec<BlockId> = Vec::new();
    let mut i: usize = 0;
    while i < func.blocks.len()
        invariant
            f == func@,
            i <= func.blocks.len(),
            forall|b: BlockId| #[trigger] doms@.contains_key(b) == has_dom_entry(f, b),
            forall|a: BlockId, b: BlockId|
                #![trigger doms@[b]@.contains(a)]
                doms@.contains_key(b) ==> doms@[b]@.contains(a) == dominates(f, a, b),
            out@ == back_sources(f, i as nat, header),
        decreases func.blocks.len() - i,
    {
        let id = func.blocks[i].id;
        let targets = func.blocks[i].targets();
        proof {
            assert(f.blocks[i as int].id == id);
            assert(has_block(f.blocks, id));
        }
        let inside: bool = match doms.get(&id) {
            Some(d) => d.contains(&header),
            None => false,
        };
        if inside {
            let ghost before = out@;
            let mut j: usize = 0;
            proof {
                assert(targets@.take(0).len() == 0);
                assert(before + hits(targets@.take(0), header, id) =~= before);
            }
            while j < targets.len()
                invariant
                    j <= targets.len(),
                    out@ == before + hits(targets@.take(j as int), header, id),
                decreases targets.len() - j,
            {
                proof {
                    assert(targets@.take(j + 1).drop_last() =~= targets@.take(j as int));
                    assert(targets@.take(j + 1).last() == targets@[j as int]);
                }
                if same_id(targets[j], header) {
                    out.push(id);
                }
                proof {
                    assert(out@ =~= before + hits(targets@.take(j + 1), header, id));
                }
                j = j + 1;
            }
            proof {
                assert(targets@.take(targets@.len() as int) =~= targets@);
            }
        }
        i = i + 1;
    }
    out
}

/// A block before a block that leads back leads back too.
/// What leads to a block of a loop other than its header is in the loop.
pub proof fn lemma_leads_back_from(f: FuncView, h: BlockId, q: BlockId, x: BlockId)
    requires
        q != h,
        x != h,
        in_loop(f, h, x),
        edge(f.blocks, q, x),
    ensures
        in_loop(f, h, q),
{
    let p = choose|p: Seq<BlockId>| leads_back(f, h, x, p);
    let w = seq![q] + p;
    assert(leads_back(f, h, q, w)) by {
        assert(w.last() == p.last());
        assert forall|i: int| 0 <= i < w.len() implies #[trigger] w[i] != h by {
            if i > 0 {
                assert(w[i] == p[i - 1]);
            }
        }
        assert forall|i: int| 0 <= i < w.len() - 1 implies edge(
            f.blocks,
            #[trigger] w[i],
            w[i + 1],
        ) by {
            if i > 0 {
                assert(w[i] == p[i - 1] && w[i + 1] == p[i - 1 + 1]);
            } else {
                assert(w[0] == q && w[1] == x);
            }
        }
    }
}

proof fn lemma_closed_loop(f: FuncView, h: BlockId, s: Set<BlockId>, p: Seq<BlockId>, i: int)
    requires
        forall|l: BlockId| #[trigger] back_edge(f, l, h) ==> s.contains(l),
        forall|x: BlockId, q: BlockId|
            s.contains(x) && x != h && q != h && #[trigger] edge(f.blocks, q, x) ==> s.contains(q),
        leads_back(f, h, p[0], p),
        0 <= i < p.len(),
    ensures
        s.contains(p[i]),
    decreases p.len() - i,
{
    if i == p.len() - 1 {
        assert(back_edge(f, p.last(), h));
    } else {
        lemma_closed_loop(f, h, s, p, i + 1);
        assert(edge(f.blocks, p[i], p[i + 1]));
        assert(p[i + 1] != h && p[i] != h);
    }
}

/// How many different blocks a loop may hold.
pub proof fn lemma_loop_size(f: FuncView, h: BlockId, s: Seq<BlockId>)
    requires
        s.no_duplicates(),
        forall|i: int| 0 <= i < s.len() ==> s[i] == h || has_block(f.blocks, #[trigger] s[i]),
    ensures
        s.len() <= f.blocks.len() + 1,
{
    let ids = Seq::new(f.blocks.len(), |i: int| f.blocks[i].id).push(h);
    assert forall|x: BlockId| s.to_set().contains(x) implies ids.to_set().contains(x) by {
        let i = s.index_of(x);
        assert(s[i] == x);
        if x == h {
            assert(ids[f.blocks.len() as int] == x);
        } else {
            let k = choose|k: int| 0 <= k < f.blocks.len() && (#[trigger] f.blocks[k]).id == x;
            assert(ids[k] == x);
        }
    }
    s.unique_seq_to_set();
    ids.lemma_cardinality_of_set();
    vstd::seq_lib::seq_to_set_is_finite(ids);
    vstd::set_lib::lemma_len_subset(s.to_set(), ids.to_set());
}

proof fn lemma_edge_source_is_block(f: FuncView, a: BlockId, b: BlockId)
    requires
        edge(f.blocks, a, b),
    ensures
        has_block(f.blocks, a),
{
    let k = choose|k: int|
        0 <= k < f.blocks.len() && (#[trigger] f.blocks[k]).id == a && targets_of(
            f.blocks[k],
        ).contains(b);
    assert(f.blocks[k].id == a);
}

/// The header with everything that reaches a latch without coming by it.
fn loop_body(
    func: &Function,
    preds: &IdMap<BlockId, Vec<BlockId>>,
    header: BlockId,
    latches: &Vec<BlockId>,
) -> (r: IdSet<BlockId>)
    requires
        forall|b: BlockId| #[trigger] preds@.contains_key(b) == mentioned(func@.blocks, b),
        forall|b: BlockId|
            preds@.contains_key(b) ==> (#[trigger] preds@[b])@ == preds_of(func@.blocks, b),
        forall|l: BlockId| #[trigger] latches@.contains(l) == back_edge(func@, l, header),
    ensures
        forall|x: BlockId| #[trigger] r@.contains(x) == in_loop(func@, header, x),
{
    let ghost f = func@;
    let mut body: IdSet<BlockId> = IdSet::new();
    let first: bool = body.insert(header);
    let mut j: usize = 0;
    while j < latches.len()
        invariant
            f == func@,
            j <= latches.len(),
            body.order().len() > 0,
            body.order()[0] == header,
            forall|l: BlockId| #[trigger] latches@.contains(l) == back_edge(f, l, header),
            forall|k: int| 0 <= k < j ==> body@.contains(#[trigger] latches@[k]),
            forall|k: int|
                0 <= k < body.order().len() ==> in_loop(f, header, #[trigger] body.order()[k])
                    && (body.order()[k] == header || has_block(f.blocks, body.order()[k])),
        decreases latches.len() - j,
    {
        let l = latches[j];
        proof {
            assert(latches@.contains(l));
            lemma_edge_source_is_block(f, l, header);
            if l != header {
                let p = seq![l];
                assert(leads_back(f, header, l, p));
            }
        }
        let added: bool = body.insert(l);
        j = j + 1;
    }
    let shown = body.items();
    proof {
        assert forall|l: BlockId| #[trigger] back_edge(f, l, header) implies body@.contains(l) by {
            assert(latches@.contains(l));
            let k = latches@.index_of(l);
            assert(latches@[k] == l);
        }
        body.order_facts();
    }
    let mut i: usize = 1;
    while i < body.len()
        invariant
            f == func@,
            1 <= i <= body.order().len(),
            body.order()[0] == header,
            body.order().no_duplicates(),
            body.order().to_set() == body@,
            forall|b: BlockId| #[trigger] preds@.contains_key(b) == mentioned(f.blocks, b),
            forall|b: BlockId|
                preds@.contains_key(b) ==> (#[trigger] preds@[b])@ == preds_of(f.blocks, b),
            forall|l: BlockId| #[trigger] back_edge(f, l, header) ==> body@.contains(l),
            forall|k: int|
                0 <= k < body.order().len() ==> in_loop(f, header, #[trigger] body.order()[k])
                    && (body.order()[k] == header || has_block(f.blocks, body.order()[k])),
            forall|k: int, q: BlockId|
                1 <= k < i && q != header && #[trigger] edge(f.blocks, q, body.order()[k])
                    ==> body@.contains(q),
        decreases f.blocks.len() + 1 - i,
    {
        let x: BlockId = body.items()[i];
        let ghost order0 = body.order();
        let empty: Vec<BlockId> = Vec::new();
        let list: &Vec<BlockId> = match preds.get(&x) {
            Some(l) => l,
            None => &empty,
        };
        proof {
            assert(x != header) by {
                assert(body.order()[0] == header);
            }
            assert(list@ == preds_of(f.blocks, x));
        }
        let mut n: usize = 0;
        while n < list.len()
            invariant
                f == func@,
                n <= list.len(),
                list@ == preds_of(f.blocks, x),
                x != header,
                in_loop(f, header, x),
                body.order().len() >= order0.len() > 0,
                body.order().take(order0.len() as int) == order0,
                body.order()[0] == header,
                body.order().no_duplicates(),
                body.order().to_set() == body@,
                forall|l: BlockId| #[trigger] back_edge(f, l, header) ==> body@.contains(l),
                forall|k: int|
                    0 <= k < body.order().len() ==> in_loop(f, header, #[trigger] body.order()[k])
                        && (body.order()[k] == header || has_block(f.blocks, body.order()[k])),
                forall|k: int, q: BlockId|
                    1 <= k < i && q != header && #[trigger] edge(f.blocks, q, order0[k])
                        ==> body@.contains(q),
                forall|k: int|
                    0 <= k < n && #[trigger] list@[k] != header ==> body@.contains(list@[k]),
            decreases list.len() - n,
        {
            let q = list[n];
            if !same_id(q, header) {
                let ghost before = body.order();
                proof {
                    assert(list@.contains(q));
                    lemma_preds_are_edges(f.blocks, x, q);
                    lemma_leads_back_from(f, header, q, x);
                    lemma_edge_source_is_block(f, q, x);
                }
                let added: bool = body.insert(q);
                let listed = body.items();
                proof {
                    body.order_facts();
                    assert(body.order().take(order0.len() as int) =~= before.take(
                        order0.len() as int,
                    ));
                }
            }
            n = n + 1;
        }
        proof {
            assert forall|k: int, q: BlockId|
                1 <= k < i + 1 && q != header && #[trigger] edge(
                    f.blocks,
                    q,
                    body.order()[k],
                ) implies body@.contains(q) by {
                assert(body.order().take(order0.len() as int)[k] == body.order()[k]);
                if k == i {
                    lemma_preds_are_edges(f.blocks, x, q);
                    let m = list@.index_of(q);
                    assert(list@[m] == q);
                }
            }
            lemma_loop_size(f, header, body.order());
        }
        i = i + 1;
    }
    proof {
        let n = body.order();
        assert forall|x: BlockId| #[trigger] body@.contains(x) == in_loop(f, header, x) by {
            if body@.contains(x) {
                assert(n.to_set().contains(x));
                assert(in_loop(f, header, n[n.index_of(x)]));
            }
            if in_loop(f, header, x) {
                if x == header {
                    assert(n.to_set().contains(n[0]));
                } else {
                    let p = choose|p: Seq<BlockId>| leads_back(f, header, x, p);
                    assert forall|y: BlockId, q: BlockId|
                        body@.contains(y) && y != header && q != header && #[trigger] edge(
                            f.blocks,
                            q,
                            y,
                        ) implies body@.contains(q) by {
                        assert(n.to_set().contains(y));
                        let k = n.index_of(y);
                        assert(n[k] == y);
                        assert(edge(f.blocks, q, n[k]));
                    }
                    lemma_closed_loop(f, header, body@, p, 0);
                }
            }
        }
    }
    body
}

/// The natural loops of a function, one for each header, ordered by header.
pub fn find_natural_loops(func: &Function) -> (r: Vec<NaturalLoop>)
    ensures
        forall|i: int| 0 <= i < r.len() ==> is_loop(func@, #[trigger] r@[i]),
        forall|i: int, j: int|
            0 <= i < j < r.len() ==> (#[trigger] r@[i]).header.0 < (#[trigger] r@[j]).header.0,
        forall|l: BlockId, h: BlockId| #[trigger]
            back_edge(func@, l, h) ==> exists|i: int|
                0 <= i < r.len() && (#[trigger] r@[i]).header == h,
{
    let ghost f = func@;
    let doms = compute_dominators(func);
    let preds = predecessors(func);
    let mut headers: IdSet<BlockId> = IdSet::new();
    let mut i: usize = 0;
    while i < func.blocks.len()
        invariant
            f == func@,
            i <= func.blocks.len(),
            forall|b: BlockId| #[trigger] doms@.contains_key(b) == has_dom_entry(f, b),
            forall|a: BlockId, b: BlockId|
                #![trigger doms@[b]@.contains(a)]
                doms@.contains_key(b) ==> doms@[b]@.contains(a) == dominates(f, a, b),
            forall|h: BlockId| #[trigger] headers@.contains(h) ==> exists|l: BlockId|
                back_edge(f, l, h),
            forall|k: int, h: BlockId|
                0 <= k < i && dominates(f, h, (#[trigger] f.blocks[k]).id) && #[trigger] targets_of(
                    f.blocks[k],
                ).contains(h) ==> headers@.contains(h),
        decreases func.blocks.len() - i,
    {
        let id = func.blocks[i].id;
        let targets = func.blocks[i].targets();
        proof {
            assert(f.blocks[i as int].id == id);
            assert(has_block(f.blocks, id));
        }
        let mut j: usize = 0;
        while j < targets.len()
            invariant
                f == func@,
                i < func.blocks.len(),
                j <= targets.len(),
                id == f.blocks[i as int].id,
                has_block(f.blocks, id),
                targets@ == targets_of(f.blocks[i as int]),
                forall|b: BlockId| #[trigger] doms@.contains_key(b) == has_dom_entry(f, b),
                forall|a: BlockId, b: BlockId|
                    #![trigger doms@[b]@.contains(a)]
                    doms@.contains_key(b) ==> doms@[b]@.contains(a) == dominates(f, a, b),
                forall|h: BlockId| #[trigger] headers@.contains(h) ==> exists|l: BlockId|
                    back_edge(f, l, h),
                forall|k: int, h: BlockId|
                    0 <= k < i && dominates(f, h, (#[trigger] f.blocks[k]).id)
                        && #[trigger] targets_of(f.blocks[k]).contains(h) ==> headers@.contains(h),
                forall|k: int|
                    0 <= k < j && dominates(f, #[trigger] targets@[k], id) ==> headers@.contains(
                        targets@[k],
                    ),
            decreases targets.len() - j,
        {
            let t = targets[j];
            match doms.get(&id) {
                Some(d) => {
                    if d.contains(&t) {
                        proof {
                            assert(targets_of(f.blocks[i as int]).contains(targets@[j as int]));
                            assert(edge(f.blocks, id, t));
                            assert(back_edge(f, id, t));
                        }
                        let added: bool = headers.insert(t);
                    }
                },
                None => {},
            }
            j = j + 1;
        }
        proof {
            assert forall|k: int, h: BlockId|
                0 <= k < i + 1 && dominates(f, h, (#[trigger] f.blocks[k]).id)
                    && #[trigger] targets_of(f.blocks[k]).contains(h) implies headers@.contains(
                h,
            ) by {
                if k == i {
                    let m = targets@.index_of(h);
                    assert(targets@[m] == h);
                }
            }
        }
        i = i + 1;
    }
    proof {
        assert forall|l: BlockId, h: BlockId| #[trigger] back_edge(f, l, h) implies headers@.contains(
            h,
        ) by {
            let k = choose|k: int|
                0 <= k < f.blocks.len() && (#[trigger] f.blocks[k]).id == l && targets_of(
                    f.blocks[k],
                ).contains(h);
            assert(targets_of(f.blocks[k]).contains(h));
        }
    }
    let listed = headers.items();
    let ordered = sort_ids(listed);
    proof {
        lemma_sorted_distinct(listed@, ordered@);
        assert forall|h: BlockId| #[trigger] headers@.contains(h) == ordered@.contains(h) by {
            assert(listed@.to_set().contains(h) == listed@.contains(h));
        }
    }
    let mut loops: Vec<NaturalLoop> = Vec::new();
    let mut n: usize = 0;
    while n < ordered.len()
        invariant
            f == func@,
            n <= ordered.len(),
            loops.len() == n,
            forall|b: BlockId| #[trigger] doms@.contains_key(b) == has_dom_entry(f, b),
            forall|a: BlockId, b: BlockId|
                #![trigger doms@[b]@.contains(a)]
                doms@.contains_key(b) ==> doms@[b]@.contains(a) == dominates(f, a, b),
            forall|b: BlockId| #[trigger] preds@.contains_key(b) == mentioned(f.blocks, b),
            forall|b: BlockId|
                preds@.contains_key(b) ==> (#[trigger] preds@[b])@ == preds_of(f.blocks, b),
            forall|h: BlockId| #[trigger] headers@.contains(h) ==> exists|l: BlockId|
                back_edge(f, l, h),
            forall|h: BlockId| #[trigger] headers@.contains(h) == ordered@.contains(h),
            forall|k: int| 0 <= k < n ==> is_loop(f, #[trigger] loops@[k]),
            forall|k: int| 0 <= k < n ==> (#[trigger] loops@[k]).header == ordered@[k],
        decreases ordered.len() - n,
    {
        let header = ordered[n];
        proof {
            assert(ordered@.contains(header));
            assert(headers@.contains(header));
        }
        let sources = collect_latches(func, &doms, header);
        let latches = sort_ids(&sources);
        proof {
            assert forall|l: BlockId| #[trigger] latches@.contains(l) == back_edge(f, l, header) by {
                lemma_same_members(latches@, sources@, l);
                lemma_back_sources(f, f.blocks.len(), header, l);
            }
        }
        let body = loop_body(func, &preds, header, &latches);
        let found = NaturalLoop { header, body, latches };
        proof {
            let l = choose|l: BlockId| back_edge(f, l, header);
            assert(back_edge(f, l, found.header));
            assert(is_loop(f, found));
        }
        loops.push(found);
        n = n + 1;
    }
    proof {
        assert forall|l: BlockId, h: BlockId| #[trigger] back_edge(f, l, h) implies exists|i: int|
            0 <= i < loops.len() && (#[trigger] loops@[i]).header == h by {
            assert(headers@.contains(h));
            let k = ordered@.index_of(h);
            assert(loops@[k].header == h);
        }
    }
    loops
}

/// Lists with the same multiset have the same members.
pub proof fn lemma_same_members<T>(s: Seq<T>, t: Seq<T>, x: T)
    requires
        s.to_multiset() == t.to_multiset(),
    ensures
        s.contains(x) == t.contains(x),
{
    broadcast use vstd::seq_lib::group_to_multiset_ensures;

    assert(s.contains(x) == (s.to_multiset().count(x) > 0));
    assert(t.contains(x) == (t.to_multiset().count(x) > 0));
}

/// Sorting a list without repetition gives rising numbers and the same members.
pub proof fn lemma_sorted_distinct<K: Id>(s: Seq<K>, t: Seq<K>)
    requires
        s.no_duplicates(),
        sorted_ids(t),
        t.to_multiset() == s.to_multiset(),
    ensures
        forall|i: int, j: int|
            0 <= i < j < t.len() ==> (#[trigger] t[i]).key() < (#[trigger] t[j]).key(),
        forall|x: K| #[trigger] t.contains(x) == s.contains(x),
{
    broadcast use vstd::seq_lib::group_to_multiset_ensures;

    assert forall|x: K| #[trigger] t.contains(x) == s.contains(x) by {
        lemma_same_members(s, t, x);
    }
    s.lemma_multiset_has_no_duplicates();
    assert(t.no_duplicates()) by {
        t.lemma_multiset_has_no_duplicates_conv();
    }
    assert forall|i: int, j: int| 0 <= i < j < t.len() implies (#[trigger] t[i]).key() < (
    #[trigger] t[j]).key() by {
        if t[i].key() == t[j].key() {
            K::key_injective(t[i], t[j]);
        }
    }
}

/// A walk that stays clear of `h` goes on along `p`, which does too.
proof fn lemma_clear_walk(f: FuncView, h: BlockId, w: Seq<BlockId>, p: Seq<BlockId>, n: nat) -> (r: Seq<
    BlockId,
>)
    requires
        forall|i: int| 0 <= i < f.blocks.len() ==> is_first_block(
            f.blocks,
            (#[trigger] f.blocks[i]).id,
            i,
        ),
        is_walk(f, w),
        !w.contains(h),
        n < p.len(),
        w.last() == p[0],
        forall|i: int| 0 <= i < p.len() ==> #[trigger] p[i] != h,
        forall|i: int| 0 <= i < p.len() - 1 ==> edge(f.blocks, #[trigger] p[i], p[i + 1]),
    ensures
        is_walk(f, r),
        !r.contains(h),
        r.last() == p[n as int],
    decreases n,
{
    if n == 0 {
        w
    } else {
        let q = lemma_clear_walk(f, h, w, p, (n - 1) as nat);
        let a = p[n - 1];
        let b = p[n as int];
        assert(edge(f.blocks, p[n - 1], p[n - 1 + 1]));
        assert(reachable(f, q[q.len() - 1]));
        let i = choose|i: int|
            0 <= i < f.blocks.len() && (#[trigger] f.blocks[i]).id == a && targets_of(
                f.blocks[i],
            ).contains(b);
        assert(is_first_block(f.blocks, f.blocks[i].id, i));
        lemma_block_pos(f.blocks, a);
        assert(block_pos(f.blocks, a) == i) by {
            let k = block_pos(f.blocks, a);
            if k < i {
                assert(f.blocks[k].id == a);
            }
        }
        assert(succs(f.blocks, a).contains(b));
        lemma_reachable_step(f, a, b);
        lemma_walk_extend(f, q, b);
        let r = q.push(b);
        assert(!r.contains(h)) by {
            if r.contains(h) {
                let k = r.index_of(h);
                if k < q.len() {
                    assert(q[k] == h);
                } else {
                    assert(p[n as int] == h);
                }
            }
        }
        r
    }
}

/// The header of a loop dominates every block of it that can be reached.
pub proof fn header_dominates_loop(f: FuncView, h: BlockId, x: BlockId)
    requires
        forall|i: int| 0 <= i < f.blocks.len() ==> is_first_block(
            f.blocks,
            (#[trigger] f.blocks[i]).id,
            i,
        ),
        in_loop(f, h, x),
        reachable(f, x),
    ensures
        dominates(f, h, x),
{
    if x == h {
        lemma_dominates_self(f, h);
    } else {
        let p = choose|p: Seq<BlockId>| leads_back(f, h, x, p);
        assert forall|w: Seq<BlockId>| #[trigger] is_walk(f, w) && w.last() == x implies w.contains(h) by {
            if !w.contains(h) {
                let r = lemma_clear_walk(f, h, w, p, (p.len() - 1) as nat);
                assert(dominates(f, h, p.last()));
                assert(r.contains(h));
            }
        }
    }
}

} // verus!
