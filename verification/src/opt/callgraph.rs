//! The call graph of a module: who calls whom, what a function costs, which
//! functions are recursive, and an order in which callees come first.

use crate::ids::{Id, IdSet};
use crate::ir::inst::{BlockId, FuncRef, FuncView, Function, InstKind, Module, ModuleView, Op};
use crate::ir::loops::{back_edge, find_natural_loops, is_loop, lemma_sorted_distinct};
use crate::lists::sort_ids;
use crate::opt::fpenv::calls_internal;
use crate::opt::graph::{
    graph_view, lemma_reaches_self, lemma_reaches_step, lemma_reaches_trans, lemma_unset, linked,
    reach_from, reached, reaches, unset,
};
use crate::opt::insts::{all_insts, insts_of, refs_view};
use vstd::prelude::*;

verus! {

/// A node of the call graph: one function of the module.
#[derive(Debug)]
pub struct CallNode {
    /// The number of the function.
    pub func_idx: u32,
    /// The functions that it calls, in ascending order.
    pub callees: Vec<u32>,
    /// The functions that call it, in ascending order.
    pub callers: Vec<u32>,
    /// What inlining it costs.
    pub inst_count: usize,
    /// Does it call itself, directly or through others?
    pub is_recursive: bool,
}

/// The call graph of a module.
#[derive(Debug)]
pub struct CallGraph {
    pub nodes: Vec<CallNode>,
}

/// Is a list of numbers strictly ascending?
pub open spec fn ascending(s: Seq<u32>) -> bool {
    forall|i: int, j: int| 0 <= i < j < s.len() ==> #[trigger] s[i] < #[trigger] s[j]
}

/// The headers of the loops of a function.
pub open spec fn loop_headers(f: FuncView) -> Set<BlockId> {
    Set::new(|h: BlockId| exists|l: BlockId| back_edge(f, l, h))
}

/// What inlining a function costs: its instructions, four times for each loop,
/// up to the largest number.
pub open spec fn cost_of(f: FuncView) -> int {
    let loops = loop_headers(f).len() as int;
    let cost = insts_of(f).len() * if loops == 0 {
        1
    } else {
        4 * loops
    };
    if cost <= usize::MAX {
        cost
    } else {
        usize::MAX as int
    }
}

/// The edges of the call graph.
pub open spec fn call_links(nodes: Seq<CallNode>) -> Seq<Seq<usize>> {
    Seq::new(
        nodes.len(),
        |i: int| Seq::new(nodes[i].callees@.len(), |k: int| nodes[i].callees@[k] as usize),
    )
}

/// Is `a` part of a cycle?
pub open spec fn on_cycle(g: Seq<Seq<usize>>, a: int) -> bool {
    exists|b: int| #[trigger] linked(g, a, b) && reaches(g, b, a)
}

/// Does a node tell what the module's function numbered `i` calls, and what calls
/// it?
pub open spec fn node_calls(m: ModuleView, node: CallNode, i: int) -> bool {
    &&& node.func_idx == i
    &&& ascending(node.callees@)
    &&& forall|c: u32| #[trigger]
        node.callees@.contains(c) == calls_internal(m.functions[i], c as int)
    &&& ascending(node.callers@)
    &&& forall|c: u32| #[trigger]
        node.callers@.contains(c) == (c < m.functions.len() && calls_internal(
            m.functions[c as int],
            i,
        ))
}

/// Is this the call graph of the module?
pub open spec fn is_call_graph(m: ModuleView, nodes: Seq<CallNode>) -> bool {
    &&& nodes.len() == m.functions.len()
    &&& forall|i: int|
        0 <= i < nodes.len() ==> node_calls(m, #[trigger] nodes[i], i) && nodes[i].inst_count
            == cost_of(m.functions[i]) && nodes[i].is_recursive == on_cycle(call_links(nodes), i)
}

fn count_loops(func: &Function) -> (r: usize)
    ensures
        r == loop_headers(func@).len(),
        loop_headers(func@).finite(),
{
    let loops = find_natural_loops(func);
    proof {
        let f = func@;
        let heads = Seq::new(loops@.len(), |i: int| loops@[i].header);
        assert forall|i: int, j: int| 0 <= i < heads.len() && 0 <= j < heads.len() && i != j implies heads[i]
            != heads[j] by {
            if i < j {
                assert(loops@[i].header.0 < loops@[j].header.0);
            } else {
                assert(loops@[j].header.0 < loops@[i].header.0);
            }
        }
        heads.unique_seq_to_set();
        assert(heads.to_set() =~= loop_headers(f)) by {
            assert forall|h: BlockId| heads.to_set().contains(h) == loop_headers(f).contains(h) by {
                if heads.contains(h) {
                    let i = heads.index_of(h);
                    assert(is_loop(f, loops@[i]));
                }
                if loop_headers(f).contains(h) {
                    let l = choose|l: BlockId| back_edge(f, l, h);
                    let i = choose|i: int| 0 <= i < loops@.len() && (#[trigger] loops@[i]).header == h;
                    assert(heads[i] == h);
                }
            }
        }
    }
    loops.len()
}

fn cost(func: &Function) -> (r: usize)
    ensures
        r == cost_of(func@),
{
    let list = all_insts(func);
    proof {
        assert(refs_view(list@).len() == list@.len());
    }
    let count: usize = list.len();
    let loops: usize = count_loops(func);
    if count == 0 {
        proof {
            let k = loops as int;
            assert(0 * (4 * k) == 0) by (nonlinear_arith);
        }
        return 0;
    }
    if loops == 0 {
        return count;
    }
    match loops.checked_mul(4) {
        Some(k) => match count.checked_mul(k) {
            Some(n) => n,
            None => usize::MAX,
        },
        None => {
            proof {
                let c = count as int;
                let k = 4 * loops as int;
                assert(c * k >= k) by (nonlinear_arith)
                    requires
                        c >= 1,
                        k >= 0,
                ;
            }
            usize::MAX
        },
    }
}

fn callees_of(func: &Function) -> (r: Vec<u32>)
    ensures
        ascending(r@),
        forall|c: u32| #[trigger] r@.contains(c) == calls_internal(func@, c as int),
{
    let list = all_insts(func);
    let ghost s = insts_of(func@);
    let mut set: IdSet<u32> = IdSet::new();
    let mut i: usize = 0;
    while i < list.len()
        invariant
            i <= list@.len(),
            s == insts_of(func@),
            s == refs_view(list@),
            forall|c: u32| #[trigger]
                set@.contains(c) == (exists|k: int|
                    0 <= k < i && ((#[trigger] s[k]).kind.op matches Op::CallInternal(d) && d == c)),
        decreases list@.len() - i,
    {
        let ghost before = set@;
        proof {
            assert(s[i as int] == list@[i as int]@);
        }
        match &list[i].kind {
            InstKind::Call(callee, _) => match callee {
                FuncRef::Internal(c) => {
                    set.insert(*c);
                },
                FuncRef::External(_) => {},
                FuncRef::Indirect(_) => {},
            },
            _ => {},
        }
        proof {
            assert forall|c: u32| #[trigger]
                set@.contains(c) == (exists|k: int|
                    0 <= k < i + 1 && ((#[trigger] s[k]).kind.op matches Op::CallInternal(d) && d
                        == c)) by {
                assert(before.contains(c) == (exists|k: int|
                    0 <= k < i && ((#[trigger] s[k]).kind.op matches Op::CallInternal(d) && d == c)));
                if s[i as int].kind.op matches Op::CallInternal(d) && d == c {
                    assert(set@.contains(c));
                }
            }
        }
        i = i + 1;
    }
    let out = sort_ids(set.items());
    proof {
        set.order_facts();
        lemma_sorted_distinct(set.order(), out@);
        assert forall|i: int, j: int| 0 <= i < j < out@.len() implies #[trigger] out@[i] < #[trigger] out@[j] by {
            assert(out@[i].key() < out@[j].key());
        }
        assert forall|c: u32| #[trigger] out@.contains(c) == calls_internal(func@, c as int) by {
            assert(out@.contains(c) == set.order().contains(c));
            assert(set.order().to_set().contains(c) == set.order().contains(c));
            assert(set@.contains(c) == calls_internal(func@, c as int));
        }
    }
    out
}

fn holds(list: &Vec<u32>, c: u32) -> (r: bool)
    ensures
        r == list@.contains(c),
{
    let mut i: usize = 0;
    while i < list.len()
        invariant
            i <= list@.len(),
            forall|k: int| 0 <= k < i ==> #[trigger] list@[k] != c,
        decreases list@.len() - i,
    {
        if list[i] == c {
            return true;
        }
        i = i + 1;
    }
    false
}

/// The functions that call the one numbered `c`.
fn callers_of(callees: &Vec<Vec<u32>>, c: u32, Ghost(m): Ghost<ModuleView>) -> (r: Vec<u32>)
    requires
        callees@.len() == m.functions.len(),
        callees@.len() <= u32::MAX,
        forall|i: int, d: u32|
            0 <= i < callees@.len() ==> (#[trigger] callees@[i]@.contains(d) == calls_internal(
                m.functions[i],
                d as int,
            )),
    ensures
        ascending(r@),
        forall|a: u32| #[trigger]
            r@.contains(a) == (a < m.functions.len() && calls_internal(
                m.functions[a as int],
                c as int,
            )),
{
    let mut out: Vec<u32> = Vec::new();
    let mut i: usize = 0;
    while i < callees.len()
        invariant
            i <= callees@.len(),
            callees@.len() == m.functions.len(),
            callees@.len() <= u32::MAX,
            forall|i: int, d: u32|
                0 <= i < callees@.len() ==> (#[trigger] callees@[i]@.contains(d) == calls_internal(
                    m.functions[i],
                    d as int,
                )),
            ascending(out@),
            forall|k: int| 0 <= k < out@.len() ==> #[trigger] out@[k] < i,
            forall|a: u32| #[trigger]
                out@.contains(a) == (a < i && calls_internal(m.functions[a as int], c as int)),
        decreases callees@.len() - i,
    {
        let ghost before = out@;
        if holds(&callees[i], c) {
            out.push(i as u32);
            proof {
                assert forall|a: u32| #[trigger]
                    out@.contains(a) == (a < i + 1 && calls_internal(
                        m.functions[a as int],
                        c as int,
                    )) by {
                    assert(out@[before.len() as int] == i as u32);
                    if before.contains(a) {
                        assert(out@[before.index_of(a)] == a);
                    }
                    if out@.contains(a) && a != i as u32 {
                        assert(before[out@.index_of(a)] == a);
                    }
                }
            }
        }
        i = i + 1;
    }
    out
}

/// The successors of each node, as places.
fn links_from(callees: &Vec<Vec<u32>>) -> (r: Vec<Vec<usize>>)
    ensures
        r@.len() == callees@.len(),
        forall|i: int|
            0 <= i < r@.len() ==> (#[trigger] r@[i])@ == Seq::new(
                callees@[i]@.len(),
                |k: int| callees@[i]@[k] as usize,
            ),
{
    let mut out: Vec<Vec<usize>> = Vec::new();
    let mut i: usize = 0;
    while i < callees.len()
        invariant
            i <= callees@.len(),
            out@.len() == i,
            forall|j: int|
                0 <= j < i ==> (#[trigger] out@[j])@ == Seq::new(
                    callees@[j]@.len(),
                    |k: int| callees@[j]@[k] as usize,
                ),
        decreases callees@.len() - i,
    {
        let mut list: Vec<usize> = Vec::new();
        let mut k: usize = 0;
        while k < callees[i].len()
            invariant
                i < callees@.len(),
                k <= callees@[i as int]@.len(),
                list@.len() == k,
                forall|j: int| 0 <= j < k ==> #[trigger] list@[j] == callees@[i as int]@[j] as usize,
            decreases callees@[i as int]@.len() - k,
        {
            list.push(callees[i][k] as usize);
            k = k + 1;
        }
        proof {
            assert(list@ =~= Seq::new(
                callees@[i as int]@.len(),
                |k: int| callees@[i as int]@[k] as usize,
            ));
        }
        out.push(list);
        i = i + 1;
    }
    out
}

/// Is the node part of a cycle?
fn detect_cycle(g: &Vec<Vec<usize>>, a: usize) -> (r: bool)
    requires
        a < g@.len(),
    ensures
        r == on_cycle(graph_view(g@), a as int),
{
    let ghost gv = graph_view(g@);
    let n: usize = g.len();
    let mut marks: Vec<bool> = Vec::new();
    let mut i: usize = 0;
    while i < n
        invariant
            i <= n,
            marks@.len() == i,
            forall|k: int| 0 <= k < i ==> !#[trigger] marks@[k],
        decreases n - i,
    {
        marks.push(false);
        i = i + 1;
    }
    let mut k: usize = 0;
    while k < g[a].len()
        invariant
            a < n,
            n == g@.len(),
            gv == graph_view(g@),
            k <= g@[a as int]@.len(),
            marks@.len() == n,
            forall|b: int|
                0 <= b < n ==> (#[trigger] marks@[b] == exists|j: int|
                    0 <= j < k && #[trigger] g@[a as int]@[j] == b),
        decreases g@[a as int]@.len() - k,
    {
        let b: usize = g[a][k];
        let ghost before = marks@;
        if b < n {
            marks.set(b, true);
        }
        proof {
            assert forall|c: int| 0 <= c < n implies (#[trigger] marks@[c] == exists|j: int|
                0 <= j < k + 1 && #[trigger] g@[a as int]@[j] == c) by {
                assert(before[c] == exists|j: int| 0 <= j < k && #[trigger] g@[a as int]@[j] == c);
                assert(g@[a as int]@[k as int] == b);
                if before[c] {
                    let j = choose|j: int| 0 <= j < k && #[trigger] g@[a as int]@[j] == c;
                    assert(g@[a as int]@[j] == c);
                }
            }
        }
        k = k + 1;
    }
    let hit = reach_from(g, &marks);
    proof {
        reveal(reached);
        assert(gv[a as int] == g@[a as int]@);
        if hit[a as int] {
            let b = choose|b: int| 0 <= b < marks@.len() && #[trigger] marks@[b] && reaches(gv, b, a as int);
            let j = choose|j: int| 0 <= j < k && #[trigger] g@[a as int]@[j] == b;
            assert(gv[a as int].contains(b as usize));
            assert(linked(gv, a as int, b));
        }
        if on_cycle(gv, a as int) {
            let b = choose|b: int| #[trigger] linked(gv, a as int, b) && reaches(gv, b, a as int);
            let j = gv[a as int].index_of(b as usize);
            assert(g@[a as int]@[j] == b);
            assert(marks@[b]);
        }
    }
    hit[a]
}

impl CallGraph {
    /// The call graph of a module.
    pub fn build(module: &Module) -> (r: Self)
        requires
            module@.functions.len() <= u32::MAX,
        ensures
            is_call_graph(module@, r.nodes@),
    {
        let ghost m = module@;
        let n: usize = module.functions.len();
        let mut callees: Vec<Vec<u32>> = Vec::new();
        let mut i: usize = 0;
        while i < n
            invariant
                i <= n,
                n == module.functions@.len(),
                m == module@,
                callees@.len() == i,
                forall|k: int| 0 <= k < i ==> ascending((#[trigger] callees@[k])@),
                forall|k: int, d: u32|
                    0 <= k < i ==> (#[trigger] callees@[k]@.contains(d) == calls_internal(
                        m.functions[k],
                        d as int,
                    )),
            decreases n - i,
        {
            proof {
                assert(m.functions[i as int] == module.functions@[i as int]@);
            }
            callees.push(callees_of(&module.functions[i]));
            i = i + 1;
        }
        let links = links_from(&callees);
        let ghost lv = graph_view(links@);
        let mut nodes: Vec<CallNode> = Vec::new();
        let mut k: usize = 0;
        while k < n
            invariant
                k <= n,
                n == module.functions@.len(),
                n <= u32::MAX,
                m == module@,
                callees@.len() == n,
                links@.len() == n,
                lv == graph_view(links@),
                forall|j: int| 0 <= j < n ==> ascending((#[trigger] callees@[j])@),
                forall|j: int, d: u32|
                    0 <= j < n ==> (#[trigger] callees@[j]@.contains(d) == calls_internal(
                        m.functions[j],
                        d as int,
                    )),
                nodes@.len() == k,
                forall|j: int|
                    0 <= j < k ==> node_calls(m, #[trigger] nodes@[j], j) && nodes@[j].inst_count
                        == cost_of(m.functions[j]) && nodes@[j].is_recursive == on_cycle(lv, j)
                        && nodes@[j].callees@ == callees@[j]@,
            decreases n - k,
        {
            proof {
                assert(m.functions[k as int] == module.functions@[k as int]@);
                assert(ascending(callees@[k as int]@));
            }
            let node = CallNode {
                func_idx: k as u32,
                callees: crate::ids::copy_list(&callees[k]),
                callers: callers_of(&callees, k as u32, Ghost(m)),
                inst_count: cost(&module.functions[k]),
                is_recursive: detect_cycle(&links, k),
            };
            proof {
                assert forall|c: u32| #[trigger]
                    node.callees@.contains(c) == calls_internal(m.functions[k as int], c as int) by {
                    assert(callees@[k as int]@.contains(c) == calls_internal(
                        m.functions[k as int],
                        c as int,
                    ));
                }
            }
            nodes.push(node);
            k = k + 1;
        }
        proof {
            assert forall|j: int| 0 <= j < n implies call_links(nodes@)[j] == lv[j] by {
                assert(links@[j]@ =~= Seq::new(
                    nodes@[j].callees@.len(),
                    |x: int| nodes@[j].callees@[x] as usize,
                ));
            }
            assert(call_links(nodes@) =~= lv);
        }
        CallGraph { nodes }
    }

    /// What inlining a function costs.
    pub fn inline_cost(&self, func_idx: u32) -> (r: usize)
        requires
            func_idx < self.nodes@.len(),
        ensures
            r == self.nodes@[func_idx as int].inst_count,
    {
        self.nodes[func_idx as usize].inst_count
    }

    /// Is a function recursive?
    pub fn is_recursive(&self, func_idx: u32) -> (r: bool)
        requires
            func_idx < self.nodes@.len(),
        ensures
            r == self.nodes@[func_idx as int].is_recursive,
    {
        self.nodes[func_idx as usize].is_recursive
    }
}

/// The state of a depth-first walk: which nodes were entered, and the nodes in
/// the order in which they were left.
pub struct Walk {
    pub seen: Seq<bool>,
    pub order: Seq<u32>,
}

/// A walk that goes on to each node of a list from place `k` on, unless it was
/// entered before: it enters the node, goes on to its successors, and leaves it.
pub open spec fn walk_list(g: Seq<Seq<usize>>, list: Seq<usize>, k: nat, w: Walk) -> Walk
    decreases unset(w.seen), list.len() - k,
{
    if k >= list.len() {
        w
    } else {
        let x = list[k as int] as int;
        if x >= w.seen.len() || w.seen[x] {
            walk_list(g, list, k + 1, w)
        } else {
            proof {
                lemma_unset(w.seen, x);
            }
            let inner = walk_list(
                g,
                g[x],
                0,
                Walk { seen: w.seen.update(x, true), order: w.order },
            );
            let next = Walk { seen: inner.seen, order: inner.order.push(x as u32) };
            if unset(next.seen) < unset(w.seen) {
                walk_list(g, list, k + 1, next)
            } else {
                next
            }
        }
    }
}

/// Is `after` a later state than `before`: nothing entered is forgotten?
pub open spec fn later(before: Walk, after: Walk) -> bool {
    &&& after.seen.len() == before.seen.len()
    &&& forall|x: int| 0 <= x < before.seen.len() && #[trigger] before.seen[x] ==> after.seen[x]
    &&& unset(after.seen) <= unset(before.seen)
}

/// A walk only adds to what was entered.
pub proof fn lemma_walk_later(g: Seq<Seq<usize>>, list: Seq<usize>, k: nat, w: Walk)
    ensures
        later(w, walk_list(g, list, k, w)),
    decreases unset(w.seen), list.len() - k,
{
    if k < list.len() {
        let x = list[k as int] as int;
        if x >= w.seen.len() || w.seen[x] {
            lemma_walk_later(g, list, k + 1, w);
        } else {
            lemma_unset(w.seen, x);
            let entered = Walk { seen: w.seen.update(x, true), order: w.order };
            lemma_walk_later(g, g[x], 0, entered);
            let inner = walk_list(g, g[x], 0, entered);
            let next = Walk { seen: inner.seen, order: inner.order.push(x as u32) };
            lemma_walk_later(g, list, k + 1, next);
            assert forall|y: int| 0 <= y < w.seen.len() && #[trigger] w.seen[y] implies walk_list(
                g,
                list,
                k,
                w,
            ).seen[y] by {
                assert(entered.seen[y]);
                assert(next.seen[y]);
            }
        }
    }
}

/// The nodes that nothing calls.
pub open spec fn is_root(nodes: Seq<CallNode>, i: int) -> bool {
    nodes[i].callers@.len() == 0
}

/// The first `n` nodes that nothing calls.
pub open spec fn roots(nodes: Seq<CallNode>, n: nat) -> Seq<usize>
    decreases n,
{
    if n == 0 {
        Seq::empty()
    } else if is_root(nodes, n - 1) {
        roots(nodes, (n - 1) as nat).push((n - 1) as usize)
    } else {
        roots(nodes, (n - 1) as nat)
    }
}

/// Before the walk.
pub open spec fn unwalked(n: nat) -> Walk {
    Walk { seen: Seq::new(n, |i: int| false), order: Seq::empty() }
}

/// All places.
pub open spec fn places(n: nat) -> Seq<usize> {
    Seq::new(n, |i: int| i as usize)
}

/// The whole walk: first from the nodes that nothing calls, then from the nodes
/// that are left.
pub open spec fn whole_walk(nodes: Seq<CallNode>) -> Walk {
    let g = call_links(nodes);
    let first = walk_list(g, roots(nodes, nodes.len()), 0, unwalked(nodes.len()));
    walk_list(g, places(nodes.len()), 0, first)
}

/// Where a walk stands in order: the nodes left are those entered but not open,
/// once each; and the successors of a node that was left were left before it, or
/// are open, or lead back to it.
pub open spec fn in_order(g: Seq<Seq<usize>>, w: Walk, open: Set<int>) -> bool {
    &&& w.seen.len() == g.len()
    &&& w.order.no_duplicates()
    &&& forall|x: int|
        0 <= x < g.len() ==> (#[trigger] w.seen[x] == (open.contains(x) || w.order.contains(
            x as u32,
        )))
    &&& forall|x: int| #[trigger] open.contains(x) ==> !w.order.contains(x as u32)
    &&& forall|i: int| 0 <= i < w.order.len() ==> (#[trigger] w.order[i]) < g.len()
    &&& forall|i: int, y: int|
        0 <= i < w.order.len() && #[trigger] linked(g, #[trigger] w.order[i] as int, y) ==> settled(
            g,
            w,
            open,
            i,
            y,
        )
}

/// Is successor `y` of the node at place `i` of the order settled?
pub open spec fn settled(g: Seq<Seq<usize>>, w: Walk, open: Set<int>, i: int, y: int) -> bool {
    ||| exists|j: int| 0 <= j < i && #[trigger] w.order[j] == y
    ||| open.contains(y)
    ||| reaches(g, y, w.order[i] as int)
}

/// A walk stays in order, enters all nodes of the list, and what it leaves is
/// reached from the list.
proof fn lemma_walk_in_order(
    g: Seq<Seq<usize>>,
    list: Seq<usize>,
    k: nat,
    w: Walk,
    open: Set<int>,
    from: int,
)
    requires
        g.len() <= u32::MAX,
        in_order(g, w, open),
        forall|x: int| #[trigger] open.contains(x) ==> 0 <= x < g.len() && reaches(g, x, from),
        from >= 0 ==> from < g.len() && open.contains(from) && list == g[from],
        from < 0 ==> open == Set::<int>::empty(),
    ensures
        ({
            let r = walk_list(g, list, k, w);
            &&& in_order(g, r, open)
            &&& w.order.is_prefix_of(r.order)
            &&& forall|j: int|
                k <= j < list.len() && (#[trigger] list[j]) < g.len() ==> r.seen[list[j] as int]
            &&& from >= 0 ==> forall|i: int|
                w.order.len() <= i < r.order.len() ==> reaches(g, from, #[trigger] r.order[i] as int)
        }),
    decreases unset(w.seen), list.len() - k,
{
    if k < list.len() {
        let x = list[k as int] as int;
        if x >= w.seen.len() || w.seen[x] {
            lemma_walk_in_order(g, list, k + 1, w, open, from);
            lemma_walk_later(g, list, k + 1, w);
        } else {
            lemma_unset(w.seen, x);
            let entered = Walk { seen: w.seen.update(x, true), order: w.order };
            let wider = open.insert(x);
            lemma_enter(g, w, open, x);
            assert(from >= 0 ==> linked(g, from, x)) by {
                if from >= 0 {
                    assert(g[from].contains(list[k as int]));
                }
            }
            assert forall|y: int| #[trigger] wider.contains(y) implies 0 <= y < g.len() && reaches(
                g,
                y,
                x,
            ) by {
                if y == x {
                    lemma_reaches_self(g, x);
                } else {
                    lemma_reaches_step(g, y, from, x);
                }
            }
            lemma_walk_in_order(g, g[x], 0, entered, wider, x);
            lemma_walk_later(g, g[x], 0, entered);
            let inner = walk_list(g, g[x], 0, entered);
            let next = Walk { seen: inner.seen, order: inner.order.push(x as u32) };
            lemma_leave(g, entered, inner, open, x);
            lemma_walk_in_order(g, list, k + 1, next, open, from);
            lemma_walk_later(g, list, k + 1, next);
            let r = walk_list(g, list, k, w);
            assert(r == walk_list(g, list, k + 1, next));
            assert(w.order.is_prefix_of(r.order));
            if from >= 0 {
                assert forall|i: int| w.order.len() <= i < r.order.len() implies reaches(
                    g,
                    from,
                    #[trigger] r.order[i] as int,
                ) by {
                    lemma_reaches_self(g, from);
                    lemma_reaches_step(g, from, from, x);
                    if i < inner.order.len() {
                        assert(r.order[i] == next.order[i]);
                        assert(next.order[i] == inner.order[i]);
                        assert(reaches(g, x, inner.order[i] as int));
                        lemma_reaches_trans(g, from, x, inner.order[i] as int);
                    } else if i == inner.order.len() {
                        assert(r.order[i] == next.order[i]);
                    }
                }
            }
            assert forall|j: int| k <= j < list.len() && (#[trigger] list[j]) < g.len() implies r.seen[list[j] as int] by {
                if j == k {
                    assert(next.seen[x]) by {
                        assert(entered.seen[x]);
                    }
                }
            }
        }
    }
}

/// Entering a node keeps the order.
proof fn lemma_enter(g: Seq<Seq<usize>>, w: Walk, open: Set<int>, x: int)
    requires
        in_order(g, w, open),
        0 <= x < g.len() <= u32::MAX,
        !w.seen[x],
    ensures
        in_order(
            g,
            Walk { seen: w.seen.update(x, true), order: w.order },
            open.insert(x),
        ),
{
    let e = Walk { seen: w.seen.update(x, true), order: w.order };
    let wider = open.insert(x);
    assert forall|i: int, y: int|
        0 <= i < e.order.len() && #[trigger] linked(g, #[trigger] e.order[i] as int, y) implies settled(
        g,
        e,
        wider,
        i,
        y,
    ) by {
        assert(settled(g, w, open, i, y));
        if exists|j: int| 0 <= j < i && #[trigger] w.order[j] == y {
            let j = choose|j: int| 0 <= j < i && #[trigger] w.order[j] == y;
            assert(e.order[j] == y);
        }
    }
    assert forall|y: int| 0 <= y < g.len() implies (#[trigger] e.seen[y] == (wider.contains(y)
        || e.order.contains(y as u32))) by {
        if y != x {
            assert(w.seen[y] == (open.contains(y) || w.order.contains(y as u32)));
        }
    }
}

/// Leaving a node keeps the order.
proof fn lemma_leave(g: Seq<Seq<usize>>, entered: Walk, inner: Walk, open: Set<int>, x: int)
    requires
        g.len() <= u32::MAX,
        0 <= x < g.len(),
        !open.contains(x),
        in_order(g, inner, open.insert(x)),
        forall|y: int| #[trigger] open.contains(y) ==> 0 <= y < g.len(),
        entered.order.is_prefix_of(inner.order),
        forall|i: int|
            entered.order.len() <= i < inner.order.len() ==> reaches(
                g,
                x,
                #[trigger] inner.order[i] as int,
            ),
        forall|j: int| 0 <= j < g[x].len() && (#[trigger] g[x][j]) < g.len() ==> inner.seen[g[x][j] as int],
        in_order(g, entered, open.insert(x)),
        forall|i: int, y: int|
            0 <= i < entered.order.len() && #[trigger] linked(
                g,
                #[trigger] entered.order[i] as int,
                y,
            ) && y == x ==> settled(g, entered, open, i, y),
    ensures
        in_order(
            g,
            Walk { seen: inner.seen, order: inner.order.push(x as u32) },
            open,
        ),
{
    let next = Walk { seen: inner.seen, order: inner.order.push(x as u32) };
    let wider = open.insert(x);
    let n = inner.order.len() as int;
    assert(wider.contains(x));
    assert(!inner.order.contains(x as u32));
    assert(next.order.no_duplicates()) by {
        assert forall|i: int, j: int|
            0 <= i < next.order.len() && 0 <= j < next.order.len() && i != j implies next.order[i]
            != next.order[j] by {
            if i == n {
                assert(inner.order[j] == next.order[j]);
                assert(inner.order.contains(inner.order[j]));
            } else if j == n {
                assert(inner.order[i] == next.order[i]);
                assert(inner.order.contains(inner.order[i]));
            }
        }
    }
    assert forall|y: int| 0 <= y < g.len() implies (#[trigger] next.seen[y] == (open.contains(y)
        || next.order.contains(y as u32))) by {
        assert(inner.seen[y] == (wider.contains(y) || inner.order.contains(y as u32)));
        assert(next.order[n] == x as u32);
        if inner.order.contains(y as u32) {
            assert(next.order[inner.order.index_of(y as u32)] == y as u32);
        }
        if next.order.contains(y as u32) && y != x {
            assert(inner.order[next.order.index_of(y as u32)] == y as u32);
        }
    }
    assert forall|y: int| #[trigger] open.contains(y) implies !next.order.contains(y as u32) by {
        assert(wider.contains(y));
        if next.order.contains(y as u32) {
            let i = next.order.index_of(y as u32);
            if i < n {
                assert(inner.order[i] == y as u32);
            } else {
                assert(y as u32 == x as u32);
            }
        }
    }
    assert forall|i: int| 0 <= i < next.order.len() implies (#[trigger] next.order[i]) < g.len() by {
        if i < n {
            assert(next.order[i] == inner.order[i]);
        }
    }
    assert forall|i: int, y: int|
        0 <= i < next.order.len() && #[trigger] linked(g, #[trigger] next.order[i] as int, y) implies settled(
        g,
        next,
        open,
        i,
        y,
    ) by {
        if i < n {
            assert(next.order[i] == inner.order[i]);
            assert(settled(g, inner, wider, i, y));
            if exists|j: int| 0 <= j < i && #[trigger] inner.order[j] == y {
                let j = choose|j: int| 0 <= j < i && #[trigger] inner.order[j] == y;
                assert(next.order[j] == y);
            } else if y == x && i >= entered.order.len() {
                assert(reaches(g, x, inner.order[i] as int));
            } else if y == x {
                assert(entered.order[i] == inner.order[i]);
                assert(settled(g, entered, open, i, y));
                if exists|j: int| 0 <= j < i && #[trigger] entered.order[j] == y {
                    let j = choose|j: int| 0 <= j < i && #[trigger] entered.order[j] == y;
                    assert(next.order[j] == y);
                }
            }
        } else {
            assert(next.order[i] == x as u32);
            let j = g[x].index_of(y as usize);
            assert(g[x][j] == y);
            assert(inner.seen[y]);
            if wider.contains(y) {
                if y == x {
                    lemma_reaches_self(g, x);
                }
            } else {
                let j = inner.order.index_of(y as u32);
                assert(next.order[j] == y);
            }
        }
    }
}

/// The walk leaves every node once, and callees before their callers: where a
/// callee does not lead back to its caller, it comes first.
pub proof fn callees_come_first(nodes: Seq<CallNode>)
    requires
        nodes.len() <= u32::MAX,
    ensures
        whole_walk(nodes).order.no_duplicates(),
        forall|x: int|
            0 <= x < nodes.len() ==> #[trigger] whole_walk(nodes).order.contains(x as u32),
        whole_walk(nodes).order.len() == nodes.len(),
        forall|i: int, y: int|
            0 <= i < nodes.len() && #[trigger] linked(
                call_links(nodes),
                #[trigger] whole_walk(nodes).order[i] as int,
                y,
            ) && !reaches(call_links(nodes), y, whole_walk(nodes).order[i] as int) ==> exists|j: int|
                0 <= j < i && #[trigger] whole_walk(nodes).order[j] == y,
{
    let g = call_links(nodes);
    let n = nodes.len();
    let none = Set::<int>::empty();
    let start = unwalked(n);
    assert(in_order(g, start, none));
    let rs = roots(nodes, n);
    lemma_walk_in_order(g, rs, 0, start, none, -1);
    let first = walk_list(g, rs, 0, start);
    lemma_walk_in_order(g, places(n), 0, first, none, -1);
    let w = whole_walk(nodes);
    assert forall|x: int| 0 <= x < n implies #[trigger] w.order.contains(x as u32) by {
        assert(places(n)[x] == x as usize);
        assert(places(n)[x] < g.len());
        assert(w.seen[x]);
    }
    w.order.unique_seq_to_set();
    let all = Set::new(|v: u32| v < n);
    assert(w.order.to_set() =~= all) by {
        assert forall|v: u32| w.order.to_set().contains(v) == all.contains(v) by {
            if all.contains(v) {
                assert(w.order.contains((v as int) as u32));
            }
            if w.order.contains(v) {
                let i = w.order.index_of(v);
                assert(w.order[i] < g.len());
            }
        }
    }
    let ids = Seq::new(n, |i: int| i as u32);
    assert(ids.no_duplicates());
    ids.unique_seq_to_set();
    assert(ids.to_set() =~= all) by {
        assert forall|v: u32| ids.to_set().contains(v) == all.contains(v) by {
            if all.contains(v) {
                assert(ids[v as int] == v);
            }
        }
    }
    assert forall|i: int, y: int|
        0 <= i < n && #[trigger] linked(g, #[trigger] w.order[i] as int, y) && !reaches(
            g,
            y,
            w.order[i] as int,
        ) implies exists|j: int| 0 <= j < i && #[trigger] w.order[j] == y by {
        assert(settled(g, w, none, i, y));
    }
}

fn visit_list(
    nodes: &Vec<CallNode>,
    list: &Vec<u32>,
    visited: &mut Vec<bool>,
    order: &mut Vec<u32>,
)
    requires
        old(visited)@.len() == nodes@.len(),
    ensures
        ({
            let r = walk_list(
                call_links(nodes@),
                Seq::new(list@.len(), |k: int| list@[k] as usize),
                0,
                Walk { seen: old(visited)@, order: old(order)@ },
            );
            final(visited)@ == r.seen && final(order)@ == r.order && final(visited)@.len()
                == nodes@.len()
        }),
    decreases unset(old(visited)@),
{
    let ghost g = call_links(nodes@);
    let ghost ls = Seq::new(list@.len(), |k: int| list@[k] as usize);
    let ghost start = Walk { seen: visited@, order: order@ };
    let ghost want = walk_list(g, ls, 0, start);
    let mut k: usize = 0;
    while k < list.len()
        invariant
            k <= list@.len(),
            g == call_links(nodes@),
            ls == Seq::new(list@.len(), |k: int| list@[k] as usize),
            visited@.len() == nodes@.len(),
            start.seen == old(visited)@,
            unset(visited@) <= unset(start.seen),
            walk_list(g, ls, k as nat, Walk { seen: visited@, order: order@ }) == want,
        decreases list@.len() - k,
    {
        let x: usize = list[k] as usize;
        let ghost w = Walk { seen: visited@, order: order@ };
        if x < visited.len() && !visited[x] {
            let ghost entered = Walk { seen: visited@.update(x as int, true), order: order@ };
            proof {
                lemma_unset(visited@, x as int);
                lemma_walk_later(g, g[x as int], 0, entered);
                assert(g[x as int] =~= Seq::new(
                    nodes@[x as int].callees@.len(),
                    |k: int| nodes@[x as int].callees@[k] as usize,
                ));
            }
            visited.set(x, true);
            visit_list(nodes, &nodes[x].callees, visited, order);
            order.push(list[k]);
            proof {
                assert(walk_list(g, ls, k as nat, w) == walk_list(
                    g,
                    ls,
                    (k + 1) as nat,
                    Walk { seen: visited@, order: order@ },
                ));
            }
        }
        k = k + 1;
    }
}

impl CallGraph {
    /// The functions, callees before callers.
    pub fn bottom_up_order(&self) -> (r: Vec<u32>)
        requires
            self.nodes@.len() <= u32::MAX,
        ensures
            r@ == whole_walk(self.nodes@).order,
    {
        let ghost nodes = self.nodes@;
        let n: usize = self.nodes.len();
        let mut visited: Vec<bool> = Vec::new();
        let mut first: Vec<u32> = Vec::new();
        let mut all: Vec<u32> = Vec::new();
        let mut i: usize = 0;
        while i < n
            invariant
                i <= n,
                nodes == self.nodes@,
                n == nodes.len(),
                n <= u32::MAX,
                visited@.len() == i,
                forall|k: int| 0 <= k < i ==> !#[trigger] visited@[k],
                Seq::new(first@.len(), |k: int| first@[k] as usize) == roots(nodes, i as nat),
                all@.len() == i,
                forall|k: int| 0 <= k < i ==> #[trigger] all@[k] == k,
            decreases n - i,
        {
            let ghost before = first@;
            visited.push(false);
            all.push(i as u32);
            if self.nodes[i].callers.len() == 0 {
                first.push(i as u32);
                proof {
                    assert(Seq::new(first@.len(), |k: int| first@[k] as usize) =~= Seq::new(
                        before.len(),
                        |k: int| before[k] as usize,
                    ).push(i));
                }
            }
            i = i + 1;
        }
        let mut order: Vec<u32> = Vec::new();
        proof {
            assert(visited@ =~= unwalked(n as nat).seen);
            assert(order@ =~= unwalked(n as nat).order);
            assert(Seq::new(all@.len(), |k: int| all@[k] as usize) =~= places(n as nat));
        }
        visit_list(&self.nodes, &first, &mut visited, &mut order);
        visit_list(&self.nodes, &all, &mut visited, &mut order);
        order
    }
}

} // verus!
