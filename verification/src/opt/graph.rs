//! Directed graphs over numbered nodes, and what can be reached in them.

use vstd::prelude::*;

verus! {

/// The successor lists of a graph.
pub open spec fn graph_view(g: Seq<Vec<usize>>) -> Seq<Seq<usize>> {
    Seq::new(g.len(), |i: int| g[i]@)
}

/// Is there an edge from `a` to `b`? Successors that are no nodes do not count.
pub open spec fn linked(g: Seq<Seq<usize>>, a: int, b: int) -> bool {
    0 <= a < g.len() && 0 <= b < g.len() && g[a].contains(b as usize)
}

/// Is `p` a walk along edges?
pub open spec fn is_route(g: Seq<Seq<usize>>, p: Seq<int>) -> bool {
    &&& p.len() > 0
    &&& forall|i: int| 0 <= i < p.len() ==> 0 <= #[trigger] p[i] < g.len()
    &&& forall|i: int| 0 <= i < p.len() - 1 ==> #[trigger] linked(g, p[i], p[i + 1])
}

/// Does `p` lead from `a` to `b`?
pub open spec fn leads(g: Seq<Seq<usize>>, p: Seq<int>, a: int, b: int) -> bool {
    is_route(g, p) && p[0] == a && p.last() == b
}

/// Can `b` be reached from `a`, in no step or more?
pub open spec fn reaches(g: Seq<Seq<usize>>, a: int, b: int) -> bool {
    exists|p: Seq<int>| leads(g, p, a, b)
}

/// Every node reaches itself.
pub proof fn lemma_reaches_self(g: Seq<Seq<usize>>, a: int)
    requires
        0 <= a < g.len(),
    ensures
        reaches(g, a, a),
{
    assert(leads(g, seq![a], a, a));
}

/// An edge extends what can be reached.
pub proof fn lemma_reaches_step(g: Seq<Seq<usize>>, a: int, b: int, c: int)
    requires
        reaches(g, a, b),
        linked(g, b, c),
    ensures
        reaches(g, a, c),
{
    let p = choose|p: Seq<int>| leads(g, p, a, b);
    let q = p.push(c);
    assert forall|i: int| 0 <= i < q.len() - 1 implies #[trigger] linked(g, q[i], q[i + 1]) by {
        if i < p.len() - 1 {
            assert(linked(g, p[i], p[i + 1]));
        }
    }
    assert(leads(g, q, a, c));
}

/// What is reached from a reached node is reached.
pub proof fn lemma_reaches_trans(g: Seq<Seq<usize>>, a: int, b: int, c: int)
    requires
        reaches(g, a, b),
        reaches(g, b, c),
    ensures
        reaches(g, a, c),
{
    let p = choose|p: Seq<int>| leads(g, p, b, c);
    lemma_along(g, a, p, p.len() as int - 1);
}

proof fn lemma_along(g: Seq<Seq<usize>>, a: int, p: Seq<int>, i: int)
    requires
        is_route(g, p),
        reaches(g, a, p[0]),
        0 <= i < p.len(),
    ensures
        reaches(g, a, p[i]),
    decreases i,
{
    if i > 0 {
        lemma_along(g, a, p, i - 1);
        assert(linked(g, p[i - 1], p[i - 1 + 1]));
        lemma_reaches_step(g, a, p[i - 1], p[i]);
    }
}

/// Nodes that hold `a` and keep their successors hold all that `a` reaches.
pub proof fn lemma_closed(g: Seq<Seq<usize>>, s: spec_fn(int) -> bool, a: int, b: int)
    requires
        s(a),
        forall|x: int, y: int| s(x) && #[trigger] linked(g, x, y) ==> s(y),
        reaches(g, a, b),
    ensures
        s(b),
{
    let p = choose|p: Seq<int>| leads(g, p, a, b);
    lemma_closed_along(g, s, p, p.len() as int - 1);
}

proof fn lemma_closed_along(g: Seq<Seq<usize>>, s: spec_fn(int) -> bool, p: Seq<int>, i: int)
    requires
        is_route(g, p),
        s(p[0]),
        forall|x: int, y: int| s(x) && #[trigger] linked(g, x, y) ==> s(y),
        0 <= i < p.len(),
    ensures
        s(p[i]),
    decreases i,
{
    if i > 0 {
        lemma_closed_along(g, s, p, i - 1);
        assert(linked(g, p[i - 1], p[i - 1 + 1]));
    }
}

/// Is `b` one of the nodes that are reached from the marked ones?
#[verifier::opaque]
pub open spec fn reached(g: Seq<Seq<usize>>, marks: Seq<bool>, b: int) -> bool {
    exists|a: int| 0 <= a < marks.len() && #[trigger] marks[a] && reaches(g, a, b)
}

/// How many marks are not set.
pub open spec fn unset(marks: Seq<bool>) -> nat
    decreases marks.len(),
{
    if marks.len() == 0 {
        0
    } else {
        unset(marks.drop_last()) + if marks.last() {
            0nat
        } else {
            1nat
        }
    }
}

/// Setting a mark leaves one less to set.
pub proof fn lemma_unset(marks: Seq<bool>, i: int)
    requires
        0 <= i < marks.len(),
        !marks[i],
    ensures
        unset(marks.update(i, true)) == unset(marks) - 1,
    decreases marks.len(),
{
    let t = marks.update(i, true);
    if i < marks.len() - 1 {
        lemma_unset(marks.drop_last(), i);
        assert(t.drop_last() =~= marks.drop_last().update(i, true));
    } else {
        assert(t.drop_last() =~= marks.drop_last());
    }
}

/// Marks the nodes of a list, and puts those that were not marked on the stack.
fn mark_list(list: &Vec<usize>, n: usize, seen: &mut Vec<bool>, stack: &mut Vec<usize>)
    requires
        old(seen)@.len() == n,
    ensures
        final(seen)@.len() == n,
        forall|b: int|
            0 <= b < n ==> (#[trigger] final(seen)@[b] == (old(seen)@[b] || list@.contains(
                b as usize,
            ))),
        old(stack)@.is_prefix_of(final(stack)@),
        forall|j: int|
            old(stack)@.len() <= j < final(stack)@.len() ==> (#[trigger] final(stack)@[j]) < n
                && final(seen)@[final(stack)@[j] as int],
        forall|b: int|
            0 <= b < n && #[trigger] final(seen)@[b] && !old(seen)@[b] ==> final(stack)@.contains(
                b as usize,
            ),
        (unset(final(seen)@) == unset(old(seen)@) && final(stack)@ == old(stack)@) || unset(
            final(seen)@,
        ) < unset(old(seen)@),
{
    let ghost seen0 = seen@;
    let ghost stack0 = stack@;
    let mut k: usize = 0;
    proof {
        assert(list@.take(0) =~= Seq::<usize>::empty());
    }
    while k < list.len()
        invariant
            k <= list@.len(),
            seen@.len() == n,
            seen0.len() == n,
            forall|b: int|
                0 <= b < n ==> (#[trigger] seen@[b] == (seen0[b] || list@.take(k as int).contains(
                    b as usize,
                ))),
            stack0.is_prefix_of(stack@),
            forall|j: int|
                stack0.len() <= j < stack@.len() ==> (#[trigger] stack@[j]) < n
                    && seen@[stack@[j] as int],
            forall|b: int|
                0 <= b < n && #[trigger] seen@[b] && !seen0[b] ==> stack@.contains(b as usize),
            (unset(seen@) == unset(seen0) && stack@ == stack0) || unset(seen@) < unset(seen0),
        decreases list@.len() - k,
    {
        let b: usize = list[k];
        let ghost was = seen@;
        let ghost held = stack@;
        proof {
            let t = list@.take(k as int);
            let u = list@.take(k + 1);
            assert(u =~= t.push(b));
            assert forall|x: usize| u.contains(x) == (t.contains(x) || x == b) by {
                if t.contains(x) {
                    assert(u[t.index_of(x)] == x);
                }
                assert(u[k as int] == b);
                if u.contains(x) && x != b {
                    assert(t[u.index_of(x)] == x);
                }
            }
        }
        if b < n && !seen[b] {
            proof {
                lemma_unset(was, b as int);
            }
            seen.set(b, true);
            stack.push(b);
            proof {
                assert(stack@[stack@.len() - 1] == b);
                assert forall|x: int| 0 <= x < n && #[trigger] seen@[x] && !seen0[x] implies stack@.contains(
                    x as usize,
                ) by {
                    if x != b {
                        assert(was[x]);
                        let j = held.index_of(x as usize);
                        assert(stack@[j] == x);
                    }
                }
            }
        }
        k = k + 1;
    }
    proof {
        assert(list@.take(k as int) =~= list@);
    }
}

/// The marks once more, and the list of the marked nodes.
fn marked_nodes(marks: &Vec<bool>) -> (r: (Vec<bool>, Vec<usize>))
    ensures
        r.0@ == marks@,
        forall|k: int|
            0 <= k < r.1@.len() ==> (#[trigger] r.1@[k]) < marks@.len() && marks@[r.1@[k] as int],
        forall|x: int| 0 <= x < marks@.len() && #[trigger] marks@[x] ==> r.1@.contains(x as usize),
{
    let mut seen: Vec<bool> = Vec::new();
    let mut stack: Vec<usize> = Vec::new();
    let mut i: usize = 0;
    while i < marks.len()
        invariant
            i <= marks@.len(),
            seen@ == marks@.take(i as int),
            forall|k: int|
                0 <= k < stack@.len() ==> (#[trigger] stack@[k]) < i && marks@[stack@[k] as int],
            forall|x: int| 0 <= x < i && #[trigger] marks@[x] ==> stack@.contains(x as usize),
        decreases marks@.len() - i,
    {
        let ghost before = stack@;
        seen.push(marks[i]);
        proof {
            assert(seen@ =~= marks@.take(i + 1));
        }
        if marks[i] {
            stack.push(i);
            proof {
                assert(stack@[stack@.len() - 1] == i);
                assert forall|x: int| 0 <= x < i + 1 && #[trigger] marks@[x] implies stack@.contains(
                    x as usize,
                ) by {
                    if x < i {
                        let k = before.index_of(x as usize);
                        assert(stack@[k] == x);
                    }
                }
            }
        }
        i = i + 1;
    }
    proof {
        assert(seen@ =~= marks@);
    }
    (seen, stack)
}

/// Marked nodes that keep their successors are those that are reached.
proof fn lemma_reach_done(g: Seq<Seq<usize>>, marks: Seq<bool>, seen: Seq<bool>)
    requires
        marks.len() == g.len(),
        seen.len() == g.len(),
        forall|b: int| 0 <= b < g.len() && #[trigger] marks[b] ==> seen[b],
        forall|b: int| 0 <= b < g.len() && #[trigger] seen[b] ==> reached(g, marks, b),
        forall|x: int, y: int|
            0 <= x < g.len() && seen[x] && #[trigger] linked(g, x, y) ==> seen[y],
    ensures
        forall|b: int| 0 <= b < g.len() ==> (#[trigger] seen[b] == reached(g, marks, b)),
{
    reveal(reached);
    assert forall|b: int| 0 <= b < g.len() implies (#[trigger] seen[b] == reached(g, marks, b)) by {
        if reached(g, marks, b) {
            let a = choose|a: int| 0 <= a < marks.len() && #[trigger] marks[a] && reaches(g, a, b);
            let s = |x: int| 0 <= x < g.len() && seen[x];
            lemma_closed(g, s, a, b);
        }
    }
}

/// The marked nodes are reached.
proof fn lemma_reach_start(g: Seq<Seq<usize>>, marks: Seq<bool>)
    requires
        marks.len() == g.len(),
    ensures
        forall|b: int| 0 <= b < g.len() && #[trigger] marks[b] ==> reached(g, marks, b),
{
    reveal(reached);
    assert forall|b: int| 0 <= b < g.len() && #[trigger] marks[b] implies reached(g, marks, b) by {
        lemma_reaches_self(g, b);
    }
}

/// Marks every node that is reached from the marked ones.
pub fn reach_from(g: &Vec<Vec<usize>>, marks: &Vec<bool>) -> (r: Vec<bool>)
    requires
        marks@.len() == g@.len(),
    ensures
        r@.len() == g@.len(),
        forall|b: int|
            0 <= b < r@.len() ==> (#[trigger] r@[b] == reached(graph_view(g@), marks@, b)),
{
    let ghost gv = graph_view(g@);
    let n: usize = g.len();
    let (mut seen, mut stack) = marked_nodes(marks);
    proof {
        lemma_reach_start(gv, marks@);
    }
    while stack.len() > 0
        invariant
            n == marks@.len(),
            n == g@.len(),
            seen@.len() == n,
            gv == graph_view(g@),
            forall|k: int|
                0 <= k < stack@.len() ==> (#[trigger] stack@[k]) < n && seen@[stack@[k] as int],
            forall|b: int| 0 <= b < n && #[trigger] marks@[b] ==> seen@[b],
            forall|b: int| 0 <= b < n && #[trigger] seen@[b] ==> reached(gv, marks@, b),
            forall|x: int, y: int|
                0 <= x < n && seen@[x] && !stack@.contains(x as usize) && #[trigger] linked(
                    gv,
                    x,
                    y,
                ) ==> seen@[y],
        decreases unset(seen@), stack@.len(),
    {
        let ghost held = stack@;
        let at: usize = match stack.pop() {
            Some(x) => x,
            None => 0,
        };
        let ghost rest = stack@;
        let ghost was = seen@;
        proof {
            assert(held[held.len() - 1] == at);
            assert(rest =~= held.drop_last());
            assert(reached(gv, marks@, at as int));
        }
        mark_list(&g[at], n, &mut seen, &mut stack);
        proof {
            assert(gv[at as int] == g@[at as int]@);
            lemma_marked(gv, marks@, at as int, was, seen@);
            assert forall|x: int, y: int|
                0 <= x < n && seen@[x] && !stack@.contains(x as usize) && #[trigger] linked(
                    gv,
                    x,
                    y,
                ) implies seen@[y] by {
                if x != at {
                    if !was[x] {
                        assert(stack@.contains(x as usize));
                    }
                    if held.contains(x as usize) {
                        let k = held.index_of(x as usize);
                        assert(rest[k] == x);
                        assert(stack@[k] == x);
                    }
                    assert(was[y]);
                }
            }
            assert forall|k: int| 0 <= k < stack@.len() implies (#[trigger] stack@[k]) < n
                && seen@[stack@[k] as int] by {
                if k < rest.len() {
                    assert(stack@[k] == rest[k]);
                    assert(held[k] == rest[k]);
                    assert(was[rest[k] as int]);
                }
            }
        }
    }
    proof {
        assert forall|x: int, y: int|
            0 <= x < gv.len() && seen@[x] && #[trigger] linked(gv, x, y) implies seen@[y] by {
            assert(!stack@.contains(x as usize));
        }
        lemma_reach_done(gv, marks@, seen@);
    }
    seen
}

/// The successors of a reached node are reached.
proof fn lemma_marked(
    g: Seq<Seq<usize>>,
    marks: Seq<bool>,
    at: int,
    was: Seq<bool>,
    now: Seq<bool>,
)
    requires
        0 <= at < g.len(),
        was.len() == g.len(),
        now.len() == g.len(),
        reached(g, marks, at),
        forall|b: int| 0 <= b < g.len() && #[trigger] was[b] ==> reached(g, marks, b),
        forall|b: int|
            0 <= b < g.len() ==> (#[trigger] now[b] == (was[b] || g[at].contains(b as usize))),
    ensures
        forall|b: int| 0 <= b < g.len() && #[trigger] now[b] ==> reached(g, marks, b),
{
    reveal(reached);
    assert forall|b: int| 0 <= b < g.len() && #[trigger] now[b] implies reached(g, marks, b) by {
        if !was[b] {
            assert(linked(g, at, b));
            let a = choose|a: int| 0 <= a < marks.len() && #[trigger] marks[a] && reaches(g, a, at);
            lemma_reaches_step(g, a, at, b);
        }
    }
}

/// The edges of a graph turned round.
pub open spec fn turned(g: Seq<Seq<usize>>, h: Seq<Seq<usize>>) -> bool {
    h.len() == g.len() && forall|a: int, b: int| linked(h, a, b) == #[trigger] linked(g, b, a)
}

/// The nodes that have an edge to `b`.
fn sources(g: &Vec<Vec<usize>>, b: usize) -> (r: Vec<usize>)
    requires
        b < g@.len(),
    ensures
        forall|x: usize| (#[trigger] r@.contains(x)) == linked(graph_view(g@), x as int, b as int),
{
    let ghost gv = graph_view(g@);
    let mut list: Vec<usize> = Vec::new();
    let mut a: usize = 0;
    while a < g.len()
        invariant
            a <= g@.len(),
            b < g@.len(),
            gv == graph_view(g@),
            forall|x: usize| (#[trigger] list@.contains(x)) == (x < a && linked(gv, x as int, b as int)),
        decreases g@.len() - a,
    {
        let ghost before = list@;
        proof {
            assert(gv[a as int] == g@[a as int]@);
        }
        if links(&g[a], b) {
            list.push(a);
            proof {
                assert forall|x: usize| (#[trigger] list@.contains(x)) == (x < a + 1 && linked(
                    gv,
                    x as int,
                    b as int,
                )) by {
                    assert(list@[list@.len() - 1] == a);
                    if before.contains(x) {
                        assert(list@[before.index_of(x)] == x);
                    }
                    if list@.contains(x) && x != a {
                        assert(before[list@.index_of(x)] == x);
                    }
                }
            }
        }
        a = a + 1;
    }
    list
}

/// Turns the edges of a graph round.
pub fn reversed(g: &Vec<Vec<usize>>) -> (r: Vec<Vec<usize>>)
    ensures
        turned(graph_view(g@), graph_view(r@)),
{
    let ghost gv = graph_view(g@);
    let mut out: Vec<Vec<usize>> = Vec::new();
    let mut b: usize = 0;
    while b < g.len()
        invariant
            b <= g@.len(),
            gv == graph_view(g@),
            out@.len() == b,
            forall|y: int, x: usize|
                0 <= y < b ==> (#[trigger] out@[y]@.contains(x)) == linked(gv, x as int, y),
        decreases g@.len() - b,
    {
        let list = sources(g, b);
        out.push(list);
        b = b + 1;
    }
    proof {
        let rv = graph_view(out@);
        assert forall|x: int, y: int| linked(rv, x, y) == #[trigger] linked(gv, y, x) by {
            if 0 <= x < g@.len() && 0 <= y < g@.len() {
                assert(rv[x] == out@[x]@);
                assert(out@[x]@.contains(y as usize) == linked(gv, y, x));
            }
        }
    }
    out
}

fn links(list: &Vec<usize>, b: usize) -> (r: bool)
    ensures
        r == list@.contains(b),
{
    let mut i: usize = 0;
    while i < list.len()
        invariant
            i <= list@.len(),
            forall|k: int| 0 <= k < i ==> #[trigger] list@[k] != b,
        decreases list@.len() - i,
    {
        if list[i] == b {
            return true;
        }
        i = i + 1;
    }
    false
}

/// Reaching backwards along turned edges is reaching.
pub proof fn lemma_turned(g: Seq<Seq<usize>>, h: Seq<Seq<usize>>, a: int, b: int)
    requires
        turned(g, h),
        reaches(h, a, b),
    ensures
        reaches(g, b, a),
{
    let p = choose|p: Seq<int>| leads(h, p, a, b);
    let q = p.reverse();
    assert forall|i: int| 0 <= i < q.len() - 1 implies #[trigger] linked(g, q[i], q[i + 1]) by {
        let j = p.len() - 2 - i;
        assert(linked(h, p[j], p[j + 1]));
        assert(linked(g, p[j + 1], p[j]));
    }
    assert(leads(g, q, b, a));
}

} // verus!
