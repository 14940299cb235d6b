//! Loop fission repeats no effect, its halves share no storage, and the second
//! follows the first.

use crate::ir::inst::{
    block_pos, lemma_block_pos, BlockId, BlockView, FuncView, InstView, ModuleView, Op, TermView,
    ValueId,
};
use crate::ir::loops::{back_sources, in_loop};
use crate::opt::alias::{alias, AliasResult};
use crate::opt::clone::{
    block_names, body_of, clones, in_body, lemma_body_upto, lemma_has_clone, value_names,
    with_clones,
};
use crate::opt::fission::{
    access_of, block_cannot_repeat, block_names_used, can_swap, cannot_repeat, computes, fissioned,
    has_room, is_split, leaves, lemma_without_inst, loop_body, loop_slice, rerouted_at, split_func,
    splittable, with_bridge, without_inst, LoopFission, Split,
};
use crate::opt::insts::insts_of;
use crate::opt::pass::Pass;
use crate::opt::places::{
    aliasing_is_about_places, laid_out, params_are_named, touches, Place, Whereabouts,
};
use crate::target::TargetLayout;
use vstd::prelude::*;

verus! {

/// Does it show how often an operation is done? Plain stores apart: to store a
/// value twice is to store it.
pub open spec fn counts(op: Op) -> bool {
    match op {
        Op::CallInternal(_) | Op::CallExternal(_) | Op::CallIndirect | Op::RuntimeCall(_) => true,
        Op::VolatileLoad | Op::VolatileStore | Op::VStore => true,
        _ => false,
    }
}

/// How often an operation stands in a list.
pub open spec fn copies_in(s: Seq<InstView>, op: Op) -> nat
    decreases s.len(),
{
    if s.len() == 0 {
        0
    } else {
        copies_in(s.drop_last(), op) + if s.last().kind.op == op {
            1nat
        } else {
            0nat
        }
    }
}

/// How often an operation stands in the first `n` blocks.
pub open spec fn copies_upto(blocks: Seq<BlockView>, n: nat, op: Op) -> nat
    decreases n,
{
    if n == 0 {
        0
    } else {
        copies_upto(blocks, (n - 1) as nat, op) + copies_in(blocks[n - 1].insts, op)
    }
}

/// How often an operation stands in a function.
pub open spec fn copies(f: FuncView, op: Op) -> nat {
    copies_upto(f.blocks, f.blocks.len(), op)
}

proof fn lemma_no_copy(s: Seq<InstView>, op: Op)
    requires
        forall|k: int| 0 <= k < s.len() ==> (#[trigger] s[k]).kind.op != op,
    ensures
        copies_in(s, op) == 0,
    decreases s.len(),
{
    if s.len() > 0 {
        assert(s[s.len() - 1] == s.last());
        let t = s.drop_last();
        assert forall|k: int| 0 <= k < t.len() implies (#[trigger] t[k]).kind.op != op by {
            assert(t[k] == s[k]);
        }
        lemma_no_copy(t, op);
    }
}

proof fn lemma_removed(s: Seq<InstView>, k: int, op: Op)
    requires
        0 <= k < s.len(),
        s[k].kind.op != op,
    ensures
        copies_in(s.remove(k), op) == copies_in(s, op),
    decreases s.len(),
{
    let t = s.remove(k);
    if k == s.len() - 1 {
        assert(t =~= s.drop_last());
    } else {
        assert(t.drop_last() =~= s.drop_last().remove(k));
        assert(t.last() == s.last());
        lemma_removed(s.drop_last(), k, op);
    }
}

proof fn lemma_copies_upto(a: Seq<BlockView>, b: Seq<BlockView>, n: nat, op: Op)
    requires
        n <= a.len(),
        n <= b.len(),
        forall|i: int|
            0 <= i < n ==> copies_in((#[trigger] a[i]).insts, op) == copies_in(b[i].insts, op),
    ensures
        copies_upto(a, n, op) == copies_upto(b, n, op),
    decreases n,
{
    if n > 0 {
        lemma_copies_upto(a, b, (n - 1) as nat, op);
        assert(copies_in(a[n - 1].insts, op) == copies_in(b[n - 1].insts, op));
    }
}

proof fn lemma_copies_none(a: Seq<BlockView>, m: nat, n: nat, op: Op)
    requires
        m <= n <= a.len(),
        forall|i: int| m <= i < n ==> copies_in((#[trigger] a[i]).insts, op) == 0,
    ensures
        copies_upto(a, n, op) == copies_upto(a, m, op),
    decreases n,
{
    if m < n {
        lemma_copies_none(a, m, (n - 1) as nat, op);
        assert(copies_in(a[n - 1].insts, op) == 0);
    }
}

/// The instructions of a function whose loop is split: those of the function but
/// for a store, those of the copied blocks but for a store, and no others.
proof fn lemma_halves(f: FuncView, layout: TargetLayout, h: BlockId, s: Split) -> (r: int)
    requires
        is_split(f, layout, h, s),
        has_room(f),
        block_names_used(f),
    ensures
        ({
            let g = split_func(f, h, s);
            let n = f.blocks.len();
            let c = clones(f, loop_body(f, h));
            let a = block_pos(f.blocks, s.block);
            &&& 0 <= a < n
            &&& 0 <= r < c.len()
            &&& body_of(f, loop_body(f, h))[r] == a
            &&& g.blocks.len() == n + c.len() + 1
            &&& forall|i: int|
                0 <= i < n ==> (#[trigger] g.blocks[i]).insts == if i == a {
                    f.blocks[i].insts.remove(s.second as int)
                } else {
                    f.blocks[i].insts
                }
            &&& forall|i: int|
                0 <= i < c.len() ==> (#[trigger] g.blocks[n + i]).insts == if i == r {
                    c[i].insts.remove(s.first as int)
                } else {
                    c[i].insts
                }
            &&& g.blocks[(n + c.len()) as int].insts.len() == 0
        }),
{
    let body = loop_body(f, h);
    let a = block_pos(f.blocks, s.block);
    lemma_block_pos(f.blocks, s.block);
    assert(computes(f, h, back_sources(f, f.blocks.len(), h)[0], a));
    let r = lemma_has_clone(f, body, s.block);
    lemma_body_upto(f, body, f.blocks.len());
    let c = with_clones(f, body);
    let name = block_names(f, body)[s.block];
    let n = f.blocks.len();
    let b = f.blocks[a];
    lemma_block_pos(c.blocks, s.block);
    lemma_block_pos(c.blocks, name);
    assert(c.blocks[a] == b);
    assert(block_pos(c.blocks, s.block) == a) by {
        let p = block_pos(c.blocks, s.block);
        if p < a {
            assert(c.blocks[p] == f.blocks[p]);
        }
    }
    assert(block_pos(c.blocks, name) == n + r) by {
        let p = block_pos(c.blocks, name);
        assert(c.blocks[n + r] == clones(f, body)[r]);
        if p < n {
            assert(c.blocks[p] == f.blocks[p]);
            assert(f.blocks[p].id.0 < f.next_block);
        } else {
            assert(c.blocks[p] == clones(f, body)[p - n]);
        }
    }
    let copy = c.blocks[n + r];
    assert(copy == clones(f, body)[r]);
    assert(copy.insts.len() == b.insts.len());
    let d = without_inst(c, s.block, s.second as int);
    assert(d.blocks[n + r] == copy);
    assert(forall|i: int| 0 <= i < c.blocks.len() ==> (#[trigger] d.blocks[i]).id == c.blocks[i].id);
    lemma_without_inst(c, s.block, s.second as int, name);
    lemma_block_pos(d.blocks, name);
    assert(block_pos(d.blocks, name) == n + r) by {
        let p = block_pos(d.blocks, name);
        assert(d.blocks[p].id == c.blocks[p].id);
        assert(d.blocks[n + r].id == name);
        if p < n + r {
            assert(c.blocks[p].id == name);
        }
    }
    let e = without_inst(d, name, s.first as int);
    let g = split_func(f, h, s);
    assert forall|i: int| 0 <= i < n implies (#[trigger] g.blocks[i]).insts == if i == a {
        f.blocks[i].insts.remove(s.second as int)
    } else {
        f.blocks[i].insts
    } by {
        assert(g.blocks[i].insts == e.blocks[i].insts);
        assert(c.blocks[i] == f.blocks[i]);
    }
    assert forall|i: int| 0 <= i < clones(f, body).len() implies (#[trigger] g.blocks[n + i]).insts == if i
        == r {
        clones(f, body)[i].insts.remove(s.first as int)
    } else {
        clones(f, body)[i].insts
    } by {
        assert(c.blocks[n + i] == clones(f, body)[i]);
        assert(g.blocks[n + i].insts == e.blocks[n + i].insts);
    }
    r
}

/// A loop that is split holds nothing of which it shows how often it is done.
pub proof fn split_loops_have_no_effects(
    f: FuncView,
    layout: TargetLayout,
    h: BlockId,
    s: Split,
    i: int,
    k: int,
)
    requires
        is_split(f, layout, h, s),
        0 <= i < f.blocks.len(),
        in_loop(f, h, f.blocks[i].id),
        block_pos(f.blocks, f.blocks[i].id) == i,
        0 <= k < f.blocks[i].insts.len(),
    ensures
        !counts(f.blocks[i].insts[k].kind.op),
{
    assert(in_body(f, loop_body(f, h), i));
    assert(!block_cannot_repeat(f.blocks[i]));
    assert(!cannot_repeat(f.blocks[i].insts[k].kind.op));
}

/// Splitting a loop repeats no effect: each call, each runtime call, each volatile
/// access and each store of a vector stands in the function as often as before.
pub proof fn splitting_repeats_no_effect(
    f: FuncView,
    layout: TargetLayout,
    h: BlockId,
    s: Split,
    op: Op,
)
    requires
        is_split(f, layout, h, s),
        has_room(f),
        block_names_used(f),
        counts(op),
    ensures
        copies(split_func(f, h, s), op) == copies(f, op),
{
    let r = lemma_halves(f, layout, h, s);
    let body = loop_body(f, h);
    let g = split_func(f, h, s);
    let n = f.blocks.len();
    let c = clones(f, body);
    let a = block_pos(f.blocks, s.block);
    lemma_body_upto(f, body, n);
    assert forall|i: int| 0 <= i < n implies copies_in((#[trigger] g.blocks[i]).insts, op) == copies_in(
        f.blocks[i].insts,
        op,
    ) by {
        if i == a {
            assert(f.blocks[a].insts[s.second as int].kind.op is Store);
            lemma_removed(f.blocks[a].insts, s.second as int, op);
        }
    }
    lemma_copies_upto(g.blocks, f.blocks, n, op);
    assert forall|i: int| n <= i < g.blocks.len() implies copies_in((#[trigger] g.blocks[i]).insts, op)
        == 0 by {
        if i < n + c.len() {
            let j = i - n;
            let at = body_of(f, body)[j];
            assert(in_body(f, body, at));
            assert forall|k: int| 0 <= k < c[j].insts.len() implies (#[trigger] c[j].insts[k]).kind.op
                != op by {
                assert(c[j].insts[k].kind.op == f.blocks[at].insts[k].kind.op);
                split_loops_have_no_effects(f, layout, h, s, at, k);
            }
            assert(g.blocks[n + j] == g.blocks[i]);
            if j == r {
                let t = c[j].insts.remove(s.first as int);
                assert forall|k: int| 0 <= k < t.len() implies (#[trigger] t[k]).kind.op != op by {
                    if k < s.first {
                        assert(t[k] == c[j].insts[k]);
                    } else {
                        assert(t[k] == c[j].insts[k + 1]);
                    }
                }
                lemma_no_copy(t, op);
            } else {
                lemma_no_copy(c[j].insts, op);
            }
        } else {
            lemma_no_copy(g.blocks[i].insts, op);
        }
    }
    lemma_copies_none(g.blocks, n, g.blocks.len(), op);
}

/// The pass repeats no effect in any function.
pub proof fn fission_repeats_no_effect(
    before: ModuleView,
    after: ModuleView,
    changed: bool,
    i: int,
    op: Op,
)
    requires
        LoopFission.outcome(before, after, changed),
        0 <= i < before.functions.len(),
        has_room(before.functions[i]),
        block_names_used(before.functions[i]),
        counts(op),
    ensures
        copies(after.functions[i], op) == copies(before.functions[i], op),
{
    let f = before.functions[i];
    let g = after.functions[i];
    assert(fissioned(f, before.layout, g));
    if splittable(f, before.layout) {
        let (h, s) = choose|h: BlockId, s: Split| #[trigger]
            is_split(f, before.layout, h, s) && g == split_func(f, h, s) && forall|
                k: BlockId,
                t: Split,
            | #[trigger] is_split(f, before.layout, k, t) ==> h.0 <= k.0;
        splitting_repeats_no_effect(f, before.layout, h, s, op);
    }
}

/// The pointer through which an instruction reads memory.
pub open spec fn reads_through(i: InstView) -> Option<ValueId> {
    match i.kind.op {
        Op::Load | Op::VolatileLoad | Op::VLoad => Some(i.kind.args[0]),
        _ => None,
    }
}

/// The pointer through which an instruction writes memory.
pub open spec fn writes_through(i: InstView) -> Option<ValueId> {
    match i.kind.op {
        Op::Store | Op::VolatileStore | Op::VStore => Some(i.kind.args[1]),
        _ => None,
    }
}

/// Is an instruction of the function one that a store of the loop needs?
pub open spec fn needed_for(f: FuncView, h: BlockId, root: ValueId, i: int) -> bool {
    0 <= i < insts_of(f).len() && loop_slice(f, h, root)(insts_of(f)[i].id)
}

/// What one half of a split loop writes, the other half neither reads nor writes,
/// wherever the pointers point.
pub proof fn halves_share_no_storage(
    w: Whereabouts,
    f: FuncView,
    layout: TargetLayout,
    h: BlockId,
    s: Split,
    i: int,
    j: int,
    p: ValueId,
    q: ValueId,
    place: Place,
)
    requires
        is_split(f, layout, h, s),
        laid_out(w, f, layout),
        params_are_named(f),
        needed_for(f, h, f.blocks[block_pos(f.blocks, s.block)].insts[s.first as int].id, i),
        needed_for(f, h, f.blocks[block_pos(f.blocks, s.block)].insts[s.second as int].id, j),
        (writes_through(insts_of(f)[i]) == Some(p) && (reads_through(insts_of(f)[j]) == Some(q)
            || writes_through(insts_of(f)[j]) == Some(q))) || (reads_through(insts_of(f)[i]) == Some(p)
            && writes_through(insts_of(f)[j]) == Some(q)),
    ensures
        !(touches(w, f, p, place) && touches(w, f, q, place)),
{
    let x = insts_of(f)[i];
    let y = insts_of(f)[j];
    assert(access_of(x) is Some && access_of(y) is Some);
    assert(can_swap(f, layout, access_of(x)->0, access_of(y)->0));
    assert(alias(f, layout, p, q) == AliasResult::NoAlias);
    aliasing_is_about_places(w, f, layout, p, q);
}

/// What a map has for a name, or the name itself.
pub open spec fn mapped<K>(m: Map<K, K>, k: K) -> K {
    if m.contains_key(k) {
        m[k]
    } else {
        k
    }
}

/// Are the values of two lists those of the map, place by place?
pub open spec fn lists_mirror(a: Seq<ValueId>, b: Seq<ValueId>, vm: Map<ValueId, ValueId>) -> bool {
    &&& a.len() == b.len()
    &&& forall|j: int| 0 <= j < a.len() ==> #[trigger] b[j] == mapped(vm, a[j])
}

/// Does the second terminator do with the mapped names what the first does?
pub open spec fn terms_mirror(
    t: TermView,
    u: TermView,
    bm: Map<BlockId, BlockId>,
    vm: Map<ValueId, ValueId>,
) -> bool {
    match (t, u) {
        (TermView::Return(None), TermView::Return(None)) => true,
        (TermView::Return(Some(v)), TermView::Return(Some(w))) => w == mapped(vm, v),
        (TermView::Branch(d, a), TermView::Branch(e, b)) => e == mapped(bm, d) && lists_mirror(
            a,
            b,
            vm,
        ),
        (
            TermView::CondBranch { cond: c, true_dest: d, true_args: a, false_dest: x, false_args: y },
            TermView::CondBranch { cond, true_dest, true_args, false_dest, false_args },
        ) => {
            &&& cond == mapped(vm, c)
            &&& true_dest == mapped(bm, d)
            &&& false_dest == mapped(bm, x)
            &&& lists_mirror(a, true_args, vm)
            &&& lists_mirror(y, false_args, vm)
        },
        (
            TermView::Switch { selector: v, cases: p, default: d },
            TermView::Switch { selector, cases, default },
        ) => {
            &&& selector == mapped(vm, v)
            &&& default == mapped(bm, d)
            &&& cases.len() == p.len()
            &&& forall|j: int|
                0 <= j < p.len() ==> #[trigger] cases[j] == (p[j].0, mapped(bm, p[j].1))
        },
        (TermView::Unreachable, TermView::Unreachable) => true,
        _ => false,
    }
}

/// Does the second instruction do with the mapped names what the first does?
pub open spec fn insts_mirror(a: InstView, b: InstView, vm: Map<ValueId, ValueId>) -> bool {
    &&& b.id == mapped(vm, a.id)
    &&& b.ty == a.ty
    &&& b.kind.op == a.kind.op
    &&& lists_mirror(a.kind.args, b.kind.args, vm)
}

/// A copied block does with the new names what the block does with its own.
pub proof fn copies_mirror_their_blocks(f: FuncView, h: BlockId, r: int)
    requires
        0 <= r < clones(f, loop_body(f, h)).len(),
    ensures
        ({
            let body = loop_body(f, h);
            let b = f.blocks[body_of(f, body)[r]];
            let c = clones(f, body)[r];
            let bm = block_names(f, body);
            let vm = value_names(f, body);
            &&& c.insts.len() == b.insts.len()
            &&& forall|k: int|
                0 <= k < b.insts.len() ==> insts_mirror(#[trigger] b.insts[k], c.insts[k], vm)
            &&& c.params.len() == b.params.len()
            &&& forall|k: int|
                0 <= k < b.params.len() ==> (#[trigger] c.params[k]).id == mapped(vm, b.params[k].id)
                    && c.params[k].ty == b.params[k].ty
            &&& b.term is Some == c.term is Some
            &&& b.term is Some ==> terms_mirror(b.term->0, c.term->0, bm, vm)
        }),
{
}

/// The first of the two loops is the loop up to where it is left; there control
/// goes on to the second, which starts as the first did. The second leads out of
/// itself where the loop led.
pub proof fn second_loop_follows_the_first(f: FuncView, layout: TargetLayout, h: BlockId, s: Split)
    requires
        is_split(f, layout, h, s),
        has_room(f),
        block_names_used(f),
    ensures
        ({
            let g = split_func(f, h, s);
            let n = f.blocks.len();
            let c = clones(f, loop_body(f, h));
            let last = g.blocks[(n + c.len()) as int];
            &&& g.blocks.len() == n + c.len() + 1
            &&& forall|i: int|
                0 <= i < n ==> (#[trigger] g.blocks[i]).id == f.blocks[i].id && g.blocks[i].params
                    == f.blocks[i].params
            &&& forall|i: int|
                0 <= i < n && i != s.exit_at ==> (#[trigger] g.blocks[i]).term == f.blocks[i].term
            &&& (f.blocks[s.exit_at as int].term matches Some(
                TermView::CondBranch { cond, true_dest, true_args, .. },
            ) && g.blocks[s.exit_at as int].term == Some(
                TermView::CondBranch {
                    cond,
                    true_dest,
                    true_args,
                    false_dest: last.id,
                    false_args: Seq::empty(),
                },
            ))
            &&& last.params.len() == 0
            &&& last.insts.len() == 0
            &&& (last.term matches Some(TermView::Branch(d, args)) && d == block_names(
                f,
                loop_body(f, h),
            )[h] && args == seq![s.init])
            &&& forall|i: int|
                0 <= i < c.len() ==> (#[trigger] g.blocks[n + i]).term == c[i].term && g.blocks[n + i].id
                    == c[i].id && g.blocks[n + i].params == c[i].params
        }),
{
    let body = loop_body(f, h);
    let n = f.blocks.len();
    let cl = clones(f, body);
    let c = with_clones(f, body);
    let name = block_names(f, body)[s.block];
    lemma_block_pos(f.blocks, s.block);
    assert(computes(f, h, back_sources(f, n, h)[0], block_pos(f.blocks, s.block)));
    let r = lemma_has_clone(f, body, s.block);
    lemma_block_pos(c.blocks, s.block);
    let d = without_inst(c, s.block, s.second as int);
    lemma_without_inst(c, s.block, s.second as int, name);
    lemma_block_pos(d.blocks, name);
    let e = without_inst(d, name, s.first as int);
    let g = split_func(f, h, s);
    let w = with_bridge(e, block_names(f, body)[h], s.init);
    assert(g == rerouted_at(w, s.exit_at as int, BlockId(e.next_block)));
    assert forall|i: int| 0 <= i < c.blocks.len() implies (#[trigger] e.blocks[i]).term == c.blocks[i].term
        && e.blocks[i].id == c.blocks[i].id && e.blocks[i].params == c.blocks[i].params by {
        assert(d.blocks[i].term == c.blocks[i].term);
    }
    assert forall|i: int| 0 <= i < n implies (#[trigger] g.blocks[i]).id == f.blocks[i].id
        && g.blocks[i].params == f.blocks[i].params by {
        assert(c.blocks[i] == f.blocks[i]);
        assert(e.blocks[i].id == c.blocks[i].id);
    }
    assert forall|i: int| 0 <= i < n && i != s.exit_at implies (#[trigger] g.blocks[i]).term
        == f.blocks[i].term by {
        assert(c.blocks[i] == f.blocks[i]);
        assert(g.blocks[i] == e.blocks[i]);
    }
    let x = s.exit_at as int;
    assert(c.blocks[x] == f.blocks[x]);
    assert(e.blocks[x].term == f.blocks[x].term);
    assert(w.blocks[x] == e.blocks[x]);
    assert(leaves(f, body, x));
    assert forall|i: int| 0 <= i < cl.len() implies (#[trigger] g.blocks[n + i]).term == cl[i].term
        && g.blocks[n + i].id == cl[i].id && g.blocks[n + i].params == cl[i].params by {
        assert(c.blocks[n + i] == cl[i]);
        assert(g.blocks[n + i] == e.blocks[n + i]);
    }
}

} // verus!
