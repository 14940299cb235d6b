//! Sound functions stay sound where dead code is dropped.

use crate::ir::cfg::targets_of;
use crate::ir::dom::dominates;
use crate::ir::inst::{
    block_param_defs, defs, defs_upto, has_block, inst_defs, is_first_block, last_def,
    lemma_block_pos, lemma_last_def, param_defs, the_block, type_of, BlockId, BlockView, Def,
    FuncView, InstView, TermView, ValueId,
};
use crate::ir::keep::{
    all_operands, has_operands, lemma_same_consistency, lemma_same_dominance, lemma_same_place,
    same_graph,
};
use crate::ir::sound::{
    all_defined, all_on_the_way, defined_on_the_way, sound_block, sound_function, type_agrees,
    typed_block,
};
use crate::ir::verify::{
    branch_arg_msgs, branch_msgs, case_msgs, consistency_msgs, defined_before, edge_msgs,
    has_duplicate_blocks, is_defined, last_inst_pos, lemma_gather_empty, return_msgs,
};
use crate::ir::walk::{term_targets, term_uses};
use crate::lists::{lemma_masked_filter, lemma_masked_same, masked};
use crate::opt::dce::{
    arg_stays, block_reads, cleaned, has_dead_inst, has_dead_param, inst_count, kept_values,
    lemma_sweep_shrinks, lemma_swept_params, lemma_trim_shrinks, live_func, param_count,
    param_mask, reads, stays, swept, swept_once, trimmed_args, trimmed_func, trimmed_term,
};
use crate::opt::prune_laws::{
    agree_on, lemma_in_concat, lemma_left_term, lemma_sound_unique, lemma_unique_def, own_defs,
    pruning_keeps_soundness, same_target, unique,
};
use vstd::prelude::*;

verus! {

/// The places below `n` where `keep` holds.
pub open spec fn places(keep: Seq<bool>, n: nat) -> Seq<int>
    decreases n,
{
    if n == 0 {
        Seq::empty()
    } else if keep[n - 1] {
        places(keep, (n - 1) as nat).push(n - 1)
    } else {
        places(keep, (n - 1) as nat)
    }
}

/// Do these places ascend below `n`?
pub open spec fn ascend(at: Seq<int>, n: nat) -> bool {
    &&& forall|k: int| 0 <= k < at.len() ==> 0 <= #[trigger] at[k] < n
    &&& forall|j: int, k: int| 0 <= j < k < at.len() ==> #[trigger] at[j] < #[trigger] at[k]
}

/// The places ascend, and are those where `keep` holds.
pub proof fn lemma_places(keep: Seq<bool>, n: nat)
    ensures
        ascend(places(keep, n), n),
        forall|i: int| #[trigger] places(keep, n).contains(i) == (0 <= i < n && keep[i]),
    decreases n,
{
    if n > 0 {
        let before = places(keep, (n - 1) as nat);
        let now = places(keep, n);
        lemma_places(keep, (n - 1) as nat);
        assert forall|i: int| #[trigger] now.contains(i) == (0 <= i < n && keep[i]) by {
            assert(before.contains(i) == (0 <= i < n - 1 && keep[i]));
            if before.contains(i) {
                assert(now[before.index_of(i)] == i);
            }
            if i == n - 1 && keep[n - 1] {
                assert(now[now.len() - 1] == i);
            }
            if now.contains(i) && i != n - 1 {
                assert(before[now.index_of(i)] == i);
            }
            if i == n - 1 && !keep[n - 1] {
                assert(!before.contains(i));
            }
        }
    }
}

proof fn lemma_masked_at<T>(s: Seq<T>, keep: Seq<bool>)
    ensures
        masked(s, keep).len() == places(keep, s.len()).len(),
        forall|k: int|
            0 <= k < masked(s, keep).len() ==> #[trigger] masked(s, keep)[k] == s[places(
                keep,
                s.len(),
            )[k]],
    decreases s.len(),
{
    if s.len() > 0 {
        let t = s.drop_last();
        lemma_masked_at(t, keep);
        lemma_places(keep, t.len());
    }
}

/// Is `t` what `s` holds at these ascending places?
pub open spec fn picked<T>(s: Seq<T>, t: Seq<T>, at: Seq<int>) -> bool {
    &&& at.len() == t.len()
    &&& ascend(at, s.len())
    &&& forall|k: int| 0 <= k < t.len() ==> #[trigger] t[k] == s[at[k]]
}

/// Is `t` a part of `s` in the same order?
pub open spec fn part_of<T>(s: Seq<T>, t: Seq<T>) -> bool {
    exists|at: Seq<int>| picked(s, t, at)
}

/// What is kept stands at the places where it is kept.
pub proof fn lemma_masked_part<T>(s: Seq<T>, keep: Seq<bool>)
    ensures
        picked(s, masked(s, keep), places(keep, s.len())),
        part_of(s, masked(s, keep)),
{
    lemma_masked_at(s, keep);
    lemma_places(keep, s.len());
    assert(picked(s, masked(s, keep), places(keep, s.len())));
}

/// A list is a part of itself.
pub proof fn lemma_whole_part<T>(s: Seq<T>)
    ensures
        part_of(s, s),
{
    assert(picked(s, s, Seq::new(s.len(), |i: int| i)));
}

/// Parts of two lists make a part of both.
pub proof fn lemma_part_concat<T>(a: Seq<T>, b: Seq<T>, s: Seq<T>, t: Seq<T>)
    requires
        part_of(a, s),
        part_of(b, t),
    ensures
        part_of(a + b, s + t),
{
    let p = choose|at: Seq<int>| picked(a, s, at);
    let q = choose|at: Seq<int>| picked(b, t, at);
    let at = p + Seq::new(q.len(), |i: int| a.len() + q[i]);
    assert forall|k: int| 0 <= k < (s + t).len() implies #[trigger] (s + t)[k] == (a + b)[at[k]] by {
        if k < s.len() {
            assert(s[k] == a[p[k]]);
        } else {
            assert(t[k - s.len()] == b[q[k - s.len()]]);
        }
    }
    assert(picked(a + b, s + t, at));
}

/// A part of a list names nothing twice where the list does not.
pub proof fn lemma_part_unique(s: Seq<Def>, t: Seq<Def>)
    requires
        part_of(s, t),
    ensures
        unique(s) ==> unique(t),
        forall|d: Def| #[trigger] t.contains(d) ==> s.contains(d),
{
    let at = choose|at: Seq<int>| picked(s, t, at);
    if unique(s) {
        assert forall|i: int, j: int| 0 <= i < j < t.len() implies (#[trigger] t[i]).id != (
        #[trigger] t[j]).id by {
            assert(at[i] < at[j]);
            assert(s[at[i]].id != s[at[j]].id);
        }
    }
    assert forall|d: Def| #[trigger] t.contains(d) implies s.contains(d) by {
        let k = t.index_of(d);
        assert(s[at[k]] == d);
    }
}

/// Blocks that define a part of what others define do so together.
pub proof fn lemma_part_defs(s: Seq<BlockView>, t: Seq<BlockView>, n: nat)
    requires
        n <= s.len(),
        s.len() == t.len(),
        forall|i: int| 0 <= i < s.len() ==> part_of(own_defs(s[i]), own_defs(#[trigger] t[i])),
    ensures
        part_of(defs_upto(s, n), defs_upto(t, n)),
    decreases n,
{
    if n == 0 {
        lemma_whole_part(Seq::<Def>::empty());
    } else {
        lemma_part_defs(s, t, (n - 1) as nat);
        let a = defs_upto(s, (n - 1) as nat);
        let b = defs_upto(t, (n - 1) as nat);
        assert(part_of(own_defs(s[n - 1]), own_defs(t[n - 1])));
        lemma_part_concat(a, own_defs(s[n - 1]), b, own_defs(t[n - 1]));
        assert(defs_upto(s, n) =~= a + own_defs(s[n - 1]));
        assert(defs_upto(t, n) =~= b + own_defs(t[n - 1]));
    }
}

/// A definition of some of the blocks is one of one block.
pub proof fn lemma_def_place(s: Seq<BlockView>, n: nat, d: Def)
    requires
        n <= s.len(),
    ensures
        defs_upto(s, n).contains(d) == exists|i: int|
            0 <= i < n && own_defs(#[trigger] s[i]).contains(d),
    decreases n,
{
    if n > 0 {
        lemma_def_place(s, (n - 1) as nat, d);
        let a = defs_upto(s, (n - 1) as nat);
        assert(defs_upto(s, n) =~= a + own_defs(s[n - 1]));
        lemma_in_concat(a, own_defs(s[n - 1]), d);
    }
}

/// The last place of an instruction is the last one.
pub proof fn lemma_last_pos(s: Seq<InstView>, n: nat, v: ValueId)
    requires
        n <= s.len(),
    ensures
        match last_inst_pos(s, n, v) {
            Some(p) => 0 <= p < n && s[p].id == v && forall|k: int|
                p < k < n ==> (#[trigger] s[k]).id != v,
            None => forall|k: int| 0 <= k < n ==> (#[trigger] s[k]).id != v,
        },
    decreases n,
{
    if n > 0 {
        lemma_last_pos(s, (n - 1) as nat, v);
    }
}

/// Is `g` a function `f` of which definitions and reads are dropped, but no
/// definition that is read?
pub open spec fn thinned(f: FuncView, g: FuncView) -> bool {
    &&& same_graph(f.blocks, g.blocks)
    &&& g.entry == f.entry
    &&& part_of(param_defs(f.params, f.entry), param_defs(g.params, g.entry))
    &&& forall|d: Def| #[trigger]
        param_defs(f.params, f.entry).contains(d) && reads(g, d.id) ==> param_defs(
            g.params,
            g.entry,
        ).contains(d)
    &&& g.return_type == f.return_type
    &&& g.type_cache == f.type_cache
    &&& forall|i: int| 0 <= i < f.blocks.len() ==> part_of(f.blocks[i].insts, (#[trigger] g.blocks[i]).insts)
    &&& forall|i: int|
        0 <= i < f.blocks.len() ==> part_of(own_defs(f.blocks[i]), own_defs(#[trigger] g.blocks[i]))
    &&& forall|i: int| #![trigger g.blocks[i]]
        0 <= i < f.blocks.len() && f.blocks[i].term is Some ==> g.blocks[i].term is Some && forall|v: ValueId| #[trigger]
            term_uses(g.blocks[i].term->0).contains(v) ==> term_uses(f.blocks[i].term->0).contains(v)
    &&& forall|i: int, d: Def|
        #![trigger own_defs(g.blocks[i]).contains(d)]
        0 <= i < f.blocks.len() && own_defs(f.blocks[i]).contains(d) && reads(g, d.id) ==> own_defs(
            g.blocks[i],
        ).contains(d)
}

proof fn lemma_thin_defs(f: FuncView, g: FuncView)
    requires
        sound_function(f),
        thinned(f, g),
    ensures
        unique(defs(f)),
        unique(defs(g)),
        forall|d: Def| #[trigger] defs(g).contains(d) ==> defs(f).contains(d),
        forall|d: Def| #[trigger] defs(f).contains(d) && reads(g, d.id) ==> defs(g).contains(d),
{
    let pre = param_defs(f.params, f.entry);
    let now = param_defs(g.params, g.entry);
    let n = f.blocks.len();
    lemma_sound_unique(f);
    lemma_part_defs(f.blocks, g.blocks, n);
    lemma_part_concat(pre, defs_upto(f.blocks, n), now, defs_upto(g.blocks, n));
    lemma_part_unique(defs(f), defs(g));
    assert forall|d: Def| #[trigger] defs(f).contains(d) && reads(g, d.id) implies defs(g).contains(
        d,
    ) by {
        lemma_in_concat(pre, defs_upto(f.blocks, n), d);
        lemma_in_concat(now, defs_upto(g.blocks, n), d);
        if !pre.contains(d) {
            lemma_def_place(f.blocks, n, d);
            lemma_def_place(g.blocks, n, d);
            let i = choose|i: int| 0 <= i < n && own_defs(#[trigger] f.blocks[i]).contains(d);
            assert(own_defs(g.blocks[i]).contains(d));
        }
    }
}

/// What is still read is still defined on every way, with the same type.
proof fn lemma_thin_use(
    f: FuncView,
    g: FuncView,
    i: int,
    at: Seq<int>,
    v: ValueId,
    here: int,
    there: int,
)
    requires
        sound_function(f),
        thinned(f, g),
        0 <= i < f.blocks.len(),
        picked(f.blocks[i].insts, g.blocks[i].insts, at),
        (here == at.len() && there == f.blocks[i].insts.len()) || (0 <= here < at.len() && there
            == at[here]),
        reads(g, v),
        is_defined(f, v),
        defined_on_the_way(f, f.blocks[i], v, there),
    ensures
        is_defined(g, v),
        defined_on_the_way(g, g.blocks[i], v, here),
        type_of(g, v) == type_of(f, v),
{
    let a = f.blocks[i].insts;
    let b = g.blocks[i].insts;
    lemma_last_def(defs(f), v);
    let d = last_def(defs(f), v)->0;
    lemma_thin_defs(f, g);
    assert(defs(f).contains(d));
    lemma_unique_def(defs(f), d);
    lemma_unique_def(defs(g), d);
    assert(defs(g)[defs(g).index_of(d)].id == v);
    lemma_same_dominance(f, g);
    assert(dominates(g, d.block, g.blocks[i].id) == dominates(f, d.block, f.blocks[i].id));
    lemma_last_pos(a, a.len(), v);
    lemma_last_pos(b, b.len(), v);
    if d.block == g.blocks[i].id {
        if let Some(p) = last_inst_pos(b, b.len(), v) {
            assert(b[p] == a[at[p]]);
            assert(a[at[p]].id == v);
            if here < at.len() && here <= p {
                assert(at[here] <= at[p]);
            }
        }
    }
}

proof fn lemma_thin_block(f: FuncView, g: FuncView, i: int)
    requires
        sound_function(f),
        all_operands(f),
        thinned(f, g),
        0 <= i < f.blocks.len(),
        branch_msgs(g, g.blocks[i].term->0, g.blocks[i].name).len() == 0,
        return_msgs(g, g.blocks[i].term->0, g.blocks[i].name).len() == 0,
    ensures
        sound_block(g, g.blocks[i]),
        typed_block(g, g.blocks[i]),
{
    let a = f.blocks[i];
    let b = g.blocks[i];
    assert(sound_block(f, a) && typed_block(f, a));
    assert(part_of(a.insts, b.insts));
    let at = choose|at: Seq<int>| picked(a.insts, b.insts, at);
    let t = b.term->0;
    let n = b.insts.len() as int;
    assert forall|k: int| 0 <= k < targets_of(b).len() implies has_block(
        g.blocks,
        #[trigger] targets_of(b)[k],
    ) by {
        assert(has_block(f.blocks, targets_of(a)[k]));
        lemma_same_place(f.blocks, g.blocks, targets_of(a)[k]);
    }
    assert forall|k: int| 0 <= k < term_uses(t).len() implies is_defined(g, #[trigger] term_uses(t)[k])
        && defined_on_the_way(g, b, term_uses(t)[k], n) by {
        let v = term_uses(t)[k];
        assert(term_uses(t).contains(v));
        let j = term_uses(a.term->0).index_of(v);
        assert(term_uses(a.term->0)[j] == v);
        assert(is_defined(f, v) && defined_on_the_way(f, a, v, a.insts.len() as int));
        assert(block_reads(g.blocks[i], v));
        lemma_thin_use(f, g, i, at, v, n, a.insts.len() as int);
    }
    assert forall|j: int| 0 <= j < b.insts.len() implies all_defined(
        g,
        (#[trigger] b.insts[j]).kind.args,
    ) && all_on_the_way(g, b, b.insts[j].kind.args, j) && consistency_msgs(g, b.insts[j]).len()
        == 0 by {
        let args = b.insts[j].kind.args;
        let old = a.insts[at[j]];
        assert(b.insts[j] == old);
        assert(has_operands(f.blocks[i].insts[at[j]]));
        assert(all_defined(f, old.kind.args) && all_on_the_way(f, a, old.kind.args, at[j]));
        assert(consistency_msgs(f, old).len() == 0);
        assert forall|k: int| 0 <= k < args.len() implies is_defined(g, #[trigger] args[k])
            && defined_on_the_way(g, b, args[k], j) && type_of(g, args[k]) == type_of(f, args[k]) by {
            assert(is_defined(f, args[k]) && defined_on_the_way(f, a, args[k], at[j]));
            assert(b.insts[j].kind.args.contains(args[k]));
            assert(block_reads(g.blocks[i], args[k]));
            lemma_thin_use(f, g, i, at, args[k], j, at[j]);
        }
        lemma_same_consistency(f, g, b.insts[j]);
    }
}

/// A function of which only what is not read is dropped stays sound, if its
/// branches still fit.
pub proof fn lemma_thinning(f: FuncView, g: FuncView)
    requires
        has_block(f.blocks, f.entry),
        sound_function(f),
        all_operands(f),
        thinned(f, g),
        the_block(g.blocks, g.entry).params.len() == 0,
        forall|i: int|
            0 <= i < g.blocks.len() ==> branch_msgs(
                g,
                (#[trigger] g.blocks[i]).term->0,
                g.blocks[i].name,
            ).len() == 0 && return_msgs(g, g.blocks[i].term->0, g.blocks[i].name).len() == 0,
    ensures
        sound_function(g),
        all_operands(g),
        has_block(g.blocks, g.entry),
{
    lemma_same_place(f.blocks, g.blocks, f.entry);
    assert(!has_duplicate_blocks(g)) by {
        assert forall|i: int| 0 <= i < g.blocks.len() implies is_first_block(
            g.blocks,
            (#[trigger] g.blocks[i]).id,
            i,
        ) by {
            assert(is_first_block(f.blocks, f.blocks[i].id, i));
        }
    }
    assert forall|i: int| 0 <= i < g.blocks.len() implies sound_block(g, #[trigger] g.blocks[i])
        && typed_block(g, g.blocks[i]) by {
        lemma_thin_block(f, g, i);
    }
    lemma_thin_defs(f, g);
    assert forall|i: int| 0 <= i < defs(g).len() implies #[trigger] type_agrees(g, i) by {
        assert(defs(g).contains(defs(g)[i]));
        let k = defs(f).index_of(defs(g)[i]);
        assert(defs(f)[k] == defs(g)[i]);
        assert(type_agrees(f, k));
    }
    assert forall|i: int| 0 <= i < defs(g).len() implies !#[trigger] defined_before(defs(g), i) by {}
    assert forall|b: int, j: int|
        0 <= b < g.blocks.len() && 0 <= j < g.blocks[b].insts.len() implies has_operands(
        #[trigger] g.blocks[b].insts[j],
    ) by {
        assert(part_of(f.blocks[b].insts, g.blocks[b].insts));
        let at = choose|at: Seq<int>| picked(f.blocks[b].insts, g.blocks[b].insts, at);
        assert(g.blocks[b].insts[j] == f.blocks[b].insts[at[j]]);
    }
}

/// What the end of a block still reads has its type.
proof fn lemma_thin_end(f: FuncView, g: FuncView, i: int)
    requires
        sound_function(f),
        thinned(f, g),
        0 <= i < f.blocks.len(),
    ensures
        agree_on(f, g, term_uses(g.blocks[i].term->0)),
{
    let a = f.blocks[i];
    let b = g.blocks[i];
    assert(sound_block(f, a));
    assert(part_of(a.insts, b.insts));
    let at = choose|at: Seq<int>| picked(a.insts, b.insts, at);
    let uses = term_uses(b.term->0);
    let old = term_uses(a.term->0);
    assert forall|k: int| 0 <= k < uses.len() implies type_of(g, #[trigger] uses[k]) == type_of(
        f,
        uses[k],
    ) by {
        assert(uses.contains(uses[k]));
        let j = old.index_of(uses[k]);
        assert(old[j] == uses[k]);
        assert(is_defined(f, old[j]) && defined_on_the_way(f, a, old[j], a.insts.len() as int));
        assert(block_reads(g.blocks[i], uses[k]));
        lemma_thin_use(f, g, i, at, uses[k], at.len() as int, a.insts.len() as int);
    }
}

/// Ends that stay as they are still fit.
pub proof fn lemma_unread_ends(f: FuncView, g: FuncView)
    requires
        sound_function(f),
        thinned(f, g),
        forall|i: int|
            0 <= i < f.blocks.len() ==> (#[trigger] g.blocks[i]).term == f.blocks[i].term
                && g.blocks[i].params == f.blocks[i].params && g.blocks[i].name
                == f.blocks[i].name,
    ensures
        forall|i: int|
            0 <= i < g.blocks.len() ==> branch_msgs(
                g,
                (#[trigger] g.blocks[i]).term->0,
                g.blocks[i].name,
            ).len() == 0 && return_msgs(g, g.blocks[i].term->0, g.blocks[i].name).len() == 0,
{
    assert forall|x: BlockId| has_block(f.blocks, x) implies #[trigger] same_target(f, g, x) by {
        lemma_same_place(f.blocks, g.blocks, x);
        lemma_block_pos(f.blocks, x);
    }
    assert forall|i: int| 0 <= i < g.blocks.len() implies branch_msgs(
        g,
        (#[trigger] g.blocks[i]).term->0,
        g.blocks[i].name,
    ).len() == 0 && return_msgs(g, g.blocks[i].term->0, g.blocks[i].name).len() == 0 by {
        let a = f.blocks[i];
        let t = a.term->0;
        assert(sound_block(f, a) && typed_block(f, a));
        lemma_thin_end(f, g, i);
        assert forall|x: BlockId| #[trigger] term_targets(t).contains(x) implies same_target(
            f,
            g,
            x,
        ) by {
            let k = targets_of(a).index_of(x);
            assert(has_block(f.blocks, targets_of(a)[k]));
        }
        lemma_left_term(f, g, t, a.name);
    }
}

/// Instructions that are left define what they defined.
pub proof fn lemma_part_own(a: BlockView, b: BlockView)
    requires
        b.id == a.id,
        part_of(a.params, b.params),
        part_of(a.insts, b.insts),
    ensures
        part_of(own_defs(a), own_defs(b)),
{
    let p = choose|at: Seq<int>| picked(a.params, b.params, at);
    let q = choose|at: Seq<int>| picked(a.insts, b.insts, at);
    assert forall|k: int| 0 <= k < b.params.len() implies #[trigger] block_param_defs(b)[k]
        == block_param_defs(a)[p[k]] by {
        assert(b.params[k] == a.params[p[k]]);
    }
    assert forall|k: int| 0 <= k < b.insts.len() implies #[trigger] inst_defs(b)[k] == inst_defs(
        a,
    )[q[k]] by {
        assert(b.insts[k] == a.insts[q[k]]);
    }
    assert(picked(block_param_defs(a), block_param_defs(b), p));
    assert(picked(inst_defs(a), inst_defs(b), q));
    lemma_part_concat(block_param_defs(a), inst_defs(a), block_param_defs(b), inst_defs(b));
}

proof fn lemma_swept_insts(f: FuncView, loose: Seq<bool>, kept: Set<ValueId>, i: int)
    requires
        0 <= i < f.blocks.len(),
    ensures
        part_of(f.blocks[i].insts, swept_once(f, loose, kept).blocks[i].insts),
        forall|k: int|
            0 <= k < f.blocks[i].insts.len() && stays(
                f,
                #[trigger] f.blocks[i].insts[k],
                loose,
                kept,
            ) ==> swept_once(f, loose, kept).blocks[i].insts.contains(f.blocks[i].insts[k]),
{
    let s = f.blocks[i].insts;
    let cond = |x: InstView| stays(f, x, loose, kept);
    let keep = Seq::new(s.len(), |k: int| cond(s[k]));
    lemma_masked_filter(s, keep, cond);
    lemma_masked_part(s, keep);
    assert(swept_once(f, loose, kept).blocks[i].insts == s.filter(cond));
    assert forall|k: int| 0 <= k < s.len() && stays(f, #[trigger] s[k], loose, kept) implies s.filter(
        cond,
    ).contains(s[k]) by {
        s.lemma_filter_contains(cond, k);
    }
}

/// What is read after a sweep was read before.
proof fn lemma_swept_reads(f: FuncView, loose: Seq<bool>, kept: Set<ValueId>, v: ValueId)
    requires
        reads(swept_once(f, loose, kept), v),
    ensures
        reads(f, v),
{
    let g = swept_once(f, loose, kept);
    let b = choose|b: int| 0 <= b < g.blocks.len() && block_reads(#[trigger] g.blocks[b], v);
    lemma_swept_insts(f, loose, kept, b);
    let at = choose|at: Seq<int>| picked(f.blocks[b].insts, g.blocks[b].insts, at);
    if exists|k: int|
        0 <= k < g.blocks[b].insts.len() && (#[trigger] g.blocks[b].insts[k]).kind.args.contains(v) {
        let k = choose|k: int|
            0 <= k < g.blocks[b].insts.len() && (#[trigger] g.blocks[b].insts[k]).kind.args.contains(
                v,
            );
        assert(g.blocks[b].insts[k] == f.blocks[b].insts[at[k]]);
    }
    assert(block_reads(f.blocks[b], v));
}

/// A sweep keeps a sound function sound.
proof fn lemma_sweep_sound(f: FuncView, loose: Seq<bool>, kept: Set<ValueId>)
    requires
        has_block(f.blocks, f.entry),
        sound_function(f),
        all_operands(f),
    ensures
        sound_function(swept_once(f, loose, kept)),
        all_operands(swept_once(f, loose, kept)),
        has_block(swept_once(f, loose, kept).blocks, f.entry),
{
    let g = swept_once(f, loose, kept);
    assert forall|i: int| 0 <= i < f.blocks.len() implies part_of(
        f.blocks[i].insts,
        (#[trigger] g.blocks[i]).insts,
    ) && part_of(own_defs(f.blocks[i]), own_defs(g.blocks[i])) by {
        lemma_swept_insts(f, loose, kept, i);
        lemma_whole_part(f.blocks[i].params);
        lemma_part_own(f.blocks[i], g.blocks[i]);
    }
    assert forall|i: int, d: Def|
        #![trigger own_defs(g.blocks[i]).contains(d)]
        0 <= i < f.blocks.len() && own_defs(f.blocks[i]).contains(d) && reads(
            g,
            d.id,
        ) implies own_defs(g.blocks[i]).contains(d) by {
        let a = f.blocks[i];
        let b = g.blocks[i];
        lemma_swept_reads(f, loose, kept, d.id);
        lemma_swept_insts(f, loose, kept, i);
        lemma_in_concat(block_param_defs(a), inst_defs(a), d);
        lemma_in_concat(block_param_defs(b), inst_defs(b), d);
        assert(block_param_defs(b) =~= block_param_defs(a));
        if !block_param_defs(a).contains(d) {
            let k = inst_defs(a).index_of(d);
            assert(inst_defs(a)[k] == d);
            assert(stays(f, f.blocks[i].insts[k], loose, kept));
            let j = b.insts.index_of(a.insts[k]);
            assert(b.insts[j] == a.insts[k]);
            assert(inst_defs(b)[j] == d);
        }
    }
    assert(same_graph(f.blocks, g.blocks));
    lemma_whole_part(param_defs(f.params, f.entry));
    assert(thinned(f, g));
    lemma_unread_ends(f, g);
    lemma_same_place(f.blocks, g.blocks, f.entry);
    lemma_block_pos(f.blocks, f.entry);
    lemma_thinning(f, g);
}

/// Sweeping keeps a sound function sound.
proof fn lemma_swept_sound(f: FuncView, loose: Seq<bool>, kept: Set<ValueId>)
    requires
        has_block(f.blocks, f.entry),
        sound_function(f),
        all_operands(f),
    ensures
        sound_function(swept(f, loose, kept)),
        all_operands(swept(f, loose, kept)),
        has_block(swept(f, loose, kept).blocks, f.entry),
        swept(f, loose, kept).entry == f.entry,
    decreases inst_count(f.blocks, f.blocks.len()),
{
    lemma_sweep_shrinks(f, loose, kept, f.blocks.len());
    if has_dead_inst(f, loose, kept) {
        lemma_sweep_sound(f, loose, kept);
        lemma_swept_sound(swept_once(f, loose, kept), loose, kept);
    }
}

/// What an end reads after trimming it read before, and it goes where it went.
proof fn lemma_trimmed_end(f: FuncView, t: TermView)
    ensures
        term_targets(trimmed_term(f, t)) == term_targets(t),
        forall|v: ValueId| #[trigger]
            term_uses(trimmed_term(f, t)).contains(v) ==> term_uses(t).contains(v),
{
    let now = term_uses(trimmed_term(f, t));
    let old = term_uses(t);
    match t {
        TermView::Branch(d, args) => {
            let keep = Seq::new(args.len(), |i: int| arg_stays(f, d, i));
            lemma_masked_part(args, keep);
            assert forall|v: ValueId| #[trigger] now.contains(v) implies old.contains(v) by {
                let k = now.index_of(v);
                assert(old[places(keep, args.len())[k]] == v);
            }
        },
        TermView::CondBranch { cond, true_dest, true_args, false_dest, false_args } => {
            let x = Seq::new(true_args.len(), |i: int| arg_stays(f, true_dest, i));
            let y = Seq::new(false_args.len(), |i: int| arg_stays(f, false_dest, i));
            lemma_masked_part(true_args, x);
            lemma_masked_part(false_args, y);
            let m = masked(true_args, x).len();
            assert forall|v: ValueId| #[trigger] now.contains(v) implies old.contains(v) by {
                let k = now.index_of(v);
                if k == 0 {
                    assert(old[0] == v);
                } else if k < 1 + m {
                    assert(masked(true_args, x)[k - 1] == v);
                    assert(old[1 + places(x, true_args.len())[k - 1]] == v);
                } else {
                    assert(masked(false_args, y)[k - 1 - m] == v);
                    assert(old[1 + true_args.len() + places(y, false_args.len())[k - 1 - m]] == v);
                }
            }
        },
        _ => {},
    }
}

/// What is read after trimming was read before.
proof fn lemma_trimmed_reads(f: FuncView, v: ValueId)
    requires
        reads(trimmed_func(f), v),
    ensures
        reads(f, v),
{
    let g = trimmed_func(f);
    let b = choose|b: int| 0 <= b < g.blocks.len() && block_reads(#[trigger] g.blocks[b], v);
    if let Some(t) = f.blocks[b].term {
        lemma_trimmed_end(f, t);
    }
    assert(block_reads(f.blocks[b], v));
}

/// A branch passes what its target still takes.
proof fn lemma_trimmed_edge(
    f: FuncView,
    g: FuncView,
    name: Seq<char>,
    dest: BlockId,
    args: Seq<ValueId>,
)
    requires
        g == trimmed_func(f),
        has_block(f.blocks, dest),
        edge_msgs(f, name, dest, args).len() == 0,
        agree_on(f, g, trimmed_args(f, dest, args)),
    ensures
        edge_msgs(g, name, dest, trimmed_args(f, dest, args)).len() == 0,
{
    lemma_same_place(f.blocks, g.blocks, dest);
    lemma_block_pos(f.blocks, dest);
    let a = the_block(f.blocks, dest);
    let b = the_block(g.blocks, dest);
    let m = param_mask(f, a);
    let keep = Seq::new(args.len(), |i: int| arg_stays(f, dest, i));
    assert(a.params.len() == args.len());
    assert(b.params == masked(a.params, m));
    lemma_masked_same(args, keep, m);
    let now = masked(args, m);
    lemma_masked_at(args, m);
    lemma_masked_at(a.params, m);
    lemma_places(m, args.len());
    let at = places(m, args.len());
    lemma_gather_empty(args.len(), branch_arg_msgs(f, name, a, args));
    let each = branch_arg_msgs(g, name, b, now);
    assert forall|k: int| 0 <= k < now.len() implies (#[trigger] each(k)).len() == 0 by {
        assert(now[k] == args[at[k]]);
        assert(b.params[k] == a.params[at[k]]);
        assert(branch_arg_msgs(f, name, a, args)(at[k]).len() == 0);
        assert(trimmed_args(f, dest, args)[k] == now[k]);
        assert(type_of(g, now[k]) == type_of(f, now[k]));
    }
    lemma_gather_empty(now.len(), each);
}

/// An end that is trimmed fits the trimmed blocks.
proof fn lemma_trimmed_term(f: FuncView, g: FuncView, t: TermView, name: Seq<char>)
    requires
        g == trimmed_func(f),
        branch_msgs(f, t, name).len() == 0,
        return_msgs(f, t, name).len() == 0,
        agree_on(f, g, term_uses(trimmed_term(f, t))),
        forall|x: BlockId| #[trigger] term_targets(t).contains(x) ==> has_block(f.blocks, x),
    ensures
        branch_msgs(g, trimmed_term(f, t), name).len() == 0,
        return_msgs(g, trimmed_term(f, t), name).len() == 0,
{
    let to = term_targets(t);
    let uses = term_uses(trimmed_term(f, t));
    match t {
        TermView::Branch(d, args) => {
            assert(to[0] == d);
            assert(to.contains(d));
            lemma_trimmed_edge(f, g, name, d, args);
        },
        TermView::CondBranch { cond, true_dest, true_args, false_dest, false_args } => {
            assert(to[0] == true_dest);
            assert(to.contains(true_dest));
            assert(to[1] == false_dest);
            assert(to.contains(false_dest));
            assert(uses[0] == cond);
            let x = trimmed_args(f, true_dest, true_args);
            let y = trimmed_args(f, false_dest, false_args);
            assert forall|k: int| 0 <= k < x.len() implies type_of(g, #[trigger] x[k]) == type_of(
                f,
                x[k],
            ) by {
                assert(uses[1 + k] == x[k]);
            }
            assert forall|k: int| 0 <= k < y.len() implies type_of(g, #[trigger] y[k]) == type_of(
                f,
                y[k],
            ) by {
                assert(uses[1 + x.len() + k] == y[k]);
            }
            lemma_trimmed_edge(f, g, name, true_dest, true_args);
            lemma_trimmed_edge(f, g, name, false_dest, false_args);
        },
        TermView::Switch { selector, cases, default } => {
            assert(to[cases.len() as int] == default);
            assert(to.contains(default));
            lemma_trimmed_case(f, g, default);
            lemma_gather_empty(cases.len(), case_msgs(f, cases));
            assert forall|i: int| 0 <= i < cases.len() implies (#[trigger] case_msgs(g, cases)(
                i,
            )).len() == 0 by {
                assert(to[i] == cases[i].1);
                assert(to.contains(cases[i].1));
                assert(case_msgs(f, cases)(i).len() == 0);
                lemma_trimmed_case(f, g, cases[i].1);
            }
            lemma_gather_empty(cases.len(), case_msgs(g, cases));
        },
        TermView::Return(Some(v)) => {
            assert(uses[0] == v);
        },
        _ => {},
    }
}

proof fn lemma_trimmed_case(f: FuncView, g: FuncView, dest: BlockId)
    requires
        g == trimmed_func(f),
        has_block(f.blocks, dest),
    ensures
        has_block(g.blocks, dest),
        the_block(f.blocks, dest).params.len() == 0 ==> the_block(g.blocks, dest).params.len() == 0,
{
    lemma_same_place(f.blocks, g.blocks, dest);
    lemma_block_pos(f.blocks, dest);
}

/// Trimming keeps a sound function sound.
proof fn lemma_trim_sound(f: FuncView)
    requires
        has_block(f.blocks, f.entry),
        sound_function(f),
        all_operands(f),
    ensures
        sound_function(trimmed_func(f)),
        all_operands(trimmed_func(f)),
        has_block(trimmed_func(f).blocks, f.entry),
{
    let g = trimmed_func(f);
    assert forall|i: int| 0 <= i < f.blocks.len() implies (#[trigger] g.blocks[i]).id
        == f.blocks[i].id && targets_of(g.blocks[i]) == targets_of(f.blocks[i]) && part_of(
        f.blocks[i].insts,
        g.blocks[i].insts,
    ) && part_of(own_defs(f.blocks[i]), own_defs(g.blocks[i])) by {
        let a = f.blocks[i];
        assert(sound_block(f, a));
        lemma_trimmed_end(f, a.term->0);
        lemma_whole_part(a.insts);
        lemma_masked_part(a.params, param_mask(f, a));
        lemma_part_own(a, g.blocks[i]);
    }
    assert forall|i: int| #![trigger g.blocks[i]]
        0 <= i < f.blocks.len() && f.blocks[i].term is Some implies g.blocks[i].term is Some
        && forall|v: ValueId| #[trigger]
        term_uses(g.blocks[i].term->0).contains(v) ==> term_uses(f.blocks[i].term->0).contains(v) by {
        lemma_trimmed_end(f, f.blocks[i].term->0);
    }
    assert forall|i: int, d: Def|
        #![trigger own_defs(g.blocks[i]).contains(d)]
        0 <= i < f.blocks.len() && own_defs(f.blocks[i]).contains(d) && reads(
            g,
            d.id,
        ) implies own_defs(g.blocks[i]).contains(d) by {
        let a = f.blocks[i];
        let b = g.blocks[i];
        lemma_trimmed_reads(f, d.id);
        lemma_in_concat(block_param_defs(a), inst_defs(a), d);
        lemma_in_concat(block_param_defs(b), inst_defs(b), d);
        assert(inst_defs(b) =~= inst_defs(a));
        if !inst_defs(a).contains(d) {
            let k = block_param_defs(a).index_of(d);
            assert(block_param_defs(a)[k] == d);
            let m = param_mask(f, a);
            assert(m[k]);
            lemma_masked_at(a.params, m);
            lemma_places(m, a.params.len());
            let at = places(m, a.params.len());
            assert(at.contains(k));
            let j = at.index_of(k);
            assert(b.params[j] == a.params[k]);
            assert(block_param_defs(b)[j] == d);
        }
    }
    lemma_whole_part(param_defs(f.params, f.entry));
    assert(thinned(f, g));
    assert forall|i: int| 0 <= i < g.blocks.len() implies branch_msgs(
        g,
        (#[trigger] g.blocks[i]).term->0,
        g.blocks[i].name,
    ).len() == 0 && return_msgs(g, g.blocks[i].term->0, g.blocks[i].name).len() == 0 by {
        let a = f.blocks[i];
        assert(sound_block(f, a) && typed_block(f, a));
        lemma_thin_end(f, g, i);
        assert forall|x: BlockId| #[trigger] term_targets(a.term->0).contains(x) implies has_block(
            f.blocks,
            x,
        ) by {
            let k = targets_of(a).index_of(x);
            assert(has_block(f.blocks, targets_of(a)[k]));
        }
        lemma_trimmed_term(f, g, a.term->0, a.name);
    }
    lemma_trimmed_case(f, g, f.entry);
    lemma_thinning(f, g);
}

proof fn lemma_cleaned_sound(f: FuncView, loose: Seq<bool>, kept: Set<ValueId>)
    requires
        has_block(f.blocks, f.entry),
        sound_function(f),
        all_operands(f),
    ensures
        sound_function(cleaned(f, loose, kept)),
        all_operands(cleaned(f, loose, kept)),
        has_block(cleaned(f, loose, kept).blocks, f.entry),
        cleaned(f, loose, kept).entry == f.entry,
    decreases param_count(f.blocks, f.blocks.len()),
{
    let g = swept(f, loose, kept);
    lemma_swept_sound(f, loose, kept);
    lemma_swept_params(f, loose, kept);
    lemma_trim_shrinks(g, g.blocks.len());
    if has_dead_param(g) {
        lemma_trim_sound(g);
        lemma_cleaned_sound(trimmed_func(g), loose, kept);
    }
}

/// Dropping dead code keeps a sound function sound.
pub proof fn cleaning_keeps_soundness(f: FuncView, loose: Seq<bool>, fp: bool)
    requires
        has_block(f.blocks, f.entry),
        all_operands(f),
        sound_function(f),
    ensures
        sound_function(live_func(f, loose, fp)),
{
    let kept = kept_values(f, fp);
    lemma_cleaned_sound(f, loose, kept);
    pruning_keeps_soundness(cleaned(f, loose, kept));
}

} // verus!
