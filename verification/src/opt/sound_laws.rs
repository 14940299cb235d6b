//! Sound functions stay sound where passes rewrite them.

use crate::ir::cfg::targets_of;
use crate::ir::inst::{
    block_param_defs, defs, defs_upto, has_block, inst_defs, is_first_block, lemma_block_pos,
    param_defs, the_block, type_of, BlockView, Def, FuncView, InstView, ModuleView, Op, ValueId,
};
use crate::ir::keep::{
    all_operands, has_operands, lemma_same_branches, lemma_same_consistency, lemma_same_dominance,
    lemma_same_place, operand_count, same_graph, same_heads, same_types,
};
use crate::ir::sound::{
    all_defined, all_on_the_way, defined_on_the_way, sound_block, sound_function, sound_module,
    type_agrees, typed_block,
};
use crate::ir::verify::{
    consistency_msgs, has_duplicate_blocks, is_defined, is_vector_arith, last_inst_pos, shape_msgs,
};
use crate::lists::{lemma_masked_filter, masked};
use crate::opt::bce::{needless, unchecked_func};
use crate::opt::call_resolve::resolved_module;
use crate::opt::clean_laws::{
    lemma_masked_part, lemma_part_own, lemma_places, lemma_thinning, lemma_unread_ends,
    lemma_whole_part, part_of, picked, places, thinned,
};
use crate::opt::const_fold::folded_func;
use crate::opt::dce::{block_reads, reads};
use crate::opt::dead_arg::{
    dropped_parameters_are_not_read, has_dead_slot, is_slot, kept_func, kept_inst,
    without_dead_args,
};
use crate::opt::dead_func::{has_dead_func, kept_mask, live_functions, renumbered_func};
use crate::opt::dse::{dead_store, live_mask, stored_func};
use crate::opt::floats::{FloatReply, FloatRequest};
use crate::opt::fold_laws::{folding_keeps_shape, same_insts, same_or_const};
use crate::opt::prune_laws::{lemma_in_concat, own_defs};
use crate::target::TargetLayout;
use vstd::prelude::*;

verus! {

/// Is there nothing to check about the operands of an operation?
pub open spec fn takes_anything(op: Op) -> bool {
    operand_count(op) == 0 && op !is RuntimeCall && !is_vector_arith(op)
}

/// Is `j` the instruction `i`, or one in place of it that takes some of the same
/// operands, whatever they are?
pub open spec fn same_or_plain(i: InstView, j: InstView) -> bool {
    j == i || (j.id == i.id && j.ty == i.ty && takes_anything(j.kind.op) && forall|k: int|
        0 <= k < j.kind.args.len() ==> i.kind.args.contains(#[trigger] j.kind.args[k]))
}

/// Are these the same blocks, but for plain instructions in place of some?
pub open spec fn same_but_plain(s: Seq<BlockView>, t: Seq<BlockView>) -> bool {
    &&& s.len() == t.len()
    &&& forall|b: int| 0 <= b < s.len() ==> #[trigger] t[b] == (BlockView { insts: t[b].insts, ..s[b] })
    &&& forall|b: int| 0 <= b < s.len() ==> (#[trigger] t[b]).insts.len() == s[b].insts.len()
    &&& forall|b: int, k: int|
        0 <= b < s.len() && 0 <= k < s[b].insts.len() ==> same_or_plain(
            s[b].insts[k],
            #[trigger] t[b].insts[k],
        )
}

proof fn lemma_same_defs(s: Seq<BlockView>, t: Seq<BlockView>, n: nat)
    requires
        same_but_plain(s, t),
        n <= s.len(),
    ensures
        defs_upto(t, n) == defs_upto(s, n),
    decreases n,
{
    if n > 0 {
        lemma_same_defs(s, t, (n - 1) as nat);
        let a = s[n - 1];
        let b = t[n - 1];
        assert(b == (BlockView { insts: b.insts, ..a }));
        assert(block_param_defs(b) =~= block_param_defs(a));
        assert forall|k: int| 0 <= k < a.insts.len() implies #[trigger] inst_defs(b)[k] == inst_defs(
            a,
        )[k] by {
            assert(same_or_plain(s[n - 1].insts[k], t[n - 1].insts[k]));
        }
        assert(inst_defs(b) =~= inst_defs(a));
    }
}

pub proof fn lemma_same_inst_pos(s: Seq<InstView>, t: Seq<InstView>, n: nat, v: ValueId)
    requires
        s.len() == t.len(),
        forall|k: int| 0 <= k < s.len() ==> (#[trigger] t[k]).id == s[k].id,
        n <= s.len(),
    ensures
        last_inst_pos(t, n, v) == last_inst_pos(s, n, v),
    decreases n,
{
    if n > 0 {
        lemma_same_inst_pos(s, t, (n - 1) as nat, v);
        assert(t[n - 1].id == s[n - 1].id);
    }
}

proof fn lemma_plain_block(f: FuncView, g: FuncView, i: int)
    requires
        sound_function(f),
        same_but_plain(f.blocks, g.blocks),
        same_heads(f.blocks, g.blocks),
        same_types(f, g),
        g.entry == f.entry,
        g.return_type == f.return_type,
        defs(g) == defs(f),
        0 <= i < f.blocks.len(),
    ensures
        sound_block(g, g.blocks[i]),
        typed_block(g, g.blocks[i]),
{
    let a = f.blocks[i];
    let b = g.blocks[i];
    assert(b == (BlockView { insts: b.insts, ..a }));
    assert(sound_block(f, a) && typed_block(f, a));
    lemma_same_dominance(f, g);
    lemma_same_branches(f, g, a.term->0, a.name);
    assert forall|k: int| 0 <= k < a.insts.len() implies (#[trigger] b.insts[k]).id == a.insts[k].id by {
        assert(same_or_plain(f.blocks[i].insts[k], g.blocks[i].insts[k]));
    }
    assert forall|v: ValueId, at: int| defined_on_the_way(f, a, v, at) implies
        #[trigger] defined_on_the_way(g, b, v, at) by {
        lemma_same_inst_pos(a.insts, b.insts, a.insts.len(), v);
    }
    assert forall|v: ValueId| is_defined(f, v) implies #[trigger] is_defined(g, v) by {}
    assert forall|k: int| 0 <= k < targets_of(b).len() implies has_block(
        g.blocks,
        #[trigger] targets_of(b)[k],
    ) by {
        lemma_same_place(f.blocks, g.blocks, targets_of(a)[k]);
    }
    assert forall|j: int| 0 <= j < b.insts.len() implies all_defined(
        g,
        (#[trigger] b.insts[j]).kind.args,
    ) && all_on_the_way(g, b, b.insts[j].kind.args, j) && consistency_msgs(g, b.insts[j]).len()
        == 0 by {
        let old = a.insts[j];
        let new = b.insts[j];
        assert(same_or_plain(f.blocks[i].insts[j], g.blocks[i].insts[j]));
        assert(all_defined(f, old.kind.args) && all_on_the_way(f, a, old.kind.args, j));
        assert(consistency_msgs(f, old).len() == 0);
        lemma_same_consistency(f, g, old);
        if new != old {
            assert(shape_msgs(old).len() == 0);
            assert(shape_msgs(new).len() == 0);
            let was = old.kind.args;
            let now = new.kind.args;
            assert forall|k: int| 0 <= k < now.len() implies is_defined(g, #[trigger] now[k])
                && defined_on_the_way(g, b, now[k], j) by {
                let n = was.index_of(now[k]);
                assert(was[n] == now[k]);
                assert(is_defined(f, was[n]) && defined_on_the_way(f, a, was[n], j));
            }
        }
    }
}

/// A sound function with plain instructions in place of some is sound.
proof fn lemma_plain(f: FuncView, g: FuncView)
    requires
        has_block(f.blocks, f.entry),
        sound_function(f),
        same_but_plain(f.blocks, g.blocks),
        g == (FuncView { blocks: g.blocks, ..f }),
    ensures
        sound_function(g),
{
    assert forall|i: int| 0 <= i < f.blocks.len() implies (#[trigger] g.blocks[i]).id
        == f.blocks[i].id && g.blocks[i].name == f.blocks[i].name && g.blocks[i].params
        == f.blocks[i].params && targets_of(g.blocks[i]) == targets_of(f.blocks[i]) by {
        assert(g.blocks[i] == (BlockView { insts: g.blocks[i].insts, ..f.blocks[i] }));
    }
    assert(same_heads(f.blocks, g.blocks));
    lemma_same_defs(f.blocks, g.blocks, f.blocks.len());
    assert(same_types(f, g)) by {
        assert forall|v: ValueId| #[trigger] type_of(g, v) == type_of(f, v) by {}
    }
    assert forall|i: int| 0 <= i < g.blocks.len() implies sound_block(g, #[trigger] g.blocks[i])
        && typed_block(g, g.blocks[i]) by {
        lemma_plain_block(f, g, i);
    }
    assert(!has_duplicate_blocks(g)) by {
        assert forall|i: int| 0 <= i < g.blocks.len() implies is_first_block(
            g.blocks,
            (#[trigger] g.blocks[i]).id,
            i,
        ) by {
            assert(is_first_block(f.blocks, f.blocks[i].id, i));
        }
    }
    assert forall|i: int| 0 <= i < defs(g).len() implies #[trigger] type_agrees(g, i) by {
        assert(type_agrees(f, i));
    }
    lemma_same_place(f.blocks, g.blocks, f.entry);
    lemma_block_pos(f.blocks, f.entry);
    assert(the_block(g.blocks, g.entry).params == the_block(f.blocks, f.entry).params);
}

/// Folding constants keeps a sound function sound.
pub proof fn folding_keeps_soundness<E: Fn(FloatRequest) -> FloatReply>(
    e: E,
    f: FuncView,
    held: bool,
)
    requires
        has_block(f.blocks, f.entry),
        sound_function(f),
    ensures
        sound_function(folded_func(e, f, held)),
{
    let g = folded_func(e, f, held);
    folding_keeps_shape(e, f, held);
    assert forall|b: int| 0 <= b < f.blocks.len() implies (#[trigger] g.blocks[b]).insts.len()
        == f.blocks[b].insts.len() by {
        assert(same_insts(f.blocks[b].insts, g.blocks[b].insts));
    }
    assert forall|b: int, k: int|
        0 <= b < f.blocks.len() && 0 <= k < f.blocks[b].insts.len() implies same_or_plain(
        f.blocks[b].insts[k],
        #[trigger] g.blocks[b].insts[k],
    ) by {
        assert(same_insts(f.blocks[b].insts, g.blocks[b].insts));
        assert(same_or_const(f.blocks[b].insts[k], g.blocks[b].insts[k]));
    }
    lemma_plain(f, g);
}

/// Has every function of a module its entry block?
pub open spec fn all_entered(m: ModuleView) -> bool {
    forall|i: int|
        0 <= i < m.functions.len() ==> has_block(
            (#[trigger] m.functions[i]).blocks,
            m.functions[i].entry,
        )
}

/// Resolving calls keeps a sound module sound.
pub proof fn resolving_keeps_soundness(m: ModuleView)
    requires
        all_entered(m),
        sound_module(m),
    ensures
        sound_module(resolved_module(m)),
{
    let n = resolved_module(m);
    assert forall|i: int| 0 <= i < n.functions.len() implies sound_function(
        #[trigger] n.functions[i],
    ) by {
        assert(sound_function(m.functions[i]));
        lemma_plain(m.functions[i], n.functions[i]);
    }
}

/// Dropping the functions that are not called keeps a sound module sound.
pub proof fn dropping_functions_keeps_soundness(m: ModuleView)
    requires
        all_entered(m),
        sound_module(m),
    ensures
        sound_module(live_functions(m)),
{
    if has_dead_func(m) {
        let n = live_functions(m);
        let keep = kept_mask(m);
        lemma_masked_part(m.functions, keep);
        let at = places(keep, m.functions.len());
        assert forall|i: int| 0 <= i < n.functions.len() implies sound_function(
            #[trigger] n.functions[i],
        ) by {
            let f = masked(m.functions, keep)[i];
            assert(f == m.functions[at[i]]);
            assert(sound_function(m.functions[at[i]]));
            assert(n.functions[i] == renumbered_func(keep, f));
            lemma_plain(f, n.functions[i]);
        }
    }
}

/// Dropping instructions that nothing reads keeps a sound function sound.
pub proof fn lemma_unread_dropped(f: FuncView, g: FuncView, keep: spec_fn(int) -> Seq<bool>)
    requires
        has_block(f.blocks, f.entry),
        all_operands(f),
        sound_function(f),
        g == (FuncView { blocks: g.blocks, ..f }),
        g.blocks.len() == f.blocks.len(),
        forall|b: int|
            0 <= b < f.blocks.len() ==> #[trigger] g.blocks[b] == (BlockView {
                insts: masked(f.blocks[b].insts, keep(b)),
                ..f.blocks[b]
            }),
        forall|b: int, k: int|
            0 <= b < f.blocks.len() && 0 <= k < f.blocks[b].insts.len() && !keep(b)[k] ==> !reads(
                f,
                (#[trigger] f.blocks[b].insts[k]).id,
            ),
    ensures
        sound_function(g),
{
    assert forall|i: int| 0 <= i < f.blocks.len() implies part_of(
        f.blocks[i].insts,
        (#[trigger] g.blocks[i]).insts,
    ) && part_of(own_defs(f.blocks[i]), own_defs(g.blocks[i])) by {
        lemma_masked_part(f.blocks[i].insts, keep(i));
        lemma_whole_part(f.blocks[i].params);
        lemma_part_own(f.blocks[i], g.blocks[i]);
    }
    assert forall|i: int, d: Def|
        #![trigger own_defs(g.blocks[i]).contains(d)]
        0 <= i < f.blocks.len() && own_defs(f.blocks[i]).contains(d) && reads(
            g,
            d.id,
        ) implies own_defs(g.blocks[i]).contains(d) by {
        let a = f.blocks[i];
        let b = g.blocks[i];
        lemma_dropped_reads(f, g, keep, d.id);
        lemma_in_concat(block_param_defs(a), inst_defs(a), d);
        lemma_in_concat(block_param_defs(b), inst_defs(b), d);
        assert(block_param_defs(b) =~= block_param_defs(a));
        if !block_param_defs(a).contains(d) {
            let k = inst_defs(a).index_of(d);
            assert(inst_defs(a)[k] == d);
            assert(f.blocks[i].insts[k].id == d.id);
            lemma_masked_part(a.insts, keep(i));
            lemma_places(keep(i), a.insts.len());
            let at = places(keep(i), a.insts.len());
            assert(at.contains(k));
            let j = at.index_of(k);
            assert(b.insts[j] == a.insts[k]);
            assert(inst_defs(b)[j] == d);
        }
    }
    assert(same_graph(f.blocks, g.blocks));
    lemma_whole_part(param_defs(f.params, f.entry));
    assert(thinned(f, g));
    lemma_unread_ends(f, g);
    lemma_same_place(f.blocks, g.blocks, f.entry);
    lemma_block_pos(f.blocks, f.entry);
    lemma_thinning(f, g);
}

proof fn lemma_dropped_reads(f: FuncView, g: FuncView, keep: spec_fn(int) -> Seq<bool>, v: ValueId)
    requires
        g.blocks.len() == f.blocks.len(),
        forall|b: int|
            0 <= b < f.blocks.len() ==> #[trigger] g.blocks[b] == (BlockView {
                insts: masked(f.blocks[b].insts, keep(b)),
                ..f.blocks[b]
            }),
        reads(g, v),
    ensures
        reads(f, v),
{
    let b = choose|b: int| 0 <= b < g.blocks.len() && block_reads(#[trigger] g.blocks[b], v);
    lemma_masked_part(f.blocks[b].insts, keep(b));
    if exists|k: int|
        0 <= k < g.blocks[b].insts.len() && (#[trigger] g.blocks[b].insts[k]).kind.args.contains(v) {
        let k = choose|k: int|
            0 <= k < g.blocks[b].insts.len() && (#[trigger] g.blocks[b].insts[k]).kind.args.contains(
                v,
            );
        let at = places(keep(b), f.blocks[b].insts.len());
        assert(g.blocks[b].insts[k] == f.blocks[b].insts[at[k]]);
    }
    assert(block_reads(f.blocks[b], v));
}

/// Dropping dead stores keeps a sound function sound where no store is read as
/// a value.
pub proof fn dropping_stores_keeps_soundness(f: FuncView, layout: TargetLayout)
    requires
        has_block(f.blocks, f.entry),
        all_operands(f),
        sound_function(f),
        forall|b: int, k: int|
            0 <= b < f.blocks.len() && 0 <= k < f.blocks[b].insts.len() && dead_store(
                f,
                layout,
                f.blocks[b].insts,
                k,
            ) ==> !reads(f, (#[trigger] f.blocks[b].insts[k]).id),
    ensures
        sound_function(stored_func(f, layout)),
{
    let keep = |b: int| live_mask(f, layout, f.blocks[b].insts);
    lemma_unread_dropped(f, stored_func(f, layout), keep);
}

/// Dropping bounds checks that always pass keeps a sound function sound where no
/// check is read as a value.
pub proof fn dropping_checks_keeps_soundness(f: FuncView)
    requires
        has_block(f.blocks, f.entry),
        all_operands(f),
        sound_function(f),
        forall|b: int, k: int|
            0 <= b < f.blocks.len() && 0 <= k < f.blocks[b].insts.len() && needless(
                f,
                f.blocks[b].id,
                f.blocks[b].insts[k],
            ) ==> !reads(f, (#[trigger] f.blocks[b].insts[k]).id),
    ensures
        sound_function(unchecked_func(f)),
{
    let g = unchecked_func(f);
    let keep = |b: int|
        Seq::new(
            f.blocks[b].insts.len(),
            |k: int| !needless(f, f.blocks[b].id, f.blocks[b].insts[k]),
        );
    assert forall|b: int| 0 <= b < f.blocks.len() implies #[trigger] g.blocks[b] == (BlockView {
        insts: masked(f.blocks[b].insts, keep(b)),
        ..f.blocks[b]
    }) by {
        let cond = |i: InstView| !needless(f, f.blocks[b].id, i);
        lemma_masked_filter(f.blocks[b].insts, keep(b), cond);
        assert(g.blocks[b].insts == f.blocks[b].insts.filter(cond));
    }
    lemma_unread_dropped(f, g, keep);
}

/// A function that passes fewer arguments on is sound where it was.
proof fn lemma_fewer_args(m: ModuleView, f: int)
    requires
        0 <= f < m.functions.len(),
        has_block(m.functions[f].blocks, m.functions[f].entry),
        sound_function(m.functions[f]),
        all_operands(m.functions[f]),
    ensures
        sound_function(FuncView { blocks: kept_func(m, f).blocks, ..m.functions[f] }),
        all_operands(FuncView { blocks: kept_func(m, f).blocks, ..m.functions[f] }),
{
    let a = m.functions[f];
    let h = FuncView { blocks: kept_func(m, f).blocks, ..a };
    assert forall|b: int, k: int|
        0 <= b < a.blocks.len() && 0 <= k < a.blocks[b].insts.len() implies same_or_plain(
        a.blocks[b].insts[k],
        #[trigger] h.blocks[b].insts[k],
    ) && has_operands(h.blocks[b].insts[k]) by {
        let i = a.blocks[b].insts[k];
        let j = h.blocks[b].insts[k];
        assert(has_operands(a.blocks[b].insts[k]));
        assert(j == kept_inst(m, i));
        if j != i {
            if let Op::CallInternal(c) = i.kind.op {
                let s = i.kind.args;
                let n = if s.len() <= m.functions[c as int].params.len() {
                    s.len()
                } else {
                    m.functions[c as int].params.len()
                };
                let t = s.take(n as int);
                let keep = crate::opt::dead_arg::live_mask(m, c as int);
                lemma_masked_part(t, keep);
                let at = places(keep, t.len());
                assert forall|x: int| 0 <= x < j.kind.args.len() implies s.contains(
                    #[trigger] j.kind.args[x],
                ) by {
                    assert(j.kind.args[x] == t[at[x]]);
                    assert(s[at[x]] == j.kind.args[x]);
                }
            }
        }
    }
    lemma_plain(a, h);
}

/// Dropping parameters that nothing observes, and the arguments for them, keeps a
/// sound module sound.
pub proof fn dropping_arguments_keeps_soundness(m: ModuleView)
    requires
        all_entered(m),
        sound_module(m),
        forall|i: int| 0 <= i < m.functions.len() ==> all_operands(#[trigger] m.functions[i]),
    ensures
        sound_module(without_dead_args(m)),
{
    if has_dead_slot(m) {
        let n = without_dead_args(m);
        assert forall|i: int| 0 <= i < n.functions.len() implies sound_function(
            #[trigger] n.functions[i],
        ) by {
            assert(sound_function(m.functions[i]));
            lemma_fewer_args(m, i);
            lemma_fewer_params(m, i);
        }
    }
}

proof fn lemma_fewer_params(m: ModuleView, f: int)
    requires
        0 <= f < m.functions.len(),
        has_block(m.functions[f].blocks, m.functions[f].entry),
        sound_function(FuncView { blocks: kept_func(m, f).blocks, ..m.functions[f] }),
        all_operands(FuncView { blocks: kept_func(m, f).blocks, ..m.functions[f] }),
    ensures
        sound_function(kept_func(m, f)),
{
    let a = m.functions[f];
    let h = FuncView { blocks: kept_func(m, f).blocks, ..a };
    let g = kept_func(m, f);
    let pre = param_defs(h.params, h.entry);
    let now = param_defs(g.params, g.entry);
    if a.internal_only {
        let keep = crate::opt::dead_arg::live_mask(m, f);
        lemma_masked_part(a.params, keep);
        lemma_places(keep, a.params.len());
        let at = places(keep, a.params.len());
        assert forall|k: int| 0 <= k < now.len() implies #[trigger] now[k] == pre[at[k]] by {
            assert(g.params[k] == a.params[at[k]]);
        }
        assert(picked(pre, now, at));
        assert forall|d: Def| #[trigger] pre.contains(d) && reads(g, d.id) implies now.contains(d) by {
            let p = pre.index_of(d);
            assert(pre[p] == d);
            if !keep[p] {
                let b = choose|b: int|
                    0 <= b < g.blocks.len() && block_reads(#[trigger] g.blocks[b], d.id);
                assert(is_slot(m, f, p));
                dropped_parameters_are_not_read(m, f, p, b);
            }
            assert(at.contains(p));
            let j = at.index_of(p);
            assert(g.params[j] == a.params[at[j]]);
            assert(now[j] == d);
        }
    } else {
        lemma_whole_part(pre);
        assert(now =~= pre);
    }
    assert forall|i: int| 0 <= i < h.blocks.len() implies part_of(
        h.blocks[i].insts,
        (#[trigger] g.blocks[i]).insts,
    ) && part_of(own_defs(h.blocks[i]), own_defs(g.blocks[i])) by {
        lemma_whole_part(h.blocks[i].insts);
        lemma_whole_part(own_defs(h.blocks[i]));
    }
    assert(thinned(h, g));
    lemma_unread_ends(h, g);
    lemma_same_place(a.blocks, h.blocks, a.entry);
    lemma_thinning(h, g);
}

} // verus!
