//! A function whose loop is split stays sound.

use crate::ir::cfg::{
    edge, is_path, lemma_entry_reachable, lemma_preds_are_edges, lemma_reachable_step,
    lemma_succ_edge, preds_of, reachable, succs, targets_of,
};
use crate::ir::dom::{
    dominates, is_walk, lemma_dominates_antisym, lemma_dominates_pred, lemma_dominates_trans,
    lemma_dominator_reachable, lemma_entry_dominator, lemma_walk_prefix,
};
use crate::ir::inst::{
    block_param_defs, block_pos, defs, defs_upto, has_block, inst_defs, is_first_block, last_def,
    lemma_block_pos, lemma_def_block, lemma_last_def, param_defs, the_block, type_of, BlockId,
    BlockView, Def, FuncView, InstView, ModuleView, TermView, ValueId,
};
use crate::ir::keep::{all_operands, has_operands, value_names_used};
use crate::ir::loops::{
    back_edge, back_sources, header_dominates_loop, in_loop, lemma_leads_back_from,
};
use crate::ir::sound::{
    all_defined, all_on_the_way, defined_on_the_way, sound_block, sound_function, sound_module,
    type_agrees, typed_block,
};
use crate::ir::types::IrType;
use crate::ir::verify::{
    branch_arg_msgs, branch_msgs, case_msgs, consistency_msgs, defined_before, edge_msgs,
    has_duplicate_blocks, is_defined, last_inst_pos, lemma_gather_empty, return_msgs,
};
use crate::ir::walk::{
    lemma_renamed_uses, renamed, renamed_list, renamed_term, term_targets, term_uses,
};
use crate::lists::{lemma_masked_len, masked};
use crate::opt::clean_laws::lemma_def_place;
use crate::opt::clone::{
    block_names, body_defs, body_of, cloned_block, clones, defs_at, fresh_blocks, fresh_types,
    fresh_values, in_body, led, led_term, lemma_body_defs, lemma_body_upto, lemma_fresh_blocks,
    lemma_has_clone, value_names, with_clones,
};
use crate::opt::dce::{block_reads, reads};
use crate::opt::fission::{
    block_names_used, computes, fissioned, has_room, is_split, leaves, loop_body, rerouted,
    rerouted_at, split_func, splittable, with_bridge, without_inst, LoopFission, Split,
};
use crate::opt::loop_utils::{outside_preds, preheader_of};
use crate::opt::pass::Pass;
use crate::opt::prune_laws::{
    agree_on, lemma_in_concat, lemma_left_term, lemma_sound_unique, lemma_unique_def, own_defs,
    same_target, unique,
};
use crate::opt::rewire_laws::lemma_inst_def;
use crate::opt::share_laws::{lemma_like_consistency, lemma_unique_blocks, like_list};
use crate::opt::sound_laws::lemma_unread_dropped;
use crate::target::TargetLayout;
use vstd::prelude::*;

verus! {

/// The block where the loop is left.
pub open spec fn exit_of(f: FuncView, s: Split) -> BlockId {
    f.blocks[s.exit_at as int].id
}

/// The loop and its copy, one behind the other, before stores are dropped.
spec fn doubled(f: FuncView, h: BlockId, s: Split) -> FuncView {
    let body = loop_body(f, h);
    let copied = with_clones(f, body);
    rerouted_at(
        with_bridge(copied, block_names(f, body)[h], s.init),
        s.exit_at as int,
        BlockId(copied.next_block),
    )
}

/// Can the loop be split, and is it left at a block that can be reached?
spec fn ready(f: FuncView, layout: TargetLayout, h: BlockId, s: Split) -> bool {
    &&& has_block(f.blocks, f.entry)
    &&& sound_function(f)
    &&& all_operands(f)
    &&& is_split(f, layout, h, s)
    &&& has_room(f)
    &&& block_names_used(f)
    &&& value_names_used(f)
    &&& reachable(f, exit_of(f, s))
}

/// The name of the block between the loop and its copy.
spec fn bridge_of(f: FuncView, h: BlockId) -> BlockId {
    BlockId((f.next_block + body_of(f, loop_body(f, h)).len()) as u32)
}

/// The new name of a block of the loop.
spec fn copy_name(f: FuncView, h: BlockId, x: BlockId) -> BlockId {
    block_names(f, loop_body(f, h))[x]
}

/// Is `x` a block of the loop?
spec fn looped(f: FuncView, h: BlockId, x: BlockId) -> bool {
    in_loop(f, h, x) && has_block(f.blocks, x)
}

/// Is each block the first of its name?
spec fn apart(f: FuncView) -> bool {
    forall|i: int|
        0 <= i < f.blocks.len() ==> is_first_block(f.blocks, (#[trigger] f.blocks[i]).id, i)
}

/// What is known of a loop that can be split.
proof fn lemma_ready(f: FuncView, layout: TargetLayout, h: BlockId, s: Split)
    requires
        ready(f, layout, h, s),
    ensures
        apart(f),
        looped(f, h, h),
        reachable(f, h),
        !in_loop(f, h, f.entry),
        0 <= s.exit_at < f.blocks.len(),
        looped(f, h, exit_of(f, s)),
        dominates(f, h, exit_of(f, s)),
        f.blocks[s.exit_at as int].term matches Some(TermView::CondBranch { false_dest, .. })
            && !in_loop(f, h, false_dest),
{
    assert(apart(f)) by {
        assert forall|i: int| 0 <= i < f.blocks.len() implies is_first_block(
            f.blocks,
            (#[trigger] f.blocks[i]).id,
            i,
        ) by {}
    }
    let l = choose|l: BlockId| back_edge(f, l, h);
    let k = choose|k: int|
        0 <= k < f.blocks.len() && (#[trigger] f.blocks[k]).id == l && targets_of(
            f.blocks[k],
        ).contains(h);
    assert(sound_block(f, f.blocks[k]));
    let j = targets_of(f.blocks[k]).index_of(h);
    assert(has_block(f.blocks, targets_of(f.blocks[k])[j]));
    assert(h != f.entry);
    lemma_dominator_reachable(f, h, l);
    if in_loop(f, h, f.entry) {
        lemma_entry_reachable(f);
        header_dominates_loop(f, h, f.entry);
        lemma_entry_dominator(f, h);
    }
    assert(leaves(f, loop_body(f, h), s.exit_at as int));
    assert(f.blocks[s.exit_at as int].id == exit_of(f, s));
    header_dominates_loop(f, h, exit_of(f, s));
}

/// The blocks of the doubled loop.
proof fn lemma_doubled(f: FuncView, layout: TargetLayout, h: BlockId, s: Split)
    requires
        ready(f, layout, h, s),
    ensures
        ({
            let g = doubled(f, h, s);
            let n = f.blocks.len();
            let ps = body_of(f, loop_body(f, h));
            let k = ps.len();
            &&& k <= n
            &&& f.next_block + k < u32::MAX
            &&& g.blocks.len() == n + k + 1
            &&& g.entry == f.entry
            &&& forall|i: int|
                0 <= i < n ==> #[trigger] g.blocks[i] == (BlockView {
                    term: if i == s.exit_at {
                        rerouted(f.blocks[i].term, bridge_of(f, h))
                    } else {
                        f.blocks[i].term
                    },
                    ..f.blocks[i]
                })
            &&& forall|r: int| 0 <= r < k ==> #[trigger] g.blocks[n + r] == clones(f, loop_body(f, h))[r]
            &&& g.blocks[(n + k) as int] == (BlockView {
                id: bridge_of(f, h),
                name: "fission_bridge"@,
                params: Seq::empty(),
                insts: Seq::empty(),
                term: Some(TermView::Branch(copy_name(f, h, h), seq![s.init])),
            })
        }),
{
    lemma_ready(f, layout, h, s);
    lemma_body_upto(f, loop_body(f, h), f.blocks.len());
    let g = doubled(f, h, s);
    let n = f.blocks.len();
    let c = with_clones(f, loop_body(f, h));
    let b = with_bridge(c, copy_name(f, h, h), s.init);
    assert forall|i: int| 0 <= i < n implies #[trigger] g.blocks[i] == (BlockView {
        term: if i == s.exit_at {
            rerouted(f.blocks[i].term, bridge_of(f, h))
        } else {
            f.blocks[i].term
        },
        ..f.blocks[i]
    }) by {
        assert(b.blocks[i] == f.blocks[i]);
    }
    assert forall|r: int| 0 <= r < body_of(f, loop_body(f, h)).len() implies #[trigger] g.blocks[n
        + r] == clones(f, loop_body(f, h))[r] by {
        assert(b.blocks[n + r] == c.blocks[n + r]);
    }
}

/// A block of the loop has a copy.
proof fn lemma_copy(f: FuncView, layout: TargetLayout, h: BlockId, s: Split, x: BlockId) -> (r: int)
    requires
        ready(f, layout, h, s),
        looped(f, h, x),
    ensures
        0 <= r < body_of(f, loop_body(f, h)).len(),
        body_of(f, loop_body(f, h))[r] == block_pos(f.blocks, x),
        copy_name(f, h, x) == BlockId((f.next_block + r) as u32),
        copy_name(f, h, x).0 >= f.next_block,
        copy_name(f, h, x) != bridge_of(f, h),
        doubled(f, h, s).blocks[f.blocks.len() + r] == cloned_block(
            the_block(f.blocks, x),
            copy_name(f, h, x),
            block_names(f, loop_body(f, h)),
            value_names(f, loop_body(f, h)),
        ),
        block_names(f, loop_body(f, h)).contains_key(x),
{
    lemma_doubled(f, layout, h, s);
    let r = lemma_has_clone(f, loop_body(f, h), x);
    assert(doubled(f, h, s).blocks[f.blocks.len() + r] == clones(f, loop_body(f, h))[r]);
    r
}

/// Different blocks have different copies.
proof fn lemma_copies_differ(
    f: FuncView,
    layout: TargetLayout,
    h: BlockId,
    s: Split,
    x: BlockId,
    y: BlockId,
)
    requires
        ready(f, layout, h, s),
        looped(f, h, x),
        looped(f, h, y),
        copy_name(f, h, x) == copy_name(f, h, y),
    ensures
        x == y,
{
    let r = lemma_copy(f, layout, h, s, x);
    let t = lemma_copy(f, layout, h, s, y);
    lemma_doubled(f, layout, h, s);
    lemma_block_pos(f.blocks, x);
    lemma_block_pos(f.blocks, y);
}

/// What has a new name is a block of the loop.
proof fn lemma_named(f: FuncView, layout: TargetLayout, h: BlockId, s: Split, x: BlockId)
    requires
        ready(f, layout, h, s),
    ensures
        block_names(f, loop_body(f, h)).contains_key(x) == looped(f, h, x),
{
    let body = loop_body(f, h);
    if looped(f, h, x) {
        let r = lemma_copy(f, layout, h, s, x);
    }
    lemma_fresh_keys(f, body, body_of(f, body).len(), x);
}

proof fn lemma_fresh_keys(f: FuncView, body: Set<BlockId>, n: nat, x: BlockId)
    requires
        n <= body_of(f, body).len(),
    ensures
        fresh_blocks(f, body_of(f, body), n).contains_key(x) ==> body.contains(x)
            && has_block(f.blocks, x),
    decreases n,
{
    if n > 0 {
        lemma_fresh_keys(f, body, (n - 1) as nat, x);
        lemma_body_upto(f, body, f.blocks.len());
        let i = body_of(f, body)[n - 1];
        assert(in_body(f, body, i));
        assert(f.blocks[i].id == f.blocks[i].id);
    }
}

/// How one block of the doubled loop leads to another.
enum Step {
    /// As before.
    Same,
    /// From the loop to the bridge.
    Out,
    /// From the bridge to the copy.
    Enter,
    /// Within the copy, from the copy of the first to that of the second.
    Within(BlockId, BlockId),
    /// From the copy of a block out of the copy.
    Leave(BlockId),
}

spec fn steps(f: FuncView, h: BlockId, s: Split, a: BlockId, b: BlockId, st: Step) -> bool {
    match st {
        Step::Same => a.0 < f.next_block && b.0 < f.next_block && edge(f.blocks, a, b),
        Step::Out => a == exit_of(f, s) && b == bridge_of(f, h),
        Step::Enter => a == bridge_of(f, h) && b == copy_name(f, h, h),
        Step::Within(x, y) => looped(f, h, x) && looped(f, h, y) && a == copy_name(f, h, x) && b
            == copy_name(f, h, y) && edge(f.blocks, x, y),
        Step::Leave(x) => looped(f, h, x) && a == copy_name(f, h, x) && b.0 < f.next_block
            && !in_loop(f, h, b) && edge(f.blocks, x, b),
    }
}

proof fn lemma_rerouted_targets(t: Option<TermView>, to: BlockId, x: BlockId)
    requires
        t matches Some(TermView::CondBranch { .. }),
    ensures
        term_targets(rerouted(t, to)->0).contains(x) == (x == to || x == t->0->true_dest),
{
    let all = term_targets(rerouted(t, to)->0);
    assert(all[0] == t->0->true_dest);
    assert(all[1] == to);
}

proof fn lemma_cond_targets(t: TermView, x: BlockId)
    requires
        t is CondBranch,
    ensures
        term_targets(t).contains(x) == (x == t->true_dest || x == t->CondBranch_false_dest),
{
    let all = term_targets(t);
    assert(all[0] == t->true_dest);
    assert(all[1] == t->CondBranch_false_dest);
}

/// A copied end leads where the end leads, or to the copy of that.
proof fn lemma_led_targets(t: TermView, vm: Map<ValueId, ValueId>, bm: Map<BlockId, BlockId>)
    ensures
        term_targets(led_term(renamed_term(t, vm), bm)) == Seq::new(
            term_targets(t).len(),
            |i: int| led(term_targets(t)[i], bm),
        ),
{
    let a = term_targets(led_term(renamed_term(t, vm), bm));
    let b = Seq::new(term_targets(t).len(), |i: int| led(term_targets(t)[i], bm));
    match t {
        TermView::Switch { selector, cases, default } => {
            assert(a =~= b);
        },
        _ => {
            assert(a =~= b);
        },
    }
}

proof fn lemma_block_of(f: FuncView, i: int)
    requires
        apart(f),
        0 <= i < f.blocks.len(),
    ensures
        has_block(f.blocks, f.blocks[i].id),
        the_block(f.blocks, f.blocks[i].id) == f.blocks[i],
        block_pos(f.blocks, f.blocks[i].id) == i,
{
    assert(is_first_block(f.blocks, f.blocks[i].id, i));
    assert(has_block(f.blocks, f.blocks[i].id));
    lemma_block_pos(f.blocks, f.blocks[i].id);
}

/// Every edge of the doubled loop is one of these.
proof fn lemma_step(
    f: FuncView,
    layout: TargetLayout,
    h: BlockId,
    s: Split,
    a: BlockId,
    b: BlockId,
) -> (st: Step)
    requires
        ready(f, layout, h, s),
        edge(doubled(f, h, s).blocks, a, b),
    ensures
        steps(f, h, s, a, b, st),
{
    let g = doubled(f, h, s);
    let n = f.blocks.len() as int;
    let ps = body_of(f, loop_body(f, h));
    lemma_ready(f, layout, h, s);
    lemma_doubled(f, layout, h, s);
    let i = choose|i: int|
        0 <= i < g.blocks.len() && (#[trigger] g.blocks[i]).id == a && targets_of(
            g.blocks[i],
        ).contains(b);
    if i < n {
        let x = f.blocks[i];
        assert(g.blocks[i].id == x.id);
        assert(sound_block(f, x));
        if i == s.exit_at {
            lemma_rerouted_targets(x.term, bridge_of(f, h), b);
            lemma_cond_targets(x.term->0, b);
            if b == bridge_of(f, h) {
                Step::Out
            } else {
                lemma_target_named(f, i, b);
                assert(f.blocks[i].id == a && targets_of(f.blocks[i]).contains(b));
                Step::Same
            }
        } else {
            lemma_target_named(f, i, b);
            assert(f.blocks[i].id == a && targets_of(f.blocks[i]).contains(b));
            Step::Same
        }
    } else if i < n + ps.len() {
        let r = i - n;
        assert(g.blocks[n + r] == clones(f, loop_body(f, h))[r]);
        lemma_body_upto(f, loop_body(f, h), f.blocks.len());
        let x = f.blocks[ps[r]];
        assert(in_body(f, loop_body(f, h), ps[r]));
        lemma_block_of(f, ps[r]);
        lemma_fresh_blocks(f, loop_body(f, h), ps.len(), r);
        assert(a == copy_name(f, h, x.id));
        assert(sound_block(f, x));
        let t = x.term->0;
        lemma_led_targets(t, value_names(f, loop_body(f, h)), block_names(f, loop_body(f, h)));
        let k = targets_of(g.blocks[i]).index_of(b);
        let y = term_targets(t)[k];
        assert(b == led(y, block_names(f, loop_body(f, h))));
        assert(targets_of(x)[k] == y);
        assert(targets_of(x).contains(y));
        assert(has_block(f.blocks, targets_of(x)[k]));
        assert(edge(f.blocks, x.id, y)) by {
            assert(f.blocks[ps[r]].id == x.id && targets_of(f.blocks[ps[r]]).contains(y));
        }
        lemma_named(f, layout, h, s, y);
        if in_loop(f, h, y) {
            Step::Within(x.id, y)
        } else {
            lemma_target_named(f, ps[r], y);
            Step::Leave(x.id)
        }
    } else {
        assert(i == n + ps.len());
        let k = targets_of(g.blocks[i]).index_of(b);
        assert(b == copy_name(f, h, h));
        Step::Enter
    }
}

/// The target of a branch has a name that was handed out.
proof fn lemma_target_named(f: FuncView, i: int, b: BlockId)
    requires
        sound_function(f),
        block_names_used(f),
        0 <= i < f.blocks.len(),
        targets_of(f.blocks[i]).contains(b),
    ensures
        b.0 < f.next_block,
        has_block(f.blocks, b),
{
    assert(sound_block(f, f.blocks[i]));
    let k = targets_of(f.blocks[i]).index_of(b);
    assert(has_block(f.blocks, targets_of(f.blocks[i])[k]));
    lemma_block_pos(f.blocks, b);
    assert(f.blocks[block_pos(f.blocks, b)].id.0 < f.next_block);
}

/// All blocks of the doubled loop have names of their own.
proof fn lemma_doubled_apart(f: FuncView, layout: TargetLayout, h: BlockId, s: Split)
    requires
        ready(f, layout, h, s),
    ensures
        apart(doubled(f, h, s)),
        forall|i: int|
            0 <= i < f.blocks.len() ==> (#[trigger] doubled(f, h, s).blocks[i]).id
                == f.blocks[i].id,
        forall|r: int|
            0 <= r < body_of(f, loop_body(f, h)).len() ==> (#[trigger] doubled(
                f,
                h,
                s,
            ).blocks[f.blocks.len() + r]).id == BlockId((f.next_block + r) as u32),
{
    let g = doubled(f, h, s);
    let n = f.blocks.len() as int;
    let k = body_of(f, loop_body(f, h)).len() as int;
    lemma_ready(f, layout, h, s);
    lemma_doubled(f, layout, h, s);
    assert forall|r: int| 0 <= r < k implies (#[trigger] g.blocks[n + r]).id == BlockId(
        (f.next_block + r) as u32,
    ) by {
        assert(g.blocks[n + r] == clones(f, loop_body(f, h))[r]);
    }
    assert forall|i: int| 0 <= i < g.blocks.len() implies is_first_block(
        g.blocks,
        (#[trigger] g.blocks[i]).id,
        i,
    ) by {
        assert forall|j: int| 0 <= j < i implies (#[trigger] g.blocks[j]).id != g.blocks[i].id by {
            if i < n {
                assert(g.blocks[i].id == f.blocks[i].id && g.blocks[j].id == f.blocks[j].id);
                assert(is_first_block(f.blocks, f.blocks[i].id, i));
                assert(f.blocks[j].id != f.blocks[i].id);
            } else {
                if j < n {
                    assert(g.blocks[j].id == f.blocks[j].id);
                    assert(f.blocks[j].id.0 < f.next_block);
                } else {
                    assert(g.blocks[n + (j - n)].id == BlockId((f.next_block + (j - n)) as u32));
                }
                if i < n + k {
                    assert(g.blocks[n + (i - n)].id == BlockId((f.next_block + (i - n)) as u32));
                }
            }
        }
    }
}

/// An edge leads from a block that can be reached to another.
proof fn lemma_edge_step(g: FuncView, a: BlockId, b: BlockId)
    requires
        apart(g),
        edge(g.blocks, a, b),
        reachable(g, a),
    ensures
        reachable(g, b),
{
    let i = choose|i: int|
        0 <= i < g.blocks.len() && (#[trigger] g.blocks[i]).id == a && targets_of(
            g.blocks[i],
        ).contains(b);
    lemma_block_of(g, i);
    lemma_reachable_step(g, a, b);
}

/// What in the function a block of the doubled loop stands for.
spec fn stands_for(f: FuncView, h: BlockId, s: Split, a: BlockId, x: BlockId) -> bool {
    ||| a.0 < f.next_block && x == a
    ||| looped(f, h, x) && a == copy_name(f, h, x)
    ||| a == bridge_of(f, h) && x == exit_of(f, s)
}

/// What can be reached stands for what could be.
proof fn lemma_reached_before(
    f: FuncView,
    layout: TargetLayout,
    h: BlockId,
    s: Split,
    p: Seq<BlockId>,
) -> (x: BlockId)
    requires
        ready(f, layout, h, s),
        is_path(doubled(f, h, s).blocks, p),
        p[0] == f.entry,
    ensures
        stands_for(f, h, s, p.last(), x),
        reachable(f, x),
    decreases p.len(),
{
    let g = doubled(f, h, s);
    lemma_ready(f, layout, h, s);
    if p.len() == 1 {
        lemma_entry_reachable(f);
        lemma_block_pos(f.blocks, f.entry);
        assert(f.blocks[block_pos(f.blocks, f.entry)].id.0 < f.next_block);
        f.entry
    } else {
        let q = p.drop_last();
        let a = q.last();
        let b = p.last();
        assert forall|i: int| 0 <= i < q.len() - 1 implies succs(g.blocks, #[trigger] q[i]).contains(
            q[i + 1],
        ) by {
            assert(q[i] == p[i] && q[i + 1] == p[i + 1]);
        }
        assert(is_path(g.blocks, q));
        let x = lemma_reached_before(f, layout, h, s, q);
        let k = p.len() - 2;
        assert(succs(g.blocks, p[k]).contains(p[k + 1]));
        lemma_succ_edge(g.blocks, a, b);
        let st = lemma_step(f, layout, h, s, a, b);
        lemma_stands_once(f, layout, h, s, a);
        match st {
            Step::Same => {
                lemma_edge_step(f, a, b);
                b
            },
            Step::Out => exit_of(f, s),
            Step::Enter => h,
            Step::Within(y, z) => {
                lemma_copies(f, layout, h, s, x, y);
                lemma_edge_step(f, y, z);
                z
            },
            Step::Leave(y) => {
                lemma_copies(f, layout, h, s, x, y);
                lemma_edge_step(f, y, b);
                b
            },
        }
    }
}

/// The names of blocks, copies and the bridge are apart.
proof fn lemma_stands_once(f: FuncView, layout: TargetLayout, h: BlockId, s: Split, a: BlockId)
    requires
        ready(f, layout, h, s),
    ensures
        bridge_of(f, h).0 >= f.next_block,
        forall|x: BlockId| #[trigger] looped(f, h, x) ==> copy_name(f, h, x).0 >= f.next_block
            && copy_name(f, h, x) != bridge_of(f, h),
{
    lemma_doubled(f, layout, h, s);
    assert forall|x: BlockId| #[trigger] looped(f, h, x) implies copy_name(f, h, x).0
        >= f.next_block && copy_name(f, h, x) != bridge_of(f, h) by {
        let r = lemma_copy(f, layout, h, s, x);
    }
}

/// A copy stands for one block.
proof fn lemma_copies(
    f: FuncView,
    layout: TargetLayout,
    h: BlockId,
    s: Split,
    x: BlockId,
    y: BlockId,
)
    requires
        ready(f, layout, h, s),
        looped(f, h, y),
        stands_for(f, h, s, copy_name(f, h, y), x),
    ensures
        x == y,
{
    lemma_stands_once(f, layout, h, s, x);
    if looped(f, h, x) && copy_name(f, h, y) == copy_name(f, h, x) {
        lemma_copies_differ(f, layout, h, s, x, y);
    }
}

/// A block that can be reached in the doubled loop stands for one that can be.
proof fn lemma_reached(f: FuncView, layout: TargetLayout, h: BlockId, s: Split, a: BlockId)
    requires
        ready(f, layout, h, s),
        reachable(doubled(f, h, s), a),
    ensures
        a.0 < f.next_block ==> reachable(f, a),
        forall|x: BlockId| #[trigger] looped(f, h, x) && a == copy_name(f, h, x) ==> reachable(f, x),
{
    let g = doubled(f, h, s);
    lemma_doubled(f, layout, h, s);
    let p = choose|p: Seq<BlockId>| #[trigger]
        is_path(g.blocks, p) && p[0] == g.entry && p.last() == a;
    let x = lemma_reached_before(f, layout, h, s, p);
    lemma_stands_once(f, layout, h, s, a);
    assert forall|y: BlockId| #[trigger] looped(f, h, y) && a == copy_name(f, h, y) implies reachable(
        f,
        y,
    ) by {
        lemma_copies(f, layout, h, s, x, y);
    }
}

/// Is the walk to `b` forced through what dominates what `b` stands for? Of
/// blocks of the loop that holds outside it only of those that dominate the exit.
spec fn passes(f: FuncView, h: BlockId, s: Split, d: BlockId, p: Seq<BlockId>) -> bool {
    let b = p.last();
    &&& b.0 < f.next_block && dominates(f, d, b) && (in_loop(f, h, d) && !in_loop(f, h, b)
        ==> dominates(f, d, exit_of(f, s))) ==> p.contains(d)
    &&& b == bridge_of(f, h) && dominates(f, d, exit_of(f, s)) ==> p.contains(d)
    &&& forall|x: BlockId| #[trigger]
        looped(f, h, x) && b == copy_name(f, h, x) && dominates(f, d, x) && !in_loop(f, h, d)
            ==> p.contains(d)
    &&& forall|x: BlockId| #[trigger]
        looped(f, h, x) && b == copy_name(f, h, x) && dominates(f, d, exit_of(f, s))
            ==> p.contains(d)
    &&& forall|x: BlockId| #[trigger]
        looped(f, h, x) && b == copy_name(f, h, x) && dominates(f, d, x) && in_loop(f, h, d)
            ==> p.contains(copy_name(f, h, d))
}

proof fn lemma_prefix_passes(p: Seq<BlockId>, d: BlockId)
    requires
        p.len() > 1,
        p.drop_last().contains(d),
    ensures
        p.contains(d),
{
    let q = p.drop_last();
    assert(p[q.index_of(d)] == d);
}

#[verifier::rlimit(40)]
proof fn lemma_passes(
    f: FuncView,
    layout: TargetLayout,
    h: BlockId,
    s: Split,
    d: BlockId,
    p: Seq<BlockId>,
)
    requires
        ready(f, layout, h, s),
        has_block(f.blocks, d),
        is_walk(doubled(f, h, s), p),
    ensures
        passes(f, h, s, d, p),
    decreases p.len(),
{
    let g = doubled(f, h, s);
    let e = exit_of(f, s);
    lemma_ready(f, layout, h, s);
    lemma_doubled(f, layout, h, s);
    lemma_stands_once(f, layout, h, s, d);
    let b = p.last();
    assert(p[p.len() - 1] == b);
    if p.len() == 1 {
        lemma_entry_dominator(f, d);
        lemma_block_pos(f.blocks, f.entry);
        assert(f.blocks[block_pos(f.blocks, f.entry)].id.0 < f.next_block);
    } else {
        let q = p.drop_last();
        let a = q.last();
        let k = p.len() - 2;
        lemma_walk_prefix(g, p, p.len() - 1);
        assert(p.take(p.len() - 1) =~= q);
        lemma_passes(f, layout, h, s, d, q);
        assert(a == p[k] && b == p[k + 1]);
        assert(edge(g.blocks, p[k], p[k + 1]));
        assert(reachable(g, p[k]));
        lemma_reached(f, layout, h, s, a);
        let st = lemma_step(f, layout, h, s, a, b);
        if q.contains(d) {
            lemma_prefix_passes(p, d);
        }
        if q.contains(copy_name(f, h, d)) {
            lemma_prefix_passes(p, copy_name(f, h, d));
        }
        match st {
            Step::Same => {
                if d != b && dominates(f, d, b) {
                    lemma_dominates_pred(f, d, a, b);
                    if in_loop(f, h, d) && !in_loop(f, h, a) && in_loop(f, h, b) {
                        if b != h {
                            lemma_leads_back_from(f, h, a, b);
                        } else {
                            lemma_dominator_reachable(f, d, b);
                            header_dominates_loop(f, h, d);
                            lemma_dominates_antisym(f, h, d);
                        }
                    }
                }
            },
            Step::Out => {},
            Step::Enter => {
                assert forall|x: BlockId| #[trigger]
                    looped(f, h, x) && b == copy_name(f, h, x) implies x == h by {
                    lemma_copies_differ(f, layout, h, s, x, h);
                }
                if dominates(f, d, h) {
                    lemma_dominates_trans(f, d, h, e);
                    if in_loop(f, h, d) {
                        lemma_dominator_reachable(f, d, h);
                        header_dominates_loop(f, h, d);
                        lemma_dominates_antisym(f, h, d);
                    }
                }
            },
            Step::Within(y, z) => {
                assert forall|x: BlockId| #[trigger]
                    looped(f, h, x) && b == copy_name(f, h, x) implies x == z by {
                    lemma_copies_differ(f, layout, h, s, x, z);
                }
                assert(looped(f, h, y));
                if d != z && dominates(f, d, z) {
                    lemma_dominates_pred(f, d, y, z);
                }
            },
            Step::Leave(y) => {
                assert(looped(f, h, y));
                if d != b && dominates(f, d, b) {
                    lemma_dominates_pred(f, d, y, b);
                }
            },
        }
    }
}

/// An edge of the function is one of the doubled loop, unless it leaves the loop
/// where that is left now for the copy.
proof fn lemma_edge_kept(
    f: FuncView,
    layout: TargetLayout,
    h: BlockId,
    s: Split,
    a: BlockId,
    b: BlockId,
)
    requires
        ready(f, layout, h, s),
        edge(f.blocks, a, b),
    ensures
        edge(doubled(f, h, s).blocks, a, b) || (a == exit_of(f, s) && !in_loop(f, h, b)),
{
    let g = doubled(f, h, s);
    lemma_ready(f, layout, h, s);
    lemma_doubled(f, layout, h, s);
    let i = choose|i: int|
        0 <= i < f.blocks.len() && (#[trigger] f.blocks[i]).id == a && targets_of(
            f.blocks[i],
        ).contains(b);
    assert(g.blocks[i].id == a);
    if i == s.exit_at {
        lemma_cond_targets(f.blocks[i].term->0, b);
        lemma_rerouted_targets(f.blocks[i].term, bridge_of(f, h), b);
    }
    if targets_of(g.blocks[i]).contains(b) {
        assert(edge(g.blocks, a, b));
    }
}

/// An edge of a block of the loop is one of its copy.
proof fn lemma_edge_copied(
    f: FuncView,
    layout: TargetLayout,
    h: BlockId,
    s: Split,
    x: BlockId,
    y: BlockId,
)
    requires
        ready(f, layout, h, s),
        looped(f, h, x),
        edge(f.blocks, x, y),
    ensures
        has_block(f.blocks, y),
        in_loop(f, h, y) ==> edge(doubled(f, h, s).blocks, copy_name(f, h, x), copy_name(f, h, y)),
        !in_loop(f, h, y) ==> edge(doubled(f, h, s).blocks, copy_name(f, h, x), y),
{
    let g = doubled(f, h, s);
    lemma_ready(f, layout, h, s);
    lemma_doubled(f, layout, h, s);
    let i = choose|i: int|
        0 <= i < f.blocks.len() && (#[trigger] f.blocks[i]).id == x && targets_of(
            f.blocks[i],
        ).contains(y);
    lemma_block_of(f, i);
    lemma_target_named(f, i, y);
    let r = lemma_copy(f, layout, h, s, x);
    let c = g.blocks[f.blocks.len() + r];
    assert(sound_block(f, f.blocks[i]));
    let t = f.blocks[i].term->0;
    let bm = block_names(f, loop_body(f, h));
    lemma_led_targets(t, value_names(f, loop_body(f, h)), bm);
    let k = targets_of(f.blocks[i]).index_of(y);
    assert(targets_of(c)[k] == led(y, bm));
    assert(targets_of(c).contains(led(y, bm)));
    lemma_named(f, layout, h, s, y);
    assert(c.id == copy_name(f, h, x));
    assert(edge(g.blocks, copy_name(f, h, x), led(y, bm)));
}

/// With its entry every block of the copy can be reached that could be in the
/// loop.
proof fn lemma_copy_reached(
    f: FuncView,
    layout: TargetLayout,
    h: BlockId,
    s: Split,
    p: Seq<BlockId>,
)
    requires
        ready(f, layout, h, s),
        reachable(doubled(f, h, s), copy_name(f, h, h)),
        is_path(f.blocks, p),
        p[0] == f.entry,
        looped(f, h, p.last()),
    ensures
        reachable(doubled(f, h, s), copy_name(f, h, p.last())),
    decreases p.len(),
{
    let g = doubled(f, h, s);
    lemma_ready(f, layout, h, s);
    lemma_doubled_apart(f, layout, h, s);
    let b = p.last();
    if p.len() > 1 && b != h {
        let q = p.drop_last();
        let a = q.last();
        let k = p.len() - 2;
        assert(succs(f.blocks, p[k]).contains(p[k + 1]));
        lemma_succ_edge(f.blocks, a, b);
        assert forall|i: int| 0 <= i < q.len() - 1 implies succs(f.blocks, #[trigger] q[i]).contains(
            q[i + 1],
        ) by {
            assert(q[i] == p[i] && q[i + 1] == p[i + 1]);
        }
        if a != h {
            lemma_leads_back_from(f, h, a, b);
        }
        assert(has_block(f.blocks, a));
        lemma_copy_reached(f, layout, h, s, q);
        lemma_edge_copied(f, layout, h, s, a, b);
        lemma_edge_step(g, copy_name(f, h, a), copy_name(f, h, b));
    }
}

/// What could be reached still can be.
proof fn lemma_still_reached(
    f: FuncView,
    layout: TargetLayout,
    h: BlockId,
    s: Split,
    p: Seq<BlockId>,
)
    requires
        ready(f, layout, h, s),
        is_path(f.blocks, p),
        p[0] == f.entry,
    ensures
        reachable(doubled(f, h, s), p.last()),
    decreases p.len(),
{
    let g = doubled(f, h, s);
    lemma_ready(f, layout, h, s);
    lemma_doubled(f, layout, h, s);
    lemma_doubled_apart(f, layout, h, s);
    let b = p.last();
    if p.len() == 1 {
        lemma_entry_reachable(g);
    } else {
        let q = p.drop_last();
        let a = q.last();
        let k = p.len() - 2;
        assert(succs(f.blocks, p[k]).contains(p[k + 1]));
        lemma_succ_edge(f.blocks, a, b);
        assert forall|i: int| 0 <= i < q.len() - 1 implies succs(f.blocks, #[trigger] q[i]).contains(
            q[i + 1],
        ) by {
            assert(q[i] == p[i] && q[i + 1] == p[i + 1]);
        }
        lemma_still_reached(f, layout, h, s, q);
        lemma_edge_kept(f, layout, h, s, a, b);
        if edge(g.blocks, a, b) {
            lemma_edge_step(g, a, b);
        } else {
            lemma_bridge_reached(f, layout, h, s);
            lemma_copy_reached(f, layout, h, s, q);
            lemma_edge_copied(f, layout, h, s, a, b);
            lemma_edge_step(g, copy_name(f, h, a), b);
        }
    }
}

/// Where the exit can be reached, the copy can be entered.
proof fn lemma_bridge_reached(f: FuncView, layout: TargetLayout, h: BlockId, s: Split)
    requires
        ready(f, layout, h, s),
        reachable(doubled(f, h, s), exit_of(f, s)),
    ensures
        reachable(doubled(f, h, s), bridge_of(f, h)),
        reachable(doubled(f, h, s), copy_name(f, h, h)),
{
    let g = doubled(f, h, s);
    let n = f.blocks.len() as int;
    let k = body_of(f, loop_body(f, h)).len() as int;
    lemma_ready(f, layout, h, s);
    lemma_doubled(f, layout, h, s);
    lemma_doubled_apart(f, layout, h, s);
    let i = s.exit_at as int;
    lemma_rerouted_targets(f.blocks[i].term, bridge_of(f, h), bridge_of(f, h));
    assert(g.blocks[i].id == exit_of(f, s) && targets_of(g.blocks[i]).contains(bridge_of(f, h)));
    assert(edge(g.blocks, exit_of(f, s), bridge_of(f, h)));
    lemma_edge_step(g, exit_of(f, s), bridge_of(f, h));
    let b = g.blocks[n + k];
    assert(targets_of(b)[0] == copy_name(f, h, h));
    assert(b.id == bridge_of(f, h) && targets_of(b).contains(copy_name(f, h, h)));
    assert(edge(g.blocks, bridge_of(f, h), copy_name(f, h, h)));
    lemma_edge_step(g, bridge_of(f, h), copy_name(f, h, h));
}

/// What dominates a block dominates it in the doubled loop too, and what
/// dominates a block of the loop dominates its copy, itself or by its copy.
proof fn lemma_doubled_dominance(
    f: FuncView,
    layout: TargetLayout,
    h: BlockId,
    s: Split,
    d: BlockId,
    b: BlockId,
)
    requires
        ready(f, layout, h, s),
        has_block(f.blocks, d),
        has_block(f.blocks, b),
        dominates(f, d, b),
    ensures
        (in_loop(f, h, d) && !in_loop(f, h, b) ==> dominates(f, d, exit_of(f, s))) ==> dominates(
            doubled(f, h, s),
            d,
            b,
        ),
        looped(f, h, b) && !in_loop(f, h, d) ==> dominates(doubled(f, h, s), d, copy_name(f, h, b)),
        looped(f, h, b) && in_loop(f, h, d) ==> dominates(
            doubled(f, h, s),
            copy_name(f, h, d),
            copy_name(f, h, b),
        ),
        b == exit_of(f, s) ==> dominates(doubled(f, h, s), d, bridge_of(f, h)),
{
    let g = doubled(f, h, s);
    let e = exit_of(f, s);
    let p = choose|p: Seq<BlockId>| #[trigger]
        is_path(f.blocks, p) && p[0] == f.entry && p.last() == b;
    lemma_still_reached(f, layout, h, s, p);
    let q = choose|q: Seq<BlockId>| #[trigger]
        is_path(f.blocks, q) && q[0] == f.entry && q.last() == e;
    lemma_still_reached(f, layout, h, s, q);
    lemma_bridge_reached(f, layout, h, s);
    lemma_block_pos(f.blocks, b);
    assert(f.blocks[block_pos(f.blocks, b)].id.0 < f.next_block);
    if looped(f, h, b) {
        lemma_copy_reached(f, layout, h, s, p);
    }
    assert forall|w: Seq<BlockId>| #[trigger] is_walk(g, w) implies passes(f, h, s, d, w) by {
        lemma_passes(f, layout, h, s, d, w);
    }
}

/// What the loop defines.
spec fn loop_defs(f: FuncView, h: BlockId) -> Seq<Def> {
    body_defs(f, loop_body(f, h))
}

/// The copy of definition `j` of the loop.
spec fn fresh_def(f: FuncView, h: BlockId, j: int) -> Def {
    let d = loop_defs(f, h)[j];
    Def { id: ValueId((f.next_value + j) as u32), ty: d.ty, block: copy_name(f, h, d.block) }
}

/// The first `n` copied definitions.
spec fn fresh_defs(f: FuncView, h: BlockId, n: nat) -> Seq<Def> {
    Seq::new(n, |j: int| fresh_def(f, h, j))
}

proof fn lemma_defs_at(f: FuncView, ps: Seq<int>, n: nat, m: nat)
    requires
        n <= m <= ps.len(),
    ensures
        defs_at(f, ps, n).len() <= defs_at(f, ps, m).len(),
        forall|j: int|
            0 <= j < defs_at(f, ps, n).len() ==> #[trigger] defs_at(f, ps, n)[j] == defs_at(
                f,
                ps,
                m,
            )[j],
    decreases m,
{
    if n < m {
        lemma_defs_at(f, ps, n, (m - 1) as nat);
    }
}

/// Where a definition of the loop stands.
proof fn lemma_defs_at_place(f: FuncView, ps: Seq<int>, n: nat, d: Def)
    requires
        n <= ps.len(),
        forall|r: int| 0 <= r < ps.len() ==> 0 <= #[trigger] ps[r] < f.blocks.len(),
    ensures
        defs_at(f, ps, n).contains(d) == exists|r: int|
            0 <= r < n && own_defs(f.blocks[#[trigger] ps[r]]).contains(d),
    decreases n,
{
    if n > 0 {
        lemma_defs_at_place(f, ps, (n - 1) as nat, d);
        let a = defs_at(f, ps, (n - 1) as nat);
        assert(defs_at(f, ps, n) =~= a + own_defs(f.blocks[ps[n - 1]]));
        lemma_in_concat(a, own_defs(f.blocks[ps[n - 1]]), d);
    }
}

proof fn lemma_loop_unique(f: FuncView, ps: Seq<int>, n: nat)
    requires
        sound_function(f),
        n <= ps.len(),
        forall|r: int| 0 <= r < ps.len() ==> 0 <= #[trigger] ps[r] < f.blocks.len(),
        forall|r: int, t: int| 0 <= r < t < ps.len() ==> #[trigger] ps[r] < #[trigger] ps[t],
    ensures
        unique(defs_at(f, ps, n)),
    decreases n,
{
    if n > 0 {
        lemma_loop_unique(f, ps, (n - 1) as nat);
        lemma_blocks_unique(f);
        let a = defs_at(f, ps, (n - 1) as nat);
        let b = own_defs(f.blocks[ps[n - 1]]);
        let all = defs_at(f, ps, n);
        assert(all =~= a + b);
        assert(unique(b));
        assert forall|i: int, j: int| 0 <= i < j < all.len() implies (#[trigger] all[i]).id != (
        #[trigger] all[j]).id by {
            if j < a.len() {
                assert(all[i] == a[i] && all[j] == a[j]);
            } else {
                assert(all[j] == b[j - a.len()]);
                if i >= a.len() {
                    assert(all[i] == b[i - a.len()]);
                } else {
                    assert(all[i] == a[i]);
                    lemma_defs_at_place(f, ps, (n - 1) as nat, a[i]);
                    let r = choose|r: int|
                        0 <= r < n - 1 && own_defs(f.blocks[#[trigger] ps[r]]).contains(a[i]);
                    assert(own_defs(f.blocks[ps[n - 1]]).contains(b[j - a.len()]));
                    assert(ps[r] < ps[n - 1]);
                }
            }
        }
    }
}

proof fn lemma_blocks_unique(f: FuncView)
    requires
        sound_function(f),
    ensures
        forall|b: int| 0 <= b < f.blocks.len() ==> unique(own_defs(#[trigger] f.blocks[b])),
        forall|b: int, c: int, d: Def, e: Def|
            0 <= b < c < f.blocks.len() && #[trigger] own_defs(f.blocks[b]).contains(d)
                && #[trigger] own_defs(f.blocks[c]).contains(e) ==> d.id != e.id,
{
    let pre = param_defs(f.params, f.entry);
    let s = defs_upto(f.blocks, f.blocks.len());
    lemma_sound_unique(f);
    assert forall|i: int, j: int| 0 <= i < j < s.len() implies (#[trigger] s[i]).id != (
    #[trigger] s[j]).id by {
        assert(defs(f)[pre.len() + i] == s[i] && defs(f)[pre.len() + j] == s[j]);
    }
    lemma_unique_blocks(f.blocks, f.blocks.len());
}

proof fn lemma_fresh_values(list: Seq<Def>, from: int, n: nat, v: ValueId)
    requires
        unique(list),
        n <= list.len(),
    ensures
        forall|j: int|
            0 <= j < n ==> fresh_values(list, from, n).contains_key((#[trigger] list[j]).id)
                && fresh_values(list, from, n)[list[j].id] == ValueId((from + j) as u32),
        fresh_values(list, from, n).contains_key(v) ==> exists|j: int|
            0 <= j < n && (#[trigger] list[j]).id == v,
    decreases n,
{
    if n > 0 {
        lemma_fresh_values(list, from, (n - 1) as nat, v);
        assert forall|j: int| 0 <= j < n implies fresh_values(list, from, n).contains_key(
            (#[trigger] list[j]).id,
        ) && fresh_values(list, from, n)[list[j].id] == ValueId((from + j) as u32) by {
            if j < n - 1 {
                assert(list[j].id != list[n - 1].id);
            }
        }
        assert(list[n - 1].id == list[n - 1].id);
    }
}

proof fn lemma_fresh_types(list: Seq<Def>, from: int, n: nat, types: Map<ValueId, IrType>, v: ValueId)
    requires
        0 <= from,
        n <= list.len(),
        from + n <= u32::MAX,
    ensures
        forall|j: int|
            0 <= j < n ==> fresh_types(list, from, n, types).contains_key(
                ValueId((from + #[trigger] id_index(j)) as u32),
            ) && fresh_types(list, from, n, types)[ValueId((from + j) as u32)] == list[j].ty,
        v.0 < from ==> fresh_types(list, from, n, types).contains_key(v) == types.contains_key(v)
            && fresh_types(list, from, n, types)[v] == types[v],
    decreases n,
{
    if n > 0 {
        lemma_fresh_types(list, from, (n - 1) as nat, types, v);
        assert forall|j: int| 0 <= j < n implies fresh_types(list, from, n, types).contains_key(
            ValueId((from + #[trigger] id_index(j)) as u32),
        ) && fresh_types(list, from, n, types)[ValueId((from + j) as u32)] == list[j].ty by {
            if j < n - 1 {
                assert(id_index(j) == j);
                assert((from + j) as u32 != (from + n - 1) as u32);
            }
        }
    }
}

/// A number, as itself.
spec fn id_index(j: int) -> int {
    j
}

/// The loop's definitions and their new names.
proof fn lemma_loop_defs(f: FuncView, layout: TargetLayout, h: BlockId, s: Split)
    requires
        ready(f, layout, h, s),
    ensures
        unique(loop_defs(f, h)),
        f.next_value + loop_defs(f, h).len() <= u32::MAX,
        forall|j: int|
            0 <= j < loop_defs(f, h).len() ==> defs(f).contains(#[trigger] loop_defs(f, h)[j])
                && looped(f, h, loop_defs(f, h)[j].block) && value_names(
                f,
                loop_body(f, h),
            ).contains_key(loop_defs(f, h)[j].id) && value_names(
                f,
                loop_body(f, h),
            )[loop_defs(f, h)[j].id] == ValueId((f.next_value + j) as u32),
        forall|d: Def| #[trigger]
            defs(f).contains(d) && in_loop(f, h, d.block) ==> loop_defs(f, h).contains(d),
        forall|v: ValueId| #[trigger]
            value_names(f, loop_body(f, h)).contains_key(v) ==> exists|j: int|
                0 <= j < loop_defs(f, h).len() && (#[trigger] loop_defs(f, h)[j]).id == v,
{
    let body = loop_body(f, h);
    let ps = body_of(f, body);
    let list = loop_defs(f, h);
    lemma_ready(f, layout, h, s);
    lemma_body_upto(f, body, f.blocks.len());
    lemma_body_defs(f, body, f.blocks.len());
    lemma_loop_unique(f, ps, ps.len());
    let pre = param_defs(f.params, f.entry);
    let all = defs_upto(f.blocks, f.blocks.len());
    assert forall|j: int| 0 <= j < list.len() implies defs(f).contains(#[trigger] list[j]) && looped(
        f,
        h,
        list[j].block,
    ) by {
        assert(list.contains(list[j]));
        lemma_defs_at_place(f, ps, ps.len(), list[j]);
        let r = choose|r: int|
            0 <= r < ps.len() && own_defs(f.blocks[#[trigger] ps[r]]).contains(list[j]);
        assert(in_body(f, body, ps[r]));
        lemma_def_place(f.blocks, f.blocks.len(), list[j]);
        lemma_in_concat(pre, all, list[j]);
        assert(list[j].block == f.blocks[ps[r]].id);
        lemma_block_of(f, ps[r]);
    }
    assert forall|d: Def| #[trigger] defs(f).contains(d) && in_loop(f, h, d.block) implies list.contains(
        d,
    ) by {
        lemma_in_concat(pre, all, d);
        if pre.contains(d) {
            assert(d.block == f.entry);
        } else {
            lemma_def_place(f.blocks, f.blocks.len(), d);
            let i = choose|i: int|
                0 <= i < f.blocks.len() && own_defs(#[trigger] f.blocks[i]).contains(d);
            assert(d.block == f.blocks[i].id);
            lemma_block_of(f, i);
            assert(in_body(f, body, i));
            let r = ps.index_of(i);
            assert(ps[r] == i);
            lemma_defs_at_place(f, ps, ps.len(), d);
        }
    }
    assert forall|v: ValueId| #[trigger] value_names(f, body).contains_key(v) implies exists|j: int|
        0 <= j < list.len() && (#[trigger] list[j]).id == v by {
        lemma_fresh_values(list, f.next_value as int, list.len(), v);
    }
    lemma_fresh_values(list, f.next_value as int, list.len(), ValueId(0));
}

/// What the copy of a block defines.
proof fn lemma_copy_own(f: FuncView, layout: TargetLayout, h: BlockId, s: Split, r: int)
    requires
        ready(f, layout, h, s),
        0 <= r < body_of(f, loop_body(f, h)).len(),
    ensures
        ({
            let ps = body_of(f, loop_body(f, h));
            let a = own_defs(f.blocks[ps[r]]);
            let b = own_defs(doubled(f, h, s).blocks[f.blocks.len() + r]);
            let from = defs_at(f, ps, r as nat).len();
            &&& b.len() == a.len()
            &&& from + a.len() <= loop_defs(f, h).len()
            &&& forall|j: int| 0 <= j < b.len() ==> #[trigger] b[j] == fresh_def(f, h, from + j)
            &&& forall|j: int| 0 <= j < a.len() ==> #[trigger] a[j] == loop_defs(f, h)[from + j]
        }),
{
    let body = loop_body(f, h);
    let ps = body_of(f, body);
    let g = doubled(f, h, s);
    lemma_ready(f, layout, h, s);
    lemma_doubled(f, layout, h, s);
    lemma_body_upto(f, body, f.blocks.len());
    lemma_loop_defs(f, layout, h, s);
    let x = f.blocks[ps[r]];
    let c = g.blocks[f.blocks.len() + r];
    assert(c == clones(f, body)[r]);
    assert(in_body(f, body, ps[r]));
    lemma_block_of(f, ps[r]);
    lemma_fresh_blocks(f, body, ps.len(), r);
    let a = own_defs(x);
    let b = own_defs(c);
    let from = defs_at(f, ps, r as nat).len();
    lemma_defs_at(f, ps, (r + 1) as nat, ps.len());
    let upto = defs_at(f, ps, (r + 1) as nat);
    assert(upto =~= defs_at(f, ps, r as nat) + a);
    assert forall|j: int| 0 <= j < a.len() implies #[trigger] a[j] == loop_defs(f, h)[from + j] by {
        assert(upto[from + j] == a[j]);
    }
    let vm = value_names(f, body);
    assert forall|j: int| 0 <= j < b.len() implies #[trigger] b[j] == fresh_def(f, h, from + j) by {
        assert(a[j] == loop_defs(f, h)[from + j]);
        let d = loop_defs(f, h)[from + j];
        assert(vm.contains_key(d.id) && vm[d.id] == ValueId((f.next_value + (from + j)) as u32));
        assert(d.block == x.id);
        let m = x.params.len();
        if j < m {
            assert(a[j] == block_param_defs(x)[j]);
            assert(b[j] == block_param_defs(c)[j]);
            assert(d.id == x.params[j].id);
        } else {
            assert(a[j] == inst_defs(x)[j - m]);
            assert(b[j] == inst_defs(c)[j - m]);
            assert(d.id == x.insts[j - m].id);
        }
    }
}

proof fn lemma_doubled_upto(f: FuncView, layout: TargetLayout, h: BlockId, s: Split, n: nat)
    requires
        ready(f, layout, h, s),
        n <= f.blocks.len(),
    ensures
        defs_upto(doubled(f, h, s).blocks, n) == defs_upto(f.blocks, n),
    decreases n,
{
    if n > 0 {
        lemma_doubled_upto(f, layout, h, s, (n - 1) as nat);
        lemma_doubled(f, layout, h, s);
        let a = f.blocks[n - 1];
        let b = doubled(f, h, s).blocks[n - 1];
        assert(block_param_defs(b) =~= block_param_defs(a));
        assert(inst_defs(b) =~= inst_defs(a));
    }
}

proof fn lemma_copied_upto(f: FuncView, layout: TargetLayout, h: BlockId, s: Split, r: nat)
    requires
        ready(f, layout, h, s),
        r <= body_of(f, loop_body(f, h)).len(),
    ensures
        defs_upto(doubled(f, h, s).blocks, f.blocks.len() + r) == defs_upto(
            f.blocks,
            f.blocks.len(),
        ) + fresh_defs(f, h, defs_at(f, body_of(f, loop_body(f, h)), r).len()),
    decreases r,
{
    let ps = body_of(f, loop_body(f, h));
    let n = f.blocks.len();
    let g = doubled(f, h, s);
    let base = defs_upto(f.blocks, n);
    if r == 0 {
        lemma_doubled_upto(f, layout, h, s, n);
        assert(base + fresh_defs(f, h, 0) =~= base);
    } else {
        lemma_copied_upto(f, layout, h, s, (r - 1) as nat);
        lemma_copy_own(f, layout, h, s, r - 1);
        let from = defs_at(f, ps, (r - 1) as nat).len();
        let b = own_defs(g.blocks[n + r - 1]);
        let upto = defs_at(f, ps, r);
        assert(upto.len() == from + b.len());
        let before = defs_upto(g.blocks, (n + r - 1) as nat);
        assert(defs_upto(g.blocks, n + r) =~= before + b);
        assert(fresh_defs(f, h, upto.len()) =~= fresh_defs(f, h, from) + b);
        assert(before + b =~= base + fresh_defs(f, h, upto.len()));
    }
}

/// What the doubled loop defines.
proof fn lemma_doubled_defs(f: FuncView, layout: TargetLayout, h: BlockId, s: Split)
    requires
        ready(f, layout, h, s),
    ensures
        defs(doubled(f, h, s)) == defs(f) + fresh_defs(f, h, loop_defs(f, h).len()),
        unique(defs(f)),
        unique(defs(doubled(f, h, s))),
{
    let g = doubled(f, h, s);
    let n = f.blocks.len();
    let ps = body_of(f, loop_body(f, h));
    let k = ps.len();
    let list = loop_defs(f, h);
    lemma_doubled(f, layout, h, s);
    lemma_copied_upto(f, layout, h, s, k);
    lemma_loop_defs(f, layout, h, s);
    let bridge = g.blocks[(n + k) as int];
    assert(block_param_defs(bridge) =~= Seq::<Def>::empty());
    assert(inst_defs(bridge) =~= Seq::<Def>::empty());
    let before = defs_upto(g.blocks, n + k);
    assert(defs_upto(g.blocks, n + k + 1) =~= before);
    let all = defs(g);
    assert(all =~= defs(f) + fresh_defs(f, h, list.len()));
    lemma_sound_unique(f);
    assert forall|i: int, j: int| 0 <= i < j < all.len() implies (#[trigger] all[i]).id != (
    #[trigger] all[j]).id by {
        let m = defs(f).len();
        if j < m {
            assert(all[i] == defs(f)[i] && all[j] == defs(f)[j]);
        } else {
            assert(all[j] == fresh_def(f, h, j - m));
            if i < m {
                assert(all[i] == defs(f)[i]);
                assert(defs(f)[i].id.0 < f.next_value);
            } else {
                assert(all[i] == fresh_def(f, h, i - m));
            }
        }
    }
}

/// The type of a value is that of its definition.
proof fn lemma_type_is(f: FuncView, d: Def)
    requires
        sound_function(f),
        defs(f).contains(d),
    ensures
        type_of(f, d.id) == Some(d.ty),
        last_def(defs(f), d.id) == Some(d),
{
    lemma_sound_unique(f);
    lemma_unique_def(defs(f), d);
    let k = defs(f).index_of(d);
    assert(type_agrees(f, k));
}

/// Values keep their definitions and types; copies have those of what they copy.
proof fn lemma_doubled_types(f: FuncView, layout: TargetLayout, h: BlockId, s: Split, d: Def)
    requires
        ready(f, layout, h, s),
        defs(f).contains(d),
    ensures
        ({
            let g = doubled(f, h, s);
            let v = renamed(d.id, value_names(f, loop_body(f, h)));
            &&& type_of(f, d.id) == Some(d.ty)
            &&& is_defined(g, d.id)
            &&& last_def(defs(g), d.id) == Some(d)
            &&& type_of(g, d.id) == Some(d.ty)
            &&& is_defined(g, v)
            &&& type_of(g, v) == Some(d.ty)
            &&& in_loop(f, h, d.block) ==> value_names(f, loop_body(f, h)).contains_key(d.id)
                && last_def(defs(g), v) == Some(
                Def { id: v, ty: d.ty, block: copy_name(f, h, d.block) },
            )
            &&& !in_loop(f, h, d.block) ==> v == d.id
        }),
{
    let g = doubled(f, h, s);
    let body = loop_body(f, h);
    let list = loop_defs(f, h);
    let m = defs(f).len();
    lemma_type_is(f, d);
    lemma_doubled_defs(f, layout, h, s);
    lemma_loop_defs(f, layout, h, s);
    let i = defs(f).index_of(d);
    assert(defs(g)[i] == d);
    assert(defs(g).contains(d));
    lemma_unique_def(defs(g), d);
    assert(d.id.0 < f.next_value) by {
        assert(defs(f)[i].id.0 < f.next_value);
    }
    lemma_fresh_types(list, f.next_value as int, list.len(), f.type_cache, d.id);
    if in_loop(f, h, d.block) {
        assert(list.contains(d));
        let j = list.index_of(d);
        assert(list[j] == d);
        let c = fresh_def(f, h, j);
        assert(defs(g)[m + j] == c);
        assert(defs(g).contains(c));
        lemma_unique_def(defs(g), c);
        assert(id_index(j) == j);
    } else if value_names(f, body).contains_key(d.id) {
        let j = choose|j: int| 0 <= j < list.len() && (#[trigger] list[j]).id == d.id;
        assert(defs(f).contains(list[j]));
        lemma_unique_def(defs(f), list[j]);
        lemma_unique_def(defs(f), d);
    }
}

/// Is a value of the loop that is read behind it defined on every way to where
/// the loop is left?
pub open spec fn outlives(f: FuncView, h: BlockId, s: Split) -> bool {
    forall|i: int, d: Def|
        #![trigger f.blocks[i], defs(f).contains(d)]
        0 <= i < f.blocks.len() && !in_loop(f, h, f.blocks[i].id) && defs(f).contains(d) && in_loop(
            f,
            h,
            d.block,
        ) && block_reads(f.blocks[i], d.id) ==> dominates(f, d.block, exit_of(f, s))
}

/// A definition stands in a block of the function.
proof fn lemma_def_has_block(f: FuncView, d: Def)
    requires
        has_block(f.blocks, f.entry),
        defs(f).contains(d),
    ensures
        has_block(f.blocks, d.block),
{
    lemma_def_block(f, defs(f).index_of(d));
}

/// What a block reads it still finds.
proof fn lemma_old_use(
    f: FuncView,
    layout: TargetLayout,
    h: BlockId,
    s: Split,
    i: int,
    v: ValueId,
    at: int,
)
    requires
        ready(f, layout, h, s),
        outlives(f, h, s),
        0 <= i < f.blocks.len(),
        block_reads(f.blocks[i], v),
        is_defined(f, v),
        defined_on_the_way(f, f.blocks[i], v, at),
    ensures
        is_defined(doubled(f, h, s), v),
        defined_on_the_way(doubled(f, h, s), doubled(f, h, s).blocks[i], v, at),
        type_of(doubled(f, h, s), v) == type_of(f, v),
{
    let a = f.blocks[i];
    lemma_ready(f, layout, h, s);
    lemma_doubled(f, layout, h, s);
    lemma_last_def(defs(f), v);
    let d = last_def(defs(f), v)->0;
    lemma_doubled_types(f, layout, h, s, d);
    if d.block != a.id {
        lemma_def_has_block(f, d);
        lemma_block_of(f, i);
        lemma_doubled_dominance(f, layout, h, s, d.block, a.id);
    }
}

/// The copy of an instruction stands where the instruction stands.
proof fn lemma_copied_pos(
    f: FuncView,
    layout: TargetLayout,
    h: BlockId,
    s: Split,
    x: BlockId,
    d: Def,
)
    requires
        ready(f, layout, h, s),
        looped(f, h, x),
        defs(f).contains(d),
        in_loop(f, h, d.block),
    ensures
        ({
            let a = the_block(f.blocks, x).insts;
            let vm = value_names(f, loop_body(f, h));
            let b = cloned_block(
                the_block(f.blocks, x),
                copy_name(f, h, x),
                block_names(f, loop_body(f, h)),
                vm,
            ).insts;
            last_inst_pos(b, b.len(), renamed(d.id, vm)) == last_inst_pos(a, a.len(), d.id)
        }),
{
    let y = the_block(f.blocks, x);
    let a = y.insts;
    let vm = value_names(f, loop_body(f, h));
    let b = cloned_block(y, copy_name(f, h, x), block_names(f, loop_body(f, h)), vm).insts;
    lemma_loop_defs(f, layout, h, s);
    lemma_block_pos(f.blocks, x);
    let list = loop_defs(f, h);
    assert(list.contains(d));
    let j = list.index_of(d);
    assert(list[j] == d);
    assert forall|k: int| 0 <= k < a.len() implies ((#[trigger] b[k]).id == renamed(d.id, vm)) == (
    a[k].id == d.id) by {
        let e = Def { id: a[k].id, ty: a[k].ty, block: y.id };
        assert(own_defs(y)[y.params.len() + k] == inst_defs(y)[k]);
        assert(own_defs(y).contains(e));
        lemma_def_place(f.blocks, f.blocks.len(), e);
        lemma_in_concat(param_defs(f.params, f.entry), defs_upto(f.blocks, f.blocks.len()), e);
        assert(defs(f).contains(e));
        assert(list.contains(e));
        let n = list.index_of(e);
        assert(list[n] == e);
    }
    lemma_same_pos(a, b, a.len(), d.id, renamed(d.id, vm));
}

proof fn lemma_same_pos(a: Seq<InstView>, b: Seq<InstView>, n: nat, v: ValueId, w: ValueId)
    requires
        n <= a.len(),
        a.len() == b.len(),
        forall|k: int| 0 <= k < a.len() ==> ((#[trigger] b[k]).id == w) == (a[k].id == v),
    ensures
        last_inst_pos(b, n, w) == last_inst_pos(a, n, v),
    decreases n,
{
    if n > 0 {
        lemma_same_pos(a, b, (n - 1) as nat, v, w);
        assert((b[n - 1].id == w) == (a[n - 1].id == v));
    }
}

/// What the copy of a block reads it finds.
proof fn lemma_copy_use(
    f: FuncView,
    layout: TargetLayout,
    h: BlockId,
    s: Split,
    x: BlockId,
    v: ValueId,
    at: int,
)
    requires
        ready(f, layout, h, s),
        looped(f, h, x),
        is_defined(f, v),
        defined_on_the_way(f, the_block(f.blocks, x), v, at),
    ensures
        ({
            let g = doubled(f, h, s);
            let vm = value_names(f, loop_body(f, h));
            let c = cloned_block(
                the_block(f.blocks, x),
                copy_name(f, h, x),
                block_names(f, loop_body(f, h)),
                vm,
            );
            &&& is_defined(g, renamed(v, vm))
            &&& defined_on_the_way(g, c, renamed(v, vm), at)
            &&& type_of(g, renamed(v, vm)) == type_of(f, v)
        }),
{
    let a = the_block(f.blocks, x);
    lemma_ready(f, layout, h, s);
    lemma_block_pos(f.blocks, x);
    lemma_last_def(defs(f), v);
    let d = last_def(defs(f), v)->0;
    lemma_doubled_types(f, layout, h, s, d);
    lemma_def_has_block(f, d);
    if in_loop(f, h, d.block) {
        lemma_copied_pos(f, layout, h, s, x, d);
        if d.block == x {
        } else {
            lemma_doubled_dominance(f, layout, h, s, d.block, x);
            if copy_name(f, h, d.block) == copy_name(f, h, x) {
                lemma_copies_differ(f, layout, h, s, d.block, x);
            }
        }
    } else {
        lemma_doubled_dominance(f, layout, h, s, d.block, x);
        lemma_stands_once(f, layout, h, s, x);
        lemma_block_pos(f.blocks, d.block);
        assert(f.blocks[block_pos(f.blocks, d.block)].id.0 < f.next_block);
    }
}

/// Does the block named `y` in `g` take what the one named `x` in `f` takes?
spec fn takes_same(f: FuncView, g: FuncView, x: BlockId, y: BlockId) -> bool {
    let a = the_block(f.blocks, x).params;
    let b = the_block(g.blocks, y).params;
    &&& has_block(f.blocks, x)
    &&& has_block(g.blocks, y)
    &&& a.len() == b.len()
    &&& forall|i: int| 0 <= i < a.len() ==> (#[trigger] b[i]).ty == a[i].ty
}

proof fn lemma_moved_edge(
    f: FuncView,
    g: FuncView,
    name: Seq<char>,
    new: Seq<char>,
    x: BlockId,
    y: BlockId,
    u: Seq<ValueId>,
    w: Seq<ValueId>,
)
    requires
        takes_same(f, g, x, y),
        like_list(f, g, u, w),
        edge_msgs(f, name, x, u).len() == 0,
    ensures
        edge_msgs(g, new, y, w).len() == 0,
{
    let a = the_block(f.blocks, x);
    let b = the_block(g.blocks, y);
    let old = branch_arg_msgs(f, name, a, u);
    let now = branch_arg_msgs(g, new, b, w);
    lemma_gather_empty(u.len(), old);
    assert forall|k: int| 0 <= k < w.len() implies (#[trigger] now(k)).len() == 0 by {
        assert(old(k).len() == 0);
        assert(type_of(g, w[k]) == type_of(f, u[k]));
        assert(b.params[k].ty == a.params[k].ty);
    }
    lemma_gather_empty(w.len(), now);
}

/// The copy of an end fits where the end does.
proof fn lemma_moved_term(
    f: FuncView,
    g: FuncView,
    t: TermView,
    vm: Map<ValueId, ValueId>,
    bm: Map<BlockId, BlockId>,
    name: Seq<char>,
    new: Seq<char>,
)
    requires
        g.return_type == f.return_type,
        branch_msgs(f, t, name).len() == 0,
        return_msgs(f, t, name).len() == 0,
        like_list(f, g, term_uses(t), term_uses(renamed_term(t, vm))),
        forall|x: BlockId| #[trigger]
            term_targets(t).contains(x) ==> takes_same(f, g, x, led(x, bm)),
    ensures
        branch_msgs(g, led_term(renamed_term(t, vm), bm), new).len() == 0,
        return_msgs(g, led_term(renamed_term(t, vm), bm), new).len() == 0,
{
    let to = term_targets(t);
    let old = term_uses(t);
    let now = term_uses(renamed_term(t, vm));
    match t {
        TermView::Branch(dest, args) => {
            assert(to[0] == dest);
            assert(to.contains(dest));
            lemma_moved_edge(f, g, name, new, dest, led(dest, bm), args, renamed_list(args, vm));
        },
        TermView::CondBranch { cond, true_dest, true_args, false_dest, false_args } => {
            assert(to[0] == true_dest);
            assert(to.contains(true_dest));
            assert(to[1] == false_dest);
            assert(to.contains(false_dest));
            assert(now[0] == renamed(cond, vm) && old[0] == cond);
            let x = renamed_list(true_args, vm);
            let y = renamed_list(false_args, vm);
            assert forall|k: int| 0 <= k < x.len() implies type_of(g, #[trigger] x[k]) == type_of(
                f,
                true_args[k],
            ) by {
                assert(now[1 + k] == x[k] && old[1 + k] == true_args[k]);
            }
            assert forall|k: int| 0 <= k < y.len() implies type_of(g, #[trigger] y[k]) == type_of(
                f,
                false_args[k],
            ) by {
                assert(now[1 + x.len() + k] == y[k] && old[1 + x.len() + k] == false_args[k]);
            }
            assert(type_of(g, now[0]) == type_of(f, old[0]));
            lemma_moved_edge(f, g, name, new, true_dest, led(true_dest, bm), true_args, x);
            lemma_moved_edge(f, g, name, new, false_dest, led(false_dest, bm), false_args, y);
        },
        TermView::Switch { selector, cases, default } => {
            assert(to[cases.len() as int] == default);
            assert(to.contains(default));
            let moved = Seq::new(cases.len(), |i: int| (cases[i].0, led(cases[i].1, bm)));
            lemma_gather_empty(cases.len(), case_msgs(f, cases));
            assert forall|i: int| 0 <= i < moved.len() implies (#[trigger] case_msgs(g, moved)(
                i,
            )).len() == 0 by {
                assert(to[i] == cases[i].1);
                assert(to.contains(cases[i].1));
                assert(case_msgs(f, cases)(i).len() == 0);
            }
            lemma_gather_empty(moved.len(), case_msgs(g, moved));
        },
        TermView::Return(Some(v)) => {
            assert(now[0] == renamed(v, vm) && old[0] == v);
            assert(type_of(g, now[0]) == type_of(f, old[0]));
        },
        _ => {},
    }
}

/// Blocks and copies take what the blocks took.
proof fn lemma_takes(f: FuncView, layout: TargetLayout, h: BlockId, s: Split, x: BlockId)
    requires
        ready(f, layout, h, s),
        has_block(f.blocks, x),
    ensures
        ({
            let g = doubled(f, h, s);
            &&& same_target(f, g, x)
            &&& takes_same(f, g, x, x)
            &&& takes_same(f, g, x, led(x, block_names(f, loop_body(f, h))))
        }),
{
    let g = doubled(f, h, s);
    lemma_ready(f, layout, h, s);
    lemma_doubled(f, layout, h, s);
    lemma_doubled_apart(f, layout, h, s);
    lemma_block_pos(f.blocks, x);
    let i = block_pos(f.blocks, x);
    lemma_block_of(g, i);
    lemma_named(f, layout, h, s, x);
    if in_loop(f, h, x) {
        let r = lemma_copy(f, layout, h, s, x);
        lemma_block_of(g, f.blocks.len() + r);
    }
}

/// A way to the header comes by the block before the loop.
proof fn lemma_enters(f: FuncView, h: BlockId, p: BlockId, w: Seq<BlockId>)
    requires
        apart(f),
        h != f.entry,
        preheader_of(f, h, loop_body(f, h)) == Some(p),
        is_walk(f, w),
        w.last() == h,
    ensures
        w.contains(p),
    decreases w.len(),
{
    assert(w.len() > 1);
    let n = w.len() - 2;
    let q = w[n];
    assert(edge(f.blocks, w[n], w[n + 1]));
    assert(reachable(f, w[n]));
    if in_loop(f, h, q) {
        header_dominates_loop(f, h, q);
        lemma_walk_prefix(f, w, n + 1);
        let v = w.take(n + 1);
        assert(v.contains(h));
        let j = v.index_of(h);
        lemma_walk_prefix(f, w, j + 1);
        lemma_enters(f, h, p, w.take(j + 1));
        let k = w.take(j + 1).index_of(p);
        assert(w[k] == p);
    } else {
        lemma_outside(f, h, p, q);
        assert(w[n] == p);
    }
}

/// From outside, a loop is entered from the block before it.
proof fn lemma_outside(f: FuncView, h: BlockId, p: BlockId, q: BlockId)
    requires
        preheader_of(f, h, loop_body(f, h)) == Some(p),
        edge(f.blocks, q, h),
        !in_loop(f, h, q),
    ensures
        p == q,
{
    let body = loop_body(f, h);
    let all = preds_of(f.blocks, h);
    let cond = |b: BlockId| !body.contains(b);
    lemma_preds_are_edges(f.blocks, h, q);
    let i = all.index_of(q);
    assert(all[i] == q);
    all.lemma_filter_contains(cond, i);
    assert(outside_preds(f, h, body) == all.filter(cond));
    assert(all.filter(cond).contains(q));
}

/// The block before the loop hands over what the loop starts with.
proof fn lemma_preheader(f: FuncView, layout: TargetLayout, h: BlockId, s: Split) -> (id: BlockId)
    requires
        ready(f, layout, h, s),
    ensures
        has_block(f.blocks, id),
        preheader_of(f, h, loop_body(f, h)) == Some(id),
        the_block(f.blocks, id).term == Some(TermView::Branch(h, seq![s.init])),
        edge_msgs(f, the_block(f.blocks, id).name, h, seq![s.init]).len() == 0,
        is_defined(f, s.init),
        last_def(defs(f), s.init) matches Some(d) && (d.block == id || dominates(f, d.block, id)),
{
    let id = preheader_of(f, h, loop_body(f, h))->0;
    let p = the_block(f.blocks, id);
    lemma_block_pos(f.blocks, id);
    let i = block_pos(f.blocks, id);
    assert(f.blocks[i] == p);
    assert(sound_block(f, f.blocks[i]));
    assert(typed_block(f, f.blocks[i]));
    let args = p.term->0->Branch_1;
    assert(p.term == Some(TermView::Branch(h, args)));
    assert(branch_msgs(f, p.term->0, p.name).len() == 0);
    assert(edge_msgs(f, p.name, h, args).len() == 0);
    lemma_ready(f, layout, h, s);
    assert(args.len() == 1);
    assert(args =~= seq![s.init]);
    assert(term_uses(p.term->0) == args);
    assert(is_defined(f, args[0]));
    assert(defined_on_the_way(f, p, args[0], p.insts.len() as int));
    lemma_last_def(defs(f), s.init);
    id
}

/// What the loop starts with is there where the loop is left.
proof fn lemma_init_lasts(f: FuncView, layout: TargetLayout, h: BlockId, s: Split)
    requires
        ready(f, layout, h, s),
    ensures
        last_def(defs(f), s.init) matches Some(d) && dominates(f, d.block, exit_of(f, s)),
{
    let id = lemma_preheader(f, layout, h, s);
    let e = exit_of(f, s);
    let d = last_def(defs(f), s.init)->0;
    lemma_ready(f, layout, h, s);
    assert forall|w: Seq<BlockId>| #[trigger] is_walk(f, w) && w.last() == h implies w.contains(id) by {
        lemma_enters(f, h, id, w);
    }
    assert(dominates(f, id, h));
    lemma_dominates_trans(f, id, h, e);
    if d.block != id {
        lemma_dominates_trans(f, d.block, id, e);
    }
}

/// What the loop starts with is there where the copy of the loop starts.
proof fn lemma_init_use(f: FuncView, layout: TargetLayout, h: BlockId, s: Split)
    requires
        ready(f, layout, h, s),
    ensures
        ({
            let g = doubled(f, h, s);
            &&& is_defined(g, s.init)
            &&& type_of(g, s.init) == type_of(f, s.init)
            &&& last_def(defs(g), s.init) matches Some(d) && dominates(g, d.block, bridge_of(f, h))
                && d.block != bridge_of(f, h)
        }),
{
    let g = doubled(f, h, s);
    let e = exit_of(f, s);
    let d = last_def(defs(f), s.init)->0;
    assert(has_block(f.blocks, e) && has_block(f.blocks, d.block) && defs(f).contains(d) && d.id
        == s.init && dominates(f, d.block, e)) by {
        lemma_ready(f, layout, h, s);
        lemma_init_lasts(f, layout, h, s);
        lemma_last_def(defs(f), s.init);
        lemma_def_has_block(f, d);
    }
    assert(d.block != bridge_of(f, h)) by {
        lemma_block_pos(f.blocks, d.block);
        assert(f.blocks[block_pos(f.blocks, d.block)].id.0 < f.next_block);
        lemma_doubled(f, layout, h, s);
    }
    assert(dominates(g, d.block, bridge_of(f, h))) by {
        lemma_doubled_dominance(f, layout, h, s, d.block, e);
    }
    lemma_doubled_types(f, layout, h, s, d);
}

/// A block that is not where the loop is left stays sound.
proof fn lemma_old_insts(f: FuncView, layout: TargetLayout, h: BlockId, s: Split, i: int)
    requires
        ready(f, layout, h, s),
        outlives(f, h, s),
        0 <= i < f.blocks.len(),
    ensures
        ({
            let g = doubled(f, h, s);
            let b = f.blocks[i];
            let c = g.blocks[i];
            &&& forall|j: int|
                0 <= j < b.insts.len() ==> all_defined(g, (#[trigger] c.insts[j]).kind.args)
                    && all_on_the_way(g, c, c.insts[j].kind.args, j) && consistency_msgs(
                    g,
                    c.insts[j],
                ).len() == 0
            &&& all_defined(g, term_uses(b.term->0))
            &&& all_on_the_way(g, c, term_uses(b.term->0), b.insts.len() as int)
            &&& agree_on(f, g, term_uses(b.term->0))
        }),
{
    let g = doubled(f, h, s);
    let b = f.blocks[i];
    let c = g.blocks[i];
    lemma_doubled(f, layout, h, s);
    assert(sound_block(f, f.blocks[i]));
    assert(typed_block(f, f.blocks[i]));
    assert(c.insts == b.insts);
    assert forall|j: int| 0 <= j < b.insts.len() implies all_defined(
        g,
        (#[trigger] c.insts[j]).kind.args,
    ) && all_on_the_way(g, c, c.insts[j].kind.args, j) && consistency_msgs(g, c.insts[j]).len()
        == 0 by {
        let args = b.insts[j].kind.args;
        assert(all_defined(f, b.insts[j].kind.args));
        assert forall|k: int| 0 <= k < args.len() implies is_defined(g, #[trigger] args[k])
            && defined_on_the_way(g, c, args[k], j) && type_of(g, args[k]) == type_of(f, args[k]) by {
            assert(args.contains(args[k]));
            assert(block_reads(b, args[k]));
            lemma_old_use(f, layout, h, s, i, args[k], j);
        }
        assert(has_operands(b.insts[j]));
        assert(consistency_msgs(f, b.insts[j]).len() == 0);
        lemma_like_consistency(f, g, b.insts[j], c.insts[j]);
    }
    let uses = term_uses(b.term->0);
    assert forall|k: int| 0 <= k < uses.len() implies is_defined(g, #[trigger] uses[k])
        && defined_on_the_way(g, c, uses[k], b.insts.len() as int) && type_of(g, uses[k]) == type_of(
        f,
        uses[k],
    ) by {
        assert(uses.contains(uses[k]));
        assert(block_reads(b, uses[k]));
        lemma_old_use(f, layout, h, s, i, uses[k], b.insts.len() as int);
    }
}

/// A block stays sound.
proof fn lemma_old_block(f: FuncView, layout: TargetLayout, h: BlockId, s: Split, i: int)
    requires
        ready(f, layout, h, s),
        outlives(f, h, s),
        0 <= i < f.blocks.len(),
    ensures
        sound_block(doubled(f, h, s), doubled(f, h, s).blocks[i]),
        typed_block(doubled(f, h, s), doubled(f, h, s).blocks[i]),
{
    let g = doubled(f, h, s);
    let b = f.blocks[i];
    let c = g.blocks[i];
    let t = b.term->0;
    let n = f.blocks.len();
    let k = body_of(f, loop_body(f, h)).len();
    lemma_ready(f, layout, h, s);
    lemma_doubled(f, layout, h, s);
    lemma_doubled_apart(f, layout, h, s);
    lemma_old_insts(f, layout, h, s, i);
    assert(sound_block(f, f.blocks[i]));
    assert(typed_block(f, f.blocks[i]));
    assert forall|x: BlockId| #[trigger] term_targets(t).contains(x) implies same_target(f, g, x) by {
        let m = targets_of(b).index_of(x);
        assert(has_block(f.blocks, targets_of(b)[m]));
        lemma_takes(f, layout, h, s, x);
    }
    lemma_left_term(f, g, t, b.name);
    if i == s.exit_at {
        let to = bridge_of(f, h);
        lemma_block_of(g, (n + k) as int);
        let u = rerouted(b.term, to)->0;
        assert(c.term == Some(u));
        assert forall|x: BlockId| #[trigger] targets_of(c).contains(x) implies x != g.entry
            && has_block(g.blocks, x) by {
            lemma_rerouted_targets(b.term, to, x);
            lemma_cond_targets(t, x);
            if x == to {
                assert(has_block(f.blocks, f.entry));
                lemma_block_pos(f.blocks, f.entry);
                assert(f.blocks[block_pos(f.blocks, f.entry)].id.0 < f.next_block);
            } else {
                assert(term_targets(t).contains(x));
                assert(targets_of(b).contains(x));
            }
        }
        assert forall|m: int| 0 <= m < targets_of(c).len() implies has_block(
            g.blocks,
            #[trigger] targets_of(c)[m],
        ) by {
            assert(targets_of(c).contains(targets_of(c)[m]));
        }
        let uses = term_uses(t);
        let now = term_uses(u);
        assert forall|m: int| 0 <= m < now.len() implies #[trigger] now[m] == uses[m] by {}
        assert(now.len() <= uses.len());
        assert(edge_msgs(g, b.name, to, Seq::empty()) =~= Seq::<Seq<char>>::empty());
        assert(branch_msgs(g, t, b.name).len() == 0);
        assert(branch_msgs(g, u, b.name).len() == 0);
        assert(return_msgs(g, u, b.name).len() == 0);
        assert(sound_block(g, c));
        assert(typed_block(g, c));
    } else {
        assert(c == b);
        assert forall|m: int| 0 <= m < targets_of(c).len() implies has_block(
            g.blocks,
            #[trigger] targets_of(c)[m],
        ) by {
            assert(term_targets(t).contains(targets_of(b)[m]));
        }
    }
}

/// The copy of a block is sound.
proof fn lemma_copy_block(f: FuncView, layout: TargetLayout, h: BlockId, s: Split, x: BlockId)
    requires
        ready(f, layout, h, s),
        looped(f, h, x),
    ensures
        ({
            let g = doubled(f, h, s);
            let c = cloned_block(
                the_block(f.blocks, x),
                copy_name(f, h, x),
                block_names(f, loop_body(f, h)),
                value_names(f, loop_body(f, h)),
            );
            sound_block(g, c) && typed_block(g, c)
        }),
{
    let g = doubled(f, h, s);
    let bm = block_names(f, loop_body(f, h));
    let vm = value_names(f, loop_body(f, h));
    let b = the_block(f.blocks, x);
    let c = cloned_block(b, copy_name(f, h, x), bm, vm);
    let t = b.term->0;
    let u = led_term(renamed_term(t, vm), bm);
    lemma_ready(f, layout, h, s);
    lemma_doubled(f, layout, h, s);
    lemma_block_pos(f.blocks, x);
    let i = block_pos(f.blocks, x);
    assert(sound_block(f, f.blocks[i]));
    assert(typed_block(f, f.blocks[i]));
    assert(c.term == Some(u));
    lemma_led_targets(t, vm, bm);
    lemma_renamed_uses(t, vm);
    assert(term_uses(u) =~= term_uses(renamed_term(t, vm)));
    assert forall|y: BlockId| #[trigger] term_targets(t).contains(y) implies takes_same(
        f,
        g,
        y,
        led(y, bm),
    ) && led(y, bm) != g.entry by {
        let m = targets_of(b).index_of(y);
        assert(has_block(f.blocks, targets_of(b)[m]));
        lemma_takes(f, layout, h, s, y);
        lemma_named(f, layout, h, s, y);
        lemma_block_pos(f.blocks, f.entry);
        assert(f.blocks[block_pos(f.blocks, f.entry)].id.0 < f.next_block);
        if in_loop(f, h, y) {
            let r = lemma_copy(f, layout, h, s, y);
        }
    }
    assert forall|m: int| 0 <= m < targets_of(c).len() implies has_block(
        g.blocks,
        #[trigger] targets_of(c)[m],
    ) && targets_of(c)[m] != g.entry by {
        let y = term_targets(t)[m];
        assert(term_targets(t).contains(y));
        assert(targets_of(c)[m] == led(y, bm));
    }
    assert forall|j: int| 0 <= j < c.insts.len() implies all_defined(
        g,
        (#[trigger] c.insts[j]).kind.args,
    ) && all_on_the_way(g, c, c.insts[j].kind.args, j) && consistency_msgs(g, c.insts[j]).len()
        == 0 by {
        let args = b.insts[j].kind.args;
        let now = c.insts[j].kind.args;
        assert(all_defined(f, b.insts[j].kind.args));
        assert(now == renamed_list(args, vm));
        assert forall|k: int| 0 <= k < now.len() implies is_defined(g, #[trigger] now[k])
            && defined_on_the_way(g, c, now[k], j) && type_of(g, now[k]) == type_of(f, args[k]) by {
            assert(is_defined(f, args[k]));
            assert(defined_on_the_way(f, b, args[k], j));
            lemma_copy_use(f, layout, h, s, x, args[k], j);
        }
        assert(has_operands(f.blocks[i].insts[j]));
        assert(consistency_msgs(f, b.insts[j]).len() == 0);
        lemma_like_consistency(f, g, b.insts[j], c.insts[j]);
    }
    let uses = term_uses(t);
    let now = term_uses(u);
    assert forall|k: int| 0 <= k < now.len() implies is_defined(g, #[trigger] now[k])
        && defined_on_the_way(g, c, now[k], c.insts.len() as int) && type_of(g, now[k]) == type_of(
        f,
        uses[k],
    ) by {
        assert(is_defined(f, uses[k]));
        assert(defined_on_the_way(f, b, uses[k], b.insts.len() as int));
        lemma_copy_use(f, layout, h, s, x, uses[k], b.insts.len() as int);
    }
    lemma_moved_term(f, g, t, vm, bm, b.name, c.name);
}

/// The block between the loop and its copy is sound.
proof fn lemma_bridge_block(f: FuncView, layout: TargetLayout, h: BlockId, s: Split)
    requires
        ready(f, layout, h, s),
    ensures
        ({
            let g = doubled(f, h, s);
            let b = g.blocks.last();
            sound_block(g, b) && typed_block(g, b)
        }),
{
    let g = doubled(f, h, s);
    let b = g.blocks.last();
    let to = copy_name(f, h, h);
    let uses = seq![s.init];
    lemma_ready(f, layout, h, s);
    lemma_doubled(f, layout, h, s);
    lemma_init_use(f, layout, h, s);
    lemma_takes(f, layout, h, s, h);
    lemma_named(f, layout, h, s, h);
    let r = lemma_copy(f, layout, h, s, h);
    lemma_block_pos(f.blocks, f.entry);
    assert(f.blocks[block_pos(f.blocks, f.entry)].id.0 < f.next_block);
    let id = lemma_preheader(f, layout, h, s);
    let p = the_block(f.blocks, id);
    lemma_moved_edge(f, g, p.name, b.name, h, to, uses, uses);
    assert(term_uses(b.term->0) == uses);
    assert(targets_of(b) =~= seq![to]);
}

/// Do the instructions of a block have their operands?
spec fn full_block(b: BlockView) -> bool {
    forall|j: int| 0 <= j < b.insts.len() ==> has_operands(#[trigger] b.insts[j])
}

/// Every block of the doubled loop is sound.
proof fn lemma_doubled_block(f: FuncView, layout: TargetLayout, h: BlockId, s: Split, i: int)
    requires
        ready(f, layout, h, s),
        outlives(f, h, s),
        0 <= i < doubled(f, h, s).blocks.len(),
    ensures
        sound_block(doubled(f, h, s), doubled(f, h, s).blocks[i]),
        typed_block(doubled(f, h, s), doubled(f, h, s).blocks[i]),
        full_block(doubled(f, h, s).blocks[i]),
{
    let g = doubled(f, h, s);
    let n = f.blocks.len() as int;
    let ps = body_of(f, loop_body(f, h));
    let k = ps.len();
    lemma_doubled(f, layout, h, s);
    if i < n {
        lemma_old_block(f, layout, h, s, i);
        assert(full_block(g.blocks[i])) by {
            assert forall|j: int| 0 <= j < g.blocks[i].insts.len() implies has_operands(
                #[trigger] g.blocks[i].insts[j],
            ) by {
                assert(has_operands(f.blocks[i].insts[j]));
            }
        }
    } else if i < n + k {
        let r = i - n;
        lemma_ready(f, layout, h, s);
        lemma_body_upto(f, loop_body(f, h), f.blocks.len());
        assert(in_body(f, loop_body(f, h), ps[r]));
        let x = f.blocks[ps[r]].id;
        lemma_block_of(f, ps[r]);
        let q = lemma_copy(f, layout, h, s, x);
        assert(ps[q] == ps[r]);
        assert(q == r);
        lemma_copy_block(f, layout, h, s, x);
        assert(full_block(g.blocks[i])) by {
            assert forall|j: int| 0 <= j < g.blocks[i].insts.len() implies has_operands(
                #[trigger] g.blocks[i].insts[j],
            ) by {
                assert(has_operands(f.blocks[ps[r]].insts[j]));
            }
        }
    } else {
        lemma_bridge_block(f, layout, h, s);
    }
}

/// The definitions of the doubled loop are sound.
proof fn lemma_doubled_def(f: FuncView, layout: TargetLayout, h: BlockId, s: Split, i: int)
    requires
        ready(f, layout, h, s),
        0 <= i < defs(doubled(f, h, s)).len(),
    ensures
        !defined_before(defs(doubled(f, h, s)), i),
        type_agrees(doubled(f, h, s), i),
{
    let g = doubled(f, h, s);
    let m = defs(f).len();
    let list = loop_defs(f, h);
    lemma_doubled_defs(f, layout, h, s);
    lemma_loop_defs(f, layout, h, s);
    if i < m {
        assert(defs(g)[i] == defs(f)[i]);
        assert(defs(f).contains(defs(f)[i]));
        lemma_doubled_types(f, layout, h, s, defs(f)[i]);
    } else {
        let d = list[i - m];
        assert(defs(g)[i] == fresh_def(f, h, i - m));
        assert(list.contains(d));
        lemma_doubled_types(f, layout, h, s, d);
    }
}

/// A function whose loop is doubled stays sound.
proof fn lemma_doubled_sound(f: FuncView, layout: TargetLayout, h: BlockId, s: Split)
    requires
        ready(f, layout, h, s),
        outlives(f, h, s),
    ensures
        sound_function(doubled(f, h, s)),
        all_operands(doubled(f, h, s)),
        has_block(doubled(f, h, s).blocks, f.entry),
{
    let g = doubled(f, h, s);
    lemma_doubled_apart(f, layout, h, s);
    lemma_takes(f, layout, h, s, f.entry);
    assert(g.entry == f.entry);
    assert forall|i: int| 0 <= i < g.blocks.len() implies sound_block(g, #[trigger] g.blocks[i])
        && typed_block(g, g.blocks[i]) && full_block(g.blocks[i]) by {
        lemma_doubled_block(f, layout, h, s, i);
    }
    assert forall|i: int| 0 <= i < defs(g).len() implies !#[trigger] defined_before(defs(g), i) by {
        lemma_doubled_def(f, layout, h, s, i);
    }
    assert forall|i: int| 0 <= i < defs(g).len() implies #[trigger] type_agrees(g, i) by {
        lemma_doubled_def(f, layout, h, s, i);
    }
    assert(all_operands(g)) by {
        assert forall|i: int, j: int|
            0 <= i < g.blocks.len() && 0 <= j < g.blocks[i].insts.len() implies has_operands(
            #[trigger] g.blocks[i].insts[j],
        ) by {
            assert(full_block(g.blocks[i]));
        }
    }
    assert(!has_duplicate_blocks(g));
}

/// A block of the loop and behind it once the loop is left to its copy, with
/// nothing handed over.
pub open spec fn left_block(f: FuncView, s: Split, i: int) -> BlockView {
    if i == s.exit_at {
        BlockView { term: rerouted(f.blocks[i].term, exit_of(f, s)), ..f.blocks[i] }
    } else {
        f.blocks[i]
    }
}

/// Is the store that leaves the loop read as a value nowhere, and the one that
/// leaves its copy nowhere in the loop?
pub open spec fn stores_unread(f: FuncView, h: BlockId, s: Split) -> bool {
    let b = the_block(f.blocks, s.block);
    &&& forall|i: int|
        0 <= i < f.blocks.len() ==> !block_reads(
            #[trigger] left_block(f, s, i),
            b.insts[s.second as int].id,
        )
    &&& forall|i: int|
        0 <= i < f.blocks.len() && in_loop(f, h, (#[trigger] f.blocks[i]).id) ==> !block_reads(
            f.blocks[i],
            b.insts[s.first as int].id,
        )
}

/// Keeping all but one is removing one.
proof fn lemma_masked_remove<T>(s: Seq<T>, keep: Seq<bool>, k: int)
    requires
        0 <= k < s.len(),
        forall|i: int| 0 <= i < s.len() ==> #[trigger] keep[i] == (i != k),
    ensures
        masked(s, keep) == s.remove(k),
    decreases s.len(),
{
    let t = s.drop_last();
    assert(keep[s.len() - 1] == (s.len() - 1 != k));
    if k == s.len() - 1 {
        lemma_masked_len(t, keep);
        assert(s.remove(k) =~= t);
    } else {
        lemma_masked_remove(t, keep, k);
        assert(s.remove(k) =~= t.remove(k).push(s.last()));
    }
}

/// Where the stores and their copies stand.
proof fn lemma_stores(f: FuncView, layout: TargetLayout, h: BlockId, s: Split)
    requires
        ready(f, layout, h, s),
    ensures
        looped(f, h, s.block),
        0 <= s.first < s.second < the_block(f.blocks, s.block).insts.len(),
{
    lemma_block_pos(f.blocks, s.block);
    assert(computes(f, h, back_sources(f, f.blocks.len(), h)[0], block_pos(f.blocks, s.block)));
}

/// Splitting a loop is doubling it and dropping a store from each half.
proof fn lemma_split_blocks(f: FuncView, layout: TargetLayout, h: BlockId, s: Split) -> (r: int)
    requires
        ready(f, layout, h, s),
    ensures
        ({
            let g = doubled(f, h, s);
            let k = split_func(f, h, s);
            let a = block_pos(f.blocks, s.block);
            let c = f.blocks.len() + r;
            &&& 0 <= r < body_of(f, loop_body(f, h)).len()
            &&& body_of(f, loop_body(f, h))[r] == a
            &&& 0 <= a < f.blocks.len()
            &&& k == (FuncView { blocks: k.blocks, ..g })
            &&& k.blocks.len() == g.blocks.len()
            &&& forall|i: int|
                0 <= i < g.blocks.len() ==> #[trigger] k.blocks[i] == (BlockView {
                    insts: if i == a {
                        g.blocks[i].insts.remove(s.second as int)
                    } else if i == c {
                        g.blocks[i].insts.remove(s.first as int)
                    } else {
                        g.blocks[i].insts
                    },
                    ..g.blocks[i]
                })
        }),
{
    let body = loop_body(f, h);
    let a = block_pos(f.blocks, s.block);
    let n = f.blocks.len() as int;
    lemma_stores(f, layout, h, s);
    lemma_block_pos(f.blocks, s.block);
    lemma_doubled(f, layout, h, s);
    let r = lemma_has_clone(f, body, s.block);
    lemma_body_upto(f, body, f.blocks.len());
    let c = with_clones(f, body);
    let name = block_names(f, body)[s.block];
    lemma_block_pos(c.blocks, s.block);
    lemma_block_pos(c.blocks, name);
    assert(c.blocks[a] == f.blocks[a]);
    assert(c.blocks[n + r] == clones(f, body)[r]);
    assert(block_pos(c.blocks, s.block) == a) by {
        let p = block_pos(c.blocks, s.block);
        if p < a {
            assert(c.blocks[p] == f.blocks[p]);
        }
    }
    assert(block_pos(c.blocks, name) == n + r) by {
        let p = block_pos(c.blocks, name);
        if p < n {
            assert(c.blocks[p] == f.blocks[p]);
            assert(f.blocks[p].id.0 < f.next_block);
        } else {
            assert(c.blocks[p] == clones(f, body)[p - n]);
        }
    }
    let d = without_inst(c, s.block, s.second as int);
    assert(forall|i: int| 0 <= i < c.blocks.len() ==> (#[trigger] d.blocks[i]).id == c.blocks[i].id);
    assert(d.blocks[n + r] == c.blocks[n + r]);
    lemma_block_pos(d.blocks, name);
    assert(block_pos(d.blocks, name) == n + r) by {
        let p = block_pos(d.blocks, name);
        assert(d.blocks[p].id == c.blocks[p].id);
        if p < n + r {
            assert(c.blocks[p].id == name);
        }
    }
    let e = without_inst(d, name, s.first as int);
    assert(e.blocks.len() == c.blocks.len());
    assert forall|i: int| 0 <= i < c.blocks.len() implies #[trigger] e.blocks[i] == (BlockView {
        insts: if i == a {
            c.blocks[i].insts.remove(s.second as int)
        } else if i == n + r {
            c.blocks[i].insts.remove(s.first as int)
        } else {
            c.blocks[i].insts
        },
        ..c.blocks[i]
    }) by {}
    r
}

/// No value of the function has the new name of a value.
proof fn lemma_new_name(
    f: FuncView,
    layout: TargetLayout,
    h: BlockId,
    s: Split,
    v: ValueId,
    w: ValueId,
)
    requires
        ready(f, layout, h, s),
        is_defined(f, v),
        is_defined(f, w),
    ensures
        ({
            let vm = value_names(f, loop_body(f, h));
            &&& renamed(v, vm) == renamed(w, vm) ==> v == w
            &&& vm.contains_key(v) ==> renamed(v, vm) != w
        }),
{
    lemma_loop_defs(f, layout, h, s);
    lemma_last_def(defs(f), v);
    lemma_last_def(defs(f), w);
    let d = last_def(defs(f), v)->0;
    let e = last_def(defs(f), w)->0;
    assert(defs(f)[defs(f).index_of(d)].id.0 < f.next_value);
    assert(defs(f)[defs(f).index_of(e)].id.0 < f.next_value);
}

/// What a copy reads is the copy of what the block reads.
proof fn lemma_copy_reads(
    b: BlockView,
    to: BlockId,
    bm: Map<BlockId, BlockId>,
    vm: Map<ValueId, ValueId>,
    v: ValueId,
) -> (w: ValueId)
    requires
        block_reads(cloned_block(b, to, bm, vm), v),
    ensures
        block_reads(b, w),
        v == renamed(w, vm),
{
    let c = cloned_block(b, to, bm, vm);
    if exists|k: int| 0 <= k < c.insts.len() && (#[trigger] c.insts[k]).kind.args.contains(v) {
        let k = choose|k: int| 0 <= k < c.insts.len() && (#[trigger] c.insts[k]).kind.args.contains(v);
        let old = b.insts[k].kind.args;
        let m = c.insts[k].kind.args.index_of(v);
        assert(c.insts[k].kind.args == renamed_list(old, vm));
        assert(old.contains(old[m]));
        old[m]
    } else {
        let t = b.term->0;
        lemma_renamed_uses(t, vm);
        assert(term_uses(c.term->0) =~= term_uses(renamed_term(t, vm)));
        let m = term_uses(c.term->0).index_of(v);
        assert(term_uses(t).contains(term_uses(t)[m]));
        term_uses(t)[m]
    }
}

/// A value that a sound function reads is defined.
proof fn lemma_read_defined(f: FuncView, i: int, v: ValueId)
    requires
        sound_function(f),
        0 <= i < f.blocks.len(),
        block_reads(f.blocks[i], v),
    ensures
        is_defined(f, v),
{
    let b = f.blocks[i];
    assert(sound_block(f, f.blocks[i]));
    if exists|k: int| 0 <= k < b.insts.len() && (#[trigger] b.insts[k]).kind.args.contains(v) {
        let k = choose|k: int| 0 <= k < b.insts.len() && (#[trigger] b.insts[k]).kind.args.contains(v);
        let m = b.insts[k].kind.args.index_of(v);
        assert(is_defined(f, b.insts[k].kind.args[m]));
    } else {
        let m = term_uses(b.term->0).index_of(v);
        assert(is_defined(f, term_uses(b.term->0)[m]));
    }
}

/// The copy of a value that the loop does not read is not read.
proof fn lemma_copy_unread(
    f: FuncView,
    layout: TargetLayout,
    h: BlockId,
    s: Split,
    v: ValueId,
    i: int,
)
    requires
        ready(f, layout, h, s),
        is_defined(f, v),
        value_names(f, loop_body(f, h)).contains_key(v),
        forall|j: int|
            0 <= j < f.blocks.len() && in_loop(f, h, (#[trigger] f.blocks[j]).id) ==> !block_reads(
                f.blocks[j],
                v,
            ),
        0 <= i < doubled(f, h, s).blocks.len(),
    ensures
        !block_reads(
            doubled(f, h, s).blocks[i],
            renamed(v, value_names(f, loop_body(f, h))),
        ),
{
    let g = doubled(f, h, s);
    let body = loop_body(f, h);
    let vm = value_names(f, body);
    let bm = block_names(f, body);
    let n = f.blocks.len() as int;
    let ps = body_of(f, body);
    let c = renamed(v, vm);
    lemma_doubled(f, layout, h, s);
    if block_reads(g.blocks[i], c) {
        if i < n {
            lemma_old_reads(f, layout, h, s, i, c);
            lemma_read_defined(f, i, c);
            lemma_new_name(f, layout, h, s, v, c);
        } else if i < n + ps.len() {
            let r = i - n;
            lemma_body_upto(f, body, f.blocks.len());
            assert(in_body(f, body, ps[r]));
            assert(g.blocks[n + r] == clones(f, body)[r]);
            let u = lemma_copy_reads(f.blocks[ps[r]], g.blocks[i].id, bm, vm, c);
            lemma_read_defined(f, ps[r], u);
            lemma_new_name(f, layout, h, s, u, v);
        } else {
            let id = lemma_preheader(f, layout, h, s);
            lemma_new_name(f, layout, h, s, v, s.init);
            assert(term_uses(g.blocks[i].term->0) == seq![s.init]);
        }
    }
}

/// A value of the loop that is read nowhere is not read behind.
proof fn lemma_still_unread(
    f: FuncView,
    layout: TargetLayout,
    h: BlockId,
    s: Split,
    v: ValueId,
    i: int,
)
    requires
        ready(f, layout, h, s),
        is_defined(f, v),
        value_names(f, loop_body(f, h)).contains_key(v),
        forall|j: int|
            0 <= j < f.blocks.len() ==> !block_reads(#[trigger] left_block(f, s, j), v),
        0 <= i < doubled(f, h, s).blocks.len(),
    ensures
        !block_reads(doubled(f, h, s).blocks[i], v),
{
    let g = doubled(f, h, s);
    let body = loop_body(f, h);
    let vm = value_names(f, body);
    let bm = block_names(f, body);
    let n = f.blocks.len() as int;
    let ps = body_of(f, body);
    lemma_doubled(f, layout, h, s);
    lemma_ready(f, layout, h, s);
    if block_reads(g.blocks[i], v) {
        if i < n {
            let b = left_block(f, s, i);
            assert(b.insts == g.blocks[i].insts);
            if i == s.exit_at {
                assert(term_uses(b.term->0) =~= term_uses(g.blocks[i].term->0));
            }
            assert(block_reads(left_block(f, s, i), v));
        } else if i < n + ps.len() {
            let r = i - n;
            lemma_body_upto(f, body, f.blocks.len());
            assert(in_body(f, body, ps[r]));
            assert(g.blocks[n + r] == clones(f, body)[r]);
            let u = lemma_copy_reads(f.blocks[ps[r]], g.blocks[i].id, bm, vm, v);
            lemma_read_defined(f, ps[r], u);
            lemma_new_name(f, layout, h, s, u, v);
        } else {
            let id = lemma_preheader(f, layout, h, s);
            let at = block_pos(f.blocks, id);
            lemma_block_pos(f.blocks, id);
            assert(term_uses(g.blocks[i].term->0) == seq![s.init]);
            assert(v == s.init);
            assert(seq![s.init][0] == s.init);
            assert(seq![s.init].contains(s.init));
            assert(left_block(f, s, at) == f.blocks[at]);
            assert(block_reads(left_block(f, s, at), v));
        }
    }
}

/// A block reads no more than it did.
proof fn lemma_old_reads(
    f: FuncView,
    layout: TargetLayout,
    h: BlockId,
    s: Split,
    i: int,
    v: ValueId,
)
    requires
        ready(f, layout, h, s),
        0 <= i < f.blocks.len(),
        block_reads(doubled(f, h, s).blocks[i], v),
    ensures
        block_reads(f.blocks[i], v),
{
    let b = f.blocks[i];
    let c = doubled(f, h, s).blocks[i];
    lemma_doubled(f, layout, h, s);
    lemma_ready(f, layout, h, s);
    if i == s.exit_at && !(exists|k: int|
        0 <= k < c.insts.len() && (#[trigger] c.insts[k]).kind.args.contains(v)) {
        let now = term_uses(c.term->0);
        let uses = term_uses(b.term->0);
        let m = now.index_of(v);
        assert(now[m] == uses[m]);
        assert(uses.contains(uses[m]));
    }
}

/// Splitting a loop keeps a sound function sound where the dropped stores are not
/// read as values, and where each value of the loop that is read behind it is defined
/// on every way to the block where it is left.
proof fn lemma_split_sound(f: FuncView, layout: TargetLayout, h: BlockId, s: Split)
    requires
        ready(f, layout, h, s),
        outlives(f, h, s),
        stores_unread(f, h, s),
    ensures
        sound_function(split_func(f, h, s)),
{
    let g = doubled(f, h, s);
    let k = split_func(f, h, s);
    let body = loop_body(f, h);
    let vm = value_names(f, body);
    let a = block_pos(f.blocks, s.block);
    let n = f.blocks.len() as int;
    lemma_doubled_sound(f, layout, h, s);
    lemma_stores(f, layout, h, s);
    lemma_block_pos(f.blocks, s.block);
    let r = lemma_split_blocks(f, layout, h, s);
    let c = n + r;
    let keep = |i: int|
        Seq::new(
            g.blocks[i].insts.len(),
            |j: int| !(i == a && j == s.second) && !(i == c && j == s.first),
        );
    lemma_doubled(f, layout, h, s);
    let b = f.blocks[a];
    assert(g.blocks[n + r] == clones(f, body)[r]);
    assert(g.blocks[c].insts.len() == b.insts.len());
    assert(g.blocks[c].insts[s.first as int].id == renamed(b.insts[s.first as int].id, vm));
    assert forall|i: int| 0 <= i < g.blocks.len() implies #[trigger] k.blocks[i] == (BlockView {
        insts: masked(g.blocks[i].insts, keep(i)),
        ..g.blocks[i]
    }) by {
        if i == a {
            lemma_masked_remove(g.blocks[i].insts, keep(i), s.second as int);
        } else if i == c {
            lemma_masked_remove(g.blocks[i].insts, keep(i), s.first as int);
        } else {
            lemma_masked_len(g.blocks[i].insts, keep(i));
        }
    }
    assert forall|i: int, j: int|
        0 <= i < g.blocks.len() && 0 <= j < g.blocks[i].insts.len() && !keep(i)[j] implies !reads(
        g,
        (#[trigger] g.blocks[i].insts[j]).id,
    ) by {
        let old = b.insts[if i == a { s.second as int } else { s.first as int }];
        lemma_looped_inst(f, layout, h, s, a, if i == a { s.second as int } else { s.first as int });
        assert forall|m: int| 0 <= m < g.blocks.len() implies !block_reads(
            #[trigger] g.blocks[m],
            g.blocks[i].insts[j].id,
        ) by {
            if i == a {
                lemma_still_unread(f, layout, h, s, old.id, m);
            } else {
                lemma_copy_unread(f, layout, h, s, old.id, m);
            }
        }
    }
    lemma_unread_dropped(g, k, keep);
}

/// An instruction of the loop defines a value that has a new name.
proof fn lemma_looped_inst(f: FuncView, layout: TargetLayout, h: BlockId, s: Split, i: int, k: int)
    requires
        ready(f, layout, h, s),
        0 <= i < f.blocks.len(),
        0 <= k < f.blocks[i].insts.len(),
        in_loop(f, h, f.blocks[i].id),
    ensures
        is_defined(f, f.blocks[i].insts[k].id),
        value_names(f, loop_body(f, h)).contains_key(f.blocks[i].insts[k].id),
{
    let y = f.blocks[i];
    let e = Def { id: y.insts[k].id, ty: y.insts[k].ty, block: y.id };
    lemma_inst_def(f, i, k);
    lemma_loop_defs(f, layout, h, s);
    let list = loop_defs(f, h);
    assert(list.contains(e));
    assert(list[list.index_of(e)] == e);
}

/// Is the loop that is split left at a block that can be reached, are the stores
/// that are dropped not read as values, and are the values of it that are read behind it defined
/// on every way to where it is left?
pub open spec fn splits_cleanly(f: FuncView, layout: TargetLayout) -> bool {
    forall|h: BlockId, s: Split| #[trigger]
        is_split(f, layout, h, s) && (forall|k: BlockId, t: Split| #[trigger]
            is_split(f, layout, k, t) ==> h.0 <= k.0) ==> reachable(f, exit_of(f, s)) && outlives(
            f,
            h,
            s,
        ) && stores_unread(f, h, s)
}

/// Splitting loops keeps a sound module sound where the loops that are split can
/// be split cleanly, and where the functions handed out the names that they use.
pub proof fn splitting_keeps_soundness(
    pass: LoopFission,
    before: ModuleView,
    after: ModuleView,
    changed: bool,
)
    requires
        pass.accepts(before),
        pass.outcome(before, after, changed),
        sound_module(before),
        forall|i: int|
            0 <= i < before.functions.len() ==> has_block(
                (#[trigger] before.functions[i]).blocks,
                before.functions[i].entry,
            ) && all_operands(before.functions[i]) && block_names_used(before.functions[i])
                && value_names_used(before.functions[i]) && splits_cleanly(
                before.functions[i],
                before.layout,
            ),
    ensures
        sound_module(after),
{
    assert forall|i: int| 0 <= i < after.functions.len() implies sound_function(
        #[trigger] after.functions[i],
    ) by {
        let f = before.functions[i];
        let layout = before.layout;
        assert(sound_function(before.functions[i]));
        assert(has_room(before.functions[i]));
        assert(fissioned(f, layout, after.functions[i]));
        if splittable(f, layout) {
            let (h, s) = choose|h: BlockId, s: Split| #[trigger]
                is_split(f, layout, h, s) && after.functions[i] == split_func(f, h, s) && forall|
                    k: BlockId,
                    t: Split,
                | #[trigger]
                    is_split(f, layout, k, t) ==> h.0 <= k.0;
            lemma_split_sound(f, layout, h, s);
        }
    }
}

} // verus!
