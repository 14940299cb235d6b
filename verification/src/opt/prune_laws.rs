//! Sound functions stay sound where branches are decided and blocks are dropped.

use crate::ir::cfg::{
    block_reachable, edge, is_path, lemma_entry_reachable, lemma_first_in_filter,
    lemma_reachable_step, pruned, pruning_keeps_reachability, reachable, succs, targets_of,
};
use crate::ir::dom::{dominates, is_walk, lemma_dominator_reachable};
use crate::ir::inst::{
    block_param_defs, block_pos, defs, defs_upto, first_def, has_block, inst_defs, is_first_block, last_def,
    lemma_block_pos, lemma_first_def_some, lemma_last_def, param_defs, the_block, type_of,
    BlockId, BlockView, Def, FuncView, TermView, ValueId,
};
use crate::ir::keep::{
    all_operands, has_operands, lemma_gather_same, lemma_same_consistency, lemma_same_place,
};
use crate::ir::sound::{
    all_defined, all_on_the_way, defined_on_the_way, sound_block, sound_function, type_agrees,
    typed_block,
};
use crate::ir::verify::{
    branch_arg_msgs, branch_msgs, case_msgs, consistency_msgs, defined_before, edge_msgs,
    has_duplicate_blocks, is_defined, lemma_gather_empty, return_msgs,
};
use crate::ir::walk::{term_targets, term_uses};
use crate::opt::const_prop::{
    block_decided, chosen_case, decided, decided_block, decided_func, decided_target_was_possible,
    decides, known_in, lemma_chosen_case, propagated, Const,
};
use vstd::prelude::*;

verus! {

/// Does every definition name another value?
pub open spec fn unique(s: Seq<Def>) -> bool {
    forall|i: int, j: int| 0 <= i < j < s.len() ==> (#[trigger] s[i]).id != (#[trigger] s[j]).id
}

/// The definition of a value is found where no other names it.
pub proof fn lemma_unique_def(s: Seq<Def>, d: Def)
    requires
        unique(s),
        s.contains(d),
    ensures
        first_def(s, d.id) == Some(d),
        last_def(s, d.id) == Some(d),
{
    lemma_first_def_some(s, d.id);
    lemma_last_def(s, d.id);
    let i = s.index_of(d);
    assert(s[i].id == d.id);
    let a = first_def(s, d.id)->0;
    let b = last_def(s, d.id)->0;
    let j = s.index_of(a);
    let k = s.index_of(b);
    assert(s[j] == a && s[k] == b);
    assert(i == j && i == k);
}

/// All definitions of these blocks.
spec fn all_defs(s: Seq<BlockView>) -> Seq<Def> {
    defs_upto(s, s.len())
}

/// The definitions of one block.
pub open spec fn own_defs(b: BlockView) -> Seq<Def> {
    block_param_defs(b) + inst_defs(b)
}

proof fn lemma_same_prefix(s: Seq<BlockView>, t: Seq<BlockView>, n: nat)
    requires
        n <= s.len(),
        n <= t.len(),
        forall|i: int| 0 <= i < n ==> s[i] == t[i],
    ensures
        defs_upto(s, n) == defs_upto(t, n),
    decreases n,
{
    if n > 0 {
        lemma_same_prefix(s, t, (n - 1) as nat);
    }
}

proof fn lemma_defs_push(s: Seq<BlockView>, b: BlockView)
    ensures
        all_defs(s.push(b)) == all_defs(s) + own_defs(b),
{
    lemma_same_prefix(s.push(b), s, s.len());
    assert(all_defs(s.push(b)) =~= all_defs(s) + own_defs(b));
}

/// Parts of a list in which nothing is named twice have that too.
proof fn lemma_unique_parts(pre: Seq<Def>, a: Seq<Def>, b: Seq<Def>)
    requires
        unique(pre + (a + b)),
    ensures
        unique(pre + a),
        forall|i: int, j: int|
            0 <= i < (pre + a).len() && 0 <= j < b.len() ==> (#[trigger] (pre + a)[i]).id
                != (#[trigger] b[j]).id,
        unique(b),
{
    let all = pre + (a + b);
    assert forall|i: int, j: int| 0 <= i < j < (pre + a).len() implies (#[trigger] (pre + a)[i]).id
        != (#[trigger] (pre + a)[j]).id by {
        assert(all[i] == (pre + a)[i] && all[j] == (pre + a)[j]);
    }
    assert forall|i: int, j: int| 0 <= i < (pre + a).len() && 0 <= j < b.len() implies (
    #[trigger] (pre + a)[i]).id != (#[trigger] b[j]).id by {
        assert(all[i] == (pre + a)[i] && all[pre.len() + a.len() + j] == b[j]);
    }
    assert forall|i: int, j: int| 0 <= i < j < b.len() implies (#[trigger] b[i]).id != (
    #[trigger] b[j]).id by {
        let n = pre.len() + a.len();
        assert(all[n + i] == b[i] && all[n + j] == b[j]);
    }
}

/// What the blocks define that can be reached.
proof fn lemma_kept_defs(pre: Seq<Def>, s: Seq<BlockView>, h: FuncView)
    ensures
        forall|d: Def|
            #![trigger all_defs(s.filter(block_reachable(h))).contains(d)]
            all_defs(s.filter(block_reachable(h))).contains(d) == (all_defs(s).contains(d)
                && reachable(h, d.block)),
        unique(pre + all_defs(s)) ==> unique(pre + all_defs(s.filter(block_reachable(h)))),
    decreases s.len(),
{
    reveal(Seq::filter);
    let cond = block_reachable(h);
    if s.len() == 0 {
        assert(s.filter(cond) =~= s);
    } else {
        let t = s.drop_last();
        let b = s.last();
        let kept = t.filter(cond);
        lemma_kept_defs(pre, t, h);
        assert(t.push(b) =~= s);
        lemma_defs_push(t, b);
        lemma_defs_push(kept, b);
        let now = s.filter(cond);
        assert(now == if cond(b) {
            kept.push(b)
        } else {
            kept
        });
        assert forall|d: Def| #[trigger] own_defs(b).contains(d) implies d.block == b.id by {}
        assert forall|d: Def| #[trigger]
            all_defs(now).contains(d) == (all_defs(s).contains(d) && reachable(
                h,
                d.block,
            )) by {
            lemma_in_concat(all_defs(t), own_defs(b), d);
            lemma_in_concat(all_defs(kept), own_defs(b), d);
            assert(own_defs(b).contains(d) ==> d.block == b.id);
            assert(all_defs(kept).contains(d) == (all_defs(t).contains(d)
                && reachable(h, d.block)));
        }
        if unique(pre + all_defs(s)) {
            lemma_unique_parts(pre, all_defs(t), own_defs(b));
            if cond(b) {
                let all = pre + all_defs(now);
                let n = (pre + all_defs(kept)).len();
                assert forall|i: int, j: int| 0 <= i < j < all.len() implies (#[trigger] all[i]).id
                    != (#[trigger] all[j]).id by {
                    if j < n {
                        assert(all[i] == (pre + all_defs(kept))[i]);
                        assert(all[j] == (pre + all_defs(kept))[j]);
                    } else {
                        assert(all[j] == own_defs(b)[j - n]);
                        if i >= n {
                            assert(all[i] == own_defs(b)[i - n]);
                        } else if i < pre.len() {
                            assert(all[i] == (pre + all_defs(t))[i]);
                        } else {
                            let d = all_defs(kept)[i - pre.len()];
                            assert(all[i] == d);
                            assert(all_defs(kept).contains(d));
                            let k = all_defs(t).index_of(d);
                            assert((pre + all_defs(t))[pre.len() + k] == d);
                        }
                    }
                }
            }
        }
    }
}

/// What a concatenation holds, one of its parts holds.
pub proof fn lemma_in_concat(a: Seq<Def>, b: Seq<Def>, d: Def)
    ensures
        (a + b).contains(d) == (a.contains(d) || b.contains(d)),
{
    if a.contains(d) {
        assert((a + b)[a.index_of(d)] == d);
    }
    if b.contains(d) {
        assert((a + b)[a.len() + b.index_of(d)] == d);
    }
    if (a + b).contains(d) {
        let i = (a + b).index_of(d);
        if i < a.len() {
            assert(a[i] == d);
        } else {
            assert(b[i - a.len()] == d);
        }
    }
}

/// A function whose terminators are branches where the known values decide.
pub open spec fn narrowed(f: FuncView, known: Map<ValueId, Const>) -> FuncView {
    FuncView { blocks: Seq::new(f.blocks.len(), |i: int| decided_block(f.blocks[i], known)), ..f }
}

proof fn lemma_narrowed_targets(f: FuncView, known: Map<ValueId, Const>, i: int, b: BlockId)
    requires
        0 <= i < f.blocks.len(),
        targets_of(narrowed(f, known).blocks[i]).contains(b),
    ensures
        targets_of(f.blocks[i]).contains(b),
{
    if block_decided(f.blocks[i], known) {
        decided_target_was_possible(f.blocks[i].term->0, known, b);
    }
}

proof fn lemma_narrowed_defs(f: FuncView, known: Map<ValueId, Const>, n: nat)
    requires
        n <= f.blocks.len(),
    ensures
        defs_upto(narrowed(f, known).blocks, n) == defs_upto(f.blocks, n),
    decreases n,
{
    if n > 0 {
        lemma_narrowed_defs(f, known, (n - 1) as nat);
        let a = f.blocks[n - 1];
        let b = narrowed(f, known).blocks[n - 1];
        assert(block_param_defs(b) =~= block_param_defs(a));
        assert(inst_defs(b) =~= inst_defs(a));
    }
}

/// Deciding branches opens no new path.
proof fn lemma_narrowed_reachable(f: FuncView, known: Map<ValueId, Const>, b: BlockId)
    requires
        reachable(narrowed(f, known), b),
    ensures
        reachable(f, b),
{
    let h = narrowed(f, known);
    let p = choose|p: Seq<BlockId>| #[trigger]
        is_path(h.blocks, p) && p[0] == h.entry && p.last() == b;
    assert forall|i: int| 0 <= i < p.len() - 1 implies succs(f.blocks, #[trigger] p[i]).contains(
        p[i + 1],
    ) by {
        assert(succs(h.blocks, p[i]).contains(p[i + 1]));
        lemma_same_place(f.blocks, h.blocks, p[i]);
        lemma_block_pos(f.blocks, p[i]);
        lemma_narrowed_targets(f, known, block_pos(f.blocks, p[i]), p[i + 1]);
    }
    assert(is_path(f.blocks, p));
}

/// A walk of what is left is a walk of the function.
proof fn lemma_kept_walk(f: FuncView, known: Map<ValueId, Const>, p: Seq<BlockId>)
    requires
        is_walk(pruned(narrowed(f, known)), p),
    ensures
        is_walk(f, p),
{
    let h = narrowed(f, known);
    let g = pruned(h);
    assert forall|i: int| 0 <= i < p.len() implies reachable(f, #[trigger] p[i]) by {
        assert(reachable(g, p[i]));
        pruning_keeps_reachability(h, p[i]);
        lemma_narrowed_reachable(f, known, p[i]);
    }
    assert forall|i: int| 0 <= i < p.len() - 1 implies edge(f.blocks, #[trigger] p[i], p[i + 1]) by {
        assert(edge(g.blocks, p[i], p[i + 1]));
        let k = choose|k: int|
            0 <= k < g.blocks.len() && (#[trigger] g.blocks[k]).id == p[i] && targets_of(
                g.blocks[k],
            ).contains(p[i + 1]);
        h.blocks.lemma_filter_contains_rev(block_reachable(h), g.blocks[k]);
        let j = h.blocks.index_of(g.blocks[k]);
        assert(h.blocks[j] == g.blocks[k]);
        lemma_narrowed_targets(f, known, j, p[i + 1]);
        assert(f.blocks[j].id == p[i]);
    }
}

/// What dominates a block still does where the block is left.
proof fn lemma_kept_dominance(f: FuncView, known: Map<ValueId, Const>, a: BlockId, b: BlockId)
    requires
        dominates(f, a, b),
        reachable(narrowed(f, known), b),
    ensures
        dominates(pruned(narrowed(f, known)), a, b),
        reachable(narrowed(f, known), a),
{
    let h = narrowed(f, known);
    let g = pruned(h);
    pruning_keeps_reachability(h, b);
    assert forall|p: Seq<BlockId>| #[trigger] is_walk(g, p) && p.last() == b implies p.contains(
        a,
    ) by {
        lemma_kept_walk(f, known, p);
    }
    lemma_dominator_reachable(g, a, b);
    pruning_keeps_reachability(h, a);
}

/// No value of a sound function is defined twice.
pub proof fn lemma_sound_unique(f: FuncView)
    requires
        sound_function(f),
    ensures
        unique(defs(f)),
{
    let s = defs(f);
    assert forall|i: int, j: int| 0 <= i < j < s.len() implies (#[trigger] s[i]).id != (
    #[trigger] s[j]).id by {
        assert(!defined_before(s, j));
    }
}

/// A definition in a block that is left is left, and nothing else is.
proof fn lemma_left_defs(f: FuncView, known: Map<ValueId, Const>)
    requires
        sound_function(f),
    ensures
        unique(defs(pruned(narrowed(f, known)))),
        forall|d: Def| #[trigger]
            defs(pruned(narrowed(f, known))).contains(d) == (defs(f).contains(d) && reachable(
                narrowed(f, known),
                d.block,
            )),
{
    let h = narrowed(f, known);
    let g = pruned(h);
    let pre = param_defs(f.params, f.entry);
    lemma_sound_unique(f);
    lemma_narrowed_defs(f, known, f.blocks.len());
    lemma_kept_defs(pre, h.blocks, h);
    assert(defs(f) == pre + all_defs(h.blocks));
    assert(defs(g) == pre + all_defs(g.blocks));
    lemma_entry_reachable(h);
    assert forall|d: Def| #[trigger] defs(g).contains(d) == (defs(f).contains(d) && reachable(
        h,
        d.block,
    )) by {
        lemma_in_concat(pre, all_defs(h.blocks), d);
        lemma_in_concat(pre, all_defs(g.blocks), d);
        assert(pre.contains(d) ==> d.block == f.entry);
    }
}

/// A value that is read in a block that is left is defined on every way there,
/// with the same type.
proof fn lemma_left_use(
    f: FuncView,
    known: Map<ValueId, Const>,
    a: BlockView,
    b: BlockView,
    v: ValueId,
    at: int,
)
    requires
        sound_function(f),
        b.id == a.id,
        b.insts == a.insts,
        reachable(narrowed(f, known), a.id),
        is_defined(f, v),
        defined_on_the_way(f, a, v, at),
    ensures
        is_defined(pruned(narrowed(f, known)), v),
        defined_on_the_way(pruned(narrowed(f, known)), b, v, at),
        type_of(pruned(narrowed(f, known)), v) == type_of(f, v),
{
    let g = pruned(narrowed(f, known));
    lemma_last_def(defs(f), v);
    let d = last_def(defs(f), v)->0;
    if d.block != a.id {
        lemma_kept_dominance(f, known, d.block, a.id);
    }
    lemma_left_defs(f, known);
    lemma_sound_unique(f);
    assert(defs(g).contains(d));
    lemma_unique_def(defs(f), d);
    lemma_unique_def(defs(g), d);
    assert(defs(g)[defs(g).index_of(d)].id == v);
}

/// Where a block that is left branches to is left, as it was.
proof fn lemma_left_target(f: FuncView, known: Map<ValueId, Const>, i: int, t: BlockId)
    requires
        sound_function(f),
        0 <= i < f.blocks.len(),
        reachable(narrowed(f, known), f.blocks[i].id),
        targets_of(narrowed(f, known).blocks[i]).contains(t),
    ensures
        has_block(pruned(narrowed(f, known)).blocks, t),
        has_block(f.blocks, t),
        t != f.entry,
        the_block(pruned(narrowed(f, known)).blocks, t).params == the_block(f.blocks, t).params,
        the_block(pruned(narrowed(f, known)).blocks, t).name == the_block(f.blocks, t).name,
{
    let h = narrowed(f, known);
    let a = f.blocks[i];
    lemma_narrowed_targets(f, known, i, t);
    assert(sound_block(f, a));
    let k = targets_of(a).index_of(t);
    assert(has_block(f.blocks, targets_of(a)[k]));
    assert(has_block(h.blocks, a.id)) by {
        assert(h.blocks[i].id == a.id);
    }
    lemma_block_pos(h.blocks, a.id);
    assert(is_first_block(f.blocks, a.id, i));
    assert(is_first_block(h.blocks, a.id, i));
    assert(the_block(h.blocks, a.id) == h.blocks[i]);
    lemma_reachable_step(h, a.id, t);
    lemma_same_place(f.blocks, h.blocks, t);
    lemma_block_pos(f.blocks, t);
    lemma_first_in_filter(h.blocks, block_reachable(h), t);
    assert(the_block(h.blocks, t).id == t);
}

/// Does `g` look at these values as `f` does?
pub open spec fn agree_on(f: FuncView, g: FuncView, vs: Seq<ValueId>) -> bool {
    forall|k: int| 0 <= k < vs.len() ==> type_of(g, #[trigger] vs[k]) == type_of(f, vs[k])
}

/// Is the block named `t` in both functions, with the same parameters?
pub open spec fn same_target(f: FuncView, g: FuncView, t: BlockId) -> bool {
    &&& has_block(f.blocks, t)
    &&& has_block(g.blocks, t)
    &&& the_block(g.blocks, t).params == the_block(f.blocks, t).params
    &&& the_block(g.blocks, t).name == the_block(f.blocks, t).name
}

proof fn lemma_left_edge(
    f: FuncView,
    g: FuncView,
    name: Seq<char>,
    dest: BlockId,
    args: Seq<ValueId>,
)
    requires
        same_target(f, g, dest),
        agree_on(f, g, args),
    ensures
        edge_msgs(g, name, dest, args) == edge_msgs(f, name, dest, args),
{
    let a = the_block(f.blocks, dest);
    let b = the_block(g.blocks, dest);
    lemma_gather_same(
        args.len(),
        branch_arg_msgs(g, name, b, args),
        branch_arg_msgs(f, name, a, args),
    );
}

/// A terminator that stays finds its types and targets as before.
pub proof fn lemma_left_term(f: FuncView, g: FuncView, t: TermView, name: Seq<char>)
    requires
        g.return_type == f.return_type,
        agree_on(f, g, term_uses(t)),
        forall|x: BlockId| #[trigger] term_targets(t).contains(x) ==> same_target(f, g, x),
    ensures
        branch_msgs(g, t, name) == branch_msgs(f, t, name),
        return_msgs(g, t, name) == return_msgs(f, t, name),
{
    let to = term_targets(t);
    let uses = term_uses(t);
    match t {
        TermView::Branch(dest, args) => {
            assert(to[0] == dest);
            assert(to.contains(dest));
            lemma_left_edge(f, g, name, dest, args);
        },
        TermView::CondBranch { cond, true_dest, true_args, false_dest, false_args } => {
            assert(to[0] == true_dest);
            assert(to.contains(true_dest));
            assert(to[1] == false_dest);
            assert(to.contains(false_dest));
            assert(uses[0] == cond);
            assert forall|k: int| 0 <= k < true_args.len() implies type_of(
                g,
                #[trigger] true_args[k],
            ) == type_of(f, true_args[k]) by {
                assert(uses[1 + k] == true_args[k]);
            }
            assert forall|k: int| 0 <= k < false_args.len() implies type_of(
                g,
                #[trigger] false_args[k],
            ) == type_of(f, false_args[k]) by {
                assert(uses[1 + true_args.len() + k] == false_args[k]);
            }
            lemma_left_edge(f, g, name, true_dest, true_args);
            lemma_left_edge(f, g, name, false_dest, false_args);
        },
        TermView::Switch { selector, cases, default } => {
            assert(to[cases.len() as int] == default);
            assert(to.contains(default));
            assert forall|i: int| 0 <= i < cases.len() implies #[trigger] case_msgs(g, cases)(i)
                == case_msgs(f, cases)(i) by {
                assert(to[i] == cases[i].1);
                assert(to.contains(cases[i].1));
            }
            lemma_gather_same(cases.len(), case_msgs(g, cases), case_msgs(f, cases));
        },
        TermView::Return(Some(v)) => {
            assert(uses[0] == v);
        },
        _ => {},
    }
}

/// A branch that is decided was right as one side of what it was.
proof fn lemma_left_branch(
    f: FuncView,
    g: FuncView,
    t: TermView,
    known: Map<ValueId, Const>,
    name: Seq<char>,
)
    requires
        decided(t, known) is Some,
        branch_msgs(f, t, name).len() == 0,
        agree_on(f, g, term_uses(decided(t, known)->0)),
        forall|x: BlockId| #[trigger]
            term_targets(decided(t, known)->0).contains(x) ==> same_target(f, g, x),
    ensures
        branch_msgs(g, decided(t, known)->0, name).len() == 0,
        return_msgs(g, decided(t, known)->0, name).len() == 0,
{
    let d = decided(t, known)->0;
    match d {
        TermView::Branch(dest, args) => {
            assert(term_targets(d)[0] == dest);
            assert(term_targets(d).contains(dest));
            lemma_left_edge(f, g, name, dest, args);
            match t {
                TermView::Switch { selector, cases, default } => {
                    lemma_gather_empty(cases.len(), case_msgs(f, cases));
                    assert(args.len() == 0);
                    match known[selector] {
                        Const::Int(v, w) => {
                            lemma_chosen_case(cases, cases.len(), v, w);
                            if chosen_case(cases, cases.len(), v, w) is Some {
                                let k = choose|k: int|
                                    0 <= k < cases.len() && (#[trigger] cases[k]).1 == dest;
                                assert(case_msgs(f, cases)(k).len() == 0);
                            }
                        },
                        _ => {},
                    }
                    assert(the_block(f.blocks, dest).params.len() == 0);
                    lemma_gather_empty(
                        0,
                        branch_arg_msgs(g, name, the_block(g.blocks, dest), args),
                    );
                },
                _ => {},
            }
        },
        _ => {},
    }
}

/// What the decided terminator reads, the terminator read before.
proof fn lemma_decided_uses(t: TermView, known: Map<ValueId, Const>, k: int) -> (j: int)
    requires
        decided(t, known) is Some,
        0 <= k < term_uses(decided(t, known)->0).len(),
    ensures
        0 <= j < term_uses(t).len(),
        term_uses(t)[j] == term_uses(decided(t, known)->0)[k],
{
    match t {
        TermView::CondBranch { cond, true_dest, true_args, false_dest, false_args } => {
            let uses = term_uses(t);
            if known[cond] == Const::Bool(true) {
                assert(uses[1 + k] == true_args[k]);
                1 + k
            } else {
                assert(uses[1 + true_args.len() + k] == false_args[k]);
                1 + true_args.len() + k
            }
        },
        _ => 0,
    }
}

/// A block that is left is sound.
#[verifier::rlimit(40)]
proof fn lemma_left_block(f: FuncView, known: Map<ValueId, Const>, i: int)
    requires
        sound_function(f),
        all_operands(f),
        0 <= i < f.blocks.len(),
        reachable(narrowed(f, known), f.blocks[i].id),
    ensures
        sound_block(pruned(narrowed(f, known)), narrowed(f, known).blocks[i]),
        typed_block(pruned(narrowed(f, known)), narrowed(f, known).blocks[i]),
{
    let h = narrowed(f, known);
    let g = pruned(h);
    let a = f.blocks[i];
    let b = h.blocks[i];
    assert(sound_block(f, a) && typed_block(f, a));
    let old = a.term->0;
    let t = b.term->0;
    let n = a.insts.len() as int;
    assert forall|x: BlockId| #[trigger] term_targets(t).contains(x) implies same_target(f, g, x)
        && x != g.entry by {
        lemma_left_target(f, known, i, x);
    }
    assert forall|k: int| 0 <= k < targets_of(b).len() implies has_block(
        g.blocks,
        #[trigger] targets_of(b)[k],
    ) by {
        assert(term_targets(t).contains(targets_of(b)[k]));
    }
    assert forall|k: int| 0 <= k < term_uses(t).len() implies is_defined(g, #[trigger] term_uses(t)[k])
        && defined_on_the_way(g, b, term_uses(t)[k], n) && type_of(g, term_uses(t)[k]) == type_of(
        f,
        term_uses(t)[k],
    ) by {
        let j = if block_decided(a, known) {
            lemma_decided_uses(old, known, k)
        } else {
            k
        };
        assert(is_defined(f, term_uses(old)[j]) && defined_on_the_way(f, a, term_uses(old)[j], n));
        lemma_left_use(f, known, a, b, term_uses(t)[k], n);
    }
    if block_decided(a, known) {
        lemma_left_branch(f, g, old, known, b.name);
    } else {
        lemma_left_term(f, g, t, b.name);
    }
    assert forall|j: int| 0 <= j < b.insts.len() implies all_defined(
        g,
        (#[trigger] b.insts[j]).kind.args,
    ) && all_on_the_way(g, b, b.insts[j].kind.args, j) && consistency_msgs(g, b.insts[j]).len()
        == 0 by {
        let args = b.insts[j].kind.args;
        assert(has_operands(f.blocks[i].insts[j]));
        assert(consistency_msgs(f, a.insts[j]).len() == 0);
        assert(all_defined(f, a.insts[j].kind.args) && all_on_the_way(f, a, a.insts[j].kind.args, j));
        assert forall|k: int| 0 <= k < args.len() implies is_defined(g, #[trigger] args[k])
            && defined_on_the_way(g, b, args[k], j) && type_of(g, args[k]) == type_of(f, args[k]) by {
            assert(is_defined(f, args[k]) && defined_on_the_way(f, a, args[k], j));
            lemma_left_use(f, known, a, b, args[k], j);
        }
        lemma_same_consistency(f, g, b.insts[j]);
    }
}

proof fn lemma_filter_first(s: Seq<BlockView>, cond: spec_fn(BlockView) -> bool)
    requires
        forall|i: int, j: int| 0 <= i < j < s.len() ==> (#[trigger] s[i]).id != (#[trigger] s[j]).id,
    ensures
        forall|i: int, j: int|
            0 <= i < j < s.filter(cond).len() ==> (#[trigger] s.filter(cond)[i]).id != (
            #[trigger] s.filter(cond)[j]).id,
    decreases s.len(),
{
    reveal(Seq::filter);
    if s.len() > 0 {
        let t = s.drop_last();
        let kept = t.filter(cond);
        lemma_filter_first(t, cond);
        let now = s.filter(cond);
        assert forall|i: int, j: int| 0 <= i < j < now.len() implies (#[trigger] now[i]).id != (
        #[trigger] now[j]).id by {
            assert(now[i] == kept[i]);
            if j < kept.len() {
                assert(now[j] == kept[j]);
            } else {
                t.lemma_filter_contains_rev(cond, kept[i]);
                let k = t.index_of(kept[i]);
                assert(s[k] == now[i] && s[s.len() - 1] == now[j]);
            }
        }
    }
}

/// Deciding branches by any values and dropping what can no longer be reached
/// keeps a sound function sound.
proof fn lemma_narrowing(f: FuncView, known: Map<ValueId, Const>)
    requires
        has_block(f.blocks, f.entry),
        all_operands(f),
        sound_function(f),
    ensures
        sound_function(pruned(narrowed(f, known))),
{
    let h = narrowed(f, known);
    let g = pruned(h);
    let cond = block_reachable(h);
    assert forall|i: int, j: int| 0 <= i < j < h.blocks.len() implies (#[trigger] h.blocks[i]).id
        != (#[trigger] h.blocks[j]).id by {
        assert(is_first_block(f.blocks, f.blocks[j].id, j));
        assert(f.blocks[i].id != f.blocks[j].id);
    }
    lemma_filter_first(h.blocks, cond);
    assert(!has_duplicate_blocks(g));
    assert forall|i: int| 0 <= i < g.blocks.len() implies sound_block(g, #[trigger] g.blocks[i])
        && typed_block(g, g.blocks[i]) by {
        h.blocks.lemma_filter_contains_rev(cond, g.blocks[i]);
        h.blocks.lemma_filter_pred(cond, i);
        let k = h.blocks.index_of(g.blocks[i]);
        assert(h.blocks[k] == g.blocks[i]);
        assert(f.blocks[k].id == h.blocks[k].id);
        lemma_left_block(f, known, k);
    }
    lemma_left_defs(f, known);
    assert forall|i: int| 0 <= i < defs(g).len() implies #[trigger] type_agrees(g, i) by {
        assert(defs(g).contains(defs(g)[i]));
        let k = defs(f).index_of(defs(g)[i]);
        assert(defs(f)[k] == defs(g)[i]);
        assert(type_agrees(f, k));
    }
    assert forall|i: int| 0 <= i < defs(g).len() implies !#[trigger] defined_before(defs(g), i) by {}
    lemma_entry_reachable(h);
    lemma_same_place(f.blocks, h.blocks, f.entry);
    lemma_block_pos(f.blocks, f.entry);
    lemma_first_in_filter(h.blocks, cond, f.entry);
    assert(the_block(h.blocks, f.entry).id == f.entry);
    assert(the_block(g.blocks, g.entry).params == the_block(f.blocks, f.entry).params);
}

/// Dropping the blocks that cannot be reached keeps a sound function sound.
pub proof fn pruning_keeps_soundness(f: FuncView)
    requires
        has_block(f.blocks, f.entry),
        all_operands(f),
        sound_function(f),
    ensures
        sound_function(pruned(f)),
{
    let known = Map::<ValueId, Const>::empty();
    assert(narrowed(f, known).blocks =~= f.blocks) by {
        assert forall|i: int| 0 <= i < f.blocks.len() implies #[trigger] narrowed(f, known).blocks[i]
            == f.blocks[i] by {
            assert(!block_decided(f.blocks[i], known));
        }
    }
    lemma_narrowing(f, known);
}

/// Propagating constants keeps a sound function sound.
pub proof fn propagation_keeps_soundness(f: FuncView)
    requires
        has_block(f.blocks, f.entry),
        all_operands(f),
        sound_function(f),
    ensures
        sound_function(propagated(f)),
{
    if decides(f) {
        assert(narrowed(f, known_in(f)).blocks =~= decided_func(f).blocks);
        lemma_narrowing(f, known_in(f));
    }
}

} // verus!
