//! Sound functions stay sound where repeated computations are shared.

use crate::ir::cfg::targets_of;
use crate::ir::inst::{
    block_param_defs, defs, defs_upto, has_block, inst_defs, is_first_block, last_def,
    lemma_block_pos, lemma_last_def, param_defs, the_block, type_of, types_of_defs, BlockId,
    BlockView, Def, FuncView, InstView, Op, TermView, ValueId,
};
use crate::ir::keep::{
    all_operands, has_operands, lemma_same_dominance, lemma_same_place, operand_count, same_graph,
};
use crate::ir::sound::{
    all_defined, all_on_the_way, defined_on_the_way, sound_block, sound_function, type_agrees,
    typed_block,
};
use crate::ir::verify::{
    bitwise_msgs, branch_arg_msgs, branch_msgs, case_msgs, compare_msgs, consistency_msgs,
    defined_before, edge_msgs, float_op_msgs, gather, has_duplicate_blocks, int_op_msgs,
    is_defined, lane_msgs, last_inst_pos, lemma_gather_empty, lesser, load_msgs, logical_msgs,
    operand_msgs, return_msgs, runtime_arg_msgs, runtime_msgs, runtime_params, select_msgs,
    store_msgs, vector_fma_msgs, vector_pair_msgs, vector_select_msgs, vector_unary_msgs,
};
use crate::ir::walk::{
    lemma_renamed_uses, renamed, renamed_func, renamed_inst, renamed_list, renamed_term,
    term_targets, term_uses,
};
use crate::lists::lemma_masked_filter;
use crate::opt::clean_laws::{
    ascend, lemma_def_place, lemma_last_pos, lemma_masked_part, lemma_part_concat,
    lemma_part_defs, lemma_part_own, lemma_part_unique, lemma_places, lemma_whole_part, part_of,
    picked, places,
};
use crate::opt::cse::{
    block_rewrites, earlier, key_of, repeats, rewrites_do_not_chain, rewrites_of, rewrites_upto,
    shared_func,
};
use crate::opt::edit::func_without;
use crate::opt::prune_laws::{
    lemma_in_concat, lemma_sound_unique, lemma_unique_def, own_defs, same_target, unique,
};
use vstd::prelude::*;

verus! {

/// Do the operands of `j` have in `g` the types of those of `i` in `f`?
pub open spec fn like_operands(f: FuncView, g: FuncView, i: InstView, j: InstView) -> bool {
    &&& j.ty == i.ty && j.kind.op == i.kind.op
    &&& j.kind.args.len() == i.kind.args.len()
    &&& operand_count(i.kind.op) <= i.kind.args.len()
    &&& forall|k: int|
        0 <= k < i.kind.args.len() ==> type_of(g, #[trigger] j.kind.args[k]) == type_of(
            f,
            i.kind.args[k],
        )
}

/// An instruction agrees where one like it does.
#[verifier::rlimit(60)]
pub proof fn lemma_like_consistency(f: FuncView, g: FuncView, i: InstView, j: InstView)
    requires
        like_operands(f, g, i, j),
        consistency_msgs(f, i).len() == 0,
    ensures
        consistency_msgs(g, j).len() == 0,
{
    reveal(int_op_msgs);
    reveal(float_op_msgs);
    reveal(store_msgs);
    reveal(load_msgs);
    reveal(bitwise_msgs);
    reveal(logical_msgs);
    reveal(compare_msgs);
    reveal(select_msgs);
    reveal(runtime_msgs);
    reveal(vector_pair_msgs);
    reveal(vector_fma_msgs);
    reveal(vector_select_msgs);
    reveal(vector_unary_msgs);
    reveal(lane_msgs);
    let a = i.kind.args;
    let b = j.kind.args;
    if let Op::RuntimeCall(rf) = i.kind.op {
        let n = lesser(a.len(), runtime_params(rf).len());
        let old = runtime_arg_msgs(f, rf, i.id, a);
        let new = runtime_arg_msgs(g, rf, j.id, b);
        assert(operand_msgs(f, i).len() == 0);
        assert(gather(n, old).len() == 0);
        lemma_gather_empty(n, old);
        assert forall|k: int| 0 <= k < n implies (#[trigger] new(k)).len() == 0 by {
            assert(old(k).len() == 0);
            assert(type_of(g, b[k]) == type_of(f, a[k]));
        }
        lemma_gather_empty(n, new);
    } else {
        if a.len() > 0 {
            assert(type_of(g, b[0]) == type_of(f, a[0]));
        }
        if a.len() > 1 {
            assert(type_of(g, b[1]) == type_of(f, a[1]));
        }
        if a.len() > 2 {
            assert(type_of(g, b[2]) == type_of(f, a[2]));
        }
    }
    assert(operand_msgs(f, i).len() == 0);
    assert(operand_msgs(g, j).len() == 0);
}

/// Do these values have in `g` the types of those in `f`?
pub open spec fn like_list(f: FuncView, g: FuncView, s: Seq<ValueId>, t: Seq<ValueId>) -> bool {
    &&& s.len() == t.len()
    &&& forall|k: int| 0 <= k < s.len() ==> type_of(g, #[trigger] t[k]) == type_of(f, s[k])
}

proof fn lemma_like_edge(
    f: FuncView,
    g: FuncView,
    name: Seq<char>,
    dest: BlockId,
    s: Seq<ValueId>,
    t: Seq<ValueId>,
)
    requires
        same_target(f, g, dest),
        like_list(f, g, s, t),
        edge_msgs(f, name, dest, s).len() == 0,
    ensures
        edge_msgs(g, name, dest, t).len() == 0,
{
    let a = the_block(f.blocks, dest);
    let b = the_block(g.blocks, dest);
    let old = branch_arg_msgs(f, name, a, s);
    let new = branch_arg_msgs(g, name, b, t);
    lemma_gather_empty(s.len(), old);
    assert forall|k: int| 0 <= k < t.len() implies (#[trigger] new(k)).len() == 0 by {
        assert(old(k).len() == 0);
        assert(type_of(g, t[k]) == type_of(f, s[k]));
    }
    lemma_gather_empty(t.len(), new);
}

/// A terminator with renamed operands fits where the terminator did.
pub proof fn lemma_like_term(
    f: FuncView,
    g: FuncView,
    t: TermView,
    m: Map<ValueId, ValueId>,
    name: Seq<char>,
)
    requires
        g.return_type == f.return_type,
        branch_msgs(f, t, name).len() == 0,
        return_msgs(f, t, name).len() == 0,
        like_list(f, g, term_uses(t), term_uses(renamed_term(t, m))),
        forall|x: BlockId| #[trigger] term_targets(t).contains(x) ==> same_target(f, g, x),
    ensures
        branch_msgs(g, renamed_term(t, m), name).len() == 0,
        return_msgs(g, renamed_term(t, m), name).len() == 0,
{
    let to = term_targets(t);
    let old = term_uses(t);
    let new = term_uses(renamed_term(t, m));
    match t {
        TermView::Branch(dest, args) => {
            assert(to[0] == dest);
            assert(to.contains(dest));
            lemma_like_edge(f, g, name, dest, args, renamed_list(args, m));
        },
        TermView::CondBranch { cond, true_dest, true_args, false_dest, false_args } => {
            assert(to[0] == true_dest);
            assert(to.contains(true_dest));
            assert(to[1] == false_dest);
            assert(to.contains(false_dest));
            assert(new[0] == renamed(cond, m) && old[0] == cond);
            let x = renamed_list(true_args, m);
            let y = renamed_list(false_args, m);
            assert forall|k: int| 0 <= k < x.len() implies type_of(g, #[trigger] x[k]) == type_of(
                f,
                true_args[k],
            ) by {
                assert(new[1 + k] == x[k] && old[1 + k] == true_args[k]);
            }
            assert forall|k: int| 0 <= k < y.len() implies type_of(g, #[trigger] y[k]) == type_of(
                f,
                false_args[k],
            ) by {
                assert(new[1 + x.len() + k] == y[k] && old[1 + x.len() + k] == false_args[k]);
            }
            assert(type_of(g, new[0]) == type_of(f, old[0]));
            lemma_like_edge(f, g, name, true_dest, true_args, x);
            lemma_like_edge(f, g, name, false_dest, false_args, y);
        },
        TermView::Switch { selector, cases, default } => {
            assert(to[cases.len() as int] == default);
            assert(to.contains(default));
            lemma_gather_empty(cases.len(), case_msgs(f, cases));
            assert forall|i: int| 0 <= i < cases.len() implies (#[trigger] case_msgs(g, cases)(
                i,
            )).len() == 0 by {
                assert(to[i] == cases[i].1);
                assert(to.contains(cases[i].1));
                assert(case_msgs(f, cases)(i).len() == 0);
            }
            lemma_gather_empty(cases.len(), case_msgs(g, cases));
        },
        TermView::Return(Some(v)) => {
            assert(new[0] == renamed(v, m) && old[0] == v);
            assert(type_of(g, new[0]) == type_of(f, old[0]));
        },
        _ => {},
    }
}

/// Where nothing is defined twice, no two blocks define the same.
pub proof fn lemma_unique_blocks(s: Seq<BlockView>, n: nat)
    requires
        n <= s.len(),
        unique(defs_upto(s, n)),
    ensures
        forall|b: int| 0 <= b < n ==> unique(own_defs(#[trigger] s[b])),
        forall|b: int, c: int, d: Def, e: Def|
            0 <= b < c < n && #[trigger] own_defs(s[b]).contains(d) && #[trigger] own_defs(
                s[c],
            ).contains(e) ==> d.id != e.id,
    decreases n,
{
    if n > 0 {
        let before = defs_upto(s, (n - 1) as nat);
        let last = own_defs(s[n - 1]);
        let all = defs_upto(s, n);
        assert(all =~= before + last);
        assert forall|i: int, j: int| 0 <= i < j < before.len() implies (#[trigger] before[i]).id
            != (#[trigger] before[j]).id by {
            assert(all[i] == before[i] && all[j] == before[j]);
        }
        assert forall|i: int, j: int| 0 <= i < j < last.len() implies (#[trigger] last[i]).id != (
        #[trigger] last[j]).id by {
            assert(all[before.len() + i] == last[i] && all[before.len() + j] == last[j]);
        }
        lemma_unique_blocks(s, (n - 1) as nat);
        assert forall|b: int, c: int, d: Def, e: Def|
            0 <= b < c < n && #[trigger] own_defs(s[b]).contains(d) && #[trigger] own_defs(
                s[c],
            ).contains(e) implies d.id != e.id by {
            if c == n - 1 {
                lemma_def_place(s, (n - 1) as nat, d);
                let i = before.index_of(d);
                let j = last.index_of(e);
                assert(all[i] == d && all[before.len() + j] == e);
            }
        }
    }
}

/// Instructions of a sound function define different values.
pub proof fn lemma_unique_insts(f: FuncView)
    requires
        sound_function(f),
    ensures
        forall|b: int, c: int, i: int, j: int|
            #![trigger f.blocks[b].insts[i], f.blocks[c].insts[j]]
            0 <= b < f.blocks.len() && 0 <= c < f.blocks.len() && 0 <= i < f.blocks[b].insts.len()
                && 0 <= j < f.blocks[c].insts.len() && f.blocks[b].insts[i].id
                == f.blocks[c].insts[j].id ==> b == c && i == j,
{
    let pre = param_defs(f.params, f.entry);
    let s = defs_upto(f.blocks, f.blocks.len());
    lemma_sound_unique(f);
    assert forall|i: int, j: int| 0 <= i < j < s.len() implies (#[trigger] s[i]).id != (
    #[trigger] s[j]).id by {
        assert(defs(f)[pre.len() + i] == s[i] && defs(f)[pre.len() + j] == s[j]);
    }
    lemma_unique_blocks(f.blocks, f.blocks.len());
    assert forall|b: int, c: int, i: int, j: int|
        #![trigger f.blocks[b].insts[i], f.blocks[c].insts[j]]
        0 <= b < f.blocks.len() && 0 <= c < f.blocks.len() && 0 <= i < f.blocks[b].insts.len() && 0
            <= j < f.blocks[c].insts.len() && f.blocks[b].insts[i].id == f.blocks[c].insts[j].id implies b
        == c && i == j by {
        lemma_inst_def(f.blocks[b], i);
        lemma_inst_def(f.blocks[c], j);
        let x = f.blocks[b].params.len() + i;
        let y = f.blocks[c].params.len() + j;
        assert(own_defs(f.blocks[b])[x].id == own_defs(f.blocks[c])[y].id);
        if b == c {
            assert(unique(own_defs(f.blocks[b])));
        }
    }
}

proof fn lemma_inst_def(b: BlockView, i: int)
    requires
        0 <= i < b.insts.len(),
    ensures
        own_defs(b)[b.params.len() + i] == (Def { id: b.insts[i].id, ty: b.insts[i].ty, block: b.id }),
        own_defs(b).contains(Def { id: b.insts[i].id, ty: b.insts[i].ty, block: b.id }),
{
    assert(own_defs(b)[b.params.len() + i] == inst_defs(b)[i]);
}

/// Is instruction `j` of block `b` read no more, because instruction `i` computes
/// the same before it?
pub open spec fn repeats_at(f: FuncView, held: bool, b: int, j: int) -> bool {
    0 <= b < f.blocks.len() && 0 <= j < f.blocks[b].insts.len() && earlier(
        f.blocks[b].insts,
        j,
        held,
    ) is Some
}

proof fn lemma_block_rewrites(s: Seq<InstView>, n: nat, held: bool, m: Map<ValueId, ValueId>, v: ValueId)
    requires
        n <= s.len(),
        block_rewrites(s, n, held, m).contains_key(v),
    ensures
        (m.contains_key(v) && block_rewrites(s, n, held, m)[v] == m[v]) || exists|j: int|
            0 <= j < n && (#[trigger] s[j]).id == v && earlier(s, j, held) == Some(
                block_rewrites(s, n, held, m)[v],
            ),
    decreases n,
{
    if n > 0 {
        let before = block_rewrites(s, (n - 1) as nat, held, m);
        if earlier(s, n - 1, held) is Some && s[n - 1].id == v {
        } else {
            lemma_block_rewrites(s, (n - 1) as nat, held, m, v);
        }
    }
}

pub proof fn lemma_rewrites_upto(f: FuncView, n: nat, held: bool, v: ValueId)
    requires
        n <= f.blocks.len(),
        rewrites_upto(f.blocks, n, held).contains_key(v),
    ensures
        exists|b: int, j: int|
            0 <= b < n && #[trigger] repeats_at(f, held, b, j) && f.blocks[b].insts[j].id == v
                && earlier(f.blocks[b].insts, j, held) == Some(rewrites_upto(f.blocks, n, held)[v]),
    decreases n,
{
    if n > 0 {
        let s = f.blocks[n - 1].insts;
        let before = rewrites_upto(f.blocks, (n - 1) as nat, held);
        let now = rewrites_upto(f.blocks, n, held);
        lemma_block_rewrites(s, s.len(), held, before, v);
        if before.contains_key(v) && now[v] == before[v] {
            lemma_rewrites_upto(f, (n - 1) as nat, held, v);
        } else {
            let j = choose|j: int|
                0 <= j < s.len() && (#[trigger] s[j]).id == v && earlier(s, j, held) == Some(now[v]);
            assert(repeats_at(f, held, n - 1, j));
        }
    }
}

/// A value that is read no more is that of an instruction whose twin stands
/// before it in the block, has the same type and is not dropped.
proof fn lemma_twin(f: FuncView, held: bool, v: ValueId) -> (r: (int, int, int))
    requires
        sound_function(f),
        rewrites_of(f, held).contains_key(v),
    ensures
        0 <= r.0 < f.blocks.len(),
        0 <= r.1 < r.2 < f.blocks[r.0].insts.len(),
        f.blocks[r.0].insts[r.2].id == v,
        f.blocks[r.0].insts[r.1].id == rewrites_of(f, held)[v],
        f.blocks[r.0].insts[r.1].ty == f.blocks[r.0].insts[r.2].ty,
        !rewrites_of(f, held).contains_key(rewrites_of(f, held)[v]),
{
    let n = f.blocks.len();
    let m = rewrites_of(f, held);
    lemma_rewrites_upto(f, n, held, v);
    let (b, j) = choose|b: int, j: int|
        0 <= b < n && #[trigger] repeats_at(f, held, b, j) && f.blocks[b].insts[j].id == v
            && earlier(f.blocks[b].insts, j, held) == Some(m[v]);
    let s = f.blocks[b].insts;
    lemma_unique_insts(f);
    assert forall|x: int, y: int| 0 <= x < y < s.len() implies (#[trigger] s[x]).id != (
    #[trigger] s[y]).id by {
        assert(f.blocks[b].insts[x] == s[x] && f.blocks[b].insts[y] == s[y]);
    }
    rewrites_do_not_chain(s, j, held);
    let i = choose|i: int|
        0 <= i < j && #[trigger] s[i].id == earlier(s, j, held)->0 && key_of(s[i]) == key_of(s[j])
            && earlier(s, i, held) is None;
    let w = m[v];
    if m.contains_key(w) {
        lemma_rewrites_upto(f, n, held, w);
        let (c, k) = choose|c: int, k: int|
            0 <= c < n && #[trigger] repeats_at(f, held, c, k) && f.blocks[c].insts[k].id == w
                && earlier(f.blocks[c].insts, k, held) == Some(m[w]);
        assert(f.blocks[b].insts[i].id == f.blocks[c].insts[k].id);
    }
    (b, i, j)
}

/// The function with its repeated computations shared, but for the types on
/// record.
spec fn without_repeats(f: FuncView, m: Map<ValueId, ValueId>) -> FuncView {
    func_without(renamed_func(f, m), m.dom())
}

/// Which instructions of a block stay.
spec fn kept_insts(b: BlockView, m: Map<ValueId, ValueId>) -> Seq<bool> {
    Seq::new(b.insts.len(), |k: int| !m.contains_key(b.insts[k].id))
}

/// Where the instructions that stay stood.
spec fn kept_places(b: BlockView, m: Map<ValueId, ValueId>) -> Seq<int> {
    places(kept_insts(b, m), b.insts.len())
}

proof fn lemma_kept_insts(f: FuncView, m: Map<ValueId, ValueId>, i: int)
    requires
        0 <= i < f.blocks.len(),
    ensures
        ascend(kept_places(f.blocks[i], m), f.blocks[i].insts.len()),
        without_repeats(f, m).blocks[i].insts.len() == kept_places(f.blocks[i], m).len(),
        forall|k: int|
            0 <= k < kept_places(f.blocks[i], m).len() ==> #[trigger] without_repeats(
                f,
                m,
            ).blocks[i].insts[k] == renamed_inst(f.blocks[i].insts[kept_places(f.blocks[i], m)[k]], m),
        forall|j: int| #[trigger]
            kept_places(f.blocks[i], m).contains(j) == (0 <= j < f.blocks[i].insts.len()
                && !m.contains_key(f.blocks[i].insts[j].id)),
        part_of(own_defs(f.blocks[i]), own_defs(without_repeats(f, m).blocks[i])),
{
    let a = f.blocks[i];
    let r = renamed_func(f, m).blocks[i];
    let b = without_repeats(f, m).blocks[i];
    let keep = kept_insts(a, m);
    let cond = |x: InstView| !m.dom().contains(x.id);
    assert forall|k: int| 0 <= k < r.insts.len() implies #[trigger] keep[k] == cond(r.insts[k]) by {}
    lemma_masked_filter(r.insts, keep, cond);
    assert(b.insts == r.insts.filter(cond));
    lemma_masked_part(r.insts, keep);
    lemma_places(keep, a.insts.len());
    let at = kept_places(a, m);
    assert(picked(r.insts, b.insts, at));
    assert forall|k: int| 0 <= k < at.len() implies #[trigger] b.insts[k] == renamed_inst(
        a.insts[at[k]],
        m,
    ) by {
        assert(b.insts[k] == r.insts[at[k]]);
    }
    lemma_whole_part(r.params);
    assert(part_of(r.insts, b.insts));
    lemma_part_own(r, b);
    assert(block_param_defs(r) =~= block_param_defs(a));
    assert(inst_defs(r) =~= inst_defs(a));
}

proof fn lemma_shared_defs(f: FuncView, m: Map<ValueId, ValueId>)
    requires
        sound_function(f),
    ensures
        unique(defs(f)),
        unique(defs(without_repeats(f, m))),
        forall|d: Def| #[trigger] defs(without_repeats(f, m)).contains(d) ==> defs(f).contains(d),
        forall|d: Def| #[trigger]
            defs(f).contains(d) && !m.contains_key(d.id) ==> defs(without_repeats(f, m)).contains(d),
{
    let g = without_repeats(f, m);
    let pre = param_defs(f.params, f.entry);
    let n = f.blocks.len();
    lemma_sound_unique(f);
    assert forall|i: int| 0 <= i < n implies part_of(
        own_defs(f.blocks[i]),
        own_defs(#[trigger] g.blocks[i]),
    ) by {
        lemma_kept_insts(f, m, i);
    }
    lemma_part_defs(f.blocks, g.blocks, n);
    lemma_whole_part(pre);
    lemma_part_concat(pre, defs_upto(f.blocks, n), pre, defs_upto(g.blocks, n));
    lemma_part_unique(defs(f), defs(g));
    assert forall|d: Def| #[trigger] defs(f).contains(d) && !m.contains_key(d.id) implies defs(
        g,
    ).contains(d) by {
        lemma_in_concat(pre, defs_upto(f.blocks, n), d);
        lemma_in_concat(pre, defs_upto(g.blocks, n), d);
        if !pre.contains(d) {
            lemma_def_place(f.blocks, n, d);
            lemma_def_place(g.blocks, n, d);
            let i = choose|i: int| 0 <= i < n && own_defs(#[trigger] f.blocks[i]).contains(d);
            let a = f.blocks[i];
            let b = g.blocks[i];
            lemma_kept_insts(f, m, i);
            lemma_in_concat(block_param_defs(a), inst_defs(a), d);
            lemma_in_concat(block_param_defs(b), inst_defs(b), d);
            assert(block_param_defs(b) =~= block_param_defs(a));
            if !block_param_defs(a).contains(d) {
                let k = inst_defs(a).index_of(d);
                assert(inst_defs(a)[k] == d);
                let at = kept_places(a, m);
                assert(at.contains(k));
                let j = at.index_of(k);
                assert(b.insts[j] == renamed_inst(a.insts[at[j]], m));
                assert(inst_defs(b)[j] == d);
            }
            assert(own_defs(g.blocks[i]).contains(d));
        }
    }
}

/// The types that definitions give, where nothing is defined twice.
proof fn lemma_types_of_defs(s: Seq<Def>, d: Def)
    requires
        unique(s),
        s.contains(d),
    ensures
        types_of_defs(s).contains_key(d.id),
        types_of_defs(s)[d.id] == d.ty,
    decreases s.len(),
{
    let i = s.index_of(d);
    let t = s.drop_last();
    if i < s.len() - 1 {
        assert(t[i] == d);
        assert forall|x: int, y: int| 0 <= x < y < t.len() implies (#[trigger] t[x]).id != (
        #[trigger] t[y]).id by {
            assert(s[x].id != s[y].id);
        }
        lemma_types_of_defs(t, d);
        assert(s[i].id != s[s.len() - 1].id);
    }
}

/// The definition that stands for that of `v`, if another is read in its place.
spec fn stand_in(f: FuncView, held: bool, v: ValueId, d: Def, e: Def) -> bool {
    &&& defs(f).contains(d) && d.id == v
    &&& defs(f).contains(e) && e.id == renamed(v, rewrites_of(f, held))
    &&& e.block == d.block && e.ty == d.ty
    &&& !rewrites_of(f, held).contains_key(e.id)
}

proof fn lemma_stand_in(f: FuncView, held: bool, v: ValueId) -> (r: (Def, Def))
    requires
        sound_function(f),
        is_defined(f, v),
    ensures
        stand_in(f, held, v, r.0, r.1),
        last_def(defs(f), v) == Some(r.0),
{
    let m = rewrites_of(f, held);
    lemma_last_def(defs(f), v);
    let d = last_def(defs(f), v)->0;
    if m.contains_key(v) {
        let (b, i, j) = lemma_twin(f, held, v);
        let x = f.blocks[b];
        let e = Def { id: x.insts[i].id, ty: x.insts[i].ty, block: x.id };
        let dj = Def { id: x.insts[j].id, ty: x.insts[j].ty, block: x.id };
        lemma_inst_def(x, i);
        lemma_inst_def(x, j);
        lemma_in_function(f, b, e);
        lemma_in_function(f, b, dj);
        lemma_sound_unique(f);
        lemma_unique_def(defs(f), dj);
        (d, e)
    } else {
        (d, d)
    }
}

proof fn lemma_in_function(f: FuncView, b: int, d: Def)
    requires
        0 <= b < f.blocks.len(),
        own_defs(f.blocks[b]).contains(d),
    ensures
        defs(f).contains(d),
{
    lemma_def_place(f.blocks, f.blocks.len(), d);
    lemma_in_concat(param_defs(f.params, f.entry), defs_upto(f.blocks, f.blocks.len()), d);
}

/// What is read in place of a value is defined on every way, with its type.
#[verifier::rlimit(30)]
proof fn lemma_shared_use(f: FuncView, held: bool, i: int, v: ValueId, here: int, there: int)
    requires
        sound_function(f),
        repeats(f, held),
        0 <= i < f.blocks.len(),
        (here == kept_places(f.blocks[i], rewrites_of(f, held)).len() && there
            == f.blocks[i].insts.len()) || (0 <= here < kept_places(
            f.blocks[i],
            rewrites_of(f, held),
        ).len() && there == kept_places(f.blocks[i], rewrites_of(f, held))[here]),
        is_defined(f, v),
        defined_on_the_way(f, f.blocks[i], v, there),
    ensures
        is_defined(shared_func(f, held), renamed(v, rewrites_of(f, held))),
        defined_on_the_way(
            shared_func(f, held),
            shared_func(f, held).blocks[i],
            renamed(v, rewrites_of(f, held)),
            here,
        ),
        type_of(shared_func(f, held), renamed(v, rewrites_of(f, held))) == type_of(f, v),
{
    let m = rewrites_of(f, held);
    let g = shared_func(f, held);
    let w = renamed(v, m);
    let a = f.blocks[i].insts;
    let b = g.blocks[i].insts;
    let at = kept_places(f.blocks[i], m);
    let (d, e) = lemma_stand_in(f, held, v);
    lemma_shared_defs(f, m);
    lemma_kept_insts(f, m, i);
    assert(defs(g) == defs(without_repeats(f, m)));
    assert(defs(g).contains(e));
    lemma_unique_def(defs(f), d);
    lemma_unique_def(defs(g), e);
    assert(defs(g)[defs(g).index_of(e)].id == w);
    lemma_types_of_defs(defs(g), e);
    let k = defs(f).index_of(d);
    assert(type_agrees(f, k));
    assert(type_of(f, v) == Some(d.ty));
    assert(same_graph(f.blocks, g.blocks)) by {
        lemma_shared_graph(f, m);
    }
    lemma_same_dominance(f, g);
    lemma_last_pos(a, a.len(), v);
    lemma_last_pos(b, b.len(), w);
    if e.block == g.blocks[i].id {
        if let Some(p) = last_inst_pos(b, b.len(), w) {
            assert(b[p] == renamed_inst(a[at[p]], m));
            assert(a[at[p]].id == w);
            if m.contains_key(v) {
                let (c, x, y) = lemma_twin(f, held, v);
                lemma_unique_insts(f);
                assert(f.blocks[i].insts[at[p]].id == f.blocks[c].insts[x].id);
                assert(c == i && at[p] == x);
                assert(a[y].id == v);
            }
            assert(at[p] < there);
            if here < at.len() && here <= p {
                assert(at[here] <= at[p]);
            }
        }
    }
}

proof fn lemma_shared_graph(f: FuncView, m: Map<ValueId, ValueId>)
    ensures
        same_graph(f.blocks, without_repeats(f, m).blocks),
{
    let g = without_repeats(f, m);
    assert forall|i: int| 0 <= i < f.blocks.len() implies (#[trigger] g.blocks[i]).id
        == f.blocks[i].id && targets_of(g.blocks[i]) == targets_of(f.blocks[i]) by {
        if let Some(t) = f.blocks[i].term {
            assert(term_targets(renamed_term(t, m)) == term_targets(t));
        }
    }
}

proof fn lemma_shared_block(f: FuncView, held: bool, i: int)
    requires
        sound_function(f),
        all_operands(f),
        repeats(f, held),
        0 <= i < f.blocks.len(),
    ensures
        sound_block(shared_func(f, held), shared_func(f, held).blocks[i]),
        typed_block(shared_func(f, held), shared_func(f, held).blocks[i]),
{
    let m = rewrites_of(f, held);
    let g = shared_func(f, held);
    let a = f.blocks[i];
    let b = g.blocks[i];
    let at = kept_places(a, m);
    assert(sound_block(f, a) && typed_block(f, a));
    lemma_kept_insts(f, m, i);
    lemma_shared_graph(f, m);
    assert(same_graph(f.blocks, g.blocks));
    assert(targets_of(g.blocks[i]) == targets_of(f.blocks[i]));
    let old = a.term->0;
    let t = b.term->0;
    assert(t == renamed_term(old, m));
    lemma_renamed_uses(old, m);
    let n = b.insts.len() as int;
    assert forall|x: BlockId| has_block(f.blocks, x) implies #[trigger] same_target(f, g, x) by {
        lemma_same_place(f.blocks, g.blocks, x);
        lemma_block_pos(f.blocks, x);
    }
    assert forall|k: int| 0 <= k < targets_of(b).len() implies has_block(
        g.blocks,
        #[trigger] targets_of(b)[k],
    ) by {
        assert(has_block(f.blocks, targets_of(a)[k]));
        assert(same_target(f, g, targets_of(a)[k]));
    }
    assert forall|k: int| 0 <= k < term_uses(t).len() implies is_defined(g, #[trigger] term_uses(t)[k])
        && defined_on_the_way(g, b, term_uses(t)[k], n) && type_of(g, term_uses(t)[k]) == type_of(
        f,
        term_uses(old)[k],
    ) by {
        let v = term_uses(old)[k];
        assert(is_defined(f, v) && defined_on_the_way(f, a, v, a.insts.len() as int));
        lemma_shared_use(f, held, i, v, n, a.insts.len() as int);
    }
    assert forall|x: BlockId| #[trigger] term_targets(old).contains(x) implies same_target(f, g, x) by {
        let k = targets_of(a).index_of(x);
        assert(has_block(f.blocks, targets_of(a)[k]));
    }
    lemma_like_term(f, g, old, m, a.name);
    assert forall|j: int| 0 <= j < b.insts.len() implies all_defined(
        g,
        (#[trigger] b.insts[j]).kind.args,
    ) && all_on_the_way(g, b, b.insts[j].kind.args, j) && consistency_msgs(g, b.insts[j]).len()
        == 0 by {
        let was = a.insts[at[j]];
        let args = b.insts[j].kind.args;
        assert(b.insts[j] == renamed_inst(was, m));
        assert(has_operands(f.blocks[i].insts[at[j]]));
        assert(all_defined(f, was.kind.args) && all_on_the_way(f, a, was.kind.args, at[j]));
        assert(consistency_msgs(f, was).len() == 0);
        assert forall|k: int| 0 <= k < args.len() implies is_defined(g, #[trigger] args[k])
            && defined_on_the_way(g, b, args[k], j) && type_of(g, args[k]) == type_of(
            f,
            was.kind.args[k],
        ) by {
            let v = was.kind.args[k];
            assert(is_defined(f, v) && defined_on_the_way(f, a, v, at[j]));
            lemma_shared_use(f, held, i, v, j, at[j]);
        }
        lemma_like_consistency(f, g, was, b.insts[j]);
    }
}

/// Sharing repeated computations keeps a sound function sound.
pub proof fn sharing_keeps_soundness(f: FuncView, held: bool)
    requires
        has_block(f.blocks, f.entry),
        all_operands(f),
        sound_function(f),
    ensures
        sound_function(shared_func(f, held)),
{
    if repeats(f, held) {
        let m = rewrites_of(f, held);
        let g = shared_func(f, held);
        lemma_shared_graph(f, m);
        assert(same_graph(f.blocks, g.blocks));
        lemma_same_place(f.blocks, g.blocks, f.entry);
        lemma_block_pos(f.blocks, f.entry);
        assert(the_block(g.blocks, g.entry).params == the_block(f.blocks, f.entry).params);
        assert(!has_duplicate_blocks(g)) by {
            assert forall|i: int| 0 <= i < g.blocks.len() implies is_first_block(
                g.blocks,
                (#[trigger] g.blocks[i]).id,
                i,
            ) by {
                assert(is_first_block(f.blocks, f.blocks[i].id, i));
            }
        }
        assert forall|i: int| 0 <= i < g.blocks.len() implies sound_block(g, #[trigger] g.blocks[i])
            && typed_block(g, g.blocks[i]) by {
            lemma_shared_block(f, held, i);
        }
        lemma_shared_defs(f, m);
        assert(defs(g) == defs(without_repeats(f, m)));
        assert forall|i: int| 0 <= i < defs(g).len() implies #[trigger] type_agrees(g, i) by {
            assert(defs(g).contains(defs(g)[i]));
            lemma_types_of_defs(defs(g), defs(g)[i]);
        }
        assert forall|i: int| 0 <= i < defs(g).len() implies !#[trigger] defined_before(
            defs(g),
            i,
        ) by {}
    }
}

} // verus!
