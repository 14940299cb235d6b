//! What the verifier's questions depend on.

use crate::ir::cfg::{edge, is_path, reachable, succs, targets_of};
use crate::ir::dom::{dominates, is_walk};
use crate::ir::inst::{
    block_pos, defs, has_block, lemma_block_pos, the_block, type_of, BlockId, BlockView, FuncView,
    Function, InstView, Op, TermView, ValueId,
};
use crate::ir::verify::{
    bitwise_msgs, branch_arg_msgs, branch_msgs, case_msgs, compare_msgs, consistency_msgs,
    edge_msgs, float_op_msgs, gather, int_op_msgs, lane_msgs, lesser, load_msgs, logical_msgs,
    operand_msgs, return_msgs, runtime_arg_msgs, runtime_msgs, runtime_params, select_msgs, store_msgs,
    vector_fma_msgs, vector_pair_msgs, vector_select_msgs, vector_unary_msgs,
};
use vstd::prelude::*;

verus! {

/// Do both functions give every value the same type?
pub open spec fn same_types(f: FuncView, g: FuncView) -> bool {
    forall|v: ValueId| #[trigger] type_of(g, v) == type_of(f, v)
}

/// Do both lists hold blocks with the same names, parameters and targets?
pub open spec fn same_heads(s: Seq<BlockView>, t: Seq<BlockView>) -> bool {
    &&& s.len() == t.len()
    &&& forall|i: int|
        0 <= i < s.len() ==> (#[trigger] t[i]).id == s[i].id && t[i].name == s[i].name
            && t[i].params == s[i].params && targets_of(t[i]) == targets_of(s[i])
}

/// How many operands an operation reads that has its types checked.
pub open spec fn operand_count(op: Op) -> nat {
    match op {
        Op::IAdd | Op::ISub | Op::IMul | Op::IDiv | Op::IMod => 2,
        Op::FAdd | Op::FSub | Op::FMul | Op::FDiv | Op::FPow => 2,
        Op::Store => 2,
        Op::Load => 1,
        Op::BitAnd | Op::BitOr | Op::BitXor | Op::Shl | Op::LShr | Op::AShr => 2,
        Op::And | Op::Or | Op::ICmp(_) => 2,
        Op::Select => 3,
        Op::VAdd | Op::VSub | Op::VMul | Op::VDiv | Op::VMin | Op::VMax => 2,
        Op::VFma | Op::VSelect => 3,
        Op::VNeg | Op::VAbs | Op::VSqrt | Op::VExtract(_) | Op::VInsert(_) => 1,
        _ => 0,
    }
}

/// Has an instruction the operands of its operation?
pub open spec fn has_operands(i: InstView) -> bool {
    operand_count(i.kind.op) <= i.kind.args.len()
}

/// Has every instruction of the function the operands of its operation?
pub open spec fn all_operands(f: FuncView) -> bool {
    forall|b: int, j: int|
        0 <= b < f.blocks.len() && 0 <= j < f.blocks[b].insts.len() ==> has_operands(
            #[trigger] f.blocks[b].insts[j],
        )
}

/// Were the names of all values handed out by the function?
pub open spec fn value_names_used(f: FuncView) -> bool {
    forall|i: int| 0 <= i < defs(f).len() ==> (#[trigger] defs(f)[i]).id.0 < f.next_value
}

/// Instructions always have the operands of their operation.
pub proof fn operands_are_there(f: Function)
    ensures
        all_operands(f@),
{
    assert forall|b: int, j: int|
        0 <= b < f@.blocks.len() && 0 <= j < f@.blocks[b].insts.len() implies has_operands(
        #[trigger] f@.blocks[b].insts[j],
    ) by {
        assert(f@.blocks[b].insts[j] == f.blocks@[b].insts@[j]@);
    }
}

/// What has been gathered is the same where each part is the same.
pub proof fn lemma_gather_same(
    n: nat,
    a: spec_fn(int) -> Seq<Seq<char>>,
    b: spec_fn(int) -> Seq<Seq<char>>,
)
    requires
        forall|i: int| 0 <= i < n ==> #[trigger] a(i) == b(i),
    ensures
        gather(n, a) == gather(n, b),
    decreases n,
{
    if n > 0 {
        lemma_gather_same((n - 1) as nat, a, b);
        assert(a(n - 1) == b(n - 1));
    }
}

/// Do both functions give the operands of an instruction the same types?
pub open spec fn same_operand_types(f: FuncView, g: FuncView, i: InstView) -> bool {
    forall|k: int|
        0 <= k < i.kind.args.len() || 0 <= k < operand_count(i.kind.op) ==> type_of(
            g,
            #[trigger] i.kind.args[k],
        ) == type_of(f, i.kind.args[k])
}

/// Instructions agree in functions that give their operands the same types.
#[verifier::rlimit(60)]
pub proof fn lemma_same_consistency(f: FuncView, g: FuncView, i: InstView)
    requires
        same_operand_types(f, g, i),
    ensures
        consistency_msgs(g, i) == consistency_msgs(f, i),
{
    reveal(int_op_msgs);
    reveal(float_op_msgs);
    reveal(store_msgs);
    reveal(load_msgs);
    reveal(bitwise_msgs);
    reveal(logical_msgs);
    reveal(compare_msgs);
    reveal(select_msgs);
    reveal(runtime_msgs);
    reveal(vector_pair_msgs);
    reveal(vector_fma_msgs);
    reveal(vector_select_msgs);
    reveal(vector_unary_msgs);
    reveal(lane_msgs);
    if let Op::RuntimeCall(rf) = i.kind.op {
        let n = lesser(i.kind.args.len(), runtime_params(rf).len());
        lemma_gather_same(
            n,
            runtime_arg_msgs(g, rf, i.id, i.kind.args),
            runtime_arg_msgs(f, rf, i.id, i.kind.args),
        );
    }
    assert(operand_msgs(g, i) == operand_msgs(f, i));
}

/// Do the blocks of both lists have the same names and targets?
pub open spec fn same_graph(s: Seq<BlockView>, t: Seq<BlockView>) -> bool {
    &&& s.len() == t.len()
    &&& forall|i: int|
        0 <= i < s.len() ==> (#[trigger] t[i]).id == s[i].id && targets_of(t[i]) == targets_of(s[i])
}

/// Are the blocks of both lists named alike?
pub open spec fn same_ids(s: Seq<BlockView>, t: Seq<BlockView>) -> bool {
    s.len() == t.len() && forall|i: int| 0 <= i < s.len() ==> (#[trigger] t[i]).id == s[i].id
}

/// Blocks with the same names are found at the same places.
pub proof fn lemma_same_place(s: Seq<BlockView>, t: Seq<BlockView>, id: BlockId)
    requires
        same_ids(s, t),
    ensures
        has_block(t, id) == has_block(s, id),
        has_block(s, id) ==> block_pos(t, id) == block_pos(s, id),
{
    if has_block(s, id) {
        lemma_block_pos(s, id);
        assert(t[block_pos(s, id)].id == id);
        lemma_block_pos(t, id);
        let a = block_pos(s, id);
        let b = block_pos(t, id);
        if a < b {
            assert(t[a].id != id);
        }
        if b < a {
            assert(s[b].id != id);
        }
    }
    if has_block(t, id) {
        lemma_block_pos(t, id);
        assert(s[block_pos(t, id)].id == id);
    }
}

/// Terminators agree in functions with the same types and the same blocks.
pub proof fn lemma_same_branches(f: FuncView, g: FuncView, t: TermView, name: Seq<char>)
    requires
        same_types(f, g),
        same_heads(f.blocks, g.blocks),
        g.return_type == f.return_type,
    ensures
        branch_msgs(g, t, name) == branch_msgs(f, t, name),
        return_msgs(g, t, name) == return_msgs(f, t, name),
{
    match t {
        TermView::Branch(dest, args) => {
            lemma_same_edge(f, g, name, dest, args);
        },
        TermView::CondBranch { cond, true_dest, true_args, false_dest, false_args } => {
            lemma_same_edge(f, g, name, true_dest, true_args);
            lemma_same_edge(f, g, name, false_dest, false_args);
        },
        TermView::Switch { selector, cases, default } => {
            lemma_same_place(f.blocks, g.blocks, default);
            if has_block(f.blocks, default) {
                lemma_block_pos(f.blocks, default);
            }
            assert(case_msgs(g, cases) =~= case_msgs(f, cases)) by {
                assert forall|i: int| #[trigger] case_msgs(g, cases)(i) == case_msgs(f, cases)(i) by {
                    lemma_same_place(f.blocks, g.blocks, cases[i].1);
                    if has_block(f.blocks, cases[i].1) {
                        lemma_block_pos(f.blocks, cases[i].1);
                    }
                }
            }
        },
        _ => {},
    }
}

proof fn lemma_same_edge(
    f: FuncView,
    g: FuncView,
    name: Seq<char>,
    dest: BlockId,
    args: Seq<ValueId>,
)
    requires
        same_types(f, g),
        same_heads(f.blocks, g.blocks),
    ensures
        edge_msgs(g, name, dest, args) == edge_msgs(f, name, dest, args),
{
    lemma_same_place(f.blocks, g.blocks, dest);
    if has_block(f.blocks, dest) {
        lemma_block_pos(f.blocks, dest);
        let a = the_block(f.blocks, dest);
        let b = the_block(g.blocks, dest);
        assert(b.params == a.params && b.name == a.name);
        assert(branch_arg_msgs(g, name, b, args) =~= branch_arg_msgs(f, name, a, args));
    }
}

/// The same blocks are reached, and dominate each other, where entry, names and
/// targets are the same.
pub proof fn lemma_same_dominance(f: FuncView, g: FuncView)
    requires
        same_graph(f.blocks, g.blocks),
        g.entry == f.entry,
    ensures
        forall|b: BlockId| #[trigger] reachable(g, b) == reachable(f, b),
        forall|a: BlockId, b: BlockId| #[trigger] dominates(g, a, b) == dominates(f, a, b),
{
    assert forall|a: BlockId| #[trigger] succs(g.blocks, a) == succs(f.blocks, a) by {
        lemma_same_place(f.blocks, g.blocks, a);
        if has_block(f.blocks, a) {
            lemma_block_pos(f.blocks, a);
        }
    }
    assert forall|p: Seq<BlockId>| #[trigger] is_path(g.blocks, p) == is_path(f.blocks, p) by {
        if p.len() > 0 {
            assert forall|i: int| 0 <= i < p.len() - 1 implies succs(g.blocks, #[trigger] p[i])
                == succs(f.blocks, p[i]) by {}
        }
    }
    assert forall|b: BlockId| #[trigger] reachable(g, b) == reachable(f, b) by {
        if reachable(g, b) {
            let p = choose|p: Seq<BlockId>| #[trigger]
                is_path(g.blocks, p) && p[0] == g.entry && p.last() == b;
            assert(is_path(f.blocks, p));
        }
        if reachable(f, b) {
            let p = choose|p: Seq<BlockId>| #[trigger]
                is_path(f.blocks, p) && p[0] == f.entry && p.last() == b;
            assert(is_path(g.blocks, p));
        }
    }
    assert forall|a: BlockId, b: BlockId| #[trigger] edge(g.blocks, a, b) == edge(f.blocks, a, b) by {
        if edge(g.blocks, a, b) {
            let i = choose|i: int|
                0 <= i < g.blocks.len() && (#[trigger] g.blocks[i]).id == a && targets_of(
                    g.blocks[i],
                ).contains(b);
            assert(f.blocks[i].id == a && targets_of(f.blocks[i]).contains(b));
        }
        if edge(f.blocks, a, b) {
            let i = choose|i: int|
                0 <= i < f.blocks.len() && (#[trigger] f.blocks[i]).id == a && targets_of(
                    f.blocks[i],
                ).contains(b);
            assert(g.blocks[i].id == a && targets_of(g.blocks[i]).contains(b));
        }
    }
    assert forall|p: Seq<BlockId>| #[trigger] is_walk(g, p) == is_walk(f, p) by {
        if is_walk(g, p) {
            assert forall|i: int| 0 <= i < p.len() - 1 implies edge(
                f.blocks,
                #[trigger] p[i],
                p[i + 1],
            ) by {
                assert(edge(g.blocks, p[i], p[i + 1]));
            }
        }
        if is_walk(f, p) {
            assert forall|i: int| 0 <= i < p.len() - 1 implies edge(
                g.blocks,
                #[trigger] p[i],
                p[i + 1],
            ) by {
                assert(edge(f.blocks, p[i], p[i + 1]));
            }
        }
    }
    assert forall|a: BlockId, b: BlockId| #[trigger] dominates(g, a, b) == dominates(f, a, b) by {
        if dominates(g, a, b) {
            assert forall|p: Seq<BlockId>| #[trigger] is_walk(f, p) && p.last() == b implies p.contains(
                a,
            ) by {
                assert(is_walk(g, p));
            }
        }
        if dominates(f, a, b) {
            assert forall|p: Seq<BlockId>| #[trigger] is_walk(g, p) && p.last() == b implies p.contains(
                a,
            ) by {
                assert(is_walk(f, p));
            }
        }
    }
}

} // verus!
