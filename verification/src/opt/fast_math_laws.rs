//! Functions stay sound where sums are reassociated.

use crate::ir::cfg::{reachable, targets_of};
use crate::ir::dom::{dominates, lemma_dominates_antisym, lemma_dominates_trans};
use crate::ir::inst::{
    block_pos, defs, has_block, is_first_block, last_def, lemma_block_pos, lemma_last_def, type_of,
    BlockView, Def, FuncView, InstView, KindView, ModuleView, Op, ValueId,
};
use crate::ir::keep::{
    all_operands, has_operands, lemma_same_dominance, lemma_same_place, same_graph,
    value_names_used,
};
use crate::ir::sound::{
    all_defined, all_on_the_way, defined_on_the_way, sound_block, sound_function, sound_module,
    type_agrees, typed_block,
};
use crate::ir::types::{FloatWidth, IrType};
use crate::ir::verify::{consistency_msgs, float_op_msgs, is_defined, last_inst_pos, operand_msgs};
use crate::ir::walk::{lemma_renamed_uses, renamed, renamed_func, renamed_list, term_uses};
use crate::lexer::Span;
use crate::opt::clean_laws::lemma_last_pos;
use crate::opt::const_arg::{const_types, with_consts};
use crate::opt::dce::{block_reads, reads};
use crate::opt::fast_math::{
    block_plans, can_rewrite, defines_first, known, plans_upto, reassociated, same_upto, settled,
    settled_map, sum_at, verdict, with_const, with_plan, with_plans, with_sum, FastMathReassoc,
    Progress, RewritePlan, Verdict,
};
use crate::opt::floats::{FloatReply, FloatRequest};
use crate::opt::insts::{insts_of, last_inst, lemma_block_inst, lemma_last_inst};
use crate::opt::pass::Pass;
use crate::opt::prune_laws::{lemma_sound_unique, lemma_unique_def};
use crate::opt::rewire_laws::{
    at_hand, can_rename, lemma_fronted, lemma_inst_def, lemma_inst_place, lemma_renamed_sound,
    lemma_rewired, lemma_same_frames, lemma_without_unread, moved, next_consts, reads_at,
    same_frame, same_frames,
};
use crate::opt::share_laws::lemma_unique_insts;
use crate::opt::sound_laws::{all_entered, lemma_same_inst_pos};
use vstd::prelude::*;

verus! {

/// Is a function sound, and were the names of its values handed out by it?
spec fn ready(f: FuncView) -> bool {
    &&& has_block(f.blocks, f.entry)
    &&& sound_function(f)
    &&& all_operands(f)
    &&& value_names_used(f)
}

/// Is `v` no sum of this format?
spec fn no_sum(f: FuncView, v: ValueId, w: FloatWidth) -> bool {
    last_inst(insts_of(f), v) matches Some(i) ==> !(i.ty == IrType::Float(w) && (i.kind.op is FAdd
        || i.kind.op is FSub))
}

/// An instruction is the one that defines its value.
proof fn lemma_the_inst(f: FuncView, b: int, k: int)
    requires
        ready(f),
        0 <= b < f.blocks.len(),
        0 <= k < f.blocks[b].insts.len(),
    ensures
        last_inst(insts_of(f), f.blocks[b].insts[k].id) == Some(f.blocks[b].insts[k]),
        last_def(defs(f), f.blocks[b].insts[k].id) == Some(
            Def {
                id: f.blocks[b].insts[k].id,
                ty: f.blocks[b].insts[k].ty,
                block: f.blocks[b].id,
            },
        ),
        type_of(f, f.blocks[b].insts[k].id) == Some(f.blocks[b].insts[k].ty),
        last_inst_pos(f.blocks[b].insts, f.blocks[b].insts.len(), f.blocks[b].insts[k].id) == Some(k),
{
    let s = insts_of(f);
    let x = f.blocks[b].insts[k];
    let d = Def { id: x.id, ty: x.ty, block: f.blocks[b].id };
    lemma_block_inst(f.blocks, f.blocks.len(), b, k);
    lemma_last_inst(s, x.id);
    if last_inst(s, x.id) is None {
        assert(s[s.index_of(x)].id == x.id);
    }
    let (c, j) = lemma_inst_place(f, f.blocks.len(), last_inst(s, x.id)->0);
    lemma_unique_insts(f);
    assert(f.blocks[c].insts[j].id == f.blocks[b].insts[k].id);
    lemma_inst_def(f, b, k);
    lemma_sound_unique(f);
    lemma_unique_def(defs(f), d);
    assert(type_agrees(f, defs(f).index_of(d)));
    lemma_last_pos(f.blocks[b].insts, f.blocks[b].insts.len(), x.id);
    let p = last_inst_pos(f.blocks[b].insts, f.blocks[b].insts.len(), x.id);
    assert(f.blocks[b].insts[p->0].id == f.blocks[b].insts[k].id);
}

/// Where a value is at hand, so is what it is computed from.
proof fn lemma_operand_hand(f: FuncView, i: int, at: int, b: int, k: int, n: int)
    requires
        ready(f),
        0 <= i < f.blocks.len(),
        0 <= b < f.blocks.len(),
        0 <= k < f.blocks[b].insts.len(),
        0 <= n < f.blocks[b].insts[k].kind.args.len(),
        at_hand(f, i, f.blocks[b].insts[k].id, at),
    ensures
        at_hand(f, i, f.blocks[b].insts[k].kind.args[n], at),
        at_hand(f, b, f.blocks[b].insts[k].kind.args[n], k),
{
    let x = f.blocks[b].insts[k];
    let a = x.kind.args[n];
    lemma_the_inst(f, b, k);
    assert(sound_block(f, f.blocks[b]));
    assert(all_defined(f, f.blocks[b].insts[k].kind.args));
    assert(all_on_the_way(f, f.blocks[b], f.blocks[b].insts[k].kind.args, k));
    assert(is_defined(f, x.kind.args[n]));
    assert(defined_on_the_way(f, f.blocks[b], x.kind.args[n], k));
    lemma_last_def(defs(f), a);
    let d = last_def(defs(f), a)->0;
    let here = f.blocks[i].id;
    let there = f.blocks[b].id;
    if there == here {
        assert(is_first_block(f.blocks, f.blocks[b].id, b));
        assert(is_first_block(f.blocks, f.blocks[i].id, i));
        assert(b == i);
    } else {
        assert(dominates(f, there, here));
        if d.block != there {
            lemma_dominates_trans(f, d.block, there, here);
            if d.block == here {
                lemma_dominates_antisym(f, here, there);
            }
        }
    }
}

/// What a sum adds has the type of the sum.
proof fn lemma_operand_type(f: FuncView, b: int, k: int, w: FloatWidth)
    requires
        ready(f),
        0 <= b < f.blocks.len(),
        0 <= k < f.blocks[b].insts.len(),
        f.blocks[b].insts[k].ty == IrType::Float(w),
        f.blocks[b].insts[k].kind.op is FAdd || f.blocks[b].insts[k].kind.op is FSub,
    ensures
        f.blocks[b].insts[k].kind.args.len() >= 2,
        type_of(f, f.blocks[b].insts[k].kind.args[0]) == Some(IrType::Float(w)),
        type_of(f, f.blocks[b].insts[k].kind.args[1]) == Some(IrType::Float(w)),
{
    let x = f.blocks[b].insts[k];
    reveal(float_op_msgs);
    assert(has_operands(f.blocks[b].insts[k]));
    assert(sound_block(f, f.blocks[b]));
    assert(typed_block(f, f.blocks[b]));
    assert(consistency_msgs(f, f.blocks[b].insts[k]).len() == 0);
    assert(operand_msgs(f, x).len() == 0);
    assert(all_defined(f, f.blocks[b].insts[k].kind.args));
    assert(is_defined(f, x.kind.args[0]));
    assert(is_defined(f, x.kind.args[1]));
    lemma_has_type(f, x.kind.args[0]);
    lemma_has_type(f, x.kind.args[1]);
}

proof fn lemma_has_type(f: FuncView, v: ValueId)
    requires
        sound_function(f),
        is_defined(f, v),
    ensures
        type_of(f, v) is Some,
{
    lemma_sound_unique(f);
    lemma_last_def(defs(f), v);
    lemma_unique_def(defs(f), last_def(defs(f), v)->0);
}

/// The value of a sum is at hand where the sum is, has its type, and is no sum.
proof fn lemma_base<E: Fn(FloatRequest) -> FloatReply>(
    e: E,
    f: FuncView,
    v: ValueId,
    w: FloatWidth,
    fuel: nat,
    i: int,
    at: int,
)
    requires
        ready(f),
        0 <= i < f.blocks.len(),
        at_hand(f, i, v, at),
        type_of(f, v) == Some(IrType::Float(w)),
        sum_at(e, f, v, w, fuel) matches Some(s) && s.base is Some,
    ensures
        at_hand(f, i, sum_at(e, f, v, w, fuel)->0.base->0, at),
        type_of(f, sum_at(e, f, v, w, fuel)->0.base->0) == Some(IrType::Float(w)),
        no_sum(f, sum_at(e, f, v, w, fuel)->0.base->0, w),
    decreases fuel,
{
    let s = insts_of(f);
    lemma_last_inst(s, v);
    if let Some(x) = last_inst(s, v) {
        let (b, k) = lemma_inst_place(f, f.blocks.len(), x);
        if x.ty == IrType::Float(w) && (x.kind.op is FAdd || x.kind.op is FSub) {
            lemma_operand_type(f, b, k, w);
            lemma_operand_hand(f, i, at, b, k, 0);
            lemma_operand_hand(f, i, at, b, k, 1);
            let less = (fuel - 1) as nat;
            if sum_at(e, f, x.kind.args[0], w, less) matches Some(t) && t.base is Some {
                lemma_base(e, f, x.kind.args[0], w, less, i, at);
            }
            if sum_at(e, f, x.kind.args[1], w, less) matches Some(t) && t.base is Some {
                lemma_base(e, f, x.kind.args[1], w, less, i, at);
            }
        }
    }
}

/// What an instruction becomes.
spec fn is_rewrite(v: Verdict, base: ValueId) -> bool {
    match v {
        Verdict::Same(x) => x == base,
        Verdict::Plus(x, _, _) => x == base,
        Verdict::Keep => false,
    }
}

/// The value that an instruction is rewritten with is at hand where the
/// instruction stands and wherever its value is, has its type, and is no sum.
proof fn lemma_rewrite_base<E: Fn(FloatRequest) -> FloatReply>(
    e: E,
    f: FuncView,
    b: int,
    k: int,
    base: ValueId,
) -> (w: FloatWidth)
    requires
        ready(f),
        0 <= b < f.blocks.len(),
        0 <= k < f.blocks[b].insts.len(),
        is_rewrite(verdict(e, f, f.blocks[b].insts[k]), base),
    ensures
        f.blocks[b].insts[k].ty == IrType::Float(w),
        f.blocks[b].insts[k].kind.op is FAdd || f.blocks[b].insts[k].kind.op is FSub,
        verdict(e, f, f.blocks[b].insts[k]) matches Verdict::Plus(_, _, x) ==> x == w,
        at_hand(f, b, base, k),
        type_of(f, base) == Some(IrType::Float(w)),
        no_sum(f, base, w),
        forall|i: int, at: int|
            0 <= i < f.blocks.len() && #[trigger] at_hand(f, i, f.blocks[b].insts[k].id, at)
                ==> at_hand(f, i, base, at),
{
    reveal(verdict);
    let x = f.blocks[b].insts[k];
    let w = x.ty->Float_0;
    let fuel = insts_of(f).len() + 1;
    lemma_the_inst(f, b, k);
    lemma_operand_type(f, b, k, w);
    let less = (fuel - 1) as nat;
    let s = sum_at(e, f, x.id, w, fuel);
    assert(s is Some && s->0.base == Some(base));
    lemma_inst_def(f, b, k);
    assert(is_defined(f, x.id)) by {
        let d = Def { id: x.id, ty: x.ty, block: f.blocks[b].id };
        assert(defs(f)[defs(f).index_of(d)].id == x.id);
    }
    assert(at_hand(f, b, x.id, k + 1));
    lemma_operand_hand(f, b, k + 1, b, k, 0);
    lemma_operand_hand(f, b, k + 1, b, k, 1);
    if sum_at(e, f, x.kind.args[0], w, less) matches Some(t) && t.base is Some {
        lemma_base(e, f, x.kind.args[0], w, less, b, k);
    }
    if sum_at(e, f, x.kind.args[1], w, less) matches Some(t) && t.base is Some {
        lemma_base(e, f, x.kind.args[1], w, less, b, k);
    }
    assert forall|i: int, at: int|
        0 <= i < f.blocks.len() && #[trigger] at_hand(f, i, f.blocks[b].insts[k].id, at) implies at_hand(
        f,
        i,
        base,
        at,
    ) by {
        lemma_base(e, f, x.id, w, fuel, i, at);
    }
    w
}

/// Is a change that of instruction `k` of block `b`?
spec fn plan_of<E: Fn(FloatRequest) -> FloatReply>(
    e: E,
    f: FuncView,
    plan: RewritePlan,
    b: int,
    k: int,
) -> bool {
    &&& 0 <= b < f.blocks.len()
    &&& 0 <= k < f.blocks[b].insts.len()
    &&& plan.block == f.blocks[b].id
    &&& plan.inst == f.blocks[b].insts[k].id
    &&& verdict(e, f, f.blocks[b].insts[k]) == Verdict::Plus(plan.base, plan.constant, plan.width)
}

proof fn lemma_block_plan<E: Fn(FloatRequest) -> FloatReply>(e: E, f: FuncView, b: int, n: nat, x: int) -> (k: int)
    requires
        0 <= b < f.blocks.len(),
        n <= f.blocks[b].insts.len(),
        0 <= x < block_plans(e, f, f.blocks[b], n).len(),
    ensures
        plan_of(e, f, block_plans(e, f, f.blocks[b], n)[x], b, k),
    decreases n,
{
    let before = block_plans(e, f, f.blocks[b], (n - 1) as nat);
    if x < before.len() {
        assert(block_plans(e, f, f.blocks[b], n)[x] == before[x]);
        lemma_block_plan(e, f, b, (n - 1) as nat, x)
    } else {
        n - 1
    }
}

proof fn lemma_plan<E: Fn(FloatRequest) -> FloatReply>(e: E, f: FuncView, n: nat, x: int) -> (r: (int, int))
    requires
        n <= f.blocks.len(),
        0 <= x < plans_upto(e, f, n).len(),
    ensures
        plan_of(e, f, plans_upto(e, f, n)[x], r.0, r.1),
    decreases n,
{
    let before = plans_upto(e, f, (n - 1) as nat);
    if x < before.len() {
        assert(plans_upto(e, f, n)[x] == before[x]);
        lemma_plan(e, f, (n - 1) as nat, x)
    } else {
        let m = f.blocks[n - 1].insts.len();
        assert(plans_upto(e, f, n)[x] == block_plans(e, f, f.blocks[n - 1], m)[x - before.len()]);
        let k = lemma_block_plan(e, f, n - 1, m, x - before.len());
        (n - 1, k)
    }
}

/// By how much the instructions of block `i` have moved.
spec fn shift(f: FuncView, p: Progress, i: int) -> int {
    if i == block_pos(f.blocks, f.entry) {
        p.cache.len() as int
    } else {
        0
    }
}

/// Is what was at hand still at hand?
spec fn keeps_hand(f: FuncView, p: Progress) -> bool {
    forall|i: int, v: ValueId, at: int|
        0 <= i < f.blocks.len() && #[trigger] at_hand(f, i, v, at) ==> at_hand(
            p.f,
            i,
            v,
            at + shift(f, p, i),
        )
}

/// Are the values still defined, with their types?
spec fn keeps_values(f: FuncView, p: Progress) -> bool {
    forall|v: ValueId| #[trigger]
        is_defined(f, v) ==> is_defined(p.f, v) && type_of(p.f, v) == type_of(f, v)
}

/// Is `y` what `x` is, or the sum of a value and a new constant?
spec fn kept_or_sum<E: Fn(FloatRequest) -> FloatReply>(
    e: E,
    f: FuncView,
    x: InstView,
    y: InstView,
) -> bool {
    &&& y.id == x.id && y.ty == x.ty
    &&& y.kind.args == x.kind.args || (verdict(e, f, x) matches Verdict::Plus(base, _, _)
        && y.kind.args.len() == 2 && y.kind.args[0] == base && y.kind.args[1].0 >= f.next_value)
}

/// Has a block its instructions, changed or not, behind new constants?
spec fn shaped<E: Fn(FloatRequest) -> FloatReply>(e: E, f: FuncView, p: Progress, i: int) -> bool {
    let a = f.blocks[i];
    let b = p.f.blocks[i];
    let n = shift(f, p, i);
    &&& b.id == a.id && b.term == a.term
    &&& b.insts.len() == a.insts.len() + n
    &&& forall|j: int| 0 <= j < n ==> (#[trigger] b.insts[j]).kind.args.len() == 0
    &&& forall|j: int|
        n <= j < b.insts.len() ==> kept_or_sum(e, f, a.insts[j - n], #[trigger] b.insts[j])
}

/// Is a constant at hand wherever control comes, behind the new constants?
spec fn everywhere(f: FuncView, p: Progress, id: ValueId) -> bool {
    forall|i: int, at: int|
        0 <= i < f.blocks.len() && reachable(f, f.blocks[i].id) && shift(f, p, i) <= at
            ==> #[trigger] at_hand(p.f, i, id, at)
}

/// Is a constant that was put in front there, with its type?
spec fn cached(f: FuncView, p: Progress, k: int) -> bool {
    let (w, c, id) = p.cache[k];
    &&& id.0 >= f.next_value
    &&& is_defined(p.f, id)
    &&& type_of(p.f, id) == Some(IrType::Float(w))
    &&& everywhere(f, p, id)
}

/// Is a function that is being changed sound, and like the one before?
spec fn holds<E: Fn(FloatRequest) -> FloatReply>(e: E, f: FuncView, p: Progress) -> bool {
    &&& ready(p.f)
    &&& p.f.entry == f.entry
    &&& p.f.next_value == f.next_value + p.cache.len()
    &&& same_graph(f.blocks, p.f.blocks)
    &&& keeps_hand(f, p)
    &&& keeps_values(f, p)
    &&& forall|i: int| 0 <= i < f.blocks.len() ==> shaped(e, f, p, i) && (#[trigger] p.f.blocks[i]).id
        == f.blocks[i].id
    &&& forall|k: int| 0 <= k < p.cache.len() ==> #[trigger] cached(f, p, k)
}

proof fn lemma_start<E: Fn(FloatRequest) -> FloatReply>(e: E, f: FuncView)
    requires
        ready(f),
    ensures
        holds(e, f, Progress { f, cache: Seq::empty() }),
{
    let p = Progress { f, cache: Seq::empty() };
    assert(keeps_hand(f, p));
    assert forall|i: int| 0 <= i < f.blocks.len() implies shaped(e, f, p, i) && (
    #[trigger] p.f.blocks[i]).id == f.blocks[i].id by {}
}

proof fn lemma_known(cache: Seq<(FloatWidth, u64, ValueId)>, w: FloatWidth, c: u64)
    ensures
        known(cache, w, c) matches Some(id) ==> exists|k: int|
            0 <= k < cache.len() && #[trigger] cache[k] == (w, c, id),
    decreases cache.len(),
{
    if cache.len() > 0 {
        let rest = cache.drop_last();
        lemma_known(rest, w, c);
        let (x, d, id) = cache.last();
        if x == w && d == c {
            assert(cache[cache.len() - 1] == (w, c, id));
        } else if known(rest, w, c) is Some {
            let k = choose|k: int|
                0 <= k < rest.len() && #[trigger] rest[k] == (w, c, known(rest, w, c)->0);
            assert(cache[k] == rest[k]);
        }
    }
}

/// The constant that is put in front.
spec fn new_const(p: Progress, w: FloatWidth, c: u64, span: Span) -> InstView {
    InstView {
        id: ValueId(p.f.next_value),
        kind: KindView { op: Op::ConstFloat(c, w), args: Seq::empty() },
        ty: IrType::Float(w),
        span,
    }
}

/// Putting a constant in front is putting a list of one in front.
proof fn lemma_one_const(p: Progress, w: FloatWidth, c: u64, span: Span)
    requires
        known(p.cache, w, c) is None,
    ensures
        with_const(p, w, c, span).f == with_consts(p.f, seq![new_const(p, w, c, span)]),
        with_const(p, w, c, span).cache == p.cache.push((w, c, ValueId(p.f.next_value))),
{
    let d = new_const(p, w, c, span);
    let consts = seq![d];
    let at = block_pos(p.f.blocks, p.f.entry);
    assert(consts + p.f.blocks[at].insts =~= p.f.blocks[at].insts.insert(0, d));
    reveal_with_fuel(const_types, 3);
    assert(const_types(consts, 1, p.f.type_cache) == p.f.type_cache.insert(d.id, d.ty));
}

/// Putting a constant in front keeps what holds.
proof fn lemma_keeps_const<E: Fn(FloatRequest) -> FloatReply>(
    e: E,
    f: FuncView,
    p: Progress,
    w: FloatWidth,
    c: u64,
    span: Span,
)
    requires
        ready(f),
        holds(e, f, p),
        p.f.next_value < u32::MAX,
    ensures
        holds(e, f, with_const(p, w, c, span)),
        with_const(p, w, c, span).cache.len() <= p.cache.len() + 1,
        known(with_const(p, w, c, span).cache, w, c) is Some,
{
    if known(p.cache, w, c) is None {
        let q = with_const(p, w, c, span);
        let d = new_const(p, w, c, span);
        let consts = seq![d];
        lemma_one_const(p, w, c, span);
        assert(q.cache.drop_last() =~= p.cache);
        assert(consts[0] == d);
        assert(next_consts(p.f, consts));
        lemma_fronted(p.f, consts);
        lemma_same_place(f.blocks, p.f.blocks, f.entry);
        lemma_same_dominance(f, p.f);
        assert forall|i: int| 0 <= i < f.blocks.len() implies shift(f, q, i) == #[trigger] shift(
            f,
            p,
            i,
        ) + moved(p.f, consts, i) by {}
        assert(same_graph(f.blocks, q.f.blocks));
        assert forall|i: int, v: ValueId, at: int|
            0 <= i < f.blocks.len() && #[trigger] at_hand(f, i, v, at) implies at_hand(
            q.f,
            i,
            v,
            at + shift(f, q, i),
        ) by {
            assert(at_hand(p.f, i, v, at + shift(f, p, i)));
        }
        assert forall|i: int| 0 <= i < f.blocks.len() implies shaped(e, f, q, i) && (
        #[trigger] q.f.blocks[i]).id == f.blocks[i].id by {
            lemma_shaped_const(e, f, p, q, d, i);
        }
        assert forall|k: int| 0 <= k < q.cache.len() implies #[trigger] cached(f, q, k) by {
            lemma_cached_const(e, f, p, q, d, k);
        }
    }
}

proof fn lemma_shaped_const<E: Fn(FloatRequest) -> FloatReply>(
    e: E,
    f: FuncView,
    p: Progress,
    q: Progress,
    d: InstView,
    i: int,
)
    requires
        0 <= i < f.blocks.len(),
        p.f.blocks.len() == f.blocks.len(),
        shaped(e, f, p, i),
        d.kind.args.len() == 0,
        q.cache.len() == p.cache.len() + 1,
        q.f.blocks[i] == (BlockView {
            insts: if i == block_pos(f.blocks, f.entry) {
                seq![d] + p.f.blocks[i].insts
            } else {
                p.f.blocks[i].insts
            },
            ..p.f.blocks[i]
        }),
    ensures
        shaped(e, f, q, i),
{
    let a = f.blocks[i];
    let b = p.f.blocks[i];
    let c = q.f.blocks[i];
    let n = shift(f, p, i);
    let m = shift(f, q, i);
    assert forall|j: int| 0 <= j < m implies (#[trigger] c.insts[j]).kind.args.len() == 0 by {
        if j > 0 {
            assert(c.insts[j] == b.insts[j - 1]);
        }
    }
    assert forall|j: int| m <= j < c.insts.len() implies kept_or_sum(
        e,
        f,
        a.insts[j - m],
        #[trigger] c.insts[j],
    ) by {
        assert(c.insts[j] == b.insts[j - (m - n)]);
    }
}

proof fn lemma_cached_const<E: Fn(FloatRequest) -> FloatReply>(
    e: E,
    f: FuncView,
    p: Progress,
    q: Progress,
    d: InstView,
    k: int,
)
    requires
        holds(e, f, p),
        ready(f),
        p.f.next_value < u32::MAX,
        next_consts(p.f, seq![d]),
        d.ty is Float,
        q.f == with_consts(p.f, seq![d]),
        q.cache.len() == p.cache.len() + 1,
        q.cache[p.cache.len() as int].2 == d.id,
        d.ty == IrType::Float(q.cache[p.cache.len() as int].0),
        forall|x: int| 0 <= x < p.cache.len() ==> #[trigger] q.cache[x] == p.cache[x],
        0 <= k < q.cache.len(),
    ensures
        cached(f, q, k),
{
    let consts = seq![d];
    lemma_fronted(p.f, consts);
    lemma_same_place(f.blocks, p.f.blocks, f.entry);
    lemma_same_dominance(f, p.f);
    let id = q.cache[k].2;
    if k < p.cache.len() {
        assert(q.cache[k] == p.cache[k]);
        assert(cached(f, p, k));
        assert forall|i: int, at: int|
            0 <= i < f.blocks.len() && reachable(f, f.blocks[i].id) && shift(f, q, i)
                <= at implies #[trigger] at_hand(q.f, i, id, at) by {
            let m = moved(p.f, consts, i);
            assert(at_hand(p.f, i, id, at - m));
            assert(at_hand(q.f, i, id, at - m + m));
        }
    } else {
        assert(consts[0] == d);
        assert(is_defined(q.f, consts[0].id));
        assert forall|i: int, at: int|
            0 <= i < f.blocks.len() && reachable(f, f.blocks[i].id) && shift(f, q, i)
                <= at implies #[trigger] at_hand(q.f, i, id, at) by {
            assert(p.f.blocks[i].id == f.blocks[i].id);
            assert(at_hand(q.f, i, consts[0].id, at));
        }
    }
}

/// A function with one instruction changed.
spec fn changed_at(q: Progress, plan: RewritePlan, c: ValueId) -> Progress {
    let at = block_pos(q.f.blocks, plan.block);
    let b = q.f.blocks[at];
    Progress {
        f: FuncView {
            blocks: q.f.blocks.update(
                at,
                BlockView { insts: with_sum(b.insts, plan.inst, plan.base, c), ..b },
            ),
            ..q.f
        },
        cache: q.cache,
    }
}

/// A block stands where its name says.
proof fn lemma_own_pos(f: FuncView, b: int)
    requires
        sound_function(f),
        0 <= b < f.blocks.len(),
    ensures
        has_block(f.blocks, f.blocks[b].id),
        block_pos(f.blocks, f.blocks[b].id) == b,
{
    assert(has_block(f.blocks, f.blocks[b].id));
    lemma_block_pos(f.blocks, f.blocks[b].id);
    assert(is_first_block(f.blocks, f.blocks[b].id, b));
}

/// The instruction that is changed is the one that is meant.
proof fn lemma_changed_inst<E: Fn(FloatRequest) -> FloatReply>(
    e: E,
    f: FuncView,
    q: Progress,
    plan: RewritePlan,
    b: int,
    j: int,
    c: ValueId,
)
    requires
        ready(f),
        holds(e, f, q),
        plan_of(e, f, plan, b, j),
    ensures
        ({
            let x = q.f.blocks[b].insts;
            let k = j + shift(f, q, b);
            &&& 0 <= k < x.len()
            &&& x[k].id == plan.inst
            &&& x[k].ty == f.blocks[b].insts[j].ty
            &&& block_pos(q.f.blocks, plan.block) == b
            &&& with_sum(x, plan.inst, plan.base, c) == x.update(
                k,
                InstView {
                    kind: KindView { op: Op::FAdd, args: seq![plan.base, c] },
                    ..x[k]
                },
            )
        }),
{
    let x = q.f.blocks[b].insts;
    let n = shift(f, q, b);
    let k = j + n;
    assert(q.f.blocks[b].id == f.blocks[b].id);
    assert(shaped(e, f, q, b));
    assert(kept_or_sum(e, f, f.blocks[b].insts[k - n], x[k]));
    lemma_own_pos(q.f, b);
    lemma_unique_insts(q.f);
    assert(defines_first(x, plan.inst, k)) by {
        assert forall|i: int| 0 <= i < k implies (#[trigger] x[i]).id != plan.inst by {
            assert(q.f.blocks[b].insts[i].id != q.f.blocks[b].insts[k].id);
        }
    }
    let m = choose|m: int| defines_first(x, plan.inst, m);
    assert(defines_first(x, plan.inst, m));
    assert(q.f.blocks[b].insts[m].id == q.f.blocks[b].insts[k].id);
}

/// The sum of a value and a constant of its type that are at hand is sound.
proof fn lemma_sum_fits(f: FuncView, i: int, y: InstView, w: FloatWidth, at: int)
    requires
        at_hand(f, i, y.kind.args[0], at),
        at_hand(f, i, y.kind.args[1], at),
        y.ty == IrType::Float(w),
        y.kind.op == Op::FAdd,
        y.kind.args.len() == 2,
        type_of(f, y.kind.args[0]) == Some(IrType::Float(w)),
        type_of(f, y.kind.args[1]) == Some(IrType::Float(w)),
    ensures
        all_defined(f, y.kind.args),
        all_on_the_way(f, f.blocks[i], y.kind.args, at),
        consistency_msgs(f, y).len() == 0,
{
    reveal(float_op_msgs);
    let args = y.kind.args;
    assert forall|m: int| 0 <= m < args.len() implies is_defined(f, #[trigger] args[m])
        && defined_on_the_way(f, f.blocks[i], args[m], at) by {
        assert(m == 0 || m == 1);
    }
}

/// An instruction of a sound block reads what is at hand, and is consistent.
proof fn lemma_inst_fits(f: FuncView, i: int, x: int)
    requires
        sound_function(f),
        0 <= i < f.blocks.len(),
        0 <= x < f.blocks[i].insts.len(),
    ensures
        all_defined(f, f.blocks[i].insts[x].kind.args),
        all_on_the_way(f, f.blocks[i], f.blocks[i].insts[x].kind.args, x),
        consistency_msgs(f, f.blocks[i].insts[x]).len() == 0,
{
    assert(sound_block(f, f.blocks[i]));
    assert(typed_block(f, f.blocks[i]));
}

/// Changing an instruction keeps what is defined.
proof fn lemma_changed_frames<E: Fn(FloatRequest) -> FloatReply>(
    e: E,
    f: FuncView,
    q: Progress,
    plan: RewritePlan,
    b: int,
    j: int,
    c: ValueId,
)
    requires
        ready(f),
        holds(e, f, q),
        plan_of(e, f, plan, b, j),
    ensures
        same_frames(q.f, changed_at(q, plan, c).f),
{
    let g = changed_at(q, plan, c).f;
    lemma_changed_inst(e, f, q, plan, b, j, c);
    assert forall|i: int| 0 <= i < q.f.blocks.len() implies same_frame(
        q.f.blocks[i],
        #[trigger] g.blocks[i],
    ) by {}
}

/// What the changed instruction reads is at hand, with its type.
proof fn lemma_changed_hands<E: Fn(FloatRequest) -> FloatReply>(
    e: E,
    f: FuncView,
    q: Progress,
    plan: RewritePlan,
    b: int,
    j: int,
    k: int,
)
    requires
        ready(f),
        holds(e, f, q),
        plan_of(e, f, plan, b, j),
        reachable(f, f.blocks[b].id),
        0 <= k < q.cache.len(),
        q.cache[k].0 == plan.width,
    ensures
        at_hand(q.f, b, plan.base, j + shift(f, q, b)),
        at_hand(q.f, b, q.cache[k].2, j + shift(f, q, b)),
        type_of(q.f, plan.base) == Some(IrType::Float(plan.width)),
        type_of(q.f, q.cache[k].2) == Some(IrType::Float(plan.width)),
        f.blocks[b].insts[j].ty == IrType::Float(plan.width),
{
    let w = lemma_rewrite_base(e, f, b, j, plan.base);
    assert(at_hand(f, b, plan.base, j));
    assert(is_defined(f, plan.base));
    assert(cached(f, q, k));
    assert(shift(f, q, b) <= j + shift(f, q, b));
}

/// A block with one instruction made a sum of what is at hand is sound.
proof fn lemma_updated_block(f: FuncView, b: int, k: int, y: InstView, w: FloatWidth)
    requires
        sound_function(f),
        0 <= b < f.blocks.len(),
        0 <= k < f.blocks[b].insts.len(),
        y.id == f.blocks[b].insts[k].id,
        y.ty == IrType::Float(w),
        y.kind.op == Op::FAdd,
        y.kind.args.len() == 2,
        at_hand(f, b, y.kind.args[0], k),
        at_hand(f, b, y.kind.args[1], k),
        type_of(f, y.kind.args[0]) == Some(IrType::Float(w)),
        type_of(f, y.kind.args[1]) == Some(IrType::Float(w)),
    ensures
        ({
            let z = BlockView { insts: f.blocks[b].insts.update(k, y), ..f.blocks[b] };
            sound_block(f, z) && typed_block(f, z)
        }),
{
    let a = f.blocks[b];
    let z = BlockView { insts: a.insts.update(k, y), ..a };
    assert(sound_block(f, f.blocks[b]));
    assert(typed_block(f, f.blocks[b]));
    assert forall|x: int| 0 <= x < a.insts.len() implies (#[trigger] z.insts[x]).id
        == a.insts[x].id by {}
    assert forall|v: ValueId, x: int| #[trigger] defined_on_the_way(f, z, v, x)
        == defined_on_the_way(f, a, v, x) by {
        lemma_same_inst_pos(a.insts, z.insts, a.insts.len(), v);
    }
    assert forall|x: int| 0 <= x < z.insts.len() implies all_defined(
        f,
        (#[trigger] z.insts[x]).kind.args,
    ) && all_on_the_way(f, z, z.insts[x].kind.args, x) && consistency_msgs(f, z.insts[x]).len()
        == 0 by {
        if x == k {
            lemma_sum_fits(f, b, y, w, k);
            assert(all_on_the_way(f, a, y.kind.args, k));
        } else {
            assert(z.insts[x] == a.insts[x]);
            lemma_inst_fits(f, b, x);
            assert(all_on_the_way(f, a, a.insts[x].kind.args, x));
        }
    }
    assert(targets_of(z) == targets_of(a));
}

/// The changed block is sound.
proof fn lemma_changed_block<E: Fn(FloatRequest) -> FloatReply>(
    e: E,
    f: FuncView,
    q: Progress,
    plan: RewritePlan,
    b: int,
    j: int,
    k: int,
)
    requires
        ready(f),
        holds(e, f, q),
        plan_of(e, f, plan, b, j),
        reachable(f, f.blocks[b].id),
        0 <= k < q.cache.len(),
        q.cache[k].0 == plan.width,
    ensures
        sound_block(q.f, changed_at(q, plan, q.cache[k].2).f.blocks[b]),
        typed_block(q.f, changed_at(q, plan, q.cache[k].2).f.blocks[b]),
{
    let c = q.cache[k].2;
    let at = j + shift(f, q, b);
    let x = q.f.blocks[b].insts[at];
    let y = InstView { kind: KindView { op: Op::FAdd, args: seq![plan.base, c] }, ..x };
    lemma_changed_inst(e, f, q, plan, b, j, c);
    lemma_changed_hands(e, f, q, plan, b, j, k);
    assert(y.kind.args[0] == plan.base && y.kind.args[1] == c);
    lemma_updated_block(q.f, b, at, y, plan.width);
}

/// The changed function is sound.
proof fn lemma_changed_sound<E: Fn(FloatRequest) -> FloatReply>(
    e: E,
    f: FuncView,
    q: Progress,
    plan: RewritePlan,
    b: int,
    j: int,
    k: int,
)
    requires
        ready(f),
        holds(e, f, q),
        plan_of(e, f, plan, b, j),
        reachable(f, f.blocks[b].id),
        0 <= k < q.cache.len(),
        q.cache[k].0 == plan.width,
    ensures
        ready(changed_at(q, plan, q.cache[k].2).f),
        same_frames(q.f, changed_at(q, plan, q.cache[k].2).f),
{
    let c = q.cache[k].2;
    let g = changed_at(q, plan, c).f;
    lemma_changed_inst(e, f, q, plan, b, j, c);
    lemma_changed_frames(e, f, q, plan, b, j, c);
    lemma_changed_block(e, f, q, plan, b, j, k);
    assert forall|i: int| 0 <= i < q.f.blocks.len() implies sound_block(q.f, #[trigger] g.blocks[i])
        && typed_block(q.f, g.blocks[i]) by {
        if i != b {
            assert(g.blocks[i] == q.f.blocks[i]);
            assert(sound_block(q.f, q.f.blocks[i]));
            assert(typed_block(q.f, q.f.blocks[i]));
        }
    }
    lemma_rewired(q.f, g);
    lemma_same_frames(q.f, g);
    assert forall|i: int, x: int|
        0 <= i < g.blocks.len() && 0 <= x < g.blocks[i].insts.len() implies has_operands(
        #[trigger] g.blocks[i].insts[x],
    ) by {
        if i != b || x != j + shift(f, q, b) {
            assert(g.blocks[i].insts[x] == q.f.blocks[i].insts[x]);
            assert(has_operands(q.f.blocks[i].insts[x]));
        }
    }
}

/// What is at hand stays at hand where the definitions stay.
proof fn lemma_frames_hand(f: FuncView, q: Progress, p: Progress)
    requires
        same_frames(q.f, p.f),
        p.cache == q.cache,
        q.f.blocks.len() == f.blocks.len(),
        keeps_hand(f, q),
        keeps_values(f, q),
    ensures
        keeps_hand(f, p),
        keeps_values(f, p),
        forall|x: int| 0 <= x < q.cache.len() && cached(f, q, x) ==> #[trigger] cached(f, p, x),
{
    lemma_same_frames(q.f, p.f);
    assert forall|i: int, v: ValueId, at: int|
        0 <= i < f.blocks.len() implies #[trigger] at_hand(p.f, i, v, at) == at_hand(
        q.f,
        i,
        v,
        at,
    ) by {
        assert(defined_on_the_way(p.f, p.f.blocks[i], v, at) == defined_on_the_way(
            q.f,
            q.f.blocks[i],
            v,
            at,
        ));
    }
    assert forall|i: int, v: ValueId, at: int|
        0 <= i < f.blocks.len() && #[trigger] at_hand(f, i, v, at) implies at_hand(
        p.f,
        i,
        v,
        at + shift(f, p, i),
    ) by {
        assert(at_hand(q.f, i, v, at + shift(f, q, i)));
    }
    assert forall|x: int| 0 <= x < q.cache.len() && cached(f, q, x) implies #[trigger] cached(
        f,
        p,
        x,
    ) by {
        let id = q.cache[x].2;
        assert forall|i: int, at: int|
            0 <= i < f.blocks.len() && reachable(f, f.blocks[i].id) && shift(f, p, i)
                <= at implies #[trigger] at_hand(p.f, i, id, at) by {
            assert(at_hand(q.f, i, id, at));
        }
    }
}

/// Changing an instruction keeps what holds.
proof fn lemma_keeps_sum<E: Fn(FloatRequest) -> FloatReply>(
    e: E,
    f: FuncView,
    q: Progress,
    plan: RewritePlan,
    b: int,
    j: int,
    k: int,
)
    requires
        ready(f),
        holds(e, f, q),
        plan_of(e, f, plan, b, j),
        reachable(f, f.blocks[b].id),
        0 <= k < q.cache.len(),
        q.cache[k].0 == plan.width,
    ensures
        holds(e, f, changed_at(q, plan, q.cache[k].2)),
{
    let c = q.cache[k].2;
    let p = changed_at(q, plan, c);
    lemma_changed_sound(e, f, q, plan, b, j, k);
    lemma_frames_hand(f, q, p);
    assert(cached(f, q, k));
    assert(same_graph(f.blocks, p.f.blocks)) by {
        assert forall|i: int| 0 <= i < f.blocks.len() implies (#[trigger] p.f.blocks[i]).id
            == f.blocks[i].id && targets_of(p.f.blocks[i]) == targets_of(f.blocks[i]) by {
            assert(same_frame(q.f.blocks[i], p.f.blocks[i]));
            assert(q.f.blocks[i].id == f.blocks[i].id);
        }
    }
    assert forall|i: int| 0 <= i < f.blocks.len() implies shaped(e, f, p, i) && (
    #[trigger] p.f.blocks[i]).id == f.blocks[i].id by {
        assert(q.f.blocks[i].id == f.blocks[i].id);
        assert(shaped(e, f, q, i));
        if i == b {
            lemma_shaped_sum(e, f, q, plan, b, j, c);
        } else {
            lemma_changed_inst(e, f, q, plan, b, j, c);
        }
    }
    assert forall|x: int| 0 <= x < p.cache.len() implies #[trigger] cached(f, p, x) by {
        assert(cached(f, q, x));
    }
}

proof fn lemma_shaped_sum<E: Fn(FloatRequest) -> FloatReply>(
    e: E,
    f: FuncView,
    q: Progress,
    plan: RewritePlan,
    b: int,
    j: int,
    c: ValueId,
)
    requires
        ready(f),
        holds(e, f, q),
        plan_of(e, f, plan, b, j),
        c.0 >= f.next_value,
    ensures
        shaped(e, f, changed_at(q, plan, c), b),
{
    let p = changed_at(q, plan, c);
    let a = f.blocks[b];
    let x = q.f.blocks[b];
    let y = p.f.blocks[b];
    let n = shift(f, q, b);
    lemma_changed_inst(e, f, q, plan, b, j, c);
    assert(q.f.blocks[b].id == f.blocks[b].id);
    assert(shaped(e, f, q, b));
    assert forall|i: int| 0 <= i < n implies (#[trigger] y.insts[i]).kind.args.len() == 0 by {
        assert(y.insts[i] == x.insts[i]);
    }
    assert forall|i: int| n <= i < y.insts.len() implies kept_or_sum(
        e,
        f,
        a.insts[i - n],
        #[trigger] y.insts[i],
    ) by {
        assert(kept_or_sum(e, f, a.insts[i - n], x.insts[i]));
        if i == j + n {
            assert(y.insts[i].kind.args == seq![plan.base, c]);
        }
    }
}

/// Are the sums that change in blocks to which control comes?
pub open spec fn sums_are_reached<E: Fn(FloatRequest) -> FloatReply>(e: E, f: FuncView) -> bool {
    forall|b: int, k: int|
        0 <= b < f.blocks.len() && 0 <= k < f.blocks[b].insts.len() && verdict(
            e,
            f,
            #[trigger] f.blocks[b].insts[k],
        ) is Plus ==> reachable(f, f.blocks[b].id)
}

/// After any number of changes the function is sound.
proof fn lemma_changes<E: Fn(FloatRequest) -> FloatReply>(e: E, f: FuncView, n: nat)
    requires
        ready(f),
        sums_are_reached(e, f),
        n <= plans_upto(e, f, f.blocks.len()).len(),
        f.next_value + n < u32::MAX,
    ensures
        holds(e, f, with_plans(f, plans_upto(e, f, f.blocks.len()), n)),
        with_plans(f, plans_upto(e, f, f.blocks.len()), n).cache.len() <= n,
    decreases n,
{
    let plans = plans_upto(e, f, f.blocks.len());
    if n == 0 {
        lemma_start(e, f);
    } else {
        lemma_changes(e, f, (n - 1) as nat);
        let p = with_plans(f, plans, (n - 1) as nat);
        let plan = plans[n - 1];
        let (b, j) = lemma_plan(e, f, f.blocks.len(), n - 1);
        assert(verdict(e, f, f.blocks[b].insts[j]) is Plus);
        lemma_keeps_const(e, f, p, plan.width, plan.constant, plan.span);
        let q = with_const(p, plan.width, plan.constant, plan.span);
        let c = known(q.cache, plan.width, plan.constant)->0;
        lemma_known(q.cache, plan.width, plan.constant);
        let k = choose|k: int|
            0 <= k < q.cache.len() && #[trigger] q.cache[k] == (plan.width, plan.constant, c);
        lemma_keeps_sum(e, f, q, plan, b, j, k);
        assert(with_plans(f, plans, n) == with_plan(p, plan));
        assert(with_plan(p, plan) == changed_at(q, plan, c));
    }
}

/// What is the same as another value is a sum that is dropped.
proof fn lemma_same_key<E: Fn(FloatRequest) -> FloatReply>(e: E, f: FuncView, n: nat, v: ValueId)
    requires
        n <= insts_of(f).len(),
        same_upto(e, f, insts_of(f), n).contains_key(v),
    ensures
        exists|x: int|
            0 <= x < n && (#[trigger] insts_of(f)[x]).id == v && verdict(e, f, insts_of(f)[x])
                == Verdict::Same(same_upto(e, f, insts_of(f), n)[v]),
    decreases n,
{
    if n > 0 {
        let x = insts_of(f)[n - 1];
        if verdict(e, f, x) is Same && x.id == v {
        } else {
            lemma_same_key(e, f, (n - 1) as nat, v);
        }
    }
}

/// The values that are the same as another.
spec fn same_as<E: Fn(FloatRequest) -> FloatReply>(e: E, f: FuncView) -> Map<ValueId, ValueId> {
    same_upto(e, f, insts_of(f), insts_of(f).len())
}

proof fn lemma_same_place_of<E: Fn(FloatRequest) -> FloatReply>(e: E, f: FuncView, v: ValueId) -> (r: (
    int,
    int,
))
    requires
        same_as(e, f).contains_key(v),
    ensures
        0 <= r.0 < f.blocks.len(),
        0 <= r.1 < f.blocks[r.0].insts.len(),
        f.blocks[r.0].insts[r.1].id == v,
        verdict(e, f, f.blocks[r.0].insts[r.1]) == Verdict::Same(same_as(e, f)[v]),
{
    let s = insts_of(f);
    lemma_same_key(e, f, s.len(), v);
    let x = choose|x: int|
        0 <= x < s.len() && (#[trigger] s[x]).id == v && verdict(e, f, s[x]) == Verdict::Same(
            same_as(e, f)[v],
        );
    assert(s.contains(s[x]));
    lemma_inst_place(f, f.blocks.len(), s[x])
}

/// What is no sum of its type is not the same as another value.
proof fn lemma_base_stays<E: Fn(FloatRequest) -> FloatReply>(e: E, f: FuncView, v: ValueId, w: FloatWidth)
    requires
        ready(f),
        no_sum(f, v, w),
        type_of(f, v) == Some(IrType::Float(w)),
    ensures
        !same_as(e, f).contains_key(v),
{
    if same_as(e, f).contains_key(v) {
        let (b, k) = lemma_same_place_of(e, f, v);
        lemma_the_inst(f, b, k);
        let x = lemma_rewrite_base(e, f, b, k, same_as(e, f)[v]);
    }
}

/// Following what is the same ends after one step.
proof fn lemma_settles<E: Fn(FloatRequest) -> FloatReply>(e: E, f: FuncView, v: ValueId)
    requires
        ready(f),
        same_as(e, f).contains_key(v),
    ensures
        settled_map(same_as(e, f)).contains_key(v),
        settled_map(same_as(e, f))[v] == same_as(e, f)[v],
        !same_as(e, f).contains_key(same_as(e, f)[v]),
{
    let m = same_as(e, f);
    let (b, k) = lemma_same_place_of(e, f, v);
    let w = lemma_rewrite_base(e, f, b, k, m[v]);
    lemma_base_stays(e, f, m[v], w);
    assert(settled(m, m[v], m.dom().len() + 1) == m[v]);
}

/// Where a value is read that is the same as another, it was read before.
proof fn lemma_read_before<E: Fn(FloatRequest) -> FloatReply>(
    e: E,
    f: FuncView,
    p: Progress,
    i: int,
    v: ValueId,
    at: int,
)
    requires
        ready(f),
        holds(e, f, p),
        0 <= i < f.blocks.len(),
        same_as(e, f).contains_key(v),
        reads_at(p.f.blocks[i], v, at),
    ensures
        at_hand(f, i, v, at - shift(f, p, i)),
{
    let a = f.blocks[i];
    let g = p.f.blocks[i];
    let n = shift(f, p, i);
    let (b, k) = lemma_same_place_of(e, f, v);
    lemma_the_inst(f, b, k);
    lemma_inst_def(f, b, k);
    let d = Def { id: v, ty: f.blocks[b].insts[k].ty, block: f.blocks[b].id };
    assert(defs(f)[defs(f).index_of(d)].id.0 < f.next_value);
    assert(p.f.blocks[i].id == f.blocks[i].id);
    assert(shaped(e, f, p, i));
    assert(sound_block(f, f.blocks[i]));
    if 0 <= at < g.insts.len() && g.insts[at].kind.args.contains(v) {
        let now = g.insts[at].kind.args;
        if at < n {
            assert(now.len() == 0);
        } else {
            let x = a.insts[at - n];
            assert(kept_or_sum(e, f, a.insts[at - n], g.insts[at]));
            if now == x.kind.args {
                let m = now.index_of(v);
                assert(all_defined(f, a.insts[at - n].kind.args));
                assert(all_on_the_way(f, a, a.insts[at - n].kind.args, at - n));
                assert(is_defined(f, x.kind.args[m]));
                assert(defined_on_the_way(f, a, x.kind.args[m], at - n));
            } else {
                let base = verdict(e, f, x)->Plus_0;
                let w = lemma_rewrite_base(e, f, i, at - n, base);
                lemma_base_stays(e, f, base, w);
                let m = now.index_of(v);
                assert(m == 0 || m == 1);
            }
        }
    } else {
        let uses = term_uses(a.term->0);
        let m = uses.index_of(v);
        assert(is_defined(f, uses[m]));
        assert(defined_on_the_way(f, a, uses[m], a.insts.len() as int));
    }
}

/// What is the same as another value can be read in its place.
proof fn lemma_can_share<E: Fn(FloatRequest) -> FloatReply>(e: E, f: FuncView, p: Progress)
    requires
        ready(f),
        holds(e, f, p),
    ensures
        can_rename(p.f, settled_map(same_as(e, f))),
{
    let m = settled_map(same_as(e, f));
    let g = p.f;
    assert forall|i: int, v: ValueId, at: int|
        0 <= i < g.blocks.len() && m.contains_key(v) && block_reads(g.blocks[i], v) && reads_at(
            g.blocks[i],
            v,
            at,
        ) && #[trigger] at_hand(g, i, v, at) implies at_hand(g, i, m[v], at) && type_of(g, m[v])
        == type_of(g, v) by {
        lemma_settles(e, f, v);
        let base = same_as(e, f)[v];
        let (b, k) = lemma_same_place_of(e, f, v);
        lemma_the_inst(f, b, k);
        let w = lemma_rewrite_base(e, f, b, k, base);
        let n = shift(f, p, i);
        lemma_read_before(e, f, p, i, v, at);
        assert(at_hand(f, i, f.blocks[b].insts[k].id, at - n));
        assert(at_hand(f, i, base, at - n));
        assert(at_hand(g, i, base, at - n + shift(f, p, i)));
        assert(is_defined(f, v));
        assert(is_defined(f, base));
    }
}

/// A value that is the same as another is read no more.
proof fn lemma_shared_unread<E: Fn(FloatRequest) -> FloatReply>(e: E, f: FuncView, g: FuncView, v: ValueId)
    requires
        ready(f),
        same_as(e, f).contains_key(v),
    ensures
        !reads(renamed_func(g, settled_map(same_as(e, f))), v),
{
    let m = settled_map(same_as(e, f));
    let r = renamed_func(g, m);
    assert forall|u: ValueId| #[trigger] renamed(u, m) != v by {
        if m.contains_key(u) {
            lemma_settles(e, f, u);
        }
        lemma_settles(e, f, v);
    }
    if reads(r, v) {
        let b = choose|b: int| 0 <= b < r.blocks.len() && block_reads(#[trigger] r.blocks[b], v);
        let x = g.blocks[b];
        let y = r.blocks[b];
        if exists|k: int| 0 <= k < y.insts.len() && (#[trigger] y.insts[k]).kind.args.contains(v) {
            let k = choose|k: int| 0 <= k < y.insts.len() && (#[trigger] y.insts[k]).kind.args.contains(v);
            let n = y.insts[k].kind.args.index_of(v);
            assert(y.insts[k].kind.args == renamed_list(x.insts[k].kind.args, m));
            assert(renamed(x.insts[k].kind.args[n], m) == v);
        } else {
            let t = x.term->0;
            lemma_renamed_uses(t, m);
            let n = term_uses(y.term->0).index_of(v);
            assert(renamed(term_uses(t)[n], m) == v);
        }
    }
}

/// A function whose sums are reassociated stays sound.
proof fn lemma_reassociated_sound<E: Fn(FloatRequest) -> FloatReply>(e: E, f: FuncView)
    requires
        ready(f),
        can_rewrite(e, f),
        sums_are_reached(e, f),
    ensures
        sound_function(reassociated(e, f)),
{
    let plans = plans_upto(e, f, f.blocks.len());
    let same = same_as(e, f);
    if plans.len() == 0 {
        lemma_start(e, f);
    } else {
        lemma_changes(e, f, plans.len());
    }
    let p = with_plans(f, plans, plans.len());
    if same != Map::<ValueId, ValueId>::empty() {
        let m = settled_map(same);
        let r = renamed_func(p.f, m);
        lemma_can_share(e, f, p);
        lemma_renamed_sound(p.f, m);
        lemma_same_frames(p.f, r);
        lemma_same_place(p.f.blocks, r.blocks, p.f.entry);
        assert forall|v: ValueId| #[trigger] same.dom().contains(v) implies !reads(r, v) by {
            lemma_shared_unread(e, f, p.f, v);
        }
        lemma_without_unread(r, same.dom());
    }
}

/// Reassociating sums keeps a sound module sound where control comes to the
/// blocks in which sums become the sum of a value and a constant.
pub proof fn reassociating_keeps_soundness<E: Fn(FloatRequest) -> FloatReply>(
    pass: FastMathReassoc<E>,
    before: ModuleView,
    after: ModuleView,
    changed: bool,
)
    requires
        pass.accepts(before),
        pass.outcome(before, after, changed),
        sound_module(before),
        all_entered(before),
        forall|i: int|
            0 <= i < before.functions.len() ==> all_operands(#[trigger] before.functions[i])
                && value_names_used(before.functions[i]) && sums_are_reached(
                pass.floats,
                before.functions[i],
            ),
    ensures
        sound_module(after),
{
    assert forall|i: int| 0 <= i < after.functions.len() implies sound_function(
        #[trigger] after.functions[i],
    ) by {
        assert(sound_function(before.functions[i]));
        assert(can_rewrite(pass.floats, before.functions[i]));
        assert(all_operands(before.functions[i]));
        lemma_reassociated_sound(pass.floats, before.functions[i]);
    }
}

} // verus!
