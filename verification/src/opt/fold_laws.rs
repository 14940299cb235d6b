//! What constant folding keeps and where it ends.

use crate::ir::inst::{BlockView, FuncView, InstView, ModuleView, Op, ValueId};
use crate::ir::types::{IntWidth, IrType};
use crate::opt::const_fold::{
    anything_folds, as_const, const_of, fold_of, folded_func, folded_module, rounding_unsure, folded_int, folds, int_result, is_call, is_const_op, known_in,
    known_upto, learnt, lemma_fold_is_const, lemma_swept, lemma_swept_blocks, settled, swept, swept_blocks, undivided,
    unfolded_blocks, Const, IntBin,
};
use crate::opt::floats::{FloatReply, FloatRequest};
use crate::opt::fpenv::{
    call_chain, calls_indirect, calls_internal, holds_op, may_call, may_change_rounding, may_enter,
    may_run,
};
use crate::opt::insts::{insts_of, insts_upto};
use crate::opt::ints::{
    largest, low_bits, sign_extension_is_canonical, sign_extension_keeps_bits, smallest,
};
use vstd::prelude::*;

verus! {

/// Is `j` the instruction `i`, or a constant in place of it? A constant or a call
/// stays.
pub open spec fn same_or_const(i: InstView, j: InstView) -> bool {
    j == i || (j == as_const(i, j.kind.op) && is_const_op(j.kind.op) && !is_const_op(i.kind.op)
        && !is_call(i.kind.op))
}

/// Are these the same instructions, but for constants in place of some?
pub open spec fn same_insts(s: Seq<InstView>, t: Seq<InstView>) -> bool {
    &&& s.len() == t.len()
    &&& forall|k: int| 0 <= k < s.len() ==> same_or_const(s[k], #[trigger] t[k])
}

/// Are these the same blocks, but for constants in place of instructions?
pub open spec fn same_blocks(s: Seq<BlockView>, t: Seq<BlockView>) -> bool {
    &&& s.len() == t.len()
    &&& forall|b: int|
        0 <= b < s.len() ==> #[trigger] t[b] == (BlockView { insts: t[b].insts, ..s[b] })
            && same_insts(s[b].insts, t[b].insts)
}

proof fn lemma_swept_shape<E: Fn(FloatRequest) -> FloatReply>(
    e: E,
    s: Seq<InstView>,
    n: nat,
    consts: Map<ValueId, Const>,
    held: bool,
)
    requires
        n <= s.len(),
    ensures
        same_insts(s.take(n as int), swept(e, s, n, consts, held).0),
    decreases n,
{
    if n > 0 {
        lemma_swept_shape(e, s, (n - 1) as nat, consts, held);
        let before = swept(e, s, (n - 1) as nat, consts, held).0;
        let after = swept(e, s, n, consts, held).0;
        let known = swept(e, s, (n - 1) as nat, consts, held).1;
        lemma_fold_is_const(e, s[n - 1], known, held);
        assert forall|k: int| 0 <= k < n implies same_or_const(s.take(n as int)[k], #[trigger] after[k]) by {
            if k < n - 1 {
                assert(after[k] == before[k]);
                assert(s.take(n - 1)[k] == s[k]);
            }
        }
    }
}

proof fn lemma_blocks_shape<E: Fn(FloatRequest) -> FloatReply>(
    e: E,
    blocks: Seq<BlockView>,
    n: nat,
    consts: Map<ValueId, Const>,
    held: bool,
)
    requires
        n <= blocks.len(),
    ensures
        same_blocks(blocks.take(n as int), swept_blocks(e, blocks, n, consts, held).0),
    decreases n,
{
    if n > 0 {
        lemma_blocks_shape(e, blocks, (n - 1) as nat, consts, held);
        let (before, c, changed) = swept_blocks(e, blocks, (n - 1) as nat, consts, held);
        let after = swept_blocks(e, blocks, n, consts, held).0;
        let b = blocks[n - 1];
        lemma_swept_shape(e, b.insts, b.insts.len(), c, held);
        assert(b.insts.take(b.insts.len() as int) =~= b.insts);
        assert forall|k: int| 0 <= k < n implies #[trigger] after[k] == (BlockView {
            insts: after[k].insts,
            ..blocks[k]
        }) && same_insts(blocks[k].insts, after[k].insts) by {
            if k < n - 1 {
                assert(after[k] == before[k]);
                assert(blocks.take(n - 1)[k] == blocks[k]);
            }
        }
    }
}

proof fn lemma_settled_shape<E: Fn(FloatRequest) -> FloatReply>(
    e: E,
    blocks: Seq<BlockView>,
    consts: Map<ValueId, Const>,
    held: bool,
)
    ensures
        same_blocks(blocks, settled(e, blocks, consts, held)),
    decreases unfolded_blocks(blocks),
{
    lemma_swept_blocks(e, blocks, blocks.len(), consts, held);
    assert(blocks.take(blocks.len() as int) =~= blocks);
    let (next, c, changed) = swept_blocks(e, blocks, blocks.len(), consts, held);
    if changed {
        lemma_blocks_shape(e, blocks, blocks.len(), consts, held);
        lemma_settled_shape(e, next, c, held);
        let last = settled(e, next, c, held);
        assert forall|b: int| 0 <= b < blocks.len() implies #[trigger] last[b] == (BlockView {
            insts: last[b].insts,
            ..blocks[b]
        }) && same_insts(blocks[b].insts, last[b].insts) by {
            assert(next[b] == (BlockView { insts: next[b].insts, ..blocks[b] }));
            assert(same_insts(next[b].insts, last[b].insts));
            assert forall|k: int| 0 <= k < blocks[b].insts.len() implies same_or_const(
                blocks[b].insts[k],
                #[trigger] last[b].insts[k],
            ) by {
                assert(same_or_const(blocks[b].insts[k], next[b].insts[k]));
            }
        }
    }
}

/// Folding changes only what instructions do, and only to constants: blocks,
/// parameters, terminators, and the values, types and places of instructions
/// stay.
pub proof fn folding_keeps_shape<E: Fn(FloatRequest) -> FloatReply>(e: E, f: FuncView, held: bool)
    ensures
        folded_func(e, f, held) == (FuncView { blocks: folded_func(e, f, held).blocks, ..f }),
        same_blocks(f.blocks, folded_func(e, f, held).blocks),
{
    lemma_settled_shape(e, f.blocks, known_in(e, f), held);
}

/// A folded integer is one of its width, and has the low bits of the result.
pub proof fn folded_integers_wrap(op: IntBin, x: i128, v: IntWidth, y: i128, u: IntWidth, w: IntWidth)
    ensures
        folded_int(op, Some(Const::Int(x, v)), Some(Const::Int(y, u)), IrType::Int(w)) matches Some(
            r,
        ) ==> (r matches Op::ConstInt(z, q) && q == w && smallest(w) <= z <= largest(w)
            && int_result(op, x, y, w) is Some && low_bits(z, w) == low_bits(
            int_result(op, x, y, w)->0,
            w,
        )),
{
    reveal(folded_int);
    if let Some(n) = int_result(op, x, y, w) {
        sign_extension_is_canonical(n, w);
        sign_extension_keeps_bits(n, w);
    }
}

/// A division that has no result of its width is not folded.
pub proof fn impossible_division_stays(
    x: i128,
    v: IntWidth,
    y: i128,
    u: IntWidth,
    w: IntWidth,
)
    requires
        undivided(x, y, w),
    ensures
        folded_int(IntBin::Div, Some(Const::Int(x, v)), Some(Const::Int(y, u)), IrType::Int(w))
            is None,
        folded_int(IntBin::Mod, Some(Const::Int(x, v)), Some(Const::Int(y, u)), IrType::Int(w))
            is None,
{
    reveal(folded_int);
}

/// What the constants among the instructions make known.
spec fn known_of<E: Fn(FloatRequest) -> FloatReply>(e: E, s: Seq<InstView>) -> Map<ValueId, Const> {
    known_upto(e, s, s.len())
}

/// What a constant defines is known.
proof fn lemma_const_known<E: Fn(FloatRequest) -> FloatReply>(
    e: E,
    s: Seq<InstView>,
    n: nat,
    k: int,
)
    requires
        0 <= k < n <= s.len(),
        const_of(e, s[k].kind.op) is Some,
    ensures
        known_upto(e, s, n).contains_key(s[k].id),
    decreases n,
{
    if k < n - 1 {
        lemma_const_known(e, s, (n - 1) as nat, k);
    }
}

/// Putting a constant for an instruction whose value was not known makes that
/// known, and nothing else.
proof fn lemma_fold_known<E: Fn(FloatRequest) -> FloatReply>(
    e: E,
    s: Seq<InstView>,
    k: int,
    op: Op,
    n: nat,
)
    requires
        0 <= k < s.len(),
        n <= s.len(),
        !known_of(e, s).contains_key(s[k].id),
    ensures
        n <= k ==> known_upto(e, s.update(k, as_const(s[k], op)), n) == known_upto(e, s, n),
        n > k ==> known_upto(e, s.update(k, as_const(s[k], op)), n) == learnt(
            e,
            known_upto(e, s, n),
            s[k].id,
            op,
        ),
    decreases n,
{
    let t = s.update(k, as_const(s[k], op));
    if n > 0 {
        lemma_fold_known(e, s, k, op, (n - 1) as nat);
        let j = n - 1;
        if const_of(e, s[j].kind.op) is Some {
            lemma_const_known(e, s, s.len(), j);
            assert(s[j].id != s[k].id);
        }
        assert(known_upto(e, t, n) =~= if n > k {
            learnt(e, known_upto(e, s, n), s[k].id, op)
        } else {
            known_upto(e, s, n)
        });
    }
}

proof fn lemma_swept_known<E: Fn(FloatRequest) -> FloatReply>(
    e: E,
    pre: Seq<InstView>,
    s: Seq<InstView>,
    post: Seq<InstView>,
    n: nat,
    consts: Map<ValueId, Const>,
    held: bool,
)
    requires
        n <= s.len(),
        known_of(e, pre + s + post) == consts,
    ensures
        known_of(e, pre + swept(e, s, n, consts, held).0 + s.skip(n as int) + post) == swept(
            e,
            s,
            n,
            consts,
            held,
        ).1,
    decreases n,
{
    if n == 0 {
        assert(pre + Seq::<InstView>::empty() + s.skip(0) + post =~= pre + s + post);
    } else {
        lemma_swept_known(e, pre, s, post, (n - 1) as nat, consts, held);
        lemma_swept(e, s, (n - 1) as nat, consts, held);
        let (done, c, changed) = swept(e, s, (n - 1) as nat, consts, held);
        let i = s[n - 1];
        let whole = pre + done + s.skip(n - 1) + post;
        let k = (pre.len() + n - 1) as int;
        assert(s.skip(n - 1) =~= seq![i] + s.skip(n as int));
        assert(whole[k] == i);
        match fold_of(e, i, c, held) {
            Some(op) => {
                lemma_fold_known(e, whole, k, op, whole.len());
                let next = whole.update(k, as_const(i, op));
                assert(next =~= pre + done.push(as_const(i, op)) + s.skip(n as int) + post);
            },
            None => {
                assert(whole =~= pre + done.push(i) + s.skip(n as int) + post);
            },
        }
    }
}

spec fn flat(blocks: Seq<BlockView>) -> Seq<InstView> {
    insts_upto(blocks, blocks.len())
}

proof fn lemma_flat_push(blocks: Seq<BlockView>, b: BlockView)
    ensures
        flat(blocks.push(b)) == flat(blocks) + b.insts,
{
    lemma_upto_push(blocks, b, blocks.len());
    assert(insts_upto(blocks.push(b), blocks.len() + 1) == insts_upto(blocks.push(b), blocks.len())
        + b.insts);
}

proof fn lemma_upto_push(blocks: Seq<BlockView>, b: BlockView, n: nat)
    requires
        n <= blocks.len(),
    ensures
        insts_upto(blocks.push(b), n) == insts_upto(blocks, n),
    decreases n,
{
    if n > 0 {
        lemma_upto_push(blocks, b, (n - 1) as nat);
    }
}

proof fn lemma_flat_first(blocks: Seq<BlockView>)
    requires
        blocks.len() > 0,
    ensures
        flat(blocks) == blocks[0].insts + flat(blocks.skip(1)),
    decreases blocks.len(),
{
    let front = blocks.drop_last();
    lemma_flat_push(front, blocks.last());
    assert(front.push(blocks.last()) =~= blocks);
    if blocks.len() == 1 {
        assert(flat(front) =~= Seq::<InstView>::empty());
        assert(flat(blocks.skip(1)) =~= Seq::<InstView>::empty());
        assert(flat(blocks) =~= blocks[0].insts + flat(blocks.skip(1)));
    } else {
        lemma_flat_first(front);
        lemma_flat_push(front.skip(1), blocks.last());
        assert(front.skip(1).push(blocks.last()) =~= blocks.skip(1));
        assert(flat(blocks) =~= blocks[0].insts + flat(blocks.skip(1)));
    }
}

proof fn lemma_blocks_known<E: Fn(FloatRequest) -> FloatReply>(
    e: E,
    blocks: Seq<BlockView>,
    n: nat,
    consts: Map<ValueId, Const>,
    held: bool,
)
    requires
        n <= blocks.len(),
        known_of(e, flat(blocks)) == consts,
    ensures
        known_of(
            e,
            flat(swept_blocks(e, blocks, n, consts, held).0) + flat(blocks.skip(n as int)),
        ) == swept_blocks(e, blocks, n, consts, held).1,
    decreases n,
{
    if n == 0 {
        assert(flat(Seq::<BlockView>::empty()) =~= Seq::<InstView>::empty());
        assert(blocks.skip(0) =~= blocks);
        assert(flat(Seq::<BlockView>::empty()) + flat(blocks.skip(0)) =~= flat(blocks));
    } else {
        lemma_blocks_known(e, blocks, (n - 1) as nat, consts, held);
        let (done, c, changed) = swept_blocks(e, blocks, (n - 1) as nat, consts, held);
        let b = blocks[n - 1];
        let rest = blocks.skip(n - 1);
        lemma_flat_first(rest);
        assert(rest.skip(1) =~= blocks.skip(n as int));
        let pre = flat(done);
        let post = flat(blocks.skip(n as int));
        assert(pre + flat(rest) =~= pre + b.insts + post);
        lemma_swept_known(e, pre, b.insts, post, b.insts.len(), c, held);
        let insts = swept(e, b.insts, b.insts.len(), c, held).0;
        lemma_flat_push(done, BlockView { insts, ..b });
        assert(pre + insts + b.insts.skip(b.insts.len() as int) + post =~= pre + insts + post);
    }
}

/// Nothing folds in what was swept until nothing folded, with what its own
/// constants make known.
proof fn lemma_settled_known<E: Fn(FloatRequest) -> FloatReply>(
    e: E,
    blocks: Seq<BlockView>,
    consts: Map<ValueId, Const>,
    held: bool,
)
    requires
        known_of(e, flat(blocks)) == consts,
    ensures
        ({
            let last = settled(e, blocks, consts, held);
            !swept_blocks(e, last, last.len(), known_of(e, flat(last)), held).2
        }),
    decreases unfolded_blocks(blocks),
{
    lemma_swept_blocks(e, blocks, blocks.len(), consts, held);
    assert(blocks.take(blocks.len() as int) =~= blocks);
    let (next, c, changed) = swept_blocks(e, blocks, blocks.len(), consts, held);
    if changed {
        lemma_blocks_known(e, blocks, blocks.len(), consts, held);
        let none = blocks.skip(blocks.len() as int);
        assert(flat(none) =~= Seq::<InstView>::empty());
        assert(flat(next) + flat(none) =~= flat(next));
        lemma_settled_known(e, next, c, held);
    }
}

/// Folding what was folded finds nothing more.
pub proof fn folding_settles<E: Fn(FloatRequest) -> FloatReply>(e: E, f: FuncView, held: bool)
    ensures
        !folds(e, folded_func(e, f, held), held),
{
    lemma_settled_known(e, f.blocks, known_in(e, f), held);
}

proof fn lemma_same_flat(s: Seq<BlockView>, t: Seq<BlockView>, n: nat)
    requires
        same_blocks(s, t),
        n <= s.len(),
    ensures
        same_insts(insts_upto(s, n), insts_upto(t, n)),
    decreases n,
{
    if n > 0 {
        lemma_same_flat(s, t, (n - 1) as nat);
        let a = insts_upto(s, (n - 1) as nat);
        let b = insts_upto(t, (n - 1) as nat);
        assert(t[n - 1] == (BlockView { insts: t[n - 1].insts, ..s[n - 1] }));
        assert(same_insts(s[n - 1].insts, t[n - 1].insts));
        assert forall|k: int| 0 <= k < insts_upto(s, n).len() implies same_or_const(
            insts_upto(s, n)[k],
            #[trigger] insts_upto(t, n)[k],
        ) by {
            if k < a.len() {
                assert(insts_upto(t, n)[k] == b[k]);
                assert(same_or_const(a[k], b[k]));
            } else {
                assert(insts_upto(t, n)[k] == t[n - 1].insts[k - a.len()]);
                assert(same_or_const(s[n - 1].insts[k - a.len()], t[n - 1].insts[k - a.len()]));
            }
        }
    }
}

/// Does `n` hold the functions of `m` with constants in place of instructions?
spec fn like_module(m: ModuleView, n: ModuleView) -> bool {
    &&& m.functions.len() == n.functions.len()
    &&& forall|i: int|
        0 <= i < m.functions.len() ==> same_insts(
            insts_of(m.functions[i]),
            insts_of(#[trigger] n.functions[i]),
        )
}

proof fn lemma_like_calls(m: ModuleView, n: ModuleView, a: int, b: int)
    requires
        like_module(m, n),
    ensures
        may_call(n, a, b) == may_call(m, a, b),
{
    if 0 <= a < m.functions.len() {
        let s = insts_of(m.functions[a]);
        let t = insts_of(n.functions[a]);
        assert(same_insts(s, t));
        if calls_internal(m.functions[a], b) {
            let k = choose|k: int|
                0 <= k < s.len() && ((#[trigger] s[k]).kind.op matches Op::CallInternal(i) && i
                    == b);
            assert(same_or_const(s[k], t[k]));
        }
        if calls_internal(n.functions[a], b) {
            let k = choose|k: int|
                0 <= k < t.len() && ((#[trigger] t[k]).kind.op matches Op::CallInternal(i) && i
                    == b);
            assert(same_or_const(s[k], t[k]));
        }
        if calls_indirect(m.functions[a]) {
            let k = choose|k: int| 0 <= k < s.len() && (#[trigger] s[k]).kind.op is CallIndirect;
            assert(same_or_const(s[k], t[k]));
        }
        if calls_indirect(n.functions[a]) {
            let k = choose|k: int| 0 <= k < t.len() && (#[trigger] t[k]).kind.op is CallIndirect;
            assert(same_or_const(s[k], t[k]));
        }
    }
}

proof fn lemma_like_chains(m: ModuleView, n: ModuleView)
    requires
        like_module(m, n),
    ensures
        forall|a: int, b: int| #[trigger] may_enter(n, a, b) == may_enter(m, a, b),
{
    assert forall|p: Seq<int>| #[trigger] call_chain(n, p) == call_chain(m, p) by {
        assert forall|i: int| 0 <= i < p.len() - 1 implies #[trigger] may_call(n, p[i], p[i + 1])
            == may_call(m, p[i], p[i + 1]) by {
            lemma_like_calls(m, n, p[i], p[i + 1]);
        }
        if call_chain(m, p) {
            assert forall|i: int| 0 <= i < p.len() - 1 implies #[trigger] may_call(
                n,
                p[i],
                p[i + 1],
            ) by {
                assert(may_call(m, p[i], p[i + 1]));
            }
        }
        if call_chain(n, p) {
            assert forall|i: int| 0 <= i < p.len() - 1 implies #[trigger] may_call(
                m,
                p[i],
                p[i + 1],
            ) by {
                assert(may_call(n, p[i], p[i + 1]));
            }
        }
    }
    assert forall|a: int, b: int| #[trigger] may_enter(n, a, b) == may_enter(m, a, b) by {
        if may_enter(m, a, b) {
            let p = choose|p: Seq<int>| #[trigger] call_chain(m, p) && p[0] == a && p.last() == b;
            assert(call_chain(n, p));
        }
        if may_enter(n, a, b) {
            let p = choose|p: Seq<int>| #[trigger] call_chain(n, p) && p[0] == a && p.last() == b;
            assert(call_chain(m, p));
        }
    }
}

/// Where the rounding mode may be changed does not depend on what can be folded.
proof fn lemma_like_rounding(m: ModuleView, n: ModuleView, i: int)
    requires
        like_module(m, n),
    ensures
        rounding_unsure(n, i) == rounding_unsure(m, i),
{
    let p = |op: Op| may_change_rounding(op);
    lemma_like_chains(m, n);
    assert forall|b: int| 0 <= b < m.functions.len() implies holds_op(n.functions[b], p) == holds_op(
        #[trigger] m.functions[b],
        p,
    ) by {
        let s = insts_of(m.functions[b]);
        let t = insts_of(n.functions[b]);
        assert(same_insts(s, t));
        if holds_op(m.functions[b], p) {
            let k = choose|k: int| 0 <= k < s.len() && p((#[trigger] s[k]).kind.op);
            assert(same_or_const(s[k], t[k]));
            assert(p(t[k].kind.op));
        }
        if holds_op(n.functions[b], p) {
            let k = choose|k: int| 0 <= k < t.len() && p((#[trigger] t[k]).kind.op);
            assert(same_or_const(s[k], t[k]));
            assert(p(s[k].kind.op));
        }
    }
    assert forall|a: int| #[trigger] may_run(n, p, a) == may_run(m, p, a) by {
        if may_run(m, p, a) {
            let b = choose|b: int| #[trigger] may_enter(m, a, b) && holds_op(m.functions[b], p);
            let c = choose|c: Seq<int>| #[trigger] call_chain(m, c) && c[0] == a && c.last() == b;
            assert(0 <= c[c.len() - 1] < m.functions.len());
            assert(may_enter(n, a, b));
        }
        if may_run(n, p, a) {
            let b = choose|b: int| #[trigger] may_enter(n, a, b) && holds_op(n.functions[b], p);
            let c = choose|c: Seq<int>| #[trigger] call_chain(n, c) && c[0] == a && c.last() == b;
            assert(0 <= c[c.len() - 1] < m.functions.len());
            assert(may_enter(m, a, b));
            assert(holds_op(m.functions[b], p));
        }
    }
    if rounding_unsure(m, i) {
        let a = choose|a: int| #[trigger] may_enter(m, a, i) && may_run(m, p, a);
        assert(may_enter(n, a, i));
        assert(may_run(n, p, a));
    }
    if rounding_unsure(n, i) {
        let a = choose|a: int| #[trigger] may_enter(n, a, i) && may_run(n, p, a);
        assert(may_enter(m, a, i));
        assert(may_run(m, p, a));
    }
}

proof fn lemma_settled_shrinks<E: Fn(FloatRequest) -> FloatReply>(
    e: E,
    blocks: Seq<BlockView>,
    consts: Map<ValueId, Const>,
    held: bool,
)
    ensures
        unfolded_blocks(settled(e, blocks, consts, held)) <= unfolded_blocks(blocks),
        swept_blocks(e, blocks, blocks.len(), consts, held).2 ==> unfolded_blocks(
            settled(e, blocks, consts, held),
        ) < unfolded_blocks(blocks),
    decreases unfolded_blocks(blocks),
{
    lemma_swept_blocks(e, blocks, blocks.len(), consts, held);
    assert(blocks.take(blocks.len() as int) =~= blocks);
    let (next, c, changed) = swept_blocks(e, blocks, blocks.len(), consts, held);
    if changed {
        lemma_settled_shrinks(e, next, c, held);
    }
}

/// Something folds in a module exactly where folding changes it.
pub proof fn folding_tells_of_changes<E: Fn(FloatRequest) -> FloatReply>(e: E, m: ModuleView)
    ensures
        anything_folds(e, m) == (folded_module(e, m) != m),
{
    let n = folded_module(e, m);
    if anything_folds(e, m) {
        let i = choose|i: int|
            0 <= i < m.functions.len() && folds(e, #[trigger] m.functions[i], rounding_unsure(m, i));
        let f = m.functions[i];
        lemma_settled_shrinks(e, f.blocks, known_in(e, f), rounding_unsure(m, i));
        assert(n.functions[i].blocks != f.blocks);
    } else {
        assert forall|i: int| 0 <= i < m.functions.len() implies #[trigger] n.functions[i]
            == m.functions[i] by {
            assert(!folds(e, m.functions[i], rounding_unsure(m, i)));
        }
        assert(n.functions =~= m.functions);
    }
}

/// A second run of folding finds nothing and changes nothing.
pub proof fn folding_settles_a_module<E: Fn(FloatRequest) -> FloatReply>(e: E, m: ModuleView)
    ensures
        !anything_folds(e, folded_module(e, m)),
        folded_module(e, folded_module(e, m)) == folded_module(e, m),
{
    let n = folded_module(e, m);
    assert forall|i: int| 0 <= i < m.functions.len() implies same_insts(
        insts_of(m.functions[i]),
        insts_of(#[trigger] n.functions[i]),
    ) by {
        let f = m.functions[i];
        folding_keeps_shape(e, f, rounding_unsure(m, i));
        lemma_same_flat(f.blocks, n.functions[i].blocks, f.blocks.len());
    }
    assert forall|i: int| 0 <= i < n.functions.len() implies !folds(
        e,
        #[trigger] n.functions[i],
        rounding_unsure(n, i),
    ) by {
        lemma_like_rounding(m, n, i);
        folding_settles(e, m.functions[i], rounding_unsure(m, i));
    }
    folding_tells_of_changes(e, n);
}

} // verus!
