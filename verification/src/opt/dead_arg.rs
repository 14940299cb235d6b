//! Dead-argument elimination: a parameter of an internal function that nothing
//! observes is dropped, with the arguments passed for it.

use crate::ids::{list_contains, same_id};
use crate::ir::inst::{
    BasicBlock, BlockView, FuncRef, FuncView, Function, Inst, InstKind, InstView, KindView, Module,
    ModuleView, Op, Param, ParamView, ValueId,
};
use crate::ir::walk::{inst_uses, term_uses, terminator_uses};
use crate::lists::{lemma_masked_contains, lemma_masked_map, masked, retain_mask};
use crate::opt::graph::{lemma_unset, unset};
use crate::opt::insts::{all_insts, insts_of, lemma_block_inst, refs_view};
use crate::opt::pass::Pass;
use vstd::prelude::*;

verus! {

/// The value of parameter `p` of the function numbered `f`.
pub open spec fn slot_value(m: ModuleView, f: int, p: int) -> ValueId {
    m.functions[f].params[p].id
}

/// Is `(c, a)` a parameter of an internal function?
pub open spec fn is_slot(m: ModuleView, c: int, a: int) -> bool {
    0 <= c < m.functions.len() && m.functions[c].internal_only && 0 <= a
        < m.functions[c].params.len()
}

/// Does an instruction observe `v`? A call of an internal function does where it
/// passes `v` for something that is no parameter of an internal function.
pub open spec fn observes_value(m: ModuleView, i: InstView, v: ValueId) -> bool {
    match i.kind.op {
        Op::CallInternal(c) => exists|a: int|
            0 <= a < i.kind.args.len() && #[trigger] i.kind.args[a] == v && !is_slot(
                m,
                c as int,
                a,
            ),
        _ => i.kind.args.contains(v),
    }
}

/// Does a terminator of the function read `v`?
pub open spec fn ends_with_value(f: FuncView, v: ValueId) -> bool {
    exists|b: int|
        0 <= b < f.blocks.len() && ((#[trigger] f.blocks[b]).term matches Some(t) && term_uses(
            t,
        ).contains(v))
}

/// Is parameter `p` of the function numbered `f` observed by the function itself?
pub open spec fn exposed(m: ModuleView, f: int, p: int) -> bool {
    ||| exists|k: int|
        0 <= k < insts_of(m.functions[f]).len() && observes_value(
            m,
            #[trigger] insts_of(m.functions[f])[k],
            slot_value(m, f, p),
        )
    ||| ends_with_value(m.functions[f], slot_value(m, f, p))
}

/// Does an instruction pass `v` for parameter `a` of the internal function
/// numbered `c`?
pub open spec fn inst_passes(m: ModuleView, i: InstView, v: ValueId, c: int, a: int) -> bool {
    i.kind.op matches Op::CallInternal(d) && d == c && is_slot(m, c, a) && a < i.kind.args.len()
        && i.kind.args[a] == v
}

/// Does the function numbered `f` pass its parameter `p` for parameter `a` of the
/// internal function numbered `c`?
pub open spec fn passes(m: ModuleView, f: int, p: int, c: int, a: int) -> bool {
    exists|k: int|
        0 <= k < insts_of(m.functions[f]).len() && inst_passes(
            m,
            #[trigger] insts_of(m.functions[f])[k],
            slot_value(m, f, p),
            c,
            a,
        )
}

/// Is `q` a chain of parameters, each passed for the next, of which the last is
/// observed?
pub open spec fn observed_chain(m: ModuleView, q: Seq<(int, int)>) -> bool {
    &&& q.len() > 0
    &&& forall|i: int|
        0 <= i < q.len() - 1 ==> passes(
            m,
            (#[trigger] q[i]).0,
            q[i].1,
            q[i + 1].0,
            q[i + 1].1,
        )
    &&& exposed(m, q.last().0, q.last().1)
}

/// Is a parameter observed, by its function or by one that it is passed on to?
pub open spec fn is_live(m: ModuleView, f: int, p: int) -> bool {
    exists|q: Seq<(int, int)>| #[trigger] observed_chain(m, q) && q[0] == (f, p)
}

/// Which parameters of the function numbered `f` are kept: all that are observed
/// of an internal function.
pub open spec fn live_mask(m: ModuleView, f: int) -> Seq<bool> {
    Seq::new(m.functions[f].params.len(), |p: int| is_live(m, f, p))
}

/// Is there a parameter of an internal function that nothing observes?
pub open spec fn has_dead_slot(m: ModuleView) -> bool {
    exists|f: int, p: int| #[trigger] is_slot(m, f, p) && !is_live(m, f, p)
}

/// The arguments that are kept of a call of the internal function numbered `c`.
pub open spec fn kept_args(m: ModuleView, c: int, args: Seq<ValueId>) -> Seq<ValueId> {
    let n = if args.len() <= m.functions[c].params.len() {
        args.len()
    } else {
        m.functions[c].params.len()
    };
    masked(args.take(n as int), live_mask(m, c))
}

/// An instruction with the arguments that are kept.
pub open spec fn kept_inst(m: ModuleView, i: InstView) -> InstView {
    match i.kind.op {
        Op::CallInternal(c) => if c < m.functions.len() && m.functions[c as int].internal_only {
            InstView {
                kind: KindView { op: i.kind.op, args: kept_args(m, c as int, i.kind.args) },
                ..i
            }
        } else {
            i
        },
        _ => i,
    }
}

/// A block with the arguments that are kept.
pub open spec fn kept_block(m: ModuleView, b: BlockView) -> BlockView {
    BlockView { insts: Seq::new(b.insts.len(), |k: int| kept_inst(m, b.insts[k])), ..b }
}

/// The parameters of the function numbered `f` that are kept.
pub open spec fn kept_params(m: ModuleView, f: int) -> Seq<ParamView> {
    if m.functions[f].internal_only {
        masked(m.functions[f].params, live_mask(m, f))
    } else {
        m.functions[f].params
    }
}

/// The function numbered `f` with the parameters and arguments that are kept.
pub open spec fn kept_func(m: ModuleView, f: int) -> FuncView {
    FuncView {
        params: kept_params(m, f),
        blocks: Seq::new(
            m.functions[f].blocks.len(),
            |b: int| kept_block(m, m.functions[f].blocks[b]),
        ),
        ..m.functions[f]
    }
}

/// A module without dead parameters.
pub open spec fn without_dead_args(m: ModuleView) -> ModuleView {
    if has_dead_slot(m) {
        ModuleView {
            functions: Seq::new(m.functions.len(), |f: int| kept_func(m, f)),
            ..m
        }
    } else {
        m
    }
}

/// A parameter is observed where it is observed by its function or passed for one
/// that is observed.
pub proof fn lemma_live_step(m: ModuleView, f: int, p: int)
    ensures
        is_live(m, f, p) == (exposed(m, f, p) || exists|c: int, a: int|
            #[trigger] passes(m, f, p, c, a) && is_live(m, c, a)),
{
    if exposed(m, f, p) {
        let q = seq![(f, p)];
        assert(observed_chain(m, q));
    }
    if exists|c: int, a: int| #[trigger] passes(m, f, p, c, a) && is_live(m, c, a) {
        let (c, a) = choose|c: int, a: int| #[trigger] passes(m, f, p, c, a) && is_live(m, c, a);
        let q = choose|q: Seq<(int, int)>| #[trigger] observed_chain(m, q) && q[0] == (c, a);
        let r = seq![(f, p)] + q;
        assert forall|i: int| 0 <= i < r.len() - 1 implies passes(
            m,
            (#[trigger] r[i]).0,
            r[i].1,
            r[i + 1].0,
            r[i + 1].1,
        ) by {
            if i == 0 {
                assert(r[1] == q[0]);
            } else {
                assert(r[i] == q[i - 1]);
                assert(r[i + 1] == q[i]);
            }
        }
        assert(r.last() == q.last());
        assert(observed_chain(m, r));
    }
    if is_live(m, f, p) && !exposed(m, f, p) {
        let q = choose|q: Seq<(int, int)>| #[trigger] observed_chain(m, q) && q[0] == (f, p);
        assert(q.len() > 1);
        let t = q.skip(1);
        assert forall|i: int| 0 <= i < t.len() - 1 implies passes(
            m,
            (#[trigger] t[i]).0,
            t[i].1,
            t[i + 1].0,
            t[i + 1].1,
        ) by {
            assert(t[i] == q[i + 1]);
            assert(t[i + 1] == q[i + 2]);
        }
        assert(t.last() == q.last());
        assert(observed_chain(m, t));
        assert(passes(m, q[0].0, q[0].1, q[1].0, q[1].1));
        assert(is_live(m, t[0].0, t[0].1));
    }
}

/// A call of an internal function that passed one argument for each parameter
/// still does.
pub proof fn calls_still_fit(m: ModuleView, c: u32, args: Seq<ValueId>)
    requires
        c < m.functions.len(),
        m.functions[c as int].internal_only,
        args.len() == m.functions[c as int].params.len(),
    ensures
        kept_args(m, c as int, args).len() == kept_params(m, c as int).len(),
{
    let mask = live_mask(m, c as int);
    assert(args.take(args.len() as int) =~= args);
    lemma_same_mask_len(args, m.functions[c as int].params, mask);
}

proof fn lemma_same_mask_len<A, B>(s: Seq<A>, t: Seq<B>, keep: Seq<bool>)
    requires
        s.len() == t.len(),
    ensures
        masked(s, keep).len() == masked(t, keep).len(),
    decreases s.len(),
{
    if s.len() > 0 {
        lemma_same_mask_len(s.drop_last(), t.drop_last(), keep);
    }
}

/// A dropped parameter is not read any more: neither by an instruction nor by a
/// terminator of its function.
pub proof fn dropped_parameters_are_not_read(m: ModuleView, f: int, p: int, b: int)
    requires
        is_slot(m, f, p),
        !is_live(m, f, p),
        0 <= b < m.functions[f].blocks.len(),
    ensures
        ({
            let block = kept_func(m, f).blocks[b];
            let v = slot_value(m, f, p);
            &&& forall|k: int| 0 <= k < block.insts.len() ==> !(#[trigger] block.insts[k]).kind.args.contains(v)
            &&& !(block.term matches Some(t) && term_uses(t).contains(v))
        }),
{
    let func = m.functions[f];
    let block = kept_func(m, f).blocks[b];
    let v = slot_value(m, f, p);
    lemma_live_step(m, f, p);
    assert forall|k: int| 0 <= k < block.insts.len() implies !(#[trigger] block.insts[k]).kind.args.contains(v) by {
        let i = func.blocks[b].insts[k];
        assert(block.insts[k] == kept_inst(m, i));
        lemma_block_inst(func.blocks, func.blocks.len(), b, k);
        let at = insts_of(func).index_of(i);
        assert(!observes_value(m, insts_of(func)[at], v));
        match i.kind.op {
            Op::CallInternal(c) => {
                if c < m.functions.len() && m.functions[c as int].internal_only {
                    let params = m.functions[c as int].params.len();
                    let n = if i.kind.args.len() <= params {
                        i.kind.args.len()
                    } else {
                        params
                    };
                    let head = i.kind.args.take(n as int);
                    let mask = live_mask(m, c as int);
                    lemma_masked_contains(head, mask, v);
                    if kept_args(m, c as int, i.kind.args).contains(v) {
                        let a = choose|a: int| 0 <= a < head.len() && #[trigger] head[a] == v && mask[a];
                        assert(i.kind.args[a] == v);
                        assert(inst_passes(m, insts_of(func)[at], v, c as int, a));
                        assert(passes(m, f, p, c as int, a));
                    }
                } else if i.kind.args.contains(v) {
                    let a = i.kind.args.index_of(v);
                    assert(i.kind.args[a] == v);
                }
            },
            _ => {},
        }
    }
    if func.blocks[b].term matches Some(t) && term_uses(t).contains(v) {
        assert(ends_with_value(func, v));
    }
}

/// Which parameters are known to be observed.
pub open spec fn masks_view(masks: Seq<Vec<bool>>) -> Seq<Seq<bool>> {
    Seq::new(masks.len(), |i: int| masks[i]@)
}

/// Does an instruction observe `v`, or pass it for a parameter that is known to
/// be observed?
spec fn inst_shows(m: ModuleView, masks: Seq<Seq<bool>>, i: InstView, v: ValueId) -> bool {
    observes_value(m, i, v) || exists|c: int, a: int| #[trigger]
        inst_passes(m, i, v, c, a) && masks[c][a]
}

fn call_shows(
    module: &Module,
    callee: u32,
    args: &Vec<ValueId>,
    v: ValueId,
    masks: &Vec<Vec<bool>>,
    Ghost(i): Ghost<InstView>,
) -> (r: bool)
    requires
        masks@.len() == module@.functions.len(),
        forall|f: int|
            0 <= f < masks@.len() ==> (#[trigger] masks@[f])@.len()
                == module@.functions[f].params.len(),
        i.kind.op == Op::CallInternal(callee),
        i.kind.args == args@,
    ensures
        r == inst_shows(module@, masks_view(masks@), i, v),
{
    let ghost m = module@;
    let ghost mv = masks_view(masks@);
    let c: usize = callee as usize;
    let n: usize = module.functions.len();
    let slots: usize = if c < n && module.functions[c].internal_only {
        module.functions[c].params.len()
    } else {
        0
    };
    proof {
        if c < n {
            assert(m.functions[c as int] == module.functions@[c as int]@);
        }
        assert forall|a: int| 0 <= a implies (#[trigger] is_slot(m, c as int, a) == (a < slots)) by {}
    }
    let mut a: usize = 0;
    while a < args.len()
        invariant
            a <= args@.len(),
            m == module@,
            n == m.functions.len(),
            n == masks@.len(),
            mv == masks_view(masks@),
            c == callee,
            slots > 0 ==> c < n && masks@[c as int]@.len() == slots,
            forall|x: int| 0 <= x ==> (#[trigger] is_slot(m, c as int, x) == (x < slots)),
            i.kind.op == Op::CallInternal(callee),
            i.kind.args == args@,
            forall|x: int|
                0 <= x < a && #[trigger] args@[x] == v ==> x < slots && !masks@[c as int]@[x],
        decreases args@.len() - a,
    {
        if same_id(args[a], v) {
            if a >= slots {
                proof {
                    assert(i.kind.args[a as int] == v && !is_slot(m, c as int, a as int));
                    assert(observes_value(m, i, v));
                }
                return true;
            }
            if masks[c][a] {
                proof {
                    assert(is_slot(m, c as int, a as int));
                    assert(inst_passes(m, i, v, c as int, a as int));
                    assert(mv[c as int][a as int]);
                }
                return true;
            }
        }
        a = a + 1;
    }
    proof {
        if observes_value(m, i, v) {
            let x = choose|x: int|
                0 <= x < i.kind.args.len() && #[trigger] i.kind.args[x] == v && !is_slot(
                    m,
                    callee as int,
                    x,
                );
            assert(args@[x] == v);
        }
        if exists|d: int, x: int| #[trigger] inst_passes(m, i, v, d, x) && mv[d][x] {
            let (d, x) = choose|d: int, x: int| #[trigger] inst_passes(m, i, v, d, x) && mv[d][x];
            assert(args@[x] == v);
            assert(masks@[c as int]@[x]);
        }
    }
    false
}

/// Does an instruction other than an internal call read `v`? What internal calls
/// read is told argument by argument.
pub open spec fn uses_directly(k: KindView, v: ValueId) -> bool {
    k.op !is CallInternal && k.args.contains(v)
}

/// Does an instruction other than an internal call read the parameter?
pub fn inst_uses_param(kind: &InstKind, param_id: ValueId) -> (r: bool)
    ensures
        r == uses_directly(kind@, param_id),
{
    match kind {
        InstKind::Call(callee, args) => match callee {
            FuncRef::Internal(_) => false,
            FuncRef::External(_) => list_contains(args, param_id),
            FuncRef::Indirect(_) => list_contains(&inst_uses(kind), param_id),
        },
        _ => list_contains(&inst_uses(kind), param_id),
    }
}

/// An instruction other than an internal call observes exactly its operands.
pub proof fn other_instructions_observe_their_operands(m: ModuleView, i: InstView, v: ValueId)
    requires
        i.kind.op !is CallInternal,
    ensures
        observes_value(m, i, v) == i.kind.args.contains(v),
        observes_value(m, i, v) == uses_directly(i.kind, v),
{
}

fn instruction_shows(module: &Module, inst: &Inst, v: ValueId, masks: &Vec<Vec<bool>>) -> (r: bool)
    requires
        masks@.len() == module@.functions.len(),
        forall|f: int|
            0 <= f < masks@.len() ==> (#[trigger] masks@[f])@.len()
                == module@.functions[f].params.len(),
    ensures
        r == inst_shows(module@, masks_view(masks@), inst@, v),
{
    match &inst.kind {
        InstKind::Call(callee, args) => match callee {
            FuncRef::Internal(c) => call_shows(module, *c, args, v, masks, Ghost(inst@)),
            FuncRef::External(_) => inst_uses_param(&inst.kind, v),
            FuncRef::Indirect(_) => inst_uses_param(&inst.kind, v),
        },
        _ => inst_uses_param(&inst.kind, v),
    }
}

fn terminators_read(func: &Function, v: ValueId) -> (r: bool)
    ensures
        r == ends_with_value(func@, v),
{
    let mut b: usize = 0;
    while b < func.blocks.len()
        invariant
            b <= func.blocks@.len(),
            forall|k: int|
                0 <= k < b ==> !((#[trigger] func@.blocks[k]).term matches Some(t) && term_uses(
                    t,
                ).contains(v)),
        decreases func.blocks@.len() - b,
    {
        proof {
            assert(func@.blocks[b as int] == func.blocks@[b as int]@);
        }
        match &func.blocks[b].terminator {
            Some(t) => {
                let uses = terminator_uses(t);
                if list_contains(&uses, v) {
                    proof {
                        assert(func@.blocks[b as int].term matches Some(t) && term_uses(t).contains(v));
                    }
                    return true;
                }
            },
            None => {},
        }
        b = b + 1;
    }
    false
}

/// Is a parameter observed by its function, or passed for one that is known to be
/// observed?
spec fn shows(m: ModuleView, masks: Seq<Seq<bool>>, f: int, p: int) -> bool {
    exposed(m, f, p) || exists|c: int, a: int| #[trigger] passes(m, f, p, c, a) && masks[c][a]
}

fn param_has_observable_use(module: &Module, f: usize, p: usize, masks: &Vec<Vec<bool>>) -> (r: bool)
    requires
        f < module@.functions.len(),
        p < module@.functions[f as int].params.len(),
        masks@.len() == module@.functions.len(),
        forall|f: int|
            0 <= f < masks@.len() ==> (#[trigger] masks@[f])@.len()
                == module@.functions[f].params.len(),
    ensures
        r == shows(module@, masks_view(masks@), f as int, p as int),
{
    let ghost m = module@;
    let ghost mv = masks_view(masks@);
    let func = &module.functions[f];
    proof {
        assert(m.functions[f as int] == func@);
        assert(func@.params[p as int] == func.params@[p as int]@);
    }
    let v = func.params[p].id;
    let list = all_insts(func);
    let ghost s = insts_of(func@);
    let mut i: usize = 0;
    while i < list.len()
        invariant
            i <= list@.len(),
            m == module@,
            mv == masks_view(masks@),
            masks@.len() == m.functions.len(),
            forall|f: int|
                0 <= f < masks@.len() ==> (#[trigger] masks@[f])@.len()
                    == m.functions[f].params.len(),
            s == insts_of(m.functions[f as int]),
            s == refs_view(list@),
            v == slot_value(m, f as int, p as int),
            forall|k: int| 0 <= k < i ==> !inst_shows(m, mv, #[trigger] s[k], v),
        decreases list@.len() - i,
    {
        proof {
            assert(s[i as int] == list@[i as int]@);
        }
        if instruction_shows(module, list[i], v, masks) {
            proof {
                assert(inst_shows(m, mv, s[i as int], v));
                if !observes_value(m, s[i as int], v) {
                    let (c, a) = choose|c: int, a: int| #[trigger]
                        inst_passes(m, s[i as int], v, c, a) && mv[c][a];
                    assert(inst_passes(m, insts_of(m.functions[f as int])[i as int], v, c, a));
                    assert(passes(m, f as int, p as int, c, a));
                } else {
                    assert(observes_value(m, insts_of(m.functions[f as int])[i as int], v));
                }
            }
            return true;
        }
        i = i + 1;
    }
    let end = terminators_read(func, v);
    proof {
        assert forall|c: int, a: int| !(#[trigger] passes(m, f as int, p as int, c, a) && mv[c][a]) by {
            if passes(m, f as int, p as int, c, a) && mv[c][a] {
                let k = choose|k: int|
                    0 <= k < s.len() && inst_passes(m, #[trigger] s[k], v, c, a);
                assert(!inst_shows(m, mv, s[k], v));
            }
        }
        assert forall|k: int| 0 <= k < s.len() implies !observes_value(m, #[trigger] s[k], v) by {
            assert(!inst_shows(m, mv, s[k], v));
        }
    }
    end
}

/// How many parameters of the first `n` functions are not known to be observed.
spec fn unknown(masks: Seq<Seq<bool>>, n: nat) -> nat
    decreases n,
{
    if n == 0 {
        0
    } else {
        unknown(masks, (n - 1) as nat) + unset(masks[n - 1])
    }
}

proof fn lemma_unknown(masks: Seq<Seq<bool>>, n: nat, f: int, p: int)
    requires
        n <= masks.len(),
        0 <= f < masks.len(),
        0 <= p < masks[f].len(),
        !masks[f][p],
    ensures
        ({
            let next = masks.update(f, masks[f].update(p, true));
            unknown(next, n) == if f < n {
                unknown(masks, n) - 1
            } else {
                unknown(masks, n) as int
            }
        }),
    decreases n,
{
    if n > 0 {
        lemma_unknown(masks, (n - 1) as nat, f, p);
        if f == n - 1 {
            lemma_unset(masks[f], p);
        }
    }
}

/// Do the masks hold only parameters that are observed?
spec fn masks_sound(m: ModuleView, masks: Seq<Seq<bool>>) -> bool {
    forall|f: int, p: int|
        0 <= f < masks.len() && 0 <= p < masks[f].len() && #[trigger] masks[f][p] ==> is_live(
            m,
            f,
            p,
        )
}

/// Do the masks fit the module?
spec fn masks_fit(m: ModuleView, masks: Seq<Vec<bool>>) -> bool {
    masks.len() == m.functions.len() && forall|f: int|
        0 <= f < masks.len() ==> (#[trigger] masks[f])@.len() == m.functions[f].params.len()
}

/// Marks the parameters of one function that are observed as far as is known.
fn mark_function(module: &Module, f: usize, masks: &mut Vec<Vec<bool>>) -> (changed: bool)
    requires
        f < module@.functions.len(),
        masks_fit(module@, old(masks)@),
        masks_sound(module@, masks_view(old(masks)@)),
    ensures
        masks_fit(module@, final(masks)@),
        masks_sound(module@, masks_view(final(masks)@)),
        !changed ==> masks_view(final(masks)@) == masks_view(old(masks)@) && forall|p: int|
            0 <= p < module@.functions[f as int].params.len() && #[trigger] shows(
                module@,
                masks_view(old(masks)@),
                f as int,
                p,
            ) ==> masks_view(old(masks)@)[f as int][p],
        changed ==> unknown(masks_view(final(masks)@), module@.functions.len()) < unknown(
            masks_view(old(masks)@),
            module@.functions.len(),
        ),
        unknown(masks_view(final(masks)@), module@.functions.len()) <= unknown(
            masks_view(old(masks)@),
            module@.functions.len(),
        ),
{
    let ghost m = module@;
    let ghost start = masks_view(masks@);
    let n: usize = module.functions[f].params.len();
    proof {
        assert(m.functions[f as int] == module.functions@[f as int]@);
    }
    let mut changed: bool = false;
    let mut p: usize = 0;
    while p < n
        invariant
            p <= n,
            m == module@,
            f < m.functions.len(),
            n == m.functions[f as int].params.len(),
            masks_fit(m, masks@),
            masks_sound(m, masks_view(masks@)),
            !changed ==> masks_view(masks@) == start && forall|q: int|
                0 <= q < p && #[trigger] shows(m, start, f as int, q) ==> start[f as int][q],
            changed ==> unknown(masks_view(masks@), m.functions.len()) < unknown(
                start,
                m.functions.len(),
            ),
            unknown(masks_view(masks@), m.functions.len()) <= unknown(start, m.functions.len()),
        decreases n - p,
    {
        let ghost now = masks_view(masks@);
        if !masks[f][p] && param_has_observable_use(module, f, p, masks) {
            proof {
                lemma_live_step(m, f as int, p as int);
                if !exposed(m, f as int, p as int) {
                    let (c, a) = choose|c: int, a: int| #[trigger]
                        passes(m, f as int, p as int, c, a) && now[c][a];
                    let k = choose|k: int|
                        0 <= k < insts_of(m.functions[f as int]).len() && inst_passes(
                            m,
                            #[trigger] insts_of(m.functions[f as int])[k],
                            slot_value(m, f as int, p as int),
                            c,
                            a,
                        );
                    assert(is_slot(m, c, a));
                    assert(masks@[c]@.len() == m.functions[c].params.len());
                    assert(is_live(m, c, a));
                }
                lemma_unknown(now, m.functions.len(), f as int, p as int);
            }
            masks[f].set(p, true);
            proof {
                assert(masks_view(masks@) =~= now.update(
                    f as int,
                    now[f as int].update(p as int, true),
                ));
            }
            changed = true;
        }
        p = p + 1;
    }
    changed
}

/// Which parameters of internal functions are observed.
fn live_masks(module: &Module) -> (r: Vec<Vec<bool>>)
    ensures
        r@.len() == module@.functions.len(),
        forall|f: int|
            0 <= f < r@.len() && module@.functions[f].internal_only ==> (#[trigger] r@[f])@
                == live_mask(module@, f),
{
    let ghost m = module@;
    let n: usize = module.functions.len();
    let mut masks: Vec<Vec<bool>> = Vec::new();
    let mut i: usize = 0;
    while i < n
        invariant
            i <= n,
            n == module.functions@.len(),
            m == module@,
            masks@.len() == i,
            forall|f: int|
                0 <= f < i ==> (#[trigger] masks@[f])@.len() == m.functions[f].params.len(),
            forall|f: int, p: int|
                0 <= f < i && 0 <= p < masks@[f]@.len() ==> !#[trigger] masks@[f]@[p],
        decreases n - i,
    {
        let mut mask: Vec<bool> = Vec::new();
        let size: usize = module.functions[i].params.len();
        let mut p: usize = 0;
        while p < size
            invariant
                p <= size,
                mask@.len() == p,
                forall|q: int| 0 <= q < p ==> !#[trigger] mask@[q],
            decreases size - p,
        {
            mask.push(false);
            p = p + 1;
        }
        proof {
            assert(m.functions[i as int] == module.functions@[i as int]@);
        }
        masks.push(mask);
        i = i + 1;
    }
    let mut changed: bool = true;
    while changed
        invariant
            n == module.functions@.len(),
            m == module@,
            n == m.functions.len(),
            masks_fit(m, masks@),
            masks_sound(m, masks_view(masks@)),
            !changed ==> forall|f: int, p: int|
                is_slot(m, f, p) && #[trigger] shows(m, masks_view(masks@), f, p) ==> masks_view(
                    masks@,
                )[f][p],
        decreases
                unknown(masks_view(masks@), m.functions.len()),
                (if changed {
                    1nat
                } else {
                    0nat
                }),
    {
        let ghost start = masks_view(masks@);
        changed = false;
        let mut f: usize = 0;
        while f < n
            invariant
                f <= n,
                n == module.functions@.len(),
                m == module@,
                n == m.functions.len(),
                masks_fit(m, masks@),
                masks_sound(m, masks_view(masks@)),
                !changed ==> masks_view(masks@) == start && forall|g: int, p: int|
                    g < f && is_slot(m, g, p) && #[trigger] shows(m, start, g, p) ==> start[g][p],
                changed ==> unknown(masks_view(masks@), m.functions.len()) < unknown(
                    start,
                    m.functions.len(),
                ),
                unknown(masks_view(masks@), m.functions.len()) <= unknown(start, m.functions.len()),
            decreases n - f,
        {
            proof {
                assert(m.functions[f as int] == module.functions@[f as int]@);
            }
            if module.functions[f].internal_only {
                if mark_function(module, f, &mut masks) {
                    changed = true;
                }
            }
            f = f + 1;
        }
    }
    proof {
        let mv = masks_view(masks@);
        assert forall|f: int| 0 <= f < n && m.functions[f].internal_only implies (
        #[trigger] masks@[f])@ == live_mask(m, f) by {
            assert forall|p: int| 0 <= p < m.functions[f].params.len() implies mv[f][p] == is_live(
                m,
                f,
                p,
            ) by {
                if is_live(m, f, p) {
                    lemma_live_is_marked(m, mv, f, p);
                }
            }
            assert(masks@[f]@ =~= live_mask(m, f));
        }
    }
    masks
}

/// Where nothing more shows, every observed parameter is marked.
proof fn lemma_live_is_marked(m: ModuleView, masks: Seq<Seq<bool>>, f: int, p: int)
    requires
        is_slot(m, f, p),
        is_live(m, f, p),
        forall|g: int, q: int|
            is_slot(m, g, q) && #[trigger] shows(m, masks, g, q) ==> masks[g][q],
    ensures
        masks[f][p],
{
    let q = choose|q: Seq<(int, int)>| #[trigger] observed_chain(m, q) && q[0] == (f, p);
    lemma_chain_is_marked(m, masks, q, 0);
}

proof fn lemma_chain_is_marked(m: ModuleView, masks: Seq<Seq<bool>>, q: Seq<(int, int)>, i: int)
    requires
        observed_chain(m, q),
        0 <= i < q.len(),
        is_slot(m, q[i].0, q[i].1),
        forall|g: int, p: int|
            is_slot(m, g, p) && #[trigger] shows(m, masks, g, p) ==> masks[g][p],
    ensures
        masks[q[i].0][q[i].1],
    decreases q.len() - i,
{
    if i < q.len() - 1 {
        assert(passes(m, q[i].0, q[i].1, q[i + 1].0, q[i + 1].1));
        let k = choose|k: int|
            0 <= k < insts_of(m.functions[q[i].0]).len() && inst_passes(
                m,
                #[trigger] insts_of(m.functions[q[i].0])[k],
                slot_value(m, q[i].0, q[i].1),
                q[i + 1].0,
                q[i + 1].1,
            );
        lemma_chain_is_marked(m, masks, q, i + 1);
    }
    assert(shows(m, masks, q[i].0, q[i].1));
}

/// Is a parameter of an internal function not observed?
fn any_dead(module: &Module, masks: &Vec<Vec<bool>>) -> (r: bool)
    requires
        masks@.len() == module@.functions.len(),
        forall|f: int|
            0 <= f < masks@.len() && module@.functions[f].internal_only ==> (#[trigger] masks@[f])@
                == live_mask(module@, f),
    ensures
        r == has_dead_slot(module@),
{
    let ghost m = module@;
    let mut f: usize = 0;
    while f < masks.len()
        invariant
            f <= masks@.len(),
            m == module@,
            masks@.len() == m.functions.len(),
            masks@.len() == module.functions@.len(),
            forall|f: int|
                0 <= f < masks@.len() && m.functions[f].internal_only ==> (#[trigger] masks@[f])@
                    == live_mask(m, f),
            forall|g: int, p: int| g < f && #[trigger] is_slot(m, g, p) ==> is_live(m, g, p),
        decreases masks@.len() - f,
    {
        proof {
            assert(m.functions[f as int] == module.functions@[f as int]@);
        }
        if module.functions[f].internal_only {
            let mask = &masks[f];
            let mut p: usize = 0;
            while p < mask.len()
                invariant
                    p <= mask@.len(),
                    m == module@,
                    f < m.functions.len(),
                    m.functions[f as int].internal_only,
                    mask@ == live_mask(m, f as int),
                    forall|q: int| 0 <= q < p ==> #[trigger] is_live(m, f as int, q),
                decreases mask@.len() - p,
            {
                if !mask[p] {
                    proof {
                        assert(is_slot(m, f as int, p as int));
                    }
                    return true;
                }
                p = p + 1;
            }
        }
        f = f + 1;
    }
    false
}

fn trim_args(args: &mut Vec<ValueId>, mask: &Vec<bool>)
    ensures
        ({
            let n = if old(args)@.len() <= mask@.len() {
                old(args)@.len()
            } else {
                mask@.len()
            };
            final(args)@ == masked(old(args)@.take(n as int), mask@)
        }),
{
    let ghost before = args@;
    let ghost n: int = if before.len() <= mask@.len() {
        before.len() as int
    } else {
        mask@.len() as int
    };
    let mut keep: Vec<bool> = Vec::new();
    let mut i: usize = 0;
    while i < args.len()
        invariant
            args@ == before,
            i <= before.len(),
            keep@.len() == i,
            forall|k: int| 0 <= k < i ==> #[trigger] keep@[k] == (k < mask@.len() && mask@[k]),
        decreases before.len() - i,
    {
        keep.push(i < mask.len() && mask[i]);
        i = i + 1;
    }
    retain_mask(args, &keep);
    proof {
        lemma_mask_tail(before, keep@, n);
        crate::lists::lemma_masked_same(before.take(n), keep@, mask@);
    }
}

/// Places that are not kept at the end can be cut off.
proof fn lemma_mask_tail<T>(s: Seq<T>, keep: Seq<bool>, n: int)
    requires
        0 <= n <= s.len(),
        forall|k: int| n <= k < s.len() ==> !#[trigger] keep[k],
    ensures
        masked(s, keep) == masked(s.take(n), keep),
    decreases s.len(),
{
    if n < s.len() {
        assert(!keep[s.len() - 1]);
        lemma_mask_tail(s.drop_last(), keep, n);
        assert(s.drop_last().take(n) =~= s.take(n));
    } else {
        assert(s.take(n) =~= s);
    }
}

fn trim_inst(inst: &mut Inst, internal: &Vec<bool>, masks: &Vec<Vec<bool>>, Ghost(m): Ghost<
    ModuleView,
>)
    requires
        internal@.len() == m.functions.len(),
        masks@.len() == m.functions.len(),
        forall|f: int|
            0 <= f < internal@.len() ==> #[trigger] internal@[f] == m.functions[f].internal_only,
        forall|f: int|
            0 <= f < masks@.len() && m.functions[f].internal_only ==> (#[trigger] masks@[f])@
                == live_mask(m, f),
    ensures
        final(inst)@ == kept_inst(m, old(inst)@),
{
    let ghost before = inst@;
    match &mut inst.kind {
        InstKind::Call(callee, args) => match callee {
            FuncRef::Internal(c) => {
                let at: usize = *c as usize;
                if at < internal.len() && internal[at] {
                    proof {
                        assert(masks@[at as int]@ == live_mask(m, at as int));
                    }
                    trim_args(args, &masks[at]);
                }
            },
            FuncRef::External(_) => {},
            FuncRef::Indirect(_) => {},
        },
        _ => {},
    }
}

fn trim_block(block: &mut BasicBlock, internal: &Vec<bool>, masks: &Vec<Vec<bool>>, Ghost(m): Ghost<
    ModuleView,
>)
    requires
        internal@.len() == m.functions.len(),
        masks@.len() == m.functions.len(),
        forall|f: int|
            0 <= f < internal@.len() ==> #[trigger] internal@[f] == m.functions[f].internal_only,
        forall|f: int|
            0 <= f < masks@.len() && m.functions[f].internal_only ==> (#[trigger] masks@[f])@
                == live_mask(m, f),
    ensures
        final(block)@ == kept_block(m, old(block)@),
{
    let ghost b = block@;
    let mut k: usize = 0;
    while k < block.insts.len()
        invariant
            k <= b.insts.len(),
            block.insts@.len() == b.insts.len(),
            block@ == (BlockView { insts: block@.insts, ..b }),
            internal@.len() == m.functions.len(),
            masks@.len() == m.functions.len(),
            forall|f: int|
                0 <= f < internal@.len() ==> #[trigger] internal@[f]
                    == m.functions[f].internal_only,
            forall|f: int|
                0 <= f < masks@.len() && m.functions[f].internal_only ==> (#[trigger] masks@[f])@
                    == live_mask(m, f),
            forall|j: int| 0 <= j < k ==> (#[trigger] block.insts@[j])@ == kept_inst(m, b.insts[j]),
            forall|j: int| k <= j < b.insts.len() ==> (#[trigger] block.insts@[j])@ == b.insts[j],
        decreases b.insts.len() - k,
    {
        proof {
            assert(block.insts@[k as int]@ == b.insts[k as int]);
        }
        trim_inst(&mut block.insts[k], internal, masks, Ghost(m));
        k = k + 1;
    }
    proof {
        assert(block@.insts =~= kept_block(m, b).insts);
    }
}

fn trim_function(
    func: &mut Function,
    at: usize,
    internal: &Vec<bool>,
    masks: &Vec<Vec<bool>>,
    Ghost(m): Ghost<ModuleView>,
)
    requires
        at < m.functions.len(),
        old(func)@ == m.functions[at as int],
        internal@.len() == m.functions.len(),
        masks@.len() == m.functions.len(),
        forall|f: int|
            0 <= f < internal@.len() ==> #[trigger] internal@[f] == m.functions[f].internal_only,
        forall|f: int|
            0 <= f < masks@.len() && m.functions[f].internal_only ==> (#[trigger] masks@[f])@
                == live_mask(m, f),
    ensures
        final(func)@ == kept_func(m, at as int),
{
    let ghost f = func@;
    if internal[at] {
        let ghost before = func.params@;
        proof {
            assert(masks@[at as int]@ == live_mask(m, at as int));
        }
        retain_mask(&mut func.params, &masks[at]);
        proof {
            lemma_masked_map(before, f.params, masks@[at as int]@, |p: Param| p@);
            assert(func@.params =~= masked(f.params, masks@[at as int]@));
        }
    }
    let ghost params = func@.params;
    let mut b: usize = 0;
    while b < func.blocks.len()
        invariant
            b <= f.blocks.len(),
            func.blocks@.len() == f.blocks.len(),
            func@ == (FuncView { blocks: func@.blocks, params, ..f }),
            internal@.len() == m.functions.len(),
            masks@.len() == m.functions.len(),
            forall|f: int|
                0 <= f < internal@.len() ==> #[trigger] internal@[f]
                    == m.functions[f].internal_only,
            forall|f: int|
                0 <= f < masks@.len() && m.functions[f].internal_only ==> (#[trigger] masks@[f])@
                    == live_mask(m, f),
            forall|k: int|
                0 <= k < b ==> (#[trigger] func.blocks@[k])@ == kept_block(m, f.blocks[k]),
            forall|k: int| b <= k < f.blocks.len() ==> (#[trigger] func.blocks@[k])@ == f.blocks[k],
        decreases f.blocks.len() - b,
    {
        proof {
            assert(func.blocks@[b as int]@ == f.blocks[b as int]);
        }
        trim_block(&mut func.blocks[b], internal, masks, Ghost(m));
        b = b + 1;
    }
    proof {
        assert(func@.blocks =~= kept_func(m, at as int).blocks);
    }
}

/// The dead-argument elimination pass.
pub struct DeadArgElim;

impl Pass for DeadArgElim {
    open spec fn accepts(&self, m: ModuleView) -> bool {
        true
    }

    open spec fn outcome(&self, before: ModuleView, after: ModuleView, changed: bool) -> bool {
        after == without_dead_args(before) && changed == has_dead_slot(before)
    }

    fn name(&self) -> (r: &'static str)
        ensures
            r@ == "dead-arg-elim"@,
    {
        "dead-arg-elim"
    }

    fn run(&self, module: &mut Module) -> (changed: bool) {
        let ghost m = module@;
        let masks = live_masks(module);
        if !any_dead(module, &masks) {
            return false;
        }
        let mut internal: Vec<bool> = Vec::new();
        let mut i: usize = 0;
        while i < module.functions.len()
            invariant
                i <= m.functions.len(),
                module@ == m,
                internal@.len() == i,
                forall|k: int| 0 <= k < i ==> #[trigger] internal@[k] == m.functions[k].internal_only,
            decreases m.functions.len() - i,
        {
            proof {
                assert(m.functions[i as int] == module.functions@[i as int]@);
            }
            internal.push(module.functions[i].internal_only);
            i = i + 1;
        }
        let mut f: usize = 0;
        while f < module.functions.len()
            invariant
                f <= m.functions.len(),
                module.functions@.len() == m.functions.len(),
                module@ == (ModuleView { functions: module@.functions, ..m }),
                internal@.len() == m.functions.len(),
                masks@.len() == m.functions.len(),
                forall|k: int|
                    0 <= k < internal@.len() ==> #[trigger] internal@[k]
                        == m.functions[k].internal_only,
                forall|k: int|
                    0 <= k < masks@.len() && m.functions[k].internal_only ==> (
                    #[trigger] masks@[k])@ == live_mask(m, k),
                forall|k: int| 0 <= k < f ==> (#[trigger] module.functions@[k])@ == kept_func(m, k),
                forall|k: int|
                    f <= k < m.functions.len() ==> (#[trigger] module.functions@[k])@
                        == m.functions[k],
            decreases m.functions.len() - f,
        {
            proof {
                assert(module.functions@[f as int]@ == m.functions[f as int]);
            }
            trim_function(&mut module.functions[f], f, &internal, &masks, Ghost(m));
            f = f + 1;
        }
        proof {
            assert(module@.functions =~= without_dead_args(m).functions);
        }
        true
    }
}

} // verus!
