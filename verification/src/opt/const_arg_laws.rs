//! Functions stay sound where constants take the place of parameters.

use crate::ir::cfg::{lemma_entry_reachable, reachable};
use crate::ir::inst::{
    block_pos, defs, has_block, last_def, lemma_block_pos, param_defs, type_of, Def, FuncView,
    InstView, ModuleView, ParamView, ValueId,
};
use crate::ir::keep::{
    all_operands, has_operands, lemma_same_dominance, lemma_same_place, value_names_used,
};
use crate::ir::sound::{
    all_on_the_way, defined_on_the_way, sound_block, sound_function, sound_module,
};
use crate::ir::verify::is_defined;
use crate::ir::walk::{renamed_func, renamed_list, renaming};
use crate::opt::const_arg::{
    const_type, edits_for, func_plan, is_plan, lemma_renamed_all_reads, loads_from, loads_upto,
    mode_of, renamed_all, slot_plan, specialized, with_consts, ConstArgSpecialize, ParamMode,
    ScalarConst,
};
use crate::opt::dce::{block_reads, reads};
use crate::opt::floats::{FloatReply, FloatRequest};
use crate::opt::insts::insts_of;
use crate::opt::pass::Pass;
use crate::opt::prune_laws::{lemma_sound_unique, lemma_unique_def};
use crate::opt::rewire_laws::{
    at_hand, can_rename, gives_const, lemma_frames_chain, lemma_fronted, lemma_inst_def,
    lemma_inst_place, lemma_renamed_sound, lemma_same_frames, lemma_without_unread, moved,
    next_consts, reads_at, same_frame, same_frames, takes_consts,
};
use vstd::prelude::*;

verus! {

/// Has a constant the type of the parameter, or of what is loaded from it, where
/// that is read?
pub open spec fn constant_fits(f: FuncView, p: ParamView, mode: ParamMode, c: ScalarConst) -> bool {
    match mode {
        ParamMode::ByValueScalar => reads(f, p.id) ==> const_type(c) == p.ty,
        ParamMode::ReadOnlyScalarPtr => forall|k: int|
            0 <= k < insts_of(f).len() && loads_from(#[trigger] insts_of(f)[k], p.id) && reads(
                f,
                insts_of(f)[k].id,
            ) ==> insts_of(f)[k].ty == const_type(c),
    }
}

/// Have the constants that are planned the types that they need?
pub open spec fn plan_fits(f: FuncView, plan: Seq<Option<(ParamMode, ScalarConst)>>) -> bool {
    &&& plan.len() == f.params.len()
    &&& forall|p: int|
        0 <= p < plan.len() ==> (#[trigger] plan[p] matches Some((mode, c)) ==> mode_of(
            f,
            f.params[p],
        ) == Some(mode) && constant_fits(f, f.params[p], mode, c))
}

/// Can constants take the place of parameters as planned?
spec fn ready(f: FuncView, plan: Seq<Option<(ParamMode, ScalarConst)>>) -> bool {
    &&& has_block(f.blocks, f.entry)
    &&& sound_function(f)
    &&& all_operands(f)
    &&& value_names_used(f)
    &&& f.next_value + plan.len() <= u32::MAX
    &&& plan_fits(f, plan)
}

/// Is `w` a constant, of the type of `v` where that is read, and does control come
/// to where `v` is defined?
spec fn replaces(f: FuncView, consts: Seq<InstView>, v: ValueId, w: ValueId) -> bool {
    exists|k: int, d: Def|
        #![trigger consts[k], defs(f).contains(d)]
        0 <= k < consts.len() && consts[k].id == w && defs(f).contains(d) && d.id == v && (reads(
            f,
            v,
        ) ==> d.ty == consts[k].ty) && reachable(f, d.block)
}

/// A parameter is defined in the entry.
proof fn lemma_param_def(f: FuncView, p: int)
    requires
        0 <= p < f.params.len(),
    ensures
        defs(f).contains(Def { id: f.params[p].id, ty: f.params[p].ty, block: f.entry }),
        reachable(f, f.entry),
{
    let d = Def { id: f.params[p].id, ty: f.params[p].ty, block: f.entry };
    lemma_entry_reachable(f);
    assert(param_defs(f.params, f.entry)[p] == d);
    assert(defs(f)[p] == d);
}

/// Control comes to where a parameter is loaded from.
proof fn lemma_load_def(f: FuncView, p: int, x: int)
    requires
        has_block(f.blocks, f.entry),
        sound_function(f),
        all_operands(f),
        0 <= p < f.params.len(),
        0 <= x < insts_of(f).len(),
        loads_from(insts_of(f)[x], f.params[p].id),
    ensures
        exists|d: Def| #[trigger]
            defs(f).contains(d) && d.id == insts_of(f)[x].id && d.ty == insts_of(f)[x].ty
                && reachable(f, d.block),
{
    let i = insts_of(f)[x];
    let v = f.params[p].id;
    assert(insts_of(f).contains(i));
    let (b, k) = lemma_inst_place(f, f.blocks.len(), i);
    let y = f.blocks[b];
    let d = Def { id: i.id, ty: i.ty, block: y.id };
    lemma_inst_def(f, b, k);
    assert(defs(f).contains(d));
    lemma_param_def(f, p);
    lemma_sound_unique(f);
    lemma_unique_def(defs(f), Def { id: v, ty: f.params[p].ty, block: f.entry });
    assert(sound_block(f, f.blocks[b]));
    assert(has_operands(f.blocks[b].insts[k]));
    assert(all_on_the_way(f, f.blocks[b], f.blocks[b].insts[k].kind.args, k));
    assert(defined_on_the_way(f, y, i.kind.args[0], k));
}

proof fn lemma_loads_are(s: Seq<InstView>, n: nat, v: ValueId, i: int)
    requires
        n <= s.len(),
        0 <= i < loads_upto(s, n, v).len(),
    ensures
        exists|x: int| 0 <= x < n && loads_from(#[trigger] s[x], v) && s[x].id == loads_upto(s, n, v)[i],
    decreases n,
{
    if n > 0 {
        let before = loads_upto(s, (n - 1) as nat, v);
        if i < before.len() {
            lemma_loads_are(s, (n - 1) as nat, v, i);
            assert(loads_upto(s, n, v)[i] == before[i]);
        } else {
            assert(loads_from(s[n - 1], v));
        }
    }
}

/// What the edits define, read and drop.
proof fn lemma_planned(f: FuncView, plan: Seq<Option<(ParamMode, ScalarConst)>>, n: nat)
    requires
        ready(f, plan),
        n <= plan.len(),
    ensures
        ({
            let e = edits_for(f, plan, n);
            &&& e.consts.len() <= n
            &&& next_consts(f, e.consts)
            &&& forall|i: int|
                0 <= i < e.subs.len() ==> replaces(
                    f,
                    e.consts,
                    (#[trigger] e.subs[i]).0,
                    e.subs[i].1,
                )
            &&& forall|v: ValueId| #[trigger]
                e.loads.contains(v) ==> exists|i: int|
                    0 <= i < e.subs.len() && (#[trigger] e.subs[i]).0 == v
        }),
    decreases n,
{
    if n > 0 {
        lemma_planned(f, plan, (n - 1) as nat);
        let b = edits_for(f, plan, (n - 1) as nat);
        let e = edits_for(f, plan, n);
        let p = n - 1;
        let param = f.params[p].id;
        let s = insts_of(f);
        let found = loads_upto(s, s.len(), param);
        match plan[p] {
            Some((mode, c)) => {
                let last = e.consts.len() - 1;
                let id = e.consts[last].id;
                assert(e.consts[last].ty == const_type(c));
                assert(gives_const(e.consts[last]));
                assert forall|k: int| 0 <= k < e.consts.len() implies (#[trigger] e.consts[k]).id
                    == ValueId((f.next_value + k) as u32) && gives_const(e.consts[k]) by {
                    if k < last {
                        assert(e.consts[k] == b.consts[k]);
                    }
                }
                assert forall|i: int| 0 <= i < e.subs.len() implies replaces(
                    f,
                    e.consts,
                    (#[trigger] e.subs[i]).0,
                    e.subs[i].1,
                ) by {
                    if i < b.subs.len() {
                        assert(e.subs[i] == b.subs[i]);
                        assert(replaces(f, b.consts, b.subs[i].0, b.subs[i].1));
                        let (k, d) = choose|k: int, d: Def|
                            #![trigger b.consts[k], defs(f).contains(d)]
                            0 <= k < b.consts.len() && b.consts[k].id == b.subs[i].1
                                && defs(f).contains(d) && d.id == b.subs[i].0 && (reads(
                                f,
                                b.subs[i].0,
                            ) ==> d.ty == b.consts[k].ty) && reachable(f, d.block);
                        assert(e.consts[k] == b.consts[k]);
                        assert(defs(f).contains(d));
                    } else {
                        assert(mode_of(f, f.params[p]) == Some(mode));
                        assert(constant_fits(f, f.params[p], mode, c));
                        match mode {
                            ParamMode::ByValueScalar => {
                                lemma_param_def(f, p);
                                assert(e.subs[i] == (param, id));
                                assert(e.consts[last].id == id);
                            },
                            ParamMode::ReadOnlyScalarPtr => {
                                let j = i - b.subs.len();
                                assert(e.subs[i] == (found[j], id));
                                lemma_loads_are(s, s.len(), param, j);
                                let x = choose|x: int|
                                    0 <= x < s.len() && loads_from(#[trigger] s[x], param)
                                        && s[x].id == found[j];
                                lemma_load_def(f, p, x);
                                let d = choose|d: Def| #[trigger]
                                    defs(f).contains(d) && d.id == s[x].id && d.ty == s[x].ty
                                        && reachable(f, d.block);
                                assert(defs(f).contains(d));
                                assert(e.consts[last].id == id);
                            },
                        }
                    }
                }
                assert forall|v: ValueId| #[trigger] e.loads.contains(v) implies exists|i: int|
                    0 <= i < e.subs.len() && (#[trigger] e.subs[i]).0 == v by {
                    let i = e.loads.index_of(v);
                    if i < b.loads.len() {
                        assert(b.loads[i] == v);
                        assert(b.loads.contains(v));
                        let j = choose|j: int| 0 <= j < b.subs.len() && (#[trigger] b.subs[j]).0 == v;
                        assert(e.subs[j] == b.subs[j]);
                    } else {
                        let j = i - b.loads.len();
                        assert(e.subs[b.subs.len() + j].0 == found[j]);
                    }
                }
            },
            None => {},
        }
    }
}

/// A function that reads constants in place of what they replace is sound.
proof fn lemma_renamings(f: FuncView, consts: Seq<InstView>, subs: Seq<(ValueId, ValueId)>, n: nat)
    requires
        takes_consts(f, consts),
        n <= subs.len(),
        forall|i: int|
            0 <= i < subs.len() ==> replaces(f, consts, (#[trigger] subs[i]).0, subs[i].1),
    ensures
        ({
            let h = with_consts(f, consts);
            let g = renamed_all(h, subs, n);
            let at = block_pos(f.blocks, f.entry);
            &&& sound_function(g)
            &&& all_operands(g)
            &&& same_frames(h, g)
            &&& has_block(g.blocks, g.entry)
            &&& forall|k: int|
                0 <= k < consts.len() ==> (#[trigger] g.blocks[at].insts[k]).kind.args.len() == 0
        }),
    decreases n,
{
    let h = with_consts(f, consts);
    let at = block_pos(f.blocks, f.entry);
    lemma_block_pos(f.blocks, f.entry);
    lemma_fronted(f, consts);
    if n == 0 {
        assert forall|i: int| 0 <= i < h.blocks.len() implies same_frame(
            h.blocks[i],
            #[trigger] h.blocks[i],
        ) by {}
        assert forall|k: int| 0 <= k < consts.len() implies (#[trigger] h.blocks[at].insts[k]).kind.args.len()
            == 0 by {
            assert(h.blocks[at].insts[k] == consts[k]);
            assert(gives_const(consts[k]));
        }
    } else {
        lemma_renamings(f, consts, subs, (n - 1) as nat);
        let r = renamed_all(h, subs, (n - 1) as nat);
        let (from, to) = subs[n - 1];
        let m = renaming(from, to);
        let g = renamed_all(h, subs, n);
        assert(g == renamed_func(r, m));
        assert(replaces(f, consts, subs[n - 1].0, subs[n - 1].1));
        if reads(r, from) {
            lemma_read_in(f, consts, subs, (n - 1) as nat, from);
        }
        lemma_can_replace(f, consts, r, from, to);
        lemma_renamed_sound(r, m);
        lemma_frames_chain(h, r, g);
        lemma_same_place(r.blocks, g.blocks, r.entry);
        assert forall|k: int| 0 <= k < consts.len() implies (#[trigger] g.blocks[at].insts[k]).kind.args.len()
            == 0 by {
            assert(same_frame(h.blocks[at], r.blocks[at]));
            assert(r.blocks[at].insts[k].kind.args.len() == 0);
            assert(g.blocks[at].insts[k].kind.args == renamed_list(
                r.blocks[at].insts[k].kind.args,
                m,
            ));
        }
    }
}

/// A value that is replaced is read only where the function reads it.
proof fn lemma_read_in(
    f: FuncView,
    consts: Seq<InstView>,
    subs: Seq<(ValueId, ValueId)>,
    n: nat,
    v: ValueId,
)
    requires
        takes_consts(f, consts),
        n < subs.len(),
        subs[n as int].0 == v,
        forall|i: int|
            0 <= i < subs.len() ==> replaces(f, consts, (#[trigger] subs[i]).0, subs[i].1),
        reads(renamed_all(with_consts(f, consts), subs, n), v),
    ensures
        reads(f, v),
{
    let h = with_consts(f, consts);
    let g = renamed_all(h, subs, n);
    assert(replaces(f, consts, subs[n as int].0, subs[n as int].1));
    let d = choose|d: Def| #[trigger] defs(f).contains(d) && d.id == v;
    assert(defs(f)[defs(f).index_of(d)].id.0 < f.next_value);
    assert forall|j: int| 0 <= j < n implies (#[trigger] subs[j]).1 != v by {
        assert(replaces(f, consts, subs[j].0, subs[j].1));
    }
    lemma_renamed_all_reads(h, subs, n, v);
    lemma_fronted(f, consts);
    let b = choose|b: int| 0 <= b < g.blocks.len() && block_reads(#[trigger] g.blocks[b], v);
    if exists|k: int|
        0 <= k < g.blocks[b].insts.len() && (#[trigger] g.blocks[b].insts[k]).kind.args.contains(v) {
        let k = choose|k: int|
            0 <= k < g.blocks[b].insts.len() && (#[trigger] g.blocks[b].insts[k]).kind.args.contains(
                v,
            );
        assert(h.blocks[b].insts[k].kind.args.contains(v));
        let m = moved(f, consts, b);
        if k < m {
            assert(h.blocks[b].insts[k] == consts[k]);
            assert(gives_const(consts[k]));
        } else {
            assert(h.blocks[b].insts[k] == f.blocks[b].insts[k - m]);
        }
    }
    assert(block_reads(f.blocks[b], v));
}

/// Where a value is read, the constant that replaces it is at hand.
proof fn lemma_can_replace(
    f: FuncView,
    consts: Seq<InstView>,
    r: FuncView,
    from: ValueId,
    to: ValueId,
)
    requires
        takes_consts(f, consts),
        same_frames(with_consts(f, consts), r),
        forall|k: int|
            0 <= k < consts.len() ==> (#[trigger] r.blocks[block_pos(
                f.blocks,
                f.entry,
            )].insts[k]).kind.args.len() == 0,
        replaces(f, consts, from, to),
        reads(r, from) ==> reads(f, from),
    ensures
        can_rename(r, renaming(from, to)),
{
    let h = with_consts(f, consts);
    let m = renaming(from, to);
    lemma_fronted(f, consts);
    lemma_same_frames(h, r);
    lemma_same_dominance(f, h);
    lemma_same_dominance(h, r);
    let (k, d) = choose|k: int, d: Def|
        #![trigger consts[k], defs(f).contains(d)]
        0 <= k < consts.len() && consts[k].id == to && defs(f).contains(d) && d.id == from && (
        reads(f, from) ==> d.ty == consts[k].ty) && reachable(f, d.block);
    assert(defs(f).contains(d));
    assert(last_def(defs(r), from) == Some(d));
    assert forall|i: int, v: ValueId, at: int|
        0 <= i < r.blocks.len() && m.contains_key(v) && block_reads(r.blocks[i], v) && reads_at(
            r.blocks[i],
            v,
            at,
        ) && #[trigger] at_hand(r, i, v, at) implies at_hand(r, i, m[v], at) && type_of(r, m[v])
        == type_of(r, v) by {
        assert(same_frame(h.blocks[i], r.blocks[i]));
        assert(reachable(f, f.blocks[i].id));
        assert(moved(f, consts, i) <= at);
        assert(reads(r, from));
        assert(at_hand(h, i, consts[k].id, at));
        assert(defined_on_the_way(r, r.blocks[i], to, at) == defined_on_the_way(
            h,
            h.blocks[i],
            to,
            at,
        ));
        assert(is_defined(r, to));
        assert(type_of(h, consts[k].id) == Some(consts[k].ty));
    }
}

/// A function with constants in place of parameters stays sound.
proof fn lemma_specialized_sound(f: FuncView, plan: Seq<Option<(ParamMode, ScalarConst)>>)
    requires
        ready(f, plan),
    ensures
        sound_function(specialized(f, plan)),
{
    if is_plan(plan) {
        let e = edits_for(f, plan, plan.len());
        let h = with_consts(f, e.consts);
        let g = renamed_all(h, e.subs, e.subs.len());
        lemma_planned(f, plan, plan.len());
        lemma_renamings(f, e.consts, e.subs, e.subs.len());
        if e.loads.len() > 0 {
            assert forall|v: ValueId| #[trigger] e.loads.to_set().contains(v) implies !reads(g, v) by {
                assert(e.loads.contains(v));
                let i = choose|i: int| 0 <= i < e.subs.len() && (#[trigger] e.subs[i]).0 == v;
                assert(replaces(f, e.consts, e.subs[i].0, e.subs[i].1));
                let d = choose|d: Def| #[trigger] defs(f).contains(d) && d.id == v;
                assert(defs(f)[defs(f).index_of(d)].id.0 < f.next_value);
                assert forall|j: int| 0 <= j < e.subs.len() implies (#[trigger] e.subs[j]).1 != v by {
                    assert(replaces(f, e.consts, e.subs[j].0, e.subs[j].1));
                }
                lemma_renamed_all_reads(h, e.subs, e.subs.len(), v);
                if reads(g, v) {
                    let b = choose|b: int|
                        0 <= b < g.blocks.len() && block_reads(#[trigger] g.blocks[b], v);
                    assert(e.subs[i].0 == v);
                }
            }
            lemma_without_unread(g, e.loads.to_set());
        }
    }
}

/// Putting constants in place of parameters keeps a sound module sound where the
/// constants have the types of the parameters, or of what is loaded from them, as
/// far as these are read.
pub proof fn specializing_keeps_soundness<E: Fn(FloatRequest) -> FloatReply>(
    pass: ConstArgSpecialize<E>,
    before: ModuleView,
    after: ModuleView,
    changed: bool,
)
    requires
        pass.accepts(before),
        pass.outcome(before, after, changed),
        sound_module(before),
        forall|i: int|
            0 <= i < before.functions.len() ==> all_operands(#[trigger] before.functions[i])
                && value_names_used(before.functions[i]),
        forall|i: int, p: int|
            0 <= i < before.functions.len() && 0 <= p < before.functions[i].params.len() ==> (
            #[trigger] slot_plan(pass.floats, before, i, p) matches Some((mode, c))
                ==> constant_fits(before.functions[i], before.functions[i].params[p], mode, c)),
    ensures
        sound_module(after),
{
    assert forall|i: int| 0 <= i < after.functions.len() implies sound_function(
        #[trigger] after.functions[i],
    ) by {
        let f = before.functions[i];
        let plan = func_plan(pass.floats, before, i);
        assert(sound_function(before.functions[i]));
        assert(after.functions[i] == specialized(f, plan));
        if is_plan(plan) {
            assert forall|p: int| 0 <= p < plan.len() implies (#[trigger] plan[p] matches Some(
                (mode, c),
            ) ==> mode_of(f, f.params[p]) == Some(mode) && constant_fits(f, f.params[p], mode, c)) by {
                assert(plan[p] == slot_plan(pass.floats, before, i, p));
            }
            assert(is_plan(func_plan(pass.floats, before, i)));
            lemma_specialized_sound(f, plan);
        }
    }
}

} // verus!
