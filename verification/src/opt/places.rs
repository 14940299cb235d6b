//! Where pointers point, and that alias analysis tells it truly.
//!
//! Storage consists of areas: one for each stack slot and each global, and those
//! that the caller hands over. A place is so many bytes into an area.

use crate::ir::inst::{type_of, FuncView, InstView, Op, ValueId};
use crate::ir::types::{type_size, IrType};
use crate::opt::alias::{
    alias, base_at, base_of, chain_at, def_inst, element_addresses_have_a_root, gep_base, gep_step,
    is_param, lemma_chain_rests, lemma_root_chain, loaded_param, location_of, noalias_param,
    offset_of, param_flag, path_offset, reaches_through_call, root, root_of, separate_bases,
    stored_param, stores_in, stores_to, AliasResult, BaseView,
};
use crate::opt::insts::{first_inst, insts_of, lemma_first_inst, lemma_last_inst};
use crate::ir::inst::ParamView;
use crate::target::TargetLayout;
use vstd::prelude::*;

verus! {

/// A place in storage: so many bytes into an area.
pub struct Place {
    pub area: int,
    pub byte: int,
}

/// Where the pointers of a run point.
pub struct Whereabouts {
    /// Where a value points.
    pub at: spec_fn(ValueId) -> Place,
    /// The area of a global.
    pub global: spec_fn(Seq<char>) -> int,
    /// How many element addresses a value is counted through.
    pub depth: spec_fn(ValueId) -> nat,
}

/// Is `v` a parameter?
pub open spec fn among_params(f: FuncView, v: ValueId) -> bool {
    exists|k: int| 0 <= k < f.params.len() && (#[trigger] f.params[k]).id == v
}

/// Is `v` a parameter that nothing else refers to, by the rules of the language?
pub open spec fn unaliased(f: FuncView, v: ValueId) -> bool {
    &&& among_params(f, v)
    &&& forall|k: int|
        0 <= k < f.params.len() && (#[trigger] f.params[k]).id == v
            ==> f.params[k].fortran_noalias
}

/// Is `c` the integer constant that `v` is?
pub open spec fn is_constant(f: FuncView, v: ValueId, c: i128) -> bool {
    exists|k: int|
        0 <= k < insts_of(f).len() && (#[trigger] insts_of(f)[k]).id == v && (
        insts_of(f)[k].kind.op matches Op::ConstInt(n, _) && n == c)
}

/// Is the parameter `p` all that is ever stored to the address `slot`?
pub open spec fn only_holds(f: FuncView, slot: ValueId, p: ValueId) -> bool {
    &&& exists|k: int|
        0 <= k < insts_of(f).len() && (#[trigger] insts_of(f)[k]).kind.op is Store
            && insts_of(f)[k].kind.args[1] == slot
    &&& forall|k: int|
        0 <= k < insts_of(f).len() && (#[trigger] insts_of(f)[k]).kind.op is Store
            && insts_of(f)[k].kind.args[1] == slot ==> insts_of(f)[k].kind.args[0] == p
}

/// Does an instruction leave a pointer where it should?
pub open spec fn points(w: Whereabouts, f: FuncView, layout: TargetLayout, i: InstView) -> bool {
    let at = w.at;
    match i.kind.op {
        Op::Alloca(_) => at(i.id).byte == 0,
        Op::GlobalAddr(name) => at(i.id) == (Place { area: (w.global)(name), byte: 0 }),
        Op::GetElementPtr => {
            &&& at(i.id).area == at(i.kind.args[0]).area
            &&& (w.depth)(i.id) > (w.depth)(i.kind.args[0])
            &&& forall|c: i128|
                i.kind.args.len() == 2 && #[trigger] is_constant(f, i.kind.args[1], c) ==> (
                i.ty matches IrType::Ptr(inner) ==> at(i.id).byte == at(i.kind.args[0]).byte + c
                    * type_size(*inner, layout))
        },
        Op::Load => forall|k: int, p: ValueId|
            0 <= k < insts_of(f).len() && (#[trigger] insts_of(f)[k]).kind.op is Alloca && at(
                insts_of(f)[k].id,
            ) == at(i.kind.args[0]) && among_params(f, p) && #[trigger] only_holds(
                f,
                insts_of(f)[k].id,
                p,
            ) ==> at(i.id) == at(p),
        _ => true,
    }
}

/// Is instruction `k` a stack slot?
pub open spec fn slot_at(f: FuncView, k: int) -> bool {
    0 <= k < insts_of(f).len() && insts_of(f)[k].kind.op is Alloca
}

/// Is the map one of a run of the function? Each slot has an area of its own, so
/// has each global, and so have parameters that nothing else refers to; what the
/// caller hands over lies in no slot.
pub open spec fn laid_out(w: Whereabouts, f: FuncView, layout: TargetLayout) -> bool {
    let at = w.at;
    &&& forall|k: int| 0 <= k < insts_of(f).len() ==> points(w, f, layout, #[trigger] insts_of(f)[k])
    &&& forall|j: int, k: int|
        #[trigger] slot_at(f, j) && #[trigger] slot_at(f, k) && insts_of(f)[j].id != insts_of(f)[k].id
            ==> at(insts_of(f)[j].id).area != at(insts_of(f)[k].id).area
    &&& forall|j: int, name: Seq<char>| #[trigger]
        slot_at(f, j) ==> at(insts_of(f)[j].id).area != #[trigger] (w.global)(name)
    &&& forall|j: int, p: ValueId| #[trigger]
        slot_at(f, j) && #[trigger] among_params(f, p) ==> at(insts_of(f)[j].id).area != at(p).area
    &&& forall|x: Seq<char>, y: Seq<char>|
        x != y ==> #[trigger] (w.global)(x) != #[trigger] (w.global)(y)
    &&& forall|p: ValueId, q: ValueId| #[trigger]
        unaliased(f, p) && #[trigger] unaliased(f, q) && p != q ==> at(p).area != at(q).area
}

proof fn lemma_param_flag(params: Seq<ParamView>, v: ValueId)
    ensures
        param_flag(params, v) is Some <==> exists|k: int|
            0 <= k < params.len() && (#[trigger] params[k]).id == v,
        param_flag(params, v) matches Some(b) ==> exists|k: int|
            0 <= k < params.len() && (#[trigger] params[k]).id == v && params[k].fortran_noalias == b,
    decreases params.len(),
{
    if params.len() > 0 {
        let t = params.drop_last();
        lemma_param_flag(t, v);
        let n = params.len() - 1;
        assert(params[n] == params.last());
        assert forall|k: int| 0 <= k < t.len() implies #[trigger] t[k] == params[k] by {}
        if params.last().id != v {
            if let Some(b) = param_flag(t, v) {
                let k = choose|k: int|
                    0 <= k < t.len() && (#[trigger] t[k]).id == v && t[k].fortran_noalias == b;
                assert(params[k].id == v);
            }
            if exists|k: int| 0 <= k < params.len() && (#[trigger] params[k]).id == v {
                let k = choose|k: int| 0 <= k < params.len() && (#[trigger] params[k]).id == v;
                assert(t[k].id == v);
            }
        }
    }
}

/// The known area does not change along element addresses, and the bytes add up.
proof fn lemma_path(w: Whereabouts, f: FuncView, layout: TargetLayout, v: ValueId, fuel: nat)
    requires
        laid_out(w, f, layout),
    ensures
        (w.at)(v).area == (w.at)(root(f, v, fuel)).area,
        path_offset(f, layout, v, fuel) matches Some(n) ==> (w.at)(v).byte == (w.at)(
            root(f, v, fuel),
        ).byte + n,
    decreases fuel,
{
    if fuel > 0 {
        if let Some(b) = gep_base(f, v) {
            lemma_path(w, f, layout, b, (fuel - 1) as nat);
            let i = def_inst(f, v)->0;
            lemma_last_inst(insts_of(f), v);
            let k = insts_of(f).index_of(i);
            assert(insts_of(f)[k] == i);
            assert(points(w, f, layout, insts_of(f)[k]));
            if let Some(d) = gep_step(f, layout, i) {
                let c = i.kind.args[1];
                lemma_first_inst(insts_of(f), c);
                let j = first_inst(insts_of(f), c)->0;
                let m = insts_of(f).index_of(j);
                assert(insts_of(f)[m] == j);
                if let Op::ConstInt(n, _) = j.kind.op {
                    assert(is_constant(f, c, n));
                }
            }
        }
    }
}

/// Chains of element addresses end.
proof fn lemma_rooted(w: Whereabouts, f: FuncView, layout: TargetLayout, v: ValueId)
    requires
        laid_out(w, f, layout),
    ensures
        gep_base(f, root_of(f, v)) is None,
{
    assert forall|i: nat, j: nat|
        i < j <= insts_of(f).len() && gep_base(f, #[trigger] chain_at(f, v, i)) is Some implies chain_at(
        f,
        v,
        i,
    ) != #[trigger] chain_at(f, v, j) by {
        lemma_deeper(w, f, layout, v, i, j);
    }
    element_addresses_have_a_root(f, v);
}

proof fn lemma_deeper(w: Whereabouts, f: FuncView, layout: TargetLayout, v: ValueId, i: nat, j: nat)
    requires
        laid_out(w, f, layout),
        i < j,
        gep_base(f, chain_at(f, v, i)) is Some,
    ensures
        (w.depth)(chain_at(f, v, i)) > (w.depth)(chain_at(f, v, j)),
    decreases j,
{
    let u = chain_at(f, v, (j - 1) as nat);
    if i < j - 1 {
        lemma_deeper(w, f, layout, v, i, (j - 1) as nat);
    }
    if let Some(b) = gep_base(f, u) {
        let d = def_inst(f, u)->0;
        lemma_last_inst(insts_of(f), u);
        let k = insts_of(f).index_of(d);
        assert(insts_of(f)[k] == d);
        assert(points(w, f, layout, insts_of(f)[k]));
    }
}

/// Where the base of a pointer is, there is the root that it is counted from.
proof fn lemma_base(w: Whereabouts, f: FuncView, layout: TargetLayout, v: ValueId)
    requires
        laid_out(w, f, layout),
    ensures
        match base_at(f, layout, v) {
            BaseView::Alloca(x) => x == v && (w.at)(v).byte == 0 && exists|k: int| #[trigger]
                slot_at(f, k) && insts_of(f)[k].id == x,
            BaseView::Global(name) => (w.at)(v) == (Place { area: (w.global)(name), byte: 0 }),
            BaseView::Param(p) => among_params(f, p) && (w.at)(v) == (w.at)(p),
            BaseView::Unknown => true,
        },
{
    lemma_param_flag(f.params, v);
    if !is_param(f, v) {
        if let Some(i) = def_inst(f, v) {
            lemma_last_inst(insts_of(f), v);
            let k = insts_of(f).index_of(i);
            assert(insts_of(f)[k] == i);
            assert(points(w, f, layout, insts_of(f)[k]));
            match i.kind.op {
                Op::Alloca(_) => {
                    assert(slot_at(f, k));
                },
                Op::Load => {
                    let addr = i.kind.args[0];
                    if let Some(p) = loaded_param(f, layout, addr) {
                        lemma_loaded(w, f, layout, addr, p);
                        let m = choose|m: int|
                            slot_at(f, m) && (w.at)(insts_of(f)[m].id) == (w.at)(addr)
                                && #[trigger] only_holds(f, insts_of(f)[m].id, p);
                        assert(insts_of(f)[m].kind.op is Alloca);
                    }
                },
                _ => {},
            }
        }
    }
}

proof fn lemma_stored(f: FuncView, slot: ValueId, p: ValueId)
    requires
        stored_param(f, slot) == Some(p),
    ensures
        among_params(f, p),
        only_holds(f, slot, p),
{
    let s = insts_of(f);
    let keep = |i: InstView| stores_to(i, slot);
    let t = stores_in(s, slot);
    lemma_param_flag(f.params, p);
    s.lemma_filter_pred(keep, 0);
    assert(t.contains(t[0]));
    s.lemma_filter_contains_rev(keep, t[0]);
    let k = s.index_of(t[0]);
    assert(s[k].kind.op is Store);
    assert forall|k: int|
        0 <= k < s.len() && (#[trigger] s[k]).kind.op is Store && s[k].kind.args[1] == slot implies s[k].kind.args[0]
        == p by {
        assert(keep(s[k]));
        s.lemma_filter_contains(keep, k);
        let m = t.index_of(s[k]);
        assert(m == 0);
    }
}

proof fn lemma_loaded(w: Whereabouts, f: FuncView, layout: TargetLayout, addr: ValueId, p: ValueId)
    requires
        laid_out(w, f, layout),
        loaded_param(f, layout, addr) == Some(p),
    ensures
        among_params(f, p),
        exists|m: int|
            slot_at(f, m) && (w.at)(insts_of(f)[m].id) == (w.at)(addr) && #[trigger] only_holds(
                f,
                insts_of(f)[m].id,
                p,
            ),
{
    let i = def_inst(f, addr)->0;
    lemma_last_inst(insts_of(f), addr);
    let k = insts_of(f).index_of(i);
    assert(insts_of(f)[k] == i);
    if i.kind.op is Alloca {
        lemma_stored(f, addr, p);
        assert(slot_at(f, k));
        assert(only_holds(f, insts_of(f)[k].id, p));
    } else {
        let n = insts_of(f).len();
        let slot = root_of(f, i.kind.args[0]);
        lemma_stored(f, slot, p);
        lemma_last_inst(insts_of(f), slot);
        let d = def_inst(f, slot)->0;
        let m = insts_of(f).index_of(d);
        assert(insts_of(f)[m] == d);
        assert(slot_at(f, m));
        assert(points(w, f, layout, insts_of(f)[m]));
        lemma_path(w, f, layout, addr, n);
        lemma_path(w, f, layout, i.kind.args[0], n);
        assert(points(w, f, layout, insts_of(f)[k]));
        if gep_base(f, addr) is None {
            assert(is_param(f, addr));
            assert(false) by {
                assert(root(f, addr, n) == addr);
                lemma_param_flag(f.params, addr);
                assert((w.at)(addr).area == (w.at)(i.kind.args[0]).area);
                assert((w.at)(addr).area == (w.at)(slot).area);
                assert(among_params(f, addr));
            }
        } else {
            lemma_rooted(w, f, layout, addr);
            lemma_root_chain(f, addr, n);
            lemma_chain_rests(f, addr, n, n + 1);
            lemma_root_chain(f, addr, n + 1);
            assert(root(f, addr, n + 1) == root(f, i.kind.args[0], n));
        }
        assert(only_holds(f, insts_of(f)[m].id, p));
    }
}

/// Is the value behind a pointer an array or a structure, so that an access
/// through the pointer is one to more than a place?
pub open spec fn spreads(f: FuncView, v: ValueId) -> bool {
    type_of(f, v) matches Some(IrType::Ptr(inner)) && (*inner is Array || *inner is Struct)
}

/// Does an access through `v` get to the place?
pub open spec fn touches(w: Whereabouts, f: FuncView, v: ValueId, q: Place) -> bool {
    q == (w.at)(v) || (spreads(f, v) && q.area == (w.at)(v).area)
}

pub proof fn lemma_root_base(w: Whereabouts, f: FuncView, layout: TargetLayout, v: ValueId)
    requires
        laid_out(w, f, layout),
    ensures
        match base_of(f, layout, v) {
            BaseView::Alloca(x) => (w.at)(v).area == (w.at)(x).area && (w.at)(x).byte == 0
                && exists|k: int| #[trigger] slot_at(f, k) && insts_of(f)[k].id == x,
            BaseView::Global(name) => (w.at)(v).area == (w.global)(name),
            BaseView::Param(p) => among_params(f, p) && (w.at)(v).area == (w.at)(p).area,
            BaseView::Unknown => true,
        },
        offset_of(f, layout, v) matches Some(n) ==> match base_of(f, layout, v) {
            BaseView::Alloca(x) => (w.at)(v).byte == n,
            BaseView::Global(name) => (w.at)(v).byte == n,
            BaseView::Param(p) => (w.at)(v).byte == (w.at)(p).byte + n,
            BaseView::Unknown => false,
        },
{
    lemma_path(w, f, layout, v, insts_of(f).len());
    lemma_base(w, f, layout, root_of(f, v));
}

proof fn lemma_unaliased(f: FuncView, v: ValueId)
    requires
        noalias_param(f, v),
        forall|j: int, k: int|
            0 <= j < f.params.len() && 0 <= k < f.params.len() && (#[trigger] f.params[j]).id == (
            #[trigger] f.params[k]).id ==> j == k,
    ensures
        unaliased(f, v),
{
    lemma_param_flag(f.params, v);
    let k = choose|k: int|
        0 <= k < f.params.len() && (#[trigger] f.params[k]).id == v && f.params[k].fortran_noalias;
    assert(f.params[k].id == v);
}

/// Is each parameter named once?
pub open spec fn params_are_named(f: FuncView) -> bool {
    forall|j: int, k: int|
        0 <= j < f.params.len() && 0 <= k < f.params.len() && (#[trigger] f.params[j]).id == (
        #[trigger] f.params[k]).id ==> j == k
}

/// Storage from separate places is in different areas.
proof fn lemma_separate(w: Whereabouts, f: FuncView, layout: TargetLayout, a: ValueId, b: ValueId)
    requires
        laid_out(w, f, layout),
        params_are_named(f),
        separate_bases(f, base_of(f, layout, a), base_of(f, layout, b)),
    ensures
        (w.at)(a).area != (w.at)(b).area,
{
    lemma_root_base(w, f, layout, a);
    lemma_root_base(w, f, layout, b);
    let x = base_of(f, layout, a);
    let y = base_of(f, layout, b);
    match (x, y) {
        (BaseView::Param(p), BaseView::Param(q)) => {
            lemma_unaliased(f, p);
            lemma_unaliased(f, q);
        },
        _ => {},
    }
}

/// Pointers that do not alias get to no common place, and pointers that must
/// alias point to one place.
pub proof fn aliasing_is_about_places(
    w: Whereabouts,
    f: FuncView,
    layout: TargetLayout,
    a: ValueId,
    b: ValueId,
)
    requires
        laid_out(w, f, layout),
        params_are_named(f),
    ensures
        alias(f, layout, a, b) == AliasResult::NoAlias ==> forall|q: Place|
            !(#[trigger] touches(w, f, a, q) && touches(w, f, b, q)),
        alias(f, layout, a, b) == AliasResult::MustAlias ==> (w.at)(a) == (w.at)(b),
        location_of(f, layout, a) == location_of(f, layout, b) ==> (w.at)(a) == (w.at)(b),
{
    lemma_root_base(w, f, layout, a);
    lemma_root_base(w, f, layout, b);
    if separate_bases(f, base_of(f, layout, a), base_of(f, layout, b)) {
        lemma_separate(w, f, layout, a, b);
    }
}

/// A callee that cannot reach a location through a pointer was handed one into
/// another area.
pub proof fn unreached_is_elsewhere(
    w: Whereabouts,
    f: FuncView,
    layout: TargetLayout,
    entry: ValueId,
    arg: ValueId,
)
    requires
        laid_out(w, f, layout),
        params_are_named(f),
        forall|p: ValueId, name: Seq<char>| #[trigger]
            among_params(f, p) ==> (w.at)(p).area != #[trigger] (w.global)(name),
        !reaches_through_call(f, layout, entry, arg),
    ensures
        (w.at)(entry).area != (w.at)(arg).area,
{
    lemma_root_base(w, f, layout, entry);
    lemma_root_base(w, f, layout, arg);
    if separate_bases(f, base_of(f, layout, entry), base_of(f, layout, arg)) {
        lemma_separate(w, f, layout, entry, arg);
    }
}

} // verus!
