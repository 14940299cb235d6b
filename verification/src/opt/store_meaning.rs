//! Dead-store elimination is unseen: what loads and calls see of storage, and
//! what a block leaves in it, stays.

use crate::ir::inst::{type_of, FuncView, InstView, Op, ValueId};
use crate::ir::types::IrType;
use crate::lists::masked;
use crate::opt::alias::{base_of, BaseView};
use crate::opt::dse::{
    call_observes, dead_store, is_pointer, live_mask, observes, overwrites, stored_func,
};
use crate::opt::places::{
    aliasing_is_about_places, among_params, laid_out, lemma_root_base, params_are_named, slot_at,
    spreads, touches, unreached_is_elsewhere, Place, Whereabouts,
};
use crate::opt::insts::insts_of;
use crate::target::TargetLayout;
use vstd::prelude::*;

verus! {

/// What storage holds: a number for each part of each place.
pub type Storage = spec_fn(Place, int) -> int;

/// What an instruction sees of storage.
pub type Sight = spec_fn(Place, int) -> Option<int>;

/// How instructions read and write.
pub struct Machine {
    /// Where values point.
    pub map: Whereabouts,
    /// The values.
    pub val: spec_fn(ValueId) -> int,
    /// Does a value of the type, written at the first place, cover a part of the
    /// second?
    pub covers: spec_fn(Option<IrType>, Place, Place, int) -> bool,
    /// What a value, written at the first place, has for a part of the second.
    pub part: spec_fn(int, Place, Place, int) -> int,
    /// What an instruction that writes as it sees fit leaves, by what it sees.
    pub leaves: spec_fn(InstView, Sight) -> Storage,
}

/// Is a type one of more than a place?
pub open spec fn is_aggregate(ty: Option<IrType>) -> bool {
    ty matches Some(IrType::Array(_, _)) || ty matches Some(IrType::Struct(_))
}

/// Does a written value stay at its place, or in its area where it is larger?
pub open spec fn writes_stay(m: Machine) -> bool {
    forall|ty: Option<IrType>, p: Place, q: Place, k: int| #[trigger]
        (m.covers)(ty, p, q, k) ==> q == p || (is_aggregate(ty) && q.area == p.area)
}

/// Is what is stored through a pointer what the pointer points to?
pub open spec fn stores_are_typed(f: FuncView, s: Seq<InstView>) -> bool {
    forall|k: int|
        0 <= k < s.len() && (#[trigger] s[k]).kind.op is Store ==> spreads(f, s[k].kind.args[1])
            == is_aggregate(type_of(f, s[k].kind.args[0]))
}

/// Is what parameters point to no global? A global that is handed over is
/// accessed by its parameter alone.
pub open spec fn parameters_are_no_globals(w: Whereabouts, f: FuncView) -> bool {
    forall|p: ValueId, name: Seq<char>| #[trigger]
        among_params(f, p) ==> (w.at)(p).area != #[trigger] (w.global)(name)
}

/// May a callee find further pointers behind this one?
pub open spec fn leads_on(f: FuncView, v: ValueId) -> bool {
    match type_of(f, v) {
        Some(IrType::Ptr(inner)) => match *inner {
            IrType::Array(_, _) | IrType::Struct(_) | IrType::Ptr(_) | IrType::FuncPtr(_) => true,
            _ => false,
        },
        _ => false,
    }
}

/// Does a callee that receives the arguments from `first` on see a place? It sees
/// all globals and the areas that it gets pointers into, and everything where
/// such a pointer leads on.
pub open spec fn callee_sees(
    m: Machine,
    f: FuncView,
    args: Seq<ValueId>,
    first: int,
    q: Place,
) -> bool {
    ||| exists|name: Seq<char>| #[trigger] (m.map.global)(name) == q.area
    ||| exists|k: int|
        first <= k < args.len() && (type_of(f, #[trigger] args[k]) matches Some(IrType::Ptr(_))) && (
        leads_on(f, args[k]) || (m.map.at)(args[k]).area == q.area)
}

/// Does an instruction see a place?
pub open spec fn sees(m: Machine, f: FuncView, i: InstView, q: Place) -> bool {
    match i.kind.op {
        Op::Load => touches(m.map, f, i.kind.args[0], q),
        Op::VolatileLoad | Op::VolatileStore | Op::VLoad | Op::VStore => true,
        Op::CallInternal(_) | Op::CallExternal(_) | Op::RuntimeCall(_) => callee_sees(
            m,
            f,
            i.kind.args,
            0,
            q,
        ),
        Op::CallIndirect => callee_sees(m, f, i.kind.args, 1, q),
        _ => false,
    }
}

/// Does an instruction write as it sees fit to the places that it sees?
pub open spec fn acts(op: Op) -> bool {
    match op {
        Op::VolatileLoad | Op::VolatileStore | Op::VLoad | Op::VStore => true,
        Op::CallInternal(_) | Op::CallExternal(_) | Op::CallIndirect | Op::RuntimeCall(_) => true,
        _ => false,
    }
}

/// What an instruction sees.
pub open spec fn sight(m: Machine, f: FuncView, i: InstView, mem: Storage) -> Sight {
    |q: Place, k: int|
        if sees(m, f, i, q) {
            Some(mem(q, k))
        } else {
            None
        }
}

/// Does a store write to a part of a place?
pub open spec fn written(m: Machine, f: FuncView, i: InstView, q: Place, k: int) -> bool {
    i.kind.op is Store && (m.covers)(
        type_of(f, i.kind.args[0]),
        (m.map.at)(i.kind.args[1]),
        q,
        k,
    )
}

/// Storage after an instruction.
pub open spec fn step(m: Machine, f: FuncView, i: InstView, mem: Storage) -> Storage {
    |q: Place, k: int|
        if written(m, f, i, q, k) {
            (m.part)((m.val)(i.kind.args[0]), (m.map.at)(i.kind.args[1]), q, k)
        } else if acts(i.kind.op) && sees(m, f, i, q) {
            (m.leaves)(i, sight(m, f, i, mem))(q, k)
        } else {
            mem(q, k)
        }
}

/// Storage after a list of instructions.
pub open spec fn run(m: Machine, f: FuncView, s: Seq<InstView>, mem: Storage) -> Storage
    decreases s.len(),
{
    if s.len() == 0 {
        mem
    } else {
        step(m, f, s.last(), run(m, f, s.drop_last(), mem))
    }
}

/// What the instructions of a list that see anything see, in order.
pub open spec fn sights(m: Machine, f: FuncView, s: Seq<InstView>, mem: Storage) -> Seq<
    (InstView, Sight),
>
    decreases s.len(),
{
    if s.len() == 0 {
        Seq::empty()
    } else {
        let before = sights(m, f, s.drop_last(), mem);
        let i = s.last();
        if i.kind.op is Load || acts(i.kind.op) {
            before.push((i, sight(m, f, i, run(m, f, s.drop_last(), mem))))
        } else {
            before
        }
    }
}

/// What does not observe a location does not see it.
proof fn lemma_unseen(
    m: Machine,
    f: FuncView,
    layout: TargetLayout,
    i: InstView,
    p: ValueId,
    q: Place,
)
    requires
        laid_out(m.map, f, layout),
        params_are_named(f),
        parameters_are_no_globals(m.map, f),
        !observes(f, layout, i, p),
        touches(m.map, f, p, q),
    ensures
        !sees(m, f, i, q),
{
    let w = m.map;
    match i.kind.op {
        Op::Load => {
            aliasing_is_about_places(w, f, layout, p, i.kind.args[0]);
        },
        Op::CallInternal(_) | Op::CallExternal(_) | Op::RuntimeCall(_) => {
            lemma_unseen_call(m, f, layout, i.kind.args, 0, p, q);
        },
        Op::CallIndirect => {
            lemma_unseen_call(m, f, layout, i.kind.args, 1, p, q);
        },
        _ => {},
    }
}

proof fn lemma_unseen_call(
    m: Machine,
    f: FuncView,
    layout: TargetLayout,
    args: Seq<ValueId>,
    first: int,
    p: ValueId,
    q: Place,
)
    requires
        0 <= first <= 1,
        laid_out(m.map, f, layout),
        params_are_named(f),
        parameters_are_no_globals(m.map, f),
        !call_observes(
            f,
            layout,
            if first == 0 {
                args
            } else {
                args.skip(1)
            },
            p,
        ),
        touches(m.map, f, p, q),
    ensures
        !callee_sees(m, f, args, first, q),
{
    let w = m.map;
    lemma_root_base(w, f, layout, p);
    assert(q.area == (w.at)(p).area);
    if exists|name: Seq<char>| #[trigger] (w.global)(name) == q.area {
        let name = choose|name: Seq<char>| #[trigger] (w.global)(name) == q.area;
        match base_of(f, layout, p) {
            BaseView::Alloca(x) => {
                let k = choose|k: int| #[trigger] slot_at(f, k) && insts_of(f)[k].id == x;
                assert(slot_at(f, k));
            },
            _ => {},
        }
        assert(false);
    }
    let given = if first == 0 {
        args
    } else {
        args.skip(1)
    };
    assert forall|k: int|
        first <= k < args.len() && (type_of(f, #[trigger] args[k]) matches Some(IrType::Ptr(_))) implies !(
    leads_on(f, args[k]) || (w.at)(args[k]).area == q.area) by {
        assert(given[k - first] == args[k]);
        assert(is_pointer(f, given[k - first]));
        unreached_is_elsewhere(w, f, layout, p, args[k]);
    }
}

/// Is store `j` dropped because of one at `n` or behind it?
spec fn awaited(f: FuncView, layout: TargetLayout, s: Seq<InstView>, j: int, n: int) -> bool {
    j < n && exists|k: int| n <= k && #[trigger] overwrites(f, layout, s, j, k)
}

/// Do two storages agree but for what dropped stores wrote?
spec fn agree(
    m: Machine,
    f: FuncView,
    layout: TargetLayout,
    s: Seq<InstView>,
    n: int,
    a: Storage,
    b: Storage,
) -> bool {
    forall|q: Place, k: int| #[trigger]
        a(q, k) == b(q, k) || exists|j: int| #[trigger]
            awaited(f, layout, s, j, n) && written(m, f, s[j], q, k)
}

proof fn lemma_awaited_step(f: FuncView, layout: TargetLayout, s: Seq<InstView>, j: int, n: int)
    requires
        0 <= n < s.len(),
        awaited(f, layout, s, j, n),
    ensures
        awaited(f, layout, s, j, n + 1) || overwrites(f, layout, s, j, n),
{
    let k = choose|k: int| n <= k && #[trigger] overwrites(f, layout, s, j, k);
    if k > n {
        assert(overwrites(f, layout, s, j, k));
    }
}

proof fn lemma_step(
    m: Machine,
    f: FuncView,
    layout: TargetLayout,
    s: Seq<InstView>,
    n: int,
    a: Storage,
    b: Storage,
)
    requires
        laid_out(m.map, f, layout),
        params_are_named(f),
        parameters_are_no_globals(m.map, f),
        writes_stay(m),
        stores_are_typed(f, s),
        0 <= n < s.len(),
        agree(m, f, layout, s, n, a, b),
    ensures
        sight(m, f, s[n], a) == sight(m, f, s[n], b),
        agree(m, f, layout, s, n + 1, step(m, f, s[n], a), step(m, f, s[n], b)),
        dead_store(f, layout, s, n) ==> agree(m, f, layout, s, n + 1, step(m, f, s[n], a), b),
{
    let i = s[n];
    assert forall|q: Place, k: int| sees(m, f, i, q) implies #[trigger] a(q, k) == b(q, k) by {
        if a(q, k) != b(q, k) {
            let j = choose|j: int| #[trigger]
                awaited(f, layout, s, j, n) && written(m, f, s[j], q, k);
            let t = choose|t: int| n <= t && #[trigger] overwrites(f, layout, s, j, t);
            assert(s[j].kind.op is Store);
            if t > n {
                assert(!observes(f, layout, s[n], s[j].kind.args[1]));
                lemma_unseen(m, f, layout, i, s[j].kind.args[1], q);
            } else {
                assert(s[n].kind.op is Store);
            }
        }
    }
    assert(sight(m, f, i, a) =~= sight(m, f, i, b));
    let x = step(m, f, i, a);
    let y = step(m, f, i, b);
    assert forall|q: Place, k: int| #[trigger]
        x(q, k) == y(q, k) || exists|j: int| #[trigger]
            awaited(f, layout, s, j, n + 1) && written(m, f, s[j], q, k) by {
        if x(q, k) != y(q, k) {
            assert(!written(m, f, i, q, k));
            assert(a(q, k) != b(q, k));
            let j = choose|j: int| #[trigger]
                awaited(f, layout, s, j, n) && written(m, f, s[j], q, k);
            lemma_awaited_step(f, layout, s, j, n);
            if overwrites(f, layout, s, j, n) {
                aliasing_is_about_places(
                    m.map,
                    f,
                    layout,
                    s[j].kind.args[1],
                    s[n].kind.args[1],
                );
                assert(false);
            }
        }
    }
    if dead_store(f, layout, s, n) {
        let t = choose|t: int| #[trigger] overwrites(f, layout, s, n, t);
        assert(awaited(f, layout, s, n, n + 1)) by {
            assert(overwrites(f, layout, s, n, t));
        }
        assert forall|q: Place, k: int| #[trigger]
            x(q, k) == b(q, k) || exists|j: int| #[trigger]
                awaited(f, layout, s, j, n + 1) && written(m, f, s[j], q, k) by {
            if x(q, k) != b(q, k) && !written(m, f, i, q, k) {
                assert(s[n].kind.op is Store);
                assert(a(q, k) != b(q, k));
                let j = choose|j: int| #[trigger]
                    awaited(f, layout, s, j, n) && written(m, f, s[j], q, k);
                lemma_awaited_step(f, layout, s, j, n);
                if overwrites(f, layout, s, j, n) {
                    aliasing_is_about_places(
                        m.map,
                        f,
                        layout,
                        s[j].kind.args[1],
                        s[n].kind.args[1],
                    );
                    assert(false);
                }
            } else if x(q, k) != b(q, k) {
                assert(awaited(f, layout, s, n, n + 1) && written(m, f, s[n], q, k));
            }
        }
    }
}

proof fn lemma_unseen_upto(
    m: Machine,
    f: FuncView,
    layout: TargetLayout,
    s: Seq<InstView>,
    n: nat,
    mem: Storage,
)
    requires
        laid_out(m.map, f, layout),
        params_are_named(f),
        parameters_are_no_globals(m.map, f),
        writes_stay(m),
        stores_are_typed(f, s),
        n <= s.len(),
    ensures
        agree(
            m,
            f,
            layout,
            s,
            n as int,
            run(m, f, s.take(n as int), mem),
            run(m, f, masked(s.take(n as int), live_mask(f, layout, s)), mem),
        ),
        sights(m, f, s.take(n as int), mem) == sights(
            m,
            f,
            masked(s.take(n as int), live_mask(f, layout, s)),
            mem,
        ),
    decreases n,
{
    let mask = live_mask(f, layout, s);
    if n > 0 {
        lemma_unseen_upto(m, f, layout, s, (n - 1) as nat, mem);
        let t = s.take(n as int);
        assert(t.drop_last() =~= s.take(n - 1));
        assert(t.last() == s[n - 1]);
        let a = run(m, f, t.drop_last(), mem);
        let kept = masked(t.drop_last(), mask);
        let b = run(m, f, kept, mem);
        lemma_step(m, f, layout, s, n - 1, a, b);
        if mask[n - 1] {
            let all = masked(t, mask);
            assert(all == kept.push(s[n - 1]));
            assert(all.drop_last() =~= kept);
            assert(all.last() == s[n - 1]);
        } else {
            let j = n - 1;
            let k = choose|k: int| #[trigger] overwrites(f, layout, s, j, k);
            assert(s[j].kind.op is Store);
        }
    }
}

/// Dropping dead stores is unseen: every load and every call of a block sees of
/// storage what it saw before, and the block leaves in storage what it left.
pub proof fn dropped_stores_are_unseen(
    m: Machine,
    f: FuncView,
    layout: TargetLayout,
    b: int,
    mem: Storage,
)
    requires
        laid_out(m.map, f, layout),
        params_are_named(f),
        parameters_are_no_globals(m.map, f),
        writes_stay(m),
        0 <= b < f.blocks.len(),
        stores_are_typed(f, f.blocks[b].insts),
    ensures
        sights(m, f, stored_func(f, layout).blocks[b].insts, mem) == sights(
            m,
            f,
            f.blocks[b].insts,
            mem,
        ),
        forall|q: Place, k: int| #[trigger]
            run(m, f, stored_func(f, layout).blocks[b].insts, mem)(q, k) == run(
                m,
                f,
                f.blocks[b].insts,
                mem,
            )(q, k),
{
    let s = f.blocks[b].insts;
    let n = s.len();
    lemma_unseen_upto(m, f, layout, s, n, mem);
    assert(s.take(n as int) =~= s);
    let x = run(m, f, s, mem);
    let y = run(m, f, stored_func(f, layout).blocks[b].insts, mem);
    assert forall|q: Place, k: int| #[trigger] y(q, k) == x(q, k) by {
        if x(q, k) != y(q, k) {
            let j = choose|j: int| #[trigger]
                awaited(f, layout, s, j, n as int) && written(m, f, s[j], q, k);
            let t = choose|t: int| n <= t && #[trigger] overwrites(f, layout, s, j, t);
            assert(t < s.len());
        }
    }
}

/// No call stands between a dropped store and the store that overwrites it that
/// receives a pointer into the same area, or one that leads on; and none at all
/// where a global was written.
pub proof fn calls_see_no_dropped_store(
    m: Machine,
    f: FuncView,
    layout: TargetLayout,
    s: Seq<InstView>,
    j: int,
)
    requires
        laid_out(m.map, f, layout),
        params_are_named(f),
        parameters_are_no_globals(m.map, f),
        dead_store(f, layout, s, j),
    ensures
        exists|k: int|
            j < k < s.len() && (#[trigger] s[k]).kind.op is Store && (m.map.at)(s[k].kind.args[1]) == (
            m.map.at)(s[j].kind.args[1]) && forall|i: int|
                j < i < k ==> !sees(m, f, #[trigger] s[i], (m.map.at)(s[j].kind.args[1])),
{
    let k = choose|k: int| #[trigger] overwrites(f, layout, s, j, k);
    let p = s[j].kind.args[1];
    aliasing_is_about_places(m.map, f, layout, p, s[k].kind.args[1]);
    assert forall|i: int| j < i < k implies !sees(m, f, #[trigger] s[i], (m.map.at)(p)) by {
        lemma_unseen(m, f, layout, s[i], p, (m.map.at)(p));
    }
    assert(s[k].kind.op is Store);
}

/// A store through a pointer is dropped where the block stores a value of the
/// same type through that pointer again, with nothing between them but
/// computations and stores.
pub proof fn repeated_stores_are_dropped(
    f: FuncView,
    layout: TargetLayout,
    s: Seq<InstView>,
    j: int,
    k: int,
)
    requires
        0 <= j < k < s.len(),
        s[j].kind.op is Store,
        s[k].kind.op is Store,
        s[j].kind.args[1] == s[k].kind.args[1],
        type_of(f, s[j].kind.args[0]) == type_of(f, s[k].kind.args[0]),
        forall|i: int|
            j < i < k ==> !((#[trigger] s[i]).kind.op is Load) && !acts(s[i].kind.op),
    ensures
        dead_store(f, layout, s, j),
{
    assert(overwrites(f, layout, s, j, k));
}

} // verus!
