//! Dead-store elimination within a block.
//!
//! A store is dead where a later store of the block writes a value of the same
//! type to the same location, and nothing in between can observe the first.

use crate::ir::inst::{
    type_of, BasicBlock, BlockView, FuncRef, FuncView, Function, Inst, InstKind, InstView, Module,
    ModuleView, Op, ValueId,
};
use crate::ir::types::IrType;
use crate::lists::{lemma_masked_contains, masked, retain_mask};
use crate::opt::alias::{
    alias, global_storage, location_of, reaches_through_call, AliasOracle, AliasResult,
    ProvenLocation,
};
use crate::opt::edit::keep_insts;
use crate::opt::pass::Pass;
use crate::target::TargetLayout;
use vstd::prelude::*;

verus! {

/// Is `v` a pointer?
pub open spec fn is_pointer(f: FuncView, v: ValueId) -> bool {
    type_of(f, v) matches Some(IrType::Ptr(_))
}

/// Does `v` point to something that may itself hold a pointer?
pub open spec fn may_carry_pointer(f: FuncView, v: ValueId) -> bool {
    match type_of(f, v) {
        Some(IrType::Ptr(inner)) => *inner is Array || *inner is Struct || *inner is Ptr
            || *inner is FuncPtr,
        _ => false,
    }
}

/// Can a callee that receives these arguments observe what `p` points to?
pub open spec fn call_observes(
    f: FuncView,
    layout: TargetLayout,
    args: Seq<ValueId>,
    p: ValueId,
) -> bool {
    global_storage(f, layout, p) || exists|k: int|
        0 <= k < args.len() && is_pointer(f, #[trigger] args[k]) && (may_carry_pointer(f, args[k])
            || reaches_through_call(f, layout, p, args[k]))
}

/// Can an instruction observe what `p` points to?
///
/// Volatile accesses and accesses to whole vectors count as observing all.
pub open spec fn observes(f: FuncView, layout: TargetLayout, i: InstView, p: ValueId) -> bool {
    match i.kind.op {
        Op::Load => alias(f, layout, p, i.kind.args[0]) != AliasResult::NoAlias,
        Op::VolatileLoad => true,
        Op::VolatileStore => true,
        Op::VLoad => true,
        Op::VStore => true,
        Op::CallInternal(_) => call_observes(f, layout, i.kind.args, p),
        Op::CallExternal(_) => call_observes(f, layout, i.kind.args, p),
        Op::CallIndirect => call_observes(f, layout, i.kind.args.skip(1), p),
        Op::RuntimeCall(_) => call_observes(f, layout, i.kind.args, p),
        _ => false,
    }
}

/// Do two stores write values of one type to one location?
pub open spec fn same_target(f: FuncView, layout: TargetLayout, a: InstView, b: InstView) -> bool {
    &&& a.kind.op is Store
    &&& b.kind.op is Store
    &&& location_of(f, layout, a.kind.args[1]) == location_of(f, layout, b.kind.args[1])
    &&& type_of(f, a.kind.args[0]) == type_of(f, b.kind.args[0])
}

/// Does store `k` of a block overwrite store `j` before anything observes it?
pub open spec fn overwrites(
    f: FuncView,
    layout: TargetLayout,
    s: Seq<InstView>,
    j: int,
    k: int,
) -> bool {
    &&& 0 <= j < k < s.len()
    &&& same_target(f, layout, s[j], s[k])
    &&& forall|m: int| j < m < k ==> !observes(f, layout, #[trigger] s[m], s[j].kind.args[1])
}

/// Is instruction `j` of a block a store that is overwritten unobserved?
pub open spec fn dead_store(f: FuncView, layout: TargetLayout, s: Seq<InstView>, j: int) -> bool {
    exists|k: int| #[trigger] overwrites(f, layout, s, j, k)
}

/// Which instructions of a block stay.
pub open spec fn live_mask(f: FuncView, layout: TargetLayout, s: Seq<InstView>) -> Seq<bool> {
    Seq::new(s.len(), |j: int| !dead_store(f, layout, s, j))
}

/// A function without dead stores.
pub open spec fn stored_func(f: FuncView, layout: TargetLayout) -> FuncView {
    FuncView {
        blocks: Seq::new(
            f.blocks.len(),
            |b: int|
                BlockView {
                    insts: masked(f.blocks[b].insts, live_mask(f, layout, f.blocks[b].insts)),
                    ..f.blocks[b]
                },
        ),
        ..f
    }
}

/// Is there a dead store in a function?
pub open spec fn has_dead_store(f: FuncView, layout: TargetLayout) -> bool {
    exists|b: int, j: int|
        0 <= b < f.blocks.len() && #[trigger] dead_store(f, layout, f.blocks[b].insts, j)
}

/// Where a store is dropped, a later store of the block to the same location
/// stays: the last write is never lost.
pub proof fn some_overwriting_store_stays(
    f: FuncView,
    layout: TargetLayout,
    s: Seq<InstView>,
    j: int,
)
    requires
        dead_store(f, layout, s, j),
    ensures
        exists|k: int|
            j < k < s.len() && #[trigger] same_target(f, layout, s[j], s[k]) && !dead_store(
                f,
                layout,
                s,
                k,
            ),
    decreases s.len() - j,
{
    let k = choose|k: int| #[trigger] overwrites(f, layout, s, j, k);
    assert(same_target(f, layout, s[j], s[k]));
    if dead_store(f, layout, s, k) {
        some_overwriting_store_stays(f, layout, s, k);
        let l = choose|l: int|
            k < l < s.len() && #[trigger] same_target(f, layout, s[k], s[l]) && !dead_store(
                f,
                layout,
                s,
                l,
            );
        assert(same_target(f, layout, s[j], s[l]));
    }
}

/// A store that nothing has observed or overwritten yet.
struct PendingStore {
    location: ProvenLocation,
    value_type: Option<IrType>,
    ptr: ValueId,
    inst_idx: usize,
}

/// Is store `j` neither observed nor overwritten before instruction `i`?
spec fn pending_at(
    f: FuncView,
    layout: TargetLayout,
    s: Seq<InstView>,
    j: int,
    i: int,
) -> bool {
    &&& 0 <= j < i
    &&& s[j].kind.op is Store
    &&& forall|m: int|
        j < m < i ==> !observes(f, layout, #[trigger] s[m], s[j].kind.args[1]) && !same_target(
            f,
            layout,
            s[j],
            s[m],
        )
}

/// Is store `j` overwritten unobserved before instruction `i`?
spec fn dead_before(f: FuncView, layout: TargetLayout, s: Seq<InstView>, j: int, i: int) -> bool {
    exists|k: int| k < i && #[trigger] overwrites(f, layout, s, j, k)
}

spec fn entry_is(
    f: FuncView,
    layout: TargetLayout,
    s: Seq<InstView>,
    e: PendingStore,
    i: int,
) -> bool {
    &&& pending_at(f, layout, s, e.inst_idx as int, i)
    &&& e.location@ == location_of(f, layout, s[e.inst_idx as int].kind.args[1])
    &&& e.value_type == type_of(f, s[e.inst_idx as int].kind.args[0])
    &&& e.ptr == s[e.inst_idx as int].kind.args[1]
}

fn same_type(a: &Option<IrType>, b: &Option<IrType>) -> (r: bool)
    ensures
        r == (*a == *b),
{
    match (a, b) {
        (Some(x), Some(y)) => x.same(y),
        (None, None) => true,
        _ => false,
    }
}

fn call_arg_may_carry_indirect_pointer(oracle: &AliasOracle, v: ValueId) -> (r: bool)
    ensures
        r == may_carry_pointer(oracle.function(), v),
{
    match oracle.value_type(v) {
        Some(IrType::Ptr(inner)) => match *inner {
            IrType::Array(_, _) => true,
            IrType::Struct(_) => true,
            IrType::Ptr(_) => true,
            IrType::FuncPtr(_) => true,
            _ => false,
        },
        _ => false,
    }
}

fn call_may_observe(oracle: &AliasOracle, args: &Vec<ValueId>, p: ValueId) -> (r: bool)
    ensures
        r == call_observes(oracle.function(), oracle.target(), args@, p),
{
    if oracle.requires_global_call_barrier(p) {
        return true;
    }
    let mut i: usize = 0;
    while i < args.len()
        invariant
            i <= args@.len(),
            !global_storage(oracle.function(), oracle.target(), p),
            forall|k: int|
                0 <= k < i ==> !(is_pointer(oracle.function(), #[trigger] args@[k]) && (
                may_carry_pointer(oracle.function(), args@[k]) || reaches_through_call(
                    oracle.function(),
                    oracle.target(),
                    p,
                    args@[k],
                ))),
        decreases args@.len() - i,
    {
        let arg = args[i];
        if oracle.value_is_pointer(arg) && (call_arg_may_carry_indirect_pointer(oracle, arg)
            || oracle.may_reach_through_call_arg(p, arg)) {
            proof {
                assert(is_pointer(oracle.function(), args@[i as int]));
            }
            return true;
        }
        i = i + 1;
    }
    false
}

fn may_observe(oracle: &mut AliasOracle, inst: &Inst, p: ValueId) -> (r: bool)
    ensures
        r == observes(old(oracle).function(), old(oracle).target(), inst@, p),
        final(oracle).function() == old(oracle).function(),
        final(oracle).target() == old(oracle).target(),
        !(inst@.kind.op is Load) ==> final(oracle).count() == old(oracle).count(),
{
    match &inst.kind {
        InstKind::Load(addr) => match oracle.query(p, *addr) {
            AliasResult::NoAlias => false,
            _ => true,
        },
        InstKind::VolatileLoad(_) => true,
        InstKind::VolatileStore(_, _) => true,
        InstKind::VLoad(_) => true,
        InstKind::VStore(_, _) => true,
        InstKind::Call(callee, args) => {
            proof {
                match callee {
                    FuncRef::Indirect(t) => {
                        assert(inst@.kind.args.skip(1) =~= args@);
                    },
                    _ => {},
                }
            }
            call_may_observe(oracle, args, p)
        },
        InstKind::RuntimeCall(_, args) => call_may_observe(oracle, args, p),
        _ => false,
    }
}

/// What one more instruction makes of a pending store.
proof fn lemma_pending_step(
    f: FuncView,
    layout: TargetLayout,
    s: Seq<InstView>,
    j: int,
    i: int,
)
    requires
        0 <= i < s.len(),
    ensures
        pending_at(f, layout, s, j, i + 1) == ((j == i && s[i].kind.op is Store) || (pending_at(
            f,
            layout,
            s,
            j,
            i,
        ) && !observes(f, layout, s[i], s[j].kind.args[1]) && !same_target(f, layout, s[j], s[i]))),
{
}

/// What one more instruction makes of a dead store.
proof fn lemma_dead_step(f: FuncView, layout: TargetLayout, s: Seq<InstView>, j: int, i: int)
    requires
        0 <= i < s.len(),
    ensures
        dead_before(f, layout, s, j, i + 1) == (dead_before(f, layout, s, j, i) || (pending_at(
            f,
            layout,
            s,
            j,
            i,
        ) && same_target(f, layout, s[j], s[i]))),
{
    if dead_before(f, layout, s, j, i + 1) && !dead_before(f, layout, s, j, i) {
        let k = choose|k: int| k < i + 1 && #[trigger] overwrites(f, layout, s, j, k);
        assert(k == i);
        assert forall|m: int| j < m < i implies !observes(
            f,
            layout,
            #[trigger] s[m],
            s[j].kind.args[1],
        ) && !same_target(f, layout, s[j], s[m]) by {
            if same_target(f, layout, s[j], s[m]) {
                assert(overwrites(f, layout, s, j, m));
            }
        }
    }
    if pending_at(f, layout, s, j, i) && same_target(f, layout, s[j], s[i]) {
        assert(overwrites(f, layout, s, j, i));
    }
    if dead_before(f, layout, s, j, i) {
        let k = choose|k: int| k < i && #[trigger] overwrites(f, layout, s, j, k);
        assert(k < i + 1 && overwrites(f, layout, s, j, k));
    }
}

/// What keeps the list of pending stores right.
spec fn tracked_stores(
    f: FuncView,
    layout: TargetLayout,
    s: Seq<InstView>,
    pending: Seq<PendingStore>,
    i: int,
) -> bool {
    &&& forall|e: int| 0 <= e < pending.len() ==> entry_is(f, layout, s, #[trigger] pending[e], i)
    &&& forall|j: int| #[trigger]
        pending_at(f, layout, s, j, i) ==> exists|e: int|
            0 <= e < pending.len() && (#[trigger] pending[e]).inst_idx == j
}

/// Keeps the pending stores that the instruction neither observes nor
/// overwrites, and marks those that it overwrites.
fn settle_pending(
    oracle: &mut AliasOracle,
    inst: &Inst,
    stored: Option<&PendingStore>,
    pending: &mut Vec<PendingStore>,
    dead: &mut Vec<bool>,
    Ghost(s): Ghost<Seq<InstView>>,
    Ghost(i): Ghost<int>,
)
    requires
        0 <= i < s.len(),
        inst@ == s[i],
        old(dead)@.len() == s.len(),
        tracked_stores(old(oracle).function(), old(oracle).target(), s, old(pending)@, i),
        forall|j: int|
            0 <= j < s.len() ==> #[trigger] old(dead)@[j] == dead_before(
                old(oracle).function(),
                old(oracle).target(),
                s,
                j,
                i,
            ),
        match stored {
            Some(e) => s[i].kind.op is Store && e.location@ == location_of(
                old(oracle).function(),
                old(oracle).target(),
                s[i].kind.args[1],
            ) && e.value_type == type_of(old(oracle).function(), s[i].kind.args[0]),
            None => !(s[i].kind.op is Store),
        },
    ensures
        final(oracle).function() == old(oracle).function(),
        final(oracle).target() == old(oracle).target(),
        !(s[i].kind.op is Load) ==> final(oracle).count() == old(oracle).count(),
        final(dead)@.len() == s.len(),
        forall|j: int|
            0 <= j < s.len() ==> #[trigger] final(dead)@[j] == dead_before(
                old(oracle).function(),
                old(oracle).target(),
                s,
                j,
                i + 1,
            ),
        forall|e: int|
            0 <= e < final(pending)@.len() ==> entry_is(
                old(oracle).function(),
                old(oracle).target(),
                s,
                #[trigger] final(pending)@[e],
                i + 1,
            ),
        forall|j: int| #[trigger]
            pending_at(old(oracle).function(), old(oracle).target(), s, j, i + 1) && j != i
                ==> exists|e: int|
                0 <= e < final(pending)@.len() && (#[trigger] final(pending)@[e]).inst_idx == j,
{
    let ghost f = oracle.function();
    let ghost layout = oracle.target();
    let ghost before = pending@;
    let ghost marks = dead@;
    let mut keep: Vec<bool> = Vec::new();
    let mut e: usize = 0;
    while e < pending.len()
        invariant
            pending@ == before,
            oracle.function() == f,
            oracle.target() == layout,
            !(s[i].kind.op is Load) ==> oracle.count() == old(oracle).count(),
            0 <= i < s.len(),
            inst@ == s[i],
            e <= before.len(),
            keep@.len() == e,
            dead@.len() == s.len(),
            marks.len() == s.len(),
            tracked_stores(f, layout, s, before, i),
            match stored {
                Some(x) => s[i].kind.op is Store && x.location@ == location_of(
                    f,
                    layout,
                    s[i].kind.args[1],
                ) && x.value_type == type_of(f, s[i].kind.args[0]),
                None => !(s[i].kind.op is Store),
            },
            forall|k: int|
                0 <= k < e ==> #[trigger] keep@[k] == (!observes(
                    f,
                    layout,
                    s[i],
                    s[before[k].inst_idx as int].kind.args[1],
                ) && !same_target(f, layout, s[before[k].inst_idx as int], s[i])),
            forall|j: int|
                0 <= j < s.len() ==> #[trigger] dead@[j] == (marks[j] || exists|k: int|
                    0 <= k < e && (#[trigger] before[k]).inst_idx == j && same_target(
                        f,
                        layout,
                        s[j],
                        s[i],
                    )),
        decreases before.len() - e,
    {
        let ghost was = dead@;
        proof {
            assert(entry_is(f, layout, s, before[e as int], i));
        }
        let hit = match stored {
            Some(x) => pending[e].location.same(&x.location) && same_type(
                &pending[e].value_type,
                &x.value_type,
            ),
            None => false,
        };
        let at: usize = pending[e].inst_idx;
        let ptr = pending[e].ptr;
        proof {
            assert(hit == same_target(f, layout, s[at as int], s[i]));
        }
        if hit {
            dead.set(at, true);
        }
        let seen = may_observe(oracle, inst, ptr);
        keep.push(!seen && !hit);
        proof {
            assert forall|j: int| 0 <= j < s.len() implies #[trigger] dead@[j] == (marks[j]
                || exists|k: int|
                0 <= k < e + 1 && (#[trigger] before[k]).inst_idx == j && same_target(
                    f,
                    layout,
                    s[j],
                    s[i],
                )) by {
                assert(was[j] == (marks[j] || exists|k: int|
                    0 <= k < e && (#[trigger] before[k]).inst_idx == j && same_target(
                        f,
                        layout,
                        s[j],
                        s[i],
                    )));
                if j == at && hit {
                    assert(before[e as int].inst_idx == j);
                }
            }
        }
        e = e + 1;
    }
    retain_mask(pending, &keep);
    proof {
        assert forall|k: int| 0 <= k < pending@.len() implies entry_is(
            f,
            layout,
            s,
            #[trigger] pending@[k],
            i + 1,
        ) by {
            lemma_masked_contains(before, keep@, pending@[k]);
            assert(pending@.contains(pending@[k]));
            let o = choose|o: int| 0 <= o < before.len() && #[trigger] before[o] == pending@[k]
                && keep@[o];
            assert(entry_is(f, layout, s, before[o], i));
            lemma_pending_step(f, layout, s, before[o].inst_idx as int, i);
        }
        assert forall|j: int| #[trigger]
            pending_at(f, layout, s, j, i + 1) && j != i implies exists|k: int|
            0 <= k < pending@.len() && (#[trigger] pending@[k]).inst_idx == j by {
            lemma_pending_step(f, layout, s, j, i);
            assert(pending_at(f, layout, s, j, i));
            let o = choose|o: int| 0 <= o < before.len() && (#[trigger] before[o]).inst_idx == j;
            assert(keep@[o]);
            lemma_masked_contains(before, keep@, before[o]);
            let k = pending@.index_of(before[o]);
            assert(pending@[k].inst_idx == j);
        }
        assert forall|j: int| 0 <= j < s.len() implies #[trigger] dead@[j] == dead_before(
            f,
            layout,
            s,
            j,
            i + 1,
        ) by {
            lemma_dead_step(f, layout, s, j, i);
            assert(marks[j] == dead_before(f, layout, s, j, i));
            if pending_at(f, layout, s, j, i) && same_target(f, layout, s[j], s[i]) {
                let o = choose|o: int| 0 <= o < before.len() && (#[trigger] before[o]).inst_idx == j;
                assert(before[o].inst_idx == j);
            }
            if dead@[j] && !marks[j] {
                let o = choose|o: int|
                    0 <= o < before.len() && (#[trigger] before[o]).inst_idx == j && same_target(
                        f,
                        layout,
                        s[j],
                        s[i],
                    );
                assert(entry_is(f, layout, s, before[o], i));
            }
        }
    }
}

fn mark_dead_stores(block: &BasicBlock, oracle: &mut AliasOracle) -> (r: Vec<bool>)
    ensures
        r@.len() == block@.insts.len(),
        forall|j: int|
            0 <= j < r@.len() ==> #[trigger] r@[j] == dead_store(
                old(oracle).function(),
                old(oracle).target(),
                block@.insts,
                j,
            ),
        final(oracle).function() == old(oracle).function(),
        final(oracle).target() == old(oracle).target(),
        (forall|k: int| 0 <= k < block@.insts.len() ==> !((#[trigger] block@.insts[k]).kind.op is Load))
            ==> final(oracle).count() == old(oracle).count(),
{
    let ghost f = oracle.function();
    let ghost layout = oracle.target();
    let ghost s = block@.insts;
    let n: usize = block.insts.len();
    let mut dead: Vec<bool> = Vec::new();
    let mut d: usize = 0;
    while d < n
        invariant
            d <= n,
            dead@.len() == d,
            forall|j: int| 0 <= j < d ==> !#[trigger] dead@[j],
        decreases n - d,
    {
        dead.push(false);
        d = d + 1;
    }
    let mut pending: Vec<PendingStore> = Vec::new();
    let mut i: usize = 0;
    proof {
        assert forall|j: int| 0 <= j < s.len() implies #[trigger] dead@[j] == dead_before(
            f,
            layout,
            s,
            j,
            0,
        ) by {}
    }
    while i < n
        invariant
            i <= n,
            n == s.len(),
            s == block@.insts,
            n == block.insts@.len(),
            oracle.function() == f,
            oracle.target() == layout,
            (forall|k: int| 0 <= k < s.len() ==> !((#[trigger] s[k]).kind.op is Load))
                ==> oracle.count() == old(oracle).count(),
            dead@.len() == n,
            tracked_stores(f, layout, s, pending@, i as int),
            forall|j: int|
                0 <= j < n ==> #[trigger] dead@[j] == dead_before(f, layout, s, j, i as int),
        decreases n - i,
    {
        let inst = &block.insts[i];
        proof {
            assert(s[i as int] == inst@);
        }
        let stored: Option<PendingStore> = match &inst.kind {
            InstKind::Store(value, ptr) => Some(
                PendingStore {
                    location: oracle.proven_location(*ptr),
                    value_type: oracle.value_type(*value),
                    ptr: *ptr,
                    inst_idx: i,
                },
            ),
            InstKind::Call(callee, _) => match callee {
                FuncRef::Internal(_) => None,
                FuncRef::External(_) => None,
                FuncRef::Indirect(_) => None,
            },
            _ => None,
        };
        settle_pending(
            oracle,
            inst,
            stored.as_ref(),
            &mut pending,
            &mut dead,
            Ghost(s),
            Ghost(i as int),
        );
        let ghost rest = pending@;
        match stored {
            Some(e) => {
                pending.push(e);
                proof {
                    lemma_pending_step(f, layout, s, i as int, i as int);
                    assert forall|k: int| 0 <= k < pending@.len() implies entry_is(
                        f,
                        layout,
                        s,
                        #[trigger] pending@[k],
                        i + 1,
                    ) by {
                        if k < rest.len() {
                            assert(pending@[k] == rest[k]);
                        }
                    }
                    assert forall|j: int| #[trigger]
                        pending_at(f, layout, s, j, i + 1) implies exists|k: int|
                        0 <= k < pending@.len() && (#[trigger] pending@[k]).inst_idx == j by {
                        if j == i {
                            assert(pending@[rest.len() as int].inst_idx == j);
                        } else {
                            let k = choose|k: int|
                                0 <= k < rest.len() && (#[trigger] rest[k]).inst_idx == j;
                            assert(pending@[k].inst_idx == j);
                        }
                    }
                }
            },
            None => {
                proof {
                    lemma_pending_step(f, layout, s, i as int, i as int);
                }
            },
        }
        i = i + 1;
    }
    proof {
        assert forall|j: int| 0 <= j < n implies #[trigger] dead@[j] == dead_store(f, layout, s, j) by {
            if dead_store(f, layout, s, j) {
                let k = choose|k: int| #[trigger] overwrites(f, layout, s, j, k);
                assert(k < n && overwrites(f, layout, s, j, k));
            }
        }
    }
    dead
}

/// The places of the dead stores of a block, in order.
pub fn find_dead_stores(block: &BasicBlock, alias_oracle: &mut AliasOracle) -> (r: Vec<usize>)
    ensures
        forall|j: usize|
            #[trigger] r@.contains(j) == (j < block@.insts.len() && dead_store(
                old(alias_oracle).function(),
                old(alias_oracle).target(),
                block@.insts,
                j as int,
            )),
        forall|a: int, b: int| 0 <= a < b < r@.len() ==> #[trigger] r@[a] < #[trigger] r@[b],
        r@.no_duplicates(),
        final(alias_oracle).function() == old(alias_oracle).function(),
        final(alias_oracle).target() == old(alias_oracle).target(),
        (forall|k: int| 0 <= k < block@.insts.len() ==> !((#[trigger] block@.insts[k]).kind.op is Load))
            ==> final(alias_oracle).count() == old(alias_oracle).count(),
{
    let marks = mark_dead_stores(block, alias_oracle);
    let mut out: Vec<usize> = Vec::new();
    let mut i: usize = 0;
    while i < marks.len()
        invariant
            i <= marks@.len(),
            forall|j: usize| #[trigger] out@.contains(j) == (j < i && marks@[j as int]),
            forall|a: int, b: int|
                0 <= a < b < out@.len() ==> #[trigger] out@[a] < #[trigger] out@[b],
        decreases marks@.len() - i,
    {
        let ghost before = out@;
        if marks[i] {
            out.push(i);
            proof {
                assert forall|j: usize| #[trigger] out@.contains(j) == (j < i + 1 && marks@[j as int]) by {
                    assert(out@[out@.len() - 1] == i);
                    if before.contains(j) {
                        assert(out@[before.index_of(j)] == j);
                    }
                    if out@.contains(j) && j != i {
                        assert(before[out@.index_of(j)] == j);
                    }
                }
                assert forall|a: int, b: int| 0 <= a < b < out@.len() implies #[trigger] out@[a]
                    < #[trigger] out@[b] by {
                    assert(before.contains(before[a]));
                }
            }
        }
        i = i + 1;
    }
    out
}

fn listed(list: &Vec<usize>, x: usize) -> (r: bool)
    ensures
        r == list@.contains(x),
{
    let mut i: usize = 0;
    while i < list.len()
        invariant
            i <= list@.len(),
            forall|k: int| 0 <= k < i ==> #[trigger] list@[k] != x,
        decreases list@.len() - i,
    {
        if list[i] == x {
            return true;
        }
        i = i + 1;
    }
    false
}

/// Drops the instructions at the listed places.
fn remove_dead_stores(block: &mut BasicBlock, dead: &Vec<usize>) -> (changed: bool)
    requires
        forall|j: usize| #[trigger] dead@.contains(j) ==> j < old(block)@.insts.len(),
    ensures
        final(block)@ == (BlockView {
            insts: masked(
                old(block)@.insts,
                Seq::new(old(block)@.insts.len(), |j: int| !dead@.contains(j as usize)),
            ),
            ..old(block)@
        }),
        changed == (dead@.len() > 0),
{
    let ghost b = block@;
    let mut keep: Vec<bool> = Vec::new();
    let mut i: usize = 0;
    while i < block.insts.len()
        invariant
            *block == *old(block),
            b == block@,
            i <= block.insts@.len(),
            keep@.len() == i,
            forall|k: int| 0 <= k < i ==> #[trigger] keep@[k] == !dead@.contains(k as usize),
        decreases block.insts@.len() - i,
    {
        keep.push(!listed(dead, i));
        i = i + 1;
    }
    keep_insts(block, &keep);
    proof {
        assert(keep@ =~= Seq::new(b.insts.len(), |j: int| !dead@.contains(j as usize)));
    }
    dead.len() > 0
}

fn dse_function(func: &mut Function, layout: TargetLayout) -> (changed: bool)
    ensures
        final(func)@ == stored_func(old(func)@, layout),
        changed == has_dead_store(old(func)@, layout),
{
    let ghost f = func@;
    let mut dead_by_block: Vec<Vec<usize>> = Vec::new();
    {
        let mut oracle = AliasOracle::new(func, layout);
        let mut i: usize = 0;
        while i < func.blocks.len()
            invariant
                *func == *old(func),
                f == func@,
                i <= func.blocks@.len(),
                oracle.function() == f,
                oracle.target() == layout,
                dead_by_block@.len() == i,
                forall|b: int, j: usize|
                    0 <= b < i ==> (#[trigger] dead_by_block@[b]@.contains(j) == (j
                        < f.blocks[b].insts.len() && dead_store(
                        f,
                        layout,
                        f.blocks[b].insts,
                        j as int,
                    ))),
            decreases func.blocks@.len() - i,
        {
            proof {
                assert(f.blocks[i as int] == func.blocks@[i as int]@);
            }
            dead_by_block.push(find_dead_stores(&func.blocks[i], &mut oracle));
            i = i + 1;
        }
    }
    let mut changed: bool = false;
    let mut i: usize = 0;
    while i < func.blocks.len()
        invariant
            i <= f.blocks.len(),
            func.blocks@.len() == f.blocks.len(),
            func@ == (FuncView { blocks: func@.blocks, ..f }),
            dead_by_block@.len() == f.blocks.len(),
            forall|b: int, j: usize|
                0 <= b < f.blocks.len() ==> (#[trigger] dead_by_block@[b]@.contains(j) == (j
                    < f.blocks[b].insts.len() && dead_store(
                    f,
                    layout,
                    f.blocks[b].insts,
                    j as int,
                ))),
            forall|k: int|
                0 <= k < i ==> (#[trigger] func.blocks@[k])@ == stored_func(f, layout).blocks[k],
            forall|k: int| i <= k < f.blocks.len() ==> (#[trigger] func.blocks@[k])@ == f.blocks[k],
            changed == exists|b: int, j: int|
                0 <= b < i && #[trigger] dead_store(f, layout, f.blocks[b].insts, j),
        decreases f.blocks.len() - i,
    {
        let ghost s = f.blocks[i as int].insts;
        let ghost list = dead_by_block@[i as int]@;
        proof {
            assert(func.blocks@[i as int]@ == f.blocks[i as int]);
        }
        let size: usize = func.blocks[i].insts.len();
        let hit = remove_dead_stores(&mut func.blocks[i], &dead_by_block[i]);
        proof {
            assert(s.len() == size);
            assert(Seq::new(s.len(), |j: int| !list.contains(j as usize)) =~= live_mask(f, layout, s)) by {
                assert forall|j: int| 0 <= j < s.len() implies list.contains(j as usize)
                    == dead_store(f, layout, s, j) by {
                    assert(dead_by_block@[i as int]@.contains(j as usize) == ((j as usize)
                        < s.len() && dead_store(f, layout, s, (j as usize) as int)));
                }
            }
            if hit {
                assert(list.contains(list[0]));
                assert(dead_store(f, layout, s, list[0] as int));
            } else {
                assert forall|j: int| !#[trigger] dead_store(f, layout, s, j) by {
                    if dead_store(f, layout, s, j) {
                        let k = choose|k: int| #[trigger] overwrites(f, layout, s, j, k);
                        assert(dead_by_block@[i as int]@.contains(j as usize));
                    }
                }
            }
        }
        if hit {
            changed = true;
        }
        i = i + 1;
    }
    proof {
        assert(func@.blocks =~= stored_func(f, layout).blocks);
    }
    changed
}

/// The dead-store elimination pass.
pub struct Dse;

/// A module without dead stores.
pub open spec fn stored_module(m: ModuleView) -> ModuleView {
    ModuleView {
        functions: Seq::new(m.functions.len(), |i: int| stored_func(m.functions[i], m.layout)),
        ..m
    }
}

/// Is there a dead store in a module?
pub open spec fn any_dead_store(m: ModuleView) -> bool {
    exists|i: int|
        0 <= i < m.functions.len() && has_dead_store(#[trigger] m.functions[i], m.layout)
}

impl Pass for Dse {
    open spec fn accepts(&self, m: ModuleView) -> bool {
        true
    }

    open spec fn outcome(&self, before: ModuleView, after: ModuleView, changed: bool) -> bool {
        after == stored_module(before) && changed == any_dead_store(before)
    }

    fn name(&self) -> (r: &'static str)
        ensures
            r@ == "dse"@,
    {
        "dse"
    }

    fn run(&self, module: &mut Module) -> (changed: bool) {
        let ghost m = module@;
        let layout = module.layout;
        let mut changed: bool = false;
        let mut i: usize = 0;
        while i < module.functions.len()
            invariant
                i <= m.functions.len(),
                layout == m.layout,
                module.functions@.len() == m.functions.len(),
                module@ == (ModuleView { functions: module@.functions, ..m }),
                forall|k: int|
                    0 <= k < i ==> (#[trigger] module.functions@[k])@ == stored_func(
                        m.functions[k],
                        layout,
                    ),
                forall|k: int|
                    i <= k < m.functions.len() ==> (#[trigger] module.functions@[k])@
                        == m.functions[k],
                changed == exists|k: int|
                    0 <= k < i && has_dead_store(#[trigger] m.functions[k], layout),
            decreases m.functions.len() - i,
        {
            proof {
                assert(module.functions@[i as int]@ == m.functions[i as int]);
            }
            if dse_function(&mut module.functions[i], layout) {
                changed = true;
            }
            i = i + 1;
        }
        proof {
            assert(module@.functions =~= stored_module(m).functions);
        }
        changed
    }
}

} // verus!
