//! Alias analysis: whether two pointers can refer to the same storage.
//!
//! A pointer is traced through element addresses to where it comes from.
//! Fortran lets distinct local slots, distinct globals and distinct ordinary
//! dummy arguments be taken as separate storage.

use crate::ids::same_id;
use crate::ir::inst::{
    type_of, FuncView, Function, Inst, InstKind, InstView, Op, ParamView, ValueId,
};
use crate::ir::types::{type_fits, type_size, IrType};
use crate::opt::insts::{
    all_insts, find_first, find_last, first_inst, insts_of, last_inst, lemma_last_inst,
    refs_view,
};
use crate::target::TargetLayout;
use crate::text::same_text;
use vstd::prelude::*;

verus! {

/// What two pointers have to do with each other.
#[derive(Debug, Clone, Copy, PartialEq, Eq, Structural)]
pub enum AliasResult {
    /// The pointers refer to the same location.
    MustAlias,
    /// The pointers might refer to the same location.
    MayAlias,
    /// The pointers refer to different locations.
    NoAlias,
}

/// Where a pointer comes from.
#[derive(Debug)]
pub enum PtrBase {
    /// A stack slot.
    Alloca(ValueId),
    /// A global variable.
    Global(String),
    /// A parameter, or the parameter that a slot was filled with.
    Param(ValueId),
    Unknown,
}

/// The model of where a pointer comes from.
pub enum BaseView {
    Alloca(ValueId),
    Global(Seq<char>),
    Param(ValueId),
    Unknown,
}

impl PtrBase {
    /// The model.
    pub open spec fn view(&self) -> BaseView {
        match *self {
            PtrBase::Alloca(v) => BaseView::Alloca(v),
            PtrBase::Global(name) => BaseView::Global(name@),
            PtrBase::Param(v) => BaseView::Param(v),
            PtrBase::Unknown => BaseView::Unknown,
        }
    }

    /// Do two pointers come from the same place?
    fn same(&self, other: &PtrBase) -> (r: bool)
        ensures
            r == (self@ == other@),
    {
        match (self, other) {
            (PtrBase::Alloca(a), PtrBase::Alloca(b)) => same_id(*a, *b),
            (PtrBase::Global(a), PtrBase::Global(b)) => same_text(a.as_str(), b.as_str()),
            (PtrBase::Param(a), PtrBase::Param(b)) => same_id(*a, *b),
            (PtrBase::Unknown, PtrBase::Unknown) => true,
            _ => false,
        }
    }
}

/// A location that is known exactly, or the pointer itself where it is not.
#[derive(Debug)]
pub enum ProvenLocation {
    /// So many bytes behind a known base.
    At(PtrBase, i64),
    /// Whatever the pointer refers to.
    Value(ValueId),
}

/// The model of a location.
pub enum LocationView {
    At(BaseView, int),
    Value(ValueId),
}

impl ProvenLocation {
    /// The model.
    pub open spec fn view(&self) -> LocationView {
        match *self {
            ProvenLocation::At(base, offset) => LocationView::At(base@, offset as int),
            ProvenLocation::Value(v) => LocationView::Value(v),
        }
    }

    /// Are two locations the same?
    pub fn same(&self, other: &ProvenLocation) -> (r: bool)
        ensures
            r == (self@ == other@),
    {
        match (self, other) {
            (ProvenLocation::At(a, x), ProvenLocation::At(b, y)) => a.same(b) && *x == *y,
            (ProvenLocation::Value(a), ProvenLocation::Value(b)) => same_id(*a, *b),
            _ => false,
        }
    }
}

/// Whether the parameter `v` is free of aliases, if `v` is a parameter.
pub open spec fn param_flag(params: Seq<ParamView>, v: ValueId) -> Option<bool>
    decreases params.len(),
{
    if params.len() == 0 {
        None
    } else if params.last().id == v {
        Some(params.last().fortran_noalias)
    } else {
        param_flag(params.drop_last(), v)
    }
}

/// Is `v` a parameter?
pub open spec fn is_param(f: FuncView, v: ValueId) -> bool {
    param_flag(f.params, v) is Some
}

/// Is `v` a parameter that is free of aliases?
pub open spec fn noalias_param(f: FuncView, v: ValueId) -> bool {
    param_flag(f.params, v) == Some(true)
}

/// The instruction that defines `v`.
pub open spec fn def_inst(f: FuncView, v: ValueId) -> Option<InstView> {
    last_inst(insts_of(f), v)
}

/// The integer constant that `v` is.
pub open spec fn const_int(f: FuncView, v: ValueId) -> Option<i64> {
    match first_inst(insts_of(f), v) {
        Some(i) => match i.kind.op {
            Op::ConstInt(c, _) => if i64::MIN <= c <= i64::MAX {
                Some(c as i64)
            } else {
                None
            },
            _ => None,
        },
        None => None,
    }
}

/// What the element address `v` is counted from.
pub open spec fn gep_base(f: FuncView, v: ValueId) -> Option<ValueId> {
    if is_param(f, v) {
        None
    } else {
        match def_inst(f, v) {
            Some(i) => if i.kind.op is GetElementPtr {
                Some(i.kind.args[0])
            } else {
                None
            },
            None => None,
        }
    }
}

/// What `v` is counted from in the end, found in at most `fuel` steps.
pub open spec fn root(f: FuncView, v: ValueId, fuel: nat) -> ValueId
    decreases fuel,
{
    if fuel == 0 {
        v
    } else {
        match gep_base(f, v) {
            Some(b) => root(f, b, (fuel - 1) as nat),
            None => v,
        }
    }
}

/// What `v` is counted from in the end. A chain of element addresses that runs
/// in no circle is not longer than the function.
pub open spec fn root_of(f: FuncView, v: ValueId) -> ValueId {
    root(f, v, insts_of(f).len())
}

/// The byte size of what a pointer type points to.
pub open spec fn pointee_size(ty: IrType, layout: TargetLayout) -> Option<int> {
    match ty {
        IrType::Ptr(inner) => if type_fits(*inner, layout) && type_size(*inner, layout)
            <= i64::MAX {
            Some(type_size(*inner, layout) as int)
        } else {
            None
        },
        _ => None,
    }
}

/// A number that fits 64 bits.
pub open spec fn in_range(n: int) -> Option<int> {
    if i64::MIN <= n <= i64::MAX {
        Some(n)
    } else {
        None
    }
}

/// How many bytes the element address `i` adds to its base.
pub open spec fn gep_step(f: FuncView, layout: TargetLayout, i: InstView) -> Option<int> {
    if i.kind.args.len() != 2 {
        None
    } else {
        match (const_int(f, i.kind.args[1]), pointee_size(i.ty, layout)) {
            (Some(n), Some(size)) => in_range(n * size),
            _ => None,
        }
    }
}

/// How many bytes `v` lies behind what it is counted from, if that is a known
/// number of 64 bits all along the way.
pub open spec fn path_offset(f: FuncView, layout: TargetLayout, v: ValueId, fuel: nat) -> Option<
    int,
>
    decreases fuel,
{
    if fuel == 0 {
        Some(0)
    } else {
        match gep_base(f, v) {
            Some(b) => match (
                path_offset(f, layout, b, (fuel - 1) as nat),
                gep_step(f, layout, def_inst(f, v)->0),
            ) {
                (Some(n), Some(d)) => in_range(n + d),
                _ => None,
            },
            None => Some(0),
        }
    }
}

/// Does `i` store to the address `slot`?
pub open spec fn stores_to(i: InstView, slot: ValueId) -> bool {
    i.kind.op is Store && i.kind.args[1] == slot
}

/// The stores to `slot`.
pub open spec fn stores_in(s: Seq<InstView>, slot: ValueId) -> Seq<InstView> {
    s.filter(|i: InstView| stores_to(i, slot))
}

/// The parameter that `slot` holds: the slot is stored to once, and a parameter
/// is stored.
pub open spec fn stored_param(f: FuncView, slot: ValueId) -> Option<ValueId> {
    let stores = stores_in(insts_of(f), slot);
    if stores.len() == 1 && is_param(f, stores[0].kind.args[0]) {
        Some(stores[0].kind.args[0])
    } else {
        None
    }
}

/// Is `v` a stack slot?
pub open spec fn is_slot(f: FuncView, v: ValueId) -> bool {
    !is_param(f, v) && (def_inst(f, v) matches Some(i) && i.kind.op is Alloca)
}

/// The parameter that is read by a load from `addr`.
pub open spec fn loaded_param(f: FuncView, layout: TargetLayout, addr: ValueId) -> Option<ValueId> {
    match def_inst(f, addr) {
        Some(i) => if i.kind.op is Alloca {
            stored_param(f, addr)
        } else if i.kind.op is GetElementPtr {
            let slot = root_of(f, i.kind.args[0]);
            if is_slot(f, slot) && path_offset(f, layout, addr, insts_of(f).len()) == Some(0int) {
                stored_param(f, slot)
            } else {
                None
            }
        } else {
            None
        },
        None => None,
    }
}

/// Where a value comes from that is no element address.
pub open spec fn base_at(f: FuncView, layout: TargetLayout, v: ValueId) -> BaseView {
    if is_param(f, v) {
        BaseView::Param(v)
    } else {
        match def_inst(f, v) {
            Some(i) => match i.kind.op {
                Op::Alloca(_) => BaseView::Alloca(v),
                Op::GlobalAddr(name) => BaseView::Global(name),
                Op::Load => match loaded_param(f, layout, i.kind.args[0]) {
                    Some(p) => BaseView::Param(p),
                    None => BaseView::Unknown,
                },
                _ => BaseView::Unknown,
            },
            None => BaseView::Unknown,
        }
    }
}

/// Where a pointer comes from.
pub open spec fn base_of(f: FuncView, layout: TargetLayout, v: ValueId) -> BaseView {
    base_at(f, layout, root_of(f, v))
}

/// How many bytes a pointer lies behind a known base.
pub open spec fn offset_of(f: FuncView, layout: TargetLayout, v: ValueId) -> Option<int> {
    if base_of(f, layout, v) is Unknown {
        None
    } else {
        path_offset(f, layout, v, insts_of(f).len())
    }
}

/// Does `v` point to an array or a structure?
pub open spec fn points_to_aggregate(f: FuncView, v: ValueId) -> bool {
    match type_of(f, v) {
        Some(IrType::Ptr(inner)) => *inner is Array || *inner is Struct,
        _ => false,
    }
}

/// Is storage from these two places separate?
pub open spec fn separate_bases(f: FuncView, a: BaseView, b: BaseView) -> bool {
    match (a, b) {
        (BaseView::Alloca(x), BaseView::Alloca(y)) => x != y,
        (BaseView::Global(x), BaseView::Global(y)) => x != y,
        (BaseView::Param(x), BaseView::Param(y)) => x != y && noalias_param(f, x)
            && noalias_param(f, y),
        (BaseView::Alloca(_), BaseView::Global(_)) => true,
        (BaseView::Global(_), BaseView::Alloca(_)) => true,
        (BaseView::Alloca(_), BaseView::Param(_)) => true,
        (BaseView::Param(_), BaseView::Alloca(_)) => true,
        _ => false,
    }
}

/// What two pointers have to do with each other.
pub open spec fn alias(f: FuncView, layout: TargetLayout, a: ValueId, b: ValueId) -> AliasResult {
    let x = base_of(f, layout, a);
    let y = base_of(f, layout, b);
    if a == b {
        AliasResult::MustAlias
    } else if separate_bases(f, x, y) {
        AliasResult::NoAlias
    } else if x == y {
        match (offset_of(f, layout, a), offset_of(f, layout, b)) {
            (Some(m), Some(n)) => if m == n {
                AliasResult::MustAlias
            } else if points_to_aggregate(f, a) || points_to_aggregate(f, b) {
                AliasResult::MayAlias
            } else {
                AliasResult::NoAlias
            },
            _ => AliasResult::MayAlias,
        }
    } else {
        AliasResult::MayAlias
    }
}

/// Can a callee that receives `arg` reach what `entry` points to?
///
/// The callee can walk to any offset within the same allocation.
pub open spec fn reaches_through_call(
    f: FuncView,
    layout: TargetLayout,
    entry: ValueId,
    arg: ValueId,
) -> bool {
    entry == arg || match (base_of(f, layout, entry), base_of(f, layout, arg)) {
        (BaseView::Alloca(x), BaseView::Alloca(y)) => x == y,
        (BaseView::Global(x), BaseView::Global(y)) => x == y,
        (BaseView::Param(x), BaseView::Param(y)) => x == y || !(noalias_param(f, x)
            && noalias_param(f, y)),
        (BaseView::Unknown, _) => true,
        (_, BaseView::Unknown) => true,
        _ => false,
    }
}

/// The location that a pointer is known to refer to.
pub open spec fn location_of(f: FuncView, layout: TargetLayout, v: ValueId) -> LocationView {
    match offset_of(f, layout, v) {
        Some(n) => LocationView::At(base_of(f, layout, v), n),
        None => LocationView::Value(v),
    }
}

/// Could a callee reach what `v` points to without receiving its address?
pub open spec fn global_storage(f: FuncView, layout: TargetLayout, v: ValueId) -> bool {
    base_of(f, layout, v) is Global || base_of(f, layout, v) is Unknown
}

/// Aliasing does not depend on the order of the two pointers.
pub proof fn aliasing_is_symmetric(f: FuncView, layout: TargetLayout, a: ValueId, b: ValueId)
    ensures
        alias(f, layout, a, b) == alias(f, layout, b, a),
{
}

/// Two pointers refer to the same location exactly where their known locations
/// are the same.
pub proof fn same_location_is_must_alias(f: FuncView, layout: TargetLayout, a: ValueId, b: ValueId)
    ensures
        (alias(f, layout, a, b) == AliasResult::MustAlias) == (location_of(f, layout, a)
            == location_of(f, layout, b)),
{
}

/// Different stack slots do not alias.
pub proof fn different_slots_do_not_alias(f: FuncView, layout: TargetLayout, a: ValueId, b: ValueId)
    requires
        a != b,
        is_slot(f, a),
        is_slot(f, b),
    ensures
        alias(f, layout, a, b) == AliasResult::NoAlias,
{
    lemma_own_root(f, a, insts_of(f).len());
    lemma_own_root(f, b, insts_of(f).len());
}

/// Is `v` the address of the global named `name`?
pub open spec fn is_global(f: FuncView, v: ValueId, name: Seq<char>) -> bool {
    !is_param(f, v) && (def_inst(f, v) matches Some(i) && i.kind.op == Op::GlobalAddr(name))
}

/// Different globals do not alias.
pub proof fn different_globals_do_not_alias(
    f: FuncView,
    layout: TargetLayout,
    a: ValueId,
    b: ValueId,
    x: Seq<char>,
    y: Seq<char>,
)
    requires
        x != y,
        is_global(f, a, x),
        is_global(f, b, y),
    ensures
        alias(f, layout, a, b) == AliasResult::NoAlias,
{
    lemma_own_root(f, a, insts_of(f).len());
    lemma_own_root(f, b, insts_of(f).len());
}

/// Different ordinary dummy arguments do not alias.
pub proof fn different_dummies_do_not_alias(
    f: FuncView,
    layout: TargetLayout,
    a: ValueId,
    b: ValueId,
)
    requires
        a != b,
        noalias_param(f, a),
        noalias_param(f, b),
    ensures
        alias(f, layout, a, b) == AliasResult::NoAlias,
{
    lemma_own_root(f, a, insts_of(f).len());
    lemma_own_root(f, b, insts_of(f).len());
}

/// Scalars at different known offsets from one base do not alias.
pub proof fn different_offsets_do_not_alias(
    f: FuncView,
    layout: TargetLayout,
    a: ValueId,
    b: ValueId,
)
    requires
        base_of(f, layout, a) == base_of(f, layout, b),
        offset_of(f, layout, a) is Some,
        offset_of(f, layout, b) is Some,
        offset_of(f, layout, a) != offset_of(f, layout, b),
        !points_to_aggregate(f, a),
        !points_to_aggregate(f, b),
    ensures
        alias(f, layout, a, b) == AliasResult::NoAlias,
{
}

/// What is no element address is counted from itself.
proof fn lemma_own_root(f: FuncView, v: ValueId, fuel: nat)
    requires
        gep_base(f, v) is None,
    ensures
        root(f, v, fuel) == v,
{
}

/// A callee that receives a pointer to a location can reach that location.
pub proof fn must_alias_is_reachable(f: FuncView, layout: TargetLayout, a: ValueId, b: ValueId)
    requires
        alias(f, layout, a, b) == AliasResult::MustAlias,
    ensures
        reaches_through_call(f, layout, a, b),
{
}

/// What a callee reaches does not depend on offsets: pointers from one
/// allocation reach each other.
pub proof fn one_allocation_is_reachable(f: FuncView, layout: TargetLayout, a: ValueId, b: ValueId)
    requires
        base_of(f, layout, a) == base_of(f, layout, b),
    ensures
        reaches_through_call(f, layout, a, b),
{
}

/// Where a chain of element addresses stands after `k` steps.
pub open spec fn chain_at(f: FuncView, v: ValueId, k: nat) -> ValueId
    decreases k,
{
    if k == 0 {
        v
    } else {
        let u = chain_at(f, v, (k - 1) as nat);
        match gep_base(f, u) {
            Some(b) => b,
            None => u,
        }
    }
}

proof fn lemma_chain_step(f: FuncView, v: ValueId, b: ValueId, k: nat)
    requires
        gep_base(f, v) == Some(b),
    ensures
        chain_at(f, b, k) == chain_at(f, v, k + 1),
    decreases k,
{
    if k > 0 {
        lemma_chain_step(f, v, b, (k - 1) as nat);
    } else {
        assert(chain_at(f, v, 0) == v);
        assert(chain_at(f, v, 1) == b);
    }
}

pub proof fn lemma_chain_rests(f: FuncView, v: ValueId, k: nat, n: nat)
    requires
        k <= n,
        gep_base(f, chain_at(f, v, k)) is None,
    ensures
        chain_at(f, v, n) == chain_at(f, v, k),
    decreases n,
{
    if k < n {
        lemma_chain_rests(f, v, k, (n - 1) as nat);
    }
}

pub proof fn lemma_root_chain(f: FuncView, v: ValueId, n: nat)
    ensures
        root(f, v, n) == chain_at(f, v, n),
    decreases n,
{
    if n > 0 {
        match gep_base(f, v) {
            Some(b) => {
                lemma_root_chain(f, b, (n - 1) as nat);
                lemma_chain_step(f, v, b, (n - 1) as nat);
            },
            None => {
                lemma_chain_rests(f, v, 0, n);
            },
        }
    }
}

/// An element address is counted from something that is none, unless its chain
/// runs in a circle.
pub proof fn element_addresses_have_a_root(f: FuncView, v: ValueId)
    requires
        forall|i: nat, j: nat|
            i < j <= insts_of(f).len() && gep_base(f, #[trigger] chain_at(f, v, i)) is Some
                ==> chain_at(f, v, i) != #[trigger] chain_at(f, v, j),
    ensures
        gep_base(f, root_of(f, v)) is None,
{
    let s = insts_of(f);
    let n = s.len();
    lemma_root_chain(f, v, n);
    if gep_base(f, chain_at(f, v, n)) is Some {
        assert forall|k: nat| k <= n implies gep_base(f, #[trigger] chain_at(f, v, k)) is Some by {
            if gep_base(f, chain_at(f, v, k)) is None {
                lemma_chain_rests(f, v, k, n);
            }
        }
        let places = Seq::new(
            n + 1,
            |k: int| s.index_of(def_inst(f, chain_at(f, v, k as nat))->0),
        );
        assert forall|k: int| 0 <= k <= n implies 0 <= #[trigger] places[k] < n && s[places[k]].id
            == chain_at(f, v, k as nat) by {
            assert(gep_base(f, chain_at(f, v, k as nat)) is Some);
            lemma_last_inst(s, chain_at(f, v, k as nat));
        }
        assert(places.no_duplicates()) by {
            assert forall|i: int, j: int| 0 <= i < places.len() && 0 <= j < places.len() && i != j implies places[i]
                != places[j] by {
                assert(gep_base(f, chain_at(f, v, i as nat)) is Some);
                assert(gep_base(f, chain_at(f, v, j as nat)) is Some);
                if i < j {
                    assert(chain_at(f, v, i as nat) != chain_at(f, v, j as nat));
                } else {
                    assert(chain_at(f, v, j as nat) != chain_at(f, v, i as nat));
                }
            }
        }
        places.unique_seq_to_set();
        vstd::set_lib::lemma_int_range(0, n as int);
        let range = vstd::set_lib::set_int_range(0, n as int);
        assert(places.to_set().subset_of(range)) by {
            assert forall|x: int| places.to_set().contains(x) implies range.contains(x) by {
                let k = places.index_of(x);
                assert(places[k] == x);
            }
        }
        vstd::set_lib::lemma_len_subset(places.to_set(), range);
    }
}

/// An oracle for the aliasing questions about one function.
pub struct AliasOracle<'a> {
    func: &'a Function,
    layout: TargetLayout,
    insts: Vec<&'a Inst>,
    queries: u64,
}

impl<'a> AliasOracle<'a> {
    #[verifier::type_invariant]
    spec fn listed(self) -> bool {
        refs_view(self.insts@) == insts_of(self.func@)
    }

    /// The function that the questions are about.
    pub closed spec fn function(&self) -> FuncView {
        self.func@
    }

    /// The data layout.
    pub closed spec fn target(&self) -> TargetLayout {
        self.layout
    }

    /// How many pairs were compared.
    pub closed spec fn count(&self) -> int {
        self.queries as int
    }

    /// An oracle for a function.
    pub fn new(func: &'a Function, layout: TargetLayout) -> (r: Self)
        ensures
            r.function() == func@,
            r.target() == layout,
            r.count() == 0,
    {
        AliasOracle { func, layout, insts: all_insts(func), queries: 0 }
    }

    /// How many pairs were compared.
    pub fn query_count(&self) -> (r: u64)
        ensures
            r == self.count(),
    {
        self.queries
    }

    fn param_flag(&self, v: ValueId) -> (r: Option<bool>)
        ensures
            r == param_flag(self.function().params, v),
    {
        let ghost ps = self.func@.params;
        let mut i: usize = self.func.params.len();
        proof {
            assert(ps.take(ps.len() as int) =~= ps);
        }
        while i > 0
            invariant
                i <= ps.len(),
                ps == self.func@.params,
                param_flag(ps.take(i as int), v) == param_flag(ps, v),
            decreases i,
        {
            let p: usize = i - 1;
            proof {
                assert(ps.take(i as int).drop_last() =~= ps.take(p as int));
                assert(ps[p as int] == self.func.params@[p as int]@);
            }
            if same_id(self.func.params[p].id, v) {
                return Some(self.func.params[p].fortran_noalias);
            }
            i = p;
        }
        None
    }

    fn is_param(&self, v: ValueId) -> (r: bool)
        ensures
            r == is_param(self.function(), v),
    {
        self.param_flag(v).is_some()
    }

    fn is_noalias(&self, v: ValueId) -> (r: bool)
        ensures
            r == noalias_param(self.function(), v),
    {
        match self.param_flag(v) {
            Some(flag) => flag,
            None => false,
        }
    }

    fn find_inst(&self, v: ValueId) -> (r: Option<&'a Inst>)
        ensures
            match r {
                Some(i) => def_inst(self.function(), v) == Some(i@),
                None => def_inst(self.function(), v) is None,
            },
    {
        proof {
            use_type_invariant(self);
        }
        find_last(&self.insts, v)
    }

    fn resolve_const_int(&self, v: ValueId) -> (r: Option<i64>)
        ensures
            r == const_int(self.function(), v),
    {
        proof {
            use_type_invariant(self);
        }
        match find_first(&self.insts, v) {
            Some(i) => match &i.kind {
                InstKind::ConstInt(c, _) => if i64::MIN as i128 <= *c && *c <= i64::MAX as i128 {
                    Some(*c as i64)
                } else {
                    None
                },
                _ => None,
            },
            None => None,
        }
    }

    fn gep_base(&self, v: ValueId) -> (r: Option<ValueId>)
        ensures
            r == gep_base(self.function(), v),
    {
        if self.is_param(v) {
            return None;
        }
        match self.find_inst(v) {
            Some(i) => match &i.kind {
                InstKind::GetElementPtr(b, _) => Some(*b),
                _ => None,
            },
            None => None,
        }
    }

    fn root(&self, v: ValueId) -> (r: ValueId)
        ensures
            r == root_of(self.function(), v),
    {
        proof {
            use_type_invariant(self);
        }
        let mut at = v;
        let mut fuel: usize = self.insts.len();
        while fuel > 0
            invariant
                root(self.function(), at, fuel as nat) == root_of(self.function(), v),
            decreases fuel,
        {
            match self.gep_base(at) {
                Some(b) => {
                    at = b;
                },
                None => {
                    return at;
                },
            }
            fuel = fuel - 1;
        }
        at
    }

    fn gep_step(&self, i: &Inst) -> (r: Option<i64>)
        requires
            i.kind is GetElementPtr,
        ensures
            match r {
                Some(n) => gep_step(self.function(), self.target(), i@) == Some(n as int),
                None => gep_step(self.function(), self.target(), i@) is None,
            },
    {
        match &i.kind {
            InstKind::GetElementPtr(_, indices) => {
                if indices.len() != 1 {
                    return None;
                }
                let index = self.resolve_const_int(indices[0]);
                let size: Option<i64> = match &i.ty {
                    IrType::Ptr(inner) => match inner.try_size_bytes(&self.layout) {
                        Ok(n) => if n <= i64::MAX as u64 {
                            Some(n as i64)
                        } else {
                            None
                        },
                        Err(_) => None,
                    },
                    _ => None,
                };
                match (index, size) {
                    (Some(n), Some(s)) => n.checked_mul(s),
                    _ => None,
                }
            },
            _ => None,
        }
    }

    fn path_offset(&self, v: ValueId, fuel: usize) -> (r: Option<i64>)
        ensures
            match r {
                Some(n) => path_offset(self.function(), self.target(), v, fuel as nat) == Some(
                    n as int,
                ),
                None => path_offset(self.function(), self.target(), v, fuel as nat) is None,
            },
        decreases fuel,
    {
        if fuel == 0 || self.is_param(v) {
            return Some(0);
        }
        match self.find_inst(v) {
            Some(i) => match &i.kind {
                InstKind::GetElementPtr(b, _) => {
                    match (self.path_offset(*b, fuel - 1), self.gep_step(i)) {
                        (Some(n), Some(d)) => n.checked_add(d),
                        _ => None,
                    }
                },
                _ => Some(0),
            },
            None => Some(0),
        }
    }

    fn stored_param_for_slot(&self, slot: ValueId) -> (r: Option<ValueId>)
        ensures
            r == stored_param(self.function(), slot),
    {
        proof {
            use_type_invariant(self);
        }
        let ghost s = insts_of(self.func@);
        let ghost want = |i: InstView| stores_to(i, slot);
        let mut found: Option<ValueId> = None;
        let mut i: usize = 0;
        proof {
            reveal(Seq::filter);
            assert(s.take(0) =~= Seq::<InstView>::empty());
        }
        while i < self.insts.len()
            invariant
                i <= self.insts@.len(),
                s == insts_of(self.func@),
                s == refs_view(self.insts@),
                want == (|i: InstView| stores_to(i, slot)),
                match found {
                    Some(v) => s.take(i as int).filter(want).len() == 1 && s.take(i as int).filter(
                        want,
                    )[0].kind.args[0] == v && is_param(self.function(), v),
                    None => s.take(i as int).filter(want).len() == 0,
                },
            decreases self.insts@.len() - i,
        {
            broadcast use vstd::seq_lib::group_filter_ensures;

            let ghost before = s.take(i as int).filter(want);
            proof {
                reveal(Seq::filter);
                assert(s.take(i + 1).drop_last() =~= s.take(i as int));
                assert(s.take(i + 1).last() == s[i as int]);
                assert(s[i as int] == self.insts@[i as int]@);
                let next = s.take(i + 1).filter(want);
                lemma_filter_prefix(s, i + 1, want);
                if next.len() >= 1 {
                    assert(s.filter(want)[0] == next[0]);
                }
                if before.len() >= 1 {
                    assert(next[0] == before[0]);
                }
            }
            match &self.insts[i].kind {
                InstKind::Store(val, ptr) => {
                    if same_id(*ptr, slot) {
                        if !self.is_param(*val) || found.is_some() {
                            return None;
                        }
                        found = Some(*val);
                    }
                },
                _ => {},
            }
            i = i + 1;
        }
        proof {
            assert(s.take(i as int) =~= s);
        }
        found
    }

    fn loaded_param(&self, addr: ValueId) -> (r: Option<ValueId>)
        ensures
            r == loaded_param(self.function(), self.target(), addr),
    {
        proof {
            use_type_invariant(self);
        }
        match self.find_inst(addr) {
            Some(i) => match &i.kind {
                InstKind::Alloca(_) => self.stored_param_for_slot(addr),
                InstKind::GetElementPtr(b, _) => {
                    let slot = self.root(*b);
                    if !self.is_slot(slot) {
                        return None;
                    }
                    match self.path_offset(addr, self.insts.len()) {
                        Some(0) => self.stored_param_for_slot(slot),
                        _ => None,
                    }
                },
                _ => None,
            },
            None => None,
        }
    }

    fn is_slot(&self, v: ValueId) -> (r: bool)
        ensures
            r == is_slot(self.function(), v),
    {
        if self.is_param(v) {
            return false;
        }
        match self.find_inst(v) {
            Some(i) => match &i.kind {
                InstKind::Alloca(_) => true,
                _ => false,
            },
            None => false,
        }
    }

    fn trace_base(&self, v: ValueId) -> (r: PtrBase)
        ensures
            r@ == base_of(self.function(), self.target(), v),
    {
        let at = self.root(v);
        if self.is_param(at) {
            return PtrBase::Param(at);
        }
        match self.find_inst(at) {
            Some(i) => match &i.kind {
                InstKind::Alloca(_) => PtrBase::Alloca(at),
                InstKind::GlobalAddr(name) => PtrBase::Global(crate::text::text(name.as_str())),
                InstKind::Load(addr) => match self.loaded_param(*addr) {
                    Some(p) => PtrBase::Param(p),
                    None => PtrBase::Unknown,
                },
                _ => PtrBase::Unknown,
            },
            None => PtrBase::Unknown,
        }
    }

    fn trace_offset(&self, v: ValueId, base: &PtrBase) -> (r: Option<i64>)
        requires
            base@ == base_of(self.function(), self.target(), v),
        ensures
            match r {
                Some(n) => offset_of(self.function(), self.target(), v) == Some(n as int),
                None => offset_of(self.function(), self.target(), v) is None,
            },
    {
        proof {
            use_type_invariant(self);
        }
        match base {
            PtrBase::Unknown => None,
            _ => self.path_offset(v, self.insts.len()),
        }
    }

    /// The type of a value.
    pub fn value_type(&self, v: ValueId) -> (r: Option<IrType>)
        ensures
            r == type_of(self.function(), v),
    {
        self.func.value_type(v)
    }

    /// Is a value a pointer?
    pub fn value_is_pointer(&self, v: ValueId) -> (r: bool)
        ensures
            r == (type_of(self.function(), v) matches Some(IrType::Ptr(_))),
    {
        match self.func.value_type(v) {
            Some(IrType::Ptr(_)) => true,
            _ => false,
        }
    }

    fn pointer_points_to_aggregate(&self, v: ValueId) -> (r: bool)
        ensures
            r == points_to_aggregate(self.function(), v),
    {
        match self.func.value_type(v) {
            Some(IrType::Ptr(inner)) => match *inner {
                IrType::Array(_, _) => true,
                IrType::Struct(_) => true,
                _ => false,
            },
            _ => false,
        }
    }

    fn bases_are_separate(&self, a: &PtrBase, b: &PtrBase) -> (r: bool)
        ensures
            r == separate_bases(self.function(), a@, b@),
    {
        match (a, b) {
            (PtrBase::Alloca(x), PtrBase::Alloca(y)) => !same_id(*x, *y),
            (PtrBase::Global(x), PtrBase::Global(y)) => !same_text(x.as_str(), y.as_str()),
            (PtrBase::Param(x), PtrBase::Param(y)) => !same_id(*x, *y) && self.is_noalias(*x)
                && self.is_noalias(*y),
            (PtrBase::Alloca(_), PtrBase::Global(_)) => true,
            (PtrBase::Global(_), PtrBase::Alloca(_)) => true,
            (PtrBase::Alloca(_), PtrBase::Param(_)) => true,
            (PtrBase::Param(_), PtrBase::Alloca(_)) => true,
            _ => false,
        }
    }

    /// What two pointers have to do with each other.
    pub fn query(&mut self, a: ValueId, b: ValueId) -> (r: AliasResult)
        ensures
            r == alias(old(self).function(), old(self).target(), a, b),
            final(self).function() == old(self).function(),
            final(self).target() == old(self).target(),
            final(self).count() == if old(self).count() < u64::MAX {
                old(self).count() + 1
            } else {
                old(self).count()
            },
    {
        proof {
            use_type_invariant(&*self);
        }
        if self.queries < u64::MAX {
            self.queries = self.queries + 1;
        }
        if same_id(a, b) {
            return AliasResult::MustAlias;
        }
        let x = self.trace_base(a);
        let y = self.trace_base(b);
        if self.bases_are_separate(&x, &y) {
            return AliasResult::NoAlias;
        }
        if x.same(&y) {
            match (self.trace_offset(a, &x), self.trace_offset(b, &y)) {
                (Some(m), Some(n)) => {
                    if m == n {
                        return AliasResult::MustAlias;
                    }
                    if self.pointer_points_to_aggregate(a) || self.pointer_points_to_aggregate(b) {
                        return AliasResult::MayAlias;
                    }
                    return AliasResult::NoAlias;
                },
                _ => {},
            }
        }
        AliasResult::MayAlias
    }

    /// Can a callee that receives `call_arg` reach what `entry_ptr` points to?
    pub fn may_reach_through_call_arg(&self, entry_ptr: ValueId, call_arg: ValueId) -> (r: bool)
        ensures
            r == reaches_through_call(self.function(), self.target(), entry_ptr, call_arg),
    {
        if same_id(entry_ptr, call_arg) {
            return true;
        }
        let x = self.trace_base(entry_ptr);
        let y = self.trace_base(call_arg);
        match (&x, &y) {
            (PtrBase::Alloca(p), PtrBase::Alloca(q)) => same_id(*p, *q),
            (PtrBase::Global(p), PtrBase::Global(q)) => same_text(p.as_str(), q.as_str()),
            (PtrBase::Param(p), PtrBase::Param(q)) => same_id(*p, *q) || !(self.is_noalias(*p)
                && self.is_noalias(*q)),
            (PtrBase::Unknown, _) => true,
            (_, PtrBase::Unknown) => true,
            _ => false,
        }
    }

    /// The location that a pointer is known to refer to.
    pub fn proven_location(&self, v: ValueId) -> (r: ProvenLocation)
        ensures
            r@ == location_of(self.function(), self.target(), v),
    {
        let base = self.trace_base(v);
        match self.trace_offset(v, &base) {
            Some(n) => ProvenLocation::At(base, n),
            None => ProvenLocation::Value(v),
        }
    }

    /// Could a callee reach what `v` points to without receiving its address?
    pub fn requires_global_call_barrier(&self, v: ValueId) -> (r: bool)
        ensures
            r == global_storage(self.function(), self.target(), v),
    {
        match self.trace_base(v) {
            PtrBase::Global(_) => true,
            PtrBase::Unknown => true,
            _ => false,
        }
    }
}

/// What is kept of a prefix opens what is kept of the whole.
proof fn lemma_filter_prefix<T>(s: Seq<T>, n: int, keep: spec_fn(T) -> bool)
    requires
        0 <= n <= s.len(),
    ensures
        s.take(n).filter(keep).is_prefix_of(s.filter(keep)),
    decreases s.len(),
{
    reveal(Seq::filter);
    if n < s.len() {
        lemma_filter_prefix(s.drop_last(), n, keep);
        assert(s.drop_last().take(n) =~= s.take(n));
    } else {
        assert(s.take(n) =~= s);
    }
}

/// Can a callee that receives `call_arg` reach what `entry_ptr` points to?
pub fn may_reach_through_call_arg(
    func: &Function,
    entry_ptr: ValueId,
    call_arg: ValueId,
    layout: TargetLayout,
) -> (r: bool)
    ensures
        r == reaches_through_call(func@, layout, entry_ptr, call_arg),
{
    AliasOracle::new(func, layout).may_reach_through_call_arg(entry_ptr, call_arg)
}

/// What two pointers have to do with each other.
pub fn query(func: &Function, a: ValueId, b: ValueId, layout: TargetLayout) -> (r: AliasResult)
    ensures
        r == alias(func@, layout, a, b),
{
    let mut oracle = AliasOracle::new(func, layout);
    oracle.query(a, b)
}

} // verus!
