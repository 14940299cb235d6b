//! Constant-argument specialisation.
//!
//! Where every call of an internal function passes the same constant for a
//! parameter, the function computes the constant itself. The parameter is then
//! read no more.

use crate::ids::{extend_list, list_contains, same_id, IdSet};
use crate::ir::inst::{
    block_pos, has_block, insts_view, lemma_block_pos, BlockView,
    FuncRef, FuncView, Function, Inst, InstKind, InstView, KindView, Module, ModuleView, Op,
    ParamView, ValueId,
};
use crate::ir::types::{FloatWidth, IntWidth, IrType};
use crate::ir::walk::{
    inst_uses, renamed_block, renamed_func, renaming, substitute_uses, term_uses, terminator_uses,
};
use crate::lexer::{Position, Span};
use crate::opt::dead_arg::ends_with_value;
use crate::opt::dce::{block_reads, reads};
use crate::opt::edit::{func_without, lemma_insts_without, lemma_renamed_reads, remove_insts};
use crate::opt::floats::{is_evaluator, round_for_width, rounded, FloatReply, FloatRequest};
use crate::opt::insts::{all_insts, find_last, insts_of, last_inst, lemma_block_inst, refs_view};
use crate::opt::pass::Pass;
use vstd::prelude::*;

verus! {

/// How a constant reaches a parameter.
#[derive(Debug, Clone, Copy, PartialEq, Eq, Structural)]
pub enum ParamMode {
    /// The constant itself is passed.
    ByValueScalar,
    /// A pointer to the constant is passed, and only read through.
    ReadOnlyScalarPtr,
}

/// A scalar constant.
#[derive(Debug, Clone, Copy, PartialEq, Eq, Structural)]
pub enum ScalarConst {
    Int(i128, IntWidth),
    /// The bits of a number that is rounded to its format.
    Float(u64, FloatWidth),
    Bool(bool),
}

/// The type of a constant.
pub open spec fn const_type(c: ScalarConst) -> IrType {
    match c {
        ScalarConst::Int(_, w) => IrType::Int(w),
        ScalarConst::Float(_, w) => IrType::Float(w),
        ScalarConst::Bool(_) => IrType::Bool,
    }
}

/// The operation that gives a constant.
pub open spec fn const_op(c: ScalarConst) -> Op {
    match c {
        ScalarConst::Int(v, w) => Op::ConstInt(v, w),
        ScalarConst::Float(b, w) => Op::ConstFloat(b, w),
        ScalarConst::Bool(b) => Op::ConstBool(b),
    }
}

/// Is a type that of a scalar?
pub open spec fn is_scalar(ty: IrType) -> bool {
    ty is Bool || ty is Int || ty is Float
}

/// Is `i` a load from `v`?
pub open spec fn loads_from(i: InstView, v: ValueId) -> bool {
    i.kind.op is Load && i.kind.args[0] == v
}

/// Is `v` loaded from, and used in no other way?
pub open spec fn only_loaded(f: FuncView, v: ValueId) -> bool {
    &&& forall|k: int|
        0 <= k < insts_of(f).len() && (#[trigger] insts_of(f)[k]).kind.args.contains(v)
            ==> loads_from(insts_of(f)[k], v)
    &&& !ends_with_value(f, v)
    &&& exists|k: int| 0 <= k < insts_of(f).len() && loads_from(#[trigger] insts_of(f)[k], v)
}

/// How a constant can reach a parameter, if it can.
pub open spec fn mode_of(f: FuncView, p: ParamView) -> Option<ParamMode> {
    if !f.internal_only {
        None
    } else {
        match p.ty {
            IrType::Ptr(inner) => if is_scalar(*inner) && only_loaded(f, p.id) {
                Some(ParamMode::ReadOnlyScalarPtr)
            } else {
                None
            },
            _ => if is_scalar(p.ty) {
                Some(ParamMode::ByValueScalar)
            } else {
                None
            },
        }
    }
}

/// How a constant can reach parameter `a` of the function numbered `c`.
pub open spec fn slot_mode(m: ModuleView, c: int, a: int) -> Option<ParamMode> {
    if 0 <= c < m.functions.len() && 0 <= a < m.functions[c].params.len() {
        mode_of(m.functions[c], m.functions[c].params[a])
    } else {
        None
    }
}

/// The constant that an operation gives.
pub open spec fn scalar_const<E: Fn(FloatRequest) -> FloatReply>(e: E, op: Op) -> Option<
    ScalarConst,
> {
    match op {
        Op::ConstInt(v, w) => Some(ScalarConst::Int(v, w)),
        Op::ConstFloat(b, w) => match rounded(e, b, w) {
            Some(r) => Some(ScalarConst::Float(r, w)),
            None => None,
        },
        Op::ConstBool(b) => Some(ScalarConst::Bool(b)),
        _ => None,
    }
}

/// The constant that a value is.
pub open spec fn value_const<E: Fn(FloatRequest) -> FloatReply>(e: E, f: FuncView, v: ValueId) -> Option<
    ScalarConst,
> {
    match last_inst(insts_of(f), v) {
        Some(i) => scalar_const(e, i.kind.op),
        None => None,
    }
}

/// Is `v` a stack slot for a scalar?
pub open spec fn scalar_slot(f: FuncView, v: ValueId) -> bool {
    match last_inst(insts_of(f), v) {
        Some(i) => match i.kind.op {
            Op::Alloca(ty) => is_scalar(ty),
            _ => false,
        },
        None => false,
    }
}

/// Is `i` a store to `v`?
pub open spec fn stores_at(i: InstView, v: ValueId) -> bool {
    i.kind.op is Store && i.kind.args[1] == v
}

/// Is `i` a call that passes `v` only for parameters that are only read through?
pub open spec fn passes_for_reading(m: ModuleView, i: InstView, v: ValueId) -> bool {
    i.kind.op matches Op::CallInternal(c) && forall|a: int|
        0 <= a < i.kind.args.len() && #[trigger] i.kind.args[a] == v ==> slot_mode(m, c as int, a)
            == Some(ParamMode::ReadOnlyScalarPtr)
}

/// Is every use of `v` a store of the constant `c` to it, or a call that only
/// reads through it, and are there both?
pub open spec fn holds_const<E: Fn(FloatRequest) -> FloatReply>(
    e: E,
    m: ModuleView,
    f: FuncView,
    v: ValueId,
    c: ScalarConst,
) -> bool {
    let s = insts_of(f);
    &&& scalar_slot(f, v)
    &&& !ends_with_value(f, v)
    &&& forall|k: int|
        0 <= k < s.len() && (#[trigger] s[k]).kind.args.contains(v) ==> (stores_at(s[k], v)
            && value_const(e, f, s[k].kind.args[0]) == Some(c)) || (!stores_at(s[k], v)
            && passes_for_reading(m, s[k], v))
    &&& exists|k: int|
        0 <= k < s.len() && (#[trigger] s[k]).kind.args.contains(v) && stores_at(s[k], v)
    &&& exists|k: int|
        0 <= k < s.len() && (#[trigger] s[k]).kind.args.contains(v) && passes_for_reading(
            m,
            s[k],
            v,
        ) && !stores_at(s[k], v)
}

/// Is `c` the constant that argument `v` hands over?
pub open spec fn arg_const<E: Fn(FloatRequest) -> FloatReply>(
    e: E,
    m: ModuleView,
    f: FuncView,
    v: ValueId,
    mode: ParamMode,
    c: ScalarConst,
) -> bool {
    match mode {
        ParamMode::ByValueScalar => value_const(e, f, v) == Some(c),
        ParamMode::ReadOnlyScalarPtr => holds_const(e, m, f, v, c),
    }
}

/// Is instruction `k` of the function numbered `a` a call of the one numbered
/// `f`?
pub open spec fn is_call_of(m: ModuleView, a: int, k: int, f: int) -> bool {
    &&& 0 <= a < m.functions.len()
    &&& 0 <= k < insts_of(m.functions[a]).len()
    &&& insts_of(m.functions[a])[k].kind.op matches Op::CallInternal(c)
    &&& c == f
}

/// Does every call of the function numbered `f` hand over `c` for parameter `p`,
/// and is there one?
pub open spec fn agreed<E: Fn(FloatRequest) -> FloatReply>(
    e: E,
    m: ModuleView,
    f: int,
    p: int,
    c: ScalarConst,
) -> bool {
    &&& slot_mode(m, f, p) is Some
    &&& exists|a: int, k: int| #[trigger] is_call_of(m, a, k, f)
    &&& forall|a: int, k: int| #[trigger]
        is_call_of(m, a, k, f) ==> p < insts_of(m.functions[a])[k].kind.args.len() && arg_const(
            e,
            m,
            m.functions[a],
            insts_of(m.functions[a])[k].kind.args[p],
            slot_mode(m, f, p)->0,
            c,
        )
}

/// What is known of a parameter: how the constant reaches it, and which.
pub open spec fn slot_plan<E: Fn(FloatRequest) -> FloatReply>(
    e: E,
    m: ModuleView,
    f: int,
    p: int,
) -> Option<(ParamMode, ScalarConst)> {
    if exists|c: ScalarConst| agreed(e, m, f, p, c) {
        Some((slot_mode(m, f, p)->0, choose|c: ScalarConst| agreed(e, m, f, p, c)))
    } else {
        None
    }
}

/// What is known of the parameters of a function.
pub open spec fn func_plan<E: Fn(FloatRequest) -> FloatReply>(e: E, m: ModuleView, f: int) -> Seq<
    Option<(ParamMode, ScalarConst)>,
> {
    Seq::new(m.functions[f].params.len(), |p: int| slot_plan(e, m, f, p))
}

/// Is anything known of a parameter?
pub open spec fn is_plan(plan: Seq<Option<(ParamMode, ScalarConst)>>) -> bool {
    exists|p: int| 0 <= p < plan.len() && #[trigger] plan[p] is Some
}

/// A constant is only one.
proof fn lemma_arg_const_unique<E: Fn(FloatRequest) -> FloatReply>(
    e: E,
    m: ModuleView,
    f: FuncView,
    v: ValueId,
    mode: ParamMode,
    c: ScalarConst,
    d: ScalarConst,
)
    requires
        arg_const(e, m, f, v, mode, c),
        arg_const(e, m, f, v, mode, d),
    ensures
        c == d,
{
    if mode == ParamMode::ReadOnlyScalarPtr {
        let s = insts_of(f);
        let k = choose|k: int|
            0 <= k < s.len() && (#[trigger] s[k]).kind.args.contains(v) && stores_at(s[k], v);
        assert(s[k].kind.args.contains(v));
    }
}

proof fn lemma_agreed_unique<E: Fn(FloatRequest) -> FloatReply>(
    e: E,
    m: ModuleView,
    f: int,
    p: int,
    c: ScalarConst,
    d: ScalarConst,
)
    requires
        agreed(e, m, f, p, c),
        agreed(e, m, f, p, d),
    ensures
        c == d,
{
    let (a, k) = choose|a: int, k: int| #[trigger] is_call_of(m, a, k, f);
    lemma_arg_const_unique(
        e,
        m,
        m.functions[a],
        insts_of(m.functions[a])[k].kind.args[p],
        slot_mode(m, f, p)->0,
        c,
        d,
    );
}

/// The span of the first instruction of a function, if there is one.
pub open spec fn first_span(f: FuncView) -> Span {
    if insts_of(f).len() > 0 {
        insts_of(f)[0].span
    } else {
        Span {
            file_id: 0,
            start: Position { line: 0, col: 0 },
            end: Position { line: 0, col: 0 },
        }
    }
}

/// The loads from `v` among the first `n` instructions.
pub open spec fn loads_upto(s: Seq<InstView>, n: nat, v: ValueId) -> Seq<ValueId>
    decreases n,
{
    if n == 0 {
        Seq::empty()
    } else if loads_from(s[n - 1], v) {
        loads_upto(s, (n - 1) as nat, v).push(s[n - 1].id)
    } else {
        loads_upto(s, (n - 1) as nat, v)
    }
}

/// What putting constants in place of parameters takes: how many values are new,
/// the instructions that define them, what is read instead of what, and which
/// loads go.
pub struct Edits {
    pub consts: Seq<InstView>,
    pub subs: Seq<(ValueId, ValueId)>,
    pub loads: Seq<ValueId>,
}

/// Pairs of each value of a list and `to`.
pub open spec fn paired(list: Seq<ValueId>, to: ValueId) -> Seq<(ValueId, ValueId)> {
    Seq::new(list.len(), |i: int| (list[i], to))
}

/// The edits for the first `n` parameters.
pub open spec fn edits_for(
    f: FuncView,
    plan: Seq<Option<(ParamMode, ScalarConst)>>,
    n: nat,
) -> Edits
    decreases n,
{
    if n == 0 {
        Edits { consts: Seq::empty(), subs: Seq::empty(), loads: Seq::empty() }
    } else {
        let before = edits_for(f, plan, (n - 1) as nat);
        match plan[n - 1] {
            Some((mode, c)) => {
                let id = ValueId((f.next_value + before.consts.len()) as u32);
                let param = f.params[n - 1].id;
                let def = InstView {
                    id,
                    kind: KindView { op: const_op(c), args: Seq::empty() },
                    ty: const_type(c),
                    span: first_span(f),
                };
                match mode {
                    ParamMode::ByValueScalar => Edits {
                        consts: before.consts.push(def),
                        subs: before.subs.push((param, id)),
                        loads: before.loads,
                    },
                    ParamMode::ReadOnlyScalarPtr => {
                        let loads = loads_upto(insts_of(f), insts_of(f).len(), param);
                        Edits {
                            consts: before.consts.push(def),
                            subs: before.subs + paired(loads, id),
                            loads: before.loads + loads,
                        }
                    },
                }
            },
            None => before,
        }
    }
}

/// The types of the first `n` new values, added to `types`.
pub open spec fn const_types(consts: Seq<InstView>, n: nat, types: Map<ValueId, IrType>) -> Map<
    ValueId,
    IrType,
>
    decreases n,
{
    if n == 0 {
        types
    } else {
        const_types(consts, (n - 1) as nat, types).insert(consts[n - 1].id, consts[n - 1].ty)
    }
}

/// A function with instructions put in front of its entry block.
pub open spec fn with_consts(f: FuncView, consts: Seq<InstView>) -> FuncView {
    let at = block_pos(f.blocks, f.entry);
    FuncView {
        next_value: (f.next_value + consts.len()) as u32,
        type_cache: const_types(consts, consts.len(), f.type_cache),
        blocks: f.blocks.update(
            at,
            BlockView { insts: consts + f.blocks[at].insts, ..f.blocks[at] },
        ),
        ..f
    }
}

/// A function after the first `n` renamings, one after the other.
pub open spec fn renamed_all(f: FuncView, subs: Seq<(ValueId, ValueId)>, n: nat) -> FuncView
    decreases n,
{
    if n == 0 {
        f
    } else {
        renamed_func(
            renamed_all(f, subs, (n - 1) as nat),
            renaming(subs[n - 1].0, subs[n - 1].1),
        )
    }
}

/// A function with constants in place of parameters.
pub open spec fn specialized(f: FuncView, plan: Seq<Option<(ParamMode, ScalarConst)>>) -> FuncView {
    if is_plan(plan) {
        let edits = edits_for(f, plan, plan.len());
        let g = renamed_all(with_consts(f, edits.consts), edits.subs, edits.subs.len());
        if edits.loads.len() > 0 {
            func_without(g, edits.loads.to_set())
        } else {
            g
        }
    } else {
        f
    }
}

fn is_scalar_type(ty: &IrType) -> (r: bool)
    ensures
        r == is_scalar(*ty),
{
    match ty {
        IrType::Bool => true,
        IrType::Int(_) => true,
        IrType::Float(_) => true,
        _ => false,
    }
}

fn is_load_from(kind: &InstKind, v: ValueId) -> (r: bool)
    ensures
        r == (kind@.op is Load && kind@.args[0] == v),
{
    match kind {
        InstKind::Load(addr) => same_id(*addr, v),
        InstKind::Call(callee, _) => match callee {
            FuncRef::Internal(_) => false,
            FuncRef::External(_) => false,
            FuncRef::Indirect(_) => false,
        },
        _ => false,
    }
}

fn terminators_read(func: &Function, v: ValueId) -> (r: bool)
    ensures
        r == ends_with_value(func@, v),
{
    let mut b: usize = 0;
    while b < func.blocks.len()
        invariant
            b <= func.blocks@.len(),
            forall|k: int|
                0 <= k < b ==> !((#[trigger] func@.blocks[k]).term matches Some(t)
                    && term_uses(t).contains(v)),
        decreases func.blocks@.len() - b,
    {
        proof {
            assert(func@.blocks[b as int] == func.blocks@[b as int]@);
        }
        match &func.blocks[b].terminator {
            Some(t) => {
                let uses = terminator_uses(t);
                if list_contains(&uses, v) {
                    proof {
                        assert(func@.blocks[b as int].term matches Some(t)
                            && term_uses(t).contains(v));
                    }
                    return true;
                }
            },
            None => {},
        }
        b = b + 1;
    }
    false
}

fn pointer_param_is_direct_read_only_scalar(func: &Function, v: ValueId) -> (r: bool)
    ensures
        r == only_loaded(func@, v),
{
    let list = all_insts(func);
    let ghost s = insts_of(func@);
    let mut saw: bool = false;
    let mut i: usize = 0;
    while i < list.len()
        invariant
            i <= list@.len(),
            s == insts_of(func@),
            s == refs_view(list@),
            forall|k: int|
                0 <= k < i && (#[trigger] s[k]).kind.args.contains(v) ==> loads_from(s[k], v),
            saw == exists|k: int| 0 <= k < i && loads_from(#[trigger] s[k], v),
        decreases list@.len() - i,
    {
        proof {
            assert(s[i as int] == list@[i as int]@);
        }
        if is_load_from(&list[i].kind, v) {
            saw = true;
        } else {
            let uses = inst_uses(&list[i].kind);
            if list_contains(&uses, v) {
                proof {
                    assert(s[i as int].kind.args.contains(v) && !loads_from(s[i as int], v));
                }
                return false;
            }
        }
        i = i + 1;
    }
    saw && !terminators_read(func, v)
}

fn classify_param(func: &Function, k: usize) -> (r: Option<ParamMode>)
    requires
        k < func.params@.len(),
    ensures
        r == mode_of(func@, func@.params[k as int]),
{
    proof {
        assert(func@.params[k as int] == func.params@[k as int]@);
    }
    if !func.internal_only {
        return None;
    }
    match &func.params[k].ty {
        IrType::Ptr(inner) => if is_scalar_type(inner)
            && pointer_param_is_direct_read_only_scalar(func, func.params[k].id) {
            Some(ParamMode::ReadOnlyScalarPtr)
        } else {
            None
        },
        _ => if is_scalar_type(&func.params[k].ty) {
            Some(ParamMode::ByValueScalar)
        } else {
            None
        },
    }
}

/// Do these tell how constants can reach the parameters?
pub open spec fn modes_are(m: ModuleView, modes: Seq<Vec<Option<ParamMode>>>) -> bool {
    modes.len() == m.functions.len() && forall|f: int|
        0 <= f < modes.len() ==> (#[trigger] modes[f])@ == Seq::new(
            m.functions[f].params.len(),
            |p: int| slot_mode(m, f, p),
        )
}

fn param_modes(module: &Module) -> (r: Vec<Vec<Option<ParamMode>>>)
    ensures
        modes_are(module@, r@),
{
    let ghost m = module@;
    let mut out: Vec<Vec<Option<ParamMode>>> = Vec::new();
    let mut f: usize = 0;
    while f < module.functions.len()
        invariant
            f <= module.functions@.len(),
            m == module@,
            out@.len() == f,
            forall|g: int|
                0 <= g < f ==> (#[trigger] out@[g])@ == Seq::new(
                    m.functions[g].params.len(),
                    |p: int| slot_mode(m, g, p),
                ),
        decreases module.functions@.len() - f,
    {
        let func = &module.functions[f];
        proof {
            assert(m.functions[f as int] == func@);
        }
        let mut list: Vec<Option<ParamMode>> = Vec::new();
        let mut p: usize = 0;
        while p < func.params.len()
            invariant
                p <= func.params@.len(),
                m == module@,
                f < m.functions.len(),
                m.functions[f as int] == func@,
                list@.len() == p,
                forall|q: int| 0 <= q < p ==> #[trigger] list@[q] == slot_mode(m, f as int, q),
            decreases func.params@.len() - p,
        {
            list.push(classify_param(func, p));
            p = p + 1;
        }
        proof {
            assert(list@ =~= Seq::new(
                m.functions[f as int].params.len(),
                |p: int| slot_mode(m, f as int, p),
            ));
        }
        out.push(list);
        f = f + 1;
    }
    out
}

fn mode_at(modes: &Vec<Vec<Option<ParamMode>>>, c: u32, a: usize, Ghost(m): Ghost<ModuleView>) -> (r:
    Option<ParamMode>)
    requires
        modes_are(m, modes@),
    ensures
        r == slot_mode(m, c as int, a as int),
{
    let at: usize = c as usize;
    if at < modes.len() {
        proof {
            assert(modes@[at as int]@.len() == m.functions[at as int].params.len());
        }
        if a < modes[at].len() {
            return modes[at][a];
        }
    }
    None
}

fn const_in<E: Fn(FloatRequest) -> FloatReply>(e: &E, kind: &InstKind) -> (r: Option<ScalarConst>)
    requires
        is_evaluator(*e),
    ensures
        r == scalar_const(*e, kind@.op),
{
    match kind {
        InstKind::ConstInt(v, w) => Some(ScalarConst::Int(*v, *w)),
        InstKind::ConstFloat(b, w) => match round_for_width(e, *b, *w) {
            Some(x) => Some(ScalarConst::Float(x, *w)),
            None => None,
        },
        InstKind::ConstBool(b) => Some(ScalarConst::Bool(*b)),
        InstKind::Call(callee, _) => match callee {
            FuncRef::Internal(_) => None,
            FuncRef::External(_) => None,
            FuncRef::Indirect(_) => None,
        },
        _ => None,
    }
}

fn const_value_of<E: Fn(FloatRequest) -> FloatReply>(
    e: &E,
    list: &Vec<&Inst>,
    v: ValueId,
    Ghost(f): Ghost<FuncView>,
) -> (r: Option<ScalarConst>)
    requires
        is_evaluator(*e),
        refs_view(list@) == insts_of(f),
    ensures
        r == value_const(*e, f, v),
{
    match find_last(list, v) {
        Some(i) => const_in(e, &i.kind),
        None => None,
    }
}

fn is_scalar_slot(list: &Vec<&Inst>, v: ValueId, Ghost(f): Ghost<FuncView>) -> (r: bool)
    requires
        refs_view(list@) == insts_of(f),
    ensures
        r == scalar_slot(f, v),
{
    match find_last(list, v) {
        Some(i) => match &i.kind {
            InstKind::Alloca(ty) => is_scalar_type(ty),
            InstKind::Call(callee, _) => match callee {
                FuncRef::Internal(_) => false,
                FuncRef::External(_) => false,
                FuncRef::Indirect(_) => false,
            },
            _ => false,
        },
        None => false,
    }
}

fn call_reads_only(
    modes: &Vec<Vec<Option<ParamMode>>>,
    c: u32,
    args: &Vec<ValueId>,
    v: ValueId,
    Ghost(m): Ghost<ModuleView>,
) -> (r: bool)
    requires
        modes_are(m, modes@),
    ensures
        r == forall|a: int|
            0 <= a < args@.len() && #[trigger] args@[a] == v ==> slot_mode(m, c as int, a) == Some(
                ParamMode::ReadOnlyScalarPtr,
            ),
{
    let mut a: usize = 0;
    while a < args.len()
        invariant
            a <= args@.len(),
            modes_are(m, modes@),
            forall|x: int|
                0 <= x < a && #[trigger] args@[x] == v ==> slot_mode(m, c as int, x) == Some(
                    ParamMode::ReadOnlyScalarPtr,
                ),
        decreases args@.len() - a,
    {
        if same_id(args[a], v) {
            match mode_at(modes, c, a, Ghost(m)) {
                Some(ParamMode::ReadOnlyScalarPtr) => {},
                _ => {
                    return false;
                },
            }
        }
        a = a + 1;
    }
    true
}

/// How an instruction uses a slot.
enum SlotUse {
    Store(ValueId),
    Read,
    Other,
}

fn use_of_slot(
    kind: &InstKind,
    v: ValueId,
    modes: &Vec<Vec<Option<ParamMode>>>,
    Ghost(m): Ghost<ModuleView>,
    Ghost(i): Ghost<InstView>,
) -> (r: SlotUse)
    requires
        modes_are(m, modes@),
        i.kind == kind@,
    ensures
        match r {
            SlotUse::Store(x) => stores_at(i, v) && x == i.kind.args[0],
            SlotUse::Read => !stores_at(i, v) && passes_for_reading(m, i, v),
            SlotUse::Other => !stores_at(i, v) && !passes_for_reading(m, i, v),
        },
{
    match kind {
        InstKind::Store(x, addr) => if same_id(*addr, v) {
            SlotUse::Store(*x)
        } else {
            SlotUse::Other
        },
        InstKind::Call(callee, args) => match callee {
            FuncRef::Internal(c) => {
                let read = call_reads_only(modes, *c, args, v, Ghost(m));
                proof {
                    assert(i.kind.args == args@);
                    assert(i.kind.op == Op::CallInternal(*c));
                    assert(read == passes_for_reading(m, i, v));
                }
                if read {
                    SlotUse::Read
                } else {
                    SlotUse::Other
                }
            },
            FuncRef::External(_) => SlotUse::Other,
            FuncRef::Indirect(_) => SlotUse::Other,
        },
        _ => SlotUse::Other,
    }
}

fn same_const(a: ScalarConst, b: ScalarConst) -> (r: bool)
    ensures
        r == (a == b),
{
    a == b
}

fn wrapper_const_value<E: Fn(FloatRequest) -> FloatReply>(
    e: &E,
    caller: &Function,
    v: ValueId,
    modes: &Vec<Vec<Option<ParamMode>>>,
    Ghost(m): Ghost<ModuleView>,
) -> (r: Option<ScalarConst>)
    requires
        is_evaluator(*e),
        modes_are(m, modes@),
    ensures
        match r {
            Some(c) => holds_const(*e, m, caller@, v, c),
            None => forall|c: ScalarConst| !holds_const(*e, m, caller@, v, c),
        },
{
    let ghost f = caller@;
    let list = all_insts(caller);
    let ghost s = insts_of(f);
    if !is_scalar_slot(&list, v, Ghost(f)) {
        return None;
    }
    let mut stored: Option<ScalarConst> = None;
    let mut saw_call: bool = false;
    let mut i: usize = 0;
    while i < list.len()
        invariant
            i <= list@.len(),
            f == caller@,
            s == insts_of(f),
            s == refs_view(list@),
            is_evaluator(*e),
            modes_are(m, modes@),
            scalar_slot(f, v),
            forall|k: int|
                0 <= k < i && (#[trigger] s[k]).kind.args.contains(v) ==> (stores_at(s[k], v)
                    && stored is Some && value_const(*e, f, s[k].kind.args[0]) == stored) || (
                !stores_at(s[k], v) && passes_for_reading(m, s[k], v)),
            stored is Some == exists|k: int|
                0 <= k < i && (#[trigger] s[k]).kind.args.contains(v) && stores_at(s[k], v),
            saw_call == exists|k: int|
                0 <= k < i && (#[trigger] s[k]).kind.args.contains(v) && passes_for_reading(
                    m,
                    s[k],
                    v,
                ) && !stores_at(s[k], v),
        decreases list@.len() - i,
    {
        proof {
            assert(s[i as int] == list@[i as int]@);
        }
        let uses = inst_uses(&list[i].kind);
        if list_contains(&uses, v) {
            proof {
                assert(s[i as int].kind.args.contains(v));
            }
            match use_of_slot(&list[i].kind, v, modes, Ghost(m), Ghost(s[i as int])) {
                SlotUse::Store(x) => match const_value_of(e, &list, x, Ghost(f)) {
                    Some(c) => {
                        match stored {
                            Some(d) => {
                                if !same_const(c, d) {
                                    proof {
                                        let k = choose|k: int|
                                            0 <= k < i && (#[trigger] s[k]).kind.args.contains(v)
                                                && stores_at(s[k], v);
                                        assert forall|y: ScalarConst| !holds_const(
                                            *e,
                                            m,
                                            f,
                                            v,
                                            y,
                                        ) by {
                                            assert(s[k].kind.args.contains(v));
                                            assert(s[i as int].kind.args.contains(v));
                                        }
                                    }
                                    return None;
                                }
                            },
                            None => {
                                stored = Some(c);
                            },
                        }
                    },
                    None => {
                        return None;
                    },
                },
                SlotUse::Read => {
                    saw_call = true;
                },
                SlotUse::Other => {
                    return None;
                },
            }
        }
        i = i + 1;
    }
    if terminators_read(caller, v) {
        return None;
    }
    if saw_call {
        stored
    } else {
        None
    }
}

fn const_arg_value<E: Fn(FloatRequest) -> FloatReply>(
    e: &E,
    caller: &Function,
    list: &Vec<&Inst>,
    arg: ValueId,
    mode: ParamMode,
    modes: &Vec<Vec<Option<ParamMode>>>,
    Ghost(m): Ghost<ModuleView>,
) -> (r: Option<ScalarConst>)
    requires
        is_evaluator(*e),
        modes_are(m, modes@),
        refs_view(list@) == insts_of(caller@),
    ensures
        match r {
            Some(c) => arg_const(*e, m, caller@, arg, mode, c),
            None => forall|c: ScalarConst| !arg_const(*e, m, caller@, arg, mode, c),
        },
{
    match mode {
        ParamMode::ByValueScalar => const_value_of(e, list, arg, Ghost(caller@)),
        ParamMode::ReadOnlyScalarPtr => wrapper_const_value(e, caller, arg, modes, Ghost(m)),
    }
}


fn internal_call<'a>(kind: &'a InstKind) -> (r: Option<(u32, &'a Vec<ValueId>)>)
    ensures
        match r {
            Some((c, args)) => kind@.op == Op::CallInternal(c) && args@ == kind@.args,
            None => !(kind@.op is CallInternal),
        },
{
    match kind {
        InstKind::Call(callee, args) => match callee {
            FuncRef::Internal(c) => Some((*c, args)),
            FuncRef::External(_) => None,
            FuncRef::Indirect(_) => None,
        },
        _ => None,
    }
}

/// Does call `k` of the function numbered `a` hand over `c` for parameter `p`?
pub open spec fn hands_over<E: Fn(FloatRequest) -> FloatReply>(
    e: E,
    m: ModuleView,
    a: int,
    k: int,
    p: int,
    mode: ParamMode,
    c: ScalarConst,
) -> bool {
    let args = insts_of(m.functions[a])[k].kind.args;
    p < args.len() && arg_const(e, m, m.functions[a], args[p], mode, c)
}

fn agreed_value<E: Fn(FloatRequest) -> FloatReply>(
    e: &E,
    module: &Module,
    f: usize,
    p: usize,
    mode: ParamMode,
    modes: &Vec<Vec<Option<ParamMode>>>,
) -> (r: Option<ScalarConst>)
    requires
        is_evaluator(*e),
        modes_are(module@, modes@),
        slot_mode(module@, f as int, p as int) == Some(mode),
    ensures
        match r {
            Some(c) => agreed(*e, module@, f as int, p as int, c),
            None => forall|c: ScalarConst| !agreed(*e, module@, f as int, p as int, c),
        },
{
    let ghost m = module@;
    let mut got: Option<ScalarConst> = None;
    let mut a: usize = 0;
    while a < module.functions.len()
        invariant
            a <= m.functions.len(),
            m == module@,
            is_evaluator(*e),
            modes_are(m, modes@),
            slot_mode(m, f as int, p as int) == Some(mode),
            got is Some == exists|b: int, k: int| b < a && #[trigger] is_call_of(m, b, k, f as int),
            forall|b: int, k: int|
                b < a && #[trigger] is_call_of(m, b, k, f as int) ==> hands_over(
                    *e,
                    m,
                    b,
                    k,
                    p as int,
                    mode,
                    got->0,
                ),
        decreases m.functions.len() - a,
    {
        let caller = &module.functions[a];
        proof {
            assert(m.functions[a as int] == caller@);
        }
        let list = all_insts(caller);
        let ghost s = insts_of(m.functions[a as int]);
        let mut k: usize = 0;
        while k < list.len()
            invariant
                a < m.functions.len(),
                k <= list@.len(),
                m == module@,
                m.functions[a as int] == caller@,
                s == insts_of(m.functions[a as int]),
                s == refs_view(list@),
                is_evaluator(*e),
                modes_are(m, modes@),
                slot_mode(m, f as int, p as int) == Some(mode),
                got is Some == exists|b: int, j: int|
                    (b < a || b == a && j < k) && #[trigger] is_call_of(m, b, j, f as int),
                forall|b: int, j: int|
                    (b < a || b == a && j < k) && #[trigger] is_call_of(m, b, j, f as int)
                        ==> hands_over(*e, m, b, j, p as int, mode, got->0),
            decreases list@.len() - k,
        {
            proof {
                assert(s[k as int] == list@[k as int]@);
            }
            match internal_call(&list[k].kind) {
                Some((c, args)) => {
                    if c as usize == f {
                        proof {
                            assert(is_call_of(m, a as int, k as int, f as int));
                        }
                        if p >= args.len() {
                            return None;
                        }
                        match const_arg_value(e, caller, &list, args[p], mode, modes, Ghost(m)) {
                            Some(c) => match got {
                                Some(d) => {
                                    if !same_const(c, d) {
                                        proof {
                                            lemma_disagreement(
                                                *e,
                                                m,
                                                f as int,
                                                p as int,
                                                a as int,
                                                k as int,
                                                c,
                                                d,
                                            );
                                        }
                                        return None;
                                    }
                                },
                                None => {
                                    got = Some(c);
                                },
                            },
                            None => {
                                return None;
                            },
                        }
                    } else {
                        proof {
                            assert(!is_call_of(m, a as int, k as int, f as int));
                        }
                    }
                },
                None => {
                    proof {
                        assert(!is_call_of(m, a as int, k as int, f as int));
                    }
                },
            }
            k = k + 1;
        }
        proof {
            assert forall|b: int, j: int| b < a + 1 && #[trigger] is_call_of(m, b, j, f as int) implies b
                < a || b == a && j < k by {}
        }
        a = a + 1;
    }
    got
}

/// Two calls that hand over different constants agree on none.
proof fn lemma_disagreement<E: Fn(FloatRequest) -> FloatReply>(
    e: E,
    m: ModuleView,
    f: int,
    p: int,
    a: int,
    k: int,
    c: ScalarConst,
    d: ScalarConst,
)
    requires
        c != d,
        slot_mode(m, f, p) is Some,
        is_call_of(m, a, k, f),
        hands_over(e, m, a, k, p, slot_mode(m, f, p)->0, c),
        exists|b: int, j: int| #[trigger]
            is_call_of(m, b, j, f) && hands_over(e, m, b, j, p, slot_mode(m, f, p)->0, d),
    ensures
        forall|x: ScalarConst| !agreed(e, m, f, p, x),
{
    let mode = slot_mode(m, f, p)->0;
    let (b, j) = choose|b: int, j: int| #[trigger]
        is_call_of(m, b, j, f) && hands_over(e, m, b, j, p, mode, d);
    assert forall|x: ScalarConst| !agreed(e, m, f, p, x) by {
        if agreed(e, m, f, p, x) {
            let v = insts_of(m.functions[a])[k].kind.args[p];
            let w = insts_of(m.functions[b])[j].kind.args[p];
            lemma_arg_const_unique(e, m, m.functions[a], v, mode, c, x);
            lemma_arg_const_unique(e, m, m.functions[b], w, mode, d, x);
        }
    }
}

fn func_specialization<E: Fn(FloatRequest) -> FloatReply>(
    e: &E,
    module: &Module,
    f: usize,
    modes: &Vec<Vec<Option<ParamMode>>>,
) -> (r: (Vec<Option<(ParamMode, ScalarConst)>>, bool))
    requires
        is_evaluator(*e),
        modes_are(module@, modes@),
        f < module@.functions.len(),
    ensures
        r.0@ == func_plan(*e, module@, f as int),
        r.1 == is_plan(r.0@),
{
    let ghost m = module@;
    let mut out: Vec<Option<(ParamMode, ScalarConst)>> = Vec::new();
    let mut any: bool = false;
    proof {
        assert(modes@[f as int]@.len() == m.functions[f as int].params.len());
    }
    let mut p: usize = 0;
    while p < modes[f].len()
        invariant
            p <= modes@[f as int]@.len(),
            m == module@,
            f < m.functions.len(),
            is_evaluator(*e),
            modes_are(m, modes@),
            modes@[f as int]@.len() == m.functions[f as int].params.len(),
            out@.len() == p,
            forall|q: int| 0 <= q < p ==> #[trigger] out@[q] == slot_plan(*e, m, f as int, q),
            any == exists|q: int| 0 <= q < p && #[trigger] out@[q] is Some,
        decreases modes@[f as int]@.len() - p,
    {
        proof {
            assert(modes@[f as int]@[p as int] == slot_mode(m, f as int, p as int));
        }
        let ghost before = out@;
        match modes[f][p] {
            Some(mode) => match agreed_value(e, module, f, p, mode, modes) {
                Some(c) => {
                    proof {
                        let d = choose|d: ScalarConst| agreed(*e, m, f as int, p as int, d);
                        assert(agreed(*e, m, f as int, p as int, c));
                        lemma_agreed_unique(*e, m, f as int, p as int, c, d);
                    }
                    out.push(Some((mode, c)));
                    any = true;
                    proof {
                        assert(out@[p as int] is Some);
                    }
                },
                None => {
                    out.push(None);
                },
            },
            None => {
                out.push(None);
            },
        }
        proof {
            assert forall|q: int| 0 <= q < p implies out@[q] == before[q] by {}
            if exists|q: int| 0 <= q < p && #[trigger] before[q] is Some {
                let q = choose|q: int| 0 <= q < p && #[trigger] before[q] is Some;
                assert(out@[q] is Some);
            }
        }
        p = p + 1;
    }
    proof {
        assert(out@ =~= func_plan(*e, m, f as int));
    }
    (out, any)
}

fn default_span(func: &Function) -> (r: Span)
    ensures
        r == first_span(func@),
{
    let list = all_insts(func);
    if list.len() > 0 {
        proof {
            assert(insts_of(func@)[0] == list@[0]@);
        }
        list[0].span
    } else {
        Span {
            file_id: 0,
            start: Position { line: 0, col: 0 },
            end: Position { line: 0, col: 0 },
        }
    }
}

fn loads_of(func: &Function, v: ValueId) -> (r: Vec<ValueId>)
    ensures
        r@ == loads_upto(insts_of(func@), insts_of(func@).len(), v),
{
    let list = all_insts(func);
    let ghost s = insts_of(func@);
    let mut out: Vec<ValueId> = Vec::new();
    let mut i: usize = 0;
    while i < list.len()
        invariant
            i <= list@.len(),
            s == insts_of(func@),
            s == refs_view(list@),
            out@ == loads_upto(s, i as nat, v),
        decreases list@.len() - i,
    {
        proof {
            assert(s[i as int] == list@[i as int]@);
        }
        if is_load_from(&list[i].kind, v) {
            out.push(list[i].id);
        }
        i = i + 1;
    }
    out
}

fn const_ty(c: ScalarConst) -> (r: IrType)
    ensures
        r == const_type(c),
{
    match c {
        ScalarConst::Int(_, w) => IrType::Int(w),
        ScalarConst::Float(_, w) => IrType::Float(w),
        ScalarConst::Bool(_) => IrType::Bool,
    }
}

fn const_kind(c: ScalarConst) -> (r: InstKind)
    ensures
        r@ == (KindView { op: const_op(c), args: Seq::empty() }),
{
    match c {
        ScalarConst::Int(v, w) => InstKind::ConstInt(v, w),
        ScalarConst::Float(b, w) => InstKind::ConstFloat(b, w),
        ScalarConst::Bool(b) => InstKind::ConstBool(b),
    }
}

proof fn lemma_const_types_push(
    consts: Seq<InstView>,
    x: InstView,
    n: nat,
    types: Map<ValueId, IrType>,
)
    requires
        n <= consts.len(),
    ensures
        const_types(consts.push(x), n, types) == const_types(consts, n, types),
    decreases n,
{
    if n > 0 {
        lemma_const_types_push(consts, x, (n - 1) as nat, types);
    }
}

fn put_in_front(func: &mut Function, consts: Vec<Inst>)
    requires
        has_block(old(func)@.blocks, old(func)@.entry),
    ensures
        ({
            let f = old(func)@;
            let at = block_pos(f.blocks, f.entry);
            final(func)@ == (FuncView {
                blocks: f.blocks.update(
                    at,
                    BlockView { insts: insts_view(consts@) + f.blocks[at].insts, ..f.blocks[at] },
                ),
                ..f
            })
        }),
{
    let ghost f = func@;
    let ghost at = block_pos(f.blocks, f.entry);
    proof {
        lemma_block_pos(f.blocks, f.entry);
        assert(f.blocks[at] == func.blocks@[at]@);
    }
    let mut all: Vec<Inst> = consts;
    let mut rest: Vec<Inst> = Vec::new();
    let entry = func.entry;
    let block = func.block_mut(entry);
    let ghost b = block@;
    std::mem::swap(&mut rest, &mut block.insts);
    all.append(&mut rest);
    block.insts = all;
    proof {
        assert(insts_view(block.insts@) =~= insts_view(consts@) + b.insts);
    }
}

fn apply_plan(func: &mut Function, plan: &Vec<Option<(ParamMode, ScalarConst)>>)
    requires
        plan@.len() == old(func)@.params.len(),
        is_plan(plan@),
        has_block(old(func)@.blocks, old(func)@.entry),
        old(func)@.next_value + plan@.len() <= u32::MAX,
    ensures
        final(func)@ == specialized(old(func)@, plan@),
{
    let ghost f = func@;
    let span = default_span(func);
    let mut consts: Vec<Inst> = Vec::new();
    let mut subs: Vec<(ValueId, ValueId)> = Vec::new();
    let mut loads: Vec<ValueId> = Vec::new();
    let mut p: usize = 0;
    proof {
        assert(insts_view(consts@) =~= Seq::<InstView>::empty());
        assert(f.next_value as u32 == f.next_value);
    }
    while p < plan.len()
        invariant
            p <= plan@.len(),
            plan@.len() == f.params.len(),
            f.next_value + plan@.len() <= u32::MAX,
            span == first_span(f),
            insts_view(consts@) == edits_for(f, plan@, p as nat).consts,
            subs@ == edits_for(f, plan@, p as nat).subs,
            loads@ == edits_for(f, plan@, p as nat).loads,
            consts@.len() <= p,
            func@ == (FuncView {
                next_value: (f.next_value + consts@.len()) as u32,
                type_cache: const_types(insts_view(consts@), consts@.len(), f.type_cache),
                ..f
            }),
        decreases plan@.len() - p,
    {
        match plan[p] {
            Some((mode, c)) => {
                let ghost old_consts = consts@;
                let id = func.next_value_id();
                func.register_type(id, const_ty(c));
                let inst = Inst { id, kind: const_kind(c), ty: const_ty(c), span };
                proof {
                    lemma_const_types_push(
                        insts_view(old_consts),
                        inst@,
                        old_consts.len(),
                        f.type_cache,
                    );
                    assert(insts_view(old_consts.push(inst)) =~= insts_view(old_consts).push(inst@));
                    assert(func@.params[p as int] == func.params@[p as int]@);
                }
                consts.push(inst);
                let param: ValueId = func.params[p].id;
                match mode {
                    ParamMode::ByValueScalar => {
                        subs.push((param, id));
                    },
                    ParamMode::ReadOnlyScalarPtr => {
                        let found = loads_of(func, param);
                        proof {
                            assert(insts_of(func@) == insts_of(f));
                        }
                        pair_all(&mut subs, &found, id);
                        extend_list(&mut loads, &found);
                    },
                }
            },
            None => {},
        }
        p = p + 1;
    }
    let ghost edits = edits_for(f, plan@, plan@.len());
    put_in_front(func, consts);
    proof {
        assert(func@ == with_consts(f, edits.consts));
    }
    let mut i: usize = 0;
    while i < subs.len()
        invariant
            i <= subs@.len(),
            func@ == renamed_all(with_consts(f, edits.consts), subs@, i as nat),
        decreases subs@.len() - i,
    {
        substitute_uses(func, subs[i].0, subs[i].1);
        i = i + 1;
    }
    if loads.len() > 0 {
        let dead = IdSet::from_list(&loads);
        remove_insts(func, &dead);
    }
}

fn pair_all(subs: &mut Vec<(ValueId, ValueId)>, list: &Vec<ValueId>, to: ValueId)
    ensures
        final(subs)@ == old(subs)@ + paired(list@, to),
{
    let mut i: usize = 0;
    while i < list.len()
        invariant
            i <= list@.len(),
            subs@ == old(subs)@ + paired(list@.take(i as int), to),
        decreases list@.len() - i,
    {
        proof {
            assert(paired(list@.take(i + 1), to) =~= paired(list@.take(i as int), to).push(
                (list@[i as int], to),
            ));
        }
        subs.push((list[i], to));
        i = i + 1;
    }
    proof {
        assert(list@.take(list@.len() as int) =~= list@);
    }
}

/// A module with constants in place of the parameters for which every call hands
/// over the same one.
pub open spec fn specialized_module<E: Fn(FloatRequest) -> FloatReply>(e: E, m: ModuleView) -> ModuleView {
    ModuleView {
        functions: Seq::new(
            m.functions.len(),
            |f: int| specialized(m.functions[f], func_plan(e, m, f)),
        ),
        ..m
    }
}

/// Puts constants in place of parameters that are always the same.
pub struct ConstArgSpecialize<E> {
    /// What tells about floating-point numbers.
    pub floats: E,
}

impl<E: Fn(FloatRequest) -> FloatReply> Pass for ConstArgSpecialize<E> {
    open spec fn accepts(&self, m: ModuleView) -> bool {
        &&& is_evaluator(self.floats)
        &&& forall|f: int|
            0 <= f < m.functions.len() && is_plan(#[trigger] func_plan(self.floats, m, f))
                ==> has_block(m.functions[f].blocks, m.functions[f].entry)
                && m.functions[f].next_value + m.functions[f].params.len() <= u32::MAX
    }

    open spec fn outcome(&self, before: ModuleView, after: ModuleView, changed: bool) -> bool {
        &&& after == specialized_module(self.floats, before)
        &&& changed == exists|f: int|
            0 <= f < before.functions.len() && is_plan(#[trigger] func_plan(self.floats, before, f))
    }

    fn name(&self) -> (r: &'static str)
        ensures
            r@ == "const-arg-specialize"@,
    {
        "const-arg-specialize"
    }

    fn run(&self, module: &mut Module) -> (changed: bool) {
        let ghost m = module@;
        let ghost e = self.floats;
        let modes = param_modes(module);
        let mut plans: Vec<Vec<Option<(ParamMode, ScalarConst)>>> = Vec::new();
        let mut applies: Vec<bool> = Vec::new();
        let mut changed: bool = false;
        let mut f: usize = 0;
        while f < module.functions.len()
            invariant
                f <= m.functions.len(),
                module@ == m,
                e == self.floats,
                is_evaluator(e),
                modes_are(m, modes@),
                plans@.len() == f,
                applies@.len() == f,
                forall|g: int| 0 <= g < f ==> (#[trigger] plans@[g])@ == func_plan(e, m, g),
                forall|g: int|
                    0 <= g < f ==> #[trigger] applies@[g] == is_plan(func_plan(e, m, g)),
                changed == exists|g: int| 0 <= g < f && is_plan(#[trigger] func_plan(e, m, g)),
            decreases m.functions.len() - f,
        {
            let (plan, any) = func_specialization(&self.floats, module, f, &modes);
            proof {
                assert(plan@ == func_plan(e, m, f as int));
            }
            if any {
                changed = true;
            }
            plans.push(plan);
            applies.push(any);
            f = f + 1;
        }
        let mut g: usize = 0;
        while g < module.functions.len()
            invariant
                g <= m.functions.len(),
                e == self.floats,
                self.accepts(m),
                module.functions@.len() == m.functions.len(),
                module@ == (ModuleView { functions: module@.functions, ..m }),
                plans@.len() == m.functions.len(),
                applies@.len() == m.functions.len(),
                forall|k: int|
                    0 <= k < plans@.len() ==> (#[trigger] plans@[k])@ == func_plan(e, m, k),
                forall|k: int|
                    0 <= k < plans@.len() ==> #[trigger] applies@[k] == is_plan(func_plan(e, m, k)),
                forall|k: int|
                    0 <= k < g ==> (#[trigger] module.functions@[k])@ == specialized(
                        m.functions[k],
                        func_plan(e, m, k),
                    ),
                forall|k: int|
                    g <= k < m.functions.len() ==> (#[trigger] module.functions@[k])@
                        == m.functions[k],
            decreases m.functions.len() - g,
        {
            proof {
                assert(module.functions@[g as int]@ == m.functions[g as int]);
            }
            if applies[g] {
                proof {
                    assert(is_plan(func_plan(e, m, g as int)));
                }
                apply_plan(&mut module.functions[g], &plans[g]);
            }
            g = g + 1;
        }
        proof {
            assert(module@.functions =~= specialized_module(e, m).functions);
        }
        changed
    }
}


/// Does a constant reach a parameter in this way?
spec fn planned(x: Option<(ParamMode, ScalarConst)>, mode: ParamMode) -> bool {
    x matches Some((m, _)) && m == mode
}

/// Is `v` none of the values handed out so far?
spec fn is_new(f: FuncView, v: ValueId) -> bool {
    v.0 >= f.next_value
}

/// The edits name only new values, and the first `n` parameters that have a
/// constant are seen to.
proof fn lemma_edits(f: FuncView, plan: Seq<Option<(ParamMode, ScalarConst)>>, n: nat)
    requires
        n <= plan.len() == f.params.len(),
        f.next_value + plan.len() <= u32::MAX,
    ensures
        ({
            let e = edits_for(f, plan, n);
            &&& e.consts.len() <= n
            &&& forall|i: int| 0 <= i < e.subs.len() ==> is_new(f, (#[trigger] e.subs[i]).1)
            &&& forall|i: int| 0 <= i < e.consts.len() ==> (#[trigger] e.consts[i]).kind.args.len() == 0
            &&& forall|p: int|
                0 <= p < n && planned(#[trigger] plan[p], ParamMode::ByValueScalar)
                    ==> exists|i: int|
                    0 <= i < e.subs.len() && (#[trigger] e.subs[i]).0 == f.params[p].id
            &&& forall|p: int, k: int|
                0 <= p < n && planned(#[trigger] plan[p], ParamMode::ReadOnlyScalarPtr) && 0 <= k < insts_of(f).len() && loads_from(
                    #[trigger] insts_of(f)[k],
                    f.params[p].id,
                ) ==> e.loads.contains(insts_of(f)[k].id)
        }),
    decreases n,
{
    if n > 0 {
        lemma_edits(f, plan, (n - 1) as nat);
        let b = edits_for(f, plan, (n - 1) as nat);
        let e = edits_for(f, plan, n);
        let s = insts_of(f);
        let param = f.params[n - 1].id;
        let found = loads_upto(s, s.len(), param);
        lemma_loads_upto(s, s.len(), param);
        match plan[n - 1] {
            Some((mode, c)) => {
                assert forall|p: int|
                    0 <= p < n && planned(#[trigger] plan[p], ParamMode::ByValueScalar) implies exists|i: int|
                    0 <= i < e.subs.len() && (#[trigger] e.subs[i]).0 == f.params[p].id by {
                    if p < n - 1 {
                        let i = choose|i: int|
                            0 <= i < b.subs.len() && (#[trigger] b.subs[i]).0 == f.params[p].id;
                        assert(e.subs[i] == b.subs[i]);
                    } else {
                        assert(e.subs[b.subs.len() as int].0 == param);
                    }
                }
                assert forall|p: int, k: int|
                    0 <= p < n && planned(#[trigger] plan[p], ParamMode::ReadOnlyScalarPtr) && 0 <= k < s.len() && loads_from(
                        #[trigger] s[k],
                        f.params[p].id,
                    ) implies e.loads.contains(s[k].id) by {
                    if p < n - 1 {
                        assert(b.loads.contains(s[k].id));
                        let i = b.loads.index_of(s[k].id);
                        assert(e.loads[i] == b.loads[i]);
                    } else {
                        let i = found.index_of(s[k].id);
                        assert(e.loads[b.loads.len() + i] == found[i]);
                    }
                }
            },
            None => {},
        }
    }
}

proof fn lemma_loads_upto(s: Seq<InstView>, n: nat, v: ValueId)
    requires
        n <= s.len(),
    ensures
        forall|k: int|
            0 <= k < n && loads_from(#[trigger] s[k], v) ==> loads_upto(s, n, v).contains(s[k].id),
    decreases n,
{
    if n > 0 {
        lemma_loads_upto(s, (n - 1) as nat, v);
        let before = loads_upto(s, (n - 1) as nat, v);
        assert forall|k: int| 0 <= k < n && loads_from(#[trigger] s[k], v) implies loads_upto(
            s,
            n,
            v,
        ).contains(s[k].id) by {
            if k < n - 1 {
                let i = before.index_of(s[k].id);
                assert(loads_upto(s, n, v)[i] == before[i]);
            } else {
                assert(loads_upto(s, n, v)[before.len() as int] == s[k].id);
            }
        }
    }
}

/// Renamings that do not lead to `v` make nothing read it.
pub proof fn lemma_renamed_all_reads(f: FuncView, subs: Seq<(ValueId, ValueId)>, n: nat, v: ValueId)
    requires
        n <= subs.len(),
        forall|i: int| 0 <= i < n ==> (#[trigger] subs[i]).1 != v,
    ensures
        ({
            let g = renamed_all(f, subs, n);
            &&& g.blocks.len() == f.blocks.len()
            &&& forall|b: int|
                0 <= b < f.blocks.len() ==> (#[trigger] g.blocks[b]).insts.len()
                    == f.blocks[b].insts.len()
            &&& forall|b: int, k: int|
                0 <= b < f.blocks.len() && 0 <= k < f.blocks[b].insts.len() ==> (
                #[trigger] g.blocks[b].insts[k]).id == f.blocks[b].insts[k].id
            &&& forall|b: int, k: int|
                0 <= b < f.blocks.len() && 0 <= k < f.blocks[b].insts.len() && (
                #[trigger] g.blocks[b].insts[k]).kind.args.contains(v)
                    ==> f.blocks[b].insts[k].kind.args.contains(v) && forall|i: int|
                    0 <= i < n ==> (#[trigger] subs[i]).0 != v
            &&& forall|b: int|
                0 <= b < f.blocks.len() && (#[trigger] g.blocks[b]).term is Some && term_uses(
                    g.blocks[b].term->0,
                ).contains(v) ==> (f.blocks[b].term is Some && term_uses(
                    f.blocks[b].term->0,
                ).contains(v)) && forall|i: int| 0 <= i < n ==> (#[trigger] subs[i]).0 != v
        }),
    decreases n,
{
    if n > 0 {
        lemma_renamed_all_reads(f, subs, (n - 1) as nat, v);
        let h = renamed_all(f, subs, (n - 1) as nat);
        let (from, to) = subs[n - 1];
        let g = renamed_all(f, subs, n);
        assert forall|b: int| 0 <= b < f.blocks.len() implies #[trigger] g.blocks[b]
            == renamed_block(h.blocks[b], renaming(from, to)) by {}
        assert forall|b: int, k: int|
            0 <= b < f.blocks.len() && 0 <= k < f.blocks[b].insts.len() && (
            #[trigger] g.blocks[b].insts[k]).kind.args.contains(v) implies f.blocks[b].insts[k].kind.args.contains(
            v,
        ) && forall|i: int| 0 <= i < n ==> (#[trigger] subs[i]).0 != v by {
            lemma_renamed_reads(h.blocks[b], from, to, v);
            assert(h.blocks[b].insts[k].kind.args.contains(v));
        }
        assert forall|b: int|
            0 <= b < f.blocks.len() && (#[trigger] g.blocks[b]).term is Some && term_uses(
                g.blocks[b].term->0,
            ).contains(v) implies (f.blocks[b].term is Some && term_uses(
            f.blocks[b].term->0,
        ).contains(v)) && forall|i: int| 0 <= i < n ==> (#[trigger] subs[i]).0 != v by {
            lemma_renamed_reads(h.blocks[b], from, to, v);
        }
    }
}

/// A parameter that a constant took the place of is not read.
pub proof fn replaced_parameter_is_unread(
    f: FuncView,
    plan: Seq<Option<(ParamMode, ScalarConst)>>,
    p: int,
)
    requires
        0 <= p < plan.len() == f.params.len(),
        f.next_value + plan.len() <= u32::MAX,
        has_block(f.blocks, f.entry),
        f.params[p].id.0 < f.next_value,
        plan[p] matches Some((mode, c)) && mode_of(f, f.params[p]) == Some(mode),
    ensures
        !reads(specialized(f, plan), f.params[p].id),
{
    let v = f.params[p].id;
    let e = edits_for(f, plan, plan.len());
    lemma_edits(f, plan, plan.len());
    lemma_block_pos(f.blocks, f.entry);
    let at = block_pos(f.blocks, f.entry);
    let c = with_consts(f, e.consts);
    let g = renamed_all(c, e.subs, e.subs.len());
    let r = specialized(f, plan);
    lemma_renamed_all_reads(c, e.subs, e.subs.len(), v);
    if reads(r, v) {
        let b = choose|b: int| 0 <= b < r.blocks.len() && block_reads(#[trigger] r.blocks[b], v);
        assert(r.blocks[b].term == g.blocks[b].term);
        if r.blocks[b].term matches Some(t) && term_uses(t).contains(v) {
            assert(c.blocks[b].term == f.blocks[b].term);
            assert(ends_with_value(f, v));
            assert(planned(plan[p], ParamMode::ByValueScalar));
        } else {
            let k = choose|k: int|
                0 <= k < r.blocks[b].insts.len() && (
                #[trigger] r.blocks[b].insts[k]).kind.args.contains(v);
            let x = r.blocks[b].insts[k];
            let dead = e.loads.to_set();
            if e.loads.len() > 0 {
                lemma_insts_without(g.blocks[b].insts, dead, k);
            } else {
                assert(g.blocks[b].insts.contains(x));
            }
            let j = g.blocks[b].insts.index_of(x);
            assert(g.blocks[b].insts[j] == x);
            let y = c.blocks[b].insts[j];
            assert(y.kind.args.contains(v) && y.id == x.id);
            let shift: int = if b == at { e.consts.len() as int } else { 0 };
            if j < shift {
                assert(y == e.consts[j]);
            } else {
                assert(y == f.blocks[b].insts[j - shift]);
                lemma_block_inst(f.blocks, f.blocks.len(), b, j - shift);
                let n = insts_of(f).index_of(y);
                assert(insts_of(f)[n] == y);
                if planned(plan[p], ParamMode::ReadOnlyScalarPtr) {
                    assert(loads_from(insts_of(f)[n], v));
                    assert(e.loads.contains(y.id));
                } else {
                    let i = choose|i: int| 0 <= i < e.subs.len() && (#[trigger] e.subs[i]).0 == v;
                    assert(e.subs[i].0 == v);
                }
            }
        }
    }
}

} // verus!
