//! Data dependence between the memory accesses of loops.
//!
//! Subscripts are read as affine expressions of the induction variables. Whether
//! two accesses to one array can touch the same element on different iterations
//! is told by the greatest common divisor of their coefficients.

use crate::ids::{same_id, IdSet};
use crate::ir::inst::{
    has_block, the_block, BasicBlock, BlockId, FuncRef, FuncView, Function, Inst, InstKind,
    InstView, Op, ValueId,
};
use crate::opt::affine::{
    difference_of, difference_subtracts_values, narrow, scaled_by, scaling_scales_value,
    sum_adds_values, sum_of, terms_value, value_of, AffineView,
};
use crate::opt::alias::{alias, const_int, AliasOracle, AliasResult};
use crate::opt::insts::{all_insts, find_first, first_inst, insts_of, lemma_first_inst, refs_view};
use crate::target::TargetLayout;
use vstd::prelude::*;

pub use crate::opt::affine::AffineExpr;

verus! {

/// A memory access of a loop body.
#[derive(Debug)]
pub struct MemRef {
    pub inst_id: ValueId,
    pub base: ValueId,
    pub subscript: AffineExpr,
    pub is_write: bool,
}

/// The model of a memory access.
pub struct MemRefView {
    pub inst_id: ValueId,
    pub base: ValueId,
    pub subscript: AffineView,
    pub is_write: bool,
}

impl MemRef {
    /// The model.
    pub open spec fn view(&self) -> MemRefView {
        MemRefView {
            inst_id: self.inst_id,
            base: self.base,
            subscript: self.subscript@,
            is_write: self.is_write,
        }
    }
}

/// The models of a list of memory accesses.
pub open spec fn mem_refs_view(list: Seq<MemRef>) -> Seq<MemRefView> {
    Seq::new(list.len(), |i: int| list[i]@)
}

/// What a dependence test says.
#[derive(Debug, Clone, Copy, PartialEq, Eq, Structural)]
pub struct DepResult {
    /// May the accesses touch the same element?
    pub dependent: bool,
}

/// The affine expression that a value is of the variables, followed through at
/// most `fuel` instructions.
pub open spec fn affine_of(f: FuncView, v: ValueId, ivs: Set<ValueId>, fuel: nat) -> Option<
    AffineView,
>
    decreases fuel,
{
    if ivs.contains(v) {
        Some(AffineView { constant: 0, terms: seq![(1i64, v)] })
    } else if fuel == 0 {
        None
    } else {
        let less = (fuel - 1) as nat;
        match first_inst(insts_of(f), v) {
            Some(i) => match i.kind.op {
                Op::ConstInt(c, _) => match narrow(c as int) {
                    Some(n) => Some(AffineView { constant: n, terms: Seq::empty() }),
                    None => None,
                },
                Op::IAdd => match (
                    affine_of(f, i.kind.args[0], ivs, less),
                    affine_of(f, i.kind.args[1], ivs, less),
                ) {
                    (Some(a), Some(b)) => sum_of(a, b),
                    _ => None,
                },
                Op::ISub => match (
                    affine_of(f, i.kind.args[0], ivs, less),
                    affine_of(f, i.kind.args[1], ivs, less),
                ) {
                    (Some(a), Some(b)) => difference_of(a, b),
                    _ => None,
                },
                Op::IMul => match const_int(f, i.kind.args[0]) {
                    Some(k) => match affine_of(f, i.kind.args[1], ivs, less) {
                        Some(b) => scaled_by(b, k as int),
                        None => None,
                    },
                    None => match const_int(f, i.kind.args[1]) {
                        Some(k) => match affine_of(f, i.kind.args[0], ivs, less) {
                            Some(a) => scaled_by(a, k as int),
                            None => None,
                        },
                        None => None,
                    },
                },
                Op::IntExtend(_, _) => affine_of(f, i.kind.args[0], ivs, less),
                _ => None,
            },
            None => None,
        }
    }
}

/// The affine expression that a value is of the variables.
pub open spec fn affine_in(f: FuncView, v: ValueId, ivs: Set<ValueId>) -> Option<AffineView> {
    affine_of(f, v, ivs, insts_of(f).len())
}

/// Do values agree with what the instructions compute where nothing wraps?
/// Constants are what they say, and widening changes nothing.
pub open spec fn unwrapped(f: FuncView, env: spec_fn(ValueId) -> int) -> bool {
    forall|k: int|
        0 <= k < insts_of(f).len() ==> match (#[trigger] insts_of(f)[k]).kind.op {
            Op::ConstInt(c, _) => env(insts_of(f)[k].id) == c,
            Op::IAdd => env(insts_of(f)[k].id) == env(insts_of(f)[k].kind.args[0]) + env(
                insts_of(f)[k].kind.args[1],
            ),
            Op::ISub => env(insts_of(f)[k].id) == env(insts_of(f)[k].kind.args[0]) - env(
                insts_of(f)[k].kind.args[1],
            ),
            Op::IMul => env(insts_of(f)[k].id) == env(insts_of(f)[k].kind.args[0]) * env(
                insts_of(f)[k].kind.args[1],
            ),
            Op::IntExtend(_, _) => env(insts_of(f)[k].id) == env(insts_of(f)[k].kind.args[0]),
            _ => true,
        }
}

proof fn lemma_affine_holds(
    f: FuncView,
    v: ValueId,
    ivs: Set<ValueId>,
    fuel: nat,
    env: spec_fn(ValueId) -> int,
)
    requires
        unwrapped(f, env),
        affine_of(f, v, ivs, fuel) is Some,
    ensures
        env(v) == value_of(affine_of(f, v, ivs, fuel)->0, env),
    decreases fuel,
{
    let e = affine_of(f, v, ivs, fuel)->0;
    if ivs.contains(v) {
        let one = seq![(1i64, v)];
        assert(one.drop_last() =~= Seq::<(i64, ValueId)>::empty());
        assert(terms_value(one.drop_last(), env) == 0);
        assert(one.last() == (1i64, v));
        assert(terms_value(one, env) == env(v));
    } else {
        let less = (fuel - 1) as nat;
        let s = insts_of(f);
        lemma_first_inst(s, v);
        let i = first_inst(s, v)->0;
        let k = s.index_of(i);
        assert(s[k] == i);
        match i.kind.op {
            Op::ConstInt(c, _) => {
                assert(terms_value(e.terms, env) == 0);
            },
            Op::IAdd => {
                let (a, b) = (i.kind.args[0], i.kind.args[1]);
                lemma_affine_holds(f, a, ivs, less, env);
                lemma_affine_holds(f, b, ivs, less, env);
                sum_adds_values(affine_of(f, a, ivs, less)->0, affine_of(f, b, ivs, less)->0, env);
            },
            Op::ISub => {
                let (a, b) = (i.kind.args[0], i.kind.args[1]);
                lemma_affine_holds(f, a, ivs, less, env);
                lemma_affine_holds(f, b, ivs, less, env);
                difference_subtracts_values(
                    affine_of(f, a, ivs, less)->0,
                    affine_of(f, b, ivs, less)->0,
                    env,
                );
            },
            Op::IMul => {
                let (a, b) = (i.kind.args[0], i.kind.args[1]);
                if const_int(f, a) is Some {
                    let n = const_int(f, a)->0 as int;
                    lemma_const_holds(f, a, env);
                    lemma_affine_holds(f, b, ivs, less, env);
                    scaling_scales_value(affine_of(f, b, ivs, less)->0, n, env);
                    let x = env(b);
                    assert(n * x == x * n) by (nonlinear_arith);
                } else {
                    lemma_const_holds(f, b, env);
                    lemma_affine_holds(f, a, ivs, less, env);
                    scaling_scales_value(
                        affine_of(f, a, ivs, less)->0,
                        const_int(f, b)->0 as int,
                        env,
                    );
                }
            },
            Op::IntExtend(_, _) => {
                lemma_affine_holds(f, i.kind.args[0], ivs, less, env);
            },
            _ => {},
        }
    }
}

proof fn lemma_const_holds(f: FuncView, v: ValueId, env: spec_fn(ValueId) -> int)
    requires
        unwrapped(f, env),
        const_int(f, v) is Some,
    ensures
        env(v) == const_int(f, v)->0,
{
    let s = insts_of(f);
    lemma_first_inst(s, v);
    let i = first_inst(s, v)->0;
    let k = s.index_of(i);
    assert(s[k] == i);
}

/// A value is what the affine expression gives that it is read as, where nothing
/// wraps.
pub proof fn affine_form_holds(
    f: FuncView,
    v: ValueId,
    ivs: Set<ValueId>,
    env: spec_fn(ValueId) -> int,
)
    requires
        unwrapped(f, env),
        affine_in(f, v, ivs) is Some,
    ensures
        env(v) == value_of(affine_in(f, v, ivs)->0, env),
{
    lemma_affine_holds(f, v, ivs, insts_of(f).len(), env);
}

fn resolve_const(list: &Vec<&Inst>, v: ValueId, Ghost(f): Ghost<FuncView>) -> (r: Option<i64>)
    requires
        refs_view(list@) == insts_of(f),
    ensures
        r == const_int(f, v),
{
    match find_first(list, v) {
        Some(i) => match &i.kind {
            InstKind::ConstInt(c, _) => if i64::MIN as i128 <= *c && *c <= i64::MAX as i128 {
                Some(*c as i64)
            } else {
                None
            },
            InstKind::Call(callee, _) => match callee {
                FuncRef::Internal(_) => None,
                FuncRef::External(_) => None,
                FuncRef::Indirect(_) => None,
            },
            _ => None,
        },
        None => None,
    }
}

fn affine_from(
    list: &Vec<&Inst>,
    v: ValueId,
    ivs: &IdSet<ValueId>,
    fuel: usize,
    Ghost(f): Ghost<FuncView>,
) -> (r: Option<AffineExpr>)
    requires
        refs_view(list@) == insts_of(f),
    ensures
        match r {
            Some(e) => affine_of(f, v, ivs@, fuel as nat) == Some(e@),
            None => affine_of(f, v, ivs@, fuel as nat) is None,
        },
    decreases fuel,
{
    if ivs.contains(&v) {
        return Some(AffineExpr::from_iv(v));
    }
    if fuel == 0 {
        return None;
    }
    let less: usize = fuel - 1;
    match find_first(list, v) {
        Some(i) => match &i.kind {
            InstKind::ConstInt(c, _) => if i64::MIN as i128 <= *c && *c <= i64::MAX as i128 {
                Some(AffineExpr::from_const(*c as i64))
            } else {
                None
            },
            InstKind::IAdd(a, b) => match (
                affine_from(list, *a, ivs, less, Ghost(f)),
                affine_from(list, *b, ivs, less, Ghost(f)),
            ) {
                (Some(x), Some(y)) => x.checked_sum(&y),
                _ => None,
            },
            InstKind::ISub(a, b) => match (
                affine_from(list, *a, ivs, less, Ghost(f)),
                affine_from(list, *b, ivs, less, Ghost(f)),
            ) {
                (Some(x), Some(y)) => x.checked_difference(&y),
                _ => None,
            },
            InstKind::IMul(a, b) => match resolve_const(list, *a, Ghost(f)) {
                Some(k) => match affine_from(list, *b, ivs, less, Ghost(f)) {
                    Some(y) => y.checked_multiple(k),
                    None => None,
                },
                None => match resolve_const(list, *b, Ghost(f)) {
                    Some(k) => match affine_from(list, *a, ivs, less, Ghost(f)) {
                        Some(x) => x.checked_multiple(k),
                        None => None,
                    },
                    None => None,
                },
            },
            InstKind::IntExtend(a, _, _) => affine_from(list, *a, ivs, less, Ghost(f)),
            InstKind::Call(callee, _) => match callee {
                FuncRef::Internal(_) => None,
                FuncRef::External(_) => None,
                FuncRef::Indirect(_) => None,
            },
            _ => None,
        },
        None => None,
    }
}

/// The affine expression that a value is of the induction variables.
pub fn extract_affine(func: &Function, val: ValueId, ivs: &IdSet<ValueId>) -> (r: Option<
    AffineExpr,
>)
    ensures
        match r {
            Some(e) => affine_in(func@, val, ivs@) == Some(e@),
            None => affine_in(func@, val, ivs@) is None,
        },
{
    let list = all_insts(func);
    let fuel: usize = list.len();
    proof {
        assert(refs_view(list@).len() == list@.len());
    }
    affine_from(&list, val, ivs, fuel, Ghost(func@))
}

/// The access that an instruction makes through an element address with an
/// affine subscript.
pub open spec fn mem_ref_of(f: FuncView, i: InstView, ivs: Set<ValueId>) -> Option<MemRefView> {
    match i.kind.op {
        Op::Store => element_ref(f, i.id, i.kind.args[1], true, ivs),
        Op::VolatileStore => element_ref(f, i.id, i.kind.args[1], true, ivs),
        Op::Load => element_ref(f, i.id, i.kind.args[0], false, ivs),
        Op::VolatileLoad => element_ref(f, i.id, i.kind.args[0], false, ivs),
        _ => None,
    }
}

/// The access to the element that `ptr` points to.
pub open spec fn element_ref(
    f: FuncView,
    inst_id: ValueId,
    ptr: ValueId,
    is_write: bool,
    ivs: Set<ValueId>,
) -> Option<MemRefView> {
    match first_inst(insts_of(f), ptr) {
        Some(g) => if g.kind.op is GetElementPtr && g.kind.args.len() > 1 {
            match affine_in(f, g.kind.args[1], ivs) {
                Some(subscript) => Some(
                    MemRefView { inst_id, base: g.kind.args[0], subscript, is_write },
                ),
                None => None,
            }
        } else {
            None
        },
        None => None,
    }
}

/// The accesses that the first `n` instructions of a list make.
pub open spec fn list_refs(f: FuncView, s: Seq<InstView>, n: nat, ivs: Set<ValueId>) -> Seq<
    MemRefView,
>
    decreases n,
{
    if n == 0 {
        Seq::empty()
    } else {
        let before = list_refs(f, s, (n - 1) as nat, ivs);
        match mem_ref_of(f, s[n - 1], ivs) {
            Some(r) => before.push(r),
            None => before,
        }
    }
}

/// The accesses that the first `n` of some blocks make.
pub open spec fn block_refs(f: FuncView, blocks: Seq<BlockId>, n: nat, ivs: Set<ValueId>) -> Seq<
    MemRefView,
>
    decreases n,
{
    if n == 0 {
        Seq::empty()
    } else {
        let s = the_block(f.blocks, blocks[n - 1]).insts;
        block_refs(f, blocks, (n - 1) as nat, ivs) + list_refs(f, s, s.len(), ivs)
    }
}

/// The accesses that a set of blocks makes.
pub open spec fn body_refs(f: FuncView, blocks: IdSet<BlockId>, ivs: Set<ValueId>) -> Seq<
    MemRefView,
> {
    block_refs(f, blocks.order(), blocks.order().len(), ivs)
}

fn extract_mem_ref(
    func: &Function,
    inst_id: ValueId,
    ptr: ValueId,
    is_write: bool,
    ivs: &IdSet<ValueId>,
) -> (r: Option<MemRef>)
    ensures
        match r {
            Some(x) => element_ref(func@, inst_id, ptr, is_write, ivs@) == Some(x@),
            None => element_ref(func@, inst_id, ptr, is_write, ivs@) is None,
        },
{
    let list = all_insts(func);
    match find_first(&list, ptr) {
        Some(g) => match &g.kind {
            InstKind::GetElementPtr(base, indices) => {
                if indices.len() == 0 {
                    return None;
                }
                match extract_affine(func, indices[0], ivs) {
                    Some(subscript) => Some(MemRef { inst_id, base: *base, subscript, is_write }),
                    None => None,
                }
            },
            InstKind::Call(callee, _) => match callee {
                FuncRef::Internal(_) => None,
                FuncRef::External(_) => None,
                FuncRef::Indirect(_) => None,
            },
            _ => None,
        },
        None => None,
    }
}

fn mem_ref(func: &Function, inst: &Inst, ivs: &IdSet<ValueId>) -> (r: Option<MemRef>)
    ensures
        match r {
            Some(x) => mem_ref_of(func@, inst@, ivs@) == Some(x@),
            None => mem_ref_of(func@, inst@, ivs@) is None,
        },
{
    match &inst.kind {
        InstKind::Store(_, ptr) => extract_mem_ref(func, inst.id, *ptr, true, ivs),
        InstKind::VolatileStore(_, ptr) => extract_mem_ref(func, inst.id, *ptr, true, ivs),
        InstKind::Load(ptr) => extract_mem_ref(func, inst.id, *ptr, false, ivs),
        InstKind::VolatileLoad(ptr) => extract_mem_ref(func, inst.id, *ptr, false, ivs),
        InstKind::Call(callee, _) => match callee {
            FuncRef::Internal(_) => None,
            FuncRef::External(_) => None,
            FuncRef::Indirect(_) => None,
        },
        _ => None,
    }
}

fn push_block_refs(func: &Function, block: &BasicBlock, ivs: &IdSet<ValueId>, out: &mut Vec<MemRef>)
    ensures
        mem_refs_view(final(out)@) == mem_refs_view(old(out)@) + list_refs(
            func@,
            block@.insts,
            block@.insts.len(),
            ivs@,
        ),
{
    let ghost s = block@.insts;
    let ghost start = mem_refs_view(out@);
    let mut i: usize = 0;
    proof {
        assert(start + list_refs(func@, s, 0, ivs@) =~= start);
    }
    while i < block.insts.len()
        invariant
            i <= s.len(),
            s == block@.insts,
            mem_refs_view(out@) == start + list_refs(func@, s, i as nat, ivs@),
        decreases s.len() - i,
    {
        let ghost before = out@;
        proof {
            assert(s[i as int] == block.insts@[i as int]@);
        }
        match mem_ref(func, &block.insts[i], ivs) {
            Some(x) => {
                out.push(x);
                proof {
                    assert(mem_refs_view(out@) =~= mem_refs_view(before).push(x@));
                    assert(mem_refs_view(before).push(x@) =~= start + list_refs(
                        func@,
                        s,
                        (i + 1) as nat,
                        ivs@,
                    ));
                }
            },
            None => {},
        }
        i = i + 1;
    }
}

/// The loads and stores through element addresses that a set of blocks makes.
pub fn collect_mem_refs(func: &Function, blocks: &IdSet<BlockId>, ivs: &IdSet<ValueId>) -> (r: Vec<
    MemRef,
>)
    requires
        forall|b: BlockId| #[trigger] blocks@.contains(b) ==> has_block(func@.blocks, b),
    ensures
        mem_refs_view(r@) == body_refs(func@, *blocks, ivs@),
{
    let mut out: Vec<MemRef> = Vec::new();
    let list = blocks.items();
    let ghost order = blocks.order();
    let mut i: usize = 0;
    proof {
        blocks.order_facts();
        assert(mem_refs_view(out@) =~= block_refs(func@, order, 0, ivs@));
    }
    while i < list.len()
        invariant
            i <= list@.len(),
            list@ == order,
            order == blocks.order(),
            order.to_set() == blocks@,
            forall|b: BlockId| #[trigger] blocks@.contains(b) ==> has_block(func@.blocks, b),
            mem_refs_view(out@) == block_refs(func@, order, i as nat, ivs@),
        decreases list@.len() - i,
    {
        proof {
            assert(order.to_set().contains(order[i as int]));
        }
        push_block_refs(func, func.block(list[i]), ivs, &mut out);
        i = i + 1;
    }
    out
}

/// The greatest common divisor.
pub open spec fn common_divisor(a: nat, b: nat) -> nat
    decreases b,
{
    if b == 0 {
        a
    } else {
        common_divisor(b, a % b)
    }
}

/// The greatest common divisor.
pub fn gcd(a: u64, b: u64) -> (r: u64)
    ensures
        r == common_divisor(a as nat, b as nat),
    decreases b,
{
    if b == 0 {
        a
    } else {
        gcd(b, a % b)
    }
}

/// The greatest common divisor divides both numbers.
pub proof fn common_divisor_divides(a: nat, b: nat)
    ensures
        common_divisor(a, b) > 0 ==> a % common_divisor(a, b) == 0 && b % common_divisor(a, b) == 0,
        common_divisor(a, b) == 0 <==> a == 0 && b == 0,
    decreases b,
{
    if b > 0 {
        common_divisor_divides(b, a % b);
        let g = common_divisor(a, b);
        let r = a % b;
        if g > 0 {
            let q = a / b;
            assert(a == b * q + r) by (nonlinear_arith)
                requires
                    b > 0,
                    q == a / b,
                    r == a % b,
            ;
            lemma_divides_sum(b as int, r as int, q as int, g as int);
        }
    } else if a > 0 {
        assert(a % a == 0) by (nonlinear_arith)
            requires
                a > 0,
        ;
        assert(0nat % a == 0) by (nonlinear_arith)
            requires
                a > 0,
        ;
    }
}

pub proof fn lemma_divides_sum(x: int, y: int, q: int, g: int)
    requires
        g > 0,
        x % g == 0,
        y % g == 0,
    ensures
        (x * q + y) % g == 0,
{
    let m = x / g;
    let n = y / g;
    assert(x == g * m) by (nonlinear_arith)
        requires
            g > 0,
            x % g == 0,
            m == x / g,
    ;
    assert(y == g * n) by (nonlinear_arith)
        requires
            g > 0,
            y % g == 0,
            n == y / g,
    ;
    assert(x * q + y == g * (m * q + n)) by (nonlinear_arith)
        requires
            x == g * m,
            y == g * n,
    ;
    vstd::arithmetic::div_mod::lemma_mod_multiples_basic(m * q + n, g);
    assert(g * (m * q + n) == (m * q + n) * g) by (nonlinear_arith);
}

/// The magnitude of a number.
pub open spec fn size_of_number(n: int) -> nat {
    if n >= 0 {
        n as nat
    } else {
        (-n) as nat
    }
}

/// The greatest common divisor of the coefficients of terms.
pub open spec fn terms_divisor(terms: Seq<(i64, ValueId)>) -> nat
    decreases terms.len(),
{
    if terms.len() == 0 {
        0
    } else {
        common_divisor(
            terms_divisor(terms.drop_last()),
            size_of_number(terms.last().0 as int),
        )
    }
}

/// The greatest common divisor of all coefficients of two subscripts.
pub open spec fn pair_divisor(a: AffineView, b: AffineView) -> nat {
    common_divisor(terms_divisor(a.terms), terms_divisor(b.terms))
}

/// May two accesses touch the same element on different iterations, as far as
/// divisors tell? Accesses to distinct arrays do not. Those to one array may only
/// where the divisor of all coefficients divides the distance of the constants.
pub open spec fn depends(a: MemRefView, b: MemRefView) -> bool {
    let g = pair_divisor(a.subscript, b.subscript);
    let d = b.subscript.constant - a.subscript.constant;
    a.base == b.base && if g == 0 {
        d == 0
    } else {
        d % (g as int) == 0
    }
}

proof fn lemma_divisor_divides(terms: Seq<(i64, ValueId)>, g: int, env: spec_fn(ValueId) -> int)
    requires
        g > 0,
        terms_divisor(terms) % (g as nat) == 0,
    ensures
        terms_value(terms, env) % g == 0,
    decreases terms.len(),
{
    if terms.len() > 0 {
        let t = terms.drop_last();
        let p = terms_divisor(t);
        let c = terms.last().0 as int;
        let q = size_of_number(c);
        common_divisor_divides(p, q);
        let d = common_divisor(p, q);
        if d > 0 {
            lemma_divides_through(p, d, g as nat);
            lemma_divides_through(q, d, g as nat);
        } else {
            assert(0nat % (g as nat) == 0) by (nonlinear_arith)
                requires
                    g > 0,
            ;
        }
        lemma_divisor_divides(t, g, env);
        let x = env(terms.last().1);
        if c >= 0 {
            lemma_divides_sum(c, terms_value(t, env), x, g);
            assert(c * x + terms_value(t, env) == terms_value(t, env) + c * x);
        } else {
            lemma_divides_sum(-c, terms_value(t, env), -x, g);
            assert((-c) * (-x) == c * x) by (nonlinear_arith);
        }
    } else {
        assert(0int % g == 0) by (nonlinear_arith)
            requires
                g > 0,
        ;
    }
}

proof fn lemma_divides_through(a: nat, d: nat, g: nat)
    requires
        g > 0,
        d > 0,
        a % d == 0,
        d % g == 0,
    ensures
        a % g == 0,
{
    let m = a / d;
    assert(a == d * m) by (nonlinear_arith)
        requires
            d > 0,
            a % d == 0,
            m == a / d,
    ;
    assert(0int % (g as int) == 0) by (nonlinear_arith)
        requires
            g > 0,
    ;
    lemma_divides_sum(d as int, 0, m as int, g as int);
    assert(d as int * m as int + 0 == a as int);
}

/// Accesses to one array that do not depend on each other never touch the same
/// element, on whatever iterations.
pub proof fn independent_accesses_differ(
    a: MemRefView,
    b: MemRefView,
    env_a: spec_fn(ValueId) -> int,
    env_b: spec_fn(ValueId) -> int,
)
    requires
        a.base == b.base,
        !depends(a, b),
    ensures
        value_of(a.subscript, env_a) != value_of(b.subscript, env_b),
{
    let p = terms_divisor(a.subscript.terms);
    let q = terms_divisor(b.subscript.terms);
    let g = pair_divisor(a.subscript, b.subscript) as int;
    let x = terms_value(a.subscript.terms, env_a);
    let y = terms_value(b.subscript.terms, env_b);
    let d = b.subscript.constant - a.subscript.constant;
    common_divisor_divides(p, q);
    if value_of(a.subscript, env_a) == value_of(b.subscript, env_b) {
        assert(d == x - y);
        if g == 0 {
            lemma_zero_terms(a.subscript.terms, env_a);
            lemma_zero_terms(b.subscript.terms, env_b);
        } else {
            lemma_divisor_divides(a.subscript.terms, g, env_a);
            lemma_divisor_divides(b.subscript.terms, g, env_b);
            lemma_divides_sum(y, x, -1, g);
            assert(y * (-1) + x == d) by (nonlinear_arith)
                requires
                    d == x - y,
            ;
        }
    }
}

proof fn lemma_zero_terms(terms: Seq<(i64, ValueId)>, env: spec_fn(ValueId) -> int)
    requires
        terms_divisor(terms) == 0,
    ensures
        terms_value(terms, env) == 0,
    decreases terms.len(),
{
    if terms.len() > 0 {
        common_divisor_divides(
            terms_divisor(terms.drop_last()),
            size_of_number(terms.last().0 as int),
        );
        lemma_zero_terms(terms.drop_last(), env);
        let x = env(terms.last().1);
        assert(0int * x == 0) by (nonlinear_arith);
    }
}

fn magnitude(n: i64) -> (r: u64)
    ensures
        r == size_of_number(n as int),
{
    if n >= 0 {
        n as u64
    } else if n == i64::MIN {
        0x8000_0000_0000_0000
    } else {
        (-n) as u64
    }
}

fn divisor_of(terms: &Vec<(i64, ValueId)>) -> (r: u64)
    ensures
        r == terms_divisor(terms@),
{
    let mut g: u64 = 0;
    let mut i: usize = 0;
    proof {
        assert(terms@.take(0) =~= Seq::<(i64, ValueId)>::empty());
    }
    while i < terms.len()
        invariant
            i <= terms@.len(),
            g == terms_divisor(terms@.take(i as int)),
        decreases terms@.len() - i,
    {
        proof {
            assert(terms@.take(i + 1).drop_last() =~= terms@.take(i as int));
        }
        g = gcd(g, magnitude(terms[i].0));
        i = i + 1;
    }
    proof {
        assert(terms@.take(i as int) =~= terms@);
    }
    g
}

fn distance_divisible(from: i64, to: i64, g: u64) -> (r: bool)
    requires
        g > 0,
    ensures
        r == ((to - from) % (g as int) == 0),
{
    let d: i128 = to as i128 - from as i128;
    let size: u64 = if d >= 0 {
        d as u64
    } else {
        (-d) as u64
    };
    proof {
        let n = g as int;
        if d < 0 {
            assert(0int % n == 0) by (nonlinear_arith)
                requires
                    n > 0,
            ;
            if (-d) % n == 0 {
                lemma_divides_sum(-d as int, 0, -1, n);
                assert((-d) * (-1) + 0 == d) by (nonlinear_arith);
            }
            if (d as int) % n == 0 {
                lemma_divides_sum(d as int, 0, -1, n);
                assert((d as int) * (-1) + 0 == -d) by (nonlinear_arith);
            }
        }
    }
    size % g == 0
}

/// Tests whether two accesses may touch the same element on different
/// iterations.
///
/// With the subscripts `sum(a_k * i_k) + c1` and `sum(b_k * i_k) + c2` they may
/// only where the greatest common divisor of all `a_k` and `b_k` divides
/// `c2 - c1`.
pub fn test_dependence(ref_a: &MemRef, ref_b: &MemRef) -> (r: DepResult)
    ensures
        r.dependent == depends(ref_a@, ref_b@),
{
    if !same_id(ref_a.base, ref_b.base) {
        return DepResult { dependent: false };
    }
    let g: u64 = gcd(divisor_of(&ref_a.subscript.terms), divisor_of(&ref_b.subscript.terms));
    let from: i64 = ref_a.subscript.constant;
    let to: i64 = ref_b.subscript.constant;
    if g == 0 {
        return DepResult { dependent: from == to };
    }
    DepResult { dependent: distance_divisible(from, to, g) }
}

/// An expression with one variable in place of another.
pub open spec fn with_variable(e: AffineView, from: ValueId, to: ValueId) -> AffineView {
    AffineView {
        constant: e.constant,
        terms: Seq::new(
            e.terms.len(),
            |i: int|
                (
                    e.terms[i].0,
                    if e.terms[i].1 == from {
                        to
                    } else {
                        e.terms[i].1
                    },
                ),
        ),
    }
}

/// Do two subscripts agree for all values of the variables, as terms?
pub open spec fn same_subscript(a: AffineView, b: AffineView) -> bool {
    match difference_of(b, a) {
        Some(d) => d.terms.len() == 0 && d.constant == 0,
        None => false,
    }
}

/// Subscripts that agree have the same value for all values of the variables.
pub proof fn same_subscripts_agree(a: AffineView, b: AffineView, env: spec_fn(ValueId) -> int)
    requires
        same_subscript(a, b),
    ensures
        value_of(a, env) == value_of(b, env),
{
    difference_subtracts_values(b, a, env);
}

/// Do two accesses of two loops with the same range allow the loops to be fused?
/// Nothing is written, the storage is separate, or each iteration touches the
/// same element in both.
pub open spec fn fusable(
    f: FuncView,
    layout: TargetLayout,
    a: MemRefView,
    b: MemRefView,
    iv_a: ValueId,
    iv_b: ValueId,
) -> bool {
    (!a.is_write && !b.is_write) || alias(f, layout, a.base, b.base) == AliasResult::NoAlias
        || same_subscript(a.subscript, with_variable(b.subscript, iv_b, iv_a))
}

/// Can two adjacent loop bodies be fused?
pub open spec fn bodies_fusable(
    f: FuncView,
    layout: TargetLayout,
    refs_a: Seq<MemRefView>,
    refs_b: Seq<MemRefView>,
    iv_a: ValueId,
    iv_b: ValueId,
) -> bool {
    forall|i: int, j: int|
        0 <= i < refs_a.len() && 0 <= j < refs_b.len() ==> fusable(
            f,
            layout,
            #[trigger] refs_a[i],
            #[trigger] refs_b[j],
            iv_a,
            iv_b,
        )
}

fn rename_variable(e: &AffineExpr, from: ValueId, to: ValueId) -> (r: AffineExpr)
    ensures
        r@ == with_variable(e@, from, to),
{
    let mut terms: Vec<(i64, ValueId)> = Vec::new();
    let mut i: usize = 0;
    while i < e.terms.len()
        invariant
            i <= e.terms@.len(),
            terms@ == with_variable(e@, from, to).terms.take(i as int),
        decreases e.terms@.len() - i,
    {
        let (c, v) = e.terms[i];
        let w = if same_id(v, from) {
            to
        } else {
            v
        };
        terms.push((c, w));
        proof {
            assert(terms@ =~= with_variable(e@, from, to).terms.take(i + 1));
        }
        i = i + 1;
    }
    proof {
        assert(terms@ =~= with_variable(e@, from, to).terms);
    }
    AffineExpr { constant: e.constant, terms }
}

fn is_fusable(
    oracle: &mut AliasOracle,
    a: &MemRef,
    b: &MemRef,
    iv_a: ValueId,
    iv_b: ValueId,
) -> (r: bool)
    ensures
        r == fusable(old(oracle).function(), old(oracle).target(), a@, b@, iv_a, iv_b),
        final(oracle).function() == old(oracle).function(),
        final(oracle).target() == old(oracle).target(),
{
    if !a.is_write && !b.is_write {
        return true;
    }
    match oracle.query(a.base, b.base) {
        AliasResult::NoAlias => {
            return true;
        },
        _ => {},
    }
    let moved = rename_variable(&b.subscript, iv_b, iv_a);
    match moved.checked_difference(&a.subscript) {
        Some(d) => d.terms.len() == 0 && d.constant == 0,
        None => false,
    }
}

/// The set of one value.
fn only(v: ValueId) -> (r: IdSet<ValueId>)
    ensures
        r@ == Set::<ValueId>::empty().insert(v),
{
    let mut s: IdSet<ValueId> = IdSet::new();
    s.insert(v);
    s
}

/// Can two adjacent loop bodies be fused?
///
/// `iv_a` and `iv_b` are the induction variables of the two loops, which run over
/// the same range: the second is taken for the first.
pub fn fusion_legal(
    func: &Function,
    body_a: &IdSet<BlockId>,
    body_b: &IdSet<BlockId>,
    iv_a: ValueId,
    iv_b: ValueId,
    layout: TargetLayout,
) -> (r: bool)
    requires
        forall|b: BlockId| #[trigger] body_a@.contains(b) ==> has_block(func@.blocks, b),
        forall|b: BlockId| #[trigger] body_b@.contains(b) ==> has_block(func@.blocks, b),
    ensures
        r == bodies_fusable(
            func@,
            layout,
            body_refs(func@, *body_a, Set::<ValueId>::empty().insert(iv_a)),
            body_refs(func@, *body_b, Set::<ValueId>::empty().insert(iv_b)),
            iv_a,
            iv_b,
        ),
{
    let ghost f = func@;
    let refs_a = collect_mem_refs(func, body_a, &only(iv_a));
    let refs_b = collect_mem_refs(func, body_b, &only(iv_b));
    let ghost va = mem_refs_view(refs_a@);
    let ghost vb = mem_refs_view(refs_b@);
    let mut oracle = AliasOracle::new(func, layout);
    let mut i: usize = 0;
    while i < refs_a.len()
        invariant
            i <= refs_a@.len(),
            va == mem_refs_view(refs_a@),
            f == func@,
            va == body_refs(f, *body_a, Set::<ValueId>::empty().insert(iv_a)),
            vb == body_refs(f, *body_b, Set::<ValueId>::empty().insert(iv_b)),
            vb == mem_refs_view(refs_b@),
            oracle.function() == f,
            oracle.target() == layout,
            forall|x: int, y: int|
                0 <= x < i && 0 <= y < vb.len() ==> fusable(
                    f,
                    layout,
                    #[trigger] va[x],
                    #[trigger] vb[y],
                    iv_a,
                    iv_b,
                ),
        decreases refs_a@.len() - i,
    {
        let mut j: usize = 0;
        while j < refs_b.len()
            invariant
                i < refs_a@.len(),
                j <= refs_b@.len(),
                va == mem_refs_view(refs_a@),
                f == func@,
                va == body_refs(f, *body_a, Set::<ValueId>::empty().insert(iv_a)),
                vb == body_refs(f, *body_b, Set::<ValueId>::empty().insert(iv_b)),
                vb == mem_refs_view(refs_b@),
                oracle.function() == f,
                oracle.target() == layout,
                forall|y: int|
                    0 <= y < j ==> fusable(f, layout, va[i as int], #[trigger] vb[y], iv_a, iv_b),
            decreases refs_b@.len() - j,
        {
            proof {
                assert(va[i as int] == refs_a@[i as int]@);
                assert(vb[j as int] == refs_b@[j as int]@);
            }
            if !is_fusable(&mut oracle, &refs_a[i], &refs_b[j], iv_a, iv_b) {
                proof {
                    assert(!fusable(f, layout, va[i as int], vb[j as int], iv_a, iv_b));
                }
                return false;
            }
            j = j + 1;
        }
        i = i + 1;
    }
    true
}

/// Does a variable have a coefficient other than zero?
pub open spec fn varies_with(e: AffineView, v: ValueId) -> bool {
    exists|k: int| 0 <= k < e.terms.len() && (#[trigger] e.terms[k]).1 == v && e.terms[k].0 != 0
}

/// Does a variable have a coefficient other than zero in one of two subscripts?
pub open spec fn involves(a: MemRefView, b: MemRefView, v: ValueId) -> bool {
    varies_with(a.subscript, v) || varies_with(b.subscript, v)
}

/// Do two accesses touch the same element on different iterations, as far as can
/// be told? Accesses with the same subscript meet on the same iteration.
pub open spec fn carries(a: MemRefView, b: MemRefView) -> bool {
    depends(a, b) && !same_subscript(a.subscript, b.subscript)
}

/// Could interchanging the loops reverse the order of two accesses? One writes,
/// both go to one array, and either the difference of the subscripts varies with
/// both variables or does not fit, or a dependence is carried between iterations
/// that involves both variables.
pub open spec fn crosses(a: MemRefView, b: MemRefView, outer: ValueId, inner: ValueId) -> bool {
    (a.is_write || b.is_write) && a.base == b.base && match difference_of(
        b.subscript,
        a.subscript,
    ) {
        Some(d) => (varies_with(d, outer) && varies_with(d, inner)) || (carries(a, b) && involves(
            a,
            b,
            outer,
        ) && involves(a, b, inner)),
        None => true,
    }
}

/// Two accesses to one array of which one writes, and which involve both
/// variables in different subscripts, never meet where they do not cross.
pub proof fn uncrossed_accesses_differ(
    a: MemRefView,
    b: MemRefView,
    outer: ValueId,
    inner: ValueId,
    env_a: spec_fn(ValueId) -> int,
    env_b: spec_fn(ValueId) -> int,
)
    requires
        a.is_write || b.is_write,
        a.base == b.base,
        involves(a, b, outer),
        involves(a, b, inner),
        !same_subscript(a.subscript, b.subscript),
        !crosses(a, b, outer, inner),
    ensures
        value_of(a.subscript, env_a) != value_of(b.subscript, env_b),
{
    independent_accesses_differ(a, b, env_a, env_b);
}

fn term_varies(e: &AffineExpr, v: ValueId) -> (r: bool)
    ensures
        r == varies_with(e@, v),
{
    let mut i: usize = 0;
    while i < e.terms.len()
        invariant
            i <= e.terms@.len(),
            forall|k: int| 0 <= k < i ==> !((#[trigger] e@.terms[k]).1 == v && e@.terms[k].0 != 0),
        decreases e.terms@.len() - i,
    {
        let (c, w) = e.terms[i];
        if same_id(w, v) && c != 0 {
            proof {
                assert(e@.terms[i as int].1 == v);
            }
            return true;
        }
        i = i + 1;
    }
    false
}

fn may_cross(a: &MemRef, b: &MemRef, outer: ValueId, inner: ValueId) -> (r: bool)
    ensures
        r == crosses(a@, b@, outer, inner),
{
    if !a.is_write && !b.is_write {
        return false;
    }
    if !same_id(a.base, b.base) {
        return false;
    }
    match b.subscript.checked_difference(&a.subscript) {
        Some(d) => {
            if term_varies(&d, outer) && term_varies(&d, inner) {
                return true;
            }
            let met: bool = d.terms.len() == 0 && d.constant == 0;
            let both: bool = (term_varies(&a.subscript, outer) || term_varies(&b.subscript, outer))
                && (term_varies(&a.subscript, inner) || term_varies(&b.subscript, inner));
            !met && both && test_dependence(a, b).dependent
        },
        None => true,
    }
}

/// Can the outer and the inner loop be interchanged? Not where a dependence is
/// carried that involves both variables, since its direction may change.
pub fn interchange_legal(
    func: &Function,
    inner_body: &IdSet<BlockId>,
    outer_iv: ValueId,
    inner_iv: ValueId,
) -> (r: bool)
    requires
        forall|b: BlockId| #[trigger] inner_body@.contains(b) ==> has_block(func@.blocks, b),
    ensures
        ({
            let refs = body_refs(
                func@,
                *inner_body,
                Set::<ValueId>::empty().insert(outer_iv).insert(inner_iv),
            );
            r == forall|i: int, j: int|
                0 <= i < j < refs.len() ==> !crosses(
                    #[trigger] refs[i],
                    #[trigger] refs[j],
                    outer_iv,
                    inner_iv,
                )
        }),
{
    let mut ivs = only(outer_iv);
    ivs.insert(inner_iv);
    let refs = collect_mem_refs(func, inner_body, &ivs);
    let ghost v = mem_refs_view(refs@);
    let mut i: usize = 0;
    while i < refs.len()
        invariant
            i <= refs@.len(),
            v == mem_refs_view(refs@),
            v == body_refs(
                func@,
                *inner_body,
                Set::<ValueId>::empty().insert(outer_iv).insert(inner_iv),
            ),
            forall|x: int, y: int|
                0 <= x < i && x < y < v.len() ==> !crosses(
                    #[trigger] v[x],
                    #[trigger] v[y],
                    outer_iv,
                    inner_iv,
                ),
        decreases refs@.len() - i,
    {
        let mut j: usize = i + 1;
        while j < refs.len()
            invariant
                i < refs@.len(),
                i < j <= refs@.len(),
                v == mem_refs_view(refs@),
                v == body_refs(
                    func@,
                    *inner_body,
                    Set::<ValueId>::empty().insert(outer_iv).insert(inner_iv),
                ),
                forall|y: int|
                    i < y < j ==> !crosses(v[i as int], #[trigger] v[y], outer_iv, inner_iv),
            decreases refs@.len() - j,
        {
            proof {
                assert(v[i as int] == refs@[i as int]@);
                assert(v[j as int] == refs@[j as int]@);
            }
            if may_cross(&refs[i], &refs[j], outer_iv, inner_iv) {
                proof {
                    assert(crosses(v[i as int], v[j as int], outer_iv, inner_iv));
                }
                return false;
            }
            j = j + 1;
        }
        i = i + 1;
    }
    true
}

} // verus!
