//! What dependence tests, fusion tests and preheaders mean.

use crate::ir::cfg::{edge, lemma_preds_are_edges, preds_of};
use crate::ir::inst::{has_block, the_block, BlockId, FuncView, InstView, TermView, ValueId};
use crate::opt::affine::{terms_value, value_of, AffineView};
use crate::opt::callgraph::{cost_of, loop_headers};
use crate::opt::dep_analysis::{
    affine_form_holds, affine_in, common_divisor, depends, fusable, lemma_divides_sum, list_refs,
    mem_ref_of, same_subscript, same_subscripts_agree, size_of_number, terms_divisor, unwrapped,
    with_variable, MemRefView,
};
use crate::opt::insts::{first_inst, insts_of};
use crate::opt::loop_utils::{outside_preds, preheader_of};
use crate::opt::places::{
    aliasing_is_about_places, laid_out, params_are_named, touches, Place, Whereabouts,
};
use crate::target::TargetLayout;
use vstd::prelude::*;

verus! {

/// Every common divisor of two numbers divides the one that is computed.
pub proof fn common_divisor_is_greatest(a: nat, b: nat, d: nat)
    requires
        d > 0,
        a % d == 0,
        b % d == 0,
    ensures
        common_divisor(a, b) % d == 0,
    decreases b,
{
    if b > 0 {
        let q = a / b;
        let r = a % b;
        assert(a == b * q + r) by (nonlinear_arith)
            requires
                b > 0,
                q == a / b,
                r == a % b,
        ;
        let mq = -(q as int);
        lemma_divides_sum(b as int, a as int, mq, d as int);
        assert(b * mq + a == r) by (nonlinear_arith)
            requires
                a == b * q + r,
                mq == -(q as int),
        ;
        common_divisor_is_greatest(b, r, d);
    }
}

/// A common divisor is a sum of multiples of the two numbers.
proof fn lemma_combination(a: nat, b: nat) -> (r: (int, int))
    ensures
        common_divisor(a, b) == a * r.0 + b * r.1,
    decreases b,
{
    if b == 0 {
        assert(a * 1 + b * 0 == a) by (nonlinear_arith);
        (1, 0)
    } else {
        let q = a / b;
        let m = a % b;
        assert(a == b * q + m) by (nonlinear_arith)
            requires
                b > 0,
                q == a / b,
                m == a % b,
        ;
        let (s, t) = lemma_combination(b, m);
        assert(b * s + m * t == a * t + b * (s - q * t)) by (nonlinear_arith)
            requires
                a == b * q + m,
        ;
        (t, s - q * t)
    }
}

/// Is each variable in one term only?
pub open spec fn variables_differ(terms: Seq<(i64, ValueId)>) -> bool {
    forall|i: int, j: int|
        0 <= i < j < terms.len() ==> (#[trigger] terms[i]).1 != (#[trigger] terms[j]).1
}

proof fn lemma_elsewhere(
    terms: Seq<(i64, ValueId)>,
    env: spec_fn(ValueId) -> int,
    other: spec_fn(ValueId) -> int,
)
    requires
        forall|i: int| 0 <= i < terms.len() ==> env((#[trigger] terms[i]).1) == other(terms[i].1),
    ensures
        terms_value(terms, env) == terms_value(terms, other),
    decreases terms.len(),
{
    if terms.len() > 0 {
        let t = terms.drop_last();
        assert forall|i: int| 0 <= i < t.len() implies env((#[trigger] t[i]).1) == other(t[i].1) by {
            assert(t[i] == terms[i]);
        }
        lemma_elsewhere(t, env, other);
        assert(terms[terms.len() - 1] == terms.last());
    }
}

/// Terms take every multiple of the divisor of their coefficients.
proof fn lemma_taken(terms: Seq<(i64, ValueId)>, k: int) -> (env: spec_fn(ValueId) -> int)
    requires
        variables_differ(terms),
    ensures
        terms_value(terms, env) == k * terms_divisor(terms),
    decreases terms.len(),
{
    if terms.len() == 0 {
        let env = |v: ValueId| 0int;
        assert(k * 0 == 0) by (nonlinear_arith);
        env
    } else {
        let t = terms.drop_last();
        let (c, x) = terms.last();
        let p = terms_divisor(t);
        let q = size_of_number(c as int);
        let (s, u) = lemma_combination(p, q);
        assert(variables_differ(t)) by {
            assert forall|i: int, j: int| 0 <= i < j < t.len() implies (#[trigger] t[i]).1 != (
            #[trigger] t[j]).1 by {
                assert(terms[i].1 != terms[j].1);
            }
        }
        let inner = lemma_taken(t, k * s);
        let here: int = if c >= 0 {
            k * u
        } else {
            -(k * u)
        };
        let env = |v: ValueId|
            if v == x {
                here
            } else {
                inner(v)
            };
        assert forall|i: int| 0 <= i < t.len() implies env((#[trigger] t[i]).1) == inner(t[i].1) by {
            assert(terms[i].1 != terms[terms.len() - 1].1);
            assert(t[i] == terms[i]);
        }
        lemma_elsewhere(t, env, inner);
        let ci = c as int;
        assert((k * s) * p + ci * here == k * (p * s + q * u)) by (nonlinear_arith)
            requires
                (ci >= 0 && q == ci && here == k * u) || (ci < 0 && q == -ci && here == -(k * u)),
        ;
        env
    }
}

/// Where a dependence is said to be possible, the accesses touch the same element
/// on some iterations, as long as each variable may take any value: the test is
/// exact.
pub proof fn dependent_accesses_may_meet(a: MemRefView, b: MemRefView) -> (r: (
    spec_fn(ValueId) -> int,
    spec_fn(ValueId) -> int,
))
    requires
        depends(a, b),
        variables_differ(a.subscript.terms),
        variables_differ(b.subscript.terms),
    ensures
        a.base == b.base,
        value_of(a.subscript, r.0) == value_of(b.subscript, r.1),
{
    let p = terms_divisor(a.subscript.terms);
    let q = terms_divisor(b.subscript.terms);
    let g = common_divisor(p, q) as int;
    let d = b.subscript.constant - a.subscript.constant;
    let (s, t) = lemma_combination(p, q);
    let n: int = if g == 0 {
        0
    } else {
        d / g
    };
    assert(d == n * g) by (nonlinear_arith)
        requires
            (g == 0 && d == 0 && n == 0) || (g > 0 && d % g == 0 && n == d / g),
    ;
    let x = lemma_taken(a.subscript.terms, n * s);
    let y = lemma_taken(b.subscript.terms, -(n * t));
    assert((n * s) * p + (n * t) * q == n * g) by (nonlinear_arith)
        requires
            g == p * s + q * t,
    ;
    assert((-(n * t)) * q == -((n * t) * q)) by (nonlinear_arith);
    (x, y)
}

proof fn lemma_renamed_terms(
    terms: Seq<(i64, ValueId)>,
    e: AffineView,
    from: ValueId,
    to: ValueId,
    env: spec_fn(ValueId) -> int,
    other: spec_fn(ValueId) -> int,
)
    requires
        terms == with_variable(e, from, to).terms,
        forall|v: ValueId| #[trigger] other(v) == env(
            if v == from {
                to
            } else {
                v
            },
        ),
    ensures
        terms_value(terms, env) == terms_value(e.terms, other),
    decreases e.terms.len(),
{
    if e.terms.len() > 0 {
        let less = AffineView { constant: e.constant, terms: e.terms.drop_last() };
        let t = terms.drop_last();
        assert(t =~= with_variable(less, from, to).terms);
        lemma_renamed_terms(t, less, from, to, env, other);
        let n = e.terms.len() - 1;
        assert(terms[n].0 == e.terms[n].0);
        assert(other(e.terms[n].1) == env(terms[n].1));
        assert(terms.last() == terms[n] && e.terms.last() == e.terms[n]);
    }
}

/// Accesses that let loops be fused are both reads, or get to no common place
/// wherever pointers point, or touch the same element on the same iteration.
pub proof fn fusable_accesses_keep_their_order(
    w: Whereabouts,
    f: FuncView,
    layout: TargetLayout,
    a: MemRefView,
    b: MemRefView,
    iv_a: ValueId,
    iv_b: ValueId,
    env: spec_fn(ValueId) -> int,
    other: spec_fn(ValueId) -> int,
    place: Place,
)
    requires
        fusable(f, layout, a, b, iv_a, iv_b),
        laid_out(w, f, layout),
        params_are_named(f),
        a.is_write || b.is_write,
        touches(w, f, a.base, place) && touches(w, f, b.base, place),
        forall|v: ValueId| #[trigger] other(v) == env(
            if v == iv_b {
                iv_a
            } else {
                v
            },
        ),
    ensures
        value_of(a.subscript, env) == value_of(b.subscript, other),
{
    aliasing_is_about_places(w, f, layout, a.base, b.base);
    let r = with_variable(b.subscript, iv_b, iv_a);
    assert(same_subscript(a.subscript, r));
    same_subscripts_agree(a.subscript, r, env);
    lemma_renamed_terms(r.terms, b.subscript, iv_b, iv_a, env, other);
}

/// A preheader is outside the loop, leads to its header and nowhere else, and is
/// the only block outside that leads there.
pub proof fn preheaders_lead_into_the_loop(
    f: FuncView,
    h: BlockId,
    body: Set<BlockId>,
    p: BlockId,
    x: BlockId,
)
    requires
        preheader_of(f, h, body) == Some(p),
    ensures
        !body.contains(p),
        has_block(f.blocks, p),
        the_block(f.blocks, p).term matches Some(t) && t matches TermView::Branch(to, _) && to == h,
        edge(f.blocks, x, h) && !body.contains(x) ==> x == p,
{
    let keep = |b: BlockId| !body.contains(b);
    let s = preds_of(f.blocks, h);
    let out = outside_preds(f, h, body);
    s.lemma_filter_pred(keep, 0);
    if edge(f.blocks, x, h) && !body.contains(x) {
        lemma_preds_are_edges(f.blocks, h, x);
        let k = s.index_of(x);
        assert(keep(s[k]));
        s.lemma_filter_contains(keep, k);
        let j = out.index_of(x);
        assert(j == 0);
    }
}

/// What inlining a function costs is its instructions where it has no loop, and
/// grows by four times as many with each loop, up to the largest number.
pub proof fn loops_cost_four_times(f: FuncView)
    ensures
        ({
            let n = loop_headers(f).len() as int;
            let all = insts_of(f).len() * (if n == 0 {
                1
            } else {
                n + n + n + n
            });
            cost_of(f) == if all > usize::MAX {
                usize::MAX as int
            } else {
                all
            }
        }),
{
}

/// A reference tells of a load or a store at an element address: which it is, of
/// what array, and where in it; every such access of a list is told of, in order.
pub proof fn references_are_accesses(
    f: FuncView,
    s: Seq<InstView>,
    n: nat,
    i: InstView,
    ivs: Set<ValueId>,
    env: spec_fn(ValueId) -> int,
)
    requires
        unwrapped(f, env),
        n < s.len(),
    ensures
        mem_ref_of(f, i, ivs) matches Some(r) ==> {
            let at = if r.is_write {
                i.kind.args[1]
            } else {
                i.kind.args[0]
            };
            &&& r.inst_id == i.id
            &&& r.is_write ==> i.kind.op is Store || i.kind.op is VolatileStore
            &&& !r.is_write ==> i.kind.op is Load || i.kind.op is VolatileLoad
            &&& first_inst(insts_of(f), at) matches Some(g) && g.kind.op is GetElementPtr
                && g.kind.args[0] == r.base && env(g.kind.args[1]) == value_of(r.subscript, env)
        },
        mem_ref_of(f, i, ivs) is None && (i.kind.op is Load || i.kind.op is VolatileLoad)
            ==> !(first_inst(insts_of(f), i.kind.args[0]) matches Some(g) && g.kind.op is GetElementPtr
            && g.kind.args.len() > 1 && affine_in(f, g.kind.args[1], ivs) is Some),
        mem_ref_of(f, i, ivs) is None && (i.kind.op is Store || i.kind.op is VolatileStore)
            ==> !(first_inst(insts_of(f), i.kind.args[1]) matches Some(g) && g.kind.op is GetElementPtr
            && g.kind.args.len() > 1 && affine_in(f, g.kind.args[1], ivs) is Some),
        list_refs(f, s, n + 1, ivs) == list_refs(f, s, n, ivs) + match mem_ref_of(f, s[n as int], ivs) {
            Some(r) => seq![r],
            None => Seq::empty(),
        },
{
    if mem_ref_of(f, i, ivs) is Some {
        let r = mem_ref_of(f, i, ivs)->0;
        let at = if r.is_write {
            i.kind.args[1]
        } else {
            i.kind.args[0]
        };
        let g = first_inst(insts_of(f), at)->0;
        affine_form_holds(f, g.kind.args[1], ivs, env);
    }
}

} // verus!
