//! Reassociation of floating-point sums.
//!
//! A chain of additions and subtractions of constants to one value becomes one
//! addition. Rounding may then differ, so this is for where that is allowed.

use crate::ids::{same_id, IdMap, IdSet};
use crate::ir::inst::{
    block_pos, has_block, insts_view, lemma_block_pos, BasicBlock, BlockId, BlockView, FuncRef,
    FuncView, Function, Inst, InstKind, InstView, KindView, Module, ModuleView, Op, ValueId,
};
use crate::ir::types::{FloatWidth, IrType};
use crate::ir::walk::{renamed_func, substitute_uses_batch};
use crate::lexer::Span;
use crate::opt::edit::{func_without, remove_insts};
use crate::opt::floats::{
    ask_bits, bits_for, comes_before, finite, is_evaluator, is_finite, is_zero, precedes,
    round_for_width, rounded, zero, FloatBin, FloatReply, FloatRequest,
};
use crate::opt::insts::{
    all_insts, find_last, insts_of, insts_upto, last_inst, lemma_insts_prefix, lemma_last_inst,
    refs_view,
};
use crate::opt::pass::Pass;
use vstd::prelude::*;

verus! {

/// A number rounded to a format, where that is finite.
pub open spec fn finite_rounded<E: Fn(FloatRequest) -> FloatReply>(e: E, bits: u64, w: FloatWidth) -> Option<
    u64,
> {
    match rounded(e, bits, w) {
        Some(r) => if is_finite(r) {
            Some(r)
        } else {
            None
        },
        None => None,
    }
}

/// The finite constant of format `w` that a value is.
pub open spec fn const_of<E: Fn(FloatRequest) -> FloatReply>(
    e: E,
    f: FuncView,
    v: ValueId,
    w: FloatWidth,
) -> Option<u64> {
    match last_inst(insts_of(f), v) {
        Some(i) => match i.kind.op {
            Op::ConstFloat(b, x) => if x == w {
                finite_rounded(e, b, w)
            } else {
                None
            },
            _ => None,
        },
        None => None,
    }
}

/// A sum: at most one value, and constants, each with whether it is subtracted.
pub struct Sum {
    pub base: Option<ValueId>,
    pub terms: Seq<(u64, bool)>,
    /// How many additions and subtractions it is made of.
    pub nodes: nat,
}

/// The terms with the sign changed.
pub open spec fn negated(terms: Seq<(u64, bool)>) -> Seq<(u64, bool)> {
    Seq::new(terms.len(), |i: int| (terms[i].0, !terms[i].1))
}

/// The sum of two sums, where at most one has a value.
pub open spec fn added(a: Option<Sum>, b: Option<Sum>) -> Option<Sum> {
    match (a, b) {
        (Some(x), Some(y)) => match (x.base, y.base) {
            (Some(_), Some(_)) => None,
            (Some(v), None) => Some(
                Sum { base: Some(v), terms: x.terms + y.terms, nodes: x.nodes + y.nodes + 1 },
            ),
            (None, v) => Some(
                Sum { base: v, terms: x.terms + y.terms, nodes: x.nodes + y.nodes + 1 },
            ),
        },
        _ => None,
    }
}

/// The difference of two sums, where the second has no value.
pub open spec fn subtracted(a: Option<Sum>, b: Option<Sum>) -> Option<Sum> {
    match (a, b) {
        (Some(x), Some(y)) => match y.base {
            Some(_) => None,
            None => Some(
                Sum {
                    base: x.base,
                    terms: x.terms + negated(y.terms),
                    nodes: x.nodes + y.nodes + 1,
                },
            ),
        },
        _ => None,
    }
}

/// A sum of one value alone.
pub open spec fn alone(v: ValueId) -> Sum {
    Sum { base: Some(v), terms: Seq::empty(), nodes: 0 }
}

/// The sum that a value is, followed through at most `fuel` definitions.
pub open spec fn sum_at<E: Fn(FloatRequest) -> FloatReply>(
    e: E,
    f: FuncView,
    v: ValueId,
    w: FloatWidth,
    fuel: nat,
) -> Option<Sum>
    decreases fuel,
{
    if fuel == 0 {
        None
    } else {
        match const_of(e, f, v, w) {
            Some(c) => Some(Sum { base: None, terms: seq![(c, false)], nodes: 0 }),
            None => match last_inst(insts_of(f), v) {
                Some(i) => if i.ty == IrType::Float(w) && i.kind.op is FAdd {
                    added(
                        sum_at(e, f, i.kind.args[0], w, (fuel - 1) as nat),
                        sum_at(e, f, i.kind.args[1], w, (fuel - 1) as nat),
                    )
                } else if i.ty == IrType::Float(w) && i.kind.op is FSub {
                    subtracted(
                        sum_at(e, f, i.kind.args[0], w, (fuel - 1) as nat),
                        sum_at(e, f, i.kind.args[1], w, (fuel - 1) as nat),
                    )
                } else {
                    Some(alone(v))
                },
                None => Some(alone(v)),
            },
        }
    }
}

/// The sum that a value is. A chain of definitions that does not end is none.
pub open spec fn sum_of<E: Fn(FloatRequest) -> FloatReply>(
    e: E,
    f: FuncView,
    v: ValueId,
    w: FloatWidth,
) -> Option<Sum> {
    sum_at(e, f, v, w, insts_of(f).len() + 1)
}

/// How often a constant is added more than subtracted.
pub open spec fn net(terms: Seq<(u64, bool)>, c: u64) -> int
    decreases terms.len(),
{
    if terms.len() == 0 {
        0
    } else {
        let (d, negative) = terms.last();
        net(terms.drop_last(), c) + if d == c {
            if negative {
                -1int
            } else {
                1int
            }
        } else {
            0int
        }
    }
}

/// Does each number come before those behind it?
pub open spec fn ascending(s: Seq<u64>) -> bool {
    forall|i: int, j: int| 0 <= i < j < s.len() ==> comes_before(#[trigger] s[i], #[trigger] s[j])
}

/// Are these the constants that do not cancel, in order?
pub open spec fn survivors(terms: Seq<(u64, bool)>, s: Seq<u64>) -> bool {
    ascending(s) && forall|c: u64| #[trigger] s.contains(c) == (net(terms, c) != 0)
}

/// `start` after `c` is added or subtracted `n` times.
pub open spec fn repeated<E: Fn(FloatRequest) -> FloatReply>(
    e: E,
    start: Option<u64>,
    c: u64,
    op: FloatBin,
    n: nat,
) -> Option<u64>
    decreases n,
{
    if n == 0 {
        start
    } else {
        match repeated(e, start, c, op, (n - 1) as nat) {
            Some(x) => bits_for(e, FloatRequest::Binary(op, x, c)),
            None => None,
        }
    }
}

/// What the first `n` constants add up to, from zero.
pub open spec fn total<E: Fn(FloatRequest) -> FloatReply>(
    e: E,
    terms: Seq<(u64, bool)>,
    s: Seq<u64>,
    n: nat,
) -> Option<u64>
    decreases n,
{
    if n == 0 {
        Some(0)
    } else {
        let count = net(terms, s[n - 1]);
        let before = total(e, terms, s, (n - 1) as nat);
        if count > 0 {
            repeated(e, before, s[n - 1], FloatBin::Add, count as nat)
        } else {
            repeated(e, before, s[n - 1], FloatBin::Sub, (-count) as nat)
        }
    }
}

/// What the constants add up to, rounded: those that cancel are left out, and
/// the others are added from the smallest magnitude on.
pub open spec fn combined<E: Fn(FloatRequest) -> FloatReply>(
    e: E,
    terms: Seq<(u64, bool)>,
    w: FloatWidth,
) -> Option<u64> {
    let s = choose|s: Seq<u64>| survivors(terms, s);
    match total(e, terms, s, s.len()) {
        Some(x) => rounded(e, x, w),
        None => None,
    }
}

/// Only one list holds given numbers in order.
proof fn lemma_survivors_unique(terms: Seq<(u64, bool)>, s: Seq<u64>, t: Seq<u64>)
    requires
        survivors(terms, s),
        survivors(terms, t),
    ensures
        s == t,
{
    assert forall|c: u64| s.contains(c) == t.contains(c) by {}
    lemma_ascending_unique(s, t);
}

proof fn lemma_ascending_unique(s: Seq<u64>, t: Seq<u64>)
    requires
        ascending(s),
        ascending(t),
        forall|c: u64| #[trigger] s.contains(c) == t.contains(c),
    ensures
        s == t,
    decreases s.len(),
{
    if s.len() == 0 {
        if t.len() > 0 {
            assert(s.contains(t[0]));
        }
        assert(s =~= t);
    } else {
        assert(s.contains(s[0]));
        let k = t.index_of(s[0]);
        assert(t[k] == s[0]);
        assert(s.contains(t[0]));
        let j = s.index_of(t[0]);
        assert(s[j] == t[0]);
        if k > 0 {
            assert(comes_before(t[0], t[k]));
            if j > 0 {
                assert(comes_before(s[0], s[j]));
            }
        }
        assert(s[0] == t[0]);
        let a = s.skip(1);
        let b = t.skip(1);
        assert(ascending(a)) by {
            assert forall|i: int, j: int| 0 <= i < j < a.len() implies comes_before(
                #[trigger] a[i],
                #[trigger] a[j],
            ) by {
                assert(comes_before(s[i + 1], s[j + 1]));
            }
        }
        assert(ascending(b)) by {
            assert forall|i: int, j: int| 0 <= i < j < b.len() implies comes_before(
                #[trigger] b[i],
                #[trigger] b[j],
            ) by {
                assert(comes_before(t[i + 1], t[j + 1]));
            }
        }
        assert forall|c: u64| #[trigger] a.contains(c) == b.contains(c) by {
            if a.contains(c) {
                let i = a.index_of(c);
                assert(s[i + 1] == c);
                assert(s.contains(c));
                assert(comes_before(s[0], s[i + 1]));
                let m = t.index_of(c);
                assert(t[m] == c);
                assert(b[m - 1] == c);
            }
            if b.contains(c) {
                let i = b.index_of(c);
                assert(t[i + 1] == c);
                assert(s.contains(c));
                assert(comes_before(t[0], t[i + 1]));
                let m = s.index_of(c);
                assert(s[m] == c);
                assert(a[m - 1] == c);
            }
        }
        lemma_ascending_unique(a, b);
        assert(s =~= seq![s[0]] + a);
        assert(t =~= seq![t[0]] + b);
    }
}

/// A sum, as the code holds it.
struct AddChain {
    base: Option<ValueId>,
    terms: Vec<(u64, bool)>,
    nodes: usize,
}

spec fn chain_is(c: AddChain, s: Sum) -> bool {
    &&& c.base == s.base
    &&& c.terms@ == s.terms
    &&& c.nodes == if s.nodes <= usize::MAX {
        s.nodes as int
    } else {
        usize::MAX as int
    }
}

fn count_nodes(a: usize, b: usize) -> (r: usize)
    ensures
        r == if a + b + 1 <= usize::MAX {
            a + b + 1
        } else {
            usize::MAX as int
        },
{
    if a < usize::MAX && b <= usize::MAX - 1 - a {
        a + b + 1
    } else {
        usize::MAX
    }
}

fn push_terms(out: &mut Vec<(u64, bool)>, terms: &Vec<(u64, bool)>, negate: bool)
    ensures
        final(out)@ == old(out)@ + if negate {
            negated(terms@)
        } else {
            terms@
        },
{
    let ghost add = if negate {
        negated(terms@)
    } else {
        terms@
    };
    let mut i: usize = 0;
    while i < terms.len()
        invariant
            i <= terms@.len(),
            add == (if negate {
                negated(terms@)
            } else {
                terms@
            }),
            out@ == old(out)@ + add.take(i as int),
        decreases terms@.len() - i,
    {
        let (c, negative) = terms[i];
        let ghost before = out@;
        out.push((c, negative != negate));
        proof {
            assert(out@ =~= old(out)@ + add.take(i + 1));
        }
        i = i + 1;
    }
    proof {
        assert(add.take(add.len() as int) =~= add);
    }
}

/// What an instruction is to a chain.
enum Link {
    Constant(u64, FloatWidth),
    Plus(ValueId, ValueId),
    Minus(ValueId, ValueId),
    Other,
}

fn link_of(kind: &InstKind) -> (r: Link)
    ensures
        match r {
            Link::Constant(b, w) => kind@.op == Op::ConstFloat(b, w),
            Link::Plus(x, y) => kind@.op is FAdd && kind@.args[0] == x && kind@.args[1] == y,
            Link::Minus(x, y) => kind@.op is FSub && kind@.args[0] == x && kind@.args[1] == y,
            Link::Other => !(kind@.op is ConstFloat) && !(kind@.op is FAdd) && !(kind@.op is FSub),
        },
{
    match kind {
        InstKind::ConstFloat(b, w) => Link::Constant(*b, *w),
        InstKind::FAdd(x, y) => Link::Plus(*x, *y),
        InstKind::FSub(x, y) => Link::Minus(*x, *y),
        InstKind::Call(callee, _) => match callee {
            FuncRef::Internal(_) => Link::Other,
            FuncRef::External(_) => Link::Other,
            FuncRef::Indirect(_) => Link::Other,
        },
        _ => Link::Other,
    }
}

fn is_float_type(ty: &IrType, w: FloatWidth) -> (r: bool)
    ensures
        r == (*ty == IrType::Float(w)),
{
    match ty {
        IrType::Float(x) => *x == w,
        _ => false,
    }
}

fn round_finite<E: Fn(FloatRequest) -> FloatReply>(e: &E, bits: u64, w: FloatWidth) -> (r: Option<
    u64,
>)
    requires
        is_evaluator(*e),
    ensures
        r == finite_rounded(*e, bits, w),
{
    match round_for_width(e, bits, w) {
        Some(x) => if finite(x) {
            Some(x)
        } else {
            None
        },
        None => None,
    }
}

fn const_float_of<E: Fn(FloatRequest) -> FloatReply>(
    e: &E,
    list: &Vec<&Inst>,
    v: ValueId,
    w: FloatWidth,
    Ghost(f): Ghost<FuncView>,
) -> (r: Option<u64>)
    requires
        is_evaluator(*e),
        refs_view(list@) == insts_of(f),
    ensures
        r == const_of(*e, f, v, w),
{
    match find_last(list, v) {
        Some(i) => match link_of(&i.kind) {
            Link::Constant(b, x) => if x == w {
                round_finite(e, b, w)
            } else {
                None
            },
            _ => None,
        },
        None => None,
    }
}

fn collect_chain<E: Fn(FloatRequest) -> FloatReply>(
    e: &E,
    list: &Vec<&Inst>,
    v: ValueId,
    w: FloatWidth,
    fuel: usize,
    Ghost(f): Ghost<FuncView>,
) -> (r: Option<AddChain>)
    requires
        is_evaluator(*e),
        refs_view(list@) == insts_of(f),
    ensures
        match r {
            Some(c) => sum_at(*e, f, v, w, fuel as nat) matches Some(s) && chain_is(c, s),
            None => sum_at(*e, f, v, w, fuel as nat) is None,
        },
    decreases fuel,
{
    if fuel == 0 {
        return None;
    }
    match const_float_of(e, list, v, w, Ghost(f)) {
        Some(c) => {
            let mut terms: Vec<(u64, bool)> = Vec::new();
            terms.push((c, false));
            proof {
                assert(terms@ =~= seq![(c, false)]);
            }
            return Some(AddChain { base: None, terms, nodes: 0 });
        },
        None => {},
    }
    let leaf = AddChain { base: Some(v), terms: Vec::new(), nodes: 0 };
    proof {
        assert(leaf.terms@ =~= Seq::<(u64, bool)>::empty());
    }
    match find_last(list, v) {
        Some(i) => {
            if !is_float_type(&i.ty, w) {
                return Some(leaf);
            }
            match link_of(&i.kind) {
                Link::Plus(x, y) => {
                    let a = collect_chain(e, list, x, w, fuel - 1, Ghost(f));
                    let b = collect_chain(e, list, y, w, fuel - 1, Ghost(f));
                    match (a, b) {
                        (Some(a), Some(b)) => {
                            let base = match (a.base, b.base) {
                                (Some(_), Some(_)) => {
                                    return None;
                                },
                                (Some(v), None) => Some(v),
                                (None, v) => v,
                            };
                            let mut terms = a.terms;
                            push_terms(&mut terms, &b.terms, false);
                            Some(AddChain { base, terms, nodes: count_nodes(a.nodes, b.nodes) })
                        },
                        _ => None,
                    }
                },
                Link::Minus(x, y) => {
                    let a = collect_chain(e, list, x, w, fuel - 1, Ghost(f));
                    let b = collect_chain(e, list, y, w, fuel - 1, Ghost(f));
                    match (a, b) {
                        (Some(a), Some(b)) => {
                            if b.base.is_some() {
                                return None;
                            }
                            let mut terms = a.terms;
                            push_terms(&mut terms, &b.terms, true);
                            Some(
                                AddChain {
                                    base: a.base,
                                    terms,
                                    nodes: count_nodes(a.nodes, b.nodes),
                                },
                            )
                        },
                        _ => None,
                    }
                },
                _ => Some(leaf),
            }
        },
        None => Some(leaf),
    }
}

fn net_count(terms: &Vec<(u64, bool)>, c: u64) -> (r: i128)
    ensures
        r == net(terms@, c),
        r > i128::MIN,
{
    let mut n: i128 = 0;
    let mut i: usize = 0;
    while i < terms.len()
        invariant
            i <= terms@.len(),
            n == net(terms@.take(i as int), c),
            -(i as int) <= n <= i,
        decreases terms@.len() - i,
    {
        proof {
            assert(terms@.take(i + 1).drop_last() =~= terms@.take(i as int));
            assert(terms@.take(i + 1).last() == terms@[i as int]);
        }
        let (d, negative) = terms[i];
        if d == c {
            if negative {
                n = n - 1;
            } else {
                n = n + 1;
            }
        }
        i = i + 1;
    }
    proof {
        assert(terms@.take(terms@.len() as int) =~= terms@);
    }
    n
}

proof fn lemma_net_member(terms: Seq<(u64, bool)>, c: u64)
    requires
        forall|i: int| 0 <= i < terms.len() ==> (#[trigger] terms[i]).0 != c,
    ensures
        net(terms, c) == 0,
    decreases terms.len(),
{
    if terms.len() > 0 {
        assert(terms.last() == terms[terms.len() - 1]);
        lemma_net_member(terms.drop_last(), c);
    }
}

fn insert_in_order(s: &mut Vec<u64>, c: u64)
    requires
        ascending(old(s)@),
    ensures
        ascending(final(s)@),
        forall|x: u64| #[trigger] final(s)@.contains(x) == (old(s)@.contains(x) || x == c),
{
    let ghost before = s@;
    let mut i: usize = 0;
    while i < s.len() && precedes(s[i], c)
        invariant
            i <= s@.len(),
            s@ == before,
            forall|k: int| 0 <= k < i ==> comes_before(#[trigger] s@[k], c),
        decreases s@.len() - i,
    {
        i = i + 1;
    }
    if i < s.len() && s[i] == c {
        proof {
            assert(before[i as int] == c);
        }
        return;
    }
    proof {
        lemma_insert(before, i as int, c);
    }
    s.insert(i, c);
}

/// A number put where it belongs keeps the order.
proof fn lemma_insert(s: Seq<u64>, i: int, c: u64)
    requires
        ascending(s),
        0 <= i <= s.len(),
        forall|k: int| 0 <= k < i ==> comes_before(#[trigger] s[k], c),
        i < s.len() ==> s[i] != c && !comes_before(s[i], c),
    ensures
        ascending(s.insert(i, c)),
        forall|x: u64| #[trigger] s.insert(i, c).contains(x) == (s.contains(x) || x == c),
{
    let t = s.insert(i, c);
    assert forall|a: int, b: int| 0 <= a < b < t.len() implies comes_before(
        #[trigger] t[a],
        #[trigger] t[b],
    ) by {
        if a < i && b == i {
            assert(comes_before(s[a], c));
        } else if a == i {
            assert(t[b] == s[b - 1]);
            if b - 1 > i {
                assert(comes_before(s[i], s[b - 1]));
            }
            lemma_order_total(s[i], c);
        } else if a < i && b > i {
            assert(comes_before(s[a], s[b - 1]));
        } else if a > i {
            assert(comes_before(s[a - 1], s[b - 1]));
        } else {
            assert(comes_before(s[a], s[b]));
        }
    }
    assert forall|x: u64| #[trigger] t.contains(x) == (s.contains(x) || x == c) by {
        if t.contains(x) && x != c {
            let k = t.index_of(x);
            if k < i {
                assert(s[k] == x);
            } else {
                assert(s[k - 1] == x);
            }
        }
        if s.contains(x) {
            let k = s.index_of(x);
            if k < i {
                assert(t[k] == x);
            } else {
                assert(t[k + 1] == x);
            }
        }
        if x == c {
            assert(t[i] == c);
        }
    }
}

/// Where a number belongs.
proof fn lemma_place(s: Seq<u64>, c: u64, n: nat) -> (i: int)
    requires
        n <= s.len(),
        forall|k: int| 0 <= k < n ==> comes_before(#[trigger] s[k], c),
    ensures
        0 <= i <= s.len(),
        forall|k: int| 0 <= k < i ==> comes_before(#[trigger] s[k], c),
        i < s.len() ==> !comes_before(s[i], c),
    decreases s.len() - n,
{
    if n < s.len() && comes_before(s[n as int], c) {
        lemma_place(s, c, n + 1)
    } else {
        n as int
    }
}

/// The constants that do not cancel can be put in order.
pub proof fn lemma_survivors_exist(terms: Seq<(u64, bool)>, n: nat) -> (s: Seq<u64>)
    requires
        n <= terms.len(),
    ensures
        ascending(s),
        forall|c: u64| #[trigger] s.contains(c) ==> net(terms, c) != 0,
        forall|k: int|
            0 <= k < n && net(terms, (#[trigger] terms[k]).0) != 0 ==> s.contains(terms[k].0),
        n == terms.len() ==> survivors(terms, s),
    decreases n,
{
    let s = if n == 0 {
        Seq::empty()
    } else {
        let before = lemma_survivors_exist(terms, (n - 1) as nat);
        let c = terms[n - 1].0;
        if net(terms, c) != 0 && !before.contains(c) {
            let i = lemma_place(before, c, 0);
            lemma_insert(before, i, c);
            before.insert(i, c)
        } else {
            before
        }
    };
    if n == terms.len() {
        assert forall|c: u64| #[trigger] s.contains(c) == (net(terms, c) != 0) by {
            if net(terms, c) != 0 && !s.contains(c) {
                lemma_net_member(terms, c);
            }
        }
    }
    s
}

proof fn lemma_order_total(a: u64, b: u64)
    ensures
        comes_before(a, b) || comes_before(b, a) || a == b,
{
}

fn surviving_constants(terms: &Vec<(u64, bool)>) -> (r: Vec<u64>)
    ensures
        survivors(terms@, r@),
{
    let mut out: Vec<u64> = Vec::new();
    let mut i: usize = 0;
    while i < terms.len()
        invariant
            i <= terms@.len(),
            ascending(out@),
            forall|c: u64| #[trigger] out@.contains(c) ==> net(terms@, c) != 0,
            forall|k: int|
                0 <= k < i && net(terms@, (#[trigger] terms@[k]).0) != 0 ==> out@.contains(
                    terms@[k].0,
                ),
        decreases terms@.len() - i,
    {
        let (c, negative) = terms[i];
        if net_count(terms, c) != 0 {
            insert_in_order(&mut out, c);
        }
        i = i + 1;
    }
    proof {
        assert forall|c: u64| #[trigger] out@.contains(c) == (net(terms@, c) != 0) by {
            if net(terms@, c) != 0 && !out@.contains(c) {
                lemma_net_member(terms@, c);
            }
        }
    }
    out
}

fn add_repeatedly<E: Fn(FloatRequest) -> FloatReply>(
    e: &E,
    start: u64,
    c: u64,
    op: FloatBin,
    n: u128,
) -> (r: Option<u64>)
    requires
        is_evaluator(*e),
    ensures
        r == repeated(*e, Some(start), c, op, n as nat),
{
    let mut x: u64 = start;
    let mut i: u128 = 0;
    while i < n
        invariant
            i <= n,
            is_evaluator(*e),
            Some(x) == repeated(*e, Some(start), c, op, i as nat),
        decreases n - i,
    {
        match ask_bits(e, FloatRequest::Binary(op, x, c)) {
            Some(y) => {
                x = y;
            },
            None => {
                proof {
                    lemma_repeated_none(*e, Some(start), c, op, (i + 1) as nat, n as nat);
                }
                return None;
            },
        }
        i = i + 1;
    }
    Some(x)
}

proof fn lemma_repeated_none<E: Fn(FloatRequest) -> FloatReply>(
    e: E,
    start: Option<u64>,
    c: u64,
    op: FloatBin,
    m: nat,
    n: nat,
)
    requires
        m <= n,
        repeated(e, start, c, op, m) is None,
    ensures
        repeated(e, start, c, op, n) is None,
    decreases n,
{
    if m < n {
        lemma_repeated_none(e, start, c, op, m, (n - 1) as nat);
    }
}

proof fn lemma_total_none<E: Fn(FloatRequest) -> FloatReply>(
    e: E,
    terms: Seq<(u64, bool)>,
    s: Seq<u64>,
    m: nat,
    n: nat,
)
    requires
        m <= n,
        total(e, terms, s, m) is None,
    ensures
        total(e, terms, s, n) is None,
    decreases n,
{
    if m < n {
        lemma_total_none(e, terms, s, m, (n - 1) as nat);
        let count = net(terms, s[n - 1]);
        if count > 0 {
            lemma_repeated_none(e, None, s[n - 1], FloatBin::Add, 0, count as nat);
        } else {
            lemma_repeated_none(e, None, s[n - 1], FloatBin::Sub, 0, (-count) as nat);
        }
    }
}

/// What the constants add up to, rounded.
fn combine_terms<E: Fn(FloatRequest) -> FloatReply>(
    e: &E,
    terms: &Vec<(u64, bool)>,
    w: FloatWidth,
) -> (r: Option<u64>)
    requires
        is_evaluator(*e),
    ensures
        r == combined(*e, terms@, w),
{
    let s = surviving_constants(terms);
    proof {
        let t = choose|t: Seq<u64>| survivors(terms@, t);
        assert(survivors(terms@, s@));
        lemma_survivors_unique(terms@, s@, t);
    }
    let mut sum: u64 = 0;
    let mut i: usize = 0;
    while i < s.len()
        invariant
            i <= s@.len(),
            s@ == (choose|t: Seq<u64>| survivors(terms@, t)),
            is_evaluator(*e),
            Some(sum) == total(*e, terms@, s@, i as nat),
        decreases s@.len() - i,
    {
        let count: i128 = net_count(terms, s[i]);
        let next = if count > 0 {
            add_repeatedly(e, sum, s[i], FloatBin::Add, count as u128)
        } else {
            add_repeatedly(e, sum, s[i], FloatBin::Sub, (-count) as u128)
        };
        match next {
            Some(x) => {
                sum = x;
            },
            None => {
                proof {
                    lemma_total_none(*e, terms@, s@, (i + 1) as nat, s@.len());
                }
                return None;
            },
        }
        i = i + 1;
    }
    round_for_width(e, sum, w)
}


/// What becomes of an instruction.
#[derive(Debug, Clone, Copy, PartialEq, Eq, Structural)]
pub enum Verdict {
    /// It stays.
    Keep,
    /// It is the same as a value.
    Same(ValueId),
    /// It is a value plus a constant.
    Plus(ValueId, u64, FloatWidth),
}

/// Is an instruction the addition of a constant to `base` already?
pub open spec fn is_canonical<E: Fn(FloatRequest) -> FloatReply>(
    e: E,
    f: FuncView,
    i: InstView,
    base: ValueId,
    c: u64,
    w: FloatWidth,
) -> bool {
    i.kind.op is FAdd && i.kind.args[0] == base && const_of(e, f, i.kind.args[1], w) == Some(c)
}

/// What becomes of an instruction that adds or subtracts.
pub open spec fn sum_verdict<E: Fn(FloatRequest) -> FloatReply>(
    e: E,
    f: FuncView,
    i: InstView,
    w: FloatWidth,
) -> Verdict {
    match sum_of(e, f, i.id, w) {
        Some(s) => match (s.base, combined(e, s.terms, w)) {
            (Some(base), Some(x)) => if s.nodes <= 1 {
                Verdict::Keep
            } else if is_zero(x) {
                Verdict::Same(base)
            } else {
                match finite_rounded(e, x, w) {
                    Some(c) => if is_canonical(e, f, i, base, c, w) {
                        Verdict::Keep
                    } else {
                        Verdict::Plus(base, c, w)
                    },
                    None => Verdict::Keep,
                }
            },
            _ => Verdict::Keep,
        },
        None => Verdict::Keep,
    }
}

/// What becomes of an instruction.
#[verifier::opaque]
pub open spec fn verdict<E: Fn(FloatRequest) -> FloatReply>(e: E, f: FuncView, i: InstView) -> Verdict {
    match i.ty {
        IrType::Float(w) => if i.kind.op is FAdd || i.kind.op is FSub {
            sum_verdict(e, f, i, w)
        } else {
            Verdict::Keep
        },
        _ => Verdict::Keep,
    }
}

/// A change of an instruction to the sum of a value and a constant.
#[derive(Debug, Clone, Copy)]
pub struct RewritePlan {
    pub inst: ValueId,
    pub block: BlockId,
    pub base: ValueId,
    pub constant: u64,
    pub width: FloatWidth,
    pub span: Span,
}

/// The changes among the first `n` instructions of a block.
pub open spec fn block_plans<E: Fn(FloatRequest) -> FloatReply>(
    e: E,
    f: FuncView,
    b: BlockView,
    n: nat,
) -> Seq<RewritePlan>
    decreases n,
{
    if n == 0 {
        Seq::empty()
    } else {
        let i = b.insts[n - 1];
        let before = block_plans(e, f, b, (n - 1) as nat);
        match verdict(e, f, i) {
            Verdict::Plus(base, constant, width) => before.push(
                RewritePlan { inst: i.id, block: b.id, base, constant, width, span: i.span },
            ),
            _ => before,
        }
    }
}

/// The changes in the first `n` blocks.
pub open spec fn plans_upto<E: Fn(FloatRequest) -> FloatReply>(e: E, f: FuncView, n: nat) -> Seq<
    RewritePlan,
>
    decreases n,
{
    if n == 0 {
        Seq::empty()
    } else {
        plans_upto(e, f, (n - 1) as nat) + block_plans(
            e,
            f,
            f.blocks[n - 1],
            f.blocks[n - 1].insts.len(),
        )
    }
}

/// The values among the first `n` instructions that are the same as another.
pub open spec fn same_upto<E: Fn(FloatRequest) -> FloatReply>(
    e: E,
    f: FuncView,
    s: Seq<InstView>,
    n: nat,
) -> Map<ValueId, ValueId>
    decreases n,
{
    if n == 0 {
        Map::empty()
    } else {
        let before = same_upto(e, f, s, (n - 1) as nat);
        match verdict(e, f, s[n - 1]) {
            Verdict::Same(base) => before.insert(s[n - 1].id, base),
            _ => before,
        }
    }
}

/// The constants that were put into the entry block, newest last.
pub open spec fn known(cache: Seq<(FloatWidth, u64, ValueId)>, w: FloatWidth, c: u64) -> Option<
    ValueId,
>
    decreases cache.len(),
{
    if cache.len() == 0 {
        None
    } else {
        let (x, d, id) = cache.last();
        if x == w && d == c {
            Some(id)
        } else {
            known(cache.drop_last(), w, c)
        }
    }
}

/// A function, and the constants that were put into its entry block.
pub struct Progress {
    pub f: FuncView,
    pub cache: Seq<(FloatWidth, u64, ValueId)>,
}

/// A function with a constant in front of its entry block, unless it has it.
pub open spec fn with_const(p: Progress, w: FloatWidth, c: u64, span: Span) -> Progress {
    if known(p.cache, w, c) is Some {
        p
    } else {
        let at = block_pos(p.f.blocks, p.f.entry);
        let b = p.f.blocks[at];
        let id = ValueId(p.f.next_value);
        let def = InstView {
            id,
            kind: KindView { op: Op::ConstFloat(c, w), args: Seq::empty() },
            ty: IrType::Float(w),
            span,
        };
        Progress {
            f: FuncView {
                next_value: (p.f.next_value + 1) as u32,
                type_cache: p.f.type_cache.insert(id, IrType::Float(w)),
                blocks: p.f.blocks.update(at, BlockView { insts: b.insts.insert(0, def), ..b }),
                ..p.f
            },
            cache: p.cache.push((w, c, id)),
        }
    }
}

/// Is instruction `k` the first that defines `v`?
pub open spec fn defines_first(s: Seq<InstView>, v: ValueId, k: int) -> bool {
    0 <= k < s.len() && s[k].id == v && forall|j: int| 0 <= j < k ==> (#[trigger] s[j]).id != v
}

/// Instructions with the first that defines `v` made the sum of `base` and `c`.
pub open spec fn with_sum(s: Seq<InstView>, v: ValueId, base: ValueId, c: ValueId) -> Seq<InstView> {
    if exists|k: int| defines_first(s, v, k) {
        let k = choose|k: int| defines_first(s, v, k);
        s.update(k, InstView { kind: KindView { op: Op::FAdd, args: seq![base, c] }, ..s[k] })
    } else {
        s
    }
}

/// A function after one change.
pub open spec fn with_plan(p: Progress, plan: RewritePlan) -> Progress {
    let q = with_const(p, plan.width, plan.constant, plan.span);
    let c = known(q.cache, plan.width, plan.constant)->0;
    let at = block_pos(q.f.blocks, plan.block);
    let b = q.f.blocks[at];
    Progress {
        f: FuncView {
            blocks: q.f.blocks.update(
                at,
                BlockView { insts: with_sum(b.insts, plan.inst, plan.base, c), ..b },
            ),
            ..q.f
        },
        cache: q.cache,
    }
}

/// A function after the first `n` changes.
pub open spec fn with_plans(f: FuncView, plans: Seq<RewritePlan>, n: nat) -> Progress
    decreases n,
{
    if n == 0 {
        Progress { f, cache: Seq::empty() }
    } else {
        with_plan(with_plans(f, plans, (n - 1) as nat), plans[n - 1])
    }
}

/// Where `v` leads after at most `fuel` steps.
pub open spec fn settled(m: Map<ValueId, ValueId>, v: ValueId, fuel: nat) -> ValueId
    decreases fuel,
{
    if fuel == 0 || !m.contains_key(v) || m[v] == v {
        v
    } else {
        settled(m, m[v], (fuel - 1) as nat)
    }
}

/// The map that leads each value to where it leads in the end.
pub open spec fn settled_map(m: Map<ValueId, ValueId>) -> Map<ValueId, ValueId> {
    Map::new(|v: ValueId| m.contains_key(v), |v: ValueId| settled(m, m[v], m.dom().len() + 1))
}

/// A function with its sums reassociated.
pub open spec fn reassociated<E: Fn(FloatRequest) -> FloatReply>(e: E, f: FuncView) -> FuncView {
    let plans = plans_upto(e, f, f.blocks.len());
    let same = same_upto(e, f, insts_of(f), insts_of(f).len());
    let g = with_plans(f, plans, plans.len()).f;
    if same == Map::<ValueId, ValueId>::empty() {
        g
    } else {
        func_without(renamed_func(g, settled_map(same)), same.dom())
    }
}

/// Does any instruction change?
pub open spec fn changes<E: Fn(FloatRequest) -> FloatReply>(e: E, f: FuncView) -> bool {
    exists|k: int|
        0 <= k < insts_of(f).len() && verdict(e, f, #[trigger] insts_of(f)[k]) != Verdict::Keep
}

fn is_sum(kind: &InstKind) -> (r: bool)
    ensures
        r == (kind@.op is FAdd || kind@.op is FSub),
{
    match link_of(kind) {
        Link::Plus(_, _) => true,
        Link::Minus(_, _) => true,
        _ => false,
    }
}

fn already_canonical<E: Fn(FloatRequest) -> FloatReply>(
    e: &E,
    list: &Vec<&Inst>,
    inst: &Inst,
    base: ValueId,
    c: u64,
    w: FloatWidth,
    Ghost(f): Ghost<FuncView>,
) -> (r: bool)
    requires
        is_evaluator(*e),
        refs_view(list@) == insts_of(f),
    ensures
        r == is_canonical(*e, f, inst@, base, c, w),
{
    match link_of(&inst.kind) {
        Link::Plus(x, y) => same_id(x, base) && match const_float_of(e, list, y, w, Ghost(f)) {
            Some(d) => d == c,
            None => false,
        },
        _ => false,
    }
}

fn decide<E: Fn(FloatRequest) -> FloatReply>(
    e: &E,
    list: &Vec<&Inst>,
    inst: &Inst,
    fuel: usize,
    Ghost(f): Ghost<FuncView>,
) -> (r: Verdict)
    requires
        is_evaluator(*e),
        refs_view(list@) == insts_of(f),
        fuel == insts_of(f).len() + 1,
    ensures
        r == verdict(*e, f, inst@),
{
    proof {
        reveal(verdict);
    }
    let w = match &inst.ty {
        IrType::Float(w) => *w,
        _ => {
            return Verdict::Keep;
        },
    };
    if !is_sum(&inst.kind) {
        return Verdict::Keep;
    }
    let chain = match collect_chain(e, list, inst.id, w, fuel, Ghost(f)) {
        Some(c) => c,
        None => {
            return Verdict::Keep;
        },
    };
    if chain.nodes <= 1 {
        return Verdict::Keep;
    }
    let base = match chain.base {
        Some(b) => b,
        None => {
            return Verdict::Keep;
        },
    };
    match combine_terms(e, &chain.terms, w) {
        Some(x) => if zero(x) {
            Verdict::Same(base)
        } else {
            match round_finite(e, x, w) {
                Some(c) => if already_canonical(e, list, inst, base, c, w, Ghost(f)) {
                    Verdict::Keep
                } else {
                    Verdict::Plus(base, c, w)
                },
                None => Verdict::Keep,
            }
        },
        None => Verdict::Keep,
    }
}

fn find_known(cache: &Vec<(FloatWidth, u64, ValueId)>, w: FloatWidth, c: u64) -> (r: Option<ValueId>)
    ensures
        r == known(cache@, w, c),
{
    let mut i: usize = cache.len();
    proof {
        assert(cache@.take(i as int) =~= cache@);
    }
    while i > 0
        invariant
            i <= cache@.len(),
            known(cache@, w, c) == known(cache@.take(i as int), w, c),
        decreases i,
    {
        i = i - 1;
        proof {
            assert(cache@.take(i + 1).drop_last() =~= cache@.take(i as int));
            assert(cache@.take(i + 1).last() == cache@[i as int]);
        }
        let (x, d, id) = cache[i];
        if x == w && d == c {
            return Some(id);
        }
    }
    None
}

fn ensure_const_in_entry(
    func: &mut Function,
    cache: &mut Vec<(FloatWidth, u64, ValueId)>,
    w: FloatWidth,
    c: u64,
    span: Span,
) -> (r: ValueId)
    requires
        has_block(old(func)@.blocks, old(func)@.entry),
        old(func)@.next_value < u32::MAX,
    ensures
        ({
            let q = with_const(Progress { f: old(func)@, cache: old(cache)@ }, w, c, span);
            &&& final(func)@ == q.f
            &&& final(cache)@ == q.cache
            &&& known(q.cache, w, c) == Some(r)
        }),
{
    let ghost f = func@;
    match find_known(cache, w, c) {
        Some(id) => {
            return id;
        },
        None => {},
    }
    let ghost at = block_pos(f.blocks, f.entry);
    proof {
        lemma_block_pos(f.blocks, f.entry);
        assert(f.blocks[at] == func.blocks@[at]@);
    }
    let id = func.next_value_id();
    func.register_type(id, IrType::Float(w));
    let inst = Inst { id, kind: InstKind::ConstFloat(c, w), ty: IrType::Float(w), span };
    let entry = func.entry;
    let block = func.block_mut(entry);
    let ghost b = *block;
    block.insts.insert(0, inst);
    proof {
        assert(insts_view(block.insts@) =~= insts_view(b.insts@).insert(0, inst@));
    }
    cache.push((w, c, id));
    proof {
        assert(cache@.last() == (w, c, id));
    }
    id
}

fn set_sum(block: &mut BasicBlock, v: ValueId, base: ValueId, c: ValueId)
    ensures
        final(block)@ == (BlockView {
            insts: with_sum(old(block)@.insts, v, base, c),
            ..old(block)@
        }),
{
    let ghost b = block@;
    let mut i: usize = 0;
    while i < block.insts.len()
        invariant
            block@ == b,
            b == old(block)@,
            i <= b.insts.len(),
            forall|j: int| 0 <= j < i ==> (#[trigger] b.insts[j]).id != v,
        decreases b.insts.len() - i,
    {
        proof {
            assert(b.insts[i as int] == block.insts@[i as int]@);
        }
        if same_id(block.insts[i].id, v) {
            let ghost before = block.insts@;
            proof {
                assert(defines_first(b.insts, v, i as int));
                let k = choose|k: int| defines_first(b.insts, v, k);
                assert(defines_first(b.insts, v, k));
                assert(k == i) by {
                    if k < i {
                        assert(b.insts[k].id != v);
                    } else if k > i {
                        assert(b.insts[i as int].id != v);
                    }
                }
            }
            block.insts[i].kind = InstKind::FAdd(base, c);
            proof {
                assert(block.insts@[i as int].kind@.args =~= seq![base, c]);
                assert(block@.insts =~= with_sum(b.insts, v, base, c));
            }
            return;
        }
        i = i + 1;
    }
}

fn apply_plan(func: &mut Function, cache: &mut Vec<(FloatWidth, u64, ValueId)>, plan: RewritePlan)
    requires
        has_block(old(func)@.blocks, old(func)@.entry),
        has_block(old(func)@.blocks, plan.block),
        old(func)@.next_value < u32::MAX,
    ensures
        ({
            let q = with_plan(Progress { f: old(func)@, cache: old(cache)@ }, plan);
            &&& final(func)@ == q.f
            &&& final(cache)@ == q.cache
        }),
{
    proof {
        lemma_with_const(
            Progress { f: func@, cache: cache@ },
            plan.width,
            plan.constant,
            plan.span,
            plan.block,
        );
    }
    let c = ensure_const_in_entry(func, cache, plan.width, plan.constant, plan.span);
    let ghost f = func@;
    let ghost at = block_pos(f.blocks, plan.block);
    proof {
        lemma_block_pos(f.blocks, plan.block);
        assert(f.blocks[at] == func.blocks@[at]@);
    }
    let block = func.block_mut(plan.block);
    set_sum(block, plan.inst, plan.base, c);
}

/// A constant in front of the entry block changes no block's name.
proof fn lemma_with_const(p: Progress, w: FloatWidth, c: u64, span: Span, id: BlockId)
    requires
        has_block(p.f.blocks, p.f.entry),
    ensures
        has_block(with_const(p, w, c, span).f.blocks, id) == has_block(p.f.blocks, id),
        with_const(p, w, c, span).f.entry == p.f.entry,
        p.f.next_value < u32::MAX ==> p.f.next_value <= with_const(p, w, c, span).f.next_value
            <= p.f.next_value + 1,
{
    let q = with_const(p, w, c, span);
    lemma_block_pos(p.f.blocks, p.f.entry);
    assert(q.f.blocks.len() == p.f.blocks.len());
    assert(forall|i: int|
        0 <= i < p.f.blocks.len() ==> (#[trigger] q.f.blocks[i]).id == p.f.blocks[i].id);
    lemma_same_names(p.f.blocks, q.f.blocks, id);
}

proof fn lemma_same_names(s: Seq<BlockView>, t: Seq<BlockView>, id: BlockId)
    requires
        s.len() == t.len(),
        forall|i: int| 0 <= i < s.len() ==> (#[trigger] t[i]).id == s[i].id,
    ensures
        has_block(t, id) == has_block(s, id),
{
    if has_block(s, id) {
        lemma_block_pos(s, id);
        assert(t[block_pos(s, id)].id == id);
    }
    if has_block(t, id) {
        lemma_block_pos(t, id);
        assert(s[block_pos(t, id)].id == id);
    }
}

/// A change keeps the names of the blocks, and takes at most one new value.
proof fn lemma_with_plan(p: Progress, plan: RewritePlan, id: BlockId)
    requires
        has_block(p.f.blocks, p.f.entry),
        has_block(p.f.blocks, plan.block),
        p.f.next_value < u32::MAX,
    ensures
        has_block(with_plan(p, plan).f.blocks, id) == has_block(p.f.blocks, id),
        with_plan(p, plan).f.entry == p.f.entry,
        with_plan(p, plan).f.next_value <= p.f.next_value + 1,
{
    let q = with_const(p, plan.width, plan.constant, plan.span);
    lemma_with_const(p, plan.width, plan.constant, plan.span, plan.block);
    lemma_with_const(p, plan.width, plan.constant, plan.span, id);
    lemma_block_pos(q.f.blocks, plan.block);
    let r = with_plan(p, plan);
    assert(forall|i: int|
        0 <= i < q.f.blocks.len() ==> (#[trigger] r.f.blocks[i]).id == q.f.blocks[i].id);
    lemma_same_names(q.f.blocks, r.f.blocks, id);
}


fn decide_all<E: Fn(FloatRequest) -> FloatReply>(e: &E, func: &Function) -> (r: Vec<Verdict>)
    requires
        is_evaluator(*e),
        insts_of(func@).len() < usize::MAX,
    ensures
        r@.len() == insts_of(func@).len(),
        forall|k: int| 0 <= k < r@.len() ==> #[trigger] r@[k] == verdict(*e, func@, insts_of(func@)[k]),
{
    let list = all_insts(func);
    let ghost f = func@;
    let fuel: usize = list.len() + 1;
    let mut out: Vec<Verdict> = Vec::new();
    let mut i: usize = 0;
    while i < list.len()
        invariant
            f == func@,
            is_evaluator(*e),
            refs_view(list@) == insts_of(f),
            fuel == insts_of(f).len() + 1,
            i <= list@.len(),
            out@.len() == i,
            forall|k: int| 0 <= k < i ==> #[trigger] out@[k] == verdict(*e, f, insts_of(f)[k]),
        decreases list@.len() - i,
    {
        proof {
            assert(insts_of(f)[i as int] == list@[i as int]@);
        }
        out.push(decide(e, &list, list[i], fuel, Ghost(f)));
        i = i + 1;
    }
    out
}

/// Each change is in a block of the function.
spec fn plans_fit(f: FuncView, plans: Seq<RewritePlan>) -> bool {
    forall|k: int| 0 <= k < plans.len() ==> has_block(f.blocks, (#[trigger] plans[k]).block)
}

fn push_block_plans<E: Fn(FloatRequest) -> FloatReply>(
    out: &mut Vec<RewritePlan>,
    block: &BasicBlock,
    verdicts: &Vec<Verdict>,
    start: usize,
    Ghost(e): Ghost<E>,
    Ghost(f): Ghost<FuncView>,
)
    requires
        start + block@.insts.len() <= verdicts@.len(),
        has_block(f.blocks, block.id),
        plans_fit(f, old(out)@),
        forall|k: int|
            0 <= k < block@.insts.len() ==> verdicts@[start + k] == verdict(
                e,
                f,
                #[trigger] block@.insts[k],
            ),
    ensures
        final(out)@ == old(out)@ + block_plans(e, f, block@, block@.insts.len()),
        plans_fit(f, final(out)@),
        final(out)@.len() <= old(out)@.len() + block@.insts.len(),
        final(out)@.len() > old(out)@.len() <==> exists|j: int|
            start <= j < start + block@.insts.len() && #[trigger] verdicts@[j] is Plus,
{
    let ghost done = out@;
    let ghost b = block@;
    let n: usize = verdicts.len();
    let mut k: usize = 0;
    proof {
        assert(out@ =~= done + block_plans(e, f, b, 0));
    }
    while k < block.insts.len()
        invariant
            b == block@,
            k <= block.insts@.len(),
            start + b.insts.len() <= verdicts@.len(),
            n == verdicts@.len(),
            has_block(f.blocks, block.id),
            forall|k: int|
                0 <= k < b.insts.len() ==> verdicts@[start + k] == verdict(
                    e,
                    f,
                    #[trigger] b.insts[k],
                ),
            out@ == done + block_plans(e, f, b, k as nat),
            out@.len() <= done.len() + k,
            plans_fit(f, out@),
            out@.len() > done.len() <==> exists|j: int|
                start <= j < start + k && #[trigger] verdicts@[j] is Plus,
        decreases block.insts@.len() - k,
    {
        proof {
            assert(b.insts[k as int] == block.insts@[k as int]@);
        }
        let inst = &block.insts[k];
        let verdict = verdicts[start + k];
        match verdict {
            Verdict::Plus(base, constant, width) => {
                out.push(
                    RewritePlan {
                        inst: inst.id,
                        block: block.id,
                        base,
                        constant,
                        width,
                        span: inst.span,
                    },
                );
                proof {
                    assert(verdicts@[start + k] is Plus);
                }
            },
            _ => {},
        }
        proof {
            assert(out@ =~= done + block_plans(e, f, b, (k + 1) as nat));
        }
        k = k + 1;
    }
}

fn list_plans<E: Fn(FloatRequest) -> FloatReply>(
    func: &Function,
    verdicts: &Vec<Verdict>,
    Ghost(e): Ghost<E>,
) -> (r: Vec<RewritePlan>)
    requires
        verdicts@.len() == insts_of(func@).len(),
        forall|k: int|
            0 <= k < verdicts@.len() ==> #[trigger] verdicts@[k] == verdict(
                e,
                func@,
                insts_of(func@)[k],
            ),
    ensures
        r@ == plans_upto(e, func@, func@.blocks.len()),
        plans_fit(func@, r@),
        r@.len() <= insts_of(func@).len(),
        r@.len() > 0 <==> exists|k: int|
            0 <= k < insts_of(func@).len() && #[trigger] verdicts@[k] is Plus,
{
    let ghost f = func@;
    let ghost s = insts_of(f);
    let mut out: Vec<RewritePlan> = Vec::new();
    let n: usize = verdicts.len();
    let mut at: usize = 0;
    let mut b: usize = 0;
    while b < func.blocks.len()
        invariant
            f == func@,
            s == insts_of(f),
            b <= func.blocks@.len(),
            verdicts@.len() == s.len(),
            n == verdicts@.len(),
            at == insts_upto(f.blocks, b as nat).len(),
            forall|k: int| 0 <= k < s.len() ==> #[trigger] verdicts@[k] == verdict(e, f, s[k]),
            out@ == plans_upto(e, f, b as nat),
            out@.len() <= at,
            at <= s.len(),
            plans_fit(f, out@),
            out@.len() > 0 <==> exists|k: int| 0 <= k < at && #[trigger] verdicts@[k] is Plus,
        decreases func.blocks@.len() - b,
    {
        let block = &func.blocks[b];
        proof {
            assert(f.blocks[b as int] == block@);
            assert(f.blocks[b as int].id == block.id);
            assert(has_block(f.blocks, block.id));
            lemma_insts_prefix(f.blocks, (b + 1) as nat, f.blocks.len());
            let upto = insts_upto(f.blocks, (b + 1) as nat);
            assert(upto == insts_upto(f.blocks, b as nat) + block@.insts);
            assert forall|k: int| 0 <= k < block@.insts.len() implies verdicts@[at + k] == verdict(
                e,
                f,
                #[trigger] block@.insts[k],
            ) by {
                assert(upto[at + k] == block@.insts[k]);
                assert(s[at + k] == upto[at + k]);
            }
        }
        push_block_plans::<E>(&mut out, block, verdicts, at, Ghost(e), Ghost(f));
        at = at + block.insts.len();
        b = b + 1;
    }
    out
}

fn list_same<E: Fn(FloatRequest) -> FloatReply>(
    func: &Function,
    verdicts: &Vec<Verdict>,
    Ghost(e): Ghost<E>,
) -> (r: IdMap<ValueId, ValueId>)
    requires
        verdicts@.len() == insts_of(func@).len(),
        forall|k: int|
            0 <= k < verdicts@.len() ==> #[trigger] verdicts@[k] == verdict(
                e,
                func@,
                insts_of(func@)[k],
            ),
    ensures
        r@ == same_upto(e, func@, insts_of(func@), insts_of(func@).len()),
        r@.dom().finite(),
        r@ != Map::<ValueId, ValueId>::empty() <==> exists|k: int|
            0 <= k < insts_of(func@).len() && #[trigger] verdicts@[k] is Same,
{
    let list = all_insts(func);
    let ghost f = func@;
    let ghost s = insts_of(f);
    let mut out: IdMap<ValueId, ValueId> = IdMap::new();
    let mut i: usize = 0;
    while i < list.len()
        invariant
            f == func@,
            s == insts_of(f),
            s == refs_view(list@),
            i <= list@.len(),
            verdicts@.len() == s.len(),
            forall|k: int| 0 <= k < s.len() ==> #[trigger] verdicts@[k] == verdict(e, f, s[k]),
            out@ == same_upto(e, f, s, i as nat),
            out@.dom().finite(),
            out@ != Map::<ValueId, ValueId>::empty() <==> exists|k: int|
                0 <= k < i && #[trigger] verdicts@[k] is Same,
        decreases list@.len() - i,
    {
        proof {
            assert(s[i as int] == list@[i as int]@);
        }
        match verdicts[i] {
            Verdict::Same(base) => {
                out.insert(list[i].id, base);
                proof {
                    assert(out@.contains_key(list@[i as int].id));
                    assert(verdicts@[i as int] is Same);
                }
            },
            _ => {},
        }
        i = i + 1;
    }
    out
}

fn settle_all(m: &IdMap<ValueId, ValueId>) -> (r: IdMap<ValueId, ValueId>)
    ensures
        r@ == settled_map(m@),
{
    let keys = m.keys();
    let ghost g = m@;
    let n: usize = m.len();
    let mut out: IdMap<ValueId, ValueId> = IdMap::new();
    let mut i: usize = 0;
    while i < keys.len()
        invariant
            g == m@,
            i <= keys@.len(),
            n == g.dom().len(),
            forall|v: ValueId| #[trigger] keys@.contains(v) == g.contains_key(v),
            forall|v: ValueId| #[trigger]
                out@.contains_key(v) == exists|k: int| 0 <= k < i && #[trigger] keys@[k] == v,
            forall|v: ValueId| #[trigger]
                out@.contains_key(v) ==> g.contains_key(v) && out@[v] == settled(g, g[v], (n + 1) as nat),
        decreases keys@.len() - i,
    {
        let key = keys[i];
        proof {
            assert(keys@.contains(key));
        }
        match m.get(&key) {
            Some(first) => {
                let mut cur: ValueId = *first;
                let mut hops: u128 = 0;
                let mut open: bool = true;
                while open
                    invariant
                        g == m@,
                        g.contains_key(key),
                        hops <= n + 1,
                        open ==> settled(g, g[key], (n + 1) as nat) == settled(
                            g,
                            cur,
                            (n + 1 - hops) as nat,
                        ),
                        !open ==> settled(g, g[key], (n + 1) as nat) == cur,
                    decreases n + 1 - hops, open as int,
                {
                    if hops > n as u128 {
                        open = false;
                    } else {
                        match m.get(&cur) {
                            Some(next) => {
                                if same_id(*next, cur) {
                                    open = false;
                                } else {
                                    cur = *next;
                                    hops = hops + 1;
                                }
                            },
                            None => {
                                open = false;
                            },
                        }
                    }
                }
                let ghost before = out@;
                out.insert(key, cur);
                proof {
                    assert forall|v: ValueId| #[trigger] out@.contains_key(v) == exists|k: int|
                        0 <= k < i + 1 && #[trigger] keys@[k] == v by {
                        assert(before.contains_key(v) == exists|k: int|
                            0 <= k < i && #[trigger] keys@[k] == v);
                        assert(keys@[i as int] == key);
                    }
                }
            },
            None => {},
        }
        i = i + 1;
    }
    proof {
        assert forall|v: ValueId| #[trigger] out@.contains_key(v) == g.contains_key(v) by {
            if g.contains_key(v) {
                assert(keys@.contains(v));
                let k = keys@.index_of(v);
                assert(keys@[k] == v);
            }
        }
        assert(out@ =~= settled_map(g));
    }
    out
}


/// Can the instructions of a function be counted, and has it, where constants are
/// to be put into it, an entry block and names for them?
pub open spec fn can_rewrite<E: Fn(FloatRequest) -> FloatReply>(e: E, f: FuncView) -> bool {
    let n = plans_upto(e, f, f.blocks.len()).len();
    &&& insts_of(f).len() < usize::MAX
    &&& n > 0 ==> has_block(f.blocks, f.entry) && f.next_value + n < u32::MAX
}

fn apply_plans(func: &mut Function, plans: &Vec<RewritePlan>)
    requires
        plans@.len() > 0 ==> has_block(old(func)@.blocks, old(func)@.entry) && old(
            func,
        )@.next_value + plans@.len() < u32::MAX,
        plans_fit(old(func)@, plans@),
    ensures
        final(func)@ == with_plans(old(func)@, plans@, plans@.len()).f,
{
    let ghost f = func@;
    let mut cache: Vec<(FloatWidth, u64, ValueId)> = Vec::new();
    let mut i: usize = 0;
    proof {
        assert(cache@ =~= Seq::<(FloatWidth, u64, ValueId)>::empty());
    }
    while i < plans.len()
        invariant
            i <= plans@.len(),
            plans@.len() > 0 ==> has_block(f.blocks, f.entry) && f.next_value + plans@.len()
                < u32::MAX,
            plans_fit(f, plans@),
            func@ == with_plans(f, plans@, i as nat).f,
            cache@ == with_plans(f, plans@, i as nat).cache,
            func@.next_value <= f.next_value + i,
            func@.entry == f.entry,
            forall|id: BlockId| #[trigger] has_block(func@.blocks, id) == has_block(f.blocks, id),
        decreases plans@.len() - i,
    {
        let plan = plans[i];
        let ghost before = Progress { f: func@, cache: cache@ };
        proof {
            assert(has_block(f.blocks, plans@[i as int].block));
            assert(before == with_plans(f, plans@, i as nat));
            assert(has_block(func@.blocks, f.entry));
            assert(has_block(func@.blocks, plan.block));
            assert forall|id: BlockId| #[trigger] has_block(with_plan(before, plan).f.blocks, id)
                == has_block(f.blocks, id) by {
                lemma_with_plan(before, plan, id);
                assert(has_block(before.f.blocks, id) == has_block(f.blocks, id));
            }
            lemma_with_plan(before, plan, f.entry);
        }
        apply_plan(func, &mut cache, plan);
        i = i + 1;
    }
}

fn drop_same(func: &mut Function, same: &IdMap<ValueId, ValueId>)
    ensures
        final(func)@ == (if same@ == Map::<ValueId, ValueId>::empty() {
            old(func)@
        } else {
            func_without(renamed_func(old(func)@, settled_map(same@)), same@.dom())
        }),
{
    if !same.is_empty() {
        let moves = settle_all(same);
        substitute_uses_batch(func, &moves);
        let gone = IdSet::from_list(same.keys());
        remove_insts(func, &gone);
    }
}

fn rewrite_function<E: Fn(FloatRequest) -> FloatReply>(e: &E, func: &mut Function) -> (changed: bool)
    requires
        is_evaluator(*e),
        can_rewrite(*e, old(func)@),
    ensures
        final(func)@ == reassociated(*e, old(func)@),
        changed == changes(*e, old(func)@),
{
    let ghost f = func@;
    let verdicts = decide_all(e, func);
    let plans = list_plans::<E>(func, &verdicts, Ghost(*e));
    let same = list_same::<E>(func, &verdicts, Ghost(*e));
    let changed = plans.len() > 0 || !same.is_empty();
    proof {
        lemma_changes(*e, f, verdicts@);
    }
    apply_plans(func, &plans);
    drop_same(func, &same);
    changed
}

proof fn lemma_changes<E: Fn(FloatRequest) -> FloatReply>(e: E, f: FuncView, verdicts: Seq<Verdict>)
    requires
        verdicts.len() == insts_of(f).len(),
        forall|k: int|
            0 <= k < verdicts.len() ==> #[trigger] verdicts[k] == verdict(e, f, insts_of(f)[k]),
    ensures
        changes(e, f) == ((exists|k: int|
            0 <= k < insts_of(f).len() && #[trigger] verdicts[k] is Plus) || (exists|k: int|
            0 <= k < insts_of(f).len() && #[trigger] verdicts[k] is Same)),
{
    let s = insts_of(f);
    if changes(e, f) {
        let k = choose|k: int| 0 <= k < s.len() && verdict(e, f, #[trigger] s[k]) != Verdict::Keep;
        assert(verdicts[k] == verdict(e, f, s[k]));
    }
    if exists|k: int| 0 <= k < s.len() && #[trigger] verdicts[k] is Plus {
        let k = choose|k: int| 0 <= k < s.len() && #[trigger] verdicts[k] is Plus;
        assert(verdict(e, f, s[k]) != Verdict::Keep);
    }
    if exists|k: int| 0 <= k < s.len() && #[trigger] verdicts[k] is Same {
        let k = choose|k: int| 0 <= k < s.len() && #[trigger] verdicts[k] is Same;
        assert(verdict(e, f, s[k]) != Verdict::Keep);
    }
}

/// Reassociates sums of constants.
pub struct FastMathReassoc<E> {
    /// What computes with floating-point numbers.
    pub floats: E,
}

impl<E: Fn(FloatRequest) -> FloatReply> Pass for FastMathReassoc<E> {
    open spec fn accepts(&self, m: ModuleView) -> bool {
        &&& is_evaluator(self.floats)
        &&& forall|i: int|
            0 <= i < m.functions.len() ==> can_rewrite(self.floats, #[trigger] m.functions[i])
    }

    open spec fn outcome(&self, before: ModuleView, after: ModuleView, changed: bool) -> bool {
        &&& after == (ModuleView {
            functions: Seq::new(
                before.functions.len(),
                |i: int| reassociated(self.floats, before.functions[i]),
            ),
            ..before
        })
        &&& changed == exists|i: int|
            0 <= i < before.functions.len() && changes(self.floats, #[trigger] before.functions[i])
    }

    fn name(&self) -> (r: &'static str)
        ensures
            r@ == "fast-math-reassoc"@,
    {
        "fast-math-reassoc"
    }

    fn run(&self, module: &mut Module) -> (changed: bool) {
        let ghost m = module@;
        let mut changed: bool = false;
        let mut i: usize = 0;
        while i < module.functions.len()
            invariant
                i <= m.functions.len(),
                self.accepts(m),
                module.functions@.len() == m.functions.len(),
                module@ == (ModuleView { functions: module@.functions, ..m }),
                forall|k: int|
                    0 <= k < i ==> (#[trigger] module.functions@[k])@ == reassociated(
                        self.floats,
                        m.functions[k],
                    ),
                forall|k: int|
                    i <= k < m.functions.len() ==> (#[trigger] module.functions@[k])@
                        == m.functions[k],
                changed == exists|k: int|
                    0 <= k < i && changes(self.floats, #[trigger] m.functions[k]),
            decreases m.functions.len() - i,
        {
            proof {
                assert(module.functions@[i as int]@ == m.functions[i as int]);
            }
            if rewrite_function(&self.floats, &mut module.functions[i]) {
                changed = true;
            }
            i = i + 1;
        }
        proof {
            assert(module@.functions =~= Seq::new(
                m.functions.len(),
                |i: int| reassociated(self.floats, m.functions[i]),
            ));
        }
        changed
    }
}


/// Constants with the same counts add up to the same, in whatever order they
/// stand.
pub proof fn sums_depend_on_counts_alone<E: Fn(FloatRequest) -> FloatReply>(
    e: E,
    a: Seq<(u64, bool)>,
    b: Seq<(u64, bool)>,
    w: FloatWidth,
)
    requires
        forall|c: u64| #[trigger] net(a, c) == net(b, c),
    ensures
        combined(e, a, w) == combined(e, b, w),
{
    let s = lemma_survivors_exist(a, a.len());
    assert(survivors(b, s)) by {
        assert forall|c: u64| #[trigger] s.contains(c) == (net(b, c) != 0) by {
            assert(net(a, c) == net(b, c));
        }
    }
    lemma_survivors_unique(a, s, choose|t: Seq<u64>| survivors(a, t));
    lemma_survivors_unique(b, s, choose|t: Seq<u64>| survivors(b, t));
    lemma_total_counts(e, a, b, s, s.len());
}

proof fn lemma_total_counts<E: Fn(FloatRequest) -> FloatReply>(
    e: E,
    a: Seq<(u64, bool)>,
    b: Seq<(u64, bool)>,
    s: Seq<u64>,
    n: nat,
)
    requires
        forall|c: u64| #[trigger] net(a, c) == net(b, c),
    ensures
        total(e, a, s, n) == total(e, b, s, n),
    decreases n,
{
    if n > 0 {
        lemma_total_counts(e, a, b, s, (n - 1) as nat);
        assert(net(a, s[n - 1]) == net(b, s[n - 1]));
    }
}

/// Constants that cancel leave zero, without any rounding on the way.
pub proof fn cancelled_constants_leave_nothing<E: Fn(FloatRequest) -> FloatReply>(
    e: E,
    terms: Seq<(u64, bool)>,
    w: FloatWidth,
)
    requires
        forall|c: u64| #[trigger] net(terms, c) == 0,
    ensures
        combined(e, terms, w) == rounded(e, 0, w),
{
    let none = Seq::<u64>::empty();
    assert(survivors(terms, none));
    let s = choose|s: Seq<u64>| survivors(terms, s);
    lemma_survivors_unique(terms, none, s);
}

/// Does `i` add or, where `minus`, subtract the second value to or from the
/// first?
pub open spec fn adds(i: InstView, w: FloatWidth, minus: bool, x: ValueId, y: ValueId) -> bool {
    &&& i.ty == IrType::Float(w)
    &&& if minus {
        i.kind.op is FSub
    } else {
        i.kind.op is FAdd
    }
    &&& i.kind.args[0] == x
    &&& i.kind.args[1] == y
}

/// A value plus or minus a constant, plus or minus a second constant, is the
/// value plus both constants with their signs.
pub proof fn two_constants_become_one_sum<E: Fn(FloatRequest) -> FloatReply>(
    e: E,
    f: FuncView,
    w: FloatWidth,
    v: ValueId,
    u: ValueId,
    x: ValueId,
    c: (ValueId, u64, bool),
    d: (ValueId, u64, bool),
)
    requires
        last_inst(insts_of(f), v) matches Some(i) && adds(i, w, d.2, u, d.0),
        last_inst(insts_of(f), u) matches Some(j) && adds(j, w, c.2, x, c.0),
        const_of(e, f, c.0, w) == Some(c.1),
        const_of(e, f, d.0, w) == Some(d.1),
        const_of(e, f, x, w) is None,
        last_inst(insts_of(f), x) matches Some(k) ==> !(k.kind.op is FAdd) && !(k.kind.op is FSub),
    ensures
        sum_of(e, f, v, w) == Some(
            Sum { base: Some(x), terms: seq![(c.1, c.2), (d.1, d.2)], nodes: 2 },
        ),
{
    let s = insts_of(f);
    lemma_last_inst(s, v);
    lemma_last_inst(s, c.0);
    let i = last_inst(s, v)->0;
    let k = last_inst(s, c.0)->0;
    assert(s.len() >= 2) by {
        let a = s.index_of(i);
        let b = s.index_of(k);
        assert(s[a] == i && s[b] == k);
    }
    let n = s.len() + 1;
    reveal_with_fuel(sum_at, 4);
    let sx = sum_at(e, f, x, w, (n - 2) as nat);
    assert(sx == Some(alone(x)));
    let su = sum_at(e, f, u, w, (n - 1) as nat);
    let sc = sum_at(e, f, c.0, w, (n - 2) as nat);
    let sd = sum_at(e, f, d.0, w, (n - 1) as nat);
    assert(sc == Some(Sum { base: None, terms: seq![(c.1, false)], nodes: 0 }));
    assert(sd == Some(Sum { base: None, terms: seq![(d.1, false)], nodes: 0 }));
    assert(seq![(c.1, false)] =~= Seq::<(u64, bool)>::empty() + seq![(c.1, false)]);
    assert(Seq::<(u64, bool)>::empty() + negated(seq![(c.1, false)]) =~= seq![(c.1, true)]);
    assert(su == Some(Sum { base: Some(x), terms: seq![(c.1, c.2)], nodes: 1 }));
    assert(seq![(c.1, c.2)] + negated(seq![(d.1, false)]) =~= seq![(c.1, c.2), (d.1, true)]);
    assert(seq![(c.1, c.2)] + seq![(d.1, false)] =~= seq![(c.1, c.2), (d.1, false)]);
}

} // verus!
