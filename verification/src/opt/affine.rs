//! Affine expressions: a constant and multiples of induction variables.

use crate::ids::same_id;
use crate::ir::inst::ValueId;
use vstd::prelude::*;

verus! {

/// An affine expression: `constant + sum(coefficient * variable)`.
#[derive(Debug)]
pub struct AffineExpr {
    pub constant: i64,
    /// The coefficients with their variables.
    pub terms: Vec<(i64, ValueId)>,
}

/// The model of an affine expression.
pub struct AffineView {
    pub constant: i64,
    pub terms: Seq<(i64, ValueId)>,
}

impl AffineExpr {
    /// The model.
    pub open spec fn view(&self) -> AffineView {
        AffineView { constant: self.constant, terms: self.terms@ }
    }
}

/// What terms add up to where the variables have these values.
pub open spec fn terms_value(terms: Seq<(i64, ValueId)>, env: spec_fn(ValueId) -> int) -> int
    decreases terms.len(),
{
    if terms.len() == 0 {
        0
    } else {
        terms_value(terms.drop_last(), env) + terms.last().0 * env(terms.last().1)
    }
}

/// What an expression gives where the variables have these values.
pub open spec fn value_of(e: AffineView, env: spec_fn(ValueId) -> int) -> int {
    e.constant + terms_value(e.terms, env)
}

/// A number of 64 bits.
pub open spec fn narrow(n: int) -> Option<i64> {
    if i64::MIN <= n <= i64::MAX {
        Some(n as i64)
    } else {
        None
    }
}

/// The first term of a variable.
pub open spec fn term_at(terms: Seq<(i64, ValueId)>, v: ValueId) -> Option<int>
    decreases terms.len(),
{
    if terms.len() == 0 {
        None
    } else {
        match term_at(terms.drop_last(), v) {
            Some(i) => Some(i),
            None => if terms.last().1 == v {
                Some(terms.len() - 1)
            } else {
                None
            },
        }
    }
}

/// Terms with one more added: to that of the same variable, or behind the
/// others.
pub open spec fn with_term(terms: Seq<(i64, ValueId)>, c: i64, v: ValueId) -> Option<
    Seq<(i64, ValueId)>,
> {
    match term_at(terms, v) {
        Some(i) => match narrow(terms[i].0 + c) {
            Some(n) => Some(terms.update(i, (n, v))),
            None => None,
        },
        None => Some(terms.push((c, v))),
    }
}

/// Terms with the first `n` of others added.
pub open spec fn merged(a: Seq<(i64, ValueId)>, b: Seq<(i64, ValueId)>, n: nat) -> Option<
    Seq<(i64, ValueId)>,
>
    decreases n,
{
    if n == 0 {
        Some(a)
    } else {
        match merged(a, b, (n - 1) as nat) {
            Some(t) => with_term(t, b[n - 1].0, b[n - 1].1),
            None => None,
        }
    }
}

/// Terms without those whose coefficient is zero.
pub open spec fn nonzero(terms: Seq<(i64, ValueId)>) -> Seq<(i64, ValueId)> {
    terms.filter(|t: (i64, ValueId)| t.0 != 0)
}

/// The sum of two expressions, where all numbers fit.
pub open spec fn sum_of(a: AffineView, b: AffineView) -> Option<AffineView> {
    match (narrow(a.constant + b.constant), merged(a.terms, b.terms, b.terms.len())) {
        (Some(c), Some(t)) => Some(AffineView { constant: c, terms: nonzero(t) }),
        _ => None,
    }
}

/// Do all numbers of an expression fit when it is multiplied?
pub open spec fn scales(e: AffineView, k: int) -> bool {
    &&& i64::MIN <= e.constant * k <= i64::MAX
    &&& forall|i: int|
        0 <= i < e.terms.len() ==> i64::MIN <= (#[trigger] e.terms[i]).0 * k <= i64::MAX
}

/// A multiple of an expression, where all numbers fit.
pub open spec fn scaled_by(e: AffineView, k: int) -> Option<AffineView> {
    if scales(e, k) {
        Some(
            AffineView {
                constant: (e.constant * k) as i64,
                terms: Seq::new(
                    e.terms.len(),
                    |i: int| ((e.terms[i].0 * k) as i64, e.terms[i].1),
                ),
            },
        )
    } else {
        None
    }
}

/// The difference of two expressions, where all numbers fit.
pub open spec fn difference_of(a: AffineView, b: AffineView) -> Option<AffineView> {
    match scaled_by(b, -1) {
        Some(n) => sum_of(a, n),
        None => None,
    }
}

proof fn lemma_update_value(
    terms: Seq<(i64, ValueId)>,
    i: int,
    n: i64,
    env: spec_fn(ValueId) -> int,
)
    requires
        0 <= i < terms.len(),
    ensures
        terms_value(terms.update(i, (n, terms[i].1)), env) == terms_value(terms, env) + (n
            - terms[i].0) * env(terms[i].1),
    decreases terms.len(),
{
    let u = terms.update(i, (n, terms[i].1));
    let x = env(terms[i].1);
    if i == terms.len() - 1 {
        assert(u.drop_last() =~= terms.drop_last());
        let c = terms[i].0 as int;
        assert(n * x == c * x + (n - c) * x) by (nonlinear_arith);
    } else {
        lemma_update_value(terms.drop_last(), i, n, env);
        assert(u.drop_last() =~= terms.drop_last().update(i, (n, terms[i].1)));
    }
}

/// What the first term of a variable is.
pub proof fn lemma_term_at(terms: Seq<(i64, ValueId)>, v: ValueId)
    ensures
        term_at(terms, v) matches Some(i) ==> 0 <= i < terms.len() && terms[i].1 == v && (forall|
            k: int,
        |
            0 <= k < i ==> (#[trigger] terms[k]).1 != v),
        term_at(terms, v) is None ==> forall|k: int|
            0 <= k < terms.len() ==> (#[trigger] terms[k]).1 != v,
    decreases terms.len(),
{
    if terms.len() > 0 {
        let t = terms.drop_last();
        lemma_term_at(t, v);
        assert(forall|k: int| 0 <= k < t.len() ==> t[k] == terms[k]);
        if term_at(terms, v) is None {
            assert forall|k: int| 0 <= k < terms.len() implies (#[trigger] terms[k]).1 != v by {
                if k < t.len() {
                    assert(t[k].1 != v);
                }
            }
        } else if term_at(t, v) is None {
            assert forall|k: int| 0 <= k < t.len() implies (#[trigger] terms[k]).1 != v by {
                assert(t[k].1 != v);
            }
        } else {
            let i = term_at(t, v)->0;
            assert forall|k: int| 0 <= k < i implies (#[trigger] terms[k]).1 != v by {
                assert(t[k].1 != v);
            }
        }
    }
}

proof fn lemma_with_term_value(
    terms: Seq<(i64, ValueId)>,
    c: i64,
    v: ValueId,
    env: spec_fn(ValueId) -> int,
)
    ensures
        with_term(terms, c, v) matches Some(t) ==> terms_value(t, env) == terms_value(terms, env)
            + c * env(v),
{
    lemma_term_at(terms, v);
    match term_at(terms, v) {
        Some(i) => {
            if narrow(terms[i].0 + c) is Some {
                lemma_update_value(terms, i, (terms[i].0 + c) as i64, env);
            }
        },
        None => {
            assert(terms.push((c, v)).drop_last() =~= terms);
        },
    }
}

proof fn lemma_merged_value(
    a: Seq<(i64, ValueId)>,
    b: Seq<(i64, ValueId)>,
    n: nat,
    env: spec_fn(ValueId) -> int,
)
    requires
        n <= b.len(),
    ensures
        merged(a, b, n) matches Some(t) ==> terms_value(t, env) == terms_value(a, env) + terms_value(
            b.take(n as int),
            env,
        ),
    decreases n,
{
    if n > 0 {
        lemma_merged_value(a, b, (n - 1) as nat, env);
        assert(b.take(n as int).drop_last() =~= b.take(n - 1));
        if merged(a, b, (n - 1) as nat) is Some {
            lemma_with_term_value(merged(a, b, (n - 1) as nat)->0, b[n - 1].0, b[n - 1].1, env);
        }
    } else {
        assert(b.take(0) =~= Seq::<(i64, ValueId)>::empty());
    }
}

proof fn lemma_nonzero_value(terms: Seq<(i64, ValueId)>, env: spec_fn(ValueId) -> int)
    ensures
        terms_value(nonzero(terms), env) == terms_value(terms, env),
    decreases terms.len(),
{
    reveal(Seq::filter);
    if terms.len() > 0 {
        lemma_nonzero_value(terms.drop_last(), env);
        let rest = nonzero(terms.drop_last());
        if terms.last().0 != 0 {
            assert(rest.push(terms.last()).drop_last() =~= rest);
        } else {
            let x = env(terms.last().1);
            assert(0int * x == 0) by (nonlinear_arith);
        }
    }
}

/// The value of a sum is the sum of the values.
pub proof fn sum_adds_values(a: AffineView, b: AffineView, env: spec_fn(ValueId) -> int)
    requires
        sum_of(a, b) is Some,
    ensures
        value_of(sum_of(a, b)->0, env) == value_of(a, env) + value_of(b, env),
{
    lemma_merged_value(a.terms, b.terms, b.terms.len(), env);
    assert(b.terms.take(b.terms.len() as int) =~= b.terms);
    let t = merged(a.terms, b.terms, b.terms.len())->0;
    lemma_nonzero_value(t, env);
}

proof fn lemma_scaled_terms(a: Seq<(i64, ValueId)>, b: Seq<(i64, ValueId)>, k: int, env: spec_fn(ValueId) -> int)
    requires
        a.len() == b.len(),
        forall|i: int|
            0 <= i < a.len() ==> (#[trigger] b[i]).0 == a[i].0 * k && b[i].1 == a[i].1,
    ensures
        terms_value(b, env) == terms_value(a, env) * k,
    decreases a.len(),
{
    if a.len() > 0 {
        lemma_scaled_terms(a.drop_last(), b.drop_last(), k, env);
        let n = a.len() - 1;
        assert(b[n].0 == a[n].0 * k);
        let rest = terms_value(a.drop_last(), env);
        let c = a.last().0 as int;
        let x = env(a.last().1);
        assert((rest + c * x) * k == rest * k + (c * k) * x) by (nonlinear_arith);
    } else {
        assert(0int * k == 0) by (nonlinear_arith);
    }
}

/// The value of a multiple is the multiple of the value.
pub proof fn scaling_scales_value(e: AffineView, k: int, env: spec_fn(ValueId) -> int)
    requires
        scaled_by(e, k) is Some,
    ensures
        value_of(scaled_by(e, k)->0, env) == value_of(e, env) * k,
{
    let s = scaled_by(e, k)->0;
    lemma_scaled_terms(e.terms, s.terms, k, env);
    let c = e.constant as int;
    let t = terms_value(e.terms, env);
    assert((c + t) * k == c * k + t * k) by (nonlinear_arith);
}

/// The value of a difference is the difference of the values.
pub proof fn difference_subtracts_values(
    a: AffineView,
    b: AffineView,
    env: spec_fn(ValueId) -> int,
)
    requires
        difference_of(a, b) is Some,
    ensures
        value_of(difference_of(a, b)->0, env) == value_of(a, env) - value_of(b, env),
{
    scaling_scales_value(b, -1, env);
    sum_adds_values(a, scaled_by(b, -1)->0, env);
}

impl AffineExpr {
    /// The expression that is a constant.
    pub fn from_const(c: i64) -> (r: Self)
        ensures
            r@ == (AffineView { constant: c, terms: Seq::empty() }),
    {
        let r = AffineExpr { constant: c, terms: Vec::new() };
        proof {
            assert(r@.terms =~= Seq::<(i64, ValueId)>::empty());
        }
        r
    }

    /// The expression that is a variable.
    pub fn from_iv(iv: ValueId) -> (r: Self)
        ensures
            r@ == (AffineView { constant: 0, terms: seq![(1i64, iv)] }),
    {
        let mut terms: Vec<(i64, ValueId)> = Vec::new();
        terms.push((1, iv));
        let r = AffineExpr { constant: 0, terms };
        proof {
            assert(r@.terms =~= seq![(1i64, iv)]);
        }
        r
    }

    /// The sum of two expressions, unless a number does not fit.
    pub fn checked_sum(&self, other: &Self) -> (r: Option<Self>)
        ensures
            match r {
                Some(e) => sum_of(self@, other@) == Some(e@),
                None => sum_of(self@, other@) is None,
            },
    {
        let constant: i64 = match self.constant.checked_add(other.constant) {
            Some(c) => c,
            None => {
                return None;
            },
        };
        let mut terms: Vec<(i64, ValueId)> = copy_terms(&self.terms);
        let mut i: usize = 0;
        while i < other.terms.len()
            invariant
                i <= other.terms@.len(),
                merged(self.terms@, other.terms@, i as nat) == Some(terms@),
                narrow(self.constant + other.constant) == Some(constant),
            decreases other.terms@.len() - i,
        {
            let (c, v) = other.terms[i];
            if !add_term(&mut terms, c, v) {
                proof {
                    lemma_merged_none(
                        self.terms@,
                        other.terms@,
                        (i + 1) as nat,
                        other.terms@.len(),
                    );
                }
                return None;
            }
            i = i + 1;
        }
        let kept = drop_zeros(&terms);
        Some(AffineExpr { constant, terms: kept })
    }

    /// A multiple of the expression, unless a number does not fit.
    pub fn checked_multiple(&self, factor: i64) -> (r: Option<Self>)
        ensures
            match r {
                Some(e) => scaled_by(self@, factor as int) == Some(e@),
                None => scaled_by(self@, factor as int) is None,
            },
    {
        let constant: i64 = match self.constant.checked_mul(factor) {
            Some(c) => c,
            None => {
                return None;
            },
        };
        let mut terms: Vec<(i64, ValueId)> = Vec::new();
        let mut i: usize = 0;
        while i < self.terms.len()
            invariant
                i <= self.terms@.len(),
                terms@.len() == i,
                forall|k: int|
                    0 <= k < i ==> (#[trigger] terms@[k]).0 == self.terms@[k].0 * factor
                        && terms@[k].1 == self.terms@[k].1,
            decreases self.terms@.len() - i,
        {
            let (c, v) = self.terms[i];
            match c.checked_mul(factor) {
                Some(n) => {
                    terms.push((n, v));
                },
                None => {
                    proof {
                        assert(!(i64::MIN <= self@.terms[i as int].0 * factor <= i64::MAX));
                    }
                    return None;
                },
            }
            i = i + 1;
        }
        proof {
            assert forall|k: int| 0 <= k < self@.terms.len() implies i64::MIN
                <= (#[trigger] self@.terms[k]).0 * factor <= i64::MAX by {
                assert(terms@[k].0 == self.terms@[k].0 * factor);
            }
            assert(terms@ =~= (scaled_by(self@, factor as int)->0).terms);
        }
        Some(AffineExpr { constant, terms })
    }

    /// The difference of two expressions, unless a number does not fit.
    pub fn checked_difference(&self, other: &Self) -> (r: Option<Self>)
        ensures
            match r {
                Some(e) => difference_of(self@, other@) == Some(e@),
                None => difference_of(self@, other@) is None,
            },
    {
        match other.checked_multiple(-1) {
            Some(n) => self.checked_sum(&n),
            None => None,
        }
    }

    /// The sum of two expressions.
    pub fn add(&self, other: &Self) -> (r: Self)
        requires
            sum_of(self@, other@) is Some,
        ensures
            sum_of(self@, other@) == Some(r@),
    {
        match self.checked_sum(other) {
            Some(e) => e,
            None => AffineExpr::from_const(0),
        }
    }

    /// The difference of two expressions.
    pub fn sub(&self, other: &Self) -> (r: Self)
        requires
            difference_of(self@, other@) is Some,
        ensures
            difference_of(self@, other@) == Some(r@),
    {
        match self.checked_difference(other) {
            Some(e) => e,
            None => AffineExpr::from_const(0),
        }
    }

    /// A multiple of the expression.
    pub fn scale(&self, factor: i64) -> (r: Self)
        requires
            scaled_by(self@, factor as int) is Some,
        ensures
            scaled_by(self@, factor as int) == Some(r@),
    {
        match self.checked_multiple(factor) {
            Some(e) => e,
            None => AffineExpr::from_const(0),
        }
    }
}

proof fn lemma_merged_none(a: Seq<(i64, ValueId)>, b: Seq<(i64, ValueId)>, i: nat, n: nat)
    requires
        i <= n,
        merged(a, b, i) is None,
    ensures
        merged(a, b, n) is None,
    decreases n,
{
    if i < n {
        lemma_merged_none(a, b, i, (n - 1) as nat);
    }
}

fn copy_terms(terms: &Vec<(i64, ValueId)>) -> (r: Vec<(i64, ValueId)>)
    ensures
        r@ == terms@,
{
    let mut out: Vec<(i64, ValueId)> = Vec::new();
    let mut i: usize = 0;
    while i < terms.len()
        invariant
            i <= terms@.len(),
            out@ == terms@.take(i as int),
        decreases terms@.len() - i,
    {
        let (c, v) = terms[i];
        out.push((c, v));
        proof {
            assert(out@ =~= terms@.take(i + 1));
        }
        i = i + 1;
    }
    proof {
        assert(out@ =~= terms@);
    }
    out
}

proof fn lemma_term_at_is(terms: Seq<(i64, ValueId)>, v: ValueId, i: int)
    requires
        0 <= i < terms.len(),
        terms[i].1 == v,
        forall|k: int| 0 <= k < i ==> (#[trigger] terms[k]).1 != v,
    ensures
        term_at(terms, v) == Some(i),
{
    lemma_term_at(terms, v);
    match term_at(terms, v) {
        Some(j) => {
            if j < i {
                assert(terms[j].1 != v);
            }
        },
        None => {
            assert(terms[i].1 != v);
        },
    }
}

fn add_term(terms: &mut Vec<(i64, ValueId)>, c: i64, v: ValueId) -> (fits: bool)
    ensures
        fits ==> with_term(old(terms)@, c, v) == Some(final(terms)@),
        !fits ==> with_term(old(terms)@, c, v) is None,
{
    let mut i: usize = 0;
    while i < terms.len()
        invariant
            i <= terms@.len(),
            terms@ == old(terms)@,
            forall|k: int| 0 <= k < i ==> (#[trigger] terms@[k]).1 != v,
        decreases terms@.len() - i,
    {
        let (n, w) = terms[i];
        if same_id(w, v) {
            proof {
                lemma_term_at_is(terms@, v, i as int);
            }
            match n.checked_add(c) {
                Some(sum) => {
                    terms.set(i, (sum, v));
                    return true;
                },
                None => {
                    return false;
                },
            }
        }
        i = i + 1;
    }
    proof {
        lemma_term_at(terms@, v);
    }
    terms.push((c, v));
    true
}

fn drop_zeros(terms: &Vec<(i64, ValueId)>) -> (r: Vec<(i64, ValueId)>)
    ensures
        r@ == nonzero(terms@),
{
    let ghost cond = |t: (i64, ValueId)| t.0 != 0;
    let mut out: Vec<(i64, ValueId)> = Vec::new();
    let mut i: usize = 0;
    proof {
        reveal(Seq::filter);
        assert(terms@.take(0).filter(cond) =~= Seq::<(i64, ValueId)>::empty());
    }
    while i < terms.len()
        invariant
            i <= terms@.len(),
            cond == (|t: (i64, ValueId)| t.0 != 0),
            out@ == terms@.take(i as int).filter(cond),
        decreases terms@.len() - i,
    {
        let (c, v) = terms[i];
        proof {
            reveal(Seq::filter);
            assert(terms@.take(i + 1).drop_last() =~= terms@.take(i as int));
            assert(terms@.take(i + 1).last() == (c, v));
        }
        if c != 0 {
            out.push((c, v));
        }
        i = i + 1;
    }
    proof {
        assert(terms@.take(i as int) =~= terms@);
    }
    out
}

} // verus!
