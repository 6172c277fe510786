//! Dense multilinear polynomial engine: a function over the Boolean hypercube
//! stored as its table of evaluations, supporting top-variable binding
//! (folding) and full-point evaluation.
use vstd::prelude::*;

verus! {

use crate::AlgebraError;
use crate::field::FieldOps;
use vstd::arithmetic::power2::pow2;

/// The canonical representatives of a table of field elements.
pub open spec fn values<F: FieldOps>(s: Seq<F>) -> Seq<int> {
    s.map_values(|x: F| x.value())
}

/// One binding step on a table of canonical representatives, modulo `m`.
///
/// The table splits into contiguous low and high halves (top variable fixed
/// to 0 and 1 respectively); entry `i` of the result is the affine
/// interpolation `low[i] + r * (high[i] - low[i])`.
pub open spec fn bind_spec(t: Seq<int>, r: int, m: int) -> Seq<int> {
    Seq::new((t.len() / 2) as nat, |i: int| (t[i] + r * (t[i + t.len() / 2] - t[i])) % m)
}

/// Multilinear-extension evaluation at a point, defined as the chain of
/// binding steps applied for each coordinate in order, reading the single
/// remaining entry.
pub open spec fn eval_mle(t: Seq<int>, point: Seq<int>, m: int) -> int
    decreases point.len(),
{
    if point.len() == 0 {
        t[0]
    } else {
        eval_mle(bind_spec(t, point[0], m), point.skip(1), m)
    }
}

/// The table left after binding every coordinate of `point` in order.
pub open spec fn bind_chain(t: Seq<int>, point: Seq<int>, m: int) -> Seq<int>
    decreases point.len(),
{
    if point.len() == 0 {
        t
    } else {
        bind_chain(bind_spec(t, point[0], m), point.skip(1), m)
    }
}

/// Law: evaluating at a point equals binding the top variable once per
/// coordinate of the point, in order, and reading the single remaining
/// table entry.
pub proof fn lemma_evaluate_is_bind_chain(t: Seq<int>, point: Seq<int>, m: int)
    ensures
        eval_mle(t, point, m) == bind_chain(t, point, m)[0],
    decreases point.len(),
{
    if point.len() > 0 {
        lemma_evaluate_is_bind_chain(bind_spec(t, point[0], m), point.skip(1), m);
    }
}

/// Law: binding the top variable to zero yields exactly the low half of the
/// table.
pub proof fn lemma_bind_zero(t: Seq<int>, m: int)
    requires
        m > 0,
        t.len() % 2 == 0,
        forall|i: int| 0 <= i < t.len() ==> 0 <= #[trigger] t[i] < m,
    ensures
        bind_spec(t, 0, m) == t.take(t.len() as int / 2),
{
    assert forall|i: int| 0 <= i < t.len() / 2 implies bind_spec(t, 0, m)[i] == t.take(
        t.len() as int / 2,
    )[i] by {
        vstd::arithmetic::div_mod::lemma_small_mod(t[i] as nat, m as nat);
    }
    assert(bind_spec(t, 0, m) =~= t.take(t.len() as int / 2));
}

/// Law: binding the top variable to one yields exactly the high half of the
/// table.
pub proof fn lemma_bind_one(t: Seq<int>, m: int)
    requires
        m > 0,
        t.len() % 2 == 0,
        forall|i: int| 0 <= i < t.len() ==> 0 <= #[trigger] t[i] < m,
    ensures
        bind_spec(t, 1, m) == t.skip(t.len() as int / 2),
{
    assert forall|i: int| 0 <= i < t.len() / 2 implies bind_spec(t, 1, m)[i] == t.skip(
        t.len() as int / 2,
    )[i] by {
        let h = t[i + t.len() / 2];
        assert(t[i] + 1 * (h - t[i]) == h);
        vstd::arithmetic::div_mod::lemma_small_mod(h as nat, m as nat);
    }
    assert(bind_spec(t, 1, m) =~= t.skip(t.len() as int / 2));
}

proof fn lemma_odd_multiple_not_pow2(m: nat, k: nat, j: nat)
    requires
        m % 2 == 1,
        m > 1,
    ensures
        m * pow2(k) != pow2(j),
{
    vstd::arithmetic::power2::lemma_pow2_pos(k);
    vstd::arithmetic::power2::lemma_pow2_pos(j);
    if j <= k {
        if j < k {
            vstd::arithmetic::power2::lemma_pow2_strictly_increases(j, k);
        }
        assert(m * pow2(k) > 1 * pow2(k)) by (nonlinear_arith)
            requires
                m > 1,
                pow2(k) > 0,
        ;
    } else {
        vstd::arithmetic::power2::lemma_pow2_adds(k, (j - k) as nat);
        if m * pow2(k) == pow2(j) {
            assert(pow2(k) * m == pow2(k) * pow2((j - k) as nat)) by (nonlinear_arith)
                requires
                    m * pow2(k) == pow2(k) * pow2((j - k) as nat),
            ;
            vstd::arithmetic::mul::lemma_mul_equality_converse(
                pow2(k) as int,
                m as int,
                pow2((j - k) as nat) as int,
            );
            vstd::arithmetic::power2::lemma_pow2_unfold((j - k) as nat);
        }
    }
}

/// A multilinear function of `vars()` variables over the Boolean hypercube,
/// stored densely as its `pow2(vars())` evaluations. Binding consumes the
/// top (most significant) variable and permanently halves the table; when
/// `vars()` reaches zero the table denotes a single scalar.
pub struct DensePolynomial<F: FieldOps> {
    evals: Vec<F>,
    num_vars: usize,
}

impl<F: FieldOps> DensePolynomial<F> {
    /// The table is always exactly `pow2(vars())` entries long.
    pub closed spec fn wf(self) -> bool {
        self.evals@.len() == pow2(self.num_vars as nat)
    }

    /// The canonical representatives of the current evaluation table.
    pub closed spec fn table(self) -> Seq<int> {
        values(self.evals@)
    }

    /// The current number of unbound variables.
    pub closed spec fn vars(self) -> nat {
        self.num_vars as nat
    }

    /// The table's shape: its length is two to the number of variables.
    pub proof fn shape(self)
        requires
            self.wf(),
        ensures
            self.table().len() == pow2(self.vars()),
            self.table().len() >= 1,
            forall|i: int|
                0 <= i < self.table().len() ==> 0 <= #[trigger] self.table()[i] < F::modulus(),
    {
        vstd::arithmetic::power2::lemma_pow2_pos(self.vars());
        assert forall|i: int|
            0 <= i < self.table().len() implies 0 <= #[trigger] self.table()[i]
            < F::modulus() by {
            self.evals@[i].value_canonical();
        }
    }

    /// Constructs a polynomial from a non-empty table whose length is a
    /// power of two; any other shape is rejected with `InvalidShape`.
    pub fn new(evals: Vec<F>) -> (r: Result<Self, AlgebraError>)
        ensures
            (exists|k: nat| evals@.len() == pow2(k)) <==> r is Ok,
            r is Err ==> r == Result::<Self, AlgebraError>::Err(AlgebraError::InvalidShape),
            r matches Ok(p) ==> p.wf() && p.table() == values(evals@) && evals@.len() == pow2(
                p.vars(),
            ),
    {
        let n = evals.len();
        if n == 0 {
            proof {
                assert forall|k: nat| n != pow2(k) by {
                    vstd::arithmetic::power2::lemma_pow2_pos(k);
                }
            }
            return Err(AlgebraError::InvalidShape);
        }
        let mut m = n;
        let mut k: usize = 0;
        proof {
            vstd::arithmetic::power2::lemma2_to64();
        }
        while m > 1
            invariant
                m >= 1,
                n as nat == evals@.len(),
                n as int == m as int * pow2(k as nat),
            decreases m,
        {
            if m % 2 != 0 {
                proof {
                    assert forall|j: nat| evals@.len() != pow2(j) by {
                        lemma_odd_multiple_not_pow2(m as nat, k as nat, j);
                        assert(n as nat == m as nat * pow2(k as nat));
                    }
                }
                return Err(AlgebraError::InvalidShape);
            }
            proof {
                let kp = k as nat + 1;
                vstd::arithmetic::power2::lemma_pow2_unfold(kp);
                vstd::arithmetic::power2::lemma_pow2_pos(kp);
                let m2 = m as int / 2;
                assert(m2 * pow2(kp) == m as int * pow2(k as nat)) by (nonlinear_arith)
                    requires
                        m % 2 == 0,
                        m2 == m as int / 2,
                        pow2(kp) == 2 * pow2(k as nat),
                ;
                assert(pow2(kp) <= n as nat) by (nonlinear_arith)
                    requires
                        n as int == m2 * pow2(kp),
                        m2 >= 1,
                        pow2(kp) > 0,
                ;
                vstd::arithmetic::power2::lemma2_to64();
                assert((n as nat) < pow2(64));
                if kp >= 64 {
                    if kp > 64 {
                        vstd::arithmetic::power2::lemma_pow2_strictly_increases(64, kp);
                    }
                    assert(false);
                }
            }
            m = m / 2;
            k = k + 1;
        }
        Ok(DensePolynomial { evals, num_vars: k })
    }

    /// The current variable count; decreases by one with each binding.
    pub fn num_vars(&self) -> (n: usize)
        ensures
            n as nat == self.vars(),
    {
        self.num_vars
    }

    /// The current table length.
    pub fn len(&self) -> (n: usize)
        ensures
            n == self.table().len(),
    {
        self.evals.len()
    }

    /// The table entry at a given index.
    pub fn entry(&self, i: usize) -> (r: F)
        requires
            i < self.table().len(),
        ensures
            r.value() == self.table()[i as int],
    {
        self.evals[i]
    }

    /// Binds the top variable to `r`: replaces the table by the affine
    /// interpolation of its low and high halves, halving its length and
    /// consuming one variable. Fails with `NoVariablesRemaining` exactly
    /// when no variable is left.
    pub fn bind_top_variable(&mut self, r: F) -> (res: Result<(), AlgebraError>)
        requires
            old(self).wf(),
        ensures
            final(self).wf(),
            res is Err <==> old(self).vars() == 0,
            res is Err ==> res == Result::<(), AlgebraError>::Err(
                AlgebraError::NoVariablesRemaining,
            ) && *final(self) == *old(self),
            old(self).vars() > 0 ==> res is Ok && final(self).vars() == old(self).vars() - 1
                && final(self).table() == bind_spec(old(self).table(), r.value(), F::modulus())
                && final(self).table().len() == old(self).table().len() / 2,
    {
        if self.num_vars == 0 {
            return Err(AlgebraError::NoVariablesRemaining);
        }
        proof {
            vstd::arithmetic::power2::lemma_pow2_unfold(self.num_vars as nat);
        }
        let folded = fold_once(&self.evals, r);
        self.evals = folded;
        self.num_vars = self.num_vars - 1;
        Ok(())
    }

    /// Evaluates the multilinear extension at `point` without mutating the
    /// polynomial, by folding a transient copy of the table once per
    /// coordinate in order. Fails with `DimensionMismatch` exactly when the
    /// point's length differs from the current variable count.
    pub fn evaluate(&self, point: &Vec<F>) -> (res: Result<F, AlgebraError>)
        requires
            self.wf(),
        ensures
            res is Ok <==> point@.len() == self.vars(),
            res is Err ==> res == Result::<F, AlgebraError>::Err(AlgebraError::DimensionMismatch),
            res matches Ok(v) ==> v.value() == eval_mle(
                self.table(),
                values(point@),
                F::modulus(),
            ),
    {
        if point.len() != self.num_vars {
            return Err(AlgebraError::DimensionMismatch);
        }
        let ghost m = F::modulus();
        let ghost pvals = values(point@);
        let mut cur: Vec<F> = Vec::new();
        let mut i: usize = 0;
        while i < self.evals.len()
            invariant
                i <= self.evals@.len(),
                cur@ == self.evals@.take(i as int),
            decreases self.evals@.len() - i,
        {
            cur.push(self.evals[i]);
            i = i + 1;
        }
        assert(cur@ =~= self.evals@);
        proof {
            assert(pvals.skip(0) =~= pvals);
            assert(values(cur@) == self.table());
        }
        let mut k: usize = 0;
        while k < point.len()
            invariant
                k <= point@.len(),
                point@.len() == self.num_vars,
                self.wf(),
                pvals == values(point@),
                m == F::modulus(),
                cur@.len() == pow2((self.num_vars - k) as nat),
                eval_mle(values(cur@), pvals.skip(k as int), m) == eval_mle(
                    self.table(),
                    pvals,
                    m,
                ),
            decreases point@.len() - k,
        {
            proof {
                vstd::arithmetic::power2::lemma_pow2_unfold((self.num_vars - k) as nat);
            }
            let folded = fold_once(&cur, point[k]);
            proof {
                let pre = values(cur@);
                let rest = pvals.skip(k as int);
                assert(rest[0] == point@[k as int].value());
                assert(rest.skip(1) =~= pvals.skip(k as int + 1));
                assert(eval_mle(pre, rest, m) == eval_mle(bind_spec(pre, rest[0], m), rest.skip(1), m));
            }
            cur = folded;
            k = k + 1;
        }
        proof {
            assert(pvals.skip(k as int) =~= Seq::<int>::empty());
            assert(cur@.len() == pow2(0));
            vstd::arithmetic::power2::lemma2_to64();
        }
        let out = cur[0];
        proof {
            assert(out.value() == values(cur@)[0]);
        }
        Ok(out)
    }
}

/// One folding pass: the affine interpolation of the two halves of a table,
/// shared by binding and evaluation.
fn fold_once<F: FieldOps>(evals: &Vec<F>, r: F) -> (out: Vec<F>)
    requires
        evals@.len() % 2 == 0,
    ensures
        out@.len() == evals@.len() / 2,
        values(out@) == bind_spec(values(evals@), r.value(), F::modulus()),
{
    let ghost m = F::modulus();
    let ghost target = bind_spec(values(evals@), r.value(), m);
    proof {
        F::modulus_facts();
    }
    let half = evals.len() / 2;
    let mut out: Vec<F> = Vec::new();
    let mut i: usize = 0;
    while i < half
        invariant
            i <= half,
            evals@.len() <= usize::MAX,
            half == evals@.len() / 2,
            evals@.len() % 2 == 0,
            m == F::modulus(),
            m > 1,
            target == bind_spec(values(evals@), r.value(), m),
            out@.len() == i,
            forall|j: int| 0 <= j < i ==> values(out@)[j] == target[j],
        decreases half - i,
    {
        proof {
            assert(half + i < evals@.len());
        }
        let low = evals[i];
        let high = evals[half + i];
        let folded = low.fadd(r.fmul(high.fsub(low)));
        proof {
            let l = low.value();
            let h = high.value();
            let rv = r.value();
            vstd::arithmetic::div_mod::lemma_mul_mod_noop_right(rv, h - l, m);
            vstd::arithmetic::div_mod::lemma_add_mod_noop_right(l, rv * (h - l), m);
            assert(folded.value() == (l + rv * (h - l)) % m);
            assert(values(evals@)[i as int] == l);
            assert(values(evals@)[i + half] == h);
        }
        out.push(folded);
        i = i + 1;
    }
    proof {
        assert(values(out@) =~= target);
    }
    out
}


/// One binding step without reduction: the affine interpolation of the two
/// halves of a table over the plain integers.
pub open spec fn fold_pure(t: Seq<int>, r: int) -> Seq<int> {
    Seq::new((t.len() / 2) as nat, |i: int| t[i] + r * (t[i + t.len() / 2] - t[i]))
}

/// The closed-form multilinear-extension value: the weighted sum over the
/// hypercube vertices, each table entry weighted by the product over
/// coordinates of `point[k]` where the vertex bit is one and `1 - point[k]`
/// where it is zero; written in factored (recursive) form, splitting on the
/// top variable first.
pub open spec fn closed_form(t: Seq<int>, point: Seq<int>) -> int
    decreases point.len(),
{
    if point.len() == 0 {
        t[0]
    } else {
        (1 - point[0]) * closed_form(t.take(t.len() as int / 2), point.skip(1)) + point[0]
            * closed_form(t.skip(t.len() as int / 2), point.skip(1))
    }
}

proof fn lemma_closed_form_mod(t1: Seq<int>, t2: Seq<int>, p: Seq<int>, m: int)
    requires
        m > 0,
        t1.len() == t2.len(),
        t1.len() == pow2(p.len()),
        forall|i: int| 0 <= i < t1.len() ==> #[trigger] (t1[i] % m) == t2[i] % m,
    ensures
        closed_form(t1, p) % m == closed_form(t2, p) % m,
    decreases p.len(),
{
    vstd::arithmetic::power2::lemma_pow2_pos(p.len());
    if p.len() == 0 {
    } else {
        vstd::arithmetic::power2::lemma_pow2_unfold(p.len());
        let half = t1.len() as int / 2;
        let q = p[0];
        let pp = p.skip(1);
        assert(forall|i: int|
            0 <= i < half ==> #[trigger] (t1.take(half)[i] % m) == t2.take(half)[i] % m);
        assert(forall|i: int|
            0 <= i < half ==> #[trigger] (t1.skip(half)[i] % m) == t2.skip(half)[i] % m);
        lemma_closed_form_mod(t1.take(half), t2.take(half), pp, m);
        lemma_closed_form_mod(t1.skip(half), t2.skip(half), pp, m);
        let a1 = closed_form(t1.take(half), pp);
        let a2 = closed_form(t2.take(half), pp);
        let b1 = closed_form(t1.skip(half), pp);
        let b2 = closed_form(t2.skip(half), pp);
        vstd::arithmetic::div_mod::lemma_mul_mod_noop_right(1 - q, a1, m);
        vstd::arithmetic::div_mod::lemma_mul_mod_noop_right(1 - q, a2, m);
        vstd::arithmetic::div_mod::lemma_mul_mod_noop_right(q, b1, m);
        vstd::arithmetic::div_mod::lemma_mul_mod_noop_right(q, b2, m);
        vstd::arithmetic::div_mod::lemma_add_mod_noop((1 - q) * a1, q * b1, m);
        vstd::arithmetic::div_mod::lemma_add_mod_noop((1 - q) * a2, q * b2, m);
    }
}

proof fn lemma_closed_form_fold(t: Seq<int>, r: int, p: Seq<int>)
    requires
        t.len() == 2 * pow2(p.len()),
    ensures
        closed_form(fold_pure(t, r), p) == (1 - r) * closed_form(
            t.take(t.len() as int / 2),
            p,
        ) + r * closed_form(t.skip(t.len() as int / 2), p),
    decreases p.len(),
{
    vstd::arithmetic::power2::lemma_pow2_pos(p.len());
    let half = t.len() as int / 2;
    let fp = fold_pure(t, r);
    if p.len() == 0 {
        assert(pow2(0) == 1) by {
            vstd::arithmetic::power2::lemma2_to64();
        }
        assert(fp[0] == t[0] + r * (t[1] - t[0]));
        assert(t.take(half)[0] == t[0]);
        assert(t.skip(half)[0] == t[1]);
        assert(t[0] + r * (t[1] - t[0]) == (1 - r) * t[0] + r * t[1]) by (nonlinear_arith);
    } else {
        vstd::arithmetic::power2::lemma_pow2_unfold(p.len());
        let q = p[0];
        let pp = p.skip(1);
        let quarter = half / 2;
        let lo = t.take(half);
        let hi = t.skip(half);
        let u = lo.take(quarter) + hi.take(quarter);
        let v = lo.skip(quarter) + hi.skip(quarter);
        assert(u.len() == 2 * pow2(pp.len()));
        assert(v.len() == 2 * pow2(pp.len()));
        assert forall|i: int| 0 <= i < quarter implies #[trigger] fp.take(quarter)[i]
            == fold_pure(u, r)[i] by {
            assert(u[i] == t[i]);
            assert(u[i + quarter] == t[half + i]);
        }
        assert(fp.take(quarter) =~= fold_pure(u, r));
        assert forall|i: int| 0 <= i < quarter implies #[trigger] fp.skip(quarter)[i]
            == fold_pure(v, r)[i] by {
            assert(v[i] == t[quarter + i]);
            assert(v[i + quarter] == t[half + quarter + i]);
            assert(fp.skip(quarter)[i] == fp[quarter + i]);
        }
        assert(fp.skip(quarter) =~= fold_pure(v, r));
        lemma_closed_form_fold(u, r, pp);
        lemma_closed_form_fold(v, r, pp);
        assert(u.take(quarter) =~= lo.take(quarter));
        assert(u.skip(quarter) =~= hi.take(quarter));
        assert(v.take(quarter) =~= lo.skip(quarter));
        assert(v.skip(quarter) =~= hi.skip(quarter));
        let c1 = closed_form(lo.take(quarter), pp);
        let c2 = closed_form(lo.skip(quarter), pp);
        let c3 = closed_form(hi.take(quarter), pp);
        let c4 = closed_form(hi.skip(quarter), pp);
        assert(closed_form(fp, p) == (1 - q) * ((1 - r) * c1 + r * c3) + q * ((1 - r) * c2 + r
            * c4));
        assert(closed_form(lo, p) == (1 - q) * c1 + q * c2);
        assert(closed_form(hi, p) == (1 - q) * c3 + q * c4);
        assert((1 - q) * ((1 - r) * c1 + r * c3) + q * ((1 - r) * c2 + r * c4) == (1 - r) * ((1
            - q) * c1 + q * c2) + r * ((1 - q) * c3 + q * c4)) by (nonlinear_arith);
    }
}

/// Law: evaluation at a point equals the closed-form weighted sum over the
/// hypercube vertices, reduced to its canonical representative: the two
/// readings of the multilinear extension agree.
pub proof fn lemma_evaluate_closed_form(t: Seq<int>, point: Seq<int>, m: int)
    requires
        m > 1,
        t.len() == pow2(point.len()),
        forall|i: int| 0 <= i < t.len() ==> 0 <= #[trigger] t[i] < m,
    ensures
        eval_mle(t, point, m) == closed_form(t, point) % m,
    decreases point.len(),
{
    vstd::arithmetic::power2::lemma_pow2_pos(point.len());
    if point.len() == 0 {
        vstd::arithmetic::div_mod::lemma_small_mod(t[0] as nat, m as nat);
    } else {
        vstd::arithmetic::power2::lemma_pow2_unfold(point.len());
        let p0 = point[0];
        let pp = point.skip(1);
        let half = t.len() as int / 2;
        let bs = bind_spec(t, p0, m);
        let fpu = fold_pure(t, p0);
        assert(forall|i: int| 0 <= i < bs.len() ==> 0 <= #[trigger] bs[i] < m);
        lemma_evaluate_closed_form(bs, pp, m);
        assert forall|i: int| 0 <= i < bs.len() implies #[trigger] (bs[i] % m) == fpu[i] % m by {
            vstd::arithmetic::div_mod::lemma_mod_twice(fpu[i], m);
        }
        lemma_closed_form_mod(bs, fpu, pp, m);
        lemma_closed_form_fold(t, p0, pp);
        assert(closed_form(t, point) == (1 - p0) * closed_form(t.take(half), pp) + p0
            * closed_form(t.skip(half), pp));
    }
}

} // verus!
