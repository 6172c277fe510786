//! Field abstraction: the capability contract that the polynomial and MSM
//! engines are generic over, together with a small concrete prime field that
//! instantiates it.
use vstd::prelude::*;

verus! {

use crate::AlgebraError;

/// Capability contract for exact arithmetic in a prime field.
///
/// An implementor carries a canonical representative `value()` in
/// `[0, modulus())`; every operation is exact modular arithmetic on those
/// representatives. Inversion is total except on the additive identity, where
/// it fails with `AlgebraError::NotInvertible`. Sampling maps an externally
/// drawn entropy word onto the field.
pub trait FieldOps: Sized + Copy {
    /// The field's prime modulus.
    spec fn modulus() -> int;

    /// The canonical representative of this element, in `[0, modulus())`.
    spec fn value(self) -> int;

    /// The modulus is a nontrivial prime that fits a 64-bit representation.
    proof fn modulus_facts()
        ensures
            1 < Self::modulus() <= 0x1_0000_0000_0000_0000,
    ;

    /// Every element denotes a canonical representative.
    proof fn value_canonical(self)
        ensures
            0 <= self.value() < Self::modulus(),
    ;

    /// The additive identity.
    fn zero() -> (r: Self)
        ensures
            r.value() == 0,
    ;

    /// The multiplicative identity.
    fn one() -> (r: Self)
        ensures
            r.value() == 1int % Self::modulus(),
    ;

    /// Exact modular addition.
    fn fadd(self, other: Self) -> (r: Self)
        ensures
            r.value() == (self.value() + other.value()) % Self::modulus(),
    ;

    /// Exact modular subtraction.
    fn fsub(self, other: Self) -> (r: Self)
        ensures
            r.value() == (self.value() - other.value()) % Self::modulus(),
    ;

    /// Exact modular negation.
    fn fneg(self) -> (r: Self)
        ensures
            r.value() == (0 - self.value()) % Self::modulus(),
    ;

    /// Exact modular multiplication.
    fn fmul(self, other: Self) -> (r: Self)
        ensures
            r.value() == (self.value() * other.value()) % Self::modulus(),
    ;

    /// Multiplicative inverse; fails exactly on the additive identity.
    fn finv(self) -> (r: Result<Self, AlgebraError>)
        ensures
            self.value() == 0 <==> r is Err,
            r is Err ==> r == Result::<Self, AlgebraError>::Err(AlgebraError::NotInvertible),
            r matches Ok(inv) ==> (inv.value() * self.value()) % Self::modulus() == 1,
    ;

    /// Maps an externally drawn entropy word uniformly onto the field.
    fn sample(entropy: u64) -> (r: Self)
        ensures
            r.value() == entropy as int % Self::modulus(),
    ;

    /// The canonical representative as a machine word.
    fn to_u64(self) -> (r: u64)
        ensures
            r as int == self.value(),
    ;
}

/// Modulus of the concrete demonstration field `Fp`.
pub const FIELD_MODULUS: u64 = 13;

/// A concrete prime-field element: the integers modulo `FIELD_MODULUS`.
///
/// The proving system itself is generic over `FieldOps`; this small field
/// instantiates the contract so that the engines can be exercised end to end.
#[derive(Clone, Copy, Debug, PartialEq, Eq, Structural)]
pub struct Fp {
    v: u64,
}

impl FieldOps for Fp {
    open spec fn modulus() -> int {
        FIELD_MODULUS as int
    }

    closed spec fn value(self) -> int {
        self.v as int % (FIELD_MODULUS as int)
    }

    proof fn modulus_facts() {
    }

    proof fn value_canonical(self) {
    }

    fn zero() -> (r: Self) {
        Fp { v: 0 }
    }

    fn one() -> (r: Self) {
        Fp { v: 1 }
    }

    fn fadd(self, other: Self) -> (r: Self) {
        let s = self.v % FIELD_MODULUS + other.v % FIELD_MODULUS;
        let r = Fp { v: s % FIELD_MODULUS };
        proof {
            vstd::arithmetic::div_mod::lemma_mod_twice(s as int, FIELD_MODULUS as int);
        }
        r
    }

    fn fsub(self, other: Self) -> (r: Self) {
        let s = self.v % FIELD_MODULUS + FIELD_MODULUS - other.v % FIELD_MODULUS;
        let r = Fp { v: s % FIELD_MODULUS };
        proof {
            let m = FIELD_MODULUS as int;
            let d = self.v as int % m - other.v as int % m;
            vstd::arithmetic::div_mod::lemma_mod_add_multiples_vanish(d, m);
            vstd::arithmetic::div_mod::lemma_mod_twice(s as int, m);
        }
        r
    }

    fn fneg(self) -> (r: Self) {
        let s = FIELD_MODULUS - self.v % FIELD_MODULUS;
        let r = Fp { v: s % FIELD_MODULUS };
        proof {
            let m = FIELD_MODULUS as int;
            vstd::arithmetic::div_mod::lemma_mod_add_multiples_vanish(0 - self.v as int % m, m);
            vstd::arithmetic::div_mod::lemma_mod_twice(s as int, m);
        }
        r
    }

    fn fmul(self, other: Self) -> (r: Self) {
        let x = self.v % FIELD_MODULUS;
        let y = other.v % FIELD_MODULUS;
        proof {
            assert(x * y < FIELD_MODULUS * FIELD_MODULUS) by (nonlinear_arith)
                requires
                    x < FIELD_MODULUS,
                    y < FIELD_MODULUS,
            ;
        }
        let p = x * y;
        let r = Fp { v: p % FIELD_MODULUS };
        proof {
            vstd::arithmetic::div_mod::lemma_mod_twice(p as int, FIELD_MODULUS as int);
        }
        r
    }

    fn finv(self) -> (r: Result<Self, AlgebraError>) {
        let a = self.v % FIELD_MODULUS;
        if a == 0 {
            Err(AlgebraError::NotInvertible)
        } else {
            let inv: u64 = if a == 1 {
                1
            } else if a == 2 {
                7
            } else if a == 3 {
                9
            } else if a == 4 {
                10
            } else if a == 5 {
                8
            } else if a == 6 {
                11
            } else if a == 7 {
                2
            } else if a == 8 {
                5
            } else if a == 9 {
                3
            } else if a == 10 {
                4
            } else if a == 11 {
                6
            } else {
                12
            };
            proof {
                assert(a == self.value());
                let m = FIELD_MODULUS as int;
                let t1 = inv as int % m;
                let t2 = t1 * (a as int);
                if a == 1 {
                    assert(t1 == 1 && t2 % m == 1);
                } else if a == 2 {
                    assert(t1 == 7 && t2 % m == 1);
                } else if a == 3 {
                    assert(t1 == 9 && t2 % m == 1);
                } else if a == 4 {
                    assert(t1 == 10 && t2 % m == 1);
                } else if a == 5 {
                    assert(t1 == 8 && t2 % m == 1);
                } else if a == 6 {
                    assert(t1 == 11 && t2 % m == 1);
                } else if a == 7 {
                    assert(t1 == 2 && t2 % m == 1);
                } else if a == 8 {
                    assert(t1 == 5 && t2 % m == 1);
                } else if a == 9 {
                    assert(t1 == 3 && t2 % m == 1);
                } else if a == 10 {
                    assert(t1 == 4 && t2 % m == 1);
                } else if a == 11 {
                    assert(t1 == 6 && t2 % m == 1);
                } else {
                    assert(t1 == 12 && t2 % m == 1);
                }
            }
            Ok(Fp { v: inv })
        }
    }

    fn sample(entropy: u64) -> (r: Self) {
        let r = Fp { v: entropy % FIELD_MODULUS };
        proof {
            vstd::arithmetic::div_mod::lemma_mod_twice(entropy as int, FIELD_MODULUS as int);
        }
        r
    }

    fn to_u64(self) -> (r: u64) {
        self.v % FIELD_MODULUS
    }
}

/// Relies on rand::random: draws a value from the thread-local generator.
/// The result depends on external entropy, so nothing is promised of it.
pub assume_specification<T>[ rand::random::<T> ]() -> (r: T)
    where
        rand::distributions::Standard: rand::distributions::Distribution<T>,
;

/// Draws a uniformly random field element from the process entropy source.
/// Nothing can be stated of the value drawn beyond its canonicity, which
/// every element carries.
pub fn random_element<F: FieldOps>() -> F {
    let entropy: u64 = rand::random();
    F::sample(entropy)
}

/// The product of the canonical representatives of a table of field
/// elements.
pub open spec fn product_values<F: FieldOps>(s: Seq<F>) -> int
    decreases s.len(),
{
    if s.len() == 0 {
        1
    } else {
        product_values(s.drop_last()) * s.last().value()
    }
}

/// Inverts every entry of a table with a single field inversion
/// (a batched inversion pass): the running products of the entries are
/// formed, their total is inverted once, and the individual inverses are
/// unwound from it. Fails with `NotInvertible` exactly when some entry is
/// the additive identity.
#[verifier::rlimit(50)]
pub fn batch_inverse<F: FieldOps>(elems: &Vec<F>) -> (r: Result<Vec<F>, AlgebraError>)
    ensures
        (exists|i: int| 0 <= i < elems@.len() && #[trigger] elems@[i].value() == 0) <==> r is Err,
        r is Err ==> r == Result::<Vec<F>, AlgebraError>::Err(AlgebraError::NotInvertible),
        r matches Ok(invs) ==> invs@.len() == elems@.len() && forall|i: int|
            0 <= i < elems@.len() ==> (#[trigger] invs@[i].value() * elems@[i].value())
                % F::modulus() == 1,
{
    proof {
        F::modulus_facts();
    }
    let ghost m = F::modulus();
    let n = elems.len();
    let mut i: usize = 0;
    while i < n
        invariant
            i <= n,
            n == elems@.len(),
            forall|k: int| 0 <= k < i ==> #[trigger] elems@[k].value() != 0,
        decreases n - i,
    {
        if elems[i].to_u64() == 0 {
            proof {
                elems@[i as int].value_canonical();
            }
            return Err(AlgebraError::NotInvertible);
        }
        i = i + 1;
    }
    if n == 0 {
        return Ok(Vec::new());
    }
    let mut prefixes: Vec<F> = Vec::new();
    let mut i: usize = 0;
    while i < n
        invariant
            i <= n,
            n == elems@.len(),
            n >= 1,
            m == F::modulus(),
            m > 1,
            prefixes@.len() == i,
            forall|k: int|
                0 <= k < i ==> #[trigger] prefixes@[k].value() == product_values(
                    elems@.take(k + 1),
                ) % m,
        decreases n - i,
    {
        let cur = if i == 0 {
            let first = elems[0];
            proof {
                first.value_canonical();
                vstd::arithmetic::div_mod::lemma_small_mod(first.value() as nat, m as nat);
                assert(elems@.take(1).drop_last() =~= Seq::<F>::empty());
                assert(product_values(elems@.take(1).drop_last()) == 1);
                assert(elems@.take(1).last() == elems@[0]);
                assert(1int * first.value() == first.value()) by (nonlinear_arith);
            }
            first
        } else {
            let next = prefixes[i - 1].fmul(elems[i]);
            proof {
                let ii = i as int;
                let pre = product_values(elems@.take(ii));
                assert(elems@.take(ii + 1).drop_last() =~= elems@.take(ii));
                assert(elems@.take(ii + 1).last() == elems@[ii]);
                vstd::arithmetic::div_mod::lemma_mul_mod_noop_left(
                    pre,
                    elems@[ii].value(),
                    m,
                );
            }
            next
        };
        prefixes.push(cur);
        i = i + 1;
    }
    let mut invs: Vec<F> = Vec::new();
    let mut i: usize = 0;
    while i < n
        invariant
            i <= n,
            invs@.len() == i,
        decreases n - i,
    {
        invs.push(F::zero());
        i = i + 1;
    }
    proof {
        assert(elems@.take(n as int) =~= elems@);
    }
    match prefixes[n - 1].finv() {
        Err(_) => {
            // A field has no zero divisors, so the total product of nonzero
            // entries cannot be zero at run time; the capability contract
            // leaves that open, so each entry is inverted on its own.
            let mut i: usize = 0;
            while i < n
                invariant
                    i <= n,
                    n == elems@.len(),
                    m == F::modulus(),
                    invs@.len() == n,
                    forall|k: int| 0 <= k < n ==> #[trigger] elems@[k].value() != 0,
                    forall|k: int|
                        0 <= k < i ==> (#[trigger] invs@[k].value() * elems@[k].value()) % m
                            == 1,
                decreases n - i,
            {
                let inv = match elems[i].finv() {
                    Ok(x) => x,
                    Err(_) => vstd::pervasive::unreached(),
                };
                invs.set(i, inv);
                i = i + 1;
            }
            Ok(invs)
        },
        Ok(total_inv) => {
            let mut acc = total_inv;
            proof {
                vstd::arithmetic::div_mod::lemma_mul_mod_noop_right(
                    acc.value(),
                    product_values(elems@.take(n as int)),
                    m,
                );
            }
            let mut d = n;
            while d > 0
                invariant
                    d <= n,
                    n == elems@.len(),
                    n >= 1,
                    m == F::modulus(),
                    m > 1,
                    invs@.len() == n,
                    prefixes@.len() == n,
                    forall|k: int|
                        0 <= k < n ==> #[trigger] prefixes@[k].value() == product_values(
                            elems@.take(k + 1),
                        ) % m,
                    d >= 1 ==> (acc.value() * product_values(elems@.take(d as int))) % m == 1,
                    forall|k: int|
                        d <= k < n ==> (#[trigger] invs@[k].value() * elems@[k].value()) % m
                            == 1,
                decreases d,
            {
                d = d - 1;
                let ghost di = d as int;
                proof {
                    assert(elems@.take(di + 1).drop_last() =~= elems@.take(di));
                    assert(elems@.take(di + 1).last() == elems@[di]);
                }
                let ghost av = acc.value();
                let ghost vi = elems@[di].value();
                let ghost pd = product_values(elems@.take(di));
                if d == 0 {
                    proof {
                        assert(elems@.take(0) =~= Seq::<F>::empty());
                        assert(product_values(elems@.take(1)) == 1int * vi);
                        assert(1int * vi == vi) by (nonlinear_arith);
                        assert((av * vi) % m == 1);
                    }
                    invs.set(0, acc);
                } else {
                    let inv_d = acc.fmul(prefixes[d - 1]);
                    proof {
                        vstd::arithmetic::div_mod::lemma_mul_mod_noop_right(av, pd, m);
                        assert(inv_d.value() == (av * pd) % m);
                        vstd::arithmetic::div_mod::lemma_mul_mod_noop_left(av * pd, vi, m);
                        assert((av * pd) * vi == av * (pd * vi)) by (nonlinear_arith);
                        assert(pd * vi == product_values(elems@.take(di + 1)));
                        assert((inv_d.value() * vi) % m == (av * product_values(
                            elems@.take(di + 1),
                        )) % m);
                    }
                    invs.set(d, inv_d);
                    let next = acc.fmul(elems[d]);
                    proof {
                        vstd::arithmetic::div_mod::lemma_mul_mod_noop_left(av * vi, pd, m);
                        assert((av * vi) * pd == av * (pd * vi)) by (nonlinear_arith);
                        assert(next.value() == (av * vi) % m);
                        assert((next.value() * pd) % m == (av * product_values(
                            elems@.take(di + 1),
                        )) % m);
                    }
                    acc = next;
                }
            }
            Ok(invs)
        },
    }
}

} // verus!
