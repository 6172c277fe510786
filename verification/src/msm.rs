//! Variable-base multi-scalar-multiplication engine: computes a linear
//! combination of group elements with field-element coefficients, by the
//! windowed bucket method, proved equal to the naive sum of scalar multiples.
use vstd::prelude::*;

verus! {

use crate::AlgebraError;
use crate::field::FieldOps;
use crate::group::GroupOps;
use crate::poly::values;
use vstd::arithmetic::power2::pow2;
use vstd::pervasive::VecAdditionalExecFns;

/// The canonical positions of a table of group elements.
pub open spec fn positions<G: GroupOps>(s: Seq<G>) -> Seq<int> {
    s.map_values(|x: G| x.value())
}

/// The width-`w` window digit of a scalar at window index `j`: the `j`-th
/// block of `w` bits of its binary representation.
pub open spec fn digit(s: int, j: nat, w: nat) -> int {
    (s / pow2(j * w) as int) % pow2(w) as int
}

/// The naive linear combination: the sum over all indices of
/// `scalars[i] * bases[i]`. This is the defining value of an MSM.
pub open spec fn lin_comb(scalars: Seq<int>, bases: Seq<int>) -> int
    decreases scalars.len(),
{
    if scalars.len() == 0 {
        0
    } else {
        lin_comb(scalars.drop_last(), bases.drop_last()) + scalars.last() * bases.last()
    }
}

/// The contribution of window `j`: the sum over all indices of
/// `digit(scalars[i], j, w) * bases[i]`.
pub open spec fn window_sum(scalars: Seq<int>, bases: Seq<int>, j: nat, w: nat) -> int
    decreases scalars.len(),
{
    if scalars.len() == 0 {
        0
    } else {
        window_sum(scalars.drop_last(), bases.drop_last(), j, w) + digit(scalars.last(), j, w)
            * bases.last()
    }
}

/// The content of bucket `d` of window `j`: the sum of the bases whose
/// scalar has window digit exactly `d`.
pub open spec fn bucket_sum(scalars: Seq<int>, bases: Seq<int>, j: nat, w: nat, d: int) -> int
    decreases scalars.len(),
{
    if scalars.len() == 0 {
        0
    } else {
        bucket_sum(scalars.drop_last(), bases.drop_last(), j, w, d) + if digit(
            scalars.last(),
            j,
            w,
        ) == d {
            bases.last()
        } else {
            0
        }
    }
}

/// The sum of the buckets from `d` up to `mm - 1` of window `j`.
pub open spec fn bucket_tail(
    scalars: Seq<int>,
    bases: Seq<int>,
    j: nat,
    w: nat,
    d: int,
    mm: int,
) -> int
    decreases mm - d,
{
    if d >= mm || d < 0 {
        0
    } else {
        bucket_sum(scalars, bases, j, w, d) + bucket_tail(scalars, bases, j, w, d + 1, mm)
    }
}

/// The running-sum aggregation of the buckets from `d` up: bucket `e`
/// weighted by `e - d + 1`, the value the sequential bucket-reduction loop
/// accumulates.
pub open spec fn bucket_weighted_tail(
    scalars: Seq<int>,
    bases: Seq<int>,
    j: nat,
    w: nat,
    d: int,
    mm: int,
) -> int
    decreases mm - d,
{
    if d >= mm || d < 0 {
        0
    } else {
        bucket_tail(scalars, bases, j, w, d, mm) + bucket_weighted_tail(
            scalars,
            bases,
            j,
            w,
            d + 1,
            mm,
        )
    }
}

/// The buckets from `d` up, each weighted by its own index.
pub open spec fn indexed_bucket_tail(
    scalars: Seq<int>,
    bases: Seq<int>,
    j: nat,
    w: nat,
    d: int,
    mm: int,
) -> int
    decreases mm - d,
{
    if d >= mm || d < 0 {
        0
    } else {
        d * bucket_sum(scalars, bases, j, w, d) + indexed_bucket_tail(
            scalars,
            bases,
            j,
            w,
            d + 1,
            mm,
        )
    }
}

/// The combined value of windows `j` up to `nw - 1`, most significant last:
/// Horner's rule in base `pow2(w)`.
pub open spec fn horner_tail(scalars: Seq<int>, bases: Seq<int>, j: nat, nw: nat, w: nat) -> int
    decreases nw - j,
{
    if j >= nw {
        0
    } else {
        window_sum(scalars, bases, j, w) + pow2(w) as int * horner_tail(
            scalars,
            bases,
            j + 1,
            nw,
            w,
        )
    }
}

/// The digits of a single scalar from window `j` up, recombined in base
/// `pow2(w)`.
pub open spec fn digit_tail(x: int, j: nat, nw: nat, w: nat) -> int
    decreases nw - j,
{
    if j >= nw {
        0
    } else {
        digit(x, j, w) + pow2(w) as int * digit_tail(x, j + 1, nw, w)
    }
}

proof fn lemma_push_parts(s: Seq<int>, b: Seq<int>, x: int, y: int)
    ensures
        s.push(x).drop_last() == s,
        b.push(y).drop_last() == b,
        s.push(x).last() == x,
        b.push(y).last() == y,
        s.push(x).len() == s.len() + 1,
{
    assert(s.push(x).drop_last() =~= s);
    assert(b.push(y).drop_last() =~= b);
}

proof fn lemma_ibt_push(
    s: Seq<int>,
    b: Seq<int>,
    x: int,
    y: int,
    j: nat,
    w: nat,
    d: int,
    mm: int,
)
    requires
        0 <= d,
        0 <= digit(x, j, w) < mm,
    ensures
        indexed_bucket_tail(s.push(x), b.push(y), j, w, d, mm) == indexed_bucket_tail(
            s,
            b,
            j,
            w,
            d,
            mm,
        ) + if digit(x, j, w) >= d {
            digit(x, j, w) * y
        } else {
            0
        },
    decreases mm - d,
{
    lemma_push_parts(s, b, x, y);
    if d >= mm || d < 0 {
    } else {
        lemma_ibt_push(s, b, x, y, j, w, d + 1, mm);
        let dd = digit(x, j, w);
        if dd == d {
            assert(bucket_sum(s.push(x), b.push(y), j, w, d) == bucket_sum(s, b, j, w, d) + y);
            assert(d * (bucket_sum(s, b, j, w, d) + y) == d * bucket_sum(s, b, j, w, d) + d * y)
                by (nonlinear_arith);
        } else {
            assert(bucket_sum(s.push(x), b.push(y), j, w, d) == bucket_sum(s, b, j, w, d));
        }
    }
}

proof fn lemma_ibt_empty(j: nat, w: nat, d: int, mm: int)
    ensures
        indexed_bucket_tail(Seq::<int>::empty(), Seq::<int>::empty(), j, w, d, mm) == 0,
    decreases mm - d,
{
    if d >= mm || d < 0 {
    } else {
        lemma_ibt_empty(j, w, d + 1, mm);
        assert(d * bucket_sum(Seq::<int>::empty(), Seq::<int>::empty(), j, w, d) == 0)
            by (nonlinear_arith)
            requires
                bucket_sum(Seq::<int>::empty(), Seq::<int>::empty(), j, w, d) == 0,
        ;
    }
}

/// The index-weighted bucket totals of a window, starting at bucket one,
/// recover exactly that window's contribution.
proof fn lemma_ibt_eq_window_sum(s: Seq<int>, b: Seq<int>, j: nat, w: nat, mm: int)
    requires
        s.len() == b.len(),
        mm == pow2(w) as int,
        forall|i: int| 0 <= i < s.len() ==> 0 <= #[trigger] s[i],
    ensures
        indexed_bucket_tail(s, b, j, w, 1, mm) == window_sum(s, b, j, w),
    decreases s.len(),
{
    vstd::arithmetic::power2::lemma_pow2_pos(w);
    if s.len() == 0 {
        assert(s =~= Seq::<int>::empty());
        assert(b =~= Seq::<int>::empty());
        lemma_ibt_empty(j, w, 1, mm);
    } else {
        let s0 = s.drop_last();
        let b0 = b.drop_last();
        let x = s.last();
        let y = b.last();
        assert(s =~= s0.push(x));
        assert(b =~= b0.push(y));
        assert(x == s[s.len() - 1] && 0 <= s[s.len() - 1]);
        assert(forall|i: int| 0 <= i < s0.len() ==> 0 <= #[trigger] s0[i]);
        lemma_ibt_eq_window_sum(s0, b0, j, w, mm);
        vstd::arithmetic::div_mod::lemma_mod_division_less_than_divisor(
            x / pow2(j * w) as int,
            mm,
        );
        assert(0 <= digit(x, j, w) < mm);
        lemma_ibt_push(s0, b0, x, y, j, w, 1, mm);
        let dd = digit(x, j, w);
        if dd == 0 {
            assert(dd * y == 0) by (nonlinear_arith)
                requires
                    dd == 0,
            ;
        }
        assert(indexed_bucket_tail(s, b, j, w, 1, mm) == indexed_bucket_tail(s0, b0, j, w, 1, mm)
            + if dd >= 1 {
                dd * y
            } else {
                0
            });
        assert(window_sum(s, b, j, w) == window_sum(s0, b0, j, w) + dd * y);
    }
}

/// The running-sum aggregation equals the index-weighted aggregation,
/// shifted by the starting index.
proof fn lemma_wt_eq_ibt(s: Seq<int>, b: Seq<int>, j: nat, w: nat, d: int, mm: int)
    ensures
        bucket_weighted_tail(s, b, j, w, d, mm) == indexed_bucket_tail(s, b, j, w, d, mm) - (d
            - 1) * bucket_tail(s, b, j, w, d, mm),
    decreases mm - d,
{
    if d >= mm || d < 0 {
        assert((d - 1) * 0 == 0) by (nonlinear_arith);
    } else {
        lemma_wt_eq_ibt(s, b, j, w, d + 1, mm);
        let bs = bucket_sum(s, b, j, w, d);
        let bt1 = bucket_tail(s, b, j, w, d + 1, mm);
        let ibt1 = indexed_bucket_tail(s, b, j, w, d + 1, mm);
        assert(bucket_weighted_tail(s, b, j, w, d, mm) == bs + bt1 + ibt1 - d * bt1);
        assert(indexed_bucket_tail(s, b, j, w, d, mm) - (d - 1) * (bs + bt1) == d * bs + ibt1 - (
        d - 1) * (bs + bt1));
        assert(d * bs + ibt1 - (d - 1) * (bs + bt1) == bs + bt1 + ibt1 - d * bt1)
            by (nonlinear_arith);
    }
}

proof fn lemma_digit_tail_value(x: int, j: nat, nw: nat, w: nat)
    requires
        x >= 0,
        w >= 1,
        j <= nw,
    ensures
        digit_tail(x, j, nw, w) == (x / pow2(j * w) as int) % pow2(((nw - j) as nat) * w) as int,
    decreases nw - j,
{
    vstd::arithmetic::power2::lemma_pow2_pos(j * w);
    vstd::arithmetic::power2::lemma_pow2_pos(w);
    vstd::arithmetic::power2::lemma2_to64();
    vstd::arithmetic::div_mod::lemma_div_pos_is_pos(x, pow2(j * w) as int);
    let y = x / pow2(j * w) as int;
    if j == nw {
        assert(((nw - j) as nat) == 0);
        assert(((nw - j) as nat) * w == 0) by (nonlinear_arith)
            requires
                ((nw - j) as nat) == 0,
        ;
        assert(pow2(((nw - j) as nat) * w) == 1);
        assert(y % 1int == 0);
    } else {
        lemma_digit_tail_value(x, j + 1, nw, w);
        let rest = (nw - j - 1) as nat;
        vstd::arithmetic::power2::lemma_pow2_pos(rest * w);
        vstd::arithmetic::power2::lemma_pow2_adds(j * w, w);
        assert((j + 1) * w == j * w + w) by (nonlinear_arith)
            requires
                j >= 0,
                w >= 0,
        ;
        vstd::arithmetic::div_mod::lemma_div_denominator(
            x,
            pow2(j * w) as int,
            pow2(w) as int,
        );
        assert(x / pow2((j + 1) * w) as int == y / pow2(w) as int);
        vstd::arithmetic::div_mod::lemma_breakdown(y, pow2(w) as int, pow2(rest * w) as int);
        vstd::arithmetic::power2::lemma_pow2_adds(w, rest * w);
        assert(((nw - j) as nat) * w == w + rest * w) by (nonlinear_arith)
            requires
                j < nw,
                rest == (nw - j - 1) as nat,
                w >= 0,
        ;
        assert(y % pow2(((nw - j) as nat) * w) as int == pow2(w) as int * ((y / pow2(w) as int)
            % pow2(rest * w) as int) + y % pow2(w) as int);
    }
}

/// A scalar below `pow2(64)` is exactly the base-`pow2(w)` recombination of
/// its window digits, when the windows cover 64 bits.
proof fn lemma_digit_tail_full(x: int, nw: nat, w: nat)
    requires
        0 <= x < pow2(64),
        nw * w >= 64,
        w >= 1,
    ensures
        digit_tail(x, 0, nw, w) == x,
{
    lemma_digit_tail_value(x, 0, nw, w);
    vstd::arithmetic::power2::lemma2_to64();
    vstd::arithmetic::div_mod::lemma_div_basics(x);
    assert(x / pow2(0) as int == x);
    if nw * w > 64 {
        vstd::arithmetic::power2::lemma_pow2_strictly_increases(64, nw * w);
    }
    vstd::arithmetic::div_mod::lemma_small_mod(x as nat, pow2(nw * w));
}

proof fn lemma_horner_push(s: Seq<int>, b: Seq<int>, x: int, y: int, j: nat, nw: nat, w: nat)
    ensures
        horner_tail(s.push(x), b.push(y), j, nw, w) == horner_tail(s, b, j, nw, w) + digit_tail(
            x,
            j,
            nw,
            w,
        ) * y,
    decreases nw - j,
{
    lemma_push_parts(s, b, x, y);
    if j >= nw {
        assert(digit_tail(x, j, nw, w) * y == 0) by (nonlinear_arith)
            requires
                digit_tail(x, j, nw, w) == 0,
        ;
    } else {
        lemma_horner_push(s, b, x, y, j + 1, nw, w);
        assert(window_sum(s.push(x), b.push(y), j, w) == window_sum(s, b, j, w) + digit(x, j, w)
            * y);
        let p = pow2(w) as int;
        let h1 = horner_tail(s, b, j + 1, nw, w);
        let dt1 = digit_tail(x, j + 1, nw, w);
        assert(p * (h1 + dt1 * y) == p * h1 + p * dt1 * y) by (nonlinear_arith);
        assert(digit(x, j, w) * y + p * dt1 * y == (digit(x, j, w) + p * dt1) * y)
            by (nonlinear_arith);
    }
}

proof fn lemma_horner_empty(j: nat, nw: nat, w: nat)
    ensures
        horner_tail(Seq::<int>::empty(), Seq::<int>::empty(), j, nw, w) == 0,
    decreases nw - j,
{
    if j < nw {
        lemma_horner_empty(j + 1, nw, w);
    }
}

/// The windowed Horner combination of all window contributions equals the
/// naive linear combination, whenever the windows cover 64 bits and every
/// scalar fits 64 bits.
proof fn lemma_horner_eq_lin_comb(s: Seq<int>, b: Seq<int>, nw: nat, w: nat)
    requires
        s.len() == b.len(),
        nw * w >= 64,
        w >= 1,
        forall|i: int| 0 <= i < s.len() ==> 0 <= #[trigger] s[i] < pow2(64),
    ensures
        horner_tail(s, b, 0, nw, w) == lin_comb(s, b),
    decreases s.len(),
{
    if s.len() == 0 {
        assert(s =~= Seq::<int>::empty());
        assert(b =~= Seq::<int>::empty());
        lemma_horner_empty(0, nw, w);
    } else {
        let s0 = s.drop_last();
        let b0 = b.drop_last();
        let x = s.last();
        let y = b.last();
        assert(s =~= s0.push(x));
        assert(b =~= b0.push(y));
        assert(x == s[s.len() - 1] && 0 <= s[s.len() - 1] < pow2(64));
        assert(forall|i: int| 0 <= i < s0.len() ==> 0 <= #[trigger] s0[i] < pow2(64));
        lemma_horner_eq_lin_comb(s0, b0, nw, w);
        lemma_horner_push(s0, b0, x, y, 0, nw, w);
        lemma_digit_tail_full(x, nw, w);
        assert(horner_tail(s, b, 0, nw, w) == horner_tail(s0, b0, 0, nw, w) + x * y);
        assert(lin_comb(s, b) == lin_comb(s0, b0) + x * y);
    }
}

/// Chooses the window width from the input size; a larger input justifies a
/// wider window. This is a performance parameter only: the result is proved
/// equal to the naive linear combination for every width in range.
fn window_width(n: usize) -> (w: usize)
    ensures
        1 <= w <= 16,
{
    if n < 32 {
        3
    } else if n < 1024 {
        8
    } else {
        12
    }
}

/// Scalar multiplication by repeated doubling and adding along the bits of
/// the scalar: the building block the naive MSM definition repeats per term.
#[verifier::rlimit(50)]
pub fn scalar_mul<G: GroupOps>(base: G, scalar: G::Scalar) -> (r: G)
    ensures
        r.value() == (scalar.value() * base.value()) % G::order(),
{
    proof {
        G::order_facts();
        <G::Scalar as FieldOps>::modulus_facts();
        scalar.value_canonical();
        base.value_canonical();
        vstd::arithmetic::power2::lemma2_to64();
    }
    let ghost nn = G::order();
    let ghost bv = base.value();
    let u = scalar.to_u64();
    let mut acc = G::identity();
    let mut pw = base;
    let mut t: u64 = 0;
    proof {
        assert(pow2(0) == 1);
        assert(u as int % 1int == 0);
        assert((0int * bv) == 0) by (nonlinear_arith);
        assert(0int % nn == 0);
        vstd::arithmetic::div_mod::lemma_small_mod(bv as nat, nn as nat);
        assert((1int * bv) == bv) by (nonlinear_arith);
    }
    while t < 64
        invariant
            t <= 64,
            nn == G::order(),
            nn > 1,
            bv == base.value(),
            u as int == scalar.value(),
            acc.value() == ((u as int % pow2(t as nat) as int) * bv) % nn,
            pw.value() == (pow2(t as nat) as int * bv) % nn,
        decreases 64 - t,
    {
        let ghost tn = t as nat;
        proof {
            vstd::arithmetic::power2::lemma_pow2_pos(tn);
            vstd::arithmetic::power2::lemma_pow2_unfold(tn + 1);
            vstd::bits::lemma_u64_shr_is_div(u, t);
            vstd::bits::lemma_u64_low_bits_mask_is_mod(u >> t, 1);
            vstd::bits::lemma_low_bits_mask_values();
            vstd::arithmetic::power2::lemma2_to64();
            vstd::arithmetic::div_mod::lemma_breakdown(u as int, pow2(tn) as int, 2);
        }
        let bit = (u >> t) & 1;
        proof {
            assert(bit as int == (u as int / pow2(tn) as int) % 2);
            assert(u as int % pow2(tn + 1) as int == pow2(tn) as int * (bit as int) + u as int
                % pow2(tn) as int);
        }
        if bit == 1 {
            proof {
                assert(bit as int == 1);
                assert(pow2(tn) as int * (bit as int) == pow2(tn) as int * 1int);
                assert(pow2(tn) as int * 1int == pow2(tn) as int) by (nonlinear_arith);
                assert(u as int % pow2(tn + 1) as int == pow2(tn) as int + u as int % pow2(
                    tn,
                ) as int);
            }
            acc = acc.gadd(pw);
            proof {
                let a = (u as int % pow2(tn) as int) * bv;
                let b = pow2(tn) as int * bv;
                vstd::arithmetic::div_mod::lemma_add_mod_noop(a, b, nn);
                assert(a + b == (u as int % pow2(tn + 1) as int) * bv) by (nonlinear_arith)
                    requires
                        a == (u as int % pow2(tn) as int) * bv,
                        b == pow2(tn) as int * bv,
                        u as int % pow2(tn + 1) as int == pow2(tn) as int + u as int % pow2(
                            tn,
                        ) as int,
                ;
                assert(acc.value() == ((u as int % pow2(tn + 1) as int) * bv) % nn);
            }
        } else {
            proof {
                assert(bit as int == 0);
                assert(pow2(tn) as int * (bit as int) == 0) by (nonlinear_arith)
                    requires
                        bit as int == 0,
                ;
                assert(u as int % pow2(tn + 1) as int == u as int % pow2(tn) as int);
            }
        }
        pw = pw.gdouble();
        proof {
            vstd::arithmetic::div_mod::lemma_mul_mod_noop_right(2, pow2(tn) as int * bv, nn);
            assert(2 * (pow2(tn) as int * bv) == pow2(tn + 1) as int * bv) by (nonlinear_arith)
                requires
                    pow2(tn + 1) == 2 * pow2(tn),
            ;
            assert(pw.value() == (pow2(tn + 1) as int * bv) % nn);
        }
        t = t + 1;
    }
    proof {
        assert((u as nat) < pow2(64));
        vstd::arithmetic::div_mod::lemma_small_mod(u as nat, pow2(64));
    }
    acc
}

/// The naive MSM: the sum of `scalars[i] * bases[i]` accumulated term by
/// term, each term by double-and-add. Fails with `LengthMismatch` exactly
/// when the sequences differ in length; the empty sum is the identity.
pub fn msm_naive<G: GroupOps>(bases: &Vec<G>, scalars: &Vec<G::Scalar>) -> (r: Result<
    G,
    AlgebraError,
>)
    ensures
        r is Ok <==> bases@.len() == scalars@.len(),
        r is Err ==> r == Result::<G, AlgebraError>::Err(AlgebraError::LengthMismatch),
        r matches Ok(p) ==> p.value() == lin_comb(values(scalars@), positions(bases@))
            % G::order(),
        bases@.len() == 0 && scalars@.len() == 0 ==> (r matches Ok(p) && p.value() == 0),
{
    if bases.len() != scalars.len() {
        return Err(AlgebraError::LengthMismatch);
    }
    proof {
        G::order_facts();
    }
    let ghost nn = G::order();
    let ghost sv = values(scalars@);
    let ghost bv = positions(bases@);
    let n = bases.len();
    let mut acc = G::identity();
    let mut i: usize = 0;
    proof {
        assert(sv.take(0) =~= Seq::<int>::empty());
        assert(bv.take(0) =~= Seq::<int>::empty());
        assert(lin_comb(sv.take(0), bv.take(0)) == 0);
        assert(0int % nn == 0);
    }
    while i < n
        invariant
            i <= n,
            n == bases@.len(),
            n == scalars@.len(),
            nn == G::order(),
            nn > 1,
            sv == values(scalars@),
            bv == positions(bases@),
            acc.value() == lin_comb(sv.take(i as int), bv.take(i as int)) % nn,
        decreases n - i,
    {
        let term = scalar_mul(bases[i], scalars[i]);
        proof {
            let pre = lin_comb(sv.take(i as int), bv.take(i as int));
            let x = sv[i as int];
            let y = bv[i as int];
            assert(sv.take(i + 1).drop_last() =~= sv.take(i as int));
            assert(bv.take(i + 1).drop_last() =~= bv.take(i as int));
            assert(sv.take(i + 1).last() == x);
            assert(bv.take(i + 1).last() == y);
            assert(x == scalars@[i as int].value());
            assert(y == bases@[i as int].value());
            assert(lin_comb(sv.take(i + 1), bv.take(i + 1)) == pre + x * y);
            vstd::arithmetic::div_mod::lemma_add_mod_noop(pre, x * y, nn);
        }
        acc = acc.gadd(term);
        i = i + 1;
    }
    proof {
        assert(sv.take(n as int) =~= sv);
        assert(bv.take(n as int) =~= bv);
        if n == 0 {
            assert(lin_comb(sv, bv) == 0);
        }
    }
    Ok(acc)
}


/// MSM by the windowed bucket method. Every scalar is decomposed into
/// width-`w` windows of its binary representation; per window, each base is
/// accumulated into the bucket keyed by its digit, the buckets are reduced
/// by a running sum (weighting each bucket by its index), and the per-window
/// results are combined most-significant-first by repeated doubling:
/// Horner's rule in base `pow2(w)`. The window width is chosen from the
/// input size and affects performance only: for every width the result is
/// proved equal to the naive linear combination. Fails with
/// `LengthMismatch` exactly when the input lengths differ; the empty MSM is
/// the group identity.
#[verifier::rlimit(100)]
pub fn compute<G: GroupOps>(bases: &Vec<G>, scalars: &Vec<G::Scalar>) -> (r: Result<
    G,
    AlgebraError,
>)
    ensures
        r is Ok <==> bases@.len() == scalars@.len(),
        r is Err ==> r == Result::<G, AlgebraError>::Err(AlgebraError::LengthMismatch),
        r matches Ok(p) ==> p.value() == lin_comb(values(scalars@), positions(bases@))
            % G::order(),
        bases@.len() == 0 && scalars@.len() == 0 ==> (r matches Ok(p) && p.value() == 0),
{
    if bases.len() != scalars.len() {
        return Err(AlgebraError::LengthMismatch);
    }
    proof {
        G::order_facts();
        <G::Scalar as FieldOps>::modulus_facts();
        vstd::arithmetic::power2::lemma2_to64();
    }
    let ghost nn = G::order();
    let ghost sv = values(scalars@);
    let ghost bv = positions(bases@);
    let n = bases.len();
    proof {
        assert forall|i: int| 0 <= i < sv.len() implies 0 <= #[trigger] sv[i] < pow2(64) by {
            scalars@[i].value_canonical();
        }
        assert forall|i: int| 0 <= i < bv.len() implies 0 <= #[trigger] bv[i] < nn by {
            bases@[i].value_canonical();
        }
    }
    let w = window_width(n);
    let nw = (63 + w) / w;
    proof {
        let wi = w as int;
        let nwi = nw as int;
        vstd::arithmetic::div_mod::lemma_fundamental_div_mod(63 + wi, wi);
        vstd::arithmetic::div_mod::lemma_mod_division_less_than_divisor(63 + wi, wi);
        let rr = (63 + wi) % wi;
        assert(wi * nwi == 63 + wi - rr);
        assert(nwi * wi >= 64) by (nonlinear_arith)
            requires
                wi * nwi == 63 + wi - rr,
                rr < wi,
        ;
        assert((nwi - 1) * wi <= 63) by (nonlinear_arith)
            requires
                wi * nwi == 63 + wi - rr,
                rr >= 0,
        ;
        assert(1 <= nwi <= 64) by (nonlinear_arith)
            requires
                nwi * wi >= 64,
                wi * nwi <= 63 + wi,
                1 <= wi <= 16,
        ;
    }
    let mut acc = G::identity();
    let mut jj = nw;
    proof {
        assert(horner_tail(sv, bv, nw as nat, nw as nat, w as nat) == 0);
        assert(0int % nn == 0);
    }
    while jj > 0
        invariant
            jj <= nw,
            n == bases@.len(),
            n == scalars@.len(),
            nn == G::order(),
            nn > 1,
            sv == values(scalars@),
            bv == positions(bases@),
            sv.len() == n,
            bv.len() == n,
            forall|i: int| 0 <= i < sv.len() ==> 0 <= #[trigger] sv[i] < pow2(64),
            forall|i: int| 0 <= i < bv.len() ==> 0 <= #[trigger] bv[i] < nn,
            1 <= w <= 16,
            1 <= nw <= 64,
            nw as int * w as int >= 64,
            (nw as int - 1) * (w as int) <= 63,
            acc.value() == horner_tail(sv, bv, jj as nat, nw as nat, w as nat) % nn,
        decreases jj,
    {
        jj = jj - 1;
        let ghost hnext = horner_tail(sv, bv, (jj + 1) as nat, nw as nat, w as nat);
        proof {
            vstd::arithmetic::power2::lemma2_to64();
            assert(1int * hnext == hnext) by (nonlinear_arith);
        }
        let mut t: usize = 0;
        while t < w
            invariant
                t <= w,
                w <= 16,
                nn == G::order(),
                nn > 1,
                acc.value() == (pow2(t as nat) as int * hnext) % nn,
            decreases w - t,
        {
            proof {
                vstd::arithmetic::power2::lemma_pow2_unfold(t as nat + 1);
                vstd::arithmetic::div_mod::lemma_mul_mod_noop_right(
                    2,
                    pow2(t as nat) as int * hnext,
                    nn,
                );
                assert(2 * (pow2(t as nat) as int * hnext) == pow2(t as nat + 1) as int * hnext)
                    by (nonlinear_arith)
                    requires
                        pow2(t as nat + 1) == 2 * pow2(t as nat),
                ;
            }
            acc = acc.gdouble();
            t = t + 1;
        }
        let mut mm: usize = 1;
        let mut tt: usize = 0;
        while tt < w
            invariant
                tt <= w,
                w <= 16,
                mm == pow2(tt as nat),
            decreases w - tt,
        {
            proof {
                vstd::arithmetic::power2::lemma_pow2_unfold(tt as nat + 1);
                vstd::arithmetic::power2::lemma_pow2_strictly_increases(tt as nat, 16);
                vstd::arithmetic::power2::lemma2_to64();
            }
            mm = mm * 2;
            tt = tt + 1;
        }
        proof {
            if (w as nat) < 16 {
                vstd::arithmetic::power2::lemma_pow2_strictly_increases(w as nat, 16);
            }
            vstd::arithmetic::power2::lemma2_to64();
            assert(mm <= 65536);
            vstd::arithmetic::power2::lemma_pow2_unfold(w as nat);
            vstd::arithmetic::power2::lemma_pow2_pos((w - 1) as nat);
            assert(mm >= 2);
        }
        let mut buckets: Vec<G> = Vec::new();
        let mut e: usize = 0;
        while e < mm
            invariant
                e <= mm,
                buckets@.len() == e,
                forall|q: int| 0 <= q < e ==> #[trigger] buckets@[q].value() == 0,
            decreases mm - e,
        {
            buckets.push(G::identity());
            e = e + 1;
        }
        proof {
            vstd::arithmetic::mul::lemma_mul_inequality(jj as int, nw as int - 1, w as int);
            assert(sv.take(0) =~= Seq::<int>::empty());
            assert(bv.take(0) =~= Seq::<int>::empty());
            assert(0int % nn == 0);
            assert forall|q: int|
                0 <= q < mm implies bucket_sum(sv.take(0), bv.take(0), jj as nat, w as nat, q)
                % nn == 0 by {
                assert(bucket_sum(sv.take(0), bv.take(0), jj as nat, w as nat, q) == 0);
            }
        }
        let mask = (mm - 1) as u64;
        let shift = (jj * w) as u64;
        let mut i: usize = 0;
        while i < n
            invariant
                i <= n,
                n == bases@.len(),
                n == scalars@.len(),
                nn == G::order(),
                nn > 1,
                sv == values(scalars@),
                bv == positions(bases@),
                sv.len() == n,
                bv.len() == n,
                forall|q: int| 0 <= q < sv.len() ==> 0 <= #[trigger] sv[q] < pow2(64),
                forall|q: int| 0 <= q < bv.len() ==> 0 <= #[trigger] bv[q] < nn,
                1 <= w <= 16,
                shift as int == jj as int * w as int,
                shift < 64,
                mm == pow2(w as nat),
                2 <= mm <= 65536,
                mask as nat == vstd::bits::low_bits_mask(w as nat),
                buckets@.len() == mm,
                forall|q: int|
                    0 <= q < mm ==> #[trigger] buckets@[q].value() == bucket_sum(
                        sv.take(i as int),
                        bv.take(i as int),
                        jj as nat,
                        w as nat,
                        q,
                    ) % nn,
            decreases n - i,
        {
            let u = scalars[i].to_u64();
            let du = (u >> shift) & mask;
            proof {
                let ii = i as int;
                assert(sv[ii] == scalars@[ii].value());
                vstd::bits::lemma_u64_shr_is_div(u, shift);
                vstd::bits::lemma_u64_low_bits_mask_is_mod(u >> shift, w as nat);
                vstd::arithmetic::power2::lemma_pow2_pos(w as nat);
                assert(shift as nat == (jj as nat) * (w as nat));
                assert((u >> shift) as int == sv[ii] / pow2((jj as nat) * (w as nat)) as int);
                assert(du as int == (u >> shift) as int % pow2(w as nat) as int);
                assert(du as int == digit(sv[ii], jj as nat, w as nat));
                assert(du < mm as u64);
            }
            let d = du as usize;
            let updated = buckets[d].gadd(bases[i]);
            buckets.set(d, updated);
            proof {
                let ii = i as int;
                let jn = jj as nat;
                let wn = w as nat;
                assert(sv.take(ii + 1) =~= sv.take(ii).push(sv[ii]));
                assert(bv.take(ii + 1) =~= bv.take(ii).push(bv[ii]));
                lemma_push_parts(sv.take(ii), bv.take(ii), sv[ii], bv[ii]);
                assert forall|q: int|
                    0 <= q < mm implies #[trigger] buckets@[q].value() == bucket_sum(
                    sv.take(ii + 1),
                    bv.take(ii + 1),
                    jn,
                    wn,
                    q,
                ) % nn by {
                    if q == d as int {
                        let pre = bucket_sum(sv.take(ii), bv.take(ii), jn, wn, q);
                        assert(bucket_sum(sv.take(ii + 1), bv.take(ii + 1), jn, wn, q) == pre
                            + bv[ii]);
                        vstd::arithmetic::div_mod::lemma_add_mod_noop(pre, bv[ii], nn);
                        vstd::arithmetic::div_mod::lemma_small_mod(bv[ii] as nat, nn as nat);
                    } else {
                        assert(bucket_sum(sv.take(ii + 1), bv.take(ii + 1), jn, wn, q)
                            == bucket_sum(sv.take(ii), bv.take(ii), jn, wn, q));
                    }
                }
            }
            i = i + 1;
        }
        proof {
            assert(sv.take(n as int) =~= sv);
            assert(bv.take(n as int) =~= bv);
        }
        let mut running = G::identity();
        let mut total = G::identity();
        let mut d = mm;
        while d > 1
            invariant
                1 <= d <= mm,
                nn == G::order(),
                nn > 1,
                sv.len() == bv.len(),
                mm == pow2(w as nat),
                w <= 16,
                buckets@.len() == mm,
                forall|q: int|
                    0 <= q < mm ==> #[trigger] buckets@[q].value() == bucket_sum(
                        sv,
                        bv,
                        jj as nat,
                        w as nat,
                        q,
                    ) % nn,
                running.value() == bucket_tail(sv, bv, jj as nat, w as nat, d as int, mm as int)
                    % nn,
                total.value() == bucket_weighted_tail(
                    sv,
                    bv,
                    jj as nat,
                    w as nat,
                    d as int,
                    mm as int,
                ) % nn,
            decreases d,
        {
            d = d - 1;
            proof {
                let di = d as int;
                let jn = jj as nat;
                let wn = w as nat;
                let bs = bucket_sum(sv, bv, jn, wn, di);
                let bt1 = bucket_tail(sv, bv, jn, wn, di + 1, mm as int);
                let wt1 = bucket_weighted_tail(sv, bv, jn, wn, di + 1, mm as int);
                assert(bucket_tail(sv, bv, jn, wn, di, mm as int) == bs + bt1);
                assert(bucket_weighted_tail(sv, bv, jn, wn, di, mm as int) == (bs + bt1) + wt1);
                vstd::arithmetic::div_mod::lemma_add_mod_noop(bt1, bs, nn);
                vstd::arithmetic::div_mod::lemma_add_mod_noop(wt1, bs + bt1, nn);
            }
            running = running.gadd(buckets[d]);
            total = total.gadd(running);
        }
        proof {
            let jn = jj as nat;
            let wn = w as nat;
            lemma_wt_eq_ibt(sv, bv, jn, wn, 1, mm as int);
            lemma_ibt_eq_window_sum(sv, bv, jn, wn, mm as int);
            assert((1int - 1) * bucket_tail(sv, bv, jn, wn, 1, mm as int) == 0)
                by (nonlinear_arith);
            assert(total.value() == window_sum(sv, bv, jn, wn) % nn);
            vstd::arithmetic::div_mod::lemma_add_mod_noop(
                pow2(wn) as int * hnext,
                window_sum(sv, bv, jn, wn),
                nn,
            );
            assert(horner_tail(sv, bv, jn, nw as nat, wn) == window_sum(sv, bv, jn, wn) + pow2(
                wn,
            ) as int * hnext);
        }
        acc = acc.gadd(total);
    }
    proof {
        assert((nw as nat) * (w as nat) >= 64);
        lemma_horner_eq_lin_comb(sv, bv, nw as nat, w as nat);
        if n == 0 {
            assert(lin_comb(sv, bv) == 0);
        }
    }
    Ok(acc)
}

} // verus!
