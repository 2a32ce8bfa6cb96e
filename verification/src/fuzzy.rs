use vstd::prelude::*;
use vstd::arithmetic::div_mod::{
    lemma_div_basics, lemma_div_is_ordered, lemma_div_is_ordered_by_denominator,
    lemma_div_multiples_vanish, lemma_fundamental_div_mod_converse_div,
};
use crate::errors::FuzzyError;

verus! {

/// Fixed-point scale of membership degrees: a degree of 1.0 is `DEGREE_SCALE`.
pub const DEGREE_SCALE: u64 = 1048576;

/// The distance |x - b|.
pub open spec fn abs_diff(x: int, b: int) -> int {
    if x >= b {
        x - b
    } else {
        b - x
    }
}

/// The fixed-point raised-cosine bump at offset `k` from its center, with
/// half-width `a`: zero at and beyond the half-width, `DEGREE_SCALE` at the
/// center, and in between the smooth cubic (1 + 2t)(1 - t)^2 with t = k / a,
/// which agrees with the raised cosine (1 + cos(pi t)) / 2 at t = 0, 1/2 and
/// 1, and like it falls monotonically from peak to zero with level slope at
/// both ends.
pub open spec fn degree_of_offset(k: int, a: int) -> int
    recommends
        1 <= a,
        0 <= k,
{
    if k >= a {
        0
    } else {
        ((DEGREE_SCALE as int) * (a - k) * (a - k) * (a + 2 * k)) / (a * a * a)
    }
}

/// The degree of membership of the sample point `x` for shape parameters
/// `(a, b)`: a bump of half-width `a` centered at `b`. It is symmetric in
/// the offset from `b` and vanishes wherever |x - b| >= a, which includes
/// both boundary points of the sample domain.
pub open spec fn spec_degree(x: int, a: int, b: int) -> int {
    if a < 1 {
        0
    } else {
        degree_of_offset(abs_diff(x, b), a)
    }
}

/// Computes the fixed-point degree of membership of `x` for the raised-cosine
/// bump of half-width `a` centered at `b`.
pub fn membership_function(x: i64, a: i32, b: i32) -> (r: u64)
    requires
        1 <= a,
    ensures
        r as int == spec_degree(x as int, a as int, b as int),
        r <= DEGREE_SCALE,
{
    let diff: i128 = x as i128 - b as i128;
    let k: u128 = if diff >= 0 {
        diff as u128
    } else {
        (-diff) as u128
    };
    let ai: u128 = a as u128;
    if k >= ai {
        return 0;
    }
    let u: u128 = ai - k;
    let w: u128 = ai + 2 * k;
    proof {
        let ki = k as int;
        let av = a as int;
        let ui = av - ki;
        let wi = av + 2 * ki;
        let sc = DEGREE_SCALE as int;
        assert(1 <= ui <= 0x8000_0000);
        assert(1 <= wi < 0x1_8000_0000);
        let p1 = sc * ui;
        assert(sc <= p1 <= 0x8_0000_0000_0000) by (nonlinear_arith)
            requires
                p1 == sc * ui,
                sc == 0x10_0000,
                1 <= ui <= 0x8000_0000,
        ;
        let p2 = p1 * ui;
        assert(p1 <= p2 <= 0x4_0000_0000_0000_0000_0000) by (nonlinear_arith)
            requires
                p2 == p1 * ui,
                1 <= ui <= 0x8000_0000,
                1 <= p1 <= 0x8_0000_0000_0000,
        ;
        let p3 = p2 * wi;
        assert(p2 <= p3 <= 0x6_0000_0000_0000_0000_0000_0000_0000) by (nonlinear_arith)
            requires
                p3 == p2 * wi,
                1 <= wi < 0x1_8000_0000,
                1 <= p2 <= 0x4_0000_0000_0000_0000_0000,
        ;
        let d1 = av * av;
        assert(1 <= d1 <= 0x4000_0000_0000_0000) by (nonlinear_arith)
            requires
                d1 == av * av,
                1 <= av <= 0x8000_0000,
        ;
        let d2 = d1 * av;
        assert(1 <= d2 <= 0x2000_0000_0000_0000_0000_0000) by (nonlinear_arith)
            requires
                d2 == d1 * av,
                1 <= av <= 0x8000_0000,
                1 <= d1 <= 0x4000_0000_0000_0000,
        ;
        // the cubic never exceeds its peak: a^3 - (a-k)^2 (a+2k) == k^2 (3a-2k) >= 0
        assert(ui * ui * wi + ki * ki * (3 * av - 2 * ki) == av * av * av) by (nonlinear_arith)
            requires
                ui == av - ki,
                wi == av + 2 * ki,
        ;
        assert(ki * ki * (3 * av - 2 * ki) >= 0) by (nonlinear_arith)
            requires
                0 <= ki,
                ki < av,
        ;
        assert(ui * ui * wi <= av * av * av);
        assert(p3 <= sc * d2) by (nonlinear_arith)
            requires
                p1 == sc * ui,
                p2 == p1 * ui,
                p3 == p2 * wi,
                d1 == av * av,
                d2 == d1 * av,
                ui * ui * wi <= av * av * av,
                sc == 0x10_0000,
        ;
        lemma_div_is_ordered(p3, sc * d2, d2);
        lemma_div_multiples_vanish(sc, d2);
        assert(d2 * sc == sc * d2) by (nonlinear_arith);
        assert(p3 / d2 <= sc);
        vstd::arithmetic::div_mod::lemma_div_pos_is_pos(p3, d2);
        assert(p3 / d2 >= 0);
    }
    let num: u128 = DEGREE_SCALE as u128 * u * u * w;
    let den: u128 = ai * ai * ai;
    let q: u128 = num / den;
    q as u64
}

/// The total weight of a membership table.
pub open spec fn sum_weights(t: Seq<(i64, u64)>) -> int
    decreases t.len(),
{
    if t.len() == 0 {
        0
    } else {
        t[0].1 + sum_weights(t.drop_first())
    }
}

/// The weight-times-point sum of a membership table.
pub open spec fn sum_weighted(t: Seq<(i64, u64)>) -> int
    decreases t.len(),
{
    if t.len() == 0 {
        0
    } else {
        (t[0].1 as int) * (t[0].0 as int) + sum_weighted(t.drop_first())
    }
}

/// Division rounded half away from zero, for a positive divisor.
pub open spec fn round_div(num: int, den: int) -> int
    recommends
        1 <= den,
{
    if num >= 0 {
        (2 * num + den) / (2 * den)
    } else {
        -((2 * (-num) + den) / (2 * den))
    }
}

/// Saturation of an unbounded integer to the i32 range.
pub open spec fn clamp_i32(q: int) -> int {
    if q < -0x8000_0000 {
        -0x8000_0000
    } else if q > 0x7fff_ffff {
        0x7fff_ffff
    } else {
        q
    }
}

/// A membership table's total weight is never negative.
pub proof fn lemma_sum_weights_nonneg(t: Seq<(i64, u64)>)
    ensures
        sum_weights(t) >= 0,
    decreases t.len(),
{
    if t.len() > 0 {
        lemma_sum_weights_nonneg(t.drop_first());
    }
}

/// A membership table's total weight is at least any single entry's weight.
pub proof fn lemma_sum_weights_at_least(t: Seq<(i64, u64)>, i: int)
    requires
        0 <= i < t.len(),
    ensures
        sum_weights(t) >= t[i].1,
    decreases t.len(),
{
    if i == 0 {
        lemma_sum_weights_nonneg(t.drop_first());
    } else {
        lemma_sum_weights_at_least(t.drop_first(), i - 1);
        assert(t.drop_first()[i - 1] == t[i]);
    }
}

proof fn lemma_sum_weights_peel_last(t: Seq<(i64, u64)>)
    requires
        t.len() >= 1,
    ensures
        sum_weights(t) == sum_weights(t.drop_last()) + t.last().1,
    decreases t.len(),
{
    if t.len() == 1 {
        assert(t.drop_last() =~= Seq::<(i64, u64)>::empty());
        assert(t.drop_first() =~= Seq::<(i64, u64)>::empty());
    } else {
        lemma_sum_weights_peel_last(t.drop_first());
        assert(t.drop_first().drop_last() =~= t.drop_last().drop_first());
        assert(t.drop_last()[0] == t[0]);
        assert(t.drop_first().last() == t.last());
    }
}

proof fn lemma_sum_weighted_peel_last(t: Seq<(i64, u64)>)
    requires
        t.len() >= 1,
    ensures
        sum_weighted(t) == sum_weighted(t.drop_last()) + (t.last().1 as int) * (t.last().0 as int),
    decreases t.len(),
{
    if t.len() == 1 {
        assert(t.drop_last() =~= Seq::<(i64, u64)>::empty());
        assert(t.drop_first() =~= Seq::<(i64, u64)>::empty());
    } else {
        lemma_sum_weighted_peel_last(t.drop_first());
        assert(t.drop_first().drop_last() =~= t.drop_last().drop_first());
        assert(t.drop_last()[0] == t[0]);
        assert(t.drop_first().last() == t.last());
    }
}

/// The centroid identity for symmetric tables: when the sample points pair up
/// around a center `c` and paired points carry equal weights, the weighted
/// sum is exactly the center times the total weight.
pub proof fn lemma_symmetric_table_centroid(t: Seq<(i64, u64)>, c: int)
    requires
        forall|i: int| 0 <= i < t.len() ==> (#[trigger] t[i]).0 + t[t.len() - 1 - i].0 == 2 * c,
        forall|i: int| 0 <= i < t.len() ==> (#[trigger] t[i]).1 == t[t.len() - 1 - i].1,
    ensures
        sum_weighted(t) == c * sum_weights(t),
    decreases t.len(),
{
    if t.len() == 0 {
        assert(sum_weights(t) == 0);
        assert(sum_weighted(t) == 0);
        assert(c * 0 == 0) by (nonlinear_arith);
    } else if t.len() == 1 {
        assert(t[0].0 + t[t.len() - 1 - 0].0 == 2 * c);
        assert(t.drop_first() =~= Seq::<(i64, u64)>::empty());
        assert(sum_weights(Seq::<(i64, u64)>::empty()) == 0);
        assert(sum_weighted(Seq::<(i64, u64)>::empty()) == 0);
        assert(sum_weights(t) == t[0].1 as int);
        assert(sum_weighted(t) == (t[0].1 as int) * (t[0].0 as int));
        assert(t[0].0 as int == c);
        assert(sum_weighted(t) == c * sum_weights(t)) by (nonlinear_arith)
            requires
                sum_weighted(t) == (t[0].1 as int) * (t[0].0 as int),
                sum_weights(t) == t[0].1 as int,
                t[0].0 as int == c,
        ;
    } else {
        let n = t.len() as int;
        let w0 = t[0].1 as int;
        let x0 = t[0].0 as int;
        let wl = t[n - 1].1 as int;
        let xl = t[n - 1].0 as int;
        let m = t.drop_first().drop_last();
        assert(m.len() == n - 2);
        assert forall|i: int| 0 <= i < m.len() implies (#[trigger] m[i]).0 + m[m.len() - 1
            - i].0 == 2 * c && m[i].1 == m[m.len() - 1 - i].1 by {
            assert(m[i] == t[i + 1]);
            assert(m[m.len() - 1 - i] == t[n - 1 - (i + 1)]);
            assert(t[i + 1].0 + t[n - 1 - (i + 1)].0 == 2 * c);
            assert(t[i + 1].1 == t[n - 1 - (i + 1)].1);
        }
        lemma_symmetric_table_centroid(m, c);
        lemma_sum_weighted_peel_last(t.drop_first());
        lemma_sum_weights_peel_last(t.drop_first());
        assert(t.drop_first().last() == t[n - 1]);
        assert(t[0].0 + t[n - 1 - 0].0 == 2 * c);
        assert(t[0].1 == t[n - 1 - 0].1);
        let sm = sum_weights(m);
        assert(sum_weights(t) == w0 + sm + wl);
        assert(sum_weighted(t) == w0 * x0 + (c * sm + wl * xl));
        assert(sum_weighted(t) == c * sum_weights(t)) by (nonlinear_arith)
            requires
                sum_weighted(t) == w0 * x0 + (c * sm + wl * xl),
                sum_weights(t) == w0 + sm + wl,
                x0 + xl == 2 * c,
                w0 == wl,
        ;
    }
}

/// The degree of membership at the center point is the full scale.
pub proof fn lemma_degree_at_center(a: int, b: int)
    requires
        1 <= a,
    ensures
        spec_degree(b, a, b) == DEGREE_SCALE as int,
{
    let sc = DEGREE_SCALE as int;
    assert(a * a * a >= 1) by (nonlinear_arith)
        requires
            a >= 1,
    ;
    lemma_div_multiples_vanish(sc, a * a * a);
    assert((DEGREE_SCALE as int) * (a - 0) * (a - 0) * (a + 2 * 0) == (a * a * a) * (
    DEGREE_SCALE as int)) by (nonlinear_arith);
    assert(abs_diff(b, b) == 0);
}

/// Rounded division is exact on multiples of the divisor.
pub proof fn lemma_round_div_exact(q: int, den: int)
    requires
        1 <= den,
    ensures
        round_div(q * den, den) == q,
{
    if q >= 0 {
        assert(q * den >= 0) by (nonlinear_arith)
            requires
                q >= 0,
                den >= 1,
        ;
        assert(2 * (q * den) + den == q * (2 * den) + den) by (nonlinear_arith);
        lemma_fundamental_div_mod_converse_div(2 * (q * den) + den, 2 * den, q, den);
    } else {
        assert(q * den <= -den) by (nonlinear_arith)
            requires
                q <= -1,
                den >= 1,
        ;
        assert(-(q * den) == (-q) * den) by (nonlinear_arith);
        assert(2 * ((-q) * den) + den == (-q) * (2 * den) + den) by (nonlinear_arith);
        lemma_fundamental_div_mod_converse_div(2 * ((-q) * den) + den, 2 * den, -q, den);
    }
}

/// Builds the membership table of the pair `(a, b)`: one sample per integer
/// point of the ascending domain `b - a ..= b + a` (computed exactly, wide
/// enough that the endpoints cannot wrap), each carrying its fixed-point
/// degree of membership.
pub fn build_defuzz_table(a: i32, b: i32) -> (t: Vec<(i64, u64)>)
    requires
        1 <= a,
    ensures
        t@.len() == 2 * (a as int) + 1,
        forall|i: int| 0 <= i < t@.len() ==> (#[trigger] t@[i]).0 as int == b as int - a as int + i,
        forall|i: int|
            0 <= i < t@.len() ==> (#[trigger] t@[i]).1 as int == spec_degree(
                b as int - a as int + i,
                a as int,
                b as int,
            ),
        forall|i: int| 0 <= i < t@.len() ==> (#[trigger] t@[i]).1 <= DEGREE_SCALE,
{
    let lo: i64 = b as i64 - a as i64;
    let hi: i64 = b as i64 + a as i64;
    let mut table: Vec<(i64, u64)> = Vec::new();
    let mut x: i64 = lo;
    while x <= hi
        invariant
            1 <= a,
            lo as int == b as int - a as int,
            hi as int == b as int + a as int,
            lo as int <= x as int <= hi as int + 1,
            table@.len() == x as int - lo as int,
            forall|i: int|
                0 <= i < table@.len() ==> (#[trigger] table@[i]).0 as int == lo as int + i,
            forall|i: int|
                0 <= i < table@.len() ==> (#[trigger] table@[i]).1 as int == spec_degree(
                    lo as int + i,
                    a as int,
                    b as int,
                ),
            forall|i: int| 0 <= i < table@.len() ==> (#[trigger] table@[i]).1 <= DEGREE_SCALE,
        decreases hi as int + 1 - x as int,
    {
        let m = membership_function(x, a, b);
        table.push((x, m));
        x = x + 1;
    }
    table
}

/// Reduces a membership table to one crisp integer by the centroid method:
/// the weighted mean of the sample points, rounded half away from zero and
/// saturated to the i32 range. A table whose total weight is zero has no
/// centroid and is rejected as `InvalidParameter`.
///
/// The bounds asked of the table entries keep the 128-bit accumulators exact;
/// every table the pipeline builds satisfies them.
pub fn centroid(defuzz_table: &Vec<(i64, u64)>) -> (r: Result<i32, FuzzyError>)
    requires
        forall|i: int|
            0 <= i < defuzz_table@.len() ==> (#[trigger] defuzz_table@[i]).1 <= DEGREE_SCALE,
        forall|i: int|
            0 <= i < defuzz_table@.len() ==> -0x2_0000_0000 <= (#[trigger] defuzz_table@[i]).0
                <= 0x2_0000_0000,
    ensures
        sum_weights(defuzz_table@) == 0 ==> r == Err::<i32, FuzzyError>(FuzzyError::InvalidParameter),
        sum_weights(defuzz_table@) >= 1 ==> (r matches Ok(c) && c as int == clamp_i32(
            round_div(sum_weighted(defuzz_table@), sum_weights(defuzz_table@)),
        )),
{
    let n: usize = defuzz_table.len();
    let mut i: usize = 0;
    let mut num: i128 = 0;
    let mut den: i128 = 0;
    proof {
        assert(defuzz_table@.subrange(0, n as int) =~= defuzz_table@);
        lemma_sum_weights_nonneg(defuzz_table@);
    }
    while i < n
        invariant
            i <= n,
            n == defuzz_table@.len(),
            forall|j: int|
                0 <= j < defuzz_table@.len() ==> (#[trigger] defuzz_table@[j]).1 <= DEGREE_SCALE,
            forall|j: int|
                0 <= j < defuzz_table@.len() ==> -0x2_0000_0000 <= (#[trigger] defuzz_table@[j]).0
                    <= 0x2_0000_0000,
            num + sum_weighted(defuzz_table@.subrange(i as int, n as int)) == sum_weighted(
                defuzz_table@,
            ),
            den + sum_weights(defuzz_table@.subrange(i as int, n as int)) == sum_weights(
                defuzz_table@,
            ),
            0 <= den,
            den <= (i as int) * (DEGREE_SCALE as int),
            -(den * 0x2_0000_0000) <= num <= den * 0x2_0000_0000,
        decreases n - i,
    {
        let (xv, wv) = defuzz_table[i];
        proof {
            let s = defuzz_table@.subrange(i as int, n as int);
            assert(s[0] == defuzz_table@[i as int]);
            assert(s.drop_first() =~= defuzz_table@.subrange(i as int + 1, n as int));
            assert((wv as int) * (-0x2_0000_0000) <= (wv as int) * (xv as int) <= (wv as int)
                * 0x2_0000_0000) by (nonlinear_arith)
                requires
                    0 <= wv as int,
                    -0x2_0000_0000 <= xv as int <= 0x2_0000_0000,
            ;
        }
        num = num + (wv as i128) * (xv as i128);
        den = den + (wv as i128);
        i = i + 1;
    }
    proof {
        assert(defuzz_table@.subrange(n as int, n as int) =~= Seq::<(i64, u64)>::empty());
    }
    if den == 0 {
        return Err(FuzzyError::InvalidParameter);
    }
    let num2: i128 = if num >= 0 {
        num
    } else {
        -num
    };
    proof {
        lemma_div_is_ordered_by_denominator(2 * num2 as int + den as int, 1, 2 * den as int);
        lemma_div_basics(2 * num2 as int + den as int);
        vstd::arithmetic::div_mod::lemma_div_pos_is_pos(
            2 * num2 as int + den as int,
            2 * den as int,
        );
    }
    let q: u128 = ((2 * num2 + den) as u128) / ((2 * den) as u128);
    let qi: i128 = if num >= 0 {
        q as i128
    } else {
        -(q as i128)
    };
    let c: i32 = if qi < -0x8000_0000 {
        -0x8000_0000
    } else if qi > 0x7fff_ffff {
        0x7fff_ffff
    } else {
        qi as i32
    };
    Ok(c)
}

/// Defuzzifies the parameter pair `(a, b)`: builds the raised-cosine
/// membership table on the domain `b - a ..= b + a` and reduces it by the
/// centroid method. The table is symmetric around `b` with positive total
/// weight, so every valid half-width yields exactly `b`; a zero or negative
/// half-width makes the computation undefined (a zero divisor or an empty
/// sample domain) and is rejected as `InvalidParameter`.
pub fn defuzzify(a: i32, b: i32) -> (r: Result<i32, FuzzyError>)
    ensures
        a < 1 ==> r == Err::<i32, FuzzyError>(FuzzyError::InvalidParameter),
        a >= 1 ==> r == Ok::<i32, FuzzyError>(b),
{
    if a < 1 {
        return Err(FuzzyError::InvalidParameter);
    }
    let table = build_defuzz_table(a, b);
    proof {
        let t = table@;
        let av = a as int;
        let bv = b as int;
        let n = t.len() as int;
        assert forall|i: int| 0 <= i < t.len() implies (#[trigger] t[i]).0 + t[n - 1 - i].0 == 2
            * bv && t[i].1 == t[n - 1 - i].1 by {
            assert(t[i].0 as int == bv - av + i);
            assert(t[n - 1 - i].0 as int == bv - av + (n - 1 - i));
            assert(t[i].1 as int == spec_degree(bv - av + i, av, bv));
            assert(t[n - 1 - i].1 as int == spec_degree(bv - av + (n - 1 - i), av, bv));
            assert(abs_diff(bv - av + i, bv) == abs_diff(bv - av + (n - 1 - i), bv));
        }
        lemma_symmetric_table_centroid(t, bv);
        lemma_degree_at_center(av, bv);
        assert(t[av].1 as int == spec_degree(bv - av + av, av, bv));
        assert(t[av].1 == DEGREE_SCALE);
        lemma_sum_weights_at_least(t, av);
        lemma_round_div_exact(bv, sum_weights(t));
        assert(clamp_i32(bv) == bv);
    }
    centroid(&table)
}

} // verus!
