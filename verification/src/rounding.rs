//! Order and exactness of binary64 rounding: rounding to nearest keeps the
//! order of what it rounds and moves it by at most half a unit, whole
//! numbers below `2^53` round to themselves, and from these the bucket
//! edges of downsampling stay in order.
use vstd::prelude::*;
use vstd::arithmetic::div_mod::{
    lemma_div_by_multiple, lemma_div_denominator, lemma_div_is_ordered, lemma_fundamental_div_mod,
};
use crate::binary64::{
    aligned, den_of, div_int, floor_of, is_norm, lemma_rnd_exact, minus, lemma_floor_log2_unique, lemma_lt_norm, lemma_rhe_range, lemma_rnd_bracket, log2_ratio, lt, min_exp,
    mul_int, num_of, quot, rnd, rnd_scaled, from_int, up_log2, lemma_up_log2,
};
use crate::numfmt::{
    floor_log2_ratio, lemma_floor_log2_ratio, lemma_two_pow_add, lemma_two_pow_mono, lemma_two_pow_pos,
    lemma_two_pow_values, round_half_even, two_pow,
};

verus! {

/// Rounding to the nearest integer moves `n / d` by at most a half:
/// `|rhe(n, d) - n / d| <= 1/2`.
pub(crate) proof fn lemma_rhe_near(n: nat, d: nat)
    requires
        d > 0,
    ensures
        2 * d * round_half_even(n, d) <= 2 * n + d,
        2 * n <= 2 * d * round_half_even(n, d) + d,
{
    let q = n / d;
    let r = n % d;
    lemma_fundamental_div_mod(n as int, d as int);
    assert(0 <= r < d);
    if 2 * r > d || (2 * r == d && q % 2 == 1) {
        assert(round_half_even(n, d) == q + 1);
        assert(2 * d * (q + 1) == 2 * (d * q) + 2 * d) by (nonlinear_arith);
    } else {
        assert(round_half_even(n, d) == q);
        assert(2 * d * q == 2 * (d * q)) by (nonlinear_arith);
    }
}

/// Rounding to the nearest integer keeps the order of numerators over one
/// denominator.
pub(crate) proof fn lemma_rhe_mono(n1: nat, n2: nat, d: nat)
    requires
        d > 0,
        n1 <= n2,
    ensures
        round_half_even(n1, d) <= round_half_even(n2, d),
{
    let q1 = n1 / d;
    let q2 = n2 / d;
    lemma_fundamental_div_mod(n1 as int, d as int);
    lemma_fundamental_div_mod(n2 as int, d as int);
    lemma_div_is_ordered(n1 as int, n2 as int, d as int);
    if q1 < q2 {
    } else {
        assert(q1 == q2);
        assert(d * q1 == d * q2);
        assert(n1 % d <= n2 % d);
    }
}

/// The mantissa that `rnd(p, 1)` rounds to before a carry, for `p >= 1`.
pub open spec fn int_mantissa(p: nat) -> nat {
    let e = log2_ratio(p, 1);
    if e >= 52 {
        round_half_even(p, 1 * two_pow((e - 52) as nat))
    } else {
        round_half_even(p * two_pow((52 - e) as nat), 1)
    }
}

/// `rnd(p, 1)` for `p >= 1`: a mantissa in `[2^52, 2^53]` at exponent
/// `log2(p) - 52`, a mantissa of `2^53` carried into the exponent.
proof fn lemma_rnd_int_shape(p: nat)
    requires
        p >= 1,
    ensures
        two_pow(52) <= int_mantissa(p) <= two_pow(53),
        rnd(p, 1) == if int_mantissa(p) == two_pow(53) {
            (two_pow(52), log2_ratio(p, 1) - 51)
        } else {
            (int_mantissa(p), log2_ratio(p, 1) - 52)
        },
        two_pow(52) <= rnd(p, 1).0 < two_pow(53),
{
    lemma_two_pow_values();
    lemma_rnd_bracket(p, 1);
    let e = log2_ratio(p, 1);
    if e >= 52 {
        lemma_rhe_range(p, 1 * two_pow((e - 52) as nat));
    } else {
        lemma_rhe_range(p * two_pow((52 - e) as nat), 1);
    }
    assert(two_pow(53) == 2 * two_pow(52)) by {
        lemma_two_pow_add(52, 1);
        reveal_with_fuel(two_pow, 2);
    }
}

/// Rounding whole numbers keeps their order.
#[verifier::spinoff_prover]
pub(crate) proof fn lemma_rnd_int_mono(p1: nat, p2: nat)
    requires
        1 <= p1 <= p2,
    ensures
        !lt(rnd(p2, 1), rnd(p1, 1)),
{
    lemma_two_pow_values();
    lemma_rnd_int_shape(p1);
    lemma_rnd_int_shape(p2);
    let r1 = rnd(p1, 1);
    let r2 = rnd(p2, 1);
    lemma_lt_norm(r2, r1);
    lemma_floor_log2_ratio(p1, 1);
    lemma_floor_log2_ratio(p2, 1);
    let e1 = floor_log2_ratio(p1, 1);
    let e2 = floor_log2_ratio(p2, 1);
    assert(log2_ratio(p1, 1) == e1);
    assert(log2_ratio(p2, 1) == e2);
    if e1 > e2 {
        lemma_two_pow_mono(e2 + 1, e1);
        assert(false);
    }
    if e1 == e2 {
        if e1 >= 52 {
            lemma_two_pow_pos((e1 - 52) as nat);
            lemma_rhe_mono(p1, p2, 1 * two_pow((e1 - 52) as nat));
        } else {
            let t = two_pow((52 - e1) as nat);
            assert(p1 * t <= p2 * t) by (nonlinear_arith)
                requires
                    p1 <= p2,
            ;
            lemma_rhe_mono(p1 * t, p2 * t, 1);
        }
    }
}

/// Scaling two numbers by one power of two keeps their order.
pub(crate) proof fn lemma_lt_shift(a: (nat, int), b: (nat, int), y: int)
    ensures
        lt((a.0, a.1 + y), (b.0, b.1 + y)) == lt(a, b),
{
    let m = min_exp(a, b);
    assert(min_exp((a.0, a.1 + y), (b.0, b.1 + y)) == m + y);
    assert(aligned((a.0, a.1 + y), m + y) == aligned(a, m));
    assert(aligned((b.0, b.1 + y), m + y) == aligned(b, m));
}

/// `floor(a)` from the mantissa of `a` aligned to an exponent `y <= a.1`.
pub open spec fn floor_aligned(n: nat, y: int) -> nat {
    if y >= 0 {
        n * two_pow(y as nat)
    } else {
        n / two_pow((-y) as nat)
    }
}

proof fn lemma_floor_aligned(a: (nat, int), y: int)
    requires
        y <= a.1,
    ensures
        floor_of(a) == floor_aligned(aligned(a, y), y),
{
    let k = (a.1 - y) as nat;
    lemma_two_pow_pos(k);
    if a.1 >= 0 {
        if y >= 0 {
            lemma_two_pow_add(k, y as nat);
            assert(a.0 * two_pow(k) * two_pow(y as nat) == a.0 * (two_pow(k) * two_pow(y as nat)))
                by (nonlinear_arith);
        } else {
            let j = (-y) as nat;
            lemma_two_pow_pos(j);
            lemma_two_pow_add(a.1 as nat, j);
            assert(k == a.1 + j);
            let v = a.0 * two_pow(a.1 as nat);
            assert(a.0 * two_pow(k) == v * two_pow(j)) by (nonlinear_arith)
                requires
                    two_pow(k) == two_pow(a.1 as nat) * two_pow(j),
                    v == a.0 * two_pow(a.1 as nat),
            ;
            lemma_div_by_multiple(v as int, two_pow(j) as int);
        }
    } else {
        let j = (-y) as nat;
        let i = (-a.1) as nat;
        assert(j == i + k);
        lemma_two_pow_add(k, i);
        lemma_two_pow_pos(i);
        lemma_div_denominator((a.0 * two_pow(k)) as int, two_pow(k) as int, two_pow(i) as int);
        lemma_div_by_multiple(a.0 as int, two_pow(k) as int);
        assert(a.0 * two_pow(k) == two_pow(k) * a.0) by (nonlinear_arith);
        assert(two_pow(j) == two_pow(k) * two_pow(i));
    }
}

/// `floor` keeps the order of binary64 numbers.
pub(crate) proof fn lemma_floor_mono(a: (nat, int), b: (nat, int))
    requires
        !lt(b, a),
    ensures
        floor_of(a) <= floor_of(b),
{
    let y = min_exp(a, b);
    lemma_floor_aligned(a, y);
    lemma_floor_aligned(b, y);
    let na = aligned(a, y);
    let nb = aligned(b, y);
    assert(na <= nb);
    if y >= 0 {
        assert(na * two_pow(y as nat) <= nb * two_pow(y as nat)) by (nonlinear_arith)
            requires
                na <= nb,
        ;
    } else {
        lemma_two_pow_pos((-y) as nat);
        lemma_div_is_ordered(na as int, nb as int, two_pow((-y) as nat) as int);
    }
}

/// A whole number below `2^53` is rounded to itself: its mantissa is the
/// number scaled up to 53 bits, and scaling it by `2^k` scales the result.
#[verifier::spinoff_prover]
pub(crate) proof fn lemma_rnd_exact_int(n: nat, k: nat)
    requires
        1 <= n < two_pow(53),
    ensures
        log2_ratio(n, 1) <= 52,
        rnd(n, 1) == (n * two_pow((52 - log2_ratio(n, 1)) as nat), log2_ratio(n, 1) - 52),
        rnd(n * two_pow(k), 1) == (rnd(n, 1).0, rnd(n, 1).1 + k),
        floor_of(rnd(n, 1)) == n,
{
    lemma_two_pow_values();
    lemma_floor_log2_ratio(n, 1);
    let e = floor_log2_ratio(n, 1);
    assert(log2_ratio(n, 1) == e);
    if e > 52 {
        lemma_two_pow_mono(53, e);
        assert(false);
    }
    let j = (52 - e) as nat;
    let m = n * two_pow(j);
    lemma_two_pow_add(e, j);
    lemma_two_pow_pos(j);
    assert(two_pow(53) == 2 * two_pow(52)) by {
        lemma_two_pow_add(52, 1);
        reveal_with_fuel(two_pow, 2);
    }
    let g = two_pow(e);
    let t = two_pow(j);
    assert(g * t <= n * t) by (nonlinear_arith)
        requires
            g <= n,
    ;
    assert(n * t < (2 * g) * t) by (nonlinear_arith)
        requires
            n < 2 * g,
            t >= 1,
    ;
    assert((2 * g) * t == 2 * (g * t)) by (nonlinear_arith);
    assert(two_pow(52) <= m < two_pow(53));
    assert(round_half_even(m, 1) == m);
    if e == 52 {
        assert(two_pow(0) == 1);
        assert(j == 0);
        assert(m == n * 1);
        assert(round_half_even(n, 1 * two_pow(0)) == m);
    } else {
        assert(round_half_even(n * two_pow((52 - e) as nat), 1) == m);
    }
    assert(rnd(n, 1) == (m, e - 52));
    // The scaled number: its exponent grows by k.
    let nk = n * two_pow(k);
    lemma_two_pow_add(e, k);
    lemma_two_pow_pos(k);
    assert(1 * two_pow(e + k) <= nk < 2 * 1 * two_pow(e + k)) by (nonlinear_arith)
        requires
            1 * two_pow(e) <= n < 2 * 1 * two_pow(e),
            two_pow(e + k) == two_pow(e) * two_pow(k),
            two_pow(k) >= 1,
            nk == n * two_pow(k),
    ;
    lemma_floor_log2_unique(nk, 1, e + k);
    assert(nk >= 1) by (nonlinear_arith)
        requires
            nk == n * two_pow(k),
            n >= 1,
            two_pow(k) >= 1,
    ;
    assert(log2_ratio(nk, 1) == e + k);
    if e + k >= 52 {
        let t = (e + k - 52) as nat;
        lemma_two_pow_add(j, t);
        assert(j + t == k);
        lemma_two_pow_pos(t);
        assert(nk == m * two_pow(t)) by (nonlinear_arith)
            requires
                nk == n * two_pow(k),
                two_pow(k) == two_pow(j) * two_pow(t),
                m == n * two_pow(j),
        ;
        assert(nk == two_pow(t) * m) by (nonlinear_arith)
            requires
                nk == m * two_pow(t),
        ;
        lemma_div_by_multiple(m as int, two_pow(t) as int);
        assert(nk % (1 * two_pow(t)) == 0) by (nonlinear_arith)
            requires
                nk == two_pow(t) * m,
                two_pow(t) >= 1,
        ;
        assert(round_half_even(nk, 1 * two_pow(t)) == m);
    } else {
        let t = (52 - e - k) as nat;
        lemma_two_pow_add(k, t);
        assert(k + t == j);
        assert(nk * two_pow(t) == m) by (nonlinear_arith)
            requires
                nk == n * two_pow(k),
                two_pow(j) == two_pow(k) * two_pow(t),
                m == n * two_pow(j),
        ;
        assert(round_half_even(nk * two_pow(t), 1) == m);
    }
    // The floor of the exact value is the number itself.
    if e == 52 {
        assert(j == 0);
        assert(m == n);
    } else {
        assert(floor_of(rnd(n, 1)) == m / two_pow(j));
        assert(m == two_pow(j) * n) by (nonlinear_arith)
            requires
                m == n * two_pow(j),
        ;
        lemma_div_by_multiple(n as int, two_pow(j) as int);
        assert(n * two_pow(j) == two_pow(j) * n) by (nonlinear_arith);
    }
}

/// `rnd(a, b)` for mantissas `a` and `b` of `[2^52, 2^53)`: the ratio lies
/// in `(1/2, 2)`, so the mantissa is `rhe(a * 2^s, b)` with `s` 52 or 53.
#[verifier::spinoff_prover]
proof fn lemma_rnd_mantissa_ratio(a: nat, b: nat)
    requires
        two_pow(52) <= a < two_pow(53),
        two_pow(52) <= b < two_pow(53),
    ensures
        log2_ratio(a, b) <= 0,
        ({
            let s = (52 - log2_ratio(a, b)) as nat;
            let m0 = round_half_even(a * two_pow(s), b);
            &&& 52 <= s <= 53
            &&& two_pow(52) <= m0 <= two_pow(53)
            &&& rnd(a, b) == if m0 == two_pow(53) {
                (two_pow(52), log2_ratio(a, b) - 51)
            } else {
                (m0, log2_ratio(a, b) - 52)
            }
        }),
{
    lemma_two_pow_values();
    assert(two_pow(53) == 2 * two_pow(52)) by {
        lemma_two_pow_add(52, 1);
        reveal_with_fuel(two_pow, 2);
    }
    if a >= b {
        lemma_floor_log2_ratio(a, b);
        let f = floor_log2_ratio(a, b);
        if f >= 1 {
            lemma_two_pow_mono(1, f);
            assert(two_pow(1) == 2) by {
                reveal_with_fuel(two_pow, 2);
            }
            assert(b * two_pow(f) >= b * 2) by (nonlinear_arith)
                requires
                    two_pow(f) >= 2,
            ;
            assert(false);
        }
    } else {
        lemma_up_log2(a, b);
        reveal_with_fuel(up_log2, 2);
        assert(up_log2(a, b) == 1);
    }
    lemma_rnd_bracket(a, b);
    let e = log2_ratio(a, b);
    lemma_rhe_range(a * two_pow((52 - e) as nat), b);
}

/// The bucket edges of `downsample`: with `len` values shared among `mp`
/// buckets of `len as f64 / mp as f64` values each, the edge
/// `(i as f64 * size) as usize` of bucket `i` never passes that of bucket
/// `i + 1`, nor the end of the values.
#[verifier::spinoff_prover]
pub(crate) proof fn lemma_bucket_edges(len: nat, mp: nat, i: nat)
    requires
        1 <= mp < len < two_pow(52),
        i < mp,
    ensures
        floor_of(mul_int(quot(from_int(len), from_int(mp)), i)) <= floor_of(
            mul_int(quot(from_int(len), from_int(mp)), i + 1),
        ),
        floor_of(mul_int(quot(from_int(len), from_int(mp)), i)) <= len,
{
    lemma_two_pow_values();
    assert(two_pow(53) == 2 * two_pow(52)) by {
        lemma_two_pow_add(52, 1);
        reveal_with_fuel(two_pow, 2);
    }
    lemma_rnd_exact_int(len, 0);
    lemma_rnd_exact_int(mp, 0);
    let big_a = from_int(len);
    let big_b = from_int(mp);
    let a = (52 - log2_ratio(len, 1)) as nat;
    let b = (52 - log2_ratio(mp, 1)) as nat;
    lemma_floor_log2_ratio(len, 1);
    if log2_ratio(len, 1) >= 52 {
        lemma_two_pow_mono(52, floor_log2_ratio(len, 1));
        assert(false);
    }
    assert(a >= 1);
    let a0 = big_a.0;
    let b0 = big_b.0;
    assert(a0 == len * two_pow(a));
    assert(b0 == mp * two_pow(b));
    lemma_rnd_int_shape(len);
    lemma_rnd_int_shape(mp);
    lemma_rnd_mantissa_ratio(a0, b0);
    let e0 = log2_ratio(a0, b0);
    let s = (52 - e0) as nat;
    let m0 = round_half_even(a0 * two_pow(s), b0);
    let bs = quot(big_a, big_b);
    let r0 = rnd(a0, b0);
    assert(bs == (r0.0, r0.1 + (b as int) - (a as int)));
    let k = ((a as int) - (b as int) + (s as int) - if m0 == two_pow(53) { 1int } else { 0int }) as nat;
    assert(bs.1 == -k);
    assert(bs.0 >= 1);
    // Twice the rounding error of the quotient stays within the last bucket.
    lemma_rhe_near(a0 * two_pow(s), b0);
    let tb = two_pow(b);
    let tas = two_pow(a + s);
    lemma_two_pow_add(a, s);
    lemma_two_pow_pos(b);
    assert(b <= a + s);
    let w = (a + s - b) as nat;
    lemma_two_pow_add(w, b);
    assert(2 * b0 * m0 <= 2 * (a0 * two_pow(s)) + b0);
    assert(a0 * two_pow(s) == len * tas) by (nonlinear_arith)
        requires
            a0 == len * two_pow(a),
            tas == two_pow(a) * two_pow(s),
    ;
    assert(2 * (mp * tb) * m0 <= 2 * (len * tas) + mp * tb);
    assert(mp <= 2 * m0);
    assert(((mp - 1) as nat) * m0 * tb <= len * tas) by (nonlinear_arith)
        requires
            2 * (mp * tb) * m0 <= 2 * (len * tas) + mp * tb,
            mp <= 2 * m0,
            mp >= 1,
            tb >= 1,
    ;
    assert(((mp - 1) as nat) * m0 <= len * two_pow(w)) by (nonlinear_arith)
        requires
            ((mp - 1) as nat) * m0 * tb <= len * tas,
            tas == two_pow(w) * tb,
            tb >= 1,
    ;
    assert(i * bs.0 <= len * two_pow(k)) by {
        assert(i * m0 <= ((mp - 1) as nat) * m0) by (nonlinear_arith)
            requires
                i <= mp - 1,
        ;
        if m0 == two_pow(53) {
            assert(w == k + 1);
            lemma_two_pow_add(k, 1);
            assert(two_pow(1) == 2) by {
                reveal_with_fuel(two_pow, 2);
            }
            assert(i * bs.0 * 2 == i * m0) by (nonlinear_arith)
                requires
                    bs.0 == two_pow(52),
                    m0 == two_pow(53),
                    two_pow(53) == 2 * two_pow(52),
            ;
            assert(i * bs.0 <= len * two_pow(k)) by (nonlinear_arith)
                requires
                    i * bs.0 * 2 <= len * two_pow(w),
                    two_pow(w) == two_pow(k) * 2,
            ;
        } else {
            assert(w == k);
        }
    }
    // Each edge is the rounded product shifted by the bucket size's exponent.
    if i == 0 {
        assert(bs.0 * 0 == 0);
        assert(rnd(0, 1) == (0nat, 0int));
        assert(mul_int(bs, 0) == (0nat, 0int));
        assert(floor_of((0nat, 0int)) == 0);
    } else {
        let p1 = i * bs.0;
        let p2 = (i + 1) * bs.0;
        assert(1 <= p1 <= p2) by (nonlinear_arith)
            requires
                p1 == i * bs.0,
                p2 == (i + 1) * bs.0,
                i >= 1,
                bs.0 >= 1,
        ;
        assert(p1 == bs.0 * i) by (nonlinear_arith)
            requires
                p1 == i * bs.0,
        ;
        assert(p2 == bs.0 * (i + 1)) by (nonlinear_arith)
            requires
                p2 == (i + 1) * bs.0,
        ;
        lemma_rnd_int_shape(p1);
        lemma_rnd_int_shape(p2);
        let f1 = mul_int(bs, i);
        let f2 = mul_int(bs, i + 1);
        assert(f1 == (rnd(p1, 1).0, rnd(p1, 1).1 + bs.1));
        assert(f2 == (rnd(p2, 1).0, rnd(p2, 1).1 + bs.1));
        lemma_rnd_int_mono(p1, p2);
        lemma_lt_shift(rnd(p2, 1), rnd(p1, 1), bs.1);
        lemma_floor_mono(f1, f2);
        // The edge stays within the values.
        let lk = len * two_pow(k);
        lemma_rnd_exact_int(len, k);
        lemma_rnd_int_mono(p1, lk);
        lemma_lt_shift(rnd(lk, 1), rnd(p1, 1), bs.1);
        assert(rnd(lk, 1) == (big_a.0, big_a.1 + k));
        assert((rnd(lk, 1).0, rnd(lk, 1).1 + bs.1) == big_a);
        lemma_floor_mono(f1, big_a);
    }
}

/// No number is below zero.
pub(crate) proof fn lemma_none_below_zero(a: (nat, int))
    ensures
        !lt(a, (0, 0)),
{
    let y = min_exp(a, (0, 0));
    assert(aligned((0, 0), y) == 0);
}

/// Subtracting zero gives the number back.
pub(crate) proof fn lemma_sub_zero(a: (nat, int))
    requires
        is_norm(a),
    ensures
        minus(a, (0, 0)) == (false, a),
{
    lemma_two_pow_values();
    let y = min_exp(a, (0, 0));
    assert(aligned((0, 0), y) == 0);
    if a.0 == 0 {
        assert(aligned(a, y) == 0);
        assert(rnd(0, 1) == (0nat, 0int));
    } else {
        let d = (a.1 - y) as nat;
        lemma_two_pow_pos(d);
        lemma_rnd_exact(a.0, d, 0);
        assert(aligned(a, y) - 0 == a.0 * two_pow(d) + 0);
    }
}

/// Halving is exact: only the exponent drops.
pub(crate) proof fn lemma_half(a: (nat, int))
    requires
        two_pow(52) <= a.0 < two_pow(53),
    ensures
        div_int(a, 2) == (a.0, a.1 - 1),
{
    lemma_two_pow_values();
    assert(two_pow(53) == 2 * two_pow(52)) by {
        lemma_two_pow_add(52, 1);
        reveal_with_fuel(two_pow, 2);
    }
    assert(two_pow(52) == 2 * two_pow(51)) by {
        lemma_two_pow_add(51, 1);
        reveal_with_fuel(two_pow, 2);
    }
    assert(2 * two_pow(51) <= a.0);
    let t51 = two_pow(51);
    assert(two_pow(52) == 2 * t51);
    assert(two_pow(53) == 4 * t51);
    assert(a.0 < 2 * 2 * t51);
    lemma_floor_log2_unique(a.0, 2, 51);
    assert(log2_ratio(a.0, 2) == 51);
    assert(two_pow(1) == 2) by {
        reveal_with_fuel(two_pow, 2);
    }
    assert(a.0 * two_pow(1) == 2 * a.0);
    lemma_div_by_multiple(a.0 as int, 2);
    assert((2 * a.0) % 2 == 0) by (nonlinear_arith);
    assert(round_half_even(a.0 * two_pow(1), 2) == a.0);
    assert(rnd(a.0, 2) == (a.0, -1int));
}

} // verus!
