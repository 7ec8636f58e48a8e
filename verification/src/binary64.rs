//! Binary64 arithmetic on exact values.
//!
//! A binary64 number is written `(m, x)`, its value `m * 2^x`, with a
//! normalised mantissa `2^52 <= m < 2^53`; zero is `(0, 0)`. Each operation
//! rounds its exact result to the nearest such number, ties to even, as
//! IEEE 754 does. The values met here stay far from the overflow and
//! subnormal ranges, so the exponent is not bounded.
use vstd::prelude::*;
use vstd::arithmetic::div_mod::lemma_fundamental_div_mod_converse;
use crate::numfmt::{
    floor_log2_ratio, lemma_floor_log2_ratio, lemma_two_pow_add, lemma_two_pow_mono, lemma_two_pow_pos,
    lemma_two_pow_values, round_half_even, round_half_even_u128, two_pow, two_pow_u128,
};

verus! {

/// The least `k` with `q <= p * 2^k`, for `0 < p`.
pub open spec fn up_log2(p: nat, q: nat) -> nat
    decreases q - p,
{
    if p == 0 || p >= q {
        0
    } else if 2 * p >= q {
        1
    } else {
        1 + up_log2(2 * p, q)
    }
}

/// The exponent `e` of `p / q`: `q * 2^e <= p < q * 2^(e+1)`.
pub open spec fn log2_ratio(p: nat, q: nat) -> int {
    if p >= q {
        floor_log2_ratio(p, q) as int
    } else {
        -(up_log2(p, q) as int)
    }
}

/// The binary64 number nearest to `p / q`, ties to even.
pub open spec fn rnd(p: nat, q: nat) -> (nat, int) {
    if p == 0 || q == 0 {
        (0, 0)
    } else {
        let e = log2_ratio(p, q);
        let m = if e >= 52 {
            round_half_even(p, q * two_pow((e - 52) as nat))
        } else {
            round_half_even(p * two_pow((52 - e) as nat), q)
        };
        if m == two_pow(53) {
            (two_pow(52), e - 51)
        } else {
            (m, e - 52)
        }
    }
}

/// The binary64 number nearest to `p / q * 2^y`: scaling by a power of two
/// commutes with rounding.
pub open spec fn rnd_scaled(p: nat, q: nat, y: int) -> (nat, int) {
    let r = rnd(p, q);
    if r.0 == 0 {
        (0, 0)
    } else {
        (r.0, r.1 + y)
    }
}

/// `(m, x)` is zero or has a normalised mantissa.
pub open spec fn is_norm(a: (nat, int)) -> bool {
    a == (0nat, 0int) || (two_pow(52) <= a.0 < two_pow(53))
}

/// For `0 < p < q`: `q <= p * 2^k < 2 * q` with `k = up_log2(p, q) >= 1`.
pub(crate) proof fn lemma_up_log2(p: nat, q: nat)
    requires
        0 < p < q,
    ensures
        up_log2(p, q) >= 1,
        q <= p * two_pow(up_log2(p, q)) < 2 * q,
    decreases q - p,
{
    let k = up_log2(p, q);
    if 2 * p >= q {
        assert(k == 1);
        assert(two_pow(1) == 2) by {
            reveal_with_fuel(two_pow, 2);
        }
    } else {
        lemma_up_log2(2 * p, q);
        let k2 = up_log2(2 * p, q);
        assert(k == k2 + 1);
        assert(two_pow(k) == 2 * two_pow(k2));
        assert((2 * p) * two_pow(k2) == p * (2 * two_pow(k2))) by (nonlinear_arith);
    }
}

/// The exponent of a ratio is the only one that brackets it.
pub(crate) proof fn lemma_floor_log2_unique(p: nat, q: nat, e: nat)
    requires
        0 < q,
        q * two_pow(e) <= p < 2 * q * two_pow(e),
    ensures
        floor_log2_ratio(p, q) == e,
{
    lemma_two_pow_pos(e);
    assert(q <= q * two_pow(e)) by (nonlinear_arith)
        requires
            two_pow(e) >= 1,
    ;
    lemma_floor_log2_ratio(p, q);
    let f = floor_log2_ratio(p, q);
    if f < e {
        lemma_two_pow_mono(f + 1, e);
        lemma_two_pow_add(f, 1);
        assert(two_pow(1) == 2) by {
            reveal_with_fuel(two_pow, 2);
        }
        assert(2 * q * two_pow(f) == q * two_pow(f + 1)) by (nonlinear_arith)
            requires
                two_pow(f + 1) == two_pow(f) * 2,
        ;
        assert(q * two_pow(f + 1) <= q * two_pow(e)) by (nonlinear_arith)
            requires
                two_pow(f + 1) <= two_pow(e),
        ;
    } else if f > e {
        lemma_two_pow_mono(e + 1, f);
        lemma_two_pow_add(e, 1);
        assert(two_pow(1) == 2) by {
            reveal_with_fuel(two_pow, 2);
        }
        assert(2 * q * two_pow(e) == q * two_pow(e + 1)) by (nonlinear_arith)
            requires
                two_pow(e + 1) == two_pow(e) * 2,
        ;
        assert(q * two_pow(e + 1) <= q * two_pow(f)) by (nonlinear_arith)
            requires
                two_pow(e + 1) <= two_pow(f),
        ;
    }
}

/// The scaled ratio that the mantissa rounds: `2^52 <= p / d < 2^53`.
pub(crate) proof fn lemma_rnd_bracket(p: nat, q: nat)
    requires
        p > 0,
        q > 0,
    ensures
        ({
            let e = log2_ratio(p, q);
            if e >= 52 {
                let d = q * two_pow((e - 52) as nat);
                d > 0 && d * two_pow(52) <= p < d * two_pow(53)
            } else {
                let n = p * two_pow((52 - e) as nat);
                q * two_pow(52) <= n < q * two_pow(53)
            }
        }),
{
    lemma_two_pow_values();
    let e = log2_ratio(p, q);
    if p >= q {
        lemma_floor_log2_ratio(p, q);
        let f = floor_log2_ratio(p, q);
        if e >= 52 {
            let k = (e - 52) as nat;
            lemma_two_pow_add(k, 52);
            lemma_two_pow_add(k, 53);
            lemma_two_pow_pos(k);
            assert(f == k + 52);
            assert(two_pow(53) == 2 * two_pow(52)) by {
                lemma_two_pow_add(52, 1);
                reveal_with_fuel(two_pow, 2);
            }
            let d = q * two_pow(k);
            assert(d > 0) by (nonlinear_arith)
                requires
                    q > 0,
                    two_pow(k) >= 1,
                    d == q * two_pow(k),
            ;
            assert(d * two_pow(52) == q * two_pow(f)) by (nonlinear_arith)
                requires
                    d == q * two_pow(k),
                    two_pow(f) == two_pow(k) * two_pow(52),
            ;
            assert(d * two_pow(53) == 2 * q * two_pow(f)) by (nonlinear_arith)
                requires
                    d == q * two_pow(k),
                    two_pow(f) == two_pow(k) * two_pow(52),
                    two_pow(53) == 2 * two_pow(52),
            ;
        } else {
            let k = (52 - e) as nat;
            lemma_two_pow_add(f, k);
            lemma_two_pow_pos(k);
            assert(f + k == 52);
            assert(two_pow(53) == 2 * two_pow(52)) by {
                lemma_two_pow_add(52, 1);
                reveal_with_fuel(two_pow, 2);
            }
            assert(q * two_pow(52) <= p * two_pow(k)) by (nonlinear_arith)
                requires
                    q * two_pow(f) <= p,
                    two_pow(52) == two_pow(f) * two_pow(k),
            ;
            let t = two_pow(k);
            let g = two_pow(f);
            assert(p * t < (2 * q * g) * t) by (nonlinear_arith)
                requires
                    p < 2 * q * g,
                    t >= 1,
            ;
            assert((2 * q * g) * t == q * (2 * (g * t))) by (nonlinear_arith);
            assert(p * two_pow(k) < q * two_pow(53));
            lemma_two_pow_pos(k);
        }
    } else {
        lemma_up_log2(p, q);
        let u = up_log2(p, q);
        let k = (52 - e) as nat;
        assert(k == 52 + u);
        lemma_two_pow_add(52, u);
        lemma_two_pow_add(53, u);
        assert(two_pow(53) == 2 * two_pow(52)) by {
            lemma_two_pow_add(52, 1);
            reveal_with_fuel(two_pow, 2);
        }
        assert(q * two_pow(52) <= p * two_pow(k)) by (nonlinear_arith)
            requires
                q <= p * two_pow(u),
                two_pow(k) == two_pow(52) * two_pow(u),
        ;
        let a = two_pow(52);
        let b = two_pow(u);
        lemma_two_pow_pos(52);
        assert((p * b) * a < (2 * q) * a) by (nonlinear_arith)
            requires
                p * b < 2 * q,
                a >= 1,
        ;
        assert(p * (a * b) == (p * b) * a) by (nonlinear_arith);
        assert((2 * q) * a == q * (2 * a)) by (nonlinear_arith);
        assert(two_pow(k) == a * b);
        assert(p * two_pow(k) < q * two_pow(53));
    }
}

/// `round_half_even(n, d)` lies in `[2^52, 2^53]` when `n / d` does.
pub(crate) proof fn lemma_rhe_range(n: nat, d: nat)
    requires
        d > 0,
        d * two_pow(52) <= n < d * two_pow(53),
    ensures
        two_pow(52) <= round_half_even(n, d) <= two_pow(53),
{
    lemma_two_pow_values();
    assert(n / d >= two_pow(52)) by (nonlinear_arith)
        requires
            d * two_pow(52) <= n,
            d > 0,
    ;
    assert(n / d < two_pow(53)) by (nonlinear_arith)
        requires
            n < d * two_pow(53),
            d > 0,
    ;
}

/// Every rounded value is normalised (or zero).
pub(crate) proof fn lemma_rnd_norm(p: nat, q: nat)
    ensures
        is_norm(rnd(p, q)),
{
    if p > 0 && q > 0 {
        lemma_rnd_bracket(p, q);
        let e = log2_ratio(p, q);
        if e >= 52 {
            lemma_rhe_range(p, q * two_pow((e - 52) as nat));
        } else {
            lemma_rhe_range(p * two_pow((52 - e) as nat), q);
        }
        lemma_two_pow_values();
    }
}

/// A value whose exact part `ma * 2^D` is a normalised binary64 number
/// and whose excess `mb` is below half its last place rounds to it.
pub(crate) proof fn lemma_rnd_exact(ma: nat, d: nat, mb: nat)
    requires
        two_pow(52) <= ma < two_pow(53),
        2 * mb < two_pow(d),
    ensures
        rnd(ma * two_pow(d) + mb, 1) == (ma, d as int),
{
    lemma_two_pow_values();
    lemma_two_pow_pos(d);
    let p = ma * two_pow(d) + mb;
    lemma_two_pow_add(52, d);
    lemma_two_pow_add(53, d);
    assert(1 * two_pow(52 + d) <= p) by (nonlinear_arith)
        requires
            two_pow(52) <= ma,
            p == ma * two_pow(d) + mb,
            two_pow(52 + d) == two_pow(52) * two_pow(d),
    ;
    assert(p < 2 * 1 * two_pow(52 + d)) by (nonlinear_arith)
        requires
            ma < two_pow(53),
            p == ma * two_pow(d) + mb,
            mb < two_pow(d),
            two_pow(53 + d) == two_pow(53) * two_pow(d),
            two_pow(53) == 2 * two_pow(52),
            two_pow(52 + d) == two_pow(52) * two_pow(d),
    ;
    lemma_two_pow_pos(52 + d);
    lemma_floor_log2_unique(p, 1, 52 + d);
    assert(log2_ratio(p, 1) == 52 + d);
    assert(((52 + d) - 52) as nat == d);
    lemma_fundamental_div_mod_converse(p as int, two_pow(d) as int, ma as int, mb as int);
    assert(1 * two_pow(d) == two_pow(d));
    assert(round_half_even(p, 1 * two_pow(d)) == ma);
}

/// The smaller exponent of two numbers.
pub open spec fn min_exp(a: (nat, int), b: (nat, int)) -> int {
    if a.1 <= b.1 {
        a.1
    } else {
        b.1
    }
}

/// The mantissa of `a` scaled to the exponent `y <= a.1`.
pub open spec fn aligned(a: (nat, int), y: int) -> nat {
    a.0 * two_pow((a.1 - y) as nat)
}

/// `a < b`: the mantissas compared at a common exponent.
pub open spec fn lt(a: (nat, int), b: (nat, int)) -> bool {
    let y = min_exp(a, b);
    aligned(a, y) < aligned(b, y)
}

/// `a + b`.
pub open spec fn plus(a: (nat, int), b: (nat, int)) -> (nat, int) {
    let y = min_exp(a, b);
    rnd_scaled(aligned(a, y) + aligned(b, y), 1, y)
}

/// `a - b`, as whether it is negative and its magnitude.
pub open spec fn minus(a: (nat, int), b: (nat, int)) -> (bool, (nat, int)) {
    let y = min_exp(a, b);
    if aligned(a, y) >= aligned(b, y) {
        (false, rnd_scaled((aligned(a, y) - aligned(b, y)) as nat, 1, y))
    } else {
        (true, rnd_scaled((aligned(b, y) - aligned(a, y)) as nat, 1, y))
    }
}

/// `a * c` for an integer `c` that binary64 holds exactly.
pub open spec fn mul_int(a: (nat, int), c: nat) -> (nat, int) {
    rnd_scaled(a.0 * c, 1, a.1)
}

/// `a / c` for an integer `c` that binary64 holds exactly.
pub open spec fn div_int(a: (nat, int), c: nat) -> (nat, int) {
    rnd_scaled(a.0, c, a.1)
}

/// The value of `a` as the fraction `num_of(a) / den_of(a)`.
pub open spec fn num_of(a: (nat, int)) -> nat {
    if a.1 >= 0 {
        a.0 * two_pow(a.1 as nat)
    } else {
        a.0
    }
}

/// See `num_of`.
pub open spec fn den_of(a: (nat, int)) -> nat {
    if a.1 >= 0 {
        1
    } else {
        two_pow((-a.1) as nat)
    }
}

/// The integer nearest to `a * c`, ties to even.
pub open spec fn round_scaled(a: (nat, int), c: nat) -> nat {
    round_half_even(num_of(a) * c, den_of(a))
}

/// `floor(a)`.
pub open spec fn floor_of(a: (nat, int)) -> nat {
    num_of(a) / den_of(a)
}

/// `ceil(a)`.
pub open spec fn ceil_of(a: (nat, int)) -> nat {
    (num_of(a) + den_of(a) - 1) as nat / den_of(a)
}

/// `a % c` (the exact remainder of the truncated division), as a fraction
/// over `den_of(a)`.
pub open spec fn rem_num(a: (nat, int), c: nat) -> nat {
    num_of(a) % (c * den_of(a))
}

/// `a / b` for a non-zero `b`.
pub open spec fn quot(a: (nat, int), b: (nat, int)) -> (nat, int) {
    if a.0 == 0 {
        (0, 0)
    } else {
        rnd_scaled(a.0, b.0, a.1 - b.1)
    }
}

/// `n as f64` for an integer `n`.
pub open spec fn from_int(n: nat) -> (nat, int) {
    rnd(n, 1)
}

/// `a as u64` for a non-negative `a`: its integer part, saturating at
/// `u64::MAX`.
pub open spec fn to_u64(a: (nat, int)) -> nat {
    if floor_of(a) > u64::MAX {
        u64::MAX as nat
    } else {
        floor_of(a)
    }
}

/// The nanoseconds of `Duration::from_secs_f64(a)`: `a * 10^9` rounded to
/// the nearest integer, ties to even.
pub open spec fn nanos_of(a: (nat, int)) -> nat {
    round_scaled(a, 1_000_000_000)
}

/// For normalised numbers, `lt` compares exponents first, then mantissas.
pub(crate) proof fn lemma_lt_norm(a: (nat, int), b: (nat, int))
    requires
        two_pow(52) <= a.0 < two_pow(53),
        two_pow(52) <= b.0 < two_pow(53),
    ensures
        lt(a, b) == (a.1 < b.1 || (a.1 == b.1 && a.0 < b.0)),
{
    lemma_two_pow_values();
    assert(two_pow(53) == 2 * two_pow(52)) by {
        lemma_two_pow_add(52, 1);
        reveal_with_fuel(two_pow, 2);
    }
    assert(two_pow(0) == 1);
    let y = min_exp(a, b);
    if a.1 <= b.1 {
        assert(((a.1 - y) as nat) == 0);
        assert(aligned(a, y) == a.0 * 1);
    }
    if b.1 <= a.1 {
        assert(((b.1 - y) as nat) == 0);
        assert(aligned(b, y) == b.0 * 1);
    }
    if a.1 < b.1 {
        let d = (b.1 - a.1) as nat;
        assert(aligned(b, y) == b.0 * two_pow(d));
        lemma_two_pow_mono(1, d);
        assert(two_pow(1) == 2) by {
            reveal_with_fuel(two_pow, 2);
        }
        assert(b.0 * two_pow(d) >= two_pow(52) * 2) by (nonlinear_arith)
            requires
                b.0 >= two_pow(52),
                two_pow(d) >= 2,
        ;
    } else if a.1 > b.1 {
        let d = (a.1 - b.1) as nat;
        assert(aligned(a, y) == a.0 * two_pow(d));
        lemma_two_pow_mono(1, d);
        assert(two_pow(1) == 2) by {
            reveal_with_fuel(two_pow, 2);
        }
        assert(a.0 * two_pow(d) >= two_pow(52) * 2) by (nonlinear_arith)
            requires
                a.0 >= two_pow(52),
                two_pow(d) >= 2,
        ;
    }
}

/// Adding zero gives the other number back.
pub(crate) proof fn lemma_add_zero(a: (nat, int))
    requires
        two_pow(52) <= a.0 < two_pow(53),
    ensures
        plus(a, (0, 0)) == a,
        plus((0, 0), a) == a,
{
    lemma_two_pow_values();
    assert(two_pow(0) == 1);
    let y = min_exp(a, (0, 0));
    let d = (a.1 - y) as nat;
    lemma_two_pow_pos(d);
    lemma_rnd_exact(a.0, d, 0);
    assert(aligned((0, 0), y) == 0);
    assert(aligned(a, y) + 0 == a.0 * two_pow(d) + 0);
    let y2 = min_exp((0, 0), a);
    assert(y2 == y);
}

/// `rnd(p, q)`, for `p <= 2^120` and `q <= 2^66`; also its exponent bounds.
pub fn round_ratio(p: u128, q: u128) -> (r: (u128, i32))
    requires
        1 <= p <= two_pow(120),
        1 <= q <= two_pow(66),
    ensures
        (r.0 as nat, r.1 as int) == rnd(p as nat, q as nat),
        two_pow(52) <= r.0 < two_pow(53),
        r.1 == log2_ratio(p as nat, q as nat) - 52 || r.1 == log2_ratio(p as nat, q as nat) - 51,
        -67 <= log2_ratio(p as nat, q as nat) <= 120,
{
    proof {
        lemma_two_pow_values();
        lemma_rnd_bracket(p as nat, q as nat);
        lemma_rnd_norm(p as nat, q as nat);
    }
    assert(two_pow(53) == 2 * two_pow(52)) by {
        lemma_two_pow_add(52, 1);
        reveal_with_fuel(two_pow, 2);
    }
    assert(two_pow(52) == 0x10_0000_0000_0000);
    proof {
        lemma_two_pow_mono(120, 126);
    }
    let ghost e = log2_ratio(p as nat, q as nat);
    let mut ex: i32;
    if p >= q {
        let mut k: u32 = 0;
        let mut d: u128 = q;
        proof {
            assert(two_pow(0) == 1);
            lemma_two_pow_mono(66, 120);
        }
        while d <= p / 2
            invariant
                0 < q <= d <= p <= two_pow(120),
                d == q * two_pow(k as nat),
                k <= 120,
                two_pow(k as nat) <= d,
                floor_log2_ratio(p as nat, q as nat) == k + floor_log2_ratio(p as nat, d as nat),
            decreases p - d,
        {
            proof {
                assert(q * two_pow(k as nat) * 2 == q * (2 * two_pow(k as nat))) by (nonlinear_arith);
                if k >= 120 {
                    lemma_two_pow_mono(120, k as nat);
                }
            }
            d = d * 2;
            k = k + 1;
        }
        ex = k as i32;
        assert(ex == e);
    } else {
        let mut k: u32 = 0;
        let mut n: u128 = p;
        proof {
            assert(two_pow(0) == 1);
            lemma_up_log2(p as nat, q as nat);
        }
        while n < q
            invariant
                0 < p <= n,
                p < q <= two_pow(66),
                two_pow(66) == 0x4_0000_0000_0000_0000,
                n < 2 * q,
                n == p * two_pow(k as nat),
                k <= 67,
                up_log2(p as nat, q as nat) == k + up_log2(n as nat, q as nat),
            decreases 2 * q - n,
        {
            proof {
                assert(p * two_pow(k as nat) * 2 == p * (2 * two_pow(k as nat))) by (nonlinear_arith);
                lemma_two_pow_pos(k as nat);
                if k >= 67 {
                    lemma_two_pow_mono(67, k as nat);
                    assert(p * two_pow(k as nat) >= two_pow(67)) by (nonlinear_arith)
                        requires
                            p >= 1,
                            two_pow(k as nat) >= two_pow(67),
                    ;
                    assert(two_pow(67) == 2 * two_pow(66)) by {
                        lemma_two_pow_add(66, 1);
                        reveal_with_fuel(two_pow, 2);
                    }
                }
            }
            n = n * 2;
            k = k + 1;
        }
        ex = -(k as i32);
        assert(ex == e);
    }
    let m: u128;
    if ex >= 52 {
        let s = two_pow_u128((ex - 52) as u32);
        assert(q * s <= p);
        let d = q * s;
        m = round_half_even_u128(p, d);
        proof {
            lemma_rhe_range(p as nat, d as nat);
        }
    } else {
        let s = two_pow_u128((52 - ex) as u32);
        proof {
            assert(q * two_pow(53) <= two_pow(66) * two_pow(53)) by (nonlinear_arith)
                requires
                    q <= two_pow(66),
            ;
            lemma_two_pow_add(66, 53);
            lemma_two_pow_mono(119, 127);
            lemma_two_pow_add(64, 63);
        }
        let n = p * s;
        m = round_half_even_u128(n, q);
        proof {
            lemma_rhe_range(n as nat, q as nat);
        }
    }
    if m == 0x20_0000_0000_0000 {
        (0x10_0000_0000_0000, ex - 51)
    } else {
        (m, ex - 52)
    }
}

/// A normalised number `ma * 2^d` less a small `mb` (at most a quarter of
/// its last place) rounds back to it.
pub(crate) proof fn lemma_rnd_exact_sub(ma: nat, d: nat, mb: nat)
    requires
        two_pow(52) <= ma < two_pow(53),
        1 <= mb,
        4 * mb <= two_pow(d),
    ensures
        rnd((ma * two_pow(d) - mb) as nat, 1) == (ma, d as int),
{
    lemma_two_pow_values();
    assert(two_pow(53) == 2 * two_pow(52)) by {
        lemma_two_pow_add(52, 1);
        reveal_with_fuel(two_pow, 2);
    }
    assert(two_pow(2) == 4) by {
        reveal_with_fuel(two_pow, 3);
    }
    if d < 2 {
        lemma_two_pow_mono(d, 1);
        assert(two_pow(1) == 2) by {
            reveal_with_fuel(two_pow, 2);
        }
        assert(false);
    }
    let g = two_pow(d);
    let h = two_pow((d - 1) as nat);
    let k = two_pow((d - 2) as nat);
    lemma_two_pow_add((d - 1) as nat, 1);
    lemma_two_pow_add((d - 2) as nat, 1);
    assert(two_pow(1) == 2) by {
        reveal_with_fuel(two_pow, 2);
    }
    assert(g == 2 * h);
    assert(h == 2 * k);
    let p: nat = (ma * g - mb) as nat;
    assert(ma * g >= g) by (nonlinear_arith)
        requires
            ma >= 1,
    ;
    lemma_two_pow_add(52, d);
    lemma_two_pow_add(53, d);
    lemma_two_pow_add(51, d);
    assert(two_pow(52) == 2 * two_pow(51)) by {
        lemma_two_pow_add(51, 1);
    }
    if ma > two_pow(52) {
        // the exponent is 52 + d and the mantissa rounds up to ma
        assert(1 * two_pow(52 + d) <= p) by (nonlinear_arith)
            requires
                ma >= two_pow(52) + 1,
                p == ma * g - mb,
                4 * mb <= g,
                two_pow(52 + d) == two_pow(52) * g,
        ;
        assert(p < 2 * 1 * two_pow(52 + d)) by (nonlinear_arith)
            requires
                ma < two_pow(53),
                p == ma * g - mb,
                mb >= 1,
                two_pow(53) == 2 * two_pow(52),
                two_pow(52 + d) == two_pow(52) * g,
        ;
        lemma_floor_log2_unique(p, 1, 52 + d);
        assert(((52 + d) - 52) as nat == d);
        let r = (g - mb) as nat;
        assert(p == (ma - 1) * g + r) by (nonlinear_arith)
            requires
                p == ma * g - mb,
                r == g - mb,
                ma >= 1,
        ;
        lemma_fundamental_div_mod_converse(p as int, g as int, (ma - 1) as int, r as int);
        assert(1 * g == g);
        assert(round_half_even(p, 1 * g) == ma);
    } else {
        // just below a power of two: the exponent is 51 + d, and the
        // mantissa rounds up to 2^53
        assert(ma == two_pow(52));
        assert(1 * two_pow(51 + d) <= p) by (nonlinear_arith)
            requires
                p == ma * g - mb,
                ma == two_pow(52),
                two_pow(52) == 2 * two_pow(51),
                4 * mb <= g,
                two_pow(51 + d) == two_pow(51) * g,
                two_pow(52 + d) == two_pow(52) * g,
        ;
        assert(p < 2 * 1 * two_pow(51 + d)) by (nonlinear_arith)
            requires
                p == ma * g - mb,
                ma == two_pow(52),
                two_pow(52) == 2 * two_pow(51),
                mb >= 1,
                two_pow(51 + d) == two_pow(51) * g,
        ;
        lemma_floor_log2_unique(p, 1, 51 + d);
        assert(((51 + d) - 52) as nat == (d - 1) as nat);
        let r = (h - mb) as nat;
        assert(p == (two_pow(53) - 1) * h + r) by (nonlinear_arith)
            requires
                p == ma * g - mb,
                ma == two_pow(52),
                two_pow(53) == 2 * two_pow(52),
                g == 2 * h,
                r == h - mb,
                h >= mb,
        ;
        assert(h >= 2 * mb);
        lemma_fundamental_div_mod_converse(p as int, h as int, (two_pow(53) - 1) as int, r as int);
        assert(1 * h == h);
        assert((two_pow(53) - 1) % 2 == 1);
        assert(round_half_even(p, 1 * h) == two_pow(53));
    }
}

/// Bounds on the exponent of a ratio of at least one.
pub(crate) proof fn lemma_log2_bounds(p: nat, q: nat, t: nat)
    requires
        0 < q <= p,
    ensures
        q * two_pow(t) <= p ==> floor_log2_ratio(p, q) >= t,
        p < q * two_pow(t) ==> floor_log2_ratio(p, q) < t,
{
    lemma_floor_log2_ratio(p, q);
    let f = floor_log2_ratio(p, q);
    assert(two_pow(1) == 2) by {
        reveal_with_fuel(two_pow, 2);
    }
    if q * two_pow(t) <= p && f < t {
        lemma_two_pow_mono(f + 1, t);
        lemma_two_pow_add(f, 1);
        assert(q * two_pow(f + 1) <= q * two_pow(t)) by (nonlinear_arith)
            requires
                two_pow(f + 1) <= two_pow(t),
        ;
        assert(q * two_pow(f + 1) == 2 * q * two_pow(f)) by (nonlinear_arith)
            requires
                two_pow(f + 1) == two_pow(f) * 2,
        ;
    }
    if p < q * two_pow(t) && f >= t {
        lemma_two_pow_mono(t, f);
        assert(q * two_pow(t) <= q * two_pow(f)) by (nonlinear_arith)
            requires
                two_pow(t) <= two_pow(f),
        ;
    }
}

/// `lt(a, b)` for normalised non-zero numbers.
pub fn lt_exec(a: (u128, i32), b: (u128, i32)) -> (r: bool)
    requires
        two_pow(52) <= a.0 < two_pow(53),
        two_pow(52) <= b.0 < two_pow(53),
    ensures
        r == lt((a.0 as nat, a.1 as int), (b.0 as nat, b.1 as int)),
{
    proof {
        lemma_lt_norm((a.0 as nat, a.1 as int), (b.0 as nat, b.1 as int));
    }
    a.1 < b.1 || (a.1 == b.1 && a.0 < b.0)
}

/// `plus(a, b)` for normalised numbers; the sum's exponent is at least the
/// smaller one and at most two above the larger one.
pub fn plus_exec(a: (u128, i32), b: (u128, i32)) -> (r: (u128, i32))
    requires
        is_norm((a.0 as nat, a.1 as int)),
        is_norm((b.0 as nat, b.1 as int)),
        -1000 <= a.1 <= 1000,
        -1000 <= b.1 <= 1000,
    ensures
        (r.0 as nat, r.1 as int) == plus((a.0 as nat, a.1 as int), (b.0 as nat, b.1 as int)),
        is_norm((r.0 as nat, r.1 as int)),
        a.0 == 0 ==> r == b,
        b.0 == 0 ==> r == a,
        a.0 != 0 || b.0 != 0 ==> r.0 != 0,
        a.0 != 0 && b.0 != 0 ==> {
            &&& min_exp((a.0 as nat, a.1 as int), (b.0 as nat, b.1 as int)) <= r.1
            &&& a.1 <= r.1
            &&& b.1 <= r.1
            &&& r.1 <= 2 + if a.1 >= b.1 {
                a.1
            } else {
                b.1
            }
        },
{
    let ghost ga = (a.0 as nat, a.1 as int);
    let ghost gb = (b.0 as nat, b.1 as int);
    proof {
        lemma_two_pow_values();
        assert(two_pow(53) == 2 * two_pow(52)) by {
            lemma_two_pow_add(52, 1);
            reveal_with_fuel(two_pow, 2);
        }
    }
    if a.0 == 0 {
        proof {
            if b.0 != 0 {
                lemma_add_zero(gb);
            } else {
                assert(two_pow(0) == 1);
                assert(rnd(0, 1) == (0nat, 0int));
            }
        }
        return b;
    }
    if b.0 == 0 {
        proof {
            lemma_add_zero(ga);
        }
        return a;
    }
    // order the operands by exponent
    let (hi, lo) = if a.1 >= b.1 {
        (a, b)
    } else {
        (b, a)
    };
    let ghost ghi = (hi.0 as nat, hi.1 as int);
    let ghost glo = (lo.0 as nat, lo.1 as int);
    assert(plus(ga, gb) == plus(ghi, glo)) by {
        assert(min_exp(ga, gb) == min_exp(ghi, glo));
    }
    let d: i32 = hi.1 - lo.1;
    let ghost y = lo.1 as int;
    assert(min_exp(ghi, glo) == y);
    assert(aligned(glo, y) == lo.0 as nat) by {
        assert(two_pow(0) == 1);
        assert(glo.1 == y);
        assert(((glo.1 - y) as nat) == 0nat);
        assert(aligned(glo, y) == glo.0 * two_pow(0nat));
        assert(glo.0 * 1 == glo.0);
    }
    assert(aligned(ghi, y) == hi.0 * two_pow(d as nat));
    if d >= 55 {
        proof {
            lemma_two_pow_mono(54, d as nat);
            lemma_two_pow_add(53, 1);
            assert(two_pow(1) == 2) by {
                reveal_with_fuel(two_pow, 2);
            }
            lemma_rnd_exact(hi.0 as nat, d as nat, lo.0 as nat);
        }
        hi
    } else {
        let s = two_pow_u128(d as u32);
        proof {
            lemma_two_pow_mono(d as nat, 54);
            lemma_two_pow_add(53, 54);
            lemma_two_pow_mono(107, 120);
            assert(hi.0 * s <= two_pow(53) * two_pow(54)) by (nonlinear_arith)
                requires
                    hi.0 <= two_pow(53),
                    s <= two_pow(54),
            ;
            lemma_two_pow_add(107, 1);
            lemma_two_pow_mono(108, 120);
            lemma_two_pow_mono(120, 126);
            assert(two_pow(108) == 2 * two_pow(107)) by {
                reveal_with_fuel(two_pow, 2);
            }
        }
        let p = hi.0 * s + lo.0;
        let (m, x) = round_ratio(p, 1);
        proof {
            // the exponent of the sum lies between those of its parts
            lemma_two_pow_pos(d as nat);
            lemma_two_pow_add(52, d as nat);
            lemma_two_pow_add(54, d as nat);
            assert(1 * two_pow(52 + d as nat) <= p) by (nonlinear_arith)
                requires
                    hi.0 >= two_pow(52),
                    p == hi.0 * two_pow(d as nat) + lo.0,
                    two_pow(52 + d as nat) == two_pow(52) * two_pow(d as nat),
            ;
            assert(p < 1 * two_pow(54 + d as nat)) by (nonlinear_arith)
                requires
                    hi.0 < two_pow(53),
                    lo.0 < two_pow(53),
                    p == hi.0 * two_pow(d as nat) + lo.0,
                    two_pow(d as nat) >= 1,
                    two_pow(54 + d as nat) == two_pow(54) * two_pow(d as nat),
                    two_pow(54) == 2 * two_pow(53),
            ;
            assert(two_pow(54) == 2 * two_pow(53)) by {
                lemma_two_pow_add(53, 1);
                reveal_with_fuel(two_pow, 2);
            }
            lemma_log2_bounds(p as nat, 1, 52 + d as nat);
            lemma_log2_bounds(p as nat, 1, 54 + d as nat);
        }
        (m, x + lo.1)
    }
}

/// `minus(a, b)` for normalised numbers; the difference's exponent is at
/// most one above the larger one.
pub fn minus_exec(a: (u128, i32), b: (u128, i32)) -> (r: (bool, (u128, i32)))
    requires
        is_norm((a.0 as nat, a.1 as int)),
        is_norm((b.0 as nat, b.1 as int)),
        -1000 <= a.1 <= 1000,
        -1000 <= b.1 <= 1000,
    ensures
        ({
            let m = minus((a.0 as nat, a.1 as int), (b.0 as nat, b.1 as int));
            r.0 == m.0 && (r.1.0 as nat, r.1.1 as int) == m.1
        }),
        is_norm((r.1.0 as nat, r.1.1 as int)),
        r.1.0 != 0 ==> {
            &&& min_exp((a.0 as nat, a.1 as int), (b.0 as nat, b.1 as int)) - 52 <= r.1.1
            &&& r.1.1 <= 1 + if a.1 >= b.1 {
                a.1
            } else {
                b.1
            }
        },
{
    let ghost ga = (a.0 as nat, a.1 as int);
    let ghost gb = (b.0 as nat, b.1 as int);
    proof {
        lemma_two_pow_values();
        assert(two_pow(53) == 2 * two_pow(52)) by {
            lemma_two_pow_add(52, 1);
            reveal_with_fuel(two_pow, 2);
        }
        assert(two_pow(0) == 1);
    }
    let y: i32 = if a.1 <= b.1 {
        a.1
    } else {
        b.1
    };
    assert(y == min_exp(ga, gb));
    if a.0 == 0 && b.0 == 0 {
        assert(aligned(ga, y as int) == 0);
        assert(aligned(gb, y as int) == 0);
        assert(rnd(0, 1) == (0nat, 0int));
        return (false, (0, 0));
    }
    if b.0 == 0 {
        let ghost d = (a.1 - y) as nat;
        proof {
            lemma_two_pow_pos(d);
            lemma_rnd_exact(a.0 as nat, d, 0);
            assert(aligned(gb, y as int) == 0);
            assert(aligned(ga, y as int) == a.0 * two_pow(d) + 0);
        }
        return (false, a);
    }
    if a.0 == 0 {
        let ghost d = (b.1 - y) as nat;
        proof {
            lemma_two_pow_pos(d);
            lemma_rnd_exact(b.0 as nat, d, 0);
            assert(aligned(ga, y as int) == 0);
            assert(aligned(gb, y as int) == b.0 * two_pow(d) + 0);
            assert(aligned(gb, y as int) > 0) by (nonlinear_arith)
                requires
                    b.0 >= 1,
                    two_pow(d) >= 1,
                    aligned(gb, y as int) == b.0 * two_pow(d),
            ;
        }
        return (true, b);
    }
    let da = (a.1 - y) as u32;
    let db = (b.1 - y) as u32;
    assert(aligned(ga, y as int) == a.0 * two_pow(da as nat));
    assert(aligned(gb, y as int) == b.0 * two_pow(db as nat));
    if da >= 56 || db >= 56 {
        // the smaller number is below a quarter of the larger one's last place
        proof {
            lemma_two_pow_add(53, 3);
            assert(two_pow(3) == 8) by {
                reveal_with_fuel(two_pow, 4);
            }
            assert(two_pow(0) == 1);
        }
        if da >= 56 {
            proof {
                assert(db == 0);
                assert(two_pow(db as nat) == 1);
                assert(b.0 * two_pow(db as nat) == b.0 * 1);
                lemma_two_pow_mono(56, da as nat);
                lemma_rnd_exact_sub(a.0 as nat, da as nat, b.0 as nat);
                assert(aligned(gb, y as int) == b.0);
                assert(a.0 * two_pow(da as nat) >= two_pow(52) * two_pow(56)) by (nonlinear_arith)
                    requires
                        a.0 >= two_pow(52),
                        two_pow(da as nat) >= two_pow(56),
                ;
                assert(two_pow(52) * two_pow(56) >= two_pow(56)) by (nonlinear_arith)
                    requires
                        two_pow(52) >= 1,
                ;
            }
            return (false, a);
        } else {
            proof {
                assert(da == 0);
                assert(two_pow(da as nat) == 1);
                assert(a.0 * two_pow(da as nat) == a.0 * 1);
                lemma_two_pow_mono(56, db as nat);
                lemma_rnd_exact_sub(b.0 as nat, db as nat, a.0 as nat);
                assert(aligned(ga, y as int) == a.0);
                assert(b.0 * two_pow(db as nat) >= two_pow(52) * two_pow(56)) by (nonlinear_arith)
                    requires
                        b.0 >= two_pow(52),
                        two_pow(db as nat) >= two_pow(56),
                ;
                assert(two_pow(52) * two_pow(56) >= two_pow(56)) by (nonlinear_arith)
                    requires
                        two_pow(52) >= 1,
                ;
            }
            return (true, b);
        }
    }
    let sa = two_pow_u128(da);
    let sb = two_pow_u128(db);
    proof {
        lemma_two_pow_mono(da as nat, 55);
        lemma_two_pow_mono(db as nat, 55);
        lemma_two_pow_add(53, 55);
        lemma_two_pow_mono(108, 126);
        assert(a.0 * sa <= two_pow(53) * two_pow(55)) by (nonlinear_arith)
            requires
                a.0 <= two_pow(53),
                sa <= two_pow(55),
        ;
        assert(b.0 * sb <= two_pow(53) * two_pow(55)) by (nonlinear_arith)
            requires
                b.0 <= two_pow(53),
                sb <= two_pow(55),
        ;
    }
    let va = a.0 * sa;
    let vb = b.0 * sb;
    let (neg, diff) = if va >= vb {
        (false, va - vb)
    } else {
        (true, vb - va)
    };
    if diff == 0 {
        assert(rnd(0, 1) == (0nat, 0int));
        return (neg, (0, 0));
    }
    proof {
        lemma_two_pow_mono(108, 120);
    }
    let (m, x) = round_ratio(diff, 1);
    proof {
        let dm: nat = if da >= db {
            da as nat
        } else {
            db as nat
        };
        lemma_two_pow_add(53, dm);
        lemma_two_pow_mono(da as nat, dm);
        lemma_two_pow_mono(db as nat, dm);
        assert(va < two_pow(53) * two_pow(dm)) by (nonlinear_arith)
            requires
                va == a.0 * sa,
                a.0 < two_pow(53),
                sa <= two_pow(dm),
                sa >= 1,
        ;
        assert(vb < two_pow(53) * two_pow(dm)) by (nonlinear_arith)
            requires
                vb == b.0 * sb,
                b.0 < two_pow(53),
                sb <= two_pow(dm),
                sb >= 1,
        ;
        lemma_two_pow_pos(da as nat);
        lemma_two_pow_pos(db as nat);
        assert(diff < 1 * two_pow(53 + dm));
        lemma_log2_bounds(diff as nat, 1, 53 + dm);
        assert(1 * two_pow(0) <= diff);
        lemma_log2_bounds(diff as nat, 1, 0);
    }
    (neg, (m, x + y))
}

/// `mul_int(a, c)` for a normalised `a` and a 64-bit `c >= 1`; the
/// exponent grows by at most 65 (21 for `c <= 2^20`, 8 for `c <= 128`).
pub fn mul_int_exec(a: (u128, i32), c: u128) -> (r: (u128, i32))
    requires
        is_norm((a.0 as nat, a.1 as int)),
        1 <= c <= 0xffff_ffff_ffff_ffff,
        -1000 <= a.1 <= 1000,
    ensures
        (r.0 as nat, r.1 as int) == mul_int((a.0 as nat, a.1 as int), c as nat),
        is_norm((r.0 as nat, r.1 as int)),
        a.0 != 0 ==> a.1 <= r.1 <= a.1 + 65,
        a.0 != 0 ==> two_pow(52) <= r.0,
        a.0 != 0 && c <= 0x10_0000 ==> r.1 <= a.1 + 21,
        a.0 != 0 && c <= 128 ==> r.1 <= a.1 + 8,
{
    proof {
        lemma_two_pow_values();
    }
    if a.0 == 0 {
        assert(rnd(0, 1) == (0nat, 0int));
        return (0, 0);
    }
    proof {
        lemma_two_pow_add(53, 64);
        lemma_two_pow_mono(117, 120);
        lemma_two_pow_mono(120, 126);
        assert(two_pow(64) == 0x1_0000_0000_0000_0000) by {
            lemma_two_pow_add(32, 32);
            lemma_two_pow_add(16, 16);
            reveal_with_fuel(two_pow, 17);
        }
        assert(a.0 * c <= two_pow(53) * two_pow(64)) by (nonlinear_arith)
            requires
                a.0 <= two_pow(53),
                c <= two_pow(64),
        ;
    }
    let p = a.0 * c;
    assert(p <= two_pow(120));
    assert(p >= 1) by (nonlinear_arith)
        requires
            p == a.0 * c,
            a.0 >= 1,
            c >= 1,
    ;
    let (m, x) = round_ratio(p, 1);
    proof {
        assert(1 * two_pow(52) <= p) by (nonlinear_arith)
            requires
                a.0 >= two_pow(52),
                c >= 1,
                p == a.0 * c,
        ;
        lemma_log2_bounds(p as nat, 1, 52);
        assert(p < 1 * two_pow(117)) by (nonlinear_arith)
            requires
                a.0 < two_pow(53),
                1 <= c < two_pow(64),
                p == a.0 * c,
                two_pow(117) == two_pow(53) * two_pow(64),
        ;
        lemma_log2_bounds(p as nat, 1, 117);
        if c <= 0x10_0000 {
            assert(two_pow(20) == 0x10_0000) by {
                lemma_two_pow_add(14, 6);
                reveal_with_fuel(two_pow, 7);
            }
            lemma_two_pow_add(53, 20);
            assert(p < 1 * two_pow(73)) by (nonlinear_arith)
                requires
                    a.0 < two_pow(53),
                    1 <= c <= two_pow(20),
                    p == a.0 * c,
                    two_pow(73) == two_pow(53) * two_pow(20),
            ;
            lemma_log2_bounds(p as nat, 1, 73);
        }
        if c <= 128 {
            lemma_two_pow_add(53, 7);
            assert(two_pow(7) == 128) by {
                reveal_with_fuel(two_pow, 8);
            }
            assert(p < 1 * two_pow(60)) by (nonlinear_arith)
                requires
                    a.0 < two_pow(53),
                    1 <= c <= 128,
                    p == a.0 * c,
                    two_pow(60) == two_pow(53) * 128,
            ;
            lemma_log2_bounds(p as nat, 1, 60);
        }
    }
    (m, x + a.1)
}

/// `div_int(a, c)` for a normalised `a` and `1 <= c <= 2^12`; the exponent
/// drops by at most 12.
pub fn div_int_exec(a: (u128, i32), c: u128) -> (r: (u128, i32))
    requires
        is_norm((a.0 as nat, a.1 as int)),
        1 <= c <= 0x1000,
        -1000 <= a.1 <= 1000,
    ensures
        (r.0 as nat, r.1 as int) == div_int((a.0 as nat, a.1 as int), c as nat),
        is_norm((r.0 as nat, r.1 as int)),
        a.0 != 0 ==> a.1 - 12 <= r.1 <= a.1 + 1,
{
    proof {
        lemma_two_pow_values();
    }
    if a.0 == 0 {
        assert(rnd(0, c as nat) == (0nat, 0int));
        return (0, 0);
    }
    proof {
        lemma_two_pow_mono(53, 120);
        lemma_two_pow_mono(12, 66);
        assert(two_pow(12) == 0x1000) by {
            reveal_with_fuel(two_pow, 13);
        }
    }
    let (m, x) = round_ratio(a.0, c);
    proof {
        assert(two_pow(12) == 0x1000) by {
            reveal_with_fuel(two_pow, 13);
        }
        lemma_two_pow_add(40, 12);
        assert(c * two_pow(40) <= a.0) by (nonlinear_arith)
            requires
                c <= two_pow(12),
                a.0 >= two_pow(52),
                two_pow(52) == two_pow(40) * two_pow(12),
        ;
        assert(a.0 < c * two_pow(53)) by (nonlinear_arith)
            requires
                c >= 1,
                a.0 < two_pow(53),
        ;
        lemma_log2_bounds(a.0 as nat, c as nat, 40);
        lemma_log2_bounds(a.0 as nat, c as nat, 53);
    }
    (m, x + a.1)
}

/// The fraction `num_of(a) / den_of(a)` of a normalised number with a small
/// exponent, as integers.
pub fn fraction_exec(a: (u128, i32)) -> (r: (u128, u128))
    requires
        is_norm((a.0 as nat, a.1 as int)),
        -120 <= a.1 <= 60,
    ensures
        r.0 == num_of((a.0 as nat, a.1 as int)),
        r.1 == den_of((a.0 as nat, a.1 as int)),
        r.0 < two_pow(113),
        a.1 < 0 ==> r.0 == a.0,
        r.1 >= 1,
        r.1 <= two_pow(120),
{
    proof {
        lemma_two_pow_values();
        lemma_two_pow_mono(120, 126);
        lemma_two_pow_mono(113, 126);
    }
    if a.1 >= 0 {
        let s = two_pow_u128(a.1 as u32);
        proof {
            lemma_two_pow_mono(a.1 as nat, 60);
            lemma_two_pow_pos(a.1 as nat);
            lemma_two_pow_add(53, 60);
            assert(a.0 * s < two_pow(53) * two_pow(60)) by (nonlinear_arith)
                requires
                    a.0 < two_pow(53),
                    1 <= s <= two_pow(60),
            ;
            lemma_two_pow_pos(0);
            assert(two_pow(120) >= 1) by {
                lemma_two_pow_pos(120);
            }
        }
        (a.0 * s, 1)
    } else {
        let d = two_pow_u128((-a.1) as u32);
        proof {
            lemma_two_pow_pos((-a.1) as nat);
            lemma_two_pow_mono((-a.1) as nat, 120);
            lemma_two_pow_mono(53, 113);
        }
        (a.0, d)
    }
}

/// The exponents of the constants that durations are compared with.
pub(crate) proof fn lemma_threshold_exponents()
    ensures
        log2_ratio(1, 1000) == -10,
        log2_ratio(1, 1) == 0,
        log2_ratio(60, 1) == 5,
        log2_ratio(3600, 1) == 11,
{
    reveal_with_fuel(up_log2, 11);
    assert(up_log2(1, 1000) == 10);
    reveal_with_fuel(two_pow, 13);
    lemma_log2_bounds(1, 1, 0);
    lemma_log2_bounds(1, 1, 1);
    lemma_log2_bounds(60, 1, 5);
    lemma_log2_bounds(60, 1, 6);
    lemma_log2_bounds(3600, 1, 11);
    lemma_log2_bounds(3600, 1, 12);
}

/// `from_int(n)`; its exponent is below 12.
pub fn from_int_exec(n: u64) -> (r: (u128, i32))
    ensures
        (r.0 as nat, r.1 as int) == from_int(n as nat),
        is_norm((r.0 as nat, r.1 as int)),
        n != 0 ==> -52 <= r.1 <= 12,
        n != 0 ==> two_pow(52) <= r.0 < two_pow(53),
        n == 0 ==> r == (0u128, 0i32),
{
    proof {
        lemma_two_pow_values();
        lemma_two_pow_mono(64, 120);
    }
    if n == 0 {
        assert(rnd(0, 1) == (0nat, 0int));
        return (0, 0);
    }
    let r = round_ratio(n as u128, 1);
    proof {
        lemma_log2_bounds(n as nat, 1, 64);
        assert(1 * two_pow(0) <= n);
        lemma_log2_bounds(n as nat, 1, 0);
    }
    r
}

/// `quot(a, b)` for normalised numbers, `b` non-zero; the exponent of the
/// quotient lies within 53 below and 51 below `a.1 - b.1`.
pub fn quot_exec(a: (u128, i32), b: (u128, i32)) -> (r: (u128, i32))
    requires
        is_norm((a.0 as nat, a.1 as int)),
        two_pow(52) <= b.0 < two_pow(53),
        -1000 <= a.1 <= 1000,
        -1000 <= b.1 <= 1000,
    ensures
        (r.0 as nat, r.1 as int) == quot((a.0 as nat, a.1 as int), (b.0 as nat, b.1 as int)),
        is_norm((r.0 as nat, r.1 as int)),
        a.0 != 0 ==> a.1 - b.1 - 53 <= r.1 <= a.1 - b.1 - 51,
        a.0 == 0 ==> r == (0u128, 0i32),
{
    proof {
        lemma_two_pow_values();
        lemma_two_pow_mono(53, 120);
        lemma_two_pow_mono(53, 66);
    }
    if a.0 == 0 {
        return (0, 0);
    }
    let (m, x) = round_ratio(a.0, b.0);
    proof {
        // a.0 / b.0 lies in (1/2, 2)
        let p = a.0 as nat;
        let q = b.0 as nat;
        assert(two_pow(53) == 2 * two_pow(52)) by {
            lemma_two_pow_add(52, 1);
            reveal_with_fuel(two_pow, 2);
        }
        if p >= q {
            assert(p < q * two_pow(1)) by {
                assert(two_pow(1) == 2) by {
                    reveal_with_fuel(two_pow, 2);
                }
            }
            lemma_log2_bounds(p, q, 1);
        } else {
            lemma_up_log2(p, q);
            let k = up_log2(p, q);
            if k > 1 {
                lemma_two_pow_mono(2, k);
                assert(two_pow(2) == 4) by {
                    reveal_with_fuel(two_pow, 3);
                }
                // p * 2^(k-1) < q, so 2 * p < q, impossible for mantissas
                lemma_two_pow_add((k - 1) as nat, 1);
                assert(two_pow(1) == 2) by {
                    reveal_with_fuel(two_pow, 2);
                }
                assert(p * two_pow((k - 1) as nat) >= p * 2) by (nonlinear_arith)
                    requires
                        two_pow((k - 1) as nat) >= 2,
                ;
                assert(two_pow((k - 1) as nat) >= 2) by {
                    lemma_two_pow_mono(1, (k - 1) as nat);
                }
                assert(2 * p * two_pow((k - 1) as nat) == p * two_pow(k)) by (nonlinear_arith)
                    requires
                        two_pow(k) == two_pow((k - 1) as nat) * 2,
                ;
            }
        }
    }
    (m, x + (a.1 - b.1))
}

/// `to_u64(a)` for a normalised `a` with an exponent below 60.
pub fn to_u64_exec(a: (u128, i32)) -> (r: u64)
    requires
        is_norm((a.0 as nat, a.1 as int)),
        -120 <= a.1 <= 60,
    ensures
        r == to_u64((a.0 as nat, a.1 as int)),
{
    let (n, d) = fraction_exec(a);
    let f = n / d;
    if f > 0xffff_ffff_ffff_ffff {
        0xffff_ffff_ffff_ffff
    } else {
        f as u64
    }
}

/// `Duration::from_secs_f64(a)` as seconds and nanoseconds, for `a` below
/// `2^64` (an exponent below 12).
pub fn duration_exec(a: (u128, i32)) -> (r: (u64, u32))
    requires
        is_norm((a.0 as nat, a.1 as int)),
        -120 <= a.1 <= 11,
    ensures
        r.0 == nanos_of((a.0 as nat, a.1 as int)) / 1_000_000_000,
        r.1 == nanos_of((a.0 as nat, a.1 as int)) % 1_000_000_000,
{
    let (n, d) = fraction_exec(a);
    proof {
        lemma_two_pow_values();
        if a.1 >= 0 {
            lemma_two_pow_mono(a.1 as nat, 11);
            lemma_two_pow_add(53, 11);
            lemma_two_pow_pos(11);
            assert(n < two_pow(53) * two_pow(11)) by (nonlinear_arith)
                requires
                    n == a.0 * two_pow(a.1 as nat),
                    a.0 < two_pow(53),
                    two_pow(a.1 as nat) <= two_pow(11),
                    two_pow(11) >= 1,
            ;
        } else {
            lemma_two_pow_mono(53, 64);
        }
        assert(n * 1_000_000_000 < 0x1_0000_0000_0000_0000 * 1_000_000_000);
    }
    let total = round_half_even_u128(n * 1_000_000_000, d);
    let ghost nn: nat = (n * 1_000_000_000) as nat;
    let ghost dd: nat = d as nat;
    proof {
        assert(total <= nn / dd + 1);
        assert(nn / dd <= (n as nat / dd) * 1_000_000_000 + 999_999_999) by (nonlinear_arith)
            requires
                dd >= 1,
                nn == n * 1_000_000_000,
        ;
        if a.1 < 0 {
            assert(n as nat / dd <= n) by (nonlinear_arith)
                requires
                    dd >= 1,
            ;
        } else {
            assert(dd == 1);
        }
        assert(n as nat / dd < 0x1_0000_0000_0000_0000);
    }
    let secs = total / 1_000_000_000;
    let nanos = total % 1_000_000_000;
    (secs as u64, nanos as u32)
}

/// `Duration::as_secs_f64`: the whole seconds converted to binary64, plus
/// the nanoseconds divided by `1e9` in binary64.
pub open spec fn secs_f64(secs: nat, nanos: nat) -> (nat, int) {
    plus(rnd(secs, 1), rnd(nanos, 1_000_000_000))
}

/// `secs_f64(secs, nanos)`, with the range of its exponent.
pub fn secs_f64_exec(secs: u64, nanos: u32) -> (s: (u128, i32))
    requires
        nanos < 1_000_000_000,
    ensures
        (s.0 as nat, s.1 as int) == secs_f64(secs as nat, nanos as nat),
        is_norm((s.0 as nat, s.1 as int)),
        -119 <= s.1 <= 14,
        s.0 != 0 ==> -82 <= s.1,
{
    proof {
        lemma_two_pow_values();
        lemma_two_pow_mono(64, 120);
        lemma_two_pow_mono(30, 66);
    }
    let a: (u128, i32) = if secs == 0 {
        (0, 0)
    } else {
        let r = round_ratio(secs as u128, 1);
        proof {
            lemma_log2_bounds(secs as nat, 1, 64);
        }
        r
    };
    let b: (u128, i32) = if nanos == 0 {
        (0, 0)
    } else {
        let r = round_ratio(nanos as u128, 1_000_000_000);
        proof {
            assert(two_pow(30) == 0x4000_0000) by {
                lemma_two_pow_add(16, 14);
                crate::numfmt::lemma_two_pow_16();
            }
            lemma_up_log2_bound(nanos as nat, 1_000_000_000, 30);
        }
        r
    };
    assert(rnd(0, 1) == (0nat, 0int));
    assert(rnd(0, 1_000_000_000) == (0nat, 0int));
    plus_exec(a, b)
}

/// `lt(a, b)` for numbers that are normalised or zero.
pub fn lt0_exec(a: (u128, i32), b: (u128, i32)) -> (r: bool)
    requires
        is_norm((a.0 as nat, a.1 as int)),
        is_norm((b.0 as nat, b.1 as int)),
    ensures
        r == lt((a.0 as nat, a.1 as int), (b.0 as nat, b.1 as int)),
{
    let ghost ga = (a.0 as nat, a.1 as int);
    let ghost gb = (b.0 as nat, b.1 as int);
    proof {
        lemma_two_pow_values();
        let y = min_exp(ga, gb);
        if a.0 == 0 {
            assert(aligned(ga, y) == 0);
        }
        if b.0 == 0 {
            assert(aligned(gb, y) == 0);
        }
        if a.0 == 0 && b.0 != 0 {
            let d = (b.1 - y) as nat;
            lemma_two_pow_pos(d);
            assert(aligned(gb, y) == b.0 * two_pow(d));
            assert(b.0 * two_pow(d) >= 1) by (nonlinear_arith)
                requires
                    b.0 >= 1,
                    two_pow(d) >= 1,
            ;
        }
    }
    if b.0 == 0 {
        false
    } else if a.0 == 0 {
        true
    } else {
        lt_exec(a, b)
    }
}

/// `up_log2(p, q) <= t` when `q <= p * 2^t`.
pub(crate) proof fn lemma_up_log2_bound(p: nat, q: nat, t: nat)
    requires
        0 < p,
        q <= p * two_pow(t),
    ensures
        up_log2(p, q) <= t,
    decreases q - p,
{
    if p < q {
        if t == 0 {
            assert(two_pow(0) == 1);
            assert(two_pow(t) == 1);
            assert(p * 1 == p);
            assert(false);
        }
        if 2 * p < q {
            lemma_two_pow_add((t - 1) as nat, 1);
            assert(two_pow(1) == 2) by {
                reveal_with_fuel(two_pow, 2);
            }
            assert(p * two_pow(t) == (2 * p) * two_pow((t - 1) as nat)) by (nonlinear_arith)
                requires
                    two_pow(t) == two_pow((t - 1) as nat) * 2,
            ;
            lemma_up_log2_bound(2 * p, q, (t - 1) as nat);
        }
    }
}

/// `round_half_even(n, d)` is zero when `n` is below half of `d`.
pub(crate) proof fn lemma_rhe_small(n: nat, d: nat)
    requires
        2 * n < d,
    ensures
        round_half_even(n, d) == 0,
{
    lemma_fundamental_div_mod_converse(n as int, d as int, 0, n as int);
}

/// `round_scaled(a, c)` for a normalised `a` with an exponent up to 60 and
/// `1 <= c <= 1000`.
pub fn round_int_exec(a: (u128, i32), c: u128) -> (r: u128)
    requires
        is_norm((a.0 as nat, a.1 as int)),
        a.1 <= 60,
        1 <= c <= 1000,
    ensures
        r == round_scaled((a.0 as nat, a.1 as int), c as nat),
{
    proof {
        lemma_two_pow_values();
    }
    if a.1 < -120 {
        proof {
            lemma_two_pow_mono(121, (-a.1) as nat);
            lemma_two_pow_mono(64, 121);
            assert(a.0 * c < 0x20_0000_0000_0000 * 1001) by (nonlinear_arith)
                requires
                    a.0 < 0x20_0000_0000_0000,
                    c <= 1000,
            ;
            lemma_rhe_small((a.0 * c) as nat, two_pow((-a.1) as nat));
        }
        return 0;
    }
    let (n, d) = fraction_exec(a);
    proof {
        lemma_two_pow_mono(113, 123);
        assert(n * c < two_pow(113) * 1024) by (nonlinear_arith)
            requires
                n < two_pow(113),
                c <= 1000,
        ;
        lemma_two_pow_add(113, 10);
        assert(two_pow(10) == 1024) by {
            reveal_with_fuel(two_pow, 11);
        }
        lemma_two_pow_mono(123, 126);
    }
    round_half_even_u128(n * c, d)
}

/// `rnd(p, q)` for 64-bit operands.
pub fn round_ratio64(p: u64, q: u64) -> (r: (u128, i32))
    requires
        1 <= p,
        1 <= q,
    ensures
        (r.0 as nat, r.1 as int) == rnd(p as nat, q as nat),
        two_pow(52) <= r.0 < two_pow(53),
        r.1 == log2_ratio(p as nat, q as nat) - 52 || r.1 == log2_ratio(p as nat, q as nat) - 51,
        -67 <= log2_ratio(p as nat, q as nat) <= 120,
{
    proof {
        lemma_two_pow_values();
        lemma_two_pow_mono(64, 120);
        lemma_two_pow_mono(64, 66);
    }
    round_ratio(p as u128, q as u128)
}

} // verus!
