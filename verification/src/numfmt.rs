//! Exact decimal renderings of binary64 quotients.
//!
//! The report prints quantities such as `bytes / 1024.0` with one decimal.
//! Those values are computed here exactly, as the IEEE-754 binary64 value
//! that the quotient rounds to (round to nearest, ties to even), and then
//! rendered with one fractional digit (again rounding ties to even).
use vstd::prelude::*;
use crate::text::{dec_digits, digit, digit_char, push_dec};

verus! {

/// 2 to the power `k`.
pub open spec fn two_pow(k: nat) -> nat
    decreases k,
{
    if k == 0 {
        1
    } else {
        2 * two_pow((k - 1) as nat)
    }
}

pub(crate) proof fn lemma_two_pow_pos(k: nat)
    ensures
        two_pow(k) >= 1,
    decreases k,
{
    if k > 0 {
        lemma_two_pow_pos((k - 1) as nat);
    }
}

pub(crate) proof fn lemma_two_pow_add(a: nat, b: nat)
    ensures
        two_pow(a + b) == two_pow(a) * two_pow(b),
    decreases a,
{
    if a > 0 {
        lemma_two_pow_add((a - 1) as nat, b);
        let x = two_pow((a - 1) as nat);
        let y = two_pow(b);
        assert(((a + b) - 1) as nat == ((a - 1) as nat + b) as nat);
        assert(two_pow(a + b) == 2 * two_pow(((a + b) - 1) as nat));
        assert(two_pow(a) == 2 * x);
        assert(two_pow(((a - 1) as nat + b) as nat) == x * y);
        assert(2 * (x * y) == (2 * x) * y) by (nonlinear_arith);
        assert(two_pow(a + b) == two_pow(a) * two_pow(b));
    } else {
        assert(two_pow(a) == 1);
        assert(a + b == b);
    }
}

pub(crate) proof fn lemma_two_pow_mono(a: nat, b: nat)
    requires
        a <= b,
    ensures
        two_pow(a) <= two_pow(b),
    decreases b,
{
    if a < b {
        lemma_two_pow_mono(a, (b - 1) as nat);
        lemma_two_pow_pos((b - 1) as nat);
    }
}

pub(crate) proof fn lemma_two_pow_16()
    ensures
        two_pow(16) == 0x10000,
{
    reveal_with_fuel(two_pow, 17);
}

pub(crate) proof fn lemma_two_pow_64()
    ensures
        two_pow(32) == 0x1_0000_0000,
        two_pow(64) == 0x1_0000_0000_0000_0000,
{
    lemma_two_pow_16();
    lemma_two_pow_add(16, 16);
    assert(two_pow(32) == 0x10000 * 0x10000);
    lemma_two_pow_add(32, 32);
    assert(two_pow(64) == 0x1_0000_0000 * 0x1_0000_0000);
}

pub(crate) proof fn lemma_two_pow_values()
    ensures
        two_pow(14) == 0x4000,
        two_pow(32) == 0x1_0000_0000,
        two_pow(53) == 0x20_0000_0000_0000,
        two_pow(64) == 0x1_0000_0000_0000_0000,
        two_pow(66) == 0x4_0000_0000_0000_0000,
        two_pow(67) == 0x8_0000_0000_0000_0000,
        two_pow(126) == 0x4000_0000_0000_0000_0000_0000_0000_0000,
{
    lemma_two_pow_64();
    reveal_with_fuel(two_pow, 15);
    assert(two_pow(14) == 0x4000);
    lemma_two_pow_add(32, 21);
    assert(two_pow(21) == 0x20_0000) by {
        lemma_two_pow_add(14, 7);
        reveal_with_fuel(two_pow, 8);
    }
    assert(two_pow(53) == 0x1_0000_0000 * 0x20_0000);
    lemma_two_pow_add(64, 2);
    lemma_two_pow_add(64, 3);
    assert(two_pow(2) == 4) by {
        reveal_with_fuel(two_pow, 3);
    }
    assert(two_pow(3) == 8) by {
        reveal_with_fuel(two_pow, 4);
    }
    assert(two_pow(66) == 0x1_0000_0000_0000_0000 * 4);
    assert(two_pow(67) == 0x1_0000_0000_0000_0000 * 8);
    lemma_two_pow_add(64, 62);
    lemma_two_pow_add(32, 30);
    lemma_two_pow_add(16, 14);
    lemma_two_pow_16();
    assert(two_pow(30) == 0x10000 * 0x4000);
    assert(two_pow(62) == 0x1_0000_0000 * 0x4000_0000);
    assert(two_pow(126) == 0x1_0000_0000_0000_0000 * 0x4000_0000_0000_0000);
}

/// `p / q` rounded to the nearest integer, ties to even.
pub open spec fn round_half_even(p: nat, q: nat) -> nat {
    let d = p / q;
    let r = p % q;
    if 2 * r > q || (2 * r == q && d % 2 == 1) {
        d + 1
    } else {
        d
    }
}

/// The largest `e` with `d * 2^e <= n`, for `0 < d <= n`.
pub open spec fn floor_log2_ratio(n: nat, d: nat) -> nat
    decreases n - d,
{
    if d == 0 || n < 2 * d {
        0
    } else {
        1 + floor_log2_ratio(n, 2 * d)
    }
}

/// The binary64 number nearest to `n / d` (ties to even), for `0 < d <= n`,
/// as a pair `(m, x)` with value `m * 2^x`. The quotient is at least one, so
/// it is a normal number with 53 significant bits.
pub open spec fn f64_quotient(n: nat, d: nat) -> (nat, int) {
    let e = floor_log2_ratio(n, d);
    if e >= 52 {
        (round_half_even(n, d * two_pow((e - 52) as nat)), e - 52)
    } else {
        (round_half_even(n * two_pow((52 - e) as nat), d), e - 52)
    }
}

/// The number `m * 2^x` in tenths, rounded to the nearest tenth, ties to even.
pub open spec fn tenths(m: nat, x: int) -> nat {
    if x >= 0 {
        10 * m * two_pow(x as nat)
    } else {
        round_half_even(10 * m, two_pow((-x) as nat))
    }
}

/// A number of tenths written with one fractional digit, as `{:.1}` does.
pub open spec fn fixed1_text(t: nat) -> Seq<char> {
    dec_digits(t / 10) + seq!['.', digit_char(t % 10)]
}

/// `m * 2^x` written with one fractional digit.
pub open spec fn dyadic_fixed1(m: nat, x: int) -> Seq<char> {
    fixed1_text(tenths(m, x))
}

/// `d * 2^e <= n < d * 2^(e+1)` for `e = floor_log2_ratio(n, d)`.
pub(crate) proof fn lemma_floor_log2_ratio(n: nat, d: nat)
    requires
        0 < d <= n,
    ensures
        d * two_pow(floor_log2_ratio(n, d)) <= n < 2 * d * two_pow(floor_log2_ratio(n, d)),
    decreases n - d,
{
    let e = floor_log2_ratio(n, d);
    if n < 2 * d {
        assert(two_pow(0) == 1);
    } else {
        lemma_floor_log2_ratio(n, 2 * d);
        let e2 = floor_log2_ratio(n, 2 * d);
        assert(e == e2 + 1);
        assert(two_pow(e) == 2 * two_pow(e2));
        assert((2 * d) * two_pow(e2) == d * (2 * two_pow(e2))) by (nonlinear_arith);
        assert(2 * (2 * d) * two_pow(e2) == 2 * d * (2 * two_pow(e2))) by (nonlinear_arith);
    }
}

/// The binary64 value of the integer `n` (`n as f64`), which is an integer.
pub open spec fn f64_int(n: nat) -> nat {
    let (m, x) = f64_quotient(n, 1);
    if x >= 0 {
        m * two_pow(x as nat)
    } else {
        m / two_pow((-x) as nat)
    }
}

/// Integers below 2^53 convert exactly; larger ones stay at least 2^52;
/// nothing below 2^64 exceeds 2^64.
pub(crate) proof fn lemma_f64_int_bounds(n: nat)
    requires
        1 <= n < two_pow(64),
    ensures
        n < two_pow(53) ==> f64_int(n) == n,
        n >= two_pow(53) ==> f64_int(n) >= two_pow(52),
        f64_int(n) <= two_pow(64),
{
    let e = floor_log2_ratio(n, 1);
    lemma_floor_log2_ratio(n, 1);
    lemma_two_pow_values();
    if e >= 64 {
        lemma_two_pow_mono(64, e);
    }
    assert(e < 64);
    if e >= 52 {
        let k = (e - 52) as nat;
        let q = two_pow(k);
        lemma_two_pow_pos(k);
        lemma_two_pow_add(k, 52);
        lemma_two_pow_add(k, 53);
        let m = round_half_even(n, 1 * q);
        assert(1 * q == q);
        assert(n / q >= two_pow(52)) by (nonlinear_arith)
            requires
                n >= two_pow(e),
                two_pow(e) == q * two_pow(52),
                q > 0,
        ;
        assert(n / q < two_pow(53)) by (nonlinear_arith)
            requires
                n < 2 * two_pow(e),
                two_pow(e) == q * two_pow(52),
                two_pow(53) == 2 * two_pow(52),
                q > 0,
        ;
        assert(m >= n / q && m <= n / q + 1);
        lemma_two_pow_mono(k, 11);
        assert(m * q >= two_pow(52)) by (nonlinear_arith)
            requires
                m >= two_pow(52),
                q >= 1,
        ;
        assert(m * q <= two_pow(53) * two_pow(11)) by (nonlinear_arith)
            requires
                m <= two_pow(53),
                q <= two_pow(11),
        ;
        lemma_two_pow_add(53, 11);
        if e == 52 {
            assert(q == 1);
            assert(n / 1 == n && n % 1 == 0);
            assert(round_half_even(n, 1) == n);
            assert(m == n);
        } else {
            lemma_two_pow_mono(53, e);
        }
    } else {
        let k = (52 - e) as nat;
        let q = two_pow(k);
        lemma_two_pow_pos(k);
        let m = round_half_even(n * q, 1);
        assert(m == n * q);
        assert((n * q) / q == n) by (nonlinear_arith)
            requires
                q > 0,
        ;
        lemma_two_pow_mono(e, 51);
        lemma_two_pow_add(e, 1);
        assert(two_pow(e + 1) == 2 * two_pow(e));
        lemma_two_pow_mono(e + 1, 52);
        lemma_two_pow_mono(52, 53);
    }
}

/// `f64_int(n)`.
pub fn f64_int_u128(n: u64) -> (r: u128)
    requires
        n >= 1,
    ensures
        r == f64_int(n as nat),
{
    proof {
        lemma_two_pow_values();
    }
    let (m, x) = f64_quotient_u128(n as u128, 1);
    if x >= 0 {
        let s = two_pow_u128(x as u32);
        proof {
            lemma_two_pow_mono(x as nat, 14);
            assert(m * s <= two_pow(53) * two_pow(14)) by (nonlinear_arith)
                requires
                    m <= two_pow(53),
                    s <= two_pow(14),
            ;
        }
        m * s
    } else {
        let s = two_pow_u128((-x) as u32);
        proof {
            lemma_two_pow_pos((-x) as nat);
        }
        m / s
    }
}

pub fn two_pow_u128(k: u32) -> (r: u128)
    requires
        k < 127,
    ensures
        r == two_pow(k as nat),
{
    let mut r: u128 = 1;
    let mut i: u32 = 0;
    proof {
        lemma_two_pow_mono(0, 126);
    }
    while i < k
        invariant
            i <= k < 127,
            r == two_pow(i as nat),
            r <= two_pow(126),
        decreases k - i,
    {
        proof {
            lemma_two_pow_mono((i + 1) as nat, 126);
            lemma_two_pow_add(126, 1);
            lemma_two_pow_64();
            lemma_two_pow_add(64, 63);
            lemma_two_pow_add(63, 63);
            reveal_with_fuel(two_pow, 2);
        }
        r = r * 2;
        i = i + 1;
    }
    r
}

pub fn round_half_even_u128(p: u128, q: u128) -> (r: u128)
    requires
        q > 0,
    ensures
        r == round_half_even(p as nat, q as nat),
        r <= p / q + 1,
{
    let d = p / q;
    let rem = p % q;
    if rem > 0 {
        assert(q >= 2);
        assert(d <= p / 2) by (nonlinear_arith)
            requires
                d == p / q,
                q >= 2,
        ;
    }
    if rem > q - rem || (rem == q - rem && d % 2 == 1) {
        d + 1
    } else {
        d
    }
}

/// `floor_log2_ratio(n, d)` computed by doubling `d`; also returns `d * 2^e`.
fn floor_log2_ratio_u128(n: u128, d: u128) -> (r: (u32, u128))
    requires
        0 < d <= n,
        n <= two_pow(66),
    ensures
        r.0 == floor_log2_ratio(n as nat, d as nat),
        r.1 == d * two_pow(r.0 as nat),
        r.1 <= n < 2 * r.1,
        r.0 <= 66,
{
    let mut e: u32 = 0;
    let mut dd: u128 = d;
    proof {
        assert(two_pow(0) == 1);
        assert(d * 1 == d);
        lemma_two_pow_64();
        lemma_two_pow_add(64, 2);
        reveal_with_fuel(two_pow, 3);
    }
    while dd <= n / 2
        invariant
            0 < d <= dd <= n <= two_pow(66),
            two_pow(66) == 4 * 0x1_0000_0000_0000_0000,
            dd == d * two_pow(e as nat),
            two_pow(e as nat) <= dd,
            e <= 66,
            floor_log2_ratio(n as nat, d as nat) == e + floor_log2_ratio(n as nat, dd as nat),
        decreases n - dd,
    {
        let ghost old_e = e;
        proof {
            lemma_two_pow_pos(e as nat);
            assert(d * two_pow(e as nat) * 2 == d * (2 * two_pow(e as nat))) by (nonlinear_arith);
            if e >= 66 {
                lemma_two_pow_mono(66, e as nat);
            }
        }
        dd = dd * 2;
        e = e + 1;
        assert(two_pow(e as nat) == 2 * two_pow(old_e as nat));
    }
    (e, dd)
}

/// `f64_quotient(n, d)`.
pub fn f64_quotient_u128(n: u128, d: u128) -> (r: (u128, i32))
    requires
        0 < d <= n,
        n <= two_pow(66),
        d <= two_pow(32),
    ensures
        (r.0 as nat, r.1 as int) == f64_quotient(n as nat, d as nat),
        r.0 <= two_pow(53),
        -52 <= r.1 <= 14,
{
    let (e, dd) = floor_log2_ratio_u128(n, d);
    proof {
        lemma_two_pow_64();
        lemma_two_pow_add(32, 21);
        lemma_two_pow_add(53, 32);
        lemma_two_pow_pos(e as nat);
    }
    if e >= 52 {
        let s = two_pow_u128(e - 52);
        proof {
            lemma_two_pow_add((e - 52) as nat, 52);
            lemma_two_pow_add((e - 52) as nat, 53);
            lemma_two_pow_mono((e - 52) as nat, 14);
            lemma_two_pow_pos((e - 52) as nat);
            assert(d * s <= two_pow(32) * two_pow(14)) by (nonlinear_arith)
                requires
                    d <= two_pow(32),
                    s <= two_pow(14),
            ;
            lemma_two_pow_add(32, 14);
            lemma_two_pow_mono(46, 64);
        }
        let q = d * s;
        assert(q > 0) by (nonlinear_arith)
            requires
                q == d * s,
                d > 0,
                s >= 1,
        ;
        let m = round_half_even_u128(n, q);
        proof {
            // n < 2 * d * 2^e = q * 2^53
            assert(dd == d * (s * two_pow(52))) by (nonlinear_arith)
                requires
                    dd == d * two_pow(e as nat),
                    two_pow(e as nat) == s * two_pow(52),
            ;
            assert(n < q * two_pow(53)) by (nonlinear_arith)
                requires
                    n < 2 * dd,
                    dd == d * (s * two_pow(52)),
                    q == d * s,
                    two_pow(53) == 2 * two_pow(52),
            ;
            assert(n / q < two_pow(53)) by (nonlinear_arith)
                requires
                    n < q * two_pow(53),
                    q > 0,
            ;
        }
        (m, (e - 52) as i32)
    } else {
        let s = two_pow_u128(52 - e);
        proof {
            lemma_two_pow_add(e as nat, (52 - e) as nat);
            lemma_two_pow_pos((52 - e) as nat);
            assert(n * s < 2 * dd * s) by (nonlinear_arith)
                requires
                    n < 2 * dd,
                    s > 0,
            ;
            assert(2 * dd * s == d * two_pow(53)) by (nonlinear_arith)
                requires
                    dd == d * two_pow(e as nat),
                    two_pow(52) == two_pow(e as nat) * s,
                    two_pow(53) == 2 * two_pow(52),
            ;
            assert(d * two_pow(53) <= two_pow(32) * two_pow(53)) by (nonlinear_arith)
                requires
                    d <= two_pow(32),
            ;
            lemma_two_pow_mono(85, 127);
            lemma_two_pow_add(64, 63);
            lemma_two_pow_add(63, 63);
        }
        let p = n * s;
        let m = round_half_even_u128(p, d);
        proof {
            assert(p / d < two_pow(53)) by (nonlinear_arith)
                requires
                    p < d * two_pow(53),
                    d > 0,
            ;
        }
        (m, e as i32 - 52)
    }
}

/// `tenths(m, x)`.
pub fn tenths_u128(m: u128, x: i32) -> (t: u128)
    requires
        m <= two_pow(53),
        -120 <= x <= 14,
    ensures
        t == tenths(m as nat, x as int),
        t <= 10 * two_pow(67),
{
    proof {
        lemma_two_pow_values();
        lemma_two_pow_add(53, 14);
    }
    if x >= 0 {
        let s = two_pow_u128(x as u32);
        proof {
            lemma_two_pow_mono(x as nat, 14);
            assert(m * s <= two_pow(53) * two_pow(14)) by (nonlinear_arith)
                requires
                    m <= two_pow(53),
                    s <= two_pow(14),
            ;
            assert(10 * (m * s) == 10 * m * s) by (nonlinear_arith);
        }
        let ms = m * s;
        10 * ms
    } else {
        let s = two_pow_u128((-x) as u32);
        proof {
            lemma_two_pow_pos((-x) as nat);
            lemma_two_pow_mono(53, 67);
            assert(((10 * m) as int) / (s as int) <= 10 * m) by (nonlinear_arith)
                requires
                    s >= 1,
                    m >= 0,
            ;
        }
        round_half_even_u128(10 * m, s)
    }
}

/// Appends `t` tenths written with one fractional digit.
pub fn push_fixed1(out: &mut Vec<char>, t: u128)
    ensures
        final(out)@ == old(out)@ + fixed1_text(t as nat),
{
    push_dec(out, t / 10);
    out.push('.');
    out.push(digit((t % 10) as u8));
}

} // verus!
