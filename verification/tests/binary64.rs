use viy::binary64::{
    duration_exec, from_int_exec, lt_exec, minus_exec, mul_int_exec, plus_exec, quot_exec,
    round_ratio, to_u64_exec,
};

/// A positive normal f64 as `(m, x)` with value `m * 2^x`; zero as `(0, 0)`.
fn parts(v: f64) -> (u128, i32) {
    if v == 0.0 {
        return (0, 0);
    }
    let bits = v.to_bits();
    let exp = ((bits >> 52) & 0x7ff) as i32;
    let mant = (bits & ((1u64 << 52) - 1)) | (1u64 << 52);
    (mant as u128, exp - 1075)
}

fn value(a: (u128, i32)) -> f64 {
    if a.0 == 0 {
        return 0.0;
    }
    let bits = (((a.1 + 1075) as u64) << 52) | ((a.0 as u64) & ((1u64 << 52) - 1));
    f64::from_bits(bits)
}

fn samples() -> Vec<u64> {
    let mut v: Vec<u64> = vec![1, 2, 3, 7, 10, 60, 100, 999, 1000, 1001, 3600, u64::MAX, u64::MAX - 1];
    for k in 0..64u32 {
        let p = 1u64 << k;
        v.push(p);
        v.push(p.wrapping_sub(1).max(1));
        v.push(p.wrapping_add(1).max(1));
        v.push(p.wrapping_add(p / 3).max(1));
    }
    let mut x: u64 = 0x2545_f491_4f6c_dd1d;
    for _ in 0..3000 {
        x ^= x << 13;
        x ^= x >> 7;
        x ^= x << 17;
        v.push((x >> (x % 64)).max(1));
    }
    v
}

#[test]
fn integers_and_ratios_round_like_f64() {
    let s = samples();
    for &n in &s {
        assert_eq!(from_int_exec(n), parts(n as f64), "n = {}", n);
    }
    for i in 0..s.len().min(400) {
        for j in 0..s.len().min(60) {
            let (p, q) = (s[i], s[j]);
            if q as u128 <= (1u128 << 66) {
                let r = round_ratio(p as u128, q as u128);
                // p and q below 2^53 convert exactly
                if p < (1 << 53) && q < (1 << 53) {
                    assert_eq!(r, parts(p as f64 / q as f64), "{} / {}", p, q);
                }
            }
        }
    }
}

#[test]
fn arithmetic_matches_f64() {
    let s = samples();
    for i in 0..s.len().min(300) {
        for j in 0..s.len().min(80) {
            let a = s[i] as f64 / 7.0;
            let b = s[j] as f64 / 1000.0;
            let (pa, pb) = (parts(a), parts(b));
            assert_eq!(plus_exec(pa, pb), parts(a + b), "{} + {}", a, b);
            assert_eq!(quot_exec(pa, pb), parts(a / b), "{} / {}", a, b);
            assert_eq!(lt_exec(pa, pb), a < b);
            let (neg, mag) = minus_exec(pa, pb);
            let d = a - b;
            assert_eq!(neg, d < 0.0, "{} - {}", a, b);
            assert_eq!(mag, parts(d.abs()), "{} - {}", a, b);
            assert_eq!(mul_int_exec(pa, 1000), parts(a * 1000.0));
            assert_eq!(mul_int_exec(pb, 100), parts(b * 100.0));
        }
    }
}

#[test]
fn conversions_match_std() {
    let s = samples();
    for &n in &s {
        for div in [1.0f64, 3.0, 1000.0, 1e9, 7e12] {
            let v = n as f64 / div;
            let p = parts(v);
            if p.1 <= 60 && p.1 >= -120 {
                assert_eq!(to_u64_exec(p), v as u64, "{}", v);
            }
            if v < 18446744073709551616.0 && p.1 >= -120 {
                let d = std::time::Duration::from_secs_f64(v);
                assert_eq!(duration_exec(p), (d.as_secs(), d.subsec_nanos()), "{}", v);
            }
            assert_eq!(value(p), v);
        }
    }
}
