//! Charts: series colors and dimmed frame pieces, the time axis under a
//! chart, min-max downsampling of a series, and whole charts drawn from
//! series of binary64 numbers.
use vstd::prelude::*;
use crate::binary64::{
    den_of, div_int, div_int_exec, fraction_exec, floor_of, from_int, from_int_exec, is_norm, minus, num_of, plus,
    to_u64, lemma_lt_norm, lemma_threshold_exponents,
    lemma_add_zero, lt, lt0_exec, lt_exec, mul_int, mul_int_exec, quot, quot_exec, rnd, rnd_scaled, round_int_exec, round_ratio,
    round_scaled, secs_f64, secs_f64_exec, to_u64_exec,
};
use crate::colors::{bold, bold_text};
use crate::insights::{bytes_text, push_bytes};
use crate::rounding::{lemma_bucket_edges, lemma_half, lemma_none_below_zero, lemma_sub_zero};
use crate::terminal::format::{box_bottom, box_bottom_text, sat_sub};
use crate::colors::{blue, cyan, dim_text, dimmed, fg_text, green, magenta, yellow};
use crate::text::{push_chars, push_repeat, push_str, repeat_char};
use crate::numfmt::{fixed1_text, lemma_two_pow_values, push_fixed1, two_pow};
use crate::text::{chars_of, dec_digits, is_ws, is_whitespace, push_dec, string_from_chars, utf8_len, utf8_len_wide};
use vstd::utf8::encode_utf8;

verus! {

/// The color of a chart's series.
#[derive(Clone, Copy, PartialEq, Eq, Structural)]
pub enum ChartColor {
    Cyan,
    Green,
    Yellow,
    Magenta,
    Blue,
}

/// The digit of the ANSI foreground code (`3x`) of a chart color.
pub open spec fn color_digit(c: ChartColor) -> char {
    match c {
        ChartColor::Cyan => '6',
        ChartColor::Green => '2',
        ChartColor::Yellow => '3',
        ChartColor::Magenta => '5',
        ChartColor::Blue => '4',
    }
}

/// Every character of `s` is white space.
pub open spec fn all_ws(s: Seq<char>) -> bool {
    forall|i: int| 0 <= i < s.len() ==> is_ws(#[trigger] s[i])
}

/// A piece of a chart in its series color; blank pieces and
/// colorless output stay as they are.
pub open spec fn colored_piece(s: Seq<char>, color: ChartColor, use_color: bool) -> Seq<char> {
    if !use_color || all_ws(s) {
        s
    } else {
        fg_text(color_digit(color), s)
    }
}

/// `s` in the chart's color (see `colored_piece`).
pub fn color_str(s: &str, color: &ChartColor, use_color: bool) -> (r: String)
    ensures
        r@ == colored_piece(s@, *color, use_color),
{
    let v = chars_of(s);
    let mut blank = true;
    let mut i: usize = 0;
    while i < v.len()
        invariant
            v@ == s@,
            i <= v@.len(),
            blank == all_ws(v@.take(i as int)),
        decreases v@.len() - i,
    {
        if !is_whitespace(v[i]) {
            blank = false;
            assert(!is_ws(v@.take(i + 1)[i as int]));
        }
        i = i + 1;
        assert forall|j: int| 0 <= j < i - 1 implies v@.take(i as int)[j] == v@.take(i - 1)[j] by {}
    }
    assert(v@.take(v@.len() as int) =~= v@);
    if !use_color || blank {
        return string_from_chars(&v);
    }
    match color {
        ChartColor::Cyan => cyan(s),
        ChartColor::Green => green(s),
        ChartColor::Yellow => yellow(s),
        ChartColor::Magenta => magenta(s),
        ChartColor::Blue => blue(s),
    }
}

/// `s`, dim when colors are on.
pub open spec fn dimmed_piece(s: Seq<char>, use_color: bool) -> Seq<char> {
    if use_color {
        dim_text(s)
    } else {
        s
    }
}

/// `s`, dim when colors are on.
pub fn dim_char(s: &str, use_color: bool) -> (r: String)
    ensures
        r@ == dimmed_piece(s@, use_color),
{
    if use_color {
        dimmed(s)
    } else {
        string_from_chars(&chars_of(s))
    }
}

/// A short time-axis label for `s` seconds: `0` under a millisecond,
/// whole milliseconds under a second, seconds with one decimal under a
/// minute, else whole minutes (each rounded as `{:.0}` and `{:.1}` round).
pub open spec fn time_short_text(s: (nat, int)) -> Seq<char> {
    if lt(s, rnd(1, 1000)) {
        seq!['0']
    } else if lt(s, rnd(1, 1)) {
        dec_digits(round_scaled(mul_int(s, 1000), 1)) + seq!['m', 's']
    } else if lt(s, rnd(60, 1)) {
        fixed1_text(round_scaled(s, 10)) + seq!['s']
    } else {
        dec_digits(round_scaled(div_int(s, 60), 1)) + seq!['m']
    }
}

/// A short time-axis label (see `time_short_text`) for the binary64
/// number of seconds `secs`.
#[verifier::spinoff_prover]
pub fn format_time_short(secs: (u128, i32)) -> (r: String)
    requires
        is_norm((secs.0 as nat, secs.1 as int)),
        -1000 <= secs.1 <= 59,
    ensures
        r@ == time_short_text((secs.0 as nat, secs.1 as int)),
{
    proof {
        lemma_two_pow_values();
        lemma_threshold_exponents();
        crate::numfmt::lemma_two_pow_mono(64, 120);
        crate::numfmt::lemma_two_pow_mono(64, 66);
    }
    let ghost gs = (secs.0 as nat, secs.1 as int);
    let milli = round_ratio(1, 1000);
    let one = round_ratio(1, 1);
    let minute = round_ratio(60, 1);
    let ghost g_milli = (milli.0 as nat, milli.1 as int);
    let ghost g_one = (one.0 as nat, one.1 as int);
    let ghost g_minute = (minute.0 as nat, minute.1 as int);
    proof {
        if secs.0 != 0 {
            lemma_lt_norm(gs, g_milli);
            lemma_lt_norm(gs, g_one);
            lemma_lt_norm(gs, g_minute);
        }
    }
    let mut out: Vec<char> = Vec::new();
    if secs.0 == 0 || lt_exec(secs, milli) {
        proof {
            if secs.0 == 0 {
                let y = crate::binary64::min_exp(gs, g_milli);
                assert(crate::binary64::aligned(gs, y) == 0);
                assert(two_pow(0) == 1);
                assert(crate::binary64::aligned(g_milli, y) == milli.0 * two_pow(0));
            }
        }
        assert(lt(gs, rnd(1, 1000)));
        out.push('0');
    } else if lt_exec(secs, one) {
        let u = mul_int_exec(secs, 1000);
        let n = round_int_exec(u, 1);
        push_dec(&mut out, n);
        out.push('m');
        out.push('s');
    } else if lt_exec(secs, minute) {
        let t = round_int_exec(secs, 10);
        push_fixed1(&mut out, t);
        out.push('s');
    } else {
        let q = div_int_exec(secs, 60);
        let n = round_int_exec(q, 1);
        push_dec(&mut out, n);
        out.push('m');
    }
    assert(out@ =~= time_short_text(gs));
    string_from_chars(&out)
}

/// `d * (i as f64 / 4.0)`: the factor `i / 4` is exact, so the product
/// rounds as `d * i` does, shifted by the exact division by 4.
pub open spec fn quarter_of(d: (nat, int), i: nat) -> (nat, int) {
    rnd_scaled(d.0 * i, 1, d.1 - 2)
}

/// The five time-axis labels of a run of `secs` seconds and `nanos`
/// nanoseconds: at 0, 1/4, 1/2, 3/4 and all of its length.
pub open spec fn axis_labels_text(secs: nat, nanos: nat) -> Seq<Seq<char>> {
    Seq::new(5, |i: int| time_short_text(quarter_of(secs_f64(secs, nanos), i as nat)))
}

/// The five labels of `axis_labels_text`.
#[verifier::spinoff_prover]
pub fn axis_labels(secs: u64, nanos: u32) -> (r: Vec<String>)
    requires
        nanos < 1_000_000_000,
    ensures
        r@.map_values(|l: String| l@) == axis_labels_text(secs as nat, nanos as nat),
{
    let d = secs_f64_exec(secs, nanos);
    let ghost gd = (d.0 as nat, d.1 as int);
    let mut r: Vec<String> = Vec::new();
    let mut i: u128 = 0;
    while i < 5
        invariant
            i <= 5,
            gd == (d.0 as nat, d.1 as int),
            gd == secs_f64(secs as nat, nanos as nat),
            is_norm(gd),
            -119 <= d.1 <= 14,
            r@.len() == i,
            forall|k: int| 0 <= k < i ==> #[trigger] r@[k]@ == time_short_text(quarter_of(gd, k as nat)),
        decreases 5 - i,
    {
        let q = if i == 0 || d.0 == 0 {
            (0u128, 0i32)
        } else {
            let p = mul_int_exec(d, i);
            if p.0 == 0 {
                (0u128, 0i32)
            } else {
                (p.0, p.1 - 2)
            }
        };
        proof {
            if i == 0 || d.0 == 0 {
                assert(d.0 * i == 0) by (nonlinear_arith)
                    requires
                        i == 0 || d.0 == 0,
                ;
                assert(rnd(0, 1) == (0nat, 0int));
            }
        }
        assert((q.0 as nat, q.1 as int) == quarter_of(gd, i as nat));
        r.push(format_time_short(q));
        i = i + 1;
    }
    assert(r@.map_values(|l: String| l@) =~= axis_labels_text(secs as nat, nanos as nat));
    r
}

/// A binary64 number `(m, x)` of value `m * 2^x`, as the model takes it.
pub open spec fn b64(v: (u128, i32)) -> (nat, int) {
    (v.0 as nat, v.1 as int)
}

/// A value a chart can show: a normalised binary64 number of moderate
/// exponent. Every series the report draws is a count or a rate of a
/// counter over time, never negative, and the rate functions of the report
/// ensure their results are such values; the exponent bounds keep the
/// integer arithmetic that scales the bars exact and within its machine
/// words.
pub open spec fn chart_value(v: (u128, i32)) -> bool {
    is_norm(b64(v)) && -800 <= v.1 <= 60
}

/// Every value of `s` is one a chart can show.
pub open spec fn chart_values(s: Seq<(u128, i32)>) -> bool {
    forall|k: int| 0 <= k < s.len() ==> chart_value(#[trigger] s[k])
}

/// Every value of `s` is a non-negative binary64 number (zero or with a
/// normalised mantissa), of any exponent.
pub open spec fn norm_values(s: Seq<(u128, i32)>) -> bool {
    forall|k: int| 0 <= k < s.len() ==> is_norm(b64(#[trigger] s[k]))
}

/// `f64::max` folded over the non-empty `s`.
pub open spec fn seq_max(s: Seq<(u128, i32)>) -> (u128, i32)
    decreases s.len(),
{
    if s.len() <= 1 {
        s[0]
    } else {
        let m = seq_max(s.drop_last());
        if lt(b64(m), b64(s.last())) {
            s.last()
        } else {
            m
        }
    }
}

/// `f64::min` folded over the non-empty `s`.
pub open spec fn seq_min(s: Seq<(u128, i32)>) -> (u128, i32)
    decreases s.len(),
{
    if s.len() <= 1 {
        s[0]
    } else {
        let m = seq_min(s.drop_last());
        if lt(b64(s.last()), b64(m)) {
            s.last()
        } else {
            m
        }
    }
}

/// `len as f64 / max_points as f64`: how many values a bucket spans.
pub open spec fn bucket_size(len: nat, mp: nat) -> (nat, int) {
    quot(from_int(len), from_int(mp))
}

/// `a as usize` for a non-negative `a`: its integer part, saturating.
pub open spec fn to_usize(a: (nat, int)) -> nat {
    if floor_of(a) > usize::MAX {
        usize::MAX as nat
    } else {
        floor_of(a)
    }
}

/// `(i as f64 * bucket_size) as usize`, where bucket `i` starts (the index
/// is exact as a binary64 number, so the product rounds as `mul_int`).
pub open spec fn bucket_edge(len: nat, mp: nat, i: nat) -> nat {
    to_usize(mul_int(bucket_size(len, mp), i))
}

/// The first `n` buckets of `downsampled`: bucket `i` spans the values from
/// its edge to the next (or the end), and gives their largest value for an
/// even `i`, their smallest for an odd one; an empty bucket gives nothing.
pub open spec fn buckets(values: Seq<(u128, i32)>, mp: nat, n: nat) -> Seq<(u128, i32)>
    decreases n,
{
    if n == 0 {
        Seq::empty()
    } else {
        let i = (n - 1) as nat;
        let len = values.len();
        let start = bucket_edge(len, mp, i);
        let next = bucket_edge(len, mp, i + 1);
        let end = if next < len {
            next
        } else {
            len
        };
        let prev = buckets(values, mp, i);
        if end <= start {
            prev
        } else {
            let b = values.subrange(start as int, end as int);
            prev.push(
                if i % 2 == 0 {
                    seq_max(b)
                } else {
                    seq_min(b)
                },
            )
        }
    }
}

/// Each bucket gives at most one value.
proof fn lemma_buckets_len(values: Seq<(u128, i32)>, mp: nat, n: nat)
    ensures
        buckets(values, mp, n).len() <= n,
    decreases n,
{
    if n > 0 {
        lemma_buckets_len(values, mp, (n - 1) as nat);
    }
}

/// A series cut down to at most `mp` values by min-max bucketing: the
/// series itself when it is short enough.
pub open spec fn downsampled(values: Seq<(u128, i32)>, mp: nat) -> Seq<(u128, i32)> {
    if values.len() <= mp {
        values
    } else {
        buckets(values, mp, mp)
    }
}

/// `min(to_usize(mul_int(bs, i)), len)` for the bucket size `bs`.
#[verifier::spinoff_prover]
fn edge_within(bs: (u128, i32), i: u128, len: usize) -> (r: usize)
    requires
        is_norm(b64(bs)),
        -120 <= bs.1 <= 1000,
        i <= 0xffff_ffff_ffff_ffff,
        len < two_pow(52),
    ensures
        r == if to_usize(mul_int(b64(bs), i as nat)) < len {
            to_usize(mul_int(b64(bs), i as nat))
        } else {
            len as nat
        },
{
    proof {
        lemma_two_pow_values();
    }
    if i == 0 || bs.0 == 0 {
        assert(bs.0 * i == 0) by (nonlinear_arith)
            requires
                i == 0 || bs.0 == 0,
        ;
        assert(rnd(0, 1) == (0nat, 0int));
        assert(floor_of((0nat, 0int)) == 0);
        return 0;
    }
    let p = mul_int_exec(bs, i);
    if p.1 > 0 {
        proof {
            crate::numfmt::lemma_two_pow_mono(1, p.1 as nat);
            assert(two_pow(1) == 2) by {
                reveal_with_fuel(two_pow, 2);
            }
            assert(p.0 * two_pow(p.1 as nat) >= two_pow(52) * 2) by (nonlinear_arith)
                requires
                    p.0 >= two_pow(52),
                    two_pow(p.1 as nat) >= 2,
            ;
            assert(two_pow(53) == two_pow(52) * 2) by {
                crate::numfmt::lemma_two_pow_add(52, 1);
            }
        }
        return len;
    }
    let n = to_u64_exec(p);
    proof {
        crate::numfmt::lemma_two_pow_pos((-p.1) as nat);
        assert((p.0 as nat) / two_pow((-p.1) as nat) <= p.0) by (nonlinear_arith)
            requires
                two_pow((-p.1) as nat) >= 1,
        ;
        if p.1 == 0 {
            assert(two_pow(0) == 1);
        }
    }
    if (n as u128) < (len as u128) {
        n as usize
    } else {
        len
    }
}

/// The extreme of the non-empty bucket `values[start..end]`: the largest
/// value when `want_max`, else the smallest.
#[verifier::spinoff_prover]
fn bucket_extreme(values: &Vec<(u128, i32)>, start: usize, end: usize, want_max: bool) -> (r: (u128, i32))
    requires
        start < end <= values@.len(),
        norm_values(values@),
    ensures
        r == if want_max {
            seq_max(values@.subrange(start as int, end as int))
        } else {
            seq_min(values@.subrange(start as int, end as int))
        },
        is_norm(b64(r)),
        chart_values(values@) ==> chart_value(r),
{
    let mut acc = values[start];
    let mut k = start + 1;
    assert(values@.subrange(start as int, k as int).len() == 1);
    assert(is_norm(b64(values@[start as int])));
    assert(chart_values(values@) ==> chart_value(values@[start as int]));
    while k < end
        invariant
            start < k <= end,
            end <= values@.len(),
            norm_values(values@),
            is_norm(b64(acc)),
            chart_values(values@) ==> chart_value(acc),
            acc == if want_max {
                seq_max(values@.subrange(start as int, k as int))
            } else {
                seq_min(values@.subrange(start as int, k as int))
            },
        decreases end - k,
    {
        let v = values[k];
        assert(is_norm(b64(values@[k as int])));
        assert(chart_values(values@) ==> chart_value(values@[k as int]));
        let ghost s = values@.subrange(start as int, k + 1);
        assert(s.drop_last() =~= values@.subrange(start as int, k as int));
        assert(s.last() == v);
        if want_max {
            if lt0_exec(acc, v) {
                acc = v;
            }
        } else {
            if lt0_exec(v, acc) {
                acc = v;
            }
        }
        k = k + 1;
    }
    acc
}

/// Downsample a series to at most `max_points` values by min-max bucketing
/// (see `downsampled`). The series holds fewer than `2^52` values, which no
/// memory can exceed.
#[verifier::spinoff_prover]
pub fn downsample(values: &Vec<(u128, i32)>, max_points: usize) -> (r: Vec<(u128, i32)>)
    requires
        norm_values(values@),
        values@.len() < two_pow(52),
    ensures
        r@ == downsampled(values@, max_points as nat),
        r@.len() <= max_points || r@ == values@,
        norm_values(r@),
        chart_values(values@) ==> chart_values(r@),
{
    proof {
        lemma_buckets_len(values@, max_points as nat, max_points as nat);
    }
    let len = values.len();
    if len <= max_points {
        let mut copy: Vec<(u128, i32)> = Vec::new();
        let mut k: usize = 0;
        while k < len
            invariant
                k <= len,
                len == values@.len(),
                copy@ == values@.subrange(0, k as int),
            decreases len - k,
        {
            copy.push(values[k]);
            k = k + 1;
            assert(copy@ =~= values@.subrange(0, k as int));
        }
        assert(copy@ =~= values@);
        return copy;
    }
    let mut out: Vec<(u128, i32)> = Vec::new();
    if max_points == 0 {
        return out;
    }
    proof {
        lemma_two_pow_values();
    }
    let a = from_int_exec(len as u64);
    let b = from_int_exec(max_points as u64);
    let bs = quot_exec(a, b);
    assert(b64(bs) == bucket_size(len as nat, max_points as nat));
    let mut i: usize = 0;
    while i < max_points
        invariant
            i <= max_points,
            max_points < len,
            len == values@.len(),
            len < two_pow(52),
            norm_values(values@),
            norm_values(out@),
            chart_values(values@) ==> chart_values(out@),
            b64(bs) == bucket_size(len as nat, max_points as nat),
            is_norm(b64(bs)),
            -120 <= bs.1 <= 1000,
            out@ == buckets(values@, max_points as nat, i as nat),
        decreases max_points - i,
    {
        proof {
            lemma_bucket_edges(len as nat, max_points as nat, i as nat);
        }
        let start = edge_within(bs, i as u128, len);
        let end = edge_within(bs, (i + 1) as u128, len);
        assert(start == bucket_edge(len as nat, max_points as nat, i as nat));
        if start < end {
            let v = bucket_extreme(values, start, end, i % 2 == 0);
            out.push(v);
        }
        i = i + 1;
    }
    out
}

/// Column of the `i`-th of the five time-axis marks (at 0, 1/4, 1/2, 3/4
/// and all of the duration) on an axis `width` columns wide: the nearest
/// column to `(width - 1) * i / 4`, halves rounded up.
pub open spec fn axis_pos(width: nat, i: nat) -> nat {
    let last = if width >= 1 {
        (width - 1) as nat
    } else {
        0
    };
    (last * i + 2) / 4
}

/// `line` with `lbl` written over it from column `start`, clipped at the end
/// of the line.
pub open spec fn overwrite(line: Seq<u8>, start: nat, lbl: Seq<u8>) -> Seq<u8> {
    Seq::new(
        line.len(),
        |k: int|
            if start <= k < start + lbl.len() {
                lbl[k - start]
            } else {
                line[k]
            },
    )
}

/// The axis line after writing the first `k` labels, each centered (by
/// bytes) on its mark.
pub open spec fn axis_bytes(width: nat, labels: Seq<Seq<u8>>, k: nat) -> Seq<u8>
    decreases k,
{
    if k == 0 {
        Seq::new(width, |_j: int| 32u8)
    } else {
        let lbl = labels[k - 1];
        let pos = axis_pos(width, (k - 1) as nat);
        let half = lbl.len() / 2;
        let start = if pos >= half {
            (pos - half) as nat
        } else {
            0
        };
        overwrite(axis_bytes(width, labels, (k - 1) as nat), start, lbl)
    }
}

/// The time axis under a chart: the five labels (for 0, 1/4, 1/2, 3/4 and
/// all of the run) placed over spaces, every byte shown as the character
/// with that code.
pub open spec fn axis_text(width: nat, labels: Seq<Seq<u8>>) -> Seq<char> {
    let b = axis_bytes(width, labels, 5);
    Seq::new(width, |j: int| b[j] as char)
}

/// The time-axis line `width` columns wide with the five labels given.
pub fn time_axis_line(width: usize, labels: &Vec<String>) -> (s: String)
    requires
        labels@.len() == 5,
    ensures
        s@ == axis_text(width as nat, labels@.map_values(|l: String| encode_utf8(l@))),
{
    let ghost lb = labels@.map_values(|l: String| encode_utf8(l@));
    let mut line: Vec<u8> = Vec::new();
    let mut j: usize = 0;
    while j < width
        invariant
            j <= width,
            line@ == Seq::new(j as nat, |_j: int| 32u8),
        decreases width - j,
    {
        line.push(32u8);
        j = j + 1;
        assert(line@ =~= Seq::new(j as nat, |_j: int| 32u8));
    }
    assert(line@ =~= axis_bytes(width as nat, lb, 0));
    let mut i: usize = 0;
    while i < 5
        invariant
            i <= 5,
            labels@.len() == 5,
            lb == labels@.map_values(|l: String| encode_utf8(l@)),
            line@ == axis_bytes(width as nat, lb, i as nat),
            line@.len() == width,
        decreases 5 - i,
    {
        let last: u128 = if width >= 1 {
            (width - 1) as u128
        } else {
            0
        };
        assert(last * (i as u128) <= 4 * 0xffff_ffff_ffff_ffff) by (nonlinear_arith)
            requires
                last <= 0xffff_ffff_ffff_ffff,
                i <= 4,
        ;
        let pos128 = (last * (i as u128) + 2) / 4;
        assert(pos128 <= width) by (nonlinear_arith)
            requires
                pos128 == (last * i + 2) / 4,
                i <= 4,
                width >= 1 ==> last == width - 1,
                width == 0 ==> last == 0,
        ;
        let pos = pos128 as usize;
        let lbl = labels[i].as_str().as_bytes();
        let half = lbl.len() / 2;
        let start = if pos >= half {
            pos - half
        } else {
            0
        };
        let ghost before = line@;
        let mut k: usize = 0;
        while k < lbl.len()
            invariant
                k <= lbl@.len(),
                start <= width,
                line@.len() == before.len(),
                before.len() == width,
                forall|q: int|
                    0 <= q < before.len() ==> #[trigger] line@[q] == if start <= q < start + k {
                        lbl@[q - start]
                    } else {
                        before[q]
                    },
            decreases lbl@.len() - k,
        {
            if k < width - start {
                line.set(start + k, lbl[k]);
            }
            k = k + 1;
        }
        assert(lb[i as int] == lbl@);
        assert(line@ =~= overwrite(before, start as nat, lbl@));
        i = i + 1;
    }
    let mut out: Vec<char> = Vec::new();
    let mut q: usize = 0;
    while q < width
        invariant
            q <= width,
            line@.len() == width,
            out@ == Seq::new(q as nat, |x: int| line@[x] as char),
        decreases width - q,
    {
        out.push(line[q] as char);
        q = q + 1;
        assert(out@ =~= Seq::new(q as nat, |x: int| line@[x] as char));
    }
    assert(out@ =~= axis_text(width as nat, lb));
    string_from_chars(&out)
}

/// The time axis under a chart `width` columns wide, for a run of `secs`
/// seconds and `nanos` nanoseconds (labels of `axis_labels_text`).
#[verifier::spinoff_prover]
pub fn time_axis(width: usize, secs: u64, nanos: u32) -> (s: String)
    requires
        nanos < 1_000_000_000,
    ensures
        s@ == axis_text(
            width as nat,
            axis_labels_text(secs as nat, nanos as nat).map_values(|t: Seq<char>| encode_utf8(t)),
        ),
{
    let labels = axis_labels(secs, nanos);
    let ghost t = axis_labels_text(secs as nat, nanos as nat);
    assert(labels@.len() == 5) by {
        assert(labels@.map_values(|l: String| l@).len() == 5);
    }
    assert(labels@.map_values(|l: String| encode_utf8(l@)) =~= t.map_values(|x: Seq<char>| encode_utf8(x))) by {
        assert forall|k: int| 0 <= k < 5 implies labels@[k]@ == t[k] by {
            assert(labels@.map_values(|l: String| l@)[k] == labels@[k]@);
        }
    }
    time_axis_line(width, &labels)
}

/// How a chart writes a value of its scale.
#[derive(Clone, Copy, PartialEq, Eq, Structural)]
pub enum ChartUnit {
    /// Whole percent: `{:.0}%`.
    Percent,
    /// A byte count: `format_bytes(v as u64)`.
    Bytes,
    /// A byte rate: `format_bytes(v as u64)` per second.
    BytesPerSec,
    /// A whole count: `{:.0}`.
    Count,
}

/// A value of a chart's scale as its unit writes it.
pub open spec fn unit_text(unit: ChartUnit, v: (nat, int)) -> Seq<char> {
    match unit {
        ChartUnit::Percent => dec_digits(round_scaled(v, 1)) + seq!['%'],
        ChartUnit::Bytes => bytes_text(to_u64(v)),
        ChartUnit::BytesPerSec => bytes_text(to_u64(v)) + seq!['/', 's'],
        ChartUnit::Count => dec_digits(round_scaled(v, 1)),
    }
}

/// A chart: title and subtitle, the series (binary64 numbers, see
/// `chart_value`), its color, the unit of its scale, and the length of the
/// run it covers, in seconds and nanoseconds.
pub struct Chart<'a> {
    pub title: &'a str,
    pub subtitle: &'a str,
    pub values: Vec<(u128, i32)>,
    pub color: ChartColor,
    pub unit: ChartUnit,
    pub duration_secs: u64,
    pub duration_nanos: u32,
}

/// The width of the bars of a chart `width` columns wide: what the frame
/// and the 10-column scale leave, but at least 10.
pub open spec fn bar_width(width: nat) -> nat {
    let b = sat_sub(sat_sub(width, 2), 12);
    if b < 10 {
        10
    } else {
        b
    }
}

/// The bottom of the scale: the smallest value, or zero when none is
/// below it (`.min(0.0)`).
pub open spec fn scale_min(vals: Seq<(u128, i32)>) -> (nat, int) {
    let lo = b64(seq_min(vals));
    if lt(lo, (0, 0)) {
        lo
    } else {
        (0, 0)
    }
}

/// `f64::EPSILON`, `2^-52`.
pub open spec fn epsilon() -> (nat, int) {
    (two_pow(52), -104)
}

/// The span of the scale: the largest value less the bottom (never below
/// it), or, when that is under `f64::EPSILON`, the largest value but at
/// least 1.
pub open spec fn scale_range(hi: (nat, int), lo: (nat, int)) -> (nat, int) {
    let d = minus(hi, lo).1;
    if lt(d, epsilon()) {
        if lt(hi, rnd(1, 1)) {
            rnd(1, 1)
        } else {
            hi
        }
    } else {
        d
    }
}

/// `x.round()` for a non-negative `x`: halves away from zero.
pub open spec fn round_away(a: (nat, int)) -> nat {
    (2 * num_of(a) + den_of(a)) / (2 * den_of(a))
}

/// The eighths of the chart's five rows that `v` fills:
/// `((v - lo) / range * 5.0 * 8.0).round() as usize`.
pub open spec fn bar_units(v: (nat, int), lo: (nat, int), range: (nat, int)) -> nat {
    let u = round_away(mul_int(mul_int(quot(minus(v, lo).1, range), 5), 8));
    if u > usize::MAX {
        usize::MAX as nat
    } else {
        u
    }
}

/// The block glyph `k` eighths high (`k` from 1 to 8).
pub open spec fn block_glyph(k: nat) -> char {
    if k <= 1 {
        '\u{2581}'
    } else if k == 2 {
        '\u{2582}'
    } else if k == 3 {
        '\u{2583}'
    } else if k == 4 {
        '\u{2584}'
    } else if k == 5 {
        '\u{2585}'
    } else if k == 6 {
        '\u{2586}'
    } else if k == 7 {
        '\u{2587}'
    } else {
        '\u{2588}'
    }
}

/// The cell of a bar in row `row` (0 at the bottom) for a value filling
/// `units` eighths: blank below the value's top, else the part of the row
/// it fills.
pub open spec fn block_cell(units: nat, row: nat) -> char {
    if units <= row * 8 {
        ' '
    } else {
        let k = (units - row * 8) as nat;
        block_glyph(
            if k < 8 {
                k
            } else {
                8
            },
        )
    }
}

/// The bar cells of one row, each in the series color.
pub open spec fn row_cells(
    vals: Seq<(u128, i32)>,
    row: nat,
    lo: (nat, int),
    range: (nat, int),
    color: ChartColor,
    uc: bool,
) -> Seq<char>
    decreases vals.len(),
{
    if vals.len() == 0 {
        Seq::empty()
    } else {
        row_cells(vals.drop_last(), row, lo, range, color, uc) + colored_piece(
            seq![block_cell(bar_units(b64(vals.last()), lo, range), row)],
            color,
            uc,
        )
    }
}

/// `s` right-aligned in `w` columns (`{:>w}`).
pub open spec fn pad_left(s: Seq<char>, w: nat) -> Seq<char> {
    if s.len() < w {
        repeat_char(' ', (w - s.len()) as nat) + s
    } else {
        s
    }
}

/// The scale label of row `row`: the largest value at the top, the middle
/// of the scale in the middle, its bottom at the bottom.
pub open spec fn scale_label(row: nat, unit: ChartUnit, hi: (nat, int), lo: (nat, int), range: (nat, int)) -> Seq<
    char,
> {
    if row == 4 {
        unit_text(unit, hi)
    } else if row == 2 {
        unit_text(unit, plus(lo, div_int(range, 2)))
    } else if row == 0 {
        unit_text(unit, lo)
    } else {
        Seq::empty()
    }
}

/// A row of the chart: the frame, the scale label, the bar cells and the
/// padding to the frame.
#[verifier::opaque]
pub open spec fn chart_row(
    vals: Seq<(u128, i32)>,
    row: nat,
    unit: ChartUnit,
    hi: (nat, int),
    lo: (nat, int),
    range: (nat, int),
    color: ChartColor,
    width: nat,
    uc: bool,
) -> Seq<char> {
    dimmed_piece(seq!['\u{2502}'], uc) + pad_left(scale_label(row, unit, hi, lo, range), 10) + seq![' ']
        + row_cells(vals, row, lo, range, color, uc) + repeat_char(
        ' ',
        sat_sub(sat_sub(width, 2), 11 + vals.len()),
    ) + dimmed_piece(seq!['\u{2502}', '\n'], uc)
}

/// The first `k` rows of the chart, from the top (row 4) down.
pub open spec fn chart_rows(
    vals: Seq<(u128, i32)>,
    k: nat,
    unit: ChartUnit,
    hi: (nat, int),
    lo: (nat, int),
    range: (nat, int),
    color: ChartColor,
    width: nat,
    uc: bool,
) -> Seq<char>
    decreases k,
{
    if k == 0 {
        Seq::empty()
    } else {
        chart_rows(vals, (k - 1) as nat, unit, hi, lo, range, color, width, uc) + chart_row(
            vals,
            (5 - k) as nat,
            unit,
            hi,
            lo,
            range,
            color,
            width,
            uc,
        )
    }
}

/// The top line of a chart: the title (bold with colors), the subtitle
/// (dim), and a rule that fills the width, counted in bytes.
pub open spec fn chart_head(title: Seq<char>, subtitle: Seq<char>, width: nat, uc: bool) -> Seq<char> {
    let tp = seq![' '] + title + seq![' '];
    let sp = if subtitle.len() == 0 {
        Seq::<char>::empty()
    } else {
        seq![' '] + subtitle + seq![' ']
    };
    let sub_bytes: nat = if subtitle.len() == 0 {
        0
    } else {
        utf8_len(subtitle) + 2
    };
    let rule = repeat_char('\u{2500}', sat_sub(width, 2 + (utf8_len(title) + 2) + sub_bytes + 1));
    if uc {
        dim_text(seq!['\u{256d}', '\u{2500}']) + bold_text(tp) + (if sp.len() == 0 {
            Seq::empty()
        } else {
            dim_text(sp)
        }) + dim_text(rule) + dim_text(seq!['\u{256e}']) + seq!['\n']
    } else {
        seq!['\u{256d}', '\u{2500}'] + tp + sp + rule + seq!['\u{256e}', '\n']
    }
}

/// The line under the bars: the time axis of the run, padded to the frame.
pub open spec fn chart_axis_row(width: nat, secs: nat, nanos: nat, uc: bool) -> Seq<char> {
    let bw = bar_width(width);
    dimmed_piece(seq!['\u{2502}'], uc) + repeat_char(' ', 11) + dimmed_piece(
        axis_text(bw, axis_labels_text(secs, nanos).map_values(|t: Seq<char>| encode_utf8(t))),
        uc,
    ) + repeat_char(' ', sat_sub(sat_sub(width, 2), 11 + bw)) + dimmed_piece(seq!['\u{2502}', '\n'], uc)
}

/// A whole chart `width` columns wide: nothing for an empty series; else
/// the head, five rows of bars over the series cut down to the bar width,
/// the time axis and the bottom of the frame.
pub open spec fn chart_text(
    title: Seq<char>,
    subtitle: Seq<char>,
    values: Seq<(u128, i32)>,
    color: ChartColor,
    unit: ChartUnit,
    secs: nat,
    nanos: nat,
    width: nat,
    uc: bool,
) -> Seq<char> {
    let vals = downsampled(values, bar_width(width));
    if values.len() == 0 || vals.len() == 0 {
        Seq::empty()
    } else {
        let hi = b64(seq_max(vals));
        let lo = scale_min(vals);
        let range = scale_range(hi, lo);
        chart_head(title, subtitle, width, uc) + chart_rows(vals, 5, unit, hi, lo, range, color, width, uc)
            + chart_axis_row(width, secs, nanos, uc) + box_bottom_text(width, uc)
    }
}

/// `to_u64(v)` for a chart value.
fn to_u64_value(v: (u128, i32)) -> (r: u64)
    requires
        chart_value(v),
    ensures
        r == to_u64(b64(v)),
{
    if v.1 < -120 {
        proof {
            lemma_two_pow_values();
            crate::numfmt::lemma_two_pow_mono(53, (-v.1) as nat);
            assert(floor_of(b64(v)) == (v.0 as nat) / two_pow((-v.1) as nat));
            assert((v.0 as nat) / two_pow((-v.1) as nat) == 0) by (nonlinear_arith)
                requires
                    (v.0 as nat) < two_pow(53),
                    two_pow(53) <= two_pow((-v.1) as nat),
            ;
        }
        return 0;
    }
    to_u64_exec(v)
}

/// Appends `unit_text(unit, v)`.
fn push_unit(out: &mut Vec<char>, unit: ChartUnit, v: (u128, i32))
    requires
        chart_value(v),
    ensures
        final(out)@ == old(out)@ + unit_text(unit, b64(v)),
{
    match unit {
        ChartUnit::Percent => {
            let n = round_int_exec(v, 1);
            push_dec(out, n);
            out.push('%');
        },
        ChartUnit::Bytes => {
            push_bytes(out, to_u64_value(v));
        },
        ChartUnit::BytesPerSec => {
            push_bytes(out, to_u64_value(v));
            out.push('/');
            out.push('s');
        },
        ChartUnit::Count => {
            let n = round_int_exec(v, 1);
            push_dec(out, n);
        },
    }
}

/// `round_away(a)` as a `usize`, saturating.
#[verifier::spinoff_prover]
fn round_away_usize(a: (u128, i32)) -> (r: usize)
    requires
        is_norm(b64(a)),
        -1000 <= a.1 <= 1000,
    ensures
        r == if round_away(b64(a)) > usize::MAX {
            usize::MAX as nat
        } else {
            round_away(b64(a))
        },
{
    proof {
        lemma_two_pow_values();
    }
    if a.0 == 0 {
        assert(two_pow(0) == 1);
        assert(num_of(b64(a)) == 0);
        assert(den_of(b64(a)) == 1);
        assert(((2 * 0 + 1) as nat) / ((2 * 1) as nat) == 0nat) by (nonlinear_arith);
        return 0;
    }
    if a.1 > 60 {
        proof {
            let n = num_of(b64(a));
            crate::numfmt::lemma_two_pow_mono(61, a.1 as nat);
            crate::numfmt::lemma_two_pow_add(52, 61);
            crate::numfmt::lemma_two_pow_mono(64, 113);
            assert(n >= two_pow(52) * two_pow(61)) by (nonlinear_arith)
                requires
                    n == a.0 * two_pow(a.1 as nat),
                    a.0 >= two_pow(52),
                    two_pow(a.1 as nat) >= two_pow(61),
            ;
            assert(den_of(b64(a)) == 1);
            assert((2 * n + 1) / 2 == n) by (nonlinear_arith);
        }
        return usize::MAX;
    }
    if a.1 < -120 {
        proof {
            let d = den_of(b64(a));
            crate::numfmt::lemma_two_pow_mono(121, (-a.1) as nat);
            crate::numfmt::lemma_two_pow_add(53, 68);
            crate::numfmt::lemma_two_pow_pos(68);
            assert(2 * a.0 + d < 2 * d) by (nonlinear_arith)
                requires
                    a.0 < two_pow(53),
                    d >= two_pow(121),
                    two_pow(121) == two_pow(53) * two_pow(68),
                    two_pow(68) >= 2,
            ;
            let an = a.0 as nat;
            assert(((2 * an + d) as nat) / ((2 * d) as nat) == 0) by (nonlinear_arith)
                requires
                    2 * an + d < 2 * d,
            ;
        }
        return 0;
    }
    let (n, d) = fraction_exec(a);
    proof {
        crate::numfmt::lemma_two_pow_mono(113, 126);
        crate::numfmt::lemma_two_pow_mono(120, 126);
    }
    let r = (2 * n + d) / (2 * d);
    if r > usize::MAX as u128 {
        usize::MAX
    } else {
        r as usize
    }
}

/// `block_cell(units, row)`.
fn block_cell_exec(units: usize, row: usize) -> (c: char)
    requires
        row <= 4,
    ensures
        c == block_cell(units as nat, row as nat),
{
    if units <= row * 8 {
        ' '
    } else {
        let k = units - row * 8;
        let k8 = if k < 8 {
            k
        } else {
            8
        };
        if k8 <= 1 {
            '\u{2581}'
        } else if k8 == 2 {
            '\u{2582}'
        } else if k8 == 3 {
            '\u{2583}'
        } else if k8 == 4 {
            '\u{2584}'
        } else if k8 == 5 {
            '\u{2585}'
        } else if k8 == 6 {
            '\u{2586}'
        } else if k8 == 7 {
            '\u{2587}'
        } else {
            '\u{2588}'
        }
    }
}

/// A scale whose span `range` is a positive number of moderate exponent.
pub open spec fn scale_ok(range: (u128, i32)) -> bool {
    two_pow(52) <= range.0 < two_pow(53) && -104 <= range.1 <= 60
}

/// Appends the bar cells of one row (the scale's bottom being zero).
fn push_row_cells(
    out: &mut Vec<char>,
    vals: &Vec<(u128, i32)>,
    row: usize,
    range: (u128, i32),
    color: ChartColor,
    uc: bool,
)
    requires
        chart_values(vals@),
        row <= 4,
        scale_ok(range),
    ensures
        final(out)@ == old(out)@ + row_cells(vals@, row as nat, (0, 0), b64(range), color, uc),
{
    let ghost start = out@;
    let n = vals.len();
    let mut k: usize = 0;
    while k < n
        invariant
            k <= n,
            n == vals@.len(),
            chart_values(vals@),
            row <= 4,
            scale_ok(range),
            out@ == start + row_cells(vals@.take(k as int), row as nat, (0, 0), b64(range), color, uc),
        decreases n - k,
    {
        let v = vals[k];
        assert(chart_value(vals@[k as int]));
        proof {
            lemma_sub_zero(b64(v));
        }
        let q = quot_exec(v, range);
        let q5 = mul_int_exec(q, 5);
        let q40 = mul_int_exec(q5, 8);
        let units = round_away_usize(q40);
        let c = block_cell_exec(units, row);
        let mut cell: Vec<char> = Vec::new();
        cell.push(c);
        let piece = color_str(&string_from_chars(&cell), &color, uc);
        push_str(out, &piece);
        let ghost t = vals@.take(k + 1);
        assert(t.drop_last() =~= vals@.take(k as int));
        assert(t.last() == v);
        assert(cell@ =~= seq![c]);
        k = k + 1;
    }
    assert(vals@.take(n as int) =~= vals@);
}

/// The scale label of row `row` (the scale's bottom being zero).
fn scale_label_chars(row: usize, unit: ChartUnit, hi: (u128, i32), range: (u128, i32)) -> (label: Vec<char>)
    requires
        chart_value(hi),
        scale_ok(range),
    ensures
        label@ == scale_label(row as nat, unit, b64(hi), (0, 0), b64(range)),
{
    proof {
        lemma_two_pow_values();
    }
    let mut label: Vec<char> = Vec::new();
    if row == 4 {
        push_unit(&mut label, unit, hi);
    } else if row == 2 {
        let half = div_int_exec(range, 2);
        proof {
            lemma_half(b64(range));
            lemma_add_zero(b64(half));
        }
        push_unit(&mut label, unit, half);
    } else if row == 0 {
        proof {
            assert(two_pow(0) == 1);
        }
        push_unit(&mut label, unit, (0, 0));
    }
    label
}

/// Appends `pad_left(label, 10)`.
fn push_padded_label(out: &mut Vec<char>, label: &Vec<char>)
    ensures
        final(out)@ == old(out)@ + pad_left(label@, 10),
{
    let ghost start = out@;
    if label.len() < 10 {
        push_repeat(out, ' ', 10 - label.len());
    }
    push_chars(out, label);
    assert(out@ =~= start + pad_left(label@, 10));
}

/// Appends row `row` of the chart (see `chart_row`, with the scale's
/// bottom at zero).
#[verifier::spinoff_prover]
fn push_chart_row(
    out: &mut Vec<char>,
    vals: &Vec<(u128, i32)>,
    row: usize,
    unit: ChartUnit,
    hi: (u128, i32),
    range: (u128, i32),
    color: ChartColor,
    width: usize,
    uc: bool,
)
    requires
        chart_values(vals@),
        chart_value(hi),
        row <= 4,
        scale_ok(range),
    ensures
        final(out)@ == old(out)@ + chart_row(vals@, row as nat, unit, b64(hi), (0, 0), b64(range), color, width as nat, uc),
{
    proof {
        reveal_strlit("\u{2502}");
        reveal_strlit("\u{2502}\n");
    }
    assert("\u{2502}"@ =~= seq!['\u{2502}']);
    assert("\u{2502}\n"@ =~= seq!['\u{2502}', '\n']);
    let mut line: Vec<char> = Vec::new();
    push_str(&mut line, &dim_char("\u{2502}", uc));
    assert(line@ =~= dimmed_piece(seq!['\u{2502}'], uc));
    let label = scale_label_chars(row, unit, hi, range);
    push_padded_label(&mut line, &label);
    line.push(' ');
    push_row_cells(&mut line, vals, row, range, color, uc);
    let inner = width.saturating_sub(2);
    let pad = if (vals.len() as u128) + 11 >= inner as u128 {
        0
    } else {
        inner - 11 - vals.len()
    };
    push_repeat(&mut line, ' ', pad);
    push_str(&mut line, &dim_char("\u{2502}\n", uc));
    assert(line@ == chart_row(vals@, row as nat, unit, b64(hi), (0, 0), b64(range), color, width as nat, uc)) by {
        reveal(chart_row);
    }
    push_chars(out, &line);
}

/// Appends the top line of a chart (see `chart_head`).
#[verifier::spinoff_prover]
fn push_chart_head(out: &mut Vec<char>, title: &str, subtitle: &str, width: usize, uc: bool)
    ensures
        final(out)@ == old(out)@ + chart_head(title@, subtitle@, width as nat, uc),
{
    let mut tp: Vec<char> = Vec::new();
    tp.push(' ');
    push_str(&mut tp, title);
    tp.push(' ');
    let sub_empty = subtitle.is_empty();
    let mut sp: Vec<char> = Vec::new();
    if !sub_empty {
        sp.push(' ');
        push_str(&mut sp, subtitle);
        sp.push(' ');
    }
    let tv = chars_of(title);
    let sv = chars_of(subtitle);
    // Four bytes at most per character, of at most `usize::MAX` characters.
    let title_chars = tv.len();
    let sub_chars = sv.len();
    proof {
        crate::text::lemma_utf8_len_bound(title@);
        crate::text::lemma_utf8_len_bound(subtitle@);
        assert(utf8_len(title@) <= 4 * title_chars);
        assert(utf8_len(subtitle@) <= 4 * sub_chars);
    }
    let title_bytes = utf8_len_wide(&tv);
    let sub_bytes: u128 = if sub_empty {
        0
    } else {
        utf8_len_wide(&sv) + 2
    };
    let used: u128 = 2 + (title_bytes + 2) + sub_bytes + 1;
    let fill: usize = if (width as u128) > used {
        (width as u128 - used) as usize
    } else {
        0
    };
    let mut rule: Vec<char> = Vec::new();
    push_repeat(&mut rule, '\u{2500}', fill);
    proof {
        reveal_strlit("\u{256d}\u{2500}");
        reveal_strlit("\u{256e}");
    }
    assert("\u{256d}\u{2500}"@ =~= seq!['\u{256d}', '\u{2500}']);
    assert("\u{256e}"@ =~= seq!['\u{256e}']);
    let ghost tps = seq![' '] + title@ + seq![' '];
    let ghost sps = if subtitle@.len() == 0 {
        Seq::<char>::empty()
    } else {
        seq![' '] + subtitle@ + seq![' ']
    };
    assert(tp@ =~= tps);
    assert(sp@ =~= sps);
    let ghost rules = repeat_char(
        '\u{2500}',
        sat_sub(
            width as nat,
            2 + (utf8_len(title@) + 2) + (if subtitle@.len() == 0 {
                0
            } else {
                utf8_len(subtitle@) + 2
            }) + 1,
        ),
    );
    assert(rule@ == rules);
    let mut line: Vec<char> = Vec::new();
    if uc {
        push_str(&mut line, &dimmed("\u{256d}\u{2500}"));
        assert(line@ =~= dim_text(seq!['\u{256d}', '\u{2500}']));
        push_str(&mut line, &bold(&string_from_chars(&tp)));
        let ghost m = line@;
        if !sub_empty {
            push_str(&mut line, &dimmed(&string_from_chars(&sp)));
        }
        assert(line@ =~= m + (if sps.len() == 0 {
            Seq::empty()
        } else {
            dim_text(sps)
        }));
        push_str(&mut line, &dimmed(&string_from_chars(&rule)));
        push_str(&mut line, &dimmed("\u{256e}"));
        line.push('\n');
    } else {
        line.push('\u{256d}');
        line.push('\u{2500}');
        assert(line@ =~= seq!['\u{256d}', '\u{2500}']);
        push_chars(&mut line, &tp);
        push_chars(&mut line, &sp);
        push_chars(&mut line, &rule);
        let ghost m = line@;
        line.push('\u{256e}');
        line.push('\n');
        assert(line@ =~= m + seq!['\u{256e}', '\n']);
    }
    assert(line@ == chart_head(title@, subtitle@, width as nat, uc));
    push_chars(out, &line);
}

/// Appends the time-axis line of a chart (see `chart_axis_row`).
#[verifier::spinoff_prover]
fn push_chart_axis_row(out: &mut Vec<char>, width: usize, secs: u64, nanos: u32, uc: bool)
    requires
        nanos < 1_000_000_000,
    ensures
        final(out)@ == old(out)@ + chart_axis_row(width as nat, secs as nat, nanos as nat, uc),
{
    let ghost start = out@;
    proof {
        reveal_strlit("\u{2502}");
        reveal_strlit("\u{2502}\n");
    }
    assert("\u{2502}"@ =~= seq!['\u{2502}']);
    assert("\u{2502}\n"@ =~= seq!['\u{2502}', '\n']);
    let inner = width.saturating_sub(2);
    let b = inner.saturating_sub(12);
    let bar_w = if b < 10 {
        10
    } else {
        b
    };
    push_str(out, &dim_char("\u{2502}", uc));
    push_repeat(out, ' ', 11);
    let axis = time_axis(bar_w, secs, nanos);
    push_str(out, &dim_char(&axis, uc));
    let pad = if (bar_w as u128) + 11 >= inner as u128 {
        0
    } else {
        inner - 11 - bar_w
    };
    push_repeat(out, ' ', pad);
    push_str(out, &dim_char("\u{2502}\n", uc));
    assert(out@ =~= start + chart_axis_row(width as nat, secs as nat, nanos as nat, uc));
}

/// The span of a scale from zero to `hi` (see `scale_range`).
#[verifier::spinoff_prover]
fn scale_span(hi: (u128, i32)) -> (range: (u128, i32))
    requires
        chart_value(hi),
    ensures
        b64(range) == scale_range(b64(hi), (0, 0)),
        scale_ok(range),
{
    proof {
        lemma_two_pow_values();
        crate::numfmt::lemma_two_pow_mono(64, 120);
        crate::numfmt::lemma_two_pow_mono(64, 66);
        lemma_sub_zero(b64(hi));
        lemma_threshold_exponents();
    }
    let eps: (u128, i32) = (0x10_0000_0000_0000, -104);
    let one = round_ratio(1, 1);
    assert(b64(eps) == epsilon());
    if hi.0 == 0 {
        proof {
            assert(b64(hi) == (0nat, 0int));
            lemma_sub_zero((0nat, 0int));
            let y = crate::binary64::min_exp((0nat, 0int), epsilon());
            crate::numfmt::lemma_two_pow_pos((-104 - y) as nat);
            assert(crate::binary64::aligned((0nat, 0int), y) == 0 * two_pow((0 - y) as nat));
            assert(crate::binary64::aligned(epsilon(), y) == two_pow(52) * two_pow((-104 - y) as nat));
            assert(two_pow(52) * two_pow((-104 - y) as nat) >= 1) by (nonlinear_arith)
                requires
                    two_pow((-104 - y) as nat) >= 1,
                    two_pow(52) >= 1,
            ;
            assert(lt((0nat, 0int), epsilon()));
            let y1 = crate::binary64::min_exp((0nat, 0int), b64(one));
            crate::numfmt::lemma_two_pow_pos((one.1 - y1) as nat);
            assert(crate::binary64::aligned((0nat, 0int), y1) == 0 * two_pow((0 - y1) as nat));
            assert(one.0 * two_pow((one.1 - y1) as nat) >= 1) by (nonlinear_arith)
                requires
                    two_pow((one.1 - y1) as nat) >= 1,
                    one.0 >= 1,
            ;
            assert(lt((0nat, 0int), rnd(1, 1)));
        }
        return one;
    }
    proof {
        lemma_lt_norm(b64(hi), epsilon());
        lemma_lt_norm(b64(hi), b64(one));
    }
    if lt_exec(hi, eps) {
        if lt_exec(hi, one) {
            one
        } else {
            hi
        }
    } else {
        hi
    }
}

/// Appends the five rows of bars (see `chart_rows`, with the scale's
/// bottom at zero).
fn push_chart_rows(
    out: &mut Vec<char>,
    vals: &Vec<(u128, i32)>,
    unit: ChartUnit,
    hi: (u128, i32),
    range: (u128, i32),
    color: ChartColor,
    width: usize,
    uc: bool,
)
    requires
        chart_values(vals@),
        chart_value(hi),
        scale_ok(range),
    ensures
        final(out)@ == old(out)@ + chart_rows(vals@, 5, unit, b64(hi), (0, 0), b64(range), color, width as nat, uc),
{
    let ghost start = out@;
    let mut k: usize = 0;
    while k < 5
        invariant
            k <= 5,
            chart_values(vals@),
            chart_value(hi),
            scale_ok(range),
            out@ == start + chart_rows(vals@, k as nat, unit, b64(hi), (0, 0), b64(range), color, width as nat, uc),
        decreases 5 - k,
    {
        push_chart_row(out, vals, 4 - k, unit, hi, range, color, width, uc);
        k = k + 1;
    }
}

/// A chart `width` columns wide (see `chart_text`). The series holds
/// fewer than `2^52` values, which no memory can exceed.
#[verifier::spinoff_prover]
pub fn render_chart(chart: &Chart, width: usize, use_color: bool) -> (s: String)
    requires
        chart_values(chart.values@),
        chart.values@.len() < two_pow(52),
        chart.duration_nanos < 1_000_000_000,
    ensures
        s@ == chart_text(
            chart.title@,
            chart.subtitle@,
            chart.values@,
            chart.color,
            chart.unit,
            chart.duration_secs as nat,
            chart.duration_nanos as nat,
            width as nat,
            use_color,
        ),
{
    let mut out: Vec<char> = Vec::new();
    if chart.values.len() == 0 {
        return string_from_chars(&out);
    }
    let inner = width.saturating_sub(2);
    let b = inner.saturating_sub(12);
    let bar_w = if b < 10 {
        10
    } else {
        b
    };
    let vals = downsample(&chart.values, bar_w);
    if vals.len() == 0 {
        return string_from_chars(&out);
    }
    let hi = bucket_extreme(&vals, 0, vals.len(), true);
    assert(vals@.subrange(0, vals@.len() as int) =~= vals@);
    proof {
        lemma_none_below_zero(b64(seq_min(vals@)));
    }
    assert(scale_min(vals@) == (0nat, 0int));
    let range = scale_span(hi);
    push_chart_head(&mut out, chart.title, chart.subtitle, width, use_color);
    push_chart_rows(&mut out, &vals, chart.unit, hi, range, chart.color, width, use_color);
    push_chart_axis_row(&mut out, width, chart.duration_secs, chart.duration_nanos, use_color);
    let bottom = box_bottom(width, use_color);
    push_str(&mut out, &bottom);
    string_from_chars(&out)
}

/// Without colors, each bar cell is one character.
proof fn lemma_row_cells_len(
    vals: Seq<(u128, i32)>,
    row: nat,
    lo: (nat, int),
    range: (nat, int),
    color: ChartColor,
)
    ensures
        row_cells(vals, row, lo, range, color, false).len() == vals.len(),
    decreases vals.len(),
{
    if vals.len() > 0 {
        lemma_row_cells_len(vals.drop_last(), row, lo, range, color);
    }
}

/// Drawn without colors, every row of bars and the time-axis line of a
/// chart at least 24 columns wide fill its frame exactly, `width`
/// characters before the newline, when the row's scale label fits in its 10
/// columns and there are no more values than bar columns.
pub proof fn law_chart_rows_fill_width(
    vals: Seq<(u128, i32)>,
    row: nat,
    unit: ChartUnit,
    hi: (nat, int),
    lo: (nat, int),
    range: (nat, int),
    color: ChartColor,
    width: nat,
    secs: nat,
    nanos: nat,
)
    requires
        width >= 24,
        vals.len() <= bar_width(width),
        scale_label(row, unit, hi, lo, range).len() <= 10,
    ensures
        chart_row(vals, row, unit, hi, lo, range, color, width, false).len() == width + 1,
        chart_axis_row(width, secs, nanos, false).len() == width + 1,
{
    reveal(chart_row);
    lemma_row_cells_len(vals, row, lo, range, color);
}

} // verus!
