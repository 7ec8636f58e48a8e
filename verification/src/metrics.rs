//! Per-sample metrics of a monitored process tree, stored column by column,
//! and the run summary derived from them.
use vstd::prelude::*;
use vstd::arithmetic::div_mod::{lemma_div_is_ordered, lemma_div_plus_one, lemma_multiply_divide_le};
use crate::sampler::PidIoTotals;
use crate::binary64::{
    duration_exec, from_int, from_int_exec, is_norm, mul_int, mul_int_exec, nanos_of, plus,
    plus_exec, quot, quot_exec, secs_f64, secs_f64_exec,
};

verus! {

/// A single point-in-time snapshot (used transiently during collection).
/// `timestamp` is the time since sampling started, in nanoseconds.
pub struct Sample {
    pub timestamp: u64,
    pub rss_bytes: u64,
    pub vsize_bytes: u64,
    pub utime_ticks: u64,
    pub stime_ticks: u64,
    pub minflt: u64,
    pub majflt: u64,
    pub threads: u32,
    pub voluntary_ctxt_switches: u64,
    pub nonvoluntary_ctxt_switches: u64,
    pub read_bytes: u64,
    pub write_bytes: u64,
    pub rchar: u64,
    pub wchar: u64,
    pub syscr: u64,
    pub syscw: u64,
    pub net_rx_bytes: u64,
    pub net_tx_bytes: u64,
    pub fd_count: u32,
}

/// Columnar storage for all samples — one Vec per metric; row `i` of every
/// column belongs to the `i`-th sample. Timestamps are nanoseconds since
/// sampling started.
pub struct SampleColumns {
    pub timestamp: Vec<u64>,
    pub rss_bytes: Vec<u64>,
    pub vsize_bytes: Vec<u64>,
    pub utime_ticks: Vec<u64>,
    pub stime_ticks: Vec<u64>,
    pub minflt: Vec<u64>,
    pub majflt: Vec<u64>,
    pub threads: Vec<u32>,
    pub voluntary_ctxt_switches: Vec<u64>,
    pub nonvoluntary_ctxt_switches: Vec<u64>,
    pub read_bytes: Vec<u64>,
    pub write_bytes: Vec<u64>,
    pub rchar: Vec<u64>,
    pub wchar: Vec<u64>,
    pub syscr: Vec<u64>,
    pub syscw: Vec<u64>,
    pub net_rx_bytes: Vec<u64>,
    pub net_tx_bytes: Vec<u64>,
    pub fd_count: Vec<u32>,
}

/// First sample index of bucket `b` when `n` samples are merged into `t` buckets.
pub open spec fn bucket_lo(b: nat, n: nat, t: nat) -> nat {
    b * n / t
}

/// One past the last sample index of bucket `b`.
pub open spec fn bucket_hi(b: nat, n: nat, t: nat) -> nat {
    let h = (b + 1) * n / t;
    if h < n {
        h
    } else {
        n
    }
}

/// Largest of `s[lo..hi]`, or 0 when the range is empty.
pub open spec fn max_u64_in(s: Seq<u64>, lo: int, hi: int) -> u64
    decreases hi - lo,
{
    if hi <= lo {
        0
    } else {
        let m = max_u64_in(s, lo, hi - 1);
        if s[hi - 1] > m {
            s[hi - 1]
        } else {
            m
        }
    }
}

/// Largest of `s[lo..hi]`, or 0 when the range is empty.
pub open spec fn max_u32_in(s: Seq<u32>, lo: int, hi: int) -> u32
    decreases hi - lo,
{
    if hi <= lo {
        0
    } else {
        let m = max_u32_in(s, lo, hi - 1);
        if s[hi - 1] > m {
            s[hi - 1]
        } else {
            m
        }
    }
}

/// The midpoint of two instants, rounded down to a nanosecond.
pub open spec fn midpoint(a: u64, b: u64) -> u64 {
    ((a + b) / 2) as u64
}

/// When `n > t > 0`, every bucket is a non-empty range inside `0..n`.
pub(crate) proof fn lemma_bucket_bounds(b: nat, n: nat, t: nat)
    requires
        0 < t < n,
        b < t,
    ensures
        bucket_lo(b, n, t) < bucket_hi(b, n, t) <= n,
        bucket_hi(b, n, t) == (b + 1) * n / t,
{
    let bn = (b * n) as int;
    assert((b + 1) * n == bn + n) by (nonlinear_arith)
        requires
            bn == b * n,
    ;
    lemma_div_plus_one(bn, t as int);
    lemma_div_is_ordered(t + bn, bn + n, t as int);
    assert((b + 1) * n <= t * n) by (nonlinear_arith)
        requires
            b + 1 <= t,
    ;
    lemma_multiply_divide_le(((b + 1) * n) as int, t as int, n as int);
}


/// A copy of a column.
fn copy_u64(v: &Vec<u64>) -> (r: Vec<u64>)
    ensures
        r@ == v@,
{
    let r = v.clone();
    assert(r@ =~= v@);
    r
}

/// A copy of a column.
fn copy_u32(v: &Vec<u32>) -> (r: Vec<u32>)
    ensures
        r@ == v@,
{
    let r = v.clone();
    assert(r@ =~= v@);
    r
}

/// The bounds of bucket `b`: `(bucket_lo, bucket_hi)`.
fn bucket_bounds(b: usize, n: usize, t: usize) -> (r: (usize, usize))
    requires
        0 < t < n,
        b < t,
        t * n <= usize::MAX,
    ensures
        r.0 == bucket_lo(b as nat, n as nat, t as nat),
        r.1 == bucket_hi(b as nat, n as nat, t as nat),
        r.0 < r.1 <= n,
{
    proof {
        lemma_bucket_bounds(b as nat, n as nat, t as nat);
        assert((b + 1) * n <= t * n) by (nonlinear_arith)
            requires
                b + 1 <= t,
        ;
        assert(b * n <= (b + 1) * n) by (nonlinear_arith);
    }
    let lo = b * n / t;
    let h = (b + 1) * n / t;
    let hi = if h < n {
        h
    } else {
        n
    };
    (lo, hi)
}

/// Largest of `s[lo..hi]`, 0 for an empty range.
fn max_u64_range(s: &Vec<u64>, lo: usize, hi: usize) -> (m: u64)
    requires
        lo <= hi <= s@.len(),
    ensures
        m == max_u64_in(s@, lo as int, hi as int),
{
    let mut m: u64 = 0;
    let mut i = lo;
    while i < hi
        invariant
            lo <= i <= hi <= s@.len(),
            m == max_u64_in(s@, lo as int, i as int),
        decreases hi - i,
    {
        if s[i] > m {
            m = s[i];
        }
        i = i + 1;
    }
    m
}

/// Largest of `s[lo..hi]`, 0 for an empty range.
fn max_u32_range(s: &Vec<u32>, lo: usize, hi: usize) -> (m: u32)
    requires
        lo <= hi <= s@.len(),
    ensures
        m == max_u32_in(s@, lo as int, hi as int),
{
    let mut m: u32 = 0;
    let mut i = lo;
    while i < hi
        invariant
            lo <= i <= hi <= s@.len(),
            m == max_u32_in(s@, lo as int, i as int),
        decreases hi - i,
    {
        if s[i] > m {
            m = s[i];
        }
        i = i + 1;
    }
    m
}

/// Each bucket of a cumulative column keeps the bucket's last row.
fn merge_last(col: &Vec<u64>, n: usize, t: usize) -> (out: Vec<u64>)
    requires
        col@.len() == n,
        0 < t < n,
        t * n <= usize::MAX,
    ensures
        out@.len() == t,
        forall|b: int|
            0 <= b < t ==> #[trigger] out@[b] == col@[bucket_hi(b as nat, n as nat, t as nat) - 1],
{
    let mut out: Vec<u64> = Vec::with_capacity(t);
    let mut b: usize = 0;
    while b < t
        invariant
            col@.len() == n,
            0 < t < n,
            t * n <= usize::MAX,
            b <= t,
            out@.len() == b,
            forall|j: int|
                0 <= j < b ==> #[trigger] out@[j] == col@[bucket_hi(j as nat, n as nat, t as nat) - 1],
        decreases t - b,
    {
        let (_lo, hi) = bucket_bounds(b, n, t);
        out.push(col[hi - 1]);
        b = b + 1;
    }
    out
}

/// Each bucket of an instantaneous column keeps the bucket's largest row.
fn merge_max_u64(col: &Vec<u64>, n: usize, t: usize) -> (out: Vec<u64>)
    requires
        col@.len() == n,
        0 < t < n,
        t * n <= usize::MAX,
    ensures
        out@.len() == t,
        forall|b: int|
            0 <= b < t ==> #[trigger] out@[b] == max_u64_in(
                col@,
                bucket_lo(b as nat, n as nat, t as nat) as int,
                bucket_hi(b as nat, n as nat, t as nat) as int,
            ),
{
    let mut out: Vec<u64> = Vec::with_capacity(t);
    let mut b: usize = 0;
    while b < t
        invariant
            col@.len() == n,
            0 < t < n,
            t * n <= usize::MAX,
            b <= t,
            out@.len() == b,
            forall|j: int|
                0 <= j < b ==> #[trigger] out@[j] == max_u64_in(
                    col@,
                    bucket_lo(j as nat, n as nat, t as nat) as int,
                    bucket_hi(j as nat, n as nat, t as nat) as int,
                ),
        decreases t - b,
    {
        let (lo, hi) = bucket_bounds(b, n, t);
        out.push(max_u64_range(col, lo, hi));
        b = b + 1;
    }
    out
}

/// Each bucket of an instantaneous column keeps the bucket's largest row.
fn merge_max_u32(col: &Vec<u32>, n: usize, t: usize) -> (out: Vec<u32>)
    requires
        col@.len() == n,
        0 < t < n,
        t * n <= usize::MAX,
    ensures
        out@.len() == t,
        forall|b: int|
            0 <= b < t ==> #[trigger] out@[b] == max_u32_in(
                col@,
                bucket_lo(b as nat, n as nat, t as nat) as int,
                bucket_hi(b as nat, n as nat, t as nat) as int,
            ),
{
    let mut out: Vec<u32> = Vec::with_capacity(t);
    let mut b: usize = 0;
    while b < t
        invariant
            col@.len() == n,
            0 < t < n,
            t * n <= usize::MAX,
            b <= t,
            out@.len() == b,
            forall|j: int|
                0 <= j < b ==> #[trigger] out@[j] == max_u32_in(
                    col@,
                    bucket_lo(j as nat, n as nat, t as nat) as int,
                    bucket_hi(j as nat, n as nat, t as nat) as int,
                ),
        decreases t - b,
    {
        let (lo, hi) = bucket_bounds(b, n, t);
        out.push(max_u32_range(col, lo, hi));
        b = b + 1;
    }
    out
}

/// Each bucket's timestamp is the midpoint of its first and last instants.
fn merge_midpoint(col: &Vec<u64>, n: usize, t: usize) -> (out: Vec<u64>)
    requires
        col@.len() == n,
        0 < t < n,
        t * n <= usize::MAX,
    ensures
        out@.len() == t,
        forall|b: int|
            0 <= b < t ==> #[trigger] out@[b] == midpoint(
                col@[bucket_lo(b as nat, n as nat, t as nat) as int],
                col@[bucket_hi(b as nat, n as nat, t as nat) - 1],
            ),
{
    let mut out: Vec<u64> = Vec::with_capacity(t);
    let mut b: usize = 0;
    while b < t
        invariant
            col@.len() == n,
            0 < t < n,
            t * n <= usize::MAX,
            b <= t,
            out@.len() == b,
            forall|j: int|
                0 <= j < b ==> #[trigger] out@[j] == midpoint(
                    col@[bucket_lo(j as nat, n as nat, t as nat) as int],
                    col@[bucket_hi(j as nat, n as nat, t as nat) - 1],
                ),
        decreases t - b,
    {
        let (lo, hi) = bucket_bounds(b, n, t);
        let sum = col[lo] as u128 + col[hi - 1] as u128;
        out.push((sum / 2) as u64);
        b = b + 1;
    }
    out
}

/// The largest of `s[lo..hi]` is the larger of the largest on each side of
/// any split point.
proof fn lemma_max_u64_split(s: Seq<u64>, lo: int, mid: int, hi: int)
    requires
        lo <= mid <= hi,
    ensures
        max_u64_in(s, lo, hi) == ({
            let a = max_u64_in(s, lo, mid);
            let b = max_u64_in(s, mid, hi);
            if b > a {
                b
            } else {
                a
            }
        }),
    decreases hi - mid,
{
    if hi > mid {
        lemma_max_u64_split(s, lo, mid, hi - 1);
    }
}

proof fn lemma_max_u32_split(s: Seq<u32>, lo: int, mid: int, hi: int)
    requires
        lo <= mid <= hi,
    ensures
        max_u32_in(s, lo, hi) == ({
            let a = max_u32_in(s, lo, mid);
            let b = max_u32_in(s, mid, hi);
            if b > a {
                b
            } else {
                a
            }
        }),
    decreases hi - mid,
{
    if hi > mid {
        lemma_max_u32_split(s, lo, mid, hi - 1);
    }
}

/// Consecutive buckets meet: each starts where the previous one ended, the
/// first at 0 and the last ends at `n`.
proof fn lemma_buckets_tile(b: nat, n: nat, t: nat)
    requires
        0 < t < n,
        b < t,
    ensures
        b == 0 ==> bucket_lo(b, n, t) == 0,
        b + 1 < t ==> bucket_lo(b + 1, n, t) == bucket_hi(b, n, t),
        b + 1 == t ==> bucket_hi(b, n, t) == n,
{
    lemma_bucket_bounds(b, n, t);
    if b == 0 {
        assert(b * n == 0) by (nonlinear_arith)
            requires
                b == 0,
        ;
    }
    if b + 1 == t {
        assert((b + 1) * n == t * n);
        assert((t * n) / t == n) by (nonlinear_arith)
            requires
                t > 0,
        ;
    }
}

/// Merging the samples of a run into buckets keeps the run's peaks (RSS,
/// virtual size, threads, descriptors) and the last value of every
/// cumulative counter.
pub proof fn law_compress_keeps_peaks(s: SampleColumns, out: SampleColumns, target: nat)
    requires
        s.wf(),
        s.timestamp@.len() > target > 0,
        out.timestamp@.len() == target,
        out.wf(),
        forall|b: int| 0 <= b < target ==> #[trigger] s.merged_bucket(&out, b, s.timestamp@.len(), target),
    ensures
        max_u64_in(out.rss_bytes@, 0, target as int) == max_u64_in(s.rss_bytes@, 0, s.timestamp@.len() as int),
        max_u64_in(out.vsize_bytes@, 0, target as int) == max_u64_in(s.vsize_bytes@, 0, s.timestamp@.len() as int),
        max_u32_in(out.threads@, 0, target as int) == max_u32_in(s.threads@, 0, s.timestamp@.len() as int),
        max_u32_in(out.fd_count@, 0, target as int) == max_u32_in(s.fd_count@, 0, s.timestamp@.len() as int),
        out.utime_ticks@[target - 1] == s.utime_ticks@[s.timestamp@.len() - 1],
        out.stime_ticks@[target - 1] == s.stime_ticks@[s.timestamp@.len() - 1],
        out.minflt@[target - 1] == s.minflt@[s.timestamp@.len() - 1],
        out.majflt@[target - 1] == s.majflt@[s.timestamp@.len() - 1],
        out.voluntary_ctxt_switches@[target - 1] == s.voluntary_ctxt_switches@[s.timestamp@.len() - 1],
        out.nonvoluntary_ctxt_switches@[target - 1] == s.nonvoluntary_ctxt_switches@[s.timestamp@.len() - 1],
        out.read_bytes@[target - 1] == s.read_bytes@[s.timestamp@.len() - 1],
        out.write_bytes@[target - 1] == s.write_bytes@[s.timestamp@.len() - 1],
        out.rchar@[target - 1] == s.rchar@[s.timestamp@.len() - 1],
        out.wchar@[target - 1] == s.wchar@[s.timestamp@.len() - 1],
        out.syscr@[target - 1] == s.syscr@[s.timestamp@.len() - 1],
        out.syscw@[target - 1] == s.syscw@[s.timestamp@.len() - 1],
        out.net_rx_bytes@[target - 1] == s.net_rx_bytes@[s.timestamp@.len() - 1],
        out.net_tx_bytes@[target - 1] == s.net_tx_bytes@[s.timestamp@.len() - 1],
{
    let n = s.timestamp@.len();
    lemma_prefix_peaks(s, out, n, target, target);
    lemma_buckets_tile((target - 1) as nat, n, target);
    assert(s.merged_bucket(&out, target - 1, n, target));
}

/// Merging leaves as many rows as the smaller of the sample count and the
/// target, in columns of equal length, and merging the result again to the
/// same target changes nothing.
pub proof fn law_compress_settles(s: SampleColumns, out: SampleColumns, again: SampleColumns, target: nat)
    requires
        s.wf(),
        s.compressed_to(&out, target),
        out.compressed_to(&again, target),
    ensures
        out.wf(),
        out.timestamp@.len() == if s.timestamp@.len() <= target {
            s.timestamp@.len()
        } else {
            target
        },
        again.same_rows(&out),
{
    if target == 0 {
        assert(again.timestamp@ =~= out.timestamp@);
        assert(again.rss_bytes@ =~= out.rss_bytes@);
        assert(again.vsize_bytes@ =~= out.vsize_bytes@);
        assert(again.utime_ticks@ =~= out.utime_ticks@);
        assert(again.stime_ticks@ =~= out.stime_ticks@);
        assert(again.minflt@ =~= out.minflt@);
        assert(again.majflt@ =~= out.majflt@);
        assert(again.threads@ =~= out.threads@);
        assert(again.voluntary_ctxt_switches@ =~= out.voluntary_ctxt_switches@);
        assert(again.nonvoluntary_ctxt_switches@ =~= out.nonvoluntary_ctxt_switches@);
        assert(again.read_bytes@ =~= out.read_bytes@);
        assert(again.write_bytes@ =~= out.write_bytes@);
        assert(again.rchar@ =~= out.rchar@);
        assert(again.wchar@ =~= out.wchar@);
        assert(again.syscr@ =~= out.syscr@);
        assert(again.syscw@ =~= out.syscw@);
        assert(again.net_rx_bytes@ =~= out.net_rx_bytes@);
        assert(again.net_tx_bytes@ =~= out.net_tx_bytes@);
        assert(again.fd_count@ =~= out.fd_count@);
    }
}

/// After the first `k` buckets, the peaks of the merged columns are those
/// of the samples up to the end of bucket `k - 1`.
proof fn lemma_prefix_peaks(s: SampleColumns, out: SampleColumns, n: nat, t: nat, k: nat)
    requires
        s.wf(),
        out.wf(),
        out.timestamp@.len() == t,
        n == s.timestamp@.len(),
        0 < t < n,
        1 <= k <= t,
        forall|b: int| 0 <= b < t ==> #[trigger] s.merged_bucket(&out, b, n, t),
    ensures
        max_u64_in(out.rss_bytes@, 0, k as int) == max_u64_in(
            s.rss_bytes@,
            0,
            bucket_hi((k - 1) as nat, n, t) as int,
        ),
        max_u64_in(out.vsize_bytes@, 0, k as int) == max_u64_in(
            s.vsize_bytes@,
            0,
            bucket_hi((k - 1) as nat, n, t) as int,
        ),
        max_u32_in(out.threads@, 0, k as int) == max_u32_in(
            s.threads@,
            0,
            bucket_hi((k - 1) as nat, n, t) as int,
        ),
        max_u32_in(out.fd_count@, 0, k as int) == max_u32_in(
            s.fd_count@,
            0,
            bucket_hi((k - 1) as nat, n, t) as int,
        ),
    decreases k,
{
    let b = (k - 1) as nat;
    lemma_buckets_tile(b, n, t);
    lemma_bucket_bounds(b, n, t);
    let lo = bucket_lo(b, n, t) as int;
    let hi = bucket_hi(b, n, t) as int;
    assert(s.merged_bucket(&out, b as int, n, t));
    lemma_max_u64_split(s.rss_bytes@, 0, lo, hi);
    lemma_max_u64_split(s.vsize_bytes@, 0, lo, hi);
    lemma_max_u32_split(s.threads@, 0, lo, hi);
    lemma_max_u32_split(s.fd_count@, 0, lo, hi);
    if k > 1 {
        lemma_prefix_peaks(s, out, n, t, (k - 1) as nat);
        lemma_buckets_tile((b - 1) as nat, n, t);
        assert(lo == bucket_hi((b - 1) as nat, n, t));
    } else {
        assert(lo == 0);
    }
    assert(out.rss_bytes@[b as int] == max_u64_in(s.rss_bytes@, lo, hi));
    assert(max_u64_in(out.rss_bytes@, 0, k as int) == ({
        let m = max_u64_in(out.rss_bytes@, 0, b as int);
        if out.rss_bytes@[b as int] > m {
            out.rss_bytes@[b as int]
        } else {
            m
        }
    }));
    assert(max_u64_in(out.vsize_bytes@, 0, k as int) == ({
        let m = max_u64_in(out.vsize_bytes@, 0, b as int);
        if out.vsize_bytes@[b as int] > m {
            out.vsize_bytes@[b as int]
        } else {
            m
        }
    }));
    assert(max_u32_in(out.threads@, 0, k as int) == ({
        let m = max_u32_in(out.threads@, 0, b as int);
        if out.threads@[b as int] > m {
            out.threads@[b as int]
        } else {
            m
        }
    }));
    assert(max_u32_in(out.fd_count@, 0, k as int) == ({
        let m = max_u32_in(out.fd_count@, 0, b as int);
        if out.fd_count@[b as int] > m {
            out.fd_count@[b as int]
        } else {
            m
        }
    }));
}

impl SampleColumns {
    /// All columns hold one row per sample.
    pub open spec fn wf(&self) -> bool {
        let n = self.timestamp@.len();
        &&& self.rss_bytes@.len() == n
        &&& self.vsize_bytes@.len() == n
        &&& self.utime_ticks@.len() == n
        &&& self.stime_ticks@.len() == n
        &&& self.minflt@.len() == n
        &&& self.majflt@.len() == n
        &&& self.threads@.len() == n
        &&& self.voluntary_ctxt_switches@.len() == n
        &&& self.nonvoluntary_ctxt_switches@.len() == n
        &&& self.read_bytes@.len() == n
        &&& self.write_bytes@.len() == n
        &&& self.rchar@.len() == n
        &&& self.wchar@.len() == n
        &&& self.syscr@.len() == n
        &&& self.syscw@.len() == n
        &&& self.net_rx_bytes@.len() == n
        &&& self.net_tx_bytes@.len() == n
        &&& self.fd_count@.len() == n
    }

    /// Every column of `self` holds what the same column of `other` holds.
    pub open spec fn same_rows(&self, other: &SampleColumns) -> bool {
        &&& self.timestamp@ == other.timestamp@
        &&& self.rss_bytes@ == other.rss_bytes@
        &&& self.vsize_bytes@ == other.vsize_bytes@
        &&& self.utime_ticks@ == other.utime_ticks@
        &&& self.stime_ticks@ == other.stime_ticks@
        &&& self.minflt@ == other.minflt@
        &&& self.majflt@ == other.majflt@
        &&& self.threads@ == other.threads@
        &&& self.voluntary_ctxt_switches@ == other.voluntary_ctxt_switches@
        &&& self.nonvoluntary_ctxt_switches@ == other.nonvoluntary_ctxt_switches@
        &&& self.read_bytes@ == other.read_bytes@
        &&& self.write_bytes@ == other.write_bytes@
        &&& self.rchar@ == other.rchar@
        &&& self.wchar@ == other.wchar@
        &&& self.syscr@ == other.syscr@
        &&& self.syscw@ == other.syscw@
        &&& self.net_rx_bytes@ == other.net_rx_bytes@
        &&& self.net_tx_bytes@ == other.net_tx_bytes@
        &&& self.fd_count@ == other.fd_count@
    }

    /// Every column is empty.
    pub open spec fn all_empty(&self) -> bool {
        &&& self.wf()
        &&& self.timestamp@.len() == 0
    }

    /// Bucket `b` of `out` merges the rows `bucket_lo..bucket_hi` of `self`
    /// (with `n` rows merged into `t` buckets): the timestamp is the midpoint
    /// of the first and last instants, cumulative counters take the last row,
    /// and instantaneous metrics (rss, vsize, threads, fds) take the largest.
    pub open spec fn merged_bucket(&self, out: &SampleColumns, b: int, n: nat, t: nat) -> bool {
        let lo = bucket_lo(b as nat, n, t) as int;
        let hi = bucket_hi(b as nat, n, t) as int;
        let last = hi - 1;
        &&& out.timestamp@[b] == midpoint(self.timestamp@[lo], self.timestamp@[last])
        &&& out.rss_bytes@[b] == max_u64_in(self.rss_bytes@, lo, hi)
        &&& out.vsize_bytes@[b] == max_u64_in(self.vsize_bytes@, lo, hi)
        &&& out.utime_ticks@[b] == self.utime_ticks@[last]
        &&& out.stime_ticks@[b] == self.stime_ticks@[last]
        &&& out.minflt@[b] == self.minflt@[last]
        &&& out.majflt@[b] == self.majflt@[last]
        &&& out.threads@[b] == max_u32_in(self.threads@, lo, hi)
        &&& out.voluntary_ctxt_switches@[b] == self.voluntary_ctxt_switches@[last]
        &&& out.nonvoluntary_ctxt_switches@[b] == self.nonvoluntary_ctxt_switches@[last]
        &&& out.read_bytes@[b] == self.read_bytes@[last]
        &&& out.write_bytes@[b] == self.write_bytes@[last]
        &&& out.rchar@[b] == self.rchar@[last]
        &&& out.wchar@[b] == self.wchar@[last]
        &&& out.syscr@[b] == self.syscr@[last]
        &&& out.syscw@[b] == self.syscw@[last]
        &&& out.net_rx_bytes@[b] == self.net_rx_bytes@[last]
        &&& out.net_tx_bytes@[b] == self.net_tx_bytes@[last]
        &&& out.fd_count@[b] == max_u32_in(self.fd_count@, lo, hi)
    }

    /// `out` is these samples merged into `target` buckets: with no bucket
    /// it is empty; with no more samples than buckets it holds them as they
    /// are; else bucket `b` merges the rows of `bucket_lo..bucket_hi`
    /// (see `merged_bucket`). Its columns are of equal length.
    pub open spec fn compressed_to(&self, out: &SampleColumns, target: nat) -> bool {
        &&& out.wf()
        &&& target == 0 ==> out.all_empty()
        &&& 0 < target && self.timestamp@.len() <= target ==> out.same_rows(self)
        &&& self.timestamp@.len() > target > 0 ==> {
            &&& out.timestamp@.len() == target
            &&& forall|b: int|
                0 <= b < target ==> #[trigger] self.merged_bucket(out, b, self.timestamp@.len(), target)
        }
    }

    /// Whether every column has as many rows as `timestamp` (`wf`).
    pub fn is_aligned(&self) -> (r: bool)
        ensures
            r == self.wf(),
    {
        let n = self.timestamp.len();
        self.rss_bytes.len() == n && self.vsize_bytes.len() == n && self.utime_ticks.len() == n
            && self.stime_ticks.len() == n && self.minflt.len() == n && self.majflt.len() == n
            && self.threads.len() == n && self.voluntary_ctxt_switches.len() == n
            && self.nonvoluntary_ctxt_switches.len() == n && self.read_bytes.len() == n
            && self.write_bytes.len() == n && self.rchar.len() == n && self.wchar.len() == n
            && self.syscr.len() == n && self.syscw.len() == n && self.net_rx_bytes.len() == n
            && self.net_tx_bytes.len() == n && self.fd_count.len() == n
    }

    /// Empty columns, ready for about `n` samples.
    pub fn with_capacity(n: usize) -> (r: Self)
        ensures
            r.all_empty(),
    {
        SampleColumns {
            timestamp: Vec::with_capacity(n),
            rss_bytes: Vec::with_capacity(n),
            vsize_bytes: Vec::with_capacity(n),
            utime_ticks: Vec::with_capacity(n),
            stime_ticks: Vec::with_capacity(n),
            minflt: Vec::with_capacity(n),
            majflt: Vec::with_capacity(n),
            threads: Vec::with_capacity(n),
            voluntary_ctxt_switches: Vec::with_capacity(n),
            nonvoluntary_ctxt_switches: Vec::with_capacity(n),
            read_bytes: Vec::with_capacity(n),
            write_bytes: Vec::with_capacity(n),
            rchar: Vec::with_capacity(n),
            wchar: Vec::with_capacity(n),
            syscr: Vec::with_capacity(n),
            syscw: Vec::with_capacity(n),
            net_rx_bytes: Vec::with_capacity(n),
            net_tx_bytes: Vec::with_capacity(n),
            fd_count: Vec::with_capacity(n),
        }
    }

    /// Appends one sample as a new row of every column.
    pub fn push(&mut self, s: Sample)
        ensures
            final(self).timestamp@ == old(self).timestamp@.push(s.timestamp),
            final(self).rss_bytes@ == old(self).rss_bytes@.push(s.rss_bytes),
            final(self).vsize_bytes@ == old(self).vsize_bytes@.push(s.vsize_bytes),
            final(self).utime_ticks@ == old(self).utime_ticks@.push(s.utime_ticks),
            final(self).stime_ticks@ == old(self).stime_ticks@.push(s.stime_ticks),
            final(self).minflt@ == old(self).minflt@.push(s.minflt),
            final(self).majflt@ == old(self).majflt@.push(s.majflt),
            final(self).threads@ == old(self).threads@.push(s.threads),
            final(self).voluntary_ctxt_switches@ == old(self).voluntary_ctxt_switches@.push(
                s.voluntary_ctxt_switches,
            ),
            final(self).nonvoluntary_ctxt_switches@ == old(self).nonvoluntary_ctxt_switches@.push(
                s.nonvoluntary_ctxt_switches,
            ),
            final(self).read_bytes@ == old(self).read_bytes@.push(s.read_bytes),
            final(self).write_bytes@ == old(self).write_bytes@.push(s.write_bytes),
            final(self).rchar@ == old(self).rchar@.push(s.rchar),
            final(self).wchar@ == old(self).wchar@.push(s.wchar),
            final(self).syscr@ == old(self).syscr@.push(s.syscr),
            final(self).syscw@ == old(self).syscw@.push(s.syscw),
            final(self).net_rx_bytes@ == old(self).net_rx_bytes@.push(s.net_rx_bytes),
            final(self).net_tx_bytes@ == old(self).net_tx_bytes@.push(s.net_tx_bytes),
            final(self).fd_count@ == old(self).fd_count@.push(s.fd_count),
            old(self).wf() ==> final(self).wf(),
    {
        self.timestamp.push(s.timestamp);
        self.rss_bytes.push(s.rss_bytes);
        self.vsize_bytes.push(s.vsize_bytes);
        self.utime_ticks.push(s.utime_ticks);
        self.stime_ticks.push(s.stime_ticks);
        self.minflt.push(s.minflt);
        self.majflt.push(s.majflt);
        self.threads.push(s.threads);
        self.voluntary_ctxt_switches.push(s.voluntary_ctxt_switches);
        self.nonvoluntary_ctxt_switches.push(s.nonvoluntary_ctxt_switches);
        self.read_bytes.push(s.read_bytes);
        self.write_bytes.push(s.write_bytes);
        self.rchar.push(s.rchar);
        self.wchar.push(s.wchar);
        self.syscr.push(s.syscr);
        self.syscw.push(s.syscw);
        self.net_rx_bytes.push(s.net_rx_bytes);
        self.net_tx_bytes.push(s.net_tx_bytes);
        self.fd_count.push(s.fd_count);
    }

    /// A row-for-row copy.
    pub fn copy(&self) -> (r: Self)
        ensures
            r.same_rows(self),
    {
        SampleColumns {
            timestamp: copy_u64(&self.timestamp),
            rss_bytes: copy_u64(&self.rss_bytes),
            vsize_bytes: copy_u64(&self.vsize_bytes),
            utime_ticks: copy_u64(&self.utime_ticks),
            stime_ticks: copy_u64(&self.stime_ticks),
            minflt: copy_u64(&self.minflt),
            majflt: copy_u64(&self.majflt),
            threads: copy_u32(&self.threads),
            voluntary_ctxt_switches: copy_u64(&self.voluntary_ctxt_switches),
            nonvoluntary_ctxt_switches: copy_u64(&self.nonvoluntary_ctxt_switches),
            read_bytes: copy_u64(&self.read_bytes),
            write_bytes: copy_u64(&self.write_bytes),
            rchar: copy_u64(&self.rchar),
            wchar: copy_u64(&self.wchar),
            syscr: copy_u64(&self.syscr),
            syscw: copy_u64(&self.syscw),
            net_rx_bytes: copy_u64(&self.net_rx_bytes),
            net_tx_bytes: copy_u64(&self.net_tx_bytes),
            fd_count: copy_u32(&self.fd_count),
        }
    }

    /// Merge neighboring samples down to at most `target` buckets.
    /// Timestamps become the midpoint of each bucket.
    /// Cumulative counters (ticks, faults, io, net, ctx) take the last value in the bucket.
    /// Instantaneous metrics (rss, vsize, threads, fd) take the max.
    /// With no more samples than `target` the samples are kept as they are;
    /// a `target` of 0 leaves no bucket, so the result is empty.
    pub fn compress(&self, target: usize) -> (out: Self)
        requires
            self.wf(),
            self.timestamp@.len() <= target || target * self.timestamp@.len() <= usize::MAX,
        ensures
            self.compressed_to(&out, target as nat),
    {
        let n = self.len();
        if target == 0 {
            return SampleColumns::with_capacity(0);
        }
        if n <= target {
            return self.copy();
        }
        let out = SampleColumns {
            timestamp: merge_midpoint(&self.timestamp, n, target),
            rss_bytes: merge_max_u64(&self.rss_bytes, n, target),
            vsize_bytes: merge_max_u64(&self.vsize_bytes, n, target),
            utime_ticks: merge_last(&self.utime_ticks, n, target),
            stime_ticks: merge_last(&self.stime_ticks, n, target),
            minflt: merge_last(&self.minflt, n, target),
            majflt: merge_last(&self.majflt, n, target),
            threads: merge_max_u32(&self.threads, n, target),
            voluntary_ctxt_switches: merge_last(&self.voluntary_ctxt_switches, n, target),
            nonvoluntary_ctxt_switches: merge_last(&self.nonvoluntary_ctxt_switches, n, target),
            read_bytes: merge_last(&self.read_bytes, n, target),
            write_bytes: merge_last(&self.write_bytes, n, target),
            rchar: merge_last(&self.rchar, n, target),
            wchar: merge_last(&self.wchar, n, target),
            syscr: merge_last(&self.syscr, n, target),
            syscw: merge_last(&self.syscw, n, target),
            net_rx_bytes: merge_last(&self.net_rx_bytes, n, target),
            net_tx_bytes: merge_last(&self.net_tx_bytes, n, target),
            fd_count: merge_max_u32(&self.fd_count, n, target),
        };
        assert forall|b: int| 0 <= b < target implies #[trigger] self.merged_bucket(
            &out,
            b,
            n as nat,
            target as nat,
        ) by {
            assert(out.timestamp@[b] == midpoint(
                self.timestamp@[bucket_lo(b as nat, n as nat, target as nat) as int],
                self.timestamp@[bucket_hi(b as nat, n as nat, target as nat) - 1],
            ));
            assert(out.rss_bytes@[b] == max_u64_in(
                self.rss_bytes@,
                bucket_lo(b as nat, n as nat, target as nat) as int,
                bucket_hi(b as nat, n as nat, target as nat) as int,
            ));
            assert(out.vsize_bytes@[b] == max_u64_in(
                self.vsize_bytes@,
                bucket_lo(b as nat, n as nat, target as nat) as int,
                bucket_hi(b as nat, n as nat, target as nat) as int,
            ));
            assert(out.threads@[b] == max_u32_in(
                self.threads@,
                bucket_lo(b as nat, n as nat, target as nat) as int,
                bucket_hi(b as nat, n as nat, target as nat) as int,
            ));
            assert(out.fd_count@[b] == max_u32_in(
                self.fd_count@,
                bucket_lo(b as nat, n as nat, target as nat) as int,
                bucket_hi(b as nat, n as nat, target as nat) as int,
            ));
            assert(out.utime_ticks@[b] == self.utime_ticks@[bucket_hi(b as nat, n as nat, target as nat) - 1]);
            assert(out.stime_ticks@[b] == self.stime_ticks@[bucket_hi(b as nat, n as nat, target as nat) - 1]);
            assert(out.minflt@[b] == self.minflt@[bucket_hi(b as nat, n as nat, target as nat) - 1]);
            assert(out.majflt@[b] == self.majflt@[bucket_hi(b as nat, n as nat, target as nat) - 1]);
            assert(out.voluntary_ctxt_switches@[b] == self.voluntary_ctxt_switches@[bucket_hi(b as nat, n as nat, target as nat) - 1]);
            assert(out.nonvoluntary_ctxt_switches@[b] == self.nonvoluntary_ctxt_switches@[bucket_hi(b as nat, n as nat, target as nat) - 1]);
            assert(out.read_bytes@[b] == self.read_bytes@[bucket_hi(b as nat, n as nat, target as nat) - 1]);
            assert(out.write_bytes@[b] == self.write_bytes@[bucket_hi(b as nat, n as nat, target as nat) - 1]);
            assert(out.rchar@[b] == self.rchar@[bucket_hi(b as nat, n as nat, target as nat) - 1]);
            assert(out.wchar@[b] == self.wchar@[bucket_hi(b as nat, n as nat, target as nat) - 1]);
            assert(out.syscr@[b] == self.syscr@[bucket_hi(b as nat, n as nat, target as nat) - 1]);
            assert(out.syscw@[b] == self.syscw@[bucket_hi(b as nat, n as nat, target as nat) - 1]);
            assert(out.net_rx_bytes@[b] == self.net_rx_bytes@[bucket_hi(b as nat, n as nat, target as nat) - 1]);
            assert(out.net_tx_bytes@[b] == self.net_tx_bytes@[bucket_hi(b as nat, n as nat, target as nat) - 1]);
        }
        out
    }

    /// Number of samples.
    pub fn len(&self) -> (r: usize)
        ensures
            r == self.timestamp@.len(),
    {
        self.timestamp.len()
    }

    /// Whether there are no samples.
    pub fn is_empty(&self) -> (r: bool)
        ensures
            r == (self.timestamp@.len() == 0),
    {
        self.timestamp.len() == 0
    }
}


/// Aggregate figures of a run. CPU time is kept in clock ticks, as the
/// kernel counts it; the report converts it to seconds.
pub struct Summary {
    pub total_utime_ticks: u64,
    pub total_stime_ticks: u64,
    pub peak_rss_bytes: u64,
    pub initial_rss_bytes: u64,
    pub final_rss_bytes: u64,
    pub peak_vsize_bytes: u64,
    pub total_minflt: u64,
    pub total_majflt: u64,
    pub total_read_bytes: u64,
    pub total_write_bytes: u64,
    pub total_rchar: u64,
    pub total_wchar: u64,
    pub total_syscr: u64,
    pub total_syscw: u64,
    pub total_net_rx_bytes: u64,
    pub total_net_tx_bytes: u64,
    pub initial_threads: u32,
    pub final_threads: u32,
    pub peak_threads: u32,
    pub total_voluntary_ctxt_switches: u64,
    pub total_nonvoluntary_ctxt_switches: u64,
    pub peak_fd_count: u32,
    pub final_fd_count: u32,
    pub child_processes_spawned: u32,
}

/// `a - b`, or 0 when `b > a`.
pub open spec fn sat_sub(a: u64, b: u64) -> u64 {
    if a >= b {
        (a - b) as u64
    } else {
        0
    }
}

/// Growth of a cumulative column from its first to its last sample.
pub open spec fn growth(s: Seq<u64>) -> u64 {
    sat_sub(s[s.len() - 1], s[0])
}

/// The summary with every figure zero.
pub open spec fn zero_summary() -> Summary {
    Summary {
        total_utime_ticks: 0,
        total_stime_ticks: 0,
        peak_rss_bytes: 0,
        initial_rss_bytes: 0,
        final_rss_bytes: 0,
        peak_vsize_bytes: 0,
        total_minflt: 0,
        total_majflt: 0,
        total_read_bytes: 0,
        total_write_bytes: 0,
        total_rchar: 0,
        total_wchar: 0,
        total_syscr: 0,
        total_syscw: 0,
        total_net_rx_bytes: 0,
        total_net_tx_bytes: 0,
        initial_threads: 0,
        final_threads: 0,
        peak_threads: 0,
        total_voluntary_ctxt_switches: 0,
        total_nonvoluntary_ctxt_switches: 0,
        peak_fd_count: 0,
        final_fd_count: 0,
        child_processes_spawned: 0,
    }
}

/// The summary of a run: growth of the cumulative counters between the
/// first and the last sample, first / last / largest instantaneous values,
/// disk I/O from the watermark totals when they are non-zero (else from
/// the samples), character and syscall I/O from the watermarks, network
/// from the given deltas. No samples at all give the all-zero summary.
pub open spec fn summary_of(
    s: SampleColumns,
    child_count: u32,
    io: PidIoTotals,
    net_rx: u64,
    net_tx: u64,
) -> Summary {
    let n = s.timestamp@.len() as int;
    if n == 0 {
        zero_summary()
    } else {
        Summary {
            total_utime_ticks: growth(s.utime_ticks@),
            total_stime_ticks: growth(s.stime_ticks@),
            peak_rss_bytes: max_u64_in(s.rss_bytes@, 0, n),
            initial_rss_bytes: s.rss_bytes@[0],
            final_rss_bytes: s.rss_bytes@[n - 1],
            peak_vsize_bytes: max_u64_in(s.vsize_bytes@, 0, n),
            total_minflt: growth(s.minflt@),
            total_majflt: growth(s.majflt@),
            total_read_bytes: if io.read_bytes > 0 {
                io.read_bytes
            } else {
                growth(s.read_bytes@)
            },
            total_write_bytes: if io.write_bytes > 0 {
                io.write_bytes
            } else {
                growth(s.write_bytes@)
            },
            total_rchar: io.rchar,
            total_wchar: io.wchar,
            total_syscr: io.syscr,
            total_syscw: io.syscw,
            total_net_rx_bytes: net_rx,
            total_net_tx_bytes: net_tx,
            initial_threads: s.threads@[0],
            final_threads: s.threads@[n - 1],
            peak_threads: max_u32_in(s.threads@, 0, n),
            total_voluntary_ctxt_switches: growth(s.voluntary_ctxt_switches@),
            total_nonvoluntary_ctxt_switches: growth(s.nonvoluntary_ctxt_switches@),
            peak_fd_count: max_u32_in(s.fd_count@, 0, n),
            final_fd_count: s.fd_count@[n - 1],
            child_processes_spawned: child_count,
        }
    }
}

/// A run's disk I/O keeps what the watermarks counted: where they counted
/// any bytes read (written), that count is the run's total, so the I/O of
/// children that exited before the last sample is not lost; only where they
/// counted none is the total the growth of the samples' column from the
/// first to the last sample (none where it fell). Character and syscall
/// I/O are the watermarks' totals. No total falls below what the
/// watermarks counted.
pub proof fn law_summary_keeps_watermark_io(
    s: SampleColumns,
    child_count: u32,
    io: PidIoTotals,
    net_rx: u64,
    net_tx: u64,
)
    requires
        s.wf(),
        s.timestamp@.len() > 0,
    ensures
        io.read_bytes > 0 ==> summary_of(s, child_count, io, net_rx, net_tx).total_read_bytes == io.read_bytes,
        io.write_bytes > 0 ==> summary_of(s, child_count, io, net_rx, net_tx).total_write_bytes == io.write_bytes,
        io.read_bytes == 0 ==> summary_of(s, child_count, io, net_rx, net_tx).total_read_bytes == (if s.read_bytes@.last()
            >= s.read_bytes@[0] {
            s.read_bytes@.last() - s.read_bytes@[0]
        } else {
            0
        }),
        io.write_bytes == 0 ==> summary_of(s, child_count, io, net_rx, net_tx).total_write_bytes == (if s.write_bytes@.last()
            >= s.write_bytes@[0] {
            s.write_bytes@.last() - s.write_bytes@[0]
        } else {
            0
        }),
        summary_of(s, child_count, io, net_rx, net_tx).total_read_bytes >= io.read_bytes,
        summary_of(s, child_count, io, net_rx, net_tx).total_write_bytes >= io.write_bytes,
        summary_of(s, child_count, io, net_rx, net_tx).total_rchar == io.rchar,
        summary_of(s, child_count, io, net_rx, net_tx).total_wchar == io.wchar,
        summary_of(s, child_count, io, net_rx, net_tx).total_syscr == io.syscr,
        summary_of(s, child_count, io, net_rx, net_tx).total_syscw == io.syscw,
{
}

/// Growth of a non-empty cumulative column.
fn column_growth(v: &Vec<u64>) -> (r: u64)
    requires
        v@.len() > 0,
    ensures
        r == growth(v@),
{
    v[v.len() - 1].saturating_sub(v[0])
}

impl Summary {
    /// The summary of a run from its samples, the number of child processes
    /// seen, the I/O watermark totals and the network deltas (see
    /// `summary_of`).
    pub fn from_samples(
        samples: &SampleColumns,
        child_count: u32,
        io_totals: &PidIoTotals,
        net_rx: u64,
        net_tx: u64,
    ) -> (r: Self)
        requires
            samples.wf(),
        ensures
            r == summary_of(*samples, child_count, *io_totals, net_rx, net_tx),
    {
        if samples.is_empty() {
            return Self::empty();
        }
        let n = samples.len();
        let total_read_bytes = if io_totals.read_bytes > 0 {
            io_totals.read_bytes
        } else {
            column_growth(&samples.read_bytes)
        };
        let total_write_bytes = if io_totals.write_bytes > 0 {
            io_totals.write_bytes
        } else {
            column_growth(&samples.write_bytes)
        };
        Summary {
            total_utime_ticks: column_growth(&samples.utime_ticks),
            total_stime_ticks: column_growth(&samples.stime_ticks),
            peak_rss_bytes: max_u64_range(&samples.rss_bytes, 0, n),
            initial_rss_bytes: samples.rss_bytes[0],
            final_rss_bytes: samples.rss_bytes[n - 1],
            peak_vsize_bytes: max_u64_range(&samples.vsize_bytes, 0, n),
            total_minflt: column_growth(&samples.minflt),
            total_majflt: column_growth(&samples.majflt),
            total_read_bytes,
            total_write_bytes,
            total_rchar: io_totals.rchar,
            total_wchar: io_totals.wchar,
            total_syscr: io_totals.syscr,
            total_syscw: io_totals.syscw,
            total_net_rx_bytes: net_rx,
            total_net_tx_bytes: net_tx,
            initial_threads: samples.threads[0],
            final_threads: samples.threads[n - 1],
            peak_threads: max_u32_range(&samples.threads, 0, n),
            total_voluntary_ctxt_switches: column_growth(&samples.voluntary_ctxt_switches),
            total_nonvoluntary_ctxt_switches: column_growth(&samples.nonvoluntary_ctxt_switches),
            peak_fd_count: max_u32_range(&samples.fd_count, 0, n),
            final_fd_count: samples.fd_count[n - 1],
            child_processes_spawned: child_count,
        }
    }

    fn empty() -> (r: Self)
        ensures
            r == zero_summary(),
    {
        Summary {
            total_utime_ticks: 0,
            total_stime_ticks: 0,
            peak_rss_bytes: 0,
            initial_rss_bytes: 0,
            final_rss_bytes: 0,
            peak_vsize_bytes: 0,
            total_minflt: 0,
            total_majflt: 0,
            total_read_bytes: 0,
            total_write_bytes: 0,
            total_rchar: 0,
            total_wchar: 0,
            total_syscr: 0,
            total_syscw: 0,
            total_net_rx_bytes: 0,
            total_net_tx_bytes: 0,
            initial_threads: 0,
            final_threads: 0,
            peak_threads: 0,
            total_voluntary_ctxt_switches: 0,
            total_nonvoluntary_ctxt_switches: 0,
            peak_fd_count: 0,
            final_fd_count: 0,
            child_processes_spawned: 0,
        }
    }
}

/// The clock ticks per second of this machine (`procfs::ticks_per_second`,
/// which asks `sysconf(_SC_CLK_TCK)`). Nothing is promised of the value.
#[verifier::external_body]
pub(crate) fn clock_ticks_per_second() -> (r: u64) {
    procfs::ticks_per_second()
}

/// CPU time and utilisation of a run: the user and system times as
/// `Duration::from_secs_f64` makes them from `ticks / ticks_per_second`
/// (whole seconds and nanoseconds), and the utilisation in percent as the
/// binary64 number `(m, x)` of value `m * 2^x`.
pub struct CpuFigures {
    pub user_secs: u64,
    pub user_nanos: u32,
    pub sys_secs: u64,
    pub sys_nanos: u32,
    pub cpu_percent: (u128, i32),
}

/// `ticks as f64 / ticks_per_second as f64`.
pub open spec fn ticks_secs(ticks: nat, tps: nat) -> (nat, int) {
    quot(from_int(ticks), from_int(tps))
}

/// Below `2^64`, which `Duration::from_secs_f64` requires.
pub open spec fn below_2_64(a: (nat, int)) -> bool {
    a.0 == 0 || a.1 < 12
}

/// Utilisation in percent: `(user + system) / wall * 100`, or zero for a
/// zero wall time.
pub open spec fn cpu_percent_of(ut: nat, st: nat, tps: nat, wall_secs: nat, wall_nanos: nat) -> (nat, int) {
    let w = secs_f64(wall_secs, wall_nanos);
    if w.0 == 0 {
        (0, 0)
    } else {
        mul_int(quot(plus(ticks_secs(ut, tps), ticks_secs(st, tps)), w), 100)
    }
}

/// The figures can be made: a clock rate, and both times below `2^64` s.
pub open spec fn figures_defined(ut: nat, st: nat, tps: nat) -> bool {
    tps > 0 && below_2_64(ticks_secs(ut, tps)) && below_2_64(ticks_secs(st, tps))
}

/// `f` holds the figures of `ut` user and `st` system ticks at `tps` ticks
/// per second over the given wall time.
pub open spec fn figures_of(f: CpuFigures, ut: nat, st: nat, tps: nat, wall_secs: nat, wall_nanos: nat) -> bool {
    &&& f.user_secs == nanos_of(ticks_secs(ut, tps)) / 1_000_000_000
    &&& f.user_nanos == nanos_of(ticks_secs(ut, tps)) % 1_000_000_000
    &&& f.sys_secs == nanos_of(ticks_secs(st, tps)) / 1_000_000_000
    &&& f.sys_nanos == nanos_of(ticks_secs(st, tps)) % 1_000_000_000
    &&& (f.cpu_percent.0 as nat, f.cpu_percent.1 as int) == cpu_percent_of(ut, st, tps, wall_secs, wall_nanos)
}

/// Figures that the report can render: nanoseconds below a second and a
/// utilisation that is normalised with a moderate exponent.
pub open spec fn figures_wf(f: CpuFigures) -> bool {
    &&& f.user_nanos < 1_000_000_000
    &&& f.sys_nanos < 1_000_000_000
    &&& is_norm((f.cpu_percent.0 as nat, f.cpu_percent.1 as int))
    &&& -1000 <= f.cpu_percent.1 <= 60
}

impl CpuFigures {
    /// The figures for a summary's CPU ticks at `tps` ticks per second over
    /// the wall time; `None` when they cannot be made (see
    /// `figures_defined`: no clock rate, or a time of `2^64` s or more).
    pub fn from_ticks(summary: &Summary, tps: u64, wall_secs: u64, wall_nanos: u32) -> (r: Option<CpuFigures>)
        requires
            wall_nanos < 1_000_000_000,
        ensures
            r is Some <==> figures_defined(
                summary.total_utime_ticks as nat,
                summary.total_stime_ticks as nat,
                tps as nat,
            ),
            r matches Some(f) ==> figures_of(
                f,
                summary.total_utime_ticks as nat,
                summary.total_stime_ticks as nat,
                tps as nat,
                wall_secs as nat,
                wall_nanos as nat,
            ) && figures_wf(f),
    {
        if tps == 0 {
            return None;
        }
        let t = from_int_exec(tps);
        let u = quot_exec(from_int_exec(summary.total_utime_ticks), t);
        let s = quot_exec(from_int_exec(summary.total_stime_ticks), t);
        if (u.0 != 0 && u.1 >= 12) || (s.0 != 0 && s.1 >= 12) {
            return None;
        }
        let (user_secs, user_nanos) = duration_exec(u);
        let (sys_secs, sys_nanos) = duration_exec(s);
        let w = secs_f64_exec(wall_secs, wall_nanos);
        let cpu_percent = if w.0 == 0 {
            (0u128, 0i32)
        } else {
            let total = plus_exec(u, s);
            mul_int_exec(quot_exec(total, w), 100)
        };
        Some(CpuFigures { user_secs, user_nanos, sys_secs, sys_nanos, cpu_percent })
    }

    /// The figures of a run from its summary and wall time, at this
    /// machine's clock rate (asked only when there are samples; without
    /// any, every figure is zero). `None` when the figures cannot be made
    /// at the rate the machine reports.
    pub fn measure(summary: &Summary, samples: &SampleColumns, wall_secs: u64, wall_nanos: u32) -> (r: Option<CpuFigures>)
        requires
            wall_nanos < 1_000_000_000,
        ensures
            samples.timestamp@.len() == 0 ==> (r matches Some(f) && f.user_secs == 0 && f.user_nanos == 0
                && f.sys_secs == 0 && f.sys_nanos == 0 && f.cpu_percent == (0u128, 0i32)),
            samples.timestamp@.len() != 0 ==> (r matches Some(f) ==> exists|tps: u64|
                figures_defined(
                    summary.total_utime_ticks as nat,
                    summary.total_stime_ticks as nat,
                    tps as nat,
                ) && figures_of(
                    f,
                    summary.total_utime_ticks as nat,
                    summary.total_stime_ticks as nat,
                    tps as nat,
                    wall_secs as nat,
                    wall_nanos as nat,
                )),
            r matches Some(f) ==> figures_wf(f),
    {
        if samples.is_empty() {
            return Some(CpuFigures { user_secs: 0, user_nanos: 0, sys_secs: 0, sys_nanos: 0, cpu_percent: (0, 0) });
        }
        let tps = clock_ticks_per_second();
        CpuFigures::from_ticks(summary, tps, wall_secs, wall_nanos)
    }
}

} // verus!
