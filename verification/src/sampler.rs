//! What the sampling loop computes from what it reads: per-process I/O
//! high watermarks, the aggregation of per-process readings into one
//! sample, and the schedule of the loop.
use vstd::prelude::*;
use std::collections::HashMap;
use crate::metrics::Sample;

verus! {

broadcast use vstd::std_specs::hash::group_hash_axioms;

/// Cumulative I/O counters of one process (from `/proc/[pid]/io`).
#[derive(Clone, Copy)]
pub struct PidIo {
    pub read_bytes: u64,
    pub write_bytes: u64,
    pub rchar: u64,
    pub wchar: u64,
    pub syscr: u64,
    pub syscw: u64,
}

/// Final I/O totals from watermark tracking (survives child exits).
pub struct PidIoTotals {
    pub read_bytes: u64,
    pub write_bytes: u64,
    pub rchar: u64,
    pub wchar: u64,
    pub syscr: u64,
    pub syscw: u64,
}

/// All counters zero.
pub open spec fn zero_io() -> PidIo {
    PidIo { read_bytes: 0, write_bytes: 0, rchar: 0, wchar: 0, syscr: 0, syscw: 0 }
}

pub open spec fn max_u64(a: u64, b: u64) -> u64 {
    if a >= b {
        a
    } else {
        b
    }
}

/// Field-wise maximum of two readings.
pub open spec fn io_max(a: PidIo, b: PidIo) -> PidIo {
    PidIo {
        read_bytes: max_u64(a.read_bytes, b.read_bytes),
        write_bytes: max_u64(a.write_bytes, b.write_bytes),
        rchar: max_u64(a.rchar, b.rchar),
        wchar: max_u64(a.wchar, b.wchar),
        syscr: max_u64(a.syscr, b.syscr),
        syscw: max_u64(a.syscw, b.syscw),
    }
}

/// Field-wise sums, as mathematical integers, of the readings of the
/// processes `ks` (in that order) in `m`.
pub open spec fn io_sum(ks: Seq<i32>, m: Map<i32, PidIo>) -> (int, int, int, int, int, int)
    decreases ks.len(),
{
    if ks.len() == 0 {
        (0, 0, 0, 0, 0, 0)
    } else {
        let r = io_sum(ks.drop_last(), m);
        let p = m[ks.last()];
        (
            r.0 + p.read_bytes,
            r.1 + p.write_bytes,
            r.2 + p.rchar,
            r.3 + p.wchar,
            r.4 + p.syscr,
            r.5 + p.syscw,
        )
    }
}

/// `ks` lists every process of `m` exactly once.
pub open spec fn lists_keys(ks: Seq<i32>, m: Map<i32, PidIo>) -> bool {
    ks.no_duplicates() && ks.to_set() == m.dom()
}

/// Every field sum of `s` fits in a `u64`.
pub open spec fn sum_fits(s: (int, int, int, int, int, int)) -> bool {
    &&& s.0 <= u64::MAX
    &&& s.1 <= u64::MAX
    &&& s.2 <= u64::MAX
    &&& s.3 <= u64::MAX
    &&& s.4 <= u64::MAX
    &&& s.5 <= u64::MAX
}

/// The sums do not depend on the order of the processes: removing one
/// process takes exactly its reading off the sums.
proof fn lemma_io_sum_remove(ks: Seq<i32>, j: int, m: Map<i32, PidIo>)
    requires
        0 <= j < ks.len(),
    ensures
        ({
            let r = io_sum(ks.remove(j), m);
            let p = m[ks[j]];
            io_sum(ks, m) == (
                r.0 + p.read_bytes,
                r.1 + p.write_bytes,
                r.2 + p.rchar,
                r.3 + p.wchar,
                r.4 + p.syscr,
                r.5 + p.syscw,
            )
        }),
    decreases ks.len(),
{
    if j == ks.len() - 1 {
        assert(ks.remove(j) =~= ks.drop_last());
    } else {
        lemma_io_sum_remove(ks.drop_last(), j, m);
        assert(ks.drop_last().remove(j) =~= ks.remove(j).drop_last());
        assert(ks.remove(j).last() == ks.last());
    }
}

/// A prefix of a listing sums to no more than the whole listing.
proof fn lemma_io_sum_prefix(ks: Seq<i32>, i: int, m: Map<i32, PidIo>)
    requires
        0 <= i <= ks.len(),
    ensures
        ({
            let a = io_sum(ks.take(i), m);
            let b = io_sum(ks, m);
            a.0 <= b.0 && a.1 <= b.1 && a.2 <= b.2 && a.3 <= b.3 && a.4 <= b.4 && a.5 <= b.5
        }),
    decreases ks.len(),
{
    if i == ks.len() {
        assert(ks.take(i) =~= ks);
    } else {
        lemma_io_sum_prefix(ks.drop_last(), i, m);
        assert(ks.drop_last().take(i) =~= ks.take(i));
    }
}

/// Any two listings of the same processes give the same sums.
pub(crate) proof fn lemma_io_sum_order_free(a: Seq<i32>, b: Seq<i32>, m: Map<i32, PidIo>)
    requires
        a.no_duplicates(),
        b.no_duplicates(),
        a.to_set() == b.to_set(),
    ensures
        io_sum(a, m) == io_sum(b, m),
    decreases a.len(),
{
    if a.len() == 0 {
        if b.len() > 0 {
            assert(b.to_set().contains(b[0]));
            assert(!a.to_set().contains(b[0]));
        }
        assert(b =~= Seq::<i32>::empty());
    } else {
        let x = a.last();
        assert(a.to_set().contains(x));
        assert(b.to_set().contains(x));
        let j = choose|j: int| 0 <= j < b.len() && b[j] == x;
        let a2 = a.drop_last();
        let b2 = b.remove(j);
        assert(a2.to_set() =~= b2.to_set()) by {
            assert forall|y: i32| a2.to_set().contains(y) implies b2.to_set().contains(y) by {
                let i = choose|i: int| 0 <= i < a2.len() && a2[i] == y;
                assert(a[i] == y);
                assert(y != x);
                assert(a.to_set().contains(y));
                let k = choose|k: int| 0 <= k < b.len() && b[k] == y;
                assert(k != j);
                if k < j {
                    assert(b2[k] == y);
                } else {
                    assert(b2[k - 1] == y);
                }
            }
            assert forall|y: i32| b2.to_set().contains(y) implies a2.to_set().contains(y) by {
                let i = choose|i: int| 0 <= i < b2.len() && b2[i] == y;
                let k = if i < j {
                    i
                } else {
                    i + 1
                };
                assert(b[k] == y);
                assert(k != j);
                assert(y != x);
                assert(b.to_set().contains(y));
                let t = choose|t: int| 0 <= t < a.len() && a[t] == y;
                assert(t != a.len() - 1);
                assert(a2[t] == y);
            }
        }
        assert(b2.no_duplicates()) by {
            assert forall|p: int, q: int| 0 <= p < b2.len() && 0 <= q < b2.len() && p != q implies b2[p]
                != b2[q] by {
                let pp = if p < j {
                    p
                } else {
                    p + 1
                };
                let qq = if q < j {
                    q
                } else {
                    q + 1
                };
                assert(b2[p] == b[pp]);
                assert(b2[q] == b[qq]);
            }
        }
        lemma_io_sum_order_free(a2, b2, m);
        lemma_io_sum_remove(b, j, m);
    }
}

/// Per-process I/O high watermarks — tracks the max cumulative values seen
/// for each PID so we don't lose data when children exit.
pub struct IoWatermarks {
    pub per_pid: HashMap<i32, PidIo>,
}

impl IoWatermarks {
    /// No process seen yet.
    pub fn new() -> (r: Self)
        ensures
            r.per_pid@ == Map::<i32, PidIo>::empty(),
    {
        IoWatermarks { per_pid: HashMap::new() }
    }

    /// Sum of high watermarks across all PIDs ever seen, whatever order the
    /// processes are visited in.
    pub fn totals(&self) -> (t: PidIo)
        requires
            forall|ks: Seq<i32>| lists_keys(ks, self.per_pid@) ==> sum_fits(#[trigger] io_sum(ks, self.per_pid@)),
        ensures
            forall|ks: Seq<i32>|
                lists_keys(ks, self.per_pid@) ==> #[trigger] io_sum(ks, self.per_pid@) == (
                    t.read_bytes as int,
                    t.write_bytes as int,
                    t.rchar as int,
                    t.wchar as int,
                    t.syscr as int,
                    t.syscw as int,
                ),
    {
        let ghost m = self.per_pid@;
        let mut t = PidIo { read_bytes: 0, write_bytes: 0, rchar: 0, wchar: 0, syscr: 0, syscw: 0 };
        let ghost mut seen: Seq<i32> = Seq::empty();
        for k in it: self.per_pid.keys()
            invariant
                m == self.per_pid@,
                forall|ks: Seq<i32>| lists_keys(ks, m) ==> sum_fits(#[trigger] io_sum(ks, m)),
                it.seq().unref().to_set() == m.dom(),
                it.seq().unref().no_duplicates(),
                seen == it.seq().unref().take(it.index() as int),
                it.index() == it.seq().len() ==> seen == it.seq().unref(),
                io_sum(seen, m) == (
                    t.read_bytes as int,
                    t.write_bytes as int,
                    t.rchar as int,
                    t.wchar as int,
                    t.syscr as int,
                    t.syscw as int,
                ),
        {
            let ghost idx = it.index() as int;
            let ghost full = it.seq().unref();
            proof {
                assert(full[idx] == *k);
                assert(full.to_set().contains(*k));
                assert(seen.push(*k) =~= full.take(idx + 1));
                assert(seen.push(*k).drop_last() =~= seen);
                assert(lists_keys(full, m));
                lemma_io_sum_prefix(full, idx + 1, m);
                assert(full.take(full.len() as int) =~= full);
            }
            let p = match self.per_pid.get(k) {
                Some(v) => *v,
                None => PidIo { read_bytes: 0, write_bytes: 0, rchar: 0, wchar: 0, syscr: 0, syscw: 0 },
            };
            assert(p == m[*k]);
            t.read_bytes = t.read_bytes + p.read_bytes;
            t.write_bytes = t.write_bytes + p.write_bytes;
            t.rchar = t.rchar + p.rchar;
            t.wchar = t.wchar + p.wchar;
            t.syscr = t.syscr + p.syscr;
            t.syscw = t.syscw + p.syscw;
            proof {
                seen = seen.push(*k);
            }
        }
        proof {
            assert forall|ks: Seq<i32>| lists_keys(ks, m) implies #[trigger] io_sum(ks, m) == io_sum(seen, m) by {
                lemma_io_sum_order_free(ks, seen, m);
            }
        }
        t
    }

    /// Whether the sums of the watermarks fit their fields: the test to make
    /// before `totals`.
    pub fn totals_fit(&self) -> (r: bool)
        ensures
            r == forall|ks: Seq<i32>|
                lists_keys(ks, self.per_pid@) ==> sum_fits(#[trigger] io_sum(ks, self.per_pid@)),
    {
        let ghost m = self.per_pid@;
        let mut ok = true;
        let mut a0: u128 = 0;
        let mut a1: u128 = 0;
        let mut a2: u128 = 0;
        let mut a3: u128 = 0;
        let mut a4: u128 = 0;
        let mut a5: u128 = 0;
        let ghost mut seen: Seq<i32> = Seq::empty();
        for k in it: self.per_pid.keys()
            invariant
                m == self.per_pid@,
                it.seq().unref().to_set() == m.dom(),
                it.seq().unref().no_duplicates(),
                seen == it.seq().unref().take(it.index() as int),
                it.index() == it.seq().len() ==> seen == it.seq().unref(),
                ok ==> io_sum(seen, m) == (
                    a0 as int,
                    a1 as int,
                    a2 as int,
                    a3 as int,
                    a4 as int,
                    a5 as int,
                ),
                ok ==> sum_fits(io_sum(seen, m)),
                !ok ==> !sum_fits(io_sum(it.seq().unref(), m)),
        {
            let ghost idx = it.index() as int;
            let ghost full = it.seq().unref();
            proof {
                assert(full[idx] == *k);
                assert(full.to_set().contains(*k));
                assert(seen.push(*k) =~= full.take(idx + 1));
                assert(seen.push(*k).drop_last() =~= seen);
                lemma_io_sum_prefix(full, idx + 1, m);
                assert(full.take(full.len() as int) =~= full);
            }
            if ok {
                let p = match self.per_pid.get(k) {
                    Some(v) => *v,
                    None => PidIo { read_bytes: 0, write_bytes: 0, rchar: 0, wchar: 0, syscr: 0, syscw: 0 },
                };
                assert(p == m[*k]);
                a0 = a0 + p.read_bytes as u128;
                a1 = a1 + p.write_bytes as u128;
                a2 = a2 + p.rchar as u128;
                a3 = a3 + p.wchar as u128;
                a4 = a4 + p.syscr as u128;
                a5 = a5 + p.syscw as u128;
                if a0 > 0xffff_ffff_ffff_ffff || a1 > 0xffff_ffff_ffff_ffff || a2 > 0xffff_ffff_ffff_ffff
                    || a3 > 0xffff_ffff_ffff_ffff || a4 > 0xffff_ffff_ffff_ffff || a5
                    > 0xffff_ffff_ffff_ffff {
                    ok = false;
                }
            }
            proof {
                seen = seen.push(*k);
            }
        }
        proof {
            if ok {
                assert forall|ks: Seq<i32>| lists_keys(ks, m) implies sum_fits(#[trigger] io_sum(ks, m)) by {
                    lemma_io_sum_order_free(ks, seen, m);
                }
            } else {
                assert(lists_keys(seen, m));
            }
        }
        ok
    }

    /// Raises the watermarks of `pid` to the new reading, field by field.
    pub fn update(&mut self, pid: i32, io: &PidIo)
        ensures
            final(self).per_pid@ == old(self).per_pid@.insert(
                pid,
                io_max(
                    if old(self).per_pid@.contains_key(pid) {
                        old(self).per_pid@[pid]
                    } else {
                        zero_io()
                    },
                    *io,
                ),
            ),
    {
        let cur = match self.per_pid.get(&pid) {
            Some(e) => *e,
            None => PidIo { read_bytes: 0, write_bytes: 0, rchar: 0, wchar: 0, syscr: 0, syscw: 0 },
        };
        let merged = PidIo {
            read_bytes: if cur.read_bytes >= io.read_bytes {
                cur.read_bytes
            } else {
                io.read_bytes
            },
            write_bytes: if cur.write_bytes >= io.write_bytes {
                cur.write_bytes
            } else {
                io.write_bytes
            },
            rchar: if cur.rchar >= io.rchar {
                cur.rchar
            } else {
                io.rchar
            },
            wchar: if cur.wchar >= io.wchar {
                cur.wchar
            } else {
                io.wchar
            },
            syscr: if cur.syscr >= io.syscr {
                cur.syscr
            } else {
                io.syscr
            },
            syscw: if cur.syscw >= io.syscw {
                cur.syscw
            } else {
                io.syscw
            },
        };
        self.per_pid.insert(pid, merged);
    }
}

/// What `/proc/[pid]/stat` reports of one process (sizes in pages for
/// `rss`, bytes for `vsize`, CPU time in clock ticks).
#[derive(Clone, Copy)]
pub struct PidStat {
    pub rss: u64,
    pub vsize: u64,
    pub utime: u64,
    pub stime: u64,
    pub minflt: u64,
    pub majflt: u64,
    pub num_threads: i64,
}

/// One process's readings in a sampling round; `None` where a read failed.
#[derive(Clone, Copy)]
pub struct PidReading {
    pub pid: i32,
    pub stat: Option<PidStat>,
    pub io: Option<PidIo>,
}

/// The slower-changing figures and the clock that go into a sample.
#[derive(Clone, Copy)]
pub struct SampleCtx {
    /// Nanoseconds since sampling started.
    pub timestamp: u64,
    pub vol_cs: u64,
    pub nonvol_cs: u64,
    pub fd_count: u32,
    /// Bytes per memory page.
    pub page_size: u64,
    /// Namespace-wide received / sent bytes now, and at the start.
    pub net_rx: u64,
    pub net_tx: u64,
    pub net_baseline_rx: u64,
    pub net_baseline_tx: u64,
}

/// Sums over the processes whose stat could be read: resident bytes,
/// virtual bytes, user ticks, system ticks, minor and major faults, and
/// threads (each count taken as a `u32`).
pub open spec fn stat_totals(rs: Seq<PidReading>, page: u64) -> (int, int, int, int, int, int, int)
    decreases rs.len(),
{
    if rs.len() == 0 {
        (0, 0, 0, 0, 0, 0, 0)
    } else {
        let t = stat_totals(rs.drop_last(), page);
        match rs.last().stat {
            Some(st) => (
                t.0 + st.rss * page,
                t.1 + st.vsize,
                t.2 + st.utime,
                t.3 + st.stime,
                t.4 + st.minflt,
                t.5 + st.majflt,
                t.6 + (st.num_threads as u32),
            ),
            None => t,
        }
    }
}

/// Sums of the I/O counters over the processes whose I/O could be read.
pub open spec fn reading_io_totals(rs: Seq<PidReading>) -> (int, int, int, int, int, int)
    decreases rs.len(),
{
    if rs.len() == 0 {
        (0, 0, 0, 0, 0, 0)
    } else {
        let t = reading_io_totals(rs.drop_last());
        match rs.last().io {
            Some(p) => (
                t.0 + p.read_bytes,
                t.1 + p.write_bytes,
                t.2 + p.rchar,
                t.3 + p.wchar,
                t.4 + p.syscr,
                t.5 + p.syscw,
            ),
            None => t,
        }
    }
}

/// The watermarks after recording every I/O reading of `rs`, in order.
pub open spec fn watermarks_after(m: Map<i32, PidIo>, rs: Seq<PidReading>) -> Map<i32, PidIo>
    decreases rs.len(),
{
    if rs.len() == 0 {
        m
    } else {
        let w = watermarks_after(m, rs.drop_last());
        let r = rs.last();
        match r.io {
            Some(p) => w.insert(
                r.pid,
                io_max(
                    if w.contains_key(r.pid) {
                        w[r.pid]
                    } else {
                        zero_io()
                    },
                    p,
                ),
            ),
            None => w,
        }
    }
}

/// Every counter of `a` is at least the same counter of `b`.
pub open spec fn io_covers(a: PidIo, b: PidIo) -> bool {
    &&& a.read_bytes >= b.read_bytes
    &&& a.write_bytes >= b.write_bytes
    &&& a.rchar >= b.rchar
    &&& a.wchar >= b.wchar
    &&& a.syscr >= b.syscr
    &&& a.syscw >= b.syscw
}

/// Watermarks survive child exits: after any rounds of readings, every
/// process ever recorded still has a watermark, none went down, and each
/// covers every reading recorded for its process.
pub proof fn law_watermarks_never_drop(m: Map<i32, PidIo>, rs: Seq<PidReading>)
    ensures
        forall|pid: i32|
            #[trigger] m.contains_key(pid) ==> watermarks_after(m, rs).contains_key(pid) && io_covers(
                watermarks_after(m, rs)[pid],
                m[pid],
            ),
        forall|i: int|
            0 <= i < rs.len() && (#[trigger] rs[i]).io is Some ==> watermarks_after(m, rs).contains_key(
                rs[i].pid,
            ) && io_covers(watermarks_after(m, rs)[rs[i].pid], rs[i].io->0),
    decreases rs.len(),
{
    if rs.len() > 0 {
        let rs0 = rs.drop_last();
        law_watermarks_never_drop(m, rs0);
        let w0 = watermarks_after(m, rs0);
        let w = watermarks_after(m, rs);
        let r = rs.last();
        assert forall|pid: i32| #[trigger] m.contains_key(pid) implies w.contains_key(pid) && io_covers(
            w[pid],
            m[pid],
        ) by {
            assert(w0.contains_key(pid));
        }
        assert forall|i: int| 0 <= i < rs.len() && (#[trigger] rs[i]).io is Some implies w.contains_key(
            rs[i].pid,
        ) && io_covers(w[rs[i].pid], rs[i].io->0) by {
            if i < rs.len() - 1 {
                assert(rs0[i] == rs[i]);
                assert(w0.contains_key(rs[i].pid));
            }
        }
    }
}

/// Some process's stat could be read.
pub open spec fn any_stat(rs: Seq<PidReading>) -> bool {
    exists|i: int| 0 <= i < rs.len() && (#[trigger] rs[i]).stat is Some
}

/// The totals of a sampling round fit their fields.
pub open spec fn round_fits(rs: Seq<PidReading>, page: u64) -> bool {
    let t = stat_totals(rs, page);
    let o = reading_io_totals(rs);
    &&& t.0 <= u64::MAX && t.1 <= u64::MAX && t.2 <= u64::MAX && t.3 <= u64::MAX
    &&& t.4 <= u64::MAX && t.5 <= u64::MAX && t.6 <= u32::MAX
    &&& sum_fits(o)
}

/// The sample of a round: the stat and I/O sums, the given slower figures,
/// and the network counters as growth over their baseline (0 if they went
/// down).
pub open spec fn sample_from(rs: Seq<PidReading>, ctx: SampleCtx) -> Sample {
    let t = stat_totals(rs, ctx.page_size);
    let o = reading_io_totals(rs);
    Sample {
        timestamp: ctx.timestamp,
        rss_bytes: t.0 as u64,
        vsize_bytes: t.1 as u64,
        utime_ticks: t.2 as u64,
        stime_ticks: t.3 as u64,
        minflt: t.4 as u64,
        majflt: t.5 as u64,
        threads: t.6 as u32,
        voluntary_ctxt_switches: ctx.vol_cs,
        nonvoluntary_ctxt_switches: ctx.nonvol_cs,
        read_bytes: o.0 as u64,
        write_bytes: o.1 as u64,
        rchar: o.2 as u64,
        wchar: o.3 as u64,
        syscr: o.4 as u64,
        syscw: o.5 as u64,
        net_rx_bytes: if ctx.net_rx >= ctx.net_baseline_rx {
            (ctx.net_rx - ctx.net_baseline_rx) as u64
        } else {
            0
        },
        net_tx_bytes: if ctx.net_tx >= ctx.net_baseline_tx {
            (ctx.net_tx - ctx.net_baseline_tx) as u64
        } else {
            0
        },
        fd_count: ctx.fd_count,
    }
}

proof fn lemma_totals_prefix(rs: Seq<PidReading>, i: int, page: u64)
    requires
        0 <= i <= rs.len(),
    ensures
        ({
            let a = stat_totals(rs.take(i), page);
            let b = stat_totals(rs, page);
            a.0 <= b.0 && a.1 <= b.1 && a.2 <= b.2 && a.3 <= b.3 && a.4 <= b.4 && a.5 <= b.5 && a.6
                <= b.6
        }),
        ({
            let a = reading_io_totals(rs.take(i));
            let b = reading_io_totals(rs);
            a.0 <= b.0 && a.1 <= b.1 && a.2 <= b.2 && a.3 <= b.3 && a.4 <= b.4 && a.5 <= b.5
        }),
    decreases rs.len(),
{
    if i == rs.len() {
        assert(rs.take(i) =~= rs);
    } else {
        lemma_totals_prefix(rs.drop_last(), i, page);
        assert(rs.drop_last().take(i) =~= rs.take(i));
        match rs.last().stat {
            Some(st) => {
                assert(st.rss * page >= 0) by (nonlinear_arith);
            },
            None => {},
        }
    }
}

/// Sums the readings of one sampling round into a sample, raising the I/O
/// watermarks of every process whose I/O was read. `None` when no process's
/// stat could be read.
pub fn collect_sample(readings: &Vec<PidReading>, ctx: &SampleCtx, io_watermarks: &mut IoWatermarks) -> (r:
    Option<Sample>)
    requires
        round_fits(readings@, ctx.page_size),
    ensures
        final(io_watermarks).per_pid@ == watermarks_after(old(io_watermarks).per_pid@, readings@),
        r == if any_stat(readings@) {
            Some(sample_from(readings@, *ctx))
        } else {
            None::<Sample>
        },
{
    let ghost rs = readings@;
    let ghost m0 = io_watermarks.per_pid@;
    let page = ctx.page_size;
    let mut rss_bytes: u64 = 0;
    let mut vsize_bytes: u64 = 0;
    let mut utime_ticks: u64 = 0;
    let mut stime_ticks: u64 = 0;
    let mut minflt: u64 = 0;
    let mut majflt: u64 = 0;
    let mut threads: u32 = 0;
    let mut read_bytes: u64 = 0;
    let mut write_bytes: u64 = 0;
    let mut rchar: u64 = 0;
    let mut wchar: u64 = 0;
    let mut syscr: u64 = 0;
    let mut syscw: u64 = 0;
    let mut any_success = false;
    let n = readings.len();
    let mut i: usize = 0;
    while i < n
        invariant
            n == rs.len(),
            rs == readings@,
            page == ctx.page_size,
            i <= n,
            round_fits(rs, page),
            io_watermarks.per_pid@ == watermarks_after(m0, rs.take(i as int)),
            any_success == any_stat(rs.take(i as int)),
            stat_totals(rs.take(i as int), page) == (
                rss_bytes as int,
                vsize_bytes as int,
                utime_ticks as int,
                stime_ticks as int,
                minflt as int,
                majflt as int,
                threads as int,
            ),
            reading_io_totals(rs.take(i as int)) == (
                read_bytes as int,
                write_bytes as int,
                rchar as int,
                wchar as int,
                syscr as int,
                syscw as int,
            ),
        decreases n - i,
    {
        let r = readings[i];
        proof {
            assert(rs.take(i + 1).drop_last() =~= rs.take(i as int));
            assert(rs.take(i + 1).last() == r);
            lemma_totals_prefix(rs, i + 1, page);
        }
        match r.stat {
            Some(st) => {
                proof {
                    assert(st.rss * page <= u64::MAX) by (nonlinear_arith)
                        requires
                            rss_bytes + st.rss * page <= u64::MAX,
                            rss_bytes >= 0,
                    ;
                }
                rss_bytes = rss_bytes + st.rss * page;
                vsize_bytes = vsize_bytes + st.vsize;
                utime_ticks = utime_ticks + st.utime;
                stime_ticks = stime_ticks + st.stime;
                minflt = minflt + st.minflt;
                majflt = majflt + st.majflt;
                threads = threads + st.num_threads as u32;
                any_success = true;
            },
            None => {},
        }
        match r.io {
            Some(p) => {
                io_watermarks.update(r.pid, &p);
                read_bytes = read_bytes + p.read_bytes;
                write_bytes = write_bytes + p.write_bytes;
                rchar = rchar + p.rchar;
                wchar = wchar + p.wchar;
                syscr = syscr + p.syscr;
                syscw = syscw + p.syscw;
            },
            None => {},
        }
        proof {
            let t = rs.take(i + 1);
            if any_stat(t) && !any_stat(rs.take(i as int)) {
                let k = choose|k: int| 0 <= k < t.len() && (#[trigger] t[k]).stat is Some;
                if k < i {
                    assert(rs.take(i as int)[k] == t[k]);
                }
            }
            if r.stat is Some {
                assert(t[i as int] == r);
            }
        }
        i = i + 1;
    }
    proof {
        assert(rs.take(n as int) =~= rs);
    }
    if !any_success {
        return None;
    }
    Some(Sample {
        timestamp: ctx.timestamp,
        rss_bytes,
        vsize_bytes,
        utime_ticks,
        stime_ticks,
        minflt,
        majflt,
        threads,
        voluntary_ctxt_switches: ctx.vol_cs,
        nonvoluntary_ctxt_switches: ctx.nonvol_cs,
        read_bytes,
        write_bytes,
        rchar,
        wchar,
        syscr,
        syscw,
        net_rx_bytes: ctx.net_rx.saturating_sub(ctx.net_baseline_rx),
        net_tx_bytes: ctx.net_tx.saturating_sub(ctx.net_baseline_tx),
        fd_count: ctx.fd_count,
    })
}

/// Whether the sums of a round fit their fields (see `round_fits`): the
/// test to make before `collect_sample`.
pub fn round_fits_check(readings: &Vec<PidReading>, page_size: u64) -> (r: bool)
    ensures
        r == round_fits(readings@, page_size),
{
    let ghost rs = readings@;
    let page = page_size;
    let mut t0: u128 = 0;
    let mut t1: u128 = 0;
    let mut t2: u128 = 0;
    let mut t3: u128 = 0;
    let mut t4: u128 = 0;
    let mut t5: u128 = 0;
    let mut t6: u128 = 0;
    let mut o0: u128 = 0;
    let mut o1: u128 = 0;
    let mut o2: u128 = 0;
    let mut o3: u128 = 0;
    let mut o4: u128 = 0;
    let mut o5: u128 = 0;
    let n = readings.len();
    let mut i: usize = 0;
    while i < n
        invariant
            n == rs.len(),
            rs == readings@,
            page == page_size,
            i <= n,
            stat_totals(rs.take(i as int), page) == (
                t0 as int,
                t1 as int,
                t2 as int,
                t3 as int,
                t4 as int,
                t5 as int,
                t6 as int,
            ),
            reading_io_totals(rs.take(i as int)) == (
                o0 as int,
                o1 as int,
                o2 as int,
                o3 as int,
                o4 as int,
                o5 as int,
            ),
            t0 <= u64::MAX && t1 <= u64::MAX && t2 <= u64::MAX && t3 <= u64::MAX,
            t4 <= u64::MAX && t5 <= u64::MAX && t6 <= u32::MAX,
            o0 <= u64::MAX && o1 <= u64::MAX && o2 <= u64::MAX,
            o3 <= u64::MAX && o4 <= u64::MAX && o5 <= u64::MAX,
        decreases n - i,
    {
        let r = readings[i];
        proof {
            assert(rs.take(i + 1).drop_last() =~= rs.take(i as int));
            assert(rs.take(i + 1).last() == r);
        }
        match r.stat {
            Some(st) => {
                let a = st.rss as u128;
                let b = page as u128;
                assert(a * b <= 0xffff_ffff_ffff_ffff * 0xffff_ffff_ffff_ffff) by (nonlinear_arith)
                    requires
                        a <= 0xffff_ffff_ffff_ffff,
                        b <= 0xffff_ffff_ffff_ffff,
                ;
                t0 = t0 + a * b;
                t1 = t1 + st.vsize as u128;
                t2 = t2 + st.utime as u128;
                t3 = t3 + st.stime as u128;
                t4 = t4 + st.minflt as u128;
                t5 = t5 + st.majflt as u128;
                t6 = t6 + (st.num_threads as u32) as u128;
            },
            None => {},
        }
        match r.io {
            Some(p) => {
                o0 = o0 + p.read_bytes as u128;
                o1 = o1 + p.write_bytes as u128;
                o2 = o2 + p.rchar as u128;
                o3 = o3 + p.wchar as u128;
                o4 = o4 + p.syscr as u128;
                o5 = o5 + p.syscw as u128;
            },
            None => {},
        }
        if t0 > 0xffff_ffff_ffff_ffff || t1 > 0xffff_ffff_ffff_ffff || t2 > 0xffff_ffff_ffff_ffff
            || t3 > 0xffff_ffff_ffff_ffff || t4 > 0xffff_ffff_ffff_ffff || t5 > 0xffff_ffff_ffff_ffff
            || t6 > 0xffff_ffff || o0 > 0xffff_ffff_ffff_ffff || o1 > 0xffff_ffff_ffff_ffff
            || o2 > 0xffff_ffff_ffff_ffff || o3 > 0xffff_ffff_ffff_ffff || o4 > 0xffff_ffff_ffff_ffff
            || o5 > 0xffff_ffff_ffff_ffff {
            proof {
                lemma_totals_prefix(rs, i + 1, page);
            }
            return false;
        }
        i = i + 1;
    }
    assert(rs.take(n as int) =~= rs);
    true
}

/// Context-switch counters of one process (`/proc/[pid]/status`); a field
/// the kernel did not report is `None`.
#[derive(Clone, Copy)]
pub struct CtxSwitches {
    pub voluntary: Option<u64>,
    pub nonvoluntary: Option<u64>,
}

pub open spec fn or_zero(v: Option<u64>) -> int {
    match v {
        Some(x) => x as int,
        None => 0,
    }
}

/// Sums of voluntary and involuntary switches over the processes whose
/// status could be read (a missing counter counts as 0).
pub open spec fn switch_totals(st: Seq<Option<CtxSwitches>>) -> (int, int)
    decreases st.len(),
{
    if st.len() == 0 {
        (0, 0)
    } else {
        let t = switch_totals(st.drop_last());
        match st.last() {
            Some(c) => (t.0 + or_zero(c.voluntary), t.1 + or_zero(c.nonvoluntary)),
            None => t,
        }
    }
}

proof fn lemma_switch_totals_prefix(st: Seq<Option<CtxSwitches>>, i: int)
    requires
        0 <= i <= st.len(),
    ensures
        switch_totals(st.take(i)).0 <= switch_totals(st).0,
        switch_totals(st.take(i)).1 <= switch_totals(st).1,
    decreases st.len(),
{
    if i == st.len() {
        assert(st.take(i) =~= st);
    } else {
        lemma_switch_totals_prefix(st.drop_last(), i);
        assert(st.drop_last().take(i) =~= st.take(i));
    }
}

/// Voluntary and involuntary context switches summed over the processes
/// whose status could be read; `None` when none could.
pub fn sum_context_switches(statuses: &Vec<Option<CtxSwitches>>) -> (r: Option<(u64, u64)>)
    requires
        switch_totals(statuses@).0 <= u64::MAX,
        switch_totals(statuses@).1 <= u64::MAX,
    ensures
        r == if exists|i: int| 0 <= i < statuses@.len() && (#[trigger] statuses@[i]) is Some {
            Some((switch_totals(statuses@).0 as u64, switch_totals(statuses@).1 as u64))
        } else {
            None::<(u64, u64)>
        },
{
    let ghost st = statuses@;
    let mut vol: u64 = 0;
    let mut nonvol: u64 = 0;
    let mut any = false;
    let n = statuses.len();
    let mut i: usize = 0;
    while i < n
        invariant
            n == st.len(),
            st == statuses@,
            i <= n,
            switch_totals(st).0 <= u64::MAX,
            switch_totals(st).1 <= u64::MAX,
            switch_totals(st.take(i as int)) == (vol as int, nonvol as int),
            any == exists|k: int| 0 <= k < i && (#[trigger] st[k]) is Some,
        decreases n - i,
    {
        proof {
            assert(st.take(i + 1).drop_last() =~= st.take(i as int));
            lemma_switch_totals_prefix(st, i + 1);
        }
        match statuses[i] {
            Some(c) => {
                let v = match c.voluntary {
                    Some(x) => x,
                    None => 0,
                };
                let nv = match c.nonvoluntary {
                    Some(x) => x,
                    None => 0,
                };
                vol = vol + v;
                nonvol = nonvol + nv;
                any = true;
            },
            None => {},
        }
        i = i + 1;
    }
    assert(st.take(n as int) =~= st);
    if any {
        Some((vol, nonvol))
    } else {
        None
    }
}

/// Whether both sums of `switch_totals` fit a `u64`: the test to make
/// before `sum_context_switches`.
pub fn switches_fit(statuses: &Vec<Option<CtxSwitches>>) -> (r: bool)
    ensures
        r == (switch_totals(statuses@).0 <= u64::MAX && switch_totals(statuses@).1 <= u64::MAX),
{
    let ghost st = statuses@;
    let mut vol: u128 = 0;
    let mut nonvol: u128 = 0;
    let n = statuses.len();
    let mut i: usize = 0;
    while i < n
        invariant
            n == st.len(),
            st == statuses@,
            i <= n,
            switch_totals(st.take(i as int)) == (vol as int, nonvol as int),
            vol <= u64::MAX,
            nonvol <= u64::MAX,
        decreases n - i,
    {
        proof {
            assert(st.take(i + 1).drop_last() =~= st.take(i as int));
        }
        match statuses[i] {
            Some(c) => {
                match c.voluntary {
                    Some(x) => {
                        vol = vol + x as u128;
                    },
                    None => {},
                }
                match c.nonvoluntary {
                    Some(x) => {
                        nonvol = nonvol + x as u128;
                    },
                    None => {},
                }
            },
            None => {},
        }
        if vol > 0xffff_ffff_ffff_ffff || nonvol > 0xffff_ffff_ffff_ffff {
            proof {
                lemma_switch_totals_prefix(st, i + 1);
            }
            return false;
        }
        i = i + 1;
    }
    assert(st.take(n as int) =~= st);
    true
}

/// Open file descriptors summed over the processes whose count could be
/// read, each count taken as a `u32`.
pub open spec fn fd_total(counts: Seq<Option<usize>>) -> int
    decreases counts.len(),
{
    if counts.len() == 0 {
        0
    } else {
        fd_total(counts.drop_last()) + match counts.last() {
            Some(c) => (c as u32) as int,
            None => 0,
        }
    }
}

proof fn lemma_fd_total_prefix(c: Seq<Option<usize>>, i: int)
    requires
        0 <= i <= c.len(),
    ensures
        fd_total(c.take(i)) <= fd_total(c),
    decreases c.len(),
{
    if i == c.len() {
        assert(c.take(i) =~= c);
    } else {
        lemma_fd_total_prefix(c.drop_last(), i);
        assert(c.drop_last().take(i) =~= c.take(i));
    }
}

/// Total open file descriptors over the processes whose count could be read.
pub fn count_fds(counts: &Vec<Option<usize>>) -> (total: u32)
    requires
        fd_total(counts@) <= u32::MAX,
    ensures
        total == fd_total(counts@),
{
    let ghost c = counts@;
    let mut total: u32 = 0;
    let n = counts.len();
    let mut i: usize = 0;
    while i < n
        invariant
            n == c.len(),
            c == counts@,
            i <= n,
            fd_total(c) <= u32::MAX,
            fd_total(c.take(i as int)) == total,
        decreases n - i,
    {
        proof {
            assert(c.take(i + 1).drop_last() =~= c.take(i as int));
            lemma_fd_total_prefix(c, i + 1);
        }
        match counts[i] {
            Some(k) => {
                total = total + k as u32;
            },
            None => {},
        }
        i = i + 1;
    }
    assert(c.take(n as int) =~= c);
    total
}

/// Whether `fd_total` fits a `u32`: the test to make before `count_fds`.
pub fn fds_fit(counts: &Vec<Option<usize>>) -> (r: bool)
    ensures
        r == (fd_total(counts@) <= u32::MAX),
{
    let ghost c = counts@;
    let mut total: u64 = 0;
    let n = counts.len();
    let mut i: usize = 0;
    while i < n
        invariant
            n == c.len(),
            c == counts@,
            i <= n,
            fd_total(c.take(i as int)) == total,
            total <= u32::MAX,
        decreases n - i,
    {
        proof {
            assert(c.take(i + 1).drop_last() =~= c.take(i as int));
        }
        match counts[i] {
            Some(k) => {
                total = total + (k as u32) as u64;
            },
            None => {},
        }
        if total > 0xffff_ffff {
            proof {
                lemma_fd_total_prefix(c, i + 1);
            }
            return false;
        }
        i = i + 1;
    }
    assert(c.take(n as int) =~= c);
    true
}

/// Ten milliseconds, in nanoseconds: the pause during the first second.
pub const FAST_INTERVAL_NS: u64 = 10_000_000;
/// One second, in nanoseconds.
pub const SECOND_NS: u64 = 1_000_000_000;
/// How often context switches are read, in nanoseconds.
pub const CTX_PERIOD_NS: u64 = 250_000_000;

/// The pause before the next sample: 10 ms during the first second, then
/// the configured interval.
pub fn sampling_interval(elapsed_ns: u64, base_interval_ns: u64) -> (r: u64)
    ensures
        r == if elapsed_ns < SECOND_NS {
            FAST_INTERVAL_NS
        } else {
            base_interval_ns
        },
{
    if elapsed_ns < SECOND_NS {
        FAST_INTERVAL_NS
    } else {
        base_interval_ns
    }
}

/// Whether a reading last taken at `last_ns` (never, when `None`) is due
/// again at `now_ns`, `period_ns` after it.
pub open spec fn due(last_ns: Option<u64>, now_ns: u64, period_ns: u64) -> bool {
    match last_ns {
        None => true,
        Some(t) => now_ns >= t && now_ns - t >= period_ns,
    }
}

/// When the slower readings were last taken, in nanoseconds since sampling
/// started: context switches every 250 ms, file descriptors every second.
pub struct SamplerSchedule {
    pub last_ctx_ns: Option<u64>,
    pub last_fd_ns: Option<u64>,
}

/// What one round of the sampling loop reads besides stat and I/O.
pub struct RoundPlan {
    pub read_ctx_switches: bool,
    pub read_fds: bool,
    pub sleep_ns: u64,
}

impl SamplerSchedule {
    /// Nothing read yet: both readings are due at once.
    pub fn new() -> (r: Self)
        ensures
            r.last_ctx_ns is None,
            r.last_fd_ns is None,
    {
        SamplerSchedule { last_ctx_ns: None, last_fd_ns: None }
    }

    /// The plan of the round at `now_ns`.
    pub fn plan(&self, now_ns: u64, base_interval_ns: u64) -> (p: RoundPlan)
        ensures
            p.read_ctx_switches == due(self.last_ctx_ns, now_ns, CTX_PERIOD_NS),
            p.read_fds == due(self.last_fd_ns, now_ns, SECOND_NS),
            p.sleep_ns == if now_ns < SECOND_NS {
                FAST_INTERVAL_NS
            } else {
                base_interval_ns
            },
    {
        let read_ctx_switches = match self.last_ctx_ns {
            None => true,
            Some(t) => now_ns >= t && now_ns - t >= CTX_PERIOD_NS,
        };
        let read_fds = match self.last_fd_ns {
            None => true,
            Some(t) => now_ns >= t && now_ns - t >= SECOND_NS,
        };
        RoundPlan { read_ctx_switches, read_fds, sleep_ns: sampling_interval(now_ns, base_interval_ns) }
    }

    /// Records that the context switches were read at `now_ns`.
    pub fn ctx_switches_read(&mut self, now_ns: u64)
        ensures
            final(self).last_ctx_ns == Some(now_ns),
            final(self).last_fd_ns == old(self).last_fd_ns,
    {
        self.last_ctx_ns = Some(now_ns);
    }

    /// Records that the descriptors were counted at `now_ns`.
    pub fn fds_read(&mut self, now_ns: u64)
        ensures
            final(self).last_fd_ns == Some(now_ns),
            final(self).last_ctx_ns == old(self).last_ctx_ns,
    {
        self.last_fd_ns = Some(now_ns);
    }
}

impl PidIoTotals {
    /// The totals handed to the summary.
    pub fn from_io(t: &PidIo) -> (r: Self)
        ensures
            r.read_bytes == t.read_bytes,
            r.write_bytes == t.write_bytes,
            r.rchar == t.rchar,
            r.wchar == t.wchar,
            r.syscr == t.syscr,
            r.syscw == t.syscw,
    {
        PidIoTotals {
            read_bytes: t.read_bytes,
            write_bytes: t.write_bytes,
            rchar: t.rchar,
            wchar: t.wchar,
            syscr: t.syscr,
            syscw: t.syscw,
        }
    }
}

} // verus!
