use viy::insights::format_bytes;

#[test]
fn format_bytes_units() {
    assert_eq!(format_bytes(500), "500B");
    assert_eq!(format_bytes(1536), "1.5KB");
    assert_eq!(format_bytes(1572864), "1.5MB");
    assert_eq!(format_bytes(1610612736), "1.5GB");
}

fn float_rendering(bytes: u64) -> String {
    let kb = 1024u64;
    let mb = 1024 * kb;
    let gb = 1024 * mb;
    if bytes >= gb {
        format!("{:.1}GB", bytes as f64 / gb as f64)
    } else if bytes >= mb {
        format!("{:.1}MB", bytes as f64 / mb as f64)
    } else if bytes >= kb {
        format!("{:.1}KB", bytes as f64 / kb as f64)
    } else {
        format!("{}B", bytes)
    }
}

#[test]
fn format_bytes_matches_binary64_rendering() {
    let mut samples: Vec<u64> = vec![0, 1, 1023, 1024, 1075, 1126, 1280, 1331, 1433, u64::MAX, u64::MAX - 1];
    for k in 0..64u32 {
        let p = 1u64 << k;
        samples.push(p);
        samples.push(p.wrapping_sub(1));
        samples.push(p + p / 2);
        samples.push(p.wrapping_add(p / 20));
    }
    let mut x: u64 = 0x9e37_79b9_7f4a_7c15;
    for _ in 0..20000 {
        x ^= x << 13;
        x ^= x >> 7;
        x ^= x << 17;
        samples.push(x >> (x % 64));
    }
    for b in 0..5000u64 {
        samples.push(b * 51);
    }
    for b in samples {
        assert_eq!(format_bytes(b), float_rendering(b), "bytes = {}", b);
    }
}

#[test]
fn format_bytes_ties_round_to_even() {
    // 1.25 and 1.75 are exact binary values that lie halfway between tenths.
    assert_eq!(format_bytes(1280), "1.2KB");
    assert_eq!(format_bytes(1792), "1.8KB");
    assert_eq!(format_bytes(1024), "1.0KB");
    assert_eq!(format_bytes(1023), "1023B");
}

use viy::insights::{
    fd_insight, last_max_index, memory_growth_insight, peak_decline, small_read_insight,
    small_write_insight, thread_insight,
};
use viy::metrics::{Sample, SampleColumns, Summary};

fn make_summary() -> Summary {
    Summary {
        total_utime_ticks: 500,
        total_stime_ticks: 100,
        peak_rss_bytes: 100 * 1024 * 1024,
        initial_rss_bytes: 10 * 1024 * 1024,
        final_rss_bytes: 50 * 1024 * 1024,
        peak_vsize_bytes: 200 * 1024 * 1024,
        total_minflt: 1000,
        total_majflt: 0,
        total_read_bytes: 1024 * 1024,
        total_write_bytes: 512 * 1024,
        total_rchar: 10 * 1024 * 1024,
        total_wchar: 1024 * 1024,
        total_syscr: 100,
        total_syscw: 50,
        total_net_rx_bytes: 0,
        total_net_tx_bytes: 0,
        initial_threads: 1,
        final_threads: 1,
        peak_threads: 1,
        total_voluntary_ctxt_switches: 50,
        total_nonvoluntary_ctxt_switches: 10,
        peak_fd_count: 5,
        final_fd_count: 5,
        child_processes_spawned: 0,
    }
}

fn columns(rss: &[u64], fds: &[u32]) -> SampleColumns {
    let mut c = SampleColumns::with_capacity(rss.len());
    for i in 0..rss.len() {
        c.push(Sample {
            timestamp: i as u64,
            rss_bytes: rss[i],
            vsize_bytes: 0,
            utime_ticks: 0,
            stime_ticks: 0,
            minflt: 0,
            majflt: 0,
            threads: 1,
            voluntary_ctxt_switches: 0,
            nonvoluntary_ctxt_switches: 0,
            read_bytes: 0,
            write_bytes: 0,
            rchar: 0,
            wchar: 0,
            syscr: 0,
            syscw: 0,
            net_rx_bytes: 0,
            net_tx_bytes: 0,
            fd_count: fds[i],
        });
    }
    c
}

#[test]
fn thread_creation_detected() {
    let mut s = make_summary();
    assert_eq!(thread_insight(&s), None);
    s.initial_threads = 2;
    s.peak_threads = 5;
    assert_eq!(
        thread_insight(&s).as_deref(),
        Some("[THR]  Dynamic thread creation detected (peak 5 threads from initial 2)")
    );
    // Exactly twice the initial count is not enough.
    s.peak_threads = 4;
    s.initial_threads = 2;
    assert_eq!(thread_insight(&s), None);
}

#[test]
fn small_reads_and_writes_detected() {
    let mut s = make_summary();
    // 100 calls is not more than 100.
    assert_eq!(small_read_insight(&s), None);
    s.total_syscr = 1000;
    s.total_rchar = 300_000;
    assert_eq!(
        small_read_insight(&s).as_deref(),
        Some("[I/O]  Small read operations (avg 300 bytes/syscall) -- buffering may help")
    );
    s.total_rchar = 512_000;
    assert_eq!(small_read_insight(&s), None);
    s.total_syscw = 101;
    s.total_wchar = 101 * 511 + 100;
    assert_eq!(
        small_write_insight(&s).as_deref(),
        Some("[I/O]  Small write operations (avg 511 bytes/syscall) -- buffering may help")
    );
}

#[test]
fn memory_growth_detected() {
    let rss: Vec<u64> = (0..12).map(|i| (i + 1) * 1024 * 1024).collect();
    let c = columns(&rss, &[3; 12]);
    let mut s = make_summary();
    s.initial_rss_bytes = rss[0];
    s.final_rss_bytes = rss[11];
    assert_eq!(
        memory_growth_insight(&s, &c).as_deref(),
        Some("[MEM]  Memory grew monotonically -- possible leak if long-running")
    );
    // Only 10 samples: too few.
    let c10 = columns(&rss[..10], &[3; 10]);
    assert_eq!(memory_growth_insight(&s, &c10), None);
    // Two drops in eleven steps is not nine tenths rising.
    let mut bumpy = rss.clone();
    bumpy[3] = 0;
    bumpy[7] = 0;
    assert_eq!(memory_growth_insight(&s, &columns(&bumpy, &[3; 12])), None);
}

#[test]
fn fd_leak_detected() {
    let fds: Vec<u32> = (0..12).map(|i| 3 + 2 * i).collect();
    let c = columns(&[0; 12], &fds);
    assert_eq!(
        fd_insight(&c).as_deref(),
        Some("[FD]   File descriptor count grew monotonically (3 -> 25) -- possible leak")
    );
    let flat: Vec<u32> = (0..12).map(|i| 3 + i / 2).collect();
    assert_eq!(fd_insight(&columns(&[0; 12], &flat)), None);
}

#[test]
fn peak_then_decline_reports_last_peak() {
    let rss = vec![1, 5 * 1024 * 1024, 9 * 1024 * 1024, 9 * 1024 * 1024, 1024 * 1024];
    let c = columns(&rss, &[0; 5]);
    let mut s = make_summary();
    s.peak_rss_bytes = 9 * 1024 * 1024;
    s.final_rss_bytes = 1024 * 1024;
    assert_eq!(peak_decline(&s, &c), Some(3));
    s.final_rss_bytes = 5 * 1024 * 1024;
    assert_eq!(peak_decline(&s, &c), None);
    assert_eq!(last_max_index(&vec![4, 1, 4, 2]), 2);
    assert_eq!(last_max_index(&vec![7]), 0);
}

use std::time::Duration;
use viy::insights::generate_insights;
use viy::metrics::CpuFigures;

fn parts(v: f64) -> (u128, i32) {
    if v == 0.0 {
        return (0, 0);
    }
    let bits = v.to_bits();
    let exp = ((bits >> 52) & 0x7ff) as i32;
    let mant = (bits & ((1u64 << 52) - 1)) | (1u64 << 52);
    (mant as u128, exp - 1075)
}

fn figures(user: Duration, sys: Duration, cpu_percent: f64) -> CpuFigures {
    CpuFigures {
        user_secs: user.as_secs(),
        user_nanos: user.subsec_nanos(),
        sys_secs: sys.as_secs(),
        sys_nanos: sys.subsec_nanos(),
        cpu_percent: parts(cpu_percent),
    }
}

fn empty() -> SampleColumns {
    SampleColumns::with_capacity(0)
}

fn run_insights(s: &Summary, f: &CpuFigures, samples: &SampleColumns, wall: Duration) -> Vec<String> {
    generate_insights(s, f, samples, wall.as_secs(), wall.subsec_nanos())
}

#[test]
fn detect_cpu_bound() {
    let s = make_summary();
    let f = figures(Duration::from_secs(9), Duration::from_secs(1), 95.0);
    let insights = run_insights(&s, &f, &empty(), Duration::from_secs(10));
    assert!(insights.iter().any(|i| i.contains("CPU-bound")));
}

#[test]
fn detect_io_bound() {
    let mut s = make_summary();
    s.total_voluntary_ctxt_switches = 5000;
    let f = figures(Duration::from_secs(2), Duration::from_secs(1), 60.0);
    let insights = run_insights(&s, &f, &empty(), Duration::from_secs(10));
    assert!(insights.iter().any(|i| i.contains("I/O-bound")));
}

#[test]
fn detect_kernel_heavy() {
    let s = make_summary();
    let f = figures(Duration::from_secs(1), Duration::from_secs(4), 60.0);
    let insights = run_insights(&s, &f, &empty(), Duration::from_secs(10));
    assert!(insights.iter().any(|i| i.contains("Kernel-heavy")));
}

#[test]
fn detect_major_page_faults() {
    let mut s = make_summary();
    s.total_majflt = 500;
    let f = figures(Duration::from_secs(5), Duration::from_secs(1), 60.0);
    let insights = run_insights(&s, &f, &empty(), Duration::from_secs(10));
    assert!(insights
        .iter()
        .any(|i| i.contains("page fault") || i.contains("paging")));
}

#[test]
fn detect_high_contention() {
    let mut s = make_summary();
    s.total_nonvoluntary_ctxt_switches = 20000;
    let f = figures(Duration::from_secs(5), Duration::from_secs(1), 60.0);
    let insights = run_insights(&s, &f, &empty(), Duration::from_secs(10));
    assert!(insights.iter().any(|i| i.contains("contention")));
}

#[test]
fn no_insights_for_a_run_under_a_millisecond() {
    let mut s = make_summary();
    s.total_majflt = 500;
    let f = figures(Duration::from_secs(9), Duration::from_secs(1), 95.0);
    assert!(run_insights(&s, &f, &empty(), Duration::from_micros(999)).is_empty());
    assert!(run_insights(&s, &f, &empty(), Duration::ZERO).is_empty());
}

/// The findings as the float computation makes them.
fn float_insights(s: &Summary, user: Duration, sys: Duration, cpu_percent: f64, c: &SampleColumns, wall: Duration) -> Vec<String> {
    let mut out = Vec::new();
    let wall_secs = wall.as_secs_f64();
    if wall_secs < 0.001 {
        return out;
    }
    let total = user.as_secs_f64() + sys.as_secs_f64();
    if total / wall_secs > 0.9 {
        out.push(format!("[CPU]  CPU-bound workload ({:.0}% utilization)", cpu_percent));
    }
    if total / wall_secs < 0.5 && s.total_voluntary_ctxt_switches > 100 {
        out.push("[CPU]  I/O-bound workload (low CPU with frequent voluntary context switches)".into());
    }
    let sys_secs = sys.as_secs_f64();
    if total > 0.0 && sys_secs / total > 0.5 {
        out.push(format!(
            "[CPU]  Kernel-heavy workload ({:.0}% system time -- high syscall overhead)",
            (sys_secs / total) * 100.0
        ));
    }
    let invol = s.total_nonvoluntary_ctxt_switches as f64 / wall_secs;
    if invol > 1000.0 {
        out.push(format!("[CPU]  High CPU contention ({:.0} involuntary context switches/sec)", invol));
    }
    if s.total_rchar > 0 && s.total_read_bytes > 0 {
        let r = (s.total_rchar.saturating_sub(s.total_read_bytes)) as f64 / s.total_rchar as f64;
        if r > 0.5 && s.total_rchar > 1024 * 1024 {
            out.push(format!("[I/O]  {:.0}% of reads served from page cache", r * 100.0));
        }
    }
    if s.total_syscr > 100 && s.total_rchar / s.total_syscr < 512 {
        out.push(format!(
            "[I/O]  Small read operations (avg {} bytes/syscall) -- buffering may help",
            s.total_rchar / s.total_syscr
        ));
    }
    if s.total_syscw > 100 && s.total_wchar / s.total_syscw < 512 {
        out.push(format!(
            "[I/O]  Small write operations (avg {} bytes/syscall) -- buffering may help",
            s.total_wchar / s.total_syscw
        ));
    }
    let rr = s.total_read_bytes as f64 / wall_secs;
    let wr = s.total_write_bytes as f64 / wall_secs;
    if rr > 100.0 * 1024.0 * 1024.0 {
        out.push(format!("[I/O]  Read-heavy: {}/sec throughput", format_bytes(rr as u64)));
    }
    if wr > 100.0 * 1024.0 * 1024.0 {
        out.push(format!("[I/O]  Write-heavy: {}/sec throughput", format_bytes(wr as u64)));
    }
    if s.peak_threads > s.initial_threads * 2 && s.peak_threads > 4 {
        out.push(format!(
            "[THR]  Dynamic thread creation detected (peak {} threads from initial {})",
            s.peak_threads, s.initial_threads
        ));
    }
    let mr = s.total_majflt as f64 / wall_secs;
    if mr > 100.0 {
        out.push(format!("[MEM]  Severe disk paging ({:.0} major page faults/sec)", mr));
    } else if mr > 10.0 {
        out.push(format!("[MEM]  Memory pressure detected ({:.0} major page faults/sec)", mr));
    }
    if !c.is_empty() {
        if s.peak_rss_bytes > 0 && c.len() > 2 {
            let idx = c.rss_bytes.iter().enumerate().max_by_key(|&(_, &v)| v).map(|(i, _)| i).unwrap_or(0);
            let pct = (idx as f64 / c.len() as f64) * 100.0;
            if s.peak_rss_bytes > s.final_rss_bytes * 2 && s.peak_rss_bytes > 1024 * 1024 {
                out.push(format!(
                    "[MEM]  Peak RSS {} at {:.0}% through execution, then declined",
                    format_bytes(s.peak_rss_bytes),
                    pct
                ));
            }
        }
        if c.len() > 10 {
            let inc = c.rss_bytes.windows(2).filter(|w| w[1] >= w[0]).count();
            let ratio = inc as f64 / (c.len() - 1) as f64;
            if ratio > 0.9 && s.final_rss_bytes > s.initial_rss_bytes * 2 && s.final_rss_bytes > 1024 * 1024 {
                out.push("[MEM]  Memory grew monotonically -- possible leak if long-running".into());
            }
            let inc = c.fd_count.windows(2).filter(|w| w[1] >= w[0]).count();
            let ratio = inc as f64 / (c.len() - 1) as f64;
            let first = c.fd_count[0];
            let last = c.fd_count[c.len() - 1];
            if ratio > 0.9 && last > first + 10 {
                out.push(format!(
                    "[FD]   File descriptor count grew monotonically ({} -> {}) -- possible leak",
                    first, last
                ));
            }
        }
    }
    out
}

#[test]
fn insights_match_float_computation() {
    let mut x: u64 = 0x1234_5678_9abc_def1;
    let mut next = move || {
        x ^= x << 13;
        x ^= x >> 7;
        x ^= x << 17;
        x
    };
    for round in 0..3000u64 {
        let mut s = make_summary();
        let big = |v: u64, k: u64| v >> (v % k);
        s.total_rchar = big(next(), 64);
        s.total_read_bytes = big(next(), 64);
        s.total_wchar = big(next(), 64);
        s.total_write_bytes = big(next(), 40);
        s.total_syscr = next() % 100_000;
        s.total_syscw = next() % 100_000;
        s.total_majflt = next() % 100_000;
        s.total_voluntary_ctxt_switches = next() % 1000;
        s.total_nonvoluntary_ctxt_switches = big(next(), 64);
        s.initial_threads = (next() % 10) as u32;
        s.peak_threads = (next() % 30) as u32;
        s.peak_rss_bytes = next() % (1 << 30);
        s.final_rss_bytes = next() % (1 << 29);
        s.initial_rss_bytes = next() % (1 << 24);
        let n = (next() % 30) as usize;
        let rss: Vec<u64> = (0..n).map(|i| (i as u64 * 3 + next() % 4) << 20).collect();
        let fds: Vec<u32> = (0..n).map(|i| (i as u32 * 2 + (next() % 3) as u32)).collect();
        let c = columns(&rss, &fds);
        let wall = Duration::new(next() % 100, (next() % 1_000_000_000) as u32);
        let user = Duration::new(next() % 200, (next() % 1_000_000_000) as u32);
        let sys = Duration::new(next() % 200, (next() % 1_000_000_000) as u32);
        let pct = ((user.as_secs_f64() + sys.as_secs_f64()) / wall.as_secs_f64().max(1e-9)) * 100.0;
        let f = figures(user, sys, pct);
        assert_eq!(
            run_insights(&s, &f, &c, wall),
            float_insights(&s, user, sys, pct, &c, wall),
            "round {}",
            round
        );
    }
}

#[test]
fn cpu_figures_match_float_computation() {
    let mut x: u64 = 0x0bad_cafe_f00d_1234;
    let mut next = move || {
        x ^= x << 13;
        x ^= x >> 7;
        x ^= x << 17;
        x
    };
    for _ in 0..20000 {
        let mut s = make_summary();
        s.total_utime_ticks = next() >> (next() % 64);
        s.total_stime_ticks = next() >> (next() % 64);
        let tps = match next() % 4 {
            0 => 100,
            1 => 1000,
            2 => 1 + next() % 10_000,
            _ => 250,
        };
        let wall = Duration::new(next() % 100_000, (next() % 1_000_000_000) as u32);
        let f = CpuFigures::from_ticks(&s, tps, wall.as_secs(), wall.subsec_nanos()).unwrap();
        let tpsf = tps as f64;
        let user_secs = s.total_utime_ticks as f64 / tpsf;
        let sys_secs = s.total_stime_ticks as f64 / tpsf;
        let wall_secs = wall.as_secs_f64();
        let pct = if wall_secs > 0.0 {
            ((user_secs + sys_secs) / wall_secs) * 100.0
        } else {
            0.0
        };
        let user = Duration::from_secs_f64(user_secs);
        let sys = Duration::from_secs_f64(sys_secs);
        assert_eq!((f.user_secs, f.user_nanos), (user.as_secs(), user.subsec_nanos()));
        assert_eq!((f.sys_secs, f.sys_nanos), (sys.as_secs(), sys.subsec_nanos()));
        assert_eq!(f.cpu_percent, parts(pct));
    }
    let s = make_summary();
    assert!(CpuFigures::from_ticks(&s, 0, 1, 0).is_none());
    let mut s2 = make_summary();
    s2.total_utime_ticks = u64::MAX;
    assert!(CpuFigures::from_ticks(&s2, 1, 1, 0).is_none());
}
