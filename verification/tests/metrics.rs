use viy::metrics::{Sample, SampleColumns, Summary};
use viy::sampler::PidIoTotals;

fn sample(i: u64) -> Sample {
    Sample {
        timestamp: i * 10_000_000,
        rss_bytes: 1000 + (i * 37) % 11 * 100,
        vsize_bytes: 5000 + i,
        utime_ticks: 2 * i,
        stime_ticks: i,
        minflt: 10 * i,
        majflt: i / 2,
        threads: (1 + (i * 7) % 5) as u32,
        voluntary_ctxt_switches: 3 * i,
        nonvoluntary_ctxt_switches: i,
        read_bytes: 100 * i,
        write_bytes: 50 * i,
        rchar: 200 * i,
        wchar: 80 * i,
        syscr: 4 * i,
        syscw: 2 * i,
        net_rx_bytes: 7 * i,
        net_tx_bytes: 5 * i,
        fd_count: (3 + (i * 5) % 4) as u32,
    }
}

fn columns(n: u64) -> SampleColumns {
    let mut c = SampleColumns::with_capacity(16);
    for i in 0..n {
        c.push(sample(i));
    }
    c
}

fn zero_io() -> PidIoTotals {
    PidIoTotals {
        read_bytes: 0,
        write_bytes: 0,
        rchar: 0,
        wchar: 0,
        syscr: 0,
        syscw: 0,
    }
}

#[test]
fn with_capacity_is_empty() {
    let c = SampleColumns::with_capacity(1024);
    assert!(c.is_empty());
    assert_eq!(c.len(), 0);
}

#[test]
fn push_adds_a_row_to_every_column() {
    let mut c = SampleColumns::with_capacity(0);
    c.push(sample(3));
    c.push(sample(4));
    assert_eq!(c.len(), 2);
    assert!(!c.is_empty());
    assert_eq!(c.timestamp, vec![30_000_000, 40_000_000]);
    assert_eq!(c.utime_ticks, vec![6, 8]);
    assert_eq!(c.threads, vec![2, 4]);
    assert_eq!(c.fd_count.len(), 2);
    assert_eq!(c.net_tx_bytes, vec![15, 20]);
}

#[test]
fn compress_keeps_small_sets() {
    let c = columns(5);
    let out = c.compress(10);
    assert_eq!(out.len(), 5);
    assert_eq!(out.timestamp, c.timestamp);
    assert_eq!(out.rss_bytes, c.rss_bytes);
}

#[test]
fn compress_to_no_buckets_is_empty() {
    let c = columns(5);
    let out0 = c.compress(0);
    assert_eq!(out0.len(), 0);
    assert!(out0.is_empty());
    assert!(out0.is_aligned());
    assert!(out0.fd_count.is_empty());
    assert!(out0.net_rx_bytes.is_empty());
}

#[test]
fn compress_merges_buckets() {
    let c = columns(10);
    let out = c.compress(3);
    assert_eq!(out.len(), 3);
    // Buckets [0,3), [3,6), [6,10).
    assert_eq!(out.timestamp, vec![10_000_000, 40_000_000, 75_000_000]);
    assert_eq!(out.utime_ticks, vec![4, 10, 18]);
    assert_eq!(out.read_bytes, vec![200, 500, 900]);
    assert_eq!(out.net_rx_bytes, vec![14, 35, 63]);
    let max_rss = |lo: usize, hi: usize| c.rss_bytes[lo..hi].iter().copied().max().unwrap();
    assert_eq!(out.rss_bytes, vec![max_rss(0, 3), max_rss(3, 6), max_rss(6, 10)]);
    let max_thr = |lo: usize, hi: usize| c.threads[lo..hi].iter().copied().max().unwrap();
    assert_eq!(out.threads, vec![max_thr(0, 3), max_thr(3, 6), max_thr(6, 10)]);
    assert_eq!(out.vsize_bytes, vec![5002, 5005, 5009]);
}

#[test]
fn compress_keeps_the_peaks() {
    let c = columns(97);
    let out = c.compress(10);
    assert_eq!(out.len(), 10);
    assert_eq!(
        out.rss_bytes.iter().max(),
        c.rss_bytes.iter().max()
    );
    assert_eq!(out.threads.iter().max(), c.threads.iter().max());
    assert_eq!(out.fd_count.iter().max(), c.fd_count.iter().max());
    assert_eq!(out.utime_ticks.last(), c.utime_ticks.last());
}

#[test]
fn compress_midpoint_does_not_overflow() {
    let mut c = SampleColumns::with_capacity(4);
    let mut s = sample(0);
    s.timestamp = u64::MAX - 1;
    c.push(sample(0));
    c.push(s);
    let mut s2 = sample(0);
    s2.timestamp = u64::MAX;
    c.push(s2);
    let out = c.compress(1);
    assert_eq!(out.timestamp, vec![(u64::MAX) / 2]);
}

#[test]
fn summary_from_samples() {
    let c = columns(10);
    let io = PidIoTotals {
        read_bytes: 0,
        write_bytes: 777,
        rchar: 1,
        wchar: 2,
        syscr: 3,
        syscw: 4,
    };
    let s = Summary::from_samples(&c, 3, &io, 11, 12);
    assert_eq!(s.total_utime_ticks, 18);
    assert_eq!(s.total_stime_ticks, 9);
    assert_eq!(s.peak_rss_bytes, *c.rss_bytes.iter().max().unwrap());
    assert_eq!(s.initial_rss_bytes, c.rss_bytes[0]);
    assert_eq!(s.final_rss_bytes, c.rss_bytes[9]);
    assert_eq!(s.peak_vsize_bytes, 5009);
    assert_eq!(s.total_minflt, 90);
    assert_eq!(s.total_majflt, 4);
    // No watermark for reads: growth of the samples; writes from the watermark.
    assert_eq!(s.total_read_bytes, 900);
    assert_eq!(s.total_write_bytes, 777);
    assert_eq!(s.total_rchar, 1);
    assert_eq!(s.total_wchar, 2);
    assert_eq!(s.total_syscr, 3);
    assert_eq!(s.total_syscw, 4);
    assert_eq!(s.total_net_rx_bytes, 11);
    assert_eq!(s.total_net_tx_bytes, 12);
    assert_eq!(s.initial_threads, 1);
    assert_eq!(s.final_threads, c.threads[9]);
    assert_eq!(s.peak_threads, 5);
    assert_eq!(s.total_voluntary_ctxt_switches, 27);
    assert_eq!(s.total_nonvoluntary_ctxt_switches, 9);
    assert_eq!(s.peak_fd_count, *c.fd_count.iter().max().unwrap());
    assert_eq!(s.final_fd_count, c.fd_count[9]);
    assert_eq!(s.child_processes_spawned, 3);
}

#[test]
fn summary_counters_that_went_down_give_zero() {
    let mut c = SampleColumns::with_capacity(2);
    c.push(sample(5));
    c.push(sample(2));
    let s = Summary::from_samples(&c, 0, &zero_io(), 0, 0);
    assert_eq!(s.total_utime_ticks, 0);
    assert_eq!(s.total_read_bytes, 0);
}

#[test]
fn summary_of_no_samples_is_zero() {
    let c = SampleColumns::with_capacity(0);
    let s = Summary::from_samples(&c, 7, &zero_io(), 5, 6);
    assert_eq!(s.child_processes_spawned, 0);
    assert_eq!(s.total_net_rx_bytes, 0);
    assert_eq!(s.peak_rss_bytes, 0);
    assert_eq!(s.total_utime_ticks, 0);
}

#[test]
fn compress_twice_changes_nothing() {
    let c = columns(10);
    for target in [0usize, 1, 3, 10, 20] {
        let once = c.compress(target);
        assert_eq!(once.len(), c.len().min(target));
        assert!(once.is_aligned());
        let twice = once.compress(target);
        assert_eq!(twice.timestamp, once.timestamp);
        assert_eq!(twice.rss_bytes, once.rss_bytes);
        assert_eq!(twice.utime_ticks, once.utime_ticks);
        assert_eq!(twice.threads, once.threads);
        assert_eq!(twice.fd_count, once.fd_count);
        assert_eq!(twice.net_tx_bytes, once.net_tx_bytes);
    }
}
