use viy::sampler::{
    collect_sample, count_fds, sampling_interval, sum_context_switches, CtxSwitches, IoWatermarks,
    PidIo, PidIoTotals, PidReading, PidStat, SampleCtx, SamplerSchedule,
};

fn io(read: u64, write: u64, rchar: u64, wchar: u64, syscr: u64, syscw: u64) -> PidIo {
    PidIo {
        read_bytes: read,
        write_bytes: write,
        rchar,
        wchar,
        syscr,
        syscw,
    }
}

fn stat(rss_pages: u64, threads: i64) -> PidStat {
    PidStat {
        rss: rss_pages,
        vsize: 10 * rss_pages,
        utime: 5,
        stime: 2,
        minflt: 7,
        majflt: 1,
        num_threads: threads,
    }
}

fn ctx() -> SampleCtx {
    SampleCtx {
        timestamp: 123,
        vol_cs: 4,
        nonvol_cs: 5,
        fd_count: 6,
        page_size: 4096,
        net_rx: 1000,
        net_tx: 50,
        net_baseline_rx: 400,
        net_baseline_tx: 60,
    }
}

#[test]
fn watermarks_start_empty() {
    let w = IoWatermarks::new();
    let t = w.totals();
    assert_eq!((t.read_bytes, t.rchar, t.syscw), (0, 0, 0));
}

#[test]
fn watermarks_keep_the_maximum_of_each_counter() {
    let mut w = IoWatermarks::new();
    w.update(10, &io(100, 5, 1000, 50, 10, 1));
    w.update(10, &io(50, 9, 2000, 40, 5, 3));
    let e = w.per_pid.get(&10).unwrap();
    assert_eq!(
        (e.read_bytes, e.write_bytes, e.rchar, e.wchar, e.syscr, e.syscw),
        (100, 9, 2000, 50, 10, 3)
    );
}

#[test]
fn watermarks_survive_process_exit() {
    let mut w = IoWatermarks::new();
    w.update(1, &io(100, 0, 100, 0, 1, 0));
    w.update(2, &io(1_000_000, 10, 2_000_000, 10, 1, 1));
    // Process 2 exits: later rounds only see process 1.
    w.update(1, &io(150, 0, 150, 0, 2, 0));
    let t = w.totals();
    assert_eq!(t.read_bytes, 1_000_150);
    assert_eq!(t.rchar, 2_000_150);
    assert_eq!(t.syscr, 3);
    let totals = PidIoTotals::from_io(&t);
    assert_eq!(totals.read_bytes, 1_000_150);
    assert_eq!(totals.write_bytes, 10);
    assert_eq!(totals.wchar, 10);
    assert_eq!(totals.syscw, 1);
}

#[test]
fn collect_sample_sums_readings() {
    let mut w = IoWatermarks::new();
    let readings = vec![
        PidReading {
            pid: 1,
            stat: Some(stat(10, 2)),
            io: Some(io(1, 2, 3, 4, 5, 6)),
        },
        PidReading {
            pid: 2,
            stat: None,
            io: Some(io(10, 20, 30, 40, 50, 60)),
        },
        PidReading {
            pid: 3,
            stat: Some(stat(1, 3)),
            io: None,
        },
    ];
    let s = collect_sample(&readings, &ctx(), &mut w).unwrap();
    assert_eq!(s.timestamp, 123);
    assert_eq!(s.rss_bytes, 11 * 4096);
    assert_eq!(s.vsize_bytes, 110);
    assert_eq!(s.utime_ticks, 10);
    assert_eq!(s.stime_ticks, 4);
    assert_eq!(s.minflt, 14);
    assert_eq!(s.majflt, 2);
    assert_eq!(s.threads, 5);
    assert_eq!(s.voluntary_ctxt_switches, 4);
    assert_eq!(s.nonvoluntary_ctxt_switches, 5);
    assert_eq!(s.read_bytes, 11);
    assert_eq!(s.write_bytes, 22);
    assert_eq!(s.rchar, 33);
    assert_eq!(s.wchar, 44);
    assert_eq!(s.syscr, 55);
    assert_eq!(s.syscw, 66);
    assert_eq!(s.net_rx_bytes, 600);
    // The sent counter went below its baseline.
    assert_eq!(s.net_tx_bytes, 0);
    assert_eq!(s.fd_count, 6);
    assert_eq!(w.per_pid.len(), 2);
    assert_eq!(w.per_pid.get(&2).unwrap().syscw, 60);
    assert!(w.per_pid.get(&3).is_none());
}

#[test]
fn collect_sample_without_any_stat_is_none() {
    let mut w = IoWatermarks::new();
    let readings = vec![PidReading {
        pid: 9,
        stat: None,
        io: Some(io(7, 0, 0, 0, 0, 0)),
    }];
    assert!(collect_sample(&readings, &ctx(), &mut w).is_none());
    // The I/O reading was still recorded.
    assert_eq!(w.per_pid.get(&9).unwrap().read_bytes, 7);
    assert!(collect_sample(&Vec::new(), &ctx(), &mut w).is_none());
}

#[test]
fn collect_sample_thread_count_wraps_like_a_cast() {
    let mut w = IoWatermarks::new();
    let readings = vec![PidReading {
        pid: 1,
        stat: Some(stat(0, (1i64 << 32) + 3)),
        io: None,
    }];
    assert_eq!(collect_sample(&readings, &ctx(), &mut w).unwrap().threads, 3);
}

#[test]
fn context_switches_sum_readable_processes() {
    let st = vec![
        Some(CtxSwitches {
            voluntary: Some(10),
            nonvoluntary: Some(1),
        }),
        None,
        Some(CtxSwitches {
            voluntary: None,
            nonvoluntary: Some(4),
        }),
    ];
    assert_eq!(sum_context_switches(&st), Some((10, 5)));
    assert_eq!(sum_context_switches(&vec![None, None]), None);
    assert_eq!(sum_context_switches(&Vec::new()), None);
}

#[test]
fn fd_counts_sum_readable_processes() {
    assert_eq!(count_fds(&vec![Some(3), None, Some(4)]), 7);
    assert_eq!(count_fds(&Vec::new()), 0);
}

#[test]
fn default_sampling_interval_is_10ms_for_the_first_second() {
    assert_eq!(sampling_interval(0, 50_000_000), 10_000_000);
    assert_eq!(sampling_interval(999_999_999, 50_000_000), 10_000_000);
    assert_eq!(sampling_interval(1_000_000_000, 50_000_000), 50_000_000);
}

#[test]
fn schedule_reads_slow_counters_at_their_periods() {
    let mut s = SamplerSchedule::new();
    let p = s.plan(0, 100_000_000);
    assert!(p.read_ctx_switches && p.read_fds);
    assert_eq!(p.sleep_ns, 10_000_000);
    s.ctx_switches_read(0);
    s.fds_read(0);
    let p = s.plan(200_000_000, 100_000_000);
    assert!(!p.read_ctx_switches && !p.read_fds);
    let p = s.plan(250_000_000, 100_000_000);
    assert!(p.read_ctx_switches && !p.read_fds);
    s.ctx_switches_read(250_000_000);
    let p = s.plan(1_000_000_000, 100_000_000);
    assert!(p.read_ctx_switches && p.read_fds);
    assert_eq!(p.sleep_ns, 100_000_000);
}

#[test]
fn watermark_totals_do_not_depend_on_order() {
    let readings = [
        (1, io(5, 1, 50, 10, 1, 1)),
        (2, io(7, 2, 70, 20, 2, 1)),
        (3, io(9, 3, 90, 30, 3, 1)),
        (1, io(6, 0, 40, 15, 1, 2)),
    ];
    let mut a = IoWatermarks::new();
    for (pid, r) in readings.iter() {
        a.update(*pid, r);
    }
    let mut b = IoWatermarks::new();
    for (pid, r) in readings.iter().rev() {
        b.update(*pid, r);
    }
    let (ta, tb) = (a.totals(), b.totals());
    assert_eq!(
        (ta.read_bytes, ta.write_bytes, ta.rchar, ta.wchar, ta.syscr, ta.syscw),
        (tb.read_bytes, tb.write_bytes, tb.rchar, tb.wchar, tb.syscr, tb.syscw)
    );
    assert_eq!((ta.read_bytes, ta.rchar, ta.syscw), (22, 210, 4));
}
