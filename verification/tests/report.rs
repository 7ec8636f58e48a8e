use viy::insights::format_bytes;
use viy::metrics::{CpuFigures, Sample, SampleColumns, Summary};
use viy::py_trace::PyTimelineRow;
use viy::terminal::format::box_row;
use viy::terminal::report::{
    charts_at, charts_fit, cpu_part, cpu_rates, timestamps_in_order, exit_status, header_row, insight_row, io_rates,
    net_rates, percent_string, report_sections, summary_rows, timeline_axis_row, timeline_bar, timeline_head,
    timeline_title, timeline_widths,
};

fn summary() -> Summary {
    Summary {
        total_utime_ticks: 500,
        total_stime_ticks: 100,
        peak_rss_bytes: 100 * 1024 * 1024,
        initial_rss_bytes: 10 * 1024 * 1024,
        final_rss_bytes: 50 * 1024 * 1024,
        peak_vsize_bytes: 200 * 1024 * 1024,
        total_minflt: 1000,
        total_majflt: 0,
        total_read_bytes: 1024 * 1024,
        total_write_bytes: 512 * 1024,
        total_rchar: 10 * 1024 * 1024,
        total_wchar: 1024 * 1024,
        total_syscr: 100,
        total_syscw: 50,
        total_net_rx_bytes: 0,
        total_net_tx_bytes: 1536,
        initial_threads: 1,
        final_threads: 1,
        peak_threads: 1,
        total_voluntary_ctxt_switches: 50,
        total_nonvoluntary_ctxt_switches: 12_345,
        peak_fd_count: 5,
        final_fd_count: 4,
        child_processes_spawned: 0,
    }
}

#[test]
fn exit_status_variants() {
    assert_eq!(exit_status(Some(0), None, false), "0");
    assert_eq!(exit_status(Some(0), None, true), "\x1b[32m0\x1b[39m");
    assert_eq!(exit_status(Some(1), None, false), "1");
    assert_eq!(exit_status(Some(-3), Some(9), false), "-3");
    assert_eq!(exit_status(Some(127), None, true), "\x1b[31m127\x1b[39m");
    assert_eq!(exit_status(Some(i32::MIN), None, false), "-2147483648");
    assert_eq!(exit_status(None, Some(9), false), "signal 9");
    assert_eq!(exit_status(None, Some(15), true), "\x1b[31msignal 15\x1b[39m");
    assert_eq!(exit_status(None, None, true), "unknown");
}

#[test]
fn header_row_pads_the_label() {
    assert_eq!(header_row("Command:", "true", false), " Command:     true");
    assert_eq!(
        header_row("Exit code:", "0", true),
        " \x1b[1mExit code:\x1b[0m0"
    );
}

#[test]
fn summary_rows_plain() {
    let rows = summary_rows(&summary(), " CPU:         60.0% (user 5.00s, sys 1.00s)", false);
    assert_eq!(rows.len(), 4);
    assert_eq!(
        rows[0],
        " CPU:         60.0% (user 5.00s, sys 1.00s)    Memory:      10.0MB -> 50.0MB (peak 100.0MB)"
    );
    assert_eq!(
        rows[1],
        " I/O:         10.0MB read, 1.0MB written    Network:     0B in, 1.5KB out (host)"
    );
    assert_eq!(
        rows[2],
        " Ctx switch:  50 vol, 12.3K invol    Page faults: 1,000 minor, 0 major"
    );
    assert_eq!(rows[3], " Threads:     1    File descs:  4 (peak 5)");
}

#[test]
fn summary_rows_threads_and_processes() {
    let mut s = summary();
    s.initial_threads = 1;
    s.final_threads = 2;
    s.peak_threads = 8;
    s.child_processes_spawned = 3;
    let rows = summary_rows(&s, "", false);
    assert_eq!(rows.len(), 5);
    assert_eq!(
        rows[3],
        " Threads:     1 -> 2 (peak 8)    File descs:  4 (peak 5)"
    );
    assert_eq!(rows[4], " Processes:   3 spawned");
}

#[test]
fn summary_rows_colored_labels_are_not_padded() {
    let rows = summary_rows(&summary(), "x", true);
    assert!(rows[0].starts_with("x    \x1b[1mMemory:\x1b[0m10.0MB"));
}

#[test]
fn insight_rows() {
    assert_eq!(insight_row("[CPU]  busy", false), " [CPU]  busy");
    assert_eq!(
        insight_row("[CPU]  busy", true),
        " \x1b[1m\x1b[36m[CPU]\x1b[39m\x1b[0m  busy"
    );
}

fn row(tag: &str, bar: &str) -> PyTimelineRow {
    PyTimelineRow {
        label: "work (__main__)".to_string(),
        tag: tag.to_string(),
        bar: bar.to_string(),
        peak: "97%".to_string(),
    }
}

#[test]
fn timeline_head_plain_and_colored() {
    assert_eq!(
        timeline_head(&row("CPU", ""), false),
        " work (__main__)  [CPU]  97%"
    );
    assert_eq!(
        timeline_head(&row("MEM", ""), true),
        " \x1b[1mwork (__main__)\x1b[0m  \x1b[1m\x1b[32m[MEM]\x1b[39m\x1b[0m  97%"
    );
    assert_eq!(
        timeline_head(&row("", ""), true),
        " \x1b[1mwork (__main__)\x1b[0m  []  97%"
    );
}

#[test]
fn timeline_bar_colors_shaded_cells() {
    assert_eq!(timeline_bar(&row("CPU", " ░█ "), false, 10), "            ░█ ");
    assert_eq!(
        timeline_bar(&row("I/O", " ░"), true, 2),
        "    \x1b[33m░\x1b[39m"
    );
    assert_eq!(timeline_bar(&row("", "▓"), true, 0), " ▓");
    // In its box the bar line lines up with the others.
    let line = box_row(&timeline_bar(&row("CPU", "█▓▒░"), true, 10), 40, true);
    assert_eq!(viy::terminal::format::strip_ansi_len(&line), 41);
}

#[test]
fn plain_report_has_no_escapes() {
    let mut s = summary();
    s.child_processes_spawned = 2;
    s.peak_threads = 9;
    let mut texts: Vec<String> = summary_rows(&s, " CPU:         1.0%", false);
    texts.push(header_row("Command:", "sleep 1", false));
    texts.push(exit_status(Some(-1), None, false));
    texts.push(exit_status(None, Some(9), false));
    texts.push(exit_status(None, None, false));
    texts.push(insight_row("[PY]   CPU peak (90%) → f (m)", false));
    texts.push(timeline_head(&row("CPU", ""), false));
    texts.push(timeline_bar(&row("MEM", " ░▒▓█"), false, 10));
    texts.push(viy::terminal::format::box_top("Summary", 50, false));
    texts.push(box_row("x", 50, false));
    texts.push(viy::terminal::format::box_bottom(50, false));
    for t in &texts {
        assert!(!t.contains('\x1b'), "{:?}", t);
    }
}

fn parts(v: f64) -> (u128, i32) {
    if v == 0.0 {
        return (0, 0);
    }
    let bits = v.to_bits();
    let exp = ((bits >> 52) & 0x7ff) as i32;
    let mant = (bits & ((1u64 << 52) - 1)) | (1u64 << 52);
    (mant as u128, exp - 1075)
}

#[test]
fn percent_string_writes_one_decimal() {
    assert_eq!(percent_string((0, 0)), "0.0");
    assert_eq!(percent_string(parts(12.5)), "12.5");
    assert_eq!(percent_string(parts(0.25)), "0.2");
    assert_eq!(percent_string(parts(0.35)), format!("{:.1}", 0.35f64));
    assert_eq!(percent_string(parts(99.96)), "100.0");
    assert_eq!(percent_string(parts(1234.04)), "1234.0");
    for v in [0.05f64, 0.15, 1.0 / 3.0, 66.66666, 250.0, 1e-9, 1e15, 3.0e17] {
        assert_eq!(percent_string(parts(v)), format!("{:.1}", v));
    }
}

#[test]
fn cpu_part_shows_utilisation_and_times() {
    let f = CpuFigures {
        user_secs: 1,
        user_nanos: 200_000_000,
        sys_secs: 0,
        sys_nanos: 30_000_000,
        cpu_percent: parts(12.5),
    };
    assert_eq!(
        cpu_part(&f, false),
        " CPU:         12.5% (user 1.20s, sys 30.0ms)"
    );
    assert_eq!(
        cpu_part(&f, true),
        " \u{1b}[1mCPU:\u{1b}[0m 12.5% (user 1.20s, sys 30.0ms)"
    );
}

fn value(p: (u128, i32)) -> f64 {
    if p.0 == 0 {
        return 0.0;
    }
    let biased = (p.1 + 52 + 1023) as u64;
    f64::from_bits((biased << 52) | (p.0 as u64 & ((1u64 << 52) - 1)))
}

/// Samples whose counters grow unevenly, with a repeated timestamp among
/// them.
fn run(n: u64) -> SampleColumns {
    let mut c = SampleColumns::with_capacity(0);
    let mut t = 0u64;
    let mut x = 7u64;
    let mut ticks = 0u64;
    let mut io = 0u64;
    let mut net = 0u64;
    for i in 0..n {
        x = x.wrapping_mul(6364136223846793005).wrapping_add(1442695040888963407);
        t = if i == 5 { t } else { t + 10_000_000 + (x >> 40) % 90_000_000 };
        ticks += (x >> 20) % 13;
        io += (x >> 8) % 5_000_000;
        net = if i == 7 { net / 2 } else { net + (x >> 30) % 70_000 };
        c.push(Sample {
            timestamp: t,
            rss_bytes: 1_000_000 + (x >> 33) % 900_000_000,
            vsize_bytes: 0,
            utime_ticks: ticks,
            stime_ticks: ticks / 3,
            minflt: 0,
            majflt: 0,
            threads: 1 + (x % 7) as u32,
            voluntary_ctxt_switches: 0,
            nonvoluntary_ctxt_switches: 0,
            read_bytes: 0,
            write_bytes: 0,
            rchar: io,
            wchar: io / 2,
            syscr: 0,
            syscw: 0,
            net_rx_bytes: net,
            net_tx_bytes: net / 4,
            fd_count: 3,
        });
    }
    c
}

fn float_rate(c: &SampleColumns, f: impl Fn(usize) -> f64) -> Vec<f64> {
    (0..c.len().saturating_sub(1))
        .map(|i| {
            let dt = std::time::Duration::from_nanos(c.timestamp[i + 1] - c.timestamp[i]).as_secs_f64();
            if dt > 0.0 {
                ((f(i + 1) - f(i)) / dt).max(0.0)
            } else {
                0.0
            }
        })
        .collect()
}

#[test]
fn rates_match_float_computation() {
    let c = run(60);
    assert!(charts_fit(&c));
    for tps in [100u64, 250, 3] {
        let got: Vec<f64> = cpu_rates(&c, tps).into_iter().map(value).collect();
        let want = float_rate(&c, |i| (c.utime_ticks[i] + c.stime_ticks[i]) as f64 / tps as f64 * 100.0);
        assert_eq!(got, want, "tps={}", tps);
    }
    let got: Vec<f64> = io_rates(&c).into_iter().map(value).collect();
    assert_eq!(got, float_rate(&c, |i| (c.rchar[i] + c.wchar[i]) as f64));
    let got: Vec<f64> = net_rates(&c).into_iter().map(value).collect();
    assert_eq!(got, float_rate(&c, |i| (c.net_rx_bytes[i] + c.net_tx_bytes[i]) as f64));
}

#[test]
fn rates_of_an_interval_of_no_time_are_zero() {
    let c = run(12);
    assert!(timestamps_in_order(&c));
    // The sixth sample repeats the fifth's timestamp.
    assert_eq!(cpu_rates(&c, 100)[4], (0, 0));
    assert_eq!(io_rates(&c)[4], (0, 0));
    // The network counter halves at the eighth sample: no negative rate.
    assert_eq!(net_rates(&c)[6], (0, 0));
}

#[test]
fn charts_fit_detects_overflowing_sums() {
    let mut c = run(3);
    assert!(charts_fit(&c));
    c.rchar[1] = u64::MAX;
    assert!(!charts_fit(&c));
}

#[test]
fn charts_need_two_samples_and_list_the_threads_chart_only_when_several_ran() {
    let cpu = CpuFigures {
        user_secs: 1,
        user_nanos: 0,
        sys_secs: 0,
        sys_nanos: 0,
        cpu_percent: (0x10_0000_0000_0000, -46),
    };
    let mut s = summary();
    let one = run(1);
    assert_eq!(charts_at(&s, &cpu, &one, 100, 2, 0, 80, false), "");
    let c = run(30);
    let text = charts_at(&s, &cpu, &c, 100, 2, 500_000_000, 80, false);
    assert!(text.starts_with("╭─ CPU Utilization (%)  avg 64.0% ─"));
    assert!(text.contains("╭─ Memory RSS  peak 100.0MB ─"));
    assert!(text.contains(&format!("╭─ I/O Rate  {} read, {} written ─", format_bytes(s.total_rchar), format_bytes(s.total_wchar))));
    assert!(text.contains("╭─ Network (host)  0B in, 1.5KB out ─"));
    assert!(!text.contains("Threads"));
    assert_eq!(text.lines().count(), 4 * 8);
    s.peak_threads = 4;
    let text = charts_at(&s, &cpu, &c, 100, 2, 500_000_000, 80, true);
    assert!(text.contains("\x1b[1m Threads \x1b[0m\x1b[2m peak 4 \x1b[0m"));
    assert_eq!(text.lines().count(), 5 * 8);
}

#[test]
fn timestamps_in_order_detects_a_step_back() {
    let mut c = run(5);
    assert!(timestamps_in_order(&c));
    c.timestamp[3] = c.timestamp[2] - 1;
    assert!(!timestamps_in_order(&c));
    assert!(timestamps_in_order(&run(0)));
    assert!(timestamps_in_order(&run(1)));
}

#[test]
fn timeline_widths_leave_room_for_the_labels() {
    assert_eq!(timeline_widths(80), (10, 67));
    assert_eq!(timeline_widths(23), (10, 10));
    assert_eq!(timeline_widths(24), (10, 11));
    assert_eq!(timeline_widths(0), (10, 10));
}

#[test]
fn timeline_title_names_the_wall_time() {
    assert_eq!(timeline_title(4, 720_000_000), "Python Timeline  \u{2192}  4.72s");
    assert_eq!(timeline_title(192, 0), "Python Timeline  \u{2192}  3m12.0s");
}

#[test]
fn timeline_axis_row_sits_under_the_bars() {
    let axis = "0  1.0s 2.0s 3.0s 4.0";
    assert_eq!(timeline_axis_row(10, 21, 4, 0, false), format!("           {}", axis));
    assert_eq!(
        timeline_axis_row(2, 21, 4, 0, true),
        format!("   \x1b[2m{}\x1b[0m", axis)
    );
}

#[test]
fn report_sections_follow_trace_quiet_and_insights() {
    let r = report_sections(true, false, 0, 0);
    assert!(r.timeline);
    assert!(!r.insights);
    let r = report_sections(false, false, 0, 2);
    assert!(!r.timeline);
    assert!(r.insights);
    let r = report_sections(false, true, 3, 2);
    assert!(!r.insights);
    assert!(report_sections(true, false, 1, 0).insights);
}
