use viy::insights::format_bytes;
use viy::metrics::{Sample, SampleColumns};
use viy::py_trace::{
    cpu_intervals, event_kind, function_label, is_python_stem, injector_script, io_intervals, is_stdlib_noise,
    match_spans, peaks_at, peaks_fit, split_trace_line, EventKind, TraceEvent,
};

/// A span read back from trace lines: (qualname, module, start_ms, end_ms).
fn spans_of(lines: &[&str]) -> Vec<(String, String, f64, f64)> {
    let mut events = Vec::new();
    let mut times = Vec::new();
    for line in lines {
        let Some(f) = split_trace_line(line) else {
            continue;
        };
        let Ok(ms) = f.ms.parse::<f64>() else {
            continue;
        };
        let kind = event_kind(&f.event);
        events.push(TraceEvent {
            kind,
            module: f.module,
            qualname: f.qualname,
        });
        times.push(ms);
    }
    match_spans(&events)
        .into_iter()
        .map(|(c, r)| {
            (
                events[c].qualname.clone(),
                events[c].module.clone(),
                times[c],
                times[r],
            )
        })
        .collect()
}

#[test]
fn parse_trace_basic_span() {
    let spans = spans_of(&[
        "0.0,call,__main__,my_fn,/app/script.py",
        "50.0,return,__main__,my_fn,/app/script.py",
    ]);
    assert_eq!(spans.len(), 1);
    assert_eq!(spans[0].0, "my_fn");
    assert_eq!(spans[0].1, "__main__");
    assert!((spans[0].2 - 0.0).abs() < 0.1);
    assert!((spans[0].3 - 50.0).abs() < 0.1);
}

#[test]
fn parse_trace_nested_spans() {
    let spans = spans_of(&[
        "0.0,call,__main__,outer,/app/script.py",
        "10.0,call,__main__,inner,/app/script.py",
        "20.0,return,__main__,inner,/app/script.py",
        "30.0,return,__main__,outer,/app/script.py",
    ]);
    assert_eq!(spans.len(), 2);
    let inner = spans.iter().find(|s| s.0 == "inner").unwrap();
    let outer = spans.iter().find(|s| s.0 == "outer").unwrap();
    assert!((inner.3 - inner.2 - 10.0).abs() < 0.1);
    assert!((outer.3 - outer.2 - 30.0).abs() < 0.1);
}

#[test]
fn parse_trace_missing_return_is_ignored() {
    let spans = spans_of(&["0.0,call,__main__,orphan,/app/script.py"]);
    assert_eq!(spans.len(), 0);
}

#[test]
fn parse_trace_empty_file() {
    assert!(spans_of(&[]).is_empty());
}

#[test]
fn parse_trace_malformed_lines_skipped() {
    let spans = spans_of(&[
        "not,valid",
        "0.0,call,__main__,fn,/f.py",
        "10.0,return,__main__,fn,/f.py",
    ]);
    assert_eq!(spans.len(), 1);
}

#[test]
fn injector_script_no_filter_contains_settrace() {
    let script = injector_script("/tmp/trace.out", None);
    assert!(script.contains("sys.settrace"));
    assert!(script.contains("threading.settrace"));
    assert!(script.contains("/tmp/trace.out"));
    assert!(!script.contains("fnmatch"));
}

#[test]
fn injector_script_with_filter_contains_fnmatch() {
    let script = injector_script("/tmp/trace.out", Some("*myapp.py"));
    assert!(script.contains("fnmatch"));
    assert!(script.contains("*myapp.py"));
}

#[test]
fn injector_script_escapes_quotes_and_backslashes() {
    let script = injector_script("/tmp/a\"b\\c", Some("*x\"y.py"));
    assert!(script.contains("_TRACE_PATH = \"/tmp/a\\\"b\\\\c\"\n"));
    assert!(script.contains("if not _fnmatch(frame.f_code.co_filename, \"*x\\\"y.py\"): return _tracer\n"));
    assert!(script.contains("buf.append(f\"{ms:.1f},{event},{mod},{fn},{fil}\\n\")"));
}

#[test]
fn split_trace_line_keeps_commas_in_file() {
    let f = split_trace_line("1.5,call,mod,fn,/a,b.py").unwrap();
    assert_eq!(f.ms, "1.5");
    assert_eq!(f.event, "call");
    assert_eq!(f.module, "mod");
    assert_eq!(f.qualname, "fn");
    assert_eq!(f.file, "/a,b.py");
    assert!(split_trace_line("1,2,3,4").is_none());
    assert!(split_trace_line(",,,,").is_some());
}

#[test]
fn return_closes_most_recent_call_of_same_function() {
    let spans = spans_of(&[
        "0.0,call,m,f,/x.py",
        "1.0,call,m,g,/x.py",
        "2.0,call,m,f,/x.py",
        "3.0,return,m,f,/x.py",
        "4.0,return,m,nope,/x.py",
        "5.0,return,m,f,/x.py",
    ]);
    assert_eq!(spans.len(), 2);
    assert_eq!(spans[0].2, 2.0);
    assert_eq!(spans[0].3, 3.0);
    assert_eq!(spans[1].2, 0.0);
    assert_eq!(spans[1].3, 5.0);
}

#[test]
fn noise_and_labels() {
    assert!(is_stdlib_noise("<module>"));
    assert!(!is_stdlib_noise("main"));
    assert!(!is_stdlib_noise(""));
    assert_eq!(function_label("run", "__main__"), "run (__main__)");
}

#[test]
fn python_interpreters_are_recognised() {
    assert!(is_python_stem("python"));
    assert!(is_python_stem("python3"));
    assert!(is_python_stem("python3.12"));
    assert!(is_python_stem("python3."));
    assert!(!is_python_stem("python2"));
    assert!(!is_python_stem("python3x"));
    assert!(!is_python_stem("ipython"));
    assert!(!is_python_stem(""));
}

#[test]
fn event_kinds() {
    assert!(event_kind("call") == EventKind::Call);
    assert!(event_kind("return") == EventKind::Return);
    assert!(event_kind("line") == EventKind::Other);
    assert!(event_kind("Call") == EventKind::Other);
}

// ── the sample side of the Python findings ──────────────────────────────

fn value(p: (u128, i32)) -> f64 {
    if p.0 == 0 {
        return 0.0;
    }
    let biased = (p.1 + 52 + 1023) as u64;
    f64::from_bits((biased << 52) | (p.0 as u64 & ((1u64 << 52) - 1)))
}

/// Samples at the given times (ms) with the given CPU ticks, RSS and
/// character I/O.
fn samples_of(rows: &[(u64, u64, u64, u64)]) -> SampleColumns {
    let mut c = SampleColumns::with_capacity(0);
    for &(ms, ticks, rss, io) in rows {
        c.push(Sample {
            timestamp: ms * 1_000_000,
            rss_bytes: rss,
            vsize_bytes: 0,
            utime_ticks: ticks,
            stime_ticks: ticks / 4,
            minflt: 0,
            majflt: 0,
            threads: 1,
            voluntary_ctxt_switches: 0,
            nonvoluntary_ctxt_switches: 0,
            read_bytes: 0,
            write_bytes: 0,
            rchar: io,
            wchar: io / 3,
            syscr: 0,
            syscw: 0,
            net_rx_bytes: 0,
            net_tx_bytes: 0,
            fd_count: 3,
        });
    }
    c
}

fn secs(ns: u64) -> f64 {
    std::time::Duration::from_nanos(ns).as_secs_f64()
}

fn float_intervals(c: &SampleColumns, tps: f64) -> (Vec<(f64, f64)>, Vec<(f64, f64)>) {
    let n = c.len();
    let mut cpu = Vec::new();
    let mut io = Vec::new();
    for i in 0..n.saturating_sub(1) {
        let dt = secs(c.timestamp[i + 1] - c.timestamp[i]);
        let mid_ms = (secs(c.timestamp[i]) + secs(c.timestamp[i + 1])) / 2.0 * 1000.0;
        let rate = if dt > 0.0 {
            ((c.utime_ticks[i + 1] + c.stime_ticks[i + 1]).saturating_sub(c.utime_ticks[i] + c.stime_ticks[i]))
                as f64
                / tps
                / dt
                * 100.0
        } else {
            0.0
        };
        cpu.push((mid_ms, rate));
        let rate = if dt > 0.0 {
            (c.rchar[i + 1].saturating_sub(c.rchar[i]) + c.wchar[i + 1].saturating_sub(c.wchar[i])) as f64 / dt
        } else {
            0.0
        };
        io.push((mid_ms, rate));
    }
    (cpu, io)
}

fn as_floats(v: Vec<((u128, i32), (u128, i32))>) -> Vec<(f64, f64)> {
    v.into_iter().map(|(a, b)| (value(a), value(b))).collect()
}

#[test]
fn interval_rates_match_float_computation() {
    let mut rows = Vec::new();
    let (mut t, mut ticks, mut io) = (0u64, 0u64, 0u64);
    let mut x = 3u64;
    for i in 0..80u64 {
        x = x.wrapping_mul(6364136223846793005).wrapping_add(1442695040888963407);
        t += if i == 17 { 0 } else { 1 + (x >> 50) % 37 };
        ticks += (x >> 20) % 9;
        io = if i == 40 { io / 2 } else { io + (x >> 10) % 3_000_000 };
        rows.push((t, ticks, 1_000_000 + (x >> 30) % 1_000_000, io));
    }
    let c = samples_of(&rows);
    assert!(peaks_fit(&c));
    for tps in [100u64, 1000, 7] {
        let (cpu, io) = float_intervals(&c, tps as f64);
        assert_eq!(as_floats(cpu_intervals(&c, tps)), cpu, "tps={}", tps);
        assert_eq!(as_floats(io_intervals(&c)), io);
    }
}

#[test]
fn peaks_name_cpu_memory_and_io() {
    // A CPU burst over 100-200 ms (100 ticks at 100 per second in 0.1 s:
    // 1000%), a memory peak at 300 ms, and 5 MB of character I/O over
    // 300-400 ms.
    let c = samples_of(&[
        (0, 0, 1_000_000, 0),
        (100, 2, 1_200_000, 0),
        (200, 82, 1_500_000, 0),
        (300, 84, 9_000_000, 0),
        (400, 85, 2_000_000, 3_750_000),
    ]);
    let peaks = peaks_at(&c, 100);
    assert_eq!(peaks.len(), 3);
    let mid = |a: u64, b: u64| (secs(a * 1_000_000) + secs(b * 1_000_000)) / 2.0 * 1000.0;
    assert_eq!(peaks[0].head, "[PY]   CPU peak (1000%) → ");
    assert_eq!(value(peaks[0].at_ms), mid(100, 200));
    assert_eq!(peaks[1].head, format!("[PY]   Memory peak ({}) → ", format_bytes(9_000_000)));
    assert_eq!(value(peaks[1].at_ms), secs(300_000_000) * 1000.0);
    assert_eq!(peaks[2].head, "[PY]   I/O peak (47.7MB/s) → ");
    assert_eq!(value(peaks[2].at_ms), mid(300, 400));
}

#[test]
fn quiet_samples_give_no_peaks() {
    let c = samples_of(&[(0, 0, 1_000_000, 0), (100, 1, 1_100_000, 10), (200, 2, 1_900_000, 20)]);
    assert!(peaks_at(&c, 100).is_empty());
    assert!(peaks_at(&samples_of(&[(0, 0, 1, 0)]), 100).is_empty());
}

#[test]
fn peaks_fit_detects_overflowing_sums() {
    let mut c = samples_of(&[(0, 0, 1, 0), (1, 1, 1, 1)]);
    assert!(peaks_fit(&c));
    c.rchar[1] = u64::MAX;
    c.wchar[1] = u64::MAX;
    assert!(!peaks_fit(&c));
}
