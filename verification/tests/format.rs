use viy::terminal::format::{
    box_bottom, box_row, box_top, colorize_insight, fmt_num, lbl, strip_ansi_len, terminal_width,
};

#[test]
fn lbl_plain_and_bold() {
    assert_eq!(lbl("Command:", false), "Command:");
    assert_eq!(lbl("Command:", true), "\x1b[1mCommand:\x1b[0m");
}

#[test]
fn colorize_insight_tags() {
    assert_eq!(
        colorize_insight("[CPU]  CPU-bound"),
        " \x1b[1m\x1b[36m[CPU]\x1b[39m\x1b[0m  CPU-bound"
    );
    assert_eq!(
        colorize_insight("[MEM]  x"),
        " \x1b[1m\x1b[32m[MEM]\x1b[39m\x1b[0m  x"
    );
    assert_eq!(
        colorize_insight("[I/O]  x"),
        " \x1b[1m\x1b[33m[I/O]\x1b[39m\x1b[0m  x"
    );
    assert_eq!(
        colorize_insight("[THR]  x"),
        " \x1b[1m\x1b[35m[THR]\x1b[39m\x1b[0m  x"
    );
    assert_eq!(
        colorize_insight("[PY] top"),
        " \x1b[1m\x1b[36m[PY] \x1b[39m\x1b[0m top"
    );
    assert_eq!(
        colorize_insight("[FD]   grew"),
        " \x1b[1m\x1b[34m[FD] \x1b[39m\x1b[0m   grew"
    );
    assert_eq!(colorize_insight("no tag here"), " no tag here");
    assert_eq!(colorize_insight(""), " ");
}

#[test]
fn strip_ansi_len_counts_visible_chars() {
    assert_eq!(strip_ansi_len(""), 0);
    assert_eq!(strip_ansi_len("abc"), 3);
    assert_eq!(strip_ansi_len("\x1b[1mab\x1b[0m"), 2);
    assert_eq!(strip_ansi_len("│é─"), 3);
    // An escape sequence that never ends hides the rest of the text.
    assert_eq!(strip_ansi_len("ab\x1b[1"), 2);
    assert_eq!(strip_ansi_len(&colorize_insight("[CPU] x")), 8);
}

#[test]
fn box_top_plain_fills_to_width() {
    let s = box_top("CPU", 20, false);
    assert_eq!(s, "╭─ CPU ────────────╮\n");
    assert_eq!(s.chars().count(), 21);
    // A title too long for the width leaves no rule.
    assert_eq!(box_top("abcdef", 5, false), "╭─ abcdef ╮\n");
}

#[test]
fn box_top_counts_title_bytes() {
    // The rule is shortened by the UTF-8 length of the title.
    assert_eq!(box_top("é", 10, false), "╭─ é ───╮\n");
}

#[test]
fn box_top_colored() {
    assert_eq!(
        box_top("Hi", 10, true),
        "\x1b[2m╭─\x1b[0m\x1b[1m Hi \x1b[0m\x1b[2m───\x1b[0m\x1b[2m╮\x1b[0m\n"
    );
}

#[test]
fn box_row_pads_to_width() {
    assert_eq!(box_row("abc", 10, false), "│abc     │\n");
    assert_eq!(box_row("abcdefghijk", 10, false), "│abcdefghijk│\n");
    assert_eq!(
        box_row("ab", 6, true),
        "\x1b[2m│\x1b[0mab  \x1b[2m│\x1b[0m\n"
    );
}

#[test]
fn box_rows_line_up_with_colored_content() {
    let w = 30;
    for content in ["plain", "\x1b[1mbold\x1b[0m text", "", "é and ─"] {
        for uc in [false, true] {
            let row = box_row(content, w, uc);
            assert_eq!(strip_ansi_len(&row), w + 1, "{:?} {}", content, uc);
        }
    }
}

#[test]
fn box_bottom_plain_and_colored() {
    assert_eq!(box_bottom(6, false), "╰────╯\n");
    assert_eq!(box_bottom(1, false), "╰╯\n");
    assert_eq!(
        box_bottom(4, true),
        "\x1b[2m╰\x1b[0m\x1b[2m──\x1b[0m\x1b[2m╯\x1b[0m\n"
    );
}

#[test]
fn fmt_num_examples() {
    assert_eq!(fmt_num(0), "0");
    assert_eq!(fmt_num(999), "999");
    assert_eq!(fmt_num(1000), "1,000");
    assert_eq!(fmt_num(9999), "9,999");
    assert_eq!(fmt_num(10_000), "10.0K");
    assert_eq!(fmt_num(12_345), "12.3K");
    assert_eq!(fmt_num(1_234_567), "1.2M");
    assert_eq!(fmt_num(1_500_000_000), "1.5B");
    assert_eq!(fmt_num(u64::MAX), "18446744073.7B");
}

fn float_num(n: u64) -> String {
    if n >= 1_000_000_000 {
        format!("{:.1}B", n as f64 / 1e9)
    } else if n >= 1_000_000 {
        format!("{:.1}M", n as f64 / 1e6)
    } else if n >= 10_000 {
        format!("{:.1}K", n as f64 / 1e3)
    } else {
        let s = n.to_string();
        let mut r = String::new();
        for (i, c) in s.chars().rev().enumerate() {
            if i > 0 && i % 3 == 0 {
                r.push(',');
            }
            r.push(c);
        }
        r.chars().rev().collect()
    }
}

#[test]
fn fmt_num_matches_binary64_rendering() {
    let mut samples: Vec<u64> = vec![10_049, 10_050, 10_051, 12_250, 12_350, 1_050_000, 1_250_000];
    for k in 0..64u32 {
        let p = 1u64 << k;
        samples.push(p);
        samples.push(p.wrapping_sub(1));
        samples.push(p + p / 3);
    }
    let mut x: u64 = 0x2545_f491_4f6c_dd1d;
    for _ in 0..20000 {
        x ^= x << 13;
        x ^= x >> 7;
        x ^= x << 17;
        samples.push(x >> (x % 64));
    }
    for n in 0..20_000u64 {
        samples.push(n * 50);
    }
    for n in samples {
        assert_eq!(fmt_num(n), float_num(n), "n = {}", n);
    }
}

#[test]
fn terminal_width_bounds() {
    assert_eq!(terminal_width(None), 80);
    assert_eq!(terminal_width(Some(10)), 40);
    assert_eq!(terminal_width(Some(40)), 40);
    assert_eq!(terminal_width(Some(132)), 132);
}

fn float_dur(d: std::time::Duration) -> String {
    let s = d.as_secs_f64();
    if s < 0.001 {
        format!("{:.0}us", s * 1_000_000.0)
    } else if s < 1.0 {
        format!("{:.1}ms", s * 1000.0)
    } else if s < 60.0 {
        format!("{:.2}s", s)
    } else if s < 3600.0 {
        format!("{:.0}m{:.1}s", (s / 60.0).floor(), s % 60.0)
    } else {
        let h = (s / 3600.0).floor();
        let m = ((s - h * 3600.0) / 60.0).floor();
        format!("{:.0}h{:.0}m{:.1}s", h, m, s % 60.0)
    }
}

fn dur(secs: u64, nanos: u32) -> String {
    viy::terminal::format::fmt_dur(secs, nanos)
}

#[test]
fn fmt_dur_examples() {
    assert_eq!(dur(0, 0), "0us");
    assert_eq!(dur(0, 250_000), "250us");
    assert_eq!(dur(0, 12_500_000), "12.5ms");
    assert_eq!(dur(0, 260_000_000), "260.0ms");
    assert_eq!(dur(4, 720_000_000), "4.72s");
    assert_eq!(dur(192, 0), "3m12.0s");
    assert_eq!(dur(7530, 0), "2h5m30.0s");
}

#[test]
fn fmt_dur_matches_binary64_rendering() {
    let mut cases: Vec<(u64, u32)> = Vec::new();
    for secs in [0u64, 1, 2, 59, 60, 61, 119, 3599, 3600, 3601, 7199, 7200, 86399, 86400] {
        for nanos in [0u32, 1, 499, 500, 501, 999_999, 1_000_000, 999_999_999, 500_000_000, 5_000_000] {
            cases.push((secs, nanos));
        }
    }
    for k in 0..64u32 {
        let p = 1u64 << k;
        cases.push((p, 0));
        cases.push((p - 1, 999_999_999));
        cases.push((p + 1, 123_456_789));
    }
    cases.push((u64::MAX, 999_999_999));
    cases.push((u64::MAX, 0));
    let mut x: u64 = 0x9e37_79b9_7f4a_7c15;
    for _ in 0..40000 {
        x ^= x << 13;
        x ^= x >> 7;
        x ^= x << 17;
        let nanos = (x % 1_000_000_000) as u32;
        let secs = match x % 5 {
            0 => 0,
            1 => (x >> 20) % 60,
            2 => (x >> 20) % 3600,
            3 => (x >> 20) % 1_000_000,
            _ => x >> (x % 64),
        };
        cases.push((secs, nanos));
    }
    for us in 0..20000u32 {
        cases.push((0, us * 50));
    }
    for ms in 0..20000u32 {
        cases.push((0, ms * 50_000));
    }
    for secs in 0..8000u64 {
        cases.push((secs, 500_000_000));
        cases.push((secs, 50_000_000));
        cases.push((secs, 5_000_000));
    }
    for (secs, nanos) in cases {
        let d = std::time::Duration::new(secs, nanos);
        assert_eq!(dur(secs, nanos), float_dur(d), "secs = {}, nanos = {}", secs, nanos);
    }
}
