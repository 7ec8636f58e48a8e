use viy::insights::format_bytes;
use viy::terminal::chart::{
    color_str, dim_char, downsample, format_time_short, render_chart, time_axis, time_axis_line, Chart,
    ChartColor, ChartUnit,
};

#[test]
fn color_str_colors_non_blank_pieces() {
    assert_eq!(color_str("▇▇", &ChartColor::Cyan, true), "\x1b[36m▇▇\x1b[39m");
    assert_eq!(color_str("x", &ChartColor::Green, true), "\x1b[32mx\x1b[39m");
    assert_eq!(color_str("x", &ChartColor::Yellow, true), "\x1b[33mx\x1b[39m");
    assert_eq!(color_str("x", &ChartColor::Magenta, true), "\x1b[35mx\x1b[39m");
    assert_eq!(color_str("x", &ChartColor::Blue, true), "\x1b[34mx\x1b[39m");
}

#[test]
fn color_str_leaves_blank_and_plain_pieces() {
    assert_eq!(color_str("   ", &ChartColor::Cyan, true), "   ");
    assert_eq!(color_str("", &ChartColor::Cyan, true), "");
    assert_eq!(color_str(" \t\u{3000}", &ChartColor::Blue, true), " \t\u{3000}");
    assert_eq!(color_str("▇▇", &ChartColor::Cyan, false), "▇▇");
}

#[test]
fn dim_char_plain_and_dim() {
    assert_eq!(dim_char("┤", false), "┤");
    assert_eq!(dim_char("┤", true), "\x1b[2m┤\x1b[0m");
}

fn labels(l: [&str; 5]) -> Vec<String> {
    l.iter().map(|s| s.to_string()).collect()
}

#[test]
fn time_axis_places_labels_on_quarters() {
    let line = time_axis_line(21, &labels(["0", "1s", "2s", "3s", "4s"]));
    // Marks at columns 0, 5, 10, 15 and 20; two-byte labels start one column early.
    assert_eq!(line, "0   1s   2s   3s   4s");
    assert_eq!(line.len(), 21);
}

#[test]
fn time_axis_clips_at_the_end() {
    let line = time_axis_line(9, &labels(["0", "250ms", "500ms", "750ms", "1.00s"]));
    assert_eq!(line.chars().count(), 9);
    assert_eq!(line, "2550751.0");
}

#[test]
fn time_axis_empty_width() {
    assert_eq!(time_axis_line(0, &labels(["0", "a", "b", "c", "d"])), "");
}

// ── binary64 numbers as the library holds them ──────────────────────────

fn parts(v: f64) -> (u128, i32) {
    if v == 0.0 {
        return (0, 0);
    }
    let bits = v.to_bits();
    let exp = ((bits >> 52) & 0x7ff) as i32;
    let mant = (bits & ((1u64 << 52) - 1)) | (1u64 << 52);
    (mant as u128, exp - 1075)
}

fn value(p: (u128, i32)) -> f64 {
    if p.0 == 0 {
        return 0.0;
    }
    let biased = (p.1 + 52 + 1023) as u64;
    f64::from_bits((biased << 52) | (p.0 as u64 & ((1u64 << 52) - 1)))
}

fn all_parts(v: &[f64]) -> Vec<(u128, i32)> {
    v.iter().map(|&x| parts(x)).collect()
}

/// A reproducible spread of non-negative values.
fn spread(n: usize, seed: u64, scale: f64) -> Vec<f64> {
    let mut x = seed;
    (0..n)
        .map(|_| {
            x = x.wrapping_mul(6364136223846793005).wrapping_add(1442695040888963407);
            ((x >> 11) as f64 / (1u64 << 53) as f64) * scale
        })
        .collect()
}

// ── the same computations in f64 ─────────────────────────────────────────

fn float_downsample(values: &[f64], max_points: usize) -> Vec<f64> {
    if values.len() <= max_points {
        return values.to_vec();
    }
    let bucket_size = values.len() as f64 / max_points as f64;
    let mut result = Vec::with_capacity(max_points);
    for i in 0..max_points {
        let start = (i as f64 * bucket_size) as usize;
        let end = (((i + 1) as f64 * bucket_size) as usize).min(values.len());
        let bucket = &values[start..end];
        if bucket.is_empty() {
            continue;
        }
        let val = if i % 2 == 0 {
            bucket.iter().cloned().fold(f64::NEG_INFINITY, f64::max)
        } else {
            bucket.iter().cloned().fold(f64::INFINITY, f64::min)
        };
        result.push(val);
    }
    result
}

fn float_time_short(secs: f64) -> String {
    if secs < 0.001 {
        "0".into()
    } else if secs < 1.0 {
        format!("{:.0}ms", secs * 1000.0)
    } else if secs < 60.0 {
        format!("{:.1}s", secs)
    } else {
        format!("{:.0}m", secs / 60.0)
    }
}

fn float_time_axis(width: usize, duration_secs: f64) -> String {
    let mut line = vec![b' '; width];
    for i in 0..=4 {
        let frac = i as f64 / 4.0;
        let pos = ((width.saturating_sub(1)) as f64 * frac).round() as usize;
        let lbl = float_time_short(duration_secs * frac);
        let start = pos.saturating_sub(lbl.len() / 2);
        for (j, ch) in lbl.bytes().enumerate() {
            if start + j < width {
                line[start + j] = ch;
            }
        }
    }
    line.iter().map(|&b| b as char).collect()
}

fn dim(s: &str, uc: bool) -> String {
    if uc {
        format!("\x1b[2m{}\x1b[0m", s)
    } else {
        s.to_string()
    }
}

fn float_unit(unit: ChartUnit, v: f64) -> String {
    match unit {
        ChartUnit::Percent => format!("{:.0}%", v),
        ChartUnit::Bytes => format_bytes(v.max(0.0) as u64),
        ChartUnit::BytesPerSec => format!("{}/s", format_bytes(v.max(0.0) as u64)),
        ChartUnit::Count => format!("{:.0}", v),
    }
}

fn float_color(s: &str, code: char, uc: bool) -> String {
    if !uc || s.trim().is_empty() {
        s.to_string()
    } else {
        format!("\x1b[3{}m{}\x1b[39m", code, s)
    }
}

fn float_render_chart(
    title: &str,
    subtitle: &str,
    values: &[f64],
    code: char,
    unit: ChartUnit,
    duration_secs: f64,
    width: usize,
    uc: bool,
) -> String {
    const BLOCKS: [&str; 8] = ["▁", "▂", "▃", "▄", "▅", "▆", "▇", "█"];
    let mut out = String::new();
    if values.is_empty() {
        return out;
    }
    let inner = width.saturating_sub(2);
    let label_w = 10;
    let bar_w = inner.saturating_sub(label_w + 2).max(10);
    let values = float_downsample(values, bar_w);
    if values.is_empty() {
        return out;
    }
    let max_val = values.iter().cloned().fold(f64::NEG_INFINITY, f64::max);
    let min_val = values.iter().cloned().fold(f64::INFINITY, f64::min).min(0.0);
    let range = if (max_val - min_val).abs() < f64::EPSILON {
        max_val.max(1.0)
    } else {
        max_val - min_val
    };
    let title_part = format!(" {} ", title);
    let sub_part = if subtitle.is_empty() {
        String::new()
    } else {
        format!(" {} ", subtitle)
    };
    let used = 2 + title_part.len() + sub_part.len() + 1;
    let fill = width.saturating_sub(used);
    if uc {
        out += &dim("╭─", true);
        out += &format!("\x1b[1m{}\x1b[0m", title_part);
        if !sub_part.is_empty() {
            out += &dim(&sub_part, true);
        }
        out += &dim(&"─".repeat(fill), true);
        out += &dim("╮", true);
        out += "\n";
    } else {
        out += &format!("╭─{}{}{}╮\n", title_part, sub_part, "─".repeat(fill));
    }
    for row in (0..5usize).rev() {
        out += &dim("│", uc);
        let y_label = match row {
            4 => float_unit(unit, max_val),
            2 => float_unit(unit, min_val + range / 2.0),
            0 => float_unit(unit, min_val),
            _ => String::new(),
        };
        out += &format!("{:>w$} ", y_label, w = label_w);
        for &val in &values {
            let normalized = (val - min_val) / range;
            let total_units = (normalized * 5.0 * 8.0).round() as usize;
            let units_below = row * 8;
            let block = if total_units <= units_below {
                " "
            } else {
                BLOCKS[(total_units - units_below).min(8) - 1]
            };
            out += &float_color(block, code, uc);
        }
        let pad = inner.saturating_sub(label_w + 1 + values.len());
        out += &format!("{:w$}", "", w = pad);
        out += &dim("│\n", uc);
    }
    out += &dim("│", uc);
    out += &format!("{:>w$} ", "", w = label_w);
    out += &dim(&float_time_axis(bar_w, duration_secs), uc);
    let pad = inner.saturating_sub(label_w + 1 + bar_w);
    out += &format!("{:w$}", "", w = pad);
    out += &dim("│\n", uc);
    let bot = "─".repeat(inner);
    if uc {
        out += &format!("{}{}{}\n", dim("╰", true), dim(&bot, true), dim("╯", true));
    } else {
        out += &format!("╰{}╯\n", bot);
    }
    out
}

// ── downsampling ─────────────────────────────────────────────────────────

#[test]
fn downsample_preserves_small() {
    let values = all_parts(&[1.0, 2.0, 3.0]);
    assert_eq!(downsample(&values, 10), values);
}

#[test]
fn downsample_reduces() {
    let values: Vec<(u128, i32)> = (0..100).map(|i| parts(i as f64)).collect();
    assert_eq!(downsample(&values, 20).len(), 20);
}

#[test]
fn downsample_takes_max_then_min_of_buckets() {
    let values = all_parts(&[5.0, 1.0, 2.0, 8.0, 3.0, 4.0]);
    // Three buckets of two: the max of the first, the min of the second, the max of the third.
    let got: Vec<f64> = downsample(&values, 3).into_iter().map(value).collect();
    assert_eq!(got, vec![5.0, 2.0, 4.0]);
}

#[test]
fn downsample_matches_float_bucketing() {
    for (n, mp) in [(100, 20), (101, 20), (1000, 106), (997, 33), (13, 12), (50, 49), (7, 3), (1000, 999)] {
        let v = spread(n, n as u64 * 31 + mp as u64, 1e6);
        let got: Vec<f64> = downsample(&all_parts(&v), mp).into_iter().map(value).collect();
        assert_eq!(got, float_downsample(&v, mp), "n={} mp={}", n, mp);
    }
}

// ── time axis ────────────────────────────────────────────────────────────

#[test]
fn format_time_short_examples() {
    assert_eq!(format_time_short(parts(0.0)), "0");
    assert_eq!(format_time_short(parts(0.0005)), "0");
    assert_eq!(format_time_short(parts(0.25)), "250ms");
    assert_eq!(format_time_short(parts(1.5)), "1.5s");
    assert_eq!(format_time_short(parts(59.99)), "60.0s");
    assert_eq!(format_time_short(parts(150.0)), "2m");
    assert_eq!(format_time_short(parts(90.0)), "2m");
}

#[test]
fn format_time_short_matches_float_rendering() {
    let mut s = 1e-5f64;
    while s < 1e6 {
        for k in [1.0, 1.0005, 1.25, 1.5, 2.0, 2.5, 3.0, 7.75] {
            let v = s * k;
            assert_eq!(format_time_short(parts(v)), float_time_short(v), "secs={}", v);
        }
        s *= 1.7;
    }
}

#[test]
fn time_axis_matches_float_labels() {
    for (w, secs, nanos) in [(106usize, 4u64, 720_000_000u32), (10, 0, 3_000_000), (66, 125, 0), (40, 0, 999_999_999), (30, 3599, 500_000_000)] {
        let d = std::time::Duration::new(secs, nanos);
        assert_eq!(time_axis(w, secs, nanos), float_time_axis(w, d.as_secs_f64()), "w={} d={:?}", w, d);
    }
}

// ── whole charts ─────────────────────────────────────────────────────────

#[test]
fn render_chart_plain_example() {
    let values = all_parts(&[0.0, 50.0, 100.0]);
    let chart = Chart {
        title: "CPU",
        subtitle: "avg 50.0%",
        values,
        color: ChartColor::Cyan,
        unit: ChartUnit::Percent,
        duration_secs: 2,
        duration_nanos: 0,
    };
    let text = render_chart(&chart, 30, false);
    let lines: Vec<&str> = text.lines().collect();
    assert_eq!(lines.len(), 8);
    assert_eq!(lines[0], format!("╭─ CPU  avg 50.0% {}╮", "─".repeat(11)));
    assert_eq!(lines[1], format!("│      100%   █{}│", " ".repeat(14)));
    assert_eq!(lines[3], format!("│       50%  ▄█{}│", " ".repeat(14)));
    assert_eq!(lines[5], format!("│        0%  ██{}│", " ".repeat(14)));
    assert_eq!(lines[7], "╰────────────────────────────╯");
    assert_eq!(text, float_render_chart("CPU", "avg 50.0%", &[0.0, 50.0, 100.0], '6', ChartUnit::Percent, 2.0, 30, false));
}

#[test]
fn render_chart_of_nothing_is_empty() {
    let chart = Chart {
        title: "Threads",
        subtitle: "",
        values: Vec::new(),
        color: ChartColor::Magenta,
        unit: ChartUnit::Count,
        duration_secs: 1,
        duration_nanos: 0,
    };
    assert_eq!(render_chart(&chart, 80, true), "");
}

#[test]
fn render_chart_matches_float_rendering() {
    let cases: [(usize, u64, f64, ChartUnit, ChartColor, char); 6] = [
        (200, 1, 100.0, ChartUnit::Percent, ChartColor::Cyan, '6'),
        (1000, 2, 3.0e9, ChartUnit::Bytes, ChartColor::Green, '2'),
        (57, 3, 5.0e7, ChartUnit::BytesPerSec, ChartColor::Yellow, '3'),
        (3, 4, 12.0, ChartUnit::Count, ChartColor::Magenta, '5'),
        (999, 5, 1e-20, ChartUnit::BytesPerSec, ChartColor::Blue, '4'),
        (40, 6, 0.7, ChartUnit::Percent, ChartColor::Cyan, '6'),
    ];
    for (n, seed, scale, unit, color, code) in cases {
        let v = spread(n, seed, scale);
        for (w, uc) in [(80usize, false), (120, true), (40, true), (10, false), (200, false)] {
            let chart = Chart {
                title: "Series",
                subtitle: "sub – title",
                values: all_parts(&v),
                color,
                unit,
                duration_secs: 12,
                duration_nanos: 345_000_000,
            };
            let expected = float_render_chart("Series", "sub – title", &v, code, unit, 12.345, w, uc);
            assert_eq!(render_chart(&chart, w, uc), expected, "n={} w={} uc={}", n, w, uc);
        }
    }
}

#[test]
fn render_chart_flat_series() {
    for flat in [0.0, 1e-17, 0.5, 3.0] {
        let v = vec![flat; 25];
        let chart = Chart {
            title: "Flat",
            subtitle: "",
            values: all_parts(&v),
            color: ChartColor::Green,
            unit: ChartUnit::Count,
            duration_secs: 0,
            duration_nanos: 400_000,
        };
        assert_eq!(render_chart(&chart, 60, true), float_render_chart("Flat", "", &v, '2', ChartUnit::Count, 0.0004, 60, true));
    }
}

#[test]
fn chart_lines_fill_the_width() {
    let v = spread(500, 11, 2.0e6);
    for w in [24usize, 40, 80, 133] {
        let chart = Chart {
            title: "Memory RSS",
            subtitle: "peak 2.0MB",
            values: all_parts(&v),
            color: ChartColor::Green,
            unit: ChartUnit::Bytes,
            duration_secs: 3,
            duration_nanos: 0,
        };
        let text = render_chart(&chart, w, false);
        assert!(!text.contains('\x1b'));
        assert_eq!(text.lines().count(), 8);
        for (k, line) in text.lines().enumerate() {
            // The head fills the width only when the title fits in it.
            if k > 0 || w >= 40 {
                assert_eq!(line.chars().count(), w, "w={} line={:?}", w, line);
            }
        }
    }
}

#[test]
fn downsample_takes_values_of_any_magnitude() {
    let v = [1e300, 3e-300, f64::MAX, f64::MIN_POSITIVE, 0.0, 2.5e200];
    let got: Vec<f64> = downsample(&all_parts(&v), 3).into_iter().map(value).collect();
    assert_eq!(got, float_downsample(&v, 3));
    assert_eq!(got, vec![1e300, f64::MIN_POSITIVE, 2.5e200]);
}
