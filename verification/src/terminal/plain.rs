//! The report without colors: none of its text holds an escape character
//! unless what it was given does.
use vstd::prelude::*;
use crate::insights::{bytes_text, scaled_fixed1};
use crate::binary64::{lt, plus, rnd};
use crate::metrics::Summary;
use crate::numfmt::fixed1_text;
use crate::terminal::chart::{
    axis_bytes, axis_labels_text, axis_text, bar_width, block_cell, chart_axis_row, chart_head, chart_row,
    chart_rows, chart_text, colored_piece, dimmed_piece, downsampled, overwrite, pad_left, quarter_of,
    row_cells, scale_label, time_short_text, unit_text, ChartColor, ChartUnit,
};
use vstd::utf8::{encode_utf8, is_ascii_chars, is_ascii_chars_encode_utf8};
use crate::terminal::format::{box_bottom_text, box_row_text, box_top_text, grouped, label_text, num_text, quotient_fixed1};
use crate::terminal::report::{
    colored_bar, ctx_part, exit_text, faults_part, fds_part, field_text, insight_row_text, int_text,
    io_part, memory_part, net_part, pad_right, processes_part, summary_rows_text, threads_part,
    threads_text, timeline_bar_text, timeline_head_text,
};
use crate::text::{dec_digits, digit_char, repeat_char};

verus! {

/// No character of `s` is the escape character that opens an ANSI sequence.
pub open spec fn no_esc(s: Seq<char>) -> bool {
    forall|i: int| 0 <= i < s.len() ==> s[i] != '\x1b'
}

proof fn lemma_concat(a: Seq<char>, b: Seq<char>)
    requires
        no_esc(a),
        no_esc(b),
    ensures
        no_esc(a + b),
{
    assert forall|i: int| 0 <= i < (a + b).len() implies (a + b)[i] != '\x1b' by {
        if i < a.len() {
            assert((a + b)[i] == a[i]);
        } else {
            assert((a + b)[i] == b[i - a.len()]);
        }
    }
}

proof fn lemma_digits(n: nat)
    ensures
        no_esc(dec_digits(n)),
    decreases n,
{
    if n >= 10 {
        lemma_digits(n / 10);
        let d = digit_char(n % 10);
        assert(d != '\x1b');
        lemma_concat(dec_digits(n / 10), seq![d]);
        assert(dec_digits(n / 10).push(d) =~= dec_digits(n / 10) + seq![d]);
    } else {
        assert(digit_char(n) != '\x1b');
    }
}

proof fn lemma_fixed1(t: nat)
    ensures
        no_esc(fixed1_text(t)),
{
    lemma_digits(t / 10);
    assert(digit_char(t % 10) != '\x1b');
    lemma_concat(dec_digits(t / 10), seq!['.', digit_char(t % 10)]);
}

proof fn lemma_grouped(d: Seq<char>)
    requires
        no_esc(d),
    ensures
        no_esc(grouped(d)),
    decreases d.len(),
{
    if d.len() > 3 {
        let a = d.take(d.len() - 3);
        let b = d.skip(d.len() - 3);
        assert(no_esc(a));
        assert(no_esc(b));
        lemma_grouped(a);
        lemma_concat(grouped(a), seq![',']);
        lemma_concat(grouped(a) + seq![','], b);
    }
}

proof fn lemma_bytes(b: nat)
    ensures
        no_esc(bytes_text(b)),
{
    if b >= 1024 {
        let k: nat = if b >= 1024 * 1024 * 1024 {
            30
        } else if b >= 1024 * 1024 {
            20
        } else {
            10
        };
        let (m, x) = crate::numfmt::f64_quotient(b, 1);
        lemma_fixed1(crate::numfmt::tenths(m, x - k));
        assert(scaled_fixed1(b, k) == fixed1_text(crate::numfmt::tenths(m, x - k)));
        lemma_concat(scaled_fixed1(b, k), seq!['G', 'B']);
        lemma_concat(scaled_fixed1(b, k), seq!['M', 'B']);
        lemma_concat(scaled_fixed1(b, k), seq!['K', 'B']);
    } else {
        lemma_digits(b);
        lemma_concat(dec_digits(b), seq!['B']);
    }
}

proof fn lemma_num(n: nat)
    ensures
        no_esc(num_text(n)),
{
    if n >= 10_000 {
        let d: nat = if n >= 1_000_000_000 {
            1_000_000_000
        } else if n >= 1_000_000 {
            1_000_000
        } else {
            1000
        };
        let (m, x) = crate::numfmt::f64_quotient(crate::numfmt::f64_int(n), d);
        lemma_fixed1(crate::numfmt::tenths(m, x));
        assert(quotient_fixed1(n, d) == fixed1_text(crate::numfmt::tenths(m, x)));
        lemma_concat(quotient_fixed1(n, d), seq!['B']);
        lemma_concat(quotient_fixed1(n, d), seq!['M']);
        lemma_concat(quotient_fixed1(n, d), seq!['K']);
    } else {
        lemma_digits(n);
        lemma_grouped(dec_digits(n));
    }
}

proof fn lemma_int(i: int)
    ensures
        no_esc(int_text(i)),
{
    if i < 0 {
        lemma_digits((-i) as nat);
        lemma_concat(seq!['-'], dec_digits((-i) as nat));
    } else {
        lemma_digits(i as nat);
    }
}

proof fn lemma_repeat(c: char, k: nat)
    requires
        c != '\x1b',
    ensures
        no_esc(repeat_char(c, k)),
{
}

proof fn lemma_pad(s: Seq<char>, w: nat)
    requires
        no_esc(s),
    ensures
        no_esc(pad_right(s, w)),
{
    if s.len() < w {
        lemma_concat(s, repeat_char(' ', (w - s.len()) as nat));
    }
}

proof fn lemma_field(label: Seq<char>, value: Seq<char>)
    requires
        no_esc(label),
        no_esc(value),
    ensures
        no_esc(field_text(label, value, false)),
{
    lemma_pad(label, 13);
    lemma_concat(pad_right(label_text(label, false), 13), value);
}

/// No-escape texts concatenated with a literal in between.
proof fn lemma_join3(a: Seq<char>, lit: Seq<char>, b: Seq<char>)
    requires
        no_esc(a),
        no_esc(lit),
        no_esc(b),
    ensures
        no_esc(a + lit + b),
{
    lemma_concat(a, lit);
    lemma_concat(a + lit, b);
}

proof fn lemma_summary_parts(s: Summary)
    ensures
        no_esc(memory_part(s, false)),
        no_esc(io_part(s, false)),
        no_esc(net_part(s, false)),
        no_esc(ctx_part(s, false)),
        no_esc(faults_part(s, false)),
        no_esc(threads_part(s, false)),
        no_esc(fds_part(s, false)),
        no_esc(processes_part(s, false)),
{
    reveal_strlit("Memory:");
    reveal_strlit(" -> ");
    reveal_strlit(" (peak ");
    reveal_strlit(")");
    reveal_strlit("I/O:");
    reveal_strlit(" read, ");
    reveal_strlit(" written");
    reveal_strlit("Network:");
    reveal_strlit(" in, ");
    reveal_strlit(" out (host)");
    reveal_strlit("Ctx switch:");
    reveal_strlit(" vol, ");
    reveal_strlit(" invol");
    reveal_strlit("Page faults:");
    reveal_strlit(" minor, ");
    reveal_strlit(" major");
    reveal_strlit("Threads:");
    reveal_strlit("File descs:");
    reveal_strlit("Processes:");
    reveal_strlit(" spawned");
    assert(no_esc(" -> "@));
    assert(no_esc(" (peak "@));
    assert(no_esc(")"@));
    // memory
    lemma_bytes(s.initial_rss_bytes as nat);
    lemma_bytes(s.final_rss_bytes as nat);
    lemma_bytes(s.peak_rss_bytes as nat);
    lemma_join3(bytes_text(s.initial_rss_bytes as nat), " -> "@, bytes_text(s.final_rss_bytes as nat));
    lemma_join3(
        bytes_text(s.initial_rss_bytes as nat) + " -> "@ + bytes_text(s.final_rss_bytes as nat),
        " (peak "@,
        bytes_text(s.peak_rss_bytes as nat),
    );
    lemma_concat(
        bytes_text(s.initial_rss_bytes as nat) + " -> "@ + bytes_text(s.final_rss_bytes as nat)
            + " (peak "@ + bytes_text(s.peak_rss_bytes as nat),
        ")"@,
    );
    assert(no_esc("Memory:"@));
    lemma_field(
        "Memory:"@,
        bytes_text(s.initial_rss_bytes as nat) + " -> "@ + bytes_text(s.final_rss_bytes as nat)
            + " (peak "@ + bytes_text(s.peak_rss_bytes as nat) + ")"@,
    );
    // I/O
    lemma_bytes(s.total_rchar as nat);
    lemma_bytes(s.total_wchar as nat);
    assert(no_esc(" read, "@));
    assert(no_esc(" written"@));
    lemma_join3(bytes_text(s.total_rchar as nat), " read, "@, bytes_text(s.total_wchar as nat));
    lemma_concat(
        bytes_text(s.total_rchar as nat) + " read, "@ + bytes_text(s.total_wchar as nat),
        " written"@,
    );
    assert(no_esc("I/O:"@));
    lemma_field(
        "I/O:"@,
        bytes_text(s.total_rchar as nat) + " read, "@ + bytes_text(s.total_wchar as nat)
            + " written"@,
    );
    lemma_concat(
        seq![' '],
        field_text(
            "I/O:"@,
            bytes_text(s.total_rchar as nat) + " read, "@ + bytes_text(s.total_wchar as nat)
                + " written"@,
            false,
        ),
    );
    // network
    lemma_bytes(s.total_net_rx_bytes as nat);
    lemma_bytes(s.total_net_tx_bytes as nat);
    assert(no_esc(" in, "@));
    assert(no_esc(" out (host)"@));
    lemma_join3(bytes_text(s.total_net_rx_bytes as nat), " in, "@, bytes_text(s.total_net_tx_bytes as nat));
    lemma_concat(
        bytes_text(s.total_net_rx_bytes as nat) + " in, "@ + bytes_text(s.total_net_tx_bytes as nat),
        " out (host)"@,
    );
    assert(no_esc("Network:"@));
    lemma_field(
        "Network:"@,
        bytes_text(s.total_net_rx_bytes as nat) + " in, "@ + bytes_text(s.total_net_tx_bytes as nat)
            + " out (host)"@,
    );
    // context switches
    lemma_num(s.total_voluntary_ctxt_switches as nat);
    lemma_num(s.total_nonvoluntary_ctxt_switches as nat);
    assert(no_esc(" vol, "@));
    assert(no_esc(" invol"@));
    lemma_join3(
        num_text(s.total_voluntary_ctxt_switches as nat),
        " vol, "@,
        num_text(s.total_nonvoluntary_ctxt_switches as nat),
    );
    lemma_concat(
        num_text(s.total_voluntary_ctxt_switches as nat) + " vol, "@ + num_text(
            s.total_nonvoluntary_ctxt_switches as nat,
        ),
        " invol"@,
    );
    assert(no_esc("Ctx switch:"@));
    lemma_field(
        "Ctx switch:"@,
        num_text(s.total_voluntary_ctxt_switches as nat) + " vol, "@ + num_text(
            s.total_nonvoluntary_ctxt_switches as nat,
        ) + " invol"@,
    );
    lemma_concat(
        seq![' '],
        field_text(
            "Ctx switch:"@,
            num_text(s.total_voluntary_ctxt_switches as nat) + " vol, "@ + num_text(
                s.total_nonvoluntary_ctxt_switches as nat,
            ) + " invol"@,
            false,
        ),
    );
    // page faults
    lemma_num(s.total_minflt as nat);
    lemma_num(s.total_majflt as nat);
    assert(no_esc(" minor, "@));
    assert(no_esc(" major"@));
    lemma_join3(num_text(s.total_minflt as nat), " minor, "@, num_text(s.total_majflt as nat));
    lemma_concat(
        num_text(s.total_minflt as nat) + " minor, "@ + num_text(s.total_majflt as nat),
        " major"@,
    );
    assert(no_esc("Page faults:"@));
    lemma_field(
        "Page faults:"@,
        num_text(s.total_minflt as nat) + " minor, "@ + num_text(s.total_majflt as nat)
            + " major"@,
    );
    // threads
    lemma_digits(s.initial_threads as nat);
    lemma_digits(s.final_threads as nat);
    lemma_digits(s.peak_threads as nat);
    lemma_join3(dec_digits(s.initial_threads as nat), " -> "@, dec_digits(s.final_threads as nat));
    lemma_join3(
        dec_digits(s.initial_threads as nat) + " -> "@ + dec_digits(s.final_threads as nat),
        " (peak "@,
        dec_digits(s.peak_threads as nat),
    );
    lemma_concat(
        dec_digits(s.initial_threads as nat) + " -> "@ + dec_digits(s.final_threads as nat)
            + " (peak "@ + dec_digits(s.peak_threads as nat),
        ")"@,
    );
    assert(no_esc(threads_text(s)));
    assert(no_esc("Threads:"@));
    lemma_field("Threads:"@, threads_text(s));
    lemma_concat(seq![' '], field_text("Threads:"@, threads_text(s), false));
    // file descriptors
    lemma_digits(s.final_fd_count as nat);
    lemma_digits(s.peak_fd_count as nat);
    lemma_join3(dec_digits(s.final_fd_count as nat), " (peak "@, dec_digits(s.peak_fd_count as nat));
    lemma_concat(
        dec_digits(s.final_fd_count as nat) + " (peak "@ + dec_digits(s.peak_fd_count as nat),
        ")"@,
    );
    assert(no_esc("File descs:"@));
    lemma_field(
        "File descs:"@,
        dec_digits(s.final_fd_count as nat) + " (peak "@ + dec_digits(s.peak_fd_count as nat)
            + ")"@,
    );
    // processes
    lemma_digits(s.child_processes_spawned as nat);
    assert(no_esc(" spawned"@));
    lemma_concat(dec_digits(s.child_processes_spawned as nat), " spawned"@);
    assert(no_esc("Processes:"@));
    lemma_field("Processes:"@, dec_digits(s.child_processes_spawned as nat) + " spawned"@);
    lemma_concat(
        seq![' '],
        field_text("Processes:"@, dec_digits(s.child_processes_spawned as nat) + " spawned"@, false),
    );
}

proof fn lemma_plain_bar(bar: Seq<char>, tag: Seq<char>)
    ensures
        colored_bar(bar, tag, false) == bar,
    decreases bar.len(),
{
    if bar.len() > 0 {
        lemma_plain_bar(bar.drop_last(), tag);
        assert(bar.drop_last().push(bar.last()) =~= bar);
    }
}

/// With colors off, the report holds no escape character that its inputs
/// (titles, box contents, labels and values, the rendered CPU figure,
/// insights, timeline rows, chart pieces) do not hold: the frames, header
/// and summary rows, exit status, insight rows, timeline rows and chart
/// pieces are plain text.
pub proof fn law_plain_report_has_no_escapes(
    s: Summary,
    cpu_part: Seq<char>,
    title: Seq<char>,
    content: Seq<char>,
    label: Seq<char>,
    value: Seq<char>,
    insight: Seq<char>,
    tag: Seq<char>,
    peak: Seq<char>,
    bar: Seq<char>,
    piece: Seq<char>,
    color: ChartColor,
    w: nat,
    label_w: nat,
    exit_code: Option<i32>,
    signal: Option<i32>,
)
    requires
        no_esc(cpu_part),
        no_esc(title),
        no_esc(content),
        no_esc(label),
        no_esc(value),
        no_esc(insight),
        no_esc(tag),
        no_esc(peak),
        no_esc(bar),
        no_esc(piece),
    ensures
        no_esc(box_top_text(title, w, false)),
        no_esc(box_row_text(content, w, false)),
        no_esc(box_bottom_text(w, false)),
        no_esc(seq![' '] + field_text(label, value, false)),
        no_esc(exit_text(exit_code, signal, false)),
        forall|i: int|
            0 <= i < summary_rows_text(s, cpu_part, false).len() ==> no_esc(
                #[trigger] summary_rows_text(s, cpu_part, false)[i],
            ),
        no_esc(insight_row_text(insight, false)),
        no_esc(timeline_head_text(label, tag, peak, false)),
        no_esc(timeline_bar_text(bar, tag, false, label_w)),
        no_esc(colored_piece(piece, color, false)),
        no_esc(dimmed_piece(piece, false)),
{
    // frames
    let t = seq![' '] + title + seq![' '];
    lemma_join3(seq![' '], title, seq![' ']);
    let fill = crate::terminal::format::sat_sub(w, 3 + crate::text::utf8_len(t));
    lemma_repeat('─', fill);
    lemma_join3(seq!['╭', '─'], t, repeat_char('─', fill));
    lemma_concat(seq!['╭', '─'] + t + repeat_char('─', fill), seq!['╮', '\n']);
    let pad = crate::terminal::format::sat_sub(
        crate::terminal::format::sat_sub(w, 2),
        crate::terminal::format::visible_len(content, false),
    );
    lemma_repeat(' ', pad);
    lemma_join3(seq!['│'], content, repeat_char(' ', pad));
    lemma_join3(seq!['│'] + content + repeat_char(' ', pad), seq!['│'], seq!['\n']);
    lemma_repeat('─', crate::terminal::format::sat_sub(w, 2));
    lemma_join3(seq!['╰'], repeat_char('─', crate::terminal::format::sat_sub(w, 2)), seq!['╯', '\n']);
    // header rows
    lemma_field(label, value);
    lemma_concat(seq![' '], field_text(label, value, false));
    // exit status
    reveal_strlit("signal ");
    reveal_strlit("unknown");
    assert(no_esc("unknown"@));
    match (exit_code, signal) {
        (Some(0), _) => {},
        (Some(c), _) => {
            lemma_int(c as int);
        },
        (None, Some(g)) => {
            lemma_int(g as int);
            assert(no_esc("signal "@));
            lemma_concat("signal "@, int_text(g as int));
        },
        _ => {},
    }
    // summary rows
    lemma_summary_parts(s);
    reveal_strlit("    ");
    assert(no_esc("    "@));
    lemma_join3(cpu_part, "    "@, memory_part(s, false));
    lemma_join3(io_part(s, false), "    "@, net_part(s, false));
    lemma_join3(ctx_part(s, false), "    "@, faults_part(s, false));
    lemma_join3(threads_part(s, false), "    "@, fds_part(s, false));
    // insight and timeline rows
    lemma_concat(seq![' '], insight);
    lemma_join3(seq![' '], label, seq![' ', ' ', '[']);
    lemma_join3(seq![' '] + label + seq![' ', ' ', '['], tag, seq![']', ' ', ' ']);
    lemma_concat(seq![' '] + label + seq![' ', ' ', '['] + tag + seq![']', ' ', ' '], peak);
    lemma_plain_bar(bar, tag);
    lemma_repeat(' ', label_w);
    lemma_join3(repeat_char(' ', label_w), seq![' '], bar);
}

/// Every character of `s` is ASCII and none is the escape character.
pub open spec fn plain_ascii(s: Seq<char>) -> bool {
    is_ascii_chars(s) && no_esc(s)
}

proof fn lemma_ascii_concat(a: Seq<char>, b: Seq<char>)
    requires
        plain_ascii(a),
        plain_ascii(b),
    ensures
        plain_ascii(a + b),
{
    lemma_concat(a, b);
    assert forall|i: int| 0 <= i < (a + b).len() implies '\0' <= #[trigger] (a + b)[i] <= '\u{7f}' by {
        if i < a.len() {
            assert((a + b)[i] == a[i]);
        } else {
            assert((a + b)[i] == b[i - a.len()]);
        }
    }
}

proof fn lemma_ascii_digits(n: nat)
    ensures
        plain_ascii(dec_digits(n)),
    decreases n,
{
    lemma_digits(n);
    if n >= 10 {
        lemma_ascii_digits(n / 10);
        let d = digit_char(n % 10);
        assert('\0' <= d <= '\u{7f}');
        lemma_ascii_concat(dec_digits(n / 10), seq![d]);
        assert(dec_digits(n / 10).push(d) =~= dec_digits(n / 10) + seq![d]);
    } else {
        assert('\0' <= digit_char(n) <= '\u{7f}');
    }
}

/// The time-axis labels are plain ASCII.
proof fn lemma_time_short_ascii(a: (nat, int))
    ensures
        plain_ascii(time_short_text(a)),
{
    let s = time_short_text(a);
    if lt(a, rnd(1, 1000)) {
    } else if lt(a, rnd(1, 1)) {
        let n = crate::binary64::round_scaled(crate::binary64::mul_int(a, 1000), 1);
        lemma_ascii_digits(n);
        lemma_ascii_concat(dec_digits(n), seq!['m', 's']);
    } else if lt(a, rnd(60, 1)) {
        let t = crate::binary64::round_scaled(a, 10);
        lemma_ascii_digits(t / 10);
        lemma_ascii_concat(dec_digits(t / 10), seq!['.', digit_char(t % 10)]);
        lemma_ascii_concat(fixed1_text(t), seq!['s']);
    } else {
        let n = crate::binary64::round_scaled(crate::binary64::div_int(a, 60), 1);
        lemma_ascii_digits(n);
        lemma_ascii_concat(dec_digits(n), seq!['m']);
    }
}

/// The axis line never holds the escape byte when no label does.
proof fn lemma_axis_bytes_plain(width: nat, labels: Seq<Seq<u8>>, k: nat)
    requires
        k <= 5,
        labels.len() == 5,
        forall|i: int, j: int| 0 <= i < 5 && 0 <= j < labels[i].len() ==> #[trigger] labels[i][j] != 27u8,
    ensures
        axis_bytes(width, labels, k).len() == width,
        forall|j: int| 0 <= j < width ==> #[trigger] axis_bytes(width, labels, k)[j] != 27u8,
    decreases k,
{
    if k > 0 {
        lemma_axis_bytes_plain(width, labels, (k - 1) as nat);
        let prev = axis_bytes(width, labels, (k - 1) as nat);
        let lbl = labels[k - 1];
        assert forall|j: int| 0 <= j < width implies #[trigger] axis_bytes(width, labels, k)[j] != 27u8 by {
            let pos = crate::terminal::chart::axis_pos(width, (k - 1) as nat);
            let half = lbl.len() / 2;
            let start: nat = if pos >= half {
                (pos - half) as nat
            } else {
                0
            };
            assert(axis_bytes(width, labels, k) == overwrite(prev, start, lbl));
            if start <= j < start + lbl.len() {
                assert(labels[k - 1][j - start] != 27u8);
            }
        }
    }
}

/// A value of a scale, as its unit writes it, is plain text.
proof fn lemma_unit_plain(unit: ChartUnit, v: (nat, int))
    ensures
        no_esc(unit_text(unit, v)),
{
    let n = crate::binary64::round_scaled(v, 1);
    let b = crate::binary64::to_u64(v);
    lemma_digits(n);
    lemma_bytes(b);
    lemma_concat(dec_digits(n), seq!['%']);
    lemma_concat(bytes_text(b), seq!['/', 's']);
}

/// Without colors, the bar cells of a row are plain text.
proof fn lemma_row_cells_plain(
    vals: Seq<(u128, i32)>,
    row: nat,
    lo: (nat, int),
    range: (nat, int),
    color: ChartColor,
)
    ensures
        no_esc(row_cells(vals, row, lo, range, color, false)),
    decreases vals.len(),
{
    if vals.len() > 0 {
        lemma_row_cells_plain(vals.drop_last(), row, lo, range, color);
        let c = block_cell(
            crate::terminal::chart::bar_units(crate::terminal::chart::b64(vals.last()), lo, range),
            row,
        );
        assert(c != '\x1b');
        lemma_concat(row_cells(vals.drop_last(), row, lo, range, color, false), seq![c]);
    }
}

/// Without colors, every row of bars is plain text.
proof fn lemma_chart_rows_plain(
    vals: Seq<(u128, i32)>,
    k: nat,
    unit: ChartUnit,
    hi: (nat, int),
    lo: (nat, int),
    range: (nat, int),
    color: ChartColor,
    width: nat,
)
    ensures
        no_esc(chart_rows(vals, k, unit, hi, lo, range, color, width, false)),
    decreases k,
{
    if k > 0 {
        lemma_chart_rows_plain(vals, (k - 1) as nat, unit, hi, lo, range, color, width);
        let row = (5 - k) as nat;
        let label = scale_label(row, unit, hi, lo, range);
        lemma_unit_plain(unit, hi);
        lemma_unit_plain(unit, plus(lo, crate::binary64::div_int(range, 2)));
        lemma_unit_plain(unit, lo);
        assert(no_esc(label));
        if label.len() < 10 {
            lemma_concat(repeat_char(' ', (10 - label.len()) as nat), label);
        }
        assert(no_esc(pad_left(label, 10)));
        lemma_row_cells_plain(vals, row, lo, range, color);
        let pad = crate::terminal::format::sat_sub(crate::terminal::format::sat_sub(width, 2), 11 + vals.len());
        lemma_join3(seq!['\u{2502}'], pad_left(label, 10), seq![' ']);
        lemma_concat(seq!['\u{2502}'] + pad_left(label, 10) + seq![' '], row_cells(vals, row, lo, range, color, false));
        lemma_join3(
            seq!['\u{2502}'] + pad_left(label, 10) + seq![' '] + row_cells(vals, row, lo, range, color, false),
            repeat_char(' ', pad),
            seq!['\u{2502}', '\n'],
        );
        reveal(chart_row);
        lemma_concat(
            chart_rows(vals, (k - 1) as nat, unit, hi, lo, range, color, width, false),
            chart_row(vals, row, unit, hi, lo, range, color, width, false),
        );
    }
}

/// Without colors, the time-axis line is plain text.
proof fn lemma_axis_row_plain(width: nat, secs: nat, nanos: nat)
    ensures
        no_esc(chart_axis_row(width, secs, nanos, false)),
{
    let bw = bar_width(width);
    let texts = axis_labels_text(secs, nanos);
    let labels = texts.map_values(|t: Seq<char>| encode_utf8(t));
    assert forall|i: int, j: int| 0 <= i < 5 && 0 <= j < labels[i].len() implies #[trigger] labels[i][j] != 27u8 by {
        let t = texts[i];
        let d = crate::binary64::secs_f64(secs, nanos);
        assert(t == time_short_text(quarter_of(d, i as nat)));
        lemma_time_short_ascii(quarter_of(d, i as nat));
        is_ascii_chars_encode_utf8(t);
        assert(t[j] != '\x1b');
        assert(t[j] as u8 == encode_utf8(t)[j]);
    }
    lemma_axis_bytes_plain(bw, labels, 5);
    let axis = axis_text(bw, labels);
    assert forall|j: int| 0 <= j < axis.len() implies axis[j] != '\x1b' by {
        assert(axis_bytes(bw, labels, 5)[j] != 27u8);
    }
    let pad = crate::terminal::format::sat_sub(crate::terminal::format::sat_sub(width, 2), 11 + bw);
    lemma_join3(seq!['\u{2502}'], repeat_char(' ', 11), axis);
    lemma_join3(seq!['\u{2502}'] + repeat_char(' ', 11) + axis, repeat_char(' ', pad), seq!['\u{2502}', '\n']);
}

/// Without colors, the head of a chart holds no escape character unless
/// its title or subtitle does.
proof fn lemma_chart_head_plain(title: Seq<char>, subtitle: Seq<char>, width: nat)
    requires
        no_esc(title),
        no_esc(subtitle),
    ensures
        no_esc(chart_head(title, subtitle, width, false)),
{
    let tp = seq![' '] + title + seq![' '];
    let sp = if subtitle.len() == 0 {
        Seq::<char>::empty()
    } else {
        seq![' '] + subtitle + seq![' ']
    };
    lemma_join3(seq![' '], title, seq![' ']);
    lemma_join3(seq![' '], subtitle, seq![' ']);
    let sub_bytes: nat = if subtitle.len() == 0 {
        0
    } else {
        crate::text::utf8_len(subtitle) + 2
    };
    let fill = crate::terminal::format::sat_sub(width, 2 + (crate::text::utf8_len(title) + 2) + sub_bytes + 1);
    lemma_join3(seq!['\u{256d}', '\u{2500}'], tp, sp);
    lemma_join3(seq!['\u{256d}', '\u{2500}'] + tp + sp, repeat_char('\u{2500}', fill), seq!['\u{256e}', '\n']);
}

/// Drawn without colors, a chart holds no escape character unless its
/// title or subtitle does.
#[verifier::spinoff_prover]
pub proof fn law_plain_chart_has_no_escapes(
    title: Seq<char>,
    subtitle: Seq<char>,
    values: Seq<(u128, i32)>,
    color: ChartColor,
    unit: ChartUnit,
    secs: nat,
    nanos: nat,
    width: nat,
)
    requires
        no_esc(title),
        no_esc(subtitle),
    ensures
        no_esc(chart_text(title, subtitle, values, color, unit, secs, nanos, width, false)),
{
    let vals = downsampled(values, bar_width(width));
    if values.len() > 0 && vals.len() > 0 {
        let hi = crate::terminal::chart::b64(crate::terminal::chart::seq_max(vals));
        let lo = crate::terminal::chart::scale_min(vals);
        let range = crate::terminal::chart::scale_range(hi, lo);
        lemma_chart_head_plain(title, subtitle, width);
        // the rows, the axis and the bottom
        lemma_chart_rows_plain(vals, 5, unit, hi, lo, range, color, width);
        lemma_axis_row_plain(width, secs, nanos);
        lemma_repeat('\u{2500}', crate::terminal::format::sat_sub(width, 2));
        lemma_join3(seq!['\u{2570}'], repeat_char('\u{2500}', crate::terminal::format::sat_sub(width, 2)), seq!['\u{256f}', '\n']);
        lemma_join3(
            chart_head(title, subtitle, width, false),
            chart_rows(vals, 5, unit, hi, lo, range, color, width, false),
            chart_axis_row(width, secs, nanos, false),
        );
        lemma_concat(
            chart_head(title, subtitle, width, false) + chart_rows(vals, 5, unit, hi, lo, range, color, width, false)
                + chart_axis_row(width, secs, nanos, false),
            box_bottom_text(width, false),
        );
    }
}

} // verus!
