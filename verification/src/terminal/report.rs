//! The text of the report's sections: header values, summary rows, Python
//! timeline rows and insight rows (each later framed by `box_row`), and the
//! charts of the report with the rates they plot.
use vstd::prelude::*;
use crate::colors::{bold, bold_text, cyan, fg_text, green, red, yellow};
use crate::insights::{bytes_text, push_bytes};
use crate::binary64::{
    from_int, from_int_exec, is_norm, minus, minus_exec, mul_int, mul_int_exec, quot, quot_exec, round_int_exec,
    round_scaled, secs_f64, secs_f64_exec,
};
use crate::terminal::chart::{axis_labels_text, axis_text, dim_char, dimmed_piece, time_axis, b64, chart_text, chart_value, chart_values, render_chart, Chart, ChartColor, ChartUnit};
use crate::metrics::{figures_wf, CpuFigures, SampleColumns, Summary};
use crate::numfmt::{fixed1_text, push_fixed1};
use crate::terminal::format::{sat_sub, colored_insight, colorize_insight, dur_text, fmt_dur, fmt_num, label_text, lbl, num_text};
use crate::text::{chars_of, dec_digits, push_chars, push_dec, push_repeat, push_str, repeat_char, same_chars, string_from_chars};
use crate::py_trace::PyTimelineRow;
use vstd::utf8::encode_utf8;

verus! {

/// An `i32` in decimal, with a minus sign when negative.
pub open spec fn int_text(i: int) -> Seq<char> {
    if i < 0 {
        seq!['-'] + dec_digits((-i) as nat)
    } else {
        dec_digits(i as nat)
    }
}

fn push_int(out: &mut Vec<char>, i: i32)
    ensures
        final(out)@ == old(out)@ + int_text(i as int),
{
    if i < 0 {
        out.push('-');
        let m: i64 = -(i as i64);
        push_dec(out, m as u128);
    } else {
        push_dec(out, i as u128);
    }
}

/// How the monitored command ended: its exit code (green when 0, red
/// otherwise, when colors are on), the signal that killed it (red), or
/// `unknown`.
pub open spec fn exit_text(exit_code: Option<i32>, signal: Option<i32>, uc: bool) -> Seq<char> {
    match (exit_code, signal) {
        (Some(0), _) => if uc {
            fg_text('2', seq!['0'])
        } else {
            seq!['0']
        },
        (Some(c), _) => if uc {
            fg_text('1', int_text(c as int))
        } else {
            int_text(c as int)
        },
        (None, Some(s)) => {
            let m = "signal "@ + int_text(s as int);
            if uc {
                fg_text('1', m)
            } else {
                m
            }
        },
        _ => "unknown"@,
    }
}

/// The exit status shown in the report header (see `exit_text`).
pub fn exit_status(exit_code: Option<i32>, signal: Option<i32>, uc: bool) -> (s: String)
    ensures
        s@ == exit_text(exit_code, signal, uc),
{
    match (exit_code, signal) {
        (Some(0), _) => {
            if uc {
                proof {
                    reveal_strlit("0");
                }
                assert("0"@ =~= seq!['0']);
                green("0")
            } else {
                let mut v: Vec<char> = Vec::new();
                v.push('0');
                string_from_chars(&v)
            }
        },
        (Some(c), _) => {
            let mut v: Vec<char> = Vec::new();
            push_int(&mut v, c);
            let t = string_from_chars(&v);
            if uc {
                red(&t)
            } else {
                t
            }
        },
        (None, Some(sig)) => {
            let mut v: Vec<char> = Vec::new();
            push_str(&mut v, "signal ");
            push_int(&mut v, sig);
            let m = string_from_chars(&v);
            if uc {
                red(&m)
            } else {
                m
            }
        },
        _ => string_from_chars(&chars_of("unknown")),
    }
}

/// `s` padded with spaces to at least `w` characters (`{:<w}`).
pub open spec fn pad_right(s: Seq<char>, w: nat) -> Seq<char> {
    if s.len() < w {
        s + repeat_char(' ', (w - s.len()) as nat)
    } else {
        s
    }
}

fn push_padded(out: &mut Vec<char>, s: &str, w: usize)
    ensures
        final(out)@ == old(out)@ + pad_right(s@, w as nat),
{
    let v = chars_of(s);
    push_str(out, s);
    if v.len() < w {
        push_repeat(out, ' ', w - v.len());
    }
}

/// A labelled field: the label (bold with colors) padded to 13 characters,
/// then the value.
pub open spec fn field_text(label: Seq<char>, value: Seq<char>, uc: bool) -> Seq<char> {
    pad_right(label_text(label, uc), 13) + value
}

fn push_field_label(out: &mut Vec<char>, label: &str, uc: bool)
    ensures
        final(out)@ == old(out)@ + pad_right(label_text(label@, uc), 13),
{
    let l = lbl(label, uc);
    push_padded(out, &l, 13);
}

/// A header row: ` Label:      value`.
pub fn header_row(label: &str, value: &str, uc: bool) -> (s: String)
    ensures
        s@ == seq![' '] + field_text(label@, value@, uc),
{
    let mut out: Vec<char> = Vec::new();
    out.push(' ');
    push_field_label(&mut out, label, uc);
    push_str(&mut out, value);
    string_from_chars(&out)
}

/// The thread counts: `initial -> final (peak p)` when the count ever
/// changed or exceeded one, else just the final count.
pub open spec fn threads_text(s: Summary) -> Seq<char> {
    if s.peak_threads > 1 || s.initial_threads != s.final_threads {
        dec_digits(s.initial_threads as nat) + " -> "@ + dec_digits(s.final_threads as nat)
            + " (peak "@ + dec_digits(s.peak_threads as nat) + ")"@
    } else {
        dec_digits(s.final_threads as nat)
    }
}

/// ` Memory:      a -> b (peak c)` without the leading space.
pub open spec fn memory_part(s: Summary, uc: bool) -> Seq<char> {
    field_text(
        "Memory:"@,
        bytes_text(s.initial_rss_bytes as nat) + " -> "@ + bytes_text(s.final_rss_bytes as nat)
            + " (peak "@ + bytes_text(s.peak_rss_bytes as nat) + ")"@,
        uc,
    )
}

pub open spec fn io_part(s: Summary, uc: bool) -> Seq<char> {
    seq![' '] + field_text(
        "I/O:"@,
        bytes_text(s.total_rchar as nat) + " read, "@ + bytes_text(s.total_wchar as nat)
            + " written"@,
        uc,
    )
}

pub open spec fn net_part(s: Summary, uc: bool) -> Seq<char> {
    field_text(
        "Network:"@,
        bytes_text(s.total_net_rx_bytes as nat) + " in, "@ + bytes_text(
            s.total_net_tx_bytes as nat,
        ) + " out (host)"@,
        uc,
    )
}

pub open spec fn ctx_part(s: Summary, uc: bool) -> Seq<char> {
    seq![' '] + field_text(
        "Ctx switch:"@,
        num_text(s.total_voluntary_ctxt_switches as nat) + " vol, "@ + num_text(
            s.total_nonvoluntary_ctxt_switches as nat,
        ) + " invol"@,
        uc,
    )
}

pub open spec fn faults_part(s: Summary, uc: bool) -> Seq<char> {
    field_text(
        "Page faults:"@,
        num_text(s.total_minflt as nat) + " minor, "@ + num_text(s.total_majflt as nat)
            + " major"@,
        uc,
    )
}

pub open spec fn threads_part(s: Summary, uc: bool) -> Seq<char> {
    seq![' '] + field_text("Threads:"@, threads_text(s), uc)
}

pub open spec fn fds_part(s: Summary, uc: bool) -> Seq<char> {
    field_text(
        "File descs:"@,
        dec_digits(s.final_fd_count as nat) + " (peak "@ + dec_digits(s.peak_fd_count as nat)
            + ")"@,
        uc,
    )
}

pub open spec fn processes_part(s: Summary, uc: bool) -> Seq<char> {
    seq![' '] + field_text(
        "Processes:"@,
        dec_digits(s.child_processes_spawned as nat) + " spawned"@,
        uc,
    )
}

/// The rows of the summary box: the CPU figures (rendered into `cpu_part`)
/// beside memory, I/O beside network, context switches beside page faults,
/// threads beside file descriptors, and the spawned processes when there
/// were any.
pub open spec fn summary_rows_text(s: Summary, cpu_part: Seq<char>, uc: bool) -> Seq<Seq<char>> {
    let sep = "    "@;
    let rows = seq![
        cpu_part + sep + memory_part(s, uc),
        io_part(s, uc) + sep + net_part(s, uc),
        ctx_part(s, uc) + sep + faults_part(s, uc),
        threads_part(s, uc) + sep + fds_part(s, uc),
    ];
    if s.child_processes_spawned > 0 {
        rows.push(processes_part(s, uc))
    } else {
        rows
    }
}

fn push_num(out: &mut Vec<char>, n: u64)
    ensures
        final(out)@ == old(out)@ + num_text(n as nat),
{
    let t = fmt_num(n);
    push_str(out, &t);
}

fn push_memory_part(out: &mut Vec<char>, s: &Summary, uc: bool)
    ensures
        final(out)@ == old(out)@ + memory_part(*s, uc),
{
    let ghost start = out@;
    push_field_label(out, "Memory:", uc);
    push_bytes(out, s.initial_rss_bytes);
    push_str(out, " -> ");
    push_bytes(out, s.final_rss_bytes);
    push_str(out, " (peak ");
    push_bytes(out, s.peak_rss_bytes);
    push_str(out, ")");
    assert(out@ =~= start + memory_part(*s, uc));
}

fn push_io_part(out: &mut Vec<char>, s: &Summary, uc: bool)
    ensures
        final(out)@ == old(out)@ + io_part(*s, uc),
{
    let ghost start = out@;
    out.push(' ');
    push_field_label(out, "I/O:", uc);
    push_bytes(out, s.total_rchar);
    push_str(out, " read, ");
    push_bytes(out, s.total_wchar);
    push_str(out, " written");
    assert(out@ =~= start + io_part(*s, uc));
}

fn push_net_part(out: &mut Vec<char>, s: &Summary, uc: bool)
    ensures
        final(out)@ == old(out)@ + net_part(*s, uc),
{
    let ghost start = out@;
    push_field_label(out, "Network:", uc);
    push_bytes(out, s.total_net_rx_bytes);
    push_str(out, " in, ");
    push_bytes(out, s.total_net_tx_bytes);
    push_str(out, " out (host)");
    assert(out@ =~= start + net_part(*s, uc));
}

fn push_ctx_part(out: &mut Vec<char>, s: &Summary, uc: bool)
    ensures
        final(out)@ == old(out)@ + ctx_part(*s, uc),
{
    let ghost start = out@;
    out.push(' ');
    push_field_label(out, "Ctx switch:", uc);
    push_num(out, s.total_voluntary_ctxt_switches);
    push_str(out, " vol, ");
    push_num(out, s.total_nonvoluntary_ctxt_switches);
    push_str(out, " invol");
    assert(out@ =~= start + ctx_part(*s, uc));
}

fn push_faults_part(out: &mut Vec<char>, s: &Summary, uc: bool)
    ensures
        final(out)@ == old(out)@ + faults_part(*s, uc),
{
    let ghost start = out@;
    push_field_label(out, "Page faults:", uc);
    push_num(out, s.total_minflt);
    push_str(out, " minor, ");
    push_num(out, s.total_majflt);
    push_str(out, " major");
    assert(out@ =~= start + faults_part(*s, uc));
}

fn push_threads_part(out: &mut Vec<char>, s: &Summary, uc: bool)
    ensures
        final(out)@ == old(out)@ + threads_part(*s, uc),
{
    let ghost start = out@;
    out.push(' ');
    push_field_label(out, "Threads:", uc);
    let ghost mid = out@;
    if s.peak_threads > 1 || s.initial_threads != s.final_threads {
        push_dec(out, s.initial_threads as u128);
        push_str(out, " -> ");
        push_dec(out, s.final_threads as u128);
        push_str(out, " (peak ");
        push_dec(out, s.peak_threads as u128);
        push_str(out, ")");
    } else {
        push_dec(out, s.final_threads as u128);
    }
    assert(out@ =~= mid + threads_text(*s));
    assert(out@ =~= start + threads_part(*s, uc));
}

fn push_fds_part(out: &mut Vec<char>, s: &Summary, uc: bool)
    ensures
        final(out)@ == old(out)@ + fds_part(*s, uc),
{
    let ghost start = out@;
    push_field_label(out, "File descs:", uc);
    push_dec(out, s.final_fd_count as u128);
    push_str(out, " (peak ");
    push_dec(out, s.peak_fd_count as u128);
    push_str(out, ")");
    assert(out@ =~= start + fds_part(*s, uc));
}

fn push_processes_part(out: &mut Vec<char>, s: &Summary, uc: bool)
    ensures
        final(out)@ == old(out)@ + processes_part(*s, uc),
{
    let ghost start = out@;
    out.push(' ');
    push_field_label(out, "Processes:", uc);
    push_dec(out, s.child_processes_spawned as u128);
    push_str(out, " spawned");
    assert(out@ =~= start + processes_part(*s, uc));
}

/// A percentage held as the binary64 number `p` (value `p.0 * 2^p.1`),
/// written with one decimal as `{:.1}` writes it.
pub open spec fn percent_text(p: (u128, i32)) -> Seq<char> {
    fixed1_text(round_scaled((p.0 as nat, p.1 as int), 10))
}

/// `percent_text(p)` for a utilisation that `figures_wf` admits.
pub fn percent_string(p: (u128, i32)) -> (s: String)
    requires
        crate::binary64::is_norm((p.0 as nat, p.1 as int)),
        p.1 <= 60,
    ensures
        s@ == percent_text(p),
{
    let t = round_int_exec(p, 10);
    let mut v: Vec<char> = Vec::new();
    push_fixed1(&mut v, t);
    string_from_chars(&v)
}

/// The CPU figure that opens the summary:
/// ` CPU:         12.5% (user 1.20s, sys 30.00ms)`.
pub open spec fn cpu_part_text(f: CpuFigures, uc: bool) -> Seq<char> {
    seq![' '] + pad_right(label_text("CPU:"@, uc), 13) + percent_text(f.cpu_percent) + "% (user "@
        + dur_text(f.user_secs as nat, f.user_nanos as nat) + ", sys "@ + dur_text(
        f.sys_secs as nat,
        f.sys_nanos as nat,
    ) + ")"@
}

/// The CPU figure of the summary (see `cpu_part_text`), handed to
/// `summary_rows`.
#[verifier::spinoff_prover]
pub fn cpu_part(f: &CpuFigures, uc: bool) -> (s: String)
    requires
        figures_wf(*f),
    ensures
        s@ == cpu_part_text(*f, uc),
{
    let mut v: Vec<char> = Vec::new();
    v.push(' ');
    push_field_label(&mut v, "CPU:", uc);
    let pct = percent_string(f.cpu_percent);
    push_str(&mut v, &pct);
    push_str(&mut v, "% (user ");
    let u = fmt_dur(f.user_secs, f.user_nanos);
    push_str(&mut v, &u);
    push_str(&mut v, ", sys ");
    let st = fmt_dur(f.sys_secs, f.sys_nanos);
    push_str(&mut v, &st);
    push_str(&mut v, ")");
    string_from_chars(&v)
}

/// The summary rows (see `summary_rows_text`); `cpu_part` is the rendered
/// CPU figure that opens the first row.
pub fn summary_rows(s: &Summary, cpu_part: &str, uc: bool) -> (rows: Vec<String>)
    ensures
        rows@.map_values(|r: String| r@) == summary_rows_text(*s, cpu_part@, uc),
{
    let mut rows: Vec<String> = Vec::new();
    let mut r1: Vec<char> = Vec::new();
    push_str(&mut r1, cpu_part);
    push_str(&mut r1, "    ");
    push_memory_part(&mut r1, s, uc);
    rows.push(string_from_chars(&r1));
    let mut r2: Vec<char> = Vec::new();
    push_io_part(&mut r2, s, uc);
    push_str(&mut r2, "    ");
    push_net_part(&mut r2, s, uc);
    rows.push(string_from_chars(&r2));
    let mut r3: Vec<char> = Vec::new();
    push_ctx_part(&mut r3, s, uc);
    push_str(&mut r3, "    ");
    push_faults_part(&mut r3, s, uc);
    rows.push(string_from_chars(&r3));
    let mut r4: Vec<char> = Vec::new();
    push_threads_part(&mut r4, s, uc);
    push_str(&mut r4, "    ");
    push_fds_part(&mut r4, s, uc);
    rows.push(string_from_chars(&r4));
    if s.child_processes_spawned > 0 {
        let mut r5: Vec<char> = Vec::new();
        push_processes_part(&mut r5, s, uc);
        rows.push(string_from_chars(&r5));
    }
    assert(rows@.map_values(|r: String| r@) =~= summary_rows_text(*s, cpu_part@, uc));
    rows
}

/// An insight line of the report: tagged and colored (see
/// `colored_insight`) with colors on, else indented by one space.
pub open spec fn insight_row_text(insight: Seq<char>, uc: bool) -> Seq<char> {
    if uc {
        colored_insight(insight)
    } else {
        seq![' '] + insight
    }
}

/// The text of an insight row (see `insight_row_text`).
pub fn insight_row(insight: &str, uc: bool) -> (s: String)
    ensures
        s@ == insight_row_text(insight@, uc),
{
    if uc {
        colorize_insight(insight)
    } else {
        let mut v: Vec<char> = Vec::new();
        v.push(' ');
        push_str(&mut v, insight);
        string_from_chars(&v)
    }
}

/// The bracketed tag of a timeline row, in bold and in the color of its
/// resource (CPU cyan, MEM green, I/O yellow); another tag stays plain.
pub open spec fn timeline_tag_text(tag: Seq<char>) -> Seq<char> {
    let t = seq!['['] + tag + seq![']'];
    if tag == "CPU"@ {
        bold_text(fg_text('6', t))
    } else if tag == "MEM"@ {
        bold_text(fg_text('2', t))
    } else if tag == "I/O"@ {
        bold_text(fg_text('3', t))
    } else {
        t
    }
}

/// The digit of a resource tag's color, if it has one.
pub open spec fn tag_color(tag: Seq<char>) -> Option<char> {
    if tag == "CPU"@ {
        Some('6')
    } else if tag == "MEM"@ {
        Some('2')
    } else if tag == "I/O"@ {
        Some('3')
    } else {
        None
    }
}

/// The first line of a Python timeline row: label, tag and peak value,
/// separated by two spaces (label bold and tag colored with colors on).
pub open spec fn timeline_head_text(label: Seq<char>, tag: Seq<char>, peak: Seq<char>, uc: bool) -> Seq<
    char,
> {
    if uc {
        seq![' '] + bold_text(label) + seq![' ', ' '] + timeline_tag_text(tag) + seq![' ', ' ']
            + peak
    } else {
        seq![' '] + label + seq![' ', ' ', '['] + tag + seq![']', ' ', ' '] + peak
    }
}

/// The bar of a timeline row: every shaded cell in the tag's color when
/// colors are on (spaces stay plain).
pub open spec fn colored_bar(bar: Seq<char>, tag: Seq<char>, uc: bool) -> Seq<char>
    decreases bar.len(),
{
    if bar.len() == 0 {
        seq![]
    } else {
        let c = bar.last();
        colored_bar(bar.drop_last(), tag, uc) + if uc && c != ' ' && tag_color(tag) is Some {
            fg_text(tag_color(tag)->0, seq![c])
        } else {
            seq![c]
        }
    }
}

/// The second line of a timeline row: the bar under the label column.
pub open spec fn timeline_bar_text(bar: Seq<char>, tag: Seq<char>, uc: bool, label_w: nat) -> Seq<
    char,
> {
    repeat_char(' ', label_w) + seq![' '] + colored_bar(bar, tag, uc)
}

fn tag_kind(tag: &Vec<char>) -> (k: u8)
    ensures
        k == 0 <==> tag@ == "CPU"@,
        k == 1 <==> (tag@ != "CPU"@ && tag@ == "MEM"@),
        k == 2 <==> (tag@ != "CPU"@ && tag@ != "MEM"@ && tag@ == "I/O"@),
        k == 3 <==> (tag@ != "CPU"@ && tag@ != "MEM"@ && tag@ != "I/O"@),
{
    if same_chars(tag, &chars_of("CPU")) {
        0
    } else if same_chars(tag, &chars_of("MEM")) {
        1
    } else if same_chars(tag, &chars_of("I/O")) {
        2
    } else {
        3
    }
}

/// The first line of a timeline row (see `timeline_head_text`).
pub fn timeline_head(row: &PyTimelineRow, uc: bool) -> (s: String)
    ensures
        s@ == timeline_head_text(row.label@, row.tag@, row.peak@, uc),
{
    let mut out: Vec<char> = Vec::new();
    out.push(' ');
    let tag = chars_of(row.tag.as_str());
    let mut t: Vec<char> = Vec::new();
    t.push('[');
    push_chars(&mut t, &tag);
    t.push(']');
    let ts = string_from_chars(&t);
    if uc {
        push_str(&mut out, &bold(row.label.as_str()));
        out.push(' ');
        out.push(' ');
        let k = tag_kind(&tag);
        let ghost mid = out@;
        if k == 0 {
            push_str(&mut out, &bold(&cyan(&ts)));
        } else if k == 1 {
            push_str(&mut out, &bold(&green(&ts)));
        } else if k == 2 {
            push_str(&mut out, &bold(&yellow(&ts)));
        } else {
            push_str(&mut out, &ts);
        }
        assert(out@ =~= mid + timeline_tag_text(row.tag@));
    } else {
        push_str(&mut out, row.label.as_str());
        out.push(' ');
        out.push(' ');
        push_str(&mut out, &ts);
    }
    out.push(' ');
    out.push(' ');
    push_str(&mut out, row.peak.as_str());
    assert(out@ =~= timeline_head_text(row.label@, row.tag@, row.peak@, uc));
    string_from_chars(&out)
}

/// The second line of a timeline row (see `timeline_bar_text`).
pub fn timeline_bar(row: &PyTimelineRow, uc: bool, label_w: usize) -> (s: String)
    ensures
        s@ == timeline_bar_text(row.bar@, row.tag@, uc, label_w as nat),
{
    let mut out: Vec<char> = Vec::new();
    push_repeat(&mut out, ' ', label_w);
    out.push(' ');
    let ghost start = out@;
    let tag = chars_of(row.tag.as_str());
    let k = tag_kind(&tag);
    let bar = chars_of(row.bar.as_str());
    let mut i: usize = 0;
    while i < bar.len()
        invariant
            i <= bar@.len(),
            bar@ == row.bar@,
            tag@ == row.tag@,
            k == 0 <==> tag@ == "CPU"@,
            k == 1 <==> (tag@ != "CPU"@ && tag@ == "MEM"@),
            k == 2 <==> (tag@ != "CPU"@ && tag@ != "MEM"@ && tag@ == "I/O"@),
            k == 3 <==> (tag@ != "CPU"@ && tag@ != "MEM"@ && tag@ != "I/O"@),
            out@ == start + colored_bar(bar@.take(i as int), row.tag@, uc),
        decreases bar@.len() - i,
    {
        let c = bar[i];
        let ghost before = out@;
        let mut one: Vec<char> = Vec::new();
        one.push(c);
        let cs = string_from_chars(&one);
        if uc && c != ' ' && k < 3 {
            if k == 0 {
                push_str(&mut out, &cyan(&cs));
            } else if k == 1 {
                push_str(&mut out, &green(&cs));
            } else {
                push_str(&mut out, &yellow(&cs));
            }
        } else {
            out.push(c);
        }
        assert(bar@.take(i + 1).drop_last() =~= bar@.take(i as int));
        i = i + 1;
        assert(out@ =~= start + colored_bar(bar@.take(i as int), row.tag@, uc));
    }
    assert(bar@.take(bar@.len() as int) =~= bar@);
    string_from_chars(&out)
}

/// The sections of the report printed besides the header, the summary and
/// the charts, which always are.
pub struct ReportSections {
    /// The Python timeline.
    pub timeline: bool,
    /// The insights.
    pub insights: bool,
}

/// The optional sections of a report: the timeline when a Python trace was
/// taken; the insights unless the report is quiet or there is none, of
/// either kind.
pub fn report_sections(has_py_trace: bool, quiet: bool, insights: usize, py_insights: usize) -> (r:
    ReportSections)
    ensures
        r.timeline == has_py_trace,
        r.insights == (!quiet && (insights > 0 || py_insights > 0)),
{
    ReportSections { timeline: has_py_trace, insights: !quiet && (insights > 0 || py_insights > 0) }
}

/// Width of the label column of the timeline.
pub open spec fn timeline_label_width() -> nat {
    10
}

/// Width of the timeline's bars in a box `w` columns wide: what is left
/// inside the frame after the label column and a space, at least 10.
pub open spec fn timeline_bar_width(w: nat) -> nat {
    let left = sat_sub(sat_sub(w, 2), timeline_label_width() + 1);
    if left < 10 {
        10
    } else {
        left
    }
}

/// The widths of the timeline's label column and bars in a box `w` columns
/// wide (see `timeline_bar_width`).
pub fn timeline_widths(w: usize) -> (r: (usize, usize))
    ensures
        r.0 == timeline_label_width(),
        r.1 == timeline_bar_width(w as nat),
{
    let label_w: usize = 10;
    let inner = w.saturating_sub(2);
    let left = inner.saturating_sub(label_w + 1);
    let bar_w = if left < 10 {
        10
    } else {
        left
    };
    (label_w, bar_w)
}

/// The title of the timeline box for a run of `secs` seconds and `nanos`
/// nanoseconds.
pub open spec fn timeline_title_text(secs: nat, nanos: nat) -> Seq<char> {
    "Python Timeline  \u{2192}  "@ + dur_text(secs, nanos)
}

/// The title of the timeline box (see `timeline_title_text`).
pub fn timeline_title(secs: u64, nanos: u32) -> (s: String)
    requires
        nanos < 1_000_000_000,
    ensures
        s@ == timeline_title_text(secs as nat, nanos as nat),
{
    let mut out: Vec<char> = Vec::new();
    push_str(&mut out, "Python Timeline  \u{2192}  ");
    push_str(&mut out, &fmt_dur(secs, nanos));
    string_from_chars(&out)
}

/// The last line of the timeline: the time axis of the run under the bars,
/// `bar_w` columns wide, after the label column.
pub open spec fn timeline_axis_row_text(label_w: nat, bar_w: nat, secs: nat, nanos: nat, uc: bool) -> Seq<
    char,
> {
    repeat_char(' ', label_w) + seq![' '] + dimmed_piece(
        axis_text(bar_w, axis_labels_text(secs, nanos).map_values(|t: Seq<char>| encode_utf8(t))),
        uc,
    )
}

/// The last line of the timeline (see `timeline_axis_row_text`).
pub fn timeline_axis_row(label_w: usize, bar_w: usize, secs: u64, nanos: u32, uc: bool) -> (s: String)
    requires
        nanos < 1_000_000_000,
    ensures
        s@ == timeline_axis_row_text(label_w as nat, bar_w as nat, secs as nat, nanos as nat, uc),
{
    let mut out: Vec<char> = Vec::new();
    push_repeat(&mut out, ' ', label_w);
    out.push(' ');
    let axis = time_axis(bar_w, secs, nanos);
    push_str(&mut out, &dim_char(&axis, uc));
    string_from_chars(&out)
}

/// `Duration::from_nanos(n).as_secs_f64()`.
pub open spec fn nanos_secs(n: nat) -> (nat, int) {
    secs_f64(n / 1_000_000_000, n % 1_000_000_000)
}

/// The nanoseconds from sample `i` to the next.
pub open spec fn step_nanos(ts: Seq<u64>, i: int) -> nat {
    (ts[i + 1] - ts[i]) as nat
}

/// No timestamp is earlier than the one before it (subtracting the
/// durations of a later sample from an earlier one would panic).
pub open spec fn in_time_order(ts: Seq<u64>) -> bool {
    forall|i: int| 0 <= i < ts.len() - 1 ==> #[trigger] ts[i] <= ts[i + 1]
}

/// Whether the samples' timestamps are `in_time_order`.
pub fn timestamps_in_order(c: &SampleColumns) -> (r: bool)
    ensures
        r == in_time_order(c.timestamp@),
{
    let n = c.timestamp.len();
    let mut i: usize = 0;
    while i < n && i + 1 < n
        invariant
            n == c.timestamp@.len(),
            i <= n,
            forall|k: int| 0 <= k < i && k < n - 1 ==> #[trigger] c.timestamp@[k] <= c.timestamp@[k + 1],
        decreases n - i,
    {
        if c.timestamp[i] > c.timestamp[i + 1] {
            return false;
        }
        i = i + 1;
    }
    true
}

/// One interval's rate of growth from `a` to `b` over `dt` seconds:
/// `((b - a) / dt).max(0.0)`, and `0.0` for an interval of no time.
pub open spec fn step_rate(a: (nat, int), b: (nat, int), dt: (nat, int)) -> (nat, int) {
    if dt.0 == 0 {
        (0, 0)
    } else {
        let d = minus(b, a);
        if d.0 {
            (0, 0)
        } else {
            quot(d.1, dt)
        }
    }
}

/// A binary64 number as the pair a chart holds.
pub open spec fn pair_of(a: (nat, int)) -> (u128, i32) {
    (a.0 as u128, a.1 as i32)
}

/// The rate of a cumulative series `e` over each interval between the
/// timestamps `ts` (`compute_rate`).
pub open spec fn rate_series(e: spec_fn(int) -> (nat, int), ts: Seq<u64>) -> Seq<(u128, i32)> {
    let n = if ts.len() >= 1 {
        (ts.len() - 1) as nat
    } else {
        0
    };
    Seq::new(n, |i: int| pair_of(step_rate(e(i), e(i + 1), nanos_secs(step_nanos(ts, i)))))
}

/// A value that a rate is taken of: normalised, with an exponent that
/// keeps every rate a chart value.
pub open spec fn rate_input(v: (u128, i32)) -> bool {
    is_norm(b64(v)) && -117 <= v.1 <= 21
}

/// `nanos_secs(step_nanos(ts, i))`.
fn step_secs(ts: &Vec<u64>, i: usize) -> (dt: (u128, i32))
    requires
        i + 1 < ts@.len(),
        ts@[i as int] <= ts@[i + 1],
    ensures
        b64(dt) == nanos_secs(step_nanos(ts@, i as int)),
        is_norm(b64(dt)),
        -119 <= dt.1 <= 14,
        dt.0 != 0 ==> -82 <= dt.1,
{
    let len = ts.len();
    assert(i + 1 < len);
    let n = ts[i + 1] - ts[i];
    secs_f64_exec(n / 1_000_000_000, (n % 1_000_000_000) as u32)
}

/// The rates of the values `e` over the intervals between the timestamps
/// `ts` (see `rate_series`).
#[verifier::spinoff_prover]
fn rates_of(e: &Vec<(u128, i32)>, ts: &Vec<u64>, Ghost(f): Ghost<spec_fn(int) -> (nat, int)>) -> (r: Vec<(u128, i32)>)
    requires
        e@.len() == ts@.len(),
        in_time_order(ts@),
        forall|k: int| 0 <= k < e@.len() ==> rate_input(#[trigger] e@[k]) && b64(e@[k]) == f(k),
    ensures
        r@ == rate_series(f, ts@),
        chart_values(r@),
{
    let mut r: Vec<(u128, i32)> = Vec::new();
    let n = ts.len();
    if n < 2 {
        assert(r@ =~= rate_series(f, ts@));
        return r;
    }
    let mut i: usize = 0;
    while i + 1 < n
        invariant
            n == ts@.len(),
            n == e@.len(),
            n >= 2,
            i + 1 <= n,
            in_time_order(ts@),
            forall|k: int| 0 <= k < e@.len() ==> rate_input(#[trigger] e@[k]) && b64(e@[k]) == f(k),
            r@.len() == i,
            forall|k: int| 0 <= k < i ==> #[trigger] r@[k] == pair_of(
                step_rate(f(k), f(k + 1), nanos_secs(step_nanos(ts@, k))),
            ),
            chart_values(r@),
        decreases n - i,
    {
        assert(ts@[i as int] <= ts@[i + 1]);
        let dt = step_secs(ts, i);
        let a = e[i];
        let b = e[i + 1];
        assert(rate_input(e@[i as int]) && rate_input(e@[i + 1]));
        let v = if dt.0 == 0 {
            (0u128, 0i32)
        } else {
            let d = minus_exec(b, a);
            if d.0 {
                (0u128, 0i32)
            } else {
                quot_exec(d.1, dt)
            }
        };
        assert(b64(v) == step_rate(f(i as int), f(i + 1), nanos_secs(step_nanos(ts@, i as int))));
        assert(v == pair_of(b64(v)));
        r.push(v);
        i = i + 1;
    }
    assert(r@ =~= rate_series(f, ts@));
    r
}

/// `ticks as f64 / tps * 100.0`: CPU time in percent of a second.
pub open spec fn cpu_value(ticks: nat, tps: nat) -> (nat, int) {
    mul_int(quot(from_int(ticks), from_int(tps)), 100)
}

/// The CPU use of each interval, in percent.
pub open spec fn cpu_series(c: SampleColumns, tps: nat) -> Seq<(u128, i32)> {
    rate_series(|i: int| cpu_value((c.utime_ticks@[i] + c.stime_ticks@[i]) as nat, tps), c.timestamp@)
}

/// The character I/O of each interval, in bytes per second.
pub open spec fn io_series(c: SampleColumns) -> Seq<(u128, i32)> {
    rate_series(|i: int| from_int((c.rchar@[i] + c.wchar@[i]) as nat), c.timestamp@)
}

/// The host's network traffic in each interval, in bytes per second.
pub open spec fn net_series(c: SampleColumns) -> Seq<(u128, i32)> {
    rate_series(|i: int| from_int((c.net_rx_bytes@[i] + c.net_tx_bytes@[i]) as nat), c.timestamp@)
}

/// The resident memory of each sample, as binary64 numbers.
pub open spec fn rss_series(c: SampleColumns) -> Seq<(u128, i32)> {
    Seq::new(c.rss_bytes@.len(), |i: int| pair_of(from_int(c.rss_bytes@[i] as nat)))
}

/// The thread count of each sample, as binary64 numbers.
pub open spec fn thread_series(c: SampleColumns) -> Seq<(u128, i32)> {
    Seq::new(c.threads@.len(), |i: int| pair_of(from_int(c.threads@[i] as nat)))
}

/// The sums that the charts take of each sample fit in 64 bits.
pub open spec fn chart_sums_fit(c: SampleColumns) -> bool {
    forall|i: int|
        0 <= i < c.timestamp@.len() ==> {
            &&& #[trigger] c.utime_ticks@[i] + c.stime_ticks@[i] <= u64::MAX
            &&& c.rchar@[i] + c.wchar@[i] <= u64::MAX
            &&& c.net_rx_bytes@[i] + c.net_tx_bytes@[i] <= u64::MAX
        }
}

/// Whether `chart_sums_fit` holds.
pub fn charts_fit(c: &SampleColumns) -> (r: bool)
    requires
        c.wf(),
    ensures
        r == chart_sums_fit(*c),
{
    let n = c.timestamp.len();
    let mut i: usize = 0;
    while i < n
        invariant
            n == c.timestamp@.len(),
            c.wf(),
            i <= n,
            forall|k: int|
                0 <= k < i ==> {
                    &&& #[trigger] c.utime_ticks@[k] + c.stime_ticks@[k] <= u64::MAX
                    &&& c.rchar@[k] + c.wchar@[k] <= u64::MAX
                    &&& c.net_rx_bytes@[k] + c.net_tx_bytes@[k] <= u64::MAX
                },
        decreases n - i,
    {
        if c.utime_ticks[i] > u64::MAX - c.stime_ticks[i] || c.rchar[i] > u64::MAX - c.wchar[i]
            || c.net_rx_bytes[i] > u64::MAX - c.net_tx_bytes[i] {
            return false;
        }
        i = i + 1;
    }
    true
}

/// The CPU values of the samples (see `cpu_value`).
#[verifier::spinoff_prover]
fn cpu_inputs(c: &SampleColumns, tps: u64) -> (e: Vec<(u128, i32)>)
    requires
        c.wf(),
        chart_sums_fit(*c),
        tps > 0,
    ensures
        e@.len() == c.timestamp@.len(),
        forall|k: int|
            0 <= k < e@.len() ==> rate_input(#[trigger] e@[k]) && b64(e@[k]) == cpu_value(
                (c.utime_ticks@[k] + c.stime_ticks@[k]) as nat,
                tps as nat,
            ),
{
    let n = c.timestamp.len();
    let t = from_int_exec(tps);
    let mut e: Vec<(u128, i32)> = Vec::new();
    let mut i: usize = 0;
    while i < n
        invariant
            n == c.timestamp@.len(),
            c.wf(),
            chart_sums_fit(*c),
            b64(t) == from_int(tps as nat),
            crate::numfmt::two_pow(52) <= t.0 < crate::numfmt::two_pow(53),
            -52 <= t.1 <= 12,
            i <= n,
            e@.len() == i,
            forall|k: int|
                0 <= k < i ==> rate_input(#[trigger] e@[k]) && b64(e@[k]) == cpu_value(
                    (c.utime_ticks@[k] + c.stime_ticks@[k]) as nat,
                    tps as nat,
                ),
        decreases n - i,
    {
        assert(c.utime_ticks@[i as int] + c.stime_ticks@[i as int] <= u64::MAX);
        let ticks = c.utime_ticks[i] + c.stime_ticks[i];
        let q = quot_exec(from_int_exec(ticks), t);
        let v = mul_int_exec(q, 100);
        e.push(v);
        i = i + 1;
    }
    e
}

/// The binary64 values of a column of counts whose sums fit (see
/// `io_series` and `net_series`): `(a[k] + b[k]) as f64`.
fn sum_inputs(a: &Vec<u64>, b: &Vec<u64>) -> (e: Vec<(u128, i32)>)
    requires
        a@.len() == b@.len(),
        forall|k: int| 0 <= k < a@.len() ==> #[trigger] a@[k] + b@[k] <= u64::MAX,
    ensures
        e@.len() == a@.len(),
        forall|k: int|
            0 <= k < e@.len() ==> rate_input(#[trigger] e@[k]) && b64(e@[k]) == from_int((a@[k] + b@[k]) as nat),
{
    let n = a.len();
    let mut e: Vec<(u128, i32)> = Vec::new();
    let mut i: usize = 0;
    while i < n
        invariant
            n == a@.len(),
            a@.len() == b@.len(),
            forall|k: int| 0 <= k < a@.len() ==> #[trigger] a@[k] + b@[k] <= u64::MAX,
            i <= n,
            e@.len() == i,
            forall|k: int|
                0 <= k < i ==> rate_input(#[trigger] e@[k]) && b64(e@[k]) == from_int((a@[k] + b@[k]) as nat),
        decreases n - i,
    {
        assert(a@[i as int] + b@[i as int] <= u64::MAX);
        let v = from_int_exec(a[i] + b[i]);
        e.push(v);
        i = i + 1;
    }
    e
}

/// `rss_series(c)`.
fn rss_values(c: &SampleColumns) -> (r: Vec<(u128, i32)>)
    ensures
        r@ == rss_series(*c),
        chart_values(r@),
{
    let n = c.rss_bytes.len();
    let mut r: Vec<(u128, i32)> = Vec::new();
    let mut i: usize = 0;
    while i < n
        invariant
            n == c.rss_bytes@.len(),
            i <= n,
            r@.len() == i,
            forall|k: int| 0 <= k < i ==> #[trigger] r@[k] == pair_of(from_int(c.rss_bytes@[k] as nat)),
            chart_values(r@),
        decreases n - i,
    {
        let v = from_int_exec(c.rss_bytes[i]);
        assert(v == pair_of(b64(v)));
        r.push(v);
        i = i + 1;
    }
    assert(r@ =~= rss_series(*c));
    r
}

/// `thread_series(c)`.
fn thread_values(c: &SampleColumns) -> (r: Vec<(u128, i32)>)
    ensures
        r@ == thread_series(*c),
        chart_values(r@),
{
    let n = c.threads.len();
    let mut r: Vec<(u128, i32)> = Vec::new();
    let mut i: usize = 0;
    while i < n
        invariant
            n == c.threads@.len(),
            i <= n,
            r@.len() == i,
            forall|k: int| 0 <= k < i ==> #[trigger] r@[k] == pair_of(from_int(c.threads@[k] as nat)),
            chart_values(r@),
        decreases n - i,
    {
        let v = from_int_exec(c.threads[i] as u64);
        assert(v == pair_of(b64(v)));
        r.push(v);
        i = i + 1;
    }
    assert(r@ =~= thread_series(*c));
    r
}

/// The CPU chart's series (see `cpu_series`).
pub fn cpu_rates(c: &SampleColumns, tps: u64) -> (r: Vec<(u128, i32)>)
    requires
        c.wf(),
        chart_sums_fit(*c),
        in_time_order(c.timestamp@),
        tps > 0,
    ensures
        r@ == cpu_series(*c, tps as nat),
        chart_values(r@),
{
    let e = cpu_inputs(c, tps);
    rates_of(&e, &c.timestamp, Ghost(|i: int| cpu_value((c.utime_ticks@[i] + c.stime_ticks@[i]) as nat, tps as nat)))
}

/// The I/O chart's series (see `io_series`).
pub fn io_rates(c: &SampleColumns) -> (r: Vec<(u128, i32)>)
    requires
        c.wf(),
        chart_sums_fit(*c),
        in_time_order(c.timestamp@),
    ensures
        r@ == io_series(*c),
        chart_values(r@),
{
    assert forall|k: int| 0 <= k < c.rchar@.len() implies #[trigger] c.rchar@[k] + c.wchar@[k] <= u64::MAX by {
        assert(c.utime_ticks@[k] + c.stime_ticks@[k] <= u64::MAX);
    }
    let e = sum_inputs(&c.rchar, &c.wchar);
    rates_of(&e, &c.timestamp, Ghost(|i: int| from_int((c.rchar@[i] + c.wchar@[i]) as nat)))
}

/// The network chart's series (see `net_series`).
pub fn net_rates(c: &SampleColumns) -> (r: Vec<(u128, i32)>)
    requires
        c.wf(),
        chart_sums_fit(*c),
        in_time_order(c.timestamp@),
    ensures
        r@ == net_series(*c),
        chart_values(r@),
{
    assert forall|k: int|
        0 <= k < c.net_rx_bytes@.len() implies #[trigger] c.net_rx_bytes@[k] + c.net_tx_bytes@[k] <= u64::MAX by {
        assert(c.utime_ticks@[k] + c.stime_ticks@[k] <= u64::MAX);
    }
    let e = sum_inputs(&c.net_rx_bytes, &c.net_tx_bytes);
    rates_of(&e, &c.timestamp, Ghost(|i: int| from_int((c.net_rx_bytes@[i] + c.net_tx_bytes@[i]) as nat)))
}

/// The charts of the report: none for fewer than two samples; else CPU
/// use, resident memory, character I/O and host network traffic, and the
/// thread count when more than one thread ran, each over the run's length.
pub open spec fn charts_text(
    s: Summary,
    cpu: CpuFigures,
    c: SampleColumns,
    tps: nat,
    secs: nat,
    nanos: nat,
    width: nat,
    uc: bool,
) -> Seq<char> {
    if c.timestamp@.len() < 2 {
        Seq::empty()
    } else {
        chart_text(
            "CPU Utilization (%)"@,
            "avg "@ + percent_text(cpu.cpu_percent) + seq!['%'],
            cpu_series(c, tps),
            ChartColor::Cyan,
            ChartUnit::Percent,
            secs,
            nanos,
            width,
            uc,
        ) + chart_text(
            "Memory RSS"@,
            "peak "@ + bytes_text(s.peak_rss_bytes as nat),
            rss_series(c),
            ChartColor::Green,
            ChartUnit::Bytes,
            secs,
            nanos,
            width,
            uc,
        ) + chart_text(
            "I/O Rate"@,
            bytes_text(s.total_rchar as nat) + " read, "@ + bytes_text(s.total_wchar as nat) + " written"@,
            io_series(c),
            ChartColor::Yellow,
            ChartUnit::BytesPerSec,
            secs,
            nanos,
            width,
            uc,
        ) + chart_text(
            "Network (host)"@,
            bytes_text(s.total_net_rx_bytes as nat) + " in, "@ + bytes_text(s.total_net_tx_bytes as nat) + " out"@,
            net_series(c),
            ChartColor::Blue,
            ChartUnit::BytesPerSec,
            secs,
            nanos,
            width,
            uc,
        ) + if s.peak_threads > 1 {
            chart_text(
                "Threads"@,
                "peak "@ + dec_digits(s.peak_threads as nat),
                thread_series(c),
                ChartColor::Magenta,
                ChartUnit::Count,
                secs,
                nanos,
                width,
                uc,
            )
        } else {
            Seq::empty()
        }
    }
}

/// The I/O chart plots the character I/O read and written together: for
/// each interval between two samples, the growth of `rchar + wchar` over
/// it divided by its length in seconds (none where it fell, and none over
/// an interval of no time). Its subtitle gives the run's totals of each.
pub proof fn law_io_chart_plots_reads_and_writes(
    s: Summary,
    cpu: CpuFigures,
    c: SampleColumns,
    tps: nat,
    secs: nat,
    nanos: nat,
    width: nat,
    uc: bool,
)
    requires
        c.wf(),
        c.timestamp@.len() >= 2,
    ensures
        exists|pre: Seq<char>, v: Seq<(u128, i32)>, post: Seq<char>|
            {
                &&& charts_text(s, cpu, c, tps, secs, nanos, width, uc) == #[trigger] (pre + chart_text(
                    "I/O Rate"@,
                    bytes_text(s.total_rchar as nat) + " read, "@ + bytes_text(s.total_wchar as nat)
                        + " written"@,
                    v,
                    ChartColor::Yellow,
                    ChartUnit::BytesPerSec,
                    secs,
                    nanos,
                    width,
                    uc,
                ) + post)
                &&& v.len() == c.timestamp@.len() - 1
                &&& forall|i: int|
                    0 <= i < v.len() ==> #[trigger] v[i] == pair_of(
                        step_rate(
                            from_int((c.rchar@[i] + c.wchar@[i]) as nat),
                            from_int((c.rchar@[i + 1] + c.wchar@[i + 1]) as nat),
                            nanos_secs((c.timestamp@[i + 1] - c.timestamp@[i]) as nat),
                        ),
                    )
            },
{
    let v = Seq::new(
        (c.timestamp@.len() - 1) as nat,
        |i: int|
            pair_of(
                step_rate(
                    from_int((c.rchar@[i] + c.wchar@[i]) as nat),
                    from_int((c.rchar@[i + 1] + c.wchar@[i + 1]) as nat),
                    nanos_secs((c.timestamp@[i + 1] - c.timestamp@[i]) as nat),
                ),
            ),
    );
    assert(io_series(c) =~= v);
    let sub = bytes_text(s.total_rchar as nat) + " read, "@ + bytes_text(s.total_wchar as nat) + " written"@;
    let a = chart_text(
        "CPU Utilization (%)"@,
        "avg "@ + percent_text(cpu.cpu_percent) + seq!['%'],
        cpu_series(c, tps),
        ChartColor::Cyan,
        ChartUnit::Percent,
        secs,
        nanos,
        width,
        uc,
    );
    let b = chart_text(
        "Memory RSS"@,
        "peak "@ + bytes_text(s.peak_rss_bytes as nat),
        rss_series(c),
        ChartColor::Green,
        ChartUnit::Bytes,
        secs,
        nanos,
        width,
        uc,
    );
    let io = chart_text("I/O Rate"@, sub, v, ChartColor::Yellow, ChartUnit::BytesPerSec, secs, nanos, width, uc);
    let d = chart_text(
        "Network (host)"@,
        bytes_text(s.total_net_rx_bytes as nat) + " in, "@ + bytes_text(s.total_net_tx_bytes as nat) + " out"@,
        net_series(c),
        ChartColor::Blue,
        ChartUnit::BytesPerSec,
        secs,
        nanos,
        width,
        uc,
    );
    let e = if s.peak_threads > 1 {
        chart_text(
            "Threads"@,
            "peak "@ + dec_digits(s.peak_threads as nat),
            thread_series(c),
            ChartColor::Magenta,
            ChartUnit::Count,
            secs,
            nanos,
            width,
            uc,
        )
    } else {
        Seq::empty()
    };
    assert(charts_text(s, cpu, c, tps, secs, nanos, width, uc) == a + b + io + d + e);
    assert(a + b + io + d + e =~= (a + b) + io + (d + e));
    assert(charts_text(s, cpu, c, tps, secs, nanos, width, uc) == (a + b) + io + (d + e));
}

/// The report's charts at `tps` clock ticks per second (see `charts_text`).
#[verifier::spinoff_prover]
pub fn charts_at(
    s: &Summary,
    cpu: &CpuFigures,
    c: &SampleColumns,
    tps: u64,
    wall_secs: u64,
    wall_nanos: u32,
    width: usize,
    uc: bool,
) -> (r: String)
    requires
        c.wf(),
        chart_sums_fit(*c),
        in_time_order(c.timestamp@),
        tps > 0,
        figures_wf(*cpu),
        c.timestamp@.len() < crate::numfmt::two_pow(52),
        wall_nanos < 1_000_000_000,
    ensures
        r@ == charts_text(*s, *cpu, *c, tps as nat, wall_secs as nat, wall_nanos as nat, width as nat, uc),
{
    let mut out: Vec<char> = Vec::new();
    if c.timestamp.len() < 2 {
        return string_from_chars(&out);
    }
    let mut sub: Vec<char> = Vec::new();
    push_str(&mut sub, "avg ");
    push_str(&mut sub, &percent_string(cpu.cpu_percent));
    sub.push('%');
    assert(sub@ =~= "avg "@ + percent_text(cpu.cpu_percent) + seq!['%']);
    let cpu_sub = string_from_chars(&sub);
    let cpu_chart = Chart {
        title: "CPU Utilization (%)",
        subtitle: &cpu_sub,
        values: cpu_rates(c, tps),
        color: ChartColor::Cyan,
        unit: ChartUnit::Percent,
        duration_secs: wall_secs,
        duration_nanos: wall_nanos,
    };
    push_str(&mut out, &render_chart(&cpu_chart, width, uc));
    assert(out@ =~= chart_text(
        "CPU Utilization (%)"@,
        "avg "@ + percent_text(cpu.cpu_percent) + seq!['%'],
        cpu_series(*c, tps as nat),
        ChartColor::Cyan,
        ChartUnit::Percent,
        wall_secs as nat,
        wall_nanos as nat,
        width as nat,
        uc,
    ));
    let mut sub: Vec<char> = Vec::new();
    push_str(&mut sub, "peak ");
    push_bytes(&mut sub, s.peak_rss_bytes);
    let rss_sub = string_from_chars(&sub);
    let rss_chart = Chart {
        title: "Memory RSS",
        subtitle: &rss_sub,
        values: rss_values(c),
        color: ChartColor::Green,
        unit: ChartUnit::Bytes,
        duration_secs: wall_secs,
        duration_nanos: wall_nanos,
    };
    push_str(&mut out, &render_chart(&rss_chart, width, uc));
    let mut sub: Vec<char> = Vec::new();
    push_bytes(&mut sub, s.total_rchar);
    push_str(&mut sub, " read, ");
    push_bytes(&mut sub, s.total_wchar);
    push_str(&mut sub, " written");
    let io_sub = string_from_chars(&sub);
    let io_chart = Chart {
        title: "I/O Rate",
        subtitle: &io_sub,
        values: io_rates(c),
        color: ChartColor::Yellow,
        unit: ChartUnit::BytesPerSec,
        duration_secs: wall_secs,
        duration_nanos: wall_nanos,
    };
    push_str(&mut out, &render_chart(&io_chart, width, uc));
    let mut sub: Vec<char> = Vec::new();
    push_bytes(&mut sub, s.total_net_rx_bytes);
    push_str(&mut sub, " in, ");
    push_bytes(&mut sub, s.total_net_tx_bytes);
    push_str(&mut sub, " out");
    let net_sub = string_from_chars(&sub);
    let net_chart = Chart {
        title: "Network (host)",
        subtitle: &net_sub,
        values: net_rates(c),
        color: ChartColor::Blue,
        unit: ChartUnit::BytesPerSec,
        duration_secs: wall_secs,
        duration_nanos: wall_nanos,
    };
    push_str(&mut out, &render_chart(&net_chart, width, uc));
    let ghost four = out@;
    if s.peak_threads > 1 {
        let mut sub: Vec<char> = Vec::new();
        push_str(&mut sub, "peak ");
        push_dec(&mut sub, s.peak_threads as u128);
        let thr_sub = string_from_chars(&sub);
        let thr_chart = Chart {
            title: "Threads",
            subtitle: &thr_sub,
            values: thread_values(c),
            color: ChartColor::Magenta,
            unit: ChartUnit::Count,
            duration_secs: wall_secs,
            duration_nanos: wall_nanos,
        };
        push_str(&mut out, &render_chart(&thr_chart, width, uc));
    } else {
        assert(out@ =~= four + Seq::<char>::empty());
    }
    string_from_chars(&out)
}

/// The report's charts at this machine's clock rate (see `charts_text`),
/// which is asked only for two samples or more; `None` when the machine
/// reports no clock rate, of which no CPU use can be taken.
pub fn report_charts(
    s: &Summary,
    cpu: &CpuFigures,
    c: &SampleColumns,
    wall_secs: u64,
    wall_nanos: u32,
    width: usize,
    uc: bool,
) -> (r: Option<String>)
    requires
        c.wf(),
        chart_sums_fit(*c),
        in_time_order(c.timestamp@),
        figures_wf(*cpu),
        c.timestamp@.len() < crate::numfmt::two_pow(52),
        wall_nanos < 1_000_000_000,
    ensures
        c.timestamp@.len() < 2 ==> (r matches Some(t) && t@.len() == 0),
        r matches Some(t) ==> exists|tps: u64|
            tps > 0 && t@ == charts_text(
                *s,
                *cpu,
                *c,
                tps as nat,
                wall_secs as nat,
                wall_nanos as nat,
                width as nat,
                uc,
            ),
{
    if c.timestamp.len() < 2 {
        let t = charts_at(s, cpu, c, 1, wall_secs, wall_nanos, width, uc);
        return Some(t);
    }
    let tps = crate::metrics::clock_ticks_per_second();
    if tps == 0 {
        return None;
    }
    Some(charts_at(s, cpu, c, tps, wall_secs, wall_nanos, width, uc))
}

} // verus!
