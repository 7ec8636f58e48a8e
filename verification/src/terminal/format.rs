//! Text pieces of the terminal report: labels, insight tags, the boxes
//! around each section and compact number renderings.
use vstd::prelude::*;
use crate::colors::{bold, bold_text, blue, cyan, dim_text, dimmed, fg_text, green, magenta, yellow};
use crate::binary64::{
    ceil_of, den_of, div_int, div_int_exec, is_norm, floor_of, fraction_exec, lemma_log2_bounds, lemma_lt_norm,
    lemma_threshold_exponents, log2_ratio, lt, lt_exec, minus, minus_exec, mul_int, mul_int_exec, num_of,
    plus, plus_exec, rem_num, rnd, round_ratio, round_scaled, secs_f64, secs_f64_exec,
};
use crate::numfmt::{dyadic_fixed1, fixed1_text, lemma_two_pow_add, lemma_two_pow_mono, lemma_two_pow_pos, round_half_even, round_half_even_u128, f64_int, f64_int_u128, f64_quotient, f64_quotient_u128, lemma_f64_int_bounds, lemma_two_pow_values, push_fixed1, tenths_u128, two_pow};
use crate::text::{chars_of, dec_digits, digit, digit_char, has_prefix, lemma_utf8_len_bound, lemma_utf8_len_concat, push_chars, push_dec, push_repeat, push_str, repeat_char, starts_with, string_from_chars, suffix, utf8_len, utf8_len_of};

verus! {

/// A label: bold when colors are on.
pub open spec fn label_text(t: Seq<char>, uc: bool) -> Seq<char> {
    if uc {
        bold_text(t)
    } else {
        t
    }
}

/// A label, bold when `uc` is set.
pub fn lbl(t: &str, uc: bool) -> (s: String)
    ensures
        s@ == label_text(t@, uc),
{
    if uc {
        bold(t)
    } else {
        string_from_chars(&chars_of(t))
    }
}

/// `[CPU]`.
pub open spec fn tag_cpu() -> Seq<char> {
    seq!['[', 'C', 'P', 'U', ']']
}

/// `[MEM]`.
pub open spec fn tag_mem() -> Seq<char> {
    seq!['[', 'M', 'E', 'M', ']']
}

/// `[I/O]`.
pub open spec fn tag_io() -> Seq<char> {
    seq!['[', 'I', '/', 'O', ']']
}

/// `[THR]`.
pub open spec fn tag_thr() -> Seq<char> {
    seq!['[', 'T', 'H', 'R', ']']
}

/// `[PY]`.
pub open spec fn tag_py() -> Seq<char> {
    seq!['[', 'P', 'Y', ']']
}

/// `[FD]`.
pub open spec fn tag_fd() -> Seq<char> {
    seq!['[', 'F', 'D', ']']
}

/// An insight line for a colored report: a leading space, then the tag in
/// bold and in its category's color, then the rest of the line unchanged.
/// The two-letter tags are padded to the width of the others inside the
/// coloring. A line without a known tag is only indented.
pub open spec fn colored_insight(s: Seq<char>) -> Seq<char> {
    if has_prefix(s, tag_cpu()) {
        seq![' '] + bold_text(fg_text('6', tag_cpu())) + s.skip(5)
    } else if has_prefix(s, tag_mem()) {
        seq![' '] + bold_text(fg_text('2', tag_mem())) + s.skip(5)
    } else if has_prefix(s, tag_io()) {
        seq![' '] + bold_text(fg_text('3', tag_io())) + s.skip(5)
    } else if has_prefix(s, tag_thr()) {
        seq![' '] + bold_text(fg_text('5', tag_thr())) + s.skip(5)
    } else if has_prefix(s, tag_py()) {
        seq![' '] + bold_text(fg_text('6', tag_py().push(' '))) + s.skip(4)
    } else if has_prefix(s, tag_fd()) {
        seq![' '] + bold_text(fg_text('4', tag_fd().push(' '))) + s.skip(4)
    } else {
        seq![' '] + s
    }
}

/// An insight line with its tag colored (see `colored_insight`).
pub fn colorize_insight(s: &str) -> (r: String)
    ensures
        r@ == colored_insight(s@),
{
    let v = chars_of(s);
    let mut out: Vec<char> = Vec::new();
    out.push(' ');
    proof {
        reveal_strlit("[CPU]");
        reveal_strlit("[MEM]");
        reveal_strlit("[I/O]");
        reveal_strlit("[THR]");
        reveal_strlit("[PY]");
        reveal_strlit("[PY] ");
        reveal_strlit("[FD]");
        reveal_strlit("[FD] ");
    }
    let cpu = chars_of("[CPU]");
    let mem = chars_of("[MEM]");
    let io = chars_of("[I/O]");
    let thr = chars_of("[THR]");
    let py = chars_of("[PY]");
    let fd = chars_of("[FD]");
    assert(cpu@ =~= tag_cpu());
    assert(mem@ =~= tag_mem());
    assert(io@ =~= tag_io());
    assert(thr@ =~= tag_thr());
    assert(py@ =~= tag_py());
    assert(fd@ =~= tag_fd());
    assert("[PY] "@ =~= tag_py().push(' '));
    assert("[FD] "@ =~= tag_fd().push(' '));
    if starts_with(&v, &cpu) {
        push_str(&mut out, &bold(&cyan("[CPU]")));
        push_chars(&mut out, &suffix(&v, 5));
    } else if starts_with(&v, &mem) {
        push_str(&mut out, &bold(&green("[MEM]")));
        push_chars(&mut out, &suffix(&v, 5));
    } else if starts_with(&v, &io) {
        push_str(&mut out, &bold(&yellow("[I/O]")));
        push_chars(&mut out, &suffix(&v, 5));
    } else if starts_with(&v, &thr) {
        push_str(&mut out, &bold(&magenta("[THR]")));
        push_chars(&mut out, &suffix(&v, 5));
    } else if starts_with(&v, &py) {
        push_str(&mut out, &bold(&cyan("[PY] ")));
        push_chars(&mut out, &suffix(&v, 4));
    } else if starts_with(&v, &fd) {
        push_str(&mut out, &bold(&blue("[FD] ")));
        push_chars(&mut out, &suffix(&v, 4));
    } else {
        push_chars(&mut out, &v);
    }
    string_from_chars(&out)
}

/// Number of characters of `s` that a terminal shows: an escape character
/// starts a sequence that runs up to and including the next `m`, and no
/// character of it is counted.
pub open spec fn visible_len(s: Seq<char>, in_esc: bool) -> nat
    decreases s.len(),
{
    if s.len() == 0 {
        0
    } else if s[0] == '\x1b' {
        visible_len(s.drop_first(), true)
    } else if in_esc {
        visible_len(s.drop_first(), s[0] != 'm')
    } else {
        1 + visible_len(s.drop_first(), false)
    }
}

pub(crate) proof fn lemma_visible_len_bound(s: Seq<char>, in_esc: bool)
    ensures
        visible_len(s, in_esc) <= s.len(),
    decreases s.len(),
{
    if s.len() > 0 {
        lemma_visible_len_bound(s.drop_first(), true);
        lemma_visible_len_bound(s.drop_first(), false);
    }
}

/// Number of characters of `s` outside ANSI escape sequences.
pub fn strip_ansi_len(s: &str) -> (n: usize)
    ensures
        n == visible_len(s@, false),
{
    let v = chars_of(s);
    let mut len: usize = 0;
    let mut in_esc = false;
    let mut i: usize = 0;
    assert(v@.skip(0) =~= v@);
    while i < v.len()
        invariant
            i <= v@.len(),
            v@ == s@,
            len <= i,
            len + visible_len(v@.skip(i as int), in_esc) == visible_len(s@, false),
        decreases v@.len() - i,
    {
        let c = v[i];
        assert(v@.skip(i as int).drop_first() =~= v@.skip(i + 1));
        if c == '\x1b' {
            in_esc = true;
        } else if in_esc {
            if c == 'm' {
                in_esc = false;
            }
        } else {
            len = len + 1;
        }
        i = i + 1;
    }
    len
}

/// Whether an escape sequence is still open after `s`, starting in state
/// `in_esc`.
pub open spec fn esc_state_after(s: Seq<char>, in_esc: bool) -> bool
    decreases s.len(),
{
    if s.len() == 0 {
        in_esc
    } else if s[0] == '\x1b' {
        esc_state_after(s.drop_first(), true)
    } else if in_esc {
        esc_state_after(s.drop_first(), s[0] != 'm')
    } else {
        esc_state_after(s.drop_first(), false)
    }
}

/// Visible lengths add up over a concatenation.
pub(crate) proof fn lemma_visible_len_concat(a: Seq<char>, b: Seq<char>, in_esc: bool)
    ensures
        visible_len(a + b, in_esc) == visible_len(a, in_esc) + visible_len(b, esc_state_after(a, in_esc)),
        esc_state_after(a + b, in_esc) == esc_state_after(b, esc_state_after(a, in_esc)),
    decreases a.len(),
{
    if a.len() == 0 {
        assert(a + b =~= b);
    } else {
        assert((a + b).drop_first() =~= a.drop_first() + b);
        assert((a + b)[0] == a[0]);
        lemma_visible_len_concat(a.drop_first(), b, true);
        lemma_visible_len_concat(a.drop_first(), b, false);
        lemma_visible_len_concat(a.drop_first(), b, a[0] != 'm');
    }
}

/// An SGR sequence whose code has no `m` shows nothing and closes itself.
pub(crate) proof fn lemma_sgr_invisible(code: Seq<char>, in_esc: bool)
    requires
        forall|i: int| 0 <= i < code.len() ==> code[i] != 'm' && code[i] != '\x1b',
    ensures
        visible_len(crate::colors::sgr(code), in_esc) == 0,
        esc_state_after(crate::colors::sgr(code), in_esc) == false,
{
    let s = crate::colors::sgr(code);
    let rest = code.push('m');
    assert forall|i: int| 0 <= i < rest.len() - 1 implies rest[i] != 'm' && rest[i] != '\x1b' by {
        assert(rest[i] == code[i]);
    }
    lemma_code_in_esc(rest);
    let inner = seq!['['] + code + seq!['m'];
    assert(s[0] == '\x1b');
    assert(s.drop_first() =~= inner);
    assert(inner[0] == '[');
    assert(inner.drop_first() =~= rest);
    assert(visible_len(s, in_esc) == visible_len(inner, true));
    assert(visible_len(inner, true) == visible_len(rest, true));
    assert(esc_state_after(s, in_esc) == esc_state_after(inner, true));
    assert(esc_state_after(inner, true) == esc_state_after(rest, true));
}

/// Inside an escape sequence, characters up to and including the closing
/// `m` show nothing.
proof fn lemma_code_in_esc(rest: Seq<char>)
    requires
        rest.len() >= 1,
        rest.last() == 'm',
        forall|i: int| 0 <= i < rest.len() - 1 ==> rest[i] != 'm' && rest[i] != '\x1b',
    ensures
        visible_len(rest, true) == 0,
        esc_state_after(rest, true) == false,
    decreases rest.len(),
{
    let tail = rest.drop_first();
    if rest.len() > 1 {
        assert(rest[0] != 'm' && rest[0] != '\x1b');
        assert(tail.last() == rest.last());
        assert forall|i: int| 0 <= i < tail.len() - 1 implies tail[i] != 'm' && tail[i] != '\x1b' by {
            assert(tail[i] == rest[i + 1]);
        }
        lemma_code_in_esc(tail);
        assert(visible_len(rest, true) == visible_len(tail, true));
        assert(esc_state_after(rest, true) == esc_state_after(tail, true));
    } else {
        assert(rest[0] == 'm');
        assert(tail.len() == 0);
        assert(visible_len(rest, true) == visible_len(tail, false));
        assert(esc_state_after(rest, true) == esc_state_after(tail, false));
    }
}

/// A styled text shows exactly what the text shows.
pub(crate) proof fn lemma_styled_visible(code: Seq<char>, t: Seq<char>, reset: Seq<char>)
    requires
        forall|i: int| 0 <= i < code.len() ==> code[i] != 'm' && code[i] != '\x1b',
        forall|i: int| 0 <= i < reset.len() ==> reset[i] != 'm' && reset[i] != '\x1b',
        esc_state_after(t, false) == false,
    ensures
        visible_len(crate::colors::styled(code, t, reset), false) == visible_len(t, false),
        esc_state_after(crate::colors::styled(code, t, reset), false) == false,
{
    let a = crate::colors::sgr(code);
    let c = crate::colors::sgr(reset);
    lemma_sgr_invisible(code, false);
    lemma_sgr_invisible(reset, false);
    lemma_visible_len_concat(a, t, false);
    lemma_visible_len_concat(a + t, c, false);
    assert(crate::colors::styled(code, t, reset) == a + t + c);
}

/// Characters that are not escape characters each show one column.
pub(crate) proof fn lemma_plain_visible(t: Seq<char>)
    requires
        forall|i: int| 0 <= i < t.len() ==> t[i] != '\x1b',
    ensures
        visible_len(t, false) == t.len(),
        esc_state_after(t, false) == false,
    decreases t.len(),
{
    if t.len() > 0 {
        lemma_plain_visible(t.drop_first());
    }
}

/// Every row of a box is `w` columns wide, newline aside, when its content
/// fits in the `w - 2` columns between the sides and closes every escape
/// sequence it opens; colored and plain boxes line up alike.
pub proof fn law_box_rows_fill_width(content: Seq<char>, w: nat, uc: bool)
    requires
        w >= 2,
        visible_len(content, false) <= w - 2,
        esc_state_after(content, false) == false,
    ensures
        visible_len(box_row_text(content, w, uc), false) == w + 1,
{
    let side = box_side(uc);
    let pad = repeat_char(' ', sat_sub(sat_sub(w, 2), visible_len(content, false)));
    lemma_plain_visible(seq!['│']);
    lemma_plain_visible(pad);
    lemma_plain_visible(seq!['\n']);
    if uc {
        lemma_styled_visible(seq!['2'], seq!['│'], seq!['0']);
    }
    assert(visible_len(side, false) == 1);
    assert(esc_state_after(side, false) == false);
    lemma_visible_len_concat(side, content, false);
    lemma_visible_len_concat(side + content, pad, false);
    lemma_visible_len_concat(side + content + pad, side, false);
    lemma_visible_len_concat(side + content + pad + side, seq!['\n'], false);
    assert(box_row_text(content, w, uc) == side + content + pad + side + seq!['\n']);
}

/// `a - b`, or 0 when `b > a`.
pub open spec fn sat_sub(a: nat, b: nat) -> nat {
    if a >= b {
        (a - b) as nat
    } else {
        0
    }
}

/// The top line of a report box: a rounded corner, the title with a space on
/// each side, a rule filling the line to `w` columns counted as UTF-8 bytes
/// of the title, and the other corner. When colors are on, the frame is dim
/// and the title bold.
pub open spec fn box_top_text(title: Seq<char>, w: nat, uc: bool) -> Seq<char> {
    let t = seq![' '] + title + seq![' '];
    let fill = sat_sub(w, 3 + utf8_len(t));
    if uc {
        dim_text(seq!['╭', '─']) + bold_text(t) + dim_text(repeat_char('─', fill)) + dim_text(
            seq!['╮'],
        ) + seq!['\n']
    } else {
        seq!['╭', '─'] + t + repeat_char('─', fill) + seq!['╮', '\n']
    }
}

/// The top line of a box titled `title`, `w` columns wide.
pub fn box_top(title: &str, w: usize, uc: bool) -> (s: String)
    requires
        4 * title@.len() + 11 <= usize::MAX,
    ensures
        s@ == box_top_text(title@, w as nat, uc),
{
    let mut tv: Vec<char> = Vec::new();
    tv.push(' ');
    push_str(&mut tv, title);
    tv.push(' ');
    assert(tv@ =~= seq![' '] + title@ + seq![' ']);
    let t = string_from_chars(&tv);
    proof {
        lemma_utf8_len_bound(tv@);
    }
    let tlen = utf8_len_of(&tv);
    let fill = w.saturating_sub(3 + tlen);
    let mut out: Vec<char> = Vec::new();
    if uc {
        push_str(&mut out, &dimmed("╭─"));
        push_str(&mut out, &bold(&t));
        let mut rule: Vec<char> = Vec::new();
        push_repeat(&mut rule, '─', fill);
        push_str(&mut out, &dimmed(&string_from_chars(&rule)));
        push_str(&mut out, &dimmed("╮"));
        out.push('\n');
        proof {
            reveal_strlit("╭─");
            reveal_strlit("╮");
        }
        assert("╭─"@ =~= seq!['╭', '─']);
        assert("╮"@ =~= seq!['╮']);
        assert(out@ =~= box_top_text(title@, w as nat, uc));
    } else {
        out.push('╭');
        out.push('─');
        push_chars(&mut out, &tv);
        push_repeat(&mut out, '─', fill);
        out.push('╮');
        out.push('\n');
        assert(out@ =~= box_top_text(title@, w as nat, uc));
    }
    string_from_chars(&out)
}

/// The side of a box: `│`, dim when colors are on.
pub open spec fn box_side(uc: bool) -> Seq<char> {
    if uc {
        dim_text(seq!['│'])
    } else {
        seq!['│']
    }
}

/// A line inside a box: the side, the content, spaces up to `w - 2` visible
/// columns, the other side.
pub open spec fn box_row_text(content: Seq<char>, w: nat, uc: bool) -> Seq<char> {
    let pad = sat_sub(sat_sub(w, 2), visible_len(content, false));
    box_side(uc) + content + repeat_char(' ', pad) + box_side(uc) + seq!['\n']
}

fn push_side(out: &mut Vec<char>, uc: bool)
    ensures
        final(out)@ == old(out)@ + box_side(uc),
{
    if uc {
        push_str(out, &dimmed("│"));
        proof {
            reveal_strlit("│");
        }
        assert("│"@ =~= seq!['│']);
    } else {
        out.push('│');
    }
}

/// A line of a box holding `content`.
pub fn box_row(content: &str, w: usize, uc: bool) -> (s: String)
    ensures
        s@ == box_row_text(content@, w as nat, uc),
{
    let inner = w.saturating_sub(2);
    let pad = inner.saturating_sub(strip_ansi_len(content));
    let mut out: Vec<char> = Vec::new();
    push_side(&mut out, uc);
    push_str(&mut out, content);
    push_repeat(&mut out, ' ', pad);
    push_side(&mut out, uc);
    out.push('\n');
    string_from_chars(&out)
}

/// The bottom line of a box `w` columns wide.
pub open spec fn box_bottom_text(w: nat, uc: bool) -> Seq<char> {
    let rule = repeat_char('─', sat_sub(w, 2));
    if uc {
        dim_text(seq!['╰']) + dim_text(rule) + dim_text(seq!['╯']) + seq!['\n']
    } else {
        seq!['╰'] + rule + seq!['╯', '\n']
    }
}

/// The bottom line of a box `w` columns wide.
pub fn box_bottom(w: usize, uc: bool) -> (s: String)
    ensures
        s@ == box_bottom_text(w as nat, uc),
{
    let inner = w.saturating_sub(2);
    let mut out: Vec<char> = Vec::new();
    if uc {
        let mut rule: Vec<char> = Vec::new();
        push_repeat(&mut rule, '─', inner);
        push_str(&mut out, &dimmed("╰"));
        push_str(&mut out, &dimmed(&string_from_chars(&rule)));
        push_str(&mut out, &dimmed("╯"));
        out.push('\n');
        proof {
            reveal_strlit("╰");
            reveal_strlit("╯");
        }
        assert("╰"@ =~= seq!['╰']);
        assert("╯"@ =~= seq!['╯']);
    } else {
        out.push('╰');
        push_repeat(&mut out, '─', inner);
        out.push('╯');
        out.push('\n');
    }
    string_from_chars(&out)
}

/// Digits with a comma between each group of three, counted from the right.
pub open spec fn grouped(d: Seq<char>) -> Seq<char>
    decreases d.len(),
{
    if d.len() <= 3 {
        d
    } else {
        grouped(d.take(d.len() - 3)) + seq![','] + d.skip(d.len() - 3)
    }
}

/// `n / d` computed in binary64 (`n as f64 / d as f64`), with one decimal.
pub open spec fn quotient_fixed1(n: nat, d: nat) -> Seq<char> {
    let (m, x) = f64_quotient(f64_int(n), d);
    dyadic_fixed1(m, x)
}

/// A count in compact form: billions (`B`), millions (`M`) or, from ten
/// thousand on, thousands (`K`) with one decimal; below ten thousand, the
/// plain count with thousands separators.
pub open spec fn num_text(n: nat) -> Seq<char> {
    if n >= 1_000_000_000 {
        quotient_fixed1(n, 1_000_000_000) + seq!['B']
    } else if n >= 1_000_000 {
        quotient_fixed1(n, 1_000_000) + seq!['M']
    } else if n >= 10_000 {
        quotient_fixed1(n, 1000) + seq!['K']
    } else {
        grouped(dec_digits(n))
    }
}

fn push_quotient_fixed1(out: &mut Vec<char>, n: u64, d: u64)
    requires
        1 <= d <= 1_000_000_000,
        d <= n,
    ensures
        final(out)@ == old(out)@ + quotient_fixed1(n as nat, d as nat),
{
    proof {
        lemma_two_pow_values();
        lemma_f64_int_bounds(n as nat);
        if n >= two_pow(53) {
            assert(two_pow(52) >= d);
        }
    }
    let big = f64_int_u128(n);
    let (m, x) = f64_quotient_u128(big, d as u128);
    let t = tenths_u128(m, x);
    push_fixed1(out, t);
}

/// A count in compact form (see `num_text`): `1,234`, `12.3K`, `4.5M`, `6.7B`.
pub fn fmt_num(n: u64) -> (s: String)
    ensures
        s@ == num_text(n as nat),
{
    let mut out: Vec<char> = Vec::new();
    if n >= 1_000_000_000 {
        push_quotient_fixed1(&mut out, n, 1_000_000_000);
        out.push('B');
    } else if n >= 1_000_000 {
        push_quotient_fixed1(&mut out, n, 1_000_000);
        out.push('M');
    } else if n >= 10_000 {
        push_quotient_fixed1(&mut out, n, 1000);
        out.push('K');
    } else if n >= 1000 {
        let mut d: Vec<char> = Vec::new();
        push_dec(&mut d, n as u128);
        proof {
            let dd = dec_digits(n as nat);
            assert(dd == dec_digits((n / 10) as nat).push(crate::text::digit_char((n % 10) as nat)));
            assert(dec_digits((n / 10) as nat) == dec_digits((n / 100) as nat).push(
                crate::text::digit_char(((n / 10) % 10) as nat),
            ));
            assert(dec_digits((n / 100) as nat) == dec_digits((n / 1000) as nat).push(
                crate::text::digit_char(((n / 100) % 10) as nat),
            ));
            assert(dec_digits((n / 1000) as nat).len() == 1);
            assert(dd.len() == 4);
            assert(grouped(dd.take(1)) == dd.take(1));
        }
        out.push(d[0]);
        out.push(',');
        out.push(d[1]);
        out.push(d[2]);
        out.push(d[3]);
        assert(out@ =~= grouped(dec_digits(n as nat)));
    } else {
        push_dec(&mut out, n as u128);
        proof {
            let dd = dec_digits(n as nat);
            if n >= 100 {
                assert(dd == dec_digits((n / 10) as nat).push(crate::text::digit_char((n % 10) as nat)));
                assert(dec_digits((n / 10) as nat) == dec_digits((n / 100) as nat).push(
                    crate::text::digit_char(((n / 10) % 10) as nat),
                ));
            } else if n >= 10 {
                assert(dd == dec_digits((n / 10) as nat).push(crate::text::digit_char((n % 10) as nat)));
            }
            assert(dd.len() <= 3);
        }
    }
    string_from_chars(&out)
}

/// `t` hundredths written with two fractional digits, as `{:.2}` does.
pub open spec fn fixed2_text(t: nat) -> Seq<char> {
    dec_digits(t / 100) + seq!['.', digit_char((t / 10) % 10), digit_char(t % 10)]
}

/// `s % 60.0` written with one decimal.
pub open spec fn sub_minute_text(s: (nat, int)) -> Seq<char> {
    fixed1_text(round_half_even(10 * rem_num(s, 60), den_of(s)))
}

/// An integer with a minus sign when `neg` is set.
pub open spec fn signed_text(neg: bool, n: nat) -> Seq<char> {
    if neg {
        seq!['-'] + dec_digits(n)
    } else {
        dec_digits(n)
    }
}

/// Below a millisecond: whole microseconds.
pub open spec fn micros_text(s: (nat, int)) -> Seq<char> {
    dec_digits(round_scaled(mul_int(s, 1_000_000), 1)) + seq!['u', 's']
}

/// Below a second: milliseconds with one decimal.
pub open spec fn millis_text(s: (nat, int)) -> Seq<char> {
    fixed1_text(round_scaled(mul_int(s, 1000), 10)) + seq!['m', 's']
}

/// Below a minute: seconds with two decimals.
pub open spec fn seconds_text(s: (nat, int)) -> Seq<char> {
    fixed2_text(round_scaled(s, 100)) + seq!['s']
}

/// Below an hour: whole minutes, then the seconds past the minute.
pub open spec fn minutes_text(s: (nat, int)) -> Seq<char> {
    dec_digits(floor_of(div_int(s, 60))) + seq!['m'] + sub_minute_text(s) + seq!['s']
}

/// From an hour on: whole hours `h`, the minutes `(s - h * 3600) / 60`
/// rounded down, then the seconds past the minute.
pub open spec fn hours_text(s: (nat, int)) -> Seq<char> {
    let h = floor_of(div_int(s, 3600));
    let d = minus(s, rnd(h * 3600, 1));
    let m = div_int(d.1, 60);
    let mins = if d.0 {
        ceil_of(m)
    } else {
        floor_of(m)
    };
    dec_digits(h) + seq!['h'] + signed_text(d.0, mins) + seq!['m'] + sub_minute_text(s) + seq!['s']
}

/// A duration of `secs` seconds and `nanos` nanoseconds in the largest
/// fitting unit, as computed on its binary64 seconds `s` (see the
/// functions above for each unit).
pub open spec fn dur_text(secs: nat, nanos: nat) -> Seq<char> {
    let s = secs_f64(secs, nanos);
    if lt(s, rnd(1, 1000)) {
        micros_text(s)
    } else if lt(s, rnd(1, 1)) {
        millis_text(s)
    } else if lt(s, rnd(60, 1)) {
        seconds_text(s)
    } else if lt(s, rnd(3600, 1)) {
        minutes_text(s)
    } else {
        hours_text(s)
    }
}

fn push_fixed2(out: &mut Vec<char>, t: u128)
    ensures
        final(out)@ == old(out)@ + fixed2_text(t as nat),
{
    push_dec(out, t / 100);
    out.push('.');
    out.push(digit(((t / 10) % 10) as u8));
    out.push(digit((t % 10) as u8));
}

/// Appends `sub_minute_text(s)` for `s` of at least a minute.
fn push_sub_minute(out: &mut Vec<char>, s: (u128, i32))
    requires
        is_norm((s.0 as nat, s.1 as int)),
        -47 <= s.1 <= 60,
    ensures
        final(out)@ == old(out)@ + sub_minute_text((s.0 as nat, s.1 as int)),
{
    let (n, d) = fraction_exec(s);
    proof {
        lemma_two_pow_values();
        if s.1 < 0 {
            lemma_two_pow_mono((-s.1) as nat, 47);
            lemma_two_pow_add(47, 6);
            lemma_two_pow_mono(53, 120);
        }
        lemma_two_pow_mono(113, 120);
    }
    assert(d <= two_pow(47)) by {
        if s.1 >= 0 {
            assert(d == 1);
            lemma_two_pow_pos(47);
        }
    }
    assert(60 * two_pow(47) < two_pow(53)) by {
        lemma_two_pow_add(47, 6);
        assert(two_pow(6) == 64) by {
            reveal_with_fuel(two_pow, 7);
        }
    }
    let span = 60 * d;
    let r = n % span;
    proof {
        assert(r < span);
    }
    let t = round_half_even_u128(10 * r, d);
    push_fixed1(out, t);
}

/// Appends `micros_text(s)`.
fn push_micros(out: &mut Vec<char>, s: (u128, i32))
    requires
        is_norm((s.0 as nat, s.1 as int)),
        -119 <= s.1 <= 14,
    ensures
        final(out)@ == old(out)@ + micros_text((s.0 as nat, s.1 as int)),
{
    let u = mul_int_exec(s, 1_000_000);
    let (n, d) = fraction_exec(u);
    push_dec(out, round_half_even_u128(n, d));
    out.push('u');
    out.push('s');
}

/// Appends `millis_text(s)`.
fn push_millis(out: &mut Vec<char>, s: (u128, i32))
    requires
        is_norm((s.0 as nat, s.1 as int)),
        -119 <= s.1 <= -30,
    ensures
        final(out)@ == old(out)@ + millis_text((s.0 as nat, s.1 as int)),
{
    let u = mul_int_exec(s, 1000);
    let (n, d) = fraction_exec(u);
    proof {
        lemma_two_pow_values();
        lemma_two_pow_mono(113, 123);
        lemma_two_pow_add(113, 4);
        lemma_two_pow_mono(117, 126);
        assert(two_pow(4) == 16) by {
            reveal_with_fuel(two_pow, 5);
        }
    }
    let t = round_half_even_u128(10 * n, d);
    push_fixed1(out, t);
    out.push('m');
    out.push('s');
}

/// Appends `seconds_text(s)`.
fn push_seconds(out: &mut Vec<char>, s: (u128, i32))
    requires
        is_norm((s.0 as nat, s.1 as int)),
        -119 <= s.1 <= -30,
    ensures
        final(out)@ == old(out)@ + seconds_text((s.0 as nat, s.1 as int)),
{
    let (n, d) = fraction_exec(s);
    proof {
        lemma_two_pow_values();
    }
    let t = round_half_even_u128(100 * n, d);
    push_fixed2(out, t);
    out.push('s');
}

/// Appends `minutes_text(s)`.
fn push_minutes(out: &mut Vec<char>, s: (u128, i32))
    requires
        is_norm((s.0 as nat, s.1 as int)),
        -47 <= s.1 <= -30,
    ensures
        final(out)@ == old(out)@ + minutes_text((s.0 as nat, s.1 as int)),
{
    let q = div_int_exec(s, 60);
    let (n, d) = fraction_exec(q);
    push_dec(out, n / d);
    out.push('m');
    push_sub_minute(out, s);
    out.push('s');
}

/// Appends `hours_text(s)`.
fn push_hours(out: &mut Vec<char>, s: (u128, i32))
    requires
        s.0 != 0,
        is_norm((s.0 as nat, s.1 as int)),
        -41 <= s.1 <= 14,
    ensures
        final(out)@ == old(out)@ + hours_text((s.0 as nat, s.1 as int)),
{
    proof {
        lemma_two_pow_values();
    }
    let hq = div_int_exec(s, 3600);
    let (hn, hd) = fraction_exec(hq);
    proof {
        lemma_two_pow_add(53, 15);
        if hq.1 >= 0 {
            lemma_two_pow_mono(hq.1 as nat, 15);
            lemma_two_pow_pos(hq.1 as nat);
            assert(hn < two_pow(53) * two_pow(15)) by (nonlinear_arith)
                requires
                    hn == hq.0 * two_pow(hq.1 as nat),
                    hq.0 < two_pow(53),
                    two_pow(hq.1 as nat) <= two_pow(15),
                    two_pow(hq.1 as nat) >= 1,
            ;
        }
        lemma_two_pow_mono(53, 68);
        lemma_two_pow_add(68, 12);
        assert(two_pow(12) == 4096) by {
            reveal_with_fuel(two_pow, 13);
        }
        lemma_two_pow_mono(80, 120);
        lemma_two_pow_mono(80, 126);
    }
    let h = hn / hd;
    assert(h <= hn);
    assert(h * 3600 < two_pow(80));
    let hp: (u128, i32) = if h == 0 {
        (0, 0)
    } else {
        let r = round_ratio(h * 3600, 1);
        proof {
            assert(two_pow(11) == 2048) by {
                reveal_with_fuel(two_pow, 12);
            }
            lemma_log2_bounds((h * 3600) as nat, 1, 11);
            lemma_log2_bounds((h * 3600) as nat, 1, 80);
        }
        r
    };
    assert(rnd(0, 1) == (0nat, 0int));
    let (neg, dm) = minus_exec(s, hp);
    let mq = div_int_exec(dm, 60);
    let (mn, md) = fraction_exec(mq);
    proof {
        lemma_two_pow_mono(113, 120);
        lemma_two_pow_add(120, 1);
        assert(two_pow(121) == 2 * two_pow(120)) by {
            reveal_with_fuel(two_pow, 2);
        }
        lemma_two_pow_mono(121, 126);
    }
    let mins = if neg {
        (mn + md - 1) / md
    } else {
        mn / md
    };
    push_dec(out, h);
    out.push('h');
    if neg {
        out.push('-');
    }
    push_dec(out, mins);
    out.push('m');
    push_sub_minute(out, s);
    out.push('s');
}

/// A duration in the largest fitting unit (see `dur_text`): `250us`,
/// `12.5ms`, `4.72s`, `3m12.0s`, `2h5m30.0s`.
pub fn fmt_dur(secs: u64, nanos: u32) -> (r: String)
    requires
        nanos < 1_000_000_000,
    ensures
        r@ == dur_text(secs as nat, nanos as nat),
{
    proof {
        lemma_two_pow_values();
        lemma_threshold_exponents();
        lemma_two_pow_mono(64, 120);
        lemma_two_pow_mono(64, 66);
    }
    let s = secs_f64_exec(secs, nanos);
    let ghost gs = (s.0 as nat, s.1 as int);
    let milli = round_ratio(1, 1000);
    let one = round_ratio(1, 1);
    let minute = round_ratio(60, 1);
    let hour = round_ratio(3600, 1);
    let ghost g_milli = (milli.0 as nat, milli.1 as int);
    let ghost g_one = (one.0 as nat, one.1 as int);
    let ghost g_minute = (minute.0 as nat, minute.1 as int);
    let ghost g_hour = (hour.0 as nat, hour.1 as int);
    proof {
        if s.0 != 0 {
            lemma_lt_norm(gs, g_milli);
            lemma_lt_norm(gs, g_one);
            lemma_lt_norm(gs, g_minute);
            lemma_lt_norm(gs, g_hour);
        }
    }
    let mut out: Vec<char> = Vec::new();
    if s.0 == 0 || lt_exec(s, milli) {
        proof {
            if s.0 == 0 {
                let y = crate::binary64::min_exp(gs, g_milli);
                assert(y == milli.1);
                assert(gs.0 == 0);
                assert(0 * two_pow(((gs.1 - y) as nat)) == 0);
                assert(crate::binary64::aligned(gs, y) == 0);
                assert(two_pow(0) == 1);
                assert(crate::binary64::aligned(g_milli, y) == milli.0 * two_pow(0));
            }
        }
        assert(lt(gs, rnd(1, 1000)));
        push_micros(&mut out, s);
    } else if lt_exec(s, one) {
        push_millis(&mut out, s);
    } else if lt_exec(s, minute) {
        push_seconds(&mut out, s);
    } else if lt_exec(s, hour) {
        push_minutes(&mut out, s);
    } else {
        push_hours(&mut out, s);
    }
    assert(out@ =~= dur_text(secs as nat, nanos as nat));
    string_from_chars(&out)
}

/// The report width for a terminal that is `cols` columns wide (when the
/// size is known): never less than 40; 80 when the size is unknown.
pub fn terminal_width(cols: Option<usize>) -> (w: usize)
    ensures
        w == match cols {
            Some(c) => if c >= 40 {
                c
            } else {
                40
            },
            None => 80,
        },
{
    match cols {
        Some(c) => if c >= 40 {
            c
        } else {
            40
        },
        None => 80,
    }
}

} // verus!
