//! Text scanning as `str` does it: lines, trimming, white-space separated
//! words and unsigned decimal numbers.
use vstd::prelude::*;
use crate::text::{chars_of, find_char, first_index, has_prefix, is_ws, is_whitespace, lemma_first_index_at};

verus! {

/// A line without its `\r`, if it ends with one.
pub open spec fn strip_cr(l: Seq<char>) -> Seq<char> {
    if l.len() > 0 && l.last() == '\r' {
        l.drop_last()
    } else {
        l
    }
}

/// The lines of `s` as `str::lines` yields them: split at `\n`, each line
/// without a `\r` before its `\n`, and no empty line after a final `\n`.
pub open spec fn lines_of(s: Seq<char>) -> Seq<Seq<char>>
    decreases s.len(),
{
    match first_index(s, '\n') {
        None => if s.len() == 0 {
            seq![]
        } else {
            seq![s]
        },
        Some(i) => {
            if i < s.len() {
                seq![strip_cr(s.take(i as int))] + lines_of(s.skip((i + 1) as int))
            } else {
                seq![]
            }
        },
    }
}

/// `s` without leading white space.
pub open spec fn trim_start(s: Seq<char>) -> Seq<char>
    decreases s.len(),
{
    if s.len() > 0 && is_ws(s[0]) {
        trim_start(s.drop_first())
    } else {
        s
    }
}

/// `s` without trailing white space.
pub open spec fn trim_end(s: Seq<char>) -> Seq<char>
    decreases s.len(),
{
    if s.len() > 0 && is_ws(s.last()) {
        trim_end(s.drop_last())
    } else {
        s
    }
}

/// `s` without leading and trailing white space (`str::trim`).
pub open spec fn trim(s: Seq<char>) -> Seq<char> {
    trim_end(trim_start(s))
}

/// Length of the leading run of non-white-space characters of `s`.
pub open spec fn word_len(s: Seq<char>) -> nat
    decreases s.len(),
{
    if s.len() == 0 || is_ws(s[0]) {
        0
    } else {
        1 + word_len(s.drop_first())
    }
}

/// The white-space separated words of `s` (`str::split_whitespace`).
pub open spec fn words(s: Seq<char>) -> Seq<Seq<char>>
    decreases s.len(),
{
    let t = trim_start(s);
    if t.len() == 0 {
        seq![]
    } else {
        let k = word_len(t);
        if 0 < k <= t.len() && t.len() <= s.len() {
            seq![t.take(k as int)] + words(t.skip(k as int))
        } else {
            seq![]
        }
    }
}

/// Value of a string of decimal digits.
pub open spec fn digits_value(d: Seq<char>) -> nat
    decreases d.len(),
{
    if d.len() == 0 {
        0
    } else {
        10 * digits_value(d.drop_last()) + ((d.last() as u32) - 48) as nat
    }
}

pub open spec fn is_digit(c: char) -> bool {
    '0' <= c && c <= '9'
}

/// Every character of `d` is a decimal digit.
pub open spec fn all_digits(d: Seq<char>) -> bool {
    forall|i: int| 0 <= i < d.len() ==> is_digit(#[trigger] d[i])
}

/// `s` without one leading `+`.
pub open spec fn unsigned_digits(s: Seq<char>) -> Seq<char> {
    if s.len() > 0 && s[0] == '+' {
        s.drop_first()
    } else {
        s
    }
}

/// `s` read as a `u64` the way `u64::from_str` reads it: an optional `+`,
/// then one or more decimal digits, of value at most `u64::MAX`.
pub open spec fn parse_u64(s: Seq<char>) -> Option<u64> {
    let d = unsigned_digits(s);
    if d.len() == 0 || !all_digits(d) {
        None
    } else if digits_value(d) > u64::MAX {
        None
    } else {
        Some(digits_value(d) as u64)
    }
}

proof fn lemma_digits_value_prefix(d: Seq<char>, i: int)
    requires
        0 <= i <= d.len(),
        forall|j: int| 0 <= j < d.len() ==> is_digit(#[trigger] d[j]),
    ensures
        digits_value(d.take(i)) <= digits_value(d),
    decreases d.len(),
{
    if i < d.len() {
        lemma_digits_value_prefix(d.drop_last(), i);
        assert(d.drop_last().take(i) =~= d.take(i));
        assert(is_digit(d.last()));
    } else {
        assert(d.take(i) =~= d);
    }
}

/// `parse_u64`.
pub fn parse_u64_chars(s: &Vec<char>, lo: usize, hi: usize) -> (r: Option<u64>)
    requires
        lo <= hi <= s@.len(),
    ensures
        r == parse_u64(s@.subrange(lo as int, hi as int)),
{
    let ghost w = s@.subrange(lo as int, hi as int);
    let mut start = lo;
    if hi > lo && s[lo] == '+' {
        start = lo + 1;
    }
    let ghost d = s@.subrange(start as int, hi as int);
    assert(d =~= unsigned_digits(w));
    if start == hi {
        return None;
    }
    let mut v: u64 = 0;
    let mut i = start;
    while i < hi
        invariant
            start <= i <= hi <= s@.len(),
            start < hi,
            w == s@.subrange(lo as int, hi as int),
            d == s@.subrange(start as int, hi as int),
            d == unsigned_digits(w),
            forall|j: int| start <= j < i ==> is_digit(#[trigger] s@[j]),
            v == digits_value(s@.subrange(start as int, i as int)),
        decreases hi - i,
    {
        let c = s[i];
        if !('0' <= c && c <= '9') {
            assert(d[i - start] == c);
            assert(!is_digit(d[i - start]));
            assert(!all_digits(d));
            return None;
        }
        let dig = (c as u32 - 48) as u64;
        assert(s@.subrange(start as int, i + 1).drop_last() =~= s@.subrange(start as int, i as int));
        if v > (u64::MAX - dig) / 10 {
            proof {
                assert(10 * v + dig > u64::MAX);
                assert(digits_value(s@.subrange(start as int, i + 1)) == 10 * v + dig);
                if all_digits(d) {
                    assert(d.take(i + 1 - start) =~= s@.subrange(start as int, i + 1));
                    lemma_digits_value_prefix(d, i + 1 - start);
                }
            }
            return None;
        }
        v = 10 * v + dig;
        i = i + 1;
    }
    assert(s@.subrange(start as int, hi as int) =~= d);
    Some(v)
}

/// `trim_start` drops a prefix of white space.
pub(crate) proof fn lemma_trim_start(s: Seq<char>)
    ensures
        trim_start(s).len() <= s.len(),
        trim_start(s) == s.skip(s.len() - trim_start(s).len()),
        trim_start(s).len() > 0 ==> !is_ws(trim_start(s)[0]),
        trim_start(trim_start(s)) == trim_start(s),
    decreases s.len(),
{
    if s.len() > 0 && is_ws(s[0]) {
        lemma_trim_start(s.drop_first());
        assert(s.drop_first().skip(s.drop_first().len() - trim_start(s).len()) =~= s.skip(
            s.len() - trim_start(s).len(),
        ));
    } else {
        assert(s.skip(0) =~= s);
    }
}

pub(crate) proof fn lemma_word_len(s: Seq<char>)
    ensures
        word_len(s) <= s.len(),
        forall|i: int| 0 <= i < word_len(s) ==> !is_ws(#[trigger] s[i]),
        word_len(s) < s.len() ==> is_ws(s[word_len(s) as int]),
    decreases s.len(),
{
    if s.len() > 0 && !is_ws(s[0]) {
        lemma_word_len(s.drop_first());
        assert forall|i: int| 0 <= i < word_len(s) implies !is_ws(#[trigger] s[i]) by {
            if i > 0 {
                assert(s[i] == s.drop_first()[i - 1]);
            }
        }
    }
}

/// The run of non-white-space characters `s[j..k)` followed by white space
/// or the end is the word at `j`.
proof fn lemma_word_len_of_run(s: Seq<char>, j: int, k: int)
    requires
        0 <= j <= k <= s.len(),
        forall|q: int| j <= q < k ==> !is_ws(#[trigger] s[q]),
        k == s.len() || is_ws(s[k]),
    ensures
        word_len(s.skip(j)) == k - j,
    decreases k - j,
{
    if j < k {
        lemma_word_len_of_run(s, j + 1, k);
        assert(s.skip(j).drop_first() =~= s.skip(j + 1));
    } else {
        if k < s.len() {
            assert(s.skip(j)[0] == s[k]);
        }
    }
}

/// The first index at or after `i` (and before `hi`) that is not white space.
fn skip_ws(s: &Vec<char>, i: usize, hi: usize) -> (j: usize)
    requires
        i <= hi <= s@.len(),
    ensures
        i <= j <= hi,
        trim_start(s@.subrange(i as int, hi as int)) == s@.subrange(j as int, hi as int),
        j < hi ==> !is_ws(s@[j as int]),
{
    let mut j = i;
    while j < hi && is_whitespace(s[j])
        invariant
            i <= j <= hi <= s@.len(),
            trim_start(s@.subrange(i as int, hi as int)) == trim_start(s@.subrange(j as int, hi as int)),
        decreases hi - j,
    {
        assert(s@.subrange(j as int, hi as int).drop_first() =~= s@.subrange(j + 1, hi as int));
        j = j + 1;
    }
    if j < hi {
        assert(s@.subrange(j as int, hi as int)[0] == s@[j as int]);
    }
    j
}

/// The end of the run of non-white-space characters that starts at `j`.
fn word_end(s: &Vec<char>, j: usize, hi: usize) -> (k: usize)
    requires
        j <= hi <= s@.len(),
    ensures
        j <= k <= hi,
        word_len(s@.subrange(j as int, hi as int)) == k - j,
{
    let mut k = j;
    while k < hi && !is_whitespace(s[k])
        invariant
            j <= k <= hi <= s@.len(),
            forall|q: int| j <= q < k ==> !is_ws(#[trigger] s@[q]),
        decreases hi - k,
    {
        k = k + 1;
    }
    let ghost sub = s@.subrange(j as int, hi as int);
    proof {
        assert forall|q: int| 0 <= q < k - j implies !is_ws(#[trigger] sub[q]) by {
            assert(sub[q] == s@[j + q]);
        }
        if k < hi {
            assert(sub[k - j] == s@[k as int]);
        }
        lemma_word_len_of_run(sub, 0, k - j);
        assert(sub.skip(0) =~= sub);
    }
    k
}

/// The bounds of the white-space separated words of `s[lo..hi)`.
pub fn word_bounds(s: &Vec<char>, lo: usize, hi: usize) -> (r: Vec<(usize, usize)>)
    requires
        lo <= hi <= s@.len(),
    ensures
        r@.len() == words(s@.subrange(lo as int, hi as int)).len(),
        forall|k: int|
            0 <= k < r@.len() ==> r@[k].0 <= r@[k].1 <= s@.len() && #[trigger] s@.subrange(
                r@[k].0 as int,
                r@[k].1 as int,
            ) == words(s@.subrange(lo as int, hi as int))[k],
{
    let ghost all = words(s@.subrange(lo as int, hi as int));
    let mut r: Vec<(usize, usize)> = Vec::new();
    let mut i = lo;
    while i < hi
        invariant
            lo <= i <= hi <= s@.len(),
            all == words(s@.subrange(lo as int, hi as int)),
            all == r@.map_values(|p: (usize, usize)| s@.subrange(p.0 as int, p.1 as int)) + words(
                s@.subrange(i as int, hi as int),
            ),
            forall|k: int| 0 <= k < r@.len() ==> (#[trigger] r@[k]).0 <= r@[k].1 <= s@.len(),
        decreases hi - i,
    {
        let j = skip_ws(s, i, hi);
        let ghost sub_i = s@.subrange(i as int, hi as int);
        let ghost sub_j = s@.subrange(j as int, hi as int);
        proof {
            lemma_trim_start(sub_i);
        }
        if j == hi {
            assert(words(sub_i) =~= Seq::<Seq<char>>::empty());
            i = hi;
        } else {
            let k = word_end(s, j, hi);
            proof {
                assert(sub_j[0] == s@[j as int]);
                assert(word_len(sub_j) == k - j);
                assert(sub_j.take(k - j) =~= s@.subrange(j as int, k as int));
                assert(sub_j.skip(k - j) =~= s@.subrange(k as int, hi as int));
                assert(words(sub_i) == seq![s@.subrange(j as int, k as int)] + words(
                    s@.subrange(k as int, hi as int),
                ));
            }
            let ghost before = r@;
            r.push((j, k));
            assert(r@.map_values(|p: (usize, usize)| s@.subrange(p.0 as int, p.1 as int)) =~= before.map_values(
                |p: (usize, usize)| s@.subrange(p.0 as int, p.1 as int),
            ).push(s@.subrange(j as int, k as int)));
            i = k;
        }
    }
    assert(words(s@.subrange(hi as int, hi as int)) =~= Seq::<Seq<char>>::empty());
    assert(all =~= r@.map_values(|p: (usize, usize)| s@.subrange(p.0 as int, p.1 as int)));
    r
}

/// The end of `s[lo..hi)` without its trailing white space.
fn trim_end_bound(s: &Vec<char>, lo: usize, hi: usize) -> (b: usize)
    requires
        lo <= hi <= s@.len(),
    ensures
        lo <= b <= hi,
        trim_end(s@.subrange(lo as int, hi as int)) == s@.subrange(lo as int, b as int),
{
    let mut b = hi;
    while b > lo && is_whitespace(s[b - 1])
        invariant
            lo <= b <= hi <= s@.len(),
            trim_end(s@.subrange(lo as int, hi as int)) == trim_end(s@.subrange(lo as int, b as int)),
        decreases b - lo,
    {
        assert(s@.subrange(lo as int, b as int).drop_last() =~= s@.subrange(lo as int, b - 1));
        assert(s@.subrange(lo as int, b as int).last() == s@[b - 1]);
        b = b - 1;
    }
    if b > lo {
        assert(s@.subrange(lo as int, b as int).last() == s@[b - 1]);
    }
    b
}

/// What one line of `/proc/[pid]/net/dev` adds to the received and sent
/// byte totals. An interface line is the interface's name, a `:` and the
/// counters; the name can run into the first counter with no space between.
/// Of the counters after the first `:`, the first is the bytes received and
/// the ninth the bytes sent. The loopback interface (`lo:`), lines with no
/// `:` or fewer than nine counters, and lines where either counter is not a
/// number add nothing.
pub open spec fn net_line_counts(l: Seq<char>) -> (int, int) {
    let t = trim(l);
    if has_prefix(t, seq!['l', 'o', ':']) {
        (0, 0)
    } else {
        match first_index(t, ':') {
            None => (0, 0),
            Some(c) => {
                let ws = words(t.skip(c as int + 1));
                if ws.len() >= 9 && parse_u64(ws[0]) is Some && parse_u64(ws[8]) is Some {
                    (parse_u64(ws[0])->0 as int, parse_u64(ws[8])->0 as int)
                } else {
                    (0, 0)
                }
            },
        }
    }
}

/// The totals over `ls`, after skipping its first `skip` lines.
pub open spec fn net_totals_from(ls: Seq<Seq<char>>, skip: nat) -> (int, int)
    decreases ls.len(),
{
    if ls.len() == 0 {
        (0, 0)
    } else {
        let rest = net_totals_from(ls.drop_first(), if skip > 0 {
            (skip - 1) as nat
        } else {
            0
        });
        if skip > 0 {
            rest
        } else {
            let c = net_line_counts(ls[0]);
            (c.0 + rest.0, c.1 + rest.1)
        }
    }
}

/// Received and sent bytes summed over the interfaces of a
/// `/proc/[pid]/net/dev` text (its two header lines skipped).
pub open spec fn net_dev_totals(content: Seq<char>) -> (int, int) {
    net_totals_from(lines_of(content), 2)
}

proof fn lemma_net_totals_nonneg(ls: Seq<Seq<char>>, skip: nat)
    ensures
        net_totals_from(ls, skip).0 >= 0,
        net_totals_from(ls, skip).1 >= 0,
    decreases ls.len(),
{
    if ls.len() > 0 {
        lemma_net_totals_nonneg(ls.drop_first(), if skip > 0 {
            (skip - 1) as nat
        } else {
            0
        });
    }
}

/// `net_line_counts` of `s[lo..hi)`.
fn net_line(s: &Vec<char>, lo: usize, hi: usize) -> (r: (u64, u64))
    requires
        lo <= hi <= s@.len(),
    ensures
        (r.0 as int, r.1 as int) == net_line_counts(s@.subrange(lo as int, hi as int)),
{
    let ghost l = s@.subrange(lo as int, hi as int);
    let a = skip_ws(s, lo, hi);
    let b = trim_end_bound(s, a, hi);
    let ghost t = s@.subrange(a as int, b as int);
    assert(t == trim(l));
    if b - a >= 3 && s[a] == 'l' && s[a + 1] == 'o' && s[a + 2] == ':' {
        assert(t.take(3) =~= seq!['l', 'o', ':']);
        return (0, 0);
    }
    assert(!has_prefix(t, seq!['l', 'o', ':'])) by {
        if has_prefix(t, seq!['l', 'o', ':']) {
            assert(t.take(3)[0] == s@[a as int]);
            assert(t.take(3)[1] == s@[a + 1]);
            assert(t.take(3)[2] == s@[a + 2]);
        }
    }
    let mut i = a;
    while i < b && s[i] != ':'
        invariant
            a <= i <= b <= s@.len(),
            forall|q: int| a <= q < i ==> s@[q] != ':',
        decreases b - i,
    {
        i = i + 1;
    }
    proof {
        assert forall|q: int| 0 <= q < i - a implies t[q] != ':' by {
            assert(t[q] == s@[a + q]);
        }
        if i < b {
            assert(t[i - a] == s@[i as int]);
        }
        lemma_first_index_at(t, ':', i - a);
    }
    if i == b {
        return (0, 0);
    }
    assert(t.skip(i - a + 1) =~= s@.subrange(i + 1, b as int));
    let ws = word_bounds(s, i + 1, b);
    if ws.len() >= 9 {
        let (b0, e0) = ws[0];
        let (b8, e8) = ws[8];
        assert(s@.subrange(b0 as int, e0 as int) == words(t.skip(i - a + 1))[0]);
        assert(s@.subrange(b8 as int, e8 as int) == words(t.skip(i - a + 1))[8]);
        let rx = parse_u64_chars(s, b0, e0);
        let tx = parse_u64_chars(s, b8, e8);
        match (rx, tx) {
            (Some(x), Some(y)) => (x, y),
            _ => (0, 0),
        }
    } else {
        (0, 0)
    }
}

/// Received and sent bytes summed over the interfaces listed in the text
/// of `/proc/[pid]/net/dev` (loopback excluded; see `net_dev_totals`).
/// `None` when a total does not fit a `u64`.
pub fn parse_net_dev(content: &str) -> (r: Option<(u64, u64)>)
    ensures
        r is Some <==> (net_dev_totals(content@).0 <= u64::MAX && net_dev_totals(content@).1
            <= u64::MAX),
        r matches Some(t) ==> (t.0 as int, t.1 as int) == net_dev_totals(content@),
{
    let s = chars_of(content);
    let n = s.len();
    let mut rx_total: u64 = 0;
    let mut tx_total: u64 = 0;
    let mut skip: usize = 2;
    let mut pos: usize = 0;
    assert(s@.skip(0) =~= s@);
    while pos < n
        invariant
            s@ == content@,
            n == s@.len(),
            pos <= n,
            skip <= 2,
            net_dev_totals(content@) == ({
                let rest = net_totals_from(lines_of(s@.skip(pos as int)), skip as nat);
                (rx_total + rest.0, tx_total + rest.1)
            }),
        decreases n - pos,
    {
        let ghost rest_text = s@.skip(pos as int);
        let (lo, hi, next) = match find_char(&s, pos, '\n') {
            Some(e) => {
                let end = if e > pos && s[e - 1] == '\r' {
                    e - 1
                } else {
                    e
                };
                proof {
                    assert(rest_text.take(e - pos) =~= s@.subrange(pos as int, e as int));
                    assert(rest_text.skip(e - pos + 1) =~= s@.skip(e + 1));
                    if e > pos && s@[e - 1] == '\r' {
                        assert(s@.subrange(pos as int, e as int).drop_last() =~= s@.subrange(
                            pos as int,
                            end as int,
                        ));
                    }
                    assert(lines_of(rest_text) == seq![s@.subrange(pos as int, end as int)] + lines_of(
                        s@.skip(e + 1),
                    ));
                }
                (pos, end, e + 1)
            },
            None => {
                proof {
                    assert(rest_text =~= s@.subrange(pos as int, n as int));
                    assert(s@.skip(n as int) =~= Seq::<char>::empty());
                    assert(lines_of(s@.skip(n as int)) =~= Seq::<Seq<char>>::empty());
                    assert(lines_of(rest_text) == seq![s@.subrange(pos as int, n as int)] + lines_of(
                        s@.skip(n as int),
                    ));
                }
                (pos, n, n)
            },
        };
        let ghost ls = lines_of(rest_text);
        let ghost later = lines_of(s@.skip(next as int));
        assert(ls.drop_first() =~= later);
        assert(ls[0] == s@.subrange(lo as int, hi as int));
        proof {
            lemma_net_totals_nonneg(later, if skip > 0 {
                (skip - 1) as nat
            } else {
                0
            });
        }
        if skip > 0 {
            skip = skip - 1;
        } else {
            let (rx, tx) = net_line(&s, lo, hi);
            let (nrx, ntx) = match (rx_total.checked_add(rx), tx_total.checked_add(tx)) {
                (Some(a), Some(b)) => (a, b),
                _ => {
                    return None;
                },
            };
            rx_total = nrx;
            tx_total = ntx;
        }
        pos = next;
    }
    assert(lines_of(s@.skip(n as int)) =~= Seq::<Seq<char>>::empty()) by {
        assert(s@.skip(n as int) =~= Seq::<char>::empty());
    }
    Some((rx_total, tx_total))
}

} // verus!
