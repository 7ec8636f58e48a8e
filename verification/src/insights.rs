//! Human-readable findings about a monitored run, and the byte-size
//! rendering that the report uses throughout.
use vstd::prelude::*;
use crate::numfmt::{dyadic_fixed1, f64_quotient, f64_quotient_u128, lemma_two_pow_values, push_fixed1, tenths_u128};
use crate::text::{dec_digits, push_dec, push_str, string_from_chars};
use crate::metrics::{figures_wf, CpuFigures, SampleColumns, Summary};
use crate::binary64::{
    from_int, from_int_exec, is_norm, lemma_lt_norm, lemma_threshold_exponents, lt, lt0_exec, lt_exec, mul_int, mul_int_exec,
    plus, plus_exec, quot, quot_exec, rnd, round_int_exec, round_ratio64, round_scaled, secs_f64, secs_f64_exec, to_u64,
    to_u64_exec,
};
use crate::numfmt::two_pow;

verus! {

pub const KIB: u64 = 1024;
pub const MIB: u64 = 1024 * 1024;
pub const GIB: u64 = 1024 * 1024 * 1024;

/// `n / 2^k` as a binary64 value (`n` first converted to binary64),
/// written with one fractional digit.
pub open spec fn scaled_fixed1(n: nat, k: nat) -> Seq<char> {
    let (m, x) = f64_quotient(n, 1);
    dyadic_fixed1(m, x - k)
}

/// A byte count in the largest binary unit (KB, MB, GB) that it reaches,
/// with one decimal; below one KB, the plain count followed by `B`.
pub open spec fn bytes_text(b: nat) -> Seq<char> {
    if b >= GIB {
        scaled_fixed1(b, 30) + seq!['G', 'B']
    } else if b >= MIB {
        scaled_fixed1(b, 20) + seq!['M', 'B']
    } else if b >= KIB {
        scaled_fixed1(b, 10) + seq!['K', 'B']
    } else {
        dec_digits(b) + seq!['B']
    }
}

/// Appends `n / 2^k` (with `n` converted to binary64) with one decimal.
fn push_scaled_fixed1(out: &mut Vec<char>, n: u64, k: i32)
    requires
        n >= 1,
        0 <= k <= 30,
    ensures
        final(out)@ == old(out)@ + scaled_fixed1(n as nat, k as nat),
{
    proof {
        lemma_two_pow_values();
    }
    let (m, x) = f64_quotient_u128(n as u128, 1);
    let t = tenths_u128(m, x - k);
    push_fixed1(out, t);
}

/// Appends the rendering of a byte count to `out`.
pub fn push_bytes(out: &mut Vec<char>, bytes: u64)
    ensures
        final(out)@ == old(out)@ + bytes_text(bytes as nat),
{
    if bytes >= GIB {
        push_scaled_fixed1(out, bytes, 30);
        out.push('G');
        out.push('B');
    } else if bytes >= MIB {
        push_scaled_fixed1(out, bytes, 20);
        out.push('M');
        out.push('B');
    } else if bytes >= KIB {
        push_scaled_fixed1(out, bytes, 10);
        out.push('K');
        out.push('B');
    } else {
        push_dec(out, bytes as u128);
        out.push('B');
    }
}

/// Renders a byte count in the largest binary unit it reaches (`1.5KB`,
/// `1.5MB`, `1.5GB`), or in bytes below one KB (`500B`).
pub fn format_bytes(bytes: u64) -> (s: String)
    ensures
        s@ == bytes_text(bytes as nat),
{
    let mut v: Vec<char> = Vec::new();
    push_bytes(&mut v, bytes);
    string_from_chars(&v)
}

/// Dynamic thread creation: the thread count peaked above 4 and above twice
/// its initial value.
pub open spec fn thread_insight_text(s: Summary) -> Option<Seq<char>> {
    if s.peak_threads > s.initial_threads * 2 && s.peak_threads > 4 {
        Some(
            "[THR]  Dynamic thread creation detected (peak "@ + dec_digits(s.peak_threads as nat)
                + " threads from initial "@ + dec_digits(s.initial_threads as nat) + ")"@,
        )
    } else {
        None
    }
}

/// The thread-creation finding, if any (see `thread_insight_text`).
pub fn thread_insight(summary: &Summary) -> (r: Option<String>)
    requires
        summary.initial_threads * 2 <= u32::MAX,
    ensures
        match thread_insight_text(*summary) {
            Some(t) => r matches Some(x) && x@ == t,
            None => r is None,
        },
{
    if summary.peak_threads > summary.initial_threads * 2 && summary.peak_threads > 4 {
        let mut v: Vec<char> = Vec::new();
        push_str(&mut v, "[THR]  Dynamic thread creation detected (peak ");
        push_dec(&mut v, summary.peak_threads as u128);
        push_str(&mut v, " threads from initial ");
        push_dec(&mut v, summary.initial_threads as u128);
        push_str(&mut v, ")");
        Some(string_from_chars(&v))
    } else {
        None
    }
}

/// Average bytes per call, and whether the calls were small (below 512
/// bytes on average over more than 100 calls).
pub open spec fn small_ops_text(bytes: u64, calls: u64, what: Seq<char>) -> Option<Seq<char>> {
    if calls > 100 && bytes / calls < 512 {
        Some(
            "[I/O]  Small "@ + what + " operations (avg "@ + dec_digits((bytes / calls) as nat)
                + " bytes/syscall) -- buffering may help"@,
        )
    } else {
        None
    }
}

fn small_ops(bytes: u64, calls: u64, what: &str) -> (r: Option<String>)
    ensures
        match small_ops_text(bytes, calls, what@) {
            Some(t) => r matches Some(x) && x@ == t,
            None => r is None,
        },
{
    if calls > 100 {
        let per_call = bytes / calls;
        if per_call < 512 {
            let mut v: Vec<char> = Vec::new();
            push_str(&mut v, "[I/O]  Small ");
            push_str(&mut v, what);
            push_str(&mut v, " operations (avg ");
            push_dec(&mut v, per_call as u128);
            push_str(&mut v, " bytes/syscall) -- buffering may help");
            return Some(string_from_chars(&v));
        }
    }
    None
}

/// Small reads (see `small_ops_text`).
pub fn small_read_insight(summary: &Summary) -> (r: Option<String>)
    ensures
        match small_ops_text(summary.total_rchar, summary.total_syscr, "read"@) {
            Some(t) => r matches Some(x) && x@ == t,
            None => r is None,
        },
{
    small_ops(summary.total_rchar, summary.total_syscr, "read")
}

/// Small writes (see `small_ops_text`).
pub fn small_write_insight(summary: &Summary) -> (r: Option<String>)
    ensures
        match small_ops_text(summary.total_wchar, summary.total_syscw, "write"@) {
            Some(t) => r matches Some(x) && x@ == t,
            None => r is None,
        },
{
    small_ops(summary.total_wchar, summary.total_syscw, "write")
}

/// Number of consecutive pairs of `s` that do not decrease.
pub open spec fn rising_pairs_u64(s: Seq<u64>) -> nat
    decreases s.len(),
{
    if s.len() < 2 {
        0
    } else {
        rising_pairs_u64(s.drop_last()) + if s[s.len() - 1] >= s[s.len() - 2] {
            1nat
        } else {
            0
        }
    }
}

/// Number of consecutive pairs of `s` that do not decrease.
pub open spec fn rising_pairs_u32(s: Seq<u32>) -> nat
    decreases s.len(),
{
    if s.len() < 2 {
        0
    } else {
        rising_pairs_u32(s.drop_last()) + if s[s.len() - 1] >= s[s.len() - 2] {
            1nat
        } else {
            0
        }
    }
}

fn count_rising_u64(v: &Vec<u64>) -> (c: usize)
    ensures
        c == rising_pairs_u64(v@),
{
    let mut c: usize = 0;
    if v.len() < 2 {
        return 0;
    }
    let mut i: usize = 1;
    while i < v.len()
        invariant
            1 <= i <= v@.len(),
            c == rising_pairs_u64(v@.take(i as int)),
            c < i,
        decreases v@.len() - i,
    {
        assert(v@.take(i + 1).drop_last() =~= v@.take(i as int));
        if v[i] >= v[i - 1] {
            c = c + 1;
        }
        i = i + 1;
    }
    assert(v@.take(v@.len() as int) =~= v@);
    c
}

fn count_rising_u32(v: &Vec<u32>) -> (c: usize)
    ensures
        c == rising_pairs_u32(v@),
{
    let mut c: usize = 0;
    if v.len() < 2 {
        return 0;
    }
    let mut i: usize = 1;
    while i < v.len()
        invariant
            1 <= i <= v@.len(),
            c == rising_pairs_u32(v@.take(i as int)),
            c < i,
        decreases v@.len() - i,
    {
        assert(v@.take(i + 1).drop_last() =~= v@.take(i as int));
        if v[i] >= v[i - 1] {
            c = c + 1;
        }
        i = i + 1;
    }
    assert(v@.take(v@.len() as int) =~= v@);
    c
}

/// More than nine tenths of the `n - 1` consecutive pairs did not decrease.
pub open spec fn mostly_rising(rising: nat, n: nat) -> bool {
    10 * rising > 9 * (n - 1)
}

/// Monotonic memory growth: over more than 10 samples, more than nine
/// tenths of the steps did not lower the RSS, and the final RSS is above
/// both twice the initial one and 1 MiB.
pub open spec fn memory_growth_holds(s: Summary, rss: Seq<u64>) -> bool {
    &&& rss.len() > 10
    &&& mostly_rising(rising_pairs_u64(rss), rss.len())
    &&& s.final_rss_bytes > s.initial_rss_bytes * 2
    &&& s.final_rss_bytes > MIB
}

/// Whether the RSS did not drop over more than nine tenths of the steps of
/// more than 10 samples (the first test of the memory-growth finding).
pub fn rss_mostly_rising(samples: &SampleColumns) -> (r: bool)
    requires
        samples.wf(),
    ensures
        r == (samples.timestamp@.len() > 10 && mostly_rising(
            rising_pairs_u64(samples.rss_bytes@),
            samples.timestamp@.len(),
        )),
{
    let n = samples.len();
    if n > 10 {
        let rising = count_rising_u64(&samples.rss_bytes);
        10 * (rising as u128) > 9 * ((n - 1) as u128)
    } else {
        false
    }
}

/// Whether the descriptor count did not drop over more than nine tenths of
/// the steps of more than 10 samples (the first test of the leak finding).
pub fn fd_mostly_rising(samples: &SampleColumns) -> (r: bool)
    requires
        samples.wf(),
    ensures
        r == (samples.timestamp@.len() > 10 && mostly_rising(
            rising_pairs_u32(samples.fd_count@),
            samples.timestamp@.len(),
        )),
{
    let n = samples.len();
    if n > 10 {
        let rising = count_rising_u32(&samples.fd_count);
        10 * (rising as u128) > 9 * ((n - 1) as u128)
    } else {
        false
    }
}

/// The monotonic-growth finding about memory, if it holds.
pub fn memory_growth_insight(summary: &Summary, samples: &SampleColumns) -> (r: Option<String>)
    requires
        samples.wf(),
        samples.timestamp@.len() > 10 && mostly_rising(
            rising_pairs_u64(samples.rss_bytes@),
            samples.timestamp@.len(),
        ) ==> summary.initial_rss_bytes * 2 <= u64::MAX,
    ensures
        memory_growth_holds(*summary, samples.rss_bytes@) ==> (r matches Some(x) && x@
            == "[MEM]  Memory grew monotonically -- possible leak if long-running"@),
        !memory_growth_holds(*summary, samples.rss_bytes@) ==> r is None,
{
    if rss_mostly_rising(samples) {
        if summary.final_rss_bytes > summary.initial_rss_bytes * 2 && summary.final_rss_bytes > MIB {
            return Some(
                string_from_chars(
                    &crate::text::chars_of(
                        "[MEM]  Memory grew monotonically -- possible leak if long-running",
                    ),
                ),
            );
        }
    }
    None
}

/// A descriptor leak: over more than 10 samples, more than nine tenths of
/// the steps did not lower the count, and it ended more than 10 above its
/// first value.
pub open spec fn fd_growth_text(fds: Seq<u32>) -> Option<Seq<char>> {
    if fds.len() > 10 && mostly_rising(rising_pairs_u32(fds), fds.len()) && fds[fds.len() - 1]
        > fds[0] + 10 {
        Some(
            "[FD]   File descriptor count grew monotonically ("@ + dec_digits(fds[0] as nat)
                + " -> "@ + dec_digits(fds[fds.len() - 1] as nat) + ") -- possible leak"@,
        )
    } else {
        None
    }
}

/// The descriptor-leak finding, if any (see `fd_growth_text`).
pub fn fd_insight(samples: &SampleColumns) -> (r: Option<String>)
    requires
        samples.wf(),
        samples.timestamp@.len() > 10 && mostly_rising(
            rising_pairs_u32(samples.fd_count@),
            samples.timestamp@.len(),
        ) ==> samples.fd_count@[0] + 10 <= u32::MAX,
    ensures
        match fd_growth_text(samples.fd_count@) {
            Some(t) => r matches Some(x) && x@ == t,
            None => r is None,
        },
{
    if fd_mostly_rising(samples) {
        let n = samples.len();
        let first_fd = samples.fd_count[0];
        let last_fd = samples.fd_count[n - 1];
        if last_fd > first_fd + 10 {
            let mut v: Vec<char> = Vec::new();
            push_str(&mut v, "[FD]   File descriptor count grew monotonically (");
            push_dec(&mut v, first_fd as u128);
            push_str(&mut v, " -> ");
            push_dec(&mut v, last_fd as u128);
            push_str(&mut v, ") -- possible leak");
            return Some(string_from_chars(&v));
        }
    }
    None
}

/// Index of the last largest value of `v` (as `Iterator::max_by_key`
/// picks it).
pub open spec fn is_last_max(v: Seq<u64>, k: int) -> bool {
    &&& 0 <= k < v.len()
    &&& forall|j: int| 0 <= j < v.len() ==> v[j] <= v[k]
    &&& forall|j: int| k < j < v.len() ==> v[j] < v[k]
}

/// The index of the last largest value of a non-empty column.
pub fn last_max_index(v: &Vec<u64>) -> (k: usize)
    requires
        v@.len() > 0,
    ensures
        is_last_max(v@, k as int),
{
    let mut k: usize = 0;
    let mut i: usize = 1;
    while i < v.len()
        invariant
            1 <= i <= v@.len(),
            k < i,
            forall|j: int| 0 <= j < i ==> v@[j] <= v@[k as int],
            forall|j: int| k < j < i ==> v@[j] < v@[k as int],
        decreases v@.len() - i,
    {
        if v[i] >= v[k] {
            k = i;
        }
        i = i + 1;
    }
    k
}

/// Peak-then-decline of memory: the peak RSS is above zero, above twice
/// the final RSS and above 1 MiB, over more than 2 samples. The report
/// states when the (last) peak happened.
pub open spec fn peak_decline_holds(s: Summary, n: nat) -> bool {
    s.peak_rss_bytes > 0 && n > 2 && s.peak_rss_bytes > s.final_rss_bytes * 2 && s.peak_rss_bytes
        > MIB
}

/// When memory peaked and then declined (see `peak_decline_holds`), the
/// sample index of the peak.
pub fn peak_decline(summary: &Summary, samples: &SampleColumns) -> (r: Option<usize>)
    requires
        samples.wf(),
        summary.peak_rss_bytes > 0 && samples.timestamp@.len() > 2 ==> summary.final_rss_bytes * 2
            <= u64::MAX,
    ensures
        peak_decline_holds(*summary, samples.timestamp@.len()) ==> (r matches Some(k)
            && is_last_max(samples.rss_bytes@, k as int)),
        !peak_decline_holds(*summary, samples.timestamp@.len()) ==> r is None,
{
    if summary.peak_rss_bytes > 0 && samples.len() > 2 && summary.peak_rss_bytes
        > summary.final_rss_bytes * 2 && summary.peak_rss_bytes > MIB {
        Some(last_max_index(&samples.rss_bytes))
    } else {
        None
    }
}

/// `Some(t)` as a one-element list, `None` as the empty list.
pub open spec fn listed(o: Option<Seq<char>>) -> Seq<Seq<char>> {
    match o {
        Some(t) => seq![t],
        None => seq![],
    }
}

/// The text of an optional string.
pub open spec fn opt_view(o: Option<String>) -> Option<Seq<char>> {
    match o {
        Some(t) => Some(t@),
        None => None,
    }
}

/// A binary64 number written as `{:.0}` does: the nearest integer, ties to even.
pub open spec fn whole_text(a: (nat, int)) -> Seq<char> {
    dec_digits(round_scaled(a, 1))
}

/// The binary64 number `0.5`.
pub open spec fn half() -> (nat, int) {
    rnd(1, 2)
}

/// Total CPU seconds: user plus system time, each as `as_secs_f64`.
pub open spec fn cpu_total(f: CpuFigures) -> (nat, int) {
    plus(secs_f64(f.user_secs as nat, f.user_nanos as nat), secs_f64(f.sys_secs as nat, f.sys_nanos as nat))
}

/// CPU-bound: the CPU seconds exceed nine tenths of the wall time.
pub open spec fn cpu_bound_text(f: CpuFigures, wall: (nat, int)) -> Option<Seq<char>> {
    if lt(rnd(9, 10), quot(cpu_total(f), wall)) {
        Some(
            "[CPU]  CPU-bound workload ("@ + whole_text((f.cpu_percent.0 as nat, f.cpu_percent.1 as int))
                + "% utilization)"@,
        )
    } else {
        None
    }
}

/// I/O-bound: the CPU seconds stay below half the wall time while the run
/// switched context voluntarily more than 100 times.
pub open spec fn io_bound_text(s: Summary, f: CpuFigures, wall: (nat, int)) -> Option<Seq<char>> {
    if lt(quot(cpu_total(f), wall), half()) && s.total_voluntary_ctxt_switches > 100 {
        Some("[CPU]  I/O-bound workload (low CPU with frequent voluntary context switches)"@)
    } else {
        None
    }
}

/// The share of system time in the CPU seconds.
pub open spec fn sys_share(f: CpuFigures) -> (nat, int) {
    quot(secs_f64(f.sys_secs as nat, f.sys_nanos as nat), cpu_total(f))
}

/// Kernel-heavy: system time is more than half of the CPU seconds.
pub open spec fn kernel_text(f: CpuFigures) -> Option<Seq<char>> {
    if lt((0, 0), cpu_total(f)) && lt(half(), sys_share(f)) {
        Some(
            "[CPU]  Kernel-heavy workload ("@ + whole_text(mul_int(sys_share(f), 100))
                + "% system time -- high syscall overhead)"@,
        )
    } else {
        None
    }
}

/// `count as f64 / wall`.
pub open spec fn rate(count: u64, wall: (nat, int)) -> (nat, int) {
    quot(from_int(count as nat), wall)
}

/// High contention: more than 1000 involuntary context switches a second.
pub open spec fn contention_text(s: Summary, wall: (nat, int)) -> Option<Seq<char>> {
    let r = rate(s.total_nonvoluntary_ctxt_switches, wall);
    if lt(from_int(1000), r) {
        Some("[CPU]  High CPU contention ("@ + whole_text(r) + " involuntary context switches/sec)"@)
    } else {
        None
    }
}

/// The findings about CPU use, in report order.
pub open spec fn cpu_findings(s: Summary, f: CpuFigures, wall: (nat, int)) -> Seq<Seq<char>> {
    listed(cpu_bound_text(f, wall)) + listed(io_bound_text(s, f, wall)) + listed(kernel_text(f)) + listed(
        contention_text(s, wall),
    )
}

/// The share of read characters that did not reach the disk.
pub open spec fn cache_share(s: Summary) -> (nat, int) {
    quot(
        from_int(crate::metrics::sat_sub(s.total_rchar, s.total_read_bytes) as nat),
        from_int(s.total_rchar as nat),
    )
}

/// Page-cache reads: over 1 MiB read, more than half of it from the cache.
pub open spec fn cache_text(s: Summary) -> Option<Seq<char>> {
    if s.total_rchar > 0 && s.total_read_bytes > 0 && lt(half(), cache_share(s)) && s.total_rchar
        > MIB {
        Some("[I/O]  "@ + whole_text(mul_int(cache_share(s), 100)) + "% of reads served from page cache"@)
    } else {
        None
    }
}

/// Heavy disk traffic: more than 100 MiB a second (`what` is `Read` or
/// `Write`).
pub open spec fn heavy_text(bytes: u64, wall: (nat, int), what: Seq<char>) -> Option<Seq<char>> {
    let r = rate(bytes, wall);
    if lt(from_int(100 * 1024 * 1024), r) {
        Some("[I/O]  "@ + what + "-heavy: "@ + bytes_text(to_u64(r)) + "/sec throughput"@)
    } else {
        None
    }
}

/// The findings about I/O, in report order.
pub open spec fn io_findings(s: Summary, wall: (nat, int)) -> Seq<Seq<char>> {
    listed(cache_text(s)) + listed(small_ops_text(s.total_rchar, s.total_syscr, "read"@)) + listed(
        small_ops_text(s.total_wchar, s.total_syscw, "write"@),
    ) + listed(heavy_text(s.total_read_bytes, wall, "Read"@)) + listed(
        heavy_text(s.total_write_bytes, wall, "Write"@),
    )
}

/// Major page faults: paging above 100 a second, memory pressure above 10.
pub open spec fn fault_text(s: Summary, wall: (nat, int)) -> Option<Seq<char>> {
    let r = rate(s.total_majflt, wall);
    if lt(from_int(100), r) {
        Some("[MEM]  Severe disk paging ("@ + whole_text(r) + " major page faults/sec)"@)
    } else if lt(from_int(10), r) {
        Some("[MEM]  Memory pressure detected ("@ + whole_text(r) + " major page faults/sec)"@)
    } else {
        None
    }
}

/// How far through the run sample `k` of `n` lies, in percent.
pub open spec fn progress(k: nat, n: nat) -> (nat, int) {
    mul_int(quot(from_int(k), from_int(n)), 100)
}

/// The peak-then-decline finding (see `peak_decline_holds`), with the
/// position of the last RSS peak.
pub open spec fn peak_text(s: Summary, rss: Seq<u64>) -> Option<Seq<char>> {
    if peak_decline_holds(s, rss.len()) {
        let k = choose|k: int| is_last_max(rss, k);
        Some(
            "[MEM]  Peak RSS "@ + bytes_text(s.peak_rss_bytes as nat) + " at "@ + whole_text(
                progress(k as nat, rss.len()),
            ) + "% through execution, then declined"@,
        )
    } else {
        None
    }
}

/// The memory-growth finding (see `memory_growth_holds`).
pub open spec fn growth_text(s: Summary, rss: Seq<u64>) -> Option<Seq<char>> {
    if memory_growth_holds(s, rss) {
        Some("[MEM]  Memory grew monotonically -- possible leak if long-running"@)
    } else {
        None
    }
}

/// Every finding about a run, in report order: none for a run shorter than
/// a millisecond; else CPU, I/O, threads and page faults, then, when there
/// are samples, memory and file descriptors.
pub open spec fn insights_of(
    s: Summary,
    f: CpuFigures,
    samples: SampleColumns,
    wall_secs: nat,
    wall_nanos: nat,
) -> Seq<Seq<char>> {
    let wall = secs_f64(wall_secs, wall_nanos);
    if lt(wall, rnd(1, 1000)) {
        seq![]
    } else {
        cpu_findings(s, f, wall) + io_findings(s, wall) + listed(thread_insight_text(s)) + listed(
            fault_text(s, wall),
        ) + if samples.timestamp@.len() == 0 {
            seq![]
        } else {
            listed(peak_text(s, samples.rss_bytes@)) + listed(growth_text(s, samples.rss_bytes@))
                + listed(fd_growth_text(samples.fd_count@))
        }
    }
}

/// The last maximum of a column is a single index.
pub(crate) proof fn lemma_last_max_unique(v: Seq<u64>, k1: int, k2: int)
    requires
        is_last_max(v, k1),
        is_last_max(v, k2),
    ensures
        k1 == k2,
{
    if k1 < k2 {
        assert(v[k2] < v[k1]);
        assert(v[k1] <= v[k2]);
    } else if k2 < k1 {
        assert(v[k1] < v[k2]);
        assert(v[k2] <= v[k1]);
    }
}

/// Appends an optional finding.
fn push_opt(out: &mut Vec<String>, o: Option<String>)
    ensures
        final(out)@.map_values(|t: String| t@) == old(out)@.map_values(|t: String| t@) + listed(
            opt_view(o),
        ),
{
    let ghost before = out@.map_values(|t: String| t@);
    match o {
        Some(t) => {
            out.push(t);
            assert(out@.map_values(|t: String| t@) =~= before + listed(opt_view(Some(t))));
        },
        None => {
            assert(out@.map_values(|t: String| t@) =~= before + listed(opt_view(None::<String>)));
        },
    }
}

/// `whole_text(a)` appended.
fn push_whole(out: &mut Vec<char>, a: (u128, i32))
    requires
        is_norm((a.0 as nat, a.1 as int)),
        a.1 <= 60,
    ensures
        final(out)@ == old(out)@ + whole_text((a.0 as nat, a.1 as int)),
{
    push_dec(out, round_int_exec(a, 1));
}

/// The wall time and the constants the CPU findings compare with.
fn cpu_bound_finding(f: &CpuFigures, total: (u128, i32), wall: (u128, i32)) -> (r: Option<String>)
    requires
        figures_wf(*f),
        (total.0 as nat, total.1 as int) == cpu_total(*f),
        is_norm((total.0 as nat, total.1 as int)),
        -1000 <= total.1 <= 1000,
        two_pow(52) <= wall.0 < two_pow(53),
        -1000 <= wall.1 <= 1000,
    ensures
        opt_view(r) == cpu_bound_text(*f, (wall.0 as nat, wall.1 as int)),
{
    let ratio = quot_exec(total, wall);
    let nine_tenths = round_ratio64(9, 10);
    if lt0_exec(nine_tenths, ratio) {
        let mut v: Vec<char> = Vec::new();
        push_str(&mut v, "[CPU]  CPU-bound workload (");
        push_whole(&mut v, f.cpu_percent);
        push_str(&mut v, "% utilization)");
        Some(string_from_chars(&v))
    } else {
        None
    }
}

fn io_bound_finding(s: &Summary, f: &CpuFigures, total: (u128, i32), wall: (u128, i32)) -> (r: Option<String>)
    requires
        (total.0 as nat, total.1 as int) == cpu_total(*f),
        is_norm((total.0 as nat, total.1 as int)),
        -1000 <= total.1 <= 1000,
        two_pow(52) <= wall.0 < two_pow(53),
        -1000 <= wall.1 <= 1000,
    ensures
        opt_view(r) == io_bound_text(*s, *f, (wall.0 as nat, wall.1 as int)),
{
    let ratio = quot_exec(total, wall);
    let h = round_ratio64(1, 2);
    if lt0_exec(ratio, h) && s.total_voluntary_ctxt_switches > 100 {
        Some(
            string_from_chars(
                &crate::text::chars_of(
                    "[CPU]  I/O-bound workload (low CPU with frequent voluntary context switches)",
                ),
            ),
        )
    } else {
        None
    }
}

fn kernel_finding(f: &CpuFigures, sys: (u128, i32), total: (u128, i32)) -> (r: Option<String>)
    requires
        (sys.0 as nat, sys.1 as int) == secs_f64(f.sys_secs as nat, f.sys_nanos as nat),
        (total.0 as nat, total.1 as int) == cpu_total(*f),
        is_norm((sys.0 as nat, sys.1 as int)),
        is_norm((total.0 as nat, total.1 as int)),
        -119 <= sys.1 <= 14,
        -119 <= total.1 <= 16,
        sys.0 != 0 && total.0 != 0 ==> sys.1 <= total.1,
        sys.0 != 0 ==> total.0 != 0,
    ensures
        opt_view(r) == kernel_text(*f),
{
    let zero: (u128, i32) = (0, 0);
    if !lt0_exec(zero, total) {
        return None;
    }
    let share = quot_exec(sys, total);
    let h = round_ratio64(1, 2);
    if lt0_exec(h, share) {
        let pct = mul_int_exec(share, 100);
        let mut v: Vec<char> = Vec::new();
        push_str(&mut v, "[CPU]  Kernel-heavy workload (");
        push_whole(&mut v, pct);
        push_str(&mut v, "% system time -- high syscall overhead)");
        Some(string_from_chars(&v))
    } else {
        None
    }
}

/// `rate(count, wall)`, with the range of its exponent.
fn rate_exec(count: u64, wall: (u128, i32)) -> (r: (u128, i32))
    requires
        two_pow(52) <= wall.0 < two_pow(53),
        -62 <= wall.1 <= 14,
    ensures
        (r.0 as nat, r.1 as int) == rate(count, (wall.0 as nat, wall.1 as int)),
        is_norm((r.0 as nat, r.1 as int)),
        -120 <= r.1 <= 23,
{
    quot_exec(from_int_exec(count), wall)
}

fn contention_finding(s: &Summary, wall: (u128, i32)) -> (r: Option<String>)
    requires
        two_pow(52) <= wall.0 < two_pow(53),
        -62 <= wall.1 <= 14,
    ensures
        opt_view(r) == contention_text(*s, (wall.0 as nat, wall.1 as int)),
{
    let r = rate_exec(s.total_nonvoluntary_ctxt_switches, wall);
    if lt0_exec(from_int_exec(1000), r) {
        let mut v: Vec<char> = Vec::new();
        push_str(&mut v, "[CPU]  High CPU contention (");
        push_whole(&mut v, r);
        push_str(&mut v, " involuntary context switches/sec)");
        Some(string_from_chars(&v))
    } else {
        None
    }
}

fn cache_finding(s: &Summary) -> (r: Option<String>)
    ensures
        opt_view(r) == cache_text(*s),
{
    if s.total_rchar > 0 && s.total_read_bytes > 0 {
        let share = quot_exec(
            from_int_exec(s.total_rchar.saturating_sub(s.total_read_bytes)),
            from_int_exec(s.total_rchar),
        );
        let h = round_ratio64(1, 2);
        if lt0_exec(h, share) && s.total_rchar > MIB {
            let pct = mul_int_exec(share, 100);
            let mut v: Vec<char> = Vec::new();
            push_str(&mut v, "[I/O]  ");
            push_whole(&mut v, pct);
            push_str(&mut v, "% of reads served from page cache");
            return Some(string_from_chars(&v));
        }
    }
    None
}

fn heavy_finding(bytes: u64, wall: (u128, i32), what: &str) -> (r: Option<String>)
    requires
        two_pow(52) <= wall.0 < two_pow(53),
        -62 <= wall.1 <= 14,
    ensures
        opt_view(r) == heavy_text(bytes, (wall.0 as nat, wall.1 as int), what@),
{
    let r = rate_exec(bytes, wall);
    if lt0_exec(from_int_exec(100 * 1024 * 1024), r) {
        let mut v: Vec<char> = Vec::new();
        push_str(&mut v, "[I/O]  ");
        push_str(&mut v, what);
        push_str(&mut v, "-heavy: ");
        push_bytes(&mut v, to_u64_exec(r));
        push_str(&mut v, "/sec throughput");
        Some(string_from_chars(&v))
    } else {
        None
    }
}

fn fault_finding(s: &Summary, wall: (u128, i32)) -> (r: Option<String>)
    requires
        two_pow(52) <= wall.0 < two_pow(53),
        -62 <= wall.1 <= 14,
    ensures
        opt_view(r) == fault_text(*s, (wall.0 as nat, wall.1 as int)),
{
    let r = rate_exec(s.total_majflt, wall);
    if lt0_exec(from_int_exec(100), r) {
        let mut v: Vec<char> = Vec::new();
        push_str(&mut v, "[MEM]  Severe disk paging (");
        push_whole(&mut v, r);
        push_str(&mut v, " major page faults/sec)");
        Some(string_from_chars(&v))
    } else if lt0_exec(from_int_exec(10), r) {
        let mut v: Vec<char> = Vec::new();
        push_str(&mut v, "[MEM]  Memory pressure detected (");
        push_whole(&mut v, r);
        push_str(&mut v, " major page faults/sec)");
        Some(string_from_chars(&v))
    } else {
        None
    }
}

fn peak_finding(s: &Summary, samples: &SampleColumns) -> (r: Option<String>)
    requires
        samples.wf(),
        s.peak_rss_bytes > 0 && samples.timestamp@.len() > 2 ==> s.final_rss_bytes * 2 <= u64::MAX,
    ensures
        opt_view(r) == peak_text(*s, samples.rss_bytes@),
{
    match peak_decline(s, samples) {
        Some(k) => {
            let n = samples.len();
            proof {
                let c = choose|j: int| is_last_max(samples.rss_bytes@, j);
                lemma_last_max_unique(samples.rss_bytes@, c, k as int);
            }
            let pct = mul_int_exec(quot_exec(from_int_exec(k as u64), from_int_exec(n as u64)), 100);
            let mut v: Vec<char> = Vec::new();
            push_str(&mut v, "[MEM]  Peak RSS ");
            push_bytes(&mut v, s.peak_rss_bytes);
            push_str(&mut v, " at ");
            push_whole(&mut v, pct);
            push_str(&mut v, "% through execution, then declined");
            Some(string_from_chars(&v))
        },
        None => None,
    }
}

/// Appends the CPU findings.
fn push_cpu_findings(out: &mut Vec<String>, s: &Summary, f: &CpuFigures, wall: (u128, i32))
    requires
        figures_wf(*f),
        two_pow(52) <= wall.0 < two_pow(53),
        -62 <= wall.1 <= 14,
    ensures
        final(out)@.map_values(|t: String| t@) == old(out)@.map_values(|t: String| t@) + cpu_findings(
            *s,
            *f,
            (wall.0 as nat, wall.1 as int),
        ),
{
    let ghost before = out@.map_values(|t: String| t@);
    let ghost gw = (wall.0 as nat, wall.1 as int);
    let user = secs_f64_exec(f.user_secs, f.user_nanos);
    let sys = secs_f64_exec(f.sys_secs, f.sys_nanos);
    let total = plus_exec(user, sys);
    push_opt(out, cpu_bound_finding(f, total, wall));
    push_opt(out, io_bound_finding(s, f, total, wall));
    push_opt(out, kernel_finding(f, sys, total));
    push_opt(out, contention_finding(s, wall));
    assert(out@.map_values(|t: String| t@) =~= before + cpu_findings(*s, *f, gw));
}

/// Appends the I/O findings.
#[verifier::spinoff_prover]
#[verifier::rlimit(40)]
fn push_io_findings(out: &mut Vec<String>, s: &Summary, wall: (u128, i32))
    requires
        two_pow(52) <= wall.0 < two_pow(53),
        -62 <= wall.1 <= 14,
    ensures
        final(out)@.map_values(|t: String| t@) == old(out)@.map_values(|t: String| t@) + io_findings(
            *s,
            (wall.0 as nat, wall.1 as int),
        ),
{
    let ghost before = out@.map_values(|t: String| t@);
    let ghost gw = (wall.0 as nat, wall.1 as int);
    push_opt(out, cache_finding(s));
    push_opt(out, small_read_insight(s));
    push_opt(out, small_write_insight(s));
    push_opt(out, heavy_finding(s.total_read_bytes, wall, "Read"));
    push_opt(out, heavy_finding(s.total_write_bytes, wall, "Write"));
    assert(out@.map_values(|t: String| t@) =~= before + io_findings(*s, gw));
}

/// Appends the findings drawn from the samples.
fn push_sample_findings(out: &mut Vec<String>, s: &Summary, samples: &SampleColumns)
    requires
        samples.wf(),
        samples.timestamp@.len() > 10 && mostly_rising(
            rising_pairs_u64(samples.rss_bytes@),
            samples.timestamp@.len(),
        ) ==> s.initial_rss_bytes * 2 <= u64::MAX,
        samples.timestamp@.len() > 10 && mostly_rising(
            rising_pairs_u32(samples.fd_count@),
            samples.timestamp@.len(),
        ) ==> samples.fd_count@[0] + 10 <= u32::MAX,
        s.peak_rss_bytes > 0 && samples.timestamp@.len() > 2 ==> s.final_rss_bytes * 2 <= u64::MAX,
    ensures
        final(out)@.map_values(|t: String| t@) == old(out)@.map_values(|t: String| t@) + listed(
            peak_text(*s, samples.rss_bytes@),
        ) + listed(growth_text(*s, samples.rss_bytes@)) + listed(fd_growth_text(samples.fd_count@)),
{
    let ghost before = out@.map_values(|t: String| t@);
    push_opt(out, peak_finding(s, samples));
    let g = memory_growth_insight(s, samples);
    assert(opt_view(g) == growth_text(*s, samples.rss_bytes@));
    push_opt(out, g);
    push_opt(out, fd_insight(samples));
    assert(out@.map_values(|t: String| t@) =~= before + listed(peak_text(*s, samples.rss_bytes@))
        + listed(growth_text(*s, samples.rss_bytes@)) + listed(fd_growth_text(samples.fd_count@)));
}

/// Analyze collected metrics and produce human-readable insights (see
/// `insights_of`). The wall time is given as whole seconds and nanoseconds.
pub fn generate_insights(
    summary: &Summary,
    cpu: &CpuFigures,
    samples: &SampleColumns,
    wall_secs: u64,
    wall_nanos: u32,
) -> (r: Vec<String>)
    requires
        samples.wf(),
        wall_nanos < 1_000_000_000,
        figures_wf(*cpu),
        summary.initial_threads * 2 <= u32::MAX,
        samples.timestamp@.len() > 10 && mostly_rising(
            rising_pairs_u64(samples.rss_bytes@),
            samples.timestamp@.len(),
        ) ==> summary.initial_rss_bytes * 2 <= u64::MAX,
        samples.timestamp@.len() > 10 && mostly_rising(
            rising_pairs_u32(samples.fd_count@),
            samples.timestamp@.len(),
        ) ==> samples.fd_count@[0] + 10 <= u32::MAX,
        summary.peak_rss_bytes > 0 && samples.timestamp@.len() > 2 ==> summary.final_rss_bytes * 2
            <= u64::MAX,
    ensures
        r@.map_values(|t: String| t@) == insights_of(
            *summary,
            *cpu,
            *samples,
            wall_secs as nat,
            wall_nanos as nat,
        ),
{
    let mut out: Vec<String> = Vec::new();
    let wall = secs_f64_exec(wall_secs, wall_nanos);
    let milli = round_ratio64(1, 1000);
    let ghost gw = (wall.0 as nat, wall.1 as int);
    let ghost gm = (milli.0 as nat, milli.1 as int);
    proof {
        lemma_threshold_exponents();
        crate::numfmt::lemma_two_pow_values();
    }
    if wall.0 == 0 {
        proof {
            let y = crate::binary64::min_exp(gw, gm);
            assert(crate::binary64::aligned(gw, y) == 0);
            assert(crate::binary64::aligned(gm, y) == milli.0 * two_pow(0));
            assert(two_pow(0) == 1);
        }
        assert(out@.map_values(|t: String| t@) =~= Seq::<Seq<char>>::empty());
        return out;
    }
    if lt_exec(wall, milli) {
        assert(out@.map_values(|t: String| t@) =~= Seq::<Seq<char>>::empty());
        return out;
    }
    proof {
        lemma_lt_norm(gw, gm);
    }
    let ghost start = out@.map_values(|t: String| t@);
    push_cpu_findings(&mut out, summary, cpu, wall);
    push_io_findings(&mut out, summary, wall);
    push_opt(&mut out, thread_insight(summary));
    push_opt(&mut out, fault_finding(summary, wall));
    let ghost mid = out@.map_values(|t: String| t@);
    assert(mid =~= cpu_findings(*summary, *cpu, gw) + io_findings(*summary, gw) + listed(
        thread_insight_text(*summary),
    ) + listed(fault_text(*summary, gw)));
    if !samples.is_empty() {
        push_sample_findings(&mut out, summary, samples);
    }
    assert(out@.map_values(|t: String| t@) =~= insights_of(
        *summary,
        *cpu,
        *samples,
        wall_secs as nat,
        wall_nanos as nat,
    ));
    out
}

} // verus!
