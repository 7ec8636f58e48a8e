//! Python function tracing: the injector script handed to the interpreter,
//! the reading of the trace it writes (one line per call or return:
//! `ms,event,module,qualname,file`), and the peaks of the samples that the
//! trace is asked about.
use vstd::prelude::*;
use crate::text::{chars_of, find_char, first_index, has_prefix, push_chars, push_str, same_chars, starts_with, string_from_chars};
use crate::insights::{bytes_text, is_last_max, last_max_index, lemma_last_max_unique, push_bytes};
use crate::binary64::{
    div_int, div_int_exec, from_int, from_int_exec, is_norm, lt, lt0_exec, mul_int, mul_int_exec, plus, plus_exec,
    quot, quot_exec, rnd, round_int_exec, round_ratio, round_scaled, secs_f64_exec, to_u64, to_u64_exec,
};
use crate::metrics::{sat_sub, SampleColumns};
use crate::terminal::chart::b64;
use crate::terminal::report::{in_time_order, nanos_secs, step_nanos};
use crate::text::{dec_digits, push_dec};

verus! {

/// A program runs under Python tracing when its file name without
/// extension is `python`, `python3` or `python3.<minor>`.
pub open spec fn python_stem(stem: Seq<char>) -> bool {
    stem == "python"@ || stem == "python3"@ || has_prefix(stem, "python3."@)
}

/// Whether a program's file stem names a Python interpreter (see
/// `python_stem`).
pub fn is_python_stem(stem: &str) -> (r: bool)
    ensures
        r == python_stem(stem@),
{
    let v = chars_of(stem);
    let a = chars_of("python");
    let b = chars_of("python3");
    let c = chars_of("python3.");
    same_chars(&v, &a) || same_chars(&v, &b) || starts_with(&v, &c)
}

/// `s` with each backslash and double quote escaped by a backslash, as
/// needed inside a double-quoted Python string literal.
pub open spec fn py_escaped(s: Seq<char>) -> Seq<char>
    decreases s.len(),
{
    if s.len() == 0 {
        seq![]
    } else {
        let c = s.last();
        py_escaped(s.drop_last()) + if c == '\\' {
            seq!['\\', '\\']
        } else if c == '"' {
            seq!['\\', '"']
        } else {
            seq![c]
        }
    }
}

/// Appends `s` escaped for a Python string literal.
fn push_escaped(out: &mut Vec<char>, s: &str)
    ensures
        final(out)@ == old(out)@ + py_escaped(s@),
{
    let v = chars_of(s);
    let ghost start = out@;
    let mut i: usize = 0;
    while i < v.len()
        invariant
            v@ == s@,
            i <= v@.len(),
            out@ == start + py_escaped(v@.take(i as int)),
        decreases v@.len() - i,
    {
        let c = v[i];
        assert(v@.take(i + 1).drop_last() =~= v@.take(i as int));
        if c == '\\' {
            out.push('\\');
            out.push('\\');
        } else if c == '"' {
            out.push('\\');
            out.push('"');
        } else {
            out.push(c);
        }
        i = i + 1;
        assert(out@ =~= start + py_escaped(v@.take(i as int)));
    }
    assert(v@.take(v@.len() as int) =~= v@);
}

/// The script before the optional import line.
pub open spec fn script_head() -> Seq<char> {
    "import sys as _sys, time as _time, atexit as _atexit, threading as _threading\n"@
}

/// From the import line to the trace path.
pub open spec fn script_path_intro() -> Seq<char> {
    "\n\n_t0 = _time.monotonic()\n_TRACE_PATH = \""@
}

/// From the trace path to the optional filter line.
pub open spec fn script_tracer_intro() -> Seq<char> {
    "\"\n_local = _threading.local()\n\ndef _tracer(frame, event, arg):\n    if event not in ('call', 'return'):\n        return _tracer\n"@
}

/// The rest of the script after the filter line.
pub open spec fn script_tail() -> Seq<char> {
    "\n    ms = (_time.monotonic() - _t0) * 1000.0\n    mod = frame.f_globals.get('__name__', '') or ''\n    fn  = frame.f_code.co_qualname if hasattr(frame.f_code, 'co_qualname') else frame.f_code.co_name\n    fil = frame.f_code.co_filename\n    buf = _local.__dict__.setdefault('buf', [])\n    buf.append(f\"{ms:.1f},{event},{mod},{fn},{fil}\\n\")\n    if len(buf) >= 200:\n        _flush_local(buf)\n    return _tracer\n\ndef _flush_local(buf):\n    try:\n        with open(_TRACE_PATH, 'a') as _f:\n            _f.writelines(buf)\n        buf.clear()\n    except Exception:\n        pass\n\n_orig_run = _threading.Thread.run\ndef _patched_run(self):\n    try:\n        _orig_run(self)\n    finally:\n        buf = _local.__dict__.get('buf')\n        if buf:\n            _flush_local(buf)\n_threading.Thread.run = _patched_run\n\ndef _flush_all():\n    buf = _local.__dict__.get('buf')\n    if buf:\n        _flush_local(buf)\n\n_atexit.register(_flush_all)\n_sys.settrace(_tracer)\n_threading.settrace(_tracer)\n"@
}

/// The import that frame filtering needs.
pub open spec fn fnmatch_import() -> Seq<char> {
    "from fnmatch import fnmatch as _fnmatch"@
}

/// The tracer's filter line for the (escaped) pattern `ep`.
pub open spec fn filter_line(ep: Seq<char>) -> Seq<char> {
    "    if not _fnmatch(frame.f_code.co_filename, \""@ + ep + "\"): return _tracer"@
}

/// The injector script: it records every Python call and return (of the
/// frames whose file name matches `py_filter`, when there is one) into the
/// file at `trace_path`.
pub open spec fn injector_text(trace_path: Seq<char>, py_filter: Option<Seq<char>>) -> Seq<char> {
    let (import_line, filter) = match py_filter {
        Some(pat) => (fnmatch_import(), filter_line(py_escaped(pat))),
        None => (Seq::<char>::empty(), Seq::<char>::empty()),
    };
    script_head() + import_line + script_path_intro() + py_escaped(trace_path) + script_tracer_intro()
        + filter + script_tail()
}

/// `py_filter` is an optional glob pattern (e.g. `"*test_workload.py"`) —
/// when set, only frames whose filename matches are recorded.
pub fn injector_script(trace_path: &str, py_filter: Option<&str>) -> (s: String)
    ensures
        s@ == injector_text(
            trace_path@,
            match py_filter {
                Some(p) => Some(p@),
                None => None,
            },
        ),
{
    let mut out: Vec<char> = Vec::new();
    push_str(&mut out, "import sys as _sys, time as _time, atexit as _atexit, threading as _threading\n");
    if py_filter.is_some() {
        push_str(&mut out, "from fnmatch import fnmatch as _fnmatch");
    }
    push_str(&mut out, "\n\n_t0 = _time.monotonic()\n_TRACE_PATH = \"");
    push_escaped(&mut out, trace_path);
    push_str(&mut out, "\"\n_local = _threading.local()\n\ndef _tracer(frame, event, arg):\n    if event not in ('call', 'return'):\n        return _tracer\n");
    match py_filter {
        Some(pat) => {
            push_str(&mut out, "    if not _fnmatch(frame.f_code.co_filename, \"");
            push_escaped(&mut out, pat);
            push_str(&mut out, "\"): return _tracer");
        },
        None => {},
    }
    push_str(&mut out, "\n    ms = (_time.monotonic() - _t0) * 1000.0\n    mod = frame.f_globals.get('__name__', '') or ''\n    fn  = frame.f_code.co_qualname if hasattr(frame.f_code, 'co_qualname') else frame.f_code.co_name\n    fil = frame.f_code.co_filename\n    buf = _local.__dict__.setdefault('buf', [])\n    buf.append(f\"{ms:.1f},{event},{mod},{fn},{fil}\\n\")\n    if len(buf) >= 200:\n        _flush_local(buf)\n    return _tracer\n\ndef _flush_local(buf):\n    try:\n        with open(_TRACE_PATH, 'a') as _f:\n            _f.writelines(buf)\n        buf.clear()\n    except Exception:\n        pass\n\n_orig_run = _threading.Thread.run\ndef _patched_run(self):\n    try:\n        _orig_run(self)\n    finally:\n        buf = _local.__dict__.get('buf')\n        if buf:\n            _flush_local(buf)\n_threading.Thread.run = _patched_run\n\ndef _flush_all():\n    buf = _local.__dict__.get('buf')\n    if buf:\n        _flush_local(buf)\n\n_atexit.register(_flush_all)\n_sys.settrace(_tracer)\n_threading.settrace(_tracer)\n");
    assert(out@ =~= injector_text(
        trace_path@,
        match py_filter {
            Some(p) => Some(p@),
            None => None,
        },
    ));
    string_from_chars(&out)
}

/// Frames of synthetic scopes (`<module>`, `<listcomp>`, …) whose names
/// start with `<`.
pub open spec fn is_noise(qualname: Seq<char>) -> bool {
    qualname.len() > 0 && qualname[0] == '<'
}

/// Whether a frame name is one of the synthetic scopes (see `is_noise`).
pub fn is_stdlib_noise(qualname: &str) -> (r: bool)
    ensures
        r == is_noise(qualname@),
{
    let v = chars_of(qualname);
    v.len() > 0 && v[0] == '<'
}

/// The display label of a traced function: `qualname (module)`.
pub open spec fn fn_label(qualname: Seq<char>, module: Seq<char>) -> Seq<char> {
    qualname + seq![' ', '('] + module + seq![')']
}

/// The display label of a traced function: `qualname (module)`.
pub fn function_label(qualname: &str, module: &str) -> (s: String)
    ensures
        s@ == fn_label(qualname@, module@),
{
    let mut out: Vec<char> = Vec::new();
    push_str(&mut out, qualname);
    out.push(' ');
    out.push('(');
    push_str(&mut out, module);
    out.push(')');
    string_from_chars(&out)
}

/// `s` cut at its first `k - 1` commas into at most `k` pieces, as
/// `str::splitn(k, ',')` does.
pub open spec fn split_commas(s: Seq<char>, k: nat) -> Seq<Seq<char>>
    decreases k,
{
    if k <= 1 {
        seq![s]
    } else {
        match first_index(s, ',') {
            Some(i) => seq![s.take(i as int)] + split_commas(s.skip((i + 1) as int), (k - 1) as nat),
            None => seq![s],
        }
    }
}

/// The five comma-separated fields of a trace line; the last one (the
/// file name) keeps any further commas.
pub struct TraceFields {
    pub ms: String,
    pub event: String,
    pub module: String,
    pub qualname: String,
    pub file: String,
}

/// The characters `v[lo..hi]` as a `String`.
fn slice_string(v: &Vec<char>, lo: usize, hi: usize) -> (s: String)
    requires
        lo <= hi <= v@.len(),
    ensures
        s@ == v@.subrange(lo as int, hi as int),
{
    let mut out: Vec<char> = Vec::new();
    let mut i = lo;
    while i < hi
        invariant
            lo <= i <= hi <= v@.len(),
            out@ == v@.subrange(lo as int, i as int),
        decreases hi - i,
    {
        out.push(v[i]);
        i = i + 1;
        assert(out@ =~= v@.subrange(lo as int, i as int));
    }
    string_from_chars(&out)
}

/// Splits a trace line into its five fields; `None` when it has fewer than
/// four commas.
pub fn split_trace_line(line: &str) -> (r: Option<TraceFields>)
    ensures
        match r {
            Some(f) => {
                let parts = split_commas(line@, 5);
                &&& parts.len() == 5
                &&& f.ms@ == parts[0]
                &&& f.event@ == parts[1]
                &&& f.module@ == parts[2]
                &&& f.qualname@ == parts[3]
                &&& f.file@ == parts[4]
            },
            None => split_commas(line@, 5).len() != 5,
        },
{
    let v = chars_of(line);
    let ghost s = v@;
    let n = v.len();
    assert(s.skip(0) =~= s);
    let c0 = match find_char(&v, 0, ',') {
        Some(c) => c,
        None => {
            return None;
        },
    };
    assert(first_index(s, ',') == Some(c0 as nat));
    let ghost s1 = s.skip(c0 + 1);
    let c1 = match find_char(&v, c0 + 1, ',') {
        Some(c) => c,
        None => {
            assert(first_index(s1, ',') is None);
            assert(split_commas(s1, 4) == seq![s1]);
            assert(split_commas(s, 5) =~= seq![s.take(c0 as int)] + split_commas(s1, 4));
            return None;
        },
    };
    let ghost s2 = s.skip(c1 + 1);
    assert(s1.skip(c1 - c0) =~= s2);
    assert(first_index(s1, ',') == Some((c1 - c0 - 1) as nat));
    let c2 = match find_char(&v, c1 + 1, ',') {
        Some(c) => c,
        None => {
            assert(split_commas(s2, 3) == seq![s2]);
            assert(first_index(s2, ',') is None);
            assert(split_commas(s1, 4) =~= seq![s1.take(c1 - c0 - 1)] + seq![s2]);
            assert(split_commas(s, 5) =~= seq![s.take(c0 as int)] + split_commas(s1, 4));
            return None;
        },
    };
    let ghost s3 = s.skip(c2 + 1);
    assert(s2.skip(c2 - c1) =~= s3);
    assert(first_index(s2, ',') == Some((c2 - c1 - 1) as nat));
    let c3 = match find_char(&v, c2 + 1, ',') {
        Some(c) => c,
        None => {
            assert(split_commas(s3, 2) == seq![s3]);
            assert(split_commas(s2, 3) =~= seq![s2.take(c2 - c1 - 1)] + seq![s3]);
            assert(first_index(s3, ',') is None);
            assert(split_commas(s1, 4) =~= seq![s1.take(c1 - c0 - 1)] + split_commas(s2, 3));
            assert(split_commas(s, 5) =~= seq![s.take(c0 as int)] + split_commas(s1, 4));
            return None;
        },
    };
    let ghost s4 = s.skip(c3 + 1);
    assert(s3.skip(c3 - c2) =~= s4);
    assert(first_index(s3, ',') == Some((c3 - c2 - 1) as nat));
    assert(split_commas(s4, 1) == seq![s4]);
    assert(split_commas(s3, 2) =~= seq![s3.take(c3 - c2 - 1)] + seq![s4]);
    assert(split_commas(s2, 3) =~= seq![s2.take(c2 - c1 - 1)] + split_commas(s3, 2));
    assert(split_commas(s1, 4) =~= seq![s1.take(c1 - c0 - 1)] + split_commas(s2, 3));
    assert(split_commas(s, 5) =~= seq![s.take(c0 as int)] + split_commas(s1, 4));
    assert(s.take(c0 as int) =~= s.subrange(0, c0 as int));
    assert(s1.take(c1 - c0 - 1) =~= s.subrange(c0 + 1, c1 as int));
    assert(s2.take(c2 - c1 - 1) =~= s.subrange(c1 + 1, c2 as int));
    assert(s3.take(c3 - c2 - 1) =~= s.subrange(c2 + 1, c3 as int));
    assert(s4 =~= s.subrange(c3 + 1, n as int));
    let f = TraceFields {
        ms: slice_string(&v, 0, c0),
        event: slice_string(&v, c0 + 1, c1),
        module: slice_string(&v, c1 + 1, c2),
        qualname: slice_string(&v, c2 + 1, c3),
        file: slice_string(&v, c3 + 1, n),
    };
    Some(f)
}

/// The kind of a trace event.
#[derive(PartialEq, Eq, Structural)]
pub enum EventKind {
    Call,
    Return,
    Other,
}

/// The kind named by the event field of a trace line.
pub open spec fn kind_of(event: Seq<char>) -> EventKind {
    if event == "call"@ {
        EventKind::Call
    } else if event == "return"@ {
        EventKind::Return
    } else {
        EventKind::Other
    }
}

/// The kind of event that a trace line's event field names (see `kind_of`).
pub fn event_kind(event: &str) -> (k: EventKind)
    ensures
        k == kind_of(event@),
{
    let v = chars_of(event);
    if same_chars(&v, &chars_of("call")) {
        EventKind::Call
    } else if same_chars(&v, &chars_of("return")) {
        EventKind::Return
    } else {
        EventKind::Other
    }
}

/// A trace line that parsed (its timestamp stays with the caller, which
/// refers to events by their index).
pub struct TraceEvent {
    pub kind: EventKind,
    pub module: String,
    pub qualname: String,
}

/// Whether events `a` and `b` belong to the same function.
pub open spec fn same_function(evs: Seq<TraceEvent>, a: int, b: int) -> bool {
    evs[a].module@ == evs[b].module@ && evs[a].qualname@ == evs[b].qualname@
}

/// The highest position `p < k` of `stack` holding a call of the function of
/// event `i`.
pub open spec fn last_open_call(evs: Seq<TraceEvent>, stack: Seq<usize>, i: int, k: int) -> Option<
    int,
>
    decreases k,
{
    if k <= 0 {
        None
    } else if same_function(evs, stack[k - 1] as int, i) {
        Some(k - 1)
    } else {
        last_open_call(evs, stack, i, k - 1)
    }
}

/// The open calls and the finished spans after the first `k` events.
/// A call opens; a return closes the most recent open call of the same
/// function (a return with no such call is ignored); spans are
/// `(call index, return index)` in the order they close.
pub open spec fn replay(evs: Seq<TraceEvent>, k: nat) -> (Seq<usize>, Seq<(usize, usize)>)
    decreases k,
{
    if k == 0 {
        (Seq::empty(), Seq::empty())
    } else {
        let (stack, spans) = replay(evs, (k - 1) as nat);
        let i = k - 1;
        match evs[i].kind {
            EventKind::Call => (stack.push(i as usize), spans),
            EventKind::Return => match last_open_call(evs, stack, i, stack.len() as int) {
                Some(p) => (stack.remove(p), spans.push((stack[p], i as usize))),
                None => (stack, spans),
            },
            EventKind::Other => (stack, spans),
        }
    }
}

/// Every open call on the stack after `k` events is a call event before `k`.
pub open spec fn stack_ok(evs: Seq<TraceEvent>, stack: Seq<usize>, k: nat) -> bool {
    forall|j: int|
        0 <= j < stack.len() ==> (#[trigger] stack[j]) < k && evs[stack[j] as int].kind
            == EventKind::Call
}

/// Every span pairs a call with a later return of the same function.
pub open spec fn spans_ok(evs: Seq<TraceEvent>, spans: Seq<(usize, usize)>, k: nat) -> bool {
    forall|j: int|
        0 <= j < spans.len() ==> {
            let (c, r) = #[trigger] spans[j];
            &&& c < r < k
            &&& evs[c as int].kind == EventKind::Call
            &&& evs[r as int].kind == EventKind::Return
            &&& same_function(evs, c as int, r as int)
        }
}

/// The match found is a call of the same function.
proof fn lemma_last_open_call_matches(evs: Seq<TraceEvent>, stack: Seq<usize>, i: int, k: int)
    requires
        k <= stack.len(),
    ensures
        last_open_call(evs, stack, i, k) matches Some(p) ==> 0 <= p < k && same_function(
            evs,
            stack[p] as int,
            i,
        ),
    decreases k,
{
    if k > 0 {
        lemma_last_open_call_matches(evs, stack, i, k - 1);
    }
}

/// Reading a trace pairs every span's call with a later return of the same
/// function, and only open calls wait on the stack.
pub proof fn law_spans_pair_calls_with_returns(evs: Seq<TraceEvent>, k: nat)
    requires
        k <= evs.len() <= usize::MAX,
    ensures
        stack_ok(evs, replay(evs, k).0, k),
        spans_ok(evs, replay(evs, k).1, k),
    decreases k,
{
    if k > 0 {
        law_spans_pair_calls_with_returns(evs, (k - 1) as nat);
        let (stack, spans) = replay(evs, (k - 1) as nat);
        let i = k - 1;
        if evs[i as int].kind == EventKind::Return {
            lemma_last_open_call_matches(evs, stack, i as int, stack.len() as int);
            match last_open_call(evs, stack, i as int, stack.len() as int) {
                Some(p) => {
                    let st2 = stack.remove(p);
                    assert forall|j: int| 0 <= j < st2.len() implies (#[trigger] st2[j]) < k
                        && evs[st2[j] as int].kind == EventKind::Call by {
                        if j < p {
                            assert(st2[j] == stack[j]);
                        } else {
                            assert(st2[j] == stack[j + 1]);
                        }
                    }
                    let sp2 = spans.push((stack[p], i as usize));
                    assert forall|j: int| 0 <= j < sp2.len() implies {
                        let (c, r) = #[trigger] sp2[j];
                        &&& c < r < k
                        &&& evs[c as int].kind == EventKind::Call
                        &&& evs[r as int].kind == EventKind::Return
                        &&& same_function(evs, c as int, r as int)
                    } by {
                        if j < spans.len() {
                            assert(sp2[j] == spans[j]);
                        }
                    }
                },
                None => {},
            }
        }
    }
}

/// Where the stack holds, at `q`, a call of the function of event `j`, and
/// nothing above it is of that function, the most recent open call of it
/// is at `q`.
proof fn lemma_last_open_call_is(evs: Seq<TraceEvent>, stack: Seq<usize>, j: int, q: int, k: int)
    requires
        0 <= q < k <= stack.len(),
        same_function(evs, stack[q] as int, j),
        forall|r: int| q < r < k ==> !same_function(evs, #[trigger] stack[r] as int, j),
    ensures
        last_open_call(evs, stack, j, k) == Some(q),
    decreases k,
{
    if k - 1 != q {
        assert(!same_function(evs, stack[k - 1] as int, j));
        lemma_last_open_call_is(evs, stack, j, q, k - 1);
    }
}

/// The call of event `i` stays open, with no open call of its function
/// above it, through every event up to `k` that is not a call or a return
/// of that function; the result is its place on the stack.
proof fn lemma_call_stays_open(evs: Seq<TraceEvent>, i: int, j: int, k: int) -> (q: int)
    requires
        0 <= i < k <= j < evs.len() <= usize::MAX,
        evs[i].kind == EventKind::Call,
        forall|m: int| i < m < j && evs[m].kind != EventKind::Other ==> !#[trigger] same_function(evs, i, m),
    ensures
        0 <= q < replay(evs, k as nat).0.len(),
        replay(evs, k as nat).0[q] == i as usize,
        forall|r: int|
            q < r < replay(evs, k as nat).0.len() ==> !same_function(
                evs,
                #[trigger] replay(evs, k as nat).0[r] as int,
                i,
            ),
    decreases k,
{
    let prev = replay(evs, (k - 1) as nat);
    let stack = prev.0;
    if k == i + 1 {
        stack.len() as int
    } else {
        let q0 = lemma_call_stays_open(evs, i, j, k - 1);
        let m = k - 1;
        let now = replay(evs, k as nat).0;
        match evs[m].kind {
            EventKind::Call => {
                assert(now == stack.push(m as usize));
                assert(!same_function(evs, i, m));
                assert forall|r: int| q0 < r < now.len() implies !same_function(
                    evs,
                    #[trigger] now[r] as int,
                    i,
                ) by {
                    if r < stack.len() {
                        assert(now[r] == stack[r]);
                    }
                }
                q0
            },
            EventKind::Return => {
                match last_open_call(evs, stack, m, stack.len() as int) {
                    Some(p) => {
                        lemma_last_open_call_matches(evs, stack, m, stack.len() as int);
                        assert(!same_function(evs, i, m));
                        assert(p != q0);
                        assert(now == stack.remove(p));
                        if p < q0 {
                            assert(now[q0 - 1] == stack[q0]);
                            assert forall|r: int| q0 - 1 < r < now.len() implies !same_function(
                                evs,
                                #[trigger] now[r] as int,
                                i,
                            ) by {
                                assert(now[r] == stack[r + 1]);
                            }
                            q0 - 1
                        } else {
                            assert(now[q0] == stack[q0]);
                            assert forall|r: int| q0 < r < now.len() implies !same_function(
                                evs,
                                #[trigger] now[r] as int,
                                i,
                            ) by {
                                if r < p {
                                    assert(now[r] == stack[r]);
                                } else {
                                    assert(now[r] == stack[r + 1]);
                                }
                            }
                            q0
                        }
                    },
                    None => {
                        assert(now == stack);
                        q0
                    },
                }
            },
            EventKind::Other => {
                assert(now == stack);
                q0
            },
        }
    }
}

/// Later events only add spans after those already made.
proof fn lemma_spans_grow(evs: Seq<TraceEvent>, k: nat, n: nat)
    requires
        k <= n,
    ensures
        replay(evs, k).1.len() <= replay(evs, n).1.len(),
        forall|x: int| 0 <= x < replay(evs, k).1.len() ==> #[trigger] replay(evs, n).1[x] == replay(evs, k).1[x],
    decreases n,
{
    if n > k {
        lemma_spans_grow(evs, k, (n - 1) as nat);
    }
}

/// A return closes the most recent open call of its function and leaves
/// every other open call open: a call followed by a return of the same
/// function, with no call or return of that function in between, is paired
/// with that return, whatever calls and returns of other functions (of
/// other threads, say) come in between.
pub proof fn law_return_closes_its_own_call(evs: Seq<TraceEvent>, i: int, j: int)
    requires
        0 <= i < j < evs.len() <= usize::MAX,
        evs[i].kind == EventKind::Call,
        evs[j].kind == EventKind::Return,
        same_function(evs, i, j),
        forall|m: int| i < m < j && evs[m].kind != EventKind::Other ==> !#[trigger] same_function(evs, i, m),
    ensures
        replay(evs, evs.len()).1.contains((i as usize, j as usize)),
{
    let q = lemma_call_stays_open(evs, i, j, j);
    let (stack, spans) = replay(evs, j as nat);
    assert forall|r: int| q < r < stack.len() implies !same_function(evs, #[trigger] stack[r] as int, j) by {
        assert(!same_function(evs, stack[r] as int, i));
    }
    lemma_last_open_call_is(evs, stack, j, q, stack.len() as int);
    let after = replay(evs, (j + 1) as nat).1;
    assert(after == spans.push((i as usize, j as usize)));
    lemma_spans_grow(evs, (j + 1) as nat, evs.len());
    assert(replay(evs, evs.len()).1[spans.len() as int] == (i as usize, j as usize));
}

/// Every index on the stack of `replay(evs, k)` is below `k`.
proof fn lemma_replay_indices(evs: Seq<TraceEvent>, k: nat)
    requires
        k <= evs.len(),
        evs.len() <= usize::MAX,
    ensures
        forall|j: int| 0 <= j < replay(evs, k).0.len() ==> (#[trigger] replay(evs, k).0[j]) < k,
    decreases k,
{
    if k > 0 {
        lemma_replay_indices(evs, (k - 1) as nat);
        let (stack, spans) = replay(evs, (k - 1) as nat);
        let i = k - 1;
        if evs[i].kind == EventKind::Return {
            match last_open_call(evs, stack, i, stack.len() as int) {
                Some(p) => {
                    lemma_last_open_call_range(evs, stack, i, stack.len() as int);
                    assert forall|j: int| 0 <= j < stack.remove(p).len() implies (#[trigger] stack.remove(p)[j]) < k by {
                        if j < p {
                            assert(stack.remove(p)[j] == stack[j]);
                        } else {
                            assert(stack.remove(p)[j] == stack[j + 1]);
                        }
                    }
                },
                None => {},
            }
        }
    }
}

/// The position found is inside the searched range.
proof fn lemma_last_open_call_range(evs: Seq<TraceEvent>, stack: Seq<usize>, i: int, k: int)
    ensures
        last_open_call(evs, stack, i, k) matches Some(p) ==> 0 <= p < k,
    decreases k,
{
    if k > 0 {
        lemma_last_open_call_range(evs, stack, i, k - 1);
    }
}

/// Position of the most recent open call of the function of event `i`.
fn find_open_call(evs: &Vec<TraceEvent>, stack: &Vec<usize>, i: usize) -> (r: Option<usize>)
    requires
        i < evs@.len(),
        forall|j: int| 0 <= j < stack@.len() ==> (#[trigger] stack@[j]) < evs@.len(),
    ensures
        match last_open_call(evs@, stack@, i as int, stack@.len() as int) {
            Some(p) => r == Some(p as usize) && 0 <= p < stack@.len(),
            None => r is None,
        },
{
    let mut k = stack.len();
    while k > 0
        invariant
            k <= stack@.len(),
            i < evs@.len(),
            forall|j: int| 0 <= j < stack@.len() ==> (#[trigger] stack@[j]) < evs@.len(),
            last_open_call(evs@, stack@, i as int, stack@.len() as int) == last_open_call(
                evs@,
                stack@,
                i as int,
                k as int,
            ),
        decreases k,
    {
        let c = stack[k - 1];
        if evs[c].module == evs[i].module && evs[c].qualname == evs[i].qualname {
            return Some(k - 1);
        }
        k = k - 1;
    }
    None
}

/// Pairs each return with the most recent open call of the same function
/// (see `replay`); calls that never return are dropped.
#[verifier::spinoff_prover]
pub fn match_spans(evs: &Vec<TraceEvent>) -> (spans: Vec<(usize, usize)>)
    ensures
        spans@ == replay(evs@, evs@.len()).1,
{
    let mut stack: Vec<usize> = Vec::new();
    let mut spans: Vec<(usize, usize)> = Vec::new();
    let n = evs.len();
    let mut i: usize = 0;
    while i < n
        invariant
            n == evs@.len(),
            i <= n,
            (stack@, spans@) == replay(evs@, i as nat),
        decreases n - i,
    {
        proof {
            lemma_replay_indices(evs@, i as nat);
            assert(stack@ == replay(evs@, i as nat).0);
            assert forall|j: int| 0 <= j < stack@.len() implies (#[trigger] stack@[j]) < evs@.len() by {
                assert(replay(evs@, i as nat).0[j] < i);
            }
        }
        match evs[i].kind {
            EventKind::Call => {
                stack.push(i);
            },
            EventKind::Return => {
                match find_open_call(evs, &stack, i) {
                    Some(p) => {
                        let c = stack.remove(p);
                        spans.push((c, i));
                    },
                    None => {},
                }
            },
            EventKind::Other => {},
        }
        i = i + 1;
    }
    spans
}

/// One row in the Python timeline table.
pub struct PyTimelineRow {
    /// Short display label: "qualname (module)"
    pub label: String,
    /// Dominant resource tag: "CPU", "MEM", "I/O", or ""
    pub tag: String,
    /// Bar cells across the timeline width — each char is one of " ░▒▓█"
    pub bar: String,
    /// Human-readable peak value for the dominant resource
    pub peak: String,
}

/// `2 * x`, saturating at `u64::MAX`.
pub open spec fn sat_double(x: u64) -> u64 {
    if 2 * x > u64::MAX {
        u64::MAX
    } else {
        (2 * x) as u64
    }
}

/// For the Python memory finding: the sample index of the (last) RSS peak,
/// when that peak exceeds twice the first sample.
pub fn trace_memory_peak(rss: &Vec<u64>) -> (r: Option<usize>)
    ensures
        r matches Some(k) ==> is_last_max(rss@, k as int) && rss@[k as int] > sat_double(rss@[0]),
        r is None ==> rss@.len() == 0 || forall|k: int|
            is_last_max(rss@, k) ==> rss@[k] <= sat_double(rss@[0]),
{
    if rss.len() == 0 {
        return None;
    }
    let k = last_max_index(rss);
    let first = rss[0];
    let doubled = if first > u64::MAX / 2 {
        u64::MAX
    } else {
        first * 2
    };
    if rss[k] > doubled {
        Some(k)
    } else {
        assert forall|j: int| is_last_max(rss@, j) implies rss@[j] <= sat_double(rss@[0]) by {
            assert(rss@[j] <= rss@[k as int]);
        }
        None
    }
}

/// `Duration::from_nanos(t).as_secs_f64() * 1000.0`: a sample's time in
/// milliseconds.
pub open spec fn sample_ms(t: nat) -> (nat, int) {
    mul_int(nanos_secs(t), 1000)
}

/// The middle of interval `i` in milliseconds:
/// `(secs(t_i) + secs(t_i+1)) / 2.0 * 1000.0`.
pub open spec fn interval_mid_ms(ts: Seq<u64>, i: int) -> (nat, int) {
    mul_int(div_int(plus(nanos_secs(ts[i] as nat), nanos_secs(ts[i + 1] as nat)), 2), 1000)
}

/// The CPU ticks of sample `i`, user and system.
pub open spec fn ticks_at(c: SampleColumns, i: int) -> u64 {
    (c.utime_ticks@[i] + c.stime_ticks@[i]) as u64
}

/// The CPU use over interval `i`, in percent: the growth of the ticks (none
/// when they drop) `as f64 / tps / dt * 100.0`, and `0.0` over no time.
pub open spec fn interval_cpu(c: SampleColumns, tps: nat, i: int) -> (nat, int) {
    let dt = nanos_secs(step_nanos(c.timestamp@, i));
    if dt.0 == 0 {
        (0, 0)
    } else {
        let grown = sat_sub(ticks_at(c, i + 1), ticks_at(c, i));
        mul_int(quot(quot(from_int(grown as nat), from_int(tps)), dt), 100)
    }
}

/// The growth of the read and the written characters over interval `i`
/// (none when they drop).
pub open spec fn io_growth(c: SampleColumns, i: int) -> nat {
    (sat_sub(c.rchar@[i + 1], c.rchar@[i]) + sat_sub(c.wchar@[i + 1], c.wchar@[i])) as nat
}

/// The character I/O over interval `i`, in bytes per second:
/// `io_growth as f64 / dt`, and `0.0` over no time.
pub open spec fn interval_io(c: SampleColumns, i: int) -> (nat, int) {
    let dt = nanos_secs(step_nanos(c.timestamp@, i));
    if dt.0 == 0 {
        (0, 0)
    } else {
        quot(from_int(io_growth(c, i)), dt)
    }
}

/// The sums these rates take fit in 64 bits: each sample's ticks, and the
/// I/O growth of each interval.
pub open spec fn peak_sums_fit(c: SampleColumns) -> bool {
    &&& forall|i: int| 0 <= i < c.timestamp@.len() ==> #[trigger] c.utime_ticks@[i] + c.stime_ticks@[i] <= u64::MAX
    &&& forall|i: int| 0 <= i < c.timestamp@.len() - 1 ==> #[trigger] io_growth(c, i) <= u64::MAX
}

/// The index that `Iterator::max_by` picks among the first `n` values
/// `v(0..n)`: the last of the largest.
pub open spec fn last_peak(v: spec_fn(int) -> (nat, int), n: nat) -> int
    decreases n,
{
    if n <= 1 {
        0
    } else {
        let k = last_peak(v, (n - 1) as nat);
        if lt(v(n - 1), v(k)) {
            k
        } else {
            n - 1
        }
    }
}

/// A sample-side finding of the Python correlation: the time (sampler
/// clock, milliseconds, a binary64 number) at which the trace is asked
/// which function ran, and the finding's text up to that function's label.
pub struct PyPeak {
    pub at_ms: (u128, i32),
    pub head: String,
}

/// The CPU finding: at the middle of the interval of highest CPU use (the
/// last of the highest), when that use is above 50%.
pub open spec fn cpu_finding(c: SampleColumns, tps: nat) -> Seq<((nat, int), Seq<char>)> {
    let cpu = |i: int| interval_cpu(c, tps, i);
    let k = last_peak(cpu, (c.timestamp@.len() - 1) as nat);
    if lt(rnd(50, 1), cpu(k)) {
        seq![(interval_mid_ms(c.timestamp@, k), "[PY]   CPU peak ("@ + dec_digits(round_scaled(cpu(k), 1)) + "%) \u{2192} "@)]
    } else {
        Seq::empty()
    }
}

/// The memory finding: at the sample of `mem_peak_index`.
pub open spec fn mem_finding(c: SampleColumns) -> Seq<((nat, int), Seq<char>)> {
    match mem_peak_index(c.rss_bytes@) {
        Some(k) => seq![(sample_ms(c.timestamp@[k] as nat), "[PY]   Memory peak ("@ + bytes_text(c.rss_bytes@[k] as nat) + ") \u{2192} "@)],
        None => Seq::empty(),
    }
}

/// The I/O finding: at the middle of the interval of highest character
/// I/O (the last of the highest), when that rate is above 1 MiB/s.
pub open spec fn io_finding(c: SampleColumns) -> Seq<((nat, int), Seq<char>)> {
    let io = |i: int| interval_io(c, i);
    let k = last_peak(io, (c.timestamp@.len() - 1) as nat);
    if lt(rnd(1024 * 1024, 1), io(k)) {
        seq![(interval_mid_ms(c.timestamp@, k), "[PY]   I/O peak ("@ + bytes_text(to_u64(io(k))) + "/s) \u{2192} "@)]
    } else {
        Seq::empty()
    }
}

/// The findings about the samples' peaks, in order, each with the time to
/// look up in the trace and the text before the function's label: the CPU,
/// memory and I/O findings. None for fewer than two samples.
pub open spec fn py_peaks_spec(c: SampleColumns, tps: nat) -> Seq<((nat, int), Seq<char>)> {
    if c.timestamp@.len() < 2 {
        Seq::empty()
    } else {
        cpu_finding(c, tps) + mem_finding(c) + io_finding(c)
    }
}

/// The sample of the memory finding: the last RSS peak, when it exceeds
/// twice the first sample (see `trace_memory_peak`).
pub open spec fn mem_peak_index(rss: Seq<u64>) -> Option<int> {
    if rss.len() > 0 && (exists|k: int| is_last_max(rss, k) && rss[k] > sat_double(rss[0])) {
        Some(choose|k: int| is_last_max(rss, k) && rss[k] > sat_double(rss[0]))
    } else {
        None
    }
}

/// A non-empty column has a last largest value.
proof fn lemma_last_max_exists(v: Seq<u64>)
    requires
        v.len() > 0,
    ensures
        exists|k: int| is_last_max(v, k),
    decreases v.len(),
{
    if v.len() == 1 {
        assert(is_last_max(v, 0));
    } else {
        let w = v.drop_last();
        lemma_last_max_exists(w);
        let k = choose|k: int| is_last_max(w, k);
        assert(w[k] == v[k]);
        if v.last() >= v[k] {
            assert forall|j: int| 0 <= j < v.len() implies #[trigger] v[j] <= v[v.len() - 1] by {
                if j < v.len() - 1 {
                    assert(w[j] == v[j]);
                }
            }
            assert(is_last_max(v, v.len() - 1));
        } else {
            assert forall|j: int| 0 <= j < v.len() implies #[trigger] v[j] <= v[k] by {
                if j < v.len() - 1 {
                    assert(w[j] == v[j]);
                }
            }
            assert forall|j: int| k < j < v.len() implies #[trigger] v[j] < v[k] by {
                if j < v.len() - 1 {
                    assert(w[j] == v[j]);
                }
            }
            assert(is_last_max(v, k));
        }
    }
}

/// The memory finding of the Python correlation is there exactly when some
/// sample's resident memory is more than twice the first sample's. It then
/// stands at the last sample of the highest resident memory, and names
/// that peak.
pub proof fn law_memory_finding_follows_the_peak(c: SampleColumns)
    requires
        c.wf(),
    ensures
        mem_finding(c).len() <= 1,
        mem_finding(c).len() == 1 <==> exists|j: int|
            0 <= j < c.rss_bytes@.len() && #[trigger] c.rss_bytes@[j] > 2 * c.rss_bytes@[0],
        mem_finding(c).len() == 1 ==> exists|k: int|
            #[trigger] is_last_max(c.rss_bytes@, k) && mem_finding(c)[0] == (
                sample_ms(c.timestamp@[k] as nat),
                "[PY]   Memory peak ("@ + bytes_text(c.rss_bytes@[k] as nat) + ") \u{2192} "@,
            ),
{
    let rss = c.rss_bytes@;
    match mem_peak_index(rss) {
        Some(k) => {
            assert(is_last_max(rss, k) && rss[k] > sat_double(rss[0]));
            assert(rss[k] > 2 * rss[0]);
        },
        None => {
            if rss.len() > 0 {
                assert forall|j: int| 0 <= j < rss.len() implies !(#[trigger] rss[j] > 2 * rss[0]) by {
                    lemma_last_max_exists(rss);
                    let k = choose|k: int| is_last_max(rss, k);
                    assert(rss[j] <= rss[k]);
                    assert(!(is_last_max(rss, k) && rss[k] > sat_double(rss[0])));
                }
            }
        },
    }
}

/// `nanos_secs(t)` for a timestamp.
fn secs_of(t: u64) -> (r: (u128, i32))
    ensures
        b64(r) == nanos_secs(t as nat),
        is_norm(b64(r)),
        -119 <= r.1 <= 14,
        r.0 != 0 ==> -82 <= r.1,
{
    secs_f64_exec(t / 1_000_000_000, (t % 1_000_000_000) as u32)
}

/// `sample_ms(t)`.
fn sample_ms_exec(t: u64) -> (r: (u128, i32))
    ensures
        b64(r) == sample_ms(t as nat),
        is_norm(b64(r)),
        -119 <= r.1 <= 35,
{
    mul_int_exec(secs_of(t), 1000)
}

/// `interval_mid_ms(ts, i)`.
fn mid_ms_exec(ts: &Vec<u64>, i: usize) -> (r: (u128, i32))
    requires
        i + 1 < ts@.len(),
    ensures
        b64(r) == interval_mid_ms(ts@, i as int),
        is_norm(b64(r)),
        -140 <= r.1 <= 60,
{
    let len = ts.len();
    assert(i + 1 < len);
    let a = secs_of(ts[i]);
    let b = secs_of(ts[i + 1]);
    let p = plus_exec(a, b);
    let h = div_int_exec(p, 2);
    mul_int_exec(h, 1000)
}

/// A rate or time of a peak: normalised, of moderate exponent.
pub open spec fn peak_value_ok(v: (u128, i32)) -> bool {
    is_norm(b64(v)) && -1000 <= v.1 <= 60
}

/// Row `i` of `cpu_intervals`: the middle of interval `i` and its CPU use.
pub open spec fn cpu_row(x: ((u128, i32), (u128, i32)), c: SampleColumns, tps: nat, i: int) -> bool {
    &&& b64(x.0) == interval_mid_ms(c.timestamp@, i)
    &&& b64(x.1) == interval_cpu(c, tps, i)
    &&& peak_value_ok(x.0)
    &&& peak_value_ok(x.1)
}

/// Row `i` of `io_intervals`: the middle of interval `i` and its I/O rate.
pub open spec fn io_row(x: ((u128, i32), (u128, i32)), c: SampleColumns, i: int) -> bool {
    &&& b64(x.0) == interval_mid_ms(c.timestamp@, i)
    &&& b64(x.1) == interval_io(c, i)
    &&& peak_value_ok(x.0)
    &&& peak_value_ok(x.1)
}

/// The middle and the CPU use of each interval (see `interval_cpu`).
pub fn cpu_intervals(c: &SampleColumns, tps: u64) -> (r: Vec<((u128, i32), (u128, i32))>)
    requires
        c.wf(),
        in_time_order(c.timestamp@),
        peak_sums_fit(*c),
        tps > 0,
    ensures
        r@.len() == if c.timestamp@.len() >= 1 {
            c.timestamp@.len() - 1
        } else {
            0
        },
        forall|i: int|
            0 <= i < r@.len() ==> cpu_row(#[trigger] r@[i], *c, tps as nat, i),
{
    let n = c.timestamp.len();
    let t = from_int_exec(tps);
    let mut r: Vec<((u128, i32), (u128, i32))> = Vec::new();
    if n < 2 {
        return r;
    }
    let mut i: usize = 0;
    while i + 1 < n
        invariant
            n == c.timestamp@.len(),
            n >= 2,
            i + 1 <= n,
            c.wf(),
            in_time_order(c.timestamp@),
            peak_sums_fit(*c),
            b64(t) == from_int(tps as nat),
            crate::numfmt::two_pow(52) <= t.0 < crate::numfmt::two_pow(53),
            -52 <= t.1 <= 12,
            r@.len() == i,
            forall|k: int|
                0 <= k < i ==> cpu_row(#[trigger] r@[k], *c, tps as nat, k),
        decreases n - i,
    {
        let mid = mid_ms_exec(&c.timestamp, i);
        assert(c.timestamp@[i as int] <= c.timestamp@[i + 1]);
        assert(c.utime_ticks@[i as int] + c.stime_ticks@[i as int] <= u64::MAX);
        assert(c.utime_ticks@[i + 1] + c.stime_ticks@[i + 1] <= u64::MAX);
        let dt = secs_of(c.timestamp[i + 1] - c.timestamp[i]);
        let rate = if dt.0 == 0 {
            (0u128, 0i32)
        } else {
            let now = c.utime_ticks[i + 1] + c.stime_ticks[i + 1];
            let before = c.utime_ticks[i] + c.stime_ticks[i];
            let grown = now.saturating_sub(before);
            let per_tick = quot_exec(from_int_exec(grown), t);
            mul_int_exec(quot_exec(per_tick, dt), 100)
        };
        assert(ticks_at(*c, i as int) == c.utime_ticks@[i as int] + c.stime_ticks@[i as int]);
        assert(ticks_at(*c, i + 1) == c.utime_ticks@[i + 1] + c.stime_ticks@[i + 1]);
        assert(b64(dt) == nanos_secs(step_nanos(c.timestamp@, i as int)));
        assert(b64(rate) == interval_cpu(*c, tps as nat, i as int));
        assert(peak_value_ok(mid));
        assert(peak_value_ok(rate));
        r.push((mid, rate));
        assert(r@[i as int] == (mid, rate));
        i = i + 1;
    }
    assert(r@.len() == n - 1);
    r
}

/// The middle and the character I/O of each interval (see `interval_io`).
pub fn io_intervals(c: &SampleColumns) -> (r: Vec<((u128, i32), (u128, i32))>)
    requires
        c.wf(),
        in_time_order(c.timestamp@),
        peak_sums_fit(*c),
    ensures
        r@.len() == if c.timestamp@.len() >= 1 {
            c.timestamp@.len() - 1
        } else {
            0
        },
        forall|i: int|
            0 <= i < r@.len() ==> io_row(#[trigger] r@[i], *c, i),
{
    let n = c.timestamp.len();
    let mut r: Vec<((u128, i32), (u128, i32))> = Vec::new();
    if n < 2 {
        return r;
    }
    let mut i: usize = 0;
    while i + 1 < n
        invariant
            n == c.timestamp@.len(),
            n >= 2,
            i + 1 <= n,
            c.wf(),
            in_time_order(c.timestamp@),
            peak_sums_fit(*c),
            r@.len() == i,
            forall|k: int|
                0 <= k < i ==> io_row(#[trigger] r@[k], *c, k),
        decreases n - i,
    {
        let mid = mid_ms_exec(&c.timestamp, i);
        assert(c.timestamp@[i as int] <= c.timestamp@[i + 1]);
        let dt = secs_of(c.timestamp[i + 1] - c.timestamp[i]);
        let rate = if dt.0 == 0 {
            (0u128, 0i32)
        } else {
            assert(io_growth(*c, i as int) <= u64::MAX);
            let grown = c.rchar[i + 1].saturating_sub(c.rchar[i]) + c.wchar[i + 1].saturating_sub(c.wchar[i]);
            quot_exec(from_int_exec(grown), dt)
        };
        assert(b64(dt) == nanos_secs(step_nanos(c.timestamp@, i as int)));
        assert(b64(rate) == interval_io(*c, i as int));
        assert(peak_value_ok(mid));
        assert(peak_value_ok(rate));
        r.push((mid, rate));
        assert(r@[i as int] == (mid, rate));
        i = i + 1;
    }
    assert(r@.len() == n - 1);
    r
}

/// The index of `last_peak` among the rates of `r`.
fn last_peak_exec(r: &Vec<((u128, i32), (u128, i32))>, Ghost(f): Ghost<spec_fn(int) -> (nat, int)>) -> (k: usize)
    requires
        r@.len() >= 1,
        forall|i: int| 0 <= i < r@.len() ==> #[trigger] b64(r@[i].1) == f(i) && is_norm(b64(r@[i].1)),
    ensures
        k == last_peak(f, r@.len() as nat),
        k < r@.len(),
{
    let n = r.len();
    let mut k: usize = 0;
    let mut i: usize = 1;
    while i < n
        invariant
            n == r@.len(),
            1 <= i <= n,
            k < i,
            k == last_peak(f, i as nat),
            forall|j: int| 0 <= j < r@.len() ==> #[trigger] b64(r@[j].1) == f(j) && is_norm(b64(r@[j].1)),
        decreases n - i,
    {
        assert(b64(r@[i as int].1) == f(i as int) && is_norm(b64(r@[i as int].1)));
        assert(b64(r@[k as int].1) == f(k as int) && is_norm(b64(r@[k as int].1)));
        if !lt0_exec(r[i].1, r[k].1) {
            k = i;
        }
        i = i + 1;
    }
    k
}

/// The index of the memory finding (see `mem_peak_index`).
fn mem_peak(rss: &Vec<u64>) -> (r: Option<usize>)
    ensures
        match r {
            Some(k) => mem_peak_index(rss@) == Some(k as int) && k < rss@.len(),
            None => mem_peak_index(rss@) is None,
        },
{
    let r = trace_memory_peak(rss);
    match r {
        Some(k) => {
            assert(is_last_max(rss@, k as int) && rss@[k as int] > sat_double(rss@[0]));
            let ghost w = choose|j: int| is_last_max(rss@, j) && rss@[j] > sat_double(rss@[0]);
            proof {
                lemma_last_max_unique(rss@, k as int, w);
            }
        },
        None => {},
    }
    r
}

/// Whether the sums of `peak_sums_fit` fit.
pub fn peaks_fit(c: &SampleColumns) -> (r: bool)
    requires
        c.wf(),
    ensures
        r == peak_sums_fit(*c),
{
    let n = c.timestamp.len();
    let mut i: usize = 0;
    while i < n
        invariant
            n == c.timestamp@.len(),
            c.wf(),
            i <= n,
            forall|k: int| 0 <= k < i ==> #[trigger] c.utime_ticks@[k] + c.stime_ticks@[k] <= u64::MAX,
        decreases n - i,
    {
        if c.utime_ticks[i] > u64::MAX - c.stime_ticks[i] {
            return false;
        }
        i = i + 1;
    }
    let mut j: usize = 0;
    while j < n && j + 1 < n
        invariant
            n == c.timestamp@.len(),
            c.wf(),
            j <= n,
            forall|k: int| 0 <= k < n ==> #[trigger] c.utime_ticks@[k] + c.stime_ticks@[k] <= u64::MAX,
            forall|k: int| 0 <= k < j ==> #[trigger] io_growth(*c, k) <= u64::MAX,
        decreases n - j,
    {
        let r = c.rchar[j + 1].saturating_sub(c.rchar[j]);
        let w = c.wchar[j + 1].saturating_sub(c.wchar[j]);
        assert(r == sat_sub(c.rchar@[j + 1], c.rchar@[j as int]));
        assert(w == sat_sub(c.wchar@[j + 1], c.wchar@[j as int]));
        if r > u64::MAX - w {
            assert(io_growth(*c, j as int) > u64::MAX);
            return false;
        }
        j = j + 1;
    }
    true
}

/// A finding as `py_peaks_spec` lists it.
pub open spec fn peak_view(p: PyPeak) -> ((nat, int), Seq<char>) {
    (b64(p.at_ms), p.head@)
}

/// A finding that may be missing, as a list of none or one.
pub open spec fn opt_peak(p: Option<PyPeak>) -> Seq<((nat, int), Seq<char>)> {
    match p {
        Some(x) => seq![peak_view(x)],
        None => Seq::empty(),
    }
}

/// The CPU finding from the intervals' rates.
fn cpu_peak(c: &SampleColumns, tps: u64, cpu: &Vec<((u128, i32), (u128, i32))>) -> (r: Option<PyPeak>)
    requires
        c.timestamp@.len() >= 2,
        cpu@.len() == c.timestamp@.len() - 1,
        forall|i: int| 0 <= i < cpu@.len() ==> cpu_row(#[trigger] cpu@[i], *c, tps as nat, i),
    ensures
        opt_peak(r) == cpu_finding(*c, tps as nat),
{
    proof {
        crate::numfmt::lemma_two_pow_values();
        crate::numfmt::lemma_two_pow_mono(64, 120);
        crate::numfmt::lemma_two_pow_mono(64, 66);
    }
    let ghost fc = |i: int| interval_cpu(*c, tps as nat, i);
    assert forall|i: int| 0 <= i < cpu@.len() implies #[trigger] b64(cpu@[i].1) == fc(i) && is_norm(b64(cpu@[i].1)) by {
        assert(cpu_row(cpu@[i], *c, tps as nat, i));
    }
    let k = last_peak_exec(cpu, Ghost(fc));
    assert(cpu_row(cpu@[k as int], *c, tps as nat, k as int));
    let fifty = round_ratio(50, 1);
    let p = cpu[k].1;
    if lt0_exec(fifty, p) {
        let mut h: Vec<char> = Vec::new();
        push_str(&mut h, "[PY]   CPU peak (");
        push_dec(&mut h, round_int_exec(p, 1));
        push_str(&mut h, "%) \u{2192} ");
        Some(PyPeak { at_ms: cpu[k].0, head: string_from_chars(&h) })
    } else {
        None
    }
}

/// The memory finding.
fn mem_peak_finding(c: &SampleColumns) -> (r: Option<PyPeak>)
    requires
        c.wf(),
    ensures
        opt_peak(r) == mem_finding(*c),
{
    match mem_peak(&c.rss_bytes) {
        Some(k) => {
            let mut h: Vec<char> = Vec::new();
            push_str(&mut h, "[PY]   Memory peak (");
            push_bytes(&mut h, c.rss_bytes[k]);
            push_str(&mut h, ") \u{2192} ");
            Some(PyPeak { at_ms: sample_ms_exec(c.timestamp[k]), head: string_from_chars(&h) })
        },
        None => None,
    }
}

/// The I/O finding from the intervals' rates.
fn io_peak(c: &SampleColumns, io: &Vec<((u128, i32), (u128, i32))>) -> (r: Option<PyPeak>)
    requires
        c.timestamp@.len() >= 2,
        io@.len() == c.timestamp@.len() - 1,
        forall|i: int| 0 <= i < io@.len() ==> io_row(#[trigger] io@[i], *c, i),
    ensures
        opt_peak(r) == io_finding(*c),
{
    proof {
        crate::numfmt::lemma_two_pow_values();
        crate::numfmt::lemma_two_pow_mono(64, 120);
        crate::numfmt::lemma_two_pow_mono(64, 66);
    }
    let ghost fi = |i: int| interval_io(*c, i);
    assert forall|i: int| 0 <= i < io@.len() implies #[trigger] b64(io@[i].1) == fi(i) && is_norm(b64(io@[i].1)) by {
        assert(io_row(io@[i], *c, i));
    }
    let k = last_peak_exec(io, Ghost(fi));
    assert(io_row(io@[k as int], *c, k as int));
    let mib = round_ratio(1024 * 1024, 1);
    let p = io[k].1;
    if lt0_exec(mib, p) {
        proof {
            crate::binary64::lemma_lt_norm(b64(mib), b64(p));
        }
        let mut h: Vec<char> = Vec::new();
        push_str(&mut h, "[PY]   I/O peak (");
        push_bytes(&mut h, to_u64_exec(p));
        push_str(&mut h, "/s) \u{2192} ");
        Some(PyPeak { at_ms: io[k].0, head: string_from_chars(&h) })
    } else {
        None
    }
}

/// Appends a finding that may be missing.
fn push_peak(out: &mut Vec<PyPeak>, p: Option<PyPeak>)
    ensures
        final(out)@.map_values(|x: PyPeak| peak_view(x)) == old(out)@.map_values(|x: PyPeak| peak_view(x)) + opt_peak(p),
{
    let ghost before = out@.map_values(|x: PyPeak| peak_view(x));
    match p {
        Some(x) => {
            out.push(x);
        },
        None => {},
    }
    assert(out@.map_values(|x: PyPeak| peak_view(x)) =~= before + opt_peak(p));
}

/// The sample-side findings at `tps` clock ticks per second (see
/// `py_peaks_spec`).
pub fn peaks_at(c: &SampleColumns, tps: u64) -> (r: Vec<PyPeak>)
    requires
        c.wf(),
        in_time_order(c.timestamp@),
        peak_sums_fit(*c),
        tps > 0,
    ensures
        r@.map_values(|p: PyPeak| peak_view(p)) == py_peaks_spec(*c, tps as nat),
{
    let mut out: Vec<PyPeak> = Vec::new();
    if c.timestamp.len() < 2 {
        assert(out@.map_values(|p: PyPeak| peak_view(p)) =~= py_peaks_spec(*c, tps as nat));
        return out;
    }
    let cpu = cpu_intervals(c, tps);
    let io = io_intervals(c);
    assert(out@.map_values(|p: PyPeak| peak_view(p)) =~= Seq::<((nat, int), Seq<char>)>::empty());
    push_peak(&mut out, cpu_peak(c, tps, &cpu));
    assert(out@.map_values(|p: PyPeak| peak_view(p)) =~= cpu_finding(*c, tps as nat));
    push_peak(&mut out, mem_peak_finding(c));
    push_peak(&mut out, io_peak(c, &io));
    out
}

/// The sample-side findings at this machine's clock rate (see
/// `py_peaks_spec`), which is asked only for two samples or more; `None`
/// when the machine reports no clock rate.
pub fn py_peaks(c: &SampleColumns) -> (r: Option<Vec<PyPeak>>)
    requires
        c.wf(),
        in_time_order(c.timestamp@),
        peak_sums_fit(*c),
    ensures
        c.timestamp@.len() < 2 ==> (r matches Some(v) && v@.len() == 0),
        r matches Some(v) ==> exists|tps: u64|
            tps > 0 && v@.map_values(|p: PyPeak| peak_view(p)) == py_peaks_spec(*c, tps as nat),
{
    if c.timestamp.len() < 2 {
        let v = peaks_at(c, 1);
        assert(v@.map_values(|p: PyPeak| peak_view(p)).len() == v@.len());
        return Some(v);
    }
    let tps = crate::metrics::clock_ticks_per_second();
    if tps == 0 {
        return None;
    }
    Some(peaks_at(c, tps))
}

} // verus!
