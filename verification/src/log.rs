//! Leveled logging: a bounded ring of recent lines for the log panel, and
//! the decision of what reaches the terminal.
use vstd::prelude::*;
use std::collections::VecDeque;
use crate::text::{append, chars_of, dec_exec, dec_str, lpad, lpad_exec, string_from_chars};

verus! {

/// Severity of a log line.
#[derive(Debug, Clone, Copy, PartialEq, Eq, Structural, PartialOrd, Ord)]
pub enum Level {
    Trace,
    Debug,
    Info,
    Warn,
    Error,
}

pub open spec fn level_tag(l: Level) -> Seq<char> {
    match l {
        Level::Trace => "TRACE"@,
        Level::Debug => "DEBUG"@,
        Level::Info => "INFO "@,
        Level::Warn => "WARN "@,
        Level::Error => "ERROR"@,
    }
}

pub open spec fn level_ansi(l: Level) -> Seq<char> {
    match l {
        Level::Trace => "\x1b[2m"@,
        Level::Debug => "\x1b[36m"@,
        Level::Info => "\x1b[1;36m"@,
        Level::Warn => "\x1b[1;33m"@,
        Level::Error => "\x1b[1;31m"@,
    }
}

pub open spec fn level_color(l: Level) -> u8 {
    match l {
        Level::Trace => 245,
        Level::Debug => 117,
        Level::Info => 45,
        Level::Warn => 220,
        Level::Error => 196,
    }
}

pub open spec fn is_verbose_only(l: Level) -> bool {
    l == Level::Trace || l == Level::Debug
}

/// Every level's tag is five characters wide, and the tags of different
/// levels differ.
pub proof fn lemma_tags_fixed_width(a: Level, b: Level)
    ensures
        level_tag(a).len() == 5,
        a != b ==> level_tag(a) != level_tag(b),
{
    reveal_strlit("TRACE");
    reveal_strlit("DEBUG");
    reveal_strlit("INFO ");
    reveal_strlit("WARN ");
    reveal_strlit("ERROR");
    if a != b {
        assert(level_tag(a)[0] != level_tag(b)[0]);
    }
}

impl Level {
    /// Short label of the level, five characters wide.
    pub fn tag(self) -> (r: &'static str)
        ensures
            r@ == level_tag(self),
            r@.len() == 5,
    {
        proof {
            lemma_tags_fixed_width(self, self);
        }
        match self {
            Level::Trace => "TRACE",
            Level::Debug => "DEBUG",
            Level::Info => "INFO ",
            Level::Warn => "WARN ",
            Level::Error => "ERROR",
        }
    }

    /// Terminal color sequence (16-color ANSI) of the level.
    pub fn ansi(self) -> (r: &'static str)
        ensures
            r@ == level_ansi(self),
    {
        match self {
            Level::Trace => "\x1b[2m",
            Level::Debug => "\x1b[36m",
            Level::Info => "\x1b[1;36m",
            Level::Warn => "\x1b[1;33m",
            Level::Error => "\x1b[1;31m",
        }
    }

    /// 256-color index of the level in the log panel.
    pub fn tui_color(self) -> (r: u8)
        ensures
            r == level_color(self),
    {
        match self {
            Level::Trace => 245,
            Level::Debug => 117,
            Level::Info => 45,
            Level::Warn => 220,
            Level::Error => 196,
        }
    }

    /// Trace and debug lines are kept only in verbose mode.
    pub fn verbose_only(self) -> (r: bool)
        ensures
            r == is_verbose_only(self),
    {
        match self {
            Level::Trace | Level::Debug => true,
            _ => false,
        }
    }
}

/// One line of the ring.
#[derive(Debug, Clone)]
pub struct LogLine {
    /// Milliseconds since the start of the process.
    pub time_ms: u64,
    pub level: Level,
    pub msg: String,
}

impl View for LogLine {
    type V = (u64, Level, Seq<char>);

    open spec fn view(&self) -> (u64, Level, Seq<char>) {
        (self.time_ms, self.level, self.msg@)
    }
}

/// Capacity of the ring: the log panel shows at most this many lines.
pub const RING_CAP: usize = 300;

/// The state of the log: verbosity, the ring of recent lines, and the
/// flags that route output around the progress bar and the full-screen UI.
pub struct LogState {
    verbose: bool,
    ring: VecDeque<LogLine>,
    stderr_tty: bool,
    progress_active: bool,
    log_after_progress: bool,
    tui_active: bool,
}

pub ghost struct LogView {
    pub verbose: bool,
    pub ring: Seq<(u64, Level, Seq<char>)>,
    pub stderr_tty: bool,
    pub progress_active: bool,
    pub log_after_progress: bool,
    pub tui_active: bool,
}

impl View for LogState {
    type V = LogView;

    closed spec fn view(&self) -> LogView {
        LogView {
            verbose: self.verbose,
            ring: self.ring@.map_values(|l: LogLine| l@),
            stderr_tty: self.stderr_tty,
            progress_active: self.progress_active,
            log_after_progress: self.log_after_progress,
            tui_active: self.tui_active,
        }
    }
}

impl LogState {
    /// The ring never holds more than `RING_CAP` lines.
    #[verifier::type_invariant]
    spec fn ring_within_capacity(self) -> bool {
        self.ring@.len() <= RING_CAP
    }

    /// The ring's bound, as seen through the view.
    pub fn ring_bound(&self)
        ensures
            self@.ring.len() <= RING_CAP,
    {
        proof {
            use_type_invariant(self);
        }
    }

    /// A log with an empty ring and no progress bar or full-screen UI;
    /// `stderr_tty` says whether lines are colored.
    pub fn new(verbose: bool, stderr_tty: bool) -> (r: LogState)
        ensures
            r@ == (LogView {
                verbose,
                ring: Seq::empty(),
                stderr_tty,
                progress_active: false,
                log_after_progress: false,
                tui_active: false,
            }),
    {
        let r = LogState {
            verbose,
            ring: VecDeque::new(),
            stderr_tty,
            progress_active: false,
            log_after_progress: false,
            tui_active: false,
        };
        assert(r@.ring =~= Seq::empty());
        r
    }
}

/// Whether trace and debug lines are kept.
pub fn enabled(st: &LogState) -> (r: bool)
    ensures
        r == st@.verbose,
{
    st.verbose
}

/// Marks the progress bar active or not.
pub fn set_progress_active(st: &mut LogState, active: bool)
    ensures
        final(st)@ == (LogView { progress_active: active, ..old(st)@ }),
{
    proof {
        use_type_invariant(&*st);
    }
    st.progress_active = active;
}

/// Whether a line was printed since the progress bar last drew; clears it.
pub fn consume_log_pending(st: &mut LogState) -> (r: bool)
    ensures
        r == old(st)@.log_after_progress,
        final(st)@ == (LogView { log_after_progress: false, ..old(st)@ }),
{
    proof {
        use_type_invariant(&*st);
    }
    let r = st.log_after_progress;
    st.log_after_progress = false;
    r
}

/// Marks the full-screen UI active or not.
pub fn set_tui_active(st: &mut LogState, active: bool)
    ensures
        final(st)@ == (LogView { tui_active: active, ..old(st)@ }),
{
    proof {
        use_type_invariant(&*st);
    }
    st.tui_active = active;
}

pub fn tui_active(st: &LogState) -> (r: bool)
    ensures
        r == st@.tui_active,
{
    st.tui_active
}

/// A copy of the ring, oldest line first.
pub fn snapshot(st: &LogState) -> (r: Vec<LogLine>)
    ensures
        r@.map_values(|l: LogLine| l@) == st@.ring,
        r@.len() <= RING_CAP,
{
    proof {
        use_type_invariant(st);
    }
    let mut r: Vec<LogLine> = Vec::new();
    let mut i: usize = 0;
    while i < st.ring.len()
        invariant
            0 <= i <= st.ring@.len(),
            r@.len() == i,
            forall|k: int| 0 <= k < i ==> (#[trigger] r@[k])@ == st.ring@[k]@,
        decreases st.ring@.len() - i,
    {
        let l = &st.ring[i];
        r.push(LogLine { time_ms: l.time_ms, level: l.level, msg: l.msg.clone() });
        i = i + 1;
    }
    assert(r@.map_values(|l: LogLine| l@) =~= st@.ring);
    r
}

/// What becomes of a line at the terminal.
#[derive(Debug, Clone, Copy, PartialEq, Eq, Structural)]
pub enum LogOutput {
    /// Nothing is printed.
    Quiet,
    /// The line is printed, colored when `color`; when `end_progress_line`,
    /// the progress bar's line is cleared and ended first.
    Print { end_progress_line: bool, color: bool },
}

/// A line is kept unless it is verbose-only and the log is not verbose.
pub open spec fn kept(level: Level, verbose: bool) -> bool {
    !(is_verbose_only(level) && !verbose)
}

/// The ring after `line` joins it: the oldest line leaves past capacity.
pub open spec fn ring_push(ring: Seq<(u64, Level, Seq<char>)>, line: (u64, Level, Seq<char>)) -> Seq<
    (u64, Level, Seq<char>),
> {
    let r = ring.push(line);
    if r.len() > RING_CAP {
        r.drop_first()
    } else {
        r
    }
}

/// The state after a line of `level` at `now_ms`.
pub open spec fn emit_state(s: LogView, level: Level, msg: Seq<char>, now_ms: u64) -> LogView {
    if !kept(level, s.verbose) {
        s
    } else {
        LogView {
            ring: ring_push(s.ring, (now_ms, level, msg)),
            log_after_progress: if !s.tui_active && s.progress_active {
                true
            } else {
                s.log_after_progress
            },
            ..s
        }
    }
}

/// What reaches the terminal for a line of `level`: nothing when it is
/// not kept or the full-screen UI is active.
pub open spec fn emit_output(s: LogView, level: Level) -> LogOutput {
    if !kept(level, s.verbose) || s.tui_active {
        LogOutput::Quiet
    } else {
        LogOutput::Print { end_progress_line: s.progress_active, color: s.stderr_tty }
    }
}

fn emit(st: &mut LogState, level: Level, msg: &str, now_ms: u64) -> (r: LogOutput)
    ensures
        final(st)@ == emit_state(old(st)@, level, msg@, now_ms),
        r == emit_output(old(st)@, level),
        final(st)@.ring.len() <= RING_CAP,
{
    proof {
        use_type_invariant(&*st);
    }
    if level.verbose_only() && !st.verbose {
        return LogOutput::Quiet;
    }
    let ghost before = st@;
    let line = LogLine { time_ms: now_ms, level, msg: msg.to_owned() };
    let mut ring: VecDeque<LogLine> = VecDeque::new();
    std::mem::swap(&mut ring, &mut st.ring);
    if ring.len() >= RING_CAP {
        ring.pop_front();
    }
    ring.push_back(line);
    st.ring = ring;
    assert(st@.ring =~= ring_push(before.ring, (now_ms, level, msg@)));
    if st.tui_active {
        return LogOutput::Quiet;
    }
    if st.progress_active {
        st.log_after_progress = true;
    }
    LogOutput::Print { end_progress_line: st.progress_active, color: st.stderr_tty }
}

/// Logs a trace line; see `emit_state` and `emit_output`.
pub fn trace(st: &mut LogState, msg: String, now_ms: u64) -> (r: LogOutput)
    ensures
        final(st)@ == emit_state(old(st)@, Level::Trace, msg@, now_ms),
        r == emit_output(old(st)@, Level::Trace),
        final(st)@.ring.len() <= RING_CAP,
{
    emit(st, Level::Trace, msg.as_str(), now_ms)
}

/// Logs a debug line; see `emit_state` and `emit_output`.
pub fn debug(st: &mut LogState, msg: String, now_ms: u64) -> (r: LogOutput)
    ensures
        final(st)@ == emit_state(old(st)@, Level::Debug, msg@, now_ms),
        r == emit_output(old(st)@, Level::Debug),
        final(st)@.ring.len() <= RING_CAP,
{
    emit(st, Level::Debug, msg.as_str(), now_ms)
}

/// Logs an info line; see `emit_state` and `emit_output`.
pub fn info(st: &mut LogState, msg: String, now_ms: u64) -> (r: LogOutput)
    ensures
        final(st)@ == emit_state(old(st)@, Level::Info, msg@, now_ms),
        r == emit_output(old(st)@, Level::Info),
        final(st)@.ring.len() <= RING_CAP,
{
    emit(st, Level::Info, msg.as_str(), now_ms)
}

/// Logs a warning; see `emit_state` and `emit_output`.
pub fn warn(st: &mut LogState, msg: String, now_ms: u64) -> (r: LogOutput)
    ensures
        final(st)@ == emit_state(old(st)@, Level::Warn, msg@, now_ms),
        r == emit_output(old(st)@, Level::Warn),
        final(st)@.ring.len() <= RING_CAP,
{
    emit(st, Level::Warn, msg.as_str(), now_ms)
}

/// Logs an error; see `emit_state` and `emit_output`.
pub fn error(st: &mut LogState, msg: String, now_ms: u64) -> (r: LogOutput)
    ensures
        final(st)@ == emit_state(old(st)@, Level::Error, msg@, now_ms),
        r == emit_output(old(st)@, Level::Error),
        final(st)@.ring.len() <= RING_CAP,
{
    emit(st, Level::Error, msg.as_str(), now_ms)
}

/// `HH:MM:SS.mmm` of a number of milliseconds (hours not wrapped).
pub open spec fn clock_text(ms: u64) -> Seq<char> {
    lpad(dec_str((ms / 3600000) as nat), 2, '0') + ":"@ + lpad(dec_str(((ms % 3600000) / 60000) as nat), 2, '0')
        + ":"@ + lpad(dec_str(((ms % 60000) / 1000) as nat), 2, '0') + "."@ + lpad(
        dec_str((ms % 1000) as nat),
        3,
        '0',
    )
}

pub fn format_time(ms: u64) -> (r: String)
    ensures
        r@ == clock_text(ms),
{
    string_from_chars(clock_chars(ms).as_slice())
}

fn clock_chars(ms: u64) -> (r: Vec<char>)
    ensures
        r@ == clock_text(ms),
{
    let mut r = lpad_exec(&dec_exec(ms / 3600000), 2, '0');
    append(&mut r, &chars_of(":"));
    append(&mut r, &lpad_exec(&dec_exec((ms % 3600000) / 60000), 2, '0'));
    append(&mut r, &chars_of(":"));
    append(&mut r, &lpad_exec(&dec_exec((ms % 60000) / 1000), 2, '0'));
    append(&mut r, &chars_of("."));
    append(&mut r, &lpad_exec(&dec_exec(ms % 1000), 3, '0'));
    r
}

/// The text of a printed line: `[time] [TAG] msg`, wrapped in the level's
/// color when `color`.
pub open spec fn line_text(level: Level, color: bool, now_ms: u64, msg: Seq<char>) -> Seq<char> {
    let body = "["@ + clock_text(now_ms) + "] ["@ + level_tag(level) + "] "@ + msg;
    if color {
        level_ansi(level) + body + "\x1b[0m"@
    } else {
        body
    }
}

pub fn log_line_text(level: Level, color: bool, now_ms: u64, msg: &str) -> (r: String)
    ensures
        r@ == line_text(level, color, now_ms, msg@),
{
    let mut r = if color { chars_of(level.ansi()) } else { Vec::new() };
    append(&mut r, &chars_of("["));
    append(&mut r, &clock_chars(now_ms));
    append(&mut r, &chars_of("] ["));
    append(&mut r, &chars_of(level.tag()));
    append(&mut r, &chars_of("] "));
    append(&mut r, &chars_of(msg));
    if color {
        append(&mut r, &chars_of("\x1b[0m"));
    }
    string_from_chars(r.as_slice())
}


/// The ring never holds more than `RING_CAP` lines, and a kept line is
/// always its newest entry.
pub proof fn lemma_ring_bounded(s: LogView, level: Level, msg: Seq<char>, now_ms: u64)
    requires
        s.ring.len() <= RING_CAP,
    ensures
        emit_state(s, level, msg, now_ms).ring.len() <= RING_CAP,
        kept(level, s.verbose) ==> emit_state(s, level, msg, now_ms).ring.last() == (now_ms, level, msg),
        !kept(level, s.verbose) ==> emit_state(s, level, msg, now_ms) == s,
{
}

/// Once the ring is full, each kept line drops exactly the oldest one and
/// the others move up by one place.
pub proof fn lemma_ring_full_drops_oldest(s: LogView, level: Level, msg: Seq<char>, now_ms: u64)
    requires
        s.ring.len() == RING_CAP,
        kept(level, s.verbose),
    ensures
        emit_state(s, level, msg, now_ms).ring.len() == RING_CAP,
        forall|k: int| 0 <= k < RING_CAP - 1 ==> #[trigger] emit_state(s, level, msg, now_ms).ring[k] == s.ring[k + 1],
{
}

// ---------------------------------------------------------------------------
// Histories of calls
// ---------------------------------------------------------------------------

/// A call on the log, as the functions above make it.
pub ghost enum LogCall {
    /// A line of a level (`trace` to `error`) at a time.
    Emit(Level, Seq<char>, u64),
    SetProgress(bool),
    SetTui(bool),
    /// `consume_log_pending`.
    Consume,
}

/// The state after one call; see the contracts of the functions.
pub open spec fn log_step(s: LogView, c: LogCall) -> LogView {
    match c {
        LogCall::Emit(level, msg, now) => emit_state(s, level, msg, now),
        LogCall::SetProgress(a) => LogView { progress_active: a, ..s },
        LogCall::SetTui(a) => LogView { tui_active: a, ..s },
        LogCall::Consume => LogView { log_after_progress: false, ..s },
    }
}

/// The state after a sequence of calls, in order.
pub open spec fn log_run(s: LogView, calls: Seq<LogCall>) -> LogView
    decreases calls.len(),
{
    if calls.len() == 0 {
        s
    } else {
        log_step(log_run(s, calls.drop_last()), calls.last())
    }
}

/// No sequence of calls changes the verbosity, the coloring, or lets the
/// ring grow past `RING_CAP`.
pub proof fn lemma_run_keeps_settings(s: LogView, calls: Seq<LogCall>)
    requires
        s.ring.len() <= RING_CAP,
    ensures
        log_run(s, calls).verbose == s.verbose,
        log_run(s, calls).stderr_tty == s.stderr_tty,
        log_run(s, calls).ring.len() <= RING_CAP,
    decreases calls.len(),
{
    if calls.len() > 0 {
        lemma_run_keeps_settings(s, calls.drop_last());
    }
}

/// A line is "pending after the progress bar" when it is kept and printed
/// while the bar is active (and the full-screen UI is not).
pub open spec fn sets_pending(s: LogView, c: LogCall) -> bool {
    match c {
        LogCall::Emit(level, msg, now) => kept(level, s.verbose) && s.progress_active && !s.tui_active,
        _ => false,
    }
}

/// Between two `consume_log_pending` calls, the flag is set exactly when
/// some line was printed while the progress bar was active: after a
/// consume (flag cleared) and calls without another consume, the flag says
/// whether one of those calls set it.
pub proof fn lemma_pending_since_consume(s: LogView, calls: Seq<LogCall>)
    requires
        !s.log_after_progress,
        forall|i: int| 0 <= i < calls.len() ==> !(#[trigger] calls[i] is Consume),
    ensures
        log_run(s, calls).log_after_progress <==> exists|i: int|
            0 <= i < calls.len() && #[trigger] sets_pending(log_run(s, calls.take(i)), calls[i]),
    decreases calls.len(),
{
    if calls.len() > 0 {
        let init = calls.drop_last();
        assert forall|i: int| 0 <= i < init.len() implies !(#[trigger] init[i] is Consume) by {
            assert(init[i] == calls[i]);
        }
        lemma_pending_since_consume(s, init);
        assert(calls.take(calls.len() - 1) =~= init);
        assert forall|i: int| 0 <= i < init.len() implies calls.take(i) =~= init.take(i) && calls[i] == init[i] by {}
        let prev = log_run(s, init);
        if log_run(s, calls).log_after_progress {
            if !prev.log_after_progress {
                assert(sets_pending(log_run(s, calls.take(calls.len() - 1)), calls[calls.len() - 1]));
            } else {
                let i = choose|i: int| 0 <= i < init.len() && #[trigger] sets_pending(log_run(s, init.take(i)), init[i]);
                assert(sets_pending(log_run(s, calls.take(i)), calls[i]));
            }
        } else {
            assert forall|i: int| 0 <= i < calls.len() implies !#[trigger] sets_pending(log_run(s, calls.take(i)), calls[i]) by {
                if i < init.len() {
                    assert(calls.take(i) =~= init.take(i));
                    assert(calls[i] == init[i]);
                    if sets_pending(log_run(s, init.take(i)), init[i]) {
                        assert(exists|j: int| 0 <= j < init.len() && #[trigger] sets_pending(log_run(s, init.take(j)), init[j]));
                    }
                }
            }
        }
    }
}

/// While the full-screen UI stays active (no call switches it), every line
/// is still recorded in the ring but nothing reaches the terminal, and the
/// pending flag is left alone (as long as nobody consumes it).
pub proof fn lemma_tui_keeps_quiet(s: LogView, calls: Seq<LogCall>)
    requires
        s.tui_active,
        forall|i: int| 0 <= i < calls.len() ==> !(#[trigger] calls[i] is SetTui) && !(calls[i] is Consume),
    ensures
        log_run(s, calls).tui_active,
        log_run(s, calls).log_after_progress == s.log_after_progress,
        forall|i: int|
            0 <= i < calls.len() && calls[i] is Emit ==> #[trigger] emit_output(
                log_run(s, calls.take(i)),
                calls[i]->Emit_0,
            ) == LogOutput::Quiet,
    decreases calls.len(),
{
    if calls.len() > 0 {
        let init = calls.drop_last();
        assert forall|i: int| 0 <= i < init.len() implies !(#[trigger] init[i] is SetTui) && !(init[i] is Consume) by {
            assert(init[i] == calls[i]);
        }
        lemma_tui_keeps_quiet(s, init);
        assert(calls.take(calls.len() - 1) =~= init);
        assert forall|i: int|
            0 <= i < calls.len() && calls[i] is Emit implies #[trigger] emit_output(
                log_run(s, calls.take(i)),
                calls[i]->Emit_0,
            ) == LogOutput::Quiet by {
            if i < init.len() {
                assert(calls.take(i) =~= init.take(i));
                assert(init[i] == calls[i]);
            }
        }
    }
}

/// The ring is ordered by time, oldest first.
pub open spec fn ring_time_ordered(r: Seq<(u64, Level, Seq<char>)>) -> bool {
    forall|a: int, b: int| 0 <= a <= b < r.len() ==> (#[trigger] r[a]).0 <= (#[trigger] r[b]).0
}

/// The latest time given by the calls, `t` when none gives one.
pub open spec fn last_time(calls: Seq<LogCall>, t: u64) -> u64
    decreases calls.len(),
{
    if calls.len() == 0 {
        t
    } else {
        match calls.last() {
            LogCall::Emit(_, _, now) => now,
            _ => last_time(calls.drop_last(), t),
        }
    }
}

/// The times given by the calls never go back, starting from `t`.
pub open spec fn times_forward(calls: Seq<LogCall>, t: u64) -> bool
    decreases calls.len(),
{
    if calls.len() == 0 {
        true
    } else {
        &&& times_forward(calls.drop_last(), t)
        &&& match calls.last() {
            LogCall::Emit(_, _, now) => now >= last_time(calls.drop_last(), t),
            _ => true,
        }
    }
}

/// Lines enter the ring in the order of the calls: when the times given
/// never go back, the ring stays ordered by time, oldest first, and no line
/// is later than the last time given.
pub proof fn lemma_ring_keeps_time_order(s: LogView, calls: Seq<LogCall>, t: u64)
    requires
        ring_time_ordered(s.ring),
        forall|k: int| 0 <= k < s.ring.len() ==> (#[trigger] s.ring[k]).0 <= t,
        times_forward(calls, t),
    ensures
        ring_time_ordered(log_run(s, calls).ring),
        forall|k: int| 0 <= k < log_run(s, calls).ring.len() ==> (#[trigger] log_run(s, calls).ring[k]).0 <= last_time(calls, t),
    decreases calls.len(),
{
    if calls.len() > 0 {
        let init = calls.drop_last();
        lemma_ring_keeps_time_order(s, init, t);
        let prev = log_run(s, init);
        match calls.last() {
            LogCall::Emit(level, msg, now) => {
                if kept(level, prev.verbose) {
                    let r = prev.ring.push((now, level, msg));
                    assert(ring_time_ordered(r)) by {
                        assert forall|a: int, b: int| 0 <= a <= b < r.len() implies (#[trigger] r[a]).0 <= (#[trigger] r[b]).0 by {
                            if b < prev.ring.len() {
                                assert(r[a] == prev.ring[a] && r[b] == prev.ring[b]);
                            } else if a < prev.ring.len() {
                                assert(r[a] == prev.ring[a]);
                            }
                        }
                    }
                    assert forall|k: int| 0 <= k < r.len() implies (#[trigger] r[k]).0 <= now by {
                        if k < prev.ring.len() {
                            assert(r[k] == prev.ring[k]);
                        }
                    }
                    if r.len() > RING_CAP {
                        let d = r.drop_first();
                        assert forall|a: int, b: int| 0 <= a <= b < d.len() implies (#[trigger] d[a]).0 <= (#[trigger] d[b]).0 by {
                            assert(d[a] == r[a + 1] && d[b] == r[b + 1]);
                        }
                        assert forall|k: int| 0 <= k < d.len() implies (#[trigger] d[k]).0 <= now by {
                            assert(d[k] == r[k + 1]);
                        }
                    }
                }
            },
            _ => {},
        }
    }
}

} // verus!
