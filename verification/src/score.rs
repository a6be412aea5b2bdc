//! The score model and the line-based jianpu formats (the two-lines-per-group
//! hand format and the `T` multi-track format).
use vstd::prelude::*;
use crate::lines::{
    classify, classify_line, tempo_line, tempo_line_exec, bpm_value, bpm_value_exec, digits_of,
    digits_exec, all_digits_exec, ms_tempo, ms_tempo_exec, LineKind,
};
use crate::text::{
    all_digits, chars_of, copy_range, starts_with, starts_with_str, trim, trim_exec, string_from_chars,
};
use crate::token::{line_events, parse_line, events_view, LineEvent};

verus! {

/// One scheduled MIDI event.
#[derive(Debug, Clone, Copy, PartialEq, Eq)]
pub struct ScheduledNote {
    /// Absolute time in milliseconds.
    pub at_ms: u32,
    /// MIDI key (0-127).
    pub key: u8,
    /// Velocity (1-127).
    pub vel: u8,
    /// Note-on (`true`) or note-off.
    pub on: bool,
    /// MIDI channel.
    pub channel: u8,
}

/// The events of one track, sorted by time with note-ons before note-offs
/// at the same time.
#[derive(Debug, Clone)]
pub struct Track {
    pub name: String,
    pub channel: u8,
    pub events: Vec<ScheduledNote>,
}

/// A parsed score.
#[derive(Debug)]
pub struct Score {
    pub tempo_ms: u32,
    pub tracks: Vec<Track>,
    pub title: String,
    pub total_ms: u32,
}

pub ghost struct TrackView {
    pub name: Seq<char>,
    pub channel: u8,
    pub events: Seq<ScheduledNote>,
}

pub ghost struct ScoreView {
    pub tempo_ms: u32,
    pub tracks: Seq<TrackView>,
    pub title: Seq<char>,
    pub total_ms: u32,
}

impl View for Track {
    type V = TrackView;

    open spec fn view(&self) -> TrackView {
        TrackView { name: self.name@, channel: self.channel, events: self.events@ }
    }
}

impl View for Score {
    type V = ScoreView;

    open spec fn view(&self) -> ScoreView {
        ScoreView {
            tempo_ms: self.tempo_ms,
            tracks: self.tracks@.map_values(|t: Track| t@),
            title: self.title@,
            total_ms: self.total_ms,
        }
    }
}

// ---------------------------------------------------------------------------
// Laying events out on a timeline
// ---------------------------------------------------------------------------

pub open spec fn note_event(at: u32, key: u8, on: bool, ch: u8) -> ScheduledNote {
    ScheduledNote { at_ms: at, key, vel: 96, on, channel: ch }
}

/// A note-on at `t` and a note-off `dur` later for each key, in order.
pub open spec fn note_pairs(notes: Seq<u8>, t: u32, dur: u32, ch: u8) -> Seq<ScheduledNote>
    decreases notes.len(),
{
    if notes.len() == 0 {
        Seq::empty()
    } else {
        note_pairs(notes.drop_last(), t, dur, ch) + seq![
            note_event(t, notes.last(), true, ch),
            note_event(t.wrapping_add(dur), notes.last(), false, ch),
        ]
    }
}

/// The events of consecutive line events starting at `start`, and the time
/// after them (times wrap at 2^32 ms, as in the release build).
pub open spec fn push_fold(evs: Seq<(Seq<u8>, u32)>, start: u32, ch: u8) -> (Seq<ScheduledNote>, u32)
    decreases evs.len(),
{
    if evs.len() == 0 {
        (Seq::empty(), start)
    } else {
        let (out, t) = push_fold(evs.drop_last(), start, ch);
        let (notes, dur) = evs.last();
        (out + note_pairs(notes, t, dur, ch), t.wrapping_add(dur))
    }
}

/// Total duration of line events.
pub open spec fn dur_sum(evs: Seq<(Seq<u8>, u32)>) -> nat
    decreases evs.len(),
{
    if evs.len() == 0 {
        0
    } else {
        dur_sum(evs.drop_last()) + evs.last().1 as nat
    }
}

/// Appends the events of `evs` to `events`, starting at `start`.
pub fn push_events(events: &mut Vec<ScheduledNote>, channel: u8, evs: &[LineEvent], start: u32)
    ensures
        final(events)@ == old(events)@ + push_fold(events_view(evs@), start, channel).0,
{
    let ghost e0 = events@;
    let ghost ev = events_view(evs@);
    let mut t: u32 = start;
    let mut i: usize = 0;
    while i < evs.len()
        invariant
            0 <= i <= evs@.len(),
            ev == events_view(evs@),
            events@ == e0 + push_fold(ev.take(i as int), start, channel).0,
            t == push_fold(ev.take(i as int), start, channel).1,
        decreases evs@.len() - i,
    {
        proof {
            assert(ev.take(i + 1).drop_last() =~= ev.take(i as int));
        }
        let notes = &evs[i].notes;
        let dur = evs[i].dur;
        let ghost before = events@;
        let mut k: usize = 0;
        while k < notes.len()
            invariant
                0 <= k <= notes@.len(),
                events@ == before + note_pairs(notes@.take(k as int), t, dur, channel),
            decreases notes@.len() - k,
        {
            proof {
                assert(notes@.take(k + 1).drop_last() =~= notes@.take(k as int));
            }
            events.push(ScheduledNote { at_ms: t, key: notes[k], vel: 96, on: true, channel });
            events.push(
                ScheduledNote { at_ms: t.wrapping_add(dur), key: notes[k], vel: 96, on: false, channel },
            );
            k = k + 1;
            assert(events@ =~= before + note_pairs(notes@.take(k as int), t, dur, channel));
        }
        assert(notes@.take(notes@.len() as int) =~= notes@);
        assert(events@ =~= e0 + push_fold(ev.take(i + 1), start, channel).0);
        t = t.wrapping_add(dur);
        i = i + 1;
    }
    assert(ev.take(evs@.len() as int) =~= ev);
}

pub fn dur_sum_exec(evs: &[LineEvent]) -> (s: u128)
    ensures
        s as nat == dur_sum(events_view(evs@)),
        s < 0x1_0000_0000_0000_0000_0000_0000,
{
    let ghost ev = events_view(evs@);
    let n = evs.len();
    let mut s: u128 = 0;
    let mut i: usize = 0;
    while i < n
        invariant
            0 <= i <= n,
            n == evs@.len(),
            n <= usize::MAX,
            ev == events_view(evs@),
            s as nat == dur_sum(ev.take(i as int)),
            s <= i * 0xffff_ffff,
        decreases n - i,
    {
        proof {
            assert(ev.take(i + 1).drop_last() =~= ev.take(i as int));
        }
        assert(s + evs[i as int].dur <= (i + 1) * 0xffff_ffff) by (nonlinear_arith)
            requires
                s <= i * 0xffff_ffff,
                evs[i as int].dur <= 0xffff_ffff,
        ;
        assert((i + 1) * 0xffff_ffff <= 0x1_0000_0000_0000_0000 * 0xffff_ffff) by (nonlinear_arith)
            requires
                i < 0x1_0000_0000_0000_0000,
        ;
        s = s + evs[i].dur as u128;
        i = i + 1;
    }
    assert(ev.take(n as int) =~= ev);
    assert(s < 0x1_0000_0000_0000_0000_0000_0000) by (nonlinear_arith)
        requires
            s <= n * 0xffff_ffff,
            n < 0x1_0000_0000_0000_0000,
    ;
    s
}

// ---------------------------------------------------------------------------
// Ordering events: stable sort by time, note-on before note-off
// ---------------------------------------------------------------------------

/// `a` may stay before `b`.
pub open spec fn event_le(a: ScheduledNote, b: ScheduledNote) -> bool {
    a.at_ms < b.at_ms || (a.at_ms == b.at_ms && (a.on || !b.on))
}

/// Insert `x` after every element of `s` that may stay before it.
pub open spec fn insert_event(s: Seq<ScheduledNote>, x: ScheduledNote) -> Seq<ScheduledNote>
    decreases s.len(),
{
    if s.len() == 0 {
        seq![x]
    } else if event_le(s.last(), x) {
        s.push(x)
    } else {
        insert_event(s.drop_last(), x).push(s.last())
    }
}

/// Stable sort of events by time, note-ons before note-offs at equal times.
pub open spec fn sort_events(s: Seq<ScheduledNote>) -> Seq<ScheduledNote>
    decreases s.len(),
{
    if s.len() == 0 {
        Seq::empty()
    } else {
        insert_event(sort_events(s.drop_last()), s.last())
    }
}

pub proof fn lemma_insert_split(s: Seq<ScheduledNote>, x: ScheduledNote, j: int)
    requires
        0 <= j <= s.len(),
        forall|k: int| j <= k < s.len() ==> !event_le(#[trigger] s[k], x),
    ensures
        insert_event(s, x) == insert_event(s.take(j), x) + s.skip(j),
    decreases s.len() - j,
{
    if j == s.len() {
        assert(s.take(j) =~= s);
        assert(insert_event(s, x) + s.skip(j) =~= insert_event(s, x));
    } else {
        lemma_insert_split(s.drop_last(), x, j);
        assert(s.drop_last().take(j) =~= s.take(j));
        assert(s.drop_last().skip(j).push(s.last()) =~= s.skip(j));
        assert((insert_event(s.take(j), x) + s.drop_last().skip(j)).push(s.last()) =~= insert_event(
            s.take(j),
            x,
        ) + s.skip(j));
    }
}

/// Every event may stay before each later one.
pub open spec fn events_sorted(s: Seq<ScheduledNote>) -> bool {
    forall|a: int, b: int| 0 <= a < b < s.len() ==> event_le(s[a], s[b])
}

proof fn lemma_insert_event(s: Seq<ScheduledNote>, x: ScheduledNote)
    requires
        events_sorted(s),
    ensures
        events_sorted(insert_event(s, x)),
        insert_event(s, x).to_multiset() == s.to_multiset().insert(x),
    decreases s.len(),
{
    broadcast use vstd::seq_lib::group_to_multiset_ensures;

    if s.len() == 0 {
        assert(seq![x] =~= Seq::<ScheduledNote>::empty().push(x));
    } else if event_le(s.last(), x) {
        assert forall|a: int, b: int| 0 <= a < b < s.len() + 1 implies event_le(s.push(x)[a], s.push(x)[b]) by {
            if b == s.len() {
                if a < s.len() - 1 {
                    assert(event_le(s[a], s[s.len() - 1]));
                }
            }
        }
    } else {
        let t = s.drop_last();
        assert(events_sorted(t)) by {
            assert forall|a: int, b: int| 0 <= a < b < t.len() implies event_le(t[a], t[b]) by {
                assert(t[a] == s[a] && t[b] == s[b]);
            }
        }
        lemma_insert_event(t, x);
        let r = insert_event(t, x);
        let y = s.last();
        assert(s =~= t.push(y));
        assert forall|k: int| 0 <= k < r.len() implies event_le(#[trigger] r[k], y) by {
            assert(r.to_multiset().count(r[k]) > 0);
            if r[k] != x {
                assert(t.to_multiset().count(r[k]) > 0);
                assert(t.contains(r[k]));
                let j = choose|j: int| 0 <= j < t.len() && t[j] == r[k];
                assert(s[j] == t[j]);
                assert(event_le(s[j], s[s.len() - 1]));
            }
        }
        assert forall|a: int, b: int| 0 <= a < b < r.len() + 1 implies event_le(r.push(y)[a], r.push(y)[b]) by {
            if b == r.len() {
                assert(event_le(r[a], y));
            } else {
                assert(r.push(y)[a] == r[a] && r.push(y)[b] == r[b]);
            }
        }
        assert(r.push(y).to_multiset() =~= t.to_multiset().insert(y).insert(x));
    }
}

/// The ordering of a track's events is a stable sort: its result is in
/// order (by time, note-ons before note-offs at one time) and holds exactly
/// the events it was given.
pub proof fn lemma_sort_events(s: Seq<ScheduledNote>)
    ensures
        events_sorted(sort_events(s)),
        sort_events(s).to_multiset() == s.to_multiset(),
        sort_events(s).len() == s.len(),
    decreases s.len(),
{
    broadcast use vstd::seq_lib::group_to_multiset_ensures;

    if s.len() == 0 {
        assert(s.to_multiset() =~= vstd::multiset::Multiset::<ScheduledNote>::empty());
    } else {
        lemma_sort_events(s.drop_last());
        lemma_insert_event(sort_events(s.drop_last()), s.last());
        assert(s =~= s.drop_last().push(s.last()));
        assert(sort_events(s).to_multiset().len() == sort_events(s).len());
    }
}

/// Sorts events in place; see `sort_events`.
pub fn sort_events_exec(v: &mut Vec<ScheduledNote>)
    ensures
        final(v)@ == sort_events(old(v)@),
{
    let ghost s0 = v@;
    let n = v.len();
    let mut out: Vec<ScheduledNote> = Vec::new();
    let mut i: usize = 0;
    while i < n
        invariant
            0 <= i <= n,
            n == s0.len(),
            v@ == s0,
            out@ == sort_events(s0.take(i as int)),
        decreases n - i,
    {
        let x = v[i];
        proof {
            assert(s0.take(i + 1).drop_last() =~= s0.take(i as int));
        }
        let ghost sorted = out@;
        out.push(x);
        let mut j: usize = out.len() - 1;
        while j > 0 && !event_le_exec(&out[j - 1], &x)
            invariant
                0 <= j < out@.len(),
                out@.len() == sorted.len() + 1,
                out@ == sorted.take(j as int).push(x) + sorted.skip(j as int),
                forall|k: int| j <= k < sorted.len() ==> !event_le(#[trigger] sorted[k], x),
            decreases j,
        {
            let prev = out[j - 1];
            out.set(j, prev);
            out.set(j - 1, x);
            proof {
                assert(sorted[j - 1] == prev);
            }
            j = j - 1;
            assert(out@ =~= sorted.take(j as int).push(x) + sorted.skip(j as int));
        }
        proof {
            lemma_insert_split(sorted, x, j as int);
            let t = sorted.take(j as int);
            if j > 0 {
                assert(t.last() == sorted[j - 1]);
                assert(event_le(t.last(), x));
            } else {
                assert(t =~= Seq::<ScheduledNote>::empty());
            }
            assert(insert_event(t, x) == t.push(x));
        }
        i = i + 1;
    }
    assert(s0.take(n as int) =~= s0);
    *v = out;
}

pub fn event_le_exec(a: &ScheduledNote, b: &ScheduledNote) -> (r: bool)
    ensures
        r == event_le(*a, *b),
{
    a.at_ms < b.at_ms || (a.at_ms == b.at_ms && (a.on || !b.on))
}

// ---------------------------------------------------------------------------
// File header: first tempo line and title
// ---------------------------------------------------------------------------

/// Title given by a trimmed `#` line: `#TITLE x`, `#TITLE: x` or `#Name x`.
pub open spec fn title_of(t: Seq<char>) -> Option<Seq<char>> {
    if t.len() > 0 && t[0] == '#' {
        let r = trim(t.drop_first());
        if starts_with(r, "TITLE "@) {
            Some(trim(r.skip(6)))
        } else if starts_with(r, "TITLE:"@) {
            Some(trim(r.skip(6)))
        } else if starts_with(r, "Name "@) {
            Some(trim(r.skip(5)))
        } else {
            None
        }
    } else {
        None
    }
}

/// Reads the header: blank and comment lines (taking titles from them) up
/// to and including the first tempo line, which sets the tempo unless it is
/// forced. Returns the index of the first body line, the tempo and the title.
pub open spec fn header_scan(
    lines: Seq<Seq<char>>,
    i: int,
    tempo: u32,
    title: Seq<char>,
    forced: bool,
) -> (int, u32, Seq<char>)
    decreases lines.len() - i,
{
    if i < 0 || i >= lines.len() {
        (i, tempo, title)
    } else {
        let k = classify(lines[i]);
        if k == LineKind::Tempo {
            let tp = if forced {
                tempo
            } else {
                match tempo_line(trim(lines[i])) {
                    Some(x) => x,
                    None => tempo,
                }
            };
            (i + 1, tp, title)
        } else if k == LineKind::Blank || k == LineKind::Comment {
            let nt = match title_of(trim(lines[i])) {
                Some(x) => x,
                None => title,
            };
            header_scan(lines, i + 1, tempo, nt, forced)
        } else {
            (i, tempo, title)
        }
    }
}

pub fn title_of_exec(t: &[char]) -> (r: Option<Vec<char>>)
    ensures
        match title_of(t@) {
            Some(x) => r is Some && r->0@ == x,
            None => r is None,
        },
{
    if t.len() > 0 && t[0] == '#' {
        let rest = copy_range(t, 1, t.len());
        assert(rest@ =~= t@.drop_first());
        let r = trim_exec(rest.as_slice());
        if starts_with_str(r.as_slice(), "TITLE ") {
            proof { reveal_strlit("TITLE "); }
            let n = copy_range(r.as_slice(), 6, r.len());
            assert(n@ =~= r@.skip(6));
            Some(trim_exec(n.as_slice()))
        } else if starts_with_str(r.as_slice(), "TITLE:") {
            proof { reveal_strlit("TITLE:"); }
            let n = copy_range(r.as_slice(), 6, r.len());
            assert(n@ =~= r@.skip(6));
            Some(trim_exec(n.as_slice()))
        } else if starts_with_str(r.as_slice(), "Name ") {
            proof { reveal_strlit("Name "); }
            let n = copy_range(r.as_slice(), 5, r.len());
            assert(n@ =~= r@.skip(5));
            Some(trim_exec(n.as_slice()))
        } else {
            None
        }
    } else {
        None
    }
}

pub open spec fn lines_view(v: Seq<Vec<char>>) -> Seq<Seq<char>> {
    v.map_values(|l: Vec<char>| l@)
}

pub fn header_scan_exec(lines: &Vec<Vec<char>>, tempo0: u32, forced: bool) -> (r: (usize, u32, Vec<char>))
    ensures
        r.0 as int == header_scan(lines_view(lines@), 0, tempo0, Seq::empty(), forced).0,
        r.1 == header_scan(lines_view(lines@), 0, tempo0, Seq::empty(), forced).1,
        r.2@ == header_scan(lines_view(lines@), 0, tempo0, Seq::empty(), forced).2,
        r.0 <= lines@.len(),
{
    let ghost lv = lines_view(lines@);
    let mut i: usize = 0;
    let mut tempo = tempo0;
    let mut title: Vec<char> = Vec::new();
    while i < lines.len()
        invariant
            0 <= i <= lines@.len(),
            lv == lines_view(lines@),
            header_scan(lv, 0, tempo0, Seq::empty(), forced) == header_scan(
                lv,
                i as int,
                tempo,
                title@,
                forced,
            ),
        decreases lines@.len() - i,
    {
        let l = &lines[i];
        assert(lv[i as int] == l@);
        let k = classify_line(l.as_slice());
        if k == LineKind::Tempo {
            if !forced {
                let t = trim_exec(l.as_slice());
                match tempo_line_exec(t.as_slice()) {
                    Some(x) => {
                        tempo = x;
                    },
                    None => {},
                }
            }
            return (i + 1, tempo, title);
        } else if k == LineKind::Blank || k == LineKind::Comment {
            let t = trim_exec(l.as_slice());
            match title_of_exec(t.as_slice()) {
                Some(x) => {
                    title = x;
                },
                None => {},
            }
            i = i + 1;
        } else {
            return (i, tempo, title);
        }
    }
    (i, tempo, title)
}

} // verus!

verus! {

// ---------------------------------------------------------------------------
// Two lines per group: right hand and left hand
// ---------------------------------------------------------------------------

pub ghost struct LegacyModel {
    pub t: u32,
    pub tempo: u32,
    pub ev1: Seq<ScheduledNote>,
    pub ev2: Seq<ScheduledNote>,
}

pub open spec fn wrap_add(t: u32, d: nat) -> u32 {
    ((t + d) % 0x1_0000_0000) as u32
}

/// One step of the hand format at line `i`: a note line plays together with
/// the note line right after it (right hand, left hand) and the group
/// advances time by the longer of the two; a tempo line changes the tempo;
/// other lines are skipped. Returns the next line index and the new state.
pub open spec fn legacy_step(lines: Seq<Seq<char>>, i: int, st: LegacyModel) -> (int, LegacyModel) {
    let k = classify(lines[i]);
    if k == LineKind::Tempo {
        let tp = match tempo_line(trim(lines[i])) {
            Some(x) => x,
            None => st.tempo,
        };
        (i + 1, LegacyModel { tempo: tp, ..st })
    } else if k == LineKind::NoteLine {
        let e1 = line_events(trim(lines[i]), st.tempo);
        let pair = i + 1 < lines.len() && classify(lines[i + 1]) == LineKind::NoteLine;
        let e2 = if pair {
            line_events(trim(lines[i + 1]), st.tempo)
        } else {
            Seq::empty()
        };
        let adv = if dur_sum(e1) >= dur_sum(e2) {
            dur_sum(e1)
        } else {
            dur_sum(e2)
        };
        (
            i + if pair {
                2int
            } else {
                1int
            },
            LegacyModel {
                t: wrap_add(st.t, adv),
                tempo: st.tempo,
                ev1: st.ev1 + push_fold(e1, st.t, 0).0,
                ev2: st.ev2 + push_fold(e2, st.t, 1).0,
            },
        )
    } else {
        (i + 1, st)
    }
}

/// The hand format from line `i` to the end.
pub open spec fn legacy_run(lines: Seq<Seq<char>>, i: int, st: LegacyModel) -> LegacyModel
    decreases lines.len() - i,
{
    if i < 0 || i >= lines.len() {
        st
    } else {
        let (j, st2) = legacy_step(lines, i, st);
        if j > i {
            legacy_run(lines, j, st2)
        } else {
            st2
        }
    }
}

pub open spec fn right_hand_name() -> Seq<char> {
    "右手(R)"@
}

pub open spec fn left_hand_name() -> Seq<char> {
    "左手(L)"@
}

/// Tracks of the hand format: right hand on channel 0, left hand on
/// channel 1, each kept only when it has events.
pub open spec fn legacy_tracks(lines: Seq<Seq<char>>, tempo: u32) -> Seq<TrackView> {
    let st = legacy_run(
        lines,
        0,
        LegacyModel { t: 0, tempo, ev1: Seq::empty(), ev2: Seq::empty() },
    );
    let r = TrackView { name: right_hand_name(), channel: 0, events: st.ev1 };
    let l = TrackView { name: left_hand_name(), channel: 1, events: st.ev2 };
    (if st.ev1.len() > 0 {
        seq![r]
    } else {
        Seq::empty()
    }) + (if st.ev2.len() > 0 {
        seq![l]
    } else {
        Seq::empty()
    })
}

pub open spec fn tracks_view(v: Seq<Track>) -> Seq<TrackView> {
    v.map_values(|t: Track| t@)
}

fn legacy_step_exec(
    lines: &Vec<Vec<char>>,
    from: usize,
    i: usize,
    t: &mut u32,
    cur_tempo: &mut u32,
    ev1: &mut Vec<ScheduledNote>,
    ev2: &mut Vec<ScheduledNote>,
) -> (j: usize)
    requires
        from <= i < lines@.len(),
    ensures
        i < j <= lines@.len(),
        legacy_step(
            lines_view(lines@).skip(from as int),
            i - from,
            LegacyModel { t: *old(t), tempo: *old(cur_tempo), ev1: old(ev1)@, ev2: old(ev2)@ },
        ) == (j - from, LegacyModel { t: *final(t), tempo: *final(cur_tempo), ev1: final(ev1)@, ev2: final(ev2)@ }),
{
    let ghost lv = lines_view(lines@).skip(from as int);
    let n = lines.len();
    let l = &lines[i];
    assert(lv[i - from] == l@);
    let k = classify_line(l.as_slice());
    if k == LineKind::Tempo {
        let tt = trim_exec(l.as_slice());
        match tempo_line_exec(tt.as_slice()) {
            Some(x) => {
                *cur_tempo = x;
            },
            None => {},
        }
        i + 1
    } else if k == LineKind::NoteLine {
        let tl = trim_exec(l.as_slice());
        let events1 = parse_line(tl.as_slice(), *cur_tempo);
        let mut pair = false;
        let mut events2: Vec<LineEvent> = Vec::new();
        if i + 1 < n {
            let next = &lines[i + 1];
            assert(lv[i + 1 - from] == next@);
            if classify_line(next.as_slice()) == LineKind::NoteLine {
                let tn = trim_exec(next.as_slice());
                events2 = parse_line(tn.as_slice(), *cur_tempo);
                pair = true;
            }
        }
        assert(events_view(events2@) =~= (if pair {
            line_events(trim(lv[i + 1 - from]), *cur_tempo)
        } else {
            Seq::empty()
        }));
        push_events(ev1, 0, events1.as_slice(), *t);
        push_events(ev2, 1, events2.as_slice(), *t);
        let d1 = dur_sum_exec(events1.as_slice());
        let d2 = dur_sum_exec(events2.as_slice());
        let adv: u128 = if d1 >= d2 {
            d1
        } else {
            d2
        };
        *t = ((*t as u128 + adv) % 0x1_0000_0000) as u32;
        if pair {
            i + 2
        } else {
            i + 1
        }
    } else {
        i + 1
    }
}

pub fn legacy_tracks_exec(lines: &Vec<Vec<char>>, from: usize, tempo: u32) -> (r: Vec<Track>)
    requires
        from <= lines@.len(),
    ensures
        tracks_view(r@) == legacy_tracks(lines_view(lines@).skip(from as int), tempo),
{
    let ghost lv = lines_view(lines@).skip(from as int);
    let mut i: usize = from;
    let mut t: u32 = 0;
    let mut cur_tempo: u32 = tempo;
    let mut ev1: Vec<ScheduledNote> = Vec::new();
    let mut ev2: Vec<ScheduledNote> = Vec::new();
    let ghost init = LegacyModel { t: 0, tempo, ev1: Seq::empty(), ev2: Seq::empty() };
    while i < lines.len()
        invariant
            from <= i <= lines@.len(),
            lv == lines_view(lines@).skip(from as int),
            legacy_run(lv, 0, init) == legacy_run(
                lv,
                i - from,
                LegacyModel { t, tempo: cur_tempo, ev1: ev1@, ev2: ev2@ },
            ),
        decreases lines@.len() - i,
    {
        let ghost st = LegacyModel { t, tempo: cur_tempo, ev1: ev1@, ev2: ev2@ };
        let j = legacy_step_exec(lines, from, i, &mut t, &mut cur_tempo, &mut ev1, &mut ev2);
        proof {
            let st2 = LegacyModel { t, tempo: cur_tempo, ev1: ev1@, ev2: ev2@ };
            assert(legacy_step(lv, i - from, st) == (j - from, st2));
            assert(legacy_run(lv, i - from, st) == legacy_run(lv, j - from, st2));
        }
        i = j;
    }
    assert(lv.len() == lines@.len() - from);
    let mut out: Vec<Track> = Vec::new();
    let n1 = ev1.len();
    let n2 = ev2.len();
    if n1 > 0 {
        let name = string_from_chars(chars_of("右手(R)").as_slice());
        out.push(Track { name, channel: 0, events: ev1 });
    }
    if n2 > 0 {
        let name = string_from_chars(chars_of("左手(L)").as_slice());
        out.push(Track { name, channel: 1, events: ev2 });
    }
    assert(tracks_view(out@) =~= legacy_tracks(lv, tempo));
    out
}

} // verus!

verus! {

// ---------------------------------------------------------------------------
// `T` multi-track format
// ---------------------------------------------------------------------------

/// Drop every leading `T`.
pub open spec fn strip_leading_t(s: Seq<char>) -> Seq<char>
    decreases s.len(),
{
    if s.len() > 0 && s[0] == 'T' {
        strip_leading_t(s.drop_first())
    } else {
        s
    }
}

/// Index of the first `|`, if any.
pub open spec fn first_bar(s: Seq<char>) -> Option<int> {
    if exists|k: int| 0 <= k < s.len() && s[k] == '|' {
        Some(choose|k: int| 0 <= k < s.len() && s[k] == '|' && forall|m: int| 0 <= m < k ==> s[m] != '|')
    } else {
        None
    }
}

pub ghost struct DefModel {
    pub name: Seq<char>,
    pub channel: u8,
    pub raw: Seq<Seq<char>>,
}

/// A track header `T name | notes...`: the name before the first bar line,
/// and the notes after it, if not empty, as the track's first line.
pub open spec fn header_def(line: Seq<char>, index: nat) -> DefModel {
    let rest = trim(strip_leading_t(trim(line)));
    let (name, remaining) = match first_bar(rest) {
        Some(p) => (trim(rest.take(p)), trim(rest.skip(p + 1))),
        None => (trim(rest), Seq::<char>::empty()),
    };
    DefModel {
        name,
        channel: (index % 16) as u8,
        raw: if remaining.len() > 0 {
            seq![remaining]
        } else {
            Seq::empty()
        },
    }
}

/// Track definitions: a header opens a track (channels cycle through 16);
/// note and tempo lines, trimmed, go to the last opened track.
pub open spec fn defs_fold(lines: Seq<Seq<char>>) -> Seq<DefModel>
    decreases lines.len(),
{
    if lines.len() == 0 {
        Seq::empty()
    } else {
        let defs = defs_fold(lines.drop_last());
        let l = lines.last();
        let k = classify(l);
        if k == LineKind::TrackHeader {
            defs.push(header_def(l, defs.len()))
        } else if (k == LineKind::NoteLine || k == LineKind::Tempo) && defs.len() > 0 {
            let d = defs.last();
            defs.update(defs.len() - 1, DefModel { raw: d.raw.push(trim(l)), ..d })
        } else {
            defs
        }
    }
}

pub ghost struct RunModel {
    pub t: u32,
    pub tempo: u32,
    pub events: Seq<ScheduledNote>,
}

/// Tempo of a `#BPM`/`#bpm` line of a track, if it gives a valid one.
pub open spec fn track_bpm(rt: Seq<char>) -> Option<u32> {
    if rt.len() > 0 && rt[0] == '#' {
        let r = trim(rt.drop_first());
        if starts_with(r, "BPM"@) || starts_with(r, "bpm"@) {
            bpm_value(digits_of(r))
        } else {
            None
        }
    } else {
        None
    }
}

/// Tempo of a plain-number line of a track, if it gives a valid one.
pub open spec fn track_ms(rt: Seq<char>) -> Option<u32> {
    if rt.len() > 0 && all_digits(rt) {
        ms_tempo(rt)
    } else {
        None
    }
}

/// One line of a track: a valid tempo line changes the tempo; any other
/// line is played in sequence from the current time.
pub open spec fn run_step(st: RunModel, r: Seq<char>, ch: u8) -> RunModel {
    let rt = trim(r);
    match track_bpm(rt) {
        Some(x) => RunModel { tempo: x, ..st },
        None => match track_ms(rt) {
            Some(x) => RunModel { tempo: x, ..st },
            None => {
                let e = line_events(r, st.tempo);
                RunModel {
                    t: wrap_add(st.t, dur_sum(e)),
                    tempo: st.tempo,
                    events: st.events + push_fold(e, st.t, ch).0,
                }
            },
        },
    }
}

pub open spec fn run_fold(raw: Seq<Seq<char>>, ch: u8, tempo: u32) -> RunModel
    decreases raw.len(),
{
    if raw.len() == 0 {
        RunModel { t: 0, tempo, events: Seq::empty() }
    } else {
        run_step(run_fold(raw.drop_last(), ch, tempo), raw.last(), ch)
    }
}

/// Tracks of the `T` format, each track a timeline of its own; tracks
/// without events are left out. A tempo line holds for every later line of
/// the file: each track starts at the tempo in force where its header
/// stands (the tempo reached at the end of the track before it), and gives
/// the tempo in force after it.
pub open spec fn new_tracks_fold(defs: Seq<DefModel>, tempo: u32) -> (Seq<TrackView>, u32)
    decreases defs.len(),
{
    if defs.len() == 0 {
        (Seq::empty(), tempo)
    } else {
        let (prev, cur) = new_tracks_fold(defs.drop_last(), tempo);
        let d = defs.last();
        let run = run_fold(d.raw, d.channel, cur);
        (if run.events.len() > 0 {
            prev.push(TrackView { name: d.name, channel: d.channel, events: run.events })
        } else {
            prev
        }, run.tempo)
    }
}

pub open spec fn new_tracks(lines: Seq<Seq<char>>, tempo: u32) -> Seq<TrackView> {
    new_tracks_fold(defs_fold(lines), tempo).0
}

pub struct TrackDef {
    pub name: Vec<char>,
    pub channel: u8,
    pub raw: Vec<Vec<char>>,
}

pub open spec fn def_view(d: TrackDef) -> DefModel {
    DefModel { name: d.name@, channel: d.channel, raw: lines_view(d.raw@) }
}

pub open spec fn defs_view(v: Seq<TrackDef>) -> Seq<DefModel> {
    v.map_values(|d: TrackDef| def_view(d))
}

proof fn lemma_strip_t_skip(s: Seq<char>, i: int)
    requires
        0 <= i <= s.len(),
        forall|k: int| 0 <= k < i ==> #[trigger] s[k] == 'T',
    ensures
        strip_leading_t(s) == strip_leading_t(s.skip(i)),
    decreases i,
{
    if i > 0 {
        assert(s.drop_first().skip(i - 1) =~= s.skip(i));
        lemma_strip_t_skip(s.drop_first(), i - 1);
    } else {
        assert(s.skip(0) =~= s);
    }
}

fn header_def_exec(line: &[char], index: usize) -> (d: TrackDef)
    ensures
        def_view(d) == header_def(line@, index as nat),
{
    let t = trim_exec(line);
    let mut i: usize = 0;
    while i < t.len() && t[i] == 'T'
        invariant
            0 <= i <= t@.len(),
            forall|k: int| 0 <= k < i ==> #[trigger] t@[k] == 'T',
        decreases t@.len() - i,
    {
        i = i + 1;
    }
    proof {
        lemma_strip_t_skip(t@, i as int);
    }
    let after = copy_range(t.as_slice(), i, t.len());
    assert(after@ =~= t@.skip(i as int));
    let rest = trim_exec(after.as_slice());
    let mut p: usize = 0;
    while p < rest.len() && rest[p] != '|'
        invariant
            0 <= p <= rest@.len(),
            forall|m: int| 0 <= m < p ==> rest@[m] != '|',
        decreases rest@.len() - p,
    {
        p = p + 1;
    }
    let channel: u8 = (index % 16) as u8;
    if p < rest.len() {
        proof {
            let k = choose|k: int| 0 <= k < rest@.len() && rest@[k] == '|' && forall|m: int| 0 <= m < k ==> rest@[m] != '|';
            assert(rest@[p as int] == '|');
            if k < p {
                assert(rest@[k] != '|');
            }
            if p < k {
                assert(rest@[p as int] != '|');
            }
            assert(first_bar(rest@) == Some(p as int));
        }
        let before = copy_range(rest.as_slice(), 0, p);
        assert(before@ =~= rest@.take(p as int));
        let name = trim_exec(before.as_slice());
        let tail = copy_range(rest.as_slice(), p + 1, rest.len());
        assert(tail@ =~= rest@.skip(p + 1));
        let remaining = trim_exec(tail.as_slice());
        let mut raw: Vec<Vec<char>> = Vec::new();
        if remaining.len() > 0 {
            raw.push(remaining);
        }
        let d = TrackDef { name, channel, raw };
        assert(lines_view(d.raw@) =~= header_def(line@, index as nat).raw);
        d
    } else {
        assert(first_bar(rest@) is None);
        let name = trim_exec(rest.as_slice());
        let d = TrackDef { name, channel, raw: Vec::new() };
        assert(lines_view(d.raw@) =~= header_def(line@, index as nat).raw);
        d
    }
}

pub(crate) fn defs_exec(lines: &Vec<Vec<char>>, from: usize) -> (r: Vec<TrackDef>)
    requires
        from <= lines@.len(),
    ensures
        defs_view(r@) == defs_fold(lines_view(lines@).skip(from as int)),
{
    let ghost lv = lines_view(lines@).skip(from as int);
    let mut defs: Vec<TrackDef> = Vec::new();
    let mut i: usize = from;
    while i < lines.len()
        invariant
            from <= i <= lines@.len(),
            lv == lines_view(lines@).skip(from as int),
            defs_view(defs@) == defs_fold(lv.take(i - from)),
        decreases lines@.len() - i,
    {
        let l = &lines[i];
        proof {
            assert(lv[i - from] == l@);
            assert(lv.take(i + 1 - from).drop_last() =~= lv.take(i - from));
            assert(lv.take(i + 1 - from).last() == l@);
        }
        let ghost before = defs_view(defs@);
        let k = classify_line(l.as_slice());
        if k == LineKind::TrackHeader {
            let d = header_def_exec(l.as_slice(), defs.len());
            defs.push(d);
            assert(defs_view(defs@) =~= before.push(header_def(l@, before.len())));
        } else if (k == LineKind::NoteLine || k == LineKind::Tempo) && defs.len() > 0 {
            let mut d = defs.pop().unwrap();
            let ghost dv = def_view(d);
            let tl = trim_exec(l.as_slice());
            d.raw.push(tl);
            assert(lines_view(d.raw@) =~= dv.raw.push(trim(l@)));
            defs.push(d);
            assert(defs_view(defs@) =~= before.update(
                before.len() - 1,
                DefModel { raw: dv.raw.push(trim(l@)), ..dv },
            ));
        }
        i = i + 1;
    }
    assert(lv.take(lines@.len() - from) =~= lv);
    defs
}

pub(crate) fn track_bpm_exec(rt: &[char]) -> (r: Option<u32>)
    ensures
        r == track_bpm(rt@),
{
    if rt.len() > 0 && rt[0] == '#' {
        let rest = copy_range(rt, 1, rt.len());
        assert(rest@ =~= rt@.drop_first());
        let r = trim_exec(rest.as_slice());
        if starts_with_str(r.as_slice(), "BPM") || starts_with_str(r.as_slice(), "bpm") {
            let num = digits_exec(r.as_slice());
            bpm_value_exec(num.as_slice())
        } else {
            None
        }
    } else {
        None
    }
}

pub(crate) fn track_ms_exec(rt: &[char]) -> (r: Option<u32>)
    ensures
        r == track_ms(rt@),
{
    if rt.len() > 0 && all_digits_exec(rt) {
        ms_tempo_exec(rt)
    } else {
        None
    }
}

fn run_def_exec(raw: &Vec<Vec<char>>, ch: u8, tempo: u32) -> (r: (Vec<ScheduledNote>, u32))
    ensures
        r.0@ == run_fold(lines_view(raw@), ch, tempo).events,
        r.1 == run_fold(lines_view(raw@), ch, tempo).tempo,
{
    let ghost rv = lines_view(raw@);
    let mut events: Vec<ScheduledNote> = Vec::new();
    let mut t: u32 = 0;
    let mut cur: u32 = tempo;
    let mut i: usize = 0;
    while i < raw.len()
        invariant
            0 <= i <= raw@.len(),
            rv == lines_view(raw@),
            run_fold(rv.take(i as int), ch, tempo) == (RunModel { t, tempo: cur, events: events@ }),
        decreases raw@.len() - i,
    {
        let r = &raw[i];
        proof {
            assert(rv[i as int] == r@);
            assert(rv.take(i + 1).drop_last() =~= rv.take(i as int));
            assert(rv.take(i + 1).last() == r@);
        }
        let rt = trim_exec(r.as_slice());
        match track_bpm_exec(rt.as_slice()) {
            Some(x) => {
                cur = x;
            },
            None => match track_ms_exec(rt.as_slice()) {
                Some(x) => {
                    cur = x;
                },
                None => {
                    let e = parse_line(r.as_slice(), cur);
                    push_events(&mut events, ch, e.as_slice(), t);
                    let d = dur_sum_exec(e.as_slice());
                    t = ((t as u128 + d) % 0x1_0000_0000) as u32;
                },
            },
        }
        i = i + 1;
    }
    assert(rv.take(raw@.len() as int) =~= rv);
    (events, cur)
}

pub fn new_tracks_exec(lines: &Vec<Vec<char>>, from: usize, tempo: u32) -> (r: Vec<Track>)
    requires
        from <= lines@.len(),
    ensures
        tracks_view(r@) == new_tracks(lines_view(lines@).skip(from as int), tempo),
{
    let defs = defs_exec(lines, from);
    let ghost dv = defs_view(defs@);
    let mut out: Vec<Track> = Vec::new();
    let mut cur: u32 = tempo;
    let mut i: usize = 0;
    while i < defs.len()
        invariant
            0 <= i <= defs@.len(),
            dv == defs_view(defs@),
            tracks_view(out@) == new_tracks_fold(dv.take(i as int), tempo).0,
            cur == new_tracks_fold(dv.take(i as int), tempo).1,
        decreases defs@.len() - i,
    {
        let d = &defs[i];
        proof {
            assert(dv[i as int] == def_view(*d));
            assert(dv.take(i + 1).drop_last() =~= dv.take(i as int));
            assert(dv.take(i + 1).last() == def_view(*d));
        }
        let (ev, next) = run_def_exec(&d.raw, d.channel, cur);
        cur = next;
        if ev.len() > 0 {
            let ghost before = tracks_view(out@);
            let name = string_from_chars(d.name.as_slice());
            out.push(Track { name, channel: d.channel, events: ev });
            assert(tracks_view(out@) =~= before.push(
                TrackView { name: d.name@, channel: d.channel, events: ev@ },
            ));
        }
        i = i + 1;
    }
    assert(dv.take(defs@.len() as int) =~= dv);
    out
}

} // verus!
