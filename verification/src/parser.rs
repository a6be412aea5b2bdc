//! Entry point of the score parser: picks the format of a text score and
//! assembles the `Score`.
use vstd::prelude::*;
use crate::lines::{classify, classify_line, split_lines, split_lines_exec, LineKind};
use crate::score::{
    events_sorted, lemma_sort_events, header_scan, header_scan_exec, legacy_tracks, legacy_tracks_exec, lines_view, new_tracks,
    new_tracks_exec, sort_events, sort_events_exec, tracks_view, ScoreView, TrackView,
};
use crate::text::{append, chars_of, dec_exec, dec_str, eq_str, lpad, lpad_exec, starts_with,
    starts_with_str, string_from_chars, trim, trim_exec, upper, upper_exec,
};
use crate::v3::{v3_parse, v3_parse_exec, v3_scan, v3_init, first_dup, note_events, tempo_map, scale_map, target_us};
pub use crate::score::{ScheduledNote, Score, Track};

verus! {

/// A line that marks the absolute-tick format: version 3 or any 3.x
/// (3.1, 3.2, ...), written `#MUSIC_RUST` or `#FORMAT`.
pub open spec fn is_v3_marker(l: Seq<char>) -> bool {
    let t = upper(trim(l));
    ||| t == "#MUSIC_RUST 3"@
    ||| t == "#FORMAT 3"@
    ||| starts_with(t, "#MUSIC_RUST 3 "@)
    ||| starts_with(t, "#MUSIC_RUST 3."@)
    ||| starts_with(t, "#FORMAT 3."@)
}

pub open spec fn has_v3_marker(lines: Seq<Seq<char>>) -> bool {
    exists|k: int| 0 <= k < lines.len() && #[trigger] is_v3_marker(lines[k])
}

pub open spec fn has_track_header(lines: Seq<Seq<char>>) -> bool {
    exists|k: int| 0 <= k < lines.len() && #[trigger] classify(lines[k]) == LineKind::TrackHeader
}

/// Latest note-off time of a sequence of events (0 when there is none).
pub open spec fn off_max(evs: Seq<ScheduledNote>) -> u32
    decreases evs.len(),
{
    if evs.len() == 0 {
        0
    } else {
        let p = off_max(evs.drop_last());
        if !evs.last().on && evs.last().at_ms > p {
            evs.last().at_ms
        } else {
            p
        }
    }
}

pub open spec fn tracks_off_max(ts: Seq<TrackView>) -> u32
    decreases ts.len(),
{
    if ts.len() == 0 {
        0
    } else {
        let p = tracks_off_max(ts.drop_last());
        let q = off_max(ts.last().events);
        if q > p {
            q
        } else {
            p
        }
    }
}

/// Each track with its events put in playing order.
pub open spec fn sort_tracks(ts: Seq<TrackView>) -> Seq<TrackView> {
    Seq::new(
        ts.len(),
        |k: int| TrackView { name: ts[k].name, channel: ts[k].channel, events: sort_events(ts[k].events) },
    )
}

/// The score a text gives: the absolute-tick format when a line marks it;
/// else the header (first tempo line, leading comments with a title) and a
/// body in the `T` multi-track format when any line opens a track, in the
/// two-lines-per-group format otherwise. The length is the latest note-off.
pub open spec fn parse_score(content: Seq<char>, force: Option<u32>) -> Result<ScoreView, Seq<char>> {
    let lines = split_lines(content);
    if has_v3_marker(lines) {
        v3_parse(lines, force)
    } else {
        let tempo0: u32 = match force {
            Some(t) => t,
            None => 500,
        };
        let h = header_scan(lines, 0, tempo0, Seq::empty(), force is Some);
        let body = lines.skip(h.0);
        let raw = if has_track_header(lines) {
            new_tracks(body, h.1)
        } else {
            legacy_tracks(body, h.1)
        };
        Ok(ScoreView { tempo_ms: h.1, tracks: sort_tracks(raw), title: h.2, total_ms: tracks_off_max(raw) })
    }
}

fn is_v3_marker_exec(l: &[char]) -> (b: bool)
    ensures
        b == is_v3_marker(l@),
{
    let t = trim_exec(l);
    let u = upper_exec(t.as_slice());
    eq_str(u.as_slice(), "#MUSIC_RUST 3") || eq_str(u.as_slice(), "#FORMAT 3") || starts_with_str(
        u.as_slice(),
        "#MUSIC_RUST 3 ",
    ) || starts_with_str(u.as_slice(), "#MUSIC_RUST 3.") || starts_with_str(u.as_slice(), "#FORMAT 3.")
}

pub(crate) fn has_v3_marker_exec(lines: &Vec<Vec<char>>) -> (b: bool)
    ensures
        b == has_v3_marker(lines_view(lines@)),
{
    let ghost lv = lines_view(lines@);
    let mut i: usize = 0;
    while i < lines.len()
        invariant
            0 <= i <= lines@.len(),
            lv == lines_view(lines@),
            forall|k: int| 0 <= k < i ==> !#[trigger] is_v3_marker(lv[k]),
        decreases lines@.len() - i,
    {
        assert(lv[i as int] == lines@[i as int]@);
        if is_v3_marker_exec(lines[i].as_slice()) {
            return true;
        }
        i = i + 1;
    }
    false
}

pub(crate) fn has_track_header_exec(lines: &Vec<Vec<char>>) -> (b: bool)
    ensures
        b == has_track_header(lines_view(lines@)),
{
    let ghost lv = lines_view(lines@);
    let mut i: usize = 0;
    while i < lines.len()
        invariant
            0 <= i <= lines@.len(),
            lv == lines_view(lines@),
            forall|k: int| 0 <= k < i ==> #[trigger] classify(lv[k]) != LineKind::TrackHeader,
        decreases lines@.len() - i,
    {
        assert(lv[i as int] == lines@[i as int]@);
        if classify_line(lines[i].as_slice()) == LineKind::TrackHeader {
            return true;
        }
        i = i + 1;
    }
    false
}

fn off_max_exec(evs: &Vec<ScheduledNote>) -> (r: u32)
    ensures
        r == off_max(evs@),
{
    let mut r: u32 = 0;
    let mut i: usize = 0;
    while i < evs.len()
        invariant
            0 <= i <= evs@.len(),
            r == off_max(evs@.take(i as int)),
        decreases evs@.len() - i,
    {
        assert(evs@.take(i + 1).drop_last() =~= evs@.take(i as int));
        if !evs[i].on && evs[i].at_ms > r {
            r = evs[i].at_ms;
        }
        i = i + 1;
    }
    assert(evs@.take(evs@.len() as int) =~= evs@);
    r
}

fn tracks_off_max_exec(ts: &Vec<Track>) -> (r: u32)
    ensures
        r == tracks_off_max(tracks_view(ts@)),
{
    let ghost tv = tracks_view(ts@);
    let mut r: u32 = 0;
    let mut i: usize = 0;
    while i < ts.len()
        invariant
            0 <= i <= ts@.len(),
            tv == tracks_view(ts@),
            r == tracks_off_max(tv.take(i as int)),
        decreases ts@.len() - i,
    {
        assert(tv.take(i + 1).drop_last() =~= tv.take(i as int));
        assert(tv.take(i + 1).last() == ts@[i as int]@);
        let q = off_max_exec(&ts[i].events);
        if q > r {
            r = q;
        }
        i = i + 1;
    }
    assert(tv.take(ts@.len() as int) =~= tv);
    r
}

fn sort_tracks_exec(ts: Vec<Track>) -> (r: Vec<Track>)
    ensures
        tracks_view(r@) == sort_tracks(tracks_view(ts@)),
{
    let ghost tv = tracks_view(ts@);
    let ghost n = ts@.len();
    let mut src = ts;
    let mut out: Vec<Track> = Vec::new();
    while src.len() > 0
        invariant
            out@.len() + src@.len() == n,
            n == tv.len(),
            forall|a: int| 0 <= a < src@.len() ==> (#[trigger] src@[a])@ == tv[a + out@.len()],
            forall|a: int| 0 <= a < out@.len() ==> (#[trigger] out@[a])@ == sort_tracks(tv)[a],
        decreases src@.len(),
    {
        let ghost k = out@.len();
        let ghost s0 = src@;
        let mut t = src.remove(0);
        assert(t@ == tv[k as int]);
        sort_events_exec(&mut t.events);
        out.push(t);
        assert forall|a: int| 0 <= a < src@.len() implies (#[trigger] src@[a])@ == tv[a + out@.len()] by {
            assert(src@[a] == s0[a + 1]);
        }
    }
    assert(tracks_view(out@) =~= sort_tracks(tv));
    out
}

/// Parses a text score. `force_tempo` (milliseconds per quarter) overrides
/// the tempo the file gives.
pub fn parse_str(content: &str, force_tempo: Option<u32>) -> (r: Result<Score, String>)
    ensures
        match parse_score(content@, force_tempo) {
            Ok(sv) => r is Ok && r->Ok_0@ == sv,
            Err(e) => r is Err && r->Err_0@ == e,
        },
{
    let text = chars_of(content);
    let lines = split_lines_exec(text.as_slice());
    let ghost lv = lines_view(lines@);
    assert(lv =~= split_lines(content@));
    if has_v3_marker_exec(&lines) {
        return match v3_parse_exec(&lines, force_tempo) {
            Ok(s) => Ok(s),
            Err(e) => Err(string_from_chars(e.as_slice())),
        };
    }
    let tempo0: u32 = match force_tempo {
        Some(t) => t,
        None => 500,
    };
    let (consumed, tempo, title) = header_scan_exec(&lines, tempo0, force_tempo.is_some());
    let raw = if has_track_header_exec(&lines) {
        new_tracks_exec(&lines, consumed, tempo)
    } else {
        legacy_tracks_exec(&lines, consumed, tempo)
    };
    let total = tracks_off_max_exec(&raw);
    let tracks = sort_tracks_exec(raw);
    let title = string_from_chars(title.as_slice());
    Ok(Score { tempo_ms: tempo, tracks, title, total_ms: total })
}


// ---------------------------------------------------------------------------
// Reports
// ---------------------------------------------------------------------------

/// What the summary of a score reports of one track.
pub struct TrackSummary {
    pub name: String,
    pub channel: u8,
    /// Its note-ons.
    pub notes: usize,
    /// All its events.
    pub events: usize,
}

/// What the summary of a score reports.
pub struct ScoreSummary {
    pub title: String,
    pub tempo_ms: u32,
    pub tracks: Vec<TrackSummary>,
    pub total_ms: u32,
}

pub open spec fn count_ons(evs: Seq<ScheduledNote>) -> nat
    decreases evs.len(),
{
    if evs.len() == 0 {
        0
    } else {
        count_ons(evs.drop_last()) + if evs.last().on {
            1nat
        } else {
            0nat
        }
    }
}

fn count_ons_exec(evs: &Vec<ScheduledNote>) -> (n: usize)
    ensures
        n == count_ons(evs@),
{
    let mut n: usize = 0;
    let mut i: usize = 0;
    while i < evs.len()
        invariant
            0 <= i <= evs@.len(),
            n == count_ons(evs@.take(i as int)),
            n <= i,
        decreases evs@.len() - i,
    {
        assert(evs@.take(i + 1).drop_last() =~= evs@.take(i as int));
        if evs[i].on {
            n = n + 1;
        }
        i = i + 1;
    }
    assert(evs@.take(evs@.len() as int) =~= evs@);
    n
}

/// The facts the summary of a score reports: title, tempo, per track its
/// name, channel, note-ons and events, and the length.
pub fn print_score_summary(score: &Score) -> (r: ScoreSummary)
    ensures
        r.title@ == score.title@,
        r.tempo_ms == score.tempo_ms,
        r.total_ms == score.total_ms,
        r.tracks@.len() == score.tracks@.len(),
        forall|k: int|
            0 <= k < score.tracks@.len() ==> {
                let t = #[trigger] score.tracks@[k];
                &&& r.tracks@[k].name@ == t.name@
                &&& r.tracks@[k].channel == t.channel
                &&& r.tracks@[k].notes == count_ons(t.events@)
                &&& r.tracks@[k].events == t.events@.len()
            },
{
    let mut tracks: Vec<TrackSummary> = Vec::new();
    let mut i: usize = 0;
    while i < score.tracks.len()
        invariant
            0 <= i <= score.tracks@.len(),
            tracks@.len() == i,
            forall|k: int|
                0 <= k < i ==> {
                    let t = #[trigger] score.tracks@[k];
                    &&& tracks@[k].name@ == t.name@
                    &&& tracks@[k].channel == t.channel
                    &&& tracks@[k].notes == count_ons(t.events@)
                    &&& tracks@[k].events == t.events@.len()
                },
        decreases score.tracks@.len() - i,
    {
        let t = &score.tracks[i];
        tracks.push(
            TrackSummary {
                name: t.name.clone(),
                channel: t.channel,
                notes: count_ons_exec(&t.events),
                events: t.events.len(),
            },
        );
        i = i + 1;
    }
    ScoreSummary { title: score.title.clone(), tempo_ms: score.tempo_ms, tracks, total_ms: score.total_ms }
}

/// The events of all tracks, track after track.
pub open spec fn all_events(ts: Seq<TrackView>) -> Seq<ScheduledNote>
    decreases ts.len(),
{
    if ts.len() == 0 {
        Seq::empty()
    } else {
        all_events(ts.drop_last()) + ts.last().events
    }
}

/// `  [ch{channel}] {at_ms:>8}ms note-on |note-off key={key:>3} vel={vel}`.
pub open spec fn event_line(e: ScheduledNote) -> Seq<char> {
    "  [ch"@ + dec_str(e.channel as nat) + "] "@ + lpad(dec_str(e.at_ms as nat), 8, ' ') + "ms "@ + (if e.on {
        "note-on "@
    } else {
        "note-off"@
    }) + " key="@ + lpad(dec_str(e.key as nat), 3, ' ') + " vel="@ + dec_str(e.vel as nat)
}

/// The debug listing of the first `n` events: a heading, then one line per
/// event, in track order.
pub open spec fn first_events_lines(ts: Seq<TrackView>, n: nat) -> Seq<Seq<char>> {
    let evs = all_events(ts);
    let m = if n < evs.len() {
        n
    } else {
        evs.len()
    };
    seq!["前 "@ + dec_str(n) + " 条排程事件:"@] + Seq::new(m, |k: int| event_line(evs[k]))
}

fn event_line_exec(e: ScheduledNote) -> (r: String)
    ensures
        r@ == event_line(e),
{
    let mut v = chars_of("  [ch");
    append(&mut v, &dec_exec(e.channel as u64));
    append(&mut v, &chars_of("] "));
    append(&mut v, &lpad_exec(&dec_exec(e.at_ms as u64), 8, ' '));
    append(&mut v, &chars_of("ms "));
    append(&mut v, &chars_of(if e.on { "note-on " } else { "note-off" }));
    append(&mut v, &chars_of(" key="));
    append(&mut v, &lpad_exec(&dec_exec(e.key as u64), 3, ' '));
    append(&mut v, &chars_of(" vel="));
    append(&mut v, &dec_exec(e.vel as u64));
    string_from_chars(v.as_slice())
}

/// The lines the debug listing of the first `n` events prints; see
/// `first_events_lines`.
pub fn print_first_events(score: &Score, n: usize) -> (r: Vec<String>)
    ensures
        strs(r@) == first_events_lines(tracks_view(score.tracks@), n as nat),
{
    let ghost tv = tracks_view(score.tracks@);
    let mut out: Vec<String> = Vec::new();
    let mut head = chars_of("前 ");
    append(&mut head, &dec_exec(n as u64));
    append(&mut head, &chars_of(" 条排程事件:"));
    out.push(string_from_chars(head.as_slice()));
    let flat = flatten_events(&score.tracks);
    let m = if n < flat.len() { n } else { flat.len() };
    let mut k: usize = 0;
    while k < m
        invariant
            0 <= k <= m,
            m <= flat@.len(),
            m as nat == (if (n as nat) < all_events(tv).len() { n as nat } else { all_events(tv).len() }),
            flat@ == all_events(tv),
            tv == tracks_view(score.tracks@),
            out@.len() == k + 1,
            strs(out@) == first_events_lines(tv, n as nat).take(k + 1),
        decreases m - k,
    {
        let ghost before = strs(out@);
        out.push(event_line_exec(flat[k]));
        assert(strs(out@) =~= before.push(event_line(flat@[k as int])));
        k = k + 1;
        assert(strs(out@) =~= first_events_lines(tv, n as nat).take(k + 1));
    }
    assert(first_events_lines(tv, n as nat).take(m + 1) =~= first_events_lines(tv, n as nat));
    out
}

/// All events of the tracks, track after track.
pub fn flatten_events(tracks: &Vec<Track>) -> (r: Vec<ScheduledNote>)
    ensures
        r@ == all_events(tracks_view(tracks@)),
{
    let ghost tv = tracks_view(tracks@);
    let mut r: Vec<ScheduledNote> = Vec::new();
    let mut t: usize = 0;
    while t < tracks.len()
        invariant
            0 <= t <= tracks@.len(),
            tv == tracks_view(tracks@),
            r@ == all_events(tv.take(t as int)),
        decreases tracks@.len() - t,
    {
        assert(tv.take(t + 1).drop_last() =~= tv.take(t as int));
        assert(tv.take(t + 1).last() == tracks@[t as int]@);
        let evs = &tracks[t].events;
        let ghost base = r@;
        let mut i: usize = 0;
        while i < evs.len()
            invariant
                0 <= i <= evs@.len(),
                r@ == base + evs@.take(i as int),
            decreases evs@.len() - i,
        {
            r.push(evs[i]);
            i = i + 1;
            assert(r@ =~= base + evs@.take(i as int));
        }
        assert(evs@.take(evs@.len() as int) =~= evs@);
        t = t + 1;
    }
    assert(tv.take(tracks@.len() as int) =~= tv);
    r
}

pub open spec fn strs(v: Seq<String>) -> Seq<Seq<char>> {
    v.map_values(|s: String| s@)
}

// ---------------------------------------------------------------------------
// Playing order
// ---------------------------------------------------------------------------

/// `a` may stay before `b` when playing: earlier first, and at one time a
/// note-off before a note-on.
pub open spec fn play_le(a: ScheduledNote, b: ScheduledNote) -> bool {
    a.at_ms < b.at_ms || (a.at_ms == b.at_ms && (!a.on || b.on))
}

pub open spec fn insert_play(s: Seq<ScheduledNote>, x: ScheduledNote) -> Seq<ScheduledNote>
    decreases s.len(),
{
    if s.len() == 0 {
        seq![x]
    } else if play_le(s.last(), x) {
        s.push(x)
    } else {
        insert_play(s.drop_last(), x).push(s.last())
    }
}

/// Stable sort into playing order.
pub open spec fn sort_play(s: Seq<ScheduledNote>) -> Seq<ScheduledNote>
    decreases s.len(),
{
    if s.len() == 0 {
        Seq::empty()
    } else {
        insert_play(sort_play(s.drop_last()), s.last())
    }
}

proof fn lemma_insert_play_split(s: Seq<ScheduledNote>, x: ScheduledNote, j: int)
    requires
        0 <= j <= s.len(),
        forall|k: int| j <= k < s.len() ==> !play_le(#[trigger] s[k], x),
    ensures
        insert_play(s, x) == insert_play(s.take(j), x) + s.skip(j),
    decreases s.len() - j,
{
    if j == s.len() {
        assert(s.take(j) =~= s);
        assert(insert_play(s, x) + s.skip(j) =~= insert_play(s, x));
    } else {
        lemma_insert_play_split(s.drop_last(), x, j);
        assert(s.drop_last().take(j) =~= s.take(j));
        assert(s.drop_last().skip(j).push(s.last()) =~= s.skip(j));
        assert((insert_play(s.take(j), x) + s.drop_last().skip(j)).push(s.last()) =~= insert_play(
            s.take(j),
            x,
        ) + s.skip(j));
    }
}

/// The events of all tracks merged into playing order: by time, note-offs
/// before note-ons at one time, otherwise in track order.
pub fn collect_events(score: &Score) -> (out: Vec<ScheduledNote>)
    ensures
        out@ == sort_play(all_events(tracks_view(score.tracks@))),
{
    let v = flatten_events(&score.tracks);
    let ghost s0 = v@;
    let n = v.len();
    let mut out: Vec<ScheduledNote> = Vec::new();
    let mut i: usize = 0;
    while i < n
        invariant
            0 <= i <= n,
            n == s0.len(),
            v@ == s0,
            out@ == sort_play(s0.take(i as int)),
        decreases n - i,
    {
        let x = v[i];
        assert(s0.take(i + 1).drop_last() =~= s0.take(i as int));
        let ghost sorted = out@;
        out.push(x);
        let mut j: usize = out.len() - 1;
        while j > 0 && !(out[j - 1].at_ms < x.at_ms || (out[j - 1].at_ms == x.at_ms && (!out[j - 1].on || x.on)))
            invariant
                0 <= j < out@.len(),
                out@.len() == sorted.len() + 1,
                out@ == sorted.take(j as int).push(x) + sorted.skip(j as int),
                forall|k: int| j <= k < sorted.len() ==> !play_le(#[trigger] sorted[k], x),
            decreases j,
        {
            let prev = out[j - 1];
            out.set(j, prev);
            out.set(j - 1, x);
            assert(sorted[j - 1] == prev);
            j = j - 1;
            assert(out@ =~= sorted.take(j as int).push(x) + sorted.skip(j as int));
        }
        proof {
            lemma_insert_play_split(sorted, x, j as int);
            let t = sorted.take(j as int);
            if j > 0 {
                assert(t.last() == sorted[j - 1]);
            } else {
                assert(t =~= Seq::<ScheduledNote>::empty());
            }
            assert(insert_play(t, x) == t.push(x));
        }
        i = i + 1;
    }
    assert(s0.take(n as int) =~= s0);
    out
}

/// Every track of a parsed score, whatever its format, has its events in
/// playing order: by time, note-ons before note-offs at one time.
pub proof fn lemma_parsed_tracks_sorted(content: Seq<char>, force: Option<u32>)
    ensures
        parse_score(content, force) matches Ok(sv) ==> forall|k: int|
            0 <= k < sv.tracks.len() ==> events_sorted(#[trigger] sv.tracks[k].events),
{
    if let Ok(sv) = parse_score(content, force) {
        assert forall|k: int| 0 <= k < sv.tracks.len() implies events_sorted(#[trigger] sv.tracks[k].events) by {
            let lines = split_lines(content);
            if has_v3_marker(lines) {
                let acc = v3_scan(lines, 0, v3_init())->Ok_0;
                let map = tempo_map(acc.tempos);
                let scaled = scale_map(map, target_us(force, map[0].1));
                let evs = note_events(acc.tracks, acc.notes, acc.ppq, scaled)->Ok_0;
                lemma_sort_events(evs[k]);
            } else {
                let tempo0: u32 = match force {
                    Some(t) => t,
                    None => 500,
                };
                let h = header_scan(lines, 0, tempo0, Seq::empty(), force is Some);
                let body = lines.skip(h.0);
                let raw = if has_track_header(lines) {
                    new_tracks(body, h.1)
                } else {
                    legacy_tracks(body, h.1)
                };
                lemma_sort_events(raw[k].events);
            }
        }
    }
}

proof fn lemma_forced_header_keeps_tempo(lines: Seq<Seq<char>>, i: int, tempo: u32, title: Seq<char>)
    ensures
        header_scan(lines, i, tempo, title, true).1 == tempo,
    decreases lines.len() - i,
{
    if 0 <= i < lines.len() {
        let k = classify(lines[i]);
        if k == LineKind::Blank || k == LineKind::Comment {
            let nt = match crate::score::title_of(trim(lines[i])) {
                Some(x) => x,
                None => title,
            };
            lemma_forced_header_keeps_tempo(lines, i + 1, tempo, nt);
        }
    }
}

/// A forced quarter length is the score's tempo: as given for the line
/// formats, at least 1 ms for the absolute-tick format.
pub proof fn lemma_forced_tempo(content: Seq<char>, ms: u32)
    ensures
        parse_score(content, Some(ms)) matches Ok(sv) ==> sv.tempo_ms == (if has_v3_marker(split_lines(content)) {
            if ms == 0 {
                1
            } else {
                ms
            }
        } else {
            ms
        }),
{
    let lines = split_lines(content);
    if !has_v3_marker(lines) {
        lemma_forced_header_keeps_tempo(lines, 0, ms, Seq::empty());
    }
}

// ---------------------------------------------------------------------------
// Channels of parsed tracks
// ---------------------------------------------------------------------------

/// Every event is on channel `ch`.
pub open spec fn on_channel(s: Seq<ScheduledNote>, ch: u8) -> bool {
    forall|k: int| 0 <= k < s.len() ==> (#[trigger] s[k]).channel == ch
}

proof fn lemma_note_pairs_channel(notes: Seq<u8>, t: u32, dur: u32, ch: u8)
    ensures
        on_channel(crate::score::note_pairs(notes, t, dur, ch), ch),
    decreases notes.len(),
{
    if notes.len() > 0 {
        lemma_note_pairs_channel(notes.drop_last(), t, dur, ch);
    }
}

proof fn lemma_push_fold_channel(evs: Seq<(Seq<u8>, u32)>, start: u32, ch: u8)
    ensures
        on_channel(crate::score::push_fold(evs, start, ch).0, ch),
    decreases evs.len(),
{
    if evs.len() > 0 {
        lemma_push_fold_channel(evs.drop_last(), start, ch);
        let (out, t) = crate::score::push_fold(evs.drop_last(), start, ch);
        lemma_note_pairs_channel(evs.last().0, t, evs.last().1, ch);
    }
}

proof fn lemma_legacy_run_channels(lines: Seq<Seq<char>>, i: int, st: crate::score::LegacyModel)
    requires
        on_channel(st.ev1, 0),
        on_channel(st.ev2, 1),
    ensures
        on_channel(crate::score::legacy_run(lines, i, st).ev1, 0),
        on_channel(crate::score::legacy_run(lines, i, st).ev2, 1),
    decreases lines.len() - i,
{
    if 0 <= i < lines.len() {
        let (j, st2) = crate::score::legacy_step(lines, i, st);
        if classify(lines[i]) == LineKind::NoteLine {
            let e1 = crate::token::line_events(trim(lines[i]), st.tempo);
            let pair = i + 1 < lines.len() && classify(lines[i + 1]) == LineKind::NoteLine;
            let e2 = if pair {
                crate::token::line_events(trim(lines[i + 1]), st.tempo)
            } else {
                Seq::empty()
            };
            lemma_push_fold_channel(e1, st.t, 0);
            lemma_push_fold_channel(e2, st.t, 1);
        }
        if j > i {
            lemma_legacy_run_channels(lines, j, st2);
        }
    }
}

proof fn lemma_run_fold_channel(raw: Seq<Seq<char>>, ch: u8, tempo: u32)
    ensures
        on_channel(crate::score::run_fold(raw, ch, tempo).events, ch),
    decreases raw.len(),
{
    if raw.len() > 0 {
        lemma_run_fold_channel(raw.drop_last(), ch, tempo);
        let st = crate::score::run_fold(raw.drop_last(), ch, tempo);
        lemma_push_fold_channel(crate::token::line_events(raw.last(), st.tempo), st.t, ch);
    }
}

proof fn lemma_new_tracks_channels(defs: Seq<crate::score::DefModel>, tempo: u32)
    ensures
        forall|k: int|
            0 <= k < crate::score::new_tracks_fold(defs, tempo).0.len() ==> on_channel(
                (#[trigger] crate::score::new_tracks_fold(defs, tempo).0[k]).events,
                crate::score::new_tracks_fold(defs, tempo).0[k].channel,
            ),
    decreases defs.len(),
{
    if defs.len() > 0 {
        lemma_new_tracks_channels(defs.drop_last(), tempo);
        let (prev, cur) = crate::score::new_tracks_fold(defs.drop_last(), tempo);
        let d = defs.last();
        lemma_run_fold_channel(d.raw, d.channel, cur);
    }
}

proof fn lemma_note_events_channels(
    t: Seq<(u32, u8, Seq<char>)>,
    notes: Seq<crate::v3::V3Note>,
    ppq: u32,
    m: Seq<(u64, u64)>,
)
    ensures
        note_events(t, notes, ppq, m) matches Ok(evs) ==> evs.len() == t.len() && forall|k: int|
            0 <= k < evs.len() ==> on_channel(#[trigger] evs[k], t[k].1),
    decreases notes.len(),
{
    if notes.len() > 0 {
        lemma_note_events_channels(t, notes.drop_last(), ppq, m);
        if let Ok(prev) = note_events(t, notes.drop_last(), ppq, m) {
            let n = notes.last();
            crate::v3::lemma_track_index_found(t, n.track);
            if let Some(k) = crate::v3::track_index(t, n.track) {
                let evs = prev.update(k, prev[k] + crate::v3::note_on_off(n, t[k].1, ppq, m));
                assert forall|j: int| 0 <= j < evs.len() implies on_channel(#[trigger] evs[j], t[j].1) by {
                    if j == k {
                        let a = prev[k];
                        let b = crate::v3::note_on_off(n, t[k].1, ppq, m);
                        assert forall|i: int| 0 <= i < evs[j].len() implies (#[trigger] evs[j][i]).channel == t[j].1 by {
                            if i < a.len() {
                                assert(evs[j][i] == a[i]);
                            } else {
                                assert(evs[j][i] == b[i - a.len()]);
                            }
                        }
                    }
                }
            }
        }
    } else {
        let evs = Seq::new(t.len(), |k: int| Seq::<ScheduledNote>::empty());
        assert forall|j: int| 0 <= j < evs.len() implies on_channel(#[trigger] evs[j], t[j].1) by {}
    }
}

proof fn lemma_sorted_channel(s: Seq<ScheduledNote>, ch: u8)
    requires
        on_channel(s, ch),
    ensures
        on_channel(sort_events(s), ch),
{
    broadcast use vstd::seq_lib::group_to_multiset_ensures;

    lemma_sort_events(s);
    let r = sort_events(s);
    assert forall|k: int| 0 <= k < r.len() implies (#[trigger] r[k]).channel == ch by {
        assert(r.to_multiset().count(r[k]) > 0);
        assert(s.to_multiset().count(r[k]) > 0);
        assert(s.contains(r[k]));
    }
}

/// Every event of a parsed track, whatever the format, is on that track's
/// channel.
pub proof fn lemma_parsed_events_on_track_channel(content: Seq<char>, force: Option<u32>)
    ensures
        parse_score(content, force) matches Ok(sv) ==> forall|k: int|
            0 <= k < sv.tracks.len() ==> on_channel((#[trigger] sv.tracks[k]).events, sv.tracks[k].channel),
{
    if let Ok(sv) = parse_score(content, force) {
        let lines = split_lines(content);
        if has_v3_marker(lines) {
            let acc = v3_scan(lines, 0, v3_init())->Ok_0;
            let map = tempo_map(acc.tempos);
            let scaled = scale_map(map, target_us(force, map[0].1));
            lemma_note_events_channels(acc.tracks, acc.notes, acc.ppq, scaled);
            let evs = note_events(acc.tracks, acc.notes, acc.ppq, scaled)->Ok_0;
            assert forall|k: int| 0 <= k < sv.tracks.len() implies on_channel(
                (#[trigger] sv.tracks[k]).events,
                sv.tracks[k].channel,
            ) by {
                lemma_sorted_channel(evs[k], acc.tracks[k].1);
            }
        } else {
            let tempo0: u32 = match force {
                Some(t) => t,
                None => 500,
            };
            let h = header_scan(lines, 0, tempo0, Seq::empty(), force is Some);
            let body = lines.skip(h.0);
            if has_track_header(lines) {
                lemma_new_tracks_channels(crate::score::defs_fold(body), h.1);
            } else {
                let st0 = crate::score::LegacyModel { t: 0, tempo: h.1, ev1: Seq::empty(), ev2: Seq::empty() };
                lemma_legacy_run_channels(body, 0, st0);
            }
            let raw = if has_track_header(lines) {
                new_tracks(body, h.1)
            } else {
                legacy_tracks(body, h.1)
            };
            assert forall|k: int| 0 <= k < sv.tracks.len() implies on_channel(
                (#[trigger] sv.tracks[k]).events,
                sv.tracks[k].channel,
            ) by {
                assert(on_channel(raw[k].events, raw[k].channel));
                lemma_sorted_channel(raw[k].events, raw[k].channel);
            }
        }
    }
}


// ---------------------------------------------------------------------------
// Length of a parsed score
// ---------------------------------------------------------------------------

/// Whether an event counts for the length: note-offs only, or every event.
pub open spec fn counts_for_length(e: ScheduledNote, offs_only: bool) -> bool {
    !offs_only || !e.on
}

/// `t` is the latest time of the events of the tracks that count (note-offs
/// only, or all), or 0 when none counts.
pub open spec fn latest_time(ts: Seq<TrackView>, t: u32, offs_only: bool) -> bool {
    &&& forall|k: int, i: int|
        0 <= k < ts.len() && 0 <= i < ts[k].events.len() && counts_for_length(#[trigger] ts[k].events[i], offs_only)
            ==> ts[k].events[i].at_ms <= t
    &&& t == 0 || exists|k: int, i: int|
        0 <= k < ts.len() && 0 <= i < ts[k].events.len() && counts_for_length(#[trigger] ts[k].events[i], offs_only)
            && ts[k].events[i].at_ms == t
}

proof fn lemma_off_max_latest(s: Seq<ScheduledNote>)
    ensures
        forall|i: int| 0 <= i < s.len() && !(#[trigger] s[i]).on ==> s[i].at_ms <= off_max(s),
        off_max(s) == 0 || exists|i: int| 0 <= i < s.len() && !(#[trigger] s[i]).on && s[i].at_ms == off_max(s),
    decreases s.len(),
{
    if s.len() > 0 {
        lemma_off_max_latest(s.drop_last());
        assert forall|i: int| 0 <= i < s.len() - 1 implies #[trigger] s[i] == s.drop_last()[i] by {}
        if off_max(s) != 0 && off_max(s) != s.last().at_ms {
            let i = choose|i: int| 0 <= i < s.len() - 1 && !(#[trigger] s.drop_last()[i]).on && s.drop_last()[i].at_ms == off_max(s.drop_last());
            assert(s[i] == s.drop_last()[i]);
        }
        if off_max(s) != 0 && off_max(s) == s.last().at_ms && s.last().on {
            let i = choose|i: int| 0 <= i < s.len() - 1 && !(#[trigger] s.drop_last()[i]).on && s.drop_last()[i].at_ms == off_max(s.drop_last());
            assert(s[i] == s.drop_last()[i]);
        }
    }
}

proof fn lemma_max_at_latest(s: Seq<ScheduledNote>)
    ensures
        forall|i: int| 0 <= i < s.len() ==> (#[trigger] s[i]).at_ms <= crate::v3::max_at(s),
        crate::v3::max_at(s) == 0 || exists|i: int| 0 <= i < s.len() && (#[trigger] s[i]).at_ms == crate::v3::max_at(s),
    decreases s.len(),
{
    if s.len() > 0 {
        lemma_max_at_latest(s.drop_last());
        assert forall|i: int| 0 <= i < s.len() - 1 implies #[trigger] s[i] == s.drop_last()[i] by {}
        if crate::v3::max_at(s) != 0 && crate::v3::max_at(s) != s.last().at_ms {
            let i = choose|i: int| 0 <= i < s.len() - 1 && (#[trigger] s.drop_last()[i]).at_ms == crate::v3::max_at(s.drop_last());
            assert(s[i] == s.drop_last()[i]);
        }
    }
}

proof fn lemma_tracks_off_max_latest(ts: Seq<TrackView>)
    ensures
        latest_time(ts, tracks_off_max(ts), true),
    decreases ts.len(),
{
    if ts.len() > 0 {
        lemma_tracks_off_max_latest(ts.drop_last());
        lemma_off_max_latest(ts.last().events);
        let p = tracks_off_max(ts.drop_last());
        let q = off_max(ts.last().events);
        assert forall|k: int| 0 <= k < ts.len() - 1 implies #[trigger] ts[k] == ts.drop_last()[k] by {}
        assert forall|k: int, i: int|
            0 <= k < ts.len() && 0 <= i < ts[k].events.len() && counts_for_length(#[trigger] ts[k].events[i], true)
                implies ts[k].events[i].at_ms <= tracks_off_max(ts) by {
            if k < ts.len() - 1 {
                assert(ts[k] == ts.drop_last()[k]);
                assert(ts.drop_last()[k].events[i] == ts[k].events[i]);
            } else {
                assert(ts[k].events[i] == ts.last().events[i]);
            }
        }
        if tracks_off_max(ts) != 0 {
            if q > p {
                let i = choose|i: int| 0 <= i < ts.last().events.len() && !(#[trigger] ts.last().events[i]).on && ts.last().events[i].at_ms == q;
                assert(counts_for_length(ts[ts.len() - 1].events[i], true));
            } else {
                let (k, i) = choose|k: int, i: int|
                    0 <= k < ts.drop_last().len() && 0 <= i < ts.drop_last()[k].events.len() && counts_for_length(
                        #[trigger] ts.drop_last()[k].events[i],
                        true,
                    ) && ts.drop_last()[k].events[i].at_ms == p;
                assert(ts[k] == ts.drop_last()[k]);
                assert(counts_for_length(ts[k].events[i], true));
            }
        }
    }
}

proof fn lemma_tracks_max_at_latest(ts: Seq<TrackView>)
    ensures
        latest_time(ts, crate::v3::tracks_max_at(ts), false),
    decreases ts.len(),
{
    if ts.len() > 0 {
        lemma_tracks_max_at_latest(ts.drop_last());
        lemma_max_at_latest(ts.last().events);
        let p = crate::v3::tracks_max_at(ts.drop_last());
        let q = crate::v3::max_at(ts.last().events);
        assert forall|k: int| 0 <= k < ts.len() - 1 implies #[trigger] ts[k] == ts.drop_last()[k] by {}
        assert forall|k: int, i: int|
            0 <= k < ts.len() && 0 <= i < ts[k].events.len() && counts_for_length(#[trigger] ts[k].events[i], false)
                implies ts[k].events[i].at_ms <= crate::v3::tracks_max_at(ts) by {
            if k < ts.len() - 1 {
                assert(ts[k] == ts.drop_last()[k]);
                assert(ts.drop_last()[k].events[i] == ts[k].events[i]);
            } else {
                assert(ts[k].events[i] == ts.last().events[i]);
            }
        }
        if crate::v3::tracks_max_at(ts) != 0 {
            if q > p {
                let i = choose|i: int| 0 <= i < ts.last().events.len() && (#[trigger] ts.last().events[i]).at_ms == q;
                assert(counts_for_length(ts[ts.len() - 1].events[i], false));
            } else {
                let (k, i) = choose|k: int, i: int|
                    0 <= k < ts.drop_last().len() && 0 <= i < ts.drop_last()[k].events.len() && counts_for_length(
                        #[trigger] ts.drop_last()[k].events[i],
                        false,
                    ) && ts.drop_last()[k].events[i].at_ms == p;
                assert(ts[k] == ts.drop_last()[k]);
                assert(counts_for_length(ts[k].events[i], false));
            }
        }
    }
}

/// `a` and `b` have the same tracks up to the order of each track's events.
pub open spec fn same_events(a: Seq<TrackView>, b: Seq<TrackView>) -> bool {
    a.len() == b.len() && forall|k: int| 0 <= k < a.len() ==> (#[trigger] a[k]).events.to_multiset() == b[k].events.to_multiset()
}

proof fn lemma_latest_same_events(a: Seq<TrackView>, b: Seq<TrackView>, t: u32, offs_only: bool)
    requires
        same_events(a, b),
        latest_time(a, t, offs_only),
    ensures
        latest_time(b, t, offs_only),
{
    broadcast use vstd::seq_lib::group_to_multiset_ensures;

    assert forall|k: int, i: int|
        0 <= k < b.len() && 0 <= i < b[k].events.len() && counts_for_length(#[trigger] b[k].events[i], offs_only)
            implies b[k].events[i].at_ms <= t by {
        let e = b[k].events[i];
        assert(b[k].events.to_multiset().count(e) > 0);
        assert(a[k].events.to_multiset().count(e) > 0);
        assert(a[k].events.contains(e));
        let j = choose|j: int| 0 <= j < a[k].events.len() && a[k].events[j] == e;
        assert(counts_for_length(a[k].events[j], offs_only));
    }
    if t != 0 {
        let (k, i) = choose|k: int, i: int|
            0 <= k < a.len() && 0 <= i < a[k].events.len() && counts_for_length(#[trigger] a[k].events[i], offs_only)
                && a[k].events[i].at_ms == t;
        let e = a[k].events[i];
        assert(a[k].events.to_multiset().count(e) > 0);
        assert(b[k].events.to_multiset().count(e) > 0);
        assert(b[k].events.contains(e));
        let j = choose|j: int| 0 <= j < b[k].events.len() && b[k].events[j] == e;
        assert(counts_for_length(b[k].events[j], offs_only));
    }
}

/// Every note-on has a note-off at or after it in the same events.
pub open spec fn offs_cover(s: Seq<ScheduledNote>) -> bool {
    forall|i: int|
        0 <= i < s.len() && (#[trigger] s[i]).on ==> exists|j: int|
            0 <= j < s.len() && !(#[trigger] s[j]).on && s[j].at_ms >= s[i].at_ms
}

proof fn lemma_offs_cover_concat(a: Seq<ScheduledNote>, b: Seq<ScheduledNote>)
    requires
        offs_cover(a),
        offs_cover(b),
    ensures
        offs_cover(a + b),
{
    let c = a + b;
    assert forall|i: int| 0 <= i < c.len() && (#[trigger] c[i]).on implies exists|j: int|
        0 <= j < c.len() && !(#[trigger] c[j]).on && c[j].at_ms >= c[i].at_ms by {
        if i < a.len() {
            assert(a[i] == c[i]);
            let j = choose|j: int| 0 <= j < a.len() && !(#[trigger] a[j]).on && a[j].at_ms >= a[i].at_ms;
            assert(c[j] == a[j]);
        } else {
            assert(b[i - a.len()] == c[i]);
            let j = choose|j: int| 0 <= j < b.len() && !(#[trigger] b[j]).on && b[j].at_ms >= b[i - a.len()].at_ms;
            assert(c[j + a.len()] == b[j]);
        }
    }
}

proof fn lemma_track_events_cover(
    t: Seq<(u32, u8, Seq<char>)>,
    notes: Seq<crate::v3::V3Note>,
    k: int,
    ppq: u32,
    m: Seq<(u64, u64)>,
)
    ensures
        offs_cover(crate::v3::track_events(t, notes, k, ppq, m)),
    decreases notes.len(),
{
    if notes.len() > 0 {
        lemma_track_events_cover(t, notes.drop_last(), k, ppq, m);
        let extra = if crate::v3::track_index(t, notes.last().track) == Some(k) {
            crate::v3::note_on_off(notes.last(), t[k].1, ppq, m)
        } else {
            Seq::empty()
        };
        if crate::v3::track_index(t, notes.last().track) == Some(k) {
            crate::v3::lemma_note_on_off_law(notes.last(), t[k].1, ppq, m);
            assert forall|i: int| 0 <= i < extra.len() && (#[trigger] extra[i]).on implies exists|j: int|
                0 <= j < extra.len() && !(#[trigger] extra[j]).on && extra[j].at_ms >= extra[i].at_ms by {
                assert(!extra[1].on);
            }
        }
        lemma_offs_cover_concat(crate::v3::track_events(t, notes.drop_last(), k, ppq, m), extra);
    }
}

proof fn lemma_sorted_cover(s: Seq<ScheduledNote>)
    requires
        offs_cover(s),
    ensures
        offs_cover(sort_events(s)),
{
    broadcast use vstd::seq_lib::group_to_multiset_ensures;

    lemma_sort_events(s);
    let r = sort_events(s);
    assert forall|i: int| 0 <= i < r.len() && (#[trigger] r[i]).on implies exists|j: int|
        0 <= j < r.len() && !(#[trigger] r[j]).on && r[j].at_ms >= r[i].at_ms by {
        assert(r.to_multiset().count(r[i]) > 0);
        assert(s.contains(r[i]));
        let a = choose|a: int| 0 <= a < s.len() && s[a] == r[i];
        let b = choose|b: int| 0 <= b < s.len() && !(#[trigger] s[b]).on && s[b].at_ms >= s[a].at_ms;
        assert(s.to_multiset().count(s[b]) > 0);
        assert(r.contains(s[b]));
        let j = choose|j: int| 0 <= j < r.len() && r[j] == s[b];
    }
}

proof fn lemma_latest_offs(ts: Seq<TrackView>, t: u32)
    requires
        latest_time(ts, t, false),
        forall|k: int| 0 <= k < ts.len() ==> offs_cover(#[trigger] ts[k].events),
    ensures
        latest_time(ts, t, true),
{
    if t != 0 {
        let (k, i) = choose|k: int, i: int|
            0 <= k < ts.len() && 0 <= i < ts[k].events.len() && counts_for_length(#[trigger] ts[k].events[i], false)
                && ts[k].events[i].at_ms == t;
        if ts[k].events[i].on {
            assert(offs_cover(ts[k].events));
            let j = choose|j: int|
                0 <= j < ts[k].events.len() && !(#[trigger] ts[k].events[j]).on && ts[k].events[j].at_ms
                    >= ts[k].events[i].at_ms;
            assert(counts_for_length(ts[k].events[j], false));
            assert(counts_for_length(ts[k].events[j], true));
        } else {
            assert(counts_for_length(ts[k].events[i], true));
        }
    }
}

/// The length of a parsed score, whatever its format, is the time of its
/// latest note-off, or 0 when there is none.
pub proof fn lemma_parsed_length_is_latest(content: Seq<char>, force: Option<u32>)
    ensures
        parse_score(content, force) matches Ok(sv) ==> latest_time(sv.tracks, sv.total_ms, true),
{
    if let Ok(sv) = parse_score(content, force) {
        let lines = split_lines(content);
        if has_v3_marker(lines) {
            lemma_tracks_max_at_latest(sv.tracks);
            crate::v3::lemma_v3_structure(lines, force);
            let t = crate::v3::tracks_of_lines(lines);
            let acc = v3_scan(lines, 0, v3_init())->Ok_0;
            let map = tempo_map(acc.tempos);
            let scaled = scale_map(map, target_us(force, map[0].1));
            assert forall|k: int| 0 <= k < sv.tracks.len() implies offs_cover(#[trigger] sv.tracks[k].events) by {
                lemma_track_events_cover(t, crate::v3::notes_of_lines(lines), k, acc.ppq, scaled);
                lemma_sorted_cover(crate::v3::track_events(t, crate::v3::notes_of_lines(lines), k, acc.ppq, scaled));
            }
            lemma_latest_offs(sv.tracks, sv.total_ms);
        } else {
            let tempo0: u32 = match force {
                Some(t) => t,
                None => 500,
            };
            let h = header_scan(lines, 0, tempo0, Seq::empty(), force is Some);
            let body = lines.skip(h.0);
            let raw = if has_track_header(lines) {
                new_tracks(body, h.1)
            } else {
                legacy_tracks(body, h.1)
            };
            lemma_tracks_off_max_latest(raw);
            assert forall|k: int| 0 <= k < raw.len() implies (#[trigger] raw[k]).events.to_multiset()
                == sv.tracks[k].events.to_multiset() by {
                lemma_sort_events(raw[k].events);
            }
            lemma_latest_same_events(raw, sv.tracks, sv.total_ms, true);
        }
    }
}


// ---------------------------------------------------------------------------
// Note-ons and note-offs of parsed tracks
// ---------------------------------------------------------------------------

/// Number of note-ons (`on`) or note-offs of `key` among the events.
pub open spec fn key_count(s: Seq<ScheduledNote>, key: u8, on: bool) -> nat
    decreases s.len(),
{
    if s.len() == 0 {
        0
    } else {
        key_count(s.drop_last(), key, on) + if s.last().key == key && s.last().on == on {
            1nat
        } else {
            0nat
        }
    }
}

/// Every key has as many note-offs as note-ons.
pub open spec fn balanced(s: Seq<ScheduledNote>) -> bool {
    forall|key: u8| #[trigger] key_count(s, key, true) == key_count(s, key, false)
}

proof fn lemma_key_count_concat(a: Seq<ScheduledNote>, b: Seq<ScheduledNote>, key: u8, on: bool)
    ensures
        key_count(a + b, key, on) == key_count(a, key, on) + key_count(b, key, on),
    decreases b.len(),
{
    if b.len() == 0 {
        assert(a + b =~= a);
    } else {
        lemma_key_count_concat(a, b.drop_last(), key, on);
        assert((a + b).drop_last() =~= a + b.drop_last());
    }
}

proof fn lemma_balanced_concat(a: Seq<ScheduledNote>, b: Seq<ScheduledNote>)
    requires
        balanced(a),
        balanced(b),
    ensures
        balanced(a + b),
{
    assert forall|key: u8| #[trigger] key_count(a + b, key, true) == key_count(a + b, key, false) by {
        lemma_key_count_concat(a, b, key, true);
        lemma_key_count_concat(a, b, key, false);
        assert(key_count(a, key, true) == key_count(a, key, false));
        assert(key_count(b, key, true) == key_count(b, key, false));
    }
}

proof fn lemma_key_count_insert(s: Seq<ScheduledNote>, x: ScheduledNote, key: u8, on: bool)
    ensures
        key_count(crate::score::insert_event(s, x), key, on) == key_count(s, key, on) + if x.key == key && x.on
            == on {
            1nat
        } else {
            0nat
        },
    decreases s.len(),
{
    reveal_with_fuel(key_count, 2);
    if s.len() == 0 {
        assert(seq![x].drop_last() =~= Seq::<ScheduledNote>::empty());
    } else if crate::score::event_le(s.last(), x) {
        assert(s.push(x).drop_last() =~= s);
    } else {
        lemma_key_count_insert(s.drop_last(), x, key, on);
        let r = crate::score::insert_event(s.drop_last(), x);
        assert(r.push(s.last()).drop_last() =~= r);
    }
}

proof fn lemma_sorted_balanced(s: Seq<ScheduledNote>)
    requires
        balanced(s),
    ensures
        balanced(sort_events(s)),
{
    assert forall|key: u8| #[trigger] key_count(sort_events(s), key, true) == key_count(sort_events(s), key, false) by {
        lemma_sort_key_count(s, key, true);
        lemma_sort_key_count(s, key, false);
        assert(key_count(s, key, true) == key_count(s, key, false));
    }
}

proof fn lemma_sort_key_count(s: Seq<ScheduledNote>, key: u8, on: bool)
    ensures
        key_count(sort_events(s), key, on) == key_count(s, key, on),
    decreases s.len(),
{
    if s.len() > 0 {
        lemma_sort_key_count(s.drop_last(), key, on);
        lemma_key_count_insert(sort_events(s.drop_last()), s.last(), key, on);
    }
}

proof fn lemma_note_pairs_balanced(notes: Seq<u8>, t: u32, dur: u32, ch: u8)
    ensures
        balanced(crate::score::note_pairs(notes, t, dur, ch)),
    decreases notes.len(),
{
    if notes.len() > 0 {
        lemma_note_pairs_balanced(notes.drop_last(), t, dur, ch);
        let k = notes.last();
        let pair = seq![
            crate::score::note_event(t, k, true, ch),
            crate::score::note_event(t.wrapping_add(dur), k, false, ch),
        ];
        assert(balanced(pair)) by {
            assert forall|key: u8| #[trigger] key_count(pair, key, true) == key_count(pair, key, false) by {
                reveal_with_fuel(key_count, 3);
                assert(pair.drop_last() =~= seq![pair[0]]);
                assert(pair.drop_last().drop_last() =~= Seq::<ScheduledNote>::empty());
            }
        }
        lemma_balanced_concat(crate::score::note_pairs(notes.drop_last(), t, dur, ch), pair);
    }
}

proof fn lemma_push_fold_balanced(evs: Seq<(Seq<u8>, u32)>, start: u32, ch: u8)
    ensures
        balanced(crate::score::push_fold(evs, start, ch).0),
    decreases evs.len(),
{
    if evs.len() > 0 {
        lemma_push_fold_balanced(evs.drop_last(), start, ch);
        let (out, t) = crate::score::push_fold(evs.drop_last(), start, ch);
        lemma_note_pairs_balanced(evs.last().0, t, evs.last().1, ch);
        lemma_balanced_concat(out, crate::score::note_pairs(evs.last().0, t, evs.last().1, ch));
    } else {
        assert(balanced(Seq::<ScheduledNote>::empty()));
    }
}

proof fn lemma_legacy_run_balanced(lines: Seq<Seq<char>>, i: int, st: crate::score::LegacyModel)
    requires
        balanced(st.ev1),
        balanced(st.ev2),
    ensures
        balanced(crate::score::legacy_run(lines, i, st).ev1),
        balanced(crate::score::legacy_run(lines, i, st).ev2),
    decreases lines.len() - i,
{
    if 0 <= i < lines.len() {
        let (j, st2) = crate::score::legacy_step(lines, i, st);
        if classify(lines[i]) == LineKind::NoteLine {
            let e1 = crate::token::line_events(trim(lines[i]), st.tempo);
            let pair = i + 1 < lines.len() && classify(lines[i + 1]) == LineKind::NoteLine;
            let e2 = if pair {
                crate::token::line_events(trim(lines[i + 1]), st.tempo)
            } else {
                Seq::empty()
            };
            lemma_push_fold_balanced(e1, st.t, 0);
            lemma_push_fold_balanced(e2, st.t, 1);
            lemma_balanced_concat(st.ev1, crate::score::push_fold(e1, st.t, 0).0);
            lemma_balanced_concat(st.ev2, crate::score::push_fold(e2, st.t, 1).0);
        }
        if j > i {
            lemma_legacy_run_balanced(lines, j, st2);
        }
    }
}

proof fn lemma_run_fold_balanced(raw: Seq<Seq<char>>, ch: u8, tempo: u32)
    ensures
        balanced(crate::score::run_fold(raw, ch, tempo).events),
    decreases raw.len(),
{
    if raw.len() > 0 {
        lemma_run_fold_balanced(raw.drop_last(), ch, tempo);
        let st = crate::score::run_fold(raw.drop_last(), ch, tempo);
        let e = crate::token::line_events(raw.last(), st.tempo);
        lemma_push_fold_balanced(e, st.t, ch);
        lemma_balanced_concat(st.events, crate::score::push_fold(e, st.t, ch).0);
    } else {
        assert(balanced(Seq::<ScheduledNote>::empty()));
    }
}

proof fn lemma_new_tracks_balanced(defs: Seq<crate::score::DefModel>, tempo: u32)
    ensures
        forall|k: int|
            0 <= k < crate::score::new_tracks_fold(defs, tempo).0.len() ==> balanced(
                (#[trigger] crate::score::new_tracks_fold(defs, tempo).0[k]).events,
            ),
    decreases defs.len(),
{
    if defs.len() > 0 {
        lemma_new_tracks_balanced(defs.drop_last(), tempo);
        let (prev, cur) = crate::score::new_tracks_fold(defs.drop_last(), tempo);
        let d = defs.last();
        lemma_run_fold_balanced(d.raw, d.channel, cur);
    }
}

proof fn lemma_note_events_balanced(
    t: Seq<(u32, u8, Seq<char>)>,
    notes: Seq<crate::v3::V3Note>,
    ppq: u32,
    m: Seq<(u64, u64)>,
)
    ensures
        note_events(t, notes, ppq, m) matches Ok(evs) ==> evs.len() == t.len() && forall|k: int|
            0 <= k < evs.len() ==> balanced(#[trigger] evs[k]),
    decreases notes.len(),
{
    if notes.len() > 0 {
        lemma_note_events_balanced(t, notes.drop_last(), ppq, m);
        if let Ok(prev) = note_events(t, notes.drop_last(), ppq, m) {
            let n = notes.last();
            crate::v3::lemma_track_index_found(t, n.track);
            if let Some(k) = crate::v3::track_index(t, n.track) {
                let b = crate::v3::note_on_off(n, t[k].1, ppq, m);
                assert(balanced(b)) by {
                    assert forall|key: u8| #[trigger] key_count(b, key, true) == key_count(b, key, false) by {
                        reveal_with_fuel(key_count, 3);
                        assert(b.drop_last() =~= seq![b[0]]);
                        assert(b.drop_last().drop_last() =~= Seq::<ScheduledNote>::empty());
                    }
                }
                lemma_balanced_concat(prev[k], b);
                let evs = prev.update(k, prev[k] + b);
                assert forall|j: int| 0 <= j < evs.len() implies balanced(#[trigger] evs[j]) by {
                    if j != k {
                        assert(evs[j] == prev[j]);
                    }
                }
            }
        }
    } else {
        let evs = Seq::new(t.len(), |k: int| Seq::<ScheduledNote>::empty());
        assert forall|j: int| 0 <= j < evs.len() implies balanced(#[trigger] evs[j]) by {
            assert(evs[j] =~= Seq::<ScheduledNote>::empty());
        }
    }
}

/// In every track of a parsed score, whatever its format, each key has as
/// many note-offs as note-ons: every note that starts also ends.
pub proof fn lemma_parsed_notes_pair_up(content: Seq<char>, force: Option<u32>)
    ensures
        parse_score(content, force) matches Ok(sv) ==> forall|k: int|
            0 <= k < sv.tracks.len() ==> balanced((#[trigger] sv.tracks[k]).events),
{
    if let Ok(sv) = parse_score(content, force) {
        let lines = split_lines(content);
        if has_v3_marker(lines) {
            let acc = v3_scan(lines, 0, v3_init())->Ok_0;
            let map = tempo_map(acc.tempos);
            let scaled = scale_map(map, target_us(force, map[0].1));
            lemma_note_events_balanced(acc.tracks, acc.notes, acc.ppq, scaled);
            let evs = note_events(acc.tracks, acc.notes, acc.ppq, scaled)->Ok_0;
            assert forall|k: int| 0 <= k < sv.tracks.len() implies balanced((#[trigger] sv.tracks[k]).events) by {
                lemma_sorted_balanced(evs[k]);
            }
        } else {
            let tempo0: u32 = match force {
                Some(t) => t,
                None => 500,
            };
            let h = header_scan(lines, 0, tempo0, Seq::empty(), force is Some);
            let body = lines.skip(h.0);
            if has_track_header(lines) {
                lemma_new_tracks_balanced(crate::score::defs_fold(body), h.1);
            } else {
                let st0 = crate::score::LegacyModel { t: 0, tempo: h.1, ev1: Seq::empty(), ev2: Seq::empty() };
                assert(balanced(Seq::<ScheduledNote>::empty()));
                lemma_legacy_run_balanced(body, 0, st0);
            }
            let raw = if has_track_header(lines) {
                new_tracks(body, h.1)
            } else {
                legacy_tracks(body, h.1)
            };
            assert forall|k: int| 0 <= k < sv.tracks.len() implies balanced((#[trigger] sv.tracks[k]).events) by {
                assert(balanced(raw[k].events));
                lemma_sorted_balanced(raw[k].events);
            }
        }
    }
}

} // verus!
