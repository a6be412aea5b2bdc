//! What the player shows while it plays: the notes sounding on each track,
//! as read from a MIDI file or from a parsed score.
use vstd::prelude::*;
use crate::midi::{be32, has_tag, high_nibble, mthd, mtrk, vlq, vlq_exec, wrap64};
use crate::score::ScheduledNote;
use crate::synth::{midi_note_name_chars, note_name};
use crate::text::{append, chars_of, dec_exec, dec_str, string_from_chars};
use crate::keyed::{
    get_entry, keys_in_order, note_count, note_insert, note_remove, notes_in_order, notes_model, put_entry,
    sorted_keys, sorted_notes, take_entry,
};
use std::collections::{BTreeMap, BTreeSet};

verus! {

/// A note-on or note-off of a MIDI file, with its track.
#[derive(Clone, Copy)]
pub struct MidiDisplayEvent {
    pub tick: u64,
    pub track: usize,
    pub key: u8,
    pub on: bool,
}

// ---------------------------------------------------------------------------
// Reading the notes of a file
// ---------------------------------------------------------------------------

/// One event of a track read for display: the position after it, the tick,
/// the running status and the note it plays, if any; `None` where reading
/// of the track stops.
pub open spec fn dv_step(d: Seq<u8>, pos: int, end: int, tick: u64, running: u8, track: usize) -> Option<
    (int, u64, u8, Option<MidiDisplayEvent>),
> {
    match vlq(d, pos, end, 0, 0) {
        None => None,
        Some((delta, p1)) => {
            let t = wrap64(tick + delta);
            if p1 >= end {
                None
            } else {
                let first = d[p1];
                if first < 0x80 && running == 0 {
                    None
                } else {
                    let status = if first < 0x80 {
                        running
                    } else {
                        first
                    };
                    let running2 = if first >= 0x80 && first < 0xf0 {
                        first
                    } else {
                        running
                    };
                    let p = p1 + 1;
                    if status == 0xff {
                        if p >= end {
                            None
                        } else {
                            match vlq(d, p + 1, end, 0, 0) {
                                None => None,
                                Some((len, q)) => Some(
                                    (
                                        if q + len > end {
                                            end
                                        } else {
                                            q + len
                                        },
                                        t,
                                        running2,
                                        None,
                                    ),
                                ),
                            }
                        }
                    } else if status == 0xf0 || status == 0xf7 {
                        match vlq(d, p, end, 0, 0) {
                            None => None,
                            Some((len, q)) => Some(
                                (
                                    if q + len > end {
                                        end
                                    } else {
                                        q + len
                                    },
                                    t,
                                    running2,
                                    None,
                                ),
                            ),
                        }
                    } else {
                        let kind = high_nibble(status);
                        let two = !(kind == 0xc0 || kind == 0xd0);
                        if first >= 0x80 && p >= end {
                            None
                        } else {
                            let key = if first < 0x80 {
                                first
                            } else {
                                d[p]
                            };
                            let p2 = if first < 0x80 {
                                p
                            } else {
                                p + 1
                            };
                            if two && p2 >= end {
                                None
                            } else {
                                let p3 = if two {
                                    p2 + 1
                                } else {
                                    p2
                                };
                                let ev = if two && (kind == 0x80 || kind == 0x90) {
                                    Some(
                                        MidiDisplayEvent {
                                            tick: t,
                                            track,
                                            key,
                                            on: kind == 0x90 && d[p2] != 0,
                                        },
                                    )
                                } else {
                                    None
                                };
                                Some((p3, t, running2, ev))
                            }
                        }
                    }
                }
            }
        },
    }
}

/// The notes of a track read from `pos` to `end`, added to `evs`.
pub open spec fn dv_track(
    d: Seq<u8>,
    pos: int,
    end: int,
    tick: u64,
    running: u8,
    track: usize,
    evs: Seq<MidiDisplayEvent>,
) -> Seq<MidiDisplayEvent>
    decreases end - pos,
{
    if pos >= end {
        evs
    } else {
        match dv_step(d, pos, end, tick, running, track) {
            None => evs,
            Some((q, t, r, e)) => if q <= pos || q > end {
                evs
            } else {
                dv_track(
                    d,
                    q,
                    end,
                    t,
                    r,
                    track,
                    match e {
                        Some(x) => evs.push(x),
                        None => evs,
                    },
                )
            },
        }
    }
}

/// The notes of the `MTrk` chunks from `pos` on; a chunk running past the
/// data is cut at its end.
pub open spec fn dv_tracks(d: Seq<u8>, pos: int, track: usize, evs: Seq<MidiDisplayEvent>) -> Seq<MidiDisplayEvent>
    decreases d.len() - pos,
{
    if pos < 0 || pos + 8 > d.len() || !has_tag(d, pos, mtrk()) || track >= usize::MAX {
        evs
    } else {
        let e0 = pos + 8 + be32(d, pos + 4);
        let end = if e0 > d.len() {
            d.len() as int
        } else {
            e0
        };
        dv_tracks(d, end, (track + 1) as usize, dv_track(d, pos + 8, end, 0, 0, track, evs))
    }
}

pub open spec fn insert_by_event_tick(s: Seq<MidiDisplayEvent>, x: MidiDisplayEvent) -> Seq<MidiDisplayEvent>
    decreases s.len(),
{
    if s.len() == 0 {
        seq![x]
    } else if s.last().tick <= x.tick {
        s.push(x)
    } else {
        insert_by_event_tick(s.drop_last(), x).push(s.last())
    }
}

/// Stable sort by tick.
pub open spec fn sort_by_event_tick(s: Seq<MidiDisplayEvent>) -> Seq<MidiDisplayEvent>
    decreases s.len(),
{
    if s.len() == 0 {
        Seq::empty()
    } else {
        insert_by_event_tick(sort_by_event_tick(s.drop_last()), s.last())
    }
}

/// The note-ons and note-offs of a MIDI file in tick order (events of one
/// tick keep their file order); nothing for a file that is not a Standard
/// MIDI File. A note-on with velocity 0 counts as a note-off.
pub open spec fn display_events_of(d: Seq<u8>) -> Seq<MidiDisplayEvent> {
    if d.len() < 14 || !has_tag(d, 0, mthd()) {
        Seq::empty()
    } else {
        sort_by_event_tick(dv_tracks(d, (8 + be32(d, 4)) as int, 0, Seq::empty()))
    }
}

fn dv_step_exec(d: &[u8], pos: usize, end: usize, tick: u64, running: u8, track: usize) -> (r: Option<
    (usize, u64, u8, Option<MidiDisplayEvent>),
>)
    requires
        end <= d@.len(),
    ensures
        r matches Some((q, t, rr, e)) ==> dv_step(d@, pos as int, end as int, tick, running, track) == Some(
            (q as int, t, rr, e),
        ) && pos < q <= end,
        r is None ==> dv_step(d@, pos as int, end as int, tick, running, track) is None,
{
    let (delta, p1) = match vlq_exec(d, pos, end) {
        None => {
            return None;
        },
        Some(x) => x,
    };
    let t = tick.wrapping_add(delta);
    assert(t == wrap64(tick + delta)) by {
        assert(tick + delta < 0x1_0000_0000_0000_0000 ==> (tick + delta) % 0x1_0000_0000_0000_0000 == tick
            + delta);
    }
    if p1 >= end {
        return None;
    }
    let first = d[p1];
    if first < 0x80 && running == 0 {
        return None;
    }
    let status = if first < 0x80 { running } else { first };
    let running2 = if first >= 0x80 && first < 0xf0 { first } else { running };
    let p = p1 + 1;
    if status == 0xff {
        if p >= end {
            return None;
        }
        match vlq_exec(d, p + 1, end) {
            None => None,
            Some((len, q)) => {
                let e = if len > (end - q) as u64 { end } else { q + len as usize };
                Some((e, t, running2, None))
            },
        }
    } else if status == 0xf0 || status == 0xf7 {
        match vlq_exec(d, p, end) {
            None => None,
            Some((len, q)) => {
                let e = if len > (end - q) as u64 { end } else { q + len as usize };
                Some((e, t, running2, None))
            },
        }
    } else {
        let kind = status / 16 * 16;
        let two = !(kind == 0xc0 || kind == 0xd0);
        if first >= 0x80 && p >= end {
            return None;
        }
        let key = if first < 0x80 { first } else { d[p] };
        let p2 = if first < 0x80 { p } else { p + 1 };
        if two && p2 >= end {
            return None;
        }
        let p3 = if two { p2 + 1 } else { p2 };
        let ev = if two && (kind == 0x80 || kind == 0x90) {
            Some(MidiDisplayEvent { tick: t, track, key, on: kind == 0x90 && d[p2] != 0 })
        } else {
            None
        };
        Some((p3, t, running2, ev))
    }
}

proof fn lemma_insert_by_event_tick_split(s: Seq<MidiDisplayEvent>, x: MidiDisplayEvent, j: int)
    requires
        0 <= j <= s.len(),
        forall|k: int| j <= k < s.len() ==> (#[trigger] s[k]).tick > x.tick,
    ensures
        insert_by_event_tick(s, x) == insert_by_event_tick(s.take(j), x) + s.skip(j),
    decreases s.len() - j,
{
    if j == s.len() {
        assert(s.take(j) =~= s);
        assert(insert_by_event_tick(s, x) + s.skip(j) =~= insert_by_event_tick(s, x));
    } else {
        lemma_insert_by_event_tick_split(s.drop_last(), x, j);
        assert(s.drop_last().take(j) =~= s.take(j));
        assert(s.drop_last().skip(j).push(s.last()) =~= s.skip(j));
        assert((insert_by_event_tick(s.take(j), x) + s.drop_last().skip(j)).push(s.last())
            =~= insert_by_event_tick(s.take(j), x) + s.skip(j));
    }
}

fn sort_by_event_tick_exec(v: &Vec<MidiDisplayEvent>) -> (out: Vec<MidiDisplayEvent>)
    ensures
        out@ == sort_by_event_tick(v@),
{
    let ghost s0 = v@;
    let n = v.len();
    let mut out: Vec<MidiDisplayEvent> = Vec::new();
    let mut i: usize = 0;
    while i < n
        invariant
            0 <= i <= n,
            n == s0.len(),
            v@ == s0,
            out@ == sort_by_event_tick(s0.take(i as int)),
        decreases n - i,
    {
        let x = v[i];
        assert(s0.take(i + 1).drop_last() =~= s0.take(i as int));
        let ghost sorted = out@;
        out.push(x);
        let mut j: usize = out.len() - 1;
        while j > 0 && out[j - 1].tick > x.tick
            invariant
                0 <= j < out@.len(),
                out@.len() == sorted.len() + 1,
                out@ == sorted.take(j as int).push(x) + sorted.skip(j as int),
                forall|k: int| j <= k < sorted.len() ==> (#[trigger] sorted[k]).tick > x.tick,
            decreases j,
        {
            let prev = out[j - 1];
            out.set(j, prev);
            out.set(j - 1, x);
            assert(sorted[j - 1] == prev);
            j = j - 1;
            assert(out@ =~= sorted.take(j as int).push(x) + sorted.skip(j as int));
        }
        proof {
            lemma_insert_by_event_tick_split(sorted, x, j as int);
            let t = sorted.take(j as int);
            if j > 0 {
                assert(t.last() == sorted[j - 1]);
            } else {
                assert(t =~= Seq::<MidiDisplayEvent>::empty());
            }
            assert(insert_by_event_tick(t, x) == t.push(x));
        }
        i = i + 1;
    }
    assert(s0.take(n as int) =~= s0);
    out
}

/// Reads the notes of a MIDI file for display; see `display_events_of`.
pub fn read_display_events(data: &[u8]) -> (r: Vec<MidiDisplayEvent>)
    ensures
        r@ == display_events_of(data@),
{
    if data.len() < 14 || !(data[0] == 0x4d && data[1] == 0x54 && data[2] == 0x68 && data[3] == 0x64) {
        proof {
            if data@.len() >= 14 && has_tag(data@, 0, mthd()) {
                assert(data@.subrange(0, 4)[0] == mthd()[0]);
                assert(data@.subrange(0, 4)[1] == mthd()[1]);
                assert(data@.subrange(0, 4)[2] == mthd()[2]);
                assert(data@.subrange(0, 4)[3] == mthd()[3]);
            }
        }
        return Vec::new();
    }
    assert(data@.subrange(0, 4) =~= mthd());
    let ghost d = data@;
    let header_len: u64 = (((data[4] as u64) * 256 + (data[5] as u64)) * 256 + (data[6] as u64)) * 256
        + (data[7] as u64);
    let mut evs: Vec<MidiDisplayEvent> = Vec::new();
    let mut track: usize = 0;
    if header_len + 8 <= data.len() as u64 {
        let mut pos: usize = (8 + header_len) as usize;
        while pos <= data.len() - 8 && track < usize::MAX && data[pos] == 0x4d && data[pos + 1] == 0x54
            && data[pos + 2] == 0x72 && data[pos + 3] == 0x6b
            invariant
                d == data@,
                pos <= data@.len(),
                data@.len() >= 14,
                dv_tracks(d, (8 + be32(d, 4)) as int, 0, Seq::empty()) == dv_tracks(d, pos as int, track, evs@),
            decreases data@.len() - pos,
        {
            assert(data@.subrange(pos as int, pos + 4) =~= mtrk());
            let length: u64 = (((data[pos + 4] as u64) * 256 + (data[pos + 5] as u64)) * 256 + (data[pos
                + 6] as u64)) * 256 + (data[pos + 7] as u64);
            let start = pos + 8;
            let end = if length > (data.len() - start) as u64 { data.len() } else { start + length as usize };
            let ghost e_start = evs@;
            let mut p = start;
            let mut tick: u64 = 0;
            let mut running: u8 = 0;
            while p < end
                invariant
                    start <= p <= end,
                    end <= data@.len(),
                    d == data@,
                    dv_track(d, start as int, end as int, 0, 0, track, e_start) == dv_track(
                        d,
                        p as int,
                        end as int,
                        tick,
                        running,
                        track,
                        evs@,
                    ),
                ensures
                    dv_track(d, start as int, end as int, 0, 0, track, e_start) == evs@,
                decreases end - p,
            {
                match dv_step_exec(data, p, end, tick, running, track) {
                    None => {
                        break;
                    },
                    Some((q, t, rr, e)) => {
                        match e {
                            Some(x) => {
                                evs.push(x);
                            },
                            None => {},
                        }
                        p = q;
                        tick = t;
                        running = rr;
                    },
                }
            }
            pos = end;
            track = track + 1;
        }
        proof {
            if pos + 8 <= data@.len() && track < usize::MAX {
                if has_tag(d, pos as int, mtrk()) {
                    assert(data@.subrange(pos as int, pos + 4)[0] == mtrk()[0]);
                    assert(data@.subrange(pos as int, pos + 4)[1] == mtrk()[1]);
                    assert(data@.subrange(pos as int, pos + 4)[2] == mtrk()[2]);
                    assert(data@.subrange(pos as int, pos + 4)[3] == mtrk()[3]);
                }
            }
        }
    }
    sort_by_event_tick_exec(&evs)
}


// ---------------------------------------------------------------------------
// Sounding notes per track
// ---------------------------------------------------------------------------

/// The notes of a track, none when it has no entry.
pub open spec fn notes_of(m: Map<usize, Set<u8>>, track: usize) -> Set<u8> {
    if m.contains_key(track) {
        m[track]
    } else {
        Set::empty()
    }
}

/// Makes sure the map has an entry for `key`.
pub open spec fn with_key(m: Map<usize, Set<u8>>, key: usize) -> Map<usize, Set<u8>> {
    if m.contains_key(key) {
        m
    } else {
        m.insert(key, Set::empty())
    }
}

/// A note-on adds the key to its track's set, a note-off removes it; the
/// track gets an entry either way.
pub open spec fn apply_note(m: Map<usize, Set<u8>>, track: usize, key: u8, on: bool) -> Map<usize, Set<u8>> {
    m.insert(
        track,
        if on {
            notes_of(m, track).insert(key)
        } else {
            notes_of(m, track).remove(key)
        },
    )
}

fn apply_note_exec(m: &mut BTreeMap<usize, BTreeSet<u8>>, track: usize, key: u8, on: bool)
    ensures
        notes_model(*final(m)) == apply_note(notes_model(*old(m)), track, key, on),
{
    let ghost mv = notes_model(*m);
    let mut notes = match take_entry(m, track) {
        Some(s) => s,
        None => BTreeSet::new(),
    };
    assert(notes@ == notes_of(mv, track));
    if on {
        note_insert(&mut notes, key);
    } else {
        note_remove(&mut notes, key);
    }
    put_entry(m, track, notes);
    assert(notes_model(*m) =~= apply_note(mv, track, key, on));
}

fn with_key_exec(m: &mut BTreeMap<usize, BTreeSet<u8>>, track: usize)
    ensures
        notes_model(*final(m)) == with_key(notes_model(*old(m)), track),
{
    let ghost mv = notes_model(*m);
    if get_entry(m, track).is_none() {
        put_entry(m, track, BTreeSet::new());
        assert(notes_model(*m) =~= with_key(mv, track));
    }
}

/// The sounding notes of each track after the first `n` events.
pub open spec fn midi_active(evs: Seq<MidiDisplayEvent>, n: int) -> Map<usize, Set<u8>>
    decreases n,
{
    if n <= 0 || n > evs.len() {
        Map::empty()
    } else {
        let e = evs[n - 1];
        apply_note(midi_active(evs, n - 1), e.track, e.key, e.on)
    }
}

/// Number of leading events at or before `tick`, counting from `i`.
pub open spec fn tick_prefix(evs: Seq<MidiDisplayEvent>, tick: u64, i: int) -> int
    decreases evs.len() - i,
{
    if i < 0 || i >= evs.len() || evs[i].tick > tick {
        i
    } else {
        tick_prefix(evs, tick, i + 1)
    }
}

/// The notes sounding on each track at `tick`: the leading events at or
/// before `tick` applied in order.
pub fn active_midi_notes(events: &[MidiDisplayEvent], tick: u64) -> (r: BTreeMap<usize, BTreeSet<u8>>)
    ensures
        notes_model(r) == midi_active(events@, tick_prefix(events@, tick, 0)),
{
    let mut m: BTreeMap<usize, BTreeSet<u8>> = BTreeMap::new();
    let mut i: usize = 0;
    assert(notes_model(m) =~= midi_active(events@, 0));
    while i < events.len() && events[i].tick <= tick
        invariant
            0 <= i <= events@.len(),
            tick_prefix(events@, tick, 0) == tick_prefix(events@, tick, i as int),
            notes_model(m) == midi_active(events@, i as int),
        decreases events@.len() - i,
    {
        let e = events[i];
        apply_note_exec(&mut m, e.track, e.key, e.on);
        i = i + 1;
    }
    m
}

/// Tracks of the first `n` events of a score, by channel.
pub open spec fn score_channels(evs: Seq<ScheduledNote>, n: int) -> Map<usize, Set<u8>>
    decreases n,
{
    if n <= 0 || n > evs.len() {
        Map::empty()
    } else {
        with_key(score_channels(evs, n - 1), evs[n - 1].channel as usize)
    }
}

/// `base` with the first `n` events of a score applied.
pub open spec fn score_active(evs: Seq<ScheduledNote>, n: int, base: Map<usize, Set<u8>>) -> Map<usize, Set<u8>>
    decreases n,
{
    if n <= 0 || n > evs.len() {
        base
    } else {
        let e = evs[n - 1];
        apply_note(score_active(evs, n - 1, base), e.channel as usize, e.key, e.on)
    }
}

/// Number of leading events at or before `at_ms`, counting from `i`.
pub open spec fn time_prefix(evs: Seq<ScheduledNote>, at_ms: i64, i: int) -> int
    decreases evs.len() - i,
{
    if i < 0 || i >= evs.len() || evs[i].at_ms > at_ms {
        i
    } else {
        time_prefix(evs, at_ms, i + 1)
    }
}

/// The notes sounding on each channel of a score at `at_ms`; every channel
/// of the score has an entry, sounding or not.
pub fn active_score_notes(events: &[ScheduledNote], at_ms: i64) -> (r: BTreeMap<usize, BTreeSet<u8>>)
    ensures
        notes_model(r) == score_active(
            events@,
            time_prefix(events@, at_ms, 0),
            score_channels(events@, events@.len() as int),
        ),
{
    let mut m: BTreeMap<usize, BTreeSet<u8>> = BTreeMap::new();
    let mut i: usize = 0;
    assert(notes_model(m) =~= score_channels(events@, 0));
    while i < events.len()
        invariant
            0 <= i <= events@.len(),
            notes_model(m) == score_channels(events@, i as int),
        decreases events@.len() - i,
    {
        with_key_exec(&mut m, events[i].channel as usize);
        i = i + 1;
    }
    let ghost base = notes_model(m);
    let mut j: usize = 0;
    while j < events.len() && (events[j].at_ms as i64) <= at_ms
        invariant
            0 <= j <= events@.len(),
            base == score_channels(events@, events@.len() as int),
            time_prefix(events@, at_ms, 0) == time_prefix(events@, at_ms, j as int),
            notes_model(m) == score_active(events@, j as int, base),
        decreases events@.len() - j,
    {
        let e = events[j];
        apply_note_exec(&mut m, e.channel as usize, e.key, e.on);
        j = j + 1;
    }
    m
}

// ---------------------------------------------------------------------------
// Lines of text
// ---------------------------------------------------------------------------

/// Note names separated by spaces.
pub open spec fn join_names(s: Seq<u8>) -> Seq<char>
    decreases s.len(),
{
    if s.len() == 0 {
        Seq::empty()
    } else if s.len() == 1 {
        note_name(s[0])
    } else {
        join_names(s.drop_last()) + " "@ + note_name(s.last())
    }
}

/// The sounding notes, or `x` when none sounds.
pub open spec fn notes_text(s: Seq<u8>) -> Seq<char> {
    if s.len() == 0 {
        "x"@
    } else {
        join_names(s)
    }
}

fn notes_text_exec(s: &Vec<u8>) -> (r: Vec<char>)
    ensures
        r@ == notes_text(s@),
{
    if s.len() == 0 {
        return chars_of("x");
    }
    let mut r = midi_note_name_chars(s[0]);
    let mut i: usize = 1;
    assert(s@.take(1).drop_last() =~= Seq::<u8>::empty());
    while i < s.len()
        invariant
            1 <= i <= s@.len(),
            r@ == join_names(s@.take(i as int)),
        decreases s@.len() - i,
    {
        assert(s@.take(i + 1).drop_last() =~= s@.take(i as int));
        append(&mut r, &chars_of(" "));
        append(&mut r, &midi_note_name_chars(s[i]));
        i = i + 1;
    }
    assert(s@.take(s@.len() as int) =~= s@);
    r
}

/// The notes of a set in ascending order, as text.
fn set_text_exec(s: &BTreeSet<u8>) -> (r: Vec<char>)
    ensures
        r@ == notes_text(sorted_notes(s@)),
{
    notes_text_exec(&notes_in_order(s))
}

pub open spec fn score_track_line(channel: usize, notes: Set<u8>) -> Seq<char> {
    "轨道 "@ + dec_str((channel + 1) as nat) + ": "@ + notes_text(sorted_notes(notes))
}

/// One line per channel, in ascending order of channel:
/// `轨道 {channel + 1}: {notes}`.
pub fn score_tracks_text(active: &BTreeMap<usize, BTreeSet<u8>>) -> (r: Vec<String>)
    requires
        forall|k: usize| active@.contains_key(k) ==> k < u64::MAX,
    ensures
        r@.len() == sorted_keys(active@.dom()).len(),
        forall|i: int|
            0 <= i < r@.len() ==> (#[trigger] r@[i])@ == score_track_line(
                sorted_keys(active@.dom())[i],
                notes_model(*active)[sorted_keys(active@.dom())[i]],
            ),
{
    let ks = keys_in_order(active);
    let mut r: Vec<String> = Vec::new();
    let mut i: usize = 0;
    while i < ks.len()
        invariant
            0 <= i <= ks@.len(),
            ks@ == sorted_keys(active@.dom()),
            ks@.to_set() == active@.dom(),
            forall|k: usize| active@.contains_key(k) ==> k < u64::MAX,
            r@.len() == i,
            forall|a: int|
                0 <= a < i ==> (#[trigger] r@[a])@ == score_track_line(ks@[a], notes_model(*active)[ks@[a]]),
        decreases ks@.len() - i,
    {
        let k = ks[i];
        assert(ks@.to_set().contains(k));
        let mut line = chars_of("轨道 ");
        append(&mut line, &dec_exec(k as u64 + 1));
        append(&mut line, &chars_of(": "));
        match get_entry(active, k) {
            Some(notes) => append(&mut line, &set_text_exec(notes)),
            None => {
                assert(false);
            },
        }
        r.push(string_from_chars(line.as_slice()));
        i = i + 1;
    }
    r
}

pub open spec fn midi_track_line(index: int, track: usize, main: Option<usize>, active: Map<usize, Set<u8>>) -> Seq<char> {
    (if main == Some(track) {
        "主旋律"@
    } else {
        "轨道"@
    }) + " "@ + dec_str((index + 1) as nat) + ": "@ + notes_text(sorted_notes(notes_of(active, track)))
}

fn notes_of_exec(active: &BTreeMap<usize, BTreeSet<u8>>, track: usize) -> (r: Vec<char>)
    ensures
        r@ == notes_text(sorted_notes(notes_of(notes_model(*active), track))),
{
    match get_entry(active, track) {
        Some(notes) => set_text_exec(notes),
        None => {
            let e: BTreeSet<u8> = BTreeSet::new();
            set_text_exec(&e)
        },
    }
}

/// One line per track of the file, numbered from 1: `主旋律` for the main
/// track, `轨道` for the others, then the notes sounding on it.
pub fn midi_tracks_text(active: &BTreeMap<usize, BTreeSet<u8>>, tracks: &[usize], main_track: Option<usize>) -> (r: Vec<String>)
    ensures
        r@.len() == tracks@.len(),
        forall|k: int| 0 <= k < tracks@.len() ==> (#[trigger] r@[k])@ == midi_track_line(
            k,
            tracks@[k],
            main_track,
            notes_model(*active),
        ),
{
    let mut r: Vec<String> = Vec::new();
    let mut i: usize = 0;
    while i < tracks.len()
        invariant
            0 <= i <= tracks@.len(),
            r@.len() == i,
            forall|k: int| 0 <= k < i ==> (#[trigger] r@[k])@ == midi_track_line(
                k,
                tracks@[k],
                main_track,
                notes_model(*active),
            ),
        decreases tracks@.len() - i,
    {
        let t = tracks[i];
        let mut line = if main_track == Some(t) { chars_of("主旋律") } else { chars_of("轨道") };
        append(&mut line, &chars_of(" "));
        append(&mut line, &dec_exec(i as u64 + 1));
        append(&mut line, &chars_of(": "));
        append(&mut line, &notes_of_exec(active, t));
        r.push(string_from_chars(line.as_slice()));
        i = i + 1;
    }
    r
}

// ---------------------------------------------------------------------------
// Track statistics
// ---------------------------------------------------------------------------

/// What the choice of a file's main track weighs, for one track: its
/// note-ons, the sum of their keys, and the most notes sounding at once.
#[derive(Clone, Copy)]
pub struct TrackStat {
    pub track: usize,
    pub notes: u32,
    pub key_sum: u64,
    pub max_poly: u32,
}

/// Per track: (note-ons, key sum, most notes at once, notes sounding).
pub type StatModel = (nat, nat, nat, Set<u8>);

pub open spec fn stat_of(m: Map<usize, StatModel>, track: usize) -> StatModel {
    if m.contains_key(track) {
        m[track]
    } else {
        (0, 0, 0, Set::empty())
    }
}

pub open spec fn stat_apply(m: Map<usize, StatModel>, e: MidiDisplayEvent) -> Map<usize, StatModel> {
    let st = stat_of(m, e.track);
    m.insert(
        e.track,
        if e.on {
            let a = st.3.insert(e.key);
            (st.0 + 1, (st.1 + e.key) as nat, if a.len() > st.2 {
                a.len()
            } else {
                st.2
            }, a)
        } else {
            (st.0, st.1, st.2, st.3.remove(e.key))
        },
    )
}

pub open spec fn stats_fold(evs: Seq<MidiDisplayEvent>, n: int) -> Map<usize, StatModel>
    decreases n,
{
    if n <= 0 || n > evs.len() {
        Map::empty()
    } else {
        stat_apply(stats_fold(evs, n - 1), evs[n - 1])
    }
}

pub open spec fn stat_model(m: BTreeMap<usize, (u32, u64, u32, BTreeSet<u8>)>) -> Map<usize, StatModel> {
    m@.map_values(|e: (u32, u64, u32, BTreeSet<u8>)| (e.0 as nat, e.1 as nat, e.2 as nat, e.3@))
}

pub open spec fn stat_bounded(st: StatModel, n: nat) -> bool {
    st.0 <= n && st.3.finite() && st.3.len() <= st.0 && st.2 <= st.0 && st.1 <= 255 * st.0
}

/// For each track with a note event, in ascending order of track: its
/// note-ons, the sum of their keys, and the most notes sounding at once,
/// the events taken in order.
pub fn track_stats(events: &[MidiDisplayEvent]) -> (r: Vec<TrackStat>)
    requires
        events@.len() <= u32::MAX,
    ensures
        ({
            let m = stats_fold(events@, events@.len() as int);
            let ks = sorted_keys(m.dom());
            &&& r@.len() == ks.len()
            &&& forall|k: int|
                0 <= k < r@.len() ==> {
                    &&& (#[trigger] r@[k]).track == ks[k]
                    &&& r@[k].notes == m[ks[k]].0
                    &&& r@[k].key_sum == m[ks[k]].1
                    &&& r@[k].max_poly == m[ks[k]].2
                }
        }),
{
    let mut m: BTreeMap<usize, (u32, u64, u32, BTreeSet<u8>)> = BTreeMap::new();
    let mut i: usize = 0;
    assert(stat_model(m) =~= stats_fold(events@, 0));
    while i < events.len()
        invariant
            0 <= i <= events@.len(),
            events@.len() <= u32::MAX,
            stat_model(m) == stats_fold(events@, i as int),
            forall|t: usize| stat_model(m).contains_key(t) ==> stat_bounded(#[trigger] stat_model(m)[t], i as nat),
        decreases events@.len() - i,
    {
        let e = events[i];
        let ghost mv = stat_model(m);
        let st = match take_entry(&mut m, e.track) {
            Some(st) => st,
            None => (0u32, 0u64, 0u32, BTreeSet::new()),
        };
        let ghost old_st: StatModel = (st.0 as nat, st.1 as nat, st.2 as nat, st.3@);
        assert(old_st == stat_of(mv, e.track));
        assert(stat_bounded(old_st, i as nat));
        let (mut n, mut sum, mut poly, mut act) = st;
        if e.on {
            note_insert(&mut act, e.key);
            n = n + 1;
            sum = sum + e.key as u64;
            let c = note_count(&act);
            if c as u64 > poly as u64 {
                poly = c as u32;
            }
        } else {
            note_remove(&mut act, e.key);
        }
        put_entry(&mut m, e.track, (n, sum, poly, act));
        proof {
            assert(stat_model(m) =~= stat_apply(mv, e));
            assert(stats_fold(events@, i + 1) == stat_apply(stats_fold(events@, i as int), e));
            assert forall|t: usize| stat_model(m).contains_key(t) implies stat_bounded(#[trigger] stat_model(m)[t], (i + 1) as nat) by {
                if t != e.track {
                    assert(stat_model(m)[t] == mv[t]);
                }
            }
        }
        i = i + 1;
    }
    let ghost fm = stats_fold(events@, events@.len() as int);
    let ks = keys_in_order(&m);
    let mut r: Vec<TrackStat> = Vec::new();
    let mut k: usize = 0;
    while k < ks.len()
        invariant
            0 <= k <= ks@.len(),
            fm == stat_model(m),
            ks@ == sorted_keys(m@.dom()),
            ks@.to_set() == m@.dom(),
            r@.len() == k,
            forall|a: int|
                0 <= a < k ==> {
                    &&& (#[trigger] r@[a]).track == ks@[a]
                    &&& r@[a].notes == fm[ks@[a]].0
                    &&& r@[a].key_sum == fm[ks@[a]].1
                    &&& r@[a].max_poly == fm[ks@[a]].2
                },
        decreases ks@.len() - k,
    {
        let t = ks[k];
        assert(ks@.to_set().contains(t));
        match get_entry(&m, t) {
            Some(st) => {
                r.push(TrackStat { track: t, notes: st.0, key_sum: st.1, max_poly: st.2 });
            },
            None => {
                assert(false);
            },
        }
        k = k + 1;
    }
    assert(m@.dom() == fm.dom());
    r
}

/// How a channel event is read for display, by its status byte (given or
/// running): program change and channel pressure take one data byte and
/// play nothing; a note-on or note-off takes two (key, velocity) and gives
/// that key, sounding when it is a note-on of velocity above 0. A
/// running-status event is the same event without its status byte.
pub proof fn lemma_display_event_sizes(d: Seq<u8>, pos: int, end: int, tick: u64, running: u8, track: usize)
    requires
        vlq(d, pos, end, 0, 0) is Some,
        vlq(d, pos, end, 0, 0)->Some_0.1 < end <= d.len(),
    ensures
        ({
            let (delta, p1) = vlq(d, pos, end, 0, 0)->Some_0;
            let t = wrap64(tick + delta);
            let r = dv_step(d, pos, end, tick, running, track);
            &&& (0xc0 <= d[p1] < 0xe0 && p1 + 1 < end) ==> r == Some((p1 + 2, t, d[p1], None::<MidiDisplayEvent>))
            &&& (d[p1] < 0x80 && 0xc0 <= running < 0xe0) ==> r == Some((p1 + 1, t, running, None::<MidiDisplayEvent>))
            &&& (0x80 <= d[p1] < 0xa0 && p1 + 2 < end) ==> r == Some(
                (
                    p1 + 3,
                    t,
                    d[p1],
                    Some(MidiDisplayEvent { tick: t, track, key: d[p1 + 1], on: d[p1] >= 0x90 && d[p1 + 2] != 0 }),
                ),
            )
            &&& (d[p1] < 0x80 && 0x80 <= running < 0xa0 && p1 + 1 < end) ==> r == Some(
                (
                    p1 + 2,
                    t,
                    running,
                    Some(MidiDisplayEvent { tick: t, track, key: d[p1], on: running >= 0x90 && d[p1 + 1] != 0 }),
                ),
            )
        }),
{
}
} // verus!
