//! Decisions of interactive score playback: what to schedule from a
//! playhead, and how the playhead answers keys and the passing of time.
use vstd::prelude::*;
use crate::score::ScheduledNote;
use crate::synth::{selection, selection_at, ProgramSwitch};
use crate::keyed::{ascending_keys, get_entry, keys_in_order, put_entry, sorted_keys, take_entry};
use std::collections::BTreeMap;

verus! {

/// One step of scheduling a score from a playhead. Times `rel` are
/// milliseconds after the moment the schedule is made.
#[derive(Debug, Clone, Copy, PartialEq, Eq, Structural)]
pub enum Cue {
    /// Select this instrument on every channel of the score at once.
    Select(ProgramSwitch),
    /// Switch every channel to this instrument `rel` ms from now.
    SwitchAt(ProgramSwitch, u32),
    /// Switch one channel now, before a held note sounds again.
    SwitchChannel(u8, ProgramSwitch),
    /// Switch every channel now.
    SwitchNow(ProgramSwitch),
    /// A note-on (`true`) or note-off `rel` ms from now: channel, key,
    /// velocity, time, on.
    Note(u8, u8, u8, u32, bool),
}

/// Switches strictly after the playhead, in list order, with their delay.
pub open spec fn future_switches(sw: Seq<ProgramSwitch>, playhead: u32) -> Seq<Cue>
    decreases sw.len(),
{
    if sw.len() == 0 {
        Seq::empty()
    } else {
        let rest = future_switches(sw.drop_last(), playhead);
        let s = sw.last();
        if s.at_ms > playhead {
            rest.push(Cue::SwitchAt(s, (s.at_ms - playhead) as u32))
        } else {
            rest
        }
    }
}

/// Events at or after the playhead, in list order, with their delay.
pub open spec fn future_notes(evs: Seq<ScheduledNote>, playhead: u32) -> Seq<Cue>
    decreases evs.len(),
{
    if evs.len() == 0 {
        Seq::empty()
    } else {
        let rest = future_notes(evs.drop_last(), playhead);
        let e = evs.last();
        if e.at_ms >= playhead {
            rest.push(Cue::Note(e.channel, e.key, e.vel, (e.at_ms - playhead) as u32, e.on))
        } else {
            rest
        }
    }
}

/// Number of leading events before the playhead, counting from `i`.
pub open spec fn before_playhead(evs: Seq<ScheduledNote>, playhead: u32, i: int) -> int
    decreases evs.len() - i,
{
    if i < 0 || i >= evs.len() || evs[i].at_ms >= playhead {
        i
    } else {
        before_playhead(evs, playhead, i + 1)
    }
}

/// Key of a (channel, key) pair: pairs order as their keys do.
pub open spec fn note_slot(channel: u8, key: u8) -> usize {
    (channel * 256 + key) as usize
}

/// The stack of a slot, empty when it has no entry.
pub open spec fn stack_of(m: Map<usize, Seq<(u8, u32)>>, k: usize) -> Seq<(u8, u32)> {
    if m.contains_key(k) {
        m[k]
    } else {
        Seq::empty()
    }
}

/// Notes held at the playhead: per (channel, key), a stack of (velocity,
/// start) of note-ons not yet ended; a note-off ends the latest, and a slot
/// whose stack empties leaves the map.
pub open spec fn held_apply(m: Map<usize, Seq<(u8, u32)>>, e: ScheduledNote) -> Map<usize, Seq<(u8, u32)>> {
    let k = note_slot(e.channel, e.key);
    if e.on {
        m.insert(k, stack_of(m, k).push((e.vel, e.at_ms)))
    } else if m.contains_key(k) {
        let s = m[k].drop_last();
        if s.len() == 0 {
            m.remove(k)
        } else {
            m.insert(k, s)
        }
    } else {
        m
    }
}

pub open spec fn held_fold(evs: Seq<ScheduledNote>, n: int) -> Map<usize, Seq<(u8, u32)>>
    decreases n,
{
    if n <= 0 || n > evs.len() {
        Map::empty()
    } else {
        held_apply(held_fold(evs, n - 1), evs[n - 1])
    }
}

/// For one held stack: the channel's instrument at the note's start, then
/// the note again.
pub open spec fn stack_cues(
    slot: usize,
    st: Seq<(u8, u32)>,
    sf: usize,
    ins: u8,
    sw: Seq<ProgramSwitch>,
) -> Seq<Cue>
    decreases st.len(),
{
    if st.len() == 0 {
        Seq::empty()
    } else {
        let (vel, started) = st.last();
        let channel = (slot / 256) as u8;
        let key = (slot % 256) as u8;
        stack_cues(slot, st.drop_last(), sf, ins, sw) + seq![
            Cue::SwitchChannel(channel, selection(sf, ins, sw, started)),
            Cue::Note(channel, key, vel, 0, true),
        ]
    }
}

/// The cues of the held stacks, slot by slot in the order of `slots`.
pub open spec fn held_cues(
    h: Map<usize, Seq<(u8, u32)>>,
    slots: Seq<usize>,
    sf: usize,
    ins: u8,
    sw: Seq<ProgramSwitch>,
) -> Seq<Cue>
    decreases slots.len(),
{
    if slots.len() == 0 {
        Seq::empty()
    } else {
        held_cues(h, slots.drop_last(), sf, ins, sw) + stack_cues(slots.last(), h[slots.last()], sf, ins, sw)
    }
}

/// What playing from `playhead` schedules: the instrument in force there;
/// the later switches; each note still held there, in ascending order of
/// (channel, key), sounded again under its starting instrument, then the
/// instrument in force restored; every event from the playhead on.
pub open spec fn schedule_plan(
    evs: Seq<ScheduledNote>,
    sf: usize,
    ins: u8,
    sw: Seq<ProgramSwitch>,
    playhead: u32,
) -> Seq<Cue> {
    let sel = selection(sf, ins, sw, playhead);
    let held = held_fold(evs, before_playhead(evs, playhead, 0));
    let slots = sorted_keys(held.dom());
    seq![Cue::Select(sel)] + future_switches(sw, playhead) + held_cues(held, slots, sf, ins, sw) + (if slots.len()
        > 0 {
        seq![Cue::SwitchNow(sel)]
    } else {
        Seq::empty()
    }) + future_notes(evs, playhead)
}

pub open spec fn stacks_nonempty(m: Map<usize, Seq<(u8, u32)>>) -> bool {
    forall|k: usize| m.contains_key(k) ==> (#[trigger] m[k]).len() > 0
}

pub open spec fn held_model(m: BTreeMap<usize, Vec<(u8, u32)>>) -> Map<usize, Seq<(u8, u32)>> {
    m@.map_values(|v: Vec<(u8, u32)>| v@)
}

fn held_apply_exec(m: &mut BTreeMap<usize, Vec<(u8, u32)>>, e: ScheduledNote)
    requires
        stacks_nonempty(held_model(*old(m))),
    ensures
        held_model(*final(m)) == held_apply(held_model(*old(m)), e),
        stacks_nonempty(held_model(*final(m))),
{
    let ghost mv = held_model(*m);
    let k: usize = e.channel as usize * 256 + e.key as usize;
    assert(k == note_slot(e.channel, e.key));
    match take_entry(m, k) {
        Some(mut st) => {
            assert(st@ == mv[k]);
            if e.on {
                st.push((e.vel, e.at_ms));
                put_entry(m, k, st);
            } else {
                st.pop();
                assert(st@ =~= mv[k].drop_last());
                if st.len() > 0 {
                    put_entry(m, k, st);
                }
            }
        },
        None => {
            if e.on {
                let mut st: Vec<(u8, u32)> = Vec::new();
                st.push((e.vel, e.at_ms));
                assert(st@ =~= stack_of(mv, k).push((e.vel, e.at_ms)));
                put_entry(m, k, st);
            }
        },
    }
    assert(held_model(*m) =~= held_apply(mv, e));
}

/// The cues of scheduling a score from `playhead`; see `schedule_plan`.
pub fn plan_schedule(
    events: &[ScheduledNote],
    initial_soundfont: usize,
    initial_instrument: u8,
    switches: &[ProgramSwitch],
    playhead: u32,
) -> (r: Vec<Cue>)
    ensures
        r@ == schedule_plan(events@, initial_soundfont, initial_instrument, switches@, playhead),
{
    let sel = selection_at(initial_soundfont, initial_instrument, switches, playhead);
    let mut out: Vec<Cue> = Vec::new();
    out.push(Cue::Select(sel));
    let ghost p1 = out@;
    assert(p1 =~= seq![Cue::Select(sel)]);
    let mut i: usize = 0;
    while i < switches.len()
        invariant
            0 <= i <= switches@.len(),
            out@ == p1 + future_switches(switches@.take(i as int), playhead),
        decreases switches@.len() - i,
    {
        assert(switches@.take(i + 1).drop_last() =~= switches@.take(i as int));
        let s = switches[i];
        if s.at_ms > playhead {
            out.push(Cue::SwitchAt(s, s.at_ms - playhead));
        }
        i = i + 1;
    }
    assert(switches@.take(switches@.len() as int) =~= switches@);
    let ghost p2 = out@;
    let mut held: BTreeMap<usize, Vec<(u8, u32)>> = BTreeMap::new();
    let mut j: usize = 0;
    assert(held_model(held) =~= held_fold(events@, 0));
    while j < events.len() && events[j].at_ms < playhead
        invariant
            0 <= j <= events@.len(),
            before_playhead(events@, playhead, 0) == before_playhead(events@, playhead, j as int),
            held_model(held) == held_fold(events@, j as int),
            stacks_nonempty(held_model(held)),
        decreases events@.len() - j,
    {
        held_apply_exec(&mut held, events[j]);
        j = j + 1;
    }
    let ghost hv = held_model(held);
    let slots = keys_in_order(&held);
    let mut h: usize = 0;
    while h < slots.len()
        invariant
            0 <= h <= slots@.len(),
            hv == held_model(held),
            slots@.to_set() == held@.dom(),
            out@ == p2 + held_cues(hv, slots@.take(h as int), initial_soundfont, initial_instrument, switches@),
        decreases slots@.len() - h,
    {
        assert(slots@.take(h + 1).drop_last() =~= slots@.take(h as int));
        let slot = slots[h];
        assert(slots@.to_set().contains(slot));
        let ghost base = out@;
        match get_entry(&held, slot) {
            Some(st) => {
                assert(st@ == hv[slot]);
                let mut k: usize = 0;
                while k < st.len()
                    invariant
                        0 <= k <= st@.len(),
                        out@ == base + stack_cues(slot, st@.take(k as int), initial_soundfont, initial_instrument, switches@),
                    decreases st@.len() - k,
                {
                    assert(st@.take(k + 1).drop_last() =~= st@.take(k as int));
                    let (vel, started) = st[k];
                    let channel: u8 = (slot / 256) as u8;
                    let key: u8 = (slot % 256) as u8;
                    let onset = selection_at(initial_soundfont, initial_instrument, switches, started);
                    let ghost before = out@;
                    out.push(Cue::SwitchChannel(channel, onset));
                    out.push(Cue::Note(channel, key, vel, 0, true));
                    assert(out@ =~= before + seq![
                        Cue::SwitchChannel(channel, onset),
                        Cue::Note(channel, key, vel, 0, true),
                    ]);
                    k = k + 1;
                }
                assert(st@.take(st@.len() as int) =~= st@);
            },
            None => {
                assert(false);
            },
        }
        h = h + 1;
    }
    assert(slots@.take(slots@.len() as int) =~= slots@);
    assert(hv == held_fold(events@, before_playhead(events@, playhead, 0)));
    assert(held@.dom() == hv.dom());
    if slots.len() > 0 {
        out.push(Cue::SwitchNow(sel));
    }
    let ghost p3 = out@;
    let mut e: usize = 0;
    while e < events.len()
        invariant
            0 <= e <= events@.len(),
            out@ == p3 + future_notes(events@.take(e as int), playhead),
        decreases events@.len() - e,
    {
        assert(events@.take(e + 1).drop_last() =~= events@.take(e as int));
        let ev = events[e];
        if ev.at_ms >= playhead {
            out.push(Cue::Note(ev.channel, ev.key, ev.vel, ev.at_ms - playhead, ev.on));
        }
        e = e + 1;
    }
    assert(events@.take(events@.len() as int) =~= events@);
    out
}

/// The channels of a score's events, each once, ascending.
pub open spec fn channels_below(evs: Seq<ScheduledNote>, n: nat) -> Seq<u8>
    decreases n,
{
    if n == 0 {
        Seq::empty()
    } else {
        let c = (n - 1) as u8;
        channels_below(evs, (n - 1) as nat) + if exists|k: int| 0 <= k < evs.len() && #[trigger] evs[k].channel == c {
            seq![c]
        } else {
            Seq::empty()
        }
    }
}

pub fn score_channels(events: &[ScheduledNote]) -> (r: Vec<u8>)
    ensures
        r@ == channels_below(events@, 256),
{
    let mut seen: Vec<bool> = Vec::new();
    let mut c: usize = 0;
    while c < 256
        invariant
            0 <= c <= 256,
            seen@.len() == c,
            forall|k: int| 0 <= k < c ==> !seen@[k],
        decreases 256 - c,
    {
        seen.push(false);
        c = c + 1;
    }
    let mut i: usize = 0;
    while i < events.len()
        invariant
            0 <= i <= events@.len(),
            seen@.len() == 256,
            forall|c: int| 0 <= c < 256 ==> (#[trigger] seen@[c] <==> exists|k: int| 0 <= k < i && events@[k].channel == c),
        decreases events@.len() - i,
    {
        let ch = events[i].channel as usize;
        seen.set(ch, true);
        proof {
            assert forall|c: int| 0 <= c < 256 implies (#[trigger] seen@[c] <==> exists|k: int| 0 <= k < i + 1 && events@[k].channel == c) by {
                if c == ch {
                    assert(events@[i as int].channel == c);
                }
            }
        }
        i = i + 1;
    }
    let mut r: Vec<u8> = Vec::new();
    let mut c: usize = 0;
    while c < 256
        invariant
            0 <= c <= 256,
            seen@.len() == 256,
            forall|c: int| 0 <= c < 256 ==> (#[trigger] seen@[c] <==> exists|k: int| 0 <= k < events@.len() && events@[k].channel == c),
            r@ == channels_below(events@, c as nat),
        decreases 256 - c,
    {
        if seen[c] {
            let ghost w = choose|k: int| 0 <= k < events@.len() && events@[k].channel == c;
            assert(events@[w].channel == (c as u8));
            r.push(c as u8);
        } else {
            assert(!exists|k: int| 0 <= k < events@.len() && #[trigger] events@[k].channel == (c as u8)) by {
                if exists|k: int| 0 <= k < events@.len() && #[trigger] events@[k].channel == (c as u8) {
                    let w = choose|k: int| 0 <= k < events@.len() && #[trigger] events@[k].channel == (c as u8);
                    assert(events@[w].channel == c);
                }
            }
        }
        c = c + 1;
    }
    r
}


// ---------------------------------------------------------------------------
// The playhead
// ---------------------------------------------------------------------------

/// The state of interactive playback: the playhead (ms into the piece) as of
/// the sequencer time `anchor`, and whether it is paused or looping.
#[derive(Debug, Clone, Copy, PartialEq, Eq, Structural)]
pub struct PlayState {
    pub playhead: i64,
    pub paused: bool,
    pub looping: bool,
    pub anchor: u32,
}

/// A command during playback.
#[derive(Debug, Clone, Copy, PartialEq, Eq, Structural)]
pub enum PlayInput {
    /// Pause, or resume when paused.
    Pause,
    /// Resume when paused.
    Play,
    /// Resume, whatever the state (a click on the status row while paused).
    Start,
    Loop,
    /// Move by this many milliseconds from the current position.
    SeekBy(i32),
    /// Move to this position (ms).
    SeekTo(i64),
    VolumeDown,
    VolumeUp,
    Quit,
}

/// What the player does after a command.
#[derive(Debug, Clone, Copy, PartialEq, Eq, Structural)]
pub enum PlayAction {
    Nothing,
    /// Silence, then schedule from the playhead; the schedule's base time
    /// becomes the anchor.
    Resume,
    /// Clear the schedule and silence.
    Suspend,
    /// Clear the schedule and silence, then schedule from the new playhead;
    /// the schedule's base time becomes the anchor.
    Reposition,
    /// Paused: clear the schedule and silence only; the current sequencer
    /// time becomes the anchor and nothing is scheduled.
    MovePaused,
    VolumeDown,
    VolumeUp,
    Quit,
}

/// A move of the playhead reschedules when playing, only moves when paused.
pub open spec fn moved(st: PlayState) -> PlayAction {
    if st.paused {
        PlayAction::MovePaused
    } else {
        PlayAction::Reposition
    }
}

pub open spec fn clamp_ms(x: int, total: u32) -> i64 {
    if x < 0 {
        0
    } else if x > total {
        total as i64
    } else {
        x as i64
    }
}

/// The position reached while playing: the playhead plus the sequencer
/// time since the anchor.
pub open spec fn playing_at(st: PlayState, now: u32) -> int {
    st.playhead + now - st.anchor
}

pub open spec fn valid_state(st: PlayState, total: u32) -> bool {
    0 <= st.playhead <= total
}

/// How a command changes the state, and what the player then does.
pub open spec fn play_command(st: PlayState, input: PlayInput, now: u32, total: u32) -> (PlayState, PlayAction) {
    match input {
        PlayInput::Pause => if st.paused {
            (PlayState { paused: false, ..st }, PlayAction::Resume)
        } else {
            (
                PlayState { playhead: clamp_ms(playing_at(st, now), total), anchor: now, paused: true, ..st },
                PlayAction::Suspend,
            )
        },
        PlayInput::Play => if st.paused {
            (PlayState { paused: false, ..st }, PlayAction::Resume)
        } else {
            (st, PlayAction::Nothing)
        },
        PlayInput::Start => (PlayState { paused: false, ..st }, PlayAction::Resume),
        PlayInput::Loop => (PlayState { looping: !st.looping, ..st }, PlayAction::Nothing),
        PlayInput::SeekBy(d) => {
            let cur = if st.paused {
                st.playhead as int
            } else {
                playing_at(st, now)
            };
            (PlayState { playhead: clamp_ms(cur + d, total), ..st }, moved(st))
        },
        PlayInput::SeekTo(t) => (PlayState { playhead: clamp_ms(t as int, total), ..st }, moved(st)),
        PlayInput::VolumeDown => (st, PlayAction::VolumeDown),
        PlayInput::VolumeUp => (st, PlayAction::VolumeUp),
        PlayInput::Quit => (st, PlayAction::Quit),
    }
}

/// Applies a command; see `play_command`.
pub fn play_step(st: PlayState, input: PlayInput, now: u32, total_ms: u32) -> (r: (PlayState, PlayAction))
    requires
        valid_state(st, total_ms),
    ensures
        r == play_command(st, input, now, total_ms),
        valid_state(r.0, total_ms),
{
    let cur_playing: i64 = st.playhead + now as i64 - st.anchor as i64;
    match input {
        PlayInput::Pause => {
            if st.paused {
                (PlayState { paused: false, ..st }, PlayAction::Resume)
            } else {
                let p = if cur_playing < 0 { 0 } else if cur_playing > total_ms as i64 { total_ms as i64 } else { cur_playing };
                (PlayState { playhead: p, anchor: now, paused: true, ..st }, PlayAction::Suspend)
            }
        },
        PlayInput::Play => {
            if st.paused {
                (PlayState { paused: false, ..st }, PlayAction::Resume)
            } else {
                (st, PlayAction::Nothing)
            }
        },
        PlayInput::Start => (PlayState { paused: false, ..st }, PlayAction::Resume),
        PlayInput::Loop => (PlayState { looping: !st.looping, ..st }, PlayAction::Nothing),
        PlayInput::SeekBy(d) => {
            let cur = if st.paused { st.playhead } else { cur_playing };
            let t = cur + d as i64;
            let p = if t < 0 { 0 } else if t > total_ms as i64 { total_ms as i64 } else { t };
            (PlayState { playhead: p, ..st }, if st.paused { PlayAction::MovePaused } else { PlayAction::Reposition })
        },
        PlayInput::SeekTo(t) => {
            let p = if t < 0 { 0 } else if t > total_ms as i64 { total_ms as i64 } else { t };
            (PlayState { playhead: p, ..st }, if st.paused { PlayAction::MovePaused } else { PlayAction::Reposition })
        },
        PlayInput::VolumeDown => (st, PlayAction::VolumeDown),
        PlayInput::VolumeUp => (st, PlayAction::VolumeUp),
        PlayInput::Quit => (st, PlayAction::Quit),
    }
}

/// What the passing of time brings.
#[derive(Debug, Clone, Copy, PartialEq, Eq, Structural)]
pub enum TickOutcome {
    /// Still paused at this position.
    Paused(i64),
    /// Playing at this position.
    Playing(i64),
    /// The end was reached while looping: play again from the start
    /// (silence, schedule from 0; the base becomes the anchor).
    Restart,
    /// The end was reached: stop.
    Finished,
}

/// The position reached, capped at the end; at the end, start again when
/// looping, else finish.
pub open spec fn play_tick(st: PlayState, now: u32, total: u32) -> (PlayState, TickOutcome) {
    if st.paused {
        (st, TickOutcome::Paused(st.playhead))
    } else {
        let cur = if playing_at(st, now) > total {
            total as int
        } else {
            playing_at(st, now)
        };
        if cur >= total {
            if st.looping {
                (PlayState { playhead: 0, ..st }, TickOutcome::Restart)
            } else {
                (st, TickOutcome::Finished)
            }
        } else {
            (st, TickOutcome::Playing(cur as i64))
        }
    }
}

/// Advances with the sequencer time `now`; see `play_tick`.
pub fn tick_step(st: PlayState, now: u32, total_ms: u32) -> (r: (PlayState, TickOutcome))
    requires
        valid_state(st, total_ms),
    ensures
        r == play_tick(st, now, total_ms),
        valid_state(r.0, total_ms),
{
    if st.paused {
        return (st, TickOutcome::Paused(st.playhead));
    }
    let p: i64 = st.playhead + now as i64 - st.anchor as i64;
    let cur = if p > total_ms as i64 { total_ms as i64 } else { p };
    if cur >= total_ms as i64 {
        if st.looping {
            (PlayState { playhead: 0, ..st }, TickOutcome::Restart)
        } else {
            (st, TickOutcome::Finished)
        }
    } else {
        (st, TickOutcome::Playing(cur))
    }
}

/// The cue of an event played `rel` ms from now.
pub open spec fn note_cue(e: ScheduledNote, playhead: u32) -> Cue {
    Cue::Note(e.channel, e.key, e.vel, (e.at_ms - playhead) as u32, e.on)
}

/// From a playhead, every event at or after it is cued once, in list
/// order, at its distance from the playhead; no event before it is.
pub proof fn lemma_future_notes_are_later_events(evs: Seq<ScheduledNote>, playhead: u32)
    ensures
        future_notes(evs, playhead) == evs.filter(|e: ScheduledNote| e.at_ms >= playhead).map_values(
            |e: ScheduledNote| note_cue(e, playhead),
        ),
    decreases evs.len(),
{
    reveal_with_fuel(Seq::filter, 1);
    if evs.len() > 0 {
        lemma_future_notes_are_later_events(evs.drop_last(), playhead);
        let f = evs.drop_last().filter(|e: ScheduledNote| e.at_ms >= playhead);
        assert(evs.filter(|e: ScheduledNote| e.at_ms >= playhead) == if evs.last().at_ms >= playhead {
            f.push(evs.last())
        } else {
            f
        });
        if evs.last().at_ms >= playhead {
            assert(f.push(evs.last()).map_values(|e: ScheduledNote| note_cue(e, playhead)) =~= f.map_values(
                |e: ScheduledNote| note_cue(e, playhead),
            ).push(note_cue(evs.last(), playhead)));
        }
    } else {
        assert(evs.filter(|e: ScheduledNote| e.at_ms >= playhead) =~= Seq::<ScheduledNote>::empty());
    }
}

/// The loop command flips looping and changes nothing else: the playhead,
/// pause state and anchor stay, nothing is scheduled, and a second loop
/// command gives the first state back.
pub proof fn lemma_loop_toggles(st: PlayState, now: u32, later: u32, total: u32)
    ensures
        play_command(st, PlayInput::Loop, now, total).0.looping == !st.looping,
        play_command(st, PlayInput::Loop, now, total).0.playhead == st.playhead,
        play_command(st, PlayInput::Loop, now, total).0.paused == st.paused,
        play_command(st, PlayInput::Loop, now, total).0.anchor == st.anchor,
        play_command(st, PlayInput::Loop, now, total).1 == PlayAction::Nothing,
        play_command(play_command(st, PlayInput::Loop, now, total).0, PlayInput::Loop, later, total).0 == st,
{
}

/// Seeking moves the playhead from where playback is (the paused playhead,
/// or the playhead plus the time since the anchor) by the offset, or to the
/// target, stopping at the ends of the piece; it keeps the pause and loop
/// state and the anchor, and reschedules when playing but only moves when
/// paused. Volume and quit commands leave the state alone.
pub proof fn lemma_seek_moves_playhead(st: PlayState, d: i32, target: i64, now: u32, total: u32)
    ensures
        ({
            let cur: int = if st.paused { st.playhead as int } else { st.playhead + now - st.anchor };
            let r = play_command(st, PlayInput::SeekBy(d), now, total);
            &&& 0 <= cur + d <= total ==> r.0.playhead == cur + d
            &&& cur + d < 0 ==> r.0.playhead == 0
            &&& cur + d > total ==> r.0.playhead == total
            &&& r.0.paused == st.paused && r.0.looping == st.looping && r.0.anchor == st.anchor
            &&& r.1 == if st.paused { PlayAction::MovePaused } else { PlayAction::Reposition }
        }),
        ({
            let r = play_command(st, PlayInput::SeekTo(target), now, total);
            &&& 0 <= target <= total ==> r.0.playhead == target
            &&& target < 0 ==> r.0.playhead == 0
            &&& target > total ==> r.0.playhead == total
            &&& r.0.paused == st.paused && r.0.looping == st.looping && r.0.anchor == st.anchor
            &&& r.1 == if st.paused { PlayAction::MovePaused } else { PlayAction::Reposition }
        }),
        play_command(st, PlayInput::VolumeDown, now, total) == (st, PlayAction::VolumeDown),
        play_command(st, PlayInput::VolumeUp, now, total) == (st, PlayAction::VolumeUp),
        play_command(st, PlayInput::Quit, now, total) == (st, PlayAction::Quit),
{
}

/// The cue of a switch made `at_ms - playhead` ms from now.
pub open spec fn switch_cue(s: ProgramSwitch, playhead: u32) -> Cue {
    Cue::SwitchAt(s, (s.at_ms - playhead) as u32)
}

/// From a playhead, every switch strictly after it is queued once, in list
/// order, at its distance from the playhead; no other switch is.
pub proof fn lemma_future_switches_are_later(sw: Seq<ProgramSwitch>, playhead: u32)
    ensures
        future_switches(sw, playhead) == sw.filter(|s: ProgramSwitch| s.at_ms > playhead).map_values(
            |s: ProgramSwitch| switch_cue(s, playhead),
        ),
    decreases sw.len(),
{
    reveal_with_fuel(Seq::filter, 1);
    if sw.len() > 0 {
        lemma_future_switches_are_later(sw.drop_last(), playhead);
        let f = sw.drop_last().filter(|s: ProgramSwitch| s.at_ms > playhead);
        assert(sw.filter(|s: ProgramSwitch| s.at_ms > playhead) == if sw.last().at_ms > playhead {
            f.push(sw.last())
        } else {
            f
        });
        if sw.last().at_ms > playhead {
            assert(f.push(sw.last()).map_values(|s: ProgramSwitch| switch_cue(s, playhead)) =~= f.map_values(
                |s: ProgramSwitch| switch_cue(s, playhead),
            ).push(switch_cue(sw.last(), playhead)));
        }
    } else {
        assert(sw.filter(|s: ProgramSwitch| s.at_ms > playhead) =~= Seq::<ProgramSwitch>::empty());
    }
}

/// Notes of a slot still sounding after the first `n` events: a note-on
/// adds one, a note-off ends one if any sounds.
pub open spec fn held_count(evs: Seq<ScheduledNote>, n: int, slot: usize) -> nat
    decreases n,
{
    if n <= 0 || n > evs.len() {
        0
    } else {
        let prev = held_count(evs, n - 1, slot);
        let e = evs[n - 1];
        if note_slot(e.channel, e.key) != slot {
            prev
        } else if e.on {
            prev + 1
        } else if prev > 0 {
            (prev - 1) as nat
        } else {
            0
        }
    }
}

/// `v` is the velocity and start of a note-on of `slot` among the first
/// `n` events.
pub open spec fn started_in(evs: Seq<ScheduledNote>, n: int, slot: usize, v: (u8, u32)) -> bool {
    exists|k: int|
        0 <= k < n && (#[trigger] evs[k]).on && note_slot(evs[k].channel, evs[k].key) == slot && v == (
            evs[k].vel,
            evs[k].at_ms,
        )
}

/// The held stack of a slot holds one entry per note of that slot turned on
/// among the first `n` events and not turned off since; each entry is the
/// velocity and start of one of those note-ons, and the stack is in the map
/// only when it is not empty.
pub proof fn lemma_held_stacks(evs: Seq<ScheduledNote>, n: int, slot: usize)
    requires
        0 <= n <= evs.len(),
    ensures
        stack_of(held_fold(evs, n), slot).len() == held_count(evs, n, slot),
        held_fold(evs, n).contains_key(slot) <==> held_count(evs, n, slot) > 0,
        forall|j: int|
            0 <= j < stack_of(held_fold(evs, n), slot).len() ==> started_in(
                evs,
                n,
                slot,
                #[trigger] stack_of(held_fold(evs, n), slot)[j],
            ),
    decreases n,
{
    if n > 0 {
        lemma_held_stacks(evs, n - 1, slot);
        let prev = held_fold(evs, n - 1);
        let e = evs[n - 1];
        let cur = held_fold(evs, n);
        let k = note_slot(e.channel, e.key);
        assert forall|j: int| 0 <= j < stack_of(cur, slot).len() implies started_in(
            evs,
            n,
            slot,
            #[trigger] stack_of(cur, slot)[j],
        ) by {
            if k == slot && e.on && j == stack_of(prev, slot).len() {
                assert(stack_of(cur, slot)[j] == (e.vel, e.at_ms));
                assert(0 <= n - 1 < n && evs[n - 1].on && note_slot(evs[n - 1].channel, evs[n - 1].key) == slot
                    && stack_of(cur, slot)[j] == (evs[n - 1].vel, evs[n - 1].at_ms));
            } else {
                assert(stack_of(cur, slot)[j] == stack_of(prev, slot)[j]);
                assert(started_in(evs, n - 1, slot, stack_of(prev, slot)[j]));
                let k2 = choose|k2: int|
                    0 <= k2 < n - 1 && (#[trigger] evs[k2]).on && note_slot(evs[k2].channel, evs[k2].key) == slot
                        && stack_of(prev, slot)[j] == (evs[k2].vel, evs[k2].at_ms);
                assert(0 <= k2 < n && evs[k2].on && note_slot(evs[k2].channel, evs[k2].key) == slot
                    && stack_of(cur, slot)[j] == (evs[k2].vel, evs[k2].at_ms));
            }
        }
    } else {
        assert(held_fold(evs, n) == Map::<usize, Seq<(u8, u32)>>::empty());
        assert(stack_of(held_fold(evs, n), slot) =~= Seq::<(u8, u32)>::empty());
    }
}

/// Before the playhead every event is earlier than it.
pub proof fn lemma_before_playhead_earlier(evs: Seq<ScheduledNote>, playhead: u32, i: int)
    requires
        0 <= i <= evs.len(),
        forall|k: int| 0 <= k < i ==> (#[trigger] evs[k]).at_ms < playhead,
    ensures
        i <= before_playhead(evs, playhead, i) <= evs.len(),
        forall|k: int| 0 <= k < before_playhead(evs, playhead, i) ==> (#[trigger] evs[k]).at_ms < playhead,
    decreases evs.len() - i,
{
    if i < evs.len() && evs[i].at_ms < playhead {
        lemma_before_playhead_earlier(evs, playhead, i + 1);
    }
}

/// Seeking, resuming or looping to a playhead: the schedule selects the
/// instrument in force at the playhead, queues each later switch at its
/// distance from the playhead, sounds again each note held at the playhead
/// (slot by slot, ascending, under the instrument of its start, see
/// `lemma_held_stacks`) and then restores the instrument in force, and cues
/// every event at or after the playhead at its distance from it.
pub proof fn lemma_seek_plan(evs: Seq<ScheduledNote>, sf: usize, ins: u8, sw: Seq<ProgramSwitch>, playhead: u32)
    ensures
        ({
            let held = held_fold(evs, before_playhead(evs, playhead, 0));
            let slots = sorted_keys(held.dom());
            &&& schedule_plan(evs, sf, ins, sw, playhead) == seq![Cue::Select(selection(sf, ins, sw, playhead))]
                + sw.filter(|s: ProgramSwitch| s.at_ms > playhead).map_values(|s: ProgramSwitch| switch_cue(s, playhead))
                + held_cues(held, slots, sf, ins, sw) + (if slots.len() > 0 {
                seq![Cue::SwitchNow(selection(sf, ins, sw, playhead))]
            } else {
                Seq::empty()
            }) + evs.filter(|e: ScheduledNote| e.at_ms >= playhead).map_values(|e: ScheduledNote| note_cue(e, playhead))
            &&& forall|slot: usize, j: int|
                0 <= j < stack_of(held, slot).len() ==> (#[trigger] stack_of(held, slot)[j]).1 < playhead
        }),
{
    lemma_future_switches_are_later(sw, playhead);
    lemma_future_notes_are_later_events(evs, playhead);
    lemma_before_playhead_earlier(evs, playhead, 0);
    let n = before_playhead(evs, playhead, 0);
    let held = held_fold(evs, n);
    assert forall|slot: usize, j: int| 0 <= j < stack_of(held, slot).len() implies (#[trigger] stack_of(held, slot)[j]).1
        < playhead by {
        lemma_held_stacks(evs, n, slot);
        assert(started_in(evs, n, slot, stack_of(held, slot)[j]));
        let k = choose|k: int|
            0 <= k < n && (#[trigger] evs[k]).on && note_slot(evs[k].channel, evs[k].key) == slot
                && stack_of(held, slot)[j] == (evs[k].vel, evs[k].at_ms);
    }
}

/// Playing from the start selects the instrument in force at 0, queues the
/// later switches, holds no note over, and cues every event at its own
/// time, in list order.
pub proof fn lemma_schedule_from_start(evs: Seq<ScheduledNote>, sf: usize, ins: u8, sw: Seq<ProgramSwitch>)
    ensures
        schedule_plan(evs, sf, ins, sw, 0) == seq![Cue::Select(selection(sf, ins, sw, 0))] + future_switches(sw, 0)
            + evs.map_values(|e: ScheduledNote| note_cue(e, 0)),
{
    assert(before_playhead(evs, 0, 0) == 0);
    let held = held_fold(evs, 0);
    assert(held.dom() =~= Set::<usize>::empty());
    let slots = sorted_keys(held.dom());
    assert(ascending_keys(Seq::<usize>::empty()) && Seq::<usize>::empty().to_set() =~= Set::<usize>::empty());
    assert(ascending_keys(slots) && slots.to_set() == held.dom());
    if slots.len() > 0 {
        assert(slots.to_set().contains(slots[0]));
    }
    assert(slots.len() == 0);
    lemma_future_notes_are_later_events(evs, 0);
    assert(evs.filter(|e: ScheduledNote| e.at_ms >= 0u32) =~= evs) by {
        lemma_filter_all(evs);
    }
    assert(schedule_plan(evs, sf, ins, sw, 0) =~= seq![Cue::Select(selection(sf, ins, sw, 0))] + future_switches(sw, 0)
        + evs.map_values(|e: ScheduledNote| note_cue(e, 0)));
}

proof fn lemma_filter_all(evs: Seq<ScheduledNote>)
    ensures
        evs.filter(|e: ScheduledNote| e.at_ms >= 0u32) == evs,
    decreases evs.len(),
{
    reveal_with_fuel(Seq::filter, 1);
    if evs.len() > 0 {
        lemma_filter_all(evs.drop_last());
        assert(evs.drop_last().push(evs.last()) =~= evs);
    } else {
        assert(evs.filter(|e: ScheduledNote| e.at_ms >= 0u32) =~= evs);
    }
}

/// Pausing and then resuming leaves the playhead where the pause put it,
/// and a paused playhead does not move with time.
pub proof fn lemma_pause_resume(st: PlayState, now: u32, later: u32, total: u32)
    requires
        valid_state(st, total),
        !st.paused,
    ensures
        ({
            let (s1, a1) = play_command(st, PlayInput::Pause, now, total);
            let (s2, a2) = play_command(s1, PlayInput::Pause, later, total);
            &&& a1 == PlayAction::Suspend
            &&& s1.paused
            &&& valid_state(s1, total)
            &&& play_tick(s1, later, total) == (s1, TickOutcome::Paused(s1.playhead))
            &&& a2 == PlayAction::Resume
            &&& !s2.paused
            &&& s2.playhead == s1.playhead
        }),
{
}

/// While paused, nothing is scheduled again (and so nothing sounds) until
/// a pause, play or start command resumes playback.
pub proof fn lemma_paused_stays_silent(st: PlayState, input: PlayInput, now: u32, total: u32)
    requires
        valid_state(st, total),
        st.paused,
        !(input is Pause || input is Play || input is Start),
    ensures
        ({
            let (s1, a) = play_command(st, input, now, total);
            &&& a != PlayAction::Resume
            &&& a != PlayAction::Reposition
            &&& s1.paused
        }),
{
}

/// Every command keeps the playhead within the piece.
pub proof fn lemma_commands_stay_in_piece(st: PlayState, input: PlayInput, now: u32, total: u32)
    requires
        valid_state(st, total),
    ensures
        valid_state(play_command(st, input, now, total).0, total),
        valid_state(play_tick(st, now, total).0, total),
{
}

// ---------------------------------------------------------------------------
// MIDI file playback
// ---------------------------------------------------------------------------

/// The state of MIDI file playback: paused or not, the tick to resume from
/// while paused (the player itself is left alone meanwhile), and looping.
#[derive(Debug, Clone, Copy, PartialEq, Eq, Structural)]
pub struct MidiState {
    pub paused: bool,
    pub paused_tick: Option<i32>,
    pub looping: bool,
}

/// A command during MIDI playback.
#[derive(Debug, Clone, Copy, PartialEq, Eq, Structural)]
pub enum MidiInput {
    /// Pause, or resume when paused.
    Pause,
    /// Resume when paused.
    Play,
    Loop,
    /// Move to this tick (computed from `midi_position`).
    SeekTo(i32),
    /// The player did not start again at this tick.
    ResumeFailed(i32),
    VolumeDown,
    VolumeUp,
    Quit,
}

/// What the MIDI player does after a command.
#[derive(Debug, Clone, Copy, PartialEq, Eq, Structural)]
pub enum MidiAction {
    Nothing,
    /// Stop the player and silence.
    Suspend,
    /// Silence, seek to this tick and start the player.
    Resume(i32),
    /// Silence only; the tick is held until playback resumes.
    MovePaused,
    /// Silence and seek to this tick.
    Seek(i32),
    /// Loop forever (`true`) or play once.
    SetLoop(bool),
    VolumeDown,
    VolumeUp,
    Quit,
}

/// What the player does when its tick is checked.
#[derive(Debug, Clone, Copy, PartialEq, Eq, Structural)]
pub enum MidiTick {
    Continue,
    /// Start the player again (looping at the end).
    Replay,
    Finished,
}

pub open spec fn nonneg(t: i32) -> i32 {
    if t < 0 {
        0
    } else {
        t
    }
}

/// The tick shown and sought from: the held tick while paused, else the
/// player's own (at least 0).
pub open spec fn midi_pos(st: MidiState, current: i32) -> i32 {
    if st.paused && st.paused_tick is Some {
        st.paused_tick->0
    } else {
        nonneg(current)
    }
}

/// Resuming: from the held tick, else from where the player stands.
pub open spec fn midi_resume(st: MidiState, current: i32) -> (MidiState, MidiAction) {
    let target = match st.paused_tick {
        Some(t) => t,
        None => nonneg(current),
    };
    (MidiState { paused: false, paused_tick: None, ..st }, MidiAction::Resume(target))
}

pub open spec fn midi_command(st: MidiState, input: MidiInput, current: i32) -> (MidiState, MidiAction) {
    match input {
        MidiInput::Pause => if st.paused {
            midi_resume(st, current)
        } else {
            (MidiState { paused: true, paused_tick: Some(nonneg(current)), ..st }, MidiAction::Suspend)
        },
        MidiInput::Play => if st.paused {
            midi_resume(st, current)
        } else {
            (st, MidiAction::Nothing)
        },
        MidiInput::Loop => (MidiState { looping: !st.looping, ..st }, MidiAction::SetLoop(!st.looping)),
        MidiInput::SeekTo(t) => if st.paused {
            (MidiState { paused_tick: Some(t), ..st }, MidiAction::MovePaused)
        } else {
            (st, MidiAction::Seek(t))
        },
        MidiInput::ResumeFailed(t) => (MidiState { paused: true, paused_tick: Some(t), ..st }, MidiAction::Nothing),
        MidiInput::VolumeDown => (st, MidiAction::VolumeDown),
        MidiInput::VolumeUp => (st, MidiAction::VolumeUp),
        MidiInput::Quit => (st, MidiAction::Quit),
    }
}

/// At the player's end (`done`): play again when looping, else finish;
/// a paused player is never at its end.
pub open spec fn midi_check(st: MidiState, done: bool) -> (MidiState, MidiTick) {
    if done && !st.paused {
        if st.looping {
            (MidiState { paused_tick: None, ..st }, MidiTick::Replay)
        } else {
            (st, MidiTick::Finished)
        }
    } else {
        (st, MidiTick::Continue)
    }
}

/// The tick shown and sought from; see `midi_pos`.
pub fn midi_position(st: MidiState, current: i32) -> (r: i32)
    ensures
        r == midi_pos(st, current),
{
    match (st.paused, st.paused_tick) {
        (true, Some(t)) => t,
        _ => if current < 0 {
            0
        } else {
            current
        },
    }
}

fn resume_from(st: MidiState, current: i32) -> (r: (MidiState, MidiAction))
    ensures
        r == midi_resume(st, current),
{
    let target = match st.paused_tick {
        Some(t) => t,
        None => if current < 0 {
            0
        } else {
            current
        },
    };
    (MidiState { paused: false, paused_tick: None, ..st }, MidiAction::Resume(target))
}

/// The state and action after a command, the player standing at
/// `current`; see `midi_command`.
pub fn midi_step(st: MidiState, input: MidiInput, current: i32) -> (r: (MidiState, MidiAction))
    ensures
        r == midi_command(st, input, current),
{
    let here: i32 = if current < 0 { 0 } else { current };
    match input {
        MidiInput::Pause => {
            if st.paused {
                resume_from(st, current)
            } else {
                (MidiState { paused: true, paused_tick: Some(here), ..st }, MidiAction::Suspend)
            }
        },
        MidiInput::Play => {
            if st.paused {
                resume_from(st, current)
            } else {
                (st, MidiAction::Nothing)
            }
        },
        MidiInput::Loop => (MidiState { looping: !st.looping, ..st }, MidiAction::SetLoop(!st.looping)),
        MidiInput::SeekTo(t) => {
            if st.paused {
                (MidiState { paused_tick: Some(t), ..st }, MidiAction::MovePaused)
            } else {
                (st, MidiAction::Seek(t))
            }
        },
        MidiInput::ResumeFailed(t) => (MidiState { paused: true, paused_tick: Some(t), ..st }, MidiAction::Nothing),
        MidiInput::VolumeDown => (st, MidiAction::VolumeDown),
        MidiInput::VolumeUp => (st, MidiAction::VolumeUp),
        MidiInput::Quit => (st, MidiAction::Quit),
    }
}

/// The state and outcome when the player's status is checked; see
/// `midi_check`.
pub fn midi_tick_step(st: MidiState, done: bool) -> (r: (MidiState, MidiTick))
    ensures
        r == midi_check(st, done),
{
    if done && !st.paused {
        if st.looping {
            (MidiState { paused_tick: None, ..st }, MidiTick::Replay)
        } else {
            (st, MidiTick::Finished)
        }
    } else {
        (st, MidiTick::Continue)
    }
}

/// Pausing holds the tick the player stood at, and pausing again resumes
/// from that very tick.
pub proof fn lemma_midi_pause_resume(st: MidiState, current: i32, later: i32)
    requires
        !st.paused,
    ensures
        ({
            let (s1, a1) = midi_command(st, MidiInput::Pause, current);
            let (s2, a2) = midi_command(s1, MidiInput::Pause, later);
            &&& a1 == MidiAction::Suspend
            &&& s1.paused
            &&& midi_pos(s1, later) == nonneg(current)
            &&& midi_check(s1, true) == (s1, MidiTick::Continue)
            &&& a2 == MidiAction::Resume(nonneg(current))
            &&& !s2.paused
        }),
{
}

/// While paused, the player is neither moved nor started: a seek is held
/// and shown, and resuming starts from it.
pub proof fn lemma_midi_paused_seek_is_held(st: MidiState, t: i32, current: i32, later: i32)
    requires
        st.paused,
    ensures
        ({
            let (s1, a1) = midi_command(st, MidiInput::SeekTo(t), current);
            let (s2, a2) = midi_command(s1, MidiInput::Play, later);
            &&& a1 == MidiAction::MovePaused
            &&& s1.paused
            &&& midi_pos(s1, later) == t
            &&& a2 == MidiAction::Resume(t)
            &&& !s2.paused
        }),
{
}

/// While paused, only a pause or play command can seek or start the player.
pub proof fn lemma_midi_paused_stays_stopped(st: MidiState, input: MidiInput, current: i32)
    requires
        st.paused,
        !(input is Pause || input is Play),
    ensures
        ({
            let (s1, a) = midi_command(st, input, current);
            &&& s1.paused
            &&& !(a is Resume || a is Seek)
        }),
{
}

} // verus!
