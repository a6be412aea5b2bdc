use music_rust::playback::{
    midi_position, midi_step, midi_tick_step, plan_schedule, play_step, score_channels, tick_step, Cue, MidiAction,
    MidiInput, MidiState, MidiTick, PlayAction, PlayInput, PlayState, TickOutcome,
};
use music_rust::score::ScheduledNote;
use music_rust::synth::{
    advance_switches, missing_program_msg, program_requirements, soundfont_index, ProgramSwitch, SwitchPlan,
};

fn ev(at_ms: u32, channel: u8, key: u8, on: bool) -> ScheduledNote {
    ScheduledNote { at_ms, key, vel: if on { 90 } else { 0 }, on, channel }
}

fn sw(at_ms: u32, soundfont: usize, instrument: u8) -> ProgramSwitch {
    ProgramSwitch { at_ms, soundfont, instrument }
}

#[test]
fn schedule_from_start_selects_initial_then_queues_everything() {
    let events = vec![ev(0, 0, 60, true), ev(500, 0, 60, false)];
    let switches = vec![sw(200, 1, 5)];
    let plan = plan_schedule(&events, 0, 3, &switches, 0);
    assert_eq!(
        plan,
        vec![
            Cue::Select(sw(0, 0, 3)),
            Cue::SwitchAt(sw(200, 1, 5), 200),
            Cue::Note(0, 60, 90, 0, true),
            Cue::Note(0, 60, 0, 500, false),
        ]
    );
}

#[test]
fn schedule_inside_a_held_note_sounds_it_again_with_its_first_instrument() {
    let events = vec![ev(0, 1, 64, true), ev(100, 1, 67, true), ev(150, 1, 67, false), ev(900, 1, 64, false)];
    let switches = vec![sw(50, 1, 7), sw(600, 2, 9)];
    let plan = plan_schedule(&events, 0, 0, &switches, 400);
    assert_eq!(
        plan,
        vec![
            Cue::Select(sw(50, 1, 7)),
            Cue::SwitchAt(sw(600, 2, 9), 200),
            Cue::SwitchChannel(1, sw(0, 0, 0)),
            Cue::Note(1, 64, 90, 0, true),
            Cue::SwitchNow(sw(50, 1, 7)),
            Cue::Note(1, 64, 0, 500, false),
        ]
    );
}

#[test]
fn score_channels_are_sorted_and_distinct() {
    let events = vec![ev(0, 3, 60, true), ev(0, 1, 62, true), ev(5, 3, 60, false), ev(9, 1, 62, false)];
    assert_eq!(score_channels(&events), vec![1, 3]);
    assert_eq!(score_channels(&[]), Vec::<u8>::new());
}

#[test]
fn pause_then_resume_keeps_the_playhead() {
    let st = PlayState { playhead: 1_000, paused: false, looping: false, anchor: 5_000 };
    let (paused, action) = play_step(st, PlayInput::Pause, 5_700, 10_000);
    assert_eq!(action, PlayAction::Suspend);
    assert_eq!(paused, PlayState { playhead: 1_700, paused: true, looping: false, anchor: 5_700 });
    assert_eq!(tick_step(paused, 9_999, 10_000), (paused, TickOutcome::Paused(1_700)));
    let (moved, action) = play_step(paused, PlayInput::SeekBy(5_000), 9_000, 10_000);
    assert_eq!(action, PlayAction::MovePaused);
    assert_eq!(moved.playhead, 6_700);
    assert!(moved.paused);
    let (resumed, action) = play_step(paused, PlayInput::Pause, 9_000, 10_000);
    assert_eq!(action, PlayAction::Resume);
    assert!(!resumed.paused);
    assert_eq!(resumed.playhead, 1_700);
}

#[test]
fn seeks_stay_within_the_piece() {
    let st = PlayState { playhead: 1_000, paused: false, looping: false, anchor: 0 };
    let (s, a) = play_step(st, PlayInput::SeekBy(-60_000), 500, 10_000);
    assert_eq!((s.playhead, a), (0, PlayAction::Reposition));
    let (s, _) = play_step(st, PlayInput::SeekBy(60_000), 500, 10_000);
    assert_eq!(s.playhead, 10_000);
    let (s, _) = play_step(st, PlayInput::SeekBy(5_000), 500, 10_000);
    assert_eq!(s.playhead, 6_500);
    let (s, _) = play_step(st, PlayInput::SeekTo(12_345), 500, 10_000);
    assert_eq!(s.playhead, 10_000);
    let (s, a) = play_step(st, PlayInput::Play, 500, 10_000);
    assert_eq!((s, a), (st, PlayAction::Nothing));
    let (s, a) = play_step(st, PlayInput::Loop, 500, 10_000);
    assert!(s.looping && a == PlayAction::Nothing);
}

#[test]
fn the_end_of_the_piece_finishes_or_restarts() {
    let st = PlayState { playhead: 9_000, paused: false, looping: false, anchor: 100 };
    assert_eq!(tick_step(st, 600, 10_000), (st, TickOutcome::Playing(9_500)));
    assert_eq!(tick_step(st, 1_100, 10_000), (st, TickOutcome::Finished));
    let looping = PlayState { looping: true, ..st };
    let (s, o) = tick_step(looping, 2_000, 10_000);
    assert_eq!(o, TickOutcome::Restart);
    assert_eq!(s.playhead, 0);
}

#[test]
fn requirements_are_listed_once_with_their_labels() {
    let switches = vec![sw(1_500, 1, 40), sw(2_000, 0, 0), sw(61_234, 1, 41)];
    let reqs = program_requirements(Some((0, 0)), &switches, false);
    let got: Vec<(usize, u8, String)> = reqs.iter().map(|r| (r.soundfont, r.instrument, r.label.clone())).collect();
    assert_eq!(
        got,
        vec![
            (0, 0, "初始音色".to_string()),
            (1, 40, "第 1 条切换（1.500 秒）".to_string()),
            (1, 41, "第 3 条切换（61.234 秒）".to_string()),
        ]
    );
    let midi = program_requirements(None, &switches[..1], true);
    assert_eq!(midi.len(), 1);
    assert_eq!(midi[0].label, "第 1 条 MIDI 切换（1.500 秒）");
}

#[test]
fn missing_instruments_and_soundfonts_are_named() {
    assert_eq!(
        missing_program_msg("初始音色", 1, "b.sf2", 40),
        "初始音色要求的音色不存在：SoundFont #2 (b.sf2) 没有 GM bank 0 / Program 40"
    );
    assert_eq!(soundfont_index(1, 2), Ok(1));
    assert_eq!(soundfont_index(2, 2), Err("SoundFont #3 不存在（当前已载入 2 个）".to_string()));
}

#[test]
fn midi_switches_advance_and_rewind_by_tick() {
    let list = vec![(0, sw(0, 0, 1)), (480, sw(500, 1, 2)), (480, sw(500, 0, 3)), (960, sw(1_000, 1, 4))];
    assert_eq!(advance_switches(&list, 0, -1, 0), SwitchPlan::Advance { from: 0, to: 1 });
    assert_eq!(advance_switches(&list, 1, 0, 500), SwitchPlan::Advance { from: 1, to: 3 });
    assert_eq!(advance_switches(&list, 3, 500, 700), SwitchPlan::Advance { from: 3, to: 3 });
    assert_eq!(
        advance_switches(&list, 4, 1_000, 600),
        SwitchPlan::Rewind { next: 3, reselect: Some(sw(500, 0, 3)) }
    );
    assert_eq!(advance_switches(&list[1..], 2, 900, 100), SwitchPlan::Rewind { next: 0, reselect: None });
}

#[test]
fn midi_pause_holds_the_tick_and_resumes_from_it() {
    let st = MidiState { paused: false, paused_tick: None, looping: false };
    let (paused, a) = midi_step(st, MidiInput::Pause, 1_234);
    assert_eq!(a, MidiAction::Suspend);
    assert_eq!(paused, MidiState { paused: true, paused_tick: Some(1_234), looping: false });
    assert_eq!(midi_position(paused, 99), 1_234);
    assert_eq!(midi_tick_step(paused, true), (paused, MidiTick::Continue));
    let (moved, a) = midi_step(paused, MidiInput::SeekTo(480), 99);
    assert_eq!(a, MidiAction::MovePaused);
    assert_eq!(midi_position(moved, 99), 480);
    let (playing, a) = midi_step(moved, MidiInput::Play, 99);
    assert_eq!(a, MidiAction::Resume(480));
    assert!(!playing.paused && playing.paused_tick.is_none());
    let (back, a) = midi_step(playing, MidiInput::ResumeFailed(480), 99);
    assert_eq!(a, MidiAction::Nothing);
    assert_eq!(back, MidiState { paused: true, paused_tick: Some(480), looping: false });
}

#[test]
fn midi_seeks_loops_and_end_of_file() {
    let st = MidiState { paused: false, paused_tick: None, looping: false };
    assert_eq!(midi_step(st, MidiInput::SeekTo(960), 10), (st, MidiAction::Seek(960)));
    assert_eq!(midi_step(st, MidiInput::Play, 10), (st, MidiAction::Nothing));
    assert_eq!(midi_position(st, -3), 0);
    let (looping, a) = midi_step(st, MidiInput::Loop, 10);
    assert_eq!(a, MidiAction::SetLoop(true));
    assert_eq!(midi_tick_step(looping, true).1, MidiTick::Replay);
    assert_eq!(midi_tick_step(st, true), (st, MidiTick::Finished));
    assert_eq!(midi_tick_step(st, false), (st, MidiTick::Continue));
    assert_eq!(midi_step(st, MidiInput::Pause, -7).0.paused_tick, Some(0));
}
