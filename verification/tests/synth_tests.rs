use music_rust::display::{
    active_midi_notes, active_score_notes, midi_tracks_text, read_display_events, score_tracks_text,
    track_stats, MidiDisplayEvent,
};
use music_rust::parser::ScheduledNote;
use std::collections::{BTreeMap, BTreeSet};
use music_rust::synth::{
    check_soundfonts, midi_note_name, selection_at, soundfont_total_bytes, validate_program_switches,
    ProgramSwitch, SoundfontFacts, SoundfontFault, MAX_PROGRAM_SWITCHES, MAX_SOUNDFONT_PAIR_BYTES,
};

fn amap(entries: &[(usize, &[u8])]) -> BTreeMap<usize, BTreeSet<u8>> {
    entries.iter().map(|(k, v)| (*k, v.iter().copied().collect())).collect()
}

#[test]
fn score_empty_tracks_use_x_placeholder() {
    let mut active = BTreeMap::new();
    active.insert(0usize, BTreeSet::new());
    active.insert(1usize, [60u8].into_iter().collect());
    assert_eq!(score_tracks_text(&active), vec!["轨道 1: x", "轨道 2: C4"]);
}

#[test]
fn midi_empty_tracks_use_x_placeholder() {
    let active = BTreeMap::new();
    assert_eq!(midi_tracks_text(&active, &[0, 1], None), vec!["轨道 1: x", "轨道 2: x"]);
}

#[test]
fn program_switches_are_limited_ordered_and_select_last_same_time() {
    let switches = [
        ProgramSwitch { at_ms: 1_000, soundfont: 0, instrument: 12 },
        ProgramSwitch { at_ms: 1_000, soundfont: 0, instrument: 41 },
        ProgramSwitch { at_ms: 2_000, soundfont: 0, instrument: 80 },
    ];
    assert!(validate_program_switches(&switches, 1).is_ok());
    assert_eq!(selection_at(0, 0, &switches, 999).instrument, 0);
    assert_eq!(selection_at(0, 0, &switches, 1_000).instrument, 41);
    assert!(validate_program_switches(
        &[ProgramSwitch { at_ms: 2_000, soundfont: 0, instrument: 0 }, ProgramSwitch { at_ms: 1_000, soundfont: 0, instrument: 0 }],
        1,
    ).is_err());
    assert!(validate_program_switches(
        &vec![ProgramSwitch { at_ms: 0, soundfont: 0, instrument: 0 }; MAX_PROGRAM_SWITCHES + 1],
        1,
    ).is_err());
}

#[test]
fn program_switch_errors_are_specific() {
    let sw = ProgramSwitch { at_ms: 0, soundfont: 0, instrument: 0 };
    assert_eq!(validate_program_switches(&vec![sw; 25], 1).unwrap_err(), "最多设置 24 条中途音色切换");
    assert_eq!(validate_program_switches(&[sw], 0).unwrap_err(), "至少需要一个 SoundFont");
    let bad = ProgramSwitch { at_ms: 5, soundfont: 2, instrument: 1 };
    assert_eq!(
        validate_program_switches(&[sw, bad], 2).unwrap_err(),
        "第 2 条切换引用了不存在的 SoundFont #3"
    );
    let late = ProgramSwitch { at_ms: 9, soundfont: 0, instrument: 1 };
    assert_eq!(
        validate_program_switches(&[late, sw], 1).unwrap_err(),
        "中途音色切换必须按时间从早到晚排列"
    );
    assert!(validate_program_switches(&[], 1).is_ok());
}

#[test]
fn selection_before_any_switch_is_initial_and_after_all_is_last() {
    let switches = [
        ProgramSwitch { at_ms: 100, soundfont: 1, instrument: 5 },
        ProgramSwitch { at_ms: 300, soundfont: 2, instrument: 6 },
    ];
    assert_eq!(selection_at(2, 9, &switches, 0), ProgramSwitch { at_ms: 0, soundfont: 2, instrument: 9 });
    assert_eq!(selection_at(2, 9, &switches, 200), switches[0]);
    assert_eq!(selection_at(2, 9, &switches, u32::MAX), switches[1]);
}

#[test]
fn note_names_follow_scientific_pitch() {
    assert_eq!(midi_note_name(60), "C4");
    assert_eq!(midi_note_name(61), "C#4");
    assert_eq!(midi_note_name(0), "C-1");
    assert_eq!(midi_note_name(11), "B-1");
    assert_eq!(midi_note_name(127), "G9");
    assert_eq!(midi_note_name(69), "A4");
}

fn note(at_ms: u32, key: u8, on: bool, channel: u8) -> ScheduledNote {
    ScheduledNote { at_ms, key, vel: 96, on, channel }
}

#[test]
fn score_notes_sound_until_their_note_off() {
    let evs = vec![
        note(0, 64, true, 1),
        note(0, 60, true, 1),
        note(100, 64, false, 1),
        note(200, 50, true, 3),
    ];
    let at0 = active_score_notes(&evs, 0);
    assert_eq!(at0, amap(&[(1, &[64, 60]), (3, &[])]));
    let at150 = active_score_notes(&evs, 150);
    assert_eq!(at150, amap(&[(1, &[60]), (3, &[])]));
    assert_eq!(score_tracks_text(&at150), vec!["轨道 2: C4", "轨道 4: x"]);
    let before = active_score_notes(&evs, -1);
    assert_eq!(before, amap(&[(1, &[]), (3, &[])]));
}

fn dev(tick: u64, track: usize, key: u8, on: bool) -> MidiDisplayEvent {
    MidiDisplayEvent { tick, track, key, on }
}

#[test]
fn midi_notes_and_main_track_label() {
    let evs = vec![dev(0, 2, 72, true), dev(0, 1, 48, true), dev(10, 2, 72, false), dev(10, 2, 74, true)];
    let a = active_midi_notes(&evs, 5);
    assert_eq!(a, amap(&[(1, &[48]), (2, &[72])]));
    let b = active_midi_notes(&evs, 10);
    assert_eq!(b, amap(&[(2, &[74]), (1, &[48])]));
    assert_eq!(
        midi_tracks_text(&b, &[1, 2, 5], Some(2)),
        vec!["轨道 1: C3", "主旋律 2: D5", "轨道 3: x"]
    );
}

#[test]
fn display_events_read_running_status_and_velocity_zero() {
    let track = [
        0x00, 0x90, 0x3c, 0x40, // note-on 60
        0x60, 0x3c, 0x00, // running status, velocity 0 = note-off
        0x00, 0xff, 0x2f, 0x00,
    ];
    let mut midi = b"MThd\0\0\0\x06\0\0\0\x01\x01\xe0MTrk".to_vec();
    midi.extend_from_slice(&(track.len() as u32).to_be_bytes());
    midi.extend_from_slice(&track);
    let evs = read_display_events(&midi);
    assert_eq!(evs.len(), 2);
    assert_eq!((evs[0].tick, evs[0].track, evs[0].key, evs[0].on), (0, 0, 60, true));
    assert_eq!((evs[1].tick, evs[1].key, evs[1].on), (0x60, 60, false));
    assert!(read_display_events(b"not a midi file").is_empty());
}

#[test]
fn track_stats_weigh_note_ons_and_polyphony() {
    let evs = vec![dev(0, 1, 60, true), dev(0, 1, 64, true), dev(5, 1, 60, false), dev(6, 0, 30, true), dev(7, 1, 67, true)];
    let stats = track_stats(&evs);
    assert_eq!(stats.len(), 2);
    assert_eq!((stats[0].track, stats[0].notes, stats[0].key_sum, stats[0].max_poly), (0, 1, 30, 1));
    assert_eq!((stats[1].track, stats[1].notes, stats[1].key_sum, stats[1].max_poly), (1, 3, 191, 2));
}

fn facts(identity: &str, bytes: u64) -> SoundfontFacts {
    SoundfontFacts { readable: true, is_file: true, soundfont_ext: true, identity: identity.to_string(), bytes }
}

#[test]
fn soundfont_paths_reject_duplicates_and_more_than_three() {
    let three = vec![facts("/a/0.sf2", 1), facts("/a/1.sf2", 1), facts("/a/2.sf2", 1)];
    assert!(check_soundfonts(&three).is_ok());
    assert!(check_soundfonts(&[facts("/a/0.sf2", 1), facts("/a/0.sf2", 1)]).is_err());
    let four = vec![facts("/a/0.sf2", 1), facts("/a/1.sf2", 1), facts("/a/2.sf2", 1), facts("/a/3.sf2", 1)];
    assert!(check_soundfonts(&four).is_err());
}

#[test]
fn soundfont_paths_enforce_pairwise_120_mb_limit() {
    let names = vec![facts("p0", 50 * 1_000_000), facts("p1", 50 * 1_000_000), facts("p2", 50 * 1_000_000)];
    assert!(check_soundfonts(&names).is_ok());
    let names = vec![facts("p0", 50 * 1_000_000), facts("p1", 50 * 1_000_000), facts("p2", 71 * 1_000_000)];
    assert!(check_soundfonts(&names).is_err());
    assert!(check_soundfonts(&[facts("single", MAX_SOUNDFONT_PAIR_BYTES + 1)]).is_err());
}

#[test]
fn soundfont_faults_name_the_first_problem() {
    assert_eq!(check_soundfonts(&[]), Err(SoundfontFault::Empty));
    let mut unreadable = facts("x", 1);
    unreadable.readable = false;
    assert_eq!(check_soundfonts(&[facts("a", 1), unreadable]), Err(SoundfontFault::Unreadable(1)));
    let mut wrong = facts("y", 1);
    wrong.soundfont_ext = false;
    assert_eq!(check_soundfonts(&[wrong]), Err(SoundfontFault::NotSoundfont(0)));
    assert_eq!(
        check_soundfonts(&[facts("a", 70_000_000), facts("b", 10), facts("c", 60_000_000)]),
        Err(SoundfontFault::PairTooLarge(0, 2, 130_000_000))
    );
    assert_eq!(soundfont_total_bytes(&[facts("a", 5), facts("b", 7)]), Ok(12));
}

#[test]
fn midi_switch_timeline_puts_the_initial_choice_first_and_clamps_ticks() {
    let sw = [
        ProgramSwitch { at_ms: 0, soundfont: 0, instrument: 5 },
        ProgramSwitch { at_ms: 900, soundfont: 1, instrument: 7 },
    ];
    let t = music_rust::synth::midi_switch_timeline(Some((0, 3)), &sw, &[0, u64::MAX]);
    assert_eq!(t.len(), 3);
    assert_eq!(t[0], (0, ProgramSwitch { at_ms: 0, soundfont: 0, instrument: 3 }));
    assert_eq!(t[1], (0, sw[0]));
    assert_eq!(t[2], (i32::MAX, sw[1]));
    assert!(music_rust::synth::midi_switch_timeline(None, &[], &[]).is_empty());
}

#[test]
fn soundfont_check_accepts_three_fonts_of_fifty_megabytes() {
    let mb = 1_000_000u64;
    let ok = vec![facts("/a/0.sf2", 50 * mb), facts("/a/1.sf2", 50 * mb), facts("/a/2.sf2", 50 * mb)];
    assert!(check_soundfonts(&ok).is_ok());
    let big = vec![facts("/a/0.sf2", 50 * mb), facts("/a/1.sf2", 50 * mb), facts("/a/2.sf2", 71 * mb)];
    assert!(check_soundfonts(&big).is_err());
}
