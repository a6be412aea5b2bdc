use music_rust::midi::{read_tempo_map, scan_midi_length, MidiTimeMap};

fn midi_with_track(track: &[u8]) -> Vec<u8> {
    let mut midi = b"MThd\0\0\0\x06\0\0\0\x01\x01\xe0MTrk".to_vec();
    midi.extend_from_slice(&(track.len() as u32).to_be_bytes());
    midi.extend_from_slice(track);
    midi
}

/// Milliseconds from a length scan, the way the player estimates them.
fn estimate_ms(division: u16, max_tick: u64, tempos: &[(u64, u32)]) -> u32 {
    let mut ms: f64 = 0.0;
    let mut prev_tick: u64 = 0;
    let mut cur_us: u32 = 500000;
    for (t, us) in tempos {
        ms += (*t - prev_tick) as f64 / division as f64 * cur_us as f64 / 1000.0;
        prev_tick = *t;
        cur_us = *us;
    }
    ms += (max_tick - prev_tick) as f64 / division as f64 * cur_us as f64 / 1000.0;
    (ms as u32).max(1)
}

#[test]
fn midi_time_map_honors_tempo_changes_and_running_status() {
    let track = [
        0x00, 0xff, 0x51, 0x03, 0x07, 0xa1, 0x20,
        0x83, 0x60, 0xff, 0x51, 0x03, 0x0f, 0x42, 0x40,
        0x00, 0x90, 0x3c, 0x40,
        0x81, 0x70, 0x3c, 0x00,
        0x00, 0xff, 0x2f, 0x00,
    ];
    let midi = midi_with_track(&track);
    let map = read_tempo_map(&midi).unwrap();
    assert_eq!(map.tick_to_ms(480), 500);
    assert_eq!(map.tick_to_ms(720), 1_000);
    assert_eq!(map.ms_to_tick(500), 480);
    assert_eq!(map.ms_to_tick(1_000), 720);
}

#[test]
fn tempo_map_refuses_smpte_and_truncated_files() {
    let mut smpte = midi_with_track(&[0x00, 0xff, 0x2f, 0x00]);
    smpte[12] = 0xe7;
    smpte[13] = 0x28;
    assert!(read_tempo_map(&smpte).is_none());
    assert!(read_tempo_map(b"MThd").is_none());
    let mut cut = midi_with_track(&[0x00, 0xff, 0x51, 0x03, 0x07, 0xa1, 0x20]);
    cut.truncate(cut.len() - 2);
    assert!(read_tempo_map(&cut).is_none());
}

#[test]
fn fixed_rate_without_a_metrical_division() {
    let map = MidiTimeMap { division: 0, tempos: vec![] };
    assert_eq!(map.tick_to_ms(480), 500);
    assert_eq!(map.ms_to_tick(500), 480);
    assert_eq!(map.ms_to_tick(1), 1);
    let map2 = MidiTimeMap { division: 480, tempos: vec![(0, 500_000), (480, 1_000_000)] };
    assert_eq!(map2.tick_to_ms(960), 1_500);
    assert_eq!(map2.ms_to_tick(1_500), 960);
    assert_eq!(map2.tick_to_ms(u64::MAX), u32::MAX as u64);
}

#[test]
fn midi_total_ms_handles_channels_other_than_zero() {
    let payload = [
        0x00, 0x91, 0x3C, 0x64,
        0x83, 0x60, 0x81, 0x3C, 0x00,
        0x00, 0xFF, 0x2F, 0x00,
    ];
    let midi = midi_with_track(&payload);
    let len = scan_midi_length(&midi).unwrap();
    assert_eq!(len.division, 480);
    assert_eq!(len.max_tick, 480);
    assert_eq!(len.tempos, vec![(0, 500000)]);
    assert_eq!(estimate_ms(len.division, len.max_tick, &len.tempos), 500);
}

#[test]
fn midi_total_ms_rejects_truncated_tempo_event() {
    let payload = [0x00, 0xFF, 0x51, 0x03, 0x07, 0xA1];
    let midi = midi_with_track(&payload);
    assert!(scan_midi_length(&midi).is_none());
}

#[test]
fn midi_length_keeps_tempos_in_tick_order() {
    let t1 = [0x00, 0x90, 0x3c, 0x40, 0x83, 0x60, 0x80, 0x3c, 0x00];
    let t2 = [0x83, 0x60, 0xff, 0x51, 0x03, 0x0f, 0x42, 0x40, 0x00, 0xff, 0x51, 0x03, 0x07, 0xa1, 0x20];
    let mut midi = b"MThd\0\0\0\x06\0\x01\0\x02\x01\xe0".to_vec();
    for t in [&t1[..], &t2[..]] {
        midi.extend_from_slice(b"MTrk");
        midi.extend_from_slice(&(t.len() as u32).to_be_bytes());
        midi.extend_from_slice(t);
    }
    let len = scan_midi_length(&midi).unwrap();
    assert_eq!(len.max_tick, 480);
    assert_eq!(len.tempos, vec![(480, 1_000_000), (480, 500_000)]);
}

#[test]
fn ms_to_tick_gives_first_tick_reaching_the_time() {
    let map = MidiTimeMap { division: 480, tempos: vec![(0, 500_000), (480, 1_000_000)] };
    for ms in [0u32, 1, 250, 499, 500, 501, 777, 1_000, 1_499, 1_500, 10_000] {
        let tick = map.ms_to_tick(ms);
        assert!(map.tick_to_ms(tick) >= ms as u64, "{} ms", ms);
        if tick > 0 {
            assert!(map.tick_to_ms(tick - 1) < ms as u64, "{} ms", ms);
        }
    }
    assert_eq!(map.ms_to_tick(501), 481);
    assert_eq!(map.tick_to_ms(481), 502);
    assert_eq!(map.tick_to_ms(480), 500);
}

#[test]
fn relative_seek_follows_the_tempo_map() {
    let map = MidiTimeMap { division: 480, tempos: vec![(0, 500_000), (480, 1_000_000)] };
    // Tick 480 is at 0.5 s; one second later (now at 60 BPM) is tick 960.
    assert_eq!(map.relative_seek_ticks(480, 4_800, 1_000), 960);
    assert_eq!(map.relative_seek_ticks(480, 4_800, -1_000), 0);
    assert_eq!(map.relative_seek_ticks(480, 4_800, 60_000), 4_800);
    assert_eq!(map.relative_seek_ticks(-5, -1, 1_000), 0);
    assert_eq!(map.relative_seek_ticks(10_000, 960, 0), 960);
}
