use music_rust::parser::{
    collect_events, parse_str, print_first_events, print_score_summary, ScheduledNote, Score, Track,
};
use music_rust::log::Level;
use music_rust::parse_notes::{parse_str_noted, ParseNote};
use music_rust::token::{line_warnings, parse_line, parse_token, token_warnings, TokenNote};

fn chars(s: &str) -> Vec<char> {
    s.chars().collect()
}

#[test]
fn test_chord_parse() {
    let (notes, dur) = parse_token(&chars("[1,3,5,]-"), 500);
    println!("[1,3,5,]- notes={:?} dur={}", notes, dur);
    let (notes2, dur2) = parse_token(&chars("[4,6,1]-"), 500);
    println!("[4,6,1]- notes={:?} dur={}", notes2, dur2);
    let events = parse_line(&chars("[1,3,5,]- [4,6,1]- [2,4#,6,]- [1,3,5,]-"), 500);
    println!("parse_line events: {:?}", events);
}

#[test]
fn chord_tokens_give_lowered_notes_and_extended_duration() {
    let (notes, dur) = parse_token(&chars("[1,3,5,]-"), 500);
    assert_eq!(notes, vec![48, 52, 55]);
    assert_eq!(dur, 1000);
    let (notes2, dur2) = parse_token(&chars("[4,6,1]-"), 500);
    assert_eq!(notes2, vec![53, 57, 60]);
    assert_eq!(dur2, 1000);
    let events = parse_line(&chars("[1,3,5,]- [4,6,1]- [2,4#,6,]- [1,3,5,]-"), 500);
    assert_eq!(events.len(), 4);
    assert_eq!(events[2].notes, vec![50, 54, 57]);
}

#[test]
fn token_modifiers_scale_duration() {
    assert_eq!(parse_token(&chars("1"), 500), (vec![60], 500));
    assert_eq!(parse_token(&chars("1_"), 500), (vec![60], 250));
    assert_eq!(parse_token(&chars("1."), 500), (vec![60], 750));
    assert_eq!(parse_token(&chars("5^"), 500), (vec![79], 500));
    assert_eq!(parse_token(&chars("0-"), 400), (vec![], 800));
}

#[test]
fn test_v3_absolute_ticks_and_global_tempo() {
    let text = "#MUSIC_RUST 3\n#TITLE V3\n#PPQ 480\n@TEMPO 0 500000\n@TEMPO 480 1000000\n@TRACK 7 3 \"Piano Main\"\n@TRACK 2 1 Bass\n@NOTE 7 0 480 60 100\n@NOTE 2 960 480 36 80\n";
    let score = parse_str(text, None).unwrap();
    assert_eq!(score.title, "V3");
    assert_eq!(score.tracks.len(), 2);
    assert_eq!(score.tracks[0].name, "Piano Main");
    assert_eq!(score.tracks[0].channel, 3);
    assert_eq!(score.tracks[0].events[0].at_ms, 0);
    assert_eq!(score.tracks[0].events[1].at_ms, 500);
    assert_eq!(score.tracks[1].events[0].at_ms, 1500);
    assert_eq!(score.total_ms, 2500);
}

#[test]
fn test_v3_force_tempo_scales_whole_timeline() {
    let text = "#FORMAT 3\n#PPQ 480\n@TEMPO 0 500000\n@TEMPO 480 1000000\n@TRACK 0 0 P\n@NOTE 0 0 960 60 96\n";
    let score = parse_str(text, Some(250)).unwrap();
    assert_eq!(score.tempo_ms, 250);
    assert_eq!(score.total_ms, 750);
}

#[test]
fn v3_errors_name_the_line_and_the_fault() {
    let missing_track = "#MUSIC_RUST 3\n@TEMPO 0 500000\n";
    assert_eq!(parse_str(missing_track, None).unwrap_err(), "v3 文件没有 @TRACK");
    let dup = "#MUSIC_RUST 3\n@TRACK 1 0 A\n@TRACK 1 1 B\n";
    assert_eq!(parse_str(dup, None).unwrap_err(), "v3 重复的 track id: 1");
    let orphan = "#MUSIC_RUST 3\n@TRACK 1 0 A\n@NOTE 5 0 10 60 90\n";
    assert_eq!(parse_str(orphan, None).unwrap_err(), "v3 音符引用不存在的 track id: 5");
    let bad_channel = "#MUSIC_RUST 3\n@TRACK 1 16 A\n";
    assert_eq!(parse_str(bad_channel, None).unwrap_err(), "v3 第2行 channel 必须是 0-15");
    let zero_ppq = "#MUSIC_RUST 3\n#PPQ 0\n";
    assert_eq!(parse_str(zero_ppq, None).unwrap_err(), "v3 第2行 PPQ 不能为 0");
    let unknown = "#MUSIC_RUST 3\n@BOGUS 1\n";
    assert_eq!(parse_str(unknown, None).unwrap_err(), "v3 第2行未知记录类型: @BOGUS");
}

#[test]
fn v3_unnamed_track_gets_numbered_name() {
    let text = "#MUSIC_RUST 3\n@TRACK 4 0\n@NOTE 4 0 480 60 90\n";
    let score = parse_str(text, None).unwrap();
    assert_eq!(score.tracks[0].name, "Track5");
    assert_eq!(score.tempo_ms, 500);
    assert_eq!(score.tracks[0].events.len(), 2);
    assert!(score.tracks[0].events[0].on);
    assert!(!score.tracks[0].events[1].on);
}

#[test]
fn legacy_two_line_groups_make_right_and_left_hands() {
    let text = "500\n1 2\n1,\n";
    let score = parse_str(text, None).unwrap();
    assert_eq!(score.tempo_ms, 500);
    assert_eq!(score.tracks.len(), 2);
    assert_eq!(score.tracks[0].name, "右手(R)");
    assert_eq!(score.tracks[1].name, "左手(L)");
    assert_eq!(score.tracks[0].events.len(), 4);
    assert_eq!(score.tracks[1].events[0].key, 48);
    assert_eq!(score.total_ms, 1000);
}

#[test]
fn forced_tempo_overrides_header_and_bpm_header_sets_tempo() {
    let forced = parse_str("500\n1\n", Some(250)).unwrap();
    assert_eq!(forced.tempo_ms, 250);
    let bpm = parse_str("#BPM 120\n1\n", None).unwrap();
    assert_eq!(bpm.tempo_ms, 500);
    let titled = parse_str("# TITLE 欢乐颂\n300\n1\n", None).unwrap();
    assert_eq!(titled.title, "欢乐颂");
    assert_eq!(titled.tempo_ms, 300);
}

#[test]
fn track_format_builds_named_tracks() {
    let text = "500\nT 旋律 | 1 2 3\n";
    let score = parse_str(text, None).unwrap();
    assert_eq!(score.tracks.len(), 1);
    assert_eq!(score.tracks[0].name, "旋律");
    assert_eq!(score.tracks[0].channel, 0);
    assert_eq!(score.tracks[0].events.len(), 6);
    assert_eq!(score.total_ms, 1500);
    for t in &score.tracks {
        for w in t.events.windows(2) {
            assert!(w[0].at_ms <= w[1].at_ms);
        }
    }
}

#[test]
fn events_are_sorted_with_note_on_first_at_equal_times() {
    let score = parse_str("500\n1 1\n", None).unwrap();
    let t = &score.tracks[0];
    assert_eq!(t.events.len(), 4);
    assert!(t.events[0].on);
    assert_eq!(t.events[1].at_ms, 500);
    assert!(t.events[1].on);
    assert!(!t.events[2].on);
}

fn note(at_ms: u32, key: u8, on: bool, channel: u8) -> ScheduledNote {
    ScheduledNote { at_ms, key, vel: 96, on, channel }
}

#[test]
fn summary_counts_note_ons_per_track() {
    let score = Score {
        tempo_ms: 400,
        title: "T".to_string(),
        total_ms: 900,
        tracks: vec![
            Track { name: "a".to_string(), channel: 0, events: vec![note(0, 60, true, 0), note(400, 60, false, 0)] },
            Track { name: "b".to_string(), channel: 1, events: vec![] },
        ],
    };
    let s = print_score_summary(&score);
    assert_eq!(s.title, "T");
    assert_eq!(s.tempo_ms, 400);
    assert_eq!(s.total_ms, 900);
    assert_eq!(s.tracks.len(), 2);
    assert_eq!(s.tracks[0].notes, 1);
    assert_eq!(s.tracks[0].events, 2);
    assert_eq!(s.tracks[1].notes, 0);
}

#[test]
fn first_events_listing_is_padded_and_limited() {
    let score = Score {
        tempo_ms: 500,
        title: String::new(),
        total_ms: 500,
        tracks: vec![
            Track { name: "a".to_string(), channel: 0, events: vec![note(0, 60, true, 0), note(500, 60, false, 0)] },
            Track { name: "b".to_string(), channel: 2, events: vec![note(0, 7, true, 2)] },
        ],
    };
    let lines = print_first_events(&score, 2);
    assert_eq!(lines.len(), 3);
    assert_eq!(lines[0], "前 2 条排程事件:");
    assert_eq!(lines[1], format!("  [ch{}] {:>8}ms {} key={:3} vel={}", 0, 0, "note-on ", 60, 96));
    assert_eq!(lines[2], format!("  [ch{}] {:>8}ms {} key={:3} vel={}", 0, 500, "note-off", 60, 96));
    let all = print_first_events(&score, 20);
    assert_eq!(all.len(), 4);
    assert_eq!(all[3], "  [ch2]        0ms note-on  key=  7 vel=96");
}

#[test]
fn collected_events_play_note_offs_first_at_equal_times() {
    let score = Score {
        tempo_ms: 500,
        title: String::new(),
        total_ms: 500,
        tracks: vec![
            Track { name: "a".to_string(), channel: 0, events: vec![note(0, 60, true, 0), note(500, 60, false, 0)] },
            Track { name: "b".to_string(), channel: 1, events: vec![note(500, 62, true, 1), note(0, 64, true, 1)] },
        ],
    };
    let evs = collect_events(&score);
    let order: Vec<(u32, u8, bool)> = evs.iter().map(|e| (e.at_ms, e.key, e.on)).collect();
    assert_eq!(order, vec![(0, 60, true), (0, 64, true), (500, 60, false), (500, 62, true)]);
}

#[test]
fn v3_minor_versions_use_absolute_ticks() {
    for marker in ["#MUSIC_RUST 3.2", "#MUSIC_RUST 3.1", "#format 3.2"] {
        let text = format!("{}\n#PPQ 480\n@TRACK 0 0 Melody\n@NOTE 0 0 480 60 96\n", marker);
        let s = parse_str(&text, None).unwrap();
        assert_eq!(s.tracks.len(), 1);
        assert_eq!(s.tracks[0].name, "Melody");
        assert_eq!(s.tracks[0].channel, 0);
        let evs: Vec<(u32, u8, bool)> = s.tracks[0].events.iter().map(|e| (e.at_ms, e.key, e.on)).collect();
        assert_eq!(evs, vec![(0, 60, true), (500, 60, false)]);
        assert_eq!(s.total_ms, 500);
    }
}

#[test]
fn bpm_line_holds_for_every_later_track() {
    let score = parse_str("T A | 1 2\n#BPM 60\nT B | 1 2\n", None).unwrap();
    let view = |t: &Track| t.events.iter().map(|e| (e.at_ms, e.key, e.on)).collect::<Vec<_>>();
    assert_eq!(score.tracks.len(), 2);
    assert_eq!(view(&score.tracks[0]), vec![(0, 60, true), (500, 62, true), (500, 60, false), (1000, 62, false)]);
    assert_eq!(view(&score.tracks[1]), vec![(0, 60, true), (1000, 62, true), (1000, 60, false), (2000, 62, false)]);
    assert_eq!(score.total_ms, 2000);
}

#[test]
fn token_reports_clamped_octaves_and_unknown_chars() {
    let c = |s: &str| s.chars().collect::<Vec<char>>();
    assert_eq!(token_warnings(&c("1^^^^^")), vec![TokenNote::OctaveTooHigh(5)]);
    assert_eq!(token_warnings(&c("2,,,,")), vec![TokenNote::OctaveTooLow(-4)]);
    assert_eq!(token_warnings(&c("1^^^^")), vec![]);
    assert_eq!(token_warnings(&c("1x")), vec![TokenNote::UnknownChar('x')]);
    assert_eq!(token_warnings(&c("^1")), vec![TokenNote::UnknownChar('^')]);
    assert_eq!(token_warnings(&c("[1^^^^^3,,,,]")), vec![TokenNote::OctaveTooHigh(5), TokenNote::OctaveTooLow(-4)]);
    assert_eq!(line_warnings(&c("1 9 ||")), vec![TokenNote::UnknownChar('9')]);
}

#[test]
fn parse_reports_follow_the_track_format() {
    let (parsed, notes) = parse_str_noted("T A | 1 2\n#BPM 60\nT B | 1 2\n", None);
    assert_eq!(parsed.unwrap().tracks.len(), 2);
    assert_eq!(
        notes,
        vec![ParseNote::Tempo(500), ParseNote::TrackFormat, ParseNote::TrackTempo(1000, Some(60)), ParseNote::TrackDone(2)]
    );
    let (_, notes) = parse_str_noted("1 2\nT A | 3 4\n", None);
    assert_eq!(notes, vec![ParseNote::Tempo(500), ParseNote::TrackFormat, ParseNote::NoHeader, ParseNote::TrackDone(1)]);
}

#[test]
fn parse_reports_follow_the_hand_format() {
    let (_, notes) = parse_str_noted("120\n1\n", Some(300));
    assert_eq!(
        notes,
        vec![ParseNote::ForcedTempo(300), ParseNote::Tempo(300), ParseNote::HandFormat, ParseNote::HandTempo(1, None), ParseNote::HandDone(0, 0)]
    );
    let (_, notes) = parse_str_noted("120\n1 2\n3 4\n#BPM 60\n", None);
    assert_eq!(
        notes,
        vec![ParseNote::Tempo(120), ParseNote::HandFormat, ParseNote::HandTempo(1000, Some(60)), ParseNote::HandDone(1, 2)]
    );
    let (_, notes) = parse_str_noted("120\n1 2\n", Some(300));
    assert_eq!(notes, vec![ParseNote::ForcedTempo(300), ParseNote::Tempo(300), ParseNote::HandFormat, ParseNote::HandDone(1, 1)]);
    let (_, notes) = parse_str_noted("1^^^^^ 8\n", None);
    assert_eq!(
        notes,
        vec![
            ParseNote::Tempo(500),
            ParseNote::HandFormat,
            ParseNote::Token("1^^^^^".to_string(), TokenNote::OctaveTooHigh(5)),
            ParseNote::Token("8".to_string(), TokenNote::UnknownChar('8')),
            ParseNote::HandDone(1, 1),
        ]
    );
}

#[test]
fn parse_reports_count_the_absolute_tick_format() {
    let (parsed, notes) = parse_str_noted("#MUSIC_RUST 3.2\n#PPQ 480\n@TRACK 0 0 Melody\n@NOTE 0 0 480 60 96\n", None);
    assert!(parsed.is_ok());
    assert_eq!(notes, vec![ParseNote::V3Done(1, 2)]);
    let (parsed, notes) = parse_str_noted("#MUSIC_RUST 3\n@NOTE 0 0 480 60 96\n", None);
    assert!(parsed.is_err());
    assert!(notes.is_empty());
    assert_eq!(ParseNote::Tempo(1).level(), Level::Debug);
    assert_eq!(ParseNote::NoHeader.level(), Level::Warn);
    assert_eq!(ParseNote::TrackDone(1).level(), Level::Info);
}

#[test]
fn parsed_tracks_keep_channels_pairs_and_length() {
    for text in ["T A | 1 [3 5]-\nT B | 1^^^^^ 2\n", "1 2 3\n5 5\n", "#MUSIC_RUST 3.1\n@TRACK 1 4 X\n@NOTE 1 0 480 60 90\n@NOTE 1 240 480 64 90\n"] {
        let s = parse_str(text, None).unwrap();
        let mut latest = 0u32;
        for t in &s.tracks {
            for e in &t.events {
                assert_eq!(e.channel, t.channel);
                if !e.on {
                    latest = latest.max(e.at_ms);
                }
            }
            for key in 0..=127u8 {
                let ons = t.events.iter().filter(|e| e.key == key && e.on).count();
                let offs = t.events.iter().filter(|e| e.key == key && !e.on).count();
                assert_eq!(ons, offs);
            }
        }
        assert_eq!(s.total_ms, latest);
    }
}

#[test]
fn v3_refuses_each_faulty_record() {
    let head = "#MUSIC_RUST 3\n@TRACK 1 0 A\n";
    assert!(parse_str(&format!("{}@NOTE 1 0 480 60 90\n", head), None).is_ok());
    for bad in [
        "@TRACK 2 16 B\n",
        "FOO 1\n",
        "@NOTE 1 0 0 60 90\n",
        "@NOTE 1 0 480 128 90\n",
        "@NOTE 1 0 480 60 0\n",
        "@NOTE 1 0 480 60\n",
        "@TEMPO 0 0\n",
        "#PPQ 0\n",
        "@NOTE 9 0 480 60 90\n",
        "@TRACK 1 2 again\n",
    ] {
        assert!(parse_str(&format!("{}{}", head, bad), None).is_err(), "{}", bad);
    }
    assert!(parse_str("#MUSIC_RUST 3\n@NOTE 1 0 480 60 90\n", None).is_err());
}
