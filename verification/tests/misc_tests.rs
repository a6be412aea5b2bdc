use music_rust::cli::{is_audio_file, is_midi_file, parse_args, ArgsOutcome, LimitCheck};
use music_rust::input::{parse_key, Key};
use music_rust::log::{
    consume_log_pending, debug, enabled, error, format_time, info, log_line_text, set_progress_active,
    set_tui_active, snapshot, trace, tui_active, warn, Level, LogOutput, LogState, RING_CAP,
};
use music_rust::progress::Progress;

#[test]
fn recognizes_ffmpeg_audio_extensions() {
    assert!(is_audio_file("song.MP3"));
    assert!(is_audio_file("voice.flac"));
    assert!(!is_audio_file("score.txt"));
    assert!(!is_audio_file("song.mid"));
}

#[test]
fn midi_names_ignore_case() {
    assert!(is_midi_file("a.MID"));
    assert!(is_midi_file("dir/b.midi"));
    assert!(!is_midi_file("c.mid.txt"));
    assert!(is_audio_file("wav"));
    assert!(!is_audio_file("archive.tar.gz"));
}

#[test]
fn parses_sgr_left_mouse_press() {
    let (control, rest) = parse_key(b"\x1b[<0;17;6Mnext");
    assert_eq!(control, Some(Key::Mouse(17, 6)));
    assert_eq!(rest, b"next");
}

#[test]
fn keys_decode_plain_and_escape_sequences() {
    assert_eq!(parse_key(b" x"), (Some(Key::Pause), b"x".to_vec()));
    assert_eq!(parse_key(b"3"), (Some(Key::SeekPercent(3)), vec![]));
    assert_eq!(parse_key(b"9"), (Some(Key::VolumeDown), vec![]));
    assert_eq!(parse_key(b"\x1b[A"), (Some(Key::SeekForward(10)), vec![]));
    assert_eq!(parse_key(b"\x1b[D!"), (Some(Key::SeekBackward(5)), b"!".to_vec()));
    assert_eq!(parse_key(b"\x1b[5~q"), (Some(Key::SeekForward(60)), b"q".to_vec()));
    assert_eq!(parse_key(b"\x1b[6"), (None, b"\x1b[6".to_vec()));
    assert_eq!(parse_key(b"\x1b"), (None, b"\x1b".to_vec()));
    assert_eq!(parse_key(b"\x1bO"), (Some(Key::Ignored), b"O".to_vec()));
    assert_eq!(parse_key(b"\x1b[<0;17;6m"), (Some(Key::Ignored), vec![]));
    assert_eq!(parse_key(b"\x1b[<1;17;6M"), (Some(Key::Ignored), vec![]));
    assert_eq!(parse_key(b"\x1b[<0;x;17;6M"), (Some(Key::Mouse(17, 6)), vec![]));
    assert_eq!(parse_key(b"\x1b[<0;17"), (None, b"\x1b[<0;17".to_vec()));
    assert_eq!(parse_key(b""), (None, vec![]));
}

fn args(v: &[&str]) -> (Vec<String>, Vec<LimitCheck>) {
    let a: Vec<String> = v.iter().map(|s| s.to_string()).collect();
    let c: Vec<LimitCheck> = a
        .iter()
        .map(|s| match s.parse::<f32>() {
            Err(_) => LimitCheck::NotNumber,
            Ok(x) if x > 0.0 => LimitCheck::Positive,
            Ok(_) => LimitCheck::Accepted,
        })
        .collect();
    (a, c)
}

#[test]
fn command_line_options_are_read_in_order() {
    let (a, c) = args(&["song.txt", "-d", "-b", "120", "-v", "200", "-i", "41", "-s", "x.sf2", "-l", "-3.5"]);
    match parse_args(&a, &c) {
        Ok(ArgsOutcome::Run(r)) => {
            assert_eq!(r.file.as_deref(), Some("song.txt"));
            assert!(r.debug);
            assert_eq!(r.tempo, Some(500));
            assert_eq!(r.volume, 200);
            assert_eq!(r.instrument, 41);
            assert!(r.instrument_selected);
            assert_eq!(r.soundfonts, vec!["x.sf2".to_string()]);
            assert_eq!(r.limit_arg, Some(11));
            assert!(!r.midi);
        }
        _ => panic!("expected options"),
    }
    let (a, c) = args(&["-m", "x.mid"]);
    match parse_args(&a, &c) {
        Ok(ArgsOutcome::Run(r)) => {
            assert!(r.midi);
            assert_eq!(r.volume, 80);
            assert_eq!(r.file.as_deref(), Some("x.mid"));
        }
        _ => panic!("expected options"),
    }
    let (a, c) = args(&["-h", "-zzz"]);
    assert!(matches!(parse_args(&a, &c), Ok(ArgsOutcome::Help)));
}

#[test]
fn command_line_faults_are_reported() {
    let err = |v: &[&str]| {
        let (a, c) = args(v);
        match parse_args(&a, &c) {
            Err(e) => e,
            Ok(_) => panic!("expected an error"),
        }
    };
    assert_eq!(err(&["-x"]), "未知选项: -x");
    assert_eq!(err(&["a", "b"]), "只能指定一个乐曲文件: a 和 b");
    assert_eq!(err(&["-t", "0"]), "速度必须大于 0 毫秒");
    assert_eq!(err(&["-t"]), "--tempo 需要一个参数");
    assert_eq!(err(&["-b", "0"]), "BPM 必须在 1-60000 之间");
    assert_eq!(err(&["-v", "501"]), "音量超出范围 (0-500%)");
    assert_eq!(err(&["-i", "128"]), "音色编号超出范围 (0-127)");
    assert_eq!(err(&["-i", "x"]), "音色编号需为 0-127 的整数");
    assert_eq!(err(&["-l", "1.5"]), "限制电平必须 <= 0 dBFS");
    assert_eq!(err(&["-l", "loud"]), "限制电平需为数字 (dBFS)");
    assert_eq!(err(&["-s", "a", "-s", "b", "-s", "c", "-s", "d"]), "最多指定 3 个 SoundFont");
    assert_eq!(err(&["a", "-m", "b"]), "只能指定一个乐曲文件");
}

#[test]
fn level_labels_and_colors() {
    assert_eq!(Level::Debug.tag(), "DEBUG");
    assert_eq!(Level::Error.ansi(), "\x1b[1;31m");
    assert_eq!(Level::Warn.tui_color(), 220);
    assert!(Level::Trace.verbose_only());
    assert!(!Level::Info.verbose_only());
}

#[test]
fn log_ring_keeps_the_latest_lines() {
    let mut st = LogState::new(false, false);
    assert!(!enabled(&st));
    assert_eq!(debug(&mut st, "hidden".to_string(), 1), LogOutput::Quiet);
    assert_eq!(trace(&mut st, "hidden".to_string(), 1), LogOutput::Quiet);
    assert!(snapshot(&st).is_empty());
    for k in 0..(RING_CAP as u64 + 5) {
        info(&mut st, format!("m{}", k), k);
    }
    let snap = snapshot(&st);
    assert_eq!(snap.len(), RING_CAP);
    assert_eq!(snap[0].msg, "m5");
    assert_eq!(snap[RING_CAP - 1].msg, format!("m{}", RING_CAP + 4));
    assert_eq!(snap[RING_CAP - 1].time_ms, RING_CAP as u64 + 4);
}

#[test]
fn log_routing_follows_progress_and_tui() {
    let mut st = LogState::new(true, true);
    assert!(enabled(&st));
    set_progress_active(&mut st, true);
    assert_eq!(warn(&mut st, "w".to_string(), 3), LogOutput::Print { end_progress_line: true, color: true });
    assert!(consume_log_pending(&mut st));
    assert!(!consume_log_pending(&mut st));
    set_tui_active(&mut st, true);
    assert!(tui_active(&st));
    assert_eq!(error(&mut st, "e".to_string(), 4), LogOutput::Quiet);
    assert!(!consume_log_pending(&mut st));
    assert_eq!(snapshot(&st).len(), 2);
}

#[test]
fn log_lines_have_clock_and_tag() {
    assert_eq!(format_time(3_723_004), "01:02:03.004");
    assert_eq!(format_time(360_000_000), "100:00:00.000");
    assert_eq!(log_line_text(Level::Info, false, 61_001, "hi"), "[00:01:01.001] [INFO ] hi");
    assert_eq!(log_line_text(Level::Warn, true, 0, "x"), "\x1b[1;33m[00:00:00.000] [WARN ] x\x1b[0m");
}

#[test]
fn progress_bar_starts_empty() {
    let mut p = Progress::new(true);
    assert_eq!(p.width, 40);
    assert!(!p.finish());
    p.last_printed = true;
    assert!(p.finish());
    assert!(!p.last_printed);
    let mut q = Progress::new(false);
    q.last_printed = true;
    assert!(!q.finish());
}

#[test]
fn level_tags_are_five_wide_and_distinct() {
    let tags: Vec<&str> = [Level::Trace, Level::Debug, Level::Info, Level::Warn, Level::Error].iter().map(|l| l.tag()).collect();
    assert_eq!(tags, vec!["TRACE", "DEBUG", "INFO ", "WARN ", "ERROR"]);
    for (i, a) in tags.iter().enumerate() {
        assert_eq!(a.chars().count(), 5);
        for b in &tags[i + 1..] {
            assert_ne!(a, b);
        }
    }
}
