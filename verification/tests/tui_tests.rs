use music_rust::console::{caps_from_probe, output_kind_of, Caps, OutputKind};
use music_rust::panel::{body_rows, eq_lines, hint_text, mouse_hint_text, status_text, time_text};
use music_rust::tui::{
    append_pty_frame, clip_w, disp_width, format_time, freq_bar_cols, meta_text, MetaInfo,
    MouseHit, NamedColor, Style, TuiLayout, BAR_X0, EQ_LABEL_PAD, FREQ_LABELS,
};

#[test]
fn pty_frame_does_not_scroll_after_last_row() {
    let mut out = String::new();
    append_pty_frame(&mut out, &["row1".into(), "row2".into()]);
    assert_eq!(out, "\x1b[H\x1b[2Jrow1\nrow2");
    assert!(!out.ends_with('\n'));
}

#[test]
fn clip_and_pad_respect_cjk_width() {
    assert_eq!(disp_width("音乐"), 4);
    assert_eq!(disp_width("♪"), 1);
    assert_eq!(clip_w("中文标题很长的歌曲名字", 8, "…"), "中文标…");
    assert_eq!(clip_w("abcdefghijk", 6, "..."), "abc...");
    assert_eq!(clip_w("abcd", 8, "…"), "abcd");
    assert_eq!(disp_width("\x1b[38;2;1;2;3m音\x1b[0m"), 2);
    let t = format_time(3723_000);
    assert_eq!(t, "1:02:03");
    assert_eq!(format_time(83_000), "01:23");
}

#[test]
fn clip_to_zero_columns_is_empty() {
    assert_eq!(clip_w("abc", 0, "…"), "");
    assert_eq!(clip_w("abcdef", 2, "..."), "...");
    assert_eq!(disp_width("a\x1bxb"), 2);
    assert_eq!(disp_width("\x1b"), 0);
}

#[test]
fn freq_bars_align_with_labels() {
    let cols = freq_bar_cols();
    assert_eq!(cols, [0, 3, 6, 9, 13, 17, 21, 25, 29, 33, 37, 42, 47, 52, 57, 62]);
    let line = FREQ_LABELS.join(" ");
    let mut c = 0usize;
    for (i, l) in FREQ_LABELS.iter().enumerate() {
        assert_eq!(line[c..].starts_with(l), true, "band {} 标签错位", i);
        assert_eq!(cols[i], c + (l.len().saturating_sub(1)) / 2, "band {} 柱与标签错位", i);
        c += l.len() + usize::from(i < 15);
    }
    assert_eq!(c, 64);
    assert!(EQ_LABEL_PAD + c <= 74);
}

#[test]
fn console_style_degrades_gracefully() {
    let caps = Caps::default();
    let st = Style::console(caps);
    assert_eq!(st.tr("循环", "Loop"), "Loop");
    assert_eq!(st.tr_mode("音乐文件"), "Music File");
    assert_eq!(st.tr_mode("MIDI 音乐"), "MIDI Music");
    assert_eq!(st.tr_mode("简谱"), "Score");
    assert_eq!(st.box_.tl, "+");
    assert_eq!(st.box_.v, "|");
    assert_eq!(st.prog_full, '#');
    assert_eq!(st.marker, '>');
    assert_eq!(st.safe("贝多芬"), "???");
    assert_eq!(st.safe("Beethoven"), "Beethoven");
    assert!(!st.p.col(NamedColor::Cyan).contains("38;2"));
    let caps2 = Caps {
        charcount: 1024, has_cjk: true, has_box: true, has_block: true,
        has_upper_half: true, has_dot: true, has_music: true,
        has_arrow_l: true, has_arrow_r: true, has_middot: true, has_ellipsis: true,
    };
    let st2 = Style::console(caps2);
    assert_eq!(st2.tr("循环", "Loop"), "循环");
    assert_eq!(st2.box_.tl, "╭");
    assert_eq!(st2.prog_full, '█');
}

#[test]
fn framed_line_pads_to_inner_width() {
    let st = Style::full();
    let l = music_rust::tui::line(6, &st, "ab");
    assert_eq!(l, "\x1b[38;2;140;140;150m│ ab     │\x1b[0m");
    let wide = music_rust::tui::line(2, &st, "音乐");
    assert_eq!(wide, "\x1b[38;2;140;140;150m│ 音乐 │\x1b[0m");
}

#[test]
fn meta_text_colors_label_and_clips_value() {
    let st = Style::full();
    let t = meta_text("作曲家", "贝多芬", 20, &st);
    assert_eq!(t, "\x1b[38;2;255;95;215m作曲家 \x1b[0m贝多芬\x1b[0m");
    let ascii = Style::console(Caps::default());
    let t2 = meta_text("专辑", "Sonatas", 9, &ascii);
    assert_eq!(t2, "\x1b[32mAlbum \x1b[0m...\x1b[0m");
}

#[test]
fn meta_lines_join_date_and_genre() {
    let m = MetaInfo {
        title: Some("t".to_string()),
        artist: Some("A".to_string()),
        album: None,
        composer: Some("C".to_string()),
        date: Some("1808".to_string()),
        genre: Some("Classical".to_string()),
    };
    let lines = m.lines();
    assert_eq!(lines, vec![("作曲家", "C".to_string()), ("艺术家", "A".to_string()), ("年代/风格", "1808 · Classical".to_string())]);
    assert!(MetaInfo::default().lines().is_empty());
}

#[test]
fn console_caps_follow_the_font_probe() {
    assert_eq!(caps_from_probe(0, None, None), Caps::default());
    let big = caps_from_probe(512, None, None);
    assert!(big.has_box && big.has_block && big.has_upper_half && !big.has_cjk);
    assert_eq!(big.charcount, 512);
    let mapped = caps_from_probe(512, Some(3), Some(vec![(0x4E2D, 7), (0x2502, 9), (0x2588, 0)]));
    assert!(mapped.has_cjk && mapped.has_box && !mapped.has_block);
    let too_many = caps_from_probe(256, Some(70000), None);
    assert_eq!(too_many, Caps { charcount: 256, ..Caps::default() });
}

#[test]
fn pts_devices_are_emulators() {
    assert_eq!(output_kind_of(Some("/dev/pts/3")), OutputKind::Pty);
    assert_eq!(output_kind_of(Some("/dev/tty1")), OutputKind::Tty);
    assert_eq!(output_kind_of(None), OutputKind::Pty);
}

fn fraction(hit: MouseHit) -> f64 {
    match hit {
        MouseHit::Seek { offset, span } => offset as f64 / span as f64,
        other => panic!("expected a seek, got {:?}", other),
    }
}

#[test]
fn mouse_bar_click_maps_precisely() {
    let tui = TuiLayout { width: 80, status_row: 3, bar_row: 4 };
    assert_eq!(BAR_X0, 6);
    let bar_w = 64.0;
    let bar_row = tui.bar_row;
    assert_eq!(fraction(tui.mouse_control(BAR_X0, bar_row, false)), 0.0);
    let c = fraction(tui.mouse_control(BAR_X0 + (bar_w as u16) - 1, bar_row, false));
    assert!((c - 1.0).abs() < 1e-9);
    let c = fraction(tui.mouse_control(37, bar_row, false));
    assert!((c - 31.0 / 63.0).abs() < 1e-9);
    assert_eq!(fraction(tui.mouse_control(3, bar_row, false)), 0.0);
    let c = fraction(tui.mouse_control(76, bar_row, false));
    assert!((c - 1.0).abs() < 1e-9);
    assert_eq!(tui.mouse_control(37, bar_row + 1, false), MouseHit::Nothing);
    assert_eq!(tui.mouse_control(10, tui.status_row, true), MouseHit::Play);
    assert_eq!(tui.mouse_control(10, tui.status_row, false), MouseHit::Pause);
}

#[test]
fn mouse_bar_click_narrow_terminal() {
    let mut tui = TuiLayout { width: 80, status_row: 3, bar_row: 4 };
    tui.width = 40;
    let bar_w = 24.0;
    let bar_row = tui.bar_row;
    assert_eq!(fraction(tui.mouse_control(BAR_X0, bar_row, false)), 0.0);
    let c = fraction(tui.mouse_control(BAR_X0 + (bar_w as u16) - 1, bar_row, false));
    assert!((c - 1.0).abs() < 1e-9);
    let c = fraction(tui.mouse_control(17, bar_row, false));
    assert!((c - 11.0 / 23.0).abs() < 1e-9);
}

#[test]
fn mouse_seek_reports_exact_cell() {
    let tui = TuiLayout { width: 80, status_row: 3, bar_row: 4 };
    assert_eq!(tui.mouse_control(37, 4, true), MouseHit::Seek { offset: 31, span: 63 });
    let tiny = TuiLayout { width: 10, status_row: 1, bar_row: 2 };
    assert_eq!(tiny.mouse_control(100, 2, false), MouseHit::Seek { offset: 7, span: 7 });
}

#[test]
fn clipped_text_fits_its_columns() {
    for max in 1..12 {
        for text in ["中文标题很长的歌曲名字", "abcdefghijk", "a中b文c", ""] {
            let clipped = clip_w(text, max, "…");
            assert!(disp_width(&clipped) <= max, "{} at {}", text, max);
        }
    }
    assert_eq!(disp_width(&clip_w("中文标题很长的歌曲名字", 8, "…")), 7);
}

#[test]
fn status_row_shows_mode_state_and_loop() {
    let full = Style::full();
    assert_eq!(
        status_text(&full, "简谱", false, false),
        "\x1b[38;2;0;170;230m简谱\x1b[0m  \x1b[38;2;110;255;170m●\x1b[0m   \x1b[38;2;110;255;170m正在播放\x1b[0m\x1b[38;2;90;90;100m\x1b[0m循环 \x1b[38;2;90;90;100m关\x1b[0m"
    );
    let console = Style::console(Caps::default());
    assert_eq!(
        status_text(&console, "简谱", true, true),
        "\x1b[36mScore\x1b[0m  \x1b[91m*\x1b[0m   \x1b[93mPaused\x1b[0m\x1b[90m\x1b[0mLoop \x1b[92mON\x1b[0m"
    );
}

#[test]
fn time_row_shows_elapsed_total_and_left() {
    assert_eq!(
        time_text(&Style::full(), 83_000, 3_723_000),
        "\x1b[1m01:23\x1b[0m / \x1b[2m1:02:03\x1b[0m    \x1b[2m剩余 1:00:40\x1b[0m"
    );
    assert_eq!(
        time_text(&Style::console(Caps::default()), 5_000, 1_000),
        "\x1b[1m00:05\x1b[0m / \x1b[2m00:01\x1b[0m    \x1b[2mleft 00:00\x1b[0m"
    );
}

#[test]
fn hint_rows_follow_the_language() {
    assert_eq!(
        hint_text(&Style::full()),
        "\x1b[2m 空格 暂停 · ←/→ 快退/快进 · ↑/↓ 10s · R 循环 · 9/0 音量 · Q 退出 \x1b[0m"
    );
    assert_eq!(
        hint_text(&Style::console(Caps::default())),
        "\x1b[2m Space Pause | <-/-> seek | Up/Down 10s | R Loop | 9/0 Vol \x1b[0m"
    );
    assert_eq!(
        mouse_hint_text(&Style::console(Caps::default())),
        "\x1b[2mMouse: click bar to seek, click status row to play/pause\x1b[0m"
    );
}

#[test]
fn equalizer_bars_stand_under_their_labels() {
    let full = Style::full();
    let mut spectrum = [0u8; 16];
    spectrum[0] = 7;
    spectrum[15] = 3;
    let wide = eq_lines(&full, 76, &spectrum);
    assert_eq!(wide.len(), 8);
    assert_eq!(
        wide[0],
        "\x1b[38;2;0;215;255m动态 EQ\x1b[0m  20 30 46 70 105 160 240 360 550 830 1.2k 1.9k 2.9k 4.4k 6.6k 10k"
    );
    let cols = freq_bar_cols();
    for (k, row) in wide[1..].iter().enumerate() {
        let level = 7 - k as u8;
        let visible: Vec<char> = strip_ansi(row);
        assert_eq!(visible.len(), EQ_LABEL_PAD + cols[15] + 1);
        for band in 0..16 {
            let c = visible[EQ_LABEL_PAD + cols[band]];
            let lit = spectrum[band] >= level;
            assert_eq!(c, if lit { '█' } else { '░' }, "level {} band {}", level, band);
        }
    }
    let narrow = eq_lines(&Style::console(Caps::default()), 40, &spectrum);
    assert_eq!(narrow[0], "\x1b[96mDynamic EQ\x1b[0m  |  20Hz - 10kHz");
    let bottom = strip_ansi(&narrow[7]);
    assert_eq!(bottom.iter().collect::<String>(), "         # . . . . . . . . . . . . . . #");
}

fn strip_ansi(s: &str) -> Vec<char> {
    let mut out = Vec::new();
    let mut chars = s.chars();
    while let Some(c) = chars.next() {
        if c == '\x1b' {
            for d in chars.by_ref() {
                if d == 'm' {
                    break;
                }
            }
        } else {
            out.push(c);
        }
    }
    out
}

#[test]
fn equalizer_and_details_share_the_rows_left() {
    assert_eq!(body_rows(24, 9, 2), (8, 2));
    assert_eq!(body_rows(24, 9, 9), (8, 4));
    assert_eq!(body_rows(20, 9, 4), (8, 0));
    assert_eq!(body_rows(16, 9, 4), (0, 4));
    assert_eq!(body_rows(10, 12, 1), (0, 0));
}

#[test]
fn screen_rows_put_the_bar_under_the_status_line() {
    let plain = TuiLayout::for_screen(80, 0);
    assert_eq!((plain.status_row, plain.bar_row), (3, 4));
    let with_logo = TuiLayout::for_screen(80, 6);
    assert_eq!((with_logo.status_row, with_logo.bar_row), (10, 11));
    assert_eq!(with_logo.mouse_control(3, 11, false), MouseHit::Seek { offset: 0, span: 63 });
    assert_eq!(with_logo.mouse_control(3, 10, true), MouseHit::Play);
}
