//! Text of the player screen's panels: the equalizer, the status, time and
//! key-hint lines. Each function gives the content of screen lines, which
//! `tui::line` frames.
use vstd::prelude::*;
use crate::text::{append, chars_of, string_from_chars};
use crate::tui::{format_time, freq_bar_cols, label_lens, label_start, mode_name, play_clock, spaces, spaces_exec, sub_sat, Style};

verus! {

pub open spec fn reset() -> Seq<char> {
    "\x1b[0m"@
}

// ---------------------------------------------------------------------------
// Equalizer
// ---------------------------------------------------------------------------

/// Column (within the label row) of band `i`'s bar: the middle of its label.
pub open spec fn eq_col(i: int) -> int {
    label_start(i) + (label_lens()[i] - 1) / 2
}

proof fn lemma_label_start_small(i: int)
    requires
        0 <= i <= 16,
    ensures
        label_start(i) <= 5 * i,
    decreases i,
{
    if i > 0 {
        lemma_label_start_small(i - 1);
        assert(label_lens()[i - 1] <= 4);
    }
}

/// Spaces before band `b`'s bar on a wide screen.
pub open spec fn eq_gap(b: int) -> nat {
    if b == 0 {
        eq_col(0) as nat
    } else {
        sub_sat(eq_col(b) as nat, (eq_col(b - 1) + 1) as nat)
    }
}

/// One bar cell at `level` (1 at the bottom, 7 at the top): lit in the
/// level's color when the band reaches it.
pub open spec fn eq_cell(st: Style, level: int, v: u8) -> Seq<char> {
    if v >= level {
        st.p.eq[level - 1]@ + seq![st.prog_full] + reset()
    } else {
        st.p.sgr[8]@ + seq![st.prog_empty] + reset()
    }
}

/// The first `n` bands of a row on a wide screen, each under its label.
pub open spec fn eq_wide_cells(st: Style, level: int, sp: Seq<u8>, n: int) -> Seq<char>
    decreases n,
{
    if n <= 0 {
        Seq::empty()
    } else {
        eq_wide_cells(st, level, sp, n - 1) + spaces(eq_gap(n - 1)) + eq_cell(st, level, sp[n - 1])
    }
}

/// The first `n` bands of a row on a narrow screen, evenly spaced.
pub open spec fn eq_narrow_cells(st: Style, level: int, sp: Seq<u8>, n: int, spacing: nat) -> Seq<char>
    decreases n,
{
    if n <= 0 {
        Seq::empty()
    } else {
        eq_narrow_cells(st, level, sp, n - 1, spacing) + eq_cell(st, level, sp[n - 1]) + if n - 1 < 15 {
            spaces(spacing)
        } else {
            Seq::empty()
        }
    }
}

/// Spaces between bars on a narrow screen (at most 3).
pub open spec fn eq_spacing(inner: nat) -> nat {
    let s = sub_sat(inner, 25) / 15;
    if s > 3 {
        3
    } else {
        s
    }
}

/// A screen is wide from 74 inner columns: bars stand under band labels.
pub open spec fn eq_row(st: Style, inner: nat, sp: Seq<u8>, level: int) -> Seq<char> {
    spaces(9) + if inner >= 74 {
        eq_wide_cells(st, level, sp, 16)
    } else {
        eq_narrow_cells(st, level, sp, 16, eq_spacing(inner))
    }
}

/// The title row: band labels on a wide screen, the range otherwise.
pub open spec fn eq_title(st: Style, inner: nat) -> Seq<char> {
    let head = st.p.sgr[0]@ + (if st.cjk {
        "动态 EQ"@
    } else {
        "Dynamic EQ"@
    }) + reset() + "  "@;
    if inner >= 74 {
        head + "20 30 46 70 105 160 240 360 550 830 1.2k 1.9k 2.9k 4.4k 6.6k 10k"@
    } else {
        head + seq![st.middot] + "  20Hz "@ + st.range@ + " 10kHz"@
    }
}

/// The equalizer: its title row, then the bar rows from level 7 down to 1.
pub open spec fn eq_panel(st: Style, inner: nat, sp: Seq<u8>) -> Seq<Seq<char>> {
    seq![eq_title(st, inner)] + Seq::new(7, |k: int| eq_row(st, inner, sp, 7 - k))
}

fn eq_cell_exec(st: &Style, level: u8, v: u8, out: &mut Vec<char>)
    requires
        1 <= level <= 7,
    ensures
        final(out)@ == old(out)@ + eq_cell(*st, level as int, v),
{
    if v >= level {
        append(out, &chars_of(st.p.eq[(level - 1) as usize]));
        out.push(st.prog_full);
    } else {
        append(out, &chars_of(st.p.sgr[8]));
        out.push(st.prog_empty);
    }
    append(out, &chars_of("\x1b[0m"));
    proof {
        reveal_strlit("\x1b[0m");
    }
    assert(final(out)@ =~= old(out)@ + eq_cell(*st, level as int, v));
}

fn eq_row_exec(st: &Style, inner: usize, spectrum: &[u8; 16], level: u8) -> (r: String)
    requires
        1 <= level <= 7,
    ensures
        r@ == eq_row(*st, inner as nat, spectrum@, level as int),
{
    let mut out = spaces_exec(9);
    let ghost base = out@;
    if inner >= 74 {
        let cols = freq_bar_cols();
        let mut cur: usize = 0;
        let mut b: usize = 0;
        while b < 16
            invariant
                0 <= b <= 16,
                1 <= level <= 7,
                inner >= 74,
                forall|i: int| 0 <= i < 16 ==> cols[i] == eq_col(i),
                b == 0 ==> cur == 0,
                b > 0 ==> cur == eq_col(b - 1) + 1,
                out@ == base + eq_wide_cells(*st, level as int, spectrum@, b as int),
            decreases 16 - b,
        {
            let gap = if cols[b] >= cur { cols[b] - cur } else { 0 };
            proof {
                assert(gap == eq_gap(b as int));
                lemma_label_start_small(b as int);
            }
            append(&mut out, &spaces_exec(gap));
            eq_cell_exec(st, level, spectrum[b], &mut out);
            cur = cols[b] + 1;
            b = b + 1;
            assert(out@ =~= base + eq_wide_cells(*st, level as int, spectrum@, b as int));
        }
    } else {
        let s = if inner >= 25 { (inner - 25) / 15 } else { 0 };
        let spacing = if s > 3 { 3 } else { s };
        let mut b: usize = 0;
        while b < 16
            invariant
                0 <= b <= 16,
                1 <= level <= 7,
                spacing == eq_spacing(inner as nat),
                out@ == base + eq_narrow_cells(*st, level as int, spectrum@, b as int, spacing as nat),
            decreases 16 - b,
        {
            eq_cell_exec(st, level, spectrum[b], &mut out);
            if b < 15 {
                append(&mut out, &spaces_exec(spacing));
            }
            b = b + 1;
            assert(out@ =~= base + eq_narrow_cells(*st, level as int, spectrum@, b as int, spacing as nat));
        }
    }
    string_from_chars(out.as_slice())
}

/// The equalizer panel's lines; see `eq_panel`.
pub fn eq_lines(st: &Style, inner: usize, spectrum: &[u8; 16]) -> (r: Vec<String>)
    ensures
        r@.len() == 8,
        forall|k: int| 0 <= k < 8 ==> (#[trigger] r@[k])@ == eq_panel(*st, inner as nat, spectrum@)[k],
{
    let mut title = chars_of(st.p.sgr[0]);
    append(&mut title, &chars_of(if st.cjk { "动态 EQ" } else { "Dynamic EQ" }));
    append(&mut title, &chars_of("\x1b[0m"));
    append(&mut title, &chars_of("  "));
    if inner >= 74 {
        append(&mut title, &chars_of("20 30 46 70 105 160 240 360 550 830 1.2k 1.9k 2.9k 4.4k 6.6k 10k"));
    } else {
        title.push(st.middot);
        append(&mut title, &chars_of("  20Hz "));
        append(&mut title, &chars_of(st.range));
        append(&mut title, &chars_of(" 10kHz"));
    }
    proof {
        reveal_strlit("\x1b[0m");
        reveal_strlit("  ");
    }
    assert(title@ =~= eq_title(*st, inner as nat));
    let mut r: Vec<String> = Vec::new();
    r.push(string_from_chars(title.as_slice()));
    let mut level: u8 = 7;
    while level >= 1
        invariant
            0 <= level <= 7,
            r@.len() == 8 - level,
            forall|k: int| 0 <= k < r@.len() ==> (#[trigger] r@[k])@ == eq_panel(*st, inner as nat, spectrum@)[k],
        decreases level,
    {
        r.push(eq_row_exec(st, inner, spectrum, level));
        level = level - 1;
    }
    r
}

// ---------------------------------------------------------------------------
// Status, time and key hints
// ---------------------------------------------------------------------------

pub open spec fn bold() -> Seq<char> {
    "\x1b[1m"@
}

pub open spec fn dim() -> Seq<char> {
    "\x1b[2m"@
}

/// The Chinese text, or the English one without CJK glyphs.
pub open spec fn tr_text(st: Style, zh: Seq<char>, en: Seq<char>) -> Seq<char> {
    if st.cjk {
        zh
    } else {
        en
    }
}

/// The status row: mode, a colored dot and state (red and yellow "paused",
/// green "playing"), and whether looping is on (green) or off (dim).
pub open spec fn status_row(st: Style, mode: Seq<char>, paused: bool, looping: bool) -> Seq<char> {
    let (dot_color, state_color, state) = if paused {
        (st.p.sgr[6]@, st.p.sgr[5]@, tr_text(st, "已暂停"@, "Paused"@))
    } else {
        (st.p.sgr[3]@, st.p.sgr[3]@, tr_text(st, "正在播放"@, "Playing"@))
    };
    let (loop_color, loop_state) = if looping {
        (st.p.sgr[3]@, tr_text(st, "开"@, "ON"@))
    } else {
        (st.p.sgr[8]@, tr_text(st, "关"@, "OFF"@))
    };
    st.p.sgr[1]@ + mode_name(st.cjk, mode) + reset() + "  "@ + dot_color + seq![st.dot] + reset() + "   "@
        + state_color + state + reset() + st.p.sgr[8]@ + reset() + tr_text(st, "循环"@, "Loop"@) + " "@
        + loop_color + loop_state + reset()
}

/// The time row: elapsed (bold), total and what is left (dim).
pub open spec fn time_row(st: Style, elapsed_ms: u64, total_ms: u64) -> Seq<char> {
    let left = if total_ms >= elapsed_ms {
        (total_ms - elapsed_ms) as u64
    } else {
        0
    };
    bold() + play_clock(elapsed_ms) + reset() + " / "@ + dim() + play_clock(total_ms) + reset() + "    "@ + dim()
        + tr_text(st, "剩余"@, "left"@) + " "@ + play_clock(left) + reset()
}

/// The key-hint row.
pub open spec fn hint_row(st: Style) -> Seq<char> {
    let m = seq![st.middot];
    if st.cjk {
        dim() + " 空格 暂停 "@ + m + " ←/→ 快退/快进 "@ + m + " ↑/↓ 10s "@ + m + " R 循环 "@ + m + " 9/0 音量 "@ + m
            + " Q 退出 "@ + reset()
    } else {
        dim() + " Space Pause "@ + m + " "@ + st.arrow_l@ + "/"@ + st.arrow_r@ + " seek "@ + m + " Up/Down 10s "@
            + m + " R Loop "@ + m + " 9/0 Vol "@ + reset()
    }
}

/// The mouse-hint row.
pub open spec fn mouse_hint_row(st: Style) -> Seq<char> {
    dim() + tr_text(st, "鼠标：点击进度条跳转 · 点击状态行播放/暂停"@, "Mouse: click bar to seek, click status row to play/pause"@)
        + reset()
}

/// The status row; see `status_row`.
pub fn status_text(st: &Style, mode: &'static str, paused: bool, looping: bool) -> (r: String)
    ensures
        r@ == status_row(*st, mode@, paused, looping),
{
    let mut v = chars_of(st.p.sgr[1]);
    append(&mut v, &chars_of(st.tr_mode(mode)));
    append(&mut v, &chars_of("\x1b[0m"));
    append(&mut v, &chars_of("  "));
    append(&mut v, &chars_of(if paused { st.p.sgr[6] } else { st.p.sgr[3] }));
    v.push(st.dot);
    append(&mut v, &chars_of("\x1b[0m"));
    append(&mut v, &chars_of("   "));
    append(&mut v, &chars_of(if paused { st.p.sgr[5] } else { st.p.sgr[3] }));
    append(&mut v, &chars_of(if paused { st.tr("已暂停", "Paused") } else { st.tr("正在播放", "Playing") }));
    append(&mut v, &chars_of("\x1b[0m"));
    append(&mut v, &chars_of(st.p.sgr[8]));
    append(&mut v, &chars_of("\x1b[0m"));
    append(&mut v, &chars_of(st.tr("循环", "Loop")));
    append(&mut v, &chars_of(" "));
    append(&mut v, &chars_of(if looping { st.p.sgr[3] } else { st.p.sgr[8] }));
    append(&mut v, &chars_of(if looping { st.tr("开", "ON") } else { st.tr("关", "OFF") }));
    append(&mut v, &chars_of("\x1b[0m"));
    assert(v@ =~= status_row(*st, mode@, paused, looping));
    string_from_chars(v.as_slice())
}

/// The time row; see `time_row`.
pub fn time_text(st: &Style, elapsed_ms: u64, total_ms: u64) -> (r: String)
    ensures
        r@ == time_row(*st, elapsed_ms, total_ms),
{
    let left: u64 = if total_ms >= elapsed_ms { total_ms - elapsed_ms } else { 0 };
    let mut v = chars_of("\x1b[1m");
    append(&mut v, &chars_of(format_time(elapsed_ms).as_str()));
    append(&mut v, &chars_of("\x1b[0m"));
    append(&mut v, &chars_of(" / "));
    append(&mut v, &chars_of("\x1b[2m"));
    append(&mut v, &chars_of(format_time(total_ms).as_str()));
    append(&mut v, &chars_of("\x1b[0m"));
    append(&mut v, &chars_of("    "));
    append(&mut v, &chars_of("\x1b[2m"));
    append(&mut v, &chars_of(st.tr("剩余", "left")));
    append(&mut v, &chars_of(" "));
    append(&mut v, &chars_of(format_time(left).as_str()));
    append(&mut v, &chars_of("\x1b[0m"));
    assert(v@ =~= time_row(*st, elapsed_ms, total_ms));
    string_from_chars(v.as_slice())
}

/// The key-hint row; see `hint_row`.
pub fn hint_text(st: &Style) -> (r: String)
    ensures
        r@ == hint_row(*st),
{
    let mut v = chars_of("\x1b[2m");
    if st.cjk {
        append(&mut v, &chars_of(" 空格 暂停 "));
        v.push(st.middot);
        append(&mut v, &chars_of(" ←/→ 快退/快进 "));
        v.push(st.middot);
        append(&mut v, &chars_of(" ↑/↓ 10s "));
        v.push(st.middot);
        append(&mut v, &chars_of(" R 循环 "));
        v.push(st.middot);
        append(&mut v, &chars_of(" 9/0 音量 "));
        v.push(st.middot);
        append(&mut v, &chars_of(" Q 退出 "));
    } else {
        append(&mut v, &chars_of(" Space Pause "));
        v.push(st.middot);
        append(&mut v, &chars_of(" "));
        append(&mut v, &chars_of(st.arrow_l));
        append(&mut v, &chars_of("/"));
        append(&mut v, &chars_of(st.arrow_r));
        append(&mut v, &chars_of(" seek "));
        v.push(st.middot);
        append(&mut v, &chars_of(" Up/Down 10s "));
        v.push(st.middot);
        append(&mut v, &chars_of(" R Loop "));
        v.push(st.middot);
        append(&mut v, &chars_of(" 9/0 Vol "));
    }
    append(&mut v, &chars_of("\x1b[0m"));
    assert(v@ =~= hint_row(*st));
    string_from_chars(v.as_slice())
}

/// The mouse-hint row; see `mouse_hint_row`.
pub fn mouse_hint_text(st: &Style) -> (r: String)
    ensures
        r@ == mouse_hint_row(*st),
{
    let mut v = chars_of("\x1b[2m");
    append(&mut v, &chars_of(st.tr("鼠标：点击进度条跳转 · 点击状态行播放/暂停", "Mouse: click bar to seek, click status row to play/pause")));
    append(&mut v, &chars_of("\x1b[0m"));
    assert(v@ =~= mouse_hint_row(*st));
    string_from_chars(v.as_slice())
}

// ---------------------------------------------------------------------------
// Rows left for the equalizer and the note details
// ---------------------------------------------------------------------------

/// Rows of the equalizer and of the note details on a screen `height` rows
/// high whose other parts take `taken` rows: the equalizer (eight rows)
/// when eight rows are left, then up to four detail rows when all of them
/// still fit.
pub open spec fn body_rows_of(height: nat, taken: nat, details: nat) -> (nat, nat) {
    let left = sub_sat(height, taken);
    let eq = if left >= 8 {
        8nat
    } else {
        0nat
    };
    let need = if details > 4 {
        4nat
    } else {
        details
    };
    (eq, if sub_sat(left, eq) >= need {
        need
    } else {
        0nat
    })
}

/// Rows of the equalizer and of the details; see `body_rows_of`.
pub fn body_rows(height: usize, taken: usize, details: usize) -> (r: (usize, usize))
    ensures
        (r.0 as nat, r.1 as nat) == body_rows_of(height as nat, taken as nat, details as nat),
{
    let left = if height >= taken { height - taken } else { 0 };
    let eq: usize = if left >= 8 { 8 } else { 0 };
    let need = if details > 4 { 4 } else { details };
    (eq, if left - eq >= need { need } else { 0 })
}

} // verus!
