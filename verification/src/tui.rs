//! Text layout of the full-screen player: display widths, clipping, the
//! interface style and the lines it is drawn from.
use vstd::prelude::*;
use crate::console::{Caps, OutputKind};
use crate::text::{append, chars_of, dec_exec, dec_str, eq_str, lpad, lpad_exec, string_from_chars};

verus! {

// ---------------------------------------------------------------------------
// Cover images
// ---------------------------------------------------------------------------

/// An RGBA8 image (`width` x `height`).
#[derive(Clone)]
pub struct ArtImage {
    pub data: Vec<u8>,
    pub width: usize,
    pub height: usize,
}

/// Side of the built-in avatar in pixels.
pub const GITHUB_AVATAR_SIZE: usize = 96;

/// The avatar shown when a file has no cover, from its RGBA pixels.
pub fn github_avatar(rgba: Vec<u8>) -> (r: ArtImage)
    requires
        rgba@.len() == GITHUB_AVATAR_SIZE * GITHUB_AVATAR_SIZE * 4,
    ensures
        r.data@.len() == GITHUB_AVATAR_SIZE * GITHUB_AVATAR_SIZE * 4,
        r.data@ == rgba@,
        r.width == GITHUB_AVATAR_SIZE,
        r.height == GITHUB_AVATAR_SIZE,
{
    ArtImage { data: rgba, width: GITHUB_AVATAR_SIZE, height: GITHUB_AVATAR_SIZE }
}

// ---------------------------------------------------------------------------
// Display width
// ---------------------------------------------------------------------------

/// East Asian wide characters: two columns.
pub open spec fn wide(c: char) -> bool {
    let cp = c as u32;
    ||| (0x1100 <= cp && cp <= 0x115f)
    ||| (0x2e80 <= cp && cp <= 0x303e)
    ||| (0x3041 <= cp && cp <= 0x33ff)
    ||| (0x3400 <= cp && cp <= 0x4dbf)
    ||| (0x4e00 <= cp && cp <= 0x9fff)
    ||| (0xa000 <= cp && cp <= 0xa4cf)
    ||| (0xac00 <= cp && cp <= 0xd7a3)
    ||| (0xf900 <= cp && cp <= 0xfaff)
    ||| (0xfe30 <= cp && cp <= 0xfe4f)
    ||| (0xff00 <= cp && cp <= 0xff60)
    ||| (0xffe0 <= cp && cp <= 0xffe6)
}

pub open spec fn char_w(c: char) -> nat {
    if wide(c) {
        2
    } else {
        1
    }
}

pub fn is_wide(c: char) -> (r: bool)
    ensures
        r == wide(c),
{
    let cp = c as u32;
    (0x1100 <= cp && cp <= 0x115f) || (0x2e80 <= cp && cp <= 0x303e) || (0x3041 <= cp && cp <= 0x33ff)
        || (0x3400 <= cp && cp <= 0x4dbf) || (0x4e00 <= cp && cp <= 0x9fff) || (0xa000 <= cp && cp
        <= 0xa4cf) || (0xac00 <= cp && cp <= 0xd7a3) || (0xf900 <= cp && cp <= 0xfaff) || (0xfe30 <= cp
        && cp <= 0xfe4f) || (0xff00 <= cp && cp <= 0xff60) || (0xffe0 <= cp && cp <= 0xffe6)
}

/// Index just past the final byte (`@` to `~`) of a control sequence whose
/// parameters start at `j`; the end of the text when there is none.
pub open spec fn csi_end(s: Seq<char>, j: int) -> int
    decreases s.len() - j,
{
    if j < 0 || j >= s.len() {
        j
    } else if '@' <= s[j] && s[j] <= '~' {
        j + 1
    } else {
        csi_end(s, j + 1)
    }
}

/// Columns taken by the text from index `i` on: wide characters count two,
/// escape sequences none.
pub open spec fn width_from(s: Seq<char>, i: int) -> nat
    decreases s.len() - i,
{
    if i < 0 || i >= s.len() {
        0
    } else if s[i] == '\x1b' {
        if i + 1 >= s.len() {
            0
        } else if s[i + 1] == '[' {
            let e = csi_end(s, i + 2);
            if e <= i || e > s.len() {
                0
            } else {
                width_from(s, e)
            }
        } else {
            width_from(s, i + 2)
        }
    } else {
        char_w(s[i]) + width_from(s, i + 1)
    }
}

pub open spec fn disp_w(s: Seq<char>) -> nat {
    width_from(s, 0)
}

proof fn lemma_csi_end(s: Seq<char>, j: int)
    requires
        0 <= j,
    ensures
        j <= csi_end(s, j),
        j <= s.len() ==> csi_end(s, j) <= s.len(),
    decreases s.len() - j,
{
    if j < s.len() && !('@' <= s[j] && s[j] <= '~') {
        lemma_csi_end(s, j + 1);
    }
}

proof fn lemma_width_bound(s: Seq<char>, i: int)
    requires
        0 <= i <= s.len(),
    ensures
        width_from(s, i) <= 2 * (s.len() - i),
    decreases s.len() - i,
{
    if i < s.len() {
        if s[i] == '\x1b' {
            if i + 1 < s.len() {
                if s[i + 1] == '[' {
                    lemma_csi_end(s, i + 2);
                    let e = csi_end(s, i + 2);
                    lemma_width_bound(s, e);
                } else {
                    lemma_width_bound(s, i + 2);
                }
            }
        } else {
            lemma_width_bound(s, i + 1);
        }
    }
}

fn disp_width_chars(s: &[char]) -> (w: usize)
    requires
        s@.len() <= isize::MAX,
    ensures
        w == disp_w(s@),
{
    let n = s.len();
    let mut w: usize = 0;
    let mut i: usize = 0;
    proof {
        lemma_width_bound(s@, 0);
    }
    while i < n
        invariant
            0 <= i <= n,
            n == s@.len(),
            n <= isize::MAX,
            w + width_from(s@, i as int) == disp_w(s@),
            width_from(s@, i as int) <= 2 * (n - i),
            w <= 2 * i,
        decreases n - i,
    {
        let c = s[i];
        if c == '\x1b' {
            if i + 1 >= n {
                return w;
            }
            if s[i + 1] == '[' {
                let mut j = i + 2;
                while j < n && !('@' <= s[j] && s[j] <= '~')
                    invariant
                        i + 2 <= j <= n,
                        n == s@.len(),
                        csi_end(s@, i + 2) == csi_end(s@, j as int),
                    decreases n - j,
                {
                    j = j + 1;
                }
                let e = if j < n { j + 1 } else { j };
                proof {
                    lemma_csi_end(s@, e as int);
                    lemma_width_bound(s@, e as int);
                }
                i = e;
            } else {
                proof {
                    lemma_width_bound(s@, i + 2);
                }
                i = i + 2;
            }
        } else {
            proof {
                lemma_width_bound(s@, i + 1);
            }
            w = w + if is_wide(c) { 2 } else { 1 };
            i = i + 1;
        }
    }
    w
}

/// Columns the text takes in a terminal: wide characters count two, escape
/// sequences none.
pub fn disp_width(s: &str) -> (w: usize)
    requires
        s@.len() <= isize::MAX,
    ensures
        w == disp_w(s@),
{
    let v = chars_of(s);
    disp_width_chars(v.as_slice())
}

// ---------------------------------------------------------------------------
// Clipping
// ---------------------------------------------------------------------------

/// Number of leading characters from `i` on that fit in `budget` columns
/// with `w` already taken (each character counted by its own width).
pub open spec fn fit_count(s: Seq<char>, budget: nat, i: int, w: nat) -> int
    decreases s.len() - i,
{
    if i < 0 || i >= s.len() || w + char_w(s[i]) > budget {
        i
    } else {
        fit_count(s, budget, i + 1, w + char_w(s[i]))
    }
}

pub open spec fn sub_sat(a: nat, b: nat) -> nat {
    if a >= b {
        (a - b) as nat
    } else {
        0
    }
}

/// The text cut to `max` columns: unchanged when it fits, else its longest
/// prefix that leaves room for `ellipsis`, then the ellipsis.
pub open spec fn clip_text(s: Seq<char>, max: nat, ellipsis: Seq<char>) -> Seq<char> {
    if max == 0 {
        Seq::empty()
    } else if disp_w(s) <= max {
        s
    } else {
        s.take(fit_count(s, sub_sat(max, disp_w(ellipsis)), 0, 0)) + ellipsis
    }
}

/// Columns of the characters from `i` on, each by its own width (escape
/// characters included).
pub open spec fn cw_sum(s: Seq<char>, i: int) -> nat
    decreases s.len() - i,
{
    if i < 0 || i >= s.len() {
        0
    } else {
        char_w(s[i]) + cw_sum(s, i + 1)
    }
}

pub open spec fn no_escape(s: Seq<char>) -> bool {
    forall|k: int| 0 <= k < s.len() ==> s[k] != '\x1b'
}

proof fn lemma_cw_sum_mono(s: Seq<char>, i: int, j: int)
    requires
        0 <= i <= j,
    ensures
        cw_sum(s, j) <= cw_sum(s, i),
    decreases j - i,
{
    if i < j {
        lemma_cw_sum_mono(s, i + 1, j);
    }
}

/// Without escape characters the width is the plain sum.
proof fn lemma_width_plain(s: Seq<char>, i: int)
    requires
        0 <= i,
        forall|k: int| i <= k < s.len() ==> s[k] != '\x1b',
    ensures
        width_from(s, i) == cw_sum(s, i),
    decreases s.len() - i,
{
    if i < s.len() {
        lemma_width_plain(s, i + 1);
    }
}

proof fn lemma_cw_sum_tail(a: Seq<char>, b: Seq<char>, j: int)
    requires
        0 <= j,
    ensures
        cw_sum(a + b, a.len() + j) == cw_sum(b, j),
    decreases b.len() - j,
{
    if j < b.len() {
        lemma_cw_sum_tail(a, b, j + 1);
        assert((a + b)[a.len() + j] == b[j]);
    }
}

/// Width of `a + b`, for `b` without escape characters, read from a
/// position inside `a`: at most the plain sum of the rest of `a` plus `b`.
proof fn lemma_width_concat(a: Seq<char>, b: Seq<char>, i: int)
    requires
        0 <= i,
        no_escape(b),
    ensures
        width_from(a + b, i) <= cw_sum(a, i) + cw_sum(b, 0),
    decreases (a + b).len() - i,
{
    let c = a + b;
    if i >= a.len() {
        assert forall|k: int| i <= k < c.len() implies c[k] != '\x1b' by {
            assert(c[k] == b[k - a.len()]);
        }
        lemma_width_plain(c, i);
        lemma_cw_sum_tail(a, b, 0);
        lemma_cw_sum_mono(c, a.len() as int, i);
    } else {
        assert(c[i] == a[i]);
        if c[i] == '\x1b' {
            if i + 1 < c.len() {
                if c[i + 1] == '[' {
                    lemma_csi_end(c, i + 2);
                    let e = csi_end(c, i + 2);
                    if e > i && e <= c.len() {
                        lemma_width_concat(a, b, e);
                        lemma_cw_sum_mono(a, i, e);
                    }
                } else {
                    lemma_width_concat(a, b, i + 2);
                    lemma_cw_sum_mono(a, i, i + 2);
                }
            }
        } else {
            lemma_width_concat(a, b, i + 1);
        }
    }
}

proof fn lemma_fit_count(s: Seq<char>, budget: nat, i: int, w: nat)
    requires
        0 <= i <= s.len(),
        w <= budget,
    ensures
        i <= fit_count(s, budget, i, w) <= s.len(),
        w + cw_sum(s.take(fit_count(s, budget, i, w)), i) <= budget,
    decreases s.len() - i,
{
    let n = fit_count(s, budget, i, w);
    if i >= s.len() || w + char_w(s[i]) > budget {
        assert(n == i);
    } else {
        lemma_fit_count(s, budget, i + 1, w + char_w(s[i]));
        assert(s.take(n)[i] == s[i]);
    }
}

/// Clipping keeps a text within `max` columns, as long as the ellipsis
/// itself fits and holds no escape character.
pub proof fn lemma_clip_fits(s: Seq<char>, max: nat, ellipsis: Seq<char>)
    requires
        disp_w(ellipsis) <= max,
        no_escape(ellipsis),
    ensures
        disp_w(clip_text(s, max, ellipsis)) <= max,
{
    if max > 0 && disp_w(s) > max {
        let budget = sub_sat(max, disp_w(ellipsis));
        lemma_fit_count(s, budget, 0, 0);
        let n = fit_count(s, budget, 0, 0);
        lemma_width_concat(s.take(n), ellipsis, 0);
        lemma_width_plain(ellipsis, 0);
    }
}

pub fn clip_chars(s: &[char], max: usize, ellipsis: &[char]) -> (r: Vec<char>)
    requires
        s@.len() <= isize::MAX,
        ellipsis@.len() <= isize::MAX,
    ensures
        r@ == clip_text(s@, max as nat, ellipsis@),
{
    if max == 0 {
        return Vec::new();
    }
    if disp_width_chars(s) <= max {
        let mut r: Vec<char> = Vec::new();
        let mut k: usize = 0;
        while k < s.len()
            invariant
                0 <= k <= s@.len(),
                r@ == s@.take(k as int),
            decreases s@.len() - k,
        {
            r.push(s[k]);
            k = k + 1;
            assert(r@ =~= s@.take(k as int));
        }
        assert(s@.take(s@.len() as int) =~= s@);
        return r;
    }
    let ew = disp_width_chars(ellipsis);
    let budget = if max >= ew { max - ew } else { 0 };
    let mut out: Vec<char> = Vec::new();
    let mut w: usize = 0;
    let mut i: usize = 0;
    while i < s.len()
        invariant
            0 <= i <= s@.len(),
            w <= budget,
            out@ == s@.take(i as int),
            fit_count(s@, budget as nat, 0, 0) == fit_count(s@, budget as nat, i as int, w as nat),
        ensures
            out@ == s@.take(i as int),
            fit_count(s@, budget as nat, 0, 0) == i,
        decreases s@.len() - i,
    {
        let cw: usize = if is_wide(s[i]) { 2 } else { 1 };
        if cw > budget - w {
            break;
        }
        out.push(s[i]);
        w = w + if is_wide(s[i]) { 2 } else { 1 };
        i = i + 1;
        assert(out@ =~= s@.take(i as int));
    }
    let mut e: Vec<char> = Vec::new();
    let mut k: usize = 0;
    while k < ellipsis.len()
        invariant
            0 <= k <= ellipsis@.len(),
            e@ == ellipsis@.take(k as int),
        decreases ellipsis@.len() - k,
    {
        e.push(ellipsis[k]);
        k = k + 1;
        assert(e@ =~= ellipsis@.take(k as int));
    }
    assert(ellipsis@.take(ellipsis@.len() as int) =~= ellipsis@);
    append(&mut out, &e);
    out
}

/// Cuts the text to `max` columns, ending with `ellipsis` when it is cut;
/// see `clip_text`.
pub fn clip_w(s: &str, max: usize, ellipsis: &str) -> (r: String)
    requires
        s@.len() <= isize::MAX,
        ellipsis@.len() <= isize::MAX,
    ensures
        r@ == clip_text(s@, max as nat, ellipsis@),
{
    let sv = chars_of(s);
    let ev = chars_of(ellipsis);
    string_from_chars(clip_chars(sv.as_slice(), max, ev.as_slice()).as_slice())
}

// ---------------------------------------------------------------------------
// Time
// ---------------------------------------------------------------------------

/// `M:SS`-style clock: `H:MM:SS` from an hour on, else `MM:SS`.
pub open spec fn play_clock(ms: u64) -> Seq<char> {
    let total = ms / 1000;
    let h = total / 3600;
    let m = (total % 3600) / 60;
    let s = total % 60;
    if h > 0 {
        dec_str(h as nat) + ":"@ + lpad(dec_str(m as nat), 2, '0') + ":"@ + lpad(dec_str(s as nat), 2, '0')
    } else {
        lpad(dec_str(m as nat), 2, '0') + ":"@ + lpad(dec_str(s as nat), 2, '0')
    }
}

pub fn format_time(ms: u64) -> (r: String)
    ensures
        r@ == play_clock(ms),
{
    let total = ms / 1000;
    let h = total / 3600;
    let m = (total % 3600) / 60;
    let s = total % 60;
    let mut r = if h > 0 {
        let mut r = dec_exec(h);
        append(&mut r, &chars_of(":"));
        r
    } else {
        Vec::new()
    };
    append(&mut r, &lpad_exec(&dec_exec(m), 2, '0'));
    append(&mut r, &chars_of(":"));
    append(&mut r, &lpad_exec(&dec_exec(s), 2, '0'));
    string_from_chars(r.as_slice())
}

// ---------------------------------------------------------------------------
// Equalizer columns
// ---------------------------------------------------------------------------

/// Labels of the sixteen equalizer bands.
pub const FREQ_LABELS: [&'static str; 16] = [
    "20", "30", "46", "70", "105", "160", "240", "360", "550", "830", "1.2k", "1.9k", "2.9k", "4.4k",
    "6.6k", "10k",
];

/// Indent of the equalizer bars inside the frame, so that the first bar
/// stands under the first label.
pub const EQ_LABEL_PAD: usize = 9;

/// Lengths of the sixteen band labels `20 30 46 70 105 160 240 360 550 830
/// 1.2k 1.9k 2.9k 4.4k 6.6k 10k`.
pub open spec fn label_lens() -> Seq<nat> {
    seq![2nat, 2, 2, 2, 3, 3, 3, 3, 3, 3, 4, 4, 4, 4, 4, 3]
}

/// Column where label `i` starts in the labels joined by single spaces.
pub open spec fn label_start(i: int) -> nat
    decreases i,
{
    if i <= 0 {
        0
    } else {
        label_start(i - 1) + label_lens()[i - 1] + 1
    }
}

/// Each equalizer bar stands under the middle of its label (the left middle
/// for an even width).
pub fn freq_bar_cols() -> (cols: [usize; 16])
    ensures
        forall|i: int| 0 <= i < 16 ==> cols[i] == label_start(i) + (label_lens()[i] - 1) / 2,
{
    let lens: [usize; 16] = [2, 2, 2, 2, 3, 3, 3, 3, 3, 3, 4, 4, 4, 4, 4, 3];
    assert(lens@ =~= label_lens().map_values(|n: nat| n as usize));
    let mut cols: [usize; 16] = [0; 16];
    let mut c: usize = 0;
    let mut i: usize = 0;
    while i < 16
        invariant
            0 <= i <= 16,
            lens@ == label_lens().map_values(|n: nat| n as usize),
            c == label_start(i as int),
            c <= 5 * i,
            forall|k: int| 0 <= k < i ==> cols[k] == label_start(k) + (label_lens()[k] - 1) / 2,
        decreases 16 - i,
    {
        assert(lens@[i as int] == label_lens()[i as int]);
        cols[i] = c + (lens[i] - 1) / 2;
        c = c + lens[i] + 1;
        i = i + 1;
    }
    cols
}

// ---------------------------------------------------------------------------
// Frames
// ---------------------------------------------------------------------------

/// Lines joined by newlines, with no newline after the last.
pub open spec fn join_lines(frame: Seq<Seq<char>>) -> Seq<char>
    decreases frame.len(),
{
    if frame.len() == 0 {
        Seq::empty()
    } else if frame.len() == 1 {
        frame[0]
    } else {
        join_lines(frame.drop_last()) + "\n"@ + frame.last()
    }
}

pub open spec fn strings_view(v: Seq<String>) -> Seq<Seq<char>> {
    v.map_values(|s: String| s@)
}

/// Appends a full-screen frame: home and clear, then the lines; no newline
/// after the last line, so the terminal never scrolls.
pub fn append_pty_frame(out: &mut String, frame: &[String])
    ensures
        final(out)@ == old(out)@ + "\x1b[H\x1b[2J"@ + join_lines(strings_view(frame@)),
{
    let mut v = chars_of(out.as_str());
    append(&mut v, &chars_of("\x1b[H\x1b[2J"));
    let ghost base = v@;
    let ghost fv = strings_view(frame@);
    let mut i: usize = 0;
    while i < frame.len()
        invariant
            0 <= i <= frame@.len(),
            fv == strings_view(frame@),
            v@ == base + join_lines(fv.take(i as int)),
        decreases frame@.len() - i,
    {
        assert(fv.take(i + 1).drop_last() =~= fv.take(i as int));
        assert(fv.take(i + 1).last() == frame@[i as int]@);
        if i > 0 {
            append(&mut v, &chars_of("\n"));
        }
        append(&mut v, &chars_of(frame[i].as_str()));
        proof {
            if i == 0 {
                assert(fv.take(1).len() == 1);
                assert(join_lines(fv.take(0)) =~= Seq::<char>::empty());
            }
            assert(v@ =~= base + join_lines(fv.take(i + 1)));
        }
        i = i + 1;
    }
    assert(fv.take(frame@.len() as int) =~= fv);
    *out = string_from_chars(v.as_slice());
}


// ---------------------------------------------------------------------------
// Style
// ---------------------------------------------------------------------------

/// Named colors of the palette.
#[derive(Clone, Copy, PartialEq, Eq, Structural)]
pub enum NamedColor {
    Cyan,
    CyanDeep,
    Magenta,
    Green,
    GreenDim,
    Yellow,
    Red,
    Gray,
    GrayDim,
}

pub open spec fn color_index(c: NamedColor) -> int {
    match c {
        NamedColor::Cyan => 0,
        NamedColor::CyanDeep => 1,
        NamedColor::Magenta => 2,
        NamedColor::Green => 3,
        NamedColor::GreenDim => 4,
        NamedColor::Yellow => 5,
        NamedColor::Red => 6,
        NamedColor::Gray => 7,
        NamedColor::GrayDim => 8,
    }
}

/// Color sequences: nine named colors and seven equalizer levels.
pub struct Palette {
    pub sgr: [&'static str; 9],
    pub eq: [&'static str; 7],
}

/// The truecolor palette of terminal emulators.
pub open spec fn truecolor_palette(r: Palette) -> bool {
    &&& r.sgr[0]@ == "\x1b[38;2;0;215;255m"@
    &&& r.sgr[1]@ == "\x1b[38;2;0;170;230m"@
    &&& r.sgr[2]@ == "\x1b[38;2;255;95;215m"@
    &&& r.sgr[3]@ == "\x1b[38;2;110;255;170m"@
    &&& r.sgr[4]@ == "\x1b[38;2;80;200;120m"@
    &&& r.sgr[5]@ == "\x1b[38;2;255;215;0m"@
    &&& r.sgr[6]@ == "\x1b[38;2;255;95;95m"@
    &&& r.sgr[7]@ == "\x1b[38;2;140;140;150m"@
    &&& r.sgr[8]@ == "\x1b[38;2;90;90;100m"@
    &&& r.eq[0]@ == "\x1b[38;2;70;100;160m"@
    &&& r.eq[1]@ == "\x1b[38;2;90;130;200m"@
    &&& r.eq[2]@ == "\x1b[38;2;0;170;230m"@
    &&& r.eq[3]@ == "\x1b[38;2;0;215;255m"@
    &&& r.eq[4]@ == "\x1b[38;2;110;255;170m"@
    &&& r.eq[5]@ == "\x1b[38;2;255;215;0m"@
    &&& r.eq[6]@ == "\x1b[38;2;255;95;95m"@
}

/// The 16-color palette of real consoles.
pub open spec fn basic_palette(r: Palette) -> bool {
    &&& r.sgr[0]@ == "\x1b[96m"@
    &&& r.sgr[1]@ == "\x1b[36m"@
    &&& r.sgr[2]@ == "\x1b[95m"@
    &&& r.sgr[3]@ == "\x1b[92m"@
    &&& r.sgr[4]@ == "\x1b[32m"@
    &&& r.sgr[5]@ == "\x1b[93m"@
    &&& r.sgr[6]@ == "\x1b[91m"@
    &&& r.sgr[7]@ == "\x1b[37m"@
    &&& r.sgr[8]@ == "\x1b[90m"@
    &&& r.eq[0]@ == "\x1b[94m"@
    &&& r.eq[1]@ == "\x1b[36m"@
    &&& r.eq[2]@ == "\x1b[96m"@
    &&& r.eq[3]@ == "\x1b[96m"@
    &&& r.eq[4]@ == "\x1b[92m"@
    &&& r.eq[5]@ == "\x1b[93m"@
    &&& r.eq[6]@ == "\x1b[91m"@
}

/// Rounded frame glyphs.
pub open spec fn rounded_box(r: BoxChars) -> bool {
    r.tl@ == "╭"@ && r.tr@ == "╮"@ && r.bl@ == "╰"@ && r.br@ == "╯"@ && r.h@ == "─"@ && r.v@ == "│"@
}

/// ASCII frame glyphs.
pub open spec fn ascii_box(r: BoxChars) -> bool {
    r.tl@ == "+"@ && r.tr@ == "+"@ && r.bl@ == "+"@ && r.br@ == "+"@ && r.h@ == "-"@ && r.v@ == "|"@
}

impl Palette {
    /// Truecolor sequences, for terminal emulators.
    pub fn full() -> (r: Palette)
        ensures
            truecolor_palette(r),
    {
        Palette {
            sgr: [
                "\x1b[38;2;0;215;255m",
                "\x1b[38;2;0;170;230m",
                "\x1b[38;2;255;95;215m",
                "\x1b[38;2;110;255;170m",
                "\x1b[38;2;80;200;120m",
                "\x1b[38;2;255;215;0m",
                "\x1b[38;2;255;95;95m",
                "\x1b[38;2;140;140;150m",
                "\x1b[38;2;90;90;100m",
            ],
            eq: [
                "\x1b[38;2;70;100;160m",
                "\x1b[38;2;90;130;200m",
                "\x1b[38;2;0;170;230m",
                "\x1b[38;2;0;215;255m",
                "\x1b[38;2;110;255;170m",
                "\x1b[38;2;255;215;0m",
                "\x1b[38;2;255;95;95m",
            ],
        }
    }

    /// 16-color sequences, for real consoles.
    pub fn basic() -> (r: Palette)
        ensures
            basic_palette(r),
    {
        Palette {
            sgr: [
                "\x1b[96m",
                "\x1b[36m",
                "\x1b[95m",
                "\x1b[92m",
                "\x1b[32m",
                "\x1b[93m",
                "\x1b[91m",
                "\x1b[37m",
                "\x1b[90m",
            ],
            eq: ["\x1b[94m", "\x1b[36m", "\x1b[96m", "\x1b[96m", "\x1b[92m", "\x1b[93m", "\x1b[91m"],
        }
    }

    /// The sequence of a named color.
    pub fn col(&self, c: NamedColor) -> (r: &'static str)
        ensures
            r == self.sgr[color_index(c)],
    {
        match c {
            NamedColor::Cyan => self.sgr[0],
            NamedColor::CyanDeep => self.sgr[1],
            NamedColor::Magenta => self.sgr[2],
            NamedColor::Green => self.sgr[3],
            NamedColor::GreenDim => self.sgr[4],
            NamedColor::Yellow => self.sgr[5],
            NamedColor::Red => self.sgr[6],
            NamedColor::Gray => self.sgr[7],
            NamedColor::GrayDim => self.sgr[8],
        }
    }
}

/// Frame glyphs.
pub struct BoxChars {
    pub tl: &'static str,
    pub tr: &'static str,
    pub bl: &'static str,
    pub br: &'static str,
    pub h: &'static str,
    pub v: &'static str,
}

impl BoxChars {
    pub fn rounded() -> (r: BoxChars)
        ensures
            rounded_box(r),
    {
        BoxChars { tl: "╭", tr: "╮", bl: "╰", br: "╯", h: "─", v: "│" }
    }

    pub fn ascii() -> (r: BoxChars)
        ensures
            ascii_box(r),
    {
        BoxChars { tl: "+", tr: "+", bl: "+", br: "+", h: "-", v: "|" }
    }
}

/// A whole interface style: glyphs, palette and language.
pub struct Style {
    pub p: Palette,
    pub box_: BoxChars,
    /// Chinese labels (else English, for consoles without CJK glyphs).
    pub cjk: bool,
    /// Truecolor half-block covers (else brightness characters).
    pub truecolor: bool,
    /// Block glyphs are available.
    pub block: bool,
    pub prog_full: char,
    pub prog_empty: char,
    pub marker: char,
    pub dot: char,
    pub music: char,
    pub middot: char,
    pub ellipsis: &'static str,
    pub arrow_l: &'static str,
    pub arrow_r: &'static str,
    pub bar_fill: char,
    pub bar_empty: char,
    /// Separator of a range such as 20Hz-10kHz.
    pub range: &'static str,
}

impl Style {
    /// Every feature, for terminal emulators.
    pub fn full() -> (r: Style)
        ensures
            truecolor_palette(r.p),
            rounded_box(r.box_),
            r.cjk && r.truecolor && r.block,
            r.prog_full == '█' && r.prog_empty == '░' && r.marker == '▸',
            r.dot == '●' && r.music == '♪' && r.middot == '·',
            r.ellipsis@ == "…"@ && r.arrow_l@ == "←"@ && r.arrow_r@ == "→"@,
            r.bar_fill == '▓' && r.bar_empty == '░' && r.range@ == "–"@,
    {
        Style {
            p: Palette::full(),
            box_: BoxChars::rounded(),
            cjk: true,
            truecolor: true,
            block: true,
            prog_full: '█',
            prog_empty: '░',
            marker: '▸',
            dot: '●',
            music: '♪',
            middot: '·',
            ellipsis: "…",
            arrow_l: "←",
            arrow_r: "→",
            bar_fill: '▓',
            bar_empty: '░',
            range: "–",
        }
    }

    /// A real console: each glyph degrades to ASCII where its font lacks it,
    /// labels turn English without CJK glyphs, colors are 16-color.
    pub fn console(caps: Caps) -> (r: Style)
        ensures
            basic_palette(r.p),
            caps.has_box ==> rounded_box(r.box_),
            !caps.has_box ==> ascii_box(r.box_),
            r.cjk == caps.has_cjk,
            !r.truecolor,
            r.block == caps.has_block,
            r.prog_full == (if caps.has_block { '█' } else { '#' }),
            r.prog_empty == (if caps.has_block { '░' } else { '.' }),
            r.marker == '>',
            r.dot == (if caps.has_dot { '●' } else { '*' }),
            r.music == (if caps.has_music { '♪' } else { '>' }),
            r.middot == (if caps.has_middot { '·' } else { '|' }),
            r.ellipsis@ == (if caps.has_ellipsis { "…"@ } else { "..."@ }),
            r.arrow_l@ == (if caps.has_arrow_l { "←"@ } else { "<-"@ }),
            r.arrow_r@ == (if caps.has_arrow_r { "→"@ } else { "->"@ }),
            r.bar_fill == (if caps.has_block { '█' } else { '#' }),
            r.bar_empty == (if caps.has_block { '░' } else { '.' }),
            r.range@ == "-"@,
    {
        let block = caps.has_block;
        Style {
            p: Palette::basic(),
            box_: if caps.has_box { BoxChars::rounded() } else { BoxChars::ascii() },
            cjk: caps.has_cjk,
            truecolor: false,
            block,
            prog_full: if block { '█' } else { '#' },
            prog_empty: if block { '░' } else { '.' },
            marker: '>',
            dot: if caps.has_dot { '●' } else { '*' },
            music: if caps.has_music { '♪' } else { '>' },
            middot: if caps.has_middot { '·' } else { '|' },
            ellipsis: if caps.has_ellipsis { "…" } else { "..." },
            arrow_l: if caps.has_arrow_l { "←" } else { "<-" },
            arrow_r: if caps.has_arrow_r { "→" } else { "->" },
            bar_fill: if block { '█' } else { '#' },
            bar_empty: if block { '░' } else { '.' },
            range: "-",
        }
    }

    /// The Chinese label, or the English one without CJK glyphs.
    pub fn tr<'a>(&self, zh: &'a str, en: &'static str) -> (r: &'a str)
        ensures
            r@ == (if self.cjk { zh@ } else { en@ }),
    {
        if self.cjk {
            zh
        } else {
            en
        }
    }

    /// The mode name, in English without CJK glyphs.
    pub fn tr_mode(&self, mode: &'static str) -> (r: &'static str)
        ensures
            r@ == mode_name(self.cjk, mode@),
    {
        if self.cjk {
            return mode;
        }
        let m = chars_of(mode);
        proof {
            reveal_strlit("音乐文件");
            reveal_strlit("MIDI 音乐");
            reveal_strlit("简谱");
        }
        if eq_str(m.as_slice(), "音乐文件") {
            "Music File"
        } else if eq_str(m.as_slice(), "MIDI 音乐") {
            "MIDI Music"
        } else if eq_str(m.as_slice(), "简谱") {
            "Score"
        } else {
            mode
        }
    }

    /// Without CJK glyphs every non-ASCII character becomes `?`.
    pub fn safe(&self, s: &str) -> (r: String)
        ensures
            r@ == safe_text(self.cjk, s@),
    {
        if self.cjk {
            return s.to_owned();
        }
        let v = chars_of(s);
        let mut out: Vec<char> = Vec::new();
        let mut i: usize = 0;
        while i < v.len()
            invariant
                0 <= i <= v@.len(),
                v@ == s@,
                out@ == safe_text(false, s@).take(i as int),
            decreases v@.len() - i,
        {
            let c = v[i];
            out.push(if (c as u32) < 128 { c } else { '?' });
            i = i + 1;
            assert(out@ =~= safe_text(false, s@).take(i as int));
        }
        assert(safe_text(false, s@).take(v@.len() as int) =~= safe_text(false, s@));
        string_from_chars(out.as_slice())
    }
}

pub open spec fn mode_name(cjk: bool, mode: Seq<char>) -> Seq<char> {
    if cjk {
        mode
    } else if mode == "音乐文件"@ {
        "Music File"@
    } else if mode == "MIDI 音乐"@ {
        "MIDI Music"@
    } else if mode == "简谱"@ {
        "Score"@
    } else {
        mode
    }
}

pub open spec fn safe_text(cjk: bool, s: Seq<char>) -> Seq<char> {
    if cjk {
        s
    } else {
        Seq::new(s.len(), |i: int| if (s[i] as u32) < 128 { s[i] } else { '?' })
    }
}

/// `n` spaces.
pub open spec fn spaces(n: nat) -> Seq<char> {
    Seq::new(n, |i: int| ' ')
}

pub fn spaces_exec(n: usize) -> (r: Vec<char>)
    ensures
        r@ == spaces(n as nat),
{
    let mut r: Vec<char> = Vec::new();
    let mut k: usize = 0;
    while k < n
        invariant
            0 <= k <= n,
            r@ == spaces(k as nat),
        decreases n - k,
    {
        r.push(' ');
        k = k + 1;
        assert(r@ =~= spaces(k as nat));
    }
    r
}

/// A framed line: gray border, the content, spaces up to the inner width.
pub open spec fn line_text(inner: nat, gray: Seq<char>, v: Seq<char>, content: Seq<char>) -> Seq<char> {
    gray + v + " "@ + content + spaces(sub_sat(inner, disp_w(content))) + " "@ + v + "\x1b[0m"@
}

/// Frames `content` between vertical borders, padded to `inner` columns.
pub fn line(inner: usize, st: &Style, content: &str) -> (r: String)
    requires
        content@.len() <= isize::MAX,
    ensures
        r@ == line_text(inner as nat, st.p.sgr[7]@, st.box_.v@, content@),
{
    let w = disp_width(content);
    let pad = if inner >= w { inner - w } else { 0 };
    let mut out = chars_of(st.p.col(NamedColor::Gray));
    append(&mut out, &chars_of(st.box_.v));
    append(&mut out, &chars_of(" "));
    append(&mut out, &chars_of(content));
    append(&mut out, &spaces_exec(pad));
    append(&mut out, &chars_of(" "));
    append(&mut out, &chars_of(st.box_.v));
    append(&mut out, &chars_of("\x1b[0m"));
    string_from_chars(out.as_slice())
}

pub open spec fn meta_color_index(label: Seq<char>) -> int {
    if label == "作曲家"@ {
        2
    } else if label == "艺术家"@ {
        0
    } else if label == "专辑"@ {
        4
    } else {
        7
    }
}

pub open spec fn meta_label_en(label: Seq<char>) -> Seq<char> {
    if label == "作曲家"@ {
        "Composer"@
    } else if label == "艺术家"@ {
        "Artist"@
    } else if label == "专辑"@ {
        "Album"@
    } else {
        "Date/Genre"@
    }
}

/// A metadata line: the label in its color, then the value cut to the
/// columns left of `max`.
pub open spec fn meta_line(label: Seq<char>, value: Seq<char>, max: nat, st: Style) -> Seq<char> {
    let lab = if st.cjk {
        label
    } else {
        meta_label_en(label)
    };
    st.p.sgr[meta_color_index(label)]@ + lab + " "@ + "\x1b[0m"@ + clip_text(
        safe_text(st.cjk, value),
        sub_sat(max, disp_w(lab) + 1),
        st.ellipsis@,
    ) + "\x1b[0m"@
}

pub fn meta_text(label: &str, value: &str, max: usize, st: &Style) -> (r: String)
    requires
        label@.len() <= isize::MAX,
        value@.len() <= isize::MAX,
        st.ellipsis@.len() <= isize::MAX,
    ensures
        r@ == meta_line(label@, value@, max as nat, *st),
{
    proof {
        reveal_strlit("作曲家");
        reveal_strlit("艺术家");
        reveal_strlit("专辑");
        reveal_strlit("Composer");
        reveal_strlit("Artist");
        reveal_strlit("Album");
        reveal_strlit("Date/Genre");
    }
    let lv = chars_of(label);
    let (color, en) = if eq_str(lv.as_slice(), "作曲家") {
        (NamedColor::Magenta, "Composer")
    } else if eq_str(lv.as_slice(), "艺术家") {
        (NamedColor::Cyan, "Artist")
    } else if eq_str(lv.as_slice(), "专辑") {
        (NamedColor::GreenDim, "Album")
    } else {
        (NamedColor::Gray, "Date/Genre")
    };
    let lab = st.tr(label, en);
    let value = st.safe(value);
    let mut out = chars_of(st.p.col(color));
    append(&mut out, &chars_of(lab));
    append(&mut out, &chars_of(" "));
    append(&mut out, &chars_of("\x1b[0m"));
    let lw = disp_width_chars(chars_of(lab).as_slice());
    let room = if max > lw { max - lw - 1 } else { 0 };
    let vv = chars_of(value.as_str());
    append(&mut out, &clip_chars(vv.as_slice(), room, chars_of(st.ellipsis).as_slice()));
    append(&mut out, &chars_of("\x1b[0m"));
    string_from_chars(out.as_slice())
}

// ---------------------------------------------------------------------------
// Metadata
// ---------------------------------------------------------------------------

/// Tags of an audio file.
#[derive(Default, Clone)]
pub struct MetaInfo {
    pub title: Option<String>,
    pub artist: Option<String>,
    pub album: Option<String>,
    pub composer: Option<String>,
    pub date: Option<String>,
    pub genre: Option<String>,
}

pub open spec fn opt_view(o: Option<String>) -> Option<Seq<char>> {
    match o {
        Some(s) => Some(s@),
        None => None,
    }
}

/// (label, text) lines shown beside the cover: composer, artist, album,
/// then date and genre together, each only when known.
pub open spec fn meta_lines(m: MetaInfo) -> Seq<(Seq<char>, Seq<char>)> {
    let a = match opt_view(m.composer) {
        Some(s) => seq![("作曲家"@, s)],
        None => Seq::empty(),
    };
    let b = match opt_view(m.artist) {
        Some(s) => seq![("艺术家"@, s)],
        None => Seq::empty(),
    };
    let c = match opt_view(m.album) {
        Some(s) => seq![("专辑"@, s)],
        None => Seq::empty(),
    };
    let d = match (opt_view(m.date), opt_view(m.genre)) {
        (Some(x), Some(y)) => seq![("年代/风格"@, x + " · "@ + y)],
        (Some(x), None) => seq![("年代/风格"@, x)],
        (None, Some(y)) => seq![("年代/风格"@, y)],
        (None, None) => Seq::empty(),
    };
    a + b + c + d
}

pub open spec fn pairs_view(v: Seq<(&'static str, String)>) -> Seq<(Seq<char>, Seq<char>)> {
    v.map_values(|p: (&'static str, String)| (p.0@, p.1@))
}

impl MetaInfo {
    /// The lines shown beside the cover; see `meta_lines`.
    pub fn lines(&self) -> (r: Vec<(&'static str, String)>)
        ensures
            pairs_view(r@) == meta_lines(*self),
    {
        let mut v: Vec<(&'static str, String)> = Vec::new();
        let ghost mut want: Seq<(Seq<char>, Seq<char>)> = Seq::empty();
        if let Some(s) = &self.composer {
            v.push(("作曲家", s.clone()));
        }
        if let Some(s) = &self.artist {
            v.push(("艺术家", s.clone()));
        }
        if let Some(s) = &self.album {
            v.push(("专辑", s.clone()));
        }
        let extra: Option<String> = match (&self.date, &self.genre) {
            (Some(d), Some(g)) => {
                let mut t = chars_of(d.as_str());
                append(&mut t, &chars_of(" · "));
                append(&mut t, &chars_of(g.as_str()));
                Some(string_from_chars(t.as_slice()))
            },
            (Some(d), None) => Some(d.clone()),
            (None, Some(g)) => Some(g.clone()),
            (None, None) => None,
        };
        if let Some(s) = extra {
            v.push(("年代/风格", s));
        }
        assert(pairs_view(v@) =~= meta_lines(*self));
        v
    }
}

// ---------------------------------------------------------------------------
// Screen updates and the mouse
// ---------------------------------------------------------------------------

/// Text that draws a frame, given the lines on screen: a terminal emulator
/// redraws everything; a console clears first when nothing is on screen,
/// then rewrites only the changed lines and blanks the lines past the frame.
pub open spec fn update_text(kind: OutputKind, prev: Seq<Seq<char>>, frame: Seq<Seq<char>>) -> Seq<char> {
    match kind {
        OutputKind::Pty => "\x1b[H\x1b[2J"@ + join_lines(frame),
        OutputKind::Tty => (if prev.len() == 0 {
            "\x1b[2J\x1b[H"@
        } else {
            Seq::empty()
        }) + changed_rows(prev, frame, frame.len() as int) + cleared_rows(frame.len() as int, prev.len() as int),
    }
}

/// Rewrites of the first `n` lines of the frame that differ from the screen.
pub open spec fn changed_rows(prev: Seq<Seq<char>>, frame: Seq<Seq<char>>, n: int) -> Seq<char>
    decreases n,
{
    if n <= 0 {
        Seq::empty()
    } else {
        changed_rows(prev, frame, n - 1) + if n - 1 < prev.len() && prev[n - 1] == frame[n - 1] {
            Seq::empty()
        } else {
            "\x1b["@ + dec_str(n as nat) + ";1H"@ + frame[n - 1] + "\x1b[K"@
        }
    }
}

/// Blanking of rows `from + 1` to `to` (1-based).
pub open spec fn cleared_rows(from: int, to: int) -> Seq<char>
    decreases to - from,
{
    if from >= to {
        Seq::empty()
    } else {
        cleared_rows(from, to - 1) + "\x1b["@ + dec_str(to as nat) + ";1H\x1b[K"@
    }
}

fn same_string(a: &String, b: &String) -> (r: bool)
    ensures
        r == (a@ == b@),
{
    let x = chars_of(a.as_str());
    let y = chars_of(b.as_str());
    if x.len() != y.len() {
        return false;
    }
    let mut k: usize = 0;
    while k < x.len()
        invariant
            0 <= k <= x@.len(),
            x@.len() == y@.len(),
            x@ == a@,
            y@ == b@,
            forall|m: int| 0 <= m < k ==> x@[m] == y@[m],
        decreases x@.len() - k,
    {
        if x[k] != y[k] {
            assert(x@[k as int] != y@[k as int]);
            return false;
        }
        k = k + 1;
    }
    assert(x@ =~= y@);
    true
}

/// The text that brings the screen from `prev` to `frame`; see
/// `update_text`.
pub fn render_update(kind: OutputKind, prev: &Vec<String>, frame: &Vec<String>) -> (r: String)
    requires
        frame@.len() < u64::MAX,
        prev@.len() < u64::MAX,
    ensures
        r@ == update_text(kind, strings_view(prev@), strings_view(frame@)),
{
    match kind {
        OutputKind::Pty => {
            let mut out = String::new();
            append_pty_frame(&mut out, frame.as_slice());
            out
        },
        OutputKind::Tty => {
            let ghost pv = strings_view(prev@);
            let ghost fv = strings_view(frame@);
            let mut v: Vec<char> = if prev.len() == 0 { chars_of("\x1b[2J\x1b[H") } else { Vec::new() };
            let ghost head = v@;
            let mut i: usize = 0;
            while i < frame.len()
                invariant
                    0 <= i <= frame@.len(),
                    frame@.len() < u64::MAX,
                    pv == strings_view(prev@),
                    fv == strings_view(frame@),
                    v@ == head + changed_rows(pv, fv, i as int),
                decreases frame@.len() - i,
            {
                let same = i < prev.len() && same_string(&prev[i], &frame[i]);
                proof {
                    if i < prev@.len() {
                        assert(pv[i as int] == prev@[i as int]@);
                    }
                    assert(fv[i as int] == frame@[i as int]@);
                }
                if !same {
                    append(&mut v, &chars_of("\x1b["));
                    append(&mut v, &dec_exec(i as u64 + 1));
                    append(&mut v, &chars_of(";1H"));
                    append(&mut v, &chars_of(frame[i].as_str()));
                    append(&mut v, &chars_of("\x1b[K"));
                }
                i = i + 1;
            }
            let ghost mid = v@;
            let mut j: usize = frame.len();
            while j < prev.len()
                invariant
                    frame@.len() <= j <= prev@.len() || (j == frame@.len() && prev@.len() < frame@.len()),
                    prev@.len() < u64::MAX,
                    v@ == mid + cleared_rows(frame@.len() as int, j as int),
                decreases prev@.len() - j,
            {
                append(&mut v, &chars_of("\x1b["));
                append(&mut v, &dec_exec(j as u64 + 1));
                append(&mut v, &chars_of(";1H\x1b[K"));
                j = j + 1;
            }
            proof {
                if prev@.len() <= frame@.len() {
                    assert(cleared_rows(frame@.len() as int, prev@.len() as int) =~= Seq::<char>::empty());
                }
            }
            string_from_chars(v.as_slice())
        },
    }
}

/// First column (1-based) of the progress bar: after `│ ` and ` ▸ `.
pub const BAR_X0: u16 = 6;

/// Rows of the screen the mouse acts on.
#[derive(Debug, Clone, Copy, PartialEq, Eq, Structural)]
pub struct TuiLayout {
    /// Terminal width in columns.
    pub width: usize,
    /// 1-based row of the status line (click: play or pause).
    pub status_row: u16,
    /// 1-based row of the progress bar (click: seek).
    pub bar_row: u16,
}

/// What a left click asks for.
#[derive(Debug, Clone, Copy, PartialEq, Eq, Structural)]
pub enum MouseHit {
    /// Seek to `offset / span` of the piece.
    Seek { offset: u64, span: u64 },
    Play,
    Pause,
    Nothing,
}

/// Cells of the progress bar on a terminal `width` columns wide.
pub open spec fn bar_cells(width: usize) -> int {
    let w = sub_sat(width as nat, 16) as int;
    if w < 8 {
        8
    } else if w > 72 {
        72
    } else {
        w
    }
}

/// A click on the bar seeks to the cell under it (cells left of the bar
/// count as the first, right of it as the last); a click on the status row
/// toggles play and pause.
pub open spec fn mouse_hit(l: TuiLayout, x: u16, y: u16, paused: bool) -> MouseHit {
    if y == l.bar_row {
        let w = bar_cells(l.width);
        let off = if x < BAR_X0 {
            0
        } else if x - BAR_X0 > w - 1 {
            w - 1
        } else {
            x - BAR_X0
        };
        MouseHit::Seek { offset: off as u64, span: (w - 1) as u64 }
    } else if y == l.status_row {
        if paused {
            MouseHit::Play
        } else {
            MouseHit::Pause
        }
    } else {
        MouseHit::Nothing
    }
}

/// Rows the logo takes: its height and a blank row, none without a logo.
pub open spec fn logo_rows(logo_h: usize) -> int {
    if logo_h > 0 {
        logo_h + 1
    } else {
        0
    }
}

/// The rows of the screen as drawn: the title and the state box first,
/// then the logo, then the status row and, right below it, the progress
/// bar.
pub open spec fn screen_layout(width: usize, logo_h: usize) -> TuiLayout {
    TuiLayout {
        width,
        status_row: (3 + logo_rows(logo_h)) as u16,
        bar_row: (4 + logo_rows(logo_h)) as u16,
    }
}

/// On every screen short enough to number its rows, the progress bar is the
/// row right below the status row, so a click on the one never acts as a
/// click on the other: the bar row seeks and the status row plays or
/// pauses.
pub proof fn lemma_layout_rows(width: usize, logo_h: usize, x: u16, paused: bool)
    requires
        logo_h < 65000,
    ensures
        screen_layout(width, logo_h).bar_row == screen_layout(width, logo_h).status_row + 1,
        mouse_hit(screen_layout(width, logo_h), x, screen_layout(width, logo_h).bar_row, paused) is Seek,
        mouse_hit(screen_layout(width, logo_h), x, screen_layout(width, logo_h).status_row, paused) == (if paused {
            MouseHit::Play
        } else {
            MouseHit::Pause
        }),
{
}

impl TuiLayout {
    /// The rows of a screen `width` columns wide with a logo `logo_h` rows
    /// high (0 without one); see `screen_layout`.
    pub fn for_screen(width: usize, logo_h: usize) -> (r: TuiLayout)
        requires
            logo_h <= usize::MAX - 5,
        ensures
            r == screen_layout(width, logo_h),
    {
        let rows: usize = if logo_h > 0 { logo_h + 1 } else { 0 };
        TuiLayout { width, status_row: (3 + rows) as u16, bar_row: (4 + rows) as u16 }
    }

    /// What a left click at column `x`, row `y` asks for; see `mouse_hit`.
    pub fn mouse_control(&self, x: u16, y: u16, paused: bool) -> (r: MouseHit)
        ensures
            r == mouse_hit(*self, x, y, paused),
    {
        if y == self.bar_row {
            let raw = if self.width >= 16 { self.width - 16 } else { 0 };
            let w: u64 = if raw < 8 { 8 } else if raw > 72 { 72 } else { raw as u64 };
            let off: u64 = if x < BAR_X0 {
                0
            } else if (x - BAR_X0) as u64 > w - 1 {
                w - 1
            } else {
                (x - BAR_X0) as u64
            };
            return MouseHit::Seek { offset: off, span: w - 1 };
        }
        if y == self.status_row {
            return if paused { MouseHit::Play } else { MouseHit::Pause };
        }
        MouseHit::Nothing
    }
}
} // verus!
