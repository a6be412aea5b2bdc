//! Splitting score text into lines and whitespace-separated fields, and
//! classifying jianpu lines.
use vstd::prelude::*;
use crate::text::{
    all_digits, copy_range, is_digit, is_digit_char, is_ws, is_ws_char, parse_uint, parse_uint_exec,
    starts_with, starts_with_str, trim, trim_exec,
};

verus! {

// ---------------------------------------------------------------------------
// str::lines
// ---------------------------------------------------------------------------

/// Strip one trailing carriage return.
pub open spec fn strip_cr(s: Seq<char>) -> Seq<char> {
    if s.len() > 0 && s.last() == '\r' {
        s.drop_last()
    } else {
        s
    }
}

/// Left fold of `str::lines`: the finished lines and the unfinished tail.
pub open spec fn lines_fold(s: Seq<char>) -> (Seq<Seq<char>>, Seq<char>)
    decreases s.len(),
{
    if s.len() == 0 {
        (Seq::empty(), Seq::empty())
    } else {
        let (done, cur) = lines_fold(s.drop_last());
        if s.last() == '\n' {
            (done.push(strip_cr(cur)), Seq::empty())
        } else {
            (done, cur.push(s.last()))
        }
    }
}

/// `str::lines`: lines end at `\n` (an `\r` right before it is dropped);
/// a last line without a terminator is kept as it is.
pub open spec fn split_lines(s: Seq<char>) -> Seq<Seq<char>> {
    let (done, cur) = lines_fold(s);
    if cur.len() > 0 {
        done.push(cur)
    } else {
        done
    }
}

pub fn split_lines_exec(s: &[char]) -> (r: Vec<Vec<char>>)
    ensures
        r@.len() == split_lines(s@).len(),
        forall|k: int| 0 <= k < r@.len() ==> #[trigger] r@[k]@ == split_lines(s@)[k],
{
    let mut done: Vec<Vec<char>> = Vec::new();
    let mut cur: Vec<char> = Vec::new();
    let mut i: usize = 0;
    while i < s.len()
        invariant
            0 <= i <= s@.len(),
            done@.len() == lines_fold(s@.take(i as int)).0.len(),
            forall|k: int|
                0 <= k < done@.len() ==> #[trigger] done@[k]@ == lines_fold(s@.take(i as int)).0[k],
            cur@ == lines_fold(s@.take(i as int)).1,
        decreases s@.len() - i,
    {
        let c = s[i];
        proof {
            assert(s@.take(i + 1).drop_last() =~= s@.take(i as int));
            assert(s@.take(i + 1).last() == c);
        }
        if c == '\n' {
            let n = cur.len();
            let line = if n > 0 && cur[n - 1] == '\r' {
                copy_range(cur.as_slice(), 0, n - 1)
            } else {
                copy_range(cur.as_slice(), 0, n)
            };
            proof {
                assert(cur@.subrange(0, cur@.len() as int) =~= cur@);
                assert(cur@.subrange(0, cur@.len() - 1) =~= cur@.drop_last());
            }
            done.push(line);
            cur = Vec::new();
        } else {
            cur.push(c);
        }
        i = i + 1;
    }
    assert(s@.take(s@.len() as int) =~= s@);
    if cur.len() > 0 {
        done.push(cur);
    }
    done
}

// ---------------------------------------------------------------------------
// str::split_whitespace
// ---------------------------------------------------------------------------

pub open spec fn words_fold(s: Seq<char>) -> (Seq<Seq<char>>, Seq<char>)
    decreases s.len(),
{
    if s.len() == 0 {
        (Seq::empty(), Seq::empty())
    } else {
        let (done, cur) = words_fold(s.drop_last());
        if is_ws(s.last()) {
            if cur.len() > 0 {
                (done.push(cur), Seq::empty())
            } else {
                (done, cur)
            }
        } else {
            (done, cur.push(s.last()))
        }
    }
}

/// `str::split_whitespace`: the maximal runs of non-white-space characters.
pub open spec fn words(s: Seq<char>) -> Seq<Seq<char>> {
    let (done, cur) = words_fold(s);
    if cur.len() > 0 {
        done.push(cur)
    } else {
        done
    }
}

pub fn words_exec(s: &[char]) -> (r: Vec<Vec<char>>)
    ensures
        r@.len() == words(s@).len(),
        forall|k: int| 0 <= k < r@.len() ==> #[trigger] r@[k]@ == words(s@)[k],
{
    let mut done: Vec<Vec<char>> = Vec::new();
    let mut cur: Vec<char> = Vec::new();
    let mut i: usize = 0;
    while i < s.len()
        invariant
            0 <= i <= s@.len(),
            done@.len() == words_fold(s@.take(i as int)).0.len(),
            forall|k: int|
                0 <= k < done@.len() ==> #[trigger] done@[k]@ == words_fold(s@.take(i as int)).0[k],
            cur@ == words_fold(s@.take(i as int)).1,
        decreases s@.len() - i,
    {
        let c = s[i];
        proof {
            assert(s@.take(i + 1).drop_last() =~= s@.take(i as int));
            assert(s@.take(i + 1).last() == c);
        }
        if is_ws_char(c) {
            if cur.len() > 0 {
                done.push(cur);
                cur = Vec::new();
            }
        } else {
            cur.push(c);
        }
        i = i + 1;
    }
    assert(s@.take(s@.len() as int) =~= s@);
    if cur.len() > 0 {
        done.push(cur);
    }
    done
}

// ---------------------------------------------------------------------------
// Digits
// ---------------------------------------------------------------------------

/// The ASCII digits of `s`, in order.
pub open spec fn digits_of(s: Seq<char>) -> Seq<char>
    decreases s.len(),
{
    if s.len() == 0 {
        Seq::empty()
    } else if is_digit(s.last()) {
        digits_of(s.drop_last()).push(s.last())
    } else {
        digits_of(s.drop_last())
    }
}

pub fn digits_exec(s: &[char]) -> (r: Vec<char>)
    ensures
        r@ == digits_of(s@),
{
    let mut r: Vec<char> = Vec::new();
    let mut i: usize = 0;
    while i < s.len()
        invariant
            0 <= i <= s@.len(),
            r@ == digits_of(s@.take(i as int)),
        decreases s@.len() - i,
    {
        proof {
            assert(s@.take(i + 1).drop_last() =~= s@.take(i as int));
        }
        if is_digit_char(s[i]) {
            r.push(s[i]);
        }
        i = i + 1;
    }
    assert(s@.take(s@.len() as int) =~= s@);
    r
}

pub fn all_digits_exec(s: &[char]) -> (b: bool)
    ensures
        b == all_digits(s@),
{
    let mut i: usize = 0;
    while i < s.len()
        invariant
            0 <= i <= s@.len(),
            forall|k: int| 0 <= k < i ==> is_digit(#[trigger] s@[k]),
        decreases s@.len() - i,
    {
        if !is_digit_char(s[i]) {
            return false;
        }
        i = i + 1;
    }
    true
}

// ---------------------------------------------------------------------------
// Line kinds of the jianpu formats
// ---------------------------------------------------------------------------

#[derive(Clone, Copy, PartialEq, Eq, Structural, Debug)]
pub enum LineKind {
    Tempo,
    Comment,
    TrackHeader,
    NoteLine,
    Blank,
}

/// `#BPM`/`#bpm` lines and lines made only of digits set the tempo; other
/// `#` lines are comments; a `T` line opens a track; other non-blank lines
/// hold notes.
pub open spec fn classify(line: Seq<char>) -> LineKind {
    let t = trim(line);
    if t.len() == 0 {
        LineKind::Blank
    } else if t[0] == '#' {
        let r = trim(t.drop_first());
        if starts_with(r, "BPM"@) || starts_with(r, "bpm"@) {
            LineKind::Tempo
        } else {
            LineKind::Comment
        }
    } else if t[0] == 'T' {
        LineKind::TrackHeader
    } else if all_digits(t) {
        LineKind::Tempo
    } else {
        LineKind::NoteLine
    }
}

pub fn classify_line(line: &[char]) -> (k: LineKind)
    ensures
        k == classify(line@),
{
    let t = trim_exec(line);
    if t.len() == 0 {
        LineKind::Blank
    } else if t[0] == '#' {
        let rest = copy_range(t.as_slice(), 1, t.len());
        assert(rest@ =~= t@.drop_first());
        let r = trim_exec(rest.as_slice());
        if starts_with_str(r.as_slice(), "BPM") || starts_with_str(r.as_slice(), "bpm") {
            LineKind::Tempo
        } else {
            LineKind::Comment
        }
    } else if t[0] == 'T' {
        LineKind::TrackHeader
    } else if all_digits_exec(t.as_slice()) {
        LineKind::Tempo
    } else {
        LineKind::NoteLine
    }
}

pub open spec fn u32_max() -> nat {
    0xffff_ffff
}

/// Tempo given by a beats-per-minute number written as digits: milliseconds
/// per quarter note, at least 1; none when the number is zero or too large.
pub open spec fn bpm_value(num: Seq<char>) -> Option<u32> {
    match parse_uint(num, u32_max()) {
        Some(bpm) => if bpm > 0 {
            Some(if 60000nat / bpm >= 1 {
                (60000nat / bpm) as u32
            } else {
                1u32
            })
        } else {
            None
        },
        None => None,
    }
}

/// Tempo of a `#BPM n` line (`t` is the trimmed line, starting with `#`):
/// the digits after `#` read as beats per minute.
pub open spec fn bpm_tempo(t: Seq<char>) -> Option<u32> {
    bpm_value(digits_of(t.drop_first()))
}

/// Tempo of a plain-number line: milliseconds per quarter note, when positive.
pub open spec fn ms_tempo(t: Seq<char>) -> Option<u32> {
    match parse_uint(t, u32_max()) {
        Some(ms) => if ms > 0 {
            Some(ms as u32)
        } else {
            None
        },
        None => None,
    }
}

pub fn bpm_value_exec(num: &[char]) -> (r: Option<u32>)
    ensures
        r == bpm_value(num@),
{
    match parse_uint_exec(num, 0xffff_ffff) {
        Some(bpm) => {
            if bpm > 0 {
                let q = 60000 / bpm;
                Some(if q >= 1 {
                    q as u32
                } else {
                    1u32
                })
            } else {
                None
            }
        },
        None => None,
    }
}

pub fn bpm_tempo_exec(t: &[char]) -> (r: Option<u32>)
    requires
        t@.len() > 0,
    ensures
        r == bpm_tempo(t@),
{
    let rest = copy_range(t, 1, t.len());
    assert(rest@ =~= t@.drop_first());
    let num = digits_exec(rest.as_slice());
    bpm_value_exec(num.as_slice())
}

/// Tempo of a tempo line (trimmed, not empty): `#BPM n` or a plain number.
pub open spec fn tempo_line(t: Seq<char>) -> Option<u32> {
    if t[0] == '#' {
        bpm_tempo(t)
    } else {
        ms_tempo(t)
    }
}

pub fn tempo_line_exec(t: &[char]) -> (r: Option<u32>)
    requires
        t@.len() > 0,
    ensures
        r == tempo_line(t@),
{
    if t[0] == '#' {
        bpm_tempo_exec(t)
    } else {
        ms_tempo_exec(t)
    }
}

pub fn ms_tempo_exec(t: &[char]) -> (r: Option<u32>)
    ensures
        r == ms_tempo(t@),
{
    match parse_uint_exec(t, 0xffff_ffff) {
        Some(ms) => {
            if ms > 0 {
                Some(ms as u32)
            } else {
                None
            }
        },
        None => None,
    }
}

} // verus!
