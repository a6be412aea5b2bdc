//! Jianpu note tokens: one token is a note, a rest or a chord together with
//! its duration modifiers.
use vstd::prelude::*;
use crate::lines::{words, words_exec};

verus! {

/// Semitone offset of the scale degrees 1..7 above C.
pub open spec fn degree_offset(d: nat) -> int {
    if d == 0 {
        0
    } else if d == 1 {
        2
    } else if d == 2 {
        4
    } else if d == 3 {
        5
    } else if d == 4 {
        7
    } else if d == 5 {
        9
    } else {
        11
    }
}

/// Octave shift after clamping to three octaves down and four up.
pub open spec fn clamp_octave(lvl: i8) -> int {
    if lvl > 4 {
        4
    } else if lvl < -3 {
        -3
    } else {
        lvl as int
    }
}

/// MIDI key of scale degree `d` (0-based) at octave shift `lvl`: C4 = 60.
pub open spec fn note_key(d: nat, lvl: i8, sharp: bool) -> u8 {
    let k = 60 + 12 * clamp_octave(lvl) + degree_offset(d) + (if sharp {
        1int
    } else {
        0int
    });
    if k < 0 {
        0u8
    } else if k > 127 {
        127u8
    } else {
        k as u8
    }
}

/// Rust's `/` on signed integers: the quotient rounded toward zero.
pub open spec fn tdiv(a: i64, b: i64) -> i64 {
    let x = a as int;
    let y = b as int;
    if x >= 0 {
        (x / y) as i64
    } else {
        (-((-x) / y)) as i64
    }
}

/// A note whose octave marks (`^` `,`) and sharp (`#`) are still being read.
#[derive(Clone, Copy)]
pub struct PendingNote {
    pub degree: u8,
    pub lvl: i8,
    pub sharp: bool,
}

/// State of the left-to-right reading of one token.
pub struct TokenState {
    /// Duration so far, in milliseconds.
    pub ctn: i64,
    pub notes: Vec<u8>,
    pub chord: bool,
    pub chord_notes: Vec<u8>,
    pub pending: Option<PendingNote>,
}

pub ghost struct TokenModel {
    pub ctn: i64,
    pub notes: Seq<u8>,
    pub chord: bool,
    pub chord_notes: Seq<u8>,
    pub pending: Option<(nat, i8, bool)>,
}

impl TokenState {
    pub closed spec fn model(&self) -> TokenModel {
        TokenModel {
            ctn: self.ctn,
            notes: self.notes@,
            chord: self.chord,
            chord_notes: self.chord_notes@,
            pending: match self.pending {
                Some(p) => Some((p.degree as nat, p.lvl, p.sharp)),
                None => None,
            },
        }
    }
}

pub open spec fn is_mark(c: char) -> bool {
    c == '^' || c == ',' || c == '#'
}

/// Finish the note being read, if any: it joins the open chord or the notes.
pub open spec fn flush(st: TokenModel) -> TokenModel {
    match st.pending {
        Some((d, lvl, sharp)) => {
            let k = note_key(d, lvl, sharp);
            if st.chord {
                TokenModel { chord_notes: st.chord_notes.push(k), pending: None, ..st }
            } else {
                TokenModel { notes: st.notes.push(k), pending: None, ..st }
            }
        },
        None => st,
    }
}

/// Effect of one character of a token (after any pending note is finished).
pub open spec fn apply_char(st: TokenModel, c: char, base: i64) -> TokenModel {
    if c == '[' || c == '{' {
        TokenModel { chord: true, chord_notes: Seq::empty(), ..st }
    } else if c == ']' || c == '}' {
        TokenModel { chord: false, notes: st.notes + st.chord_notes, chord_notes: Seq::empty(), ..st }
    } else if c == '_' {
        TokenModel { ctn: tdiv(st.ctn, 2), ..st }
    } else if c == '*' {
        TokenModel { ctn: tdiv(st.ctn, 3), ..st }
    } else if c == '%' {
        TokenModel { ctn: tdiv(st.ctn, 5), ..st }
    } else if c == '&' {
        TokenModel { ctn: tdiv(st.ctn, 7), ..st }
    } else if c == '.' {
        TokenModel { ctn: tdiv(st.ctn.wrapping_mul(3), 2), ..st }
    } else if c == '-' {
        TokenModel { ctn: st.ctn.wrapping_add(base), ..st }
    } else if '1' <= c && c <= '7' {
        TokenModel { pending: Some(((c as int - '1' as int) as nat, 0i8, false)), ..st }
    } else {
        st
    }
}

pub open spec fn step(st: TokenModel, c: char, base: i64) -> TokenModel {
    match st.pending {
        Some((d, lvl, sharp)) => if is_mark(c) {
            if c == '^' {
                TokenModel { pending: Some((d, lvl.wrapping_add(1i8), sharp)), ..st }
            } else if c == ',' {
                TokenModel { pending: Some((d, lvl.wrapping_sub(1i8), sharp)), ..st }
            } else {
                TokenModel { pending: Some((d, lvl, true)), ..st }
            }
        } else {
            apply_char(flush(st), c, base)
        },
        None => apply_char(st, c, base),
    }
}

pub open spec fn token_init(tempo_ms: u32) -> TokenModel {
    TokenModel {
        ctn: tempo_ms as i64,
        notes: Seq::empty(),
        chord: false,
        chord_notes: Seq::empty(),
        pending: None,
    }
}

pub open spec fn token_fold(t: Seq<char>, tempo_ms: u32) -> TokenModel
    decreases t.len(),
{
    if t.len() == 0 {
        token_init(tempo_ms)
    } else {
        step(token_fold(t.drop_last(), tempo_ms), t.last(), tempo_ms as i64)
    }
}

/// Notes (MIDI keys, rests excluded) and duration in milliseconds of a token,
/// where a quarter note lasts `tempo_ms`: `-` adds a quarter, `_` halves,
/// `*` `%` `&` divide by 3, 5, 7, `.` multiplies by 3/2 (integer steps, in
/// reading order); digits 1-7 are notes with octave marks `^` `,` and sharp
/// `#`; `[..]`/`{..}` group a chord; anything else is ignored. The duration
/// is at least 1 ms.
pub open spec fn token_value(t: Seq<char>, tempo_ms: u32) -> (Seq<u8>, u32) {
    let st = flush(token_fold(t, tempo_ms));
    let notes = st.notes + st.chord_notes;
    let dur = if st.ctn >= 1 {
        st.ctn as int
    } else {
        1int
    };
    (notes, (dur % 0x1_0000_0000) as u32)
}

fn flush_exec(st: &mut TokenState)
    requires
        old(st).pending matches Some(p) ==> p.degree < 7,
    ensures
        final(st).model() == flush(old(st).model()),
{
    match st.pending {
        Some(p) => {
            let k = note_key_exec(p.degree, p.lvl, p.sharp);
            if st.chord {
                st.chord_notes.push(k);
            } else {
                st.notes.push(k);
            }
            st.pending = None;
        },
        None => {},
    }
}

pub fn note_key_exec(d: u8, lvl: i8, sharp: bool) -> (k: u8)
    requires
        d < 7,
    ensures
        k == note_key(d as nat, lvl, sharp),
{
    let l: i32 = if lvl > 4 {
        4
    } else if lvl < -3 {
        -3
    } else {
        lvl as i32
    };
    let off: i32 = if d == 0 {
        0
    } else if d == 1 {
        2
    } else if d == 2 {
        4
    } else if d == 3 {
        5
    } else if d == 4 {
        7
    } else if d == 5 {
        9
    } else {
        11
    };
    let mut m: i32 = 60 + 12 * l + off;
    if sharp {
        m = m + 1;
    }
    if m < 0 {
        0
    } else if m > 127 {
        127
    } else {
        m as u8
    }
}

/// `a` followed by `b`.
pub fn concat_u8(a: &Vec<u8>, b: &Vec<u8>) -> (r: Vec<u8>)
    ensures
        r@ == a@ + b@,
{
    let mut r = a.clone();
    let mut k: usize = 0;
    while k < b.len()
        invariant
            0 <= k <= b@.len(),
            r@ == a@ + b@.take(k as int),
        decreases b@.len() - k,
    {
        r.push(b[k]);
        k = k + 1;
        assert(r@ =~= a@ + b@.take(k as int));
    }
    assert(b@.take(b@.len() as int) =~= b@);
    r
}

/// Rust's signed division by a small positive divisor.
fn div_toward_zero(a: i64, b: i64) -> (q: i64)
    requires
        2 <= b <= 7,
    ensures
        q == tdiv(a, b),
{
    let q = a / b;
    proof {
        let x = a as int;
        let y = b as int;
        if x >= 0 {
            assert(q == x / y);
        } else {
            assert(q == -((-x) / y));
        }
    }
    q
}

fn apply_char_exec(st: &mut TokenState, c: char, base: i64)
    requires
        old(st).pending is None,
    ensures
        final(st).model() == apply_char(old(st).model(), c, base),
{
    if c == '[' || c == '{' {
        st.chord = true;
        st.chord_notes = Vec::new();
    } else if c == ']' || c == '}' {
        st.chord = false;
        let merged = concat_u8(&st.notes, &st.chord_notes);
        st.notes = merged;
        st.chord_notes = Vec::new();
    } else if c == '_' {
        st.ctn = div_toward_zero(st.ctn, 2);
    } else if c == '*' {
        st.ctn = div_toward_zero(st.ctn, 3);
    } else if c == '%' {
        st.ctn = div_toward_zero(st.ctn, 5);
    } else if c == '&' {
        st.ctn = div_toward_zero(st.ctn, 7);
    } else if c == '.' {
        st.ctn = div_toward_zero(st.ctn.wrapping_mul(3), 2);
    } else if c == '-' {
        st.ctn = st.ctn.wrapping_add(base);
    } else if '1' <= c && c <= '7' {
        let d: u8 = (c as u32 - '1' as u32) as u8;
        assert(d as nat == (c as int - '1' as int) as nat);
        st.pending = Some(PendingNote { degree: d, lvl: 0, sharp: false });
    }
}

/// Reads a note token; see `token_value`.
pub fn parse_token(token: &[char], tempo_ms: u32) -> (r: (Vec<u8>, u32))
    ensures
        r.0@ == token_value(token@, tempo_ms).0,
        r.1 == token_value(token@, tempo_ms).1,
{
    let base: i64 = tempo_ms as i64;
    let mut st = TokenState {
        ctn: base,
        notes: Vec::new(),
        chord: false,
        chord_notes: Vec::new(),
        pending: None,
    };
    let mut i: usize = 0;
    while i < token.len()
        invariant
            0 <= i <= token@.len(),
            base == tempo_ms as i64,
            st.model() == token_fold(token@.take(i as int), tempo_ms),
            st.pending matches Some(p) ==> p.degree < 7,
        decreases token@.len() - i,
    {
        let c = token[i];
        proof {
            assert(token@.take(i + 1).drop_last() =~= token@.take(i as int));
            assert(token@.take(i + 1).last() == c);
        }
        let is_pending = st.pending.is_some();
        if is_pending && (c == '^' || c == ',' || c == '#') {
            let p = st.pending.unwrap();
            if c == '^' {
                st.pending = Some(PendingNote { degree: p.degree, lvl: p.lvl.wrapping_add(1), sharp: p.sharp });
            } else if c == ',' {
                st.pending = Some(PendingNote { degree: p.degree, lvl: p.lvl.wrapping_sub(1), sharp: p.sharp });
            } else {
                st.pending = Some(PendingNote { degree: p.degree, lvl: p.lvl, sharp: true });
            }
        } else {
            flush_exec(&mut st);
            apply_char_exec(&mut st, c, base);
        }
        i = i + 1;
    }
    assert(token@.take(token@.len() as int) =~= token@);
    flush_exec(&mut st);
    let notes = concat_u8(&st.notes, &st.chord_notes);
    let dur: u32 = if st.ctn >= 1 {
        (st.ctn % 0x1_0000_0000) as u32
    } else {
        1
    };
    (notes, dur)
}

/// `a / b` rounded toward zero, for a positive `b`, written out.
pub open spec fn quot_toward_zero(a: int, b: int) -> int {
    if a >= 0 {
        a / b
    } else {
        -((-a) / b)
    }
}

/// The duration modifiers act on the running duration of a token, whatever
/// came before them: `_` halves it, `*` divides it by 3 (a triplet), `%` by
/// 5 and `&` by 7 (each rounded toward zero), `-` adds a quarter; none of
/// them changes the notes read so far.
pub proof fn lemma_duration_modifiers(t: Seq<char>, tempo: u32)
    ensures
        token_fold(t.push('_'), tempo).ctn as int == quot_toward_zero(token_fold(t, tempo).ctn as int, 2),
        token_fold(t.push('*'), tempo).ctn as int == quot_toward_zero(token_fold(t, tempo).ctn as int, 3),
        token_fold(t.push('%'), tempo).ctn as int == quot_toward_zero(token_fold(t, tempo).ctn as int, 5),
        token_fold(t.push('&'), tempo).ctn as int == quot_toward_zero(token_fold(t, tempo).ctn as int, 7),
        token_fold(t.push('-'), tempo).ctn == token_fold(t, tempo).ctn.wrapping_add(tempo as i64),
        token_fold(t.push('.'), tempo).ctn as int == quot_toward_zero(
            token_fold(t, tempo).ctn.wrapping_mul(3) as int,
            2,
        ),
        token_value(t.push('*'), tempo).0 == token_value(t, tempo).0,
        token_value(t.push('%'), tempo).0 == token_value(t, tempo).0,
        token_value(t.push('&'), tempo).0 == token_value(t, tempo).0,
        token_value(t.push('_'), tempo).0 == token_value(t, tempo).0,
{
    assert(t.push('_').drop_last() =~= t);
    assert(t.push('*').drop_last() =~= t);
    assert(t.push('%').drop_last() =~= t);
    assert(t.push('&').drop_last() =~= t);
    assert(t.push('-').drop_last() =~= t);
    assert(t.push('.').drop_last() =~= t);
}

proof fn lemma_one_note(d: char, tempo: u32)
    requires
        '1' <= d <= '7',
    ensures
        token_fold(seq![d], tempo) == (TokenModel {
            ctn: tempo as i64,
            notes: Seq::empty(),
            chord: false,
            chord_notes: Seq::empty(),
            pending: Some(((d as int - '1' as int) as nat, 0i8, false)),
        }),
{
    let one = seq![d];
    assert(one.drop_last() =~= Seq::<char>::empty());
    assert(token_fold(Seq::<char>::empty(), tempo) == token_init(tempo));
    assert(one.last() == d);
}

proof fn lemma_fold_two(d: char, m: char, tempo: u32)
    ensures
        token_fold(seq![d, m], tempo) == step(token_fold(seq![d], tempo), m, tempo as i64),
{
    let two = seq![d, m];
    assert(two.drop_last() =~= seq![d]);
    assert(two.last() == m);
}

proof fn lemma_divider(f: TokenModel, m: char, k: int, base: i64)
    requires
        (m == '*' && k == 3) || (m == '%' && k == 5) || (m == '&' && k == 7) || (m == '_' && k == 2),
    ensures
        apply_char(f, m, base) == (TokenModel { ctn: tdiv(f.ctn, k as i64), ..f }),
{
}

#[verifier::spinoff_prover]
#[verifier::rlimit(50)]
proof fn lemma_note_then(d: char, m: char, k: int, tempo: u32)
    requires
        '1' <= d <= '7',
        (m == '*' && k == 3) || (m == '%' && k == 5) || (m == '&' && k == 7) || (m == '_' && k == 2),
    ensures
        token_value(seq![d, m], tempo) == (
            seq![note_key((d as int - '1' as int) as nat, 0, false)],
            if (tempo as int) / k >= 1 { ((tempo as int) / k) as u32 } else { 1u32 },
        ),
{
    lemma_one_note(d, tempo);
    lemma_fold_two(d, m, tempo);
    let key = note_key((d as int - '1' as int) as nat, 0, false);
    let s1 = token_fold(seq![d], tempo);
    assert(!is_mark(m));
    let f = flush(s1);
    assert(f.notes =~= seq![key]);
    assert(f.pending is None && f.ctn == tempo as i64 && f.chord_notes == Seq::<u8>::empty());
    lemma_divider(f, m, k, tempo as i64);
    let st = token_fold(seq![d, m], tempo);
    assert(st == TokenModel { ctn: tdiv(tempo as i64, k as i64), ..f });
    assert(flush(st) == st);
    assert(st.notes + st.chord_notes =~= seq![key]);
    if k == 3 {
        assert(st.ctn as int == (tempo as int) / 3);
    } else if k == 5 {
        assert(st.ctn as int == (tempo as int) / 5);
    } else if k == 7 {
        assert(st.ctn as int == (tempo as int) / 7);
    } else {
        assert(st.ctn as int == (tempo as int) / 2);
    }
}

/// A single note with one modifier lasts a fraction of a quarter: `d*` a
/// third (a triplet: three of them fill one beat), `d%` a fifth, `d&` a
/// seventh, `d_` a half, at least 1 ms; the note is scale degree `d` in the
/// middle octave.
pub proof fn lemma_single_note_fractions(d: char, tempo: u32)
    requires
        '1' <= d <= '7',
    ensures
        token_value(seq![d, '*'], tempo) == (
            seq![note_key((d as int - '1' as int) as nat, 0, false)],
            if tempo / 3 >= 1 { (tempo / 3) as u32 } else { 1u32 },
        ),
        token_value(seq![d, '%'], tempo).1 == if tempo / 5 >= 1 { (tempo / 5) as u32 } else { 1u32 },
        token_value(seq![d, '&'], tempo).1 == if tempo / 7 >= 1 { (tempo / 7) as u32 } else { 1u32 },
        token_value(seq![d, '_'], tempo).1 == if tempo / 2 >= 1 { (tempo / 2) as u32 } else { 1u32 },
{
    lemma_note_then(d, '*', 3, tempo);
    lemma_note_then(d, '%', 5, tempo);
    lemma_note_then(d, '&', 7, tempo);
    lemma_note_then(d, '_', 2, tempo);
}

/// MIDI key of scale degree `d` (`1`-`7`) in the middle octave: C4 = 60,
/// D 62, E 64, F 65, G 67, A 69, B 71.
pub open spec fn middle_key(d: char) -> int {
    if d == '1' {
        60
    } else if d == '2' {
        62
    } else if d == '3' {
        64
    } else if d == '4' {
        65
    } else if d == '5' {
        67
    } else if d == '6' {
        69
    } else {
        71
    }
}

#[verifier::spinoff_prover]
proof fn lemma_note_mark(d: char, m: char, tempo: u32)
    requires
        '1' <= d <= '7',
        m == '^' || m == ',' || m == '#',
    ensures
        token_value(seq![d, m], tempo).0 == seq![
            (middle_key(d) + if m == '^' {
                12int
            } else if m == ',' {
                -12int
            } else {
                1int
            }) as u8,
        ],
{
    lemma_one_note(d, tempo);
    lemma_fold_two(d, m, tempo);
    let st = token_fold(seq![d, m], tempo);
    assert(is_mark(m));
    assert(st.notes == Seq::<u8>::empty() && st.chord_notes == Seq::<u8>::empty() && !st.chord);
    let f = flush(st);
    assert(f.notes =~= seq![f.notes[0]]);
    assert(f.notes + f.chord_notes =~= f.notes);
}

#[verifier::spinoff_prover]
#[verifier::rlimit(50)]
proof fn lemma_note_alone(d: char, tempo: u32)
    requires
        '1' <= d <= '7',
    ensures
        token_value(seq![d], tempo) == (seq![middle_key(d) as u8], if tempo >= 1 { tempo } else { 1u32 }),
{
    lemma_one_note(d, tempo);
    let st = token_fold(seq![d], tempo);
    let f = flush(st);
    assert(f.notes =~= seq![middle_key(d) as u8]);
    assert(f.notes + f.chord_notes =~= f.notes);
    assert(f.ctn == tempo as i64);
}

/// A single note reads as its key: scale degree `d` in the middle octave
/// (C4 = 60), lasting one quarter; `^` raises it an octave, `,` lowers it
/// one, `#` raises it a semitone.
pub proof fn lemma_single_note_keys(d: char, tempo: u32)
    requires
        '1' <= d <= '7',
    ensures
        token_value(seq![d], tempo) == (seq![middle_key(d) as u8], if tempo >= 1 { tempo } else { 1u32 }),
        token_value(seq![d, '^'], tempo).0 == seq![(middle_key(d) + 12) as u8],
        token_value(seq![d, ','], tempo).0 == seq![(middle_key(d) - 12) as u8],
        token_value(seq![d, '#'], tempo).0 == seq![(middle_key(d) + 1) as u8],
{
    lemma_note_alone(d, tempo);
    lemma_note_mark(d, '^', tempo);
    lemma_note_mark(d, ',', tempo);
    lemma_note_mark(d, '#', tempo);
}

/// What reading a token reports besides its value.
#[derive(Debug, Clone, Copy, PartialEq, Eq, Structural)]
pub enum TokenNote {
    /// A note's octave marks go above four octaves up; the shift read.
    OctaveTooHigh(i8),
    /// A note's octave marks go below three octaves down; the shift read.
    OctaveTooLow(i8),
    /// A character the notation does not know, skipped.
    UnknownChar(char),
}

/// Characters a token may hold outside the marks that follow a note.
pub open spec fn known_char(c: char) -> bool {
    c == '[' || c == '{' || c == ']' || c == '}' || c == '|' || c == ' ' || c == '\t' || c == '_' || c == '*'
        || c == '%' || c == '&' || c == '.' || c == '-' || ('0' <= c && c <= '7')
}

/// What finishing the note being read reports: its octave shift when it
/// lies outside the range that `clamp_octave` keeps.
pub open spec fn flush_notes(st: TokenModel) -> Seq<TokenNote> {
    match st.pending {
        Some((d, lvl, sharp)) => if lvl > 4 {
            seq![TokenNote::OctaveTooHigh(lvl)]
        } else if lvl < -3 {
            seq![TokenNote::OctaveTooLow(lvl)]
        } else {
            Seq::empty()
        },
        None => Seq::empty(),
    }
}

pub open spec fn char_notes(c: char) -> Seq<TokenNote> {
    if known_char(c) {
        Seq::empty()
    } else {
        seq![TokenNote::UnknownChar(c)]
    }
}

/// What one character reports, in the state before it.
pub open spec fn step_notes(st: TokenModel, c: char) -> Seq<TokenNote> {
    match st.pending {
        Some(_) => if is_mark(c) {
            Seq::empty()
        } else {
            flush_notes(st) + char_notes(c)
        },
        None => char_notes(c),
    }
}

/// The reports of the characters of `t`, in reading order (durations play
/// no part in them).
pub open spec fn token_notes_fold(t: Seq<char>) -> Seq<TokenNote>
    decreases t.len(),
{
    if t.len() == 0 {
        Seq::empty()
    } else {
        token_notes_fold(t.drop_last()) + step_notes(token_fold(t.drop_last(), 1), t.last())
    }
}

/// What reading a token reports, in order: each note whose octave marks
/// were clamped (when the note is finished), each unknown character (when
/// it is met).
pub open spec fn token_notes(t: Seq<char>) -> Seq<TokenNote> {
    token_notes_fold(t) + flush_notes(token_fold(t, 1))
}

fn flush_notes_exec(st: &TokenState, out: &mut Vec<TokenNote>)
    ensures
        final(out)@ == old(out)@ + flush_notes(st.model()),
{
    match st.pending {
        Some(p) => {
            if p.lvl > 4 {
                out.push(TokenNote::OctaveTooHigh(p.lvl));
            } else if p.lvl < -3 {
                out.push(TokenNote::OctaveTooLow(p.lvl));
            }
        },
        None => {},
    }
    assert(out@ =~= old(out)@ + flush_notes(st.model()));
}

fn char_notes_exec(c: char, out: &mut Vec<TokenNote>)
    ensures
        final(out)@ == old(out)@ + char_notes(c),
{
    let known = c == '[' || c == '{' || c == ']' || c == '}' || c == '|' || c == ' ' || c == '\t' || c == '_'
        || c == '*' || c == '%' || c == '&' || c == '.' || c == '-' || ('0' <= c && c <= '7');
    if !known {
        out.push(TokenNote::UnknownChar(c));
    }
    assert(out@ =~= old(out)@ + char_notes(c));
}

/// What reading a token reports; see `token_notes`.
pub fn token_warnings(token: &[char]) -> (r: Vec<TokenNote>)
    ensures
        r@ == token_notes(token@),
{
    let mut out: Vec<TokenNote> = Vec::new();
    let mut st = TokenState { ctn: 1, notes: Vec::new(), chord: false, chord_notes: Vec::new(), pending: None };
    let mut i: usize = 0;
    while i < token.len()
        invariant
            0 <= i <= token@.len(),
            st.model() == token_fold(token@.take(i as int), 1),
            st.pending matches Some(p) ==> p.degree < 7,
            out@ == token_notes_fold(token@.take(i as int)),
        decreases token@.len() - i,
    {
        let c = token[i];
        proof {
            assert(token@.take(i + 1).drop_last() =~= token@.take(i as int));
            assert(token@.take(i + 1).last() == c);
        }
        let is_pending = st.pending.is_some();
        if is_pending && (c == '^' || c == ',' || c == '#') {
            let p = st.pending.unwrap();
            if c == '^' {
                st.pending = Some(PendingNote { degree: p.degree, lvl: p.lvl.wrapping_add(1), sharp: p.sharp });
            } else if c == ',' {
                st.pending = Some(PendingNote { degree: p.degree, lvl: p.lvl.wrapping_sub(1), sharp: p.sharp });
            } else {
                st.pending = Some(PendingNote { degree: p.degree, lvl: p.lvl, sharp: true });
            }
            assert(out@ =~= token_notes_fold(token@.take(i + 1)));
        } else {
            flush_notes_exec(&st, &mut out);
            char_notes_exec(c, &mut out);
            flush_exec(&mut st);
            apply_char_exec(&mut st, c, 1);
        }
        i = i + 1;
    }
    assert(token@.take(token@.len() as int) =~= token@);
    flush_notes_exec(&st, &mut out);
    out
}

/// What reading every word of a line reports, word after word (a word of
/// bar lines only reports nothing).
pub open spec fn words_notes(ws: Seq<Seq<char>>) -> Seq<TokenNote>
    decreases ws.len(),
{
    if ws.len() == 0 {
        Seq::empty()
    } else {
        words_notes(ws.drop_last()) + token_notes(ws.last())
    }
}

pub open spec fn line_notes(line: Seq<char>) -> Seq<TokenNote> {
    words_notes(words(line))
}

/// What reading a line reports; see `line_notes`.
pub fn line_warnings(line: &[char]) -> (r: Vec<TokenNote>)
    ensures
        r@ == line_notes(line@),
{
    let ws = words_exec(line);
    let ghost all = words(line@);
    let mut out: Vec<TokenNote> = Vec::new();
    let mut i: usize = 0;
    while i < ws.len()
        invariant
            0 <= i <= ws@.len(),
            ws@.len() == all.len(),
            all == words(line@),
            forall|k: int| 0 <= k < ws@.len() ==> #[trigger] ws@[k]@ == all[k],
            out@ == words_notes(all.take(i as int)),
        decreases ws@.len() - i,
    {
        assert(all.take(i + 1).drop_last() =~= all.take(i as int));
        let w = token_warnings(ws[i].as_slice());
        let mut k: usize = 0;
        let ghost before = out@;
        while k < w.len()
            invariant
                0 <= k <= w@.len(),
                out@ == before + w@.take(k as int),
            decreases w@.len() - k,
        {
            out.push(w[k]);
            k = k + 1;
            assert(out@ =~= before + w@.take(k as int));
        }
        assert(w@.take(w@.len() as int) =~= w@);
        i = i + 1;
    }
    assert(all.take(all.len() as int) =~= all);
    out
}

/// Whether a token holds anything other than bar lines.
pub open spec fn not_only_bars(t: Seq<char>) -> bool {
    exists|k: int| 0 <= k < t.len() && t[k] != '|'
}

/// The tokens of a line: its white-space separated words that are not made
/// only of bar lines `|`.
pub open spec fn line_tokens(line: Seq<char>) -> Seq<Seq<char>> {
    words(line).filter(|w: Seq<char>| not_only_bars(w))
}

/// Events of a line: one `(notes, duration)` pair per token, in order.
pub open spec fn line_events(line: Seq<char>, tempo_ms: u32) -> Seq<(Seq<u8>, u32)> {
    line_tokens(line).map_values(|t: Seq<char>| token_value(t, tempo_ms))
}

pub fn not_only_bars_exec(t: &[char]) -> (b: bool)
    ensures
        b == not_only_bars(t@),
{
    let mut k: usize = 0;
    while k < t.len()
        invariant
            0 <= k <= t@.len(),
            forall|m: int| 0 <= m < k ==> t@[m] == '|',
        decreases t@.len() - k,
    {
        if t[k] != '|' {
            return true;
        }
        k = k + 1;
    }
    false
}

/// One parsed event: the notes sounding together and their duration.
#[derive(Debug)]
pub struct LineEvent {
    pub notes: Vec<u8>,
    pub dur: u32,
}

pub open spec fn events_view(v: Seq<LineEvent>) -> Seq<(Seq<u8>, u32)> {
    v.map_values(|e: LineEvent| (e.notes@, e.dur))
}

/// Reads every token of a line; see `line_events`.
pub fn parse_line(line: &[char], tempo_ms: u32) -> (r: Vec<LineEvent>)
    ensures
        events_view(r@) == line_events(line@, tempo_ms),
{
    let ws = words_exec(line);
    let ghost all = words(line@);
    let mut out: Vec<LineEvent> = Vec::new();
    let mut i: usize = 0;
    while i < ws.len()
        invariant
            0 <= i <= ws@.len(),
            ws@.len() == all.len(),
            all == words(line@),
            forall|k: int| 0 <= k < ws@.len() ==> #[trigger] ws@[k]@ == all[k],
            events_view(out@) == all.take(i as int).filter(|w: Seq<char>| not_only_bars(w)).map_values(
                |t: Seq<char>| token_value(t, tempo_ms),
            ),
        decreases ws@.len() - i,
    {
        let w = &ws[i];
        proof {
            assert(all.take(i + 1).drop_last() =~= all.take(i as int));
            reveal_with_fuel(Seq::filter, 1);
        }
        let ghost before = all.take(i as int).filter(|w: Seq<char>| not_only_bars(w));
        if not_only_bars_exec(w.as_slice()) {
            let (notes, dur) = parse_token(w.as_slice(), tempo_ms);
            let ghost old_out = out@;
            let ghost ev = (notes@, dur);
            out.push(LineEvent { notes, dur });
            proof {
                assert(events_view(out@) =~= events_view(old_out).push(ev));
                assert(all.take(i + 1).filter(|w: Seq<char>| not_only_bars(w)) == before.push(all[i as int]));
                assert(events_view(out@) =~= before.push(all[i as int]).map_values(
                    |t: Seq<char>| token_value(t, tempo_ms),
                ));
            }
        } else {
            proof {
                assert(all.take(i + 1).filter(|w: Seq<char>| not_only_bars(w)) == before);
            }
        }
        i = i + 1;
    }
    assert(all.take(ws@.len() as int) =~= all);
    out
}

} // verus!
