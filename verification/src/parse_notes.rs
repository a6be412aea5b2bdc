//! What parsing a text score reports along the way: the tempo it settles
//! on, tempo changes, skipped lines and characters, clamped octaves, and a
//! count when a format is done.
use vstd::prelude::*;
use crate::lines::{
    classify, classify_line, digits_exec, digits_of, split_lines, split_lines_exec, tempo_line, tempo_line_exec, u32_max,
    words, words_exec, LineKind,
};
use crate::log::Level;
use crate::parser::{has_track_header, has_track_header_exec, has_v3_marker, has_v3_marker_exec, parse_score, parse_str};
use crate::score::{
    defs_exec, defs_fold, header_scan, header_scan_exec, lines_view, track_bpm, track_bpm_exec, track_ms,
    track_ms_exec, DefModel, Score, TrackView,
};
use crate::text::{chars_of, copy_range, parse_uint, parse_uint_exec, string_from_chars, trim, trim_exec};
use crate::token::{token_notes, token_warnings, TokenNote};

verus! {

/// One report of the parser.
#[derive(Debug, Clone, PartialEq, Eq)]
pub enum ParseNote {
    /// The tempo forced by the caller replaces the file's tempo line.
    ForcedTempo(u32),
    /// The tempo (ms per quarter) the body starts with.
    Tempo(u32),
    /// The body is read in the two-lines-per-group format.
    HandFormat,
    /// A tempo line of that format changes the tempo; the BPM it gave, if
    /// it gave one.
    HandTempo(u32, Option<u32>),
    /// A note of a token: the token and what it reports.
    Token(String, TokenNote),
    /// A track header in that format, skipped.
    HandHeaderIgnored,
    /// That format is done: groups read, tracks kept.
    HandDone(usize, usize),
    /// The body is read in the `T` multi-track format.
    TrackFormat,
    /// A note line before any track header, skipped.
    NoHeader,
    /// A tempo line of a track changes the tempo; the BPM it gave, if any.
    TrackTempo(u32, Option<u32>),
    /// That format is done: tracks kept.
    TrackDone(usize),
    /// The absolute-tick format is done: tracks and events.
    V3Done(usize, usize),
}

pub ghost enum NoteView {
    ForcedTempo(u32),
    Tempo(u32),
    HandFormat,
    HandTempo(u32, Option<u32>),
    Token(Seq<char>, TokenNote),
    HandHeaderIgnored,
    HandDone(nat, nat),
    TrackFormat,
    NoHeader,
    TrackTempo(u32, Option<u32>),
    TrackDone(nat),
    V3Done(nat, nat),
}

impl View for ParseNote {
    type V = NoteView;

    open spec fn view(&self) -> NoteView {
        match self {
            ParseNote::ForcedTempo(t) => NoteView::ForcedTempo(*t),
            ParseNote::Tempo(t) => NoteView::Tempo(*t),
            ParseNote::HandFormat => NoteView::HandFormat,
            ParseNote::HandTempo(t, b) => NoteView::HandTempo(*t, *b),
            ParseNote::Token(s, n) => NoteView::Token(s@, *n),
            ParseNote::HandHeaderIgnored => NoteView::HandHeaderIgnored,
            ParseNote::HandDone(g, t) => NoteView::HandDone(*g as nat, *t as nat),
            ParseNote::TrackFormat => NoteView::TrackFormat,
            ParseNote::NoHeader => NoteView::NoHeader,
            ParseNote::TrackTempo(t, b) => NoteView::TrackTempo(*t, *b),
            ParseNote::TrackDone(t) => NoteView::TrackDone(*t as nat),
            ParseNote::V3Done(t, e) => NoteView::V3Done(*t as nat, *e as nat),
        }
    }
}

pub open spec fn notes_view(v: Seq<ParseNote>) -> Seq<NoteView> {
    v.map_values(|n: ParseNote| n@)
}

/// The level a report is logged at.
pub open spec fn note_level(n: NoteView) -> Level {
    match n {
        NoteView::ForcedTempo(_) | NoteView::Tempo(_) | NoteView::HandFormat | NoteView::HandDone(_, _)
        | NoteView::TrackFormat => Level::Debug,
        NoteView::HandTempo(_, _) | NoteView::TrackTempo(_, _) | NoteView::TrackDone(_) | NoteView::V3Done(_, _) => Level::Info,
        _ => Level::Warn,
    }
}

impl ParseNote {
    /// The level this report is logged at.
    pub fn level(&self) -> (r: Level)
        ensures
            r == note_level(self@),
    {
        match self {
            ParseNote::ForcedTempo(_) | ParseNote::Tempo(_) | ParseNote::HandFormat | ParseNote::HandDone(_, _)
            | ParseNote::TrackFormat => Level::Debug,
            ParseNote::HandTempo(_, _) | ParseNote::TrackTempo(_, _) | ParseNote::TrackDone(_) | ParseNote::V3Done(_, _) => Level::Info,
            _ => Level::Warn,
        }
    }
}

/// The reports of the words of a line, word after word.
pub open spec fn word_notes(ws: Seq<Seq<char>>) -> Seq<NoteView>
    decreases ws.len(),
{
    if ws.len() == 0 {
        Seq::empty()
    } else {
        word_notes(ws.drop_last()) + token_notes(ws.last()).map_values(|n: TokenNote| NoteView::Token(ws.last(), n))
    }
}

pub open spec fn line_view_notes(line: Seq<char>) -> Seq<NoteView> {
    word_notes(words(line))
}

/// A number of BPM as the digits of `s` give it.
pub open spec fn bpm_number(s: Seq<char>) -> Option<u32> {
    match parse_uint(digits_of(s), u32_max()) {
        Some(b) => Some(b as u32),
        None => None,
    }
}

/// A tempo line of the hand format (trimmed): a report when it changes the
/// tempo `cur`.
pub open spec fn hand_tempo_notes(t: Seq<char>, cur: u32) -> Seq<NoteView> {
    match tempo_line(t) {
        Some(x) => if x != cur {
            seq![NoteView::HandTempo(x, if t[0] == '#' { bpm_number(t.drop_first()) } else { None })]
        } else {
            Seq::empty()
        },
        None => Seq::empty(),
    }
}

/// The hand format from line `i` at tempo `tempo`: its reports and the
/// number of groups read.
pub open spec fn hand_walk(lines: Seq<Seq<char>>, i: int, tempo: u32) -> (Seq<NoteView>, nat)
    decreases lines.len() - i,
{
    if i < 0 || i >= lines.len() {
        (Seq::empty(), 0)
    } else {
        let k = classify(lines[i]);
        if k == LineKind::Tempo {
            let t = trim(lines[i]);
            let nt = match tempo_line(t) {
                Some(x) => x,
                None => tempo,
            };
            let rest = hand_walk(lines, i + 1, nt);
            (hand_tempo_notes(t, tempo) + rest.0, rest.1)
        } else if k == LineKind::NoteLine {
            let pair = i + 1 < lines.len() && classify(lines[i + 1]) == LineKind::NoteLine;
            let here = line_view_notes(trim(lines[i])) + if pair {
                line_view_notes(trim(lines[i + 1]))
            } else {
                Seq::empty()
            };
            let rest = hand_walk(lines, i + if pair { 2int } else { 1int }, tempo);
            (here + rest.0, rest.1 + 1)
        } else if k == LineKind::TrackHeader {
            let rest = hand_walk(lines, i + 1, tempo);
            (seq![NoteView::HandHeaderIgnored] + rest.0, rest.1)
        } else {
            hand_walk(lines, i + 1, tempo)
        }
    }
}

/// Note lines before the first track header, each reported.
pub open spec fn no_header_notes(lines: Seq<Seq<char>>) -> Seq<NoteView>
    decreases lines.len(),
{
    if lines.len() == 0 {
        Seq::empty()
    } else {
        no_header_notes(lines.drop_last()) + if classify(lines.last()) == LineKind::NoteLine && defs_fold(
            lines.drop_last(),
        ).len() == 0 {
            seq![NoteView::NoHeader]
        } else {
            Seq::empty()
        }
    }
}

/// The lines of one track from tempo `tempo`: reports, and the tempo after.
pub open spec fn raw_walk(raw: Seq<Seq<char>>, tempo: u32) -> (Seq<NoteView>, u32)
    decreases raw.len(),
{
    if raw.len() == 0 {
        (Seq::empty(), tempo)
    } else {
        let (prev, cur) = raw_walk(raw.drop_last(), tempo);
        let r = raw.last();
        let rt = trim(r);
        match track_bpm(rt) {
            Some(x) => (prev + if x != cur {
                seq![NoteView::TrackTempo(x, bpm_number(trim(rt.drop_first())))]
            } else {
                Seq::empty()
            }, x),
            None => match track_ms(rt) {
                Some(x) => (prev + if x != cur {
                    seq![NoteView::TrackTempo(x, None)]
                } else {
                    Seq::empty()
                }, x),
                None => (prev + line_view_notes(r), cur),
            },
        }
    }
}

/// The tracks in order, the tempo carried from each to the next.
pub open spec fn defs_walk(defs: Seq<DefModel>, tempo: u32) -> (Seq<NoteView>, u32)
    decreases defs.len(),
{
    if defs.len() == 0 {
        (Seq::empty(), tempo)
    } else {
        let (prev, cur) = defs_walk(defs.drop_last(), tempo);
        let (n, t2) = raw_walk(defs.last().raw, cur);
        (prev + n, t2)
    }
}

pub open spec fn total_events(ts: Seq<TrackView>) -> nat
    decreases ts.len(),
{
    if ts.len() == 0 {
        0
    } else {
        total_events(ts.drop_last()) + ts.last().events.len()
    }
}

/// The number of events of the tracks, at most `usize::MAX`.
pub open spec fn capped_total(ts: Seq<TrackView>) -> nat {
    if total_events(ts) <= usize::MAX {
        total_events(ts)
    } else {
        usize::MAX as nat
    }
}

/// What the parse gave, as far as the reports count it: the tracks and
/// their events, or nothing when it failed.
pub open spec fn parse_counts(parsed: Result<crate::score::ScoreView, Seq<char>>) -> Option<(nat, nat)> {
    match parsed {
        Ok(s) => Some((s.tracks.len(), capped_total(s.tracks))),
        Err(_) => None,
    }
}

/// The reports of parsing `lines`, given what the parse gave.
pub open spec fn notes_for(lines: Seq<Seq<char>>, force: Option<u32>, counts: Option<(nat, nat)>) -> Seq<NoteView> {
    if has_v3_marker(lines) {
        match counts {
            Some((t, e)) => seq![NoteView::V3Done(t, e)],
            None => Seq::empty(),
        }
    } else {
        let tempo0: u32 = match force {
            Some(t) => t,
            None => 500,
        };
        let h = header_scan(lines, 0, tempo0, Seq::empty(), force is Some);
        let body = lines.skip(h.0);
        let head = (if force is Some && h.0 > 0 && classify(lines[h.0 - 1]) == LineKind::Tempo {
            seq![NoteView::ForcedTempo(h.1)]
        } else {
            Seq::empty()
        }) + seq![NoteView::Tempo(h.1)];
        let ntracks = match counts {
            Some((t, e)) => t,
            None => 0,
        };
        head + if has_track_header(lines) {
            seq![NoteView::TrackFormat] + no_header_notes(body) + defs_walk(defs_fold(body), h.1).0 + seq![
                NoteView::TrackDone(ntracks),
            ]
        } else {
            let w = hand_walk(body, 0, h.1);
            seq![NoteView::HandFormat] + w.0 + seq![NoteView::HandDone(w.1, ntracks)]
        }
    }
}

/// What parsing a text reports, in order: for the absolute-tick format, the
/// counts once it succeeded; else the forced tempo (when a tempo line is
/// overridden), the starting tempo, then the body's reports (the format,
/// its tempo changes and skipped lines, the tokens' reports, the count when
/// done).
pub open spec fn parse_notes(content: Seq<char>, force: Option<u32>) -> Seq<NoteView> {
    notes_for(split_lines(content), force, parse_counts(parse_score(content, force)))
}

fn push_all(out: &mut Vec<ParseNote>, more: Vec<ParseNote>)
    ensures
        notes_view(final(out)@) == notes_view(old(out)@) + notes_view(more@),
{
    let ghost before = notes_view(out@);
    let mut k: usize = 0;
    while k < more.len()
        invariant
            0 <= k <= more@.len(),
            notes_view(out@) == before + notes_view(more@).take(k as int),
        decreases more@.len() - k,
    {
        let n = more[k].clone_note();
        assert(notes_view(more@)[k as int] == n@);
        let ghost b2 = notes_view(out@);
        out.push(n);
        assert(notes_view(out@) =~= b2.push(n@));
        assert(notes_view(more@).take(k + 1) =~= notes_view(more@).take(k as int).push(n@));
        k = k + 1;
        assert(notes_view(out@) =~= before + notes_view(more@).take(k as int));
    }
    assert(notes_view(more@).take(more@.len() as int) =~= notes_view(more@));
}

impl ParseNote {
    fn clone_note(&self) -> (r: ParseNote)
        ensures
            r@ == self@,
    {
        match self {
            ParseNote::ForcedTempo(t) => ParseNote::ForcedTempo(*t),
            ParseNote::Tempo(t) => ParseNote::Tempo(*t),
            ParseNote::HandFormat => ParseNote::HandFormat,
            ParseNote::HandTempo(t, b) => ParseNote::HandTempo(*t, *b),
            ParseNote::Token(s, n) => ParseNote::Token(s.clone(), *n),
            ParseNote::HandHeaderIgnored => ParseNote::HandHeaderIgnored,
            ParseNote::HandDone(g, t) => ParseNote::HandDone(*g, *t),
            ParseNote::TrackFormat => ParseNote::TrackFormat,
            ParseNote::NoHeader => ParseNote::NoHeader,
            ParseNote::TrackTempo(t, b) => ParseNote::TrackTempo(*t, *b),
            ParseNote::TrackDone(t) => ParseNote::TrackDone(*t),
            ParseNote::V3Done(t, e) => ParseNote::V3Done(*t, *e),
        }
    }
}

fn line_notes_exec(line: &[char]) -> (r: Vec<ParseNote>)
    ensures
        notes_view(r@) == line_view_notes(line@),
{
    let ws = words_exec(line);
    let ghost all = words(line@);
    let mut out: Vec<ParseNote> = Vec::new();
    let mut i: usize = 0;
    while i < ws.len()
        invariant
            0 <= i <= ws@.len(),
            ws@.len() == all.len(),
            all == words(line@),
            forall|k: int| 0 <= k < ws@.len() ==> #[trigger] ws@[k]@ == all[k],
            notes_view(out@) == word_notes(all.take(i as int)),
        decreases ws@.len() - i,
    {
        assert(all.take(i + 1).drop_last() =~= all.take(i as int));
        let w = token_warnings(ws[i].as_slice());
        let ghost before = notes_view(out@);
        let ghost wv = all[i as int];
        let mut k: usize = 0;
        while k < w.len()
            invariant
                0 <= k <= w@.len(),
                0 <= i < ws@.len(),
                wv == ws@[i as int]@,
                notes_view(out@) == before + w@.take(k as int).map_values(|n: TokenNote| NoteView::Token(wv, n)),
            decreases w@.len() - k,
        {
            let ghost b2 = notes_view(out@);
            out.push(ParseNote::Token(string_from_chars(ws[i].as_slice()), w[k]));
            assert(notes_view(out@) =~= b2.push(NoteView::Token(wv, w@[k as int])));
            k = k + 1;
            assert(notes_view(out@) =~= before + w@.take(k as int).map_values(|n: TokenNote| NoteView::Token(wv, n)));
        }
        assert(w@.take(w@.len() as int) =~= w@);
        i = i + 1;
    }
    assert(all.take(all.len() as int) =~= all);
    out
}

fn bpm_number_exec(s: &[char]) -> (r: Option<u32>)
    ensures
        r == bpm_number(s@),
{
    let d = digits_exec(s);
    match parse_uint_exec(d.as_slice(), 0xffff_ffff) {
        Some(b) => Some(b as u32),
        None => None,
    }
}

proof fn lemma_trim_nonempty(l: Seq<char>)
    requires
        classify(l) == LineKind::Tempo,
    ensures
        trim(l).len() > 0,
{
}

fn hand_walk_exec(lines: &Vec<Vec<char>>, from: usize, tempo0: u32) -> (r: (Vec<ParseNote>, usize))
    requires
        from <= lines@.len(),
    ensures
        notes_view(r.0@) == hand_walk(lines_view(lines@).skip(from as int), 0, tempo0).0,
        r.1 as nat == hand_walk(lines_view(lines@).skip(from as int), 0, tempo0).1,
{
    let ghost lv = lines_view(lines@).skip(from as int);
    let mut out: Vec<ParseNote> = Vec::new();
    let mut groups: usize = 0;
    let mut tempo = tempo0;
    let mut i: usize = from;
    while i < lines.len()
        invariant
            from <= i <= lines@.len(),
            lv == lines_view(lines@).skip(from as int),
            lv.len() == lines@.len() - from,
            groups <= i - from,
            hand_walk(lv, 0, tempo0).0 == notes_view(out@) + hand_walk(lv, i - from, tempo).0,
            hand_walk(lv, 0, tempo0).1 == groups + hand_walk(lv, i - from, tempo).1,
        decreases lines@.len() - i,
    {
        let j: usize = i - from;
        let l = &lines[i];
        assert(lv[j as int] == l@);
        let k = classify_line(l.as_slice());
        if k == LineKind::Tempo {
            let t = trim_exec(l.as_slice());
            proof {
                lemma_trim_nonempty(l@);
            }
            let tl = tempo_line_exec(t.as_slice());
            let ghost before = notes_view(out@);
            match tl {
                Some(x) => {
                    if x != tempo {
                        let b = if t[0] == '#' {
                            let rest = copy_range(t.as_slice(), 1, t.len());
                            assert(rest@ =~= t@.drop_first());
                            bpm_number_exec(rest.as_slice())
                        } else {
                            None
                        };
                        out.push(ParseNote::HandTempo(x, b));
                    }
                    assert(notes_view(out@) =~= before + hand_tempo_notes(t@, tempo));
                    tempo = x;
                },
                None => {
                    assert(notes_view(out@) =~= before + hand_tempo_notes(t@, tempo));
                },
            }
            i = i + 1;
        } else if k == LineKind::NoteLine {
            let pair = i + 1 < lines.len() && classify_line(lines[i + 1].as_slice()) == LineKind::NoteLine;
            proof {
                if i + 1 < lines@.len() {
                    assert(lv[j + 1] == lines@[i + 1]@);
                }
            }
            let ghost before = notes_view(out@);
            let t1 = trim_exec(l.as_slice());
            let n1 = line_notes_exec(t1.as_slice());
            push_all(&mut out, n1);
            if pair {
                let t2 = trim_exec(lines[i + 1].as_slice());
                let n2 = line_notes_exec(t2.as_slice());
                push_all(&mut out, n2);
                i = i + 2;
            } else {
                i = i + 1;
            }
            groups = groups + 1;
        } else if k == LineKind::TrackHeader {
            out.push(ParseNote::HandHeaderIgnored);
            i = i + 1;
        } else {
            i = i + 1;
        }
    }
    (out, groups)
}

fn no_header_exec(lines: &Vec<Vec<char>>, from: usize) -> (r: Vec<ParseNote>)
    requires
        from <= lines@.len(),
    ensures
        notes_view(r@) == no_header_notes(lines_view(lines@).skip(from as int)),
{
    let ghost lv = lines_view(lines@).skip(from as int);
    let mut out: Vec<ParseNote> = Vec::new();
    let mut seen = false;
    let mut i: usize = from;
    while i < lines.len()
        invariant
            from <= i <= lines@.len(),
            lv == lines_view(lines@).skip(from as int),
            seen == (defs_fold(lv.take(i - from)).len() > 0),
            notes_view(out@) == no_header_notes(lv.take(i - from)),
        decreases lines@.len() - i,
    {
        let ghost j = i - from;
        let l = &lines[i];
        proof {
            assert(lv[j] == l@);
            assert(lv.take(j + 1).drop_last() =~= lv.take(j));
            assert(lv.take(j + 1).last() == l@);
        }
        let k = classify_line(l.as_slice());
        let ghost before = notes_view(out@);
        if k == LineKind::NoteLine && !seen {
            out.push(ParseNote::NoHeader);
        }
        assert(notes_view(out@) =~= no_header_notes(lv.take(j + 1)));
        if k == LineKind::TrackHeader {
            seen = true;
        }
        i = i + 1;
    }
    assert(lv.take(lines@.len() - from) =~= lv);
    out
}

fn raw_walk_exec(raw: &Vec<Vec<char>>, tempo0: u32, out: &mut Vec<ParseNote>) -> (t: u32)
    ensures
        notes_view(final(out)@) == notes_view(old(out)@) + raw_walk(lines_view(raw@), tempo0).0,
        t == raw_walk(lines_view(raw@), tempo0).1,
{
    let ghost rv = lines_view(raw@);
    let ghost start = notes_view(out@);
    let mut cur = tempo0;
    let mut k: usize = 0;
    assert(rv.take(0) =~= Seq::<Seq<char>>::empty());
    while k < raw.len()
        invariant
            0 <= k <= raw@.len(),
            rv == lines_view(raw@),
            notes_view(out@) == start + raw_walk(rv.take(k as int), tempo0).0,
            cur == raw_walk(rv.take(k as int), tempo0).1,
        decreases raw@.len() - k,
    {
        let r = &raw[k];
        proof {
            assert(rv[k as int] == r@);
            assert(rv.take(k + 1).drop_last() =~= rv.take(k as int));
            assert(rv.take(k + 1).last() == r@);
        }
        let ghost before = notes_view(out@);
        let rt = trim_exec(r.as_slice());
        let ghost pw = raw_walk(rv.take(k as int), tempo0);
        let ghost nw = raw_walk(rv.take(k + 1), tempo0);
        match track_bpm_exec(rt.as_slice()) {
            Some(x) => {
                assert(nw.1 == x);
                if x != cur {
                    let rest = copy_range(rt.as_slice(), 1, rt.len());
                    assert(rest@ =~= rt@.drop_first());
                    let tr = trim_exec(rest.as_slice());
                    let b = bpm_number_exec(tr.as_slice());
                    out.push(ParseNote::TrackTempo(x, b));
                    assert(nw.0 == pw.0 + seq![NoteView::TrackTempo(x, b)]);
                    assert(notes_view(out@) =~= before.push(NoteView::TrackTempo(x, b)));
                } else {
                    assert(nw.0 =~= pw.0);
                }
                assert(notes_view(out@) =~= start + raw_walk(rv.take(k + 1), tempo0).0);
                cur = x;
            },
            None => match track_ms_exec(rt.as_slice()) {
                Some(x) => {
                    if x != cur {
                        out.push(ParseNote::TrackTempo(x, None));
                        assert(nw.0 == pw.0 + seq![NoteView::TrackTempo(x, None)]);
                        assert(notes_view(out@) =~= before.push(NoteView::TrackTempo(x, None)));
                    } else {
                        assert(nw.0 =~= pw.0);
                    }
                    assert(notes_view(out@) =~= start + raw_walk(rv.take(k + 1), tempo0).0);
                    cur = x;
                },
                None => {
                    let n = line_notes_exec(r.as_slice());
                    push_all(out, n);
                    assert(notes_view(out@) =~= start + raw_walk(rv.take(k + 1), tempo0).0);
                },
            },
        }
        k = k + 1;
    }
    assert(rv.take(raw@.len() as int) =~= rv);
    cur
}

fn defs_walk_exec(lines: &Vec<Vec<char>>, from: usize, tempo0: u32) -> (r: Vec<ParseNote>)
    requires
        from <= lines@.len(),
    ensures
        notes_view(r@) == defs_walk(defs_fold(lines_view(lines@).skip(from as int)), tempo0).0,
{
    let defs = defs_exec(lines, from);
    let ghost dv = defs_fold(lines_view(lines@).skip(from as int));
    let mut out: Vec<ParseNote> = Vec::new();
    let mut cur = tempo0;
    let mut k: usize = 0;
    assert(dv.take(0) =~= Seq::<DefModel>::empty());
    while k < defs.len()
        invariant
            0 <= k <= defs@.len(),
            dv == defs_fold(lines_view(lines@).skip(from as int)),
            crate::score::defs_view(defs@) == dv,
            notes_view(out@) == defs_walk(dv.take(k as int), tempo0).0,
            cur == defs_walk(dv.take(k as int), tempo0).1,
        decreases defs@.len() - k,
    {
        proof {
            assert(dv.take(k + 1).drop_last() =~= dv.take(k as int));
            assert(dv.take(k + 1).last() == dv[k as int]);
            assert(dv[k as int].raw == lines_view(defs@[k as int].raw@));
        }
        cur = raw_walk_exec(&defs[k].raw, cur, &mut out);
        k = k + 1;
    }
    assert(dv.take(defs@.len() as int) =~= dv);
    out
}

fn total_events_exec(ts: &Vec<crate::score::Track>) -> (r: usize)
    ensures
        r as nat == capped_total(crate::score::tracks_view(ts@)),
{
    let ghost tv = crate::score::tracks_view(ts@);
    let mut sum: usize = 0;
    let mut capped = false;
    let mut k: usize = 0;
    while k < ts.len()
        invariant
            0 <= k <= ts@.len(),
            tv == crate::score::tracks_view(ts@),
            !capped ==> sum as nat == total_events(tv.take(k as int)),
            capped ==> sum == usize::MAX && total_events(tv.take(k as int)) > usize::MAX,
        decreases ts@.len() - k,
    {
        proof {
            assert(tv.take(k + 1).drop_last() =~= tv.take(k as int));
            assert(tv.take(k + 1).last() == tv[k as int]);
        }
        let n = ts[k].events.len();
        if !capped {
            if sum <= usize::MAX - n {
                sum = sum + n;
            } else {
                sum = usize::MAX;
                capped = true;
            }
        }
        k = k + 1;
    }
    assert(tv.take(ts@.len() as int) =~= tv);
    sum
}

fn track_body_exec(lines: &Vec<Vec<char>>, from: usize, tempo: u32, ntracks: usize) -> (r: Vec<ParseNote>)
    requires
        from <= lines@.len(),
    ensures
        notes_view(r@) == seq![NoteView::TrackFormat] + no_header_notes(lines_view(lines@).skip(from as int))
            + defs_walk(defs_fold(lines_view(lines@).skip(from as int)), tempo).0 + seq![
            NoteView::TrackDone(ntracks as nat),
        ],
{
    let ghost body = lines_view(lines@).skip(from as int);
    let mut out: Vec<ParseNote> = Vec::new();
    out.push(ParseNote::TrackFormat);
    assert(notes_view(out@) =~= seq![NoteView::TrackFormat]);
    let a = no_header_exec(lines, from);
    push_all(&mut out, a);
    let b = defs_walk_exec(lines, from, tempo);
    push_all(&mut out, b);
    let ghost s3 = notes_view(out@);
    out.push(ParseNote::TrackDone(ntracks));
    assert(notes_view(out@) =~= s3.push(NoteView::TrackDone(ntracks as nat)));
    out
}

fn hand_body_exec(lines: &Vec<Vec<char>>, from: usize, tempo: u32, ntracks: usize) -> (r: Vec<ParseNote>)
    requires
        from <= lines@.len(),
    ensures
        notes_view(r@) == seq![NoteView::HandFormat] + hand_walk(lines_view(lines@).skip(from as int), 0, tempo).0
            + seq![NoteView::HandDone(hand_walk(lines_view(lines@).skip(from as int), 0, tempo).1, ntracks as nat)],
{
    let mut out: Vec<ParseNote> = Vec::new();
    out.push(ParseNote::HandFormat);
    assert(notes_view(out@) =~= seq![NoteView::HandFormat]);
    let (n, groups) = hand_walk_exec(lines, from, tempo);
    push_all(&mut out, n);
    let ghost s3 = notes_view(out@);
    out.push(ParseNote::HandDone(groups, ntracks));
    assert(notes_view(out@) =~= s3.push(NoteView::HandDone(groups as nat, ntracks as nat)));
    out
}

fn notes_for_exec(lines: &Vec<Vec<char>>, force_tempo: Option<u32>, counts: Option<(usize, usize)>) -> (r: Vec<ParseNote>)
    ensures
        notes_view(r@) == notes_for(
            lines_view(lines@),
            force_tempo,
            match counts {
                Some((t, e)) => Some((t as nat, e as nat)),
                None => None,
            },
        ),
{
    let mut out: Vec<ParseNote> = Vec::new();
    if has_v3_marker_exec(lines) {
        match counts {
            Some((t, e)) => {
                out.push(ParseNote::V3Done(t, e));
            },
            None => {},
        }
        assert(notes_view(out@) =~= notes_for(
            lines_view(lines@),
            force_tempo,
            match counts {
                Some((t, e)) => Some((t as nat, e as nat)),
                None => None,
            },
        ));
        return out;
    }
    let tempo0: u32 = match force_tempo {
        Some(t) => t,
        None => 500,
    };
    let ghost lv = lines_view(lines@);
    let (consumed, tempo, _title) = header_scan_exec(lines, tempo0, force_tempo.is_some());
    let ghost h = header_scan(lv, 0, tempo0, Seq::empty(), force_tempo is Some);
    assert(consumed == h.0 && tempo == h.1);
    let forced_line = force_tempo.is_some() && consumed > 0 && classify_line(lines[consumed - 1].as_slice())
        == LineKind::Tempo;
    proof {
        if consumed > 0 {
            assert(lv[consumed - 1] == lines@[consumed - 1]@);
        }
    }
    if forced_line {
        out.push(ParseNote::ForcedTempo(tempo));
    }
    out.push(ParseNote::Tempo(tempo));
    let ghost head = (if force_tempo is Some && h.0 > 0 && classify(lv[h.0 - 1]) == LineKind::Tempo {
        seq![NoteView::ForcedTempo(h.1)]
    } else {
        Seq::empty()
    }) + seq![NoteView::Tempo(h.1)];
    assert(notes_view(out@) =~= head);
    let ghost body = lv.skip(h.0);
    let ntracks: usize = match counts {
        Some((t, _)) => t,
        None => 0,
    };
    let more = if has_track_header_exec(lines) {
        track_body_exec(lines, consumed, tempo, ntracks)
    } else {
        hand_body_exec(lines, consumed, tempo, ntracks)
    };
    push_all(&mut out, more);
    assert(notes_view(out@) =~= notes_for(
        lines_view(lines@),
        force_tempo,
        match counts {
            Some((t, e)) => Some((t as nat, e as nat)),
            None => None,
        },
    ));
    out
}

/// Parses a text score as `parse_str` does and gives what the parse reports
/// along the way; see `parse_notes`.
pub fn parse_str_noted(content: &str, force_tempo: Option<u32>) -> (r: (Result<Score, String>, Vec<ParseNote>))
    ensures
        match parse_score(content@, force_tempo) {
            Ok(sv) => r.0 is Ok && r.0->Ok_0@ == sv,
            Err(e) => r.0 is Err && r.0->Err_0@ == e,
        },
        notes_view(r.1@) == parse_notes(content@, force_tempo),
{
    let parsed = parse_str(content, force_tempo);
    let ghost pv = parse_score(content@, force_tempo);
    let counts: Option<(usize, usize)> = match &parsed {
        Ok(s) => Some((s.tracks.len(), total_events_exec(&s.tracks))),
        Err(_) => None,
    };
    assert(match counts {
        Some((t, e)) => Some((t as nat, e as nat)),
        None => None,
    } == parse_counts(pv)) by {
        match &parsed {
            Ok(s) => {
                assert(crate::score::tracks_view(s.tracks@) =~= s@.tracks);
            },
            Err(_) => {},
        }
    }
    let text = chars_of(content);
    let lines = split_lines_exec(text.as_slice());
    assert(lines_view(lines@) =~= split_lines(content@));
    let out = notes_for_exec(&lines, force_tempo, counts);
    (parsed, out)
}


} // verus!
