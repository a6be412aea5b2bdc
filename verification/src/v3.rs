//! The absolute-tick score format (`#MUSIC_RUST 3`): `@TEMPO`, `@TRACK` and
//! `@NOTE` records on a global tempo map.
use vstd::prelude::*;
use crate::keyed::{get_id, put_id};
use std::collections::BTreeMap;
use crate::lines::{words, words_exec, u32_max};
use crate::score::{
    ScheduledNote, Score, ScoreView, TrackView, Track, sort_events, sort_events_exec, lines_view,
    tracks_view,
};
use crate::text::{
    chars_of, copy_range, dec_exec, dec_str, parse_uint, parse_uint_exec, starts_with,
    starts_with_str, eq_str, trim, trim_exec, upper, upper_exec, string_from_chars, append,
};

verus! {

// ---------------------------------------------------------------------------
// Messages
// ---------------------------------------------------------------------------

/// `v3 第{n}行{tail}` for the line at index `i` (`n = i + 1`).
pub open spec fn line_msg(i: int, tail: Seq<char>) -> Seq<char> {
    "v3 第"@ + dec_str((i + 1) as nat) + "行"@ + tail
}

pub fn line_msg_exec(i: usize, tail: &str) -> (m: Vec<char>)
    requires
        i < usize::MAX,
    ensures
        m@ == line_msg(i as int, tail@),
{
    let mut m = chars_of("v3 第");
    let d = dec_exec(i as u64 + 1);
    append(&mut m, &d);
    append(&mut m, &chars_of("行"));
    append(&mut m, &chars_of(tail));
    m
}

/// A numeric field of a record: missing or malformed fields are errors
/// naming the field.
#[derive(Clone, Copy, PartialEq, Eq, Structural)]
pub enum Field {
    TempoTick,
    UsPerQuarter,
    TrackId,
    Channel,
    StartTick,
    DurationTick,
    Key,
    Velocity,
}

pub open spec fn missing_tail(f: Field) -> Seq<char> {
    match f {
        Field::TempoTick => "缺少 tempo tick"@,
        Field::UsPerQuarter => "缺少 us/q"@,
        Field::TrackId => "缺少 track id"@,
        Field::Channel => "缺少 MIDI channel"@,
        Field::StartTick => "缺少 start tick"@,
        Field::DurationTick => "缺少 duration tick"@,
        Field::Key => "缺少 MIDI key"@,
        Field::Velocity => "缺少 velocity"@,
    }
}

pub open spec fn invalid_tail(f: Field) -> Seq<char> {
    match f {
        Field::TempoTick => " tempo tick 无效"@,
        Field::UsPerQuarter => " us/q 无效"@,
        Field::TrackId => " track id 无效"@,
        Field::Channel => " channel 无效"@,
        Field::StartTick => " start tick 无效"@,
        Field::DurationTick => " duration tick 无效"@,
        Field::Key => " MIDI key 无效"@,
        Field::Velocity => " velocity 无效"@,
    }
}

fn missing_tail_exec(f: Field) -> (r: &'static str)
    ensures
        r@ == missing_tail(f),
{
    match f {
        Field::TempoTick => "缺少 tempo tick",
        Field::UsPerQuarter => "缺少 us/q",
        Field::TrackId => "缺少 track id",
        Field::Channel => "缺少 MIDI channel",
        Field::StartTick => "缺少 start tick",
        Field::DurationTick => "缺少 duration tick",
        Field::Key => "缺少 MIDI key",
        Field::Velocity => "缺少 velocity",
    }
}

fn invalid_tail_exec(f: Field) -> (r: &'static str)
    ensures
        r@ == invalid_tail(f),
{
    match f {
        Field::TempoTick => " tempo tick 无效",
        Field::UsPerQuarter => " us/q 无效",
        Field::TrackId => " track id 无效",
        Field::Channel => " channel 无效",
        Field::StartTick => " start tick 无效",
        Field::DurationTick => " duration tick 无效",
        Field::Key => " MIDI key 无效",
        Field::Velocity => " velocity 无效",
    }
}

/// Field `idx` of a record on line `i`, read as an integer no larger than `max`.
pub open spec fn field_value(fields: Seq<Seq<char>>, idx: int, max: nat, i: int, f: Field) -> Result<nat, Seq<char>> {
    if idx >= fields.len() {
        Err(line_msg(i, missing_tail(f)))
    } else {
        match parse_uint(fields[idx], max) {
            Some(v) => Ok(v),
            None => Err(line_msg(i, invalid_tail(f))),
        }
    }
}

fn field_value_exec(fields: &Vec<Vec<char>>, idx: usize, max: u64, i: usize, f: Field) -> (r: Result<u64, Vec<char>>)
    requires
        i < usize::MAX,
    ensures
        match field_value(lines_view(fields@), idx as int, max as nat, i as int, f) {
            Ok(v) => r is Ok && r->Ok_0 as nat == v,
            Err(m) => r is Err && r->Err_0@ == m,
        },
{
    if idx >= fields.len() {
        Err(line_msg_exec(i, missing_tail_exec(f)))
    } else {
        assert(lines_view(fields@)[idx as int] == fields@[idx as int]@);
        match parse_uint_exec(fields[idx].as_slice(), max) {
            Some(v) => Ok(v),
            None => Err(line_msg_exec(i, invalid_tail_exec(f))),
        }
    }
}

// ---------------------------------------------------------------------------
// Track names
// ---------------------------------------------------------------------------

/// Words joined with single spaces.
pub open spec fn join_words(ws: Seq<Seq<char>>) -> Seq<char>
    decreases ws.len(),
{
    if ws.len() == 0 {
        Seq::empty()
    } else if ws.len() == 1 {
        ws[0]
    } else {
        join_words(ws.drop_last()) + seq![' '] + ws.last()
    }
}

/// `str::replace` of a two-character pattern `\x` by `x`, left to right.
pub open spec fn unescape(s: Seq<char>, x: char) -> Seq<char>
    decreases s.len(),
{
    if s.len() < 2 {
        s
    } else if s[0] == '\\' && s[1] == x {
        seq![x] + unescape(s.skip(2), x)
    } else {
        seq![s[0]] + unescape(s.drop_first(), x)
    }
}

/// A track name: the words after the channel; a name in double quotes has
/// them removed and `\"`, then `\\`, unescaped; an empty name becomes
/// `Track{id + 1}` (wrapping at 2^32, as in the release build).
pub open spec fn track_name(rest: Seq<Seq<char>>, id: u32) -> Seq<char> {
    let name = join_words(rest);
    let name = if name.len() >= 2 && name[0] == '"' && name.last() == '"' {
        unescape(unescape(name.subrange(1, name.len() - 1), '"'), '\\')
    } else {
        name
    };
    if name.len() == 0 {
        "Track"@ + dec_str(id.wrapping_add(1) as nat)
    } else {
        name
    }
}

fn unescape_exec(s: &Vec<char>, x: char) -> (r: Vec<char>)
    ensures
        r@ == unescape(s@, x),
{
    let mut out: Vec<char> = Vec::new();
    let mut i: usize = 0;
    let n = s.len();
    assert(s@.skip(0) =~= s@);
    assert(out@ + unescape(s@, x) =~= unescape(s@, x));
    while i < n
        invariant
            0 <= i <= n,
            n == s@.len(),
            out@ + unescape(s@.skip(i as int), x) == unescape(s@, x),
        decreases n - i,
    {
        let ghost rest = s@.skip(i as int);
        if i + 1 < n && s[i] == '\\' && s[i + 1] == x {
            proof {
                assert(rest.skip(2) =~= s@.skip(i + 2));
                assert(out@.push(x) + unescape(s@.skip(i + 2), x) =~= out@ + unescape(rest, x));
            }
            out.push(x);
            i = i + 2;
        } else {
            proof {
                if rest.len() >= 2 {
                    assert(rest.drop_first() =~= s@.skip(i + 1));
                } else {
                    assert(rest.len() == 1);
                    assert(s@.skip(i + 1).len() == 0);
                    assert(unescape(s@.skip(i + 1), x) =~= Seq::<char>::empty());
                }
                assert(out@.push(s@[i as int]) + unescape(s@.skip(i + 1), x) =~= out@ + unescape(rest, x));
            }
            out.push(s[i]);
            i = i + 1;
        }
    }
    assert(unescape(s@.skip(n as int), x) =~= Seq::<char>::empty());
    assert(out@ + Seq::<char>::empty() =~= out@);
    out
}

fn track_name_exec(fields: &Vec<Vec<char>>, from: usize, id: u32) -> (r: Vec<char>)
    requires
        from <= fields@.len(),
    ensures
        r@ == track_name(lines_view(fields@).skip(from as int), id),
{
    let ghost ws = lines_view(fields@).skip(from as int);
    let mut name: Vec<char> = Vec::new();
    let mut k: usize = from;
    while k < fields.len()
        invariant
            from <= k <= fields@.len(),
            ws == lines_view(fields@).skip(from as int),
            name@ == join_words(ws.take(k - from)),
        decreases fields@.len() - k,
    {
        proof {
            assert(ws.take(k + 1 - from).drop_last() =~= ws.take(k - from));
            assert(ws.take(k + 1 - from).last() == fields@[k as int]@);
            if k == from {
                assert(ws.take(1)[0] == fields@[k as int]@);
            }
        }
        if k > from {
            name.push(' ');
        }
        append(&mut name, &fields[k]);
        proof {
            if k == from {
                assert(name@ =~= join_words(ws.take(k + 1 - from)));
            } else {
                assert(name@ =~= join_words(ws.take(k + 1 - from)));
            }
        }
        k = k + 1;
    }
    assert(ws.take(fields@.len() - from) =~= ws);
    let n = name.len();
    let name2 = if n >= 2 && name[0] == '"' && name[n - 1] == '"' {
        let inner = copy_range(name.as_slice(), 1, n - 1);
        let a = unescape_exec(&inner, '"');
        unescape_exec(&a, '\\')
    } else {
        name
    };
    if name2.len() == 0 {
        let mut r = chars_of("Track");
        let d = dec_exec(id.wrapping_add(1) as u64);
        append(&mut r, &d);
        r
    } else {
        name2
    }
}

// ---------------------------------------------------------------------------
// Records
// ---------------------------------------------------------------------------

pub ghost struct V3Acc {
    pub title: Seq<char>,
    pub ppq: u32,
    pub tempos: Seq<(u64, u64)>,
    pub tracks: Seq<(u32, u8, Seq<char>)>,
    pub notes: Seq<V3Note>,
}

#[derive(Clone, Copy)]
pub struct V3Note {
    pub track: u32,
    pub start: u64,
    pub dur: u64,
    pub key: u8,
    pub vel: u8,
}

/// Drop leading `:`, spaces and tabs.
pub open spec fn strip_title_sep(s: Seq<char>) -> Seq<char>
    decreases s.len(),
{
    if s.len() > 0 && (s[0] == ':' || s[0] == ' ' || s[0] == '\t') {
        strip_title_sep(s.drop_first())
    } else {
        s
    }
}

pub open spec fn u64_max() -> nat {
    0xffff_ffff_ffff_ffff
}

/// A `#` line: `#TITLE` sets the title, `#PPQ` the tick resolution (a
/// positive integer); other `#` lines are comments.
pub open spec fn v3_meta(line: Seq<char>, i: int, acc: V3Acc) -> Result<V3Acc, Seq<char>> {
    let rest = trim(line.drop_first());
    let up = upper(rest);
    if starts_with(up, "TITLE"@) {
        Ok(V3Acc { title: strip_title_sep(rest.skip(5)), ..acc })
    } else if starts_with(up, "PPQ"@) {
        match parse_uint(trim(rest.skip(3)), u32_max()) {
            None => Err(line_msg(i, " PPQ 无效"@)),
            Some(p) => if p == 0 {
                Err(line_msg(i, " PPQ 不能为 0"@))
            } else {
                Ok(V3Acc { ppq: p as u32, ..acc })
            },
        }
    } else {
        Ok(acc)
    }
}

pub open spec fn v3_tempo(fields: Seq<Seq<char>>, i: int, acc: V3Acc) -> Result<V3Acc, Seq<char>> {
    match field_value(fields, 1, u64_max(), i, Field::TempoTick) {
        Err(m) => Err(m),
        Ok(tick) => match field_value(fields, 2, u64_max(), i, Field::UsPerQuarter) {
            Err(m) => Err(m),
            Ok(us) => if us == 0 {
                Err(line_msg(i, " us/q 不能为 0"@))
            } else {
                Ok(V3Acc { tempos: acc.tempos.push((tick as u64, us as u64)), ..acc })
            },
        },
    }
}

pub open spec fn v3_track(fields: Seq<Seq<char>>, i: int, acc: V3Acc) -> Result<V3Acc, Seq<char>> {
    match field_value(fields, 1, u32_max(), i, Field::TrackId) {
        Err(m) => Err(m),
        Ok(id) => match field_value(fields, 2, 255, i, Field::Channel) {
            Err(m) => Err(m),
            Ok(ch) => if ch > 15 {
                Err(line_msg(i, " channel 必须是 0-15"@))
            } else {
                let name = track_name(fields.skip(3), id as u32);
                Ok(V3Acc { tracks: acc.tracks.push((id as u32, ch as u8, name)), ..acc })
            },
        },
    }
}

pub open spec fn v3_note(fields: Seq<Seq<char>>, i: int, acc: V3Acc) -> Result<V3Acc, Seq<char>> {
    match field_value(fields, 1, u64_max(), i, Field::TrackId) {
        Err(m) => Err(m),
        Ok(track) => if track > u32_max() {
            Err(line_msg(i, " track id 越界"@))
        } else {
            match field_value(fields, 2, u64_max(), i, Field::StartTick) {
                Err(m) => Err(m),
                Ok(start) => match field_value(fields, 3, u64_max(), i, Field::DurationTick) {
                    Err(m) => Err(m),
                    Ok(dur) => match field_value(fields, 4, u64_max(), i, Field::Key) {
                        Err(m) => Err(m),
                        Ok(key) => match field_value(fields, 5, u64_max(), i, Field::Velocity) {
                            Err(m) => Err(m),
                            Ok(vel) => if dur == 0 || key > 127 || vel == 0 || vel > 127 {
                                Err(line_msg(i, "音符参数越界"@))
                            } else {
                                Ok(
                                    V3Acc {
                                        notes: acc.notes.push(
                                            V3Note {
                                                track: track as u32,
                                                start: start as u64,
                                                dur: dur as u64,
                                                key: key as u8,
                                                vel: vel as u8,
                                            },
                                        ),
                                        ..acc
                                    },
                                )
                            },
                        },
                    },
                },
            }
        },
    }
}

/// One line of a v3 file (index `i`): blank lines are skipped, `#` lines
/// are meta lines, and the first word (any case) names the record.
pub open spec fn v3_line(raw: Seq<char>, i: int, acc: V3Acc) -> Result<V3Acc, Seq<char>> {
    let line = trim(raw);
    if line.len() == 0 {
        Ok(acc)
    } else if line[0] == '#' {
        v3_meta(line, i, acc)
    } else {
        let fields = words(line);
        let kind = if fields.len() > 0 {
            upper(fields[0])
        } else {
            Seq::empty()
        };
        if kind == "@TEMPO"@ || kind == "TEMPO"@ {
            v3_tempo(fields, i, acc)
        } else if kind == "@TRACK"@ || kind == "TRACK"@ {
            v3_track(fields, i, acc)
        } else if kind == "@NOTE"@ || kind == "NOTE"@ {
            v3_note(fields, i, acc)
        } else {
            Err(line_msg(i, "未知记录类型: "@ + kind))
        }
    }
}

/// All lines from `i` on; the first faulty line decides the error.
pub open spec fn v3_scan(lines: Seq<Seq<char>>, i: int, acc: V3Acc) -> Result<V3Acc, Seq<char>>
    decreases lines.len() - i,
{
    if i < 0 || i >= lines.len() {
        Ok(acc)
    } else {
        match v3_line(lines[i], i, acc) {
            Err(m) => Err(m),
            Ok(a) => v3_scan(lines, i + 1, a),
        }
    }
}


/// The state the first `j` lines leave, or the error of the first faulty
/// one among them.
pub open spec fn v3_state_at(lines: Seq<Seq<char>>, j: int) -> Result<V3Acc, Seq<char>>
    decreases j,
{
    if j <= 0 {
        Ok(v3_init())
    } else {
        match v3_state_at(lines, j - 1) {
            Ok(a) => v3_line(lines[j - 1], j - 1, a),
            Err(e) => Err(e),
        }
    }
}

proof fn lemma_v3_scan_from(lines: Seq<Seq<char>>, i: int)
    requires
        0 <= i <= lines.len(),
        v3_state_at(lines, i) is Ok,
    ensures
        v3_scan(lines, 0, v3_init()) == v3_scan(lines, i, v3_state_at(lines, i)->Ok_0),
    decreases i,
{
    if i > 0 {
        lemma_v3_scan_from(lines, i - 1);
    }
}

proof fn lemma_v3_scan_rest(lines: Seq<Seq<char>>, i: int)
    requires
        0 <= i <= lines.len(),
        v3_state_at(lines, i) is Ok,
    ensures
        v3_scan(lines, i, v3_state_at(lines, i)->Ok_0) == v3_state_at(lines, lines.len() as int),
    decreases lines.len() - i,
{
    if i < lines.len() {
        match v3_state_at(lines, i + 1) {
            Ok(_) => {
                lemma_v3_scan_rest(lines, i + 1);
            },
            Err(e) => {
                lemma_v3_err_stays(lines, i + 1, lines.len() as int);
            },
        }
    }
}

proof fn lemma_v3_err_stays(lines: Seq<Seq<char>>, i: int, j: int)
    requires
        0 <= i <= j,
        v3_state_at(lines, i) is Err,
    ensures
        v3_state_at(lines, j) == v3_state_at(lines, i),
    decreases j - i,
{
    if j > i {
        lemma_v3_err_stays(lines, i, j - 1);
    }
}

/// The lines of the absolute-tick format are read in file order: the scan
/// ends in the state the lines leave one after the other, and when it
/// fails, its error is that of the first line that fails on the state the
/// lines before it left.
pub proof fn lemma_v3_first_failure(lines: Seq<Seq<char>>)
    ensures
        v3_scan(lines, 0, v3_init()) == v3_state_at(lines, lines.len() as int),
        v3_scan(lines, 0, v3_init()) matches Err(e) ==> exists|j: int|
            0 <= j < lines.len() && #[trigger] v3_state_at(lines, j) is Ok && v3_line(
                lines[j],
                j,
                v3_state_at(lines, j)->Ok_0,
            ) == Err::<V3Acc, Seq<char>>(e),
{
    lemma_v3_scan_rest(lines, 0);
    lemma_v3_scan_from(lines, 0);
    if let Err(e) = v3_scan(lines, 0, v3_init()) {
        lemma_v3_first_err(lines, lines.len() as int);
    }
}

proof fn lemma_v3_first_err(lines: Seq<Seq<char>>, n: int)
    requires
        0 <= n,
        v3_state_at(lines, n) is Err,
    ensures
        exists|j: int|
            0 <= j < n && #[trigger] v3_state_at(lines, j) is Ok && v3_line(lines[j], j, v3_state_at(lines, j)->Ok_0)
                == v3_state_at(lines, n),
    decreases n,
{
    if v3_state_at(lines, n - 1) is Err {
        lemma_v3_first_err(lines, n - 1);
        let j = choose|j: int|
            0 <= j < n - 1 && #[trigger] v3_state_at(lines, j) is Ok && v3_line(lines[j], j, v3_state_at(lines, j)->Ok_0)
                == v3_state_at(lines, n - 1);
        assert(v3_state_at(lines, n) == v3_state_at(lines, n - 1));
    } else {
        assert(v3_state_at(lines, n - 1) is Ok);
    }
}

} // verus!

verus! {

pub struct V3Track {
    pub id: u32,
    pub channel: u8,
    pub name: Vec<char>,
}

pub struct V3Builder {
    pub title: Vec<char>,
    pub ppq: u32,
    pub tempos: Vec<(u64, u64)>,
    pub tracks: Vec<V3Track>,
    pub notes: Vec<V3Note>,
}

pub open spec fn v3_tracks_view(v: Seq<V3Track>) -> Seq<(u32, u8, Seq<char>)> {
    v.map_values(|t: V3Track| (t.id, t.channel, t.name@))
}

impl V3Builder {
    pub open spec fn model(&self) -> V3Acc {
        V3Acc {
            title: self.title@,
            ppq: self.ppq,
            tempos: self.tempos@,
            tracks: v3_tracks_view(self.tracks@),
            notes: self.notes@,
        }
    }
}

pub open spec fn same_result(r: Result<(), Vec<char>>, spec_r: Result<V3Acc, Seq<char>>, b: V3Builder, b0: V3Builder) -> bool {
    match spec_r {
        Ok(a) => r is Ok && b.model() == a,
        Err(m) => r is Err && r->Err_0@ == m,
    }
}

fn strip_title_sep_exec(s: &[char]) -> (r: Vec<char>)
    ensures
        r@ == strip_title_sep(s@),
{
    let mut i: usize = 0;
    assert(s@.skip(0) =~= s@);
    while i < s.len() && (s[i] == ':' || s[i] == ' ' || s[i] == '\t')
        invariant
            0 <= i <= s@.len(),
            strip_title_sep(s@) == strip_title_sep(s@.skip(i as int)),
        decreases s@.len() - i,
    {
        proof {
            assert(s@.skip(i as int).drop_first() =~= s@.skip(i + 1));
        }
        i = i + 1;
    }
    let r = copy_range(s, i, s.len());
    assert(r@ =~= s@.skip(i as int));
    r
}

fn v3_meta_exec(b: &mut V3Builder, line: &[char], i: usize) -> (r: Result<(), Vec<char>>)
    requires
        line@.len() > 0,
        i < usize::MAX,
    ensures
        same_result(r, v3_meta(line@, i as int, old(b).model()), *final(b), *old(b)),
{
    let rest0 = copy_range(line, 1, line.len());
    assert(rest0@ =~= line@.drop_first());
    let rest = trim_exec(rest0.as_slice());
    let up = upper_exec(rest.as_slice());
    if starts_with_str(up.as_slice(), "TITLE") {
        proof {
            reveal_strlit("TITLE");
        }
        let after = copy_range(rest.as_slice(), 5, rest.len());
        assert(after@ =~= rest@.skip(5));
        b.title = strip_title_sep_exec(after.as_slice());
        Ok(())
    } else if starts_with_str(up.as_slice(), "PPQ") {
        proof {
            reveal_strlit("PPQ");
        }
        let after = copy_range(rest.as_slice(), 3, rest.len());
        assert(after@ =~= rest@.skip(3));
        let v = trim_exec(after.as_slice());
        match parse_uint_exec(v.as_slice(), 0xffff_ffff) {
            None => Err(line_msg_exec(i, " PPQ 无效")),
            Some(p) => {
                if p == 0 {
                    Err(line_msg_exec(i, " PPQ 不能为 0"))
                } else {
                    b.ppq = p as u32;
                    Ok(())
                }
            },
        }
    } else {
        Ok(())
    }
}

fn v3_tempo_exec(b: &mut V3Builder, fields: &Vec<Vec<char>>, i: usize) -> (r: Result<(), Vec<char>>)
    requires
        i < usize::MAX,
    ensures
        same_result(r, v3_tempo(lines_view(fields@), i as int, old(b).model()), *final(b), *old(b)),
{
    let tick = match field_value_exec(fields, 1, 0xffff_ffff_ffff_ffff, i, Field::TempoTick) {
        Ok(v) => v,
        Err(m) => {
            return Err(m);
        },
    };
    let us = match field_value_exec(fields, 2, 0xffff_ffff_ffff_ffff, i, Field::UsPerQuarter) {
        Ok(v) => v,
        Err(m) => {
            return Err(m);
        },
    };
    if us == 0 {
        return Err(line_msg_exec(i, " us/q 不能为 0"));
    }
    b.tempos.push((tick, us));
    Ok(())
}

fn v3_track_exec(b: &mut V3Builder, fields: &Vec<Vec<char>>, i: usize) -> (r: Result<(), Vec<char>>)
    requires
        i < usize::MAX,
    ensures
        same_result(r, v3_track(lines_view(fields@), i as int, old(b).model()), *final(b), *old(b)),
{
    let id = match field_value_exec(fields, 1, 0xffff_ffff, i, Field::TrackId) {
        Ok(v) => v,
        Err(m) => {
            return Err(m);
        },
    };
    let ch = match field_value_exec(fields, 2, 255, i, Field::Channel) {
        Ok(v) => v,
        Err(m) => {
            return Err(m);
        },
    };
    if ch > 15 {
        return Err(line_msg_exec(i, " channel 必须是 0-15"));
    }
    let nf = fields.len();
    let from: usize = if nf < 3 {
        nf
    } else {
        3
    };
    proof {
        if nf < 3 {
            assert(lines_view(fields@).skip(nf as int) =~= lines_view(fields@).skip(3));
        }
    }
    let name = track_name_exec(fields, from, id as u32);
    let ghost before = v3_tracks_view(b.tracks@);
    b.tracks.push(V3Track { id: id as u32, channel: ch as u8, name });
    assert(v3_tracks_view(b.tracks@) =~= before.push((id as u32, ch as u8, name@)));
    Ok(())
}

fn v3_note_exec(b: &mut V3Builder, fields: &Vec<Vec<char>>, i: usize) -> (r: Result<(), Vec<char>>)
    requires
        i < usize::MAX,
    ensures
        same_result(r, v3_note(lines_view(fields@), i as int, old(b).model()), *final(b), *old(b)),
{
    let track = match field_value_exec(fields, 1, 0xffff_ffff_ffff_ffff, i, Field::TrackId) {
        Ok(v) => v,
        Err(m) => {
            return Err(m);
        },
    };
    if track > 0xffff_ffff {
        return Err(line_msg_exec(i, " track id 越界"));
    }
    let start = match field_value_exec(fields, 2, 0xffff_ffff_ffff_ffff, i, Field::StartTick) {
        Ok(v) => v,
        Err(m) => {
            return Err(m);
        },
    };
    let dur = match field_value_exec(fields, 3, 0xffff_ffff_ffff_ffff, i, Field::DurationTick) {
        Ok(v) => v,
        Err(m) => {
            return Err(m);
        },
    };
    let key = match field_value_exec(fields, 4, 0xffff_ffff_ffff_ffff, i, Field::Key) {
        Ok(v) => v,
        Err(m) => {
            return Err(m);
        },
    };
    let vel = match field_value_exec(fields, 5, 0xffff_ffff_ffff_ffff, i, Field::Velocity) {
        Ok(v) => v,
        Err(m) => {
            return Err(m);
        },
    };
    if dur == 0 || key > 127 || vel == 0 || vel > 127 {
        return Err(line_msg_exec(i, "音符参数越界"));
    }
    b.notes.push(V3Note { track: track as u32, start, dur, key: key as u8, vel: vel as u8 });
    Ok(())
}

fn v3_line_exec(b: &mut V3Builder, raw: &[char], i: usize) -> (r: Result<(), Vec<char>>)
    requires
        i < usize::MAX,
    ensures
        same_result(r, v3_line(raw@, i as int, old(b).model()), *final(b), *old(b)),
{
    let line = trim_exec(raw);
    if line.len() == 0 {
        return Ok(());
    }
    if line[0] == '#' {
        return v3_meta_exec(b, line.as_slice(), i);
    }
    let fields = words_exec(line.as_slice());
    let ghost fv = lines_view(fields@);
    assert(fv =~= words(line@));
    let kind = if fields.len() > 0 {
        upper_exec(fields[0].as_slice())
    } else {
        Vec::new()
    };
    assert(kind@ == (if fv.len() > 0 {
        upper(fv[0])
    } else {
        Seq::<char>::empty()
    }));
    if eq_str(kind.as_slice(), "@TEMPO") || eq_str(kind.as_slice(), "TEMPO") {
        v3_tempo_exec(b, &fields, i)
    } else if eq_str(kind.as_slice(), "@TRACK") || eq_str(kind.as_slice(), "TRACK") {
        v3_track_exec(b, &fields, i)
    } else if eq_str(kind.as_slice(), "@NOTE") || eq_str(kind.as_slice(), "NOTE") {
        v3_note_exec(b, &fields, i)
    } else {
        let mut m = line_msg_exec(i, "未知记录类型: ");
        append(&mut m, &kind);
        assert(m@ =~= line_msg(i as int, "未知记录类型: "@ + kind@));
        Err(m)
    }
}

} // verus!

verus! {

// ---------------------------------------------------------------------------
// Tempo map
// ---------------------------------------------------------------------------

pub open spec fn acc_ok(acc: V3Acc) -> bool {
    &&& acc.ppq > 0
    &&& forall|k: int| 0 <= k < acc.tempos.len() ==> #[trigger] acc.tempos[k].1 > 0
}

pub proof fn lemma_v3_line_ok(raw: Seq<char>, i: int, acc: V3Acc)
    requires
        acc_ok(acc),
    ensures
        v3_line(raw, i, acc) matches Ok(a) ==> acc_ok(a),
{
    let line = trim(raw);
    if line.len() > 0 && line[0] != '#' {
        let fields = words(line);
        if let Ok(a) = v3_tempo(fields, i, acc) {
            assert forall|k: int| 0 <= k < a.tempos.len() implies #[trigger] a.tempos[k].1 > 0 by {
                if k < acc.tempos.len() {
                    assert(a.tempos[k] == acc.tempos[k]);
                }
            }
        }
    }
}

/// `a` may stay before `b` (ordered by tick).
pub open spec fn tempo_le(a: (u64, u64), b: (u64, u64)) -> bool {
    a.0 <= b.0
}

pub open spec fn insert_tempo(s: Seq<(u64, u64)>, x: (u64, u64)) -> Seq<(u64, u64)>
    decreases s.len(),
{
    if s.len() == 0 {
        seq![x]
    } else if tempo_le(s.last(), x) {
        s.push(x)
    } else {
        insert_tempo(s.drop_last(), x).push(s.last())
    }
}

/// Stable sort of tempo records by tick.
pub open spec fn sort_tempos(s: Seq<(u64, u64)>) -> Seq<(u64, u64)>
    decreases s.len(),
{
    if s.len() == 0 {
        Seq::empty()
    } else {
        insert_tempo(sort_tempos(s.drop_last()), s.last())
    }
}

/// Tempo records at the same tick collapse into the last of them.
pub open spec fn normalize(s: Seq<(u64, u64)>) -> Seq<(u64, u64)>
    decreases s.len(),
{
    if s.len() == 0 {
        Seq::empty()
    } else {
        let out = normalize(s.drop_last());
        let x = s.last();
        if out.len() > 0 && out.last().0 == x.0 {
            out.update(out.len() - 1, x)
        } else {
            out.push(x)
        }
    }
}

pub open spec fn default_tempo() -> (u64, u64) {
    (0, 500_000)
}

/// The global tempo map: records sorted by tick, one per tick (the last
/// one written wins), starting at tick 0 with 500000 us per quarter unless
/// the file says otherwise.
pub open spec fn tempo_map(tempos: Seq<(u64, u64)>) -> Seq<(u64, u64)> {
    let s = if tempos.len() == 0 {
        seq![default_tempo()]
    } else {
        tempos
    };
    let n = normalize(sort_tempos(s));
    if n[0].0 != 0 {
        seq![default_tempo()] + n
    } else {
        n
    }
}

pub open spec fn all_pos(s: Seq<(u64, u64)>) -> bool {
    forall|k: int| 0 <= k < s.len() ==> #[trigger] s[k].1 > 0
}

pub open spec fn ticks_sorted(s: Seq<(u64, u64)>) -> bool {
    forall|a: int, b: int| 0 <= a <= b < s.len() ==> s[a].0 <= s[b].0
}

proof fn lemma_insert_tempo(s: Seq<(u64, u64)>, x: (u64, u64))
    requires
        all_pos(s),
        x.1 > 0,
        ticks_sorted(s),
    ensures
        all_pos(insert_tempo(s, x)),
        ticks_sorted(insert_tempo(s, x)),
        insert_tempo(s, x).len() == s.len() + 1,
        forall|k: int| 0 <= k < insert_tempo(s, x).len() ==> (#[trigger] insert_tempo(s, x)[k] == x
            || exists|j: int| 0 <= j < s.len() && s[j] == insert_tempo(s, x)[k]),
    decreases s.len(),
{
    if s.len() > 0 && !tempo_le(s.last(), x) {
        lemma_insert_tempo(s.drop_last(), x);
        let r = insert_tempo(s.drop_last(), x);
        let full = r.push(s.last());
        assert forall|k: int| 0 <= k < full.len() implies (#[trigger] full[k] == x || exists|j: int|
            0 <= j < s.len() && s[j] == full[k]) by {
            if k == full.len() - 1 {
                assert(s[s.len() - 1] == full[k]);
            } else {
                if full[k] != x {
                    let j = choose|j: int| 0 <= j < s.drop_last().len() && s.drop_last()[j] == r[k];
                    assert(s[j] == full[k]);
                }
            }
        }
        assert forall|a: int, b: int| 0 <= a <= b < full.len() implies full[a].0 <= full[b].0 by {
            if b == full.len() - 1 && a < b {
                if r[a] == x {
                } else {
                    let j = choose|j: int| 0 <= j < s.drop_last().len() && s.drop_last()[j] == r[a];
                    assert(s[j].0 <= s[s.len() - 1].0);
                }
            }
        }
    } else if s.len() > 0 {
        let full = s.push(x);
        assert forall|k: int| 0 <= k < full.len() implies (#[trigger] full[k] == x || exists|j: int|
            0 <= j < s.len() && s[j] == full[k]) by {
            if k < s.len() {
                assert(s[k] == full[k]);
            }
        }
        assert forall|a: int, b: int| 0 <= a <= b < full.len() implies full[a].0 <= full[b].0 by {
            if b == full.len() - 1 && a < b {
                assert(s[a].0 <= s[s.len() - 1].0);
            }
        }
    }
}

proof fn lemma_sort_tempos(s: Seq<(u64, u64)>)
    requires
        all_pos(s),
    ensures
        all_pos(sort_tempos(s)),
        ticks_sorted(sort_tempos(s)),
        sort_tempos(s).len() == s.len(),
    decreases s.len(),
{
    if s.len() > 0 {
        lemma_sort_tempos(s.drop_last());
        lemma_insert_tempo(sort_tempos(s.drop_last()), s.last());
    }
}

proof fn lemma_normalize(s: Seq<(u64, u64)>)
    requires
        all_pos(s),
        ticks_sorted(s),
    ensures
        all_pos(normalize(s)),
        forall|a: int, b: int| 0 <= a < b < normalize(s).len() ==> normalize(s)[a].0 < normalize(s)[b].0,
        s.len() > 0 ==> normalize(s).len() > 0 && normalize(s)[0].0 == s[0].0,
        s.len() > 0 ==> normalize(s).last().0 == s.last().0,
    decreases s.len(),
{
    if s.len() > 0 {
        let p = s.drop_last();
        lemma_normalize(p);
        let out = normalize(p);
        if p.len() > 0 {
            assert(p.last().0 <= s.last().0);
        }
    }
}

/// Beginning of the tempo map is tick 0, ticks strictly increase, and every
/// tempo is positive.
pub open spec fn map_ok(m: Seq<(u64, u64)>) -> bool {
    &&& m.len() > 0
    &&& m[0].0 == 0
    &&& all_pos(m)
    &&& forall|a: int, b: int| 0 <= a < b < m.len() ==> m[a].0 < m[b].0
}

/// The tempo map of a file begins at tick 0, has strictly increasing ticks
/// (a later record at the same tick replaces an earlier one) and only
/// positive tempos, whatever order the records came in.
pub proof fn lemma_tempo_map(tempos: Seq<(u64, u64)>)
    requires
        all_pos(tempos),
    ensures
        map_ok(tempo_map(tempos)),
{
    let s = if tempos.len() == 0 {
        seq![default_tempo()]
    } else {
        tempos
    };
    lemma_sort_tempos(s);
    lemma_normalize(sort_tempos(s));
    let n = normalize(sort_tempos(s));
    if n[0].0 != 0 {
        let m = seq![default_tempo()] + n;
        assert forall|a: int, b: int| 0 <= a < b < m.len() implies m[a].0 < m[b].0 by {
            if a == 0 {
                assert(m[b] == n[b - 1]);
                if b - 1 > 0 {
                    assert(n[0].0 < n[b - 1].0);
                }
            } else {
                assert(m[a] == n[a - 1]);
                assert(m[b] == n[b - 1]);
            }
        }
        assert forall|k: int| 0 <= k < m.len() implies #[trigger] m[k].1 > 0 by {
            if k > 0 {
                assert(m[k] == n[k - 1]);
            }
        }
    }
}

/// The tempo `us` rescaled so that the first tempo becomes `target` (rounded
/// to nearest, kept to 64 bits as the release build does).
pub open spec fn scaled_us(us: u64, base: u64, target: nat) -> u64 {
    (((us * target + base / 2) / (base as int)) % 0x1_0000_0000_0000_0000) as u64
}

pub open spec fn scale_map(m: Seq<(u64, u64)>, target: nat) -> Seq<(u64, u64)> {
    Seq::new(m.len(), |k: int| (m[k].0, scaled_us(m[k].1, m[0].1, target)))
}

/// Microseconds per quarter the whole timeline is scaled to: the forced
/// quarter length (at least 1 ms), else the file's first tempo.
pub open spec fn target_us(force: Option<u32>, base: u64) -> nat {
    match force {
        Some(ms) => (if ms >= 1 {
            ms as nat
        } else {
            1nat
        }) * 1000,
        None => base as nat,
    }
}

/// Elapsed tick-microseconds up to `tick`, over the tempo segments from
/// record `j` on.
pub open spec fn ttm_loop(tick: u64, m: Seq<(u64, u64)>, j: int, cur_tick: u64, cur_us: u64, acc: nat) -> nat
    decreases m.len() - j,
{
    if j < 0 || j >= m.len() || m[j].0 >= tick {
        acc + (if tick > cur_tick {
            ((tick - cur_tick) * cur_us) as nat
        } else {
            0nat
        })
    } else {
        ttm_loop(
            tick,
            m,
            j + 1,
            m[j].0,
            m[j].1,
            acc + (if m[j].0 > cur_tick {
                ((m[j].0 - cur_tick) * cur_us) as nat
            } else {
                0nat
            }),
        )
    }
}

/// Milliseconds at `tick` on the tempo map with `ppq` ticks per quarter.
pub open spec fn tick_to_ms(tick: u64, ppq: u32, m: Seq<(u64, u64)>) -> u64 {
    ((ttm_loop(tick, m, 1, 0, m[0].1, 0) / (ppq as nat) / 1000) % 0x1_0000_0000_0000_0000) as u64
}

pub fn tick_to_ms_exec(tick: u64, ppq: u32, m: &Vec<(u64, u64)>) -> (r: u64)
    requires
        ppq > 0,
        m@.len() > 0,
        forall|a: int, b: int| 0 <= a < b < m@.len() ==> m@[a].0 < m@[b].0,
    ensures
        r == tick_to_ms(tick, ppq, m@),
{
    let ghost mm = m@;
    let mut cur_tick: u64 = 0;
    let mut cur_us: u64 = m[0].1;
    let mut acc: u128 = 0;
    let mut j: usize = 1;
    let n = m.len();
    let ghost total = ttm_loop(tick, mm, 1, 0, mm[0].1, 0);
    while j < n && m[j].0 < tick
        invariant
            1 <= j <= n,
            n == mm.len(),
            mm == m@,
            forall|a: int, b: int| 0 <= a < b < mm.len() ==> mm[a].0 < mm[b].0,
            cur_tick == (if j == 1 {
                0u64
            } else {
                mm[j - 1].0
            }),
            cur_tick <= tick,
            acc <= cur_tick * 0xffff_ffff_ffff_ffff,
            total == ttm_loop(tick, mm, j as int, cur_tick, cur_us, acc as nat),
        decreases n - j,
    {
        let tt = m[j].0;
        let tu = m[j].1;
        if j > 1 {
            assert(mm[j - 1].0 < mm[j as int].0);
        }
        let seg: u128 = if tt > cur_tick {
            mul_wide(tt - cur_tick, cur_us)
        } else {
            0
        };
        assert(acc + seg <= tt * 0xffff_ffff_ffff_ffff) by (nonlinear_arith)
            requires
                acc <= cur_tick * 0xffff_ffff_ffff_ffff,
                seg == (if tt > cur_tick {
                    (tt - cur_tick) * cur_us
                } else {
                    0
                }),
                cur_us <= 0xffff_ffff_ffff_ffff,
                cur_tick <= tt,
        ;
        assert(tt * 0xffff_ffff_ffff_ffff <= 0xffff_ffff_ffff_ffff * 0xffff_ffff_ffff_ffff) by (nonlinear_arith)
            requires
                tt <= 0xffff_ffff_ffff_ffff,
        ;
        acc = acc + seg;
        cur_tick = tt;
        cur_us = tu;
        j = j + 1;
    }
    let last: u128 = if tick > cur_tick {
        mul_wide(tick - cur_tick, cur_us)
    } else {
        0
    };
    assert(acc + last <= tick * 0xffff_ffff_ffff_ffff) by (nonlinear_arith)
        requires
            acc <= cur_tick * 0xffff_ffff_ffff_ffff,
            last == (if tick > cur_tick {
                (tick - cur_tick) * cur_us
            } else {
                0
            }),
            cur_us <= 0xffff_ffff_ffff_ffff,
            cur_tick <= tick,
    ;
    assert(tick * 0xffff_ffff_ffff_ffff <= 0xffff_ffff_ffff_ffff * 0xffff_ffff_ffff_ffff) by (nonlinear_arith)
        requires
            tick <= 0xffff_ffff_ffff_ffff,
    ;
    let all = acc + last;
    assert(all as nat == total);
    let q: u128 = all / (ppq as u128) / 1000;
    (q % 0x1_0000_0000_0000_0000) as u64
}

/// Full 128-bit product of two 64-bit integers.
pub fn mul_wide(a: u64, b: u64) -> (r: u128)
    ensures
        r == a * b,
{
    assert(a * b <= 0xffff_ffff_ffff_ffff * 0xffff_ffff_ffff_ffff) by (nonlinear_arith)
        requires
            a <= 0xffff_ffff_ffff_ffff,
            b <= 0xffff_ffff_ffff_ffff,
    ;
    a as u128 * b as u128
}

} // verus!

verus! {

pub proof fn lemma_insert_tempo_split(s: Seq<(u64, u64)>, x: (u64, u64), j: int)
    requires
        0 <= j <= s.len(),
        forall|k: int| j <= k < s.len() ==> !tempo_le(#[trigger] s[k], x),
    ensures
        insert_tempo(s, x) == insert_tempo(s.take(j), x) + s.skip(j),
    decreases s.len() - j,
{
    if j == s.len() {
        assert(s.take(j) =~= s);
        assert(insert_tempo(s, x) + s.skip(j) =~= insert_tempo(s, x));
    } else {
        lemma_insert_tempo_split(s.drop_last(), x, j);
        assert(s.drop_last().take(j) =~= s.take(j));
        assert(s.drop_last().skip(j).push(s.last()) =~= s.skip(j));
        assert((insert_tempo(s.take(j), x) + s.drop_last().skip(j)).push(s.last()) =~= insert_tempo(
            s.take(j),
            x,
        ) + s.skip(j));
    }
}

fn sort_tempos_exec(v: &Vec<(u64, u64)>) -> (out: Vec<(u64, u64)>)
    ensures
        out@ == sort_tempos(v@),
{
    let ghost s0 = v@;
    let n = v.len();
    let mut out: Vec<(u64, u64)> = Vec::new();
    let mut i: usize = 0;
    while i < n
        invariant
            0 <= i <= n,
            n == s0.len(),
            v@ == s0,
            out@ == sort_tempos(s0.take(i as int)),
        decreases n - i,
    {
        let x = v[i];
        proof {
            assert(s0.take(i + 1).drop_last() =~= s0.take(i as int));
        }
        let ghost sorted = out@;
        out.push(x);
        let mut j: usize = out.len() - 1;
        while j > 0 && !(out[j - 1].0 <= x.0)
            invariant
                0 <= j < out@.len(),
                out@.len() == sorted.len() + 1,
                out@ == sorted.take(j as int).push(x) + sorted.skip(j as int),
                forall|k: int| j <= k < sorted.len() ==> !tempo_le(#[trigger] sorted[k], x),
            decreases j,
        {
            let prev = out[j - 1];
            out.set(j, prev);
            out.set(j - 1, x);
            proof {
                assert(sorted[j - 1] == prev);
            }
            j = j - 1;
            assert(out@ =~= sorted.take(j as int).push(x) + sorted.skip(j as int));
        }
        proof {
            lemma_insert_tempo_split(sorted, x, j as int);
            let t = sorted.take(j as int);
            if j > 0 {
                assert(t.last() == sorted[j - 1]);
            } else {
                assert(t =~= Seq::<(u64, u64)>::empty());
            }
            assert(insert_tempo(t, x) == t.push(x));
        }
        i = i + 1;
    }
    assert(s0.take(n as int) =~= s0);
    out
}

fn normalize_exec(s: &Vec<(u64, u64)>) -> (out: Vec<(u64, u64)>)
    ensures
        out@ == normalize(s@),
{
    let mut out: Vec<(u64, u64)> = Vec::new();
    let mut i: usize = 0;
    while i < s.len()
        invariant
            0 <= i <= s@.len(),
            out@ == normalize(s@.take(i as int)),
        decreases s@.len() - i,
    {
        proof {
            assert(s@.take(i + 1).drop_last() =~= s@.take(i as int));
        }
        let x = s[i];
        let m = out.len();
        if m > 0 && out[m - 1].0 == x.0 {
            out.set(m - 1, x);
        } else {
            out.push(x);
        }
        i = i + 1;
    }
    assert(s@.take(s@.len() as int) =~= s@);
    out
}

pub fn tempo_map_exec(tempos: &Vec<(u64, u64)>) -> (m: Vec<(u64, u64)>)
    requires
        all_pos(tempos@),
    ensures
        m@ == tempo_map(tempos@),
        map_ok(m@),
{
    proof {
        lemma_tempo_map(tempos@);
    }
    let s = if tempos.len() == 0 {
        let mut d: Vec<(u64, u64)> = Vec::new();
        d.push((0, 500_000));
        assert(d@ =~= seq![default_tempo()]);
        d
    } else {
        let mut c: Vec<(u64, u64)> = Vec::new();
        let mut k: usize = 0;
        while k < tempos.len()
            invariant
                0 <= k <= tempos@.len(),
                c@ == tempos@.take(k as int),
            decreases tempos@.len() - k,
        {
            c.push(tempos[k]);
            k = k + 1;
            assert(c@ =~= tempos@.take(k as int));
        }
        assert(tempos@.take(tempos@.len() as int) =~= tempos@);
        c
    };
    let sorted = sort_tempos_exec(&s);
    let n = normalize_exec(&sorted);
    if n[0].0 != 0 {
        let mut m: Vec<(u64, u64)> = Vec::new();
        m.push((0, 500_000));
        let mut k: usize = 0;
        while k < n.len()
            invariant
                0 <= k <= n@.len(),
                m@ == seq![default_tempo()] + n@.take(k as int),
            decreases n@.len() - k,
        {
            m.push(n[k]);
            k = k + 1;
            assert(m@ =~= seq![default_tempo()] + n@.take(k as int));
        }
        assert(n@.take(n@.len() as int) =~= n@);
        m
    } else {
        n
    }
}

fn scale_map_exec(m: &Vec<(u64, u64)>, target: u64) -> (r: Vec<(u64, u64)>)
    requires
        map_ok(m@),
    ensures
        r@ == scale_map(m@, target as nat),
{
    let base = m[0].1;
    let mut r: Vec<(u64, u64)> = Vec::new();
    let mut k: usize = 0;
    while k < m.len()
        invariant
            0 <= k <= m@.len(),
            base == m@[0].1,
            base > 0,
            r@.len() == k,
            forall|a: int| 0 <= a < k ==> #[trigger] r@[a] == (m@[a].0, scaled_us(m@[a].1, base, target as nat)),
        decreases m@.len() - k,
    {
        let (tick, us) = m[k];
        let p = mul_wide(us, target);
        assert(p + base / 2 <= 0xffff_ffff_ffff_ffff * 0xffff_ffff_ffff_ffff + 0xffff_ffff_ffff_ffff) by (nonlinear_arith)
            requires
                p == us * target,
                us <= 0xffff_ffff_ffff_ffff,
                target <= 0xffff_ffff_ffff_ffff,
                base <= 0xffff_ffff_ffff_ffff,
        ;
        let q: u128 = (p + (base / 2) as u128) / (base as u128);
        let v: u64 = (q % 0x1_0000_0000_0000_0000) as u64;
        r.push((tick, v));
        k = k + 1;
    }
    assert(r@ =~= scale_map(m@, target as nat));
    r
}

} // verus!

verus! {

// ---------------------------------------------------------------------------
// Assembling the score
// ---------------------------------------------------------------------------

/// Index of the first track whose id already appeared before it.
pub open spec fn first_dup(t: Seq<(u32, u8, Seq<char>)>) -> Option<int>
    decreases t.len(),
{
    if t.len() == 0 {
        None
    } else {
        match first_dup(t.drop_last()) {
            Some(k) => Some(k),
            None => if exists|j: int| 0 <= j < t.len() - 1 && #[trigger] t[j].0 == t.last().0 {
                Some(t.len() - 1)
            } else {
                None
            },
        }
    }
}

/// Index of the first track with the given id.
pub open spec fn track_index(t: Seq<(u32, u8, Seq<char>)>, id: u32) -> Option<int>
    decreases t.len(),
{
    if t.len() == 0 {
        None
    } else {
        match track_index(t.drop_last(), id) {
            Some(k) => Some(k),
            None => if t.last().0 == id {
                Some(t.len() - 1)
            } else {
                None
            },
        }
    }
}

pub open spec fn clamp_ms(x: u64) -> u32 {
    if x > 0xffff_ffff {
        0xffff_ffffu32
    } else {
        x as u32
    }
}

/// The two events of a note: note-on at its start, note-off at its end but
/// at least 1 ms later.
pub open spec fn note_on_off(n: V3Note, ch: u8, ppq: u32, m: Seq<(u64, u64)>) -> Seq<ScheduledNote> {
    let start_ms = clamp_ms(tick_to_ms(n.start, ppq, m));
    let end_tick = if n.start + n.dur > u64_max() {
        u64_max() as u64
    } else {
        (n.start + n.dur) as u64
    };
    let end_ms = clamp_ms(tick_to_ms(end_tick, ppq, m));
    let min_end = if start_ms as nat + 1 > u32_max() {
        0xffff_ffffu32
    } else {
        (start_ms + 1) as u32
    };
    seq![
        ScheduledNote { at_ms: start_ms, key: n.key, vel: n.vel, on: true, channel: ch },
        ScheduledNote {
            at_ms: if end_ms >= min_end {
                end_ms
            } else {
                min_end
            },
            key: n.key,
            vel: n.vel,
            on: false,
            channel: ch,
        },
    ]
}

/// Events of each track, in note order; a note naming no track is an error.
pub open spec fn note_events(
    t: Seq<(u32, u8, Seq<char>)>,
    notes: Seq<V3Note>,
    ppq: u32,
    m: Seq<(u64, u64)>,
) -> Result<Seq<Seq<ScheduledNote>>, Seq<char>>
    decreases notes.len(),
{
    if notes.len() == 0 {
        Ok(Seq::new(t.len(), |k: int| Seq::<ScheduledNote>::empty()))
    } else {
        match note_events(t, notes.drop_last(), ppq, m) {
            Err(e) => Err(e),
            Ok(evs) => {
                let n = notes.last();
                match track_index(t, n.track) {
                    None => Err("v3 音符引用不存在的 track id: "@ + dec_str(n.track as nat)),
                    Some(k) => Ok(evs.update(k, evs[k] + note_on_off(n, t[k].1, ppq, m))),
                }
            },
        }
    }
}

/// Latest event time of a sequence of events (0 when empty).
pub open spec fn max_at(evs: Seq<ScheduledNote>) -> u32
    decreases evs.len(),
{
    if evs.len() == 0 {
        0
    } else {
        let p = max_at(evs.drop_last());
        if evs.last().at_ms > p {
            evs.last().at_ms
        } else {
            p
        }
    }
}

pub open spec fn tracks_max_at(ts: Seq<TrackView>) -> u32
    decreases ts.len(),
{
    if ts.len() == 0 {
        0
    } else {
        let p = tracks_max_at(ts.drop_last());
        let q = max_at(ts.last().events);
        if q > p {
            q
        } else {
            p
        }
    }
}

pub open spec fn v3_init() -> V3Acc {
    V3Acc {
        title: Seq::empty(),
        ppq: 480,
        tempos: Seq::empty(),
        tracks: Seq::empty(),
        notes: Seq::empty(),
    }
}

/// The v3 format: records on absolute ticks with one global tempo map; a
/// forced quarter length rescales the whole map, keeping the ratios
/// between its tempos.
pub open spec fn v3_parse(lines: Seq<Seq<char>>, force: Option<u32>) -> Result<ScoreView, Seq<char>> {
    match v3_scan(lines, 0, v3_init()) {
        Err(e) => Err(e),
        Ok(acc) => if acc.tracks.len() == 0 {
            Err("v3 文件没有 @TRACK"@)
        } else {
            let map = tempo_map(acc.tempos);
            let base = map[0].1;
            let target = target_us(force, base);
            let scaled = scale_map(map, target);
            match first_dup(acc.tracks) {
                Some(k) => Err("v3 重复的 track id: "@ + dec_str(acc.tracks[k].0 as nat)),
                None => match note_events(acc.tracks, acc.notes, acc.ppq, scaled) {
                    Err(e) => Err(e),
                    Ok(evs) => {
                        let tracks = Seq::new(
                            acc.tracks.len(),
                            |k: int|
                                TrackView {
                                    name: acc.tracks[k].2,
                                    channel: acc.tracks[k].1,
                                    events: sort_events(evs[k]),
                                },
                        );
                        let q = target / 1000;
                        Ok(
                            ScoreView {
                                tempo_ms: if q < 1 {
                                    1u32
                                } else if q > u32_max() {
                                    0xffff_ffffu32
                                } else {
                                    q as u32
                                },
                                tracks,
                                title: acc.title,
                                total_ms: tracks_max_at(tracks),
                            },
                        )
                    },
                },
            }
        },
    }
}

} // verus!

verus! {

pub(crate) proof fn lemma_track_index_found(t: Seq<(u32, u8, Seq<char>)>, id: u32)
    ensures
        track_index(t, id) matches Some(j) ==> 0 <= j < t.len() && t[j].0 == id,
        track_index(t, id) is None ==> forall|j: int| 0 <= j < t.len() ==> #[trigger] t[j].0 != id,
    decreases t.len(),
{
    if t.len() > 0 {
        lemma_track_index_found(t.drop_last(), id);
        assert forall|j: int| 0 <= j < t.len() - 1 implies t.drop_last()[j] == #[trigger] t[j] by {}
    }
}

/// The track of each id, by its place among the tracks; `Err` with the
/// place of the first track whose id came before.
fn track_ids(t: &Vec<V3Track>) -> (r: Result<BTreeMap<u32, usize>, usize>)
    ensures
        r matches Err(k) ==> k < t@.len() && first_dup(v3_tracks_view(t@)) == Some(k as int),
        r matches Ok(m) ==> first_dup(v3_tracks_view(t@)) is None && forall|id: u32|
            #![trigger track_index(v3_tracks_view(t@), id)]
            (m@.contains_key(id) ==> track_index(v3_tracks_view(t@), id) == Some(m@[id] as int))
                && (!m@.contains_key(id) ==> track_index(v3_tracks_view(t@), id) is None),
{
    let ghost tv = v3_tracks_view(t@);
    let mut by_id: BTreeMap<u32, usize> = BTreeMap::new();
    let mut k: usize = 0;
    while k < t.len()
        invariant
            0 <= k <= t@.len(),
            tv == v3_tracks_view(t@),
            first_dup(tv.take(k as int)) is None,
            forall|id: u32|
                #![trigger track_index(tv.take(k as int), id)]
                (by_id@.contains_key(id) ==> track_index(tv.take(k as int), id) == Some(by_id@[id] as int))
                    && (!by_id@.contains_key(id) ==> track_index(tv.take(k as int), id) is None),
        decreases t@.len() - k,
    {
        let id = t[k].id;
        let ghost before = by_id@;
        let ghost p = tv.take(k + 1);
        proof {
            assert(p.drop_last() =~= tv.take(k as int));
            assert(p.last().0 == id);
        }
        match put_id(&mut by_id, id, k) {
            Some(_) => {
                proof {
                    let q = tv.take(k as int);
                    assert(track_index(q, id) == Some(before[id] as int));
                    lemma_track_index_found(q, id);
                    let j = before[id] as int;
                    assert(p[j].0 == q[j].0);
                    assert(first_dup(p) == Some(k as int));
                    lemma_first_dup_prefix(tv, k + 1);
                }
                return Err(k);
            },
            None => {
                proof {
                    let q = tv.take(k as int);
                    assert(track_index(q, id) is None);
                    lemma_track_index_found(q, id);
                    assert forall|m: int| 0 <= m < p.len() - 1 implies #[trigger] p[m].0 != p.last().0 by {
                        assert(p[m].0 == q[m].0);
                    }
                    assert(first_dup(p) is None);
                    assert forall|x: u32| #![trigger track_index(p, x)]
                        (by_id@.contains_key(x) ==> track_index(p, x) == Some(by_id@[x] as int))
                            && (!by_id@.contains_key(x) ==> track_index(p, x) is None) by {
                        assert(track_index(p, x) == (match track_index(q, x) {
                            Some(j) => Some(j),
                            None => if p.last().0 == x {
                                Some(p.len() - 1)
                            } else {
                                None
                            },
                        }));
                    }
                }
            },
        }
        k = k + 1;
    }
    assert(tv.take(t@.len() as int) =~= tv);
    Ok(by_id)
}

proof fn lemma_first_dup_prefix(t: Seq<(u32, u8, Seq<char>)>, n: int)
    requires
        0 <= n <= t.len(),
        first_dup(t.take(n)) is Some,
    ensures
        first_dup(t) == first_dup(t.take(n)),
    decreases t.len() - n,
{
    if n < t.len() {
        assert(t.drop_last().take(n) =~= t.take(n));
        lemma_first_dup_prefix(t.drop_last(), n);
    } else {
        assert(t.take(n) =~= t);
    }
}

fn clamp_ms_exec(x: u64) -> (r: u32)
    ensures
        r == clamp_ms(x),
{
    if x > 0xffff_ffff {
        0xffff_ffff
    } else {
        x as u32
    }
}

fn note_on_off_exec(n: V3Note, ch: u8, ppq: u32, m: &Vec<(u64, u64)>) -> (r: (ScheduledNote, ScheduledNote))
    requires
        ppq > 0,
        m@.len() > 0,
        forall|a: int, b: int| 0 <= a < b < m@.len() ==> m@[a].0 < m@[b].0,
    ensures
        seq![r.0, r.1] == note_on_off(n, ch, ppq, m@),
{
    let start_ms = clamp_ms_exec(tick_to_ms_exec(n.start, ppq, m));
    let end_tick = n.start.saturating_add(n.dur);
    let end_ms = clamp_ms_exec(tick_to_ms_exec(end_tick, ppq, m));
    let min_end = start_ms.saturating_add(1);
    let on = ScheduledNote { at_ms: start_ms, key: n.key, vel: n.vel, on: true, channel: ch };
    let off = ScheduledNote {
        at_ms: if end_ms >= min_end {
            end_ms
        } else {
            min_end
        },
        key: n.key,
        vel: n.vel,
        on: false,
        channel: ch,
    };
    (on, off)
}

pub open spec fn rows_view(v: Seq<Vec<ScheduledNote>>) -> Seq<Seq<ScheduledNote>> {
    v.map_values(|r: Vec<ScheduledNote>| r@)
}

fn note_events_exec(
    t: &Vec<V3Track>,
    by_id: &BTreeMap<u32, usize>,
    notes: &Vec<V3Note>,
    ppq: u32,
    m: &Vec<(u64, u64)>,
) -> (r: Result<Vec<Vec<ScheduledNote>>, Vec<char>>)
    requires
        forall|id: u32|
            #![trigger track_index(v3_tracks_view(t@), id)]
            (by_id@.contains_key(id) ==> track_index(v3_tracks_view(t@), id) == Some(by_id@[id] as int))
                && (!by_id@.contains_key(id) ==> track_index(v3_tracks_view(t@), id) is None),
        ppq > 0,
        m@.len() > 0,
        forall|a: int, b: int| 0 <= a < b < m@.len() ==> m@[a].0 < m@[b].0,
    ensures
        match note_events(v3_tracks_view(t@), notes@, ppq, m@) {
            Ok(evs) => r is Ok && rows_view(r->Ok_0@) == evs,
            Err(e) => r is Err && r->Err_0@ == e,
        },
        r matches Ok(rows) ==> rows@.len() == t@.len(),
{
    let ghost tv = v3_tracks_view(t@);
    let mut rows: Vec<Vec<ScheduledNote>> = Vec::new();
    let mut k: usize = 0;
    while k < t.len()
        invariant
            0 <= k <= t@.len(),
            rows@.len() == k,
            forall|a: int| 0 <= a < k ==> (#[trigger] rows@[a])@.len() == 0,
        decreases t@.len() - k,
    {
        rows.push(Vec::new());
        k = k + 1;
    }
    assert forall|a: int| 0 <= a < rows@.len() implies rows_view(rows@)[a] =~= Seq::<ScheduledNote>::empty() by {
        assert(rows_view(rows@)[a] == rows@[a]@);
    }
    assert(rows_view(rows@) =~= Seq::new(tv.len(), |k: int| Seq::<ScheduledNote>::empty()));
    let mut i: usize = 0;
    while i < notes.len()
        invariant
            0 <= i <= notes@.len(),
            tv == v3_tracks_view(t@),
            ppq > 0,
            m@.len() > 0,
            forall|a: int, b: int| 0 <= a < b < m@.len() ==> m@[a].0 < m@[b].0,
            note_events(tv, notes@.take(i as int), ppq, m@) == Ok::<Seq<Seq<ScheduledNote>>, Seq<char>>(
                rows_view(rows@),
            ),
            rows@.len() == t@.len(),
            forall|id: u32|
                #![trigger track_index(tv, id)]
                (by_id@.contains_key(id) ==> track_index(tv, id) == Some(by_id@[id] as int))
                    && (!by_id@.contains_key(id) ==> track_index(tv, id) is None),
        decreases notes@.len() - i,
    {
        let n = notes[i];
        assert(by_id@.contains_key(n.track) ==> track_index(tv, n.track) == Some(by_id@[n.track] as int));
        assert(!by_id@.contains_key(n.track) ==> track_index(tv, n.track) is None);
        proof {
            assert(notes@.take(i + 1).drop_last() =~= notes@.take(i as int));
            assert(notes@.take(i + 1).last() == n);
        }
        match get_id(by_id, n.track) {
            None => {
                let mut msg = chars_of("v3 音符引用不存在的 track id: ");
                let d = dec_exec(n.track as u64);
                append(&mut msg, &d);
                proof {
                    lemma_note_events_err(tv, notes@, ppq, m@, i + 1);
                }
                return Err(msg);
            },
            Some(k) => {
                proof {
                    lemma_track_index_found(tv, n.track);
                }
                let ch = t[k].channel;
                let (on, off) = note_on_off_exec(n, ch, ppq, m);
                let ghost before = rows_view(rows@);
                let mut row = rows.remove(k);
                let ghost old_row = row@;
                row.push(on);
                row.push(off);
                rows.insert(k, row);
                proof {
                    assert(tv[k as int].1 == ch);
                    assert(before[k as int] == old_row);
                    assert(row@ =~= old_row + note_on_off(n, ch, ppq, m@));
                    assert(rows_view(rows@) =~= before.update(k as int, before[k as int] + note_on_off(n, tv[k as int].1, ppq, m@)));
                    assert(track_index(tv, n.track) == Some(k as int));
                    assert(note_events(tv, notes@.take(i + 1), ppq, m@) == Ok::<Seq<Seq<ScheduledNote>>, Seq<char>>(
                        before.update(k as int, before[k as int] + note_on_off(n, tv[k as int].1, ppq, m@)),
                    ));
                }
            },
        }
        i = i + 1;
    }
    assert(notes@.take(notes@.len() as int) =~= notes@);
    Ok(rows)
}

proof fn lemma_note_events_err(t: Seq<(u32, u8, Seq<char>)>, notes: Seq<V3Note>, ppq: u32, m: Seq<(u64, u64)>, n: int)
    requires
        0 <= n <= notes.len(),
        note_events(t, notes.take(n), ppq, m) is Err,
    ensures
        note_events(t, notes, ppq, m) == note_events(t, notes.take(n), ppq, m),
    decreases notes.len() - n,
{
    if n < notes.len() {
        assert(notes.drop_last().take(n) =~= notes.take(n));
        lemma_note_events_err(t, notes.drop_last(), ppq, m, n);
    } else {
        assert(notes.take(n) =~= notes);
    }
}

fn max_at_exec(evs: &Vec<ScheduledNote>) -> (r: u32)
    ensures
        r == max_at(evs@),
{
    let mut r: u32 = 0;
    let mut i: usize = 0;
    while i < evs.len()
        invariant
            0 <= i <= evs@.len(),
            r == max_at(evs@.take(i as int)),
        decreases evs@.len() - i,
    {
        proof {
            assert(evs@.take(i + 1).drop_last() =~= evs@.take(i as int));
        }
        if evs[i].at_ms > r {
            r = evs[i].at_ms;
        }
        i = i + 1;
    }
    assert(evs@.take(evs@.len() as int) =~= evs@);
    r
}

pub fn tracks_max_at_exec(ts: &Vec<Track>) -> (r: u32)
    ensures
        r == tracks_max_at(tracks_view(ts@)),
{
    let ghost tv = tracks_view(ts@);
    let mut r: u32 = 0;
    let mut i: usize = 0;
    while i < ts.len()
        invariant
            0 <= i <= ts@.len(),
            tv == tracks_view(ts@),
            r == tracks_max_at(tv.take(i as int)),
        decreases ts@.len() - i,
    {
        proof {
            assert(tv.take(i + 1).drop_last() =~= tv.take(i as int));
            assert(tv.take(i + 1).last() == ts@[i as int]@);
        }
        let q = max_at_exec(&ts[i].events);
        if q > r {
            r = q;
        }
        i = i + 1;
    }
    assert(tv.take(ts@.len() as int) =~= tv);
    r
}

pub fn v3_parse_exec(lines: &Vec<Vec<char>>, force: Option<u32>) -> (r: Result<Score, Vec<char>>)
    ensures
        match v3_parse(lines_view(lines@), force) {
            Ok(sv) => r is Ok && r->Ok_0@ == sv,
            Err(e) => r is Err && r->Err_0@ == e,
        },
{
    let ghost lv = lines_view(lines@);
    let mut b = V3Builder {
        title: Vec::new(),
        ppq: 480,
        tempos: Vec::new(),
        tracks: Vec::new(),
        notes: Vec::new(),
    };
    assert(v3_tracks_view(b.tracks@) =~= Seq::empty());
    assert(b.title@ =~= Seq::empty());
    assert(b.tempos@ =~= Seq::empty());
    assert(b.notes@ =~= Seq::empty());
    assert(b.model() == v3_init());
    let n = lines.len();
    let mut i: usize = 0;
    while i < n
        invariant
            0 <= i <= n,
            n == lines@.len(),
            lv == lines_view(lines@),
            v3_scan(lv, 0, v3_init()) == v3_scan(lv, i as int, b.model()),
            acc_ok(b.model()),
        decreases n - i,
    {
        let ghost before = b.model();
        assert(lv[i as int] == lines@[i as int]@);
        let r = v3_line_exec(&mut b, lines[i].as_slice(), i);
        proof {
            lemma_v3_line_ok(lv[i as int], i as int, before);
        }
        match r {
            Err(m) => {
                assert(v3_scan(lv, i as int, before) == Err::<V3Acc, Seq<char>>(m@));
                return Err(m);
            },
            Ok(()) => {},
        }
        i = i + 1;
    }
    let ghost acc = b.model();
    assert(v3_scan(lv, 0, v3_init()) == Ok::<V3Acc, Seq<char>>(acc));
    if b.tracks.len() == 0 {
        return Err(chars_of("v3 文件没有 @TRACK"));
    }
    let map = tempo_map_exec(&b.tempos);
    let base = map[0].1;
    let target: u64 = match force {
        Some(ms) => (if ms >= 1 {
            ms
        } else {
            1
        }) as u64 * 1000,
        None => base,
    };
    let scaled = scale_map_exec(&map, target);
    assert(scaled@.len() == map@.len());
    assert forall|a: int, c: int| 0 <= a < c < scaled@.len() implies scaled@[a].0 < scaled@[c].0 by {
        assert(scaled@[a].0 == map@[a].0);
        assert(scaled@[c].0 == map@[c].0);
    }
    let by_id = match track_ids(&b.tracks) {
        Err(k) => {
            let mut msg = chars_of("v3 重复的 track id: ");
            let d = dec_exec(b.tracks[k].id as u64);
            append(&mut msg, &d);
            return Err(msg);
        },
        Ok(m) => m,
    };
    let mut rows = match note_events_exec(&b.tracks, &by_id, &b.notes, b.ppq, &scaled) {
        Err(e) => {
            return Err(e);
        },
        Ok(rows) => rows,
    };
    let ghost evs = rows_view(rows@);
    let ghost tv = v3_tracks_view(b.tracks@);
    assert(target as nat == target_us(force, map@[0].1));
    assert(note_events(acc.tracks, acc.notes, acc.ppq, scale_map(tempo_map(acc.tempos), target as nat)) == Ok::<Seq<Seq<ScheduledNote>>, Seq<char>>(evs));
    assert forall|a: int| 0 <= a < rows@.len() implies (#[trigger] rows@[a])@ == evs[a] by {
        assert(evs[a] == rows@[a]@);
    }
    let mut tracks: Vec<Track> = Vec::new();
    let mut k: usize = 0;
    let nt = b.tracks.len();
    while k < nt
        invariant
            0 <= k <= nt,
            nt == b.tracks@.len(),
            tv == v3_tracks_view(b.tracks@),
            evs.len() == nt,
            rows@.len() == nt - k,
            forall|a: int| 0 <= a < nt - k ==> (#[trigger] rows@[a])@ == evs[a + k],
            tracks@.len() == k,
            forall|a: int| 0 <= a < k ==> (#[trigger] tracks@[a])@ == (TrackView {
                name: tv[a].2,
                channel: tv[a].1,
                events: sort_events(evs[a]),
            }),
        decreases nt - k,
    {
        let mut row = rows.remove(0);
        sort_events_exec(&mut row);
        let name = string_from_chars(b.tracks[k].name.as_slice());
        tracks.push(Track { name, channel: b.tracks[k].channel, events: row });
        k = k + 1;
    }
    let total = tracks_max_at_exec(&tracks);
    let q = target / 1000;
    let tempo_ms: u32 = if q < 1 {
        1
    } else if q > 0xffff_ffff {
        0xffff_ffff
    } else {
        q as u32
    };
    let title = string_from_chars(b.title.as_slice());
    let score = Score { tempo_ms, tracks, title, total_ms: total };
    proof {
        let sv = v3_parse(lv, force);
        assert(first_dup(acc.tracks) is None);
        assert(sv is Ok);
        assert(tracks_view(score.tracks@) =~= Seq::new(
            tv.len(),
            |k: int| TrackView { name: tv[k].2, channel: tv[k].1, events: sort_events(evs[k]) },
        ));
    }
    Ok(score)
}


/// A note's note-off never comes before its note-on, and comes at least
/// 1 ms after it unless the note starts at the last representable time.
pub proof fn lemma_note_off_after_on(n: V3Note, ch: u8, ppq: u32, m: Seq<(u64, u64)>)
    ensures
        note_on_off(n, ch, ppq, m)[0].on && !note_on_off(n, ch, ppq, m)[1].on,
        note_on_off(n, ch, ppq, m)[1].at_ms >= note_on_off(n, ch, ppq, m)[0].at_ms,
        note_on_off(n, ch, ppq, m)[0].at_ms < u32::MAX ==> note_on_off(n, ch, ppq, m)[1].at_ms
            >= note_on_off(n, ch, ppq, m)[0].at_ms + 1,
{
}

/// Rescaling a tempo map keeps every tick where it was and makes its first
/// tempo exactly the target, so every later tempo keeps its ratio to it up
/// to rounding.
pub proof fn lemma_scale_map_keeps_ticks(m: Seq<(u64, u64)>, target: nat)
    requires
        m.len() > 0,
        m[0].1 > 0,
        target <= u64::MAX,
    ensures
        scale_map(m, target).len() == m.len(),
        forall|k: int| 0 <= k < m.len() ==> #[trigger] scale_map(m, target)[k].0 == m[k].0,
        scale_map(m, target)[0].1 == target,
{
    let b = m[0].1;
    assert((b * target + b / 2) / (b as int) == target) by (nonlinear_arith)
        requires
            b > 0,
            0 <= b / 2 < b,
    ;
}

// ---------------------------------------------------------------------------
// Laws of the absolute-tick format, line by line
// ---------------------------------------------------------------------------

/// Field `idx` of a record read as an integer no larger than `max`, if it
/// is there and is one.
pub open spec fn num_field(fields: Seq<Seq<char>>, idx: int, max: nat) -> Option<nat> {
    if 0 <= idx < fields.len() {
        parse_uint(fields[idx], max)
    } else {
        None
    }
}

/// The record kind of a trimmed line: its first word, upper-cased.
pub open spec fn record_kind(line: Seq<char>) -> Seq<char> {
    let f = words(line);
    if f.len() > 0 {
        upper(f[0])
    } else {
        Seq::empty()
    }
}

pub open spec fn is_tempo_kind(k: Seq<char>) -> bool {
    k == "@TEMPO"@ || k == "TEMPO"@
}

pub open spec fn is_track_kind(k: Seq<char>) -> bool {
    k == "@TRACK"@ || k == "TRACK"@
}

pub open spec fn is_note_kind(k: Seq<char>) -> bool {
    k == "@NOTE"@ || k == "NOTE"@
}

/// A line the absolute-tick format accepts: blank; a `#` line (a `#PPQ`
/// line must give a positive integer); `@TEMPO tick us` with `us` > 0;
/// `@TRACK id channel [name]` with a 32-bit id and channel 0-15; `@NOTE
/// track start dur key vel` with a 32-bit track, `dur` > 0, key 0-127 and
/// velocity 1-127 (record names in any case, with or without `@`, numbers
/// as unsigned integers). Anything else is refused.
pub open spec fn v3_line_ok(raw: Seq<char>) -> bool {
    let line = trim(raw);
    if line.len() == 0 {
        true
    } else if line[0] == '#' {
        let rest = trim(line.drop_first());
        let up = upper(rest);
        (starts_with(up, "PPQ"@) && !starts_with(up, "TITLE"@)) ==> (parse_uint(trim(rest.skip(3)), u32_max()) matches Some(
            p,
        ) && p > 0)
    } else {
        let f = words(line);
        let kind = record_kind(line);
        if is_tempo_kind(kind) {
            &&& num_field(f, 1, u64_max()) is Some
            &&& num_field(f, 2, u64_max()) matches Some(us) && us > 0
        } else if is_track_kind(kind) {
            &&& num_field(f, 1, u32_max()) is Some
            &&& num_field(f, 2, 255) matches Some(ch) && ch <= 15
        } else if is_note_kind(kind) {
            &&& num_field(f, 1, u64_max()) matches Some(t) && t <= u32_max()
            &&& num_field(f, 2, u64_max()) is Some
            &&& num_field(f, 3, u64_max()) matches Some(d) && d > 0
            &&& num_field(f, 4, u64_max()) matches Some(k) && k <= 127
            &&& num_field(f, 5, u64_max()) matches Some(v) && 1 <= v <= 127
        } else {
            false
        }
    }
}

/// The track a track line defines: id, channel and name.
pub open spec fn line_track(raw: Seq<char>) -> Seq<(u32, u8, Seq<char>)> {
    let line = trim(raw);
    let f = words(line);
    if v3_line_ok(raw) && line.len() > 0 && line[0] != '#' && is_track_kind(record_kind(line)) {
        let id = num_field(f, 1, u32_max())->Some_0;
        seq![(id as u32, num_field(f, 2, 255)->Some_0 as u8, track_name(f.skip(3), id as u32))]
    } else {
        Seq::empty()
    }
}

/// The note a note line gives.
pub open spec fn line_note(raw: Seq<char>) -> Seq<V3Note> {
    let line = trim(raw);
    let f = words(line);
    if v3_line_ok(raw) && line.len() > 0 && line[0] != '#' && is_note_kind(record_kind(line)) {
        seq![
            V3Note {
                track: num_field(f, 1, u64_max())->Some_0 as u32,
                start: num_field(f, 2, u64_max())->Some_0 as u64,
                dur: num_field(f, 3, u64_max())->Some_0 as u64,
                key: num_field(f, 4, u64_max())->Some_0 as u8,
                vel: num_field(f, 5, u64_max())->Some_0 as u8,
            },
        ]
    } else {
        Seq::empty()
    }
}

/// The tracks the track lines define, in file order.
pub open spec fn tracks_of_lines(lines: Seq<Seq<char>>) -> Seq<(u32, u8, Seq<char>)>
    decreases lines.len(),
{
    if lines.len() == 0 {
        Seq::empty()
    } else {
        tracks_of_lines(lines.drop_last()) + line_track(lines.last())
    }
}

/// The notes the note lines give, in file order.
pub open spec fn notes_of_lines(lines: Seq<Seq<char>>) -> Seq<V3Note>
    decreases lines.len(),
{
    if lines.len() == 0 {
        Seq::empty()
    } else {
        notes_of_lines(lines.drop_last()) + line_note(lines.last())
    }
}

/// A line fails exactly when it is not an accepted line, whatever came
/// before it; an accepted line adds its track or note, if any.
pub proof fn lemma_v3_line_law(raw: Seq<char>, i: int, acc: V3Acc)
    ensures
        v3_line(raw, i, acc) is Err <==> !v3_line_ok(raw),
        v3_line(raw, i, acc) matches Ok(b) ==> b.tracks == acc.tracks + line_track(raw) && b.notes == acc.notes
            + line_note(raw),
{
    let line = trim(raw);
    if line.len() == 0 {
        assert(acc.tracks + line_track(raw) =~= acc.tracks);
        assert(acc.notes + line_note(raw) =~= acc.notes);
    } else if line[0] == '#' {
        assert(acc.tracks + line_track(raw) =~= acc.tracks);
        assert(acc.notes + line_note(raw) =~= acc.notes);
    } else {
        let kind = record_kind(line);
        reveal_strlit("@TEMPO");
        reveal_strlit("TEMPO");
        reveal_strlit("@TRACK");
        reveal_strlit("TRACK");
        reveal_strlit("@NOTE");
        reveal_strlit("NOTE");
        if is_tempo_kind(kind) {
            assert("@TEMPO"@[2] != "@TRACK"@[2] && "@TEMPO"@.len() != "TRACK"@.len() && "@TEMPO"@.len() != "@NOTE"@.len()
                && "@TEMPO"@.len() != "NOTE"@.len());
            assert("TEMPO"@.len() != "@TRACK"@.len() && "TEMPO"@[1] != "TRACK"@[1] && "TEMPO"@[0] != "@NOTE"@[0]
                && "TEMPO"@.len() != "NOTE"@.len());
            assert(!is_track_kind(kind) && !is_note_kind(kind));
        }
        assert("@TRACK"@.len() != "@NOTE"@.len() && "@TRACK"@.len() != "NOTE"@.len() && "TRACK"@[0] != "@NOTE"@[0]
            && "TRACK"@.len() != "NOTE"@.len());
        assert(is_track_kind(kind) ==> !is_note_kind(kind));
        if is_tempo_kind(kind) || !(is_track_kind(kind) || is_note_kind(kind)) {
            assert(acc.tracks + line_track(raw) =~= acc.tracks);
            assert(acc.notes + line_note(raw) =~= acc.notes);
        } else if is_track_kind(kind) {
            assert(acc.notes + line_note(raw) =~= acc.notes);
        } else {
            assert(acc.tracks + line_track(raw) =~= acc.tracks);
        }
    }
}

/// The first `n` lines leave a state exactly when each of them is accepted,
/// and then it holds their tracks and notes in file order.
pub proof fn lemma_v3_state_law(lines: Seq<Seq<char>>, n: int)
    requires
        0 <= n <= lines.len(),
    ensures
        v3_state_at(lines, n) is Ok <==> forall|j: int| 0 <= j < n ==> #[trigger] v3_line_ok(lines[j]),
        v3_state_at(lines, n) matches Ok(a) ==> a.tracks == tracks_of_lines(lines.take(n)) && a.notes
            == notes_of_lines(lines.take(n)),
    decreases n,
{
    if n > 0 {
        lemma_v3_state_law(lines, n - 1);
        assert(lines.take(n).drop_last() =~= lines.take(n - 1));
        assert(lines.take(n).last() == lines[n - 1]);
        match v3_state_at(lines, n - 1) {
            Ok(a) => {
                lemma_v3_line_law(lines[n - 1], n - 1, a);
            },
            Err(_) => {
                let j = choose|j: int| 0 <= j < n - 1 && !#[trigger] v3_line_ok(lines[j]);
            },
        }
    } else {
        assert(lines.take(0) =~= Seq::<Seq<char>>::empty());
    }
}

/// The events each track gets from the notes, in note order.
pub open spec fn track_events(
    t: Seq<(u32, u8, Seq<char>)>,
    notes: Seq<V3Note>,
    k: int,
    ppq: u32,
    m: Seq<(u64, u64)>,
) -> Seq<ScheduledNote>
    decreases notes.len(),
{
    if notes.len() == 0 {
        Seq::empty()
    } else {
        track_events(t, notes.drop_last(), k, ppq, m) + if track_index(t, notes.last().track) == Some(k) {
            note_on_off(notes.last(), t[k].1, ppq, m)
        } else {
            Seq::empty()
        }
    }
}

/// Notes go to their tracks: placing them fails exactly when a note names
/// no track, and otherwise each track gets the events of its notes.
pub proof fn lemma_note_events_law(t: Seq<(u32, u8, Seq<char>)>, notes: Seq<V3Note>, ppq: u32, m: Seq<(u64, u64)>)
    ensures
        note_events(t, notes, ppq, m) is Err <==> exists|j: int|
            0 <= j < notes.len() && #[trigger] track_index(t, notes[j].track) is None,
        note_events(t, notes, ppq, m) matches Ok(evs) ==> evs.len() == t.len() && forall|k: int|
            0 <= k < t.len() ==> #[trigger] evs[k] == track_events(t, notes, k, ppq, m),
    decreases notes.len(),
{
    if notes.len() > 0 {
        let init = notes.drop_last();
        lemma_note_events_law(t, init, ppq, m);
        lemma_track_index_found(t, notes.last().track);
        assert forall|j: int| 0 <= j < init.len() implies #[trigger] init[j] == notes[j] by {}
        if note_events(t, init, ppq, m) is Err {
            let j = choose|j: int| 0 <= j < init.len() && #[trigger] track_index(t, init[j].track) is None;
            assert(track_index(t, notes[j].track) is None);
        } else if track_index(t, notes.last().track) is None {
            assert(track_index(t, notes[notes.len() - 1].track) is None);
        } else {
            assert forall|j: int| 0 <= j < notes.len() implies !(#[trigger] track_index(t, notes[j].track) is None) by {
                if j < init.len() {
                    assert(init[j] == notes[j]);
                }
            }
            let prev = note_events(t, init, ppq, m)->Ok_0;
            let kk = track_index(t, notes.last().track)->Some_0;
            assert forall|k: int| 0 <= k < t.len() implies #[trigger] note_events(t, notes, ppq, m)->Ok_0[k]
                == track_events(t, notes, k, ppq, m) by {
                if k != kk {
                    assert(track_events(t, notes, k, ppq, m) =~= track_events(t, init, k, ppq, m));
                }
            }
        }
    } else {
        assert forall|k: int| 0 <= k < t.len() implies #[trigger] note_events(t, notes, ppq, m)->Ok_0[k]
            == track_events(t, notes, k, ppq, m) by {}
    }
}

/// When the absolute-tick format fails, given line by line: some line is
/// not accepted (see `v3_line_ok`); or no line defines a track; or two
/// track lines give one id; or a note line names no defined track. It
/// fails on nothing else.
pub proof fn lemma_v3_fails_exactly(lines: Seq<Seq<char>>, force: Option<u32>)
    ensures
        v3_parse(lines, force) is Err <==> {
            ||| exists|j: int| 0 <= j < lines.len() && !#[trigger] v3_line_ok(lines[j])
            ||| tracks_of_lines(lines).len() == 0
            ||| first_dup(tracks_of_lines(lines)) is Some
            ||| exists|j: int|
                0 <= j < notes_of_lines(lines).len() && #[trigger] track_index(
                    tracks_of_lines(lines),
                    notes_of_lines(lines)[j].track,
                ) is None
        },
{
    lemma_v3_first_failure(lines);
    lemma_v3_state_law(lines, lines.len() as int);
    assert(lines.take(lines.len() as int) =~= lines);
    if let Ok(acc) = v3_scan(lines, 0, v3_init()) {
        let map = tempo_map(acc.tempos);
        let scaled = scale_map(map, target_us(force, map[0].1));
        lemma_note_events_law(acc.tracks, acc.notes, acc.ppq, scaled);
    }
}

/// A note gives a note-on at its start time and a note-off of the same key
/// and velocity on the same channel, at least 1 ms later (at the same time
/// only when the note starts at the last representable millisecond).
pub proof fn lemma_note_on_off_law(n: V3Note, ch: u8, ppq: u32, m: Seq<(u64, u64)>)
    ensures
        ({
            let p = note_on_off(n, ch, ppq, m);
            &&& p.len() == 2
            &&& p[0] == ScheduledNote {
                at_ms: clamp_ms(tick_to_ms(n.start, ppq, m)),
                key: n.key,
                vel: n.vel,
                on: true,
                channel: ch,
            }
            &&& !p[1].on && p[1].key == n.key && p[1].vel == n.vel && p[1].channel == ch
            &&& p[1].at_ms >= p[0].at_ms
            &&& p[0].at_ms < 0xffff_ffffu32 ==> p[1].at_ms >= p[0].at_ms + 1
        }),
{
}

/// A parsed absolute-tick score: one track per track line, in file order,
/// with the name and channel that line gives; each track's events are those
/// of the note lines naming it (each a note-on and its note-off, see
/// `lemma_note_on_off_law`), put in playing order; the tempo is the target
/// tempo in whole milliseconds, at least 1.
pub proof fn lemma_v3_structure(lines: Seq<Seq<char>>, force: Option<u32>)
    ensures
        v3_parse(lines, force) matches Ok(s) ==> ({
            let t = tracks_of_lines(lines);
            let acc = v3_scan(lines, 0, v3_init())->Ok_0;
            let map = tempo_map(acc.tempos);
            let target = target_us(force, map[0].1);
            let scaled = scale_map(map, target);
            &&& s.tracks.len() == t.len()
            &&& forall|k: int|
                0 <= k < t.len() ==> {
                    &&& (#[trigger] s.tracks[k]).name == t[k].2
                    &&& s.tracks[k].channel == t[k].1
                    &&& s.tracks[k].events == sort_events(track_events(t, notes_of_lines(lines), k, acc.ppq, scaled))
                }
            &&& s.tempo_ms == (if target / 1000 < 1 {
                1u32
            } else if target / 1000 > u32_max() {
                0xffff_ffffu32
            } else {
                (target / 1000) as u32
            })
        }),
{
    lemma_v3_first_failure(lines);
    lemma_v3_state_law(lines, lines.len() as int);
    assert(lines.take(lines.len() as int) =~= lines);
    if let Ok(acc) = v3_scan(lines, 0, v3_init()) {
        let map = tempo_map(acc.tempos);
        let scaled = scale_map(map, target_us(force, map[0].1));
        lemma_note_events_law(acc.tracks, acc.notes, acc.ppq, scaled);
    }
}

} // verus!
