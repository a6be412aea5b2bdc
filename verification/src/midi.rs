//! Reading Standard MIDI Files: the tempo map and its conversions between
//! ticks and milliseconds.
use vstd::prelude::*;

verus! {

// ---------------------------------------------------------------------------
// Bytes
// ---------------------------------------------------------------------------

pub open spec fn be16(d: Seq<u8>, p: int) -> nat {
    (d[p] * 256 + d[p + 1]) as nat
}

pub open spec fn be24(d: Seq<u8>, p: int) -> nat {
    ((d[p] * 256 + d[p + 1]) * 256 + d[p + 2]) as nat
}

pub open spec fn be32(d: Seq<u8>, p: int) -> nat {
    (((d[p] * 256 + d[p + 1]) * 256 + d[p + 2]) * 256 + d[p + 3]) as nat
}

/// The four bytes at `p` spell `tag`.
pub open spec fn has_tag(d: Seq<u8>, p: int, tag: Seq<u8>) -> bool {
    0 <= p && p + 4 <= d.len() && d.subrange(p, p + 4) == tag
}

pub open spec fn mthd() -> Seq<u8> {
    seq![0x4du8, 0x54u8, 0x68u8, 0x64u8]
}

pub open spec fn mtrk() -> Seq<u8> {
    seq![0x4du8, 0x54u8, 0x72u8, 0x6bu8]
}

pub open spec fn sat64(x: int) -> u64 {
    if x > u64::MAX {
        u64::MAX
    } else {
        x as u64
    }
}

pub open spec fn sat128(x: int) -> nat {
    if x > u128::MAX {
        u128::MAX as nat
    } else {
        x as nat
    }
}

/// A variable-length quantity: at most four bytes, each before `bound`;
/// gives the value and the position after it.
pub open spec fn vlq(d: Seq<u8>, pos: int, bound: int, n: nat, acc: nat) -> Option<(nat, int)>
    decreases 4 - n,
{
    if n >= 4 || pos < 0 || pos >= bound || pos >= d.len() {
        None
    } else {
        let b = d[pos];
        let v = (acc * 128 + b % 128) as nat;
        if b < 128 {
            Some((v, pos + 1))
        } else {
            vlq(d, pos + 1, bound, n + 1, v)
        }
    }
}

pub proof fn lemma_vlq(d: Seq<u8>, pos: int, bound: int, n: nat, acc: nat)
    requires
        n <= 4,
        acc < pow128(n),
    ensures
        vlq(d, pos, bound, n, acc) matches Some((v, p)) ==> pos < p <= bound && p <= d.len() && v < 0x1000_0000,
    decreases 4 - n,
{
    if n < 4 && 0 <= pos < bound && pos < d.len() {
        let b = d[pos];
        let v = (acc * 128 + b % 128) as nat;
        assert(v < pow128(n + 1)) by (nonlinear_arith)
            requires
                acc < pow128(n),
                v == acc * 128 + b % 128,
                pow128(n + 1) == pow128(n) * 128,
        ;
        if b >= 128 {
            lemma_vlq(d, pos + 1, bound, n + 1, v);
        } else {
            assert(pow128(n + 1) <= 0x1000_0000);
        }
    }
}

pub open spec fn pow128(n: nat) -> nat {
    if n == 0 {
        1
    } else if n == 1 {
        128
    } else if n == 2 {
        16384
    } else if n == 3 {
        2097152
    } else {
        268435456
    }
}

pub fn vlq_exec(d: &[u8], pos: usize, bound: usize) -> (r: Option<(u64, usize)>)
    ensures
        r matches Some((v, p)) ==> vlq(d@, pos as int, bound as int, 0, 0) == Some((v as nat, p as int)),
        r is None ==> vlq(d@, pos as int, bound as int, 0, 0) is None,
        r matches Some((v, p)) ==> pos < p <= bound && p <= d@.len() && v < 0x1000_0000,
{
    proof {
        lemma_vlq(d@, pos as int, bound as int, 0, 0);
    }
    let mut p = pos;
    let mut v: u64 = 0;
    let mut n: usize = 0;
    while n < 4
        invariant
            0 <= n <= 4,
            p == pos + n,
            v < pow128(n as nat),
            vlq(d@, pos as int, bound as int, 0, 0) == vlq(d@, p as int, bound as int, n as nat, v as nat),
        decreases 4 - n,
    {
        if p >= bound || p >= d.len() {
            return None;
        }
        let b = d[p];
        assert(v * 128 + b % 128 < pow128((n + 1) as nat)) by (nonlinear_arith)
            requires
                v < pow128(n as nat),
                pow128((n + 1) as nat) == pow128(n as nat) * 128,
        ;
        v = v * 128 + (b % 128) as u64;
        p = p + 1;
        if b < 128 {
            return Some((v, p));
        }
        n = n + 1;
    }
    None
}

// ---------------------------------------------------------------------------
// Ordering records by tick
// ---------------------------------------------------------------------------

pub open spec fn insert_by_tick(s: Seq<(u64, u32)>, x: (u64, u32)) -> Seq<(u64, u32)>
    decreases s.len(),
{
    if s.len() == 0 {
        seq![x]
    } else if s.last().0 <= x.0 {
        s.push(x)
    } else {
        insert_by_tick(s.drop_last(), x).push(s.last())
    }
}

/// Stable sort by tick.
pub open spec fn sort_by_tick(s: Seq<(u64, u32)>) -> Seq<(u64, u32)>
    decreases s.len(),
{
    if s.len() == 0 {
        Seq::empty()
    } else {
        insert_by_tick(sort_by_tick(s.drop_last()), s.last())
    }
}

/// Ticks never decrease along `t`.
pub open spec fn tick_sorted(t: Seq<(u64, u32)>) -> bool {
    forall|a: int, b: int| 0 <= a <= b < t.len() ==> (#[trigger] t[a]).0 <= (#[trigger] t[b]).0
}

proof fn lemma_insert_by_tick_sorted(s: Seq<(u64, u32)>, x: (u64, u32))
    requires
        tick_sorted(s),
    ensures
        tick_sorted(insert_by_tick(s, x)),
        insert_by_tick(s, x).len() == s.len() + 1,
        forall|k: int|
            0 <= k < insert_by_tick(s, x).len() ==> (#[trigger] insert_by_tick(s, x)[k]) == x
                || s.contains(insert_by_tick(s, x)[k]),
    decreases s.len(),
{
    if s.len() == 0 {
    } else if s.last().0 <= x.0 {
        let r = s.push(x);
        assert forall|k: int| 0 <= k < r.len() implies (#[trigger] r[k]) == x || s.contains(r[k]) by {
            if k < s.len() {
                assert(s[k] == r[k]);
            }
        }
    } else {
        let s0 = s.drop_last();
        lemma_insert_by_tick_sorted(s0, x);
        let q = insert_by_tick(s0, x);
        let r = q.push(s.last());
        assert forall|k: int| 0 <= k < q.len() implies (#[trigger] q[k]).0 <= s.last().0 by {
            if q[k] != x {
                let m = choose|m: int| 0 <= m < s0.len() && s0[m] == q[k];
                assert(s[m] == s0[m]);
            }
        }
        assert forall|a: int, b: int| 0 <= a <= b < r.len() implies (#[trigger] r[a]).0 <= (#[trigger] r[b]).0 by {
            if b == r.len() - 1 {
                if a < q.len() {
                    assert(r[a] == q[a]);
                }
            } else {
                assert(r[a] == q[a]);
                assert(r[b] == q[b]);
            }
        }
        assert forall|k: int| 0 <= k < r.len() implies (#[trigger] r[k]) == x || s.contains(r[k]) by {
            if k == r.len() - 1 {
                assert(s[s.len() - 1] == r[k]);
            } else {
                assert(r[k] == q[k]);
                if q[k] != x {
                    let m = choose|m: int| 0 <= m < s0.len() && s0[m] == q[k];
                    assert(s[m] == s0[m]);
                }
            }
        }
    }
}

/// `sort_by_tick` puts the records in order of tick.
pub proof fn lemma_sort_by_tick_sorted(s: Seq<(u64, u32)>)
    ensures
        tick_sorted(sort_by_tick(s)),
    decreases s.len(),
{
    if s.len() > 0 {
        lemma_sort_by_tick_sorted(s.drop_last());
        lemma_insert_by_tick_sorted(sort_by_tick(s.drop_last()), s.last());
    }
}

proof fn lemma_insert_by_tick_split(s: Seq<(u64, u32)>, x: (u64, u32), j: int)
    requires
        0 <= j <= s.len(),
        forall|k: int| j <= k < s.len() ==> (#[trigger] s[k]).0 > x.0,
    ensures
        insert_by_tick(s, x) == insert_by_tick(s.take(j), x) + s.skip(j),
    decreases s.len() - j,
{
    if j == s.len() {
        assert(s.take(j) =~= s);
        assert(insert_by_tick(s, x) + s.skip(j) =~= insert_by_tick(s, x));
    } else {
        lemma_insert_by_tick_split(s.drop_last(), x, j);
        assert(s.drop_last().take(j) =~= s.take(j));
        assert(s.drop_last().skip(j).push(s.last()) =~= s.skip(j));
        assert((insert_by_tick(s.take(j), x) + s.drop_last().skip(j)).push(s.last()) =~= insert_by_tick(
            s.take(j),
            x,
        ) + s.skip(j));
    }
}

fn sort_by_tick_exec(v: &Vec<(u64, u32)>) -> (out: Vec<(u64, u32)>)
    ensures
        out@ == sort_by_tick(v@),
{
    let ghost s0 = v@;
    let n = v.len();
    let mut out: Vec<(u64, u32)> = Vec::new();
    let mut i: usize = 0;
    while i < n
        invariant
            0 <= i <= n,
            n == s0.len(),
            v@ == s0,
            out@ == sort_by_tick(s0.take(i as int)),
        decreases n - i,
    {
        let x = v[i];
        assert(s0.take(i + 1).drop_last() =~= s0.take(i as int));
        let ghost sorted = out@;
        out.push(x);
        let mut j: usize = out.len() - 1;
        while j > 0 && out[j - 1].0 > x.0
            invariant
                0 <= j < out@.len(),
                out@.len() == sorted.len() + 1,
                out@ == sorted.take(j as int).push(x) + sorted.skip(j as int),
                forall|k: int| j <= k < sorted.len() ==> (#[trigger] sorted[k]).0 > x.0,
            decreases j,
        {
            let prev = out[j - 1];
            out.set(j, prev);
            out.set(j - 1, x);
            assert(sorted[j - 1] == prev);
            j = j - 1;
            assert(out@ =~= sorted.take(j as int).push(x) + sorted.skip(j as int));
        }
        proof {
            lemma_insert_by_tick_split(sorted, x, j as int);
            let t = sorted.take(j as int);
            if j > 0 {
                assert(t.last() == sorted[j - 1]);
            } else {
                assert(t =~= Seq::<(u64, u32)>::empty());
            }
            assert(insert_by_tick(t, x) == t.push(x));
        }
        i = i + 1;
    }
    assert(s0.take(n as int) =~= s0);
    out
}

// ---------------------------------------------------------------------------
// Tempo map of a file
// ---------------------------------------------------------------------------

/// One event of a track after its delta time, read for its tempo: gives the
/// position after it, the running status, and the tempo it sets, if any.
/// `None` for a malformed event.
pub open spec fn tm_event(d: Seq<u8>, pos: int, end: int, running: u8) -> Option<(int, u8, Option<u32>)> {
    if pos < 0 || pos >= d.len() {
        None
    } else {
        let first = d[pos];
        if first < 0x80 && running == 0 {
            None
        } else {
            let consumed = first < 0x80;
            let status = if consumed {
                running
            } else {
                first
            };
            let running2 = if !consumed && first < 0xf0 {
                first
            } else {
                running
            };
            let p = pos + 1;
            if status == 0xff {
                if p >= d.len() {
                    None
                } else {
                    let kind = d[p];
                    match vlq(d, p + 1, end, 0, 0) {
                        None => None,
                        Some((len, q)) => if q + len > usize::MAX || q + len > end {
                            None
                        } else {
                            let tempo = if kind == 0x51 && len >= 3 {
                                let v = be24(d, q);
                                Some(
                                    if v == 0 {
                                        1u32
                                    } else {
                                        v as u32
                                    },
                                )
                            } else {
                                None
                            };
                            Some((q + len, running2, tempo))
                        },
                    }
                }
            } else if status == 0xf0 || status == 0xf7 {
                match vlq(d, p, end, 0, 0) {
                    None => None,
                    Some((len, q)) => if q + len > usize::MAX || q + len > end {
                        None
                    } else {
                        Some((q + len, running2, None))
                    },
                }
            } else {
                let needed: int = if (0x80 <= status <= 0xbf) || (0xe0 <= status <= 0xef) || status == 0xf2 {
                    2
                } else if (0xc0 <= status <= 0xdf) || status == 0xf1 || status == 0xf3 {
                    1
                } else if status == 0xf6 || (0xf8 <= status <= 0xfe) {
                    0
                } else {
                    -1
                };
                if needed < 0 {
                    None
                } else {
                    let q = p + needed - if consumed {
                        1int
                    } else {
                        0int
                    };
                    if q > end {
                        None
                    } else {
                        Some((q, running2, None))
                    }
                }
            }
        }
    }
}

/// Reads the events of a track from `pos` to `end`, adding each tempo it
/// sets (with its tick) to `tempos`.
pub open spec fn tm_track(
    d: Seq<u8>,
    pos: int,
    end: int,
    tick: u64,
    running: u8,
    tempos: Seq<(u64, u32)>,
) -> Option<Seq<(u64, u32)>>
    decreases end - pos,
{
    if pos >= end {
        Some(tempos)
    } else {
        match vlq(d, pos, end, 0, 0) {
            None => None,
            Some((dt, p1)) => {
                let t = sat64(tick + dt);
                match tm_event(d, p1, end, running) {
                    None => None,
                    Some((p2, r2, tempo)) => if p2 <= pos {
                        None
                    } else {
                        let ts = match tempo {
                            Some(v) => tempos.push((t, v)),
                            None => tempos,
                        };
                        tm_track(d, p2, end, t, r2, ts)
                    },
                }
            },
        }
    }
}

/// Reads the `MTrk` chunks from `pos` on.
pub open spec fn tm_tracks(d: Seq<u8>, pos: int, tempos: Seq<(u64, u32)>) -> Option<Seq<(u64, u32)>>
    decreases d.len() - pos,
{
    if pos < 0 || pos + 8 > d.len() || !has_tag(d, pos, mtrk()) {
        Some(tempos)
    } else {
        let end = pos + 8 + be32(d, pos + 4);
        if end > d.len() {
            None
        } else {
            match tm_track(d, pos + 8, end, 0, 0, tempos) {
                None => None,
                Some(t) => tm_tracks(d, end, t),
            }
        }
    }
}

/// The tempo map of a file: its division (ticks per quarter) and its tempo
/// changes `(tick, microseconds per quarter)` in tick order, starting with
/// the default 500000 at tick 0. `None` for a file that is not a Standard
/// MIDI File, uses SMPTE time, or has a malformed track.
pub open spec fn tempo_map_of(d: Seq<u8>) -> Option<(u16, Seq<(u64, u32)>)> {
    if d.len() < 14 || !has_tag(d, 0, mthd()) {
        None
    } else {
        let header_len = be32(d, 4);
        let division = be16(d, 12);
        if header_len < 6 || 8 + header_len > d.len() {
            None
        } else if division == 0 || division >= 0x8000 {
            None
        } else {
            match tm_tracks(d, (8 + header_len) as int, seq![(0u64, 500000u32)]) {
                None => None,
                Some(t) => Some((division as u16, sort_by_tick(t))),
            }
        }
    }
}


pub open spec fn running_ok(r: u8) -> bool {
    r == 0 || (0x80 <= r && r < 0xf0)
}

fn be24_exec(d: &[u8], p: usize) -> (v: u32)
    requires
        p + 3 <= d@.len(),
    ensures
        v as nat == be24(d@, p as int),
{
    ((d[p] as u32) * 256 + (d[p + 1] as u32)) * 256 + (d[p + 2] as u32)
}

fn be32_exec(d: &[u8], p: usize) -> (v: u64)
    requires
        p + 4 <= d@.len(),
    ensures
        v as nat == be32(d@, p as int),
        v < 0x1_0000_0000,
{
    let v = (((d[p] as u64) * 256 + (d[p + 1] as u64)) * 256 + (d[p + 2] as u64)) * 256 + (d[p + 3] as u64);
    v
}

fn has_tag_exec(d: &[u8], p: usize, tag: [u8; 4]) -> (b: bool)
    requires
        p + 4 <= d@.len(),
    ensures
        b == (d@.subrange(p as int, p + 4) == seq![tag[0], tag[1], tag[2], tag[3]]),
{
    let b = d[p] == tag[0] && d[p + 1] == tag[1] && d[p + 2] == tag[2] && d[p + 3] == tag[3];
    proof {
        let t = seq![tag[0], tag[1], tag[2], tag[3]];
        if b {
            assert(d@.subrange(p as int, p + 4) =~= t);
        } else {
            if d@.subrange(p as int, p + 4) == t {
                assert(d@.subrange(p as int, p + 4)[0] == t[0]);
                assert(d@.subrange(p as int, p + 4)[1] == t[1]);
                assert(d@.subrange(p as int, p + 4)[2] == t[2]);
                assert(d@.subrange(p as int, p + 4)[3] == t[3]);
            }
        }
    }
    b
}

fn tm_event_exec(d: &[u8], pos: usize, end: usize, running: u8) -> (r: Option<(usize, u8, Option<u32>)>)
    requires
        end <= d@.len(),
        d@.len() <= isize::MAX,
        running_ok(running),
    ensures
        r matches Some((q, r2, t)) ==> tm_event(d@, pos as int, end as int, running) == Some((q as int, r2, t)),
        r is None ==> tm_event(d@, pos as int, end as int, running) is None,
        r matches Some((q, r2, t)) ==> pos < q <= end && running_ok(r2),
{
    if pos >= d.len() {
        return None;
    }
    let first = d[pos];
    if first < 0x80 && running == 0 {
        return None;
    }
    let consumed = first < 0x80;
    let status = if consumed { running } else { first };
    let running2 = if !consumed && first < 0xf0 { first } else { running };
    let p = pos + 1;
    if status == 0xff {
        if p >= d.len() {
            return None;
        }
        let kind = d[p];
        match vlq_exec(d, p + 1, end) {
            None => None,
            Some((len, q)) => {
                let ghost lv = len as nat;
                assert(vlq(d@, pos + 2, end as int, 0, 0) == Some((lv, q as int)));
                let len = len as usize;
                assert(len as nat == lv);
                match q.checked_add(len) {
                    None => None,
                    Some(e) => {
                        if e > end {
                            None
                        } else {
                            let tempo = if kind == 0x51 && len >= 3 {
                                let v = be24_exec(d, q);
                                Some(if v == 0 { 1u32 } else { v })
                            } else {
                                None
                            };
                            Some((e, running2, tempo))
                        }
                    },
                }
            },
        }
    } else if status == 0xf0 || status == 0xf7 {
        match vlq_exec(d, p, end) {
            None => None,
            Some((len, q)) => {
                let len = len as usize;
                match q.checked_add(len) {
                    None => None,
                    Some(e) => {
                        if e > end {
                            None
                        } else {
                            Some((e, running2, None))
                        }
                    },
                }
            },
        }
    } else {
        let needed: usize = if (0x80 <= status && status <= 0xbf) || (0xe0 <= status && status <= 0xef) || status == 0xf2 {
            2
        } else if (0xc0 <= status && status <= 0xdf) || status == 0xf1 || status == 0xf3 {
            1
        } else if status == 0xf6 || (0xf8 <= status && status <= 0xfe) {
            0
        } else {
            return None;
        };
        let q = if consumed { p + needed - 1 } else { p + needed };
        if q > end {
            None
        } else {
            assert(tm_event(d@, pos as int, end as int, running) == Some((q as int, running2, None::<u32>)));
            Some((q, running2, None))
        }
    }
}

fn tm_track_exec(d: &[u8], pos0: usize, end: usize, tempos: &mut Vec<(u64, u32)>) -> (ok: bool)
    requires
        pos0 <= end <= d@.len(),
        d@.len() <= isize::MAX,
    ensures
        match tm_track(d@, pos0 as int, end as int, 0, 0, old(tempos)@) {
            Some(t) => ok && final(tempos)@ == t,
            None => !ok,
        },
{
    let ghost t0 = tempos@;
    let mut pos = pos0;
    let mut tick: u64 = 0;
    let mut running: u8 = 0;
    while pos < end
        invariant
            pos <= end <= d@.len(),
            d@.len() <= isize::MAX,
            t0 == old(tempos)@,
            running_ok(running),
            tm_track(d@, pos0 as int, end as int, 0, 0, t0) == tm_track(d@, pos as int, end as int, tick, running, tempos@),
        decreases end - pos,
    {
        match vlq_exec(d, pos, end) {
            None => {
                return false;
            },
            Some((dt, p1)) => {
                let t = tick.saturating_add(dt);
                match tm_event_exec(d, p1, end, running) {
                    None => {
                        return false;
                    },
                    Some((p2, r2, tempo)) => {
                        match tempo {
                            Some(v) => {
                                tempos.push((t, v));
                            },
                            None => {},
                        }
                        pos = p2;
                        tick = t;
                        running = r2;
                    },
                }
            },
        }
    }
    true
}

/// Reads the tempo map of a Standard MIDI File; see `tempo_map_of`.
pub fn read_tempo_map(data: &[u8]) -> (r: Option<MidiTimeMap>)
    requires
        data@.len() <= isize::MAX,
    ensures
        match tempo_map_of(data@) {
            Some((division, tempos)) => r matches Some(m) && m.division == division && m.tempos@ == tempos,
            None => r is None,
        },
        r matches Some(m) ==> tick_sorted(m.tempos@),
{
    if data.len() < 14 || !has_tag_exec(data, 0, [0x4d, 0x54, 0x68, 0x64]) {
        proof {
            if data@.len() >= 14 {
                assert(seq![0x4du8, 0x54u8, 0x68u8, 0x64u8] =~= mthd());
            }
        }
        return None;
    }
    assert(seq![0x4du8, 0x54u8, 0x68u8, 0x64u8] =~= mthd());
    let header_len = be32_exec(data, 4);
    let division = (data[12] as u16) * 256 + (data[13] as u16);
    if header_len < 6 || 8 + header_len > data.len() as u64 {
        return None;
    }
    if division == 0 || division >= 0x8000 {
        return None;
    }
    let mut tempos: Vec<(u64, u32)> = Vec::new();
    tempos.push((0, 500000));
    let mut pos: usize = 8 + header_len as usize;
    let ghost d = data@;
    assert(tempo_map_of(d) == match tm_tracks(d, 8 + header_len, seq![(0u64, 500000u32)]) {
        None => None,
        Some(t) => Some((division, sort_by_tick(t))),
    });
    assert(tempos@ =~= seq![(0u64, 500000u32)]);
    while pos + 8 <= data.len() && has_tag_exec(data, pos, [0x4d, 0x54, 0x72, 0x6b])
        invariant
            pos <= data@.len(),
            d == data@,
            tempo_map_of(d) == match tm_tracks(d, 8 + header_len, seq![(0u64, 500000u32)]) {
                None => None,
                Some(t) => Some((division, sort_by_tick(t))),
            },
            data@.len() <= isize::MAX,
            tm_tracks(d, 8 + header_len, seq![(0u64, 500000u32)]) == tm_tracks(d, pos as int, tempos@),
        decreases data@.len() - pos,
    {
        assert(seq![0x4du8, 0x54u8, 0x72u8, 0x6bu8] =~= mtrk());
        let length = be32_exec(data, pos + 4);
        let start = pos + 8;
        if length > (data.len() - start) as u64 {
            return None;
        }
        let end = start + length as usize;
        if !tm_track_exec(data, start, end, &mut tempos) {
            return None;
        }
        pos = end;
    }
    proof {
        if pos + 8 <= data@.len() {
            assert(seq![0x4du8, 0x54u8, 0x72u8, 0x6bu8] =~= mtrk());
        }
    }
    let sorted = sort_by_tick_exec(&tempos);
    proof {
        lemma_sort_by_tick_sorted(tempos@);
    }
    Some(MidiTimeMap { division, tempos: sorted })
}

// ---------------------------------------------------------------------------
// Conversions
// ---------------------------------------------------------------------------

/// The tempo map of a MIDI file: ticks per quarter and tempo changes
/// `(tick, microseconds per quarter)`.
#[derive(Clone)]
pub struct MidiTimeMap {
    pub division: u16,
    pub tempos: Vec<(u64, u32)>,
}

/// `a - b`, or 0 when `b` is larger.
pub open spec fn sub0(a: int, b: int) -> nat {
    if a > b {
        (a - b) as nat
    } else {
        0
    }
}

pub open spec fn max1(t: u32) -> u32 {
    if t == 0 {
        1
    } else {
        t
    }
}

/// The division is metrical: positive and below the SMPTE bit.
pub open spec fn metrical(division: u16) -> bool {
    division != 0 && division < 0x8000
}

/// Elapsed microseconds before the tempo records from `i` on that lie at
/// or before `target`; gives (elapsed, tick of the last record, its tempo).
pub open spec fn tick_scan(
    t: Seq<(u64, u32)>,
    i: int,
    division: u16,
    target: u64,
    elapsed: nat,
    prev: u64,
    tempo: u32,
) -> (nat, u64, u32)
    decreases t.len() - i,
{
    if i < 0 || i >= t.len() || t[i].0 > target {
        (elapsed, prev, tempo)
    } else {
        let e = sat128(elapsed + (sub0(t[i].0 as int, prev as int) * tempo) / (division as int));
        tick_scan(t, i + 1, division, target, e, t[i].0, max1(t[i].1))
    }
}

/// Milliseconds from the start to tick `target` (saturating at `u32::MAX`);
/// a non-metrical division counts 500 ms per 480 ticks.
pub open spec fn tick_ms(division: u16, t: Seq<(u64, u32)>, target: u64) -> u64 {
    if !metrical(division) {
        (sat64(target * 500) / 480) as u64
    } else {
        let (e0, prev, tempo) = tick_scan(t, 0, division, target, 0, 0, 500000);
        let e = sat128(e0 + (sub0(target as int, prev as int) * tempo) / (division as int));
        let ms = e / 1000;
        if ms > u32::MAX {
            u32::MAX as u64
        } else {
            ms as u64
        }
    }
}

pub open spec fn ceil_div(a: nat, b: nat) -> nat {
    ((a + b - 1) / (b as int)) as nat
}

/// Tick reached `target_us` microseconds after tick `prev` at `tempo`.
pub open spec fn ms_finish(division: u16, elapsed: nat, prev: u64, tempo: u32, target_us: nat) -> u64 {
    let ticks = ceil_div((sub0(target_us as int, elapsed as int) * division) as nat, tempo as nat);
    sat64(prev + if ticks > u64::MAX { u64::MAX as nat } else { ticks })
}

/// The first tick at or after `target_us`, walking the tempo records from
/// `i` on.
pub open spec fn ms_scan(
    t: Seq<(u64, u32)>,
    i: int,
    division: u16,
    target_us: nat,
    elapsed: nat,
    prev: u64,
    tempo: u32,
) -> u64
    decreases t.len() - i,
{
    if i < 0 || i >= t.len() {
        ms_finish(division, elapsed, prev, tempo, target_us)
    } else if t[i].0 <= prev {
        ms_scan(t, i + 1, division, target_us, elapsed, prev, max1(t[i].1))
    } else {
        let seg = ((t[i].0 - prev) * tempo) / (division as int);
        if target_us <= sat128(elapsed + seg) {
            ms_finish(division, elapsed, prev, tempo, target_us)
        } else {
            ms_scan(t, i + 1, division, target_us, sat128(elapsed + seg), t[i].0, max1(t[i].1))
        }
    }
}

/// The first tick whose time is not before `target_ms`; a non-metrical
/// division counts 480 ticks per 500 ms.
pub open spec fn ms_tick(division: u16, t: Seq<(u64, u32)>, target_ms: u32) -> u64 {
    if !metrical(division) {
        ceil_div((target_ms * 480) as nat, 500) as u64
    } else {
        ms_scan(t, 0, division, (target_ms * 1000) as nat, 0, 0, 500000)
    }
}

impl MidiTimeMap {
    /// Milliseconds from the start to tick `target`; see `tick_ms`.
    pub fn tick_to_ms(&self, target: u64) -> (r: u64)
        ensures
            r == tick_ms(self.division, self.tempos@, target),
    {
        if self.division == 0 || self.division >= 0x8000 {
            let m: u64 = if target > u64::MAX / 500 { u64::MAX } else { target * 500 };
            return m / 480;
        }
        let div = self.division as u128;
        let mut elapsed: u128 = 0;
        let mut prev: u64 = 0;
        let mut tempo: u32 = 500000;
        let mut i: usize = 0;
        while i < self.tempos.len() && self.tempos[i].0 <= target
            invariant
                0 <= i <= self.tempos@.len(),
                div == self.division as u128,
                metrical(self.division),
                tempo > 0,
                tick_scan(self.tempos@, 0, self.division, target, 0, 0, 500000) == tick_scan(
                    self.tempos@,
                    i as int,
                    self.division,
                    target,
                    elapsed as nat,
                    prev,
                    tempo,
                ),
            decreases self.tempos@.len() - i,
        {
            let (tick, next) = self.tempos[i];
            let gap: u128 = if tick > prev { (tick - prev) as u128 } else { 0 };
            assert(gap * tempo <= 0xffff_ffff_ffff_ffff * 0xffff_ffff) by (nonlinear_arith)
                requires
                    gap <= 0xffff_ffff_ffff_ffff,
                    tempo <= 0xffff_ffff,
            ;
            let seg = gap * (tempo as u128) / div;
            elapsed = elapsed.saturating_add(seg);
            prev = tick;
            tempo = if next == 0 { 1 } else { next };
            i = i + 1;
        }
        let gap: u128 = if target > prev { (target - prev) as u128 } else { 0 };
        assert(gap * tempo <= 0xffff_ffff_ffff_ffff * 0xffff_ffff) by (nonlinear_arith)
            requires
                gap <= 0xffff_ffff_ffff_ffff,
                tempo <= 0xffff_ffff,
        ;
        let e = elapsed.saturating_add(gap * (tempo as u128) / div);
        let ms = e / 1000;
        if ms > 0xffff_ffff {
            0xffff_ffff
        } else {
            ms as u64
        }
    }

    /// The first tick whose time is not before `target_ms`; see `ms_tick`.
    pub fn ms_to_tick(&self, target_ms: u32) -> (r: u64)
        ensures
            r == ms_tick(self.division, self.tempos@, target_ms),
    {
        if self.division == 0 || self.division >= 0x8000 {
            return ((target_ms as u64) * 480 + 499) / 500;
        }
        let div = self.division as u128;
        let target_us: u128 = (target_ms as u128) * 1000;
        let mut elapsed: u128 = 0;
        let mut prev: u64 = 0;
        let mut tempo: u32 = 500000;
        let mut i: usize = 0;
        while i < self.tempos.len()
            invariant
                0 <= i <= self.tempos@.len(),
                div == self.division as u128,
                metrical(self.division),
                target_us == target_ms * 1000nat,
                tempo > 0,
                ms_tick(self.division, self.tempos@, target_ms) == ms_scan(
                    self.tempos@,
                    i as int,
                    self.division,
                    target_us as nat,
                    elapsed as nat,
                    prev,
                    tempo,
                ),
            decreases self.tempos@.len() - i,
        {
            let (tick, next) = self.tempos[i];
            if tick <= prev {
                tempo = if next == 0 { 1 } else { next };
            } else {
                let gap: u128 = (tick - prev) as u128;
                assert(gap * tempo <= 0xffff_ffff_ffff_ffff * 0xffff_ffff) by (nonlinear_arith)
                    requires
                        gap <= 0xffff_ffff_ffff_ffff,
                        tempo <= 0xffff_ffff,
                ;
                let seg = gap * (tempo as u128) / div;
                let reach = elapsed.saturating_add(seg);
                if target_us <= reach {
                    return Self::finish(div, elapsed, prev, tempo, target_us);
                }
                elapsed = reach;
                prev = tick;
                tempo = if next == 0 { 1 } else { next };
            }
            i = i + 1;
        }
        Self::finish(div, elapsed, prev, tempo, target_us)
    }

    /// The tick to jump to from `current_tick` by `delta_ms` milliseconds;
    /// see `seek_target`.
    pub fn relative_seek_ticks(&self, current_tick: i32, total_tick: i32, delta_ms: i64) -> (r: i32)
        ensures
            r == seek_target(self.division, self.tempos@, current_tick, total_tick, delta_ms),
    {
        let tot: i32 = if total_tick < 0 { 0 } else { total_tick };
        let cur: i32 = if current_tick < 0 { 0 } else if current_tick > tot { tot } else { current_tick };
        proof {
            lemma_tick_ms_small(self.division, self.tempos@, cur as u64);
            lemma_tick_ms_small(self.division, self.tempos@, tot as u64);
        }
        let cur_ms = self.tick_to_ms(cur as u64);
        let tot_ms = self.tick_to_ms(tot as u64);
        let moved: i128 = cur_ms as i128 + delta_ms as i128;
        let target: i128 = if moved < 0 { 0 } else if moved > tot_ms as i128 { tot_ms as i128 } else { moved };
        let tick = self.ms_to_tick(target as u32);
        if tick > tot as u64 {
            tot
        } else {
            tick as i32
        }
    }

    fn finish(div: u128, elapsed: u128, prev: u64, tempo: u32, target_us: u128) -> (r: u64)
        requires
            0 < div < 0x8000,
            tempo > 0,
            target_us <= 0xffff_ffff * 1000,
        ensures
            r == ms_finish(div as u16, elapsed as nat, prev, tempo, target_us as nat),
    {
        let remaining: u128 = if target_us > elapsed { target_us - elapsed } else { 0 };
        assert(remaining * div <= 0xffff_ffff * 1000 * 0x8000) by (nonlinear_arith)
            requires
                remaining <= 0xffff_ffff * 1000,
                div <= 0x8000,
        ;
        let ticks = (remaining * div + (tempo as u128) - 1) / (tempo as u128);
        let t64: u64 = if ticks > 0xffff_ffff_ffff_ffff { 0xffff_ffff_ffff_ffff } else { ticks as u64 };
        prev.saturating_add(t64)
    }
}

/// `x` kept within `[lo, hi]`.
pub open spec fn clamp_int(x: int, lo: int, hi: int) -> int {
    if x < lo {
        lo
    } else if x > hi {
        hi
    } else {
        x
    }
}

/// The tick to jump to from `current` by `delta_ms` milliseconds of real
/// time, on a piece of `total` ticks: the time is moved and kept within the
/// piece, and the first tick reaching it is taken (at most `total`).
pub open spec fn seek_target(division: u16, t: Seq<(u64, u32)>, current: i32, total: i32, delta_ms: i64) -> i32 {
    let tot = clamp_int(total as int, 0, i32::MAX as int);
    let cur = clamp_int(current as int, 0, tot);
    let cur_ms = tick_ms(division, t, cur as u64);
    let tot_ms = tick_ms(division, t, tot as u64);
    let target = clamp_int(cur_ms + delta_ms, 0, tot_ms as int);
    let tick = ms_tick(division, t, target as u32);
    if tick > tot {
        tot as i32
    } else {
        tick as i32
    }
}

proof fn lemma_tick_ms_small(division: u16, t: Seq<(u64, u32)>, k: u64)
    requires
        k <= i32::MAX,
    ensures
        tick_ms(division, t, k) <= u32::MAX,
{
    if !metrical(division) {
        assert(k * 500 <= u64::MAX);
        assert((k * 500) / 480 <= u32::MAX) by (nonlinear_arith)
            requires
                k <= 0x7fff_ffff,
        ;
    }
}

// ---------------------------------------------------------------------------
// Converting back and forth
// ---------------------------------------------------------------------------

/// Microseconds from tick `prev` (reached after `elapsed`) to tick `k`,
/// walking the records from `i` on as `tick_ms` does.
pub open spec fn us_from(t: Seq<(u64, u32)>, i: int, division: u16, k: u64, elapsed: nat, prev: u64, tempo: u32) -> nat {
    let (e0, p0, tp) = tick_scan(t, i, division, k, elapsed, prev, tempo);
    sat128(e0 + (sub0(k as int, p0 as int) * tp) / (division as int))
}

/// Microseconds from the start to tick `k` (before the division by 1000 of
/// `tick_ms`).
pub open spec fn tick_us(division: u16, t: Seq<(u64, u32)>, k: u64) -> nat {
    us_from(t, 0, division, k, 0, 0, 500000)
}

proof fn lemma_scan_stays(t: Seq<(u64, u32)>, i: int, division: u16, k: u64, elapsed: nat, tempo: u32)
    requires
        0 <= i,
        division > 0,
        elapsed <= u128::MAX,
        forall|j: int| i <= j < t.len() ==> (#[trigger] t[j]).0 >= k,
    ensures
        tick_scan(t, i, division, k, elapsed, k, tempo).0 == elapsed,
        tick_scan(t, i, division, k, elapsed, k, tempo).1 == k,
    decreases t.len() - i,
{
    if i < t.len() && t[i].0 <= k {
        assert(sub0(t[i].0 as int, k as int) == 0);
        assert((0 * tempo) / (division as int) == 0);
        assert(sat128(elapsed as int) == elapsed);
        lemma_scan_stays(t, i + 1, division, k, elapsed, max1(t[i].1));
    }
}

/// Inside the segment that starts at `prev` and ends at record `i`.
proof fn lemma_us_in_segment(
    t: Seq<(u64, u32)>,
    i: int,
    division: u16,
    k: u64,
    elapsed: nat,
    prev: u64,
    tempo: u32,
)
    requires
        0 <= i < t.len(),
        tick_sorted(t),
        prev < t[i].0,
        prev <= k <= t[i].0,
        division > 0,
        elapsed <= u128::MAX,
    ensures
        us_from(t, i, division, k, elapsed, prev, tempo) == sat128(
            elapsed + ((k - prev) * tempo) / (division as int),
        ),
{
    if k == t[i].0 {
        let e1 = sat128(elapsed + (sub0(t[i].0 as int, prev as int) * tempo) / (division as int));
        assert forall|j: int| i + 1 <= j < t.len() implies (#[trigger] t[j]).0 >= k by {
            assert(t[i].0 <= t[j].0);
        }
        assert(e1 <= u128::MAX);
        lemma_scan_stays(t, i + 1, division, k, e1, max1(t[i].1));
        assert(sub0(k as int, k as int) == 0);
        assert((0 * max1(t[i].1)) / (division as int) == 0);
        assert(sat128(e1 as int) == e1);
        assert(sub0(t[i].0 as int, prev as int) == k - prev);
        assert(tick_scan(t, i, division, k, elapsed, prev, tempo) == tick_scan(
            t,
            i + 1,
            division,
            k,
            e1,
            t[i].0,
            max1(t[i].1),
        ));
        let (e0, p0, tp) = tick_scan(t, i + 1, division, k, e1, k, max1(t[i].1));
        assert(e0 == e1 && p0 == k);
        assert((sub0(k as int, p0 as int) * tp) / (division as int) == 0);
    } else {
        assert(sub0(k as int, prev as int) == k - prev);
        assert(tick_scan(t, i, division, k, elapsed, prev, tempo) == (elapsed, prev, tempo));
    }
}

proof fn lemma_ceil_bounds(rem: nat, division: nat, tempo: nat)
    requires
        rem > 0,
        division > 0,
        tempo > 0,
    ensures
        ceil_div(rem * division, tempo) >= 1,
        ceil_div(rem * division, tempo) * tempo >= rem * division,
        (ceil_div(rem * division, tempo) - 1) * tempo < rem * division,
{
    let x = rem * division;
    assert(x > 0) by (nonlinear_arith)
        requires
            rem > 0,
            division > 0,
            x == rem * division,
    ;
    let c = ceil_div(x, tempo);
    assert(c == (x + tempo - 1) / (tempo as int));
    assert(c >= 1 && c * tempo >= x && (c - 1) * tempo < x) by (nonlinear_arith)
        requires
            x > 0,
            tempo > 0,
            c == (x + tempo - 1) / (tempo as int),
    ;
}

proof fn lemma_floor_ge(a: int, d: int, rem: int)
    requires
        d > 0,
        a >= rem * d,
    ensures
        a / d >= rem,
{
    assert(a / d >= rem) by (nonlinear_arith)
        requires
            d > 0,
            a >= rem * d,
    ;
}

proof fn lemma_floor_lt(a: int, d: int, rem: int)
    requires
        d > 0,
        0 <= a < rem * d,
    ensures
        a / d < rem,
{
    assert(a / d < rem) by (nonlinear_arith)
        requires
            d > 0,
            0 <= a < rem * d,
    ;
}

proof fn lemma_ms_scan(
    t: Seq<(u64, u32)>,
    i: int,
    division: u16,
    target: nat,
    elapsed: nat,
    prev: u64,
    tempo: u32,
)
    requires
        metrical(division),
        tick_sorted(t),
        0 <= i <= t.len(),
        tempo > 0,
        elapsed <= u128::MAX,
        target <= u32::MAX * 1000,
        elapsed < target || (target == 0 && prev == 0),
        forall|j: int| i <= j < t.len() ==> (#[trigger] t[j]).0 >= prev,
        forall|k: u64|
            k >= prev ==> #[trigger] tick_us(division, t, k) == us_from(
                t,
                i,
                division,
                k,
                elapsed,
                prev,
                tempo,
            ),
        ms_scan(t, i, division, target, elapsed, prev, tempo) < u64::MAX,
    ensures
        ({
            let r = ms_scan(t, i, division, target, elapsed, prev, tempo);
            &&& tick_us(division, t, r) >= target
            &&& r == 0 || tick_us(division, t, (r - 1) as u64) < target
        }),
    decreases t.len() - i,
{
    let r = ms_scan(t, i, division, target, elapsed, prev, tempo);
    let d = division as int;
    if i >= t.len() || (t[i].0 > prev && target <= sat128(
        elapsed + ((t[i].0 - prev) * tempo) / d,
    )) {
        // The target falls in the segment from `prev`: finish there.
        assert(r == ms_finish(division, elapsed, prev, tempo, target));
        if target == 0 || elapsed >= target {
            assert(prev == 0);
            assert(sub0(target as int, elapsed as int) == 0);
            assert(ceil_div(0, tempo as nat) == 0) by (nonlinear_arith)
                requires
                    tempo > 0,
            ;
            assert(r == 0);
        } else {
            let rem = (target - elapsed) as nat;
            assert(sub0(target as int, elapsed as int) == rem);
            lemma_ceil_bounds(rem, division as nat, tempo as nat);
            let ticks = ceil_div(rem * (division as nat), tempo as nat);
            assert(r == prev + ticks);
            lemma_floor_ge(ticks * tempo, d, rem as int);
            lemma_floor_lt((ticks - 1) * tempo, d, rem as int);
            assert(ticks * tempo >= 0 && (ticks - 1) * tempo >= 0) by (nonlinear_arith)
                requires
                    ticks >= 1,
                    tempo > 0,
            ;
            if i < t.len() {
                let gap = (t[i].0 - prev) as int;
                // The target lies within the segment, so the answer does too.
                assert(rem <= (gap * tempo) / d);
                assert(rem * d <= gap * tempo) by (nonlinear_arith)
                    requires
                        rem <= (gap * tempo) / d,
                        d > 0,
                        gap * tempo >= 0,
                ;
                assert(ticks <= gap) by (nonlinear_arith)
                    requires
                        rem * d <= gap * tempo,
                        tempo > 0,
                        ticks * tempo >= rem * d,
                        (ticks - 1) * tempo < rem * d,
                ;
                lemma_us_in_segment(t, i, division, r, elapsed, prev, tempo);
                lemma_us_in_segment(t, i, division, (r - 1) as u64, elapsed, prev, tempo);
            } else {
                assert(sub0(r as int, prev as int) == ticks);
                assert(sub0((r - 1) as int, prev as int) == ticks - 1);
            }
            assert(tick_us(division, t, r) == us_from(t, i, division, r, elapsed, prev, tempo));
            assert(tick_us(division, t, (r - 1) as u64) == us_from(
                t,
                i,
                division,
                (r - 1) as u64,
                elapsed,
                prev,
                tempo,
            ));
        }
    } else if t[i].0 <= prev {
        // A record at the current tick: only the tempo changes.
        assert(t[i].0 == prev);
        let tp = max1(t[i].1);
        assert forall|k: u64| k >= prev implies #[trigger] tick_us(division, t, k) == us_from(
            t,
            i + 1,
            division,
            k,
            elapsed,
            prev,
            tp,
        ) by {
            assert(sub0(t[i].0 as int, prev as int) == 0);
            assert((0 * tempo) / d == 0);
            assert(sat128(elapsed as int) == elapsed);
            assert(tick_us(division, t, k) == us_from(t, i, division, k, elapsed, prev, tempo));
        }
        lemma_ms_scan(t, i + 1, division, target, elapsed, prev, tp);
    } else {
        // The target lies past record `i`: move on to it.
        let e1 = sat128(elapsed + ((t[i].0 - prev) * tempo) / d);
        let p1 = t[i].0;
        let tp = max1(t[i].1);
        assert(sub0(t[i].0 as int, prev as int) == t[i].0 - prev);
        assert forall|k: u64| k >= p1 implies #[trigger] tick_us(division, t, k) == us_from(
            t,
            i + 1,
            division,
            k,
            e1,
            p1,
            tp,
        ) by {
            assert(tick_us(division, t, k) == us_from(t, i, division, k, elapsed, prev, tempo));
        }
        assert forall|j: int| i + 1 <= j < t.len() implies (#[trigger] t[j]).0 >= p1 by {
            assert(t[i].0 <= t[j].0);
        }
        lemma_ms_scan(t, i + 1, division, target, e1, p1, tp);
    }
}

/// `ms_to_tick` gives the first tick whose time by `tick_to_ms` is not
/// before the target: its own time reaches the target and the tick before
/// it falls short. This holds for a map whose records are in order of tick
/// (as `read_tempo_map` gives them) and where the answer stays below
/// `u64::MAX`.
pub proof fn lemma_ms_to_tick_is_first(m: MidiTimeMap, target_ms: u32)
    requires
        tick_sorted(m.tempos@),
        ms_tick(m.division, m.tempos@, target_ms) < u64::MAX,
    ensures
        ({
            let r = ms_tick(m.division, m.tempos@, target_ms);
            &&& tick_ms(m.division, m.tempos@, r) >= target_ms
            &&& r == 0 || tick_ms(m.division, m.tempos@, (r - 1) as u64) < target_ms
        }),
{
    let t = m.tempos@;
    let d = m.division;
    let r = ms_tick(d, t, target_ms);
    if !metrical(d) {
        let x = (target_ms * 480) as nat;
        assert(r == (x + 499) / 500);
        assert(r * 500 >= x && (r == 0 || (r - 1) * 500 < x) && r * 500 <= u64::MAX) by (nonlinear_arith)
            requires
                r == (x + 499) / 500,
                x <= 0xffff_ffff * 480,
        ;
        assert(tick_ms(d, t, r) == (r * 500) / 480);
        if r > 0 {
            assert(tick_ms(d, t, (r - 1) as u64) == ((r - 1) * 500) / 480);
        }
    } else {
        let target = (target_ms * 1000) as nat;
        lemma_ms_scan(t, 0, d, target, 0, 0, 500000);
        let u = tick_us(d, t, r);
        assert(tick_ms(d, t, r) == if u / 1000 > u32::MAX { u32::MAX as u64 } else { (u / 1000) as u64 });
        if r > 0 {
            let u1 = tick_us(d, t, (r - 1) as u64);
            assert(tick_ms(d, t, (r - 1) as u64) == if u1 / 1000 > u32::MAX {
                u32::MAX as u64
            } else {
                (u1 / 1000) as u64
            });
        }
    }
}

// ---------------------------------------------------------------------------
// Length of a file
// ---------------------------------------------------------------------------

pub open spec fn wrap64(x: int) -> u64 {
    (x % 0x1_0000_0000_0000_0000) as u64
}

pub open spec fn high_nibble(s: u8) -> int {
    (s / 16) * 16
}

/// Channel messages with two data bytes (other than program change and
/// channel pressure).
pub open spec fn two_data(m: int) -> bool {
    m == 0x80 || m == 0x90 || m == 0xa0 || m == 0xb0 || m == 0xe0
}

pub open spec fn umax(a: u64, b: u64) -> u64 {
    if a >= b {
        a
    } else {
        b
    }
}

/// One event of a track read for the length of the file: gives the position
/// after it, the tick, the running status, the latest tick of a channel
/// event, and the tempos. `None` for a malformed event.
pub open spec fn tl_step(
    d: Seq<u8>,
    pos: int,
    end: int,
    tick: u64,
    running: Option<u8>,
    max_tick: u64,
    tempos: Seq<(u64, u32)>,
) -> Option<(int, u64, Option<u8>, u64, Seq<(u64, u32)>)> {
    match vlq(d, pos, d.len() as int, 0, 0) {
        None => None,
        Some((dt, p1)) => {
            let t = wrap64(tick + dt);
            if p1 >= d.len() {
                None
            } else {
                let first = d[p1];
                let p = p1 + 1;
                if first < 0x80 {
                    match running {
                        None => None,
                        Some(st) => {
                            let q = if two_data(high_nibble(st)) {
                                p + 1
                            } else {
                                p
                            };
                            Some((q, t, running, umax(max_tick, t), tempos))
                        },
                    }
                } else if first == 0xff {
                    if p >= d.len() {
                        None
                    } else {
                        let kind = d[p];
                        match vlq(d, p + 1, d.len() as int, 0, 0) {
                            None => None,
                            Some((len, q)) => if q + len > usize::MAX || q + len > end {
                                None
                            } else {
                                let ts = if kind == 0x51 && len >= 3 {
                                    tempos.push((t, be24(d, q) as u32))
                                } else {
                                    tempos
                                };
                                Some((q + len, t, Some(first), max_tick, ts))
                            },
                        }
                    }
                } else if first == 0xf0 || first == 0xf7 {
                    match vlq(d, p, d.len() as int, 0, 0) {
                        None => None,
                        Some((len, q)) => if q + len > usize::MAX || q + len > end {
                            None
                        } else {
                            Some((q + len, t, Some(first), max_tick, tempos))
                        },
                    }
                } else {
                    let m = high_nibble(first);
                    let q = if two_data(m) {
                        p + 2
                    } else if m == 0xc0 || m == 0xd0 {
                        p + 1
                    } else {
                        p
                    };
                    Some((q, t, Some(first), umax(max_tick, t), tempos))
                }
            }
        },
    }
}

/// Reads the events of a track from `pos` while before `end`; gives the
/// position reached, the latest channel-event tick and the tempos.
pub open spec fn tl_track(
    d: Seq<u8>,
    pos: int,
    end: int,
    tick: u64,
    running: Option<u8>,
    max_tick: u64,
    tempos: Seq<(u64, u32)>,
) -> Option<(int, u64, Seq<(u64, u32)>)>
    decreases d.len() + 3 - pos,
{
    if pos >= end {
        Some((pos, max_tick, tempos))
    } else {
        match tl_step(d, pos, end, tick, running, max_tick, tempos) {
            None => None,
            Some((q, t, r, m, ts)) => if q <= pos || q > d.len() + 2 {
                None
            } else {
                tl_track(d, q, end, t, r, m, ts)
            },
        }
    }
}

/// Reads the `MTrk` chunks from `pos` on; a chunk that runs past the end of
/// the data ends the reading.
pub open spec fn tl_tracks(d: Seq<u8>, pos: int, max_tick: u64, tempos: Seq<(u64, u32)>) -> Option<
    (u64, Seq<(u64, u32)>),
>
    decreases d.len() + 3 - pos,
{
    if pos < 0 || pos + 8 > d.len() || !has_tag(d, pos, mtrk()) {
        Some((max_tick, tempos))
    } else {
        let end = pos + 8 + be32(d, pos + 4);
        if end > d.len() {
            Some((max_tick, tempos))
        } else {
            match tl_track(d, pos + 8, end, 0, None, max_tick, tempos) {
                None => None,
                Some((q, m, ts)) => if q <= pos || q > d.len() + 2 {
                    None
                } else {
                    tl_tracks(d, q, m, ts)
                },
            }
        }
    }
}

/// What a file gives for its length: its division, the latest tick of a
/// channel event, and its tempos in tick order (the default 500000 at tick
/// 0 when it sets none). `None` for a file that is not a Standard MIDI File,
/// uses SMPTE time, or has a malformed event.
pub open spec fn midi_length_of(d: Seq<u8>) -> Option<(u16, u64, Seq<(u64, u32)>)> {
    if d.len() < 14 || !has_tag(d, 0, mthd()) {
        None
    } else {
        let division = be16(d, 12);
        if division == 0 || division >= 0x8000 {
            None
        } else {
            match tl_tracks(d, 14, 0, Seq::empty()) {
                None => None,
                Some((m, ts)) => Some(
                    (
                        division as u16,
                        m,
                        sort_by_tick(
                            if ts.len() == 0 {
                                seq![(0u64, 500000u32)]
                            } else {
                                ts
                            },
                        ),
                    ),
                ),
            }
        }
    }
}

/// What the length of a MIDI file is computed from.
pub struct MidiLength {
    pub division: u16,
    pub max_tick: u64,
    pub tempos: Vec<(u64, u32)>,
}

fn tl_step_exec(
    d: &[u8],
    pos: usize,
    end: usize,
    tick: u64,
    running: Option<u8>,
    max_tick: u64,
    tempos: &mut Vec<(u64, u32)>,
) -> (r: Option<(usize, u64, Option<u8>, u64)>)
    requires
        end <= d@.len(),
        d@.len() <= isize::MAX,
    ensures
        r matches Some((q, t, rr, m)) ==> tl_step(d@, pos as int, end as int, tick, running, max_tick, old(tempos)@)
            == Some((q as int, t, rr, m, final(tempos)@)) && pos < q <= d@.len() + 2,
        r is None ==> tl_step(d@, pos as int, end as int, tick, running, max_tick, old(tempos)@) is None,
{
    let (dt, p1) = match vlq_exec(d, pos, d.len()) {
        None => {
            return None;
        },
        Some(x) => x,
    };
    let t = tick.wrapping_add(dt);
    assert(t == wrap64(tick + dt)) by {
        assert(tick + dt < 0x1_0000_0000_0000_0000 ==> (tick + dt) % 0x1_0000_0000_0000_0000 == tick + dt);
    }
    if p1 >= d.len() {
        return None;
    }
    let first = d[p1];
    let p = p1 + 1;
    if first < 0x80 {
        match running {
            None => None,
            Some(st) => {
                let hn = st / 16 * 16;
                let q = if hn == 0x80 || hn == 0x90 || hn == 0xa0 || hn == 0xb0 || hn == 0xe0 { p + 1 } else { p };
                Some((q, t, running, if max_tick >= t { max_tick } else { t }))
            },
        }
    } else if first == 0xff {
        if p >= d.len() {
            return None;
        }
        let kind = d[p];
        match vlq_exec(d, p + 1, d.len()) {
            None => None,
            Some((len, q)) => {
                let len = len as usize;
                match q.checked_add(len) {
                    None => None,
                    Some(e) => {
                        if e > end {
                            None
                        } else {
                            if kind == 0x51 && len >= 3 {
                                let v = be24_exec(d, q);
                                tempos.push((t, v));
                            }
                            Some((e, t, Some(first), max_tick))
                        }
                    },
                }
            },
        }
    } else if first == 0xf0 || first == 0xf7 {
        match vlq_exec(d, p, d.len()) {
            None => None,
            Some((len, q)) => {
                let len = len as usize;
                match q.checked_add(len) {
                    None => None,
                    Some(e) => {
                        if e > end {
                            None
                        } else {
                            Some((e, t, Some(first), max_tick))
                        }
                    },
                }
            },
        }
    } else {
        let m = first / 16 * 16;
        let q = if m == 0x80 || m == 0x90 || m == 0xa0 || m == 0xb0 || m == 0xe0 {
            p + 2
        } else if m == 0xc0 || m == 0xd0 {
            p + 1
        } else {
            p
        };
        Some((q, t, Some(first), if max_tick >= t { max_tick } else { t }))
    }
}

/// Reads a Standard MIDI File for its length; see `midi_length_of`.
pub fn scan_midi_length(data: &[u8]) -> (r: Option<MidiLength>)
    requires
        data@.len() <= isize::MAX,
    ensures
        match midi_length_of(data@) {
            Some((division, m, tempos)) => r matches Some(x) && x.division == division && x.max_tick == m
                && x.tempos@ == tempos,
            None => r is None,
        },
{
    if data.len() < 14 || !has_tag_exec(data, 0, [0x4d, 0x54, 0x68, 0x64]) {
        proof {
            if data@.len() >= 14 {
                assert(seq![0x4du8, 0x54u8, 0x68u8, 0x64u8] =~= mthd());
            }
        }
        return None;
    }
    assert(seq![0x4du8, 0x54u8, 0x68u8, 0x64u8] =~= mthd());
    let division = (data[12] as u16) * 256 + (data[13] as u16);
    if division == 0 || division >= 0x8000 {
        return None;
    }
    let ghost d = data@;
    let mut pos: usize = 14;
    let mut max_tick: u64 = 0;
    let mut tempos: Vec<(u64, u32)> = Vec::new();
    assert(tempos@ =~= Seq::<(u64, u32)>::empty());
    while pos + 8 <= data.len() && has_tag_exec(data, pos, [0x4d, 0x54, 0x72, 0x6b])
        invariant
            d == data@,
            pos <= data@.len() + 2,
            data@.len() <= isize::MAX,
            tl_tracks(d, 14, 0, Seq::empty()) == tl_tracks(d, pos as int, max_tick, tempos@),
        ensures
            tl_tracks(d, 14, 0, Seq::empty()) == Some((max_tick, tempos@)),
        decreases data@.len() + 3 - pos,
    {
        assert(seq![0x4du8, 0x54u8, 0x72u8, 0x6bu8] =~= mtrk());
        let tlen = be32_exec(data, pos + 4);
        let start = pos + 8;
        if tlen > (data.len() - start) as u64 {
            break;
        }
        let end = start + tlen as usize;
        let ghost t_start = tempos@;
        let ghost m_start = max_tick;
        let mut p = start;
        let mut tick: u64 = 0;
        let mut running: Option<u8> = None;
        while p < end
            invariant
                start <= p <= data@.len() + 2,
                start == pos + 8,
                pos + 8 <= data@.len(),
                has_tag(d, pos as int, mtrk()),
                end == pos + 8 + be32(d, pos + 4),
                end <= data@.len(),
                d == data@,
                data@.len() <= isize::MAX,
                tl_tracks(d, 14, 0, Seq::empty()) == tl_tracks(d, pos as int, m_start, t_start),
                tl_track(d, start as int, end as int, 0, None, m_start, t_start) == tl_track(
                    d,
                    p as int,
                    end as int,
                    tick,
                    running,
                    max_tick,
                    tempos@,
                ),
            decreases data@.len() + 3 - p,
        {
            let ghost before = tempos@;
            match tl_step_exec(data, p, end, tick, running, max_tick, &mut tempos) {
                None => {
                    assert(tl_track(d, p as int, end as int, tick, running, max_tick, before) is None);
                    return None;
                },
                Some((q, t, rr, m)) => {
                    assert(tl_track(d, p as int, end as int, tick, running, max_tick, before) == tl_track(
                        d,
                        q as int,
                        end as int,
                        t,
                        rr,
                        m,
                        tempos@,
                    ));
                    p = q;
                    tick = t;
                    running = rr;
                    max_tick = m;
                },
            }
        }
        pos = p;
    }
    proof {
        if pos + 8 <= data@.len() {
            assert(seq![0x4du8, 0x54u8, 0x72u8, 0x6bu8] =~= mtrk());
        }
    }
    if tempos.len() == 0 {
        tempos.push((0, 500000));
        assert(tempos@ =~= seq![(0u64, 500000u32)]);
    }
    let sorted = sort_by_tick_exec(&tempos);
    Some(MidiLength { division, max_tick, tempos: sorted })
}

/// How many data bytes a channel event takes when the length of a file is
/// read, by its status byte (given or running): note-off, note-on, key
/// pressure, control change and pitch bend take two; program change and
/// channel pressure one. A running-status event is the same event without
/// its status byte, so it ends one byte sooner.
pub proof fn lemma_length_scan_event_sizes(
    d: Seq<u8>,
    pos: int,
    end: int,
    tick: u64,
    running: Option<u8>,
    max_tick: u64,
    tempos: Seq<(u64, u32)>,
)
    requires
        vlq(d, pos, d.len() as int, 0, 0) is Some,
        vlq(d, pos, d.len() as int, 0, 0)->Some_0.1 < d.len(),
    ensures
        ({
            let p1 = vlq(d, pos, d.len() as int, 0, 0)->Some_0.1;
            let r = tl_step(d, pos, end, tick, running, max_tick, tempos);
            &&& (0x80 <= d[p1] < 0xc0 || 0xe0 <= d[p1] < 0xf0) ==> r is Some && r->Some_0.0 == p1 + 3
            &&& 0xc0 <= d[p1] < 0xe0 ==> r is Some && r->Some_0.0 == p1 + 2
            &&& (d[p1] < 0x80 && running is Some && (0x80 <= running->Some_0 < 0xc0 || 0xe0 <= running->Some_0 < 0xf0))
                ==> r is Some && r->Some_0.0 == p1 + 2
            &&& (d[p1] < 0x80 && running is Some && 0xc0 <= running->Some_0 < 0xe0) ==> r is Some && r->Some_0.0 == p1 + 1
        }),
{
}
} // verus!
