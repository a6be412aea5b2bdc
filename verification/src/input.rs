//! Keys read from the terminal during playback, decoded into commands.
use vstd::prelude::*;
use vstd::utf8::valid_utf8;
use crate::text::{all_digits, dec_value, is_digit};

verus! {

/// A command from the keyboard or the mouse.
#[derive(Debug, Clone, Copy, PartialEq, Eq, Structural)]
pub enum Key {
    /// Pause or resume.
    Pause,
    /// Start or resume playing.
    Play,
    /// Seek forward by this many seconds.
    SeekForward(u32),
    /// Seek back by this many seconds.
    SeekBackward(u32),
    /// Jump to this many tenths of the piece.
    SeekPercent(u8),
    /// Toggle looping.
    Loop,
    VolumeDown,
    VolumeUp,
    /// Left button pressed at this column and row (from 1).
    Mouse(u16, u16),
    Quit,
    /// A key with no meaning.
    Ignored,
}

/// Whether the bytes are valid UTF-8, by std's `str::from_utf8`; the
/// contract claims it succeeds exactly on the byte strings that vstd's
/// `valid_utf8` describes.
#[verifier::external_body]
fn is_utf8(b: &[u8]) -> (r: bool)
    ensures
        r == valid_utf8(b@),
{
    std::str::from_utf8(b).is_ok()
}

pub open spec fn byte_char(b: u8) -> char {
    b as char
}

/// The decimal value of a field read as `u16` (`+` allowed in front).
/// The characters of a field after an optional leading `+`.
pub open spec fn field_chars(f: Seq<u8>) -> Seq<char> {
    let d = if f.len() > 0 && f[0] == 0x2b {
        f.drop_first()
    } else {
        f
    };
    d.map_values(|b: u8| byte_char(b))
}

pub open spec fn field_u16(f: Seq<u8>) -> Option<nat> {
    let c = field_chars(f);
    if c.len() == 0 || !all_digits(c) || dec_value(c) > 65535 {
        None
    } else {
        Some(dec_value(c))
    }
}

/// The values of the `;`-separated fields from index `i` on that read as
/// `u16`, in order; `cur` is the field being read.
pub open spec fn field_values(b: Seq<u8>, i: int, cur: Seq<u8>, acc: Seq<nat>) -> Seq<nat>
    decreases b.len() - i,
{
    let with_cur = match field_u16(cur) {
        Some(v) => acc.push(v),
        None => acc,
    };
    if i < 0 || i >= b.len() {
        with_cur
    } else if b[i] == 0x3b {
        field_values(b, i + 1, Seq::empty(), with_cur)
    } else {
        field_values(b, i + 1, cur.push(b[i]), acc)
    }
}

/// The first index from `i` on holding `M` or `m`.
pub open spec fn mouse_end(p: Seq<u8>, i: int) -> Option<int>
    decreases p.len() - i,
{
    if i < 0 || i >= p.len() {
        None
    } else if p[i] == 0x4d || p[i] == 0x6d {
        Some(i)
    } else {
        mouse_end(p, i + 1)
    }
}

/// The command of a plain key.
pub open spec fn plain_key(c: u8) -> Key {
    if c == 0x20 || c == 0x70 {
        Key::Pause
    } else if c == 0x50 || c == 0x0d || c == 0x0a {
        Key::Play
    } else if c == 0x72 || c == 0x52 {
        Key::Loop
    } else if c == 0x71 || c == 0x51 {
        Key::Quit
    } else if c == 0x5b {
        Key::SeekBackward(1)
    } else if c == 0x5d {
        Key::SeekForward(1)
    } else if 0x31 <= c && c <= 0x38 {
        Key::SeekPercent((c - 0x30) as u8)
    } else if c == 0x39 {
        Key::VolumeDown
    } else if c == 0x30 {
        Key::VolumeUp
    } else {
        Key::Ignored
    }
}

/// Decodes one key from the front of the pending bytes: the command (none
/// while an escape sequence is incomplete) and the bytes left.
pub open spec fn key_of(p: Seq<u8>) -> (Option<Key>, Seq<u8>) {
    if p.len() == 0 {
        (None, p)
    } else if p[0] != 0x1b {
        (Some(plain_key(p[0])), p.drop_first())
    } else if p.len() < 2 {
        (None, p)
    } else if p[1] != 0x5b {
        (Some(Key::Ignored), p.drop_first())
    } else if p.len() < 3 {
        (None, p)
    } else if p[2] == 0x3c {
        match mouse_end(p, 0) {
            None => (None, p),
            Some(end) => {
                let b = p.subrange(3, end);
                let v = field_values(b, 0, Seq::empty(), Seq::empty());
                let k = if end >= 3 && valid_utf8(b) && v.len() >= 3 && v[0] == 0 && p[end] == 0x4d {
                    Key::Mouse(v[1] as u16, v[2] as u16)
                } else {
                    Key::Ignored
                };
                (Some(k), p.skip(end + 1))
            },
        }
    } else {
        let cmd = p[2];
        if cmd == 0x35 || cmd == 0x33 || cmd == 0x36 {
            if p.len() >= 4 && p[3] == 0x7e {
                (
                    Some(
                        if cmd == 0x36 {
                            Key::SeekBackward(60)
                        } else {
                            Key::SeekForward(60)
                        },
                    ),
                    p.skip(4),
                )
            } else {
                (None, p)
            }
        } else {
            let k = if cmd == 0x41 {
                Key::SeekForward(10)
            } else if cmd == 0x42 {
                Key::SeekBackward(10)
            } else if cmd == 0x43 {
                Key::SeekForward(5)
            } else if cmd == 0x44 {
                Key::SeekBackward(5)
            } else {
                Key::Ignored
            };
            (Some(k), p.skip(3))
        }
    }
}

fn copy_from(p: &[u8], from: usize) -> (r: Vec<u8>)
    requires
        from <= p@.len(),
    ensures
        r@ == p@.skip(from as int),
{
    let mut r: Vec<u8> = Vec::new();
    let mut i = from;
    while i < p.len()
        invariant
            from <= i <= p@.len(),
            r@ == p@.subrange(from as int, i as int),
        decreases p@.len() - i,
    {
        r.push(p[i]);
        i = i + 1;
        assert(r@ =~= p@.subrange(from as int, i as int));
    }
    assert(p@.subrange(from as int, p@.len() as int) =~= p@.skip(from as int));
    r
}

fn field_u16_exec(f: &Vec<u8>) -> (r: Option<u16>)
    ensures
        match field_u16(f@) {
            Some(v) => r == Some(v as u16),
            None => r is None,
        },
{
    let start: usize = if f.len() > 0 && f[0] == 0x2b { 1 } else { 0 };
    let ghost d = if f@.len() > 0 && f@[0] == 0x2b {
        f@.drop_first()
    } else {
        f@
    };
    let ghost c = field_chars(f@);
    assert(d =~= f@.skip(start as int));
    assert(c == d.map_values(|b: u8| byte_char(b)));
    if start >= f.len() {
        return None;
    }
    let mut v: u32 = 0;
    let mut i = start;
    while i < f.len()
        invariant
            start <= i <= f@.len(),
            d == f@.skip(start as int),
            c == d.map_values(|b: u8| byte_char(b)),
            c == field_chars(f@),
            all_digits(c.take(i - start)),
            v == dec_value(c.take(i - start)),
            v <= 65535,
        decreases f@.len() - i,
    {
        let b = f[i];
        assert(c[i - start] == byte_char(b));
        if !(0x30 <= b && b <= 0x39) {
            assert(!is_digit(c[i - start]));
            assert(!all_digits(c));
            return None;
        }
        assert(c.take(i - start + 1).drop_last() =~= c.take(i - start));
        assert(byte_char(b) as int - '0' as int == b - 0x30);
        let nv = v * 10 + (b - 0x30) as u32;
        if nv > 65535 {
            proof {
                assert(all_digits(c.take(i - start + 1)));
                if all_digits(c) {
                    crate::text::lemma_dec_value_prefix_le(c, i - start + 1);
                }
            }
            return None;
        }
        v = nv;
        i = i + 1;
    }
    assert(c.take(c.len() as int) =~= c);
    Some(v as u16)
}

fn field_values_exec(b: &[u8]) -> (r: Vec<u16>)
    ensures
        r@.map_values(|x: u16| x as nat) == field_values(b@, 0, Seq::empty(), Seq::empty()),
{
    let mut r: Vec<u16> = Vec::new();
    let mut cur: Vec<u8> = Vec::new();
    let mut i: usize = 0;
    assert(r@.map_values(|x: u16| x as nat) =~= Seq::<nat>::empty());
    while i < b.len()
        invariant
            0 <= i <= b@.len(),
            field_values(b@, 0, Seq::empty(), Seq::empty()) == field_values(
                b@,
                i as int,
                cur@,
                r@.map_values(|x: u16| x as nat),
            ),
        decreases b@.len() - i,
    {
        if b[i] == 0x3b {
            let ghost before = r@.map_values(|x: u16| x as nat);
            match field_u16_exec(&cur) {
                Some(v) => {
                    r.push(v);
                    assert(r@.map_values(|x: u16| x as nat) =~= before.push(v as nat));
                },
                None => {},
            }
            cur = Vec::new();
            assert(cur@ =~= Seq::<u8>::empty());
        } else {
            cur.push(b[i]);
        }
        i = i + 1;
    }
    let ghost before = r@.map_values(|x: u16| x as nat);
    match field_u16_exec(&cur) {
        Some(v) => {
            r.push(v);
            assert(r@.map_values(|x: u16| x as nat) =~= before.push(v as nat));
        },
        None => {},
    }
    r
}

fn plain_key_exec(c: u8) -> (k: Key)
    ensures
        k == plain_key(c),
{
    if c == 0x20 || c == 0x70 {
        Key::Pause
    } else if c == 0x50 || c == 0x0d || c == 0x0a {
        Key::Play
    } else if c == 0x72 || c == 0x52 {
        Key::Loop
    } else if c == 0x71 || c == 0x51 {
        Key::Quit
    } else if c == 0x5b {
        Key::SeekBackward(1)
    } else if c == 0x5d {
        Key::SeekForward(1)
    } else if 0x31 <= c && c <= 0x38 {
        Key::SeekPercent(c - 0x30)
    } else if c == 0x39 {
        Key::VolumeDown
    } else if c == 0x30 {
        Key::VolumeUp
    } else {
        Key::Ignored
    }
}

/// Decodes one key from the front of the pending bytes; see `key_of`.
pub fn parse_key(pending: &[u8]) -> (r: (Option<Key>, Vec<u8>))
    ensures
        (r.0, r.1@) == key_of(pending@),
{
    let p = pending;
    if p.len() == 0 {
        return (None, copy_from(p, 0));
    }
    if p[0] != 0x1b {
        let r = copy_from(p, 1);
        assert(r@ =~= p@.drop_first());
        return (Some(plain_key_exec(p[0])), r);
    }
    if p.len() < 2 {
        let r = copy_from(p, 0);
        assert(r@ =~= p@);
        return (None, r);
    }
    if p[1] != 0x5b {
        let r = copy_from(p, 1);
        assert(r@ =~= p@.drop_first());
        return (Some(Key::Ignored), r);
    }
    if p.len() < 3 {
        let r = copy_from(p, 0);
        assert(r@ =~= p@);
        return (None, r);
    }
    if p[2] == 0x3c {
        let mut end: usize = 0;
        while end < p.len() && p[end] != 0x4d && p[end] != 0x6d
            invariant
                0 <= end <= p@.len(),
                mouse_end(p@, 0) == mouse_end(p@, end as int),
            decreases p@.len() - end,
        {
            end = end + 1;
        }
        if end >= p.len() {
            let r = copy_from(p, 0);
            assert(r@ =~= p@);
            return (None, r);
        }
        let mut k = Key::Ignored;
        if end >= 3 {
            let mut b: Vec<u8> = Vec::new();
            let mut j: usize = 3;
            while j < end
                invariant
                    3 <= j <= end < p@.len(),
                    b@ == p@.subrange(3, j as int),
                decreases end - j,
            {
                b.push(p[j]);
                j = j + 1;
                assert(b@ =~= p@.subrange(3, j as int));
            }
            let v = field_values_exec(b.as_slice());
            if is_utf8(b.as_slice()) && v.len() >= 3 && v[0] == 0 && p[end] == 0x4d {
                k = Key::Mouse(v[1], v[2]);
            }
            proof {
                let vs = field_values(b@, 0, Seq::empty(), Seq::empty());
                assert(vs == v@.map_values(|x: u16| x as nat));
                if v@.len() >= 3 {
                    assert(vs[0] == v@[0] as nat);
                    assert(vs[1] == v@[1] as nat);
                    assert(vs[2] == v@[2] as nat);
                }
            }
        }
        return (Some(k), copy_from(p, end + 1));
    }
    let cmd = p[2];
    if cmd == 0x35 || cmd == 0x33 || cmd == 0x36 {
        if p.len() >= 4 && p[3] == 0x7e {
            let k = if cmd == 0x36 { Key::SeekBackward(60) } else { Key::SeekForward(60) };
            return (Some(k), copy_from(p, 4));
        }
        let r = copy_from(p, 0);
        assert(r@ =~= p@);
        return (None, r);
    }
    let k = if cmd == 0x41 {
        Key::SeekForward(10)
    } else if cmd == 0x42 {
        Key::SeekBackward(10)
    } else if cmd == 0x43 {
        Key::SeekForward(5)
    } else if cmd == 0x44 {
        Key::SeekBackward(5)
    } else {
        Key::Ignored
    };
    (Some(k), copy_from(p, 3))
}


/// Decoding only ever takes bytes from the front: what is left is a suffix
/// of the input, and the whole input when no key is complete yet.
pub proof fn lemma_key_consumes_prefix(p: Seq<u8>)
    ensures
        exists|j: int| 0 <= j <= p.len() && #[trigger] p.skip(j) == key_of(p).1,
        key_of(p).0 is None ==> key_of(p).1 == p,
        key_of(p).0 is Some ==> key_of(p).1.len() < p.len(),
{
    let r = key_of(p);
    assert(p.skip(0) =~= p);
    if p.len() > 0 && p[0] != 0x1b {
        assert(p.skip(1) =~= p.drop_first());
    } else if p.len() >= 2 && p[0] == 0x1b && p[1] != 0x5b {
        assert(p.skip(1) =~= p.drop_first());
    } else if p.len() >= 3 && p[0] == 0x1b && p[1] == 0x5b && p[2] == 0x3c {
        if let Some(end) = mouse_end(p, 0) {
            lemma_mouse_end(p, 0);
            assert(p.skip(end + 1) == r.1);
        }
    } else if p.len() >= 3 && p[0] == 0x1b && p[1] == 0x5b {
        let cmd = p[2];
        if (cmd == 0x35 || cmd == 0x33 || cmd == 0x36) && p.len() >= 4 && p[3] == 0x7e {
            assert(p.skip(4) == r.1);
        } else if !(cmd == 0x35 || cmd == 0x33 || cmd == 0x36) {
            assert(p.skip(3) == r.1);
        }
    }
}

proof fn lemma_mouse_end(p: Seq<u8>, i: int)
    requires
        0 <= i,
    ensures
        mouse_end(p, i) matches Some(e) ==> i <= e < p.len(),
    decreases p.len() - i,
{
    if i < p.len() && !(p[i] == 0x4d || p[i] == 0x6d) {
        lemma_mouse_end(p, i + 1);
    }
}

/// The key map: a plain key is decoded on its own, whatever bytes follow
/// it, and the rest is left pending. Space and `p` pause or resume; `P` and
/// Enter (CR or LF) play; `r`/`R` toggle looping; `q`/`Q` quit; `[` and `]`
/// seek back and forward 1 s; `1`-`8` jump to that many tenths; `9` turns
/// the volume down and `0` up.
pub proof fn lemma_key_map(p: Seq<u8>)
    requires
        p.len() > 0,
    ensures
        p[0] != 0x1b ==> key_of(p).1 == p.drop_first(),
        (p[0] == 0x20 || p[0] == 0x70) ==> key_of(p).0 == Some(Key::Pause),
        (p[0] == 0x50 || p[0] == 0x0d || p[0] == 0x0a) ==> key_of(p).0 == Some(Key::Play),
        (p[0] == 0x72 || p[0] == 0x52) ==> key_of(p).0 == Some(Key::Loop),
        (p[0] == 0x71 || p[0] == 0x51) ==> key_of(p).0 == Some(Key::Quit),
        p[0] == 0x5b ==> key_of(p).0 == Some(Key::SeekBackward(1)),
        p[0] == 0x5d ==> key_of(p).0 == Some(Key::SeekForward(1)),
        (0x31 <= p[0] <= 0x38) ==> key_of(p).0 == Some(Key::SeekPercent((p[0] - 0x30) as u8)),
        p[0] == 0x39 ==> key_of(p).0 == Some(Key::VolumeDown),
        p[0] == 0x30 ==> key_of(p).0 == Some(Key::VolumeUp),
{
}

/// The cursor and page keys: up and right seek forward 10 s and 5 s, down
/// and left back 10 s and 5 s, Page Up (and Delete) forward 60 s and Page
/// Down back 60 s; each sequence is consumed whole.
pub proof fn lemma_escape_keys(p: Seq<u8>)
    requires
        p.len() >= 3,
        p[0] == 0x1b,
        p[1] == 0x5b,
    ensures
        p[2] == 0x41 ==> key_of(p) == (Some(Key::SeekForward(10)), p.skip(3)),
        p[2] == 0x42 ==> key_of(p) == (Some(Key::SeekBackward(10)), p.skip(3)),
        p[2] == 0x43 ==> key_of(p) == (Some(Key::SeekForward(5)), p.skip(3)),
        p[2] == 0x44 ==> key_of(p) == (Some(Key::SeekBackward(5)), p.skip(3)),
        (p.len() >= 4 && p[3] == 0x7e && (p[2] == 0x35 || p[2] == 0x33)) ==> key_of(p) == (
            Some(Key::SeekForward(60)),
            p.skip(4),
        ),
        (p.len() >= 4 && p[3] == 0x7e && p[2] == 0x36) ==> key_of(p) == (Some(Key::SeekBackward(60)), p.skip(4)),
{
}
} // verus!
