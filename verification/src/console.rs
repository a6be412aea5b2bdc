//! The kind of terminal the player draws on, and what glyphs its console
//! font has.
use vstd::prelude::*;

verus! {

/// Where the output goes.
#[derive(Clone, Copy, PartialEq, Eq, Debug, Structural)]
pub enum OutputKind {
    /// A terminal emulator: every feature works.
    Pty,
    /// A real Linux console or serial line: output degrades.
    Tty,
}

/// Glyphs of the console font (meaningful on a real console only).
#[derive(Clone, Copy, Debug, PartialEq, Eq, Structural)]
pub struct Caps {
    /// Number of glyphs of the font; 0 when unknown.
    pub charcount: usize,
    pub has_cjk: bool,
    pub has_box: bool,
    pub has_block: bool,
    pub has_upper_half: bool,
    pub has_dot: bool,
    pub has_music: bool,
    pub has_arrow_l: bool,
    pub has_arrow_r: bool,
    pub has_middot: bool,
    pub has_ellipsis: bool,
}

/// The cautious guess: a 256-glyph font with no extra glyphs.
pub open spec fn default_caps() -> Caps {
    Caps {
        charcount: 256,
        has_cjk: false,
        has_box: false,
        has_block: false,
        has_upper_half: false,
        has_dot: false,
        has_music: false,
        has_arrow_l: false,
        has_arrow_r: false,
        has_middot: false,
        has_ellipsis: false,
    }
}

impl Default for Caps {
    fn default() -> (r: Caps)
        ensures
            r == default_caps(),
    {
        Caps {
            charcount: 256,
            has_cjk: false,
            has_box: false,
            has_block: false,
            has_upper_half: false,
            has_dot: false,
            has_music: false,
            has_arrow_l: false,
            has_arrow_r: false,
            has_middot: false,
            has_ellipsis: false,
        }
    }
}

/// The font maps code point `cp` to a glyph other than 0.
pub open spec fn mapped(entries: Seq<(u16, u16)>, cp: u32) -> bool {
    exists|k: int| 0 <= k < entries.len() && #[trigger] entries[k].0 == cp && entries[k].1 != 0
}

fn mapped_exec(entries: &Vec<(u16, u16)>, cp: u32) -> (b: bool)
    ensures
        b == mapped(entries@, cp),
{
    let mut i: usize = 0;
    while i < entries.len()
        invariant
            0 <= i <= entries@.len(),
            forall|k: int| 0 <= k < i ==> !(#[trigger] entries@[k].0 == cp && entries@[k].1 != 0),
        decreases entries@.len() - i,
    {
        if entries[i].0 as u32 == cp && entries[i].1 != 0 {
            return true;
        }
        i = i + 1;
    }
    false
}

/// What the console probe gives: the font's glyph count (0 when it could
/// not be read), the size of its Unicode map (`None` when that could not be
/// read) and the map itself (`None` when the second read failed).
pub open spec fn caps_of(charcount: u32, map_len: Option<usize>, entries: Option<Seq<(u16, u16)>>) -> Caps {
    let base = Caps { charcount: charcount as usize, ..default_caps() };
    if charcount == 0 {
        default_caps()
    } else {
        match map_len {
            None => Caps {
                has_box: charcount >= 512,
                has_block: charcount >= 512,
                has_upper_half: charcount >= 512,
                ..base
            },
            Some(n) => if n == 0 || n > 65535 {
                base
            } else {
                match entries {
                    None => base,
                    Some(e) => Caps {
                        has_cjk: mapped(e, 0x4E2D),
                        has_box: mapped(e, 0x256D) || mapped(e, 0x2502),
                        has_block: mapped(e, 0x2588) && mapped(e, 0x2591),
                        has_upper_half: mapped(e, 0x2580),
                        has_dot: mapped(e, 0x25CF),
                        has_music: mapped(e, 0x266A),
                        has_arrow_l: mapped(e, 0x2190),
                        has_arrow_r: mapped(e, 0x2192),
                        has_middot: mapped(e, 0x00B7),
                        has_ellipsis: mapped(e, 0x2026),
                        ..base
                    },
                }
            },
        }
    }
}

/// The glyphs of a console from what its font probe read; see `caps_of`.
pub fn caps_from_probe(charcount: u32, map_len: Option<usize>, entries: Option<Vec<(u16, u16)>>) -> (r: Caps)
    ensures
        r == caps_of(
            charcount,
            map_len,
            match entries {
                Some(v) => Some(v@),
                None => None,
            },
        ),
{
    if charcount == 0 {
        return Caps::default();
    }
    let mut caps = Caps::default();
    caps.charcount = charcount as usize;
    match map_len {
        None => {
            caps.has_box = charcount >= 512;
            caps.has_block = charcount >= 512;
            caps.has_upper_half = charcount >= 512;
            caps
        },
        Some(n) => {
            if n == 0 || n > 65535 {
                return caps;
            }
            match entries {
                None => caps,
                Some(e) => {
                    caps.has_cjk = mapped_exec(&e, 0x4E2D);
                    caps.has_box = mapped_exec(&e, 0x256D) || mapped_exec(&e, 0x2502);
                    caps.has_block = mapped_exec(&e, 0x2588) && mapped_exec(&e, 0x2591);
                    caps.has_upper_half = mapped_exec(&e, 0x2580);
                    caps.has_dot = mapped_exec(&e, 0x25CF);
                    caps.has_music = mapped_exec(&e, 0x266A);
                    caps.has_arrow_l = mapped_exec(&e, 0x2190);
                    caps.has_arrow_r = mapped_exec(&e, 0x2192);
                    caps.has_middot = mapped_exec(&e, 0x00B7);
                    caps.has_ellipsis = mapped_exec(&e, 0x2026);
                    caps
                },
            }
        },
    }
}

/// A terminal device named under `/dev/pts/` is a terminal emulator; any
/// other named device is a real console.
pub fn output_kind_of(tty_name: Option<&str>) -> (r: OutputKind)
    ensures
        r == match tty_name {
            None => OutputKind::Pty,
            Some(n) => if n@.len() >= 9 && n@.take(9) == "/dev/pts/"@ {
                OutputKind::Pty
            } else {
                OutputKind::Tty
            },
        },
{
    match tty_name {
        None => OutputKind::Pty,
        Some(n) => {
            let v = crate::text::chars_of(n);
            if crate::text::starts_with_str(v.as_slice(), "/dev/pts/") {
                proof {
                    reveal_strlit("/dev/pts/");
                }
                OutputKind::Pty
            } else {
                proof {
                    reveal_strlit("/dev/pts/");
                }
                OutputKind::Tty
            }
        },
    }
}

} // verus!
