//! The command line: options, and what kind of file is to be played.
use vstd::prelude::*;
use crate::synth::{ProgramSwitch, MAX_SOUNDFONTS};
use crate::text::{
    append, chars_of, dec_exec, dec_str, eq_str, parse_uint, parse_uint_exec, string_from_chars,
};

verus! {

// ---------------------------------------------------------------------------
// File kinds
// ---------------------------------------------------------------------------

pub open spec fn lower_char(c: char) -> char {
    if 'A' <= c && c <= 'Z' {
        ((c as int) + 32) as char
    } else {
        c
    }
}

pub open spec fn lower(s: Seq<char>) -> Seq<char> {
    Seq::new(s.len(), |i: int| lower_char(s[i]))
}

pub open spec fn ends_with(s: Seq<char>, t: Seq<char>) -> bool {
    t.len() <= s.len() && s.skip(s.len() - t.len()) == t
}

fn lower_exec(s: &[char]) -> (r: Vec<char>)
    ensures
        r@ == lower(s@),
{
    let mut r: Vec<char> = Vec::new();
    let mut i: usize = 0;
    while i < s.len()
        invariant
            0 <= i <= s@.len(),
            r@ == lower(s@).take(i as int),
        decreases s@.len() - i,
    {
        let c = s[i];
        let l = if 'A' <= c && c <= 'Z' { crate::text::char_from_ascii(c as u32 + 32) } else { c };
        r.push(l);
        i = i + 1;
        assert(r@ =~= lower(s@).take(i as int));
    }
    assert(lower(s@).take(s@.len() as int) =~= lower(s@));
    r
}

fn ends_with_exec(s: &[char], t: &str) -> (b: bool)
    ensures
        b == ends_with(s@, t@),
{
    let tv = chars_of(t);
    if tv.len() > s.len() {
        return false;
    }
    let off = s.len() - tv.len();
    let mut i: usize = 0;
    while i < tv.len()
        invariant
            0 <= i <= tv@.len(),
            off + tv@.len() == s@.len(),
            s@.len() == s.len(),
            tv@ == t@,
            forall|k: int| 0 <= k < i ==> s@[off + k] == tv@[k],
        decreases tv@.len() - i,
    {
        if s[off + i] != tv[i] {
            assert(s@.skip(off as int)[i as int] != t@[i as int]);
            return false;
        }
        i = i + 1;
    }
    assert(s@.skip(off as int) =~= t@);
    true
}

/// A MIDI file by its name: it ends in `.mid` or `.midi`, in any case.
pub open spec fn midi_name(path: Seq<char>) -> bool {
    ends_with(lower(path), ".mid"@) || ends_with(lower(path), ".midi"@)
}

pub fn is_midi_file(path: &str) -> (b: bool)
    ensures
        b == midi_name(path@),
{
    let l = lower_exec(chars_of(path).as_slice());
    ends_with_exec(l.as_slice(), ".mid") || ends_with_exec(l.as_slice(), ".midi")
}

/// Index just past the last `.` before `i`, or 0 when there is none.
pub open spec fn after_last_dot(s: Seq<char>, i: int) -> int
    decreases i,
{
    if i <= 0 {
        0
    } else if s[i - 1] == '.' {
        i
    } else {
        after_last_dot(s, i - 1)
    }
}

/// What follows the last `.` of a path (the whole path when it has none).
pub open spec fn extension(path: Seq<char>) -> Seq<char> {
    path.skip(after_last_dot(path, path.len() as int))
}

pub open spec fn audio_ext(e: Seq<char>) -> bool {
    ||| e == "wav"@
    ||| e == "mp3"@
    ||| e == "flac"@
    ||| e == "ogg"@
    ||| e == "opus"@
    ||| e == "aac"@
    ||| e == "m4a"@
    ||| e == "wma"@
}

/// An audio file by its name: the part after its last `.`, in any case, is
/// one of wav, mp3, flac, ogg, opus, aac, m4a, wma.
pub open spec fn audio_name(path: Seq<char>) -> bool {
    audio_ext(lower(extension(path)))
}

pub fn is_audio_file(path: &str) -> (b: bool)
    ensures
        b == audio_name(path@),
{
    let v = chars_of(path);
    let mut i: usize = v.len();
    while i > 0 && v[i - 1] != '.'
        invariant
            0 <= i <= v@.len(),
            v@ == path@,
            after_last_dot(path@, path@.len() as int) == after_last_dot(path@, i as int),
        decreases i,
    {
        i = i - 1;
    }
    let ext = crate::text::copy_range(v.as_slice(), i, v.len());
    assert(ext@ =~= extension(path@));
    let e = lower_exec(ext.as_slice());
    eq_str(e.as_slice(), "wav") || eq_str(e.as_slice(), "mp3") || eq_str(e.as_slice(), "flac")
        || eq_str(e.as_slice(), "ogg") || eq_str(e.as_slice(), "opus") || eq_str(e.as_slice(), "aac")
        || eq_str(e.as_slice(), "m4a") || eq_str(e.as_slice(), "wma")
}


// ---------------------------------------------------------------------------
// Options
// ---------------------------------------------------------------------------

/// What reading an argument as a 32-bit float gives, for `--limit`.
#[derive(Clone, Copy, PartialEq, Eq, Debug, Structural)]
pub enum LimitCheck {
    /// Not a number.
    NotNumber,
    /// A number above 0 dBFS.
    Positive,
    /// A number at or below 0 dBFS.
    Accepted,
}

/// The options of a run.
pub struct Args {
    pub file: Option<String>,
    pub debug: bool,
    pub soundfonts: Vec<String>,
    pub instrument: u8,
    /// `-i` (or the launcher) chose the first instrument.
    pub instrument_selected: bool,
    pub program_switches: Vec<ProgramSwitch>,
    pub tempo: Option<u32>,
    pub volume: u32,
    /// Index of the argument that gives the peak limit, if one does.
    pub limit_arg: Option<usize>,
    pub midi: bool,
}

/// What the command line asks for.
pub enum ArgsOutcome {
    /// Print the usage and stop.
    Help,
    Run(Args),
}

pub ghost struct ArgsModel {
    pub file: Option<Seq<char>>,
    pub debug: bool,
    pub soundfonts: Seq<Seq<char>>,
    pub instrument: u8,
    pub instrument_selected: bool,
    pub tempo: Option<u32>,
    pub volume: u32,
    pub limit_arg: Option<int>,
    pub midi: bool,
}

pub open spec fn args_init() -> ArgsModel {
    ArgsModel {
        file: None,
        debug: false,
        soundfonts: Seq::empty(),
        instrument: 0,
        instrument_selected: false,
        tempo: None,
        volume: 80,
        limit_arg: None,
        midi: false,
    }
}

pub open spec fn too_many_soundfonts_msg() -> Seq<char> {
    "最多指定 "@ + dec_str(MAX_SOUNDFONTS as nat) + " 个 SoundFont"@
}

/// Reads the arguments from index `i` on into `m`: `Ok(None)` for help,
/// `Ok(Some(..))` for the options, `Err` for the first fault.
pub open spec fn args_scan(a: Seq<Seq<char>>, chk: Seq<LimitCheck>, i: int, m: ArgsModel) -> Result<
    Option<ArgsModel>,
    Seq<char>,
>
    decreases a.len() - i,
{
    if i < 0 || i >= a.len() {
        Ok(Some(m))
    } else {
        let x = a[i];
        let has_next = i + 1 < a.len();
        if x == "-d"@ || x == "--debug"@ {
            args_scan(a, chk, i + 1, ArgsModel { debug: true, ..m })
        } else if x == "-h"@ || x == "--help"@ {
            Ok(None)
        } else if x == "-s"@ || x == "--soundfont"@ {
            if !has_next {
                Err("--soundfont 需要一个参数"@)
            } else if m.soundfonts.len() + 1 > MAX_SOUNDFONTS {
                Err(too_many_soundfonts_msg())
            } else {
                args_scan(a, chk, i + 2, ArgsModel { soundfonts: m.soundfonts.push(a[i + 1]), ..m })
            }
        } else if x == "-i"@ || x == "--instrument"@ {
            if !has_next {
                Err("--instrument 需要一个参数 (0-127)"@)
            } else {
                match parse_uint(a[i + 1], 65535) {
                    None => Err("音色编号需为 0-127 的整数"@),
                    Some(p) => if p > 127 {
                        Err("音色编号超出范围 (0-127)"@)
                    } else {
                        args_scan(
                            a,
                            chk,
                            i + 2,
                            ArgsModel { instrument: p as u8, instrument_selected: true, ..m },
                        )
                    },
                }
            }
        } else if x == "-m"@ || x == "--midi"@ {
            if !has_next {
                Err("--midi 需要一个参数"@)
            } else if m.file is Some {
                Err("只能指定一个乐曲文件"@)
            } else {
                args_scan(a, chk, i + 2, ArgsModel { file: Some(a[i + 1]), midi: true, ..m })
            }
        } else if x == "-t"@ || x == "--tempo"@ {
            if !has_next {
                Err("--tempo 需要一个参数"@)
            } else {
                match parse_uint(a[i + 1], u32::MAX as nat) {
                    None => Err("速度需为整数毫秒"@),
                    Some(t) => if t == 0 {
                        Err("速度必须大于 0 毫秒"@)
                    } else {
                        args_scan(a, chk, i + 2, ArgsModel { tempo: Some(t as u32), ..m })
                    },
                }
            }
        } else if x == "-b"@ || x == "--bpm"@ {
            if !has_next {
                Err("--bpm 需要一个参数"@)
            } else {
                match parse_uint(a[i + 1], u32::MAX as nat) {
                    None => Err("BPM 需为整数"@),
                    Some(b) => if b < 1 || b > 60000 {
                        Err("BPM 必须在 1-60000 之间"@)
                    } else {
                        args_scan(a, chk, i + 2, ArgsModel { tempo: Some((60000nat / b) as u32), ..m })
                    },
                }
            }
        } else if x == "-v"@ || x == "--volume"@ {
            if !has_next {
                Err("--volume 需要一个参数"@)
            } else {
                match parse_uint(a[i + 1], u32::MAX as nat) {
                    None => Err("音量需为 0-500 整数"@),
                    Some(v) => if v > 500 {
                        Err("音量超出范围 (0-500%)"@)
                    } else {
                        args_scan(a, chk, i + 2, ArgsModel { volume: v as u32, ..m })
                    },
                }
            }
        } else if x == "-l"@ || x == "--limit"@ {
            if !has_next {
                Err("--limit 需要一个参数 (dBFS, 如 -1.0)"@)
            } else if chk[i + 1] == LimitCheck::NotNumber {
                Err("限制电平需为数字 (dBFS)"@)
            } else if chk[i + 1] == LimitCheck::Positive {
                Err("限制电平必须 <= 0 dBFS"@)
            } else {
                args_scan(a, chk, i + 2, ArgsModel { limit_arg: Some(i + 1), ..m })
            }
        } else if x.len() > 0 && x[0] == '-' {
            Err("未知选项: "@ + x)
        } else {
            match m.file {
                Some(e) => Err("只能指定一个乐曲文件: "@ + e + " 和 "@ + x),
                None => args_scan(a, chk, i + 1, ArgsModel { file: Some(x), ..m }),
            }
        }
    }
}

/// Whether some argument is one of two spellings of an option.
pub open spec fn names(a: Seq<Seq<char>>, short: Seq<char>, long: Seq<char>) -> bool {
    exists|k: int| 0 <= k < a.len() && (a[k] == short || a[k] == long)
}

/// An option that no argument names keeps the value it had: debug output
/// without `-d`/`--debug`, the instrument without `-i`/`--instrument`, the
/// tempo without `-t`/`--tempo` and `-b`/`--bpm`, the volume without
/// `-v`/`--volume`, the peak limit without `-l`/`--limit`. With
/// `args_init` these are the defaults: no debug output, instrument 0, the
/// file's tempo, volume 80, no limit.
pub proof fn lemma_unnamed_options_keep_defaults(a: Seq<Seq<char>>, chk: Seq<LimitCheck>, i: int, m: ArgsModel)
    ensures
        args_scan(a, chk, i, m) matches Ok(Some(r)) ==> {
            &&& !names(a, "-d"@, "--debug"@) ==> r.debug == m.debug
            &&& !names(a, "-i"@, "--instrument"@) ==> r.instrument == m.instrument && r.instrument_selected
                == m.instrument_selected
            &&& !names(a, "-t"@, "--tempo"@) && !names(a, "-b"@, "--bpm"@) ==> r.tempo == m.tempo
            &&& !names(a, "-v"@, "--volume"@) ==> r.volume == m.volume
            &&& !names(a, "-l"@, "--limit"@) ==> r.limit_arg == m.limit_arg
        },
    decreases a.len() - i,
{
    if 0 <= i < a.len() {
        let x = a[i];
        let has_next = i + 1 < a.len();
        if x == "-d"@ || x == "--debug"@ {
            lemma_unnamed_options_keep_defaults(a, chk, i + 1, ArgsModel { debug: true, ..m });
            assert(names(a, "-d"@, "--debug"@));
        } else if x == "-h"@ || x == "--help"@ {
        } else if x == "-s"@ || x == "--soundfont"@ {
            if has_next && m.soundfonts.len() + 1 <= MAX_SOUNDFONTS {
                lemma_unnamed_options_keep_defaults(a, chk, i + 2, ArgsModel { soundfonts: m.soundfonts.push(a[i + 1]), ..m });
            }
        } else if x == "-i"@ || x == "--instrument"@ {
            assert(names(a, "-i"@, "--instrument"@));
            if has_next {
                match parse_uint(a[i + 1], 65535) {
                    Some(p) => if p <= 127 {
                        lemma_unnamed_options_keep_defaults(
                            a,
                            chk,
                            i + 2,
                            ArgsModel { instrument: p as u8, instrument_selected: true, ..m },
                        );
                    },
                    None => {},
                }
            }
        } else if x == "-m"@ || x == "--midi"@ {
            if has_next && m.file is None {
                lemma_unnamed_options_keep_defaults(a, chk, i + 2, ArgsModel { file: Some(a[i + 1]), midi: true, ..m });
            }
        } else if x == "-t"@ || x == "--tempo"@ {
            assert(names(a, "-t"@, "--tempo"@));
            if has_next {
                match parse_uint(a[i + 1], u32::MAX as nat) {
                    Some(t) => if t != 0 {
                        lemma_unnamed_options_keep_defaults(a, chk, i + 2, ArgsModel { tempo: Some(t as u32), ..m });
                    },
                    None => {},
                }
            }
        } else if x == "-b"@ || x == "--bpm"@ {
            assert(names(a, "-b"@, "--bpm"@));
            if has_next {
                match parse_uint(a[i + 1], u32::MAX as nat) {
                    Some(b) => if 1 <= b <= 60000 {
                        lemma_unnamed_options_keep_defaults(
                            a,
                            chk,
                            i + 2,
                            ArgsModel { tempo: Some((60000nat / b) as u32), ..m },
                        );
                    },
                    None => {},
                }
            }
        } else if x == "-v"@ || x == "--volume"@ {
            assert(names(a, "-v"@, "--volume"@));
            if has_next {
                match parse_uint(a[i + 1], u32::MAX as nat) {
                    Some(v) => if v <= 500 {
                        lemma_unnamed_options_keep_defaults(a, chk, i + 2, ArgsModel { volume: v as u32, ..m });
                    },
                    None => {},
                }
            }
        } else if x == "-l"@ || x == "--limit"@ {
            assert(names(a, "-l"@, "--limit"@));
            if has_next && chk[i + 1] != LimitCheck::NotNumber && chk[i + 1] != LimitCheck::Positive {
                lemma_unnamed_options_keep_defaults(a, chk, i + 2, ArgsModel { limit_arg: Some(i + 1), ..m });
            }
        } else if x.len() > 0 && x[0] == '-' {
        } else {
            if m.file is None {
                lemma_unnamed_options_keep_defaults(a, chk, i + 1, ArgsModel { file: Some(x), ..m });
            }
        }
    }
}

/// A word that starts with `-` and is no option is refused by name.
pub proof fn lemma_unknown_option_refused(a: Seq<Seq<char>>, chk: Seq<LimitCheck>, m: ArgsModel)
    requires
        a.len() > 0,
        a[0].len() > 0,
        a[0][0] == '-',
        !(a[0] == "-d"@ || a[0] == "--debug"@ || a[0] == "-h"@ || a[0] == "--help"@ || a[0] == "-s"@ || a[0]
            == "--soundfont"@ || a[0] == "-i"@ || a[0] == "--instrument"@ || a[0] == "-m"@ || a[0] == "--midi"@
            || a[0] == "-t"@ || a[0] == "--tempo"@ || a[0] == "-b"@ || a[0] == "--bpm"@ || a[0] == "-v"@ || a[0]
            == "--volume"@ || a[0] == "-l"@ || a[0] == "--limit"@),
    ensures
        args_scan(a, chk, 0, m) == Err::<Option<ArgsModel>, Seq<char>>("未知选项: "@ + a[0]),
{
}

pub open spec fn is_word(x: Seq<char>, short: Seq<char>, long: Seq<char>) -> bool {
    x == short || x == long
}

/// An option that takes the word after it as its value.
pub open spec fn takes_value(x: Seq<char>) -> bool {
    ||| is_word(x, "-s"@, "--soundfont"@)
    ||| is_word(x, "-i"@, "--instrument"@)
    ||| is_word(x, "-m"@, "--midi"@)
    ||| is_word(x, "-t"@, "--tempo"@)
    ||| is_word(x, "-b"@, "--bpm"@)
    ||| is_word(x, "-v"@, "--volume"@)
    ||| is_word(x, "-l"@, "--limit"@)
}

/// Whether reading argument `i`, with the options `m` read before it,
/// refuses the command line: an option missing its value; a soundfont past
/// the third; an instrument that is no integer 0-127; a second music file
/// (by `--midi` or as a plain word); a tempo that is no positive 32-bit
/// integer; a BPM outside 1-60000; a volume that is no integer 0-500; a
/// limit that is no number or above 0 dBFS; an unknown word starting with
/// `-`.
pub open spec fn arg_fault(a: Seq<Seq<char>>, chk: Seq<LimitCheck>, i: int, m: ArgsModel) -> bool {
    let x = a[i];
    if is_word(x, "-d"@, "--debug"@) || is_word(x, "-h"@, "--help"@) {
        false
    } else if takes_value(x) && i + 1 >= a.len() {
        true
    } else if is_word(x, "-s"@, "--soundfont"@) {
        m.soundfonts.len() >= MAX_SOUNDFONTS
    } else if is_word(x, "-i"@, "--instrument"@) {
        !(parse_uint(a[i + 1], 65535) matches Some(p) && p <= 127)
    } else if is_word(x, "-m"@, "--midi"@) {
        m.file is Some
    } else if is_word(x, "-t"@, "--tempo"@) {
        !(parse_uint(a[i + 1], u32::MAX as nat) matches Some(t) && t > 0)
    } else if is_word(x, "-b"@, "--bpm"@) {
        !(parse_uint(a[i + 1], u32::MAX as nat) matches Some(b) && 1 <= b <= 60000)
    } else if is_word(x, "-v"@, "--volume"@) {
        !(parse_uint(a[i + 1], u32::MAX as nat) matches Some(v) && v <= 500)
    } else if is_word(x, "-l"@, "--limit"@) {
        chk[i + 1] != LimitCheck::Accepted
    } else if x.len() > 0 && x[0] == '-' {
        true
    } else {
        m.file is Some
    }
}

/// Where the scan goes on after argument `i` when it neither fails nor
/// stops for help there: the next argument to read and the options then.
pub open spec fn args_next(a: Seq<Seq<char>>, chk: Seq<LimitCheck>, i: int, m: ArgsModel) -> (int, ArgsModel) {
    let x = a[i];
    if is_word(x, "-d"@, "--debug"@) {
        (i + 1, ArgsModel { debug: true, ..m })
    } else if is_word(x, "-s"@, "--soundfont"@) {
        (i + 2, ArgsModel { soundfonts: m.soundfonts.push(a[i + 1]), ..m })
    } else if is_word(x, "-i"@, "--instrument"@) {
        (i + 2, ArgsModel { instrument: parse_uint(a[i + 1], 65535)->Some_0 as u8, instrument_selected: true, ..m })
    } else if is_word(x, "-m"@, "--midi"@) {
        (i + 2, ArgsModel { file: Some(a[i + 1]), midi: true, ..m })
    } else if is_word(x, "-t"@, "--tempo"@) {
        (i + 2, ArgsModel { tempo: Some(parse_uint(a[i + 1], u32::MAX as nat)->Some_0 as u32), ..m })
    } else if is_word(x, "-b"@, "--bpm"@) {
        (i + 2, ArgsModel { tempo: Some((60000nat / parse_uint(a[i + 1], u32::MAX as nat)->Some_0) as u32), ..m })
    } else if is_word(x, "-v"@, "--volume"@) {
        (i + 2, ArgsModel { volume: parse_uint(a[i + 1], u32::MAX as nat)->Some_0 as u32, ..m })
    } else if is_word(x, "-l"@, "--limit"@) {
        (i + 2, ArgsModel { limit_arg: Some(i + 1), ..m })
    } else {
        (i + 1, ArgsModel { file: Some(x), ..m })
    }
}

/// Reading from argument `i` with options `m` gets to argument `j` with
/// options `mj`, every argument on the way read without fault or help.
pub open spec fn args_reach(a: Seq<Seq<char>>, chk: Seq<LimitCheck>, i: int, m: ArgsModel, j: int, mj: ArgsModel) -> bool
    decreases a.len() - i,
{
    if i == j && m == mj {
        true
    } else if 0 <= i < a.len() && !arg_fault(a, chk, i, m) && !is_word(a[i], "-h"@, "--help"@) {
        let (i2, m2) = args_next(a, chk, i, m);
        i2 > i && args_reach(a, chk, i2, m2, j, mj)
    } else {
        false
    }
}

proof fn lemma_args_step(a: Seq<Seq<char>>, chk: Seq<LimitCheck>, i: int, m: ArgsModel)
    requires
        0 <= i < a.len(),
    ensures
        arg_fault(a, chk, i, m) ==> args_scan(a, chk, i, m) is Err,
        !arg_fault(a, chk, i, m) && is_word(a[i], "-h"@, "--help"@) ==> args_scan(a, chk, i, m) == Ok::<
            Option<ArgsModel>,
            Seq<char>,
        >(None),
        !arg_fault(a, chk, i, m) && !is_word(a[i], "-h"@, "--help"@) ==> args_next(a, chk, i, m).0 > i
            && args_scan(a, chk, i, m) == args_scan(a, chk, args_next(a, chk, i, m).0, args_next(a, chk, i, m).1),
{
    reveal_strlit("-d");
    reveal_strlit("--debug");
    reveal_strlit("-h");
    reveal_strlit("--help");
    let x = a[i];
    if is_word(x, "-h"@, "--help"@) {
        assert(x != "-d"@ && x != "--debug"@) by {
            if x == "-h"@ {
                assert(x[1] == 'h');
            } else {
                assert(x.len() == 6);
            }
        }
    }
}

/// The command line is refused exactly when reading it gets to an argument
/// that refuses it (see `arg_fault`); else it asks for help or gives the
/// options (see `lemma_unnamed_options_keep_defaults` for the defaults).
pub proof fn lemma_args_refused_exactly(a: Seq<Seq<char>>, chk: Seq<LimitCheck>, i: int, m: ArgsModel)
    requires
        0 <= i,
    ensures
        args_scan(a, chk, i, m) is Err <==> exists|j: int, mj: ArgsModel|
            #![trigger args_reach(a, chk, i, m, j, mj)]
            i <= j < a.len() && args_reach(a, chk, i, m, j, mj) && arg_fault(a, chk, j, mj),
    decreases a.len() - i,
{
    if i >= a.len() {
        assert forall|j: int, mj: ArgsModel| i <= j < a.len() implies !args_reach(a, chk, i, m, j, mj) by {}
    } else {
        lemma_args_step(a, chk, i, m);
        if arg_fault(a, chk, i, m) {
            assert(args_reach(a, chk, i, m, i, m));
        } else if is_word(a[i], "-h"@, "--help"@) {
            assert forall|j: int, mj: ArgsModel|
                i <= j < a.len() && args_reach(a, chk, i, m, j, mj) implies !arg_fault(a, chk, j, mj) by {
                assert(i == j && m == mj);
            }
        } else {
            let (i2, m2) = args_next(a, chk, i, m);
            lemma_args_refused_exactly(a, chk, i2, m2);
            if args_scan(a, chk, i, m) is Err {
                let (j, mj) = choose|j: int, mj: ArgsModel|
                    #![trigger args_reach(a, chk, i2, m2, j, mj)]
                    i2 <= j < a.len() && args_reach(a, chk, i2, m2, j, mj) && arg_fault(a, chk, j, mj);
                assert(args_reach(a, chk, i, m, j, mj));
            } else {
                assert forall|j: int, mj: ArgsModel|
                    i <= j < a.len() && args_reach(a, chk, i, m, j, mj) implies !arg_fault(a, chk, j, mj) by {
                    if !(i == j && m == mj) {
                        assert(args_reach(a, chk, i2, m2, j, mj));
                        if arg_fault(a, chk, j, mj) {
                            lemma_reach_forward(a, chk, i2, m2, j, mj);
                        }
                    }
                }
            }
        }
    }
}

proof fn lemma_reach_forward(a: Seq<Seq<char>>, chk: Seq<LimitCheck>, i: int, m: ArgsModel, j: int, mj: ArgsModel)
    requires
        args_reach(a, chk, i, m, j, mj),
    ensures
        i <= j,
    decreases a.len() - i,
{
    if !(i == j && m == mj) {
        let (i2, m2) = args_next(a, chk, i, m);
        lemma_reach_forward(a, chk, i2, m2, j, mj);
    }
}

pub open spec fn args_view(a: Args) -> ArgsModel {
    ArgsModel {
        file: match a.file {
            Some(f) => Some(f@),
            None => None,
        },
        debug: a.debug,
        soundfonts: a.soundfonts@.map_values(|s: String| s@),
        instrument: a.instrument,
        instrument_selected: a.instrument_selected,
        tempo: a.tempo,
        volume: a.volume,
        limit_arg: match a.limit_arg {
            Some(k) => Some(k as int),
            None => None,
        },
        midi: a.midi,
    }
}

pub open spec fn strs_view(v: Seq<String>) -> Seq<Seq<char>> {
    v.map_values(|s: String| s@)
}

fn is_opt(x: &Vec<char>, short: &str, long: &str) -> (b: bool)
    ensures
        b == (x@ == short@ || x@ == long@),
{
    eq_str(x.as_slice(), short) || eq_str(x.as_slice(), long)
}

/// Reads the command line (without the program name); `limit_checks[k]`
/// says what argument `k` reads as a float. See `args_scan`.
#[verifier::rlimit(40)]
pub fn parse_args(args: &[String], limit_checks: &[LimitCheck]) -> (r: Result<ArgsOutcome, String>)
    requires
        limit_checks@.len() == args@.len(),
    ensures
        match args_scan(strs_view(args@), limit_checks@, 0, args_init()) {
            Ok(None) => r matches Ok(ArgsOutcome::Help),
            Ok(Some(m)) => r matches Ok(ArgsOutcome::Run(a)) && args_view(a) == m && a.program_switches@.len()
                == 0,
            Err(e) => r matches Err(msg) && msg@ == e,
        },
{
    let ghost av = strs_view(args@);
    let mut out = Args {
        file: None,
        debug: false,
        soundfonts: Vec::new(),
        instrument: 0,
        instrument_selected: false,
        program_switches: Vec::new(),
        tempo: None,
        volume: 80,
        limit_arg: None,
        midi: false,
    };
    assert(args_view(out) =~= args_init()) by {
        assert(out.soundfonts@.map_values(|s: String| s@) =~= Seq::<Seq<char>>::empty());
    }
    let n = args.len();
    let mut i: usize = 0;
    while i < n
        invariant
            0 <= i <= n,
            n == args@.len(),
            n == limit_checks@.len(),
            av == strs_view(args@),
            out.program_switches@.len() == 0,
            args_scan(av, limit_checks@, 0, args_init()) == args_scan(av, limit_checks@, i as int, args_view(out)),
        decreases n - i,
    {
        let x = chars_of(args[i].as_str());
        assert(x@ == av[i as int]);
        let has_next = i + 1 < n;
        proof {
            reveal_strlit("-d");
            reveal_strlit("--debug");
            reveal_strlit("-h");
            reveal_strlit("--help");
            reveal_strlit("-s");
            reveal_strlit("--soundfont");
            reveal_strlit("-i");
            reveal_strlit("--instrument");
            reveal_strlit("-m");
            reveal_strlit("--midi");
            reveal_strlit("-t");
            reveal_strlit("--tempo");
            reveal_strlit("-b");
            reveal_strlit("--bpm");
            reveal_strlit("-v");
            reveal_strlit("--volume");
            reveal_strlit("-l");
            reveal_strlit("--limit");
        }
        if is_opt(&x, "-d", "--debug") {
            out.debug = true;
            i = i + 1;
        } else if is_opt(&x, "-h", "--help") {
            return Ok(ArgsOutcome::Help);
        } else if is_opt(&x, "-s", "--soundfont") {
            if !has_next {
                return Err(string_from_chars(chars_of("--soundfont 需要一个参数").as_slice()));
            }
            if out.soundfonts.len() >= MAX_SOUNDFONTS {
                let mut m = chars_of("最多指定 ");
                append(&mut m, &dec_exec(MAX_SOUNDFONTS as u64));
                append(&mut m, &chars_of(" 个 SoundFont"));
                return Err(string_from_chars(m.as_slice()));
            }
            let ghost before = args_view(out);
            out.soundfonts.push(args[i + 1].clone());
            assert(out.soundfonts@.map_values(|s: String| s@) =~= before.soundfonts.push(av[i + 1]));
            assert(args_view(out) == ArgsModel { soundfonts: before.soundfonts.push(av[i + 1]), ..before });
            i = i + 2;
        } else if is_opt(&x, "-i", "--instrument") {
            if !has_next {
                return Err(string_from_chars(chars_of("--instrument 需要一个参数 (0-127)").as_slice()));
            }
            let v = chars_of(args[i + 1].as_str());
            match parse_uint_exec(v.as_slice(), 65535) {
                None => {
                    return Err(string_from_chars(chars_of("音色编号需为 0-127 的整数").as_slice()));
                },
                Some(p) => {
                    if p > 127 {
                        return Err(string_from_chars(chars_of("音色编号超出范围 (0-127)").as_slice()));
                    }
                    out.instrument = p as u8;
                    out.instrument_selected = true;
                },
            }
            i = i + 2;
        } else if is_opt(&x, "-m", "--midi") {
            if !has_next {
                return Err(string_from_chars(chars_of("--midi 需要一个参数").as_slice()));
            }
            if out.file.is_some() {
                return Err(string_from_chars(chars_of("只能指定一个乐曲文件").as_slice()));
            }
            out.file = Some(args[i + 1].clone());
            out.midi = true;
            i = i + 2;
        } else if is_opt(&x, "-t", "--tempo") {
            if !has_next {
                return Err(string_from_chars(chars_of("--tempo 需要一个参数").as_slice()));
            }
            let v = chars_of(args[i + 1].as_str());
            match parse_uint_exec(v.as_slice(), 0xffff_ffff) {
                None => {
                    return Err(string_from_chars(chars_of("速度需为整数毫秒").as_slice()));
                },
                Some(t) => {
                    if t == 0 {
                        return Err(string_from_chars(chars_of("速度必须大于 0 毫秒").as_slice()));
                    }
                    out.tempo = Some(t as u32);
                },
            }
            i = i + 2;
        } else if is_opt(&x, "-b", "--bpm") {
            if !has_next {
                return Err(string_from_chars(chars_of("--bpm 需要一个参数").as_slice()));
            }
            let v = chars_of(args[i + 1].as_str());
            match parse_uint_exec(v.as_slice(), 0xffff_ffff) {
                None => {
                    return Err(string_from_chars(chars_of("BPM 需为整数").as_slice()));
                },
                Some(b) => {
                    if b < 1 || b > 60000 {
                        return Err(string_from_chars(chars_of("BPM 必须在 1-60000 之间").as_slice()));
                    }
                    out.tempo = Some((60000 / b) as u32);
                },
            }
            i = i + 2;
        } else if is_opt(&x, "-v", "--volume") {
            if !has_next {
                return Err(string_from_chars(chars_of("--volume 需要一个参数").as_slice()));
            }
            let v = chars_of(args[i + 1].as_str());
            match parse_uint_exec(v.as_slice(), 0xffff_ffff) {
                None => {
                    return Err(string_from_chars(chars_of("音量需为 0-500 整数").as_slice()));
                },
                Some(vol) => {
                    if vol > 500 {
                        return Err(string_from_chars(chars_of("音量超出范围 (0-500%)").as_slice()));
                    }
                    out.volume = vol as u32;
                },
            }
            i = i + 2;
        } else if is_opt(&x, "-l", "--limit") {
            if !has_next {
                return Err(string_from_chars(chars_of("--limit 需要一个参数 (dBFS, 如 -1.0)").as_slice()));
            }
            match limit_checks[i + 1] {
                LimitCheck::NotNumber => {
                    return Err(string_from_chars(chars_of("限制电平需为数字 (dBFS)").as_slice()));
                },
                LimitCheck::Positive => {
                    return Err(string_from_chars(chars_of("限制电平必须 <= 0 dBFS").as_slice()));
                },
                LimitCheck::Accepted => {
                    out.limit_arg = Some(i + 1);
                },
            }
            i = i + 2;
        } else if x.len() > 0 && x[0] == '-' {
            let mut m = chars_of("未知选项: ");
            append(&mut m, &x);
            return Err(string_from_chars(m.as_slice()));
        } else {
            match &out.file {
                Some(e) => {
                    let mut m = chars_of("只能指定一个乐曲文件: ");
                    append(&mut m, &chars_of(e.as_str()));
                    append(&mut m, &chars_of(" 和 "));
                    append(&mut m, &x);
                    return Err(string_from_chars(m.as_slice()));
                },
                None => {},
            }
            out.file = Some(args[i].clone());
            i = i + 1;
        }
    }
    Ok(ArgsOutcome::Run(out))
}
} // verus!
