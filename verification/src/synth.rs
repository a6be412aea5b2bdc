//! Playback rules that do not touch the audio engine: instrument switches
//! on the timeline, note names, and the tempo map of a MIDI file.
use vstd::prelude::*;
use crate::text::{append, chars_of, dec_exec, dec_str, lpad, lpad_exec, string_from_chars};

verus! {

/// Largest number of soundfonts loaded at once.
pub const MAX_SOUNDFONTS: usize = 3;

/// Largest combined size in bytes of any two soundfonts.
pub const MAX_SOUNDFONT_PAIR_BYTES: u64 = 120000000;

/// Largest number of instrument switches on one timeline.
pub const MAX_PROGRAM_SWITCHES: usize = 24;

/// An instrument switch on the playing timeline: from `at_ms` on, the
/// soundfont with index `soundfont` plays GM program `instrument`.
#[derive(Debug, Clone, Copy, PartialEq, Eq, Structural)]
pub struct ProgramSwitch {
    pub at_ms: u32,
    pub soundfont: usize,
    pub instrument: u8,
}

// ---------------------------------------------------------------------------
// Switch lists
// ---------------------------------------------------------------------------

pub open spec fn too_many_switches_msg() -> Seq<char> {
    "最多设置 "@ + dec_str(MAX_PROGRAM_SWITCHES as nat) + " 条中途音色切换"@
}

pub open spec fn no_soundfont_msg() -> Seq<char> {
    "至少需要一个 SoundFont"@
}

pub open spec fn missing_soundfont_msg(index: int, soundfont: int) -> Seq<char> {
    "第 "@ + dec_str((index + 1) as nat) + " 条切换引用了不存在的 SoundFont #"@ + dec_str(
        (soundfont + 1) as nat,
    )
}

pub open spec fn unordered_msg() -> Seq<char> {
    "中途音色切换必须按时间从早到晚排列"@
}

/// The first fault from index `i` on: a switch naming a soundfont that is
/// not loaded, or one earlier than the switch before it.
pub open spec fn switch_fault(s: Seq<ProgramSwitch>, count: nat, i: int) -> Option<Seq<char>>
    decreases s.len() - i,
{
    if i < 0 || i >= s.len() {
        None
    } else if s[i].soundfont >= count {
        Some(missing_soundfont_msg(i, s[i].soundfont as int))
    } else if i > 0 && s[i].at_ms < s[i - 1].at_ms {
        Some(unordered_msg())
    } else {
        switch_fault(s, count, i + 1)
    }
}

/// What `validate_program_switches` answers.
pub open spec fn switches_check(s: Seq<ProgramSwitch>, count: nat) -> Result<(), Seq<char>> {
    if s.len() > MAX_PROGRAM_SWITCHES {
        Err(too_many_switches_msg())
    } else if count == 0 {
        Err(no_soundfont_msg())
    } else {
        match switch_fault(s, count, 0) {
            Some(m) => Err(m),
            None => Ok(()),
        }
    }
}

/// A list of switches every player accepts: at most the limit, each naming
/// a loaded soundfont, in time order (equal times allowed).
pub open spec fn switches_valid(s: Seq<ProgramSwitch>, count: nat) -> bool {
    &&& s.len() <= MAX_PROGRAM_SWITCHES
    &&& count > 0
    &&& forall|k: int| 0 <= k < s.len() ==> (#[trigger] s[k]).soundfont < count
    &&& forall|a: int, b: int| 0 <= a <= b < s.len() ==> s[a].at_ms <= s[b].at_ms
}

proof fn lemma_switch_fault_none(s: Seq<ProgramSwitch>, count: nat, i: int)
    requires
        0 <= i <= s.len(),
    ensures
        switch_fault(s, count, i) is None <==> (
            (forall|k: int| i <= k < s.len() ==> (#[trigger] s[k]).soundfont < count)
            && (forall|k: int| i <= k < s.len() && k > 0 ==> s[k - 1].at_ms <= #[trigger] s[k].at_ms)
        ),
    decreases s.len() - i,
{
    if i < s.len() {
        lemma_switch_fault_none(s, count, i + 1);
    }
}

proof fn lemma_adjacent_sorted(s: Seq<ProgramSwitch>)
    requires
        forall|k: int| 0 < k < s.len() ==> s[k - 1].at_ms <= #[trigger] s[k].at_ms,
    ensures
        forall|a: int, b: int| 0 <= a <= b < s.len() ==> s[a].at_ms <= s[b].at_ms,
    decreases s.len(),
{
    if s.len() > 0 {
        let t = s.drop_last();
        assert forall|k: int| 0 < k < t.len() implies t[k - 1].at_ms <= #[trigger] t[k].at_ms by {
            assert(t[k] == s[k] && t[k - 1] == s[k - 1]);
        }
        lemma_adjacent_sorted(t);
        assert forall|a: int, b: int| 0 <= a <= b < s.len() implies s[a].at_ms <= s[b].at_ms by {
            if b < s.len() - 1 {
                assert(t[a] == s[a] && t[b] == s[b]);
            } else if a < b {
                assert(t[a] == s[a]);
                assert(t[b - 1] == s[b - 1]);
                assert(s[b - 1].at_ms <= s[b].at_ms);
            }
        }
    }
}

/// A switch list is accepted exactly when it is valid.
pub proof fn lemma_switches_check_ok(s: Seq<ProgramSwitch>, count: nat)
    ensures
        switches_check(s, count) is Ok <==> switches_valid(s, count),
{
    lemma_switch_fault_none(s, count, 0);
    if switch_fault(s, count, 0) is None {
        lemma_adjacent_sorted(s);
    }
}

/// Checks a switch list: its length, the soundfonts it names and its time
/// order. Switches at the same time are allowed; they take effect in list
/// order.
pub fn validate_program_switches(switches: &[ProgramSwitch], soundfont_count: usize) -> (r: Result<(), String>)
    requires
        forall|k: int| 0 <= k < switches@.len() ==> (#[trigger] switches@[k]).soundfont < usize::MAX,
    ensures
        match switches_check(switches@, soundfont_count as nat) {
            Ok(()) => r is Ok,
            Err(m) => r is Err && r->Err_0@ == m,
        },
{
    if switches.len() > MAX_PROGRAM_SWITCHES {
        let mut m = chars_of("最多设置 ");
        append(&mut m, &dec_exec(MAX_PROGRAM_SWITCHES as u64));
        append(&mut m, &chars_of(" 条中途音色切换"));
        return Err(string_from_chars(m.as_slice()));
    }
    if soundfont_count == 0 {
        return Err(string_from_chars(chars_of("至少需要一个 SoundFont").as_slice()));
    }
    let mut previous: u32 = 0;
    let mut index: usize = 0;
    while index < switches.len()
        invariant
            0 <= index <= switches@.len(),
            switches@.len() <= MAX_PROGRAM_SWITCHES,
            soundfont_count > 0,
            forall|k: int| 0 <= k < switches@.len() ==> (#[trigger] switches@[k]).soundfont < usize::MAX,
            index > 0 ==> previous == switches@[index - 1].at_ms,
            switch_fault(switches@, soundfont_count as nat, 0) == switch_fault(
                switches@,
                soundfont_count as nat,
                index as int,
            ),
        decreases switches@.len() - index,
    {
        let sw = switches[index];
        if sw.soundfont >= soundfont_count {
            let mut m = chars_of("第 ");
            append(&mut m, &dec_exec((index + 1) as u64));
            append(&mut m, &chars_of(" 条切换引用了不存在的 SoundFont #"));
            append(&mut m, &dec_exec((sw.soundfont + 1) as u64));
            return Err(string_from_chars(m.as_slice()));
        }
        if index > 0 && sw.at_ms < previous {
            return Err(string_from_chars(chars_of("中途音色切换必须按时间从早到晚排列").as_slice()));
        }
        previous = sw.at_ms;
        index = index + 1;
    }
    Ok(())
}

/// Number of leading switches at or before `at_ms`.
pub open spec fn switches_reached(s: Seq<ProgramSwitch>, at_ms: u32) -> nat
    decreases s.len(),
{
    if s.len() == 0 || s[0].at_ms > at_ms {
        0
    } else {
        1 + switches_reached(s.drop_first(), at_ms)
    }
}

/// The selection in force at `at_ms`: the last switch of the leading run
/// at or before that time, else the initial choice (at time 0).
pub open spec fn selection(sf: usize, instrument: u8, s: Seq<ProgramSwitch>, at_ms: u32) -> ProgramSwitch {
    let n = switches_reached(s, at_ms);
    if n == 0 {
        ProgramSwitch { at_ms: 0, soundfont: sf, instrument }
    } else {
        s[n - 1]
    }
}

proof fn lemma_switches_reached(s: Seq<ProgramSwitch>, at_ms: u32)
    ensures
        switches_reached(s, at_ms) <= s.len(),
        forall|k: int| 0 <= k < switches_reached(s, at_ms) ==> (#[trigger] s[k]).at_ms <= at_ms,
        switches_reached(s, at_ms) < s.len() ==> s[switches_reached(s, at_ms) as int].at_ms > at_ms,
    decreases s.len(),
{
    if s.len() > 0 && s[0].at_ms <= at_ms {
        lemma_switches_reached(s.drop_first(), at_ms);
        assert forall|k: int| 0 <= k < switches_reached(s, at_ms) implies (#[trigger] s[k]).at_ms <= at_ms by {
            if k > 0 {
                assert(s[k] == s.drop_first()[k - 1]);
            }
        }
    }
}

/// On a time-ordered list the selection at `at_ms` is the last switch at or
/// before `at_ms` (so of several at one time the last listed wins), and the
/// initial choice when every switch is later.
pub proof fn lemma_selection_is_last_reached(sf: usize, instrument: u8, s: Seq<ProgramSwitch>, at_ms: u32)
    requires
        forall|a: int, b: int| 0 <= a <= b < s.len() ==> s[a].at_ms <= s[b].at_ms,
    ensures
        (forall|k: int| 0 <= k < s.len() ==> (#[trigger] s[k]).at_ms > at_ms) ==> selection(
            sf,
            instrument,
            s,
            at_ms,
        ) == (ProgramSwitch { at_ms: 0, soundfont: sf, instrument }),
        forall|j: int|
            0 <= j < s.len() && s[j].at_ms <= at_ms && (j + 1 == s.len() || s[j + 1].at_ms > at_ms)
                ==> selection(sf, instrument, s, at_ms) == #[trigger] s[j],
{
    lemma_switches_reached(s, at_ms);
    let n = switches_reached(s, at_ms) as int;
    if n > 0 {
        assert(s[0].at_ms <= at_ms);
    }
    assert forall|j: int|
        0 <= j < s.len() && s[j].at_ms <= at_ms && (j + 1 == s.len() || s[j + 1].at_ms > at_ms)
        implies selection(sf, instrument, s, at_ms) == #[trigger] s[j] by {
        if n <= j {
            if n < s.len() {
                assert(s[n].at_ms <= s[j].at_ms);
            }
        }
        if j + 1 < n {
            assert(s[j + 1].at_ms <= at_ms);
        }
    }
}

/// The instrument in force at `at_ms`; see `selection`.
pub fn selection_at(
    initial_soundfont: usize,
    initial_instrument: u8,
    switches: &[ProgramSwitch],
    at_ms: u32,
) -> (r: ProgramSwitch)
    ensures
        r == selection(initial_soundfont, initial_instrument, switches@, at_ms),
{
    let mut selected = ProgramSwitch { at_ms: 0, soundfont: initial_soundfont, instrument: initial_instrument };
    let mut i: usize = 0;
    assert(switches@.skip(0) =~= switches@);
    while i < switches.len()
        invariant
            0 <= i <= switches@.len(),
            switches_reached(switches@, at_ms) >= i,
            switches_reached(switches@, at_ms) == i + switches_reached(switches@.skip(i as int), at_ms),
            i == 0 ==> selected == (ProgramSwitch {
                at_ms: 0,
                soundfont: initial_soundfont,
                instrument: initial_instrument,
            }),
            i > 0 ==> selected == switches@[i - 1],
        decreases switches@.len() - i,
    {
        if switches[i].at_ms > at_ms {
            assert(switches_reached(switches@.skip(i as int), at_ms) == 0);
            return selected;
        }
        assert(switches@.skip(i as int).drop_first() =~= switches@.skip(i + 1));
        selected = switches[i];
        i = i + 1;
    }
    assert(switches_reached(switches@.skip(i as int), at_ms) == 0);
    selected
}

// ---------------------------------------------------------------------------
// Note names
// ---------------------------------------------------------------------------

pub open spec fn pitch_class_name(k: nat) -> Seq<char> {
    if k == 0 {
        "C"@
    } else if k == 1 {
        "C#"@
    } else if k == 2 {
        "D"@
    } else if k == 3 {
        "D#"@
    } else if k == 4 {
        "E"@
    } else if k == 5 {
        "F"@
    } else if k == 6 {
        "F#"@
    } else if k == 7 {
        "G"@
    } else if k == 8 {
        "G#"@
    } else if k == 9 {
        "A"@
    } else if k == 10 {
        "A#"@
    } else {
        "B"@
    }
}

/// Scientific pitch name of a MIDI key: `C4` is key 60, key 0 is `C-1`.
pub open spec fn note_name(key: u8) -> Seq<char> {
    pitch_class_name((key % 12) as nat) + if key < 12 {
        "-1"@
    } else {
        dec_str((key / 12 - 1) as nat)
    }
}

pub fn midi_note_name_chars(key: u8) -> (r: Vec<char>)
    ensures
        r@ == note_name(key),
{
    let k = key % 12;
    let mut r = if k == 0 {
        chars_of("C")
    } else if k == 1 {
        chars_of("C#")
    } else if k == 2 {
        chars_of("D")
    } else if k == 3 {
        chars_of("D#")
    } else if k == 4 {
        chars_of("E")
    } else if k == 5 {
        chars_of("F")
    } else if k == 6 {
        chars_of("F#")
    } else if k == 7 {
        chars_of("G")
    } else if k == 8 {
        chars_of("G#")
    } else if k == 9 {
        chars_of("A")
    } else if k == 10 {
        chars_of("A#")
    } else {
        chars_of("B")
    };
    if key < 12 {
        append(&mut r, &chars_of("-1"));
    } else {
        append(&mut r, &dec_exec((key / 12 - 1) as u64));
    }
    r
}

/// Scientific pitch name of a MIDI key, such as `C4` for key 60.
pub fn midi_note_name(key: u8) -> (r: String)
    ensures
        r@ == note_name(key),
{
    string_from_chars(midi_note_name_chars(key).as_slice())
}


// ---------------------------------------------------------------------------
// Soundfont sets
// ---------------------------------------------------------------------------

/// What the file system says of one soundfont path.
pub struct SoundfontFacts {
    /// Its metadata could be read.
    pub readable: bool,
    /// It is a regular file.
    pub is_file: bool,
    /// Its extension is `sf2` or `sf3` (in any case).
    pub soundfont_ext: bool,
    /// Its canonical path (the path itself when it has none).
    pub identity: String,
    /// Its size in bytes.
    pub bytes: u64,
}

/// Why a set of soundfonts is refused; indices are positions in the list.
#[derive(Debug, Clone, Copy, PartialEq, Eq, Structural)]
pub enum SoundfontFault {
    Empty,
    TooMany,
    Unreadable(usize),
    NotFile(usize),
    NotSoundfont(usize),
    Duplicate(usize),
    TooLarge(usize),
    /// Two soundfonts whose combined size (the third field) is too large.
    PairTooLarge(usize, usize, u64),
}

pub open spec fn facts_view(f: Seq<SoundfontFacts>) -> Seq<(bool, bool, bool, Seq<char>, u64)> {
    f.map_values(|x: SoundfontFacts| (x.readable, x.is_file, x.soundfont_ext, x.identity@, x.bytes))
}

/// The first fault of a single soundfont from index `i` on, in list order.
pub open spec fn single_fault(f: Seq<(bool, bool, bool, Seq<char>, u64)>, i: int) -> Option<SoundfontFault>
    decreases f.len() - i,
{
    if i < 0 || i >= f.len() {
        None
    } else if !f[i].0 {
        Some(SoundfontFault::Unreadable(i as usize))
    } else if !f[i].1 {
        Some(SoundfontFault::NotFile(i as usize))
    } else if !f[i].2 {
        Some(SoundfontFault::NotSoundfont(i as usize))
    } else if exists|j: int| 0 <= j < i && #[trigger] f[j].3 == f[i].3 {
        Some(SoundfontFault::Duplicate(i as usize))
    } else if f[i].4 > MAX_SOUNDFONT_PAIR_BYTES {
        Some(SoundfontFault::TooLarge(i as usize))
    } else {
        single_fault(f, i + 1)
    }
}

pub open spec fn pair_sum(a: u64, b: u64) -> u64 {
    if a + b > u64::MAX {
        u64::MAX
    } else {
        (a + b) as u64
    }
}

/// The first pair `(a, b)`, `a < b`, in order, from `(a, b)` on, whose
/// combined size is over the limit.
pub open spec fn pair_fault(f: Seq<(bool, bool, bool, Seq<char>, u64)>, a: int, b: int) -> Option<SoundfontFault>
    decreases f.len() - a, f.len() - b,
{
    if a < 0 || a >= f.len() {
        None
    } else if b >= f.len() || b <= a {
        pair_fault(f, a + 1, a + 2)
    } else if pair_sum(f[a].4, f[b].4) > MAX_SOUNDFONT_PAIR_BYTES {
        Some(SoundfontFault::PairTooLarge(a as usize, b as usize, pair_sum(f[a].4, f[b].4)))
    } else {
        pair_fault(f, a, b + 1)
    }
}

/// A soundfont set is loaded only when it has one to three readable,
/// distinct `.sf2`/`.sf3` files, none over the limit alone and no two over
/// it together; else the first fault.
pub open spec fn soundfonts_fault(f: Seq<(bool, bool, bool, Seq<char>, u64)>) -> Option<SoundfontFault> {
    if f.len() == 0 {
        Some(SoundfontFault::Empty)
    } else if f.len() > MAX_SOUNDFONTS {
        Some(SoundfontFault::TooMany)
    } else {
        match single_fault(f, 0) {
            Some(x) => Some(x),
            None => pair_fault(f, 0, 1),
        }
    }
}

/// One soundfont of the list that is fine alone: readable, a regular file,
/// an `.sf2`/`.sf3`, unlike every one before it, and not over the limit.
pub open spec fn soundfont_ok(f: Seq<(bool, bool, bool, Seq<char>, u64)>, i: int) -> bool {
    &&& f[i].0
    &&& f[i].1
    &&& f[i].2
    &&& forall|j: int| 0 <= j < i ==> #[trigger] f[j].3 != f[i].3
    &&& f[i].4 <= MAX_SOUNDFONT_PAIR_BYTES
}

proof fn lemma_single_fault_none(f: Seq<(bool, bool, bool, Seq<char>, u64)>, i: int)
    requires
        0 <= i <= f.len(),
    ensures
        single_fault(f, i) is None <==> forall|k: int| i <= k < f.len() ==> #[trigger] soundfont_ok(f, k),
    decreases f.len() - i,
{
    if i < f.len() {
        lemma_single_fault_none(f, i + 1);
        if single_fault(f, i) is None {
            assert forall|k: int| i <= k < f.len() implies #[trigger] soundfont_ok(f, k) by {
                if k == i {
                    assert forall|j: int| 0 <= j < i implies #[trigger] f[j].3 != f[i].3 by {
                        if f[j].3 == f[i].3 {
                            assert(exists|j: int| 0 <= j < i && #[trigger] f[j].3 == f[i].3);
                        }
                    }
                }
            }
        }
        if forall|k: int| i <= k < f.len() ==> #[trigger] soundfont_ok(f, k) {
            assert(soundfont_ok(f, i));
            assert(forall|k: int| i + 1 <= k < f.len() ==> #[trigger] soundfont_ok(f, k));
        }
    }
}

/// No two soundfonts of the list, from the pair `(a, b)` on in order, are
/// over the limit together.
pub open spec fn pairs_ok_from(f: Seq<(bool, bool, bool, Seq<char>, u64)>, a: int, b: int) -> bool {
    forall|x: int, y: int|
        0 <= x < y < f.len() && (x > a || (x == a && y >= b)) ==> #[trigger] pair_sum(f[x].4, f[y].4)
            <= MAX_SOUNDFONT_PAIR_BYTES
}

proof fn lemma_pair_fault_none(f: Seq<(bool, bool, bool, Seq<char>, u64)>, a: int, b: int)
    requires
        0 <= a,
        a < b || b == a + 1,
    ensures
        pair_fault(f, a, b) is None <==> pairs_ok_from(f, a, b),
    decreases f.len() - a, f.len() - b,
{
    if a >= f.len() {
    } else if b >= f.len() {
        lemma_pair_fault_none(f, a + 1, a + 2);
        assert(pairs_ok_from(f, a, b) <==> pairs_ok_from(f, a + 1, a + 2)) by {
            if pairs_ok_from(f, a + 1, a + 2) {
                assert forall|x: int, y: int|
                    0 <= x < y < f.len() && (x > a || (x == a && y >= b)) implies #[trigger] pair_sum(f[x].4, f[y].4)
                        <= MAX_SOUNDFONT_PAIR_BYTES by {
                    assert(x > a + 1 || (x == a + 1 && y >= a + 2));
                }
            }
        }
    } else {
        lemma_pair_fault_none(f, a, b + 1);
    }
}

/// One to three soundfonts, each fine alone, and no two over the limit
/// together.
pub open spec fn soundfonts_acceptable(f: Seq<(bool, bool, bool, Seq<char>, u64)>) -> bool {
    &&& 1 <= f.len() <= MAX_SOUNDFONTS
    &&& forall|i: int| 0 <= i < f.len() ==> #[trigger] soundfont_ok(f, i)
    &&& forall|x: int, y: int| 0 <= x < y < f.len() ==> #[trigger] pair_sum(f[x].4, f[y].4)
        <= MAX_SOUNDFONT_PAIR_BYTES
}

/// A list of soundfonts is accepted exactly when it holds one to three,
/// each fine alone (readable, a regular file, an `.sf2`/`.sf3`, not the
/// same file as one before it, not over the limit) and no two over the
/// limit together.
pub proof fn lemma_soundfonts_accepted_iff(f: Seq<(bool, bool, bool, Seq<char>, u64)>)
    ensures
        soundfonts_fault(f) is None <==> soundfonts_acceptable(f),
{
    if 1 <= f.len() <= MAX_SOUNDFONTS {
        lemma_single_fault_none(f, 0);
        lemma_pair_fault_none(f, 0, 1);
        if pairs_ok_from(f, 0, 1) {
            assert forall|x: int, y: int| 0 <= x < y < f.len() implies #[trigger] pair_sum(f[x].4, f[y].4)
                <= MAX_SOUNDFONT_PAIR_BYTES by {
                assert(x > 0 || (x == 0 && y >= 1));
            }
        }
    }
}

fn same_chars(a: &String, b: &String) -> (r: bool)
    ensures
        r == (a@ == b@),
{
    let x = chars_of(a.as_str());
    let y = chars_of(b.as_str());
    if x.len() != y.len() {
        return false;
    }
    let mut k: usize = 0;
    while k < x.len()
        invariant
            0 <= k <= x@.len(),
            x@.len() == y@.len(),
            x@ == a@,
            y@ == b@,
            forall|m: int| 0 <= m < k ==> x@[m] == y@[m],
        decreases x@.len() - k,
    {
        if x[k] != y[k] {
            assert(x@[k as int] != y@[k as int]);
            return false;
        }
        k = k + 1;
    }
    assert(x@ =~= y@);
    true
}

/// Checks a soundfont set; see `soundfonts_fault`.
pub fn check_soundfonts(facts: &[SoundfontFacts]) -> (r: Result<(), SoundfontFault>)
    ensures
        match soundfonts_fault(facts_view(facts@)) {
            Some(x) => r == Err::<(), SoundfontFault>(x),
            None => r is Ok,
        },
        r is Ok <==> soundfonts_acceptable(facts_view(facts@)),
{
    proof {
        lemma_soundfonts_accepted_iff(facts_view(facts@));
    }
    first_soundfont_fault(facts)
}

fn first_soundfont_fault(facts: &[SoundfontFacts]) -> (r: Result<(), SoundfontFault>)
    ensures
        match soundfonts_fault(facts_view(facts@)) {
            Some(x) => r == Err::<(), SoundfontFault>(x),
            None => r is Ok,
        },
{
    let ghost fv = facts_view(facts@);
    let n = facts.len();
    if n == 0 {
        return Err(SoundfontFault::Empty);
    }
    if n > MAX_SOUNDFONTS {
        return Err(SoundfontFault::TooMany);
    }
    let mut i: usize = 0;
    while i < n
        invariant
            0 <= i <= n,
            n == facts@.len(),
            n <= MAX_SOUNDFONTS,
            fv == facts_view(facts@),
            single_fault(fv, 0) == single_fault(fv, i as int),
        decreases n - i,
    {
        let f = &facts[i];
        assert(fv[i as int] == (f.readable, f.is_file, f.soundfont_ext, f.identity@, f.bytes));
        if !f.readable {
            return Err(SoundfontFault::Unreadable(i));
        }
        if !f.is_file {
            return Err(SoundfontFault::NotFile(i));
        }
        if !f.soundfont_ext {
            return Err(SoundfontFault::NotSoundfont(i));
        }
        let mut j: usize = 0;
        while j < i
            invariant
                0 <= j <= i < n,
                n == facts@.len(),
                n <= MAX_SOUNDFONTS,
                fv == facts_view(facts@),
                single_fault(fv, 0) == single_fault(fv, i as int),
                fv[i as int].0 && fv[i as int].1 && fv[i as int].2,
                forall|k: int| 0 <= k < j ==> fv[k].3 != fv[i as int].3,
            decreases i - j,
        {
            assert(fv[j as int].3 == facts@[j as int].identity@);
            if same_chars(&facts[j].identity, &facts[i].identity) {
                assert(fv[j as int].3 == fv[i as int].3);
                return Err(SoundfontFault::Duplicate(i));
            }
            j = j + 1;
        }
        if f.bytes > MAX_SOUNDFONT_PAIR_BYTES {
            return Err(SoundfontFault::TooLarge(i));
        }
        i = i + 1;
    }
    let mut a: usize = 0;
    while a < n
        invariant
            0 <= a <= n,
            n == facts@.len(),
            1 <= n <= MAX_SOUNDFONTS,
            fv == facts_view(facts@),
            single_fault(fv, 0) is None,
            pair_fault(fv, 0, 1) == pair_fault(fv, a as int, a + 1),
        decreases n - a,
    {
        let mut b: usize = a + 1;
        while b < n
            invariant
                a < n,
                a + 1 <= b <= n,
                n == facts@.len(),
                1 <= n <= MAX_SOUNDFONTS,
                single_fault(fv, 0) is None,
                fv == facts_view(facts@),
                pair_fault(fv, 0, 1) == pair_fault(fv, a as int, b as int),
            decreases n - b,
        {
            let sum = facts[a].bytes.saturating_add(facts[b].bytes);
            if sum > MAX_SOUNDFONT_PAIR_BYTES {
                return Err(SoundfontFault::PairTooLarge(a, b, sum));
            }
            b = b + 1;
        }
        a = a + 1;
    }
    Ok(())
}

/// Combined size of an accepted soundfont set (saturating).
pub fn soundfont_total_bytes(facts: &[SoundfontFacts]) -> (r: Result<u64, SoundfontFault>)
    ensures
        match soundfonts_fault(facts_view(facts@)) {
            Some(x) => r == Err::<u64, SoundfontFault>(x),
            None => r matches Ok(t) && t == total_bytes(facts_view(facts@)),
        },
{
    match check_soundfonts(facts) {
        Err(e) => Err(e),
        Ok(()) => {
            let ghost fv = facts_view(facts@);
            let mut t: u64 = 0;
            let mut i: usize = 0;
            while i < facts.len()
                invariant
                    0 <= i <= facts@.len(),
                    fv == facts_view(facts@),
                    t == total_bytes(fv.take(i as int)),
                decreases facts@.len() - i,
            {
                assert(fv.take(i + 1).drop_last() =~= fv.take(i as int));
                t = t.saturating_add(facts[i].bytes);
                i = i + 1;
            }
            assert(fv.take(facts@.len() as int) =~= fv);
            Ok(t)
        },
    }
}

pub open spec fn total_bytes(f: Seq<(bool, bool, bool, Seq<char>, u64)>) -> u64
    decreases f.len(),
{
    if f.len() == 0 {
        0
    } else {
        pair_sum(total_bytes(f.drop_last()), f.last().4)
    }
}

// ---------------------------------------------------------------------------
// Instrument checks before playing
// ---------------------------------------------------------------------------

/// An instrument that must exist before playing, and where it is asked for.
pub struct Requirement {
    pub soundfont: usize,
    pub instrument: u8,
    pub label: String,
}

/// `{at_ms / 1000}.{at_ms % 1000:03}`: seconds with three decimals.
pub open spec fn seconds_text(at_ms: u32) -> Seq<char> {
    dec_str((at_ms / 1000) as nat) + "."@ + lpad(dec_str((at_ms % 1000) as nat), 3, '0')
}

pub open spec fn switch_label(index: int, at_ms: u32, midi: bool) -> Seq<char> {
    "第 "@ + dec_str((index + 1) as nat) + (if midi {
        " 条 MIDI 切换（"@
    } else {
        " 条切换（"@
    }) + seconds_text(at_ms) + " 秒）"@
}

/// The (soundfont, instrument, label) wanted: the first instrument (always
/// for a score, when chosen for a MIDI file), then each switch.
pub open spec fn wanted(initial: Option<(usize, u8)>, sw: Seq<ProgramSwitch>, midi: bool) -> Seq<(usize, u8, Seq<char>)> {
    let first = match initial {
        Some((sf, ins)) => seq![(sf, ins, if midi { "MIDI 初始音色"@ } else { "初始音色"@ })],
        None => Seq::empty(),
    };
    first + Seq::new(sw.len(), |k: int| (sw[k].soundfont, sw[k].instrument, switch_label(k, sw[k].at_ms, midi)))
}

/// Keeps the first of the entries asking for each (soundfont, instrument).
pub open spec fn first_of_each(w: Seq<(usize, u8, Seq<char>)>) -> Seq<(usize, u8, Seq<char>)>
    decreases w.len(),
{
    if w.len() == 0 {
        Seq::empty()
    } else {
        let rest = first_of_each(w.drop_last());
        let x = w.last();
        if exists|k: int| 0 <= k < w.len() - 1 && (#[trigger] w[k]).0 == x.0 && w[k].1 == x.1 {
            rest
        } else {
            rest.push(x)
        }
    }
}

pub open spec fn reqs_view(v: Seq<Requirement>) -> Seq<(usize, u8, Seq<char>)> {
    v.map_values(|r: Requirement| (r.soundfont, r.instrument, r.label@))
}

fn seconds_chars(at_ms: u32) -> (r: Vec<char>)
    ensures
        r@ == seconds_text(at_ms),
{
    let mut r = dec_exec((at_ms / 1000) as u64);
    append(&mut r, &chars_of("."));
    append(&mut r, &lpad_exec(&dec_exec((at_ms % 1000) as u64), 3, '0'));
    r
}

/// The instruments to check before playing, each once, in the order first
/// asked for; see `wanted` and `first_of_each`.
pub fn program_requirements(initial: Option<(usize, u8)>, switches: &[ProgramSwitch], midi: bool) -> (r: Vec<Requirement>)
    requires
        switches@.len() < usize::MAX,
    ensures
        reqs_view(r@) == first_of_each(wanted(initial, switches@, midi)),
{
    let ghost w = wanted(initial, switches@, midi);
    let mut all: Vec<Requirement> = Vec::new();
    match initial {
        Some((sf, ins)) => {
            let label = if midi { chars_of("MIDI 初始音色") } else { chars_of("初始音色") };
            all.push(Requirement { soundfont: sf, instrument: ins, label: string_from_chars(label.as_slice()) });
        },
        None => {},
    }
    let ghost off = all@.len();
    let mut k: usize = 0;
    while k < switches.len()
        invariant
            0 <= k <= switches@.len(),
            switches@.len() < usize::MAX,
            w == wanted(initial, switches@, midi),
            off == (if initial is Some { 1int } else { 0int }),
            all@.len() == off + k,
            reqs_view(all@) == w.take(off + k),
        decreases switches@.len() - k,
    {
        let s = switches[k];
        let mut label = chars_of("第 ");
        append(&mut label, &dec_exec((k + 1) as u64));
        append(&mut label, &chars_of(if midi { " 条 MIDI 切换（" } else { " 条切换（" }));
        append(&mut label, &seconds_chars(s.at_ms));
        append(&mut label, &chars_of(" 秒）"));
        let ghost before = reqs_view(all@);
        all.push(Requirement { soundfont: s.soundfont, instrument: s.instrument, label: string_from_chars(label.as_slice()) });
        assert(reqs_view(all@) =~= before.push(w[off + k]));
        assert(reqs_view(all@) =~= w.take(off + k + 1));
        k = k + 1;
    }
    assert(w.take(off + switches@.len() as int) =~= w);
    let ghost av = reqs_view(all@);
    let mut out: Vec<Requirement> = Vec::new();
    let mut i: usize = 0;
    while i < all.len()
        invariant
            0 <= i <= all@.len(),
            av == reqs_view(all@),
            reqs_view(out@) == first_of_each(av.take(i as int)),
        decreases all@.len() - i,
    {
        assert(av.take(i + 1).drop_last() =~= av.take(i as int));
        let mut j: usize = 0;
        let mut dup = false;
        while j < i
            invariant
                0 <= j <= i < all@.len(),
                av == reqs_view(all@),
                dup == exists|m: int| 0 <= m < j && (#[trigger] av[m]).0 == av[i as int].0 && av[m].1 == av[i as int].1,
            decreases i - j,
        {
            if all[j].soundfont == all[i].soundfont && all[j].instrument == all[i].instrument {
                assert(av[j as int].0 == av[i as int].0 && av[j as int].1 == av[i as int].1);
                dup = true;
            }
            j = j + 1;
        }
        proof {
            let t = av.take(i + 1);
            assert(t.last() == av[i as int]);
            assert(dup == exists|m: int| 0 <= m < t.len() - 1 && (#[trigger] t[m]).0 == t.last().0 && t[m].1 == t.last().1) by {
                if dup {
                    let m = choose|m: int| 0 <= m < i && (#[trigger] av[m]).0 == av[i as int].0 && av[m].1 == av[i as int].1;
                    assert(t[m] == av[m]);
                }
                if exists|m: int| 0 <= m < t.len() - 1 && (#[trigger] t[m]).0 == t.last().0 && t[m].1 == t.last().1 {
                    let m = choose|m: int| 0 <= m < t.len() - 1 && (#[trigger] t[m]).0 == t.last().0 && t[m].1 == t.last().1;
                    assert(t[m] == av[m]);
                }
            }
        }
        if !dup {
            let r = &all[i];
            let ghost before = reqs_view(out@);
            out.push(Requirement { soundfont: r.soundfont, instrument: r.instrument, label: r.label.clone() });
            assert(reqs_view(out@) =~= before.push(av[i as int]));
        }
        i = i + 1;
    }
    assert(av.take(all@.len() as int) =~= av);
    out
}

/// The refusal of a missing instrument.
pub open spec fn missing_program_text(label: Seq<char>, soundfont: usize, path: Seq<char>, instrument: u8) -> Seq<char> {
    label + "要求的音色不存在：SoundFont #"@ + dec_str((soundfont + 1) as nat) + " ("@ + path + ") 没有 GM bank 0 / Program "@
        + dec_str(instrument as nat)
}

pub fn missing_program_msg(label: &str, soundfont: usize, path: &str, instrument: u8) -> (r: String)
    requires
        soundfont < usize::MAX,
    ensures
        r@ == missing_program_text(label@, soundfont, path@, instrument),
{
    let mut m = chars_of(label);
    append(&mut m, &chars_of("要求的音色不存在：SoundFont #"));
    append(&mut m, &dec_exec((soundfont + 1) as u64));
    append(&mut m, &chars_of(" ("));
    append(&mut m, &chars_of(path));
    append(&mut m, &chars_of(") 没有 GM bank 0 / Program "));
    append(&mut m, &dec_exec(instrument as u64));
    string_from_chars(m.as_slice())
}

/// The refusal of a soundfont index past those loaded.
pub open spec fn unknown_soundfont_text(soundfont: usize, loaded: usize) -> Seq<char> {
    "SoundFont #"@ + dec_str((soundfont + 1) as nat) + " 不存在（当前已载入 "@ + dec_str(loaded as nat) + " 个）"@
}

/// The index of a loaded soundfont's id, or the refusal.
pub fn soundfont_index(soundfont: usize, loaded: usize) -> (r: Result<usize, String>)
    requires
        soundfont < usize::MAX,
    ensures
        soundfont < loaded ==> r == Ok::<usize, String>(soundfont),
        soundfont >= loaded ==> (r matches Err(m) && m@ == unknown_soundfont_text(soundfont, loaded)),
{
    if soundfont < loaded {
        Ok(soundfont)
    } else {
        let mut m = chars_of("SoundFont #");
        append(&mut m, &dec_exec((soundfont + 1) as u64));
        append(&mut m, &chars_of(" 不存在（当前已载入 "));
        append(&mut m, &dec_exec(loaded as u64));
        append(&mut m, &chars_of(" 个）"));
        Err(string_from_chars(m.as_slice()))
    }
}

// ---------------------------------------------------------------------------
// Switches while a MIDI file plays
// ---------------------------------------------------------------------------

/// What the MIDI player does with its switch timeline when it reaches a tick.
#[derive(Debug, Clone, Copy, PartialEq, Eq, Structural)]
pub enum SwitchPlan {
    /// The tick went back (a seek or a loop): silence every channel, forget
    /// the active switch, continue from `next`, and select the switch before
    /// it again, if any.
    Rewind { next: usize, reselect: Option<ProgramSwitch> },
    /// Select the switches from index `from` up to (not including) `to`.
    Advance { from: usize, to: usize },
}

/// Index of the first switch after `tick`, scanning from `i`.
pub open spec fn first_after(sw: Seq<(i32, ProgramSwitch)>, tick: i32, i: int) -> int
    decreases sw.len() - i,
{
    if i < 0 || i >= sw.len() || sw[i].0 > tick {
        i
    } else {
        first_after(sw, tick, i + 1)
    }
}

pub open spec fn switch_plan(sw: Seq<(i32, ProgramSwitch)>, next: usize, last_tick: i32, tick: i32) -> SwitchPlan {
    if tick < last_tick {
        let n = first_after(sw, tick, 0);
        SwitchPlan::Rewind {
            next: n as usize,
            reselect: if n > 0 {
                Some(sw[n - 1].1)
            } else {
                None
            },
        }
    } else {
        SwitchPlan::Advance { from: next, to: first_after(sw, tick, next as int) as usize }
    }
}

/// A tick as the player's tick type holds it: at most `i32::MAX`.
pub open spec fn clamp_tick(t: u64) -> i32 {
    if t > 0x7fff_ffff {
        0x7fff_ffffi32
    } else {
        t as i32
    }
}

/// The switch timeline of a MIDI file: the initial selection, if any, at
/// tick 0 and first (so that a switch of the user at 0 still wins), then
/// each switch at its tick, clamped to `i32::MAX`.
pub open spec fn midi_timeline(
    initial: Option<(usize, u8)>,
    switches: Seq<ProgramSwitch>,
    ticks: Seq<u64>,
) -> Seq<(i32, ProgramSwitch)> {
    (match initial {
        Some((sf, ins)) => seq![(0i32, ProgramSwitch { at_ms: 0, soundfont: sf, instrument: ins })],
        None => Seq::empty(),
    }) + Seq::new(switches.len(), |k: int| (clamp_tick(ticks[k]), switches[k]))
}

/// Builds the switch timeline of a MIDI file from the ticks of its switches;
/// see `midi_timeline`. Ticks in ascending order give a timeline in
/// ascending order.
pub fn midi_switch_timeline(
    initial: Option<(usize, u8)>,
    switches: &[ProgramSwitch],
    ticks: &[u64],
) -> (r: Vec<(i32, ProgramSwitch)>)
    requires
        ticks@.len() == switches@.len(),
    ensures
        r@ == midi_timeline(initial, switches@, ticks@),
        (forall|a: int, b: int| 0 <= a <= b < ticks@.len() ==> ticks@[a] <= ticks@[b]) ==> forall|a: int, b: int|
            0 <= a <= b < r@.len() ==> r@[a].0 <= r@[b].0,
{
    let mut r: Vec<(i32, ProgramSwitch)> = Vec::new();
    match initial {
        Some((sf, ins)) => {
            r.push((0, ProgramSwitch { at_ms: 0, soundfont: sf, instrument: ins }));
        },
        None => {},
    }
    let ghost head = r@;
    let mut k: usize = 0;
    while k < switches.len()
        invariant
            0 <= k <= switches@.len(),
            ticks@.len() == switches@.len(),
            r@ == head + Seq::new(k as nat, |j: int| (clamp_tick(ticks@[j]), switches@[j])),
        decreases switches@.len() - k,
    {
        let t: i32 = if ticks[k] > 0x7fff_ffff { 0x7fff_ffff } else { ticks[k] as i32 };
        r.push((t, switches[k]));
        k = k + 1;
        assert(r@ =~= head + Seq::new(k as nat, |j: int| (clamp_tick(ticks@[j]), switches@[j])));
    }
    assert(r@ =~= midi_timeline(initial, switches@, ticks@));
    proof {
        if forall|a: int, b: int| 0 <= a <= b < ticks@.len() ==> ticks@[a] <= ticks@[b] {
            assert forall|a: int, b: int| 0 <= a <= b < r@.len() implies r@[a].0 <= r@[b].0 by {
                let h = head.len() as int;
                if a >= h {
                    assert(ticks@[a - h] <= ticks@[b - h]);
                }
            }
        }
    }
    r
}

/// What reaching `tick` asks of the switch timeline; see `switch_plan`.
/// The ticks of the switches are in ascending order.
pub fn advance_switches(switches: &[(i32, ProgramSwitch)], next_index: usize, last_tick: i32, tick: i32) -> (r: SwitchPlan)
    requires
        next_index <= switches@.len(),
        forall|a: int, b: int| 0 <= a <= b < switches@.len() ==> switches@[a].0 <= switches@[b].0,
    ensures
        r == switch_plan(switches@, next_index, last_tick, tick),
{
    let start = if tick < last_tick { 0 } else { next_index };
    let mut i: usize = start;
    while i < switches.len() && switches[i].0 <= tick
        invariant
            start <= i <= switches@.len(),
            first_after(switches@, tick, start as int) == first_after(switches@, tick, i as int),
        decreases switches@.len() - i,
    {
        i = i + 1;
    }
    if tick < last_tick {
        SwitchPlan::Rewind { next: i, reselect: if i > 0 { Some(switches[i - 1].1) } else { None } }
    } else {
        SwitchPlan::Advance { from: next_index, to: i }
    }
}
} // verus!
