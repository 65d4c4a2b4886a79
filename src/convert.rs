use vstd::prelude::*;

verus! {

/// Lowest MIDI key of the bass range (E1).
pub const BASS_LOW: u8 = 28;

/// Highest MIDI key of the bass range (G3).
pub const BASS_HIGH: u8 = 55;

/// The name of pitch class `pc` (0 is C, 11 is B).
pub open spec fn pitch_class_name(pc: int) -> Seq<char> {
    if pc == 0 { seq!['C'] }
    else if pc == 1 { seq!['C', '#'] }
    else if pc == 2 { seq!['D'] }
    else if pc == 3 { seq!['D', '#'] }
    else if pc == 4 { seq!['E'] }
    else if pc == 5 { seq!['F'] }
    else if pc == 6 { seq!['F', '#'] }
    else if pc == 7 { seq!['G'] }
    else if pc == 8 { seq!['G', '#'] }
    else if pc == 9 { seq!['A'] }
    else if pc == 10 { seq!['A', '#'] }
    else { seq!['B'] }
}

/// The decimal digit character for `d` in `0..10`.
pub open spec fn digit_char(d: int) -> char {
    ((d + 48) as u8) as char
}

/// The decimal text of a natural number, without leading zeros.
pub open spec fn decimal(n: nat) -> Seq<char>
    decreases n,
{
    if n < 10 {
        seq![digit_char(n as int)]
    } else {
        decimal(n / 10).push(digit_char((n % 10) as int))
    }
}

/// The octave number of a key, `floor(key / 12) - 1`.
pub open spec fn octave_of(note: u8) -> int {
    note as int / 12 - 1
}

/// The text of an octave number from -1 up.
pub open spec fn octave_text(octave: int) -> Seq<char> {
    if octave < 0 {
        seq!['-'] + decimal((-octave) as nat)
    } else {
        decimal(octave as nat)
    }
}

/// The name of a key: pitch class followed by octave, such as `E2` or `F#2`.
pub open spec fn pitch_name(note: u8) -> Seq<char> {
    pitch_class_name(note as int % 12) + octave_text(octave_of(note))
}

/// Whether a key lies in the bass range, E1 to G3 inclusive.
pub open spec fn bass_range(note: int) -> bool {
    BASS_LOW <= note <= BASS_HIGH
}

/// Absolute value of an integer.
pub open spec fn abs(x: int) -> int {
    if x < 0 { -x } else { x }
}

/// The duration vocabulary.
pub enum Duration {
    Whole,
    Half,
    Quarter,
    Eighth,
}

/// The duration whose tolerance band holds `ticks / tpq` quarters, bands taken
/// in the order whole, half, quarter, eighth, and failing those the threshold
/// bands at 3, 1.5 and 0.75 quarters. Every comparison of the ratio
/// `q = ticks / tpq` is multiplied out by a positive factor of `tpq`.
pub open spec fn quantize(ticks: int, tpq: int) -> Duration {
    if abs(4 * ticks - 16 * tpq) < tpq {
        Duration::Whole
    } else if abs(4 * ticks - 8 * tpq) < tpq {
        Duration::Half
    } else if abs(4 * ticks - 4 * tpq) < tpq {
        Duration::Quarter
    } else if abs(8 * ticks - 4 * tpq) < tpq {
        Duration::Eighth
    } else if ticks >= 3 * tpq {
        Duration::Whole
    } else if 2 * ticks >= 3 * tpq {
        Duration::Half
    } else if 4 * ticks >= 3 * tpq {
        Duration::Quarter
    } else {
        Duration::Eighth
    }
}

/// The word for a duration.
pub open spec fn duration_word(d: Duration) -> Seq<char> {
    match d {
        Duration::Whole => seq!['w', 'h', 'o', 'l', 'e'],
        Duration::Half => seq!['h', 'a', 'l', 'f'],
        Duration::Quarter => seq!['q', 'u', 'a', 'r', 't', 'e', 'r'],
        Duration::Eighth => seq!['e', 'i', 'g', 'h', 't', 'h'],
    }
}

/// The text of one decimal digit.
fn digit_str(d: u8) -> (r: &'static str)
    requires
        d < 10,
    ensures
        r@ == seq![digit_char(d as int)],
{
    proof {
        reveal_strlit("0");
        reveal_strlit("1");
        reveal_strlit("2");
        reveal_strlit("3");
        reveal_strlit("4");
        reveal_strlit("5");
        reveal_strlit("6");
        reveal_strlit("7");
        reveal_strlit("8");
        reveal_strlit("9");
    }
    match d {
        0 => "0",
        1 => "1",
        2 => "2",
        3 => "3",
        4 => "4",
        5 => "5",
        6 => "6",
        7 => "7",
        8 => "8",
        _ => "9",
    }
}

/// Appends the decimal text of `n` to `s`.
pub fn push_decimal(s: &mut String, n: usize)
    ensures
        final(s)@ == old(s)@ + decimal(n as nat),
    decreases n,
{
    if n >= 10 {
        push_decimal(s, n / 10);
    }
    s.append(digit_str((n % 10) as u8));
    proof {
        assert(old(s)@ + decimal(n as nat) =~= s@);
    }
}

/// The text of pitch class `pc`.
fn pitch_class_str(pc: u8) -> (r: &'static str)
    requires
        pc < 12,
    ensures
        r@ == pitch_class_name(pc as int),
{
    proof {
        reveal_strlit("C");
        reveal_strlit("C#");
        reveal_strlit("D");
        reveal_strlit("D#");
        reveal_strlit("E");
        reveal_strlit("F");
        reveal_strlit("F#");
        reveal_strlit("G");
        reveal_strlit("G#");
        reveal_strlit("A");
        reveal_strlit("A#");
        reveal_strlit("B");
    }
    match pc {
        0 => "C",
        1 => "C#",
        2 => "D",
        3 => "D#",
        4 => "E",
        5 => "F",
        6 => "F#",
        7 => "G",
        8 => "G#",
        9 => "A",
        10 => "A#",
        _ => "B",
    }
}

/// Convert a MIDI note number to its pitch name (40 is `E2`).
pub fn note_to_pitch(note: u8) -> (r: String)
    ensures
        r@ == pitch_name(note),
{
    let mut s = String::from_str(pitch_class_str(note % 12));
    if note < 12 {
        proof {
            reveal_strlit("-1");
        }
        s.append("-1");
        proof {
            assert(decimal(1) =~= seq!['1']);
            assert(s@ =~= pitch_name(note));
        }
    } else {
        push_decimal(&mut s, (note / 12 - 1) as usize);
    }
    s
}

/// The word of a duration, as a string.
fn duration_string(d: Duration) -> (r: String)
    ensures
        r@ == duration_word(d),
{
    proof {
        reveal_strlit("whole");
        reveal_strlit("half");
        reveal_strlit("quarter");
        reveal_strlit("eighth");
    }
    match d {
        Duration::Whole => String::from_str("whole"),
        Duration::Half => String::from_str("half"),
        Duration::Quarter => String::from_str("quarter"),
        Duration::Eighth => String::from_str("eighth"),
    }
}

/// The distance `|a - b|` of two non-negative integers.
fn distance(a: u64, b: u64) -> (r: u64)
    ensures
        r == abs(a - b),
{
    if a >= b { a - b } else { b - a }
}

/// The duration nearest to `ticks` at `tpq` ticks per quarter note.
pub fn quantize_ticks(ticks: u32, tpq: u16) -> (r: Duration)
    requires
        tpq > 0,
    ensures
        r == quantize(ticks as int, tpq as int),
{
    let t = ticks as u64;
    let p = tpq as u64;
    if distance(4 * t, 16 * p) < p {
        Duration::Whole
    } else if distance(4 * t, 8 * p) < p {
        Duration::Half
    } else if distance(4 * t, 4 * p) < p {
        Duration::Quarter
    } else if distance(8 * t, 4 * p) < p {
        Duration::Eighth
    } else if t >= 3 * p {
        Duration::Whole
    } else if 2 * t >= 3 * p {
        Duration::Half
    } else if 4 * t >= 3 * p {
        Duration::Quarter
    } else {
        Duration::Eighth
    }
}

/// Convert a length in ticks to the nearest named duration (`whole`, `half`,
/// `quarter` or `eighth`) at `tpq` ticks per quarter note.
pub fn ticks_to_duration(ticks: u32, tpq: u16) -> (r: String)
    requires
        tpq > 0,
    ensures
        r@ == duration_word(quantize(ticks as int, tpq as int)),
{
    duration_string(quantize_ticks(ticks, tpq))
}

/// Check whether a note lies in the bass range, E1 to G3 inclusive.
pub fn is_bass_range(note: u8) -> (r: bool)
    ensures
        r == bass_range(note as int),
        r <==> 28 <= note <= 55,
{
    note >= BASS_LOW && note <= BASS_HIGH
}

/// Every key from 0 to 127 is named by a letter from A to G, an optional sharp,
/// and its octave `floor(key / 12) - 1`, which runs from -1 to 9 and is written
/// as `-1` or as a single digit.
pub proof fn lemma_pitch_name_form(note: u8)
    requires
        note <= 127,
    ensures
        -1 <= octave_of(note) <= 9,
        octave_text(octave_of(note)) == (if octave_of(note) < 0 {
            seq!['-', '1']
        } else {
            seq![digit_char(octave_of(note))]
        }),
        pitch_name(note).len() >= 2,
        'A' <= pitch_name(note)[0] <= 'G',
        (pitch_name(note)[1] == '#' && pitch_name(note).subrange(2, pitch_name(note).len() as int)
            == octave_text(octave_of(note))) || pitch_name(note).subrange(
            1,
            pitch_name(note).len() as int,
        ) == octave_text(octave_of(note)),
{
    let o = octave_of(note);
    let pc = note as int % 12;
    if o < 0 {
        assert(decimal(1) == seq![digit_char(1)]);
        assert(octave_text(o) =~= seq!['-', '1']);
    } else {
        assert(decimal(o as nat) == seq![digit_char(o)]);
    }
    let cls = pitch_class_name(pc);
    let name = pitch_name(note);
    assert(name == cls + octave_text(o));
    assert(name.subrange(cls.len() as int, name.len() as int) =~= octave_text(o));
}

} // verus!
