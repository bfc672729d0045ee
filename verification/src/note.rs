//! Note labels: a pitch class followed by an octave number.
//!
//! A pitch is counted in whole semitones on the equal-tempered scale whose
//! step 0 is the A four octaves below concert pitch, so that step 48 is
//! the A of 440 Hz.

use vstd::prelude::*;
use vstd::string::*;

verus! {

/// The twelve pitch classes, counted from A.
pub open spec fn pitch_text(class: int) -> Seq<char> {
    if class == 0 {
        "A"@
    } else if class == 1 {
        "A#"@
    } else if class == 2 {
        "B"@
    } else if class == 3 {
        "C"@
    } else if class == 4 {
        "C#"@
    } else if class == 5 {
        "D"@
    } else if class == 6 {
        "D#"@
    } else if class == 7 {
        "E"@
    } else if class == 8 {
        "F"@
    } else if class == 9 {
        "F#"@
    } else if class == 10 {
        "G"@
    } else {
        "G#"@
    }
}

/// The decimal digit for a value below ten.
pub open spec fn digit_text(d: int) -> Seq<char> {
    if d == 0 {
        "0"@
    } else if d == 1 {
        "1"@
    } else if d == 2 {
        "2"@
    } else if d == 3 {
        "3"@
    } else if d == 4 {
        "4"@
    } else if d == 5 {
        "5"@
    } else if d == 6 {
        "6"@
    } else if d == 7 {
        "7"@
    } else if d == 8 {
        "8"@
    } else {
        "9"@
    }
}

/// A natural number in decimal, without leading zeros.
pub open spec fn digits_text(n: nat) -> Seq<char>
    decreases n,
{
    if n < 10 {
        digit_text(n as int)
    } else {
        digits_text(n / 10) + digit_text((n % 10) as int)
    }
}

/// An integer in decimal, with a minus sign when it is negative.
pub open spec fn integer_text(n: int) -> Seq<char> {
    if n < 0 {
        "-"@ + digits_text((-n) as nat)
    } else {
        digits_text(n as nat)
    }
}

/// The label of a note: the pitch class of its semitone step, taken
/// modulo twelve with a result that is never negative, then its octave.
pub open spec fn note_text(steps: int, octave: int) -> Seq<char> {
    pitch_text(steps % 12) + integer_text(octave)
}

/// The pitch class of a semitone step, from 0 for A to 11 for G#.
pub fn pitch_class(steps: i64) -> (r: usize)
    ensures
        r == steps as int % 12,
        r < 12,
{
    if steps >= 0 {
        (steps % 12) as usize
    } else {
        let below: i64 = -(steps + 1);
        11 - (below % 12) as usize
    }
}

/// The name of the pitch class of a semitone step.
pub fn pitch_name(steps: i64) -> (r: &'static str)
    ensures
        r@ == pitch_text(steps as int % 12),
{
    let class: usize = pitch_class(steps);
    if class == 0 {
        "A"
    } else if class == 1 {
        "A#"
    } else if class == 2 {
        "B"
    } else if class == 3 {
        "C"
    } else if class == 4 {
        "C#"
    } else if class == 5 {
        "D"
    } else if class == 6 {
        "D#"
    } else if class == 7 {
        "E"
    } else if class == 8 {
        "F"
    } else if class == 9 {
        "F#"
    } else if class == 10 {
        "G"
    } else {
        "G#"
    }
}

fn digit_name(d: u64) -> (r: &'static str)
    requires
        d < 10,
    ensures
        r@ == digit_text(d as int),
{
    if d == 0 {
        "0"
    } else if d == 1 {
        "1"
    } else if d == 2 {
        "2"
    } else if d == 3 {
        "3"
    } else if d == 4 {
        "4"
    } else if d == 5 {
        "5"
    } else if d == 6 {
        "6"
    } else if d == 7 {
        "7"
    } else if d == 8 {
        "8"
    } else {
        "9"
    }
}

/// Appends a natural number in decimal to a text.
pub fn append_digits(text: &mut String, n: u64)
    ensures
        final(text)@ == old(text)@ + digits_text(n as nat),
    decreases n,
{
    if n >= 10 {
        append_digits(text, n / 10);
    }
    text.append(digit_name(n % 10));
}

/// Appends an integer in decimal to a text.
pub fn append_integer(text: &mut String, n: i64)
    ensures
        final(text)@ == old(text)@ + integer_text(n as int),
{
    if n < 0 {
        text.append("-");
        let size: u64 = if n == i64::MIN {
            9223372036854775808u64
        } else {
            (-n) as u64
        };
        append_digits(text, size);
    } else {
        append_digits(text, n as u64);
    }
}

/// Labels a note by its pitch class and octave, as in `A4` or `C#-1`.
pub fn note_name(steps: i64, octave: i64) -> (r: String)
    ensures
        r@ == note_text(steps as int, octave as int),
{
    let mut text = String::from_str(pitch_name(steps));
    append_integer(&mut text, octave);
    text
}

} // verus!
