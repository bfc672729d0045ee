//! What is decided about a recording before its samples are analysed:
//! where it is looked up, how its samples are stored, and what value
//! an integer sample is divided by to bring it into [-1, 1].

use vstd::arithmetic::power2::*;
use vstd::prelude::*;
use vstd::string::*;

verus! {

/// The widest integer sample that is decoded, in bits.
pub const MAX_SAMPLE_BITS: u16 = 32;

/// The path at which a recording is looked up: below the directory
/// `chords`, under the given name, which gets the extension `.wav` when it
/// holds no dot.
pub open spec fn recording_path_text(name: Seq<char>) -> Seq<char> {
    if name.contains('.') {
        "chords/"@ + name
    } else {
        "chords/"@ + name + ".wav"@
    }
}

/// Whether a file name holds a dot, and so brings its own extension.
pub fn has_extension(name: &str) -> (r: bool)
    ensures
        r == name@.contains('.'),
{
    let n: usize = name.unicode_len();
    let mut i: usize = 0;
    while i < n
        invariant
            n == name@.len(),
            i <= n,
            forall|j: int| 0 <= j < i ==> name@[j] != '.',
        decreases n - i,
    {
        if name.get_char(i) == '.' {
            return true;
        }
        i += 1;
    }
    false
}

/// Completes a file name to the path of the recording.
pub fn recording_path(name: &str) -> (r: String)
    ensures
        r@ == recording_path_text(name@),
{
    let mut path = String::from_str("chords/");
    path.append(name);
    if !has_extension(name) {
        path.append(".wav");
    }
    path
}

/// How a recording declares its samples.
#[derive(Clone, Copy, Debug, PartialEq, Eq, Structural)]
pub enum SampleFormat {
    Int,
    Float,
}

/// The type as which the samples of a recording are read.
#[derive(Clone, Copy, Debug, PartialEq, Eq, Structural)]
pub enum SampleKind {
    Int16,
    Int32,
    Float32,
}

/// The type to read samples as: integer samples of 16 bits as such, all
/// other integer samples as 32-bit integers, floating-point samples as
/// 32-bit floats.
pub open spec fn kind_of(format: SampleFormat, bits_per_sample: u16) -> SampleKind {
    match format {
        SampleFormat::Float => SampleKind::Float32,
        SampleFormat::Int => if bits_per_sample == 16 {
            SampleKind::Int16
        } else {
            SampleKind::Int32
        },
    }
}

/// Chooses the type to read the samples of a recording as.
pub fn sample_kind(format: SampleFormat, bits_per_sample: u16) -> (r: SampleKind)
    ensures
        r == kind_of(format, bits_per_sample),
{
    match format {
        SampleFormat::Float => SampleKind::Float32,
        SampleFormat::Int => {
            if bits_per_sample == 16 {
                SampleKind::Int16
            } else {
                SampleKind::Int32
            }
        },
    }
}

/// The full-scale value of integer samples of the given width: two to the
/// power of one less than the width, the magnitude of the most negative
/// sample. Widths of 0 bits and of more than `MAX_SAMPLE_BITS` bits have
/// none.
pub fn full_scale(bits_per_sample: u16) -> (r: Option<u64>)
    ensures
        r.is_some() <==> 1 <= bits_per_sample <= MAX_SAMPLE_BITS,
        match r {
            Some(v) => v == pow2((bits_per_sample - 1) as nat),
            None => true,
        },
{
    if bits_per_sample == 0 || bits_per_sample > MAX_SAMPLE_BITS {
        return None;
    }
    let mut value: u64 = 1;
    let mut i: u16 = 1;
    proof {
        lemma2_to64();
    }
    while i < bits_per_sample
        invariant
            1 <= i <= bits_per_sample <= MAX_SAMPLE_BITS,
            value == pow2((i - 1) as nat),
        decreases bits_per_sample - i,
    {
        proof {
            lemma_pow2_unfold(i as nat);
            lemma_pow2_strictly_increases(i as nat, 32);
            lemma2_to64();
        }
        value = value * 2;
        i += 1;
    }
    Some(value)
}

} // verus!
