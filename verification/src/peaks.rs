//! Peak picking on a magnitude spectrum: trimming, three-tap smoothing,
//! strict local maxima and ranking by strength.
//!
//! Magnitudes are unsigned fixed-point levels. A smoothed level is the sum
//! of three neighbouring magnitudes, that is three times their mean, so
//! that comparing smoothed levels is exact.

use vstd::prelude::*;

verus! {

/// Bins at and above this index are discarded as high-frequency noise.
pub const MAX_BINS: usize = 20000;

/// How many of the strongest peaks are kept.
pub const PEAK_LIMIT: usize = 8;

/// How many neighbouring bins one smoothed level takes in.
pub const SMOOTHING_TAPS: usize = 3;

/// A strict local maximum of the smoothed spectrum: the bin of the
/// spectrum it is centred on, and its smoothed level.
#[derive(Clone, Copy, Debug, PartialEq, Eq, Structural)]
pub struct Peak {
    pub bin: usize,
    pub level: u128,
}

/// How many bins of a transform of length `n` are analysed: the lower
/// half, which for a real signal mirrors the upper, cut at `MAX_BINS`.
pub open spec fn usable_len(n: int) -> int {
    if n / 2 < MAX_BINS {
        n / 2
    } else {
        MAX_BINS as int
    }
}

/// The number of bins analysed of a transform of length `n`.
pub fn usable_bins(n: usize) -> (r: usize)
    ensures
        r == usable_len(n as int),
{
    let half: usize = n / 2;
    if half < MAX_BINS {
        half
    } else {
        MAX_BINS
    }
}

/// Cuts the magnitudes of a full transform down to the bins analysed;
/// bin indices are unchanged.
pub fn trim_spectrum(mags: &mut Vec<u64>)
    ensures
        final(mags)@ == old(mags)@.take(usable_len(old(mags)@.len() as int)),
{
    let keep: usize = usable_bins(mags.len());
    mags.truncate(keep);
}

/// The smoothed spectrum: entry `j` is the sum of the magnitudes of bins
/// `j`, `j + 1` and `j + 2`, and so is centred on bin `j + 1`. It has one
/// entry for each run of `SMOOTHING_TAPS` bins, two fewer than the
/// spectrum has bins.
pub open spec fn smoothed(m: Seq<u64>) -> Seq<u128> {
    Seq::new(
        if m.len() >= SMOOTHING_TAPS {
            (m.len() - SMOOTHING_TAPS + 1) as nat
        } else {
            0
        },
        |j: int| (m[j] + m[j + 1] + m[j + 2]) as u128,
    )
}

/// Smooths a spectrum with a three-tap moving sum.
pub fn smooth(mags: &Vec<u64>) -> (out: Vec<u128>)
    ensures
        out@ == smoothed(mags@),
{
    let mut out: Vec<u128> = Vec::new();
    let n: usize = mags.len();
    if n < SMOOTHING_TAPS {
        assert(out@ =~= smoothed(mags@));
        return out;
    }
    let mut j: usize = 0;
    while j < n - (SMOOTHING_TAPS - 1)
        invariant
            n == mags.len(),
            n >= SMOOTHING_TAPS,
            j <= n - (SMOOTHING_TAPS - 1),
            out@.len() == j,
            forall|i: int| 0 <= i < j ==> out@[i] == smoothed(mags@)[i],
        decreases n - j,
    {
        let a: u128 = mags[j] as u128;
        let b: u128 = mags[j + 1] as u128;
        let c: u128 = mags[j + 2] as u128;
        out.push(a + b + c);
        j += 1;
    }
    assert(out@ =~= smoothed(mags@));
    out
}

/// Position `i` of `levels` has a neighbour on each side and strictly
/// exceeds both.
pub open spec fn is_peak(levels: Seq<u128>, i: int) -> bool {
    1 <= i < levels.len() - 1 && levels[i - 1] < levels[i] && levels[i] > levels[i + 1]
}

/// The peak that stands at position `i` of the smoothed levels. Position
/// `i` is centred on bin `i + 1` of the spectrum.
pub open spec fn peak_at(levels: Seq<u128>, i: int) -> Peak {
    Peak { bin: (i + 1) as usize, level: levels[i] }
}

/// The peaks at positions below `k`, by ascending position.
pub open spec fn maxima_below(levels: Seq<u128>, k: int) -> Seq<Peak>
    decreases k,
{
    if k <= 0 {
        Seq::empty()
    } else if is_peak(levels, k - 1) {
        maxima_below(levels, k - 1).push(peak_at(levels, k - 1))
    } else {
        maxima_below(levels, k - 1)
    }
}

/// All peaks of the smoothed levels, by ascending bin.
pub open spec fn maxima(levels: Seq<u128>) -> Seq<Peak> {
    maxima_below(levels, levels.len() as int)
}

/// Collects the strict local maxima of the smoothed levels, each with the
/// bin of the spectrum it is centred on.
pub fn local_maxima(levels: &Vec<u128>) -> (out: Vec<Peak>)
    ensures
        out@ == maxima(levels@),
{
    let mut out: Vec<Peak> = Vec::new();
    let n: usize = levels.len();
    let mut i: usize = 0;
    while i < n
        invariant
            n == levels.len(),
            i <= n,
            out@ == maxima_below(levels@, i as int),
        decreases n - i,
    {
        if i >= 1 && i + 1 < n && levels[i - 1] < levels[i] && levels[i] > levels[i + 1] {
            out.push(Peak { bin: i + 1, level: levels[i] });
        }
        i += 1;
    }
    out
}

/// What `maxima` holds: each entry is a strict local maximum, the bins
/// rise strictly, so no peak is listed twice, and every strict local
/// maximum of the levels is listed.
pub proof fn maxima_are_the_local_maxima(levels: Seq<u128>, k: int)
    requires
        0 <= k <= levels.len() <= usize::MAX,
    ensures
        maxima_below(levels, k).len() <= k,
        forall|n: int|
            0 <= n < maxima_below(levels, k).len() ==> {
                let p = #[trigger] maxima_below(levels, k)[n];
                &&& 2 <= p.bin <= k
                &&& is_peak(levels, p.bin - 1)
                &&& p == peak_at(levels, p.bin - 1)
            },
        forall|a: int, b: int|
            0 <= a < b < maxima_below(levels, k).len() ==> maxima_below(levels, k)[a].bin
                < maxima_below(levels, k)[b].bin,
        forall|i: int|
            0 <= i < k && is_peak(levels, i) ==> maxima_below(levels, k).contains(
                #[trigger] peak_at(levels, i),
            ),
    decreases k,
{
    if k > 0 {
        maxima_are_the_local_maxima(levels, k - 1);
        let rest = maxima_below(levels, k - 1);
        let all = maxima_below(levels, k);
        assert forall|i: int| 0 <= i < k && is_peak(levels, i) implies all.contains(
            #[trigger] peak_at(levels, i),
        ) by {
            if i < k - 1 {
                let w = choose|w: int| 0 <= w < rest.len() && rest[w] == peak_at(levels, i);
                assert(all[w] == peak_at(levels, i));
            } else {
                assert(all[all.len() - 1] == peak_at(levels, i));
            }
        }
    }
}


/// No peak is weaker than one that stands before it.
pub open spec fn descending(s: Seq<Peak>) -> bool {
    forall|i: int, j: int| 0 <= i < j < s.len() ==> s[i].level >= s[j].level
}

/// How many peaks of `s` are at least as strong as `p`. In a descending
/// `s` this is the place where `p` goes: behind its equals.
pub open spec fn rank_slot(s: Seq<Peak>, p: Peak) -> int
    decreases s.len(),
{
    if s.len() == 0 {
        0
    } else if s.last().level >= p.level {
        rank_slot(s.drop_last(), p) + 1
    } else {
        rank_slot(s.drop_last(), p)
    }
}

/// The peaks ordered by level, strongest first; peaks of equal level keep
/// the order in which they were given.
pub open spec fn ranked(s: Seq<Peak>) -> Seq<Peak>
    decreases s.len(),
{
    if s.len() == 0 {
        Seq::empty()
    } else {
        let r = ranked(s.drop_last());
        r.insert(rank_slot(r, s.last()), s.last())
    }
}

/// The `limit` strongest peaks, strongest first.
pub open spec fn strongest_of(s: Seq<Peak>, limit: int) -> Seq<Peak> {
    if limit < s.len() {
        ranked(s).take(limit)
    } else {
        ranked(s)
    }
}

/// In a descending sequence, the slot of `p` is the first position that
/// holds a weaker peak.
proof fn slot_is_first_weaker(s: Seq<Peak>, p: Peak, i: int)
    requires
        descending(s),
        0 <= i <= s.len(),
        forall|j: int| 0 <= j < i ==> s[j].level >= p.level,
        i < s.len() ==> s[i].level < p.level,
    ensures
        rank_slot(s, p) == i,
    decreases s.len(),
{
    if s.len() > 0 {
        let rest = s.drop_last();
        if i == s.len() {
            slot_is_first_weaker(rest, p, i - 1);
        } else {
            assert(s[i].level >= s.last().level || i == s.len() - 1);
            slot_is_first_weaker(rest, p, i);
        }
    }
}

/// The slot of `p` lies within the sequence or at its end, after every
/// peak at least as strong as `p` when the sequence is descending.
proof fn slot_bounds(s: Seq<Peak>, p: Peak)
    ensures
        0 <= rank_slot(s, p) <= s.len(),
        descending(s) ==> forall|j: int| 0 <= j < rank_slot(s, p) ==> s[j].level >= p.level,
        descending(s) ==> forall|j: int| rank_slot(s, p) <= j < s.len() ==> s[j].level < p.level,
    decreases s.len(),
{
    if s.len() > 0 {
        let rest = s.drop_last();
        slot_bounds(rest, p);
        if descending(s) {
            assert(descending(rest)) by {
                assert forall|i: int, j: int| 0 <= i < j < rest.len() implies rest[i].level
                    >= rest[j].level by {
                    assert(s[i].level >= s[j].level);
                }
            }
            let k = rank_slot(rest, p);
            assert forall|j: int| 0 <= j < rank_slot(s, p) implies s[j].level >= p.level by {
                if j < rest.len() {
                    if j >= k {
                        assert(s[j].level >= s.last().level);
                    } else {
                        assert(rest[j].level >= p.level);
                    }
                }
            }
            assert forall|j: int| rank_slot(s, p) <= j < s.len() implies s[j].level
                < p.level by {
                if s.last().level >= p.level {
                    if k < rest.len() {
                        assert(rest[k].level < p.level);
                        assert(s[k].level >= s.last().level);
                    }
                } else if j < rest.len() {
                    assert(rest[j].level < p.level);
                }
            }
        }
    }
}

/// Ranking reorders and nothing else: the result is descending by level
/// and holds each peak as often as the input does.
pub proof fn ranked_is_a_descending_rearrangement(s: Seq<Peak>)
    ensures
        descending(ranked(s)),
        ranked(s).len() == s.len(),
        ranked(s).to_multiset() == s.to_multiset(),
    decreases s.len(),
{
    broadcast use vstd::seq_lib::group_to_multiset_ensures;

    if s.len() == 0 {
        assert(ranked(s) =~= s);
    } else {
        let rest = s.drop_last();
        let p = s.last();
        ranked_is_a_descending_rearrangement(rest);
        let r = ranked(rest);
        let k = rank_slot(r, p);
        slot_bounds(r, p);
        let out = r.insert(k, p);
        assert(out == ranked(s));
        assert forall|i: int, j: int| 0 <= i < j < out.len() implies out[i].level
            >= out[j].level by {
            if i < k && j > k {
                assert(r[i].level >= r[j - 1].level);
            } else if i >= k && j > k && i > k {
                assert(r[i - 1].level >= r[j - 1].level);
            }
        }
        assert(out.remove(k) =~= r);
        assert(out[k] == p);
        assert(out.contains(p));
        assert(out.to_multiset() =~= r.to_multiset().insert(p));
        assert(s =~= rest.push(p));
        assert(s.to_multiset() =~= rest.to_multiset().insert(p));
    }
}

/// Ranking peaks that already stand strongest first changes nothing:
/// peaks of equal level are never swapped.
pub proof fn ranked_keeps_a_descending_sequence(s: Seq<Peak>)
    requires
        descending(s),
    ensures
        ranked(s) == s,
    decreases s.len(),
{
    if s.len() == 0 {
        assert(ranked(s) =~= s);
    } else {
        let rest = s.drop_last();
        assert(descending(rest)) by {
            assert forall|i: int, j: int| 0 <= i < j < rest.len() implies rest[i].level
                >= rest[j].level by {
                assert(s[i].level >= s[j].level);
            }
        }
        ranked_keeps_a_descending_sequence(rest);
        assert forall|j: int| 0 <= j < rest.len() implies rest[j].level >= s.last().level by {
            assert(s[j].level >= s[s.len() - 1].level);
        }
        slot_is_first_weaker(rest, s.last(), rest.len() as int);
        assert(rest.insert(rest.len() as int, s.last()) =~= s);
    }
}

/// Orders the peaks by level, strongest first and equals in the order
/// given, and keeps the first `limit` of them.
pub fn strongest(peaks: &Vec<Peak>, limit: usize) -> (out: Vec<Peak>)
    ensures
        out@ == strongest_of(peaks@, limit as int),
{
    let mut out: Vec<Peak> = Vec::new();
    let mut k: usize = 0;
    while k < peaks.len()
        invariant
            k <= peaks.len(),
            out@ == ranked(peaks@.take(k as int)),
        decreases peaks.len() - k,
    {
        let p: Peak = peaks[k];
        proof {
            ranked_is_a_descending_rearrangement(peaks@.take(k as int));
        }
        let mut i: usize = 0;
        while i < out.len() && out[i].level >= p.level
            invariant
                i <= out.len(),
                forall|j: int| 0 <= j < i ==> out@[j].level >= p.level,
            decreases out.len() - i,
        {
            i += 1;
        }
        proof {
            slot_is_first_weaker(out@, p, i as int);
            let next = peaks@.take(k as int + 1);
            assert(next.drop_last() =~= peaks@.take(k as int));
            assert(next.last() == p);
        }
        out.insert(i, p);
        k += 1;
    }
    proof {
        assert(peaks@.take(k as int) =~= peaks@);
        ranked_is_a_descending_rearrangement(peaks@);
    }
    out.truncate(limit);
    out
}

/// The peaks reported for a trimmed spectrum: the `PEAK_LIMIT` strongest
/// strict local maxima of its smoothed levels, strongest first.
pub open spec fn peaks_of(spectrum: Seq<u64>) -> Seq<Peak> {
    strongest_of(maxima(smoothed(spectrum)), PEAK_LIMIT as int)
}

/// Finds the dominant peaks of a trimmed spectrum. Each peak carries the
/// index of the spectrum bin it is centred on.
pub fn extract_peaks(spectrum: &Vec<u64>) -> (out: Vec<Peak>)
    ensures
        out@ == peaks_of(spectrum@),
{
    let levels = smooth(spectrum);
    let found = local_maxima(&levels);
    strongest(&found, PEAK_LIMIT)
}


/// The frequency at the centre of a bin, in thousandths of a hertz and
/// rounded down: bin `bin` of a transform of `length` samples taken at
/// `sample_rate` hertz lies at `bin / length * sample_rate` hertz.
pub open spec fn frequency_of(bin: int, length: int, sample_rate: int) -> int {
    (bin * sample_rate * 1000) / length
}

/// Maps a bin of the spectrum to its frequency in thousandths of a
/// hertz. `length` is the length of the whole transform, not of the
/// trimmed or smoothed spectrum.
///
/// There is no frequency for a transform of length 0, nor where the
/// value exceeds `u64::MAX`.
pub fn bin_frequency(bin: usize, length: usize, sample_rate: u32) -> (r: Option<u64>)
    ensures
        r.is_some() <==> length > 0 && frequency_of(
            bin as int,
            length as int,
            sample_rate as int,
        ) <= u64::MAX,
        match r {
            Some(f) => f == frequency_of(bin as int, length as int, sample_rate as int),
            None => true,
        },
{
    if length == 0 {
        return None;
    }
    let b: u128 = bin as u128;
    let rate: u128 = sample_rate as u128;
    assert(b * rate <= 0xffff_ffff_ffff_ffff * 0xffff_ffff) by (nonlinear_arith)
        requires
            b <= 0xffff_ffff_ffff_ffff,
            rate <= 0xffff_ffff,
    ;
    let scaled: u128 = b * rate * 1000;
    let value: u128 = scaled / (length as u128);
    if value > u64::MAX as u128 {
        None
    } else {
        Some(value as u64)
    }
}

/// Levels without a strict local maximum give no peak.
proof fn maxima_when_none(levels: Seq<u128>, k: int)
    requires
        forall|i: int| !is_peak(levels, i),
    ensures
        maxima_below(levels, k) == Seq::<Peak>::empty(),
    decreases k,
{
    if k > 0 {
        maxima_when_none(levels, k - 1);
    }
}

/// Levels with a single strict local maximum give that peak alone.
proof fn maxima_when_one(levels: Seq<u128>, k: int, at: int)
    requires
        forall|i: int| is_peak(levels, i) <==> i == at,
    ensures
        maxima_below(levels, k) == if k > at {
            seq![peak_at(levels, at)]
        } else {
            Seq::<Peak>::empty()
        },
    decreases k,
{
    assert(is_peak(levels, at));
    if k > 0 {
        maxima_when_one(levels, k - 1, at);
        if k - 1 == at {
            assert(maxima_below(levels, k) =~= seq![peak_at(levels, at)]);
        }
    }
}

/// A spectrum that is zero but for bin `b` and its two neighbours, both
/// neighbours positive, has exactly one peak, and it stands at bin `b`:
/// smoothing shortens the levels but the peak keeps its bin.
pub proof fn lone_bump_yields_one_peak(m: Seq<u64>, b: int)
    requires
        2 <= b <= m.len() - 3,
        m.len() <= usize::MAX,
        m[b - 1] > 0,
        m[b + 1] > 0,
        forall|i: int| 0 <= i < m.len() && i != b - 1 && i != b && i != b + 1 ==> m[i] == 0,
    ensures
        peaks_of(m) == seq![
            Peak { bin: b as usize, level: (m[b - 1] + m[b] + m[b + 1]) as u128 },
        ],
{
    let levels = smoothed(m);
    assert forall|i: int| is_peak(levels, i) <==> i == b - 1 by {
        if 1 <= i < levels.len() - 1 {
            assert(levels[i - 1] == m[i - 1] + m[i] + m[i + 1]);
            assert(levels[i] == m[i] + m[i + 1] + m[i + 2]);
            assert(levels[i + 1] == m[i + 1] + m[i + 2] + m[i + 3]);
        }
    }
    maxima_when_one(levels, levels.len() as int, b - 1);
    let p = peak_at(levels, b - 1);
    let one = seq![p];
    assert(maxima(levels) == one);
    assert(one.drop_last() =~= Seq::<Peak>::empty());
    assert(ranked(one.drop_last()) =~= Seq::<Peak>::empty());
    assert(rank_slot(Seq::<Peak>::empty(), p) == 0);
    assert(ranked(one) =~= one);
}

/// A spectrum with a single nonzero bin has no peak: smoothing spreads
/// the spike over three equal levels, none of which strictly exceeds its
/// neighbours.
pub proof fn isolated_spike_is_flattened(m: Seq<u64>, b: int)
    requires
        0 <= b < m.len(),
        forall|i: int| 0 <= i < m.len() && i != b ==> m[i] == 0,
    ensures
        peaks_of(m) == Seq::<Peak>::empty(),
{
    let levels = smoothed(m);
    assert forall|i: int| !is_peak(levels, i) by {
        if 1 <= i < levels.len() - 1 {
            assert(levels[i - 1] == m[i - 1] + m[i] + m[i + 1]);
            assert(levels[i] == m[i] + m[i + 1] + m[i + 2]);
            assert(levels[i + 1] == m[i + 1] + m[i + 2] + m[i + 3]);
        }
    }
    maxima_when_none(levels, levels.len() as int);
    assert(ranked(Seq::<Peak>::empty()) =~= Seq::<Peak>::empty());
}


/// What peak extraction reports: at most `PEAK_LIMIT` peaks, strongest
/// first, each of them a strict local maximum of the smoothed spectrum,
/// named by the bin of the spectrum it is centred on. That bin has at
/// least two bins on either side.
pub proof fn reported_peaks_are_local_maxima(spectrum: Seq<u64>)
    requires
        spectrum.len() <= usize::MAX,
    ensures
        peaks_of(spectrum).len() <= PEAK_LIMIT,
        descending(peaks_of(spectrum)),
        forall|i: int|
            0 <= i < peaks_of(spectrum).len() ==> {
                let p = #[trigger] peaks_of(spectrum)[i];
                &&& 2 <= p.bin < spectrum.len() - 2
                &&& is_peak(smoothed(spectrum), p.bin - 1)
                &&& p.level == smoothed(spectrum)[p.bin - 1]
            },
{
    broadcast use vstd::seq_lib::group_to_multiset_ensures;

    let levels = smoothed(spectrum);
    let found = maxima(levels);
    let sorted = ranked(found);
    let kept = peaks_of(spectrum);
    ranked_is_a_descending_rearrangement(found);
    maxima_are_the_local_maxima(levels, levels.len() as int);
    assert forall|i: int| 0 <= i < kept.len() implies {
        let p = #[trigger] kept[i];
        &&& 2 <= p.bin < spectrum.len() - 2
        &&& is_peak(levels, p.bin - 1)
        &&& p.level == levels[p.bin - 1]
    } by {
        let p = kept[i];
        assert(sorted[i] == p);
        assert(sorted.contains(p));
        assert(sorted.to_multiset().count(p) > 0);
        assert(found.contains(p));
        let n = choose|n: int| 0 <= n < found.len() && found[n] == p;
        assert(maxima_below(levels, levels.len() as int)[n] == p);
    }
}

/// The frequencies reported for the magnitudes of a whole transform:
/// those of the peaks of its trimmed spectrum, strongest first, in
/// thousandths of a hertz.
pub open spec fn dominant_of(magnitudes: Seq<u64>, sample_rate: u32) -> Seq<u64> {
    peaks_of(magnitudes.take(usable_len(magnitudes.len() as int))).map_values(
        |p: Peak| frequency_of(p.bin as int, magnitudes.len() as int, sample_rate as int) as u64,
    )
}

/// Finds the dominant frequencies of a recording from the magnitudes of
/// its transform, one magnitude per bin of the whole transform.
pub fn dominant_frequencies(magnitudes: Vec<u64>, sample_rate: u32) -> (out: Vec<u64>)
    ensures
        out@ == dominant_of(magnitudes@, sample_rate),
{
    let length: usize = magnitudes.len();
    let ghost whole = magnitudes@;
    let mut spectrum = magnitudes;
    trim_spectrum(&mut spectrum);
    let peaks = extract_peaks(&spectrum);
    proof {
        reported_peaks_are_local_maxima(spectrum@);
    }
    let mut out: Vec<u64> = Vec::new();
    let mut k: usize = 0;
    while k < peaks.len()
        invariant
            k <= peaks.len(),
            length == whole.len(),
            spectrum@.len() <= MAX_BINS,
            spectrum@.len() <= length,
            peaks@ == peaks_of(spectrum@),
            forall|i: int|
                0 <= i < peaks@.len() ==> 2 <= (#[trigger] peaks@[i]).bin < spectrum@.len() - 2,
            out@.len() == k,
            forall|i: int|
                0 <= i < k ==> out@[i] == frequency_of(
                    peaks@[i].bin as int,
                    length as int,
                    sample_rate as int,
                ) as u64,
        decreases peaks.len() - k,
    {
        let bin: usize = peaks[k].bin;
        assert(peaks@[k as int].bin < MAX_BINS);
        assert(frequency_of(bin as int, length as int, sample_rate as int) <= u64::MAX)
            by (nonlinear_arith)
            requires
                0 <= bin < 20000,
                0 <= sample_rate <= 0xffff_ffff,
                length >= 1,
        ;
        match bin_frequency(bin, length, sample_rate) {
            Some(f) => {
                out.push(f);
            },
            None => {
                assert(false);
            },
        }
        k += 1;
    }
    assert(out@ =~= dominant_of(whole, sample_rate));
    out
}

} // verus!
