use chord_finder::peaks::{
    bin_frequency, dominant_frequencies, extract_peaks, local_maxima, smooth, strongest,
    trim_spectrum, usable_bins, Peak, MAX_BINS, PEAK_LIMIT, SMOOTHING_TAPS,
};

fn peak(bin: usize, level: u128) -> Peak {
    Peak { bin, level }
}

#[test]
fn named_limits() {
    assert_eq!(MAX_BINS, 20000);
    assert_eq!(PEAK_LIMIT, 8);
    assert_eq!(SMOOTHING_TAPS, 3);
}

#[test]
fn half_of_the_transform_is_analysed() {
    assert_eq!(usable_bins(0), 0);
    assert_eq!(usable_bins(1), 0);
    assert_eq!(usable_bins(7), 3);
    assert_eq!(usable_bins(8), 4);
    assert_eq!(usable_bins(39999), 19999);
    assert_eq!(usable_bins(40000), 20000);
    assert_eq!(usable_bins(40002), 20000);
    assert_eq!(usable_bins(usize::MAX), 20000);
}

#[test]
fn trimming_keeps_the_low_bins() {
    let mut mags: Vec<u64> = vec![5, 6, 7, 8, 9, 10, 11];
    trim_spectrum(&mut mags);
    assert_eq!(mags, vec![5, 6, 7]);
    let mut mags: Vec<u64> = (0..50000).collect();
    trim_spectrum(&mut mags);
    assert_eq!(mags.len(), 20000);
    assert_eq!(mags[19999], 19999);
    let mut mags: Vec<u64> = vec![];
    trim_spectrum(&mut mags);
    assert!(mags.is_empty());
}

#[test]
fn smoothing_sums_three_neighbours() {
    assert_eq!(smooth(&vec![1, 2, 4, 8, 16]), vec![7, 14, 28]);
    assert_eq!(smooth(&vec![3, 3, 3]), vec![9]);
    assert_eq!(smooth(&vec![1, 2]), Vec::<u128>::new());
    assert_eq!(smooth(&vec![1]), Vec::<u128>::new());
    assert_eq!(smooth(&vec![]), Vec::<u128>::new());
    assert_eq!(smooth(&vec![u64::MAX, u64::MAX, u64::MAX]), vec![3 * (u64::MAX as u128)]);
}

#[test]
fn maxima_are_strict_and_carry_the_spectrum_bin() {
    // position 2 of the levels is centred on bin 3 of the spectrum
    assert_eq!(local_maxima(&vec![0, 1, 5, 1, 0]), vec![peak(3, 5)]);
    assert_eq!(local_maxima(&vec![0, 3, 0, 4, 0]), vec![peak(2, 3), peak(4, 4)]);
    assert_eq!(local_maxima(&vec![0, 2, 2, 0]), vec![]);
    assert_eq!(local_maxima(&vec![9, 1, 9]), vec![]);
    assert_eq!(local_maxima(&vec![1, 9]), vec![]);
    assert_eq!(local_maxima(&vec![]), vec![]);
}

#[test]
fn ranking_is_by_level_and_stable() {
    let peaks = vec![peak(2, 5), peak(4, 9), peak(6, 5), peak(8, 1), peak(10, 9)];
    assert_eq!(
        strongest(&peaks, 8),
        vec![peak(4, 9), peak(10, 9), peak(2, 5), peak(6, 5), peak(8, 1)]
    );
    assert_eq!(strongest(&peaks, 2), vec![peak(4, 9), peak(10, 9)]);
    assert_eq!(strongest(&peaks, 0), vec![]);
    assert_eq!(strongest(&vec![], 8), vec![]);
}

#[test]
fn a_bump_with_shoulders_is_one_peak_at_its_bin() {
    for b in 2..=7usize {
        let mut spectrum = vec![0u64; 10];
        spectrum[b - 1] = 1;
        spectrum[b] = 50;
        spectrum[b + 1] = 2;
        assert_eq!(extract_peaks(&spectrum), vec![peak(b, 53)]);
    }
}

#[test]
fn a_bump_at_the_edge_is_not_seen() {
    let mut spectrum = vec![0u64; 10];
    spectrum[0] = 1;
    spectrum[1] = 50;
    spectrum[2] = 2;
    assert_eq!(extract_peaks(&spectrum), vec![]);
    let mut spectrum = vec![0u64; 10];
    spectrum[7] = 1;
    spectrum[8] = 50;
    spectrum[9] = 2;
    assert_eq!(extract_peaks(&spectrum), vec![]);
}

#[test]
fn an_isolated_spike_is_flattened_to_a_plateau() {
    for b in 0..10usize {
        let mut spectrum = vec![0u64; 10];
        spectrum[b] = 90;
        assert_eq!(extract_peaks(&spectrum), vec![]);
    }
}

#[test]
fn at_most_eight_peaks_strongest_first() {
    // ten bumps of rising height, four bins apart
    let mut spectrum = vec![0u64; 45];
    for k in 0..10usize {
        let b = 2 + 4 * k;
        spectrum[b - 1] = 1;
        spectrum[b] = 10 * (k as u64 + 1);
        spectrum[b + 1] = 1;
    }
    let found = extract_peaks(&spectrum);
    assert_eq!(found.len(), 8);
    let bins: Vec<usize> = found.iter().map(|p| p.bin).collect();
    assert_eq!(bins, vec![38, 34, 30, 26, 22, 18, 14, 10]);
    assert_eq!(found[0].level, 102);
    assert_eq!(found[7].level, 32);
}

#[test]
fn short_spectra_have_no_peak() {
    assert_eq!(extract_peaks(&vec![]), vec![]);
    assert_eq!(extract_peaks(&vec![9]), vec![]);
    assert_eq!(extract_peaks(&vec![1, 9, 1]), vec![]);
    assert_eq!(extract_peaks(&vec![1, 9, 1, 0]), vec![]);
    assert_eq!(extract_peaks(&vec![0, 1, 9, 1, 0]), vec![peak(2, 11)]);
}

#[test]
fn bins_map_to_frequencies_by_the_transform_length() {
    // bin 10 of 1000 samples at 44100 Hz lies at 441 Hz
    assert_eq!(bin_frequency(10, 1000, 44100), Some(441_000));
    assert_eq!(bin_frequency(0, 1000, 44100), Some(0));
    assert_eq!(bin_frequency(1, 3, 1), Some(333));
    assert_eq!(bin_frequency(2, 3, 1), Some(666));
    assert_eq!(bin_frequency(5, 0, 44100), None);
    assert_eq!(bin_frequency(usize::MAX, 1, u32::MAX), None);
    assert_eq!(bin_frequency(18446744073709551, 1, 1), Some(18446744073709551000));
    assert_eq!(bin_frequency(18446744073709552, 1, 1), None);
}

#[test]
fn dominant_frequencies_use_the_lower_half_only() {
    // 100 bins at 1000 Hz: 10 Hz per bin; bumps at bins 20 and 70
    let mut magnitudes = vec![0u64; 100];
    magnitudes[19] = 1;
    magnitudes[20] = 30;
    magnitudes[21] = 1;
    magnitudes[69] = 1;
    magnitudes[70] = 90;
    magnitudes[71] = 1;
    assert_eq!(dominant_frequencies(magnitudes, 1000), vec![200_000]);
}

#[test]
fn dominant_frequencies_come_strongest_first() {
    let mut magnitudes = vec![0u64; 200];
    for (bin, height) in [(10usize, 5u64), (30, 80), (50, 20)] {
        magnitudes[bin - 1] = 1;
        magnitudes[bin] = height;
        magnitudes[bin + 1] = 1;
    }
    assert_eq!(dominant_frequencies(magnitudes, 44100), vec![6_615_000, 11_025_000, 2_205_000]);
    assert_eq!(dominant_frequencies(vec![], 44100), Vec::<u64>::new());
    assert_eq!(dominant_frequencies(vec![0, 9, 0], 44100), Vec::<u64>::new());
}

#[test]
fn bins_beyond_the_cutoff_are_ignored() {
    let mut magnitudes = vec![0u64; 50000];
    magnitudes[19996] = 1;
    magnitudes[19997] = 9;
    magnitudes[19998] = 1;
    magnitudes[20004] = 1;
    magnitudes[20005] = 9;
    magnitudes[20006] = 1;
    // 50000 samples at 50000 Hz: one hertz per bin
    assert_eq!(dominant_frequencies(magnitudes, 50000), vec![19_997_000]);
}

#[test]
fn ranking_a_ranked_list_changes_nothing() {
    let peaks = vec![peak(4, 9), peak(10, 9), peak(2, 5), peak(6, 5), peak(8, 1)];
    assert_eq!(strongest(&peaks, 8), peaks);
    assert_eq!(strongest(&strongest(&peaks, 3), 3), strongest(&peaks, 3));
}
