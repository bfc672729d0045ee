use chord_finder::recording::{
    full_scale, has_extension, recording_path, sample_kind, SampleFormat, SampleKind,
    MAX_SAMPLE_BITS,
};

#[test]
fn names_without_a_dot_get_the_default_extension() {
    assert_eq!(recording_path("c_major"), "chords/c_major.wav");
    assert_eq!(recording_path(""), "chords/.wav");
    assert_eq!(recording_path("ハ長調"), "chords/ハ長調.wav");
}

#[test]
fn names_with_a_dot_are_kept() {
    assert_eq!(recording_path("c_major.wav"), "chords/c_major.wav");
    assert_eq!(recording_path("take.1"), "chords/take.1");
    assert_eq!(recording_path("."), "chords/.");
    assert!(has_extension("a.b"));
    assert!(has_extension("ハ長調."));
    assert!(!has_extension("ab"));
    assert!(!has_extension(""));
}

#[test]
fn samples_are_read_by_format_and_width() {
    assert_eq!(sample_kind(SampleFormat::Int, 16), SampleKind::Int16);
    assert_eq!(sample_kind(SampleFormat::Int, 8), SampleKind::Int32);
    assert_eq!(sample_kind(SampleFormat::Int, 24), SampleKind::Int32);
    assert_eq!(sample_kind(SampleFormat::Int, 32), SampleKind::Int32);
    assert_eq!(sample_kind(SampleFormat::Float, 32), SampleKind::Float32);
    assert_eq!(sample_kind(SampleFormat::Float, 16), SampleKind::Float32);
}

#[test]
fn full_scale_is_a_power_of_two() {
    assert_eq!(MAX_SAMPLE_BITS, 32);
    assert_eq!(full_scale(0), None);
    assert_eq!(full_scale(1), Some(1));
    assert_eq!(full_scale(8), Some(128));
    assert_eq!(full_scale(16), Some(32768));
    assert_eq!(full_scale(24), Some(8388608));
    assert_eq!(full_scale(32), Some(2147483648));
    assert_eq!(full_scale(33), None);
    assert_eq!(full_scale(u16::MAX), None);
}
