use chord_finder::note::{append_digits, append_integer, note_name, pitch_class, pitch_name};

/// Semitone step and octave of a frequency in hertz.
fn pitch_of(hz: f64) -> (i64, i64) {
    let position = 4.0 + (hz / 440.0).log2();
    ((position * 12.0).round() as i64, position.floor() as i64)
}

fn name_of(hz: f64) -> String {
    let (steps, octave) = pitch_of(hz);
    note_name(steps, octave)
}

#[test]
fn concert_pitch_and_its_octaves() {
    assert_eq!(name_of(440.0), "A4");
    assert_eq!(name_of(880.0), "A5");
    assert_eq!(name_of(220.0), "A3");
}

#[test]
fn pitch_classes_start_at_a() {
    let names = ["A", "A#", "B", "C", "C#", "D", "D#", "E", "F", "F#", "G", "G#"];
    for (i, name) in names.iter().enumerate() {
        assert_eq!(pitch_class(i as i64), i);
        assert_eq!(pitch_name(i as i64), *name);
        assert_eq!(pitch_name(i as i64 + 48), *name);
        assert_eq!(pitch_name(i as i64 - 24), *name);
    }
}

#[test]
fn pitch_class_of_a_negative_step_is_not_negative() {
    assert_eq!(pitch_class(-1), 11);
    assert_eq!(pitch_class(-12), 0);
    assert_eq!(pitch_class(-13), 11);
    assert_eq!(pitch_class(i64::MIN), 4);
    assert_eq!(pitch_class(i64::MAX), 7);
    assert_eq!(pitch_name(-1), "G#");
}

#[test]
fn note_names_carry_the_octave() {
    assert_eq!(note_name(48, 4), "A4");
    assert_eq!(note_name(51, 4), "C4");
    assert_eq!(note_name(59, 4), "G#4");
    assert_eq!(note_name(60, 5), "A5");
    assert_eq!(note_name(0, 0), "A0");
    assert_eq!(note_name(-3, -1), "F#-1");
    assert_eq!(note_name(121, 10), "A#10");
}

#[test]
fn low_frequencies_have_negative_octaves() {
    // 13.75 Hz is five octaves below 440 Hz; 10 Hz lies below that
    assert_eq!(name_of(13.75), "A-1");
    assert_eq!(pitch_of(10.0).1, -2);
}

#[test]
fn integers_are_written_in_decimal() {
    let mut text = String::from("n=");
    append_digits(&mut text, 0);
    assert_eq!(text, "n=0");
    append_digits(&mut text, 1234567890);
    assert_eq!(text, "n=01234567890");
    let mut text = String::new();
    append_digits(&mut text, u64::MAX);
    assert_eq!(text, "18446744073709551615");
    let mut text = String::new();
    append_integer(&mut text, -42);
    append_integer(&mut text, 7);
    assert_eq!(text, "-427");
    let mut text = String::new();
    append_integer(&mut text, i64::MIN);
    assert_eq!(text, "-9223372036854775808");
    let mut text = String::new();
    append_integer(&mut text, i64::MAX);
    assert_eq!(text, "9223372036854775807");
}
