use macroquad_toolkit::score::{Scale, MAJOR, MINOR, PENTATONIC_MINOR};

fn a_minor() -> Scale {
    Scale::new(0, &MINOR)
}

#[test]
fn degrees_walk_the_scale_in_both_directions() {
    let a_minor = a_minor();
    assert_eq!(a_minor.semitones(0), 0);
    assert_eq!(a_minor.semitones(1), 2);
    assert_eq!(a_minor.semitones(7), 12);
    assert_eq!(a_minor.semitones(-1), -2);
    assert_eq!(a_minor.semitones(-7), -12);
}

#[test]
fn a_scale_recognises_its_own_notes_and_rejects_the_rest() {
    let a_minor = a_minor();
    for degree in -14..14 {
        assert!(a_minor.contains_semitone(a_minor.semitones(degree)));
    }
    assert!(!a_minor.contains_semitone(1));
    assert!(!a_minor.contains_semitone(6));
}

#[test]
fn a_transposed_scale_follows_its_root() {
    let c_major = Scale::new(3, &MAJOR);
    assert_eq!(c_major.semitones(0), 3);
    assert_eq!(c_major.semitones(2), 7);
    assert_eq!(c_major.semitones(-8), 3 - 12 - 1);
    assert!(c_major.contains_semitone(3 + 24));
    assert!(!c_major.contains_semitone(4));
}

#[test]
fn pentatonic_wraps_every_five_degrees() {
    let scale = Scale::new(-12, &PENTATONIC_MINOR);
    assert_eq!(scale.semitones(5), 0);
    assert_eq!(scale.semitones(4), -2);
    assert_eq!(scale.semitones(-5), -24);
    assert!(scale.contains_semitone(-9));
    assert!(!scale.contains_semitone(-10));
}
