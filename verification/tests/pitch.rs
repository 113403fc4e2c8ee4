use beeper::note::{note, Note};

const PITCHED: [Note; 21] = [
    Note::AB,
    Note::A,
    Note::AS,
    Note::BB,
    Note::B,
    Note::BS,
    Note::CB,
    Note::C,
    Note::CS,
    Note::DB,
    Note::D,
    Note::DS,
    Note::EB,
    Note::E,
    Note::ES,
    Note::FB,
    Note::F,
    Note::FS,
    Note::GB,
    Note::G,
    Note::GS,
];

#[test]
fn reference_pitch_exact() {
    assert_eq!(note(Note::A, 4, 25).frequency, 432);
    assert_eq!(note(Note::A, 4, 1).frequency, 432);
    assert_eq!(note(Note::A, 4, 255).frequency, 432);
}

#[test]
fn silence_sentinel_all_octaves() {
    for o in [0u8, 1, 4, 7, 100, 255] {
        assert_eq!(note(Note::SILENCE, o, 9).frequency, 1);
    }
}

#[test]
fn duration_passes_through() {
    for d in [1u8, 6, 12, 25, 100, 255] {
        assert_eq!(note(Note::E, 6, d).duration, d);
        assert_eq!(note(Note::SILENCE, 7, d).duration, d);
    }
}

#[test]
fn known_frequencies() {
    let a_series: [u16; 9] = [27, 54, 108, 216, 432, 864, 1728, 3456, 6912];
    for (o, f) in a_series.iter().enumerate() {
        assert_eq!(note(Note::A, o as u8, 1).frequency, *f);
    }
    assert_eq!(note(Note::B, 6, 12).frequency, 1939);
    assert_eq!(note(Note::C, 7, 12).frequency, 2054);
    assert_eq!(note(Note::D, 7, 25).frequency, 2306);
    assert_eq!(note(Note::E, 6, 50).frequency, 1294);
    assert_eq!(note(Note::E, 5, 50).frequency, 647);
    assert_eq!(note(Note::F, 6, 12).frequency, 1371);
    assert_eq!(note(Note::G, 7, 75).frequency, 3078);
    assert_eq!(note(Note::CB, 0, 1).frequency, 15);
}

#[test]
fn enharmonic_spellings_agree() {
    let pairs = [
        (Note::CS, Note::DB),
        (Note::DS, Note::EB),
        (Note::E, Note::FB),
        (Note::F, Note::ES),
        (Note::FS, Note::GB),
        (Note::GS, Note::AB),
        (Note::AS, Note::BB),
    ];
    for (x, y) in pairs {
        assert_eq!(note(x, 5, 1).frequency, note(y, 5, 1).frequency);
    }
}

#[test]
fn octave_up_doubles_within_one_hertz() {
    for n in PITCHED {
        for o in 0u8..9 {
            let f = note(n, o, 1).frequency as i32;
            let f2 = note(n, o + 1, 1).frequency as i32;
            assert!(f2 < 65535);
            assert!(
                (f2 - 2 * f).abs() <= 1,
                "octave {o}: {f} then {f2}",
            );
            assert!(f2 > f);
        }
    }
}

#[test]
fn resolve_is_deterministic() {
    for n in PITCHED {
        for o in [0u8, 4, 8, 12] {
            assert_eq!(note(n, o, 3), note(n, o, 3));
        }
    }
}

#[test]
fn very_high_octaves_clamp() {
    assert_eq!(note(Note::A, 20, 1).frequency, 65535);
    assert_eq!(note(Note::BS, 255, 1).frequency, 65535);
}

#[test]
fn playable_range_through_octave_ten() {
    for n in PITCHED {
        for o in 0u8..=10 {
            let f = note(n, o, 1).frequency;
            assert!(f >= 1);
            assert!(f <= 55296);
        }
    }
    for o in 0u8..=10 {
        assert!(note(Note::SILENCE, o, 1).frequency == 1);
    }
}
