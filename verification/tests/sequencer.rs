use beeper::note::{note, Note, NoteDesc};
use beeper::sequencer::{BeepState, Song, TICKS_PER_UNIT, TICK_RATE_DIVISOR};

fn desc(frequency: u16, duration: u8) -> NoteDesc {
    NoteDesc { frequency, duration }
}

#[test]
fn calibration_constants() {
    assert_eq!(TICK_RATE_DIVISOR, 62500);
    assert_eq!(TICKS_PER_UNIT, 367);
}

#[test]
fn song_validation() {
    assert!(Song::new(vec![]).is_none());
    assert!(Song::new(vec![desc(0, 1)]).is_none());
    assert!(Song::new(vec![desc(62501, 1)]).is_none());
    assert!(Song::new(vec![desc(440, 0)]).is_none());
    assert!(Song::new(vec![desc(1, 1); 256]).is_none());
    assert!(Song::new(vec![desc(440, 1), desc(0, 2)]).is_none());
    let ok = Song::new(vec![desc(440, 1), desc(1, 25), desc(62500, 255)]);
    assert!(ok.is_some());
    assert_eq!(ok.unwrap().len(), 3);
}

#[test]
fn fresh_state() {
    let st = BeepState::new();
    assert_eq!(st.pin_high, false);
    assert_eq!(st.divider, 62500);
    assert_eq!(st.cnt, 0);
    assert_eq!(st.song_tick, 0);
    assert_eq!(st.timer, 0);
}

#[test]
fn half_periods() {
    let st = BeepState::new();
    assert_eq!(st.modulo(432), 144);
    assert_eq!(st.modulo(500), 125);
    assert_eq!(st.modulo(1), 62500);
    assert_eq!(st.modulo(62500), 1);
}

#[test]
fn toggle_cadence_500_hz() {
    // 62500 ticks per second at 500 Hz: half period of exactly 125 ticks
    let song = Song::new(vec![desc(500, 200)]).unwrap();
    let mut st = BeepState::new();
    let mut last = st.pin_high;
    let mut toggles: Vec<u32> = vec![];
    for t in 1..=1000u32 {
        st.tick(&song);
        if st.pin_high != last {
            toggles.push(t);
            last = st.pin_high;
        }
    }
    assert_eq!(toggles, vec![125, 250, 375, 500, 625, 750, 875, 1000]);
}

#[test]
fn position_advances_at_note_duration() {
    let song = Song::new(vec![desc(1000, 3), desc(2000, 5)]).unwrap();
    let mut st = BeepState::new();
    let n1 = 367u32 * 3;
    for t in 1..=n1 {
        st.tick(&song);
        if t < n1 {
            assert_eq!(st.song_tick, 0);
        }
    }
    assert_eq!(st.song_tick, 1);
    assert_eq!(st.timer, 0);
    let n2 = 367u32 * 5;
    for t in 1..=n2 {
        st.tick(&song);
        if t < n2 {
            assert_eq!(st.song_tick, 1);
        }
    }
    // one full pass brings the position back to its start
    assert_eq!(st.song_tick, 0);
    assert_eq!(st.timer, 0);
}

#[test]
fn long_duration_wraps_counter() {
    // 367 * 200 ticks overflow the 16-bit counter space; the note lasts
    // the wrapped remainder instead
    let song = Song::new(vec![desc(1000, 200), desc(1000, 1)]).unwrap();
    let mut st = BeepState::new();
    let wrapped = 367u32 * 200 - 65536;
    for _ in 0..wrapped {
        st.tick(&song);
    }
    assert_eq!(st.song_tick, 1);
    assert_eq!(st.timer, 0);
}

#[test]
fn silence_then_a4() {
    // a silence window shows no toggling; the following A4 window toggles
    // every 62500 / 432 = 144 ticks
    let silence = note(Note::SILENCE, 7, 2);
    let a4 = note(Note::A, 4, 2);
    let song = Song::new(vec![silence, a4]).unwrap();
    let window = 367u32 * 2;
    let mut st = BeepState::new();
    let last = st.pin_high;
    for _ in 0..window {
        st.tick(&song);
        assert_eq!(st.pin_high, last);
    }
    assert_eq!(st.song_tick, 1);
    let mut last = st.pin_high;
    let mut toggles: Vec<u32> = vec![];
    for t in 1..=window {
        st.tick(&song);
        if st.pin_high != last {
            toggles.push(t);
            last = st.pin_high;
        }
    }
    assert!(toggles.len() >= 2);
    for w in toggles.windows(2) {
        assert_eq!(w[1] - w[0], 144);
    }
}

#[test]
fn song_cycles_repeatedly() {
    let song = Song::new(vec![desc(700, 1), desc(900, 2), desc(1100, 3)]).unwrap();
    let cycle = 367u32 * (1 + 2 + 3);
    let mut st = BeepState::new();
    for _ in 0..3 {
        for _ in 0..cycle {
            st.tick(&song);
        }
        assert_eq!(st.song_tick, 0);
        assert_eq!(st.timer, 0);
    }
}
