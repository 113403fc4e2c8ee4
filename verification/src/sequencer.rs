//! Tone sequencer: the state a fixed-rate timer interrupt advances, one
//! tick at a time, to play a cyclic note table on a single output pin.
//!
//! Each tick looks up the current note, steps a duration counter modulo
//! the note's length in ticks (a wrap advances the song position, itself
//! cyclic over the table), and steps a half-period counter modulo the
//! note's half period in ticks (a wrap toggles the pin, producing the
//! square wave).  The pin is modelled as a boolean level; the hardware
//! shell mirrors it onto the physical pin.

use vstd::prelude::*;
use vstd::arithmetic::div_mod::{
    lemma_add_mod_noop_right, lemma_div_is_ordered, lemma_div_nonincreasing,
    lemma_div_pos_is_pos, lemma_fundamental_div_mod, lemma_fundamental_div_mod_converse,
    lemma_hoist_over_denominator, lemma_mod_add_multiples_vanish,
    lemma_mod_division_less_than_divisor, lemma_mod_self_0, lemma_small_mod,
};

use crate::note::NoteDesc;

verus! {

/// Timer ticks per second: a 16 MHz clock behind a 256 prescaler, so
/// 62500; also the dividend of the half-period computation, which makes
/// the sentinel frequency 1 silent (its half period spans a full second).
pub const TICK_RATE_DIVISOR: u16 = 62500;

/// Ticks per abstract duration unit; the 1700 is an opaque calibration
/// constant relating the unit to real time.
pub const TICKS_PER_UNIT: u32 = 160000000 / 256 / 1700;

/// How many ticks a note lasts: the calibration constant times the note's
/// duration field, wrapped to the 16-bit counter space.
pub open spec fn note_duration_ticks(duration: u8) -> u16 {
    (((TICKS_PER_UNIT * duration) % 0x10000) as u16)
}

/// A positive duration always yields at least one tick: the product stays
/// below twice the counter space, and the wrap subtracts at most once,
/// never down to zero.
pub proof fn lemma_note_duration_ticks_pos(duration: u8)
    requires
        1 <= duration,
    ensures
        1 <= note_duration_ticks(duration),
{
    assert(TICKS_PER_UNIT == 367);
    let v = TICKS_PER_UNIT * duration;
    if v < 0x10000 {
        lemma_small_mod(v as nat, 0x10000);
    } else {
        assert(duration >= 179);
        lemma_small_mod((v - 0x10000) as nat, 0x10000);
        assert((v - 0x10000 + 0x10000) % 0x10000 == (v - 0x10000) % 0x10000) by {
            lemma_mod_add_multiples_vanish(v - 0x10000, 0x10000);
        };
    }
}

/// Half period in ticks of a frequency: how many ticks pass between two
/// pin toggles while a note of that frequency plays.
pub open spec fn half_period(freq: u16) -> int {
    TICK_RATE_DIVISOR as int / freq as int
}

/// A playable note table: nonempty, short enough for the 8-bit position
/// counter, every duration at least one unit, and every frequency between
/// the silence sentinel 1 and the tick rate divisor (above it the half
/// period would vanish and the counter modulus with it).
pub open spec fn wf_notes(notes: Seq<NoteDesc>) -> bool {
    &&& 1 <= notes.len() <= 255
    &&& forall|i: int|
        0 <= i < notes.len() ==> {
            &&& 1 <= (#[trigger] notes[i]).frequency
            &&& notes[i].frequency <= TICK_RATE_DIVISOR
            &&& 1 <= notes[i].duration
        }
}

/// A fixed melody: the ordered, cyclic note table the sequencer walks.
pub struct Song {
    pub notes: Vec<NoteDesc>,
}

impl Song {
    /// The table is fit to be played; see `wf_notes`.
    pub open spec fn wf(self) -> bool {
        wf_notes(self.notes@)
    }

    /// Validate a note table before it may be played: a table that is
    /// empty, longer than 255 notes, or holding a zero duration, a zero
    /// frequency or one above the tick rate divisor is rejected.
    pub fn new(notes: Vec<NoteDesc>) -> (song: Option<Song>)
        ensures
            match song {
                Some(s) => s.wf() && s.notes@ == notes@,
                None => !wf_notes(notes@),
            },
    {
        if notes.len() < 1 || notes.len() > 255 {
            return None;
        }
        let mut i: usize = 0;
        while i < notes.len()
            invariant
                i <= notes.len(),
                forall|j: int|
                    0 <= j < i ==> {
                        &&& 1 <= (#[trigger] notes@[j]).frequency
                        &&& notes@[j].frequency <= TICK_RATE_DIVISOR
                        &&& 1 <= notes@[j].duration
                    },
            decreases notes.len() - i,
        {
            let nd = notes[i];
            if nd.frequency < 1 || nd.frequency > TICK_RATE_DIVISOR || nd.duration < 1 {
                return None;
            }
            i = i + 1;
        }
        Some(Song { notes })
    }

    /// Number of notes in the table.
    pub fn len(&self) -> (n: usize)
        ensures
            n == self.notes@.len(),
    {
        self.notes.len()
    }
}

/// The sequencer's state: everything the timer interrupt reads or writes.
pub struct BeepState {
    /// Modelled level of the output pin, toggled by the waveform counter.
    pub pin_high: bool,
    /// Dividend of the half-period computation; the tick rate divisor.
    pub divider: u16,
    /// Half-period counter: ticks since the pin last toggled.
    pub cnt: u16,
    /// Song position: index of the note now playing.
    pub song_tick: u8,
    /// Duration counter: ticks since the current note began.
    pub timer: u16,
}

impl BeepState {
    /// The state is consistent with the given song: the position indexes
    /// the table, the duration counter sits inside the current note, and
    /// the half-period counter inside the widest possible half period.
    pub open spec fn wf(self, song: Song) -> bool {
        &&& self.divider == TICK_RATE_DIVISOR
        &&& (self.song_tick as int) < song.notes@.len()
        &&& self.cnt < TICK_RATE_DIVISOR
        &&& self.timer < note_duration_ticks(song.notes@[self.song_tick as int].duration)
    }

    /// Fresh state: the song starts at its first note with both counters
    /// at zero and the pin low.
    pub fn new() -> (s: BeepState)
        ensures
            s.pin_high == false,
            s.divider == TICK_RATE_DIVISOR,
            s.cnt == 0,
            s.song_tick == 0,
            s.timer == 0,
            forall|song: Song| #[trigger] song.wf() ==> s.wf(song),
    {
        let s = BeepState { pin_high: false, divider: TICK_RATE_DIVISOR, cnt: 0, song_tick: 0, timer: 0 };
        proof {
            assert forall|song: Song| #[trigger] song.wf() implies s.wf(song) by {
                lemma_note_duration_ticks_pos(song.notes@[0].duration);
            };
        }
        s
    }

    /// Half period of the given frequency under this state's divider.
    pub fn modulo(&self, freq: u16) -> (m: u16)
        requires
            1 <= freq,
        ensures
            m == self.divider as int / freq as int,
    {
        self.divider / freq
    }
}

/// What one timer tick does to the sequencer: the note at the current
/// position is looked up first, then the duration counter advances modulo
/// the note's tick count (a wrap moves the position one ahead, cyclically),
/// and the half-period counter advances modulo the note's half period (a
/// wrap toggles the pin level).
pub open spec fn spec_tick(s: BeepState, song: Song) -> BeepState
    recommends
        song.wf(),
        s.wf(song),
{
    let nd = song.notes@[s.song_tick as int];
    let nticks = note_duration_ticks(nd.duration) as int;
    let timer2 = (s.timer + 1) % nticks;
    let song_tick2 = if timer2 == 0 {
        (s.song_tick + 1) % (song.notes@.len() as int)
    } else {
        s.song_tick as int
    };
    let hp = s.divider as int / nd.frequency as int;
    let cnt2 = (s.cnt + 1) % hp;
    (BeepState {
        pin_high: if cnt2 == 0 {
            !s.pin_high
        } else {
            s.pin_high
        },
        divider: s.divider,
        cnt: cnt2 as u16,
        song_tick: song_tick2 as u8,
        timer: timer2 as u16,
    })
}

impl BeepState {
    /// The timer-interrupt body: advance the melody and the waveform by
    /// one tick, exactly as `spec_tick` describes.
    pub fn tick(&mut self, song: &Song)
        requires
            song.wf(),
            old(self).wf(*song),
        ensures
            *final(self) == spec_tick(*old(self), *song),
            final(self).wf(*song),
            final(self).cnt < half_period(song.notes@[old(self).song_tick as int].frequency),
    {
        let nd = song.notes[self.song_tick as usize];
        proof {
            assert(TICKS_PER_UNIT == 367);
            lemma_note_duration_ticks_pos(nd.duration);
        }
        let nticks: u16 = ((TICKS_PER_UNIT * (nd.duration as u32)) % 0x10000) as u16;
        self.timer = (self.timer + 1) % nticks;
        if self.timer == 0 {
            self.song_tick = (self.song_tick + 1) % (song.notes.len() as u8);
        }
        proof {
            lemma_div_is_ordered(
                nd.frequency as int,
                TICK_RATE_DIVISOR as int,
                nd.frequency as int,
            );
            lemma_div_nonincreasing(TICK_RATE_DIVISOR as int, nd.frequency as int);
        }
        let m = self.modulo(nd.frequency);
        self.cnt = (self.cnt + 1) % m;
        if self.cnt == 0 {
            self.pin_high = !self.pin_high;
        }
        proof {
            if self.timer == 0 {
                lemma_note_duration_ticks_pos(
                    song.notes@[self.song_tick as int].duration,
                );
            }
        }
    }
}

/// The sequencer after `n` ticks.
pub open spec fn spec_ticks(s: BeepState, song: Song, n: nat) -> BeepState
    decreases n,
{
    if n == 0 {
        s
    } else {
        spec_tick(spec_ticks(s, song, (n - 1) as nat), song)
    }
}

/// One tick keeps the state consistent with the song.
pub proof fn lemma_spec_tick_wf(s: BeepState, song: Song)
    requires
        song.wf(),
        s.wf(song),
    ensures
        spec_tick(s, song).wf(song),
        spec_tick(s, song).divider == s.divider,
{
    let nd = song.notes@[s.song_tick as int];
    let nticks = note_duration_ticks(nd.duration) as int;
    let hp = s.divider as int / nd.frequency as int;
    lemma_note_duration_ticks_pos(nd.duration);
    lemma_div_is_ordered(nd.frequency as int, TICK_RATE_DIVISOR as int, nd.frequency as int);
    lemma_div_nonincreasing(TICK_RATE_DIVISOR as int, nd.frequency as int);
    lemma_mod_division_less_than_divisor(s.timer + 1, nticks);
    lemma_mod_division_less_than_divisor(s.cnt + 1, hp);
    lemma_mod_division_less_than_divisor(s.song_tick + 1, song.notes@.len() as int);
    let t = spec_tick(s, song);
    if t.timer == 0 {
        lemma_note_duration_ticks_pos(song.notes@[t.song_tick as int].duration);
    }
}

/// Any number of ticks keeps the state consistent with the song.
pub proof fn lemma_spec_ticks_wf(s: BeepState, song: Song, n: nat)
    requires
        song.wf(),
        s.wf(song),
    ensures
        spec_ticks(s, song, n).wf(song),
        spec_ticks(s, song, n).divider == s.divider,
    decreases n,
{
    if n > 0 {
        lemma_spec_ticks_wf(s, song, (n - 1) as nat);
        lemma_spec_tick_wf(spec_ticks(s, song, (n - 1) as nat), song);
    }
}

/// Ticks compose: `a + b` ticks are `a` ticks followed by `b` ticks.
pub proof fn lemma_spec_ticks_add(s: BeepState, song: Song, a: nat, b: nat)
    ensures
        spec_ticks(s, song, a + b) == spec_ticks(spec_ticks(s, song, a), song, b),
    decreases b,
{
    if b > 0 {
        lemma_spec_ticks_add(s, song, a, (b - 1) as nat);
    }
}

/// Law (first half of the note-boundary guarantee): while the duration
/// counter has not filled the current note, ticks leave the song position
/// alone and the counter climbs by exactly one per tick.
pub proof fn lemma_within_note(s: BeepState, song: Song, i: nat)
    requires
        song.wf(),
        s.wf(song),
        s.timer + i < note_duration_ticks(song.notes@[s.song_tick as int].duration),
    ensures
        spec_ticks(s, song, i).wf(song),
        spec_ticks(s, song, i).song_tick == s.song_tick,
        spec_ticks(s, song, i).timer == s.timer + i,
        spec_ticks(s, song, i).divider == s.divider,
    decreases i,
{
    if i > 0 {
        lemma_within_note(s, song, (i - 1) as nat);
        let prev = spec_ticks(s, song, (i - 1) as nat);
        let n = note_duration_ticks(song.notes@[s.song_tick as int].duration) as nat;
        lemma_small_mod((s.timer + i) as nat, n);
        lemma_spec_tick_wf(prev, song);
    }
}

/// Law: starting at a note's beginning, the song position advances by
/// exactly one (cyclically) after exactly the note's duration in ticks,
/// never earlier, and the duration counter returns to zero — so positions
/// advance one at a time, one note boundary each.
pub proof fn lemma_note_boundary(s: BeepState, song: Song)
    requires
        song.wf(),
        s.wf(song),
        s.timer == 0,
    ensures
        ({
            let n = note_duration_ticks(song.notes@[s.song_tick as int].duration) as nat;
            &&& forall|i: nat|
                0 < i < n ==> (#[trigger] spec_ticks(s, song, i)).song_tick == s.song_tick
            &&& spec_ticks(s, song, n).song_tick
                == (s.song_tick + 1) % (song.notes@.len() as int)
            &&& spec_ticks(s, song, n).timer == 0
            &&& spec_ticks(s, song, n).divider == s.divider
            &&& spec_ticks(s, song, n).wf(song)
        }),
{
    let n = note_duration_ticks(song.notes@[s.song_tick as int].duration) as nat;
    lemma_note_duration_ticks_pos(song.notes@[s.song_tick as int].duration);
    assert forall|i: nat|
        0 < i < n implies (#[trigger] spec_ticks(s, song, i)).song_tick == s.song_tick by {
        lemma_within_note(s, song, i);
    };
    lemma_within_note(s, song, (n - 1) as nat);
    let prev = spec_ticks(s, song, (n - 1) as nat);
    lemma_mod_self_0(n as int);
    lemma_spec_tick_wf(prev, song);
}

/// Ticks consumed by the next `m` whole notes of the song from `pos`.
pub open spec fn cycle_ticks(song: Song, pos: int, m: nat) -> nat
    recommends
        song.wf(),
        0 <= pos < song.notes@.len(),
    decreases m,
{
    if m == 0 {
        0
    } else {
        note_duration_ticks(song.notes@[pos].duration) as nat + cycle_ticks(
            song,
            (pos + 1) % (song.notes@.len() as int),
            (m - 1) as nat,
        )
    }
}

/// Playing `m` whole notes moves the song position `m` ahead, cyclically,
/// landing on a note boundary again.
pub proof fn lemma_advance_notes(s: BeepState, song: Song, m: nat)
    requires
        song.wf(),
        s.wf(song),
        s.timer == 0,
    ensures
        ({
            let t = spec_ticks(s, song, cycle_ticks(song, s.song_tick as int, m));
            &&& t.wf(song)
            &&& t.timer == 0
            &&& t.song_tick == (s.song_tick + m) % (song.notes@.len() as int)
            &&& t.divider == s.divider
        }),
    decreases m,
{
    let len = song.notes@.len() as int;
    if m == 0 {
        lemma_small_mod(s.song_tick as nat, len as nat);
    } else {
        let n1 = note_duration_ticks(song.notes@[s.song_tick as int].duration) as nat;
        lemma_note_boundary(s, song);
        let s1 = spec_ticks(s, song, n1);
        lemma_advance_notes(s1, song, (m - 1) as nat);
        let rest = cycle_ticks(song, s1.song_tick as int, (m - 1) as nat);
        lemma_spec_ticks_add(s, song, n1, rest);
        lemma_add_mod_noop_right(m - 1, s.song_tick + 1, len);
    }
}

/// Law: one full pass over the table — as many note boundaries as the song
/// has notes — brings the song position back to where it started, at a
/// note boundary: the melody repeats indefinitely.
pub proof fn lemma_song_cycle(s: BeepState, song: Song)
    requires
        song.wf(),
        s.wf(song),
        s.timer == 0,
    ensures
        ({
            let t = spec_ticks(s, song, cycle_ticks(song, s.song_tick as int, song.notes@.len()));
            &&& t.wf(song)
            &&& t.timer == 0
            &&& t.song_tick == s.song_tick
        }),
{
    let len = song.notes@.len() as int;
    lemma_advance_notes(s, song, song.notes@.len());
    lemma_mod_add_multiples_vanish(s.song_tick as int, len);
    lemma_small_mod(s.song_tick as nat, len as nat);
}

/// Stepping a numerator by one either keeps its quotient and bumps the
/// remainder, or — exactly when the new numerator is a multiple of the
/// divisor — bumps the quotient and zeroes the remainder.
proof fn lemma_div_step(x: int, d: int)
    requires
        0 <= x,
        1 <= d,
    ensures
        (x + 1) % d == 0 ==> (x + 1) / d == x / d + 1,
        (x + 1) % d != 0 ==> (x + 1) / d == x / d && (x + 1) % d == x % d + 1,
{
    lemma_fundamental_div_mod(x, d);
    lemma_mod_division_less_than_divisor(x, d);
    lemma_div_pos_is_pos(x, d);
    let q = x / d;
    let r = x % d;
    if r == d - 1 {
        assert(x + 1 == (q + 1) * d + 0) by (nonlinear_arith)
            requires
                x == d * q + r,
                r == d - 1,
        ;
        lemma_fundamental_div_mod_converse(x + 1, d, q + 1, 0);
    } else {
        assert(x + 1 == q * d + (r + 1)) by (nonlinear_arith)
            requires
                x == d * q + r,
        ;
        lemma_fundamental_div_mod_converse(x + 1, d, q, r + 1);
    }
}

/// Parity alternates when a nonnegative count grows by one.
proof fn lemma_parity_step(a: int)
    requires
        0 <= a,
    ensures
        ((a + 1) % 2 == 0) <==> (a % 2 != 0),
{
    lemma_fundamental_div_mod(a, 2);
    lemma_mod_division_less_than_divisor(a, 2);
    if a % 2 == 0 {
        lemma_fundamental_div_mod_converse(a + 1, 2, a / 2, 1);
    } else {
        lemma_fundamental_div_mod_converse(a + 1, 2, a / 2 + 1, 0);
    }
}

/// Law: while the note does not change, the half-period counter advances
/// by one per tick modulo the current half period, and the pin level
/// follows the parity of the half periods completed since the start —
/// the pin toggles exactly when the counter wraps, once per half period.
pub proof fn lemma_toggle_cadence(s: BeepState, song: Song, i: nat)
    requires
        song.wf(),
        s.wf(song),
        1 <= i,
        s.timer + i < note_duration_ticks(song.notes@[s.song_tick as int].duration),
    ensures
        ({
            let hp = half_period(song.notes@[s.song_tick as int].frequency);
            let t = spec_ticks(s, song, i);
            &&& t.cnt == (s.cnt + i) % hp
            &&& t.pin_high == (if ((s.cnt + i) / hp - (s.cnt as int) / hp) % 2 == 0 {
                s.pin_high
            } else {
                !s.pin_high
            })
        }),
    decreases i,
{
    let nd = song.notes@[s.song_tick as int];
    let hp = half_period(nd.frequency);
    lemma_div_is_ordered(nd.frequency as int, TICK_RATE_DIVISOR as int, nd.frequency as int);
    lemma_within_note(s, song, (i - 1) as nat);
    let prev = spec_ticks(s, song, (i - 1) as nat);
    let base = (s.cnt as int) / hp;
    if i == 1 {
        lemma_div_step(s.cnt as int, hp);
    } else {
        lemma_toggle_cadence(s, song, (i - 1) as nat);
        lemma_add_mod_noop_right(1, (s.cnt + i - 1) as int, hp);
        lemma_div_step((s.cnt + i - 1) as int, hp);
        lemma_div_is_ordered(s.cnt as int, (s.cnt + i - 1) as int, hp);
        lemma_parity_step((s.cnt + i - 1) / hp - base);
    }
}

/// Law: toggles recur with a period of twice the half period — from any
/// moment inside a note, the pin level is inverted one half period later
/// and restored two half periods later, as long as the note still plays.
pub proof fn lemma_toggle_period(s: BeepState, song: Song, i: nat)
    requires
        song.wf(),
        s.wf(song),
        1 <= i,
        s.timer + i + 2 * half_period(song.notes@[s.song_tick as int].frequency)
            < note_duration_ticks(song.notes@[s.song_tick as int].duration),
    ensures
        ({
            let hp = half_period(song.notes@[s.song_tick as int].frequency) as nat;
            &&& spec_ticks(s, song, i + hp).pin_high == !spec_ticks(s, song, i).pin_high
            &&& spec_ticks(s, song, i + 2 * hp).pin_high == spec_ticks(s, song, i).pin_high
        }),
{
    let nd = song.notes@[s.song_tick as int];
    let hp = half_period(nd.frequency);
    lemma_div_is_ordered(nd.frequency as int, TICK_RATE_DIVISOR as int, nd.frequency as int);
    let x = (s.cnt + i) as int;
    let base = (s.cnt as int) / hp;
    lemma_toggle_cadence(s, song, i);
    lemma_toggle_cadence(s, song, i + hp as nat);
    lemma_toggle_cadence(s, song, i + 2 * hp as nat);
    lemma_hoist_over_denominator(x, 1, hp as nat);
    lemma_hoist_over_denominator(x, 2, hp as nat);
    lemma_div_pos_is_pos(x, hp);
    lemma_div_is_ordered(s.cnt as int, x, hp);
    let a = x / hp - base;
    lemma_parity_step(a);
    lemma_parity_step(a + 1);
}

} // verus!
