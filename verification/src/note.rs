//! Pitch resolver: maps a symbolic pitch class, an octave and an abstract
//! duration unit to a note descriptor holding an integer frequency in hertz.
//!
//! The equal-tempered scale fixes a note's frequency at
//! `432 * 2^(off / 12)`, where `off` is the note's signed semitone offset
//! from the reference pitch, A at octave 4.  The fractional power of two is
//! evaluated in IEEE-754 double precision by a software float library; only
//! the semitone part `ratio^(off mod 12)` needs it.  The remaining factor
//! `2^(off div 12)` shifts the double's exponent field, which is exact, and
//! rounding the result down to whole hertz reads the mantissa, so both are
//! done here on the bits, in verified code.
//!
//! The truncation to whole hertz happens after double-precision rounding,
//! so the tables this resolver produces are pinned to this exact shape of
//! the evaluation; computing the same fractional power another way (a
//! different library, or a direct fractional-power routine) can land one
//! unit away wherever the true value sits close to an integer.

use vstd::prelude::*;
use vstd::arithmetic::div_mod::{
    lemma_div_is_ordered, lemma_div_is_ordered_by_denominator, lemma_div_pos_is_pos,
    lemma_fundamental_div_mod,
    lemma_fundamental_div_mod_converse, lemma_hoist_over_denominator,
    lemma_mod_add_multiples_vanish, lemma_mod_division_less_than_divisor,
    lemma_mod_multiples_vanish,
};
use vstd::arithmetic::power2::{
    lemma2_to64, lemma2_to64_rest, lemma_pow2_pos, lemma_pow2_strictly_increases,
    lemma_pow2_unfold, pow2,
};

use const_soft_float::soft_f64::SoftF64;

verus! {

/// The 21 pitch classes: every enharmonic spelling of the 12 semitones of
/// an octave, plus a marker for silence.
#[derive(Clone, Copy, Debug)]
pub enum Note {
    SILENCE,
    AB,
    A,
    AS,
    BB,
    B,
    BS,
    CB,
    C,
    CS,
    DB,
    D,
    DS,
    EB,
    E,
    ES,
    FB,
    F,
    FS,
    GB,
    G,
    GS,
}

/// One entry of a note table: a frequency in hertz (1 is the sentinel for
/// silence) and a duration in abstract units.
#[derive(Clone, Copy, Debug, PartialEq, Eq, Structural)]
pub struct NoteDesc {
    pub frequency: u16,
    pub duration: u8,
}

/// IEEE-754 double bits of 432.0, the reference frequency in hertz (pitch
/// class A at octave 4).
pub const REF_PITCH_BITS: u64 = 0x407B000000000000;

/// IEEE-754 double bits of the nearest double to the twelfth root of two,
/// the frequency ratio of one equal-tempered semitone.
pub const SEMITONE_RATIO_BITS: u64 = 0x3FF0F38F92D97963;

/// The bits denote a finite double: the 11-bit exponent field under the
/// sign bit is not all ones (all ones encodes infinities and NaNs).
pub open spec fn finite_bits(b: u64) -> bool {
    (b / 0x10000000000000) % 0x800 != 0x7FF
}

/// Chromatic offset of a pitch class from the reference pitch class A,
/// in semitones within the same octave (silence carries no pitch; its
/// entry is never read).
pub open spec fn pitch_class_offset(n: Note) -> int {
    match n {
        Note::SILENCE => 0,
        Note::CB => -10,
        Note::C => -9,
        Note::CS => -8,
        Note::DB => -8,
        Note::D => -7,
        Note::DS => -6,
        Note::EB => -6,
        Note::E => -5,
        Note::FB => -5,
        Note::F => -4,
        Note::ES => -4,
        Note::FS => -3,
        Note::GB => -3,
        Note::G => -2,
        Note::GS => -1,
        Note::AB => -1,
        Note::A => 0,
        Note::AS => 1,
        Note::BB => 1,
        Note::B => 2,
        Note::BS => 3,
    }
}

/// Signed semitone offset of a note from the reference pitch (A4).
pub open spec fn semitone_offset(n: Note, octave: u8) -> int {
    pitch_class_offset(n) + (octave - 4) * 12
}

/// The IEEE-754 double bits of `base * step^r`, as the software float
/// library computes them, for `base` and `step` given as double bits.
pub uninterp spec fn et_ratio_bits(base: u64, step: u64, r: int) -> u64;

/// Relies on const_soft_float's SoftF64: `from_bits` and `to_bits` convert
/// between a double and its IEEE-754 bits, `powi` raises a double to an
/// integer power by repeated squaring of correctly rounded products, and
/// `mul` is the correctly rounded double multiplication.  The computation
/// is pure, so the result depends on the arguments alone.  `powi` with
/// exponent 0 returns exactly 1.0 (its loop never multiplies), and
/// multiplying a finite double by 1.0 returns it bit-for-bit (only a NaN
/// would come back altered, its quiet bit forced on), so a finite base
/// passes through unchanged when `r == 0`.  For the reference pitch and
/// semitone-ratio constants and `r` under 12, the true product
/// `432 * (2^(1/12))^r` lies in [432, 816), every factor in the chain is
/// at least 1, and the handful of correctly rounded multiplications can
/// move the result neither below 432.0 nor anywhere near 864.0, so the
/// returned bits stay between those of 432.0 and those of 864.0.
#[verifier::external_body]
fn ratio_bits(base: u64, step: u64, r: i32) -> (b: u64)
    ensures
        b == et_ratio_bits(base, step, r as int),
        r == 0 && finite_bits(base) ==> b == base,
        base == REF_PITCH_BITS && step == SEMITONE_RATIO_BITS && 0 <= r < 12
            ==> 0x407B000000000000 <= b <= 0x408B000000000000,
{
    SoftF64::from_bits(base).mul(SoftF64::from_bits(step).powi(r)).to_bits()
}

/// The double with the given bits, scaled by `2^k` and rounded down to an
/// integer, clamped to the u16 range: 0 for every negative double (the top
/// bit is the sign), 0 when the scaled exponent field stays below the bias
/// 1023 (the value is below 1), the u16 ceiling once it reaches 1039 (the
/// value reaches 2^16), and otherwise the leading bits of the mantissa —
/// the implicit bit 2^52 plus the 52-bit fraction, shifted down by the
/// distance from the scaled exponent to 1075 = 1023 + 52.
pub open spec fn scaled_hz(b: u64, k: int) -> u16 {
    let e = b / 0x10000000000000 + k;
    if b >= 0x8000000000000000 {
        0
    } else if e < 1023 {
        0
    } else if e >= 1039 {
        65535
    } else {
        (((b % 0x10000000000000 + 0x10000000000000) / (pow2((1075 - e) as nat) as int)) as u16)
    }
}

/// Quotients of a 53-bit mantissa by the shifts used in `scaled_hz` fit
/// in sixteen bits.
proof fn lemma_mant_div_fits(mant: int, j: nat)
    requires
        0 <= mant < 0x20000000000000,
        37 <= j <= 52,
    ensures
        0 <= mant / (pow2(j) as int) < 0x10000,
{
    lemma2_to64_rest();
    lemma_pow2_pos(j);
    if j > 37 {
        lemma_pow2_strictly_increases(37, j);
    }
    lemma_div_is_ordered_by_denominator(mant, 0x2000000000, pow2(j) as int);
    lemma_div_pos_is_pos(mant, pow2(j) as int);
    assert(mant / 0x2000000000 < 0x10000) by {
        lemma_fundamental_div_mod(mant, 0x2000000000);
        lemma_mod_division_less_than_divisor(mant, 0x2000000000);
        assert(0x2000000000 * (mant / 0x2000000000) < 0x20000000000000);
    };
}

/// Truncate to integer hertz, within the u16 range, the double with the
/// given bits after scaling it by `2^k`; the scaling only moves the
/// exponent field, so it loses nothing.
pub fn scale_to_hz(b: u64, k: i16) -> (h: u16)
    ensures
        h == scaled_hz(b, k as int),
{
    if b >= 0x8000000000000000 {
        return 0;
    }
    let expf: u64 = b / 0x10000000000000;
    let e: i64 = expf as i64 + k as i64;
    if e < 1023 {
        0
    } else if e >= 1039 {
        65535
    } else {
        let mant: u64 = b % 0x10000000000000 + 0x10000000000000;
        let shift: u16 = (1075 - e) as u16;
        let mut p: u64 = 1;
        let mut i: u16 = 0;
        proof {
            lemma2_to64();
        }
        while i < shift
            invariant
                i <= shift <= 52,
                p == pow2(i as nat),
            decreases shift - i,
        {
            proof {
                lemma_pow2_strictly_increases(i as nat, 52);
                lemma2_to64_rest();
                lemma_pow2_unfold((i + 1) as nat);
            }
            p = p * 2;
            i = i + 1;
        }
        proof {
            lemma_pow2_pos(shift as nat);
            lemma_mant_div_fits(mant as int, shift as nat);
        }
        let q: u64 = mant / p;
        q as u16
    }
}

/// With bits between those of 432.0 and those of 864.0 and a scale of at
/// least 2^-5, the truncated result is at least 1; with a scale of at most
/// 2^6 it is at most 55296 = 864 * 2^6.
proof fn lemma_scaled_hz_range(b: u64, k: int)
    requires
        0x407B000000000000 <= b <= 0x408B000000000000,
        -5 <= k,
    ensures
        1 <= scaled_hz(b, k),
        k <= 6 ==> scaled_hz(b, k) <= 55296,
{
    lemma2_to64_rest();
    let expf = b / 0x10000000000000;
    lemma_div_is_ordered(0x407B000000000000, b as int, 0x10000000000000);
    lemma_div_is_ordered(b as int, 0x408B000000000000, 0x10000000000000);
    assert(0x407B000000000000int / 0x10000000000000 == 1031);
    assert(0x408B000000000000int / 0x10000000000000 == 1032);
    let e = expf + k;
    let mant = b % 0x10000000000000 + 0x10000000000000;
    lemma_mod_division_less_than_divisor(b as int, 0x10000000000000);
    if e < 1039 {
        let j = (1075 - e) as nat;
        lemma_pow2_pos(j);
        lemma_mant_div_fits(mant, j);
        if j < 52 {
            lemma_pow2_strictly_increases(j, 52);
        }
        lemma_div_is_ordered_by_denominator(mant, pow2(j) as int, 0x10000000000000);
        lemma_div_is_ordered(0x10000000000000, mant, 0x10000000000000);
        assert(0x10000000000000int / 0x10000000000000 == 1);
        if k <= 6 {
            if expf == 1031 {
                if j > 38 {
                    lemma_pow2_strictly_increases(38, j);
                }
                lemma_div_is_ordered_by_denominator(mant, 0x4000000000, pow2(j) as int);
                assert(mant / 0x4000000000 < 0x8000) by {
                    lemma_fundamental_div_mod(mant, 0x4000000000);
                    lemma_mod_division_less_than_divisor(mant, 0x4000000000);
                    assert(0x4000000000 * (mant / 0x4000000000) < 0x20000000000000);
                };
            } else {
                lemma_fundamental_div_mod(b as int, 0x10000000000000);
                assert(mant <= 0x1B000000000000);
                if j > 37 {
                    lemma_pow2_strictly_increases(37, j);
                }
                lemma_div_is_ordered_by_denominator(mant, 0x2000000000, pow2(j) as int);
                lemma_div_is_ordered(mant, 0x1B000000000000, 0x2000000000);
                assert(0x1B000000000000int / 0x2000000000 == 55296);
            }
        }
    }
}

/// Frequency in hertz of the note `off` signed semitones away from the
/// reference pitch: `432 * 2^(off / 12)` rounded down to whole hertz, the
/// semitone part evaluated in double precision and the octave part exact.
pub open spec fn spec_frequency(off: int) -> u16 {
    scaled_hz(et_ratio_bits(REF_PITCH_BITS, SEMITONE_RATIO_BITS, off % 12), off / 12)
}

/// What `note` resolves a pitch class and octave to: silence maps to the
/// sentinel frequency 1, every real pitch to its equal-tempered frequency.
pub open spec fn spec_resolve(n: Note, octave: u8) -> u16 {
    if n is SILENCE {
        1
    } else {
        spec_frequency(semitone_offset(n, octave))
    }
}

/// Dividing by half the power of two doubles a floor quotient, up to one:
/// the halved divisor exposes one more bit of the quotient.
proof fn lemma_div_halves(mant: int, d: int)
    requires
        0 <= mant,
        1 <= d,
    ensures
        2 * (mant / (2 * d)) <= mant / d <= 2 * (mant / (2 * d)) + 1,
{
    let q = mant / (2 * d);
    let s = mant % (2 * d);
    lemma_fundamental_div_mod(mant, 2 * d);
    lemma_mod_division_less_than_divisor(mant, 2 * d);
    lemma_div_pos_is_pos(mant, 2 * d);
    if s < d {
        assert(mant == (2 * q) * d + s) by (nonlinear_arith)
            requires
                mant == (2 * d) * q + s,
        ;
        lemma_fundamental_div_mod_converse(mant, d, 2 * q, s);
    } else {
        assert(mant == (2 * q + 1) * d + (s - d)) by (nonlinear_arith)
            requires
                mant == (2 * d) * q + s,
        ;
        lemma_fundamental_div_mod_converse(mant, d, 2 * q + 1, s - d);
    }
}

/// Scaling a double one power of two up doubles the truncated integer it
/// stands for, up to the lost fractional part, as long as the doubled
/// value stays below the u16 ceiling.
proof fn lemma_scaled_hz_doubles(b: u64, k: int)
    ensures
        ({
            let f = scaled_hz(b, k);
            let f2 = scaled_hz(b, k + 1);
            f2 < 65535 ==> 2 * f <= f2 <= 2 * f + 1
        }),
{
    let e = b / 0x10000000000000 + k;
    let mant = b % 0x10000000000000 + 0x10000000000000;
    if b >= 0x8000000000000000 {
    } else if e + 1 < 1023 {
    } else if e + 1 == 1023 {
        lemma2_to64_rest();
        lemma_fundamental_div_mod_converse(mant, 0x10000000000000, 1, mant - 0x10000000000000);
    } else if e + 1 >= 1039 {
    } else {
        let j = (1075 - (e + 1)) as nat;
        lemma_pow2_unfold((j + 1) as nat);
        lemma_pow2_pos(j);
        lemma_div_halves(mant, pow2(j) as int);
        lemma_mant_div_fits(mant, (j + 1) as nat);
        lemma_mant_div_fits(mant, j);
    }
}

/// Law: `resolve` is monotonic in the octave because raising the octave by
/// one exactly doubles the resolved frequency, up to the truncation to
/// whole hertz — for every pitch class and octave whose doubled frequency
/// still fits below the u16 ceiling (beyond it both octaves clamp to the
/// ceiling and the relation degenerates).
pub proof fn lemma_octave_doubles(n: Note, octave: u8)
    requires
        !(n is SILENCE),
        octave < 255,
    ensures
        ({
            let f = spec_resolve(n, octave);
            let f2 = spec_resolve(n, (octave + 1) as u8);
            f2 < 65535 ==> 2 * f <= f2 <= 2 * f + 1
        }),
{
    let off = semitone_offset(n, octave);
    let off2 = semitone_offset(n, (octave + 1) as u8);
    assert(off2 == off + 12);
    lemma_hoist_over_denominator(off, 1, 12);
    lemma_mod_add_multiples_vanish(off, 12);
    lemma_scaled_hz_doubles(
        et_ratio_bits(REF_PITCH_BITS, SEMITONE_RATIO_BITS, off % 12),
        off / 12,
    );
}

/// Chromatic offset of a pitch class, as a machine integer.
fn pitch_offset(n: Note) -> (o: i16)
    ensures
        o == pitch_class_offset(n),
{
    match n {
        Note::SILENCE => 0,
        Note::CB => -10,
        Note::C => -9,
        Note::CS => -8,
        Note::DB => -8,
        Note::D => -7,
        Note::DS => -6,
        Note::EB => -6,
        Note::E => -5,
        Note::FB => -5,
        Note::F => -4,
        Note::ES => -4,
        Note::FS => -3,
        Note::GB => -3,
        Note::G => -2,
        Note::GS => -1,
        Note::AB => -1,
        Note::A => 0,
        Note::AS => 1,
        Note::BB => 1,
        Note::B => 2,
        Note::BS => 3,
    }
}

/// Resolve a pitch class, octave and duration into a note descriptor.
/// The duration passes through unchanged; silence gets the sentinel
/// frequency 1, and the reference pitch resolves to exactly 432 hertz.
/// Every frequency is at least the sentinel 1, and through octave 10 it
/// stays at most 55296 = 864 * 2^6 — below the sequencer's tick rate
/// divisor, so such a table passes its validation and the half-period
/// division never sees a zero.
pub fn note(n: Note, octave: u8, duration: u8) -> (d: NoteDesc)
    ensures
        d.duration == duration,
        d.frequency == spec_resolve(n, octave),
        n is SILENCE ==> d.frequency == 1,
        n is A && octave == 4 ==> d.frequency == 432,
        1 <= d.frequency,
        octave <= 10 ==> d.frequency <= 55296,
{
    if let Note::SILENCE = n {
        return NoteDesc { frequency: 1, duration };
    }
    let off: i16 = pitch_offset(n) + (octave as i16 - 4) * 12;
    let t: u16 = (off + 60) as u16;
    let k: i16 = (t / 12) as i16 - 5;
    let r: u16 = t % 12;
    proof {
        lemma_hoist_over_denominator(off as int, 5, 12);
        lemma_mod_multiples_vanish(5, off as int, 12);
        assert(k == off as int / 12);
        assert(r == off as int % 12);
    }
    let b = ratio_bits(REF_PITCH_BITS, SEMITONE_RATIO_BITS, r as i32);
    let f = scale_to_hz(b, k);
    proof {
        lemma_div_is_ordered(-58, off as int, 12);
        assert((-58int) / 12 == -5);
        if octave <= 10 {
            lemma_div_is_ordered(off as int, 75, 12);
            assert(75int / 12 == 6);
        }
        lemma_scaled_hz_range(b, k as int);
        if off == 0 {
            lemma2_to64_rest();
            assert(b == REF_PITCH_BITS);
            assert(0x407B000000000000int / 0x10000000000000 == 1031);
            assert(0x407B000000000000int % 0x10000000000000 == 0xB000000000000);
            assert(pow2(44) == 0x100000000000);
            assert((0xB000000000000int + 0x10000000000000int) / 0x100000000000int == 432);
            assert(f == 432);
        }
    }
    NoteDesc { frequency: f, duration }
}

} // verus!
