//! A verified tone-and-sequence engine for a one-pin buzzer: a pitch
//! resolver deriving equal-tempered note frequencies, and a sequencer that,
//! driven by a fixed-rate timer tick, generates a square wave on a modelled
//! output pin while walking a cyclic note table.

pub mod note;
pub mod sequencer;
