//! The floating-point-free core of a periodic waveform generator.
//!
//! Samples travel through this crate as IEEE 754 binary32 bit patterns, held
//! in a `u32`. The crate holds the steps of the waveform formulas that are
//! exact on a pattern: the sign under the rectangular wave, and the floor and
//! the absolute value that fold the ramp of the triangle wave. It also
//! composes the diagnostic description of each waveform from the texts of its
//! parameters. The arithmetic between those steps, and the sine, are floating
//! point and belong to the caller.
pub mod binary32;
pub mod description;
pub mod fold;
pub mod sign;
