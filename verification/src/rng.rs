//! Pseudo-random derivation.
//!
//! Every randomized quantity in the engine is drawn from an explicitly seeded
//! stream, so a fitting run is a pure function of its seed: the i-th word of
//! a stream is obtained by mixing the seed with a multiple of an odd constant.
//! Fresh entropy enters only through [`entropy_u64`], which callers use to
//! seed a run when reproducibility is not wanted.

use vstd::prelude::*;
use crate::fixed::{FP_HALF, FP_ONE};

verus! {

/// A 64-bit finalizing mixer: two xor-shift-multiply rounds and a final shift.
pub open spec fn mix64_spec(v: u64) -> u64 {
    let z1 = vstd::wrapping::u64_specs::wrapping_mul(v ^ (v >> 30), 0xbf58476d1ce4e5b9);
    let z2 = vstd::wrapping::u64_specs::wrapping_mul(z1 ^ (z1 >> 27), 0x94d049bb133111eb);
    z2 ^ (z2 >> 31)
}

pub fn mix64(v: u64) -> (r: u64)
    ensures
        r == mix64_spec(v),
{
    let z1 = (v ^ (v >> 30)).wrapping_mul(0xbf58476d1ce4e5b9);
    let z2 = (z1 ^ (z1 >> 27)).wrapping_mul(0x94d049bb133111eb);
    z2 ^ (z2 >> 31)
}

/// The `i`-th word of the stream with the given seed.
pub open spec fn stream_at_spec(seed: u64, i: u64) -> u64 {
    mix64_spec(
        vstd::wrapping::u64_specs::wrapping_add(
            seed,
            vstd::wrapping::u64_specs::wrapping_mul(i, 0x9e3779b97f4a7c15),
        ),
    )
}

pub fn stream_at(seed: u64, i: u64) -> (r: u64)
    ensures
        r == stream_at_spec(seed, i),
{
    mix64(seed.wrapping_add(i.wrapping_mul(0x9e3779b97f4a7c15)))
}

/// The `i`-th draw from `[lo, hi]` of the stream with the given seed.
pub open spec fn draw_range_spec(seed: u64, i: u64, lo: i64, hi: i64) -> int {
    lo + (stream_at_spec(seed, i) as int) % (hi - lo + 1)
}

pub fn draw_range(seed: u64, i: u64, lo: i64, hi: i64) -> (r: i64)
    requires
        0 <= lo <= hi <= 0x100000000,
    ensures
        r == draw_range_spec(seed, i, lo, hi),
        lo <= r <= hi,
{
    let span = (hi - lo + 1) as u64;
    let w = stream_at(seed, i) % span;
    lo + (w as i64)
}

/// The jitter factor for one curve position: in `[0.5, 1.5)` at fixed-point
/// scale, drawn from the stream with the given seed.
pub open spec fn jitter_spec(seed: u64, i: u64) -> int {
    FP_HALF + (stream_at_spec(seed, i) as int) % (FP_ONE as int)
}

pub fn jitter_at(seed: u64, i: u64) -> (r: i64)
    ensures
        r == jitter_spec(seed, i),
        FP_HALF <= r < FP_HALF + FP_ONE,
{
    let w = stream_at(seed, i) % 65536;
    FP_HALF + (w as i64)
}

/// Relies on `rand::random::<u64>`: a word from the thread-local generator,
/// different from call to call; nothing can be promised of its value.
#[verifier::external_body]
pub fn entropy_u64() -> u64 {
    rand::random::<u64>()
}

} // verus!
