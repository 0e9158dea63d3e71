//! A small xorshift pseudo-random generator for merge dropout.
//!
//! Dropout needs a stream of coin flips; nothing in the engine's
//! contracts depends on their values, only on the stream being cheap
//! and self-contained.  Reseeding gives callers distinct streams;
//! replaying a seed replays the stream.

use vstd::prelude::*;
use crate::config::DROPOUT_SCALE;

verus! {

/// The generator's transition: one xorshift round.
pub open spec fn next_state(s: u32) -> u32 {
    let a = s ^ (s << 13u32);
    let b = a ^ (a >> 17u32);
    b ^ (b << 5u32)
}

/// Seed used in place of zero, which xorshift would never leave.
pub const FALLBACK_SEED: u32 = 0x9E3779B9;

/// A 32-bit xorshift generator.
pub struct XorShift {
    pub state: u32,
}

impl XorShift {
    /// A generator starting from `seed` (from a fixed fallback when
    /// `seed` is zero).
    pub fn new(seed: u32) -> (r: XorShift)
        ensures
            r.state == (if seed == 0 {
                FALLBACK_SEED
            } else {
                seed
            }),
    {
        if seed == 0 {
            XorShift { state: FALLBACK_SEED }
        } else {
            XorShift { state: seed }
        }
    }

    /// The next raw value of the stream.
    pub fn next(&mut self) -> (r: u32)
        ensures
            final (self).state == next_state(old(self).state),
            r == final (self).state,
    {
        let mut s = self.state;
        s = s ^ (s << 13u32);
        s = s ^ (s >> 17u32);
        s = s ^ (s << 5u32);
        self.state = s;
        s
    }

    /// One dropout coin: true with weight `threshold` out of
    /// [`DROPOUT_SCALE`] under the stream's values.
    pub fn coin(&mut self, threshold: u32) -> (r: bool)
        ensures
            final (self).state == next_state(old(self).state),
            r == (next_state(old(self).state) % DROPOUT_SCALE < threshold),
    {
        let v = self.next();
        v % DROPOUT_SCALE < threshold
    }
}

} // verus!
