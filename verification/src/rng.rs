//! The randomness interface of the DKG.
//!
//! The protocol never selects a random-number source itself: callers supply
//! one through [`ScalarRng`], the way the surrounding system supplies its
//! cryptographic generator.  Nothing is assumed of the values drawn beyond
//! canonicality, so every guarantee of the library holds whatever the source
//! returns.  [`StreamRng`] is a small deterministic stream for tests and
//! reproducible runs.

use vstd::prelude::*;
use crate::field::{f_add, f_mul, f_reduce, sc_valid};

verus! {

/// A source of uniformly distributed scalars.  Implementations must return
/// canonical field elements; their distribution is outside the scope of the
/// contracts.
pub trait ScalarRng {
    /// Draws the next scalar.
    fn next_scalar(&mut self) -> (r: u64)
        ensures
            sc_valid(r),
    ;
}

/// Multiplier of the deterministic stream.
pub const STREAM_MULT: u64 = 0x5_DEEC_E66D;

/// Increment of the deterministic stream.
pub const STREAM_INC: u64 = 0xB;

/// A deterministic scalar stream: a linear congruence in the scalar field.
/// Two streams with the same seed yield the same scalars, which is what the
/// replay properties of the protocol are exercised with.
pub struct StreamRng {
    state: u64,
}

impl StreamRng {
    /// Starts a stream from a seed.
    pub fn new(seed: u64) -> (r: StreamRng) {
        StreamRng { state: seed }
    }
}

impl ScalarRng for StreamRng {
    fn next_scalar(&mut self) -> (r: u64)
        ensures
            sc_valid(r),
    {
        let cur = f_reduce(self.state);
        let nxt = f_add(f_mul(cur, STREAM_MULT), STREAM_INC);
        self.state = nxt;
        nxt
    }
}

} // verus!
