//! The immutable parameter record of one DKG instance.

use vstd::prelude::*;

verus! {

/// Parameters of a multisignature: `n` participants, threshold `t`, and the
/// local participant's 1-based index `i`.  The record is immutable after
/// creation and shared by every round.
#[derive(Clone, Copy, PartialEq, Eq, Structural, Debug)]
pub struct Params {
    n: u16,
    t: u16,
    i: u16,
}

impl Params {
    /// The participant count.
    pub closed spec fn spec_n(self) -> u16 {
        self.n
    }

    /// The threshold.
    pub closed spec fn spec_t(self) -> u16 {
        self.t
    }

    /// The local participant's 1-based index.
    pub closed spec fn spec_i(self) -> u16 {
        self.i
    }

    /// The invariant every observable `Params` satisfies:
    /// `1 <= t <= n` and `1 <= i <= n`.
    pub open spec fn valid(self) -> bool {
        1 <= self.spec_t() <= self.spec_n() && 1 <= self.spec_i() <= self.spec_n()
    }

    /// Creates a parameter record, rejecting values that break the
    /// invariant.
    pub fn new(n: u16, t: u16, i: u16) -> (r: Option<Params>)
        ensures
            (1 <= t <= n && 1 <= i <= n) <==> r is Some,
            r matches Some(p) ==> p.valid() && p.spec_n() == n && p.spec_t() == t && p.spec_i()
                == i,
    {
        if 1 <= t && t <= n && 1 <= i && i <= n {
            Some(Params { n, t, i })
        } else {
            None
        }
    }

    /// The participant count.
    pub fn n(&self) -> (r: u16)
        ensures
            r == self.spec_n(),
    {
        self.n
    }

    /// The threshold.
    pub fn t(&self) -> (r: u16)
        ensures
            r == self.spec_t(),
    {
        self.t
    }

    /// The local participant's 1-based index.
    pub fn i(&self) -> (r: u16)
        ensures
            r == self.spec_i(),
    {
        self.i
    }
}

} // verus!
