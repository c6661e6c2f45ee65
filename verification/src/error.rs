//! The error values the DKG rounds can return.  Every error terminates the
//! protocol for this participant; blame is carried as the 1-based index of
//! the offending participant.

use vstd::prelude::*;
use crate::machine::State;

verus! {

/// Why a DKG step failed.
#[derive(PartialEq, Eq, Debug)]
pub enum FrostError {
    /// The state machine was driven out of order: `(expected, actual)`.
    InvalidKeyGenTransition(State, State),
    /// The named participant emitted malformed commitment bytes in round 1,
    /// or a share inconsistent with its commitments in round 2.
    InvalidCommitment(u16),
    /// The named participant's round-1 Schnorr proof of knowledge failed.
    InvalidProofOfKnowledge(u16),
    /// The named participant's round-2 scalar bytes were non-canonical.
    InvalidShare(u16),
    /// The supplied message map lacks an entry for the named participant.
    MissingParticipant(u16),
    /// The supplied message map holds an entry it must not: a repeated
    /// index, the local index, or an index outside `1..=n`.
    DuplicatedIndex(u16),
    /// The batched verification rejected although every per-participant
    /// check passed; this would indicate a broken multi-exponentiation.
    InternalError(String),
}

} // verus!
