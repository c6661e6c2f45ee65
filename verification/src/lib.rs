//! A verified two-round distributed key generation (DKG) in the FROST
//! family, backed by Feldman verifiable secret sharing.
//!
//! For a set of `n` participants with threshold `t`, the protocol produces a
//! group public key together with per-participant secret shares such that
//! any `t` shares determine the aggregate secret, while the broadcast
//! commitments let every participant check the shares it received and a
//! batched Schnorr proof of knowledge binds each commitment to its sender
//! and to the session context.
//!
//! The library is organised leaves-first:
//! - [`field`] and [`curve`]: the scalar field and a prime-order test group
//!   with fixed-length canonical encodings, a hash to the field, and a
//!   variable-time multi-exponentiation;
//! - [`params`]: the immutable `(n, t, i)` record;
//! - [`error`]: the error values every round can return;
//! - [`validate`]: exact-coverage validation of the peer message maps;
//! - [`rounds`]: round 1 — emit and batch-verify commitments with proofs of
//!   knowledge — as pure functions whose contracts pin each result as a
//!   function of its inputs;
//! - [`round2`]: round 2 — share distribution, Feldman verification, and
//!   derivation of the keys;
//! - [`machine`]: the state machine driving the rounds, which enforces the
//!   single legal traversal and owns the transient secrets;
//! - [`rng`]: the scalar-stream interface through which callers supply
//!   randomness, and a small deterministic stream for reproducible runs;
//! - [`laws`]: proved protocol-level properties — honest runs verify,
//!   complete and agree, outputs are deterministic in the supplied coins,
//!   forged shares are rejected, and quorum reconstruction recovers the
//!   aggregate secret.

pub mod curve;
pub mod error;
pub mod field;
pub mod laws;
pub mod machine;
pub mod params;
pub mod rng;
pub mod round2;
pub mod rounds;
pub mod validate;
