//! The state machine driving the DKG rounds, and the keys it produces.
//!
//! The machine enforces the single legal traversal
//! `Fresh -> GeneratedCoefficients -> GeneratedSecretShares -> Complete`,
//! owns the transient secrets between rounds, and releases them as each
//! consuming step runs.  A call in the wrong state returns
//! `InvalidKeyGenTransition` and leaves the machine untouched, as does a
//! failing round.

use vstd::prelude::*;
use crate::curve::{pow_seq, pt_valid, spec_multiexp, g_of, Point};
use crate::error::FrostError;
use crate::field::sc_valid;
use crate::params::Params;
use crate::rng::ScalarRng;
use crate::round2::{
    complete_r2, generate_key_r2, shares_match, spec_complete_r2, well_formed_commitments,
};
use crate::rounds::{
    commitments_match, first_msg_error, first_pok_fail, generate_key_r1, lemma_batch_sum_zero,
    lemma_first_pok_fail_none_inv, lemma_own_row_consistent, spec_poly_eval, spec_r1_msg,
    spec_verify_r1,
};
use crate::validate::{assembled, keys_of, map_complete, validate_err};

verus! {

/// The outcome of a completed DKG: the participant's secret share, the
/// group public key, and one verification share `f(l) · G` per participant,
/// against which signing contributions can later be checked.  `offset` is
/// reserved for downstream rerandomisation and is always absent here.
#[derive(Debug)]
pub struct Keys {
    pub params: Params,
    pub secret_share: u64,
    pub group_key: Point,
    pub verification_shares: Vec<Point>,
    pub offset: Option<u64>,
}

/// State of a key-generation machine.  The only legal traversal is
/// `Fresh -> GeneratedCoefficients -> GeneratedSecretShares -> Complete`,
/// one step per round, each step taken at most once.
#[derive(Clone, Copy, PartialEq, Eq, Structural, Debug)]
pub enum State {
    Fresh,
    GeneratedCoefficients,
    GeneratedSecretShares,
    Complete,
}


/// Copies a byte vector.
fn clone_bytes(v: &Vec<u8>) -> (r: Vec<u8>)
    ensures
        r@ == v@,
{
    let mut r: Vec<u8> = Vec::new();
    let mut k: usize = 0;
    while k < v.len()
        invariant
            k <= v@.len(),
            r@ == v@.take(k as int),
        decreases v@.len() - k,
    {
        r.push(v[k]);
        proof {
            assert(v@.take(k as int).push(v@[k as int]) =~= v@.take(k as int + 1));
        }
        k = k + 1;
    }
    proof {
        assert(v@.take(v@.len() as int) =~= v@);
    }
    r
}

/// A state machine managing one participant's run of the key generation.
pub struct StateMachine {
    params: Params,
    context: Vec<u8>,
    state: State,
    coefficients: Option<Vec<u64>>,
    our_commitments: Option<Vec<u8>>,
    secret: Option<u64>,
    commitments: Option<Vec<Vec<Point>>>,
}

impl StateMachine {
    /// The machine's parameters.
    pub closed spec fn spec_params(self) -> Params {
        self.params
    }

    /// The machine's context string.
    pub closed spec fn spec_context(self) -> Seq<u8> {
        self.context@
    }

    /// The machine's current state.
    pub closed spec fn spec_state(self) -> State {
        self.state
    }

    /// The retained coefficients, between rounds 1 and 2.
    pub closed spec fn spec_coefficients(self) -> Option<Seq<u64>> {
        match self.coefficients {
            Some(cs) => Some(cs@),
            None => None,
        }
    }

    /// The retained own round-1 message, between rounds 1 and 2.
    pub closed spec fn spec_our_commitments(self) -> Option<Seq<u8>> {
        match self.our_commitments {
            Some(m) => Some(m@),
            None => None,
        }
    }

    /// The retained own evaluation, between round 2 and completion.
    pub closed spec fn spec_secret(self) -> Option<u64> {
        self.secret
    }

    /// The retained peer commitment table, between round 2 and completion.
    pub closed spec fn spec_commitments(self) -> Option<Seq<Vec<Point>>> {
        match self.commitments {
            Some(cm) => Some(cm@),
            None => None,
        }
    }

    /// The machine's invariant: the parameters are valid and exactly the
    /// slots of the current state are filled, with contents produced by the
    /// preceding rounds.
    pub open spec fn wf(self) -> bool {
        let n = self.spec_params().spec_n() as int;
        let t = self.spec_params().spec_t() as int;
        let i = self.spec_params().spec_i();
        &&& self.spec_params().valid()
        &&& match self.spec_state() {
            State::Fresh => {
                &&& self.spec_coefficients() is None
                &&& self.spec_our_commitments() is None
                &&& self.spec_secret() is None
                &&& self.spec_commitments() is None
            },
            State::GeneratedCoefficients => {
                &&& self.spec_coefficients() matches Some(cs) && cs.len() == t && (forall|
                    k: int,
                |
                    0 <= k < cs.len() ==> sc_valid(#[trigger] cs[k]))
                    && (self.spec_our_commitments() matches Some(m) && exists|rr: u64|
                    sc_valid(rr) && m == spec_r1_msg(i, self.spec_context(), cs, rr))
                &&& self.spec_secret() is None
                &&& self.spec_commitments() is None
            },
            State::GeneratedSecretShares => {
                &&& self.spec_coefficients() is None
                &&& self.spec_our_commitments() is None
                &&& self.spec_secret() matches Some(sec) && sc_valid(sec) && (
                self.spec_commitments() matches Some(cm) && well_formed_commitments(cm, n, t)
                    && spec_multiexp(pow_seq(i as int, t as nat), cm[i as int - 1]@) == g_of(
                    sec as int,
                ))
            },
            State::Complete => {
                &&& self.spec_coefficients() is None
                &&& self.spec_our_commitments() is None
                &&& self.spec_secret() is None
                &&& self.spec_commitments() is None
            },
        }
    }

    /// Creates a machine in the `Fresh` state for one multisignature.  The
    /// context string must be unique among all instances sharing a curve.
    pub fn new(params: Params, context: Vec<u8>) -> (r: StateMachine)
        requires
            params.valid(),
        ensures
            r.wf(),
            r.spec_state() == State::Fresh,
            r.spec_params() == params,
            r.spec_context() == context@,
    {
        StateMachine {
            params,
            context,
            state: State::Fresh,
            coefficients: None,
            our_commitments: None,
            secret: None,
            commitments: None,
        }
    }

    /// Round 1: draws the polynomial coefficients and the proof nonce from
    /// the supplied source and returns the serialized commitments to
    /// broadcast to every party over an authenticated channel.
    #[verifier::rlimit(100)]
    pub fn generate_coefficients<R: ScalarRng>(&mut self, rng: &mut R) -> (r: Result<
        Vec<u8>,
        FrostError,
    >)
        requires
            old(self).wf(),
        ensures
            final(self).wf(),
            final(self).spec_params() == old(self).spec_params(),
            final(self).spec_context() == old(self).spec_context(),
            old(self).spec_state() != State::Fresh ==> r == Err::<Vec<u8>, FrostError>(
                FrostError::InvalidKeyGenTransition(State::Fresh, old(self).spec_state()),
            ) && *final(self) == *old(self),
            old(self).spec_state() == State::Fresh ==> ({
                &&& final(self).spec_state() == State::GeneratedCoefficients
                &&& r matches Ok(m) && final(self).spec_our_commitments() == Some(m@) && (exists|
                    cs: Seq<u64>,
                    rr: u64,
                |
                    {
                        &&& final(self).spec_coefficients() == Some(cs)
                        &&& sc_valid(rr)
                        &&& m@ == #[trigger] spec_r1_msg(
                            final(self).spec_params().spec_i(),
                            final(self).spec_context(),
                            cs,
                            rr,
                        )
                    })
            }),
    {
        if !matches!(self.state, State::Fresh) {
            return Err(FrostError::InvalidKeyGenTransition(State::Fresh, self.state));
        }
        let t = self.params.t();
        let draws = t as usize + 1;
        let mut randomness: Vec<u64> = Vec::new();
        let mut k: usize = 0;
        while k < draws
            invariant
                k <= draws,
                randomness@.len() == k,
                forall|k2: int| 0 <= k2 < k ==> sc_valid(#[trigger] randomness@[k2]),
            decreases draws - k,
        {
            let x = rng.next_scalar();
            randomness.push(x);
            k = k + 1;
        }
        let (coefficients, serialized) = generate_key_r1(
            &self.params,
            self.context.as_slice(),
            &randomness,
        );
        let kept = clone_bytes(&serialized);
        self.coefficients = Some(coefficients);
        self.our_commitments = Some(kept);
        self.state = State::GeneratedCoefficients;
        proof {
            let cs = randomness@.take(t as int);
            let rr = randomness@[t as int];
            assert(self.spec_coefficients() == Some(cs));
            assert(self.spec_our_commitments() == Some(serialized@));
            assert(sc_valid(rr));
            assert(serialized@ == spec_r1_msg(
                self.spec_params().spec_i(),
                self.spec_context(),
                cs,
                rr,
            ));
            assert(self.wf());
        }
        Ok(serialized)
    }

    /// Round 2, emit: verifies everyone's round-1 commitments and proofs of
    /// knowledge, then returns one secret share per counterparty, to be
    /// encrypted before sending.  The supplied map must hold every other
    /// participant's round-1 message exactly once; the local one is filled
    /// in here.  On an error the machine is left unchanged.
    pub fn generate_secret_shares<R: ScalarRng>(
        &mut self,
        rng: &mut R,
        commitments: Vec<(u16, Vec<u8>)>,
    ) -> (r: Result<Vec<(u16, Vec<u8>)>, FrostError>)
        requires
            old(self).wf(),
        ensures
            final(self).wf(),
            final(self).spec_params() == old(self).spec_params(),
            final(self).spec_context() == old(self).spec_context(),
            old(self).spec_state() != State::GeneratedCoefficients ==> r == Err::<
                Vec<(u16, Vec<u8>)>,
                FrostError,
            >(
                FrostError::InvalidKeyGenTransition(
                    State::GeneratedCoefficients,
                    old(self).spec_state(),
                ),
            ) && *final(self) == *old(self),
            old(self).spec_state() == State::GeneratedCoefficients ==> ({
                let n = old(self).spec_params().spec_n() as int;
                let t = old(self).spec_params().spec_t() as int;
                let i = old(self).spec_params().spec_i();
                let cs = old(self).spec_coefficients()->Some_0;
                let ours = old(self).spec_our_commitments()->Some_0;
                let a = assembled(commitments@, n, i as int, ours);
                match r {
                    Ok(shares) => {
                        &&& map_complete(keys_of(commitments@), n, i as int)
                        &&& first_msg_error(a, i, t, n) is None
                        &&& shares_match(shares@, cs, n, i as int)
                        &&& final(self).spec_state() == State::GeneratedSecretShares
                        &&& final(self).spec_secret() == Some(
                            spec_poly_eval(cs, i as int) as u64,
                        )
                        &&& final(self).spec_commitments() matches Some(cm)
                            && commitments_match(cm, a, n, t)
                    },
                    Err(e) => {
                        &&& *final(self) == *old(self)
                        &&& {
                            ||| (!map_complete(keys_of(commitments@), n, i as int)
                                && validate_err(keys_of(commitments@), n, i as int, e))
                            ||| (map_complete(keys_of(commitments@), n, i as int)
                                && first_msg_error(a, i, t, n) == Some(e))
                            ||| (map_complete(keys_of(commitments@), n, i as int)
                                && first_msg_error(a, i, t, n) is None && (e matches
                                FrostError::InvalidProofOfKnowledge(l) && first_pok_fail(
                                a,
                                i,
                                old(self).spec_context(),
                                t,
                                n,
                            ) == Some(l)))
                        }
                    },
                }
            }),
            // success is owed when the map is complete, every message
            // parses, and every proof of knowledge verifies
            old(self).spec_state() == State::GeneratedCoefficients && map_complete(
                keys_of(commitments@),
                old(self).spec_params().spec_n() as int,
                old(self).spec_params().spec_i() as int,
            ) && first_msg_error(
                assembled(
                    commitments@,
                    old(self).spec_params().spec_n() as int,
                    old(self).spec_params().spec_i() as int,
                    old(self).spec_our_commitments()->Some_0,
                ),
                old(self).spec_params().spec_i(),
                old(self).spec_params().spec_t() as int,
                old(self).spec_params().spec_n() as int,
            ) is None && first_pok_fail(
                assembled(
                    commitments@,
                    old(self).spec_params().spec_n() as int,
                    old(self).spec_params().spec_i() as int,
                    old(self).spec_our_commitments()->Some_0,
                ),
                old(self).spec_params().spec_i(),
                old(self).spec_context(),
                old(self).spec_params().spec_t() as int,
                old(self).spec_params().spec_n() as int,
            ) is None ==> r is Ok,
    {
        if !matches!(self.state, State::GeneratedCoefficients) {
            return Err(
                FrostError::InvalidKeyGenTransition(State::GeneratedCoefficients, self.state),
            );
        }
        let n = self.params.n();
        let mut blinds: Vec<u64> = Vec::new();
        if n >= 2 {
            blinds.push(1);
            let mut k: usize = 2;
            while k < n as usize
                invariant
                    2 <= k <= n as usize,
                    blinds@.len() == k - 1,
                    forall|k2: int| 0 <= k2 < blinds@.len() ==> sc_valid(#[trigger] blinds@[k2]),
                decreases n as usize - k,
            {
                let x = rng.next_scalar();
                blinds.push(x);
                k = k + 1;
            }
        }
        let coeffs_ref = match &self.coefficients {
            Some(c) => c,
            None => {
                proof {
                    assert(false);
                }
                return Err(
                    FrostError::InvalidKeyGenTransition(State::GeneratedCoefficients, self.state),
                );
            },
        };
        let ours = match &self.our_commitments {
            Some(m) => clone_bytes(m),
            None => {
                proof {
                    assert(false);
                }
                return Err(
                    FrostError::InvalidKeyGenTransition(State::GeneratedCoefficients, self.state),
                );
            },
        };
        let res = generate_key_r2(
            &self.params,
            self.context.as_slice(),
            &blinds,
            coeffs_ref,
            ours,
            commitments,
        );
        match res {
            Ok((secret, cm, shares)) => {
                proof {
                    let cs = self.coefficients->Some_0@;
                    let rr = choose|rr: u64|
                        sc_valid(rr) && self.our_commitments->Some_0@ == spec_r1_msg(
                            self.params.spec_i(),
                            self.context@,
                            cs,
                            rr,
                        );
                    let n_ = self.params.spec_n() as int;
                    let t_ = self.params.spec_t() as int;
                    let i_ = self.params.spec_i();
                    let a = assembled(
                        commitments@,
                        n_,
                        i_ as int,
                        self.our_commitments->Some_0@,
                    );
                    assert(a[i_ as int - 1] == self.our_commitments->Some_0@);
                    assert forall|j: int| 0 <= j < t_ implies (#[trigger] cm@[i_ as int - 1]@[j]).v
                        as int == crate::rounds::commit_val(a[i_ as int - 1], j) by {}
                    lemma_own_row_consistent(
                        cs,
                        rr,
                        i_,
                        self.context@,
                        cm@[i_ as int - 1]@,
                    );
                }
                self.coefficients = None;
                self.our_commitments = None;
                self.secret = Some(secret);
                self.commitments = Some(cm);
                self.state = State::GeneratedSecretShares;
                Ok(shares)
            },
            Err(e) => {
                proof {
                    let n_ = self.params.spec_n() as int;
                    let t_ = self.params.spec_t() as int;
                    let i_ = self.params.spec_i();
                    let a = assembled(
                        commitments@,
                        n_,
                        i_ as int,
                        self.our_commitments->Some_0@,
                    );
                    if map_complete(keys_of(commitments@), n_, i_ as int) && first_msg_error(
                        a,
                        i_,
                        t_,
                        n_,
                    ) is None && first_pok_fail(a, i_, self.context@, t_, n_) is None {
                        lemma_first_pok_fail_none_inv(a, i_, self.context@, t_, n_);
                        lemma_batch_sum_zero(a, i_, self.context@, t_, blinds@, n_);
                        assert(false);
                    }
                }
                Err(e)
            },
        }
    }

    /// Completion: verifies everyone's shares against their round-1
    /// commitments and returns the keys: the summed secret share, the group
    /// key, and the verification shares.  The supplied map must hold every
    /// other participant's share exactly once; the local one is filled in
    /// here.  On an error the machine is left unchanged.
    pub fn complete(&mut self, shares: Vec<(u16, Vec<u8>)>) -> (r: Result<Keys, FrostError>)
        requires
            old(self).wf(),
        ensures
            final(self).wf(),
            final(self).spec_params() == old(self).spec_params(),
            final(self).spec_context() == old(self).spec_context(),
            old(self).spec_state() != State::GeneratedSecretShares ==> r == Err::<
                Keys,
                FrostError,
            >(
                FrostError::InvalidKeyGenTransition(
                    State::GeneratedSecretShares,
                    old(self).spec_state(),
                ),
            ) && *final(self) == *old(self),
            old(self).spec_state() == State::GeneratedSecretShares ==> ({
                let n = old(self).spec_params().spec_n() as int;
                let t = old(self).spec_params().spec_t() as int;
                let i = old(self).spec_params().spec_i() as int;
                let cm = old(self).spec_commitments()->Some_0;
                let sec = old(self).spec_secret()->Some_0;
                &&& spec_complete_r2(n, t, i, old(self).spec_params(), cm, shares@, sec, r)
                &&& (r is Ok ==> final(self).spec_state() == State::Complete)
                &&& (r is Err ==> *final(self) == *old(self))
            }),
    {
        if !matches!(self.state, State::GeneratedSecretShares) {
            return Err(
                FrostError::InvalidKeyGenTransition(State::GeneratedSecretShares, self.state),
            );
        }
        let sec = match self.secret {
            Some(s) => s,
            None => {
                proof {
                    assert(false);
                }
                return Err(
                    FrostError::InvalidKeyGenTransition(State::GeneratedSecretShares, self.state),
                );
            },
        };
        let cm_ref = match &self.commitments {
            Some(c) => c,
            None => {
                proof {
                    assert(false);
                }
                return Err(
                    FrostError::InvalidKeyGenTransition(State::GeneratedSecretShares, self.state),
                );
            },
        };
        let res = complete_r2(self.params, sec, cm_ref, shares);
        match res {
            Ok(keys) => {
                self.secret = None;
                self.commitments = None;
                self.state = State::Complete;
                Ok(keys)
            },
            Err(e) => Err(e),
        }
    }

    /// The machine's parameters.
    pub fn params(&self) -> (r: Params)
        ensures
            r == self.spec_params(),
    {
        self.params
    }

    /// The machine's current state.
    pub fn state(&self) -> (r: State)
        ensures
            r == self.spec_state(),
    {
        self.state
    }
}

} // verus!
