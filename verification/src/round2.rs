//! Round 2 of the DKG: share distribution and completion.
//!
//! Round-1 verification hands over the parsed commitment table; here the
//! own polynomial is evaluated at every peer index, the received shares are
//! checked against the senders' commitments, and the keys are assembled.

use vstd::prelude::*;
use vstd::bytes::spec_u64_to_le_bytes;
use crate::curve::{
    dec, dec_ok, g_of, identity, lemma_g_of_add, lemma_le_bytes_roundtrip, mul_gen,
    multiexp_vartime, point_add, pow_seq, powers, pt_valid, scalar_from_slice, scalar_to_bytes,
    spec_multiexp, Point,
};
use crate::error::FrostError;
use crate::field::{f_add, s_add, sc_valid};
use crate::machine::Keys;
use crate::params::Params;
use crate::rounds::{
    peer_of, polynomial, spec_poly_eval, spec_verify_r1, verify_r1, views_of,
};
use crate::validate::{assembled, keys_of, map_complete, validate_err};

verus! {

/// The outgoing shares and the retained own evaluation of round 2, given
/// that round-1 verification succeeded: entry `k` of the result addresses
/// peer `peer_of(k)` and carries `F_to_bytes(f(peer))`.
pub open spec fn shares_match(out: Seq<(u16, Vec<u8>)>, coeffs: Seq<u64>, n: int, i: int) -> bool {
    &&& out.len() == n - 1
    &&& forall|k: int|
        0 <= k < n - 1 ==> (#[trigger] out[k]).0 as int == peer_of(k, i) && out[k].1@
            == spec_u64_to_le_bytes(spec_poly_eval(coeffs, peer_of(k, i)) as u64)
}

/// Round 2, emit: verifies the round-1 messages, then evaluates the own
/// polynomial at every peer index to produce the outgoing shares, and at the
/// own index to produce the retained seed of the final secret share.
///
/// The coefficients are only read here; the caller owns them and is
/// responsible for discarding them after this step.
#[verifier::rlimit(100)]
pub fn generate_key_r2(
    params: &Params,
    context: &[u8],
    blinds: &Vec<u64>,
    coefficients: &Vec<u64>,
    our_commitments: Vec<u8>,
    msgs: Vec<(u16, Vec<u8>)>,
) -> (r: Result<(u64, Vec<Vec<Point>>, Vec<(u16, Vec<u8>)>), FrostError>)
    requires
        params.valid(),
        blinds@.len() == params.spec_n() as int - 1,
        forall|k: int| 0 <= k < blinds@.len() ==> sc_valid(#[trigger] blinds@[k]),
        forall|k: int| 0 <= k < coefficients@.len() ==> sc_valid(#[trigger] coefficients@[k]),
    ensures
        ({
            let n = params.spec_n() as int;
            let t = params.spec_t() as int;
            let i = params.spec_i();
            match r {
                Ok(out) => {
                    &&& spec_verify_r1(n, t, i, context@, blinds@, msgs@, our_commitments@, Ok(out.1))
                    &&& out.0 as int == spec_poly_eval(coefficients@, i as int)
                    &&& sc_valid(out.0)
                    &&& shares_match(out.2@, coefficients@, n, i as int)
                },
                Err(e) => spec_verify_r1(n, t, i, context@, blinds@, msgs@, our_commitments@, Err(e)),
            }
        }),
{
    let commitments = match verify_r1(params, context, blinds, our_commitments, msgs) {
        Ok(cm) => cm,
        Err(e) => {
            return Err(e);
        },
    };

    let n = params.n();
    let i = params.i();
    let n_us = n as usize;
    let i_us = i as usize;

    let mut res: Vec<(u16, Vec<u8>)> = Vec::new();
    let mut lu: usize = 1;
    while lu <= n_us
        invariant
            1 <= lu <= n_us + 1,
            n_us == n as int,
            i_us == i as int,
            n == params.spec_n(),
            i == params.spec_i(),
            params.valid(),
            forall|k: int| 0 <= k < coefficients@.len() ==> sc_valid(#[trigger] coefficients@[k]),
            res@.len() == (if (i as int) < lu as int {
                lu as int - 2
            } else {
                lu as int - 1
            }),
            forall|k: int|
                0 <= k < res@.len() ==> (#[trigger] res@[k]).0 as int == peer_of(k, i as int)
                    && res@[k].1@ == spec_u64_to_le_bytes(
                    spec_poly_eval(coefficients@, peer_of(k, i as int)) as u64,
                ),
        decreases n_us + 1 - lu,
    {
        if lu != i_us {
            let sv = polynomial(coefficients, lu as u16);
            let sb = scalar_to_bytes(sv);
            let ghost oldlen = res@.len() as int;
            res.push((lu as u16, sb));
            proof {
                assert(peer_of(oldlen, i as int) == lu as int);
            }
        }
        lu = lu + 1;
    }

    let share = polynomial(coefficients, i);
    Ok((share, commitments, res))
}

/// The commitment table is well formed: `n` rows of `t` canonical points.
pub open spec fn well_formed_commitments(cm: Seq<Vec<Point>>, n: int, t: int) -> bool {
    &&& cm.len() == n
    &&& forall|l: int| 0 <= l < n ==> (#[trigger] cm[l])@.len() == t
    &&& forall|l: int, j: int| 0 <= l < n && 0 <= j < t ==> pt_valid(#[trigger] cm[l]@[j])
}

/// The first share whose bytes are not a canonical scalar encoding, in
/// index order.
pub open spec fn first_share_err(tbl: Seq<Seq<u8>>, upto: int) -> Option<int>
    decreases upto,
{
    if upto <= 0 {
        None
    } else {
        match first_share_err(tbl, upto - 1) {
            Some(l) => Some(l),
            None => if !dec_ok(tbl[upto - 1]) {
                Some(upto)
            } else {
                None
            },
        }
    }
}

/// Participant `l`'s share is consistent with its round-1 commitments:
/// `share · G == Σ_j i^j · A_{l,j}`.
pub open spec fn share_feldman_ok(
    cm: Seq<Vec<Point>>,
    tbl: Seq<Seq<u8>>,
    i: int,
    t: int,
    l: int,
) -> bool {
    spec_multiexp(pow_seq(i, t as nat), cm[l - 1]@) == g_of(dec(tbl[l - 1]))
}

/// The first peer whose share fails Feldman verification, in index order.
pub open spec fn first_feldman_fail(
    cm: Seq<Vec<Point>>,
    tbl: Seq<Seq<u8>>,
    i: int,
    t: int,
    upto: int,
) -> Option<int>
    decreases upto,
{
    if upto <= 0 {
        None
    } else {
        match first_feldman_fail(cm, tbl, i, t, upto - 1) {
            Some(l) => Some(l),
            None => if upto != i && !share_feldman_ok(cm, tbl, i, t, upto) {
                Some(upto)
            } else {
                None
            },
        }
    }
}

/// The sum of the decoded shares of the first `upto` participants.
pub open spec fn sum_shares(tbl: Seq<Seq<u8>>, upto: int) -> int
    decreases upto,
{
    if upto <= 0 {
        0
    } else {
        s_add(sum_shares(tbl, upto - 1), dec(tbl[upto - 1]))
    }
}

/// The group key: the sum of every participant's constant-term commitment.
pub open spec fn spec_group_key(cm: Seq<Vec<Point>>, upto: int) -> int
    decreases upto,
{
    if upto <= 0 {
        0
    } else {
        s_add(spec_group_key(cm, upto - 1), cm[upto - 1]@[0].v as int)
    }
}

/// The verification share of index `x`: `Σ_k Σ_j x^j · A_{k,j}`.
pub open spec fn vs_val(cm: Seq<Vec<Point>>, x: int, t: int, upto: int) -> int
    decreases upto,
{
    if upto <= 0 {
        0
    } else {
        s_add(vs_val(cm, x, t, upto - 1), spec_multiexp(pow_seq(x, t as nat), cm[upto - 1]@))
    }
}

/// If each summand of a verification share is the image of the matching
/// decoded share, the whole column sums to the image of the share sum.
pub proof fn lemma_vs_sum(cm: Seq<Vec<Point>>, tbl: Seq<Seq<u8>>, x: int, t: int, upto: int)
    requires
        forall|k: int|
            0 <= k < upto ==> #[trigger] spec_multiexp(pow_seq(x, t as nat), cm[k]@) == g_of(
                dec(tbl[k]),
            ),
    ensures
        vs_val(cm, x, t, upto) == g_of(sum_shares(tbl, upto)),
    decreases upto,
{
    if upto <= 0 {
        assert(g_of(0) == 0);
    } else {
        lemma_vs_sum(cm, tbl, x, t, upto - 1);
        lemma_g_of_add(sum_shares(tbl, upto - 1), dec(tbl[upto - 1]));
    }
}

/// If no share up to `upto` is non-canonical, there is no first error.
pub proof fn lemma_first_share_err_none(tbl: Seq<Seq<u8>>, upto: int)
    requires
        forall|l: int| 1 <= l <= upto ==> dec_ok(#[trigger] tbl[l - 1]),
    ensures
        first_share_err(tbl, upto) is None,
    decreases upto,
{
    if upto > 0 {
        lemma_first_share_err_none(tbl, upto - 1);
        assert(dec_ok(tbl[upto - 1]));
    }
}

/// If share `l0` is the first non-canonical one, it is the first overall.
pub proof fn lemma_first_share_err_found(tbl: Seq<Seq<u8>>, n: int, l0: int)
    requires
        1 <= l0 <= n,
        !dec_ok(tbl[l0 - 1]),
        forall|l: int| 1 <= l < l0 ==> dec_ok(#[trigger] tbl[l - 1]),
    ensures
        first_share_err(tbl, n) == Some(l0),
    decreases n,
{
    if n == l0 {
        lemma_first_share_err_none(tbl, n - 1);
    } else {
        lemma_first_share_err_found(tbl, n - 1, l0);
    }
}

/// If every peer's share verifies up to `upto`, there is no first failure.
pub proof fn lemma_first_feldman_none(
    cm: Seq<Vec<Point>>,
    tbl: Seq<Seq<u8>>,
    i: int,
    t: int,
    upto: int,
)
    requires
        forall|l: int| 1 <= l <= upto && l != i ==> #[trigger] share_feldman_ok(cm, tbl, i, t, l),
    ensures
        first_feldman_fail(cm, tbl, i, t, upto) is None,
    decreases upto,
{
    if upto > 0 {
        lemma_first_feldman_none(cm, tbl, i, t, upto - 1);
        if upto != i {
            assert(share_feldman_ok(cm, tbl, i, t, upto));
        }
    }
}

/// If peer `l0`'s share is the first that fails verification, it is the
/// first overall.
pub proof fn lemma_first_feldman_found(
    cm: Seq<Vec<Point>>,
    tbl: Seq<Seq<u8>>,
    i: int,
    t: int,
    n: int,
    l0: int,
)
    requires
        1 <= l0 <= n,
        l0 != i,
        !share_feldman_ok(cm, tbl, i, t, l0),
        forall|l: int| 1 <= l < l0 && l != i ==> #[trigger] share_feldman_ok(cm, tbl, i, t, l),
    ensures
        first_feldman_fail(cm, tbl, i, t, n) == Some(l0),
    decreases n,
{
    if n == l0 {
        lemma_first_feldman_none(cm, tbl, i, t, n - 1);
    } else {
        lemma_first_feldman_found(cm, tbl, i, t, n - 1, l0);
    }
}

/// What `complete_r2` returns, exactly.  Writing `tbl` for the assembled
/// share table: success if and only if the map covers `1..=n` exactly once,
/// every share decodes to a canonical scalar, and every peer's share matches
/// its commitments; the keys then hold the share sum, the sum of the
/// constant-term commitments, and one verification share per index.
pub open spec fn spec_complete_r2(
    n: int,
    t: int,
    i: int,
    params: Params,
    cm: Seq<Vec<Point>>,
    entries: Seq<(u16, Vec<u8>)>,
    share: u64,
    r: Result<Keys, FrostError>,
) -> bool {
    let keys_map = keys_of(entries);
    let tbl = assembled(entries, n, i, spec_u64_to_le_bytes(share));
    match r {
        Ok(keys) => {
            &&& map_complete(keys_map, n, i)
            &&& first_share_err(tbl, n) is None
            &&& first_feldman_fail(cm, tbl, i, t, n) is None
            &&& keys.params == params
            &&& keys.secret_share as int == sum_shares(tbl, n)
            &&& sc_valid(keys.secret_share)
            &&& keys.group_key.v as int == spec_group_key(cm, n)
            &&& pt_valid(keys.group_key)
            &&& keys.verification_shares@.len() == n
            &&& (forall|j: int|
                0 <= j < n ==> (#[trigger] keys.verification_shares@[j]).v as int == vs_val(
                    cm,
                    j + 1,
                    t,
                    n,
                ) && pt_valid(keys.verification_shares@[j]))
            &&& keys.offset is None
            &&& g_of(keys.secret_share as int) == keys.verification_shares@[i - 1].v as int
        },
        Err(e) => {
            ||| (!map_complete(keys_map, n, i) && validate_err(keys_map, n, i, e))
            ||| {
                &&& map_complete(keys_map, n, i)
                &&& match e {
                    FrostError::InvalidShare(l) => first_share_err(tbl, n) == Some(l as int),
                    FrostError::InvalidCommitment(l) => first_share_err(tbl, n) is None
                        && first_feldman_fail(cm, tbl, i, t, n) == Some(l as int),
                    _ => false,
                }
            }
        },
    }
}

/// Round 2, finish: verifies every received share against the sender's
/// commitments, sums the column into the final secret share, and derives
/// the group key and the verification shares.
///
/// The retained own evaluation is trusted against the own commitment row,
/// which the caller guarantees; everyone else's share is checked here.
#[verifier::rlimit(100)]
pub fn complete_r2(
    params: Params,
    share: u64,
    commitments: &Vec<Vec<Point>>,
    shares: Vec<(u16, Vec<u8>)>,
) -> (r: Result<Keys, FrostError>)
    requires
        params.valid(),
        sc_valid(share),
        well_formed_commitments(
            commitments@,
            params.spec_n() as int,
            params.spec_t() as int,
        ),
        spec_multiexp(
            pow_seq(params.spec_i() as int, params.spec_t() as nat),
            commitments@[params.spec_i() as int - 1]@,
        ) == g_of(share as int),
    ensures
        spec_complete_r2(
            params.spec_n() as int,
            params.spec_t() as int,
            params.spec_i() as int,
            params,
            commitments@,
            shares@,
            share,
            r,
        ),
{
    let n = params.n();
    let t = params.t();
    let i = params.i();
    let n_us = n as usize;
    let t_us = t as usize;
    let i_us = i as usize;
    let ghost cm = commitments@;
    let ghost tbl = assembled(shares@, n as int, i as int, spec_u64_to_le_bytes(share));

    let sb = scalar_to_bytes(share);
    let validated = match crate::validate::validate_map(shares, n, i, sb) {
        Ok(v) => v,
        Err(e) => {
            return Err(e);
        },
    };
    proof {
        assert(views_of(validated@) =~= tbl);
    }

    // decode every share, blaming the sender of a non-canonical one
    let mut svals: Vec<u64> = Vec::new();
    let mut lu: usize = 1;
    while lu <= n_us
        invariant
            1 <= lu <= n_us + 1,
            n_us == n as int,
            i_us == i as int,
            n == params.spec_n(),
            t == params.spec_t(),
            i == params.spec_i(),
            params.valid(),
            map_complete(keys_of(shares@), n as int, i as int),
            tbl == assembled(shares@, n as int, i as int, spec_u64_to_le_bytes(share)),
            validated@.len() == n as int,
            tbl.len() == n as int,
            forall|j: int| 0 <= j < n as int ==> #[trigger] validated@[j]@ == tbl[j],
            svals@.len() == lu as int - 1,
            forall|l: int| 1 <= l < lu as int ==> dec_ok(#[trigger] tbl[l - 1]),
            forall|k: int|
                0 <= k < lu as int - 1 ==> #[trigger] svals@[k] as int == dec(tbl[k]) && sc_valid(
                    svals@[k],
                ),
        decreases n_us + 1 - lu,
    {
        match scalar_from_slice(validated[lu - 1].as_slice()) {
            Some(v) => {
                svals.push(v);
            },
            None => {
                proof {
                    lemma_first_share_err_found(tbl, n as int, lu as int);
                }
                return Err(FrostError::InvalidShare(lu as u16));
            },
        }
        lu = lu + 1;
    }
    proof {
        lemma_first_share_err_none(tbl, n as int);
    }

    // verify every peer's share against its commitments
    let exps = powers(i as u64, t_us);
    let mut lu: usize = 1;
    while lu <= n_us
        invariant
            1 <= lu <= n_us + 1,
            n_us == n as int,
            t_us == t as int,
            i_us == i as int,
            params.valid(),
            n == params.spec_n(),
            t == params.spec_t(),
            i == params.spec_i(),
            cm == commitments@,
            tbl == assembled(shares@, n as int, i as int, spec_u64_to_le_bytes(share)),
            map_complete(keys_of(shares@), n as int, i as int),
            first_share_err(tbl, n as int) is None,
            tbl.len() == n as int,
            well_formed_commitments(cm, n as int, t as int),
            exps@ == pow_seq(i as int, t as nat),
            exps@.len() == t as int,
            forall|k: int| 0 <= k < exps@.len() ==> sc_valid(#[trigger] exps@[k]),
            svals@.len() == n as int,
            forall|k: int|
                0 <= k < n as int ==> #[trigger] svals@[k] as int == dec(tbl[k]) && sc_valid(
                    svals@[k],
                ),
            forall|l: int|
                1 <= l < lu as int && l != i as int ==> #[trigger] share_feldman_ok(
                    cm,
                    tbl,
                    i as int,
                    t as int,
                    l,
                ),
        decreases n_us + 1 - lu,
    {
        if lu != i_us {
            let expected = multiexp_vartime(&exps, &commitments[lu - 1]);
            let lhs = mul_gen(svals[lu - 1]);
            if lhs != expected {
                proof {
                    lemma_first_feldman_found(cm, tbl, i as int, t as int, n as int, lu as int);
                }
                return Err(FrostError::InvalidCommitment(lu as u16));
            }
            proof {
                assert(share_feldman_ok(cm, tbl, i as int, t as int, lu as int));
            }
        }
        lu = lu + 1;
    }
    proof {
        lemma_first_feldman_none(cm, tbl, i as int, t as int, n as int);
    }

    // the final secret share: the sum of the whole column
    let mut secret_share: u64 = 0;
    let mut k: usize = 0;
    while k < n_us
        invariant
            k <= n_us,
            n_us == n as int,
            svals@.len() == n as int,
            forall|k2: int|
                0 <= k2 < n as int ==> #[trigger] svals@[k2] as int == dec(tbl[k2]) && sc_valid(
                    svals@[k2],
                ),
            sc_valid(secret_share),
            secret_share as int == sum_shares(tbl, k as int),
        decreases n_us - k,
    {
        secret_share = f_add(secret_share, svals[k]);
        k = k + 1;
    }

    // the group key: the sum of the constant-term commitments
    let mut group_key = identity();
    let mut k: usize = 0;
    while k < n_us
        invariant
            k <= n_us,
            n_us == n as int,
            t_us == t as int,
            t >= 1,
            cm == commitments@,
            well_formed_commitments(cm, n as int, t as int),
            pt_valid(group_key),
            group_key.v as int == spec_group_key(cm, k as int),
        decreases n_us - k,
    {
        group_key = point_add(group_key, commitments[k][0]);
        k = k + 1;
    }

    // one verification share per participant index
    let mut verification_shares: Vec<Point> = Vec::new();
    let mut lv: usize = 1;
    while lv <= n_us
        invariant
            1 <= lv <= n_us + 1,
            n_us == n as int,
            t_us == t as int,
            n <= 0xFFFF,
            cm == commitments@,
            well_formed_commitments(cm, n as int, t as int),
            verification_shares@.len() == lv as int - 1,
            forall|j: int|
                0 <= j < lv as int - 1 ==> (#[trigger] verification_shares@[j]).v as int == vs_val(
                    cm,
                    j + 1,
                    t as int,
                    n as int,
                ) && pt_valid(verification_shares@[j]),
        decreases n_us + 1 - lv,
    {
        let expsl = powers(lv as u64, t_us);
        let mut acc = identity();
        let mut k: usize = 0;
        while k < n_us
            invariant
                k <= n_us,
                n_us == n as int,
                t_us == t as int,
                1 <= lv <= n_us,
                cm == commitments@,
                well_formed_commitments(cm, n as int, t as int),
                expsl@ == pow_seq(lv as int, t as nat),
                expsl@.len() == t as int,
                forall|k2: int| 0 <= k2 < expsl@.len() ==> sc_valid(#[trigger] expsl@[k2]),
                pt_valid(acc),
                acc.v as int == vs_val(cm, lv as int, t as int, k as int),
            decreases n_us - k,
        {
            let part = multiexp_vartime(&expsl, &commitments[k]);
            acc = point_add(acc, part);
            k = k + 1;
        }
        verification_shares.push(acc);
        lv = lv + 1;
    }

    proof {
        // the own verification share is the image of the secret share
        assert forall|k2: int|
            0 <= k2 < n as int implies #[trigger] spec_multiexp(
            pow_seq(i as int, t as nat),
            cm[k2]@,
        ) == g_of(dec(tbl[k2])) by {
            if k2 == i as int - 1 {
                lemma_le_bytes_roundtrip(share);
                assert(dec(tbl[k2]) == share as int);
            } else {
                assert(share_feldman_ok(cm, tbl, i as int, t as int, k2 + 1));
            }
        }
        lemma_vs_sum(cm, tbl, i as int, t as int, n as int);
        assert(verification_shares@[i as int - 1].v as int == g_of(secret_share as int));
    }

    Ok(
        Keys {
            params,
            secret_share,
            group_key,
            verification_shares,
            offset: None,
        },
    )
}


} // verus!
