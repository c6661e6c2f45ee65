//! Protocol-level properties, proved once and for all over the round
//! contracts: honest runs verify and complete with agreeing keys, replays
//! with the same coins are byte-identical, and forged shares are rejected.

use vstd::prelude::*;
use vstd::bytes::spec_u64_to_le_bytes;
use crate::curve::{
    dec_ok, g_of, lemma_g_of_add, lemma_g_of_injective, lemma_g_of_mul, lemma_le_bytes_roundtrip,
    pow_seq, spec_multiexp, Point,
};
use crate::field::{lemma_ops_bounded, lemma_s_add_assoc, q, s_add, s_mul, sc_valid};
use crate::round2::{
    first_feldman_fail, first_share_err, lemma_first_feldman_none, lemma_first_share_err_none,
    share_feldman_ok, spec_group_key, vs_val,
};
use crate::rounds::{
    batch_sum, commit_val, commitments_match, commits_ok, first_msg_error, first_pok_fail,
    lemma_batch_sum_zero, lemma_commits_bytes_index, lemma_commits_bytes_len, lemma_feldman,
    lemma_first_msg_error_none, lemma_first_pok_fail_none, msg_error, pok_holds, r1_len, r_val,
    s_val, spec_challenge, spec_commits_bytes, spec_msg_challenge, spec_poly_eval, spec_r1_msg,
};

verus! {

/// The round-1 message table of an honest run: participant `j + 1` commits
/// to its `t` coefficients with nonce `nonces[j]`.
pub open spec fn honest_msgs(coeffs: Seq<Seq<u64>>, nonces: Seq<u64>, ctx: Seq<u8>) -> Seq<
    Seq<u8>,
> {
    Seq::new(coeffs.len(), |j: int| spec_r1_msg((j + 1) as u16, ctx, coeffs[j], nonces[j]))
}

/// The coefficient table of one honest participant: `t` canonical scalars.
pub open spec fn coeffs_wf(cs: Seq<u64>, t: int) -> bool {
    cs.len() == t && t >= 1 && (forall|k: int| 0 <= k < cs.len() ==> sc_valid(#[trigger] cs[k]))
}

/// An honestly built round-1 message parses cleanly for every viewer and
/// its proof of knowledge verifies.
pub proof fn lemma_honest_msg_ok(l: u16, viewer: u16, ctx: Seq<u8>, cs: Seq<u64>, rr: u64, t: int)
    requires
        coeffs_wf(cs, t),
        sc_valid(rr),
    ensures
        msg_error(l, viewer, spec_r1_msg(l, ctx, cs, rr), t) is None,
        pok_holds(l, ctx, spec_r1_msg(l, ctx, cs, rr), t),
        forall|j: int|
            0 <= j < t ==> #[trigger] commit_val(spec_r1_msg(l, ctx, cs, rr), j) == g_of(
                cs[j] as int,
            ),
{
    reveal(spec_r1_msg);
    let m = spec_r1_msg(l, ctx, cs, rr);
    let am = spec_commits_bytes(cs);
    let rb = spec_u64_to_le_bytes(g_of(rr as int) as u64);
    let c = spec_challenge(l, ctx, rb, am);
    let s = s_add(rr as int, s_mul(c, cs[0] as int));
    let sb = spec_u64_to_le_bytes(s as u64);
    lemma_commits_bytes_len(cs);
    lemma_le_bytes_roundtrip(g_of(rr as int) as u64);
    lemma_le_bytes_roundtrip(s as u64);
    assert(m.len() == r1_len(t));
    assert forall|j: int| 0 <= j < t implies #[trigger] commit_val(m, j) == g_of(
        cs[j] as int,
    ) by {
        assert(m.subrange(8 * j, 8 * j + 8) =~= am.subrange(8 * j, 8 * j + 8));
        lemma_commits_bytes_index(cs, j);
        lemma_le_bytes_roundtrip(g_of(cs[j] as int) as u64);
    }
    assert(commits_ok(m, t));
    assert(m.subrange(8 * t, 8 * t + 8) =~= rb);
    assert(m.subrange(8 * t + 8, 8 * t + 16) =~= sb);
    assert(r_val(m, t) == g_of(rr as int));
    assert(s_val(m, t) == s);
    assert(m.take(8 * t) =~= am);
    assert(spec_msg_challenge(l, ctx, m, t) == c);
    // the Schnorr identity: (r + c·a_0) · G == R + c · (a_0 · G)
    lemma_g_of_add(rr as int, s_mul(c, cs[0] as int));
    lemma_g_of_mul(c, cs[0] as int);
    assert(g_of(s_val(m, t)) == s_add(r_val(m, t), s_mul(c, commit_val(m, 0))));
}

/// Honest runs verify, round 1: in an honest run every participant accepts every round-1
/// message — nothing parses wrong, every proof of knowledge holds, and the
/// batched total is zero whatever blinding factors the verifier draws.
pub proof fn lemma_honest_round1_verifies(
    n: int,
    t: int,
    coeffs: Seq<Seq<u64>>,
    nonces: Seq<u64>,
    ctx: Seq<u8>,
    viewer: u16,
    us: Seq<u64>,
)
    requires
        1 <= t <= n <= 0xFFFF,
        coeffs.len() == n,
        nonces.len() == n,
        forall|j: int| 0 <= j < n ==> coeffs_wf(#[trigger] coeffs[j], t),
        forall|j: int| 0 <= j < n ==> sc_valid(#[trigger] nonces[j]),
        1 <= viewer as int <= n,
    ensures
        first_msg_error(honest_msgs(coeffs, nonces, ctx), viewer, t, n) is None,
        first_pok_fail(honest_msgs(coeffs, nonces, ctx), viewer, ctx, t, n) is None,
        batch_sum(honest_msgs(coeffs, nonces, ctx), viewer, ctx, t, us, n) == 0,
{
    let msgs = honest_msgs(coeffs, nonces, ctx);
    assert forall|l: u16| 1 <= l as int && l as int <= n implies #[trigger] msg_error(
        l,
        viewer,
        msgs[l as int - 1],
        t,
    ) is None && pok_holds(l, ctx, msgs[l as int - 1], t) by {
        lemma_honest_msg_ok(l, viewer, ctx, coeffs[l as int - 1], nonces[l as int - 1], t);
        assert(msgs[l as int - 1] == spec_r1_msg(
            l,
            ctx,
            coeffs[l as int - 1],
            nonces[l as int - 1],
        ));
    }
    lemma_first_msg_error_none(msgs, viewer, t, n);
    assert forall|l: u16|
        1 <= l as int && l as int <= n && l != viewer implies #[trigger] pok_holds(
        l,
        ctx,
        msgs[l as int - 1],
        t,
    ) by {
        lemma_honest_msg_ok(l, viewer, ctx, coeffs[l as int - 1], nonces[l as int - 1], t);
        assert(msgs[l as int - 1] == spec_r1_msg(
            l,
            ctx,
            coeffs[l as int - 1],
            nonces[l as int - 1],
        ));
    }
    lemma_first_pok_fail_none(msgs, viewer, ctx, t, n);
    lemma_batch_sum_zero(msgs, viewer, ctx, t, us, n);
}

/// Honest runs complete, round 2: in an honest run every share table verifies — each share
/// decodes and matches the sender's commitments — so completion is owed.
pub proof fn lemma_honest_shares_verify(
    n: int,
    t: int,
    coeffs: Seq<Seq<u64>>,
    nonces: Seq<u64>,
    ctx: Seq<u8>,
    i: int,
    cm: Seq<Vec<Point>>,
    tbl: Seq<Seq<u8>>,
)
    requires
        1 <= t <= n <= 0xFFFF,
        1 <= i <= n,
        coeffs.len() == n,
        nonces.len() == n,
        forall|j: int| 0 <= j < n ==> coeffs_wf(#[trigger] coeffs[j], t),
        forall|j: int| 0 <= j < n ==> sc_valid(#[trigger] nonces[j]),
        commitments_match(cm, honest_msgs(coeffs, nonces, ctx), n, t),
        tbl.len() == n,
        forall|k: int|
            0 <= k < n ==> #[trigger] tbl[k] == spec_u64_to_le_bytes(
                spec_poly_eval(coeffs[k], i) as u64,
            ),
    ensures
        first_share_err(tbl, n) is None,
        first_feldman_fail(cm, tbl, i, t, n) is None,
{
    let msgs = honest_msgs(coeffs, nonces, ctx);
    assert forall|l: int| 1 <= l <= n implies dec_ok(#[trigger] tbl[l - 1]) && share_feldman_ok(
        cm,
        tbl,
        i,
        t,
        l,
    ) by {
        let csl = coeffs[l - 1];
        crate::rounds::lemma_poly_eval_bounded(csl, i);
        lemma_le_bytes_roundtrip(spec_poly_eval(csl, i) as u64);
        lemma_honest_msg_ok(l as u16, l as u16, ctx, csl, nonces[l - 1], t);
        assert(msgs[l - 1] == spec_r1_msg(l as u16, ctx, csl, nonces[l - 1]));
        assert forall|j: int| 0 <= j < t implies (#[trigger] cm[l - 1]@[j]).v as int == g_of(
            csl[j] as int,
        ) by {
            assert(cm[l - 1]@[j].v as int == commit_val(msgs[l - 1], j));
        }
        lemma_feldman(csl, i, cm[l - 1]@);
    }
    lemma_first_share_err_none(tbl, n);
    lemma_first_feldman_none(cm, tbl, i, t, n);
}

/// Agreement: the group key and the verification shares are functions
/// of the common commitment table alone, so any two participants whose
/// parses agree pointwise derive the same values.
pub proof fn lemma_keys_agree(
    cm1: Seq<Vec<Point>>,
    cm2: Seq<Vec<Point>>,
    msgs: Seq<Seq<u8>>,
    n: int,
    t: int,
    x: int,
    upto: int,
)
    requires
        commitments_match(cm1, msgs, n, t),
        commitments_match(cm2, msgs, n, t),
        0 <= upto <= n,
        t >= 1,
    ensures
        spec_group_key(cm1, upto) == spec_group_key(cm2, upto),
        vs_val(cm1, x, t, upto) == vs_val(cm2, x, t, upto),
    decreases upto,
{
    if upto > 0 {
        lemma_keys_agree(cm1, cm2, msgs, n, t, x, upto - 1);
        assert forall|j: int| 0 <= j < t implies (#[trigger] cm1[upto - 1]@[j]) == cm2[upto
            - 1]@[j] by {
            assert(cm1[upto - 1]@[j].v as int == commit_val(msgs[upto - 1], j));
            assert(cm2[upto - 1]@[j].v as int == commit_val(msgs[upto - 1], j));
        }
        assert(cm1[upto - 1]@ =~= cm2[upto - 1]@);
    }
}

/// Determinism: the round-1 message and the share evaluations are
/// functions of the participant index, the context and the drawn scalars
/// alone; replaying with the same coins and context yields byte-identical
/// messages and shares.  Together with the exact contracts of the rounds —
/// every output is pinned as a spec-level function of the inputs — the
/// whole run is a function of the coins and the context.
pub proof fn lemma_replay_deterministic(
    i: u16,
    ctx1: Seq<u8>,
    ctx2: Seq<u8>,
    cs1: Seq<u64>,
    cs2: Seq<u64>,
    r1: u64,
    r2: u64,
    x: int,
)
    requires
        ctx1 == ctx2,
        cs1 == cs2,
        r1 == r2,
    ensures
        spec_r1_msg(i, ctx1, cs1, r1) == spec_r1_msg(i, ctx2, cs2, r2),
        spec_poly_eval(cs1, x) == spec_poly_eval(cs2, x),
{
}

/// Feldman soundness: replacing the share of participant `l` with any
/// other canonical scalar makes that participant's Feldman check fail, so
/// `complete_r2` returns `InvalidCommitment(l)` blame by its contract.
pub proof fn lemma_forged_share_rejected(
    cs: Seq<u64>,
    t: int,
    i: int,
    l: int,
    row: Seq<Point>,
    cm: Seq<Vec<Point>>,
    tbl: Seq<Seq<u8>>,
    forged: u64,
)
    requires
        coeffs_wf(cs, t),
        1 <= i <= 0xFFFF,
        1 <= l <= tbl.len(),
        l <= cm.len(),
        cm[l - 1]@ == row,
        row.len() == t,
        forall|j: int| 0 <= j < t ==> (#[trigger] row[j]).v as int == g_of(cs[j] as int),
        sc_valid(forged),
        forged as int != spec_poly_eval(cs, i),
        tbl[l - 1] == spec_u64_to_le_bytes(forged),
    ensures
        !share_feldman_ok(cm, tbl, i, t, l),
{
    lemma_feldman(cs, i, row);
    lemma_le_bytes_roundtrip(forged);
    crate::rounds::lemma_poly_eval_bounded(cs, i);
    if spec_multiexp(pow_seq(i, t as nat), row) == g_of(forged as int) {
        lemma_g_of_injective(forged as int, spec_poly_eval(cs, i));
    }
}


/// The weighted power sum of the quorum nodes: `Σ_k lams[k] · xs[k]^j`.
pub open spec fn weighted_power_sum(lams: Seq<u64>, xs: Seq<u64>, j: nat) -> int
    decreases lams.len(),
{
    if lams.len() == 0 {
        0
    } else {
        s_add(
            weighted_power_sum(lams.drop_last(), xs.drop_last(), j),
            s_mul(lams.last() as int, crate::curve::spec_pow(xs.last() as int, j)),
        )
    }
}

/// The weighted sum of the polynomial's values at the quorum nodes:
/// `Σ_k lams[k] · f(xs[k])`.
pub open spec fn weighted_eval_sum(lams: Seq<u64>, xs: Seq<u64>, coeffs: Seq<u64>) -> int
    decreases lams.len(),
{
    if lams.len() == 0 {
        0
    } else {
        s_add(
            weighted_eval_sum(lams.drop_last(), xs.drop_last(), coeffs),
            s_mul(lams.last() as int, spec_poly_eval(coeffs, xs.last() as int)),
        )
    }
}

/// The weights with each node multiplied in once more.
pub open spec fn scaled_weights(lams: Seq<u64>, xs: Seq<u64>) -> Seq<u64> {
    Seq::new(lams.len(), |k: int| s_mul(lams[k] as int, xs[k] as int) as u64)
}

/// Scaling the weights shifts every power sum by one.
proof fn lemma_scaled_power_sum(lams: Seq<u64>, xs: Seq<u64>, j: nat)
    requires
        lams.len() == xs.len(),
        forall|k: int| 0 <= k < xs.len() ==> sc_valid(#[trigger] xs[k]),
    ensures
        weighted_power_sum(scaled_weights(lams, xs), xs, j) == weighted_power_sum(
            lams,
            xs,
            (j + 1) as nat,
        ),
    decreases lams.len(),
{
    if lams.len() > 0 {
        let n = lams.len() as int;
        assert(scaled_weights(lams, xs).drop_last() =~= scaled_weights(
            lams.drop_last(),
            xs.drop_last(),
        ));
        lemma_scaled_power_sum(lams.drop_last(), xs.drop_last(), j);
        let lam = lams.last() as int;
        let x = xs.last() as int;
        let p = crate::curve::spec_pow(x, j);
        // ((lam·x) mod q) · x^j == lam · x^(j+1) modulo q
        crate::field::lemma_s_mul_noop_left(lam * x, p);
        crate::field::lemma_ops_bounded(lam, x);
        vstd::arithmetic::mul::lemma_mul_is_associative(lam, x, p);
        crate::field::lemma_s_mul_noop_right(lam, x * p);
        assert(s_mul(x, p) == crate::curve::spec_pow(x, (j + 1) as nat));
        crate::field::lemma_s_mul_noop_right(lam, s_mul(x, p));
        assert(s_mul(scaled_weights(lams, xs).last() as int, p) == s_mul(
            lam,
            crate::curve::spec_pow(x, (j + 1) as nat),
        ));
    }
}

/// One step of the sum exchange: taking the constant coefficient out of the
/// weighted evaluation sum leaves the scaled weights against the shifted
/// polynomial.
proof fn lemma_eval_sum_decompose(lams: Seq<u64>, xs: Seq<u64>, coeffs: Seq<u64>)
    requires
        lams.len() == xs.len(),
        coeffs.len() >= 1,
        forall|k: int| 0 <= k < xs.len() ==> sc_valid(#[trigger] xs[k]),
    ensures
        weighted_eval_sum(lams, xs, coeffs) == s_add(
            s_mul(coeffs[0] as int, weighted_power_sum(lams, xs, 0)),
            weighted_eval_sum(scaled_weights(lams, xs), xs, coeffs.skip(1)),
        ),
    decreases lams.len(),
{
    let a0 = coeffs[0] as int;
    if lams.len() == 0 {
        crate::field::lemma_s_mul_zero(a0);
    } else {
        assert(scaled_weights(lams, xs).drop_last() =~= scaled_weights(
            lams.drop_last(),
            xs.drop_last(),
        ));
        lemma_eval_sum_decompose(lams.drop_last(), xs.drop_last(), coeffs);
        let lam = lams.last() as int;
        let x = xs.last() as int;
        let e = spec_poly_eval(coeffs.skip(1), x);
        // lam · f(x) == lam·a0 + (lam·x)·f_tail(x)
        crate::field::lemma_s_mul_distrib(lam, a0, s_mul(x, e));
        crate::field::lemma_s_mul_assoc(lam, x, e);
        assert(s_mul(lam, spec_poly_eval(coeffs, x)) == s_add(
            s_mul(lam, a0),
            s_mul(s_mul(lam, x), e),
        )) by {
            crate::field::lemma_s_mul_noop_right(lam, a0 + s_mul(x, e));
        }
        // fold in the induction hypothesis and regroup the four summands
        let w = weighted_power_sum(lams.drop_last(), xs.drop_last(), 0);
        let v = weighted_eval_sum(
            scaled_weights(lams.drop_last(), xs.drop_last()),
            xs.drop_last(),
            coeffs.skip(1),
        );
        let sl = s_mul(s_mul(lam, x), e);
        assert(s_mul(scaled_weights(lams, xs).last() as int, e) == sl) by {
            crate::field::lemma_ops_bounded(lam, x);
            crate::field::lemma_s_mul_noop_left(lam * x, e);
        }
        // lam · x^0 == lam mod q
        assert(s_mul(lam, crate::curve::spec_pow(x, 0)) == lam % q());
        // a0 · (w + lam) == a0·w + a0·lam
        crate::field::lemma_s_mul_distrib(a0, w, lam);
        crate::field::lemma_s_mul_noop_right(a0, w + lam);
        crate::field::lemma_s_mul_noop_right(a0, w + lam % q());
        assert((w + lam % q()) % q() == (w + lam) % q()) by {
            crate::field::lemma_s_add_noop_right(w, lam);
        }
        // (A + B) + (C + D) == (A + C) + (B + D) for the modular sum
        let aa = s_mul(a0, w);
        let bb = v;
        let cc = s_mul(a0, lam);
        let dd = sl;
        assert(s_add(s_add(aa, bb), s_add(cc, dd)) == s_add(s_add(aa, cc), s_add(bb, dd))) by {
            lemma_s_add_assoc(s_add(aa, bb), cc, dd);
            lemma_s_add_assoc(aa, bb, cc);
            lemma_s_add_assoc(aa, cc, bb);
            lemma_s_add_assoc(s_add(aa, cc), bb, dd);
        }
        assert(s_add(cc, dd) == s_mul(lam, spec_poly_eval(coeffs, x)));
    }
}

/// If every power sum of the weights vanishes, so does every weighted
/// evaluation sum.
proof fn lemma_eval_sum_vanishes(lams: Seq<u64>, xs: Seq<u64>, coeffs: Seq<u64>)
    requires
        lams.len() == xs.len(),
        forall|k: int| 0 <= k < xs.len() ==> sc_valid(#[trigger] xs[k]),
        forall|j: nat| j < coeffs.len() ==> #[trigger] weighted_power_sum(lams, xs, j) == 0,
    ensures
        weighted_eval_sum(lams, xs, coeffs) == 0,
    decreases coeffs.len(),
{
    if coeffs.len() == 0 {
        assert(coeffs =~= Seq::<u64>::empty());
        lemma_eval_sum_zero_poly(lams, xs);
    } else {
        lemma_eval_sum_decompose(lams, xs, coeffs);
        assert(weighted_power_sum(lams, xs, 0) == 0);
        crate::field::lemma_s_mul_zero(coeffs[0] as int);
        assert forall|j: nat| j < coeffs.skip(1).len() implies #[trigger] weighted_power_sum(
            scaled_weights(lams, xs),
            xs,
            j,
        ) == 0 by {
            lemma_scaled_power_sum(lams, xs, j);
            assert(weighted_power_sum(lams, xs, (j + 1) as nat) == 0);
        }
        lemma_eval_sum_vanishes(scaled_weights(lams, xs), xs, coeffs.skip(1));
        assert(s_add(0, 0) == 0) by {
            vstd::arithmetic::div_mod::lemma_small_mod(0, crate::field::MODULUS as nat);
        }
    }
}

/// The weighted sum over the zero polynomial is zero.
proof fn lemma_eval_sum_zero_poly(lams: Seq<u64>, xs: Seq<u64>)
    requires
        lams.len() == xs.len(),
    ensures
        weighted_eval_sum(lams, xs, Seq::<u64>::empty()) == 0,
    decreases lams.len(),
{
    if lams.len() > 0 {
        lemma_eval_sum_zero_poly(lams.drop_last(), xs.drop_last());
        crate::field::lemma_s_mul_zero(lams.last() as int);
    }
}

/// Shamir reconstruction: for any quorum of `t` distinct nodes and any
/// interpolation weights at zero — characterized by their power sums,
/// `Σ_k λ_k · x_k^j` being one for `j = 0` and zero for `0 < j < t` — the
/// weighted sum of a degree-below-`t` polynomial's values at the nodes is
/// its value at zero.  The closed-form Lagrange weights satisfy exactly
/// these identities; computing them takes field inversion, which the curve
/// interface does not carry, so the weights enter here as values.
pub proof fn lemma_shamir_reconstruction(lams: Seq<u64>, xs: Seq<u64>, coeffs: Seq<u64>)
    requires
        lams.len() == xs.len(),
        coeffs.len() >= 1,
        lams.len() >= coeffs.len(),
        forall|k: int| 0 <= k < xs.len() ==> sc_valid(#[trigger] xs[k]),
        forall|k: int| 0 <= k < coeffs.len() ==> sc_valid(#[trigger] coeffs[k]),
        weighted_power_sum(lams, xs, 0) == 1,
        forall|j: nat|
            0 < j < coeffs.len() ==> #[trigger] weighted_power_sum(lams, xs, j) == 0,
    ensures
        weighted_eval_sum(lams, xs, coeffs) == coeffs[0] as int,
{
    lemma_eval_sum_decompose(lams, xs, coeffs);
    let a0 = coeffs[0] as int;
    assert(s_mul(a0, 1) == a0) by {
        crate::field::lemma_s_mul_one(a0);
    }
    assert forall|j: nat| j < coeffs.skip(1).len() implies #[trigger] weighted_power_sum(
        scaled_weights(lams, xs),
        xs,
        j,
    ) == 0 by {
        lemma_scaled_power_sum(lams, xs, j);
        assert(weighted_power_sum(lams, xs, (j + 1) as nat) == 0);
    }
    lemma_eval_sum_vanishes(scaled_weights(lams, xs), xs, coeffs.skip(1));
    crate::field::lemma_s_add_zero(a0);
}


/// Coefficient-wise sum of two coefficient tables of equal length.
pub open spec fn sum_coeffs(c1: Seq<u64>, c2: Seq<u64>) -> Seq<u64> {
    Seq::new(c1.len(), |j: int| s_add(c1[j] as int, c2[j] as int) as u64)
}

/// Evaluation is additive in the coefficients: the dealers' polynomials sum
/// to the aggregate polynomial, so the sum of the received shares is the
/// aggregate polynomial's value at the own index.
pub proof fn lemma_poly_eval_additive(c1: Seq<u64>, c2: Seq<u64>, x: int)
    requires
        c1.len() == c2.len(),
    ensures
        spec_poly_eval(sum_coeffs(c1, c2), x) == s_add(
            spec_poly_eval(c1, x),
            spec_poly_eval(c2, x),
        ),
    decreases c1.len(),
{
    if c1.len() == 0 {
        assert(sum_coeffs(c1, c2) =~= Seq::<u64>::empty());
        assert(s_add(0, 0) == 0) by {
            vstd::arithmetic::div_mod::lemma_small_mod(0, crate::field::MODULUS as nat);
        }
    } else {
        assert(sum_coeffs(c1, c2).skip(1) =~= sum_coeffs(c1.skip(1), c2.skip(1)));
        lemma_poly_eval_additive(c1.skip(1), c2.skip(1), x);
        let a1 = c1[0] as int;
        let a2 = c2[0] as int;
        let e1 = spec_poly_eval(c1.skip(1), x);
        let e2 = spec_poly_eval(c2.skip(1), x);
        // x · (e1 + e2) == x·e1 + x·e2
        crate::field::lemma_s_mul_distrib(x, e1, e2);
        crate::field::lemma_s_mul_noop_right(x, e1 + e2);
        // the reduced leading coefficient may be un-reduced
        crate::field::lemma_s_add_noop_left(a1 + a2, s_mul(x, s_add(e1, e2)));
        // (a1 + a2) + (xe1 + xe2) == (a1 + xe1) + (a2 + xe2)
        let m1 = s_mul(x, e1);
        let m2 = s_mul(x, e2);
        assert(s_add(a1 + a2, s_add(m1, m2)) == s_add(s_add(a1, m1), s_add(a2, m2))) by {
            crate::field::lemma_s_add_noop_left(a1 + a2, s_add(m1, m2));
            lemma_s_add_assoc(a1 + a2, m1, m2);
            crate::field::lemma_s_add_noop_left(a1 + a2 + m1, m2);
            lemma_s_add_assoc(s_add(a1, m1), a2, m2);
            crate::field::lemma_s_add_noop_left(a1 + m1, a2);
            assert(s_add(a1 + a2 + m1, m2) == s_add(s_add(a1, m1), s_add(a2, m2))) by {
                crate::field::lemma_s_add_noop_left(a1 + m1 + a2, m2);
            }
        }
    }
}

/// The sum of the dealers' constant terms, over the first `upto` dealers.
pub open spec fn sum_consts(coeffs: Seq<Seq<u64>>, upto: int) -> int
    decreases upto,
{
    if upto <= 0 {
        0
    } else {
        s_add(sum_consts(coeffs, upto - 1), coeffs[upto - 1][0] as int)
    }
}

/// The honest group key: in an honest run the group key is the image of
/// the summed constant terms — the aggregate polynomial's value at zero,
/// which Shamir reconstruction recovers from any quorum of shares.
pub proof fn lemma_honest_group_key(
    n: int,
    t: int,
    coeffs: Seq<Seq<u64>>,
    nonces: Seq<u64>,
    ctx: Seq<u8>,
    cm: Seq<Vec<Point>>,
    upto: int,
)
    requires
        1 <= t <= n <= 0xFFFF,
        coeffs.len() == n,
        nonces.len() == n,
        forall|j: int| 0 <= j < n ==> coeffs_wf(#[trigger] coeffs[j], t),
        forall|j: int| 0 <= j < n ==> sc_valid(#[trigger] nonces[j]),
        commitments_match(cm, honest_msgs(coeffs, nonces, ctx), n, t),
        0 <= upto <= n,
    ensures
        spec_group_key(cm, upto) == g_of(sum_consts(coeffs, upto)),
    decreases upto,
{
    if upto == 0 {
        crate::field::lemma_s_mul_zero(crate::curve::GENERATOR_V as int);
    } else {
        lemma_honest_group_key(n, t, coeffs, nonces, ctx, cm, upto - 1);
        lemma_honest_msg_ok(
            upto as u16,
            upto as u16,
            ctx,
            coeffs[upto - 1],
            nonces[upto - 1],
            t,
        );
        assert(honest_msgs(coeffs, nonces, ctx)[upto - 1] == spec_r1_msg(
            upto as u16,
            ctx,
            coeffs[upto - 1],
            nonces[upto - 1],
        ));
        assert(cm[upto - 1]@[0].v as int == commit_val(
            honest_msgs(coeffs, nonces, ctx)[upto - 1],
            0,
        ));
        assert(cm[upto - 1]@[0].v as int == g_of(coeffs[upto - 1][0] as int));
        lemma_g_of_add(sum_consts(coeffs, upto - 1), coeffs[upto - 1][0] as int);
    }
}

} // verus!
