//! The pure DKG round functions.
//!
//! Each function takes the randomness it consumes as an explicit sequence of
//! canonical scalars, so its result is a function of its arguments and the
//! contracts pin it exactly.  The state machine in [`crate::machine`] draws
//! the scalars from the caller's [`crate::rng::ScalarRng`] and passes them
//! down.

use vstd::prelude::*;
use vstd::bytes::{spec_u64_from_le_bytes, spec_u64_to_le_bytes};
use crate::curve::{
    dec, dec_ok, g_of, hash_to_f, identity, lemma_g_of_add, lemma_g_of_mul,
    lemma_le_bytes_roundtrip, lemma_multiexp_push, mul_gen, multiexp_vartime, point_add,
    point_from_slice, point_to_bytes, pow_seq, powers, pt_valid, scalar_from_slice, scalar_to_bytes,
    spec_hash, spec_multiexp, spec_pow, Point, F_LEN, G_LEN, GENERATOR_V,
};
use crate::error::FrostError;
use crate::machine::Keys;
use crate::validate::{assembled, keys_of, map_complete, validate_err};
use vstd::slice::slice_subrange;
use crate::field::{
    f_add, f_mul, f_neg, lemma_ops_bounded, lemma_s_add_assoc, lemma_s_add_zero, lemma_s_mul_assoc,
    lemma_s_mul_comm, lemma_s_mul_distrib, lemma_s_mul_one, lemma_s_mul_zero, q, s_add, s_mul,
    s_neg, sc_valid, MODULUS,
};
use crate::params::Params;

verus! {

/// The 2-byte big-endian encoding of a participant index.
pub open spec fn spec_index_bytes(l: u16) -> Seq<u8> {
    seq![(l / 256) as u8, (l % 256) as u8]
}

/// Encodes a participant index as two big-endian bytes.
pub fn index_bytes(l: u16) -> (r: Vec<u8>)
    ensures
        r@ == spec_index_bytes(l),
{
    let mut r: Vec<u8> = Vec::new();
    r.push((l / 256) as u8);
    r.push((l % 256) as u8);
    proof {
        assert(r@ =~= spec_index_bytes(l));
    }
    r
}

/// Appends a byte slice to a byte vector.
fn append_bytes(dst: &mut Vec<u8>, src: &[u8])
    ensures
        final(dst)@ == old(dst)@ + src@,
{
    let mut k: usize = 0;
    while k < src.len()
        invariant
            k <= src@.len(),
            dst@ == old(dst)@ + src@.take(k as int),
        decreases src@.len() - k,
    {
        dst.push(src[k]);
        proof {
            assert((old(dst)@ + src@.take(k as int)).push(src@[k as int]) =~= old(dst)@
                + src@.take(k as int + 1));
        }
        k = k + 1;
    }
    proof {
        assert(src@.take(src@.len() as int) =~= src@);
    }
}

/// The round-1 challenge: the hash of the sender's index, the context, the
/// nonce commitment bytes and the coefficient commitment bytes.
pub open spec fn spec_challenge(l: u16, ctx: Seq<u8>, rb: Seq<u8>, am: Seq<u8>) -> int {
    spec_hash(spec_index_bytes(l) + ctx + rb + am)
}

/// Computes the round-1 challenge for participant `l`.
pub fn challenge(l: u16, context: &[u8], r_bytes: &[u8], am: &[u8]) -> (c: u64)
    ensures
        sc_valid(c),
        c == spec_challenge(l, context@, r_bytes@, am@),
{
    let mut buf = index_bytes(l);
    append_bytes(&mut buf, context);
    append_bytes(&mut buf, r_bytes);
    append_bytes(&mut buf, am);
    proof {
        assert(buf@ =~= spec_index_bytes(l) + context@ + r_bytes@ + am@);
    }
    hash_to_f(buf.as_slice())
}

/// The concatenated canonical encodings of the commitments `a_j · G`.
pub open spec fn spec_commits_bytes(coeffs: Seq<u64>) -> Seq<u8>
    decreases coeffs.len(),
{
    if coeffs.len() == 0 {
        Seq::empty()
    } else {
        spec_commits_bytes(coeffs.drop_last()) + spec_u64_to_le_bytes(
            g_of(coeffs.last() as int) as u64,
        )
    }
}

/// The commitment bytes of `t` coefficients occupy exactly `t · G_len`
/// bytes.
pub proof fn lemma_commits_bytes_len(coeffs: Seq<u64>)
    ensures
        spec_commits_bytes(coeffs).len() == 8 * coeffs.len(),
    decreases coeffs.len(),
{
    if coeffs.len() == 0 {
    } else {
        lemma_commits_bytes_len(coeffs.drop_last());
        lemma_le_bytes_roundtrip(g_of(coeffs.last() as int) as u64);
    }
}

/// The `j`-th 8-byte chunk of the commitment bytes encodes `a_j · G`.
pub proof fn lemma_commits_bytes_index(coeffs: Seq<u64>, j: int)
    requires
        0 <= j < coeffs.len(),
    ensures
        spec_commits_bytes(coeffs).subrange(8 * j, 8 * j + 8) == spec_u64_to_le_bytes(
            g_of(coeffs[j] as int) as u64,
        ),
    decreases coeffs.len(),
{
    lemma_commits_bytes_len(coeffs);
    lemma_commits_bytes_len(coeffs.drop_last());
    let pre = spec_commits_bytes(coeffs.drop_last());
    let last = spec_u64_to_le_bytes(g_of(coeffs.last() as int) as u64);
    lemma_le_bytes_roundtrip(g_of(coeffs.last() as int) as u64);
    if j == coeffs.len() - 1 {
        assert((pre + last).subrange(8 * j, 8 * j + 8) =~= last);
    } else {
        lemma_commits_bytes_index(coeffs.drop_last(), j);
        assert((pre + last).subrange(8 * j, 8 * j + 8) =~= pre.subrange(8 * j, 8 * j + 8));
        assert(coeffs.drop_last()[j] == coeffs[j]);
    }
}

/// The round-1 wire message of participant `i`: the `t` coefficient
/// commitments, the nonce commitment `R = r · G`, and the response
/// `s = r + c · a_0`, with `c` the challenge over index, context, `R` and
/// the commitments.
#[verifier::opaque]
pub open spec fn spec_r1_msg(i: u16, ctx: Seq<u8>, coeffs: Seq<u64>, r: u64) -> Seq<u8> {
    let am = spec_commits_bytes(coeffs);
    let rb = spec_u64_to_le_bytes(g_of(r as int) as u64);
    let c = spec_challenge(i, ctx, rb, am);
    let s = s_add(r as int, s_mul(c, coeffs[0] as int));
    am + rb + spec_u64_to_le_bytes(s as u64)
}

/// Round 1: draws nothing itself; turns the `t + 1` supplied random scalars
/// (the `t` polynomial coefficients followed by the Schnorr nonce) into the
/// coefficients and the serialized round-1 message to broadcast.
pub fn generate_key_r1(params: &Params, context: &[u8], randomness: &Vec<u64>) -> (r: (
    Vec<u64>,
    Vec<u8>,
))
    requires
        params.valid(),
        randomness@.len() == params.spec_t() + 1,
        forall|k: int| 0 <= k < randomness@.len() ==> sc_valid(#[trigger] randomness@[k]),
    ensures
        r.0@ == randomness@.take(params.spec_t() as int),
        r.1@ == spec_r1_msg(
            params.spec_i(),
            context@,
            randomness@.take(params.spec_t() as int),
            randomness@[params.spec_t() as int],
        ),
        r.1@.len() == 8 * params.spec_t() + 16,
{
    let t = params.t() as usize;
    let ghost coeffs_spec = randomness@.take(t as int);

    let mut coefficients: Vec<u64> = Vec::new();
    let mut serialized: Vec<u8> = Vec::new();
    let mut j: usize = 0;
    while j < t
        invariant
            j <= t,
            t < randomness@.len(),
            forall|k: int| 0 <= k < randomness@.len() ==> sc_valid(#[trigger] randomness@[k]),
            coefficients@ == randomness@.take(j as int),
            serialized@ == spec_commits_bytes(randomness@.take(j as int)),
        decreases t - j,
    {
        let a = randomness[j];
        coefficients.push(a);
        let mut eb = point_to_bytes(mul_gen(a));
        proof {
            let pre = randomness@.take(j as int);
            let post = randomness@.take(j as int + 1);
            assert(post.drop_last() =~= pre);
            assert(post.last() == a);
            assert(randomness@.take(j as int).push(a) =~= post);
        }
        serialized.append(&mut eb);
        j = j + 1;
    }

    let r_scalar = randomness[t];
    let big_r = mul_gen(r_scalar);
    let rb = point_to_bytes(big_r);
    let c = challenge(params.i(), context, rb.as_slice(), serialized.as_slice());
    let s = f_add(r_scalar, f_mul(c, coefficients[0]));

    proof {
        assert(coeffs_spec[0] == randomness@[0]);
        lemma_ops_bounded(r_scalar as int, s_mul(c as int, coeffs_spec[0] as int));
    }
    let mut out = serialized;
    append_bytes(&mut out, rb.as_slice());
    let sb = crate::curve::scalar_to_bytes(s);
    append_bytes(&mut out, sb.as_slice());
    proof {
        reveal(spec_r1_msg);
        let am = spec_commits_bytes(coeffs_spec);
        let rbs = spec_u64_to_le_bytes(g_of(r_scalar as int) as u64);
        let cs = spec_challenge(params.spec_i(), context@, rbs, am);
        let ss = s_add(r_scalar as int, s_mul(cs, coeffs_spec[0] as int));
        assert(out@ =~= am + rbs + spec_u64_to_le_bytes(ss as u64));
        lemma_commits_bytes_len(coeffs_spec);
        lemma_le_bytes_roundtrip(g_of(r_scalar as int) as u64);
        lemma_le_bytes_roundtrip(ss as u64);
    }
    (coefficients, out)
}

/// Evaluation of the polynomial with the given coefficients at `x`, lowest
/// coefficient first: `a_0 + x · (a_1 + x · (…))`.
pub open spec fn spec_poly_eval(coeffs: Seq<u64>, x: int) -> int
    decreases coeffs.len(),
{
    if coeffs.len() == 0 {
        0
    } else {
        s_add(coeffs[0] as int, s_mul(x, spec_poly_eval(coeffs.skip(1), x)))
    }
}

/// Polynomial evaluation lands on a canonical scalar.
pub proof fn lemma_poly_eval_bounded(coeffs: Seq<u64>, x: int)
    requires
        0 <= x,
    ensures
        0 <= spec_poly_eval(coeffs, x) < q(),
    decreases coeffs.len(),
{
    if coeffs.len() == 0 {
    } else {
        lemma_poly_eval_bounded(coeffs.skip(1), x);
        lemma_ops_bounded(x, spec_poly_eval(coeffs.skip(1), x));
        lemma_ops_bounded(coeffs[0] as int, s_mul(x, spec_poly_eval(coeffs.skip(1), x)));
    }
}

/// Appending a coefficient appends its monomial:
/// `f_{a..b}(x) == f_a(x) + x^|a| · b`.
pub proof fn lemma_poly_eval_push(coeffs: Seq<u64>, a: u64, x: int)
    requires
        0 <= x,
    ensures
        spec_poly_eval(coeffs.push(a), x) == s_add(
            spec_poly_eval(coeffs, x),
            s_mul(spec_pow(x, coeffs.len()), a as int),
        ),
    decreases coeffs.len(),
{
    if coeffs.len() == 0 {
        assert(coeffs.push(a).skip(1) =~= Seq::<u64>::empty());
        assert(coeffs.push(a)[0] == a);
        assert(spec_poly_eval(Seq::<u64>::empty(), x) == 0);
        assert(spec_poly_eval(coeffs.push(a), x) == s_add(a as int, s_mul(x, 0)));
        lemma_s_mul_zero(x);
        assert(spec_pow(x, 0) == 1);
        assert(s_mul(1, a as int) == (a as int) % q());
        assert(s_add(a as int, 0) == (a as int) % q());
        assert(s_add(0, (a as int) % q()) == (a as int) % q()) by {
            vstd::arithmetic::div_mod::lemma_mod_twice(a as int, q());
        }
    } else {
        let tail = coeffs.skip(1);
        assert(coeffs.push(a).skip(1) =~= tail.push(a));
        lemma_poly_eval_push(tail, a, x);
        let p = spec_poly_eval(tail, x);
        let pw = spec_pow(x, tail.len());
        // poly(coeffs.push(a)) == c0 + x * (p + pw * a)
        lemma_s_mul_distrib(x, p, s_mul(pw, a as int));
        // x * (pw * a) == (x * pw) * a
        lemma_s_mul_assoc(x, pw, a as int);
        // regroup: c0 + (x*p + (x*pw)*a) == (c0 + x*p) + (x*pw)*a
        lemma_s_add_assoc(coeffs[0] as int, s_mul(x, p), s_mul(s_mul(x, pw), a as int));
        assert(spec_pow(x, coeffs.len()) == s_mul(x, pw));
    }
}

/// Expected length of a round-1 message for threshold `t`.
pub open spec fn r1_len(t: int) -> int {
    8 * t + 16
}

/// The `j`-th coefficient commitment carried by a round-1 message, as the
/// integer its chunk decodes to.
pub open spec fn commit_val(m: Seq<u8>, j: int) -> int {
    spec_u64_from_le_bytes(m.subrange(8 * j, 8 * j + 8)) as int
}

/// The nonce commitment `R` carried by a round-1 message.
pub open spec fn r_val(m: Seq<u8>, t: int) -> int {
    spec_u64_from_le_bytes(m.subrange(8 * t, 8 * t + 8)) as int
}

/// The response `s` carried by a round-1 message.
pub open spec fn s_val(m: Seq<u8>, t: int) -> int {
    spec_u64_from_le_bytes(m.subrange(8 * t + 8, 8 * t + 16)) as int
}

/// All `t` commitment chunks are canonical encodings.
pub open spec fn commits_ok(m: Seq<u8>, t: int) -> bool {
    forall|j: int| 0 <= j < t ==> #[trigger] commit_val(m, j) < q()
}

/// The error participant `l`'s round-1 message parses to, if any: the
/// commitment segment is checked first, then — for peers only — the nonce
/// commitment and the response.
pub open spec fn msg_error(l: u16, i: u16, m: Seq<u8>, t: int) -> Option<FrostError> {
    if m.len() != r1_len(t) {
        if m.len() < 8 * t {
            Some(FrostError::InvalidCommitment(l))
        } else {
            Some(FrostError::InvalidProofOfKnowledge(l))
        }
    } else if !commits_ok(m, t) {
        Some(FrostError::InvalidCommitment(l))
    } else if l == i {
        None
    } else if r_val(m, t) >= q() || s_val(m, t) >= q() {
        Some(FrostError::InvalidProofOfKnowledge(l))
    } else {
        None
    }
}

/// The first parse error among messages `1..=upto`, in index order.
pub open spec fn first_msg_error(msgs: Seq<Seq<u8>>, i: u16, t: int, upto: int) -> Option<
    FrostError,
>
    decreases upto,
{
    if upto <= 0 {
        None
    } else {
        match first_msg_error(msgs, i, t, upto - 1) {
            Some(e) => Some(e),
            None => msg_error(upto as u16, i, msgs[upto - 1], t),
        }
    }
}

/// The challenge a verifier recomputes for participant `l`'s message.
pub open spec fn spec_msg_challenge(l: u16, ctx: Seq<u8>, m: Seq<u8>, t: int) -> int {
    spec_challenge(l, ctx, m.subrange(8 * t, 8 * t + 8), m.take(8 * t))
}

/// The Schnorr identity of participant `l`'s proof of knowledge:
/// `s · G == R + c · A_0`.
pub open spec fn pok_holds(l: u16, ctx: Seq<u8>, m: Seq<u8>, t: int) -> bool {
    g_of(s_val(m, t)) == s_add(
        r_val(m, t),
        s_mul(spec_msg_challenge(l, ctx, m, t), commit_val(m, 0)),
    )
}

/// The defect of participant `l`'s proof: `R + c · A_0 - s · G`, which is
/// zero exactly when the Schnorr identity holds.
pub open spec fn pok_defect(l: u16, ctx: Seq<u8>, m: Seq<u8>, t: int) -> int {
    s_add(
        s_add(r_val(m, t), s_mul(spec_msg_challenge(l, ctx, m, t), commit_val(m, 0))),
        s_neg(g_of(s_val(m, t))),
    )
}

/// The defect is zero exactly when the Schnorr identity holds.
pub proof fn lemma_pok_defect_zero(l: u16, ctx: Seq<u8>, m: Seq<u8>, t: int)
    ensures
        pok_holds(l, ctx, m, t) <==> pok_defect(l, ctx, m, t) == 0,
{
    let lhs = g_of(s_val(m, t));
    let rhs = s_add(r_val(m, t), s_mul(spec_msg_challenge(l, ctx, m, t), commit_val(m, 0)));
    assert(0 <= lhs < q());
    assert(0 <= rhs < q());
    if lhs == rhs {
        crate::field::lemma_s_add_neg(lhs);
        assert(s_add(rhs, s_neg(lhs)) == 0);
    } else {
        if lhs == 0 {
            crate::field::lemma_s_add_zero(rhs);
            assert(s_neg(0) == q() % q());
            vstd::arithmetic::div_mod::lemma_mod_multiples_vanish(-1, q(), q());
            vstd::arithmetic::div_mod::lemma_small_mod(0, MODULUS as nat);
            assert(pok_defect(l, ctx, m, t) == s_add(rhs, 0));
        } else {
            vstd::arithmetic::div_mod::lemma_small_mod((MODULUS - lhs) as nat, MODULUS as nat);
            assert(s_neg(lhs) == q() - lhs);
            let d = rhs + (q() - lhs);
            assert(0 < d < 2 * q());
            assert(d != q());
            if d < q() {
                vstd::arithmetic::div_mod::lemma_small_mod(d as nat, MODULUS as nat);
            } else {
                vstd::arithmetic::div_mod::lemma_mod_multiples_vanish(-1, d, q());
                vstd::arithmetic::div_mod::lemma_small_mod((d - q()) as nat, MODULUS as nat);
            }
            assert(pok_defect(l, ctx, m, t) != 0);
        }
    }
}

/// Which blinding factor belongs to peer `l`: peers are numbered in index
/// order with the local index skipped.
pub open spec fn u_for(us: Seq<u64>, l: int, i: int) -> u64 {
    if l < i {
        us[l - 1]
    } else {
        us[l - 2]
    }
}

/// The peer index the `k`-th stored peer record belongs to.
pub open spec fn peer_of(k: int, i: int) -> int {
    if k + 1 < i {
        k + 1
    } else {
        k + 2
    }
}

/// The batched verification total over messages `1..=upto`: the sum of each
/// peer's blinded proof defect.
pub open spec fn batch_sum(
    msgs: Seq<Seq<u8>>,
    i: u16,
    ctx: Seq<u8>,
    t: int,
    us: Seq<u64>,
    upto: int,
) -> int
    decreases upto,
{
    if upto <= 0 {
        0
    } else {
        let rest = batch_sum(msgs, i, ctx, t, us, upto - 1);
        if upto == i as int {
            rest
        } else {
            s_add(
                rest,
                s_mul(
                    u_for(us, upto, i as int) as int,
                    pok_defect(upto as u16, ctx, msgs[upto - 1], t),
                ),
            )
        }
    }
}

/// The first peer whose Schnorr identity fails, in index order.
pub open spec fn first_pok_fail(msgs: Seq<Seq<u8>>, i: u16, ctx: Seq<u8>, t: int, upto: int) -> Option<
    u16,
>
    decreases upto,
{
    if upto <= 0 {
        None
    } else {
        match first_pok_fail(msgs, i, ctx, t, upto - 1) {
            Some(l) => Some(l),
            None => if upto != i as int && !pok_holds(upto as u16, ctx, msgs[upto - 1], t) {
                Some(upto as u16)
            } else {
                None
            },
        }
    }
}

/// If no message up to `upto` has a parse error, there is no first error.
pub proof fn lemma_first_msg_error_none(msgs: Seq<Seq<u8>>, i: u16, t: int, upto: int)
    requires
        upto <= 0xFFFF,
        forall|l: u16|
            1 <= l as int && l as int <= upto ==> #[trigger] msg_error(l, i, msgs[l as int - 1], t) is None,
    ensures
        first_msg_error(msgs, i, t, upto) is None,
    decreases upto,
{
    if upto > 0 {
        lemma_first_msg_error_none(msgs, i, t, upto - 1);
        assert(msg_error(upto as u16, i, msgs[upto - 1], t) is None);
    }
}

/// If message `l0` is the first with a parse error, that error is the first
/// over the whole table.
pub proof fn lemma_first_msg_error_found(
    msgs: Seq<Seq<u8>>,
    i: u16,
    t: int,
    n: int,
    l0: u16,
    e: FrostError,
)
    requires
        n <= 0xFFFF,
        1 <= l0 as int <= n,
        msg_error(l0, i, msgs[l0 as int - 1], t) == Some(e),
        forall|l: u16|
            1 <= l as int && (l as int) < l0 as int ==> #[trigger] msg_error(l, i, msgs[l as int - 1], t) is None,
    ensures
        first_msg_error(msgs, i, t, n) == Some(e),
    decreases n,
{
    if n == l0 as int {
        lemma_first_msg_error_none(msgs, i, t, n - 1);
    } else {
        lemma_first_msg_error_found(msgs, i, t, n - 1, l0, e);
    }
}

/// If every peer's identity up to `upto` holds, no first failure exists.
pub proof fn lemma_first_pok_fail_none(msgs: Seq<Seq<u8>>, i: u16, ctx: Seq<u8>, t: int, upto: int)
    requires
        upto <= 0xFFFF,
        forall|l: u16|
            1 <= l as int && l as int <= upto && l != i ==> #[trigger] pok_holds(l, ctx, msgs[l as int - 1], t),
    ensures
        first_pok_fail(msgs, i, ctx, t, upto) is None,
    decreases upto,
{
    if upto > 0 {
        lemma_first_pok_fail_none(msgs, i, ctx, t, upto - 1);
        if upto != i as int {
            assert(pok_holds(upto as u16, ctx, msgs[upto - 1], t));
        }
    }
}

/// If peer `l0` is the first whose identity fails, it is the first over the
/// whole table.
pub proof fn lemma_first_pok_fail_found(
    msgs: Seq<Seq<u8>>,
    i: u16,
    ctx: Seq<u8>,
    t: int,
    n: int,
    l0: u16,
)
    requires
        n <= 0xFFFF,
        1 <= l0 as int <= n,
        l0 != i,
        !pok_holds(l0, ctx, msgs[l0 as int - 1], t),
        forall|l: u16|
            1 <= l as int && (l as int) < l0 as int && l != i ==> #[trigger] pok_holds(
                l,
                ctx,
                msgs[l as int - 1],
                t,
            ),
    ensures
        first_pok_fail(msgs, i, ctx, t, n) == Some(l0),
    decreases n,
{
    if n == l0 as int {
        lemma_first_pok_fail_none(msgs, i, ctx, t, n - 1);
    } else {
        lemma_first_pok_fail_found(msgs, i, ctx, t, n - 1, l0);
    }
}

/// One peer's three multi-exponentiation terms sum to its blinded defect:
/// `u·R + (-s·u)·G + (c·u)·A_0 == u · (R + c·A_0 - s·G)`.
pub proof fn lemma_batch_step(acc: int, u: u64, rv: int, sv: int, c: int, a0: int)
    requires
        0 <= rv < q(),
        0 <= sv < q(),
        0 <= c,
        0 <= a0,
    ensures
        ({
            let t1 = s_mul(u as int, rv);
            let t2 = s_mul(s_mul(s_neg(sv), u as int), GENERATOR_V as int);
            let t3 = s_mul(s_mul(c, u as int), a0);
            let defect = s_add(s_add(rv, s_mul(c, a0)), s_neg(g_of(sv)));
            s_add(s_add(s_add(acc, t1), t2), t3) == s_add(acc, s_mul(u as int, defect))
        }),
{
    let g = GENERATOR_V as int;
    let ui = u as int;
    let t1 = s_mul(ui, rv);
    let t2 = s_mul(s_mul(s_neg(sv), ui), g);
    let t3 = s_mul(s_mul(c, ui), a0);
    let x = s_add(rv, s_mul(c, a0));
    let y = s_neg(g_of(sv));
    // t2 == u * (-(s·G))
    crate::field::lemma_s_mul_neg(sv, g);
    lemma_s_mul_comm(s_neg(sv), ui);
    lemma_s_mul_assoc(ui, s_neg(sv), g);
    assert(t2 == s_mul(ui, s_mul(s_neg(sv), g)));
    assert(s_mul(s_neg(sv), g) == y);
    // t3 == u * (c·A_0)
    lemma_s_mul_comm(c, ui);
    lemma_s_mul_assoc(ui, c, a0);
    assert(t3 == s_mul(ui, s_mul(c, a0)));
    // u·defect == (t1 + t3) + t2
    lemma_s_mul_distrib(ui, x, y);
    lemma_s_mul_distrib(ui, rv, s_mul(c, a0));
    assert(s_mul(ui, s_add(x, y)) == s_add(s_add(t1, t3), t2));
    // regroup the running sum
    lemma_s_add_assoc(s_add(acc, t1), t2, t3);
    lemma_s_add_assoc(acc, t1, s_add(t2, t3));
    lemma_s_add_assoc(t1, t3, t2);
    lemma_s_add_assoc(t1, t2, t3);
    assert(s_add(t3, t2) == s_add(t2, t3));
}

/// The parsed commitment table matches the message table: entry `l-1` holds
/// the `t` canonical commitment points of message `l`.
pub open spec fn commitments_match(cm: Seq<Vec<Point>>, msgs: Seq<Seq<u8>>, n: int, t: int) -> bool {
    &&& cm.len() == n
    &&& forall|l: int| 0 <= l < n ==> (#[trigger] cm[l])@.len() == t
    &&& forall|l: int, j: int|
        0 <= l < n && 0 <= j < t ==> (#[trigger] cm[l]@[j]).v as int == commit_val(msgs[l], j)
            && pt_valid(cm[l]@[j])
}

/// What `verify_r1` returns, exactly.  Writing `a` for the assembled message
/// table: success if and only if the map covers `1..=n` exactly once, every
/// message parses, and the blinded defect total is zero; otherwise the first
/// validation error, the first parse error, or — the batch having rejected —
/// the first peer whose Schnorr identity fails, with the internal error
/// reserved for a rejection no per-peer check explains.
pub open spec fn spec_verify_r1(
    n: int,
    t: int,
    i: u16,
    ctx: Seq<u8>,
    us: Seq<u64>,
    entries: Seq<(u16, Vec<u8>)>,
    ours: Seq<u8>,
    r: Result<Vec<Vec<Point>>, FrostError>,
) -> bool {
    let keys = keys_of(entries);
    let a = assembled(entries, n, i as int, ours);
    match r {
        Ok(cm) => {
            &&& map_complete(keys, n, i as int)
            &&& first_msg_error(a, i, t, n) is None
            &&& batch_sum(a, i, ctx, t, us, n) == 0
            &&& commitments_match(cm@, a, n, t)
        },
        Err(e) => {
            ||| (!map_complete(keys, n, i as int) && validate_err(keys, n, i as int, e))
            ||| (map_complete(keys, n, i as int) && first_msg_error(a, i, t, n) == Some(e))
            ||| {
                &&& map_complete(keys, n, i as int)
                &&& first_msg_error(a, i, t, n) is None
                &&& batch_sum(a, i, ctx, t, us, n) != 0
                &&& match e {
                    FrostError::InvalidProofOfKnowledge(l) => first_pok_fail(a, i, ctx, t, n)
                        == Some(l),
                    FrostError::InternalError(_) => first_pok_fail(a, i, ctx, t, n) is None,
                    _ => false,
                }
            }
        },
    }
}

/// The proof defect as a function of the parsed values:
/// `R + c · A_0 - s · G`.
pub open spec fn defect_of(rv: int, c: int, a0: int, sv: int) -> int {
    s_add(s_add(rv, s_mul(c, a0)), s_neg(g_of(sv)))
}

/// Parses the `t` coefficient commitments of one well-sized message.
fn parse_commitments(m: &Vec<u8>, t: usize) -> (r: Option<Vec<Point>>)
    requires
        t <= 0xFFFF,
        m@.len() == 8 * t + 16,
    ensures
        match r {
            Some(ps) => {
                &&& ps@.len() == t
                &&& commits_ok(m@, t as int)
                &&& forall|j: int|
                    0 <= j < t ==> (#[trigger] ps@[j]).v as int == commit_val(m@, j) && pt_valid(
                        ps@[j],
                    )
            },
            None => !commits_ok(m@, t as int),
        },
{
    let mut these: Vec<Point> = Vec::new();
    let mut jj: usize = 0;
    while jj < t
        invariant
            jj <= t,
            t <= 0xFFFF,
            m@.len() == 8 * t + 16,
            these@.len() == jj,
            forall|j: int|
                0 <= j < jj ==> (#[trigger] these@[j]).v as int == commit_val(m@, j) && pt_valid(
                    these@[j],
                ),
        decreases t - jj,
    {
        let chunk = slice_subrange(m.as_slice(), 8 * jj, 8 * jj + 8);
        proof {
            assert(chunk@ == m@.subrange(8 * jj as int, 8 * jj as int + 8));
        }
        match point_from_slice(chunk) {
            Some(p) => {
                these.push(p);
            },
            None => {
                proof {
                    assert(commit_val(m@, jj as int) >= q());
                }
                return None;
            },
        }
        jj = jj + 1;
    }
    proof {
        assert forall|j: int| 0 <= j < t implies #[trigger] commit_val(m@, j) < q() by {
            assert(these@[j].v as int == commit_val(m@, j));
        }
    }
    Some(these)
}

/// Parses the nonce commitment and the response of one well-sized message.
fn parse_pok(m: &Vec<u8>, t: usize) -> (r: Option<(Point, u64)>)
    requires
        t <= 0xFFFF,
        m@.len() == 8 * t + 16,
    ensures
        match r {
            Some(pv) => {
                &&& pv.0.v as int == r_val(m@, t as int)
                &&& pv.1 as int == s_val(m@, t as int)
                &&& pt_valid(pv.0)
                &&& sc_valid(pv.1)
            },
            None => r_val(m@, t as int) >= q() || s_val(m@, t as int) >= q(),
        },
{
    let rchunk = slice_subrange(m.as_slice(), 8 * t, 8 * t + 8);
    proof {
        assert(rchunk@ == m@.subrange(8 * t as int, 8 * t as int + 8));
    }
    let rp = match point_from_slice(rchunk) {
        Some(p) => p,
        None => {
            return None;
        },
    };
    let schunk = slice_subrange(m.as_slice(), 8 * t + 8, 8 * t + 16);
    proof {
        assert(schunk@ == m@.subrange(8 * t as int + 8, 8 * t as int + 16));
    }
    match scalar_from_slice(schunk) {
        Some(sv) => Some((rp, sv)),
        None => None,
    }
}

/// Recomputes the challenge of one well-sized message.
fn msg_challenge(l: u16, context: &[u8], m: &Vec<u8>, t: usize) -> (c: u64)
    requires
        t <= 0xFFFF,
        m@.len() == 8 * t + 16,
    ensures
        sc_valid(c),
        c as int == spec_msg_challenge(l, context@, m@, t as int),
{
    let rchunk = slice_subrange(m.as_slice(), 8 * t, 8 * t + 8);
    let amsl = slice_subrange(m.as_slice(), 0, 8 * t);
    proof {
        assert(rchunk@ == m@.subrange(8 * t as int, 8 * t as int + 8));
        assert(amsl@ =~= m@.take(8 * t as int));
    }
    challenge(l, context, rchunk, amsl)
}

/// Appends one peer's three terms to the multi-exponentiation input:
/// `u · R`, `(-s·u) · G`, `(c·u) · A_0`; the total grows by the blinded
/// defect.
fn push_peer_terms(
    scalars: &mut Vec<u64>,
    points: &mut Vec<Point>,
    u: u64,
    rp: Point,
    sv: u64,
    c: u64,
    a0: Point,
)
    requires
        old(scalars)@.len() == old(points)@.len(),
        forall|k: int| 0 <= k < old(scalars)@.len() ==> sc_valid(#[trigger] old(scalars)@[k]),
        forall|k: int| 0 <= k < old(points)@.len() ==> pt_valid(#[trigger] old(points)@[k]),
        sc_valid(u),
        sc_valid(sv),
        sc_valid(c),
        pt_valid(rp),
        pt_valid(a0),
    ensures
        final(scalars)@.len() == old(scalars)@.len() + 3,
        final(points)@.len() == final(scalars)@.len(),
        forall|k: int| 0 <= k < final(scalars)@.len() ==> sc_valid(#[trigger] final(scalars)@[k]),
        forall|k: int| 0 <= k < final(points)@.len() ==> pt_valid(#[trigger] final(points)@[k]),
        spec_multiexp(final(scalars)@, final(points)@) == s_add(
            spec_multiexp(old(scalars)@, old(points)@),
            s_mul(u as int, defect_of(rp.v as int, c as int, a0.v as int, sv as int)),
        ),
{
    let gp = crate::curve::generator();
    let ghost old_scalars = scalars@;
    let ghost old_points = points@;
    scalars.push(u);
    points.push(rp);
    let mw = f_mul(f_neg(sv), u);
    scalars.push(mw);
    points.push(gp);
    let cw = f_mul(c, u);
    scalars.push(cw);
    points.push(a0);
    proof {
        lemma_multiexp_push(old_scalars, old_points, u, rp);
        lemma_multiexp_push(old_scalars.push(u), old_points.push(rp), mw, gp);
        lemma_multiexp_push(old_scalars.push(u).push(mw), old_points.push(rp).push(gp), cw, a0);
        assert(scalars@ =~= old_scalars.push(u).push(mw).push(cw));
        assert(points@ =~= old_points.push(rp).push(gp).push(a0));
        lemma_batch_step(
            spec_multiexp(old_scalars, old_points),
            u,
            rp.v as int,
            sv as int,
            c as int,
            a0.v as int,
        );
    }
}

/// The views of a table of byte vectors.
pub open spec fn views_of(s: Seq<Vec<u8>>) -> Seq<Seq<u8>> {
    s.map_values(|v: Vec<u8>| v@)
}

/// The stored per-peer records match the message table: record `k` holds
/// peer `peer_of(k)`'s parsed nonce commitment, response and challenge.
pub open spec fn peers_match(
    rps: Seq<Point>,
    svs: Seq<u64>,
    cs: Seq<u64>,
    msgs: Seq<Seq<u8>>,
    n: int,
    t: int,
    i: int,
    ctx: Seq<u8>,
) -> bool {
    &&& rps.len() == n - 1
    &&& svs.len() == n - 1
    &&& cs.len() == n - 1
    &&& forall|k: int|
        0 <= k < n - 1 ==> {
            let lp = peer_of(k, i);
            &&& 1 <= lp <= n
            &&& lp != i
            &&& (#[trigger] rps[k]).v as int == r_val(msgs[lp - 1], t)
            &&& svs[k] as int == s_val(msgs[lp - 1], t)
            &&& cs[k] as int == spec_msg_challenge(lp as u16, ctx, msgs[lp - 1], t)
            &&& pt_valid(rps[k])
            &&& sc_valid(svs[k])
            &&& sc_valid(cs[k])
        }
}

/// Record `k` holds the parsed proof material of peer `peer_of(k)`.
pub open spec fn peer_record_ok(
    rps: Seq<Point>,
    svs: Seq<u64>,
    cs: Seq<u64>,
    msgs: Seq<Seq<u8>>,
    t: int,
    i: int,
    ctx: Seq<u8>,
    k: int,
) -> bool {
    let lp = peer_of(k, i);
    &&& lp != i
    &&& rps[k].v as int == r_val(msgs[lp - 1], t)
    &&& svs[k] as int == s_val(msgs[lp - 1], t)
    &&& cs[k] as int == spec_msg_challenge(lp as u16, ctx, msgs[lp - 1], t)
    &&& pt_valid(rps[k])
    &&& sc_valid(svs[k])
    &&& sc_valid(cs[k])
}

/// The stored peer records collected so far: record `k` belongs to peer
/// `peer_of(k)`, whose index lies below `bound`, and holds that peer's
/// parsed nonce commitment, response and challenge.
pub open spec fn peer_records_ok(
    rps: Seq<Point>,
    svs: Seq<u64>,
    cs: Seq<u64>,
    msgs: Seq<Seq<u8>>,
    t: int,
    i: int,
    ctx: Seq<u8>,
    bound: int,
) -> bool {
    forall|k: int|
        0 <= k < rps.len() ==> #[trigger] peer_record_ok(rps, svs, cs, msgs, t, i, ctx, k) && 1
            <= peer_of(k, i) < bound
}

/// Appending a record for peer `l` extends the stored records by one.
proof fn lemma_peer_records_push(
    rps: Seq<Point>,
    svs: Seq<u64>,
    cs: Seq<u64>,
    rp: Point,
    sv: u64,
    c: u64,
    msgs: Seq<Seq<u8>>,
    t: int,
    i: int,
    ctx: Seq<u8>,
    l: int,
)
    requires
        peer_records_ok(rps, svs, cs, msgs, t, i, ctx, l),
        svs.len() == rps.len(),
        cs.len() == rps.len(),
        peer_of(rps.len() as int, i) == l,
        1 <= l,
        l != i,
        rp.v as int == r_val(msgs[l - 1], t),
        pt_valid(rp),
        sv as int == s_val(msgs[l - 1], t),
        sc_valid(sv),
        c as int == spec_msg_challenge(l as u16, ctx, msgs[l - 1], t),
        sc_valid(c),
        0 <= l <= 0xFFFF,
    ensures
        peer_records_ok(rps.push(rp), svs.push(sv), cs.push(c), msgs, t, i, ctx, l + 1),
{
    let nk = rps.len() as int;
    let rps2 = rps.push(rp);
    let svs2 = svs.push(sv);
    let cs2 = cs.push(c);
    assert forall|k: int| 0 <= k < rps2.len() implies #[trigger] peer_record_ok(
        rps2,
        svs2,
        cs2,
        msgs,
        t,
        i,
        ctx,
        k,
    ) && 1 <= peer_of(k, i) < l + 1 by {
        if k < nk {
            assert(peer_record_ok(rps, svs, cs, msgs, t, i, ctx, k));
            assert(rps2[k] == rps[k]);
            assert(svs2[k] == svs[k]);
            assert(cs2[k] == cs[k]);
        } else {
            assert(rps2[k] == rp);
            assert(svs2[k] == sv);
            assert(cs2[k] == c);
            assert(peer_of(k, i) == l);
        }
    }
}

/// The stored-record bound may grow.
proof fn lemma_peer_records_grow(
    rps: Seq<Point>,
    svs: Seq<u64>,
    cs: Seq<u64>,
    msgs: Seq<Seq<u8>>,
    t: int,
    i: int,
    ctx: Seq<u8>,
    b1: int,
    b2: int,
)
    requires
        peer_records_ok(rps, svs, cs, msgs, t, i, ctx, b1),
        b1 <= b2,
    ensures
        peer_records_ok(rps, svs, cs, msgs, t, i, ctx, b2),
{
    assert forall|k: int| 0 <= k < rps.len() implies #[trigger] peer_record_ok(
        rps,
        svs,
        cs,
        msgs,
        t,
        i,
        ctx,
        k,
    ) && 1 <= peer_of(k, i) < b2 by {
        assert(peer_record_ok(rps, svs, cs, msgs, t, i, ctx, k));
    }
}

/// A full record table is exactly what `peers_match` asks for.
proof fn lemma_peer_records_complete(
    rps: Seq<Point>,
    svs: Seq<u64>,
    cs: Seq<u64>,
    msgs: Seq<Seq<u8>>,
    n: int,
    t: int,
    i: int,
    ctx: Seq<u8>,
)
    requires
        peer_records_ok(rps, svs, cs, msgs, t, i, ctx, n + 1),
        rps.len() == n - 1,
        svs.len() == n - 1,
        cs.len() == n - 1,
    ensures
        peers_match(rps, svs, cs, msgs, n, t, i, ctx),
{
    assert forall|k: int| 0 <= k < n - 1 implies {
        let lp = peer_of(k, i);
        &&& 1 <= lp <= n
        &&& lp != i
        &&& (#[trigger] rps[k]).v as int == r_val(msgs[lp - 1], t)
        &&& svs[k] as int == s_val(msgs[lp - 1], t)
        &&& cs[k] as int == spec_msg_challenge(lp as u16, ctx, msgs[lp - 1], t)
        &&& pt_valid(rps[k])
        &&& sc_valid(svs[k])
        &&& sc_valid(cs[k])
    } by {
        assert(peer_record_ok(rps, svs, cs, msgs, t, i, ctx, k));
    }
}

/// Everything the parse phase extracts from the validated message table.
struct ParsedRound1 {
    commitments: Vec<Vec<Point>>,
    rps: Vec<Point>,
    svs: Vec<u64>,
    cs: Vec<u64>,
    scalars: Vec<u64>,
    points: Vec<Point>,
}

/// Parses every message of the validated table and accumulates the batched
/// verification input.  Fails with the first parse error, in index order,
/// commitments before proof of knowledge, the local message's proof
/// exempted.
#[verifier::rlimit(100)]
fn parse_all(
    n: u16,
    t: u16,
    i: u16,
    context: &[u8],
    blinds: &Vec<u64>,
    validated: &Vec<Vec<u8>>,
) -> (r: Result<ParsedRound1, FrostError>)
    requires
        1 <= t <= n,
        1 <= i <= n,
        blinds@.len() == n as int - 1,
        forall|k: int| 0 <= k < blinds@.len() ==> sc_valid(#[trigger] blinds@[k]),
        validated@.len() == n as int,
    ensures
        ({
            let a = views_of(validated@);
            match r {
                Ok(p) => {
                    &&& first_msg_error(a, i, t as int, n as int) is None
                    &&& commitments_match(p.commitments@, a, n as int, t as int)
                    &&& peers_match(
                        p.rps@,
                        p.svs@,
                        p.cs@,
                        a,
                        n as int,
                        t as int,
                        i as int,
                        context@,
                    )
                    &&& p.scalars@.len() == p.points@.len()
                    &&& (forall|k: int|
                        0 <= k < p.scalars@.len() ==> sc_valid(#[trigger] p.scalars@[k]))
                    &&& (forall|k: int|
                        0 <= k < p.points@.len() ==> pt_valid(#[trigger] p.points@[k]))
                    &&& spec_multiexp(p.scalars@, p.points@) == batch_sum(
                        a,
                        i,
                        context@,
                        t as int,
                        blinds@,
                        n as int,
                    )
                },
                Err(e) => first_msg_error(a, i, t as int, n as int) == Some(e),
            }
        }),
{
    let n_us = n as usize;
    let t_us = t as usize;
    let i_us = i as usize;
    let ghost a = views_of(validated@);
    let ghost ctx = context@;
    let ghost us = blinds@;

    let mut commitments: Vec<Vec<Point>> = Vec::new();
    let mut rps: Vec<Point> = Vec::new();
    let mut svs: Vec<u64> = Vec::new();
    let mut cs: Vec<u64> = Vec::new();

    // first pass: parse every message, storing the peers' proof material
    let mut lu: usize = 1;
    while lu <= n_us
        invariant
            1 <= lu <= n_us + 1,
            n_us == n as int,
            t_us == t as int,
            i_us == i as int,
            1 <= t <= n,
            1 <= i <= n,
            ctx == context@,
            a == views_of(validated@),
            a.len() == n as int,
            validated@.len() == n as int,
            forall|j: int| 0 <= j < n as int ==> #[trigger] a[j] == validated@[j]@,
            forall|l: u16|
                1 <= l as int && (l as int) < lu as int ==> #[trigger] msg_error(
                    l,
                    i,
                    a[l as int - 1],
                    t as int,
                ) is None,
            commitments@.len() == lu as int - 1,
            forall|l2: int|
                0 <= l2 < lu as int - 1 ==> (#[trigger] commitments@[l2])@.len() == t as int,
            forall|l2: int, j: int|
                0 <= l2 < lu as int - 1 && 0 <= j < t as int ==> (#[trigger] commitments@[l2]@[j]).v
                    as int == commit_val(a[l2], j) && pt_valid(commitments@[l2]@[j]),
            rps@.len() == (if (i as int) < lu as int {
                lu as int - 2
            } else {
                lu as int - 1
            }),
            svs@.len() == rps@.len(),
            cs@.len() == rps@.len(),
            peer_records_ok(rps@, svs@, cs@, a, t as int, i as int, ctx, lu as int),
        decreases n_us + 1 - lu,
    {
        let m = &validated[lu - 1];
        proof {
            assert(m@ == a[lu as int - 1]);
        }
        if m.len() != 8 * t_us + 16 {
            let e = if m.len() < 8 * t_us {
                FrostError::InvalidCommitment(lu as u16)
            } else {
                FrostError::InvalidProofOfKnowledge(lu as u16)
            };
            proof {
                lemma_first_msg_error_found(a, i, t as int, n as int, lu as u16, e);
            }
            return Err(e);
        }
        let these = match parse_commitments(m, t_us) {
            Some(ps) => ps,
            None => {
                proof {
                    lemma_first_msg_error_found(
                        a,
                        i,
                        t as int,
                        n as int,
                        lu as u16,
                        FrostError::InvalidCommitment(lu as u16),
                    );
                }
                return Err(FrostError::InvalidCommitment(lu as u16));
            },
        };
        commitments.push(these);
        if lu != i_us {
            let (rp, sv) = match parse_pok(m, t_us) {
                Some(pv) => pv,
                None => {
                    proof {
                        lemma_first_msg_error_found(
                            a,
                            i,
                            t as int,
                            n as int,
                            lu as u16,
                            FrostError::InvalidProofOfKnowledge(lu as u16),
                        );
                    }
                    return Err(FrostError::InvalidProofOfKnowledge(lu as u16));
                },
            };
            let c = msg_challenge(lu as u16, context, m, t_us);
            let ghost old_rps = rps@;
            let ghost old_svs = svs@;
            let ghost old_cs = cs@;
            proof {
                if lu < i_us {
                    assert(old_rps.len() as int == lu as int - 1);
                } else {
                    assert(old_rps.len() as int == lu as int - 2);
                }
                assert(peer_of(old_rps.len() as int, i as int) == lu as int);
                lemma_peer_records_push(
                    old_rps,
                    old_svs,
                    old_cs,
                    rp,
                    sv,
                    c,
                    a,
                    t as int,
                    i as int,
                    ctx,
                    lu as int,
                );
            }
            rps.push(rp);
            svs.push(sv);
            cs.push(c);
        }
        proof {
            assert(msg_error(lu as u16, i, a[lu as int - 1], t as int) is None);
            if lu == i_us {
                lemma_peer_records_grow(
                    rps@,
                    svs@,
                    cs@,
                    a,
                    t as int,
                    i as int,
                    ctx,
                    lu as int,
                    lu as int + 1,
                );
            }
        }
        lu = lu + 1;
    }
    proof {
        lemma_first_msg_error_none(a, i, t as int, n as int);
        assert(peer_records_ok(rps@, svs@, cs@, a, t as int, i as int, ctx, n as int + 1));
        lemma_peer_records_complete(rps@, svs@, cs@, a, n as int, t as int, i as int, ctx);
    }

    // second pass: accumulate the batched verification input
    let mut scalars: Vec<u64> = Vec::new();
    let mut points: Vec<Point> = Vec::new();
    proof {
        assert(scalars@ =~= Seq::<u64>::empty());
        assert(points@ =~= Seq::<Point>::empty());
        assert(spec_multiexp(scalars@, points@) == 0);
        assert(batch_sum(a, i, ctx, t as int, us, 0) == 0);
        if i == 1 {
            assert(batch_sum(a, i, ctx, t as int, us, 1) == 0);
        }
    }
    let mut k: usize = 0;
    while k < n_us - 1
        invariant
            k <= n_us - 1,
            n_us == n as int,
            t_us == t as int,
            i_us == i as int,
            1 <= t <= n,
            1 <= i <= n,
            ctx == context@,
            us == blinds@,
            us.len() == n as int - 1,
            forall|k2: int| 0 <= k2 < us.len() ==> sc_valid(#[trigger] us[k2]),
            a == views_of(validated@),
            a.len() == n as int,
            validated@.len() == n as int,
            commitments@.len() == n as int,
            forall|l2: int|
                0 <= l2 < n as int ==> (#[trigger] commitments@[l2])@.len() == t as int,
            forall|l2: int, j: int|
                0 <= l2 < n as int && 0 <= j < t as int ==> (#[trigger] commitments@[l2]@[j]).v
                    as int == commit_val(a[l2], j) && pt_valid(commitments@[l2]@[j]),
            peers_match(rps@, svs@, cs@, a, n as int, t as int, i as int, ctx),
            scalars@.len() == 3 * k,
            points@.len() == scalars@.len(),
            forall|k2: int| 0 <= k2 < scalars@.len() ==> sc_valid(#[trigger] scalars@[k2]),
            forall|k2: int| 0 <= k2 < points@.len() ==> pt_valid(#[trigger] points@[k2]),
            spec_multiexp(scalars@, points@) == batch_sum(
                a,
                i,
                ctx,
                t as int,
                us,
                peer_of(k as int, i as int) - 1,
            ),
        decreases n_us - 1 - k,
    {
        let lp: usize = if k + 1 < i_us {
            k + 1
        } else {
            k + 2
        };
        proof {
            assert(lp as int == peer_of(k as int, i as int));
            assert(rps@[k as int].v as int == r_val(a[lp as int - 1], t as int));
        }
        let u = blinds[k];
        let a0 = commitments[lp - 1][0];
        let rp = rps[k];
        let sv = svs[k];
        let c = cs[k];
        push_peer_terms(&mut scalars, &mut points, u, rp, sv, c, a0);
        proof {
            assert(u_for(us, lp as int, i as int) == u);
            assert(defect_of(rp.v as int, c as int, a0.v as int, sv as int) == pok_defect(
                lp as u16,
                ctx,
                a[lp as int - 1],
                t as int,
            ));
            // the batch total now covers every index up to this peer
            assert(batch_sum(a, i, ctx, t as int, us, lp as int) == s_add(
                batch_sum(a, i, ctx, t as int, us, lp as int - 1),
                s_mul(u as int, pok_defect(lp as u16, ctx, a[lp as int - 1], t as int)),
            ));
            if peer_of(k as int + 1, i as int) == lp as int + 2 {
                assert(batch_sum(a, i, ctx, t as int, us, lp as int + 1) == batch_sum(
                    a,
                    i,
                    ctx,
                    t as int,
                    us,
                    lp as int,
                ));
            }
        }
        k = k + 1;
    }
    proof {
        if n_us > 1 {
            assert(peer_of(n as int - 1, i as int) - 1 == n as int);
        }
        assert(batch_sum(a, i, ctx, t as int, us, peer_of(n as int - 1, i as int) - 1)
            == batch_sum(a, i, ctx, t as int, us, n as int));
    }
    Ok(ParsedRound1 { commitments, rps, svs, cs, scalars, points })
}

/// Re-checks every peer's Schnorr identity one by one, in index order, and
/// names the first that fails.
#[verifier::rlimit(100)]
fn find_pok_fail(
    n: u16,
    t: u16,
    i: u16,
    context: &[u8],
    validated: &Vec<Vec<u8>>,
    p: &ParsedRound1,
) -> (r: Option<u16>)
    requires
        1 <= t <= n,
        1 <= i <= n,
        validated@.len() == n as int,
        commitments_match(p.commitments@, views_of(validated@), n as int, t as int),
        peers_match(
            p.rps@,
            p.svs@,
            p.cs@,
            views_of(validated@),
            n as int,
            t as int,
            i as int,
            context@,
        ),
    ensures
        ({
            let a = views_of(validated@);
            match r {
                Some(l) => first_pok_fail(a, i, context@, t as int, n as int) == Some(l),
                None => first_pok_fail(a, i, context@, t as int, n as int) is None,
            }
        }),
{
    let n_us = n as usize;
    let i_us = i as usize;
    let ghost a = views_of(validated@);
    let ghost ctx = context@;

    let mut k2: usize = 0;
    while k2 < n_us - 1
        invariant
            k2 <= n_us - 1,
            n_us == n as int,
            i_us == i as int,
            1 <= t <= n,
            1 <= i <= n,
            ctx == context@,
            a == views_of(validated@),
            a.len() == n as int,
            validated@.len() == n as int,
            commitments_match(p.commitments@, a, n as int, t as int),
            peers_match(p.rps@, p.svs@, p.cs@, a, n as int, t as int, i as int, ctx),
            forall|k: int|
                0 <= k < k2 ==> pok_holds(
                    (#[trigger] peer_of(k, i as int)) as u16,
                    ctx,
                    a[peer_of(k, i as int) - 1],
                    t as int,
                ),
        decreases n_us - 1 - k2,
    {
        let lq: u16 = if k2 + 1 < i_us {
            (k2 + 1) as u16
        } else {
            (k2 + 2) as u16
        };
        proof {
            assert(lq as int == peer_of(k2 as int, i as int));
            assert(p.rps@[k2 as int].v as int == r_val(a[lq as int - 1], t as int));
        }
        let a0l = p.commitments[lq as usize - 1][0];
        let lhs = mul_gen(p.svs[k2]);
        let rhs = crate::curve::point_add(p.rps[k2], crate::curve::point_mul(p.cs[k2], a0l));
        if lhs != rhs {
            proof {
                assert(!pok_holds(lq, ctx, a[lq as int - 1], t as int));
                assert forall|l: u16|
                    1 <= l as int && (l as int) < lq as int && l != i implies #[trigger] pok_holds(
                    l,
                    ctx,
                    a[l as int - 1],
                    t as int,
                ) by {
                    let kk = if (l as int) < i as int {
                        l as int - 1
                    } else {
                        l as int - 2
                    };
                    assert(peer_of(kk, i as int) == l as int);
                    assert(pok_holds(
                        peer_of(kk, i as int) as u16,
                        ctx,
                        a[peer_of(kk, i as int) - 1],
                        t as int,
                    ));
                }
                lemma_first_pok_fail_found(a, i, ctx, t as int, n as int, lq);
            }
            return Some(lq);
        }
        proof {
            assert(pok_holds(lq, ctx, a[lq as int - 1], t as int));
        }
        k2 = k2 + 1;
    }
    proof {
        assert forall|l: u16| 1 <= l as int && l as int <= n as int && l != i implies
            #[trigger] pok_holds(l, ctx, a[l as int - 1], t as int) by {
            let kk = if (l as int) < i as int {
                l as int - 1
            } else {
                l as int - 2
            };
            assert(peer_of(kk, i as int) == l as int);
            assert(pok_holds(
                peer_of(kk, i as int) as u16,
                ctx,
                a[peer_of(kk, i as int) - 1],
                t as int,
            ));
        }
        lemma_first_pok_fail_none(a, i, ctx, t as int, n as int);
    }
    None
}

/// Verifies the received round-1 messages, batched.
///
/// `blinds` supplies the `n - 1` blinding factors, one per peer in index
/// order (the state machine pins the first to one).  On success the parsed
/// commitment table is returned; the blame assignment is exactly
/// [`spec_verify_r1`].
#[verifier::rlimit(100)]
pub fn verify_r1(
    params: &Params,
    context: &[u8],
    blinds: &Vec<u64>,
    our_commitments: Vec<u8>,
    msgs: Vec<(u16, Vec<u8>)>,
) -> (r: Result<Vec<Vec<Point>>, FrostError>)
    requires
        params.valid(),
        blinds@.len() == params.spec_n() as int - 1,
        forall|k: int| 0 <= k < blinds@.len() ==> sc_valid(#[trigger] blinds@[k]),
    ensures
        spec_verify_r1(
            params.spec_n() as int,
            params.spec_t() as int,
            params.spec_i(),
            context@,
            blinds@,
            msgs@,
            our_commitments@,
            r,
        ),
{
    let n = params.n();
    let t = params.t();
    let i = params.i();
    let ghost a = assembled(msgs@, n as int, i as int, our_commitments@);

    let validated = match crate::validate::validate_map(msgs, n, i, our_commitments) {
        Ok(v) => v,
        Err(e) => {
            return Err(e);
        },
    };
    proof {
        assert(views_of(validated@) =~= a);
    }

    let parsed = match parse_all(n, t, i, context, blinds, &validated) {
        Ok(p) => p,
        Err(e) => {
            return Err(e);
        },
    };

    let total = multiexp_vartime(&parsed.scalars, &parsed.points);
    if total.v == 0 {
        return Ok(parsed.commitments);
    }

    match find_pok_fail(n, t, i, context, &validated, &parsed) {
        Some(l) => Err(FrostError::InvalidProofOfKnowledge(l)),
        None => Err(FrostError::InternalError("batch validation is broken".to_string())),
    }
}

/// Evaluates the polynomial at the participant index `l` by Horner's rule.
pub fn polynomial(coefficients: &Vec<u64>, l: u16) -> (r: u64)
    requires
        forall|k: int| 0 <= k < coefficients@.len() ==> sc_valid(#[trigger] coefficients@[k]),
    ensures
        sc_valid(r),
        r == spec_poly_eval(coefficients@, l as int),
{
    let x: u64 = l as u64;
    let mut acc: u64 = 0;
    let mut k: usize = coefficients.len();
    while k > 0
        invariant
            k <= coefficients@.len(),
            forall|k2: int| 0 <= k2 < coefficients@.len() ==> sc_valid(
                #[trigger] coefficients@[k2],
            ),
            x == l as u64,
            sc_valid(x),
            sc_valid(acc),
            acc == spec_poly_eval(coefficients@.skip(k as int), l as int),
        decreases k,
    {
        k = k - 1;
        let m = f_mul(x, acc);
        acc = f_add(coefficients[k], m);
        proof {
            let s_k = coefficients@.skip(k as int);
            assert(s_k[0] == coefficients@[k as int]);
            assert(s_k.skip(1) =~= coefficients@.skip(k as int + 1));
        }
    }
    proof {
        assert(coefficients@.skip(0) =~= coefficients@);
    }
    acc
}



/// Feldman's identity: multiplying the commitment points `a_j · G` by the
/// powers of `x` sums to the image of the polynomial's value at `x`.
pub proof fn lemma_feldman(coeffs: Seq<u64>, x: int, ps: Seq<Point>)
    requires
        0 <= x,
        ps.len() == coeffs.len(),
        forall|j: int| 0 <= j < ps.len() ==> (#[trigger] ps[j]).v as int == g_of(coeffs[j] as int),
    ensures
        spec_multiexp(pow_seq(x, coeffs.len() as nat), ps) == g_of(spec_poly_eval(coeffs, x)),
    decreases coeffs.len(),
{
    let t = coeffs.len() as int;
    if t == 0 {
        lemma_s_mul_zero(GENERATOR_V as int);
        assert(g_of(0) == 0);
    } else {
        let pre = coeffs.drop_last();
        let psp = ps.drop_last();
        lemma_feldman(pre, x, psp);
        assert(pow_seq(x, coeffs.len() as nat).drop_last() =~= pow_seq(x, pre.len() as nat));
        assert(pow_seq(x, coeffs.len() as nat).last() as int == spec_pow(x, (t - 1) as nat)) by {
            crate::curve::lemma_pow_bounded(x, (t - 1) as nat);
        }
        assert(pre.push(coeffs.last()) =~= coeffs);
        lemma_poly_eval_push(pre, coeffs.last(), x);
        lemma_g_of_add(
            spec_poly_eval(pre, x),
            s_mul(spec_pow(x, (t - 1) as nat), coeffs.last() as int),
        );
        lemma_g_of_mul(spec_pow(x, (t - 1) as nat), coeffs.last() as int);
        crate::curve::lemma_pow_bounded(x, (t - 1) as nat);
        crate::field::lemma_s_mul_noop_left(spec_pow(x, (t - 1) as nat), ps.last().v as int);
    }
}

/// A commitment row parsed back from an honestly built round-1 message is
/// consistent with the own polynomial: the Feldman sum at the own index is
/// the image of the own evaluation.
pub proof fn lemma_own_row_consistent(
    cs: Seq<u64>,
    rr: u64,
    i: u16,
    ctx: Seq<u8>,
    row: Seq<Point>,
)
    requires
        cs.len() >= 1,
        row.len() == cs.len(),
        forall|j: int|
            0 <= j < row.len() ==> (#[trigger] row[j]).v as int == commit_val(
                spec_r1_msg(i, ctx, cs, rr),
                j,
            ),
    ensures
        spec_multiexp(pow_seq(i as int, cs.len() as nat), row) == g_of(
            spec_poly_eval(cs, i as int),
        ),
{
    reveal(spec_r1_msg);
    let t = cs.len() as int;
    let msg = spec_r1_msg(i, ctx, cs, rr);
    let am = spec_commits_bytes(cs);
    lemma_commits_bytes_len(cs);
    assert forall|j: int| 0 <= j < t implies (#[trigger] row[j]).v as int == g_of(
        cs[j] as int,
    ) by {
        assert(msg.subrange(8 * j, 8 * j + 8) =~= am.subrange(8 * j, 8 * j + 8));
        lemma_commits_bytes_index(cs, j);
        lemma_le_bytes_roundtrip(g_of(cs[j] as int) as u64);
        assert(commit_val(msg, j) == g_of(cs[j] as int));
    }
    lemma_feldman(cs, i as int, row);
}

/// If no peer's identity is the first to fail, every peer's identity holds.
pub proof fn lemma_first_pok_fail_none_inv(
    msgs: Seq<Seq<u8>>,
    i: u16,
    ctx: Seq<u8>,
    t: int,
    upto: int,
)
    requires
        upto <= 0xFFFF,
        first_pok_fail(msgs, i, ctx, t, upto) is None,
    ensures
        forall|l: u16|
            1 <= l as int && l as int <= upto && l != i ==> #[trigger] pok_holds(
                l,
                ctx,
                msgs[l as int - 1],
                t,
            ),
    decreases upto,
{
    if upto > 0 {
        lemma_first_pok_fail_none_inv(msgs, i, ctx, t, upto - 1);
    }
}

/// When every peer's identity holds, the blinded defect total is zero for
/// every choice of blinding factors: honest runs always pass the batch.
pub proof fn lemma_batch_sum_zero(
    msgs: Seq<Seq<u8>>,
    i: u16,
    ctx: Seq<u8>,
    t: int,
    us: Seq<u64>,
    upto: int,
)
    requires
        upto <= 0xFFFF,
        forall|l: u16|
            1 <= l as int && l as int <= upto && l != i ==> #[trigger] pok_holds(
                l,
                ctx,
                msgs[l as int - 1],
                t,
            ),
    ensures
        batch_sum(msgs, i, ctx, t, us, upto) == 0,
    decreases upto,
{
    if upto > 0 {
        lemma_batch_sum_zero(msgs, i, ctx, t, us, upto - 1);
        if upto != i as int {
            assert(pok_holds(upto as u16, ctx, msgs[upto - 1], t));
            lemma_pok_defect_zero(upto as u16, ctx, msgs[upto - 1], t);
            lemma_s_mul_zero(u_for(us, upto, i as int) as int);
        }
    }
}

} // verus!
