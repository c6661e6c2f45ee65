//! A prime-order test group with the capability bundle the DKG needs:
//! fixed-length canonical encodings for scalars and group elements, constant-
//! and variable-base scalar multiplication, a hash to the scalar field, and a
//! variable-time multi-exponentiation.
//!
//! The group is the additive group of the scalar field itself, written with a
//! fixed generator: a group element is the residue `v`, the generator is
//! [`GENERATOR_V`], and `s · G` is the field product `s * GENERATOR_V`.  The
//! group has prime order [`MODULUS`](crate::field::MODULUS), equality is
//! mathematical equality, and every operation returns a canonical
//! representative, so the group satisfies everything the protocol assumes of
//! a curve while remaining fully checkable.

use vstd::prelude::*;
use vstd::bytes::{
    lemma_auto_spec_u64_to_from_le_bytes, spec_u64_from_le_bytes, spec_u64_to_le_bytes,
    u64_from_le_bytes, u64_to_le_bytes,
};
use crate::field::{
    f_add, f_mul, lemma_ops_bounded, lemma_s_mul_assoc, lemma_s_mul_one, lemma_s_mul_comm, q,
    s_add, s_mul, sc_valid, MODULUS,
};

verus! {

/// The residue of the chosen generator.
pub const GENERATOR_V: u64 = 7;

/// The multiplicative inverse of [`GENERATOR_V`] modulo the field order;
/// it witnesses that multiplication by the generator is injective.
pub const GENERATOR_V_INV: u64 = 1_976_436_865_040_309_101;

/// Byte length of an encoded scalar.
pub const F_LEN: usize = 8;

/// Byte length of an encoded group element.
pub const G_LEN: usize = 8;

/// An element of the group: a canonical residue.
#[derive(Clone, Copy, PartialEq, Eq, Structural, Debug)]
pub struct Point {
    pub v: u64,
}

/// A group element is well formed when its residue is canonical.
pub open spec fn pt_valid(p: Point) -> bool {
    p.v < MODULUS
}

/// The residue of `s · G`.
pub open spec fn g_of(s: int) -> int {
    s_mul(s, GENERATOR_V as int)
}

/// The group identity.
pub fn identity() -> (r: Point)
    ensures
        r.v == 0,
        pt_valid(r),
{
    Point { v: 0 }
}

/// The chosen base point.
pub fn generator() -> (r: Point)
    ensures
        r.v == GENERATOR_V,
        pt_valid(r),
{
    Point { v: GENERATOR_V }
}

/// Group addition.
pub fn point_add(p: Point, other: Point) -> (r: Point)
    requires
        pt_valid(p),
        pt_valid(other),
    ensures
        pt_valid(r),
        r.v == s_add(p.v as int, other.v as int),
{
    Point { v: f_add(p.v, other.v) }
}

/// Variable-base scalar multiplication.
pub fn point_mul(s: u64, p: Point) -> (r: Point)
    requires
        sc_valid(s),
        pt_valid(p),
    ensures
        pt_valid(r),
        r.v == s_mul(s as int, p.v as int),
{
    Point { v: f_mul(s, p.v) }
}

/// Constant-base scalar multiplication: `s · G`.
pub fn mul_gen(s: u64) -> (r: Point)
    requires
        sc_valid(s),
    ensures
        pt_valid(r),
        r.v == g_of(s as int),
{
    Point { v: f_mul(s, GENERATOR_V) }
}

/// Multiplication by the generator is injective on canonical scalars.
pub proof fn lemma_g_of_injective(a: int, b: int)
    requires
        0 <= a < q(),
        0 <= b < q(),
        g_of(a) == g_of(b),
    ensures
        a == b,
{
    let g = GENERATOR_V as int;
    let gi = GENERATOR_V_INV as int;
    assert(s_mul(g, gi) == 1);
    lemma_s_mul_assoc(a, g, gi);
    lemma_s_mul_assoc(b, g, gi);
    lemma_s_mul_one(a);
    lemma_s_mul_one(b);
}

/// The map `s -> s · G` is additive.
pub proof fn lemma_g_of_add(u: int, v: int)
    ensures
        g_of(s_add(u, v)) == s_add(g_of(u), g_of(v)),
{
    let g = GENERATOR_V as int;
    crate::field::lemma_s_mul_comm(s_add(u, v), g);
    crate::field::lemma_s_mul_distrib(g, u, v);
    crate::field::lemma_s_mul_comm(g, u);
    crate::field::lemma_s_mul_comm(g, v);
}

/// The map `s -> s · G` commutes with scalar multiplication.
pub proof fn lemma_g_of_mul(a: int, b: int)
    ensures
        g_of(s_mul(a, b)) == s_mul(a, g_of(b)),
{
    let g = GENERATOR_V as int;
    lemma_s_mul_assoc(a, b, g);
}

/// Serializes a scalar to its fixed-length canonical encoding.
pub fn scalar_to_bytes(s: u64) -> (r: Vec<u8>)
    ensures
        r@ == spec_u64_to_le_bytes(s),
        r@.len() == F_LEN,
{
    u64_to_le_bytes(s)
}

/// Serializes a group element to its fixed-length canonical encoding.
pub fn point_to_bytes(p: Point) -> (r: Vec<u8>)
    ensures
        r@ == spec_u64_to_le_bytes(p.v),
        r@.len() == G_LEN,
{
    u64_to_le_bytes(p.v)
}

/// Whether a byte sequence is the canonical encoding of some scalar.
pub open spec fn dec_ok(b: Seq<u8>) -> bool {
    b.len() == F_LEN && spec_u64_from_le_bytes(b) < MODULUS
}

/// The scalar a canonical byte sequence decodes to.
pub open spec fn dec(b: Seq<u8>) -> int {
    spec_u64_from_le_bytes(b) as int
}

/// Parses a scalar, rejecting non-canonical or wrongly sized encodings.
pub fn scalar_from_slice(b: &[u8]) -> (r: Option<u64>)
    ensures
        dec_ok(b@) ==> r == Some((dec(b@) as u64)),
        !dec_ok(b@) ==> r is None,
        r matches Some(s) ==> sc_valid(s) && dec_ok(b@),
{
    if b.len() != F_LEN {
        None
    } else {
        let v = u64_from_le_bytes(b);
        if v < MODULUS {
            Some(v)
        } else {
            None
        }
    }
}

/// Parses a group element, rejecting non-canonical or wrongly sized
/// encodings.  The identity is a legal encoding.
pub fn point_from_slice(b: &[u8]) -> (r: Option<Point>)
    ensures
        dec_ok(b@) ==> r == Some(Point { v: dec(b@) as u64 }),
        !dec_ok(b@) ==> r is None,
        r matches Some(p) ==> pt_valid(p) && dec_ok(b@),
{
    match scalar_from_slice(b) {
        Some(v) => Some(Point { v }),
        None => None,
    }
}

/// Encoding then decoding is the identity, and the encoding is injective.
pub proof fn lemma_le_bytes_roundtrip(v: u64)
    ensures
        spec_u64_to_le_bytes(v).len() == 8,
        spec_u64_from_le_bytes(spec_u64_to_le_bytes(v)) == v,
        v < MODULUS ==> dec_ok(spec_u64_to_le_bytes(v)),
        v < MODULUS ==> dec(spec_u64_to_le_bytes(v)) == v,
{
    lemma_auto_spec_u64_to_from_le_bytes();
}

/// Initial state of the hash to the scalar field.
pub const HASH_INIT: u64 = 0x0123_4567_89ab_cdef;

/// Byte multiplier of the hash to the scalar field.
pub const HASH_MULT: u64 = 0x0100_0193;

/// The hash to the scalar field: a polynomial fold of the input bytes,
/// deterministic in the input and nothing else.
#[verifier::opaque]
pub open spec fn spec_hash(s: Seq<u8>) -> int
    decreases s.len(),
{
    if s.len() == 0 {
        HASH_INIT as int
    } else {
        s_add(s_mul(spec_hash(s.drop_last()), HASH_MULT as int), s.last() as int + 1)
    }
}

/// A domain-separated hash from bytes to the scalar field.
pub fn hash_to_f(bytes: &[u8]) -> (r: u64)
    ensures
        sc_valid(r),
        r == spec_hash(bytes@),
{
    proof {
        reveal(spec_hash);
    }
    let mut acc: u64 = HASH_INIT;
    let mut k: usize = 0;
    while k < bytes.len()
        invariant
            k <= bytes@.len(),
            sc_valid(acc),
            acc == spec_hash(bytes@.take(k as int)),
        decreases bytes@.len() - k,
    {
        let b = bytes[k];
        proof {
            reveal(spec_hash);
            let pre = bytes@.take(k as int);
            let post = bytes@.take(k as int + 1);
            assert(post.drop_last() =~= pre);
            assert(post.last() == bytes@[k as int]);
        }
        acc = f_add(f_mul(acc, HASH_MULT), (b as u64) + 1);
        k = k + 1;
    }
    proof {
        assert(bytes@.take(bytes@.len() as int) =~= bytes@);
    }
    acc
}

/// The contents of a multi-exponentiation: the sum of the pairwise products
/// of a scalar sequence and a point sequence.
pub open spec fn spec_multiexp(ss: Seq<u64>, ps: Seq<Point>) -> int
    decreases ss.len(),
{
    if ss.len() == 0 {
        0
    } else {
        s_add(
            spec_multiexp(ss.drop_last(), ps.drop_last()),
            s_mul(ss.last() as int, ps.last().v as int),
        )
    }
}

/// Appending one scalar/point pair adds its product to the total.
pub proof fn lemma_multiexp_push(ss: Seq<u64>, ps: Seq<Point>, s: u64, p: Point)
    requires
        ss.len() == ps.len(),
    ensures
        spec_multiexp(ss.push(s), ps.push(p)) == s_add(
            spec_multiexp(ss, ps),
            s_mul(s as int, p.v as int),
        ),
{
    assert(ss.push(s).drop_last() =~= ss);
    assert(ps.push(p).drop_last() =~= ps);
}

/// Variable-time multi-scalar multiplication: returns `Σ scalars[k] · points[k]`.
pub fn multiexp_vartime(scalars: &Vec<u64>, points: &Vec<Point>) -> (r: Point)
    requires
        scalars@.len() == points@.len(),
        forall|k: int| 0 <= k < scalars@.len() ==> sc_valid(#[trigger] scalars@[k]),
        forall|k: int| 0 <= k < points@.len() ==> pt_valid(#[trigger] points@[k]),
    ensures
        pt_valid(r),
        r.v == spec_multiexp(scalars@, points@),
{
    let mut acc: u64 = 0;
    let mut k: usize = 0;
    while k < scalars.len()
        invariant
            k <= scalars@.len(),
            scalars@.len() == points@.len(),
            forall|j: int| 0 <= j < scalars@.len() ==> sc_valid(#[trigger] scalars@[j]),
            forall|j: int| 0 <= j < points@.len() ==> pt_valid(#[trigger] points@[j]),
            sc_valid(acc),
            acc == spec_multiexp(scalars@.take(k as int), points@.take(k as int)),
        decreases scalars@.len() - k,
    {
        proof {
            lemma_multiexp_push(
                scalars@.take(k as int),
                points@.take(k as int),
                scalars@[k as int],
                points@[k as int],
            );
            assert(scalars@.take(k as int).push(scalars@[k as int]) =~= scalars@.take(
                k as int + 1,
            ));
            assert(points@.take(k as int).push(points@[k as int]) =~= points@.take(k as int + 1));
        }
        acc = f_add(acc, f_mul(scalars[k], points[k].v));
        k = k + 1;
    }
    proof {
        assert(scalars@.take(scalars@.len() as int) =~= scalars@);
        assert(points@.take(points@.len() as int) =~= points@);
    }
    Point { v: acc }
}

/// The power sequence `1, x, x^2, …` used by Feldman verification.
pub open spec fn spec_pow(x: int, k: nat) -> int
    decreases k,
{
    if k == 0 {
        1
    } else {
        s_mul(x, spec_pow(x, (k - 1) as nat))
    }
}

/// Every power of a canonical scalar is canonical.
pub proof fn lemma_pow_bounded(x: int, k: nat)
    requires
        0 <= x,
    ensures
        0 <= spec_pow(x, k) < q(),
    decreases k,
{
    if k == 0 {
    } else {
        lemma_pow_bounded(x, (k - 1) as nat);
        lemma_ops_bounded(x, spec_pow(x, (k - 1) as nat));
    }
}

/// The sequence of the first `t` powers of `x`.
pub open spec fn pow_seq(x: int, t: nat) -> Seq<u64> {
    Seq::new(t, |j: int| spec_pow(x, j as nat) as u64)
}

/// Builds the first `t` powers of `x`, starting from `x^0 == 1`.
pub fn powers(x: u64, t: usize) -> (r: Vec<u64>)
    requires
        sc_valid(x),
    ensures
        r@.len() == t,
        forall|j: int| 0 <= j < t ==> #[trigger] r@[j] == spec_pow(x as int, j as nat),
        forall|j: int| 0 <= j < t ==> sc_valid(#[trigger] r@[j]),
        r@ == pow_seq(x as int, t as nat),
{
    let mut r: Vec<u64> = Vec::new();
    let mut cur: u64 = 1;
    let mut j: usize = 0;
    while j < t
        invariant
            j <= t,
            r@.len() == j,
            sc_valid(x),
            sc_valid(cur),
            cur == spec_pow(x as int, j as nat),
            forall|k: int| 0 <= k < j ==> #[trigger] r@[k] == spec_pow(x as int, k as nat),
            forall|k: int| 0 <= k < j ==> sc_valid(#[trigger] r@[k]),
        decreases t - j,
    {
        r.push(cur);
        proof {
            lemma_s_mul_comm(x as int, spec_pow(x as int, j as nat));
        }
        cur = f_mul(cur, x);
        j = j + 1;
    }
    proof {
        assert forall|k: int| 0 <= k < t implies pow_seq(x as int, t as nat)[k] == r@[k] by {
            lemma_pow_bounded(x as int, k as nat);
        }
        assert(r@ =~= pow_seq(x as int, t as nat));
    }
    r
}

} // verus!
