//! The scalar field of the test curve: integers modulo a Mersenne prime.
//!
//! Scalars are `u64` values that are *canonical*, i.e. reduced modulo
//! [`MODULUS`].  Specifications work over `int` with the operations
//! [`s_add`], [`s_mul`] and [`s_neg`]; the executable operations are proved
//! to match them exactly.

use vstd::prelude::*;
use vstd::arithmetic::div_mod::{
    lemma_add_mod_noop, lemma_mod_twice, lemma_mul_mod_noop_general, lemma_mul_mod_noop_left,
    lemma_mul_mod_noop_right, lemma_small_mod, lemma_mod_multiples_vanish,
};
use vstd::arithmetic::mul::{
    lemma_mul_is_associative, lemma_mul_is_commutative, lemma_mul_is_distributive_add,
    lemma_mul_is_distributive_sub, lemma_mul_nonnegative,
};

verus! {

/// The field order: 2^61 - 1, a Mersenne prime.  Products of two canonical
/// scalars fit comfortably in `u128`, and sums in `u64`.
pub const MODULUS: u64 = 0x1FFF_FFFF_FFFF_FFFF;

/// The field order as a mathematical integer.
pub open spec fn q() -> int {
    MODULUS as int
}

/// A `u64` is a canonical scalar when it is reduced modulo the field order.
pub open spec fn sc_valid(x: u64) -> bool {
    x < MODULUS
}

/// Field addition on mathematical integers.
pub open spec fn s_add(a: int, b: int) -> int {
    (a + b) % q()
}

/// Field multiplication on mathematical integers.
pub open spec fn s_mul(a: int, b: int) -> int {
    (a * b) % q()
}

/// Field negation of a canonical representative.
pub open spec fn s_neg(a: int) -> int {
    (q() - a) % q()
}

/// Addition of two canonical scalars.
pub fn f_add(a: u64, b: u64) -> (r: u64)
    requires
        sc_valid(a),
        sc_valid(b),
    ensures
        sc_valid(r),
        r == s_add(a as int, b as int),
{
    let s = a + b;
    proof {
        if s < MODULUS {
            lemma_small_mod(s as nat, MODULUS as nat);
        } else {
            lemma_mod_multiples_vanish(-1, s as int, q());
            lemma_small_mod((s - MODULUS) as nat, MODULUS as nat);
        }
    }
    if s >= MODULUS {
        s - MODULUS
    } else {
        s
    }
}

/// Multiplication of two canonical scalars, via a `u128` product.
pub fn f_mul(a: u64, b: u64) -> (r: u64)
    requires
        sc_valid(a),
        sc_valid(b),
    ensures
        sc_valid(r),
        r == s_mul(a as int, b as int),
{
    proof {
        assert((a as int) * (b as int) < 0x1_0000_0000_0000_0000_0000_0000_0000_0000)
            by (nonlinear_arith)
            requires
                a < MODULUS,
                b < MODULUS,
        ;
        lemma_mul_nonnegative(a as int, b as int);
    }
    let p: u128 = (a as u128) * (b as u128);
    let r: u128 = p % (MODULUS as u128);
    r as u64
}

/// Negation of a canonical scalar.
pub fn f_neg(a: u64) -> (r: u64)
    requires
        sc_valid(a),
    ensures
        sc_valid(r),
        r == s_neg(a as int),
{
    proof {
        if a == 0 {
            assert(q() % q() == 0) by {
                lemma_mod_multiples_vanish(-1, q(), q());
                lemma_small_mod(0, MODULUS as nat);
            }
        } else {
            lemma_small_mod((MODULUS - a) as nat, MODULUS as nat);
        }
    }
    if a == 0 {
        0
    } else {
        MODULUS - a
    }
}

/// Reduction of an arbitrary `u64` to a canonical scalar.
pub fn f_reduce(a: u64) -> (r: u64)
    ensures
        sc_valid(r),
        r == a as int % q(),
{
    let r = a % MODULUS;
    r
}

/// The results of the spec-level operations are themselves canonical.
pub proof fn lemma_ops_bounded(a: int, b: int)
    requires
        0 <= a,
        0 <= b,
    ensures
        0 <= s_add(a, b) < q(),
        0 <= s_mul(a, b) < q(),
{
    lemma_mul_nonnegative(a, b);
}

/// Field multiplication is commutative.
pub proof fn lemma_s_mul_comm(a: int, b: int)
    ensures
        s_mul(a, b) == s_mul(b, a),
{
    lemma_mul_is_commutative(a, b);
}

/// A left operand of `s_add` may be reduced without changing the sum.
pub proof fn lemma_s_add_noop_left(a: int, b: int)
    ensures
        s_add(a % q(), b) == s_add(a, b),
{
    lemma_add_mod_noop(a, b, q());
    lemma_add_mod_noop(a % q(), b, q());
    lemma_mod_twice(a, q());
    lemma_mod_twice(b, q());
}

/// A right operand of `s_add` may be reduced without changing the sum.
pub proof fn lemma_s_add_noop_right(a: int, b: int)
    ensures
        s_add(a, b % q()) == s_add(a, b),
{
    lemma_s_add_noop_left(b, a);
}

/// A left operand of `s_mul` may be reduced without changing the product.
pub proof fn lemma_s_mul_noop_left(a: int, b: int)
    ensures
        s_mul(a % q(), b) == s_mul(a, b),
{
    lemma_mul_mod_noop_left(a, b, q());
}

/// A right operand of `s_mul` may be reduced without changing the product.
pub proof fn lemma_s_mul_noop_right(a: int, b: int)
    ensures
        s_mul(a, b % q()) == s_mul(a, b),
{
    lemma_mul_mod_noop_right(a, b, q());
}

/// Field multiplication is associative.
pub proof fn lemma_s_mul_assoc(a: int, b: int, c: int)
    ensures
        s_mul(s_mul(a, b), c) == s_mul(a, s_mul(b, c)),
{
    lemma_s_mul_noop_left(a * b, c);
    lemma_s_mul_noop_right(a, b * c);
    lemma_mul_is_associative(a, b, c);
}

/// Field multiplication distributes over field addition.
pub proof fn lemma_s_mul_distrib(a: int, b: int, c: int)
    ensures
        s_mul(a, s_add(b, c)) == s_add(s_mul(a, b), s_mul(a, c)),
{
    lemma_s_mul_noop_right(a, b + c);
    lemma_mul_is_distributive_add(a, b, c);
    lemma_add_mod_noop(a * b, a * c, q());
}

/// Field addition is associative.
pub proof fn lemma_s_add_assoc(a: int, b: int, c: int)
    ensures
        s_add(s_add(a, b), c) == s_add(a, s_add(b, c)),
{
    lemma_s_add_noop_left(a + b, c);
    lemma_s_add_noop_right(a, b + c);
}

/// Adding zero is the identity on canonical representatives.
pub proof fn lemma_s_add_zero(a: int)
    requires
        0 <= a < q(),
    ensures
        s_add(a, 0) == a,
        s_add(0, a) == a,
{
    lemma_small_mod(a as nat, MODULUS as nat);
}

/// Multiplying by one is the identity on canonical representatives.
pub proof fn lemma_s_mul_one(a: int)
    requires
        0 <= a < q(),
    ensures
        s_mul(1, a) == a,
        s_mul(a, 1) == a,
{
    lemma_small_mod(a as nat, MODULUS as nat);
    lemma_mul_is_commutative(a, 1);
}

/// Multiplying by zero yields zero.
pub proof fn lemma_s_mul_zero(a: int)
    ensures
        s_mul(a, 0) == 0,
        s_mul(0, a) == 0,
{
    lemma_small_mod(0, MODULUS as nat);
    lemma_mul_is_commutative(a, 0);
}

/// Negation commutes with multiplication: `(-a) * b == -(a * b)`.
pub proof fn lemma_s_mul_neg(a: int, b: int)
    requires
        0 <= a < q(),
        0 <= b,
    ensures
        s_mul(s_neg(a), b) == s_neg(s_mul(a, b)),
{
    if a == 0 {
        lemma_mod_multiples_vanish(-1, q(), q());
        lemma_small_mod(0, MODULUS as nat);
        lemma_s_mul_zero(b);
    } else {
        lemma_small_mod((MODULUS - a) as nat, MODULUS as nat);
        assert(s_neg(a) == q() - a);
        lemma_mul_is_distributive_sub(b, q(), a);
        assert((q() - a) * b == b * q() - b * a) by {
            lemma_mul_is_commutative(q() - a, b);
            lemma_mul_is_commutative(q(), b);
            lemma_mul_is_commutative(a, b);
        }
        lemma_mod_multiples_vanish(b, -(b * a), q());
        assert(s_mul(s_neg(a), b) == (-(b * a)) % q());
        lemma_mod_multiples_vanish(1, -(b * a), q());
        assert((q() - b * a % q()) % q() == (q() - b * a) % q()) by {
            let rr = b * a % q();
            lemma_mod_twice(b * a, q());
            lemma_add_mod_noop(q(), -rr, q());
            lemma_add_mod_noop(q(), -(b * a), q());
            lemma_mod_twice(-(b * a), q());
            assert((-rr) % q() == (-(b * a)) % q()) by {
                lemma_mod_multiples_vanish(-(b * a / q()), -(b * a % q()), q());
                vstd::arithmetic::div_mod::lemma_fundamental_div_mod(b * a, q());
            }
        }
        lemma_mul_is_commutative(a, b);
    }
}

/// Adding the negation of a canonical scalar yields zero.
pub proof fn lemma_s_add_neg(a: int)
    requires
        0 <= a < q(),
    ensures
        s_add(a, s_neg(a)) == 0,
{
    if a == 0 {
        lemma_mod_multiples_vanish(-1, q(), q());
        lemma_small_mod(0, MODULUS as nat);
    } else {
        lemma_small_mod((MODULUS - a) as nat, MODULUS as nat);
        assert(s_neg(a) == q() - a);
        lemma_mod_multiples_vanish(-1, q(), q());
        lemma_small_mod(0, MODULUS as nat);
    }
}

/// Two canonical scalars that are congruent are equal.
pub proof fn lemma_canonical_eq(a: int, b: int)
    requires
        0 <= a < q(),
        0 <= b < q(),
        a % q() == b % q(),
    ensures
        a == b,
{
    lemma_small_mod(a as nat, MODULUS as nat);
    lemma_small_mod(b as nat, MODULUS as nat);
}

} // verus!
