//! Canonical modular arithmetic for field elements.
//!
//! A field element is a `u64` holding the canonical residue of an integer
//! modulo an odd prime `p`; every operation returns a canonical result.

use vstd::prelude::*;
use vstd::arithmetic::div_mod::{lemma_small_mod, lemma_mod_self_0, lemma_mod_multiples_vanish};

verus! {

/// The word-residue field: an element is the canonical residue of an integer
/// modulo an odd prime, held in a single machine word. The transform's
/// operations are associated functions of this type, each taking the prime
/// modulus `p` alongside its data.
pub struct MontyField31;

/// Canonical sum: `(x + y) mod p`.
pub open spec fn fadd(p: u64, x: u64, y: u64) -> u64 {
    ((x + y) % (p as int)) as u64
}

/// Canonical difference: `(p + x - y) mod p`, never negative on the way.
pub open spec fn fsub(p: u64, x: u64, y: u64) -> u64 {
    ((p + x - y) % (p as int)) as u64
}

/// Canonical product: `(x * y) mod p`.
pub open spec fn fmul(p: u64, x: u64, y: u64) -> u64 {
    ((x * y) % (p as int)) as u64
}

/// `g^e mod p`.
pub open spec fn fpow(p: u64, g: u64, e: nat) -> u64
    decreases e,
{
    if e == 0 {
        (1int % (p as int)) as u64
    } else {
        fmul(p, fpow(p, g, (e - 1) as nat), g)
    }
}

pub fn fe_add(x: u64, y: u64, p: u64) -> (r: u64)
    requires
        p >= 2,
        x < p,
        y < p,
    ensures
        r == fadd(p, x, y),
        r < p,
{
    (((x as u128) + (y as u128)) % (p as u128)) as u64
}

pub fn fe_sub(x: u64, y: u64, p: u64) -> (r: u64)
    requires
        p >= 2,
        x < p,
        y < p,
    ensures
        r == fsub(p, x, y),
        r < p,
{
    (((p as u128) + (x as u128) - (y as u128)) % (p as u128)) as u64
}

pub fn fe_mul(x: u64, y: u64, p: u64) -> (r: u64)
    requires
        p >= 2,
        x < p,
        y < p,
    ensures
        r == fmul(p, x, y),
        r < p,
{
    proof {
        vstd::arithmetic::mul::lemma_mul_upper_bound(x as int, u64::MAX as int, y as int, u64::MAX as int);
    }
    (((x as u128) * (y as u128)) % (p as u128)) as u64
}

/// Multiplying a canonical element by one leaves it unchanged.
pub proof fn lemma_fmul_one(p: u64, x: u64)
    requires
        p >= 2,
        x < p,
    ensures
        fmul(p, x, 1) == x,
{
    lemma_small_mod(x as nat, p as nat);
}

/// A canonical element is its own residue.
pub proof fn lemma_fadd_zero(p: u64, x: u64)
    requires
        p >= 2,
        x < p,
    ensures
        fadd(p, x, 0) == x,
        fsub(p, x, 0) == x,
{
    lemma_small_mod(x as nat, p as nat);
    lemma_mod_multiples_vanish(1, x as int, p as int);
}

/// Powers are canonical.
pub proof fn lemma_fpow_below(p: u64, g: u64, e: nat)
    requires
        p >= 2,
    ensures
        fpow(p, g, e) < p,
    decreases e,
{
    if e > 0 {
        lemma_fpow_below(p, g, (e - 1) as nat);
    }
}

/// `g^0 == 1`.
pub proof fn lemma_fpow_zero(p: u64, g: u64)
    requires
        p >= 2,
    ensures
        fpow(p, g, 0) == 1u64,
{
    lemma_small_mod(1nat, p as nat);
}

/// Modular multiplication is associative.
pub proof fn lemma_fmul_assoc(p: u64, x: u64, y: u64, z: u64)
    requires
        p >= 2,
    ensures
        fmul(p, fmul(p, x, y), z) == fmul(p, x, fmul(p, y, z)),
{
    vstd::arithmetic::div_mod::lemma_mul_mod_noop_left(x as int * y as int, z as int, p as int);
    vstd::arithmetic::div_mod::lemma_mul_mod_noop_right(x as int, y as int * z as int, p as int);
    vstd::arithmetic::mul::lemma_mul_is_associative(x as int, y as int, z as int);
}

/// Exponents add: `g^(a + b) == g^a * g^b`.
pub proof fn lemma_fpow_add(p: u64, g: u64, a: nat, b: nat)
    requires
        p >= 2,
    ensures
        fpow(p, g, a + b) == fmul(p, fpow(p, g, a), fpow(p, g, b)),
    decreases b,
{
    if b == 0 {
        lemma_fpow_zero(p, g);
        lemma_fpow_below(p, g, a);
        lemma_fmul_one(p, fpow(p, g, a));
    } else {
        lemma_fpow_add(p, g, a, (b - 1) as nat);
        lemma_fmul_assoc(p, fpow(p, g, a), fpow(p, g, (b - 1) as nat), g);
    }
}

/// Exponents multiply: `g^(a * b) == (g^a)^b`.
pub proof fn lemma_fpow_mul(p: u64, g: u64, a: nat, b: nat)
    requires
        p >= 2,
    ensures
        fpow(p, g, a * b) == fpow(p, fpow(p, g, a), b),
    decreases b,
{
    if b == 0 {
        assert(a * 0 == 0);
    } else {
        lemma_fpow_mul(p, g, a, (b - 1) as nat);
        assert(a * b == a * (b - 1) + a) by {
            vstd::arithmetic::mul::lemma_mul_is_distributive_sub(a as int, b as int, 1);
        }
        lemma_fpow_add(p, g, a * (b - 1) as nat, a);
    }
}

/// One to any power is one.
pub proof fn lemma_fpow_one_base(p: u64, e: nat)
    requires
        p >= 2,
    ensures
        fpow(p, 1, e) == 1u64,
    decreases e,
{
    if e == 0 {
        lemma_fpow_zero(p, 1);
    } else {
        lemma_fpow_one_base(p, (e - 1) as nat);
        lemma_fmul_one(p, 1);
    }
}

} // verus!
