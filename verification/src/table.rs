//! Twiddle-factor tables.
//!
//! For a transform of length `n = 2^L` the table has levels `0 .. L-1`;
//! level `i` holds the first `n / 2^(i+1)` of the `n / 2^i`-th roots of
//! unity (the second half are the negatives of the first and are never
//! stored). The generator of the subgroup of order `n` is an external
//! capability; for the Goldilocks field it is obtained from `p3_goldilocks`.

use vstd::prelude::*;
use vstd::arithmetic::power2::{pow2, lemma_pow2_adds, lemma_pow2_pos, lemma_pow2_strictly_increases};
use p3_field::PrimeField64;
use p3_field::TwoAdicField;
use crate::field::{
    fpow, fe_mul, lemma_fpow_zero, lemma_fpow_below, lemma_fpow_mul, lemma_fpow_one_base,
};
use crate::model::{all_below, table_ok, tview};
use crate::field::MontyField31;

verus! {

/// The Goldilocks prime, `2^64 - 2^32 + 1`.
pub const GOLDILOCKS_P: u64 = 0xffff_ffff_0000_0001;

/// The base-two logarithm of a power of two.
pub open spec fn lg(n: nat) -> nat
    decreases n,
{
    if n <= 1 {
        0
    } else {
        1 + lg(n / 2)
    }
}

/// `lg` inverts `pow2`.
pub proof fn lemma_lg_pow2(k: nat)
    ensures
        lg(pow2(k)) == k,
    decreases k,
{
    if k == 0 {
        assert(pow2(0) == 1) by {
            vstd::arithmetic::power2::lemma2_to64();
        }
    } else {
        vstd::arithmetic::power2::lemma_pow2_unfold(k);
        lemma_pow2_pos((k - 1) as nat);
        lemma_lg_pow2((k - 1) as nat);
        assert(pow2(k) == 2 * pow2((k - 1) as nat));
        assert(pow2(k) / 2 == pow2((k - 1) as nat));
    }
}

/// `pow2` has no two exponents with one value.
pub proof fn lemma_pow2_injective(a: nat, b: nat)
    requires
        pow2(a) == pow2(b),
    ensures
        a == b,
{
    if a < b {
        lemma_pow2_strictly_increases(a, b);
    }
    if b < a {
        lemma_pow2_strictly_increases(b, a);
    }
}

/// The table for a transform of length `2^lg_n` over generator `g`: level
/// `i` holds `2^(lg_n - 1 - i)` entries, entry `k` being `g^(k * 2^i)`.
pub open spec fn table_model(p: u64, g: u64, lg_n: nat) -> Seq<Seq<u64>> {
    Seq::new(
        (lg_n - 1) as nat,
        |i: int|
            Seq::new(
                pow2((lg_n - 1 - i) as nat),
                |k: int| fpow(p, g, (k * pow2(i as nat)) as nat),
            ),
    )
}

/// The modelled table is well formed for its length.
pub proof fn lemma_table_model_ok(p: u64, g: u64, lg_n: nat)
    requires
        p >= 2,
        lg_n >= 1,
    ensures
        table_ok(p, table_model(p, g, lg_n), pow2(lg_n)),
{
    let t = table_model(p, g, lg_n);
    assert(t.len() == lg_n - 1);
    assert forall|i: int| 0 <= i < t.len() implies (#[trigger] t[i]).len() == pow2(
        (t.len() - i) as nat,
    ) && all_below(t[i], p) && t[i][0] == 1u64 by {
        assert(t[i].len() == pow2((lg_n - 1 - i) as nat));
        assert forall|k: int| 0 <= k < t[i].len() implies t[i][k] < p by {
            lemma_fpow_below(p, g, (k * pow2(i as nat)) as nat);
        }
        assert(0 * pow2(i as nat) == 0);
        lemma_fpow_zero(p, g);
        lemma_pow2_pos((lg_n - 1 - i) as nat);
    }
}

/// Law: every entry of level `i` of the table for length `n` is a root of
/// unity of order dividing `n / 2^i`, provided the generator's `n`-th power
/// is one.
pub proof fn lemma_table_entries_are_roots(p: u64, g: u64, lg_n: nat, i: int, k: int)
    requires
        p >= 2,
        lg_n >= 1,
        fpow(p, g, pow2(lg_n)) == 1u64,
        0 <= i < lg_n - 1,
        0 <= k < pow2((lg_n - 1 - i) as nat),
    ensures
        fpow(p, table_model(p, g, lg_n)[i][k], pow2((lg_n - i) as nat)) == 1u64,
{
    let e1 = (k * pow2(i as nat)) as nat;
    let e2 = pow2((lg_n - i) as nat);
    let entry = table_model(p, g, lg_n)[i][k];
    assert(entry == fpow(p, g, e1));
    lemma_fpow_mul(p, g, e1, e2);
    assert(fpow(p, entry, e2) == fpow(p, g, e1 * e2));
    assert(e1 * e2 == (k * pow2(lg_n)) as nat) by {
        lemma_pow2_adds(i as nat, (lg_n - i) as nat);
        vstd::arithmetic::mul::lemma_mul_is_associative(
            k,
            pow2(i as nat) as int,
            pow2((lg_n - i) as nat) as int,
        );
    }
    lemma_fpow_mul(p, g, pow2(lg_n), k as nat);
    assert(pow2(lg_n) * k as nat == k * pow2(lg_n)) by {
        vstd::arithmetic::mul::lemma_mul_is_commutative(pow2(lg_n) as int, k);
    }
    lemma_fpow_one_base(p, k as nat);
}

/// Relies on `p3_util::log2_strict_usize`: the exact base-two logarithm of a
/// power of two. It panics on any other input; the precondition rules that
/// out.
#[verifier::external_body]
pub(crate) fn log2_strict(n: usize) -> (r: usize)
    requires
        exists|k: nat| n == pow2(k),
    ensures
        n == pow2(r as nat),
{
    p3_util::log2_strict_usize(n)
}

/// What `Goldilocks::two_adic_generator` returns for a given order; the
/// value depends on the requested order alone.
pub uninterp spec fn goldilocks_generator(bits: int) -> u64;

/// Relies on `p3_field::TwoAdicField::two_adic_generator` for the Goldilocks
/// field: a generator of the multiplicative subgroup of order `2^bits` (so
/// its `2^bits`-th power is one), determined by `bits` alone; reduced to the
/// canonical residue by `PrimeField64::as_canonical_u64`. The trait requires
/// `bits` at most the field's two-adicity, 32.
#[verifier::external_body]
fn goldilocks_two_adic_generator(bits: usize) -> (r: u64)
    requires
        bits <= 32,
    ensures
        r == goldilocks_generator(bits as int),
        r < GOLDILOCKS_P,
        fpow(GOLDILOCKS_P, r, pow2(bits as nat)) == 1u64,
{
    <p3_goldilocks::Goldilocks as TwoAdicField>::two_adic_generator(bits).as_canonical_u64()
}

impl MontyField31 {

/// Builds the twiddle table for a transform of length `n` (a power of two,
/// at least 2) from a generator `g` of the subgroup of order `n`: the first
/// `n/2` powers of `g`, then every level subsamples every `2^i`-th power.
pub fn roots_of_unity_table(n: usize, g: u64, p: u64) -> (t: Vec<Vec<u64>>)
    requires
        p >= 2,
        g < p,
        n >= 2,
        exists|k: nat| n == pow2(k),
    ensures
        tview(t@) == table_model(p, g, lg(n as nat)),
        table_ok(p, tview(t@), n as nat),
        n == pow2(lg(n as nat)),
{
    let lg_n = log2_strict(n);
    proof {
        lemma_lg_pow2(lg_n as nat);
        if lg_n == 0 {
            vstd::arithmetic::power2::lemma2_to64();
        }
        assert(lg_n >= 1);
    }
    let half_n = n / 2;
    proof {
        lemma_pow2_adds((lg_n - 1) as nat, 1);
        vstd::arithmetic::power2::lemma2_to64();
        assert(n == pow2((lg_n - 1) as nat) * 2);
        assert(half_n == pow2((lg_n - 1) as nat));
    }

    let mut nth_roots: Vec<u64> = Vec::new();
    let mut cur: u64 = 1;
    proof {
        lemma_fpow_zero(p, g);
    }
    let mut k: usize = 0;
    while k < half_n
        invariant
            k <= half_n,
            nth_roots@.len() == k,
            cur == fpow(p, g, k as nat),
            cur < p,
            forall|j: int| 0 <= j < k ==> nth_roots@[j] == fpow(p, g, j as nat),
        decreases half_n - k,
    {
        nth_roots.push(cur);
        cur = fe_mul(cur, g, p);
        k += 1;
    }

    let mut t: Vec<Vec<u64>> = Vec::new();
    let mut i: usize = 0;
    let mut step: usize = 1;
    while i < lg_n - 1
        invariant
            i <= lg_n - 1,
            t@.len() == i,
            step == pow2(i as nat),
            forall|ii: int|
                0 <= ii < i ==> (#[trigger] t@[ii])@ == table_model(p, g, lg_n as nat)[ii],
        decreases lg_n - 1 - i,
    {
        proof {
            lemma_pow2_strictly_increases(i as nat, (lg_n - 1) as nat);
            lemma_pow2_pos(i as nat);
            assert(step <= half_n);
            crate::model::lemma_pow2_divides(i as nat, (lg_n - 1) as nat);
        }
        let mut level: Vec<u64> = Vec::new();
        let mut idx: usize = 0;
        proof {
            assert(level@.len() == 0);
            assert(0int * step as int == 0);
        }
        while idx < half_n
            invariant
                step == pow2(i as nat),
                step >= 1,
                half_n == pow2((lg_n - 1) as nat),
                half_n % step == 0,
                idx == level@.len() * step,
                idx <= half_n,
                nth_roots@.len() == half_n,
                forall|j: int| 0 <= j < half_n ==> nth_roots@[j] == fpow(p, g, j as nat),
                forall|j: int|
                    0 <= j < level@.len() ==> #[trigger] level@[j] == fpow(
                        p,
                        g,
                        (j * pow2(i as nat)) as nat,
                    ),
            decreases half_n - idx,
        {
            level.push(nth_roots[idx]);
            proof {
                let c = (level@.len() - 1) as int;
                assert(idx == c * step);
                assert(level@[c] == fpow(p, g, (c * pow2(i as nat)) as nat));
                assert((c + 1) * step == c * step + step) by {
                    vstd::arithmetic::mul::lemma_mul_is_distributive_add_other_way(
                        step as int,
                        c,
                        1,
                    );
                }
                crate::model::lemma_block_bounds(half_n as int, step as int, idx as int);
                assert(idx % step == 0) by {
                    vstd::arithmetic::div_mod::lemma_mod_multiples_basic(c, step as int);
                }
            }
            idx += step;
        }
        proof {
            let target = pow2((lg_n - 1 - i) as nat) as int;
            assert(half_n as int == target * step) by {
                lemma_pow2_adds((lg_n - 1 - i) as nat, i as nat);
                vstd::arithmetic::mul::lemma_mul_is_commutative(target, step as int);
            }
            assert(level@.len() * step == target * step);
            assert(level@.len() as int == target) by (nonlinear_arith)
                requires
                    level@.len() * step == target * step,
                    step >= 1,
            {}
            assert(level@ =~= table_model(p, g, lg_n as nat)[i as int]);
        }
        t.push(level);
        step *= 2;
        proof {
            lemma_pow2_adds(i as nat, 1);
            vstd::arithmetic::power2::lemma2_to64();
        }
        i += 1;
    }
    proof {
        assert(tview(t@) =~= table_model(p, g, lg_n as nat));
        lemma_table_model_ok(p, g, lg_n as nat);
    }
    t
}

/// The twiddle table for the Goldilocks field, keyed by the transform
/// length: the generator of order `n` is obtained from the field crate.
pub fn goldilocks_roots_of_unity_table(n: usize) -> (t: Vec<Vec<u64>>)
    requires
        n >= 2,
        exists|k: nat| k <= 32 && n == pow2(k),
    ensures
        tview(t@) == table_model(
            GOLDILOCKS_P,
            goldilocks_generator(lg(n as nat) as int),
            lg(n as nat),
        ),
        table_ok(GOLDILOCKS_P, tview(t@), n as nat),
        n == pow2(lg(n as nat)),
        fpow(GOLDILOCKS_P, goldilocks_generator(lg(n as nat) as int), n as nat) == 1u64,
{
    let lg_n = log2_strict(n);
    proof {
        let k = choose|k: nat| k <= 32 && n == pow2(k);
        lemma_pow2_injective(lg_n as nat, k);
        lemma_lg_pow2(lg_n as nat);
    }
    let g = goldilocks_two_adic_generator(lg_n);
    Self::roots_of_unity_table(n, g, GOLDILOCKS_P)
}

} // impl MontyField31

} // verus!
