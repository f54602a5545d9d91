//! The butterfly: the two-input, one-twiddle atom of every transform stage.

use vstd::prelude::*;
use vstd::arithmetic::div_mod::{lemma_small_mod, lemma_mod_self_0};
use crate::field::{fmul, fe_add, fe_sub, fe_mul, lemma_fadd_zero, MontyField31};
use crate::model::{bfly_lo, bfly_hi};

verus! {

impl MontyField31 {

/// `butterfly(x, y, w) = (x + y, (x - y) * w)`, all modulo `p`; the
/// difference is brought into non-negative range before the multiply, and
/// both outputs are canonical.
pub fn forward_butterfly(x: u64, y: u64, w: u64, p: u64) -> (r: (u64, u64))
    requires
        p >= 2,
        x < p,
        y < p,
        w < p,
    ensures
        r.0 == bfly_lo(p, x, y),
        r.1 == bfly_hi(p, x, y, w),
        r.0 < p,
        r.1 < p,
{
    let s = fe_add(x, y, p);
    let d = fe_sub(x, y, p);
    let t = fe_mul(d, w, p);
    (s, t)
}

} // impl MontyField31

/// Law: a butterfly of a value with itself gives twice the value and zero,
/// whatever the twiddle.
pub proof fn lemma_butterfly_equal_inputs(p: u64, x: u64, w: u64)
    requires
        p >= 2,
        x < p,
        w < p,
    ensures
        bfly_lo(p, x, x) as int == (2 * x) % (p as int),
        bfly_hi(p, x, x, w) == 0,
{
    lemma_mod_self_0(p as int);
    assert(fmul(p, 0, w) as int == 0int % (p as int));
    lemma_small_mod(0nat, p as nat);
}

/// Law: a butterfly with a zero tail passes the head through and multiplies
/// it by the twiddle.
pub proof fn lemma_butterfly_zero_tail(p: u64, x: u64, w: u64)
    requires
        p >= 2,
        x < p,
        w < p,
    ensures
        bfly_lo(p, x, 0) == x,
        bfly_hi(p, x, 0, w) == fmul(p, x, w),
{
    lemma_fadd_zero(p, x);
}

} // verus!
