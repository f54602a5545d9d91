//! Stage executors: one butterfly stage across a half-split window.
//!
//! Each executor has a lane-packed path (fixed-width lanes processed as a
//! unit) and a scalar path; both are proved equal to the same `stage` /
//! `stage_blocks` model, so the choice of path is never observable.

use vstd::prelude::*;
use vstd::arithmetic::div_mod::{
    lemma_small_mod, lemma_mod_multiples_basic, lemma_mod_sub_multiples_vanish,
};
use crate::field::{fe_add, fe_sub, lemma_fmul_one};
use crate::field::MontyField31;
use crate::model::{
    all_below, seg, frames, bfly_lo, bfly_hi, stage, stage_blocks, lemma_stage_blocks_len,
    lemma_stage_blocks_point, lemma_stage_blocks_below,
};

verus! {

/// Number of field elements a vector lane holds.
pub const LANE_WIDTH: usize = 4;

/// One packed butterfly: combines the lane at `x_off` with the lane at
/// `y_off` under the lane of twiddles at `r_off`, element-wise.
fn lane_butterfly(
    a: &mut Vec<u64>,
    x_off: usize,
    y_off: usize,
    roots: &Vec<u64>,
    r_off: usize,
    p: u64,
)
    requires
        p >= 2,
        x_off + LANE_WIDTH <= y_off,
        y_off + LANE_WIDTH <= old(a).len(),
        r_off + LANE_WIDTH <= roots.len(),
        forall|i: int| x_off <= i < x_off + LANE_WIDTH ==> old(a)@[i] < p,
        forall|i: int| y_off <= i < y_off + LANE_WIDTH ==> old(a)@[i] < p,
        all_below(roots@, p),
    ensures
        final(a).len() == old(a).len(),
        forall|i: int|
            x_off <= i < x_off + LANE_WIDTH ==> #[trigger] final(a)@[i] == bfly_lo(
                p,
                old(a)@[i],
                old(a)@[i - x_off + y_off],
            ),
        forall|i: int|
            y_off <= i < y_off + LANE_WIDTH ==> #[trigger] final(a)@[i] == bfly_hi(
                p,
                old(a)@[i - y_off + x_off],
                old(a)@[i],
                roots@[i - y_off + r_off],
            ),
        forall|i: int|
            0 <= i < final(a).len() && !(x_off <= i < x_off + LANE_WIDTH) && !(y_off <= i < y_off
                + LANE_WIDTH) ==> #[trigger] final(a)@[i] == old(a)@[i],
{
    let mut j: usize = 0;
    while j < LANE_WIDTH
        invariant
            j <= LANE_WIDTH,
            a.len() == old(a).len(),
            forall|i: int|
                x_off <= i < x_off + j ==> #[trigger] a@[i] == bfly_lo(
                    p,
                    old(a)@[i],
                    old(a)@[i - x_off + y_off],
                ),
            forall|i: int|
                y_off <= i < y_off + j ==> #[trigger] a@[i] == bfly_hi(
                    p,
                    old(a)@[i - y_off + x_off],
                    old(a)@[i],
                    roots@[i - y_off + r_off],
                ),
            forall|i: int|
                0 <= i < a.len() && !(x_off <= i < x_off + j) && !(y_off <= i < y_off + j)
                    ==> #[trigger] a@[i] == old(a)@[i],
        decreases LANE_WIDTH - j,
    {
        let x = a[x_off + j];
        let y = a[y_off + j];
        let (lo, hi) = MontyField31::forward_butterfly(x, y, roots[r_off + j], p);
        a.set(x_off + j, lo);
        a.set(y_off + j, hi);
        j += 1;
    }
}

impl MontyField31 {

/// One full stage over the window of `n` entries at `off`: element `k` of
/// the top half is combined with element `k` of the tail under twiddle `k`.
/// Takes the lane-packed path when the half fills at least one lane, else
/// the scalar path; the first scalar index exploits that its twiddle is one.
#[verifier::rlimit(100)]
pub fn forward_pass(a: &mut Vec<u64>, off: usize, n: usize, roots: &Vec<u64>, p: u64)
    requires
        p >= 2,
        n >= 2,
        n % 2 == 0,
        off + n <= old(a).len(),
        roots.len() == n / 2,
        all_below(roots@, p),
        roots@[0] == 1u64,
        n / 2 >= LANE_WIDTH ==> (n / 2) % LANE_WIDTH == 0,
        forall|i: int| off <= i < off + n ==> old(a)@[i] < p,
    ensures
        final(a).len() == old(a).len(),
        seg(final(a)@, off as int, n as int) == stage(
            p,
            seg(old(a)@, off as int, n as int),
            roots@,
        ),
        frames(final(a)@, old(a)@, off as int, n as int),
        forall|i: int| off <= i < off + n ==> final(a)@[i] < p,
{
    let m = n / 2;
    let ghost s0 = seg(old(a)@, off as int, n as int);
    let ghost target = stage(p, s0, roots@);
    proof {
        assert(forall|i: int| off <= i < off + n ==> s0[i - off] == old(a)@[i]);
    }
    if m >= LANE_WIDTH {
        let mut k: usize = 0;
        while k < m
            invariant
                k <= m,
                k % LANE_WIDTH == 0,
                a.len() == old(a).len(),
                forall|i: int| off <= i < off + k ==> #[trigger] a@[i] == target[i - off],
                forall|i: int| off + m <= i < off + m + k ==> #[trigger] a@[i] == target[i - off],
                forall|i: int| off + k <= i < off + m ==> #[trigger] a@[i] == old(a)@[i],
                forall|i: int| off + m + k <= i < off + n ==> #[trigger] a@[i] == old(a)@[i],
                forall|i: int|
                    0 <= i < a.len() && !(off <= i < off + n) ==> #[trigger] a@[i] == old(a)@[i],
            decreases m - k,
        {
            proof {
                crate::model::lemma_block_bounds(m as int, LANE_WIDTH as int, k as int);
            }
            lane_butterfly(a, off + k, off + m + k, roots, k, p);
            proof {
                assert forall|i: int| off <= i < off + k + LANE_WIDTH implies #[trigger] a@[i]
                    == target[i - off] by {
                    if off + k <= i {
                        assert(a@[i] == bfly_lo(p, old(a)@[i], old(a)@[i + m]));
                        assert(target[i - off] == bfly_lo(p, s0[i - off], s0[i - off + m]));
                    }
                }
                assert forall|i: int|
                    off + m <= i < off + m + k + LANE_WIDTH implies #[trigger] a@[i] == target[i
                    - off] by {
                    if off + m + k <= i {
                        assert(a@[i] == bfly_hi(
                            p,
                            old(a)@[i - m],
                            old(a)@[i],
                            roots@[i - off - m],
                        ));
                        assert(target[i - off] == bfly_hi(
                            p,
                            s0[i - off - m],
                            s0[i - off],
                            roots@[i - off - m],
                        ));
                    }
                }
            }
            k += LANE_WIDTH;
            proof {
                vstd::arithmetic::div_mod::lemma_mod_sub_multiples_vanish(
                    k as int,
                    LANE_WIDTH as int,
                );
            }
        }
        proof {
            assert forall|i: int|
                0 <= i < n implies seg(a@, off as int, n as int)[i] == target[i] by {
                assert(seg(a@, off as int, n as int)[i] == a@[off + i]);
            }
            assert(seg(a@, off as int, n as int) =~= target);
        }
    } else {
        let x0 = a[off];
        let y0 = a[off + m];
        let lo0 = fe_add(x0, y0, p);
        let hi0 = fe_sub(x0, y0, p);
        a.set(off, lo0);
        a.set(off + m, hi0);
        proof {
            lemma_fmul_one(p, hi0);
            assert(target[m as int] == bfly_hi(p, s0[0], s0[m as int], 1u64));
            assert(a@[off as int] == target[0]);
            assert(a@[off + m] == target[m as int]);
        }
        let mut k: usize = 1;
        while k < m
            invariant
                1 <= k <= m,
                a.len() == old(a).len(),
                forall|i: int| off <= i < off + k ==> #[trigger] a@[i] == target[i - off],
                forall|i: int| off + m <= i < off + m + k ==> #[trigger] a@[i] == target[i - off],
                forall|i: int| off + k <= i < off + m ==> #[trigger] a@[i] == old(a)@[i],
                forall|i: int| off + m + k <= i < off + n ==> #[trigger] a@[i] == old(a)@[i],
                forall|i: int|
                    0 <= i < a.len() && !(off <= i < off + n) ==> #[trigger] a@[i] == old(a)@[i],
            decreases m - k,
        {
            let x = a[off + k];
            let y = a[off + m + k];
            let (lo, hi) = MontyField31::forward_butterfly(x, y, roots[k], p);
            a.set(off + k, lo);
            a.set(off + m + k, hi);
            proof {
                assert(target[k as int] == bfly_lo(p, s0[k as int], s0[k + m]));
                assert(target[(k + m) as int] == bfly_hi(
                    p,
                    s0[k as int],
                    s0[k + m],
                    roots@[k as int],
                ));
            }
            k += 1;
        }
        proof {
            assert forall|i: int|
                0 <= i < n implies seg(a@, off as int, n as int)[i] == target[i] by {
                assert(seg(a@, off as int, n as int)[i] == a@[off + i]);
            }
            assert(seg(a@, off as int, n as int) =~= target);
        }
    }
    proof {
        crate::model::lemma_stage_below(p, s0, roots@);
        assert(forall|i: int|
            off <= i < off + n ==> a@[i] == seg(a@, off as int, n as int)[i - off]);
    }
}

/// The packed variant of the outermost stage (one block over the whole
/// window): every pair is combined lane by lane, the trivial first twiddle
/// multiplied like any other.
#[verifier::rlimit(100)]
pub fn forward_small_s0(a: &mut Vec<u64>, off: usize, n: usize, roots: &Vec<u64>, p: u64)
    requires
        p >= 2,
        n >= 2,
        n % 2 == 0,
        off + n <= old(a).len(),
        roots.len() == n / 2,
        all_below(roots@, p),
        n / 2 >= LANE_WIDTH,
        (n / 2) % LANE_WIDTH == 0,
        forall|i: int| off <= i < off + n ==> old(a)@[i] < p,
    ensures
        final(a).len() == old(a).len(),
        seg(final(a)@, off as int, n as int) == stage(
            p,
            seg(old(a)@, off as int, n as int),
            roots@,
        ),
        frames(final(a)@, old(a)@, off as int, n as int),
        forall|i: int| off <= i < off + n ==> final(a)@[i] < p,
{
    let m = n / 2;
    let ghost s0 = seg(old(a)@, off as int, n as int);
    let ghost target = stage(p, s0, roots@);
    proof {
        assert(forall|i: int| off <= i < off + n ==> s0[i - off] == old(a)@[i]);
    }
    let mut k: usize = 0;
    while k < m
        invariant
            k <= m,
            k % LANE_WIDTH == 0,
            a.len() == old(a).len(),
            forall|i: int| off <= i < off + k ==> #[trigger] a@[i] == target[i - off],
            forall|i: int| off + m <= i < off + m + k ==> #[trigger] a@[i] == target[i - off],
            forall|i: int| off + k <= i < off + m ==> #[trigger] a@[i] == old(a)@[i],
            forall|i: int| off + m + k <= i < off + n ==> #[trigger] a@[i] == old(a)@[i],
            forall|i: int|
                0 <= i < a.len() && !(off <= i < off + n) ==> #[trigger] a@[i] == old(a)@[i],
        decreases m - k,
    {
        proof {
            crate::model::lemma_block_bounds(m as int, LANE_WIDTH as int, k as int);
        }
        lane_butterfly(a, off + k, off + m + k, roots, k, p);
        proof {
            assert forall|i: int| off <= i < off + k + LANE_WIDTH implies #[trigger] a@[i]
                == target[i - off] by {
                if off + k <= i {
                    assert(a@[i] == bfly_lo(p, old(a)@[i], old(a)@[i + m]));
                    assert(target[i - off] == bfly_lo(p, s0[i - off], s0[i - off + m]));
                }
            }
            assert forall|i: int|
                off + m <= i < off + m + k + LANE_WIDTH implies #[trigger] a@[i] == target[i
                - off] by {
                if off + m + k <= i {
                    assert(a@[i] == bfly_hi(p, old(a)@[i - m], old(a)@[i], roots@[i - off - m]));
                    assert(target[i - off] == bfly_hi(
                        p,
                        s0[i - off - m],
                        s0[i - off],
                        roots@[i - off - m],
                    ));
                }
            }
        }
        k += LANE_WIDTH;
        proof {
            lemma_mod_sub_multiples_vanish(k as int, LANE_WIDTH as int);
        }
    }
    proof {
        assert forall|i: int|
            0 <= i < n implies seg(a@, off as int, n as int)[i] == target[i] by {
            assert(seg(a@, off as int, n as int)[i] == a@[off + i]);
        }
        assert(seg(a@, off as int, n as int) =~= target);
        crate::model::lemma_stage_below(p, s0, roots@);
        assert(forall|i: int|
            off <= i < off + n ==> a@[i] == seg(a@, off as int, n as int)[i - off]);
    }
}

/// The scalar reference variant of the outermost stage; kept beside the
/// packed one as its correctness oracle, with the identical contract.
pub fn scalar_small_s0(a: &mut Vec<u64>, off: usize, n: usize, roots: &Vec<u64>, p: u64)
    requires
        p >= 2,
        n >= 2,
        n % 2 == 0,
        off + n <= old(a).len(),
        roots.len() == n / 2,
        all_below(roots@, p),
        forall|i: int| off <= i < off + n ==> old(a)@[i] < p,
    ensures
        final(a).len() == old(a).len(),
        seg(final(a)@, off as int, n as int) == stage(
            p,
            seg(old(a)@, off as int, n as int),
            roots@,
        ),
        frames(final(a)@, old(a)@, off as int, n as int),
        forall|i: int| off <= i < off + n ==> final(a)@[i] < p,
{
    let m = n / 2;
    let ghost s0 = seg(old(a)@, off as int, n as int);
    let ghost target = stage(p, s0, roots@);
    proof {
        assert(forall|i: int| off <= i < off + n ==> s0[i - off] == old(a)@[i]);
    }
    let mut k: usize = 0;
    while k < m
        invariant
            k <= m,
            a.len() == old(a).len(),
            forall|i: int| off <= i < off + k ==> #[trigger] a@[i] == target[i - off],
            forall|i: int| off + m <= i < off + m + k ==> #[trigger] a@[i] == target[i - off],
            forall|i: int| off + k <= i < off + m ==> #[trigger] a@[i] == old(a)@[i],
            forall|i: int| off + m + k <= i < off + n ==> #[trigger] a@[i] == old(a)@[i],
            forall|i: int|
                0 <= i < a.len() && !(off <= i < off + n) ==> #[trigger] a@[i] == old(a)@[i],
        decreases m - k,
    {
        let x = a[off + k];
        let y = a[off + m + k];
        let (lo, hi) = MontyField31::forward_butterfly(x, y, roots[k], p);
        a.set(off + k, lo);
        a.set(off + m + k, hi);
        proof {
            assert(target[k as int] == bfly_lo(p, s0[k as int], s0[k + m]));
            assert(target[(k + m) as int] == bfly_hi(p, s0[k as int], s0[k + m], roots@[k as int]));
        }
        k += 1;
    }
    proof {
        assert forall|i: int|
            0 <= i < n implies seg(a@, off as int, n as int)[i] == target[i] by {
            assert(seg(a@, off as int, n as int)[i] == a@[off + i]);
        }
        assert(seg(a@, off as int, n as int) =~= target);
        crate::model::lemma_stage_below(p, s0, roots@);
        assert(forall|i: int|
            off <= i < off + n ==> a@[i] == seg(a@, off as int, n as int)[i - off]);
    }
}

/// The packed variant of the second stage, fused: the window is split into
/// two half-blocks, each split again into quarters, and one pass over the
/// lanes drives both halves' butterflies with the same twiddle lane.
#[verifier::rlimit(100)]
pub fn forward_small_s1(a: &mut Vec<u64>, off: usize, n: usize, roots: &Vec<u64>, p: u64)
    requires
        p >= 2,
        n >= 4,
        n % 4 == 0,
        off + n <= old(a).len(),
        roots.len() == n / 4,
        all_below(roots@, p),
        n / 4 >= LANE_WIDTH,
        (n / 4) % LANE_WIDTH == 0,
        forall|i: int| off <= i < off + n ==> old(a)@[i] < p,
    ensures
        final(a).len() == old(a).len(),
        seg(final(a)@, off as int, n as int) == stage_blocks(
            p,
            seg(old(a)@, off as int, n as int),
            roots@,
        ),
        frames(final(a)@, old(a)@, off as int, n as int),
        forall|i: int| off <= i < off + n ==> final(a)@[i] < p,
{
    let q = n / 4;
    let ghost s0 = seg(old(a)@, off as int, n as int);
    let ghost target = stage_blocks(p, s0, roots@);
    proof {
        assert(forall|i: int| off <= i < off + n ==> s0[i - off] == old(a)@[i]);
        lemma_stage_blocks_len(p, s0, roots@);
        assert(s0.len() == 2 * (2 * roots@.len()));
        lemma_mod_multiples_basic(2, 2 * roots@.len() as int);
        assert forall|i: int|
            0 <= i < n implies (i < q ==> #[trigger] target[i] == bfly_lo(p, s0[i], s0[i + q])) && (
        q <= i < 2 * q ==> target[i] == bfly_hi(p, s0[i - q], s0[i], roots@[i - q])) && (2 * q <= i
            < 3 * q ==> target[i] == bfly_lo(p, s0[i], s0[i + q])) && (3 * q <= i ==> target[i]
            == bfly_hi(p, s0[i - q], s0[i], roots@[i - 3 * q])) by {
            lemma_stage_blocks_point(p, s0, roots@, i);
            if i < 2 * q {
                lemma_small_mod(i as nat, (2 * q) as nat);
            } else {
                lemma_mod_sub_multiples_vanish(i, 2 * q as int);
                lemma_small_mod((i - 2 * q) as nat, (2 * q) as nat);
            }
        }
    }
    let mut k: usize = 0;
    while k < q
        invariant
            k <= q,
            k % LANE_WIDTH == 0,
            a.len() == old(a).len(),
            forall|i: int| off <= i < off + k ==> #[trigger] a@[i] == target[i - off],
            forall|i: int| off + q <= i < off + q + k ==> #[trigger] a@[i] == target[i - off],
            forall|i: int|
                off + 2 * q <= i < off + 2 * q + k ==> #[trigger] a@[i] == target[i - off],
            forall|i: int|
                off + 3 * q <= i < off + 3 * q + k ==> #[trigger] a@[i] == target[i - off],
            forall|i: int| off + k <= i < off + q ==> #[trigger] a@[i] == old(a)@[i],
            forall|i: int| off + q + k <= i < off + 2 * q ==> #[trigger] a@[i] == old(a)@[i],
            forall|i: int| off + 2 * q + k <= i < off + 3 * q ==> #[trigger] a@[i] == old(a)@[i],
            forall|i: int| off + 3 * q + k <= i < off + n ==> #[trigger] a@[i] == old(a)@[i],
            forall|i: int|
                0 <= i < a.len() && !(off <= i < off + n) ==> #[trigger] a@[i] == old(a)@[i],
        decreases q - k,
    {
        proof {
            crate::model::lemma_block_bounds(q as int, LANE_WIDTH as int, k as int);
        }
        lane_butterfly(a, off + k, off + q + k, roots, k, p);
        let ghost mid = a@;
        proof {
            assert forall|i: int|
                off + 2 * q + k <= i < off + 2 * q + k + LANE_WIDTH implies a@[i] < p by {
                assert(a@[i] == old(a)@[i]);
            }
            assert forall|i: int|
                off + 3 * q + k <= i < off + 3 * q + k + LANE_WIDTH implies a@[i] < p by {
                assert(a@[i] == old(a)@[i]);
            }
        }
        lane_butterfly(a, off + 2 * q + k, off + 3 * q + k, roots, k, p);
        proof {
            assert forall|i: int| off <= i < off + k + LANE_WIDTH implies #[trigger] a@[i]
                == target[i - off] by {
                assert(a@[i] == mid[i]);
                if off + k <= i {
                    assert(mid[i] == bfly_lo(p, old(a)@[i], old(a)@[i + q]));
                }
            }
            assert forall|i: int|
                off + q <= i < off + q + k + LANE_WIDTH implies #[trigger] a@[i] == target[i
                - off] by {
                assert(a@[i] == mid[i]);
                if off + q + k <= i {
                    assert(mid[i] == bfly_hi(p, old(a)@[i - q], old(a)@[i], roots@[i - off - q]));
                }
            }
            assert forall|i: int|
                off + 2 * q <= i < off + 2 * q + k + LANE_WIDTH implies #[trigger] a@[i] == target[i
                - off] by {
                if off + 2 * q + k <= i {
                    assert(a@[i] == bfly_lo(p, mid[i], mid[i + q]));
                    assert(mid[i] == old(a)@[i]);
                    assert(mid[i + q] == old(a)@[i + q]);
                } else {
                    assert(a@[i] == mid[i]);
                }
            }
            assert forall|i: int|
                off + 3 * q <= i < off + 3 * q + k + LANE_WIDTH implies #[trigger] a@[i] == target[i
                - off] by {
                if off + 3 * q + k <= i {
                    assert(a@[i] == bfly_hi(p, mid[i - q], mid[i], roots@[i - off - 3 * q]));
                    assert(mid[i - q] == old(a)@[i - q]);
                    assert(mid[i] == old(a)@[i]);
                } else {
                    assert(a@[i] == mid[i]);
                }
            }
            assert forall|i: int|
                off + k + LANE_WIDTH <= i < off + q implies #[trigger] a@[i] == old(a)@[i] by {
                assert(a@[i] == mid[i]);
            }
            assert forall|i: int|
                off + q + k + LANE_WIDTH <= i < off + 2 * q implies #[trigger] a@[i] == old(
                    a,
                )@[i] by {
                assert(a@[i] == mid[i]);
            }
            assert forall|i: int|
                off + 2 * q + k + LANE_WIDTH <= i < off + 3 * q implies #[trigger] a@[i] == old(
                    a,
                )@[i] by {
                assert(a@[i] == mid[i]);
            }
            assert forall|i: int|
                off + 3 * q + k + LANE_WIDTH <= i < off + n implies #[trigger] a@[i] == old(
                    a,
                )@[i] by {
                assert(a@[i] == mid[i]);
            }
        }
        k += LANE_WIDTH;
        proof {
            lemma_mod_sub_multiples_vanish(k as int, LANE_WIDTH as int);
        }
    }
    proof {
        assert forall|i: int|
            0 <= i < n implies seg(a@, off as int, n as int)[i] == target[i] by {
            assert(seg(a@, off as int, n as int)[i] == a@[off + i]);
        }
        assert(seg(a@, off as int, n as int) =~= target);
        lemma_stage_blocks_below(p, s0, roots@);
        assert(forall|i: int|
            off <= i < off + n ==> a@[i] == seg(a@, off as int, n as int)[i - off]);
    }
}

/// The scalar reference variant of the fused second stage: the two
/// half-blocks are walked one after the other, with the identical contract.
#[verifier::rlimit(100)]
pub fn scalar_small_s1(a: &mut Vec<u64>, off: usize, n: usize, roots: &Vec<u64>, p: u64)
    requires
        p >= 2,
        n >= 4,
        n % 4 == 0,
        off + n <= old(a).len(),
        roots.len() == n / 4,
        all_below(roots@, p),
        forall|i: int| off <= i < off + n ==> old(a)@[i] < p,
    ensures
        final(a).len() == old(a).len(),
        seg(final(a)@, off as int, n as int) == stage_blocks(
            p,
            seg(old(a)@, off as int, n as int),
            roots@,
        ),
        frames(final(a)@, old(a)@, off as int, n as int),
        forall|i: int| off <= i < off + n ==> final(a)@[i] < p,
{
    let q = n / 4;
    let ghost s0 = seg(old(a)@, off as int, n as int);
    let ghost target = stage_blocks(p, s0, roots@);
    proof {
        assert(forall|i: int| off <= i < off + n ==> s0[i - off] == old(a)@[i]);
        lemma_stage_blocks_len(p, s0, roots@);
        assert(s0.len() == 2 * (2 * roots@.len()));
        lemma_mod_multiples_basic(2, 2 * roots@.len() as int);
        assert forall|i: int|
            0 <= i < n implies (i < q ==> #[trigger] target[i] == bfly_lo(p, s0[i], s0[i + q])) && (
        q <= i < 2 * q ==> target[i] == bfly_hi(p, s0[i - q], s0[i], roots@[i - q])) && (2 * q <= i
            < 3 * q ==> target[i] == bfly_lo(p, s0[i], s0[i + q])) && (3 * q <= i ==> target[i]
            == bfly_hi(p, s0[i - q], s0[i], roots@[i - 3 * q])) by {
            lemma_stage_blocks_point(p, s0, roots@, i);
            if i < 2 * q {
                lemma_small_mod(i as nat, (2 * q) as nat);
            } else {
                lemma_mod_sub_multiples_vanish(i, 2 * q as int);
                lemma_small_mod((i - 2 * q) as nat, (2 * q) as nat);
            }
        }
    }
    let mut k: usize = 0;
    while k < q
        invariant
            k <= q,
            a.len() == old(a).len(),
            forall|i: int| off <= i < off + k ==> #[trigger] a@[i] == target[i - off],
            forall|i: int| off + q <= i < off + q + k ==> #[trigger] a@[i] == target[i - off],
            forall|i: int| off + k <= i < off + q ==> #[trigger] a@[i] == old(a)@[i],
            forall|i: int| off + q + k <= i < off + n ==> #[trigger] a@[i] == old(a)@[i],
            forall|i: int|
                0 <= i < a.len() && !(off <= i < off + n) ==> #[trigger] a@[i] == old(a)@[i],
        decreases q - k,
    {
        let x = a[off + k];
        let y = a[off + q + k];
        let (lo, hi) = MontyField31::forward_butterfly(x, y, roots[k], p);
        a.set(off + k, lo);
        a.set(off + q + k, hi);
        k += 1;
    }
    let mut k2: usize = 0;
    while k2 < q
        invariant
            k2 <= q,
            a.len() == old(a).len(),
            forall|i: int| off <= i < off + 2 * q ==> #[trigger] a@[i] == target[i - off],
            forall|i: int|
                off + 2 * q <= i < off + 2 * q + k2 ==> #[trigger] a@[i] == target[i - off],
            forall|i: int|
                off + 3 * q <= i < off + 3 * q + k2 ==> #[trigger] a@[i] == target[i - off],
            forall|i: int| off + 2 * q + k2 <= i < off + 3 * q ==> #[trigger] a@[i] == old(a)@[i],
            forall|i: int| off + 3 * q + k2 <= i < off + n ==> #[trigger] a@[i] == old(a)@[i],
            forall|i: int|
                0 <= i < a.len() && !(off <= i < off + n) ==> #[trigger] a@[i] == old(a)@[i],
        decreases q - k2,
    {
        let x = a[off + 2 * q + k2];
        let y = a[off + 3 * q + k2];
        let (lo, hi) = MontyField31::forward_butterfly(x, y, roots[k2], p);
        a.set(off + 2 * q + k2, lo);
        a.set(off + 3 * q + k2, hi);
        k2 += 1;
    }
    proof {
        assert forall|i: int|
            0 <= i < n implies seg(a@, off as int, n as int)[i] == target[i] by {
            assert(seg(a@, off as int, n as int)[i] == a@[off + i]);
        }
        assert(seg(a@, off as int, n as int) =~= target);
        lemma_stage_blocks_below(p, s0, roots@);
        assert(forall|i: int|
            off <= i < off + n ==> a@[i] == seg(a@, off as int, n as int)[i - off]);
    }
}

} // impl MontyField31

} // verus!
