//! The transform: unrolled kernels for the small fixed sizes, the
//! breadth-first mid-size path, and the top-level dispatcher.

use vstd::prelude::*;
use vstd::arithmetic::power2::{pow2, lemma2_to64, lemma_pow2_adds};
use crate::field::{fadd, fsub, fe_add, fe_sub, fe_mul, lemma_fmul_one};
use crate::model::{
    all_below, seg, frames, bfly_lo, bfly_hi, stage, stage_blocks, dif_fft, apply_levels,
    full_levels, table_ok, tview, lemma_dif_fft_len2, lemma_kernel_glue, lemma_table_ok_drop,
    lemma_dif_fft_below, lemma_stage_blocks_single, lemma_stage_blocks_point,
    lemma_apply_levels_push, lemma_breadth_first_equals_recursive,
};
use crate::field::MontyField31;
use crate::pass::LANE_WIDTH;
use crate::table::lemma_pow2_injective;

verus! {

impl MontyField31 {

/// The size-two transform: one butterfly under the trivial root, no table.
pub fn forward_2(a: &mut Vec<u64>, off: usize, p: u64)
    requires
        p >= 2,
        off + 2 <= old(a).len(),
        forall|i: int| off <= i < off + 2 ==> old(a)@[i] < p,
    ensures
        final(a).len() == old(a).len(),
        seg(final(a)@, off as int, 2) == seq![
            fadd(p, old(a)@[off as int], old(a)@[off + 1]),
            fsub(p, old(a)@[off as int], old(a)@[off + 1]),
        ],
        frames(final(a)@, old(a)@, off as int, 2),
        forall|i: int| off <= i < off + 2 ==> final(a)@[i] < p,
{
    let x = a[off];
    let y = a[off + 1];
    let s = fe_add(x, y, p);
    let t = fe_sub(x, y, p);
    a.set(off, s);
    a.set(off + 1, t);
    proof {
        assert(seg(a@, off as int, 2) =~= seq![fadd(p, x, y), fsub(p, x, y)]);
    }
}

/// The size-four transform, expanded algebraically: `w` is the fourth root
/// of unity, supplied as a constant; the four outputs come out in
/// bit-reversed order.
pub fn forward_4(a: &mut Vec<u64>, off: usize, w: u64, p: u64)
    requires
        p >= 2,
        w < p,
        off + 4 <= old(a).len(),
        forall|i: int| off <= i < off + 4 ==> old(a)@[i] < p,
    ensures
        final(a).len() == old(a).len(),
        seg(final(a)@, off as int, 4) == dif_fft(
            p,
            seg(old(a)@, off as int, 4),
            seq![seq![1u64, w]],
        ),
        frames(final(a)@, old(a)@, off as int, 4),
        forall|i: int| off <= i < off + 4 ==> final(a)@[i] < p,
{
    let a0 = a[off];
    let a1 = a[off + 1];
    let a2 = a[off + 2];
    let a3 = a[off + 3];

    // expanding the second-stage twiddle product saves one multiply
    let t1 = fe_sub(a1, a3, p);
    let t3 = fe_mul(t1, w, p);
    let t5 = fe_add(a1, a3, p);
    let t4 = fe_add(a0, a2, p);
    let t2 = fe_sub(a0, a2, p);

    // bit-reversed output order
    a.set(off, fe_add(t4, t5, p));
    a.set(off + 1, fe_sub(t4, t5, p));
    a.set(off + 2, fe_add(t2, t3, p));
    a.set(off + 3, fe_sub(t2, t3, p));

    proof {
        let s = seg(old(a)@, off as int, 4);
        let r = seq![1u64, w];
        let ts = seq![r];
        let b = stage(p, s, r);
        assert(s[0] == a0 && s[1] == a1 && s[2] == a2 && s[3] == a3);
        assert(b[0] == bfly_lo(p, a0, a2));
        assert(b[1] == bfly_lo(p, a1, a3));
        assert(b[2] == bfly_hi(p, a0, a2, 1u64));
        assert(b[3] == bfly_hi(p, a1, a3, w));
        lemma_fmul_one(p, t2);
        assert(b[2] == t2);
        assert(b[3] == t3);
        let bl = b.take(2);
        let br = b.skip(2);
        assert(bl[0] == t4 && bl[1] == t5);
        assert(br[0] == t2 && br[1] == t3);
        lemma_dif_fft_len2(p, bl, ts.drop_first());
        lemma_dif_fft_len2(p, br, ts.drop_first());
        assert(dif_fft(p, s, ts) == dif_fft(p, bl, ts.drop_first()) + dif_fft(
            p,
            br,
            ts.drop_first(),
        ));
        assert(seg(a@, off as int, 4) =~= dif_fft(p, s, ts));
    }
}

/// The size-eight kernel: one stage, then the size-four kernel on each half.
pub fn forward_8(a: &mut Vec<u64>, off: usize, t: &Vec<Vec<u64>>, lvl: usize, p: u64)
    requires
        p >= 2,
        off + 8 <= old(a).len(),
        lvl <= t.len(),
        table_ok(p, tview(t@).skip(lvl as int), 8),
        forall|i: int| off <= i < off + 8 ==> old(a)@[i] < p,
    ensures
        final(a).len() == old(a).len(),
        seg(final(a)@, off as int, 8) == dif_fft(
            p,
            seg(old(a)@, off as int, 8),
            tview(t@).skip(lvl as int),
        ),
        frames(final(a)@, old(a)@, off as int, 8),
        forall|i: int| off <= i < off + 8 ==> final(a)@[i] < p,
{
    let ghost ts = tview(t@).skip(lvl as int);
    proof {
        lemma2_to64();
        lemma_pow2_injective((ts.len() + 1) as nat, 3);
        assert(ts.len() == 2);
        assert(ts[0] == t@[lvl as int]@);
        assert(ts[1] == t@[lvl + 1]@);
        assert(ts[0].len() == pow2(2) && ts[1].len() == pow2(1));
    }
    let roots = &t[lvl];
    Self::forward_pass(a, off, 8, roots, p);
    let ghost v1 = a@;
    let w = t[lvl + 1][1];
    proof {
        assert(w == ts[1][1] && w < p);
        lemma_table_ok_drop(p, ts, 8);
        assert(ts.drop_first() =~= seq![ts[1]]);
        assert(ts[1] =~= seq![1u64, w]);
    }
    Self::forward_4(a, off, w, p);
    let ghost v2 = a@;
    Self::forward_4(a, off + 4, w, p);
    proof {
        lemma_kernel_glue(p, old(a)@, v1, v2, a@, off as int, 8, ts);
        lemma_dif_fft_below(p, seg(old(a)@, off as int, 8), ts);
        assert(forall|i: int|
            off <= i < off + 8 ==> a@[i] == seg(a@, off as int, 8)[i - off]);
    }
}


/// The size-16 kernel: one stage, then the size-8 kernel on each half.
pub fn forward_16(a: &mut Vec<u64>, off: usize, t: &Vec<Vec<u64>>, lvl: usize, p: u64)
    requires
        p >= 2,
        off + 16 <= old(a).len(),
        lvl <= t.len(),
        table_ok(p, tview(t@).skip(lvl as int), 16),
        forall|i: int| off <= i < off + 16 ==> old(a)@[i] < p,
    ensures
        final(a).len() == old(a).len(),
        seg(final(a)@, off as int, 16) == dif_fft(
            p,
            seg(old(a)@, off as int, 16),
            tview(t@).skip(lvl as int),
        ),
        frames(final(a)@, old(a)@, off as int, 16),
        forall|i: int| off <= i < off + 16 ==> final(a)@[i] < p,
{
    let ghost ts = tview(t@).skip(lvl as int);
    proof {
        lemma2_to64();
        lemma_pow2_injective((ts.len() + 1) as nat, 4);
        assert(ts.len() == 3);
        assert(ts[0] == t@[lvl as int]@);
        assert(ts[0].len() == pow2(3));
    }
    let roots = &t[lvl];
    Self::forward_pass(a, off, 16, roots, p);
    let ghost v1 = a@;
    proof {
        lemma_table_ok_drop(p, ts, 16);
        assert(ts.drop_first() =~= tview(t@).skip(lvl as int + 1));
    }
    Self::forward_8(a, off, t, lvl + 1, p);
    let ghost v2 = a@;
    Self::forward_8(a, off + 8, t, lvl + 1, p);
    proof {
        lemma_kernel_glue(p, old(a)@, v1, v2, a@, off as int, 16, ts);
        lemma_dif_fft_below(p, seg(old(a)@, off as int, 16), ts);
        assert(forall|i: int|
            off <= i < off + 16 ==> a@[i] == seg(a@, off as int, 16)[i - off]);
    }
}


/// The size-32 kernel: one stage, then the size-16 kernel on each half.
pub fn forward_32(a: &mut Vec<u64>, off: usize, t: &Vec<Vec<u64>>, lvl: usize, p: u64)
    requires
        p >= 2,
        off + 32 <= old(a).len(),
        lvl <= t.len(),
        table_ok(p, tview(t@).skip(lvl as int), 32),
        forall|i: int| off <= i < off + 32 ==> old(a)@[i] < p,
    ensures
        final(a).len() == old(a).len(),
        seg(final(a)@, off as int, 32) == dif_fft(
            p,
            seg(old(a)@, off as int, 32),
            tview(t@).skip(lvl as int),
        ),
        frames(final(a)@, old(a)@, off as int, 32),
        forall|i: int| off <= i < off + 32 ==> final(a)@[i] < p,
{
    let ghost ts = tview(t@).skip(lvl as int);
    proof {
        lemma2_to64();
        lemma_pow2_injective((ts.len() + 1) as nat, 5);
        assert(ts.len() == 4);
        assert(ts[0] == t@[lvl as int]@);
        assert(ts[0].len() == pow2(4));
    }
    let roots = &t[lvl];
    Self::forward_pass(a, off, 32, roots, p);
    let ghost v1 = a@;
    proof {
        lemma_table_ok_drop(p, ts, 32);
        assert(ts.drop_first() =~= tview(t@).skip(lvl as int + 1));
    }
    Self::forward_16(a, off, t, lvl + 1, p);
    let ghost v2 = a@;
    Self::forward_16(a, off + 16, t, lvl + 1, p);
    proof {
        lemma_kernel_glue(p, old(a)@, v1, v2, a@, off as int, 32, ts);
        lemma_dif_fft_below(p, seg(old(a)@, off as int, 32), ts);
        assert(forall|i: int|
            off <= i < off + 32 ==> a@[i] == seg(a@, off as int, 32)[i - off]);
    }
}


/// The size-64 kernel: one stage, then the size-32 kernel on each half.
pub fn forward_64(a: &mut Vec<u64>, off: usize, t: &Vec<Vec<u64>>, lvl: usize, p: u64)
    requires
        p >= 2,
        off + 64 <= old(a).len(),
        lvl <= t.len(),
        table_ok(p, tview(t@).skip(lvl as int), 64),
        forall|i: int| off <= i < off + 64 ==> old(a)@[i] < p,
    ensures
        final(a).len() == old(a).len(),
        seg(final(a)@, off as int, 64) == dif_fft(
            p,
            seg(old(a)@, off as int, 64),
            tview(t@).skip(lvl as int),
        ),
        frames(final(a)@, old(a)@, off as int, 64),
        forall|i: int| off <= i < off + 64 ==> final(a)@[i] < p,
{
    let ghost ts = tview(t@).skip(lvl as int);
    proof {
        lemma2_to64();
        lemma_pow2_injective((ts.len() + 1) as nat, 6);
        assert(ts.len() == 5);
        assert(ts[0] == t@[lvl as int]@);
        assert(ts[0].len() == pow2(5));
    }
    let roots = &t[lvl];
    Self::forward_pass(a, off, 64, roots, p);
    let ghost v1 = a@;
    proof {
        lemma_table_ok_drop(p, ts, 64);
        assert(ts.drop_first() =~= tview(t@).skip(lvl as int + 1));
    }
    Self::forward_32(a, off, t, lvl + 1, p);
    let ghost v2 = a@;
    Self::forward_32(a, off + 32, t, lvl + 1, p);
    proof {
        lemma_kernel_glue(p, old(a)@, v1, v2, a@, off as int, 64, ts);
        lemma_dif_fft_below(p, seg(old(a)@, off as int, 64), ts);
        assert(forall|i: int|
            off <= i < off + 64 ==> a@[i] == seg(a@, off as int, 64)[i - off]);
    }
}


/// The size-128 kernel: one stage, then the size-64 kernel on each half.
pub fn forward_128(a: &mut Vec<u64>, off: usize, t: &Vec<Vec<u64>>, lvl: usize, p: u64)
    requires
        p >= 2,
        off + 128 <= old(a).len(),
        lvl <= t.len(),
        table_ok(p, tview(t@).skip(lvl as int), 128),
        forall|i: int| off <= i < off + 128 ==> old(a)@[i] < p,
    ensures
        final(a).len() == old(a).len(),
        seg(final(a)@, off as int, 128) == dif_fft(
            p,
            seg(old(a)@, off as int, 128),
            tview(t@).skip(lvl as int),
        ),
        frames(final(a)@, old(a)@, off as int, 128),
        forall|i: int| off <= i < off + 128 ==> final(a)@[i] < p,
{
    let ghost ts = tview(t@).skip(lvl as int);
    proof {
        lemma2_to64();
        lemma_pow2_injective((ts.len() + 1) as nat, 7);
        assert(ts.len() == 6);
        assert(ts[0] == t@[lvl as int]@);
        assert(ts[0].len() == pow2(6));
    }
    let roots = &t[lvl];
    Self::forward_pass(a, off, 128, roots, p);
    let ghost v1 = a@;
    proof {
        lemma_table_ok_drop(p, ts, 128);
        assert(ts.drop_first() =~= tview(t@).skip(lvl as int + 1));
    }
    Self::forward_64(a, off, t, lvl + 1, p);
    let ghost v2 = a@;
    Self::forward_64(a, off + 64, t, lvl + 1, p);
    proof {
        lemma_kernel_glue(p, old(a)@, v1, v2, a@, off as int, 128, ts);
        lemma_dif_fft_below(p, seg(old(a)@, off as int, 128), ts);
        assert(forall|i: int|
            off <= i < off + 128 ==> a@[i] == seg(a@, off as int, 128)[i - off]);
    }
}


/// The size-256 kernel: one stage, then the size-128 kernel on each half.
pub fn forward_256(a: &mut Vec<u64>, off: usize, t: &Vec<Vec<u64>>, lvl: usize, p: u64)
    requires
        p >= 2,
        off + 256 <= old(a).len(),
        lvl <= t.len(),
        table_ok(p, tview(t@).skip(lvl as int), 256),
        forall|i: int| off <= i < off + 256 ==> old(a)@[i] < p,
    ensures
        final(a).len() == old(a).len(),
        seg(final(a)@, off as int, 256) == dif_fft(
            p,
            seg(old(a)@, off as int, 256),
            tview(t@).skip(lvl as int),
        ),
        frames(final(a)@, old(a)@, off as int, 256),
        forall|i: int| off <= i < off + 256 ==> final(a)@[i] < p,
{
    let ghost ts = tview(t@).skip(lvl as int);
    proof {
        lemma2_to64();
        lemma_pow2_injective((ts.len() + 1) as nat, 8);
        assert(ts.len() == 7);
        assert(ts[0] == t@[lvl as int]@);
        assert(ts[0].len() == pow2(7));
    }
    let roots = &t[lvl];
    Self::forward_pass(a, off, 256, roots, p);
    let ghost v1 = a@;
    proof {
        lemma_table_ok_drop(p, ts, 256);
        assert(ts.drop_first() =~= tview(t@).skip(lvl as int + 1));
    }
    Self::forward_128(a, off, t, lvl + 1, p);
    let ghost v2 = a@;
    Self::forward_128(a, off + 128, t, lvl + 1, p);
    proof {
        lemma_kernel_glue(p, old(a)@, v1, v2, a@, off as int, 256, ts);
        lemma_dif_fft_below(p, seg(old(a)@, off as int, 256), ts);
        assert(forall|i: int|
            off <= i < off + 256 ==> a@[i] == seg(a@, off as int, 256)[i - off]);
    }
}

/// Breadth-first mid-size path: walks the levels from the outermost stage to
/// the innermost, taking the packed single-split and double-split executors
/// for the first two stages when the lanes fit, a scalar block walk
/// otherwise, and synthesizing the trivial root for the innermost stage.
#[verifier::rlimit(100)]
pub fn forward_small(a: &mut Vec<u64>, off: usize, n: usize, t: &Vec<Vec<u64>>, lvl: usize, p: u64)
    requires
        p >= 2,
        n >= 4,
        off + n <= old(a).len(),
        lvl <= t.len(),
        table_ok(p, tview(t@).skip(lvl as int), n as nat),
        forall|i: int| off <= i < off + n ==> old(a)@[i] < p,
    ensures
        final(a).len() == old(a).len(),
        seg(final(a)@, off as int, n as int) == dif_fft(
            p,
            seg(old(a)@, off as int, n as int),
            tview(t@).skip(lvl as int),
        ),
        frames(final(a)@, old(a)@, off as int, n as int),
        forall|i: int| off <= i < off + n ==> final(a)@[i] < p,
{
    let ghost ts = tview(t@).skip(lvl as int);
    let ghost lv = full_levels(ts);
    let ghost s_init = seg(old(a)@, off as int, n as int);
    proof {
        assert(n == pow2((ts.len() + 1) as nat));
    }
    let lg_n = crate::table::log2_strict(n);
    proof {
        lemma_pow2_injective(lg_n as nat, (ts.len() + 1) as nat);
        assert(lg_n == ts.len() + 1);
        lemma2_to64();
        if lg_n < 2 {
            vstd::arithmetic::power2::lemma_pow2_strictly_increases(lg_n as nat, 2);
        }
        assert(lg_n >= 2);
        vstd::arithmetic::power2::lemma_pow2_unfold(lg_n as nat);
        assert(apply_levels(p, s_init, lv.take(0)) == s_init) by {
            assert(lv.take(0) =~= Seq::<Seq<u64>>::empty());
        }
        assert(seg(a@, off as int, n as int) =~= s_init);
    }
    let mut s: usize = 0;
    let mut m: usize = n / 2;
    while s < lg_n
        invariant
            s <= lg_n,
            lg_n == ts.len() + 1,
            n == pow2(lg_n as nat),
            n >= 4,
            lg_n >= 2,
            off + n <= a.len(),
            m == pow2((lg_n - s) as nat) / 2,
            a.len() == old(a).len(),
            seg(a@, off as int, n as int) == apply_levels(p, s_init, lv.take(s as int)),
            forall|i: int| off <= i < off + n ==> #[trigger] a@[i] < p,
            forall|i: int|
                0 <= i < a.len() && !(off <= i < off + n) ==> #[trigger] a@[i] == old(a)@[i],
        decreases lg_n - s,
    {
        let ghost cur = seg(a@, off as int, n as int);
        proof {
            vstd::arithmetic::power2::lemma_pow2_unfold((lg_n - s) as nat);
            assert(m == pow2((lg_n - 1 - s) as nat));
            vstd::arithmetic::power2::lemma_pow2_pos((lg_n - 1 - s) as nat);
            assert(forall|i: int| 0 <= i < n ==> cur[i] == a@[off + i]);
            assert(all_below(cur, p));
            if s < lg_n - 1 {
                assert(ts[s as int].len() == pow2((ts.len() - s) as nat));
                assert(lv[s as int] == ts[s as int]);
            } else {
                assert(lv[s as int] == seq![1u64]);
            }
        }
        let ghost roots_s = lv[s as int];
        if s == 0 && LANE_WIDTH <= n / 2 {
            proof {
                if ((lg_n - 1) as nat) < 2 {
                    vstd::arithmetic::power2::lemma_pow2_strictly_increases(
                        (lg_n - 1) as nat,
                        2,
                    );
                }
                crate::model::lemma_pow2_divides(2, (lg_n - 1) as nat);
                assert(ts[0].len() == pow2((lg_n - 1) as nat) == n / 2);
                assert(t@[lvl as int]@ == ts[0]);
                crate::model::lemma_pow2_divides(1, lg_n as nat);
            }
            Self::forward_small_s0(a, off, n, &t[lvl], p);
            proof {
                lemma_stage_blocks_single(p, cur, roots_s);
            }
        } else if s == 1 && LANE_WIDTH <= n / 4 {
            proof {
                if ((lg_n - 2) as nat) < 2 {
                    vstd::arithmetic::power2::lemma_pow2_strictly_increases(
                        (lg_n - 2) as nat,
                        2,
                    );
                }
                assert(pow2((lg_n - 2) as nat) == pow2((lg_n - 1) as nat) / 2) by {
                    vstd::arithmetic::power2::lemma_pow2_unfold((lg_n - 1) as nat);
                }
                assert(ts[1].len() == pow2((lg_n - 2) as nat) == n / 4);
                crate::model::lemma_pow2_divides(2, (lg_n - 2) as nat);
                crate::model::lemma_pow2_divides(2, lg_n as nat);
                assert(t@[lvl + 1]@ == ts[1]);
            }
            Self::forward_small_s1(a, off, n, &t[lvl + 1], p);
        } else if m == 1 {
            proof {
                crate::model::lemma_pow2_divides(1, lg_n as nat);
                assert(n % 2 == 0);
                assert(s == lg_n - 1) by {
                    if s < lg_n - 1 {
                        vstd::arithmetic::power2::lemma_pow2_strictly_increases(
                            0,
                            (lg_n - 1 - s) as nat,
                        );
                    }
                }
            }
            let ghost tg = stage_blocks(p, cur, seq![1u64]);
            let mut pos: usize = 0;
            while pos < n
                invariant
                    pos <= n,
                    pos % 2 == 0,
                    n % 2 == 0,
                    off + n <= a.len(),
                    a.len() == old(a).len(),
                    p >= 2,
                    cur.len() == n,
                    all_below(cur, p),
                    tg == stage_blocks(p, cur, seq![1u64]),
                    forall|i: int| off <= i < off + pos ==> #[trigger] a@[i] == tg[i - off],
                    forall|i: int| off + pos <= i < off + n ==> #[trigger] a@[i] == cur[i - off],
                    forall|i: int|
                        0 <= i < a.len() && !(off <= i < off + n) ==> #[trigger] a@[i] == old(
                            a,
                        )@[i],
                decreases n - pos,
            {
                let x = a[off + pos];
                let y = a[off + pos + 1];
                let lo = fe_add(x, y, p);
                let hi = fe_sub(x, y, p);
                a.set(off + pos, lo);
                a.set(off + pos + 1, hi);
                proof {
                    lemma_stage_blocks_point(p, cur, seq![1u64], pos as int);
                    lemma_stage_blocks_point(p, cur, seq![1u64], pos + 1);
                    vstd::arithmetic::div_mod::lemma_small_mod(0nat, 2nat);
                    vstd::arithmetic::div_mod::lemma_mod_multiples_vanish(
                        (pos as int) / 2,
                        0,
                        2,
                    );
                    vstd::arithmetic::div_mod::lemma_fundamental_div_mod(pos as int, 2);
                    assert((pos + 1) % 2 == 1) by {
                        vstd::arithmetic::div_mod::lemma_mod_multiples_vanish(
                            (pos as int) / 2,
                            1,
                            2,
                        );
                        vstd::arithmetic::div_mod::lemma_small_mod(1nat, 2nat);
                    }
                    assert(tg[pos as int] == bfly_lo(p, cur[pos as int], cur[pos + 1]));
                    assert(tg[pos + 1] == bfly_hi(p, cur[pos as int], cur[pos + 1], 1u64));
                    assert(fsub(p, cur[pos as int], cur[pos + 1]) < p);
                    lemma_fmul_one(p, fsub(p, cur[pos as int], cur[pos + 1]));
                    assert(hi == tg[pos + 1]);
                }
                pos += 2;
                proof {
                    vstd::arithmetic::div_mod::lemma_mod_sub_multiples_vanish(pos as int, 2);
                }
            }
            proof {
                crate::model::lemma_stage_blocks_len(p, cur, seq![1u64]);
                assert forall|i: int|
                    0 <= i < n implies seg(a@, off as int, n as int)[i] == tg[i] by {
                    assert(seg(a@, off as int, n as int)[i] == a@[off + i]);
                }
                assert(seg(a@, off as int, n as int) =~= tg);
            }
        } else {
            let ghost r = ts[s as int];
            proof {
                assert(s < lg_n - 1) by {
                    if s == lg_n - 1 {
                        assert(m == pow2(0));
                        lemma2_to64();
                    }
                }
                assert(r.len() == m);
                assert(m >= 1);
                assert(t@[lvl + s]@ == ts[s as int]);
                lemma_pow2_adds((lg_n - 1 - s) as nat, 1);
                lemma2_to64();
                assert(2 * (m as int) == pow2((lg_n - s) as nat));
                if s > 0 {
                    vstd::arithmetic::power2::lemma_pow2_strictly_increases(
                        (lg_n - s) as nat,
                        lg_n as nat,
                    );
                }
                assert(2 * (m as int) <= n);
                assert(n as int % (2 * m as int) == 0) by {
                    crate::model::lemma_pow2_divides((lg_n - s) as nat, lg_n as nat);
                }
            }
            let roots = &t[lvl + s];
            let ghost tg = stage_blocks(p, cur, r);
            proof {
                crate::model::lemma_stage_blocks_len(p, cur, r);
            }
            let mut bs: usize = 0;
            while bs < n
                invariant
                    bs <= n,
                    bs as int % (2 * m as int) == 0,
                    n as int % (2 * m as int) == 0,
                    1 <= m,
                    2 * m <= n,
                    off + n <= a.len(),
                    a.len() == old(a).len(),
                    p >= 2,
                    cur.len() == n,
                    all_below(cur, p),
                    r.len() == m,
                    all_below(r, p),
                    roots@ == r,
                    tg == stage_blocks(p, cur, r),
                    tg.len() == n,
                    forall|i: int| off <= i < off + bs ==> #[trigger] a@[i] == tg[i - off],
                    forall|i: int| off + bs <= i < off + n ==> #[trigger] a@[i] == cur[i - off],
                    forall|i: int|
                        0 <= i < a.len() && !(off <= i < off + n) ==> #[trigger] a@[i] == old(
                            a,
                        )@[i],
                decreases n - bs,
            {
                proof {
                    crate::model::lemma_block_bounds(n as int, 2 * m, bs as int);
                }
                let mut k: usize = 0;
                while k < m
                    invariant
                        k <= m,
                        bs as int % (2 * m as int) == 0,
                        n as int % (2 * m as int) == 0,
                        bs + 2 * m <= n,
                        1 <= m,
                        off + n <= a.len(),
                        a.len() == old(a).len(),
                        p >= 2,
                        cur.len() == n,
                        all_below(cur, p),
                        r.len() == m,
                        all_below(r, p),
                        roots@ == r,
                        tg == stage_blocks(p, cur, r),
                        tg.len() == n,
                        forall|i: int| off <= i < off + bs ==> #[trigger] a@[i] == tg[i - off],
                        forall|i: int|
                            off + bs <= i < off + bs + k ==> #[trigger] a@[i] == tg[i - off],
                        forall|i: int|
                            off + bs + k <= i < off + bs + m ==> #[trigger] a@[i] == cur[i - off],
                        forall|i: int|
                            off + bs + m <= i < off + bs + m + k ==> #[trigger] a@[i] == tg[i
                                - off],
                        forall|i: int|
                            off + bs + m + k <= i < off + n ==> #[trigger] a@[i] == cur[i - off],
                        forall|i: int|
                            0 <= i < a.len() && !(off <= i < off + n) ==> #[trigger] a@[i] == old(
                                a,
                            )@[i],
                    decreases m - k,
                {
                    let x = a[off + bs + k];
                    let y = a[off + bs + m + k];
                    let (lo, hi) = Self::forward_butterfly(x, y, roots[k], p);
                    a.set(off + bs + k, lo);
                    a.set(off + bs + m + k, hi);
                    proof {
                        lemma_stage_blocks_point(p, cur, r, bs + k);
                        lemma_stage_blocks_point(p, cur, r, bs + m + k as int);
                        vstd::arithmetic::div_mod::lemma_fundamental_div_mod(bs as int, 2 * m);
                        vstd::arithmetic::div_mod::lemma_mod_multiples_vanish(
                            (bs as int) / (2 * m),
                            k as int,
                            2 * m,
                        );
                        vstd::arithmetic::div_mod::lemma_small_mod(k as nat, (2 * m) as nat);
                        vstd::arithmetic::div_mod::lemma_mod_multiples_vanish(
                            (bs as int) / (2 * m),
                            m + k,
                            2 * m,
                        );
                        vstd::arithmetic::div_mod::lemma_small_mod((m + k) as nat, (2 * m) as nat);
                        assert((bs + k) as int % (2 * m) == k as int);
                        assert((bs + m + k) as int % (2 * m) == m + k);
                        assert(tg[(bs + k) as int] == bfly_lo(
                            p,
                            cur[(bs + k) as int],
                            cur[(bs + m + k) as int],
                        ));
                        assert(tg[(bs + m + k) as int] == bfly_hi(
                            p,
                            cur[(bs + k) as int],
                            cur[(bs + m + k) as int],
                            r[k as int],
                        ));
                    }
                    k += 1;
                }
                bs += 2 * m;
                proof {
                    vstd::arithmetic::div_mod::lemma_mod_sub_multiples_vanish(bs as int, 2 * m);
                }
            }
            proof {
                assert forall|i: int|
                    0 <= i < n implies seg(a@, off as int, n as int)[i] == tg[i] by {
                    assert(seg(a@, off as int, n as int)[i] == a@[off + i]);
                }
                assert(seg(a@, off as int, n as int) =~= tg);
            }
        }
        proof {
            assert(lv.take(s as int + 1) =~= lv.take(s as int).push(lv[s as int]));
            lemma_apply_levels_push(p, s_init, lv.take(s as int), lv[s as int]);
            assert(seg(a@, off as int, n as int) == stage_blocks(p, cur, roots_s));
            assert(seg(a@, off as int, n as int) == apply_levels(
                p,
                s_init,
                lv.take(s as int + 1),
            ));
            crate::model::lemma_stage_blocks_below(p, cur, roots_s);
            crate::model::lemma_stage_blocks_len(p, cur, roots_s);
            assert(forall|i: int|
                off <= i < off + n ==> a@[i] == seg(a@, off as int, n as int)[i - off]);
        }
        m = m / 2;
        s += 1;
    }
    proof {
        assert(lv.take(lg_n as int) =~= lv);
        lemma_breadth_first_equals_recursive(p, s_init, ts);
    }
}

/// Recursive dispatcher over a window: the trivial length-one case, the
/// breadth-first path for mid sizes, the unrolled kernels for the small
/// fixed sizes, and otherwise one stage plus recursion into the two halves
/// with the table's first level dropped.
fn fft_rec(a: &mut Vec<u64>, off: usize, n: usize, t: &Vec<Vec<u64>>, lvl: usize, p: u64)
    requires
        p >= 2,
        n >= 1,
        off + n <= old(a).len(),
        n > 1 ==> lvl <= t.len() && table_ok(p, tview(t@).skip(lvl as int), n as nat),
        forall|i: int| off <= i < off + n ==> old(a)@[i] < p,
    ensures
        final(a).len() == old(a).len(),
        seg(final(a)@, off as int, n as int) == dif_fft(
            p,
            seg(old(a)@, off as int, n as int),
            tview(t@).skip(lvl as int),
        ),
        frames(final(a)@, old(a)@, off as int, n as int),
        forall|i: int| off <= i < off + n ==> final(a)@[i] < p,
    decreases n,
{
    let ghost ts = tview(t@).skip(lvl as int);
    if n == 1 {
        proof {
            assert(seg(a@, off as int, 1) =~= seg(old(a)@, off as int, 1));
            assert(forall|i: int|
                off <= i < off + 1 ==> a@[i] == seg(a@, off as int, 1)[i - off]);
        }
        return;
    }
    proof {
        assert(n == pow2((ts.len() + 1) as nat));
        lemma2_to64();
        if n > 2 {
            if ts.len() == 0 {
                assert(n == pow2(1));
            }
            assert(ts.len() >= 1);
            if ts.len() + 1 == 2 {
                assert(n == pow2(2));
            } else {
                vstd::arithmetic::power2::lemma_pow2_strictly_increases(2, (ts.len() + 1) as nat);
            }
            assert(n >= 4);
        }
    }
    if n > 2 && n <= 1024 {
        Self::forward_small(a, off, n, t, lvl, p);
        return;
    }
    match n {
        256 => Self::forward_256(a, off, t, lvl, p),
        128 => Self::forward_128(a, off, t, lvl, p),
        64 => Self::forward_64(a, off, t, lvl, p),
        32 => Self::forward_32(a, off, t, lvl, p),
        16 => Self::forward_16(a, off, t, lvl, p),
        8 => Self::forward_8(a, off, t, lvl, p),
        4 => {
            proof {
                lemma_pow2_injective((ts.len() + 1) as nat, 2);
                assert(ts.len() == 1);
                assert(ts[0] == t@[lvl as int]@);
                assert(ts[0].len() == pow2(1));
            }
            let w = t[lvl][1];
            proof {
                assert(w == ts[0][1] && w < p);
                assert(ts[0] =~= seq![1u64, w]);
                assert(ts =~= seq![seq![1u64, w]]);
            }
            Self::forward_4(a, off, w, p);
        },
        2 => {
            let ghost s0 = seg(old(a)@, off as int, 2);
            Self::forward_2(a, off, p);
            proof {
                assert(s0[0] == old(a)@[off as int] && s0[1] == old(a)@[off + 1]);
                lemma_dif_fft_len2(p, s0, ts);
            }
        },
        _ => {
            proof {
                assert(n > 1024);
                assert(ts[0] == t@[lvl as int]@);
                assert(ts[0].len() == pow2(ts.len() as nat));
                assert(2 * (pow2(ts.len() as nat) as int) == pow2((ts.len() + 1) as nat)) by {
                    lemma_pow2_adds(ts.len() as nat, 1);
                }
                assert(n / 2 == pow2(ts.len() as nat));
                assert((n / 2) as int % (LANE_WIDTH as int) == 0) by {
                    if (ts.len() as nat) < 2 {
                        vstd::arithmetic::power2::lemma_pow2_strictly_increases(
                            ts.len() as nat,
                            2,
                        );
                    }
                    crate::model::lemma_pow2_divides(2, ts.len() as nat);
                }
                crate::model::lemma_pow2_divides(1, (ts.len() + 1) as nat);
            }
            Self::forward_pass(a, off, n, &t[lvl], p);
            let ghost v1 = a@;
            proof {
                lemma_table_ok_drop(p, ts, n as nat);
                assert(ts.drop_first() =~= tview(t@).skip(lvl as int + 1));
            }
            Self::fft_rec(a, off, n / 2, t, lvl + 1, p);
            let ghost v2 = a@;
            Self::fft_rec(a, off + n / 2, n / 2, t, lvl + 1, p);
            proof {
                lemma_kernel_glue(p, old(a)@, v1, v2, a@, off as int, n as int, ts);
                lemma_dif_fft_below(p, seg(old(a)@, off as int, n as int), ts);
                assert(forall|i: int|
                    off <= i < off + n ==> a@[i] == seg(a@, off as int, n as int)[i - off]);
            }
        },
    }
}

/// The in-place forward transform: length one is a no-op; otherwise the
/// buffer's length must be `2^(levels + 1)` for the supplied table, and the
/// result is the decimation-in-frequency transform, in bit-reversed order.
pub fn forward_fft(a: &mut Vec<u64>, root_table: &Vec<Vec<u64>>, p: u64)
    requires
        p >= 2,
        all_below(old(a)@, p),
        old(a).len() > 1 ==> table_ok(p, tview(root_table@), old(a).len() as nat),
    ensures
        final(a).len() == old(a).len(),
        final(a)@ == dif_fft(p, old(a)@, tview(root_table@)),
        all_below(final(a)@, p),
{
    let n = a.len();
    if n <= 1 {
        return;
    }
    proof {
        assert(tview(root_table@).skip(0) =~= tview(root_table@));
    }
    Self::fft_rec(a, 0, n, root_table, 0, p);
    proof {
        assert(seg(a@, 0, n as int) =~= a@);
        assert(seg(old(a)@, 0, n as int) =~= old(a)@);
        assert(forall|i: int| 0 <= i < n ==> a@[i] == seg(a@, 0, n as int)[i]);
    }
}

} // impl MontyField31

} // verus!
