//! Mathematical model of the transform.
//!
//! `dif_fft` is the reference semantics: the decimation-in-frequency butterfly
//! network, written as a recursion that applies one butterfly stage and then
//! transforms the two halves. Every executable path of the crate is proved
//! equal to it. `apply_levels` is the breadth-first reading of the same
//! network (whole levels, outermost first); `lemma_breadth_first_equals_recursive`
//! shows the two readings agree.

use vstd::prelude::*;
use vstd::arithmetic::power2::{pow2, lemma_pow2_adds, lemma_pow2_pos};
use vstd::arithmetic::div_mod::{
    lemma_small_mod, lemma_mod_multiples_basic, lemma_mod_sub_multiples_vanish,
};
use crate::field::{fadd, fsub, fmul};

verus! {

/// Every entry of the sequence is a canonical residue.
pub open spec fn all_below(s: Seq<u64>, p: u64) -> bool {
    forall|i: int| 0 <= i < s.len() ==> s[i] < p
}

/// The window of `n` entries starting at `off`.
pub open spec fn seg(s: Seq<u64>, off: int, n: int) -> Seq<u64> {
    s.subrange(off, off + n)
}

/// `a` and `b` agree everywhere outside the window of `n` entries at `off`.
pub open spec fn frames(a: Seq<u64>, b: Seq<u64>, off: int, n: int) -> bool {
    &&& a.len() == b.len()
    &&& forall|i: int| 0 <= i < a.len() && !(off <= i < off + n) ==> a[i] == b[i]
}

/// First output of a butterfly: the sum.
pub open spec fn bfly_lo(p: u64, x: u64, y: u64) -> u64 {
    fadd(p, x, y)
}

/// Second output of a butterfly: the difference times the twiddle.
pub open spec fn bfly_hi(p: u64, x: u64, y: u64, w: u64) -> u64 {
    fmul(p, fsub(p, x, y), w)
}

/// One butterfly stage over a buffer split in half: position `k` of the top
/// half and position `k` of the tail are combined with twiddle `r[k]`.
pub open spec fn stage(p: u64, a: Seq<u64>, r: Seq<u64>) -> Seq<u64> {
    Seq::new(
        a.len(),
        |i: int|
            if i < r.len() {
                bfly_lo(p, a[i], a[i + r.len()])
            } else {
                bfly_hi(p, a[i - r.len()], a[i], r[i - r.len()])
            },
    )
}

/// One stage applied to every block of `2 * r.len()` entries in turn.
pub open spec fn stage_blocks(p: u64, a: Seq<u64>, r: Seq<u64>) -> Seq<u64>
    decreases a.len(),
{
    if r.len() == 0 || a.len() < 2 * r.len() {
        a
    } else {
        stage(p, a.take(2 * r.len() as int), r) + stage_blocks(p, a.skip(2 * r.len() as int), r)
    }
}

/// The decimation-in-frequency transform, depth first: one stage over the
/// whole buffer, then the two halves independently, each consuming the table
/// with its first level dropped. At length two the single twiddle is the
/// synthesized trivial root `1`; the table is not consulted.
pub open spec fn dif_fft(p: u64, a: Seq<u64>, t: Seq<Seq<u64>>) -> Seq<u64>
    decreases a.len(),
{
    if a.len() <= 1 {
        a
    } else {
        let r = if a.len() == 2 { seq![1u64] } else { t[0] };
        let rest = if a.len() == 2 { t } else { t.drop_first() };
        let b = stage(p, a, r);
        let m = a.len() as int / 2;
        dif_fft(p, b.take(m), rest) + dif_fft(p, b.skip(m), rest)
    }
}

/// Breadth-first application of whole levels, outermost first.
pub open spec fn apply_levels(p: u64, a: Seq<u64>, lv: Seq<Seq<u64>>) -> Seq<u64>
    decreases lv.len(),
{
    if lv.len() == 0 {
        a
    } else {
        apply_levels(p, stage_blocks(p, a, lv[0]), lv.drop_first())
    }
}

/// The level list a breadth-first transform walks: the twiddle table, then
/// the synthesized singleton root for the innermost stage.
pub open spec fn full_levels(t: Seq<Seq<u64>>) -> Seq<Seq<u64>> {
    t.push(seq![1u64])
}

/// A twiddle table fit for a buffer of length `n`: exactly `log2(n) - 1`
/// levels, level `i` holding `n / 2^(i+1)` canonical entries whose first
/// entry is the trivial root `1`.
pub open spec fn table_ok(p: u64, t: Seq<Seq<u64>>, n: nat) -> bool {
    &&& n == pow2(t.len() + 1)
    &&& forall|i: int|
        0 <= i < t.len() ==> {
            &&& (#[trigger] t[i]).len() == pow2((t.len() - i) as nat)
            &&& all_below(t[i], p)
            &&& t[i][0] == 1u64
        }
}

/// The view of an in-memory table.
pub open spec fn tview(t: Seq<Vec<u64>>) -> Seq<Seq<u64>> {
    t.map_values(|v: Vec<u64>| v@)
}

/// A stage keeps the buffer's length.
pub proof fn lemma_stage_blocks_len(p: u64, a: Seq<u64>, r: Seq<u64>)
    ensures
        stage_blocks(p, a, r).len() == a.len(),
    decreases a.len(),
{
    if !(r.len() == 0 || a.len() < 2 * r.len()) {
        lemma_stage_blocks_len(p, a.skip(2 * r.len() as int), r);
    }
}

/// On a buffer of exactly one block, the block stage is the plain stage.
pub proof fn lemma_stage_blocks_single(p: u64, a: Seq<u64>, r: Seq<u64>)
    requires
        r.len() >= 1,
        a.len() == 2 * r.len(),
    ensures
        stage_blocks(p, a, r) == stage(p, a, r),
{
    assert(a.take(2 * r.len() as int) =~= a);
    assert(a.skip(2 * r.len() as int) =~= Seq::<u64>::empty());
    assert(stage(p, a, r) + stage_blocks(p, Seq::<u64>::empty(), r) =~= stage(p, a, r));
}

/// Splitting a buffer at any point and re-joining it is the identity.
pub proof fn lemma_take_skip(a: Seq<u64>, m: int)
    requires
        0 <= m <= a.len(),
    ensures
        a.take(m) + a.skip(m) == a,
{
    assert(a.take(m) + a.skip(m) =~= a);
}

/// A nonempty buffer whose length is a multiple of the block size holds at
/// least one whole block.
pub proof fn lemma_multiple_at_least(len: nat, b: nat)
    requires
        b > 0,
        len % b == 0,
        len > 0,
    ensures
        len >= b,
{
    if len < b {
        lemma_small_mod(len, b);
    }
}

/// Smaller powers of two divide larger ones.
pub proof fn lemma_pow2_divides(j: nat, k: nat)
    requires
        j <= k,
    ensures
        pow2(k) % pow2(j) == 0,
{
    lemma_pow2_adds(j, (k - j) as nat);
    lemma_pow2_pos(j);
    lemma_mod_multiples_basic(pow2((k - j) as nat) as int, pow2(j) as int);
}

/// A position in a buffer cut into blocks of size `b` lies in a whole block:
/// the block's end does not pass the buffer's end.
pub proof fn lemma_block_bounds(len: int, b: int, i: int)
    requires
        b > 0,
        len % b == 0,
        0 <= i < len,
    ensures
        0 <= i % b < b,
        0 <= i - (i % b),
        i - (i % b) + b <= len,
        i >= b ==> i - (i % b) >= b,
{
    vstd::arithmetic::div_mod::lemma_mod_bound(i, b);
    vstd::arithmetic::div_mod::lemma_fundamental_div_mod(i, b);
    vstd::arithmetic::div_mod::lemma_fundamental_div_mod(len, b);
    let q = i % b;
    let d = i / b;
    let e = len / b;
    assert(i - q + b <= len && (i >= b ==> i - q >= b)) by (nonlinear_arith)
        requires
            i == b * d + q,
            len == b * e + (len % b),
            len % b == 0,
            0 <= q < b,
            0 <= i < len,
            b > 0,
    {}
}

/// What one entry of a block stage is, in terms of its position inside its
/// block.
pub proof fn lemma_stage_blocks_point(p: u64, a: Seq<u64>, r: Seq<u64>, i: int)
    requires
        r.len() >= 1,
        a.len() % (2 * r.len()) == 0,
        0 <= i < a.len(),
    ensures
        stage_blocks(p, a, r).len() == a.len(),
        ({
            let m = r.len() as int;
            let q = i % (2 * m);
            if q < m {
                stage_blocks(p, a, r)[i] == bfly_lo(p, a[i], a[i + m])
            } else {
                stage_blocks(p, a, r)[i] == bfly_hi(p, a[i - m], a[i], r[q - m])
            }
        }),
    decreases a.len(),
{
    lemma_stage_blocks_len(p, a, r);
    let m = r.len() as int;
    lemma_multiple_at_least(a.len(), (2 * r.len()) as nat);
    let tail = a.skip(2 * m);
    lemma_stage_blocks_len(p, tail, r);
    assert(tail.len() % (2 * r.len()) == 0) by {
        lemma_mod_sub_multiples_vanish(a.len() as int, 2 * m);
    }
    if i < 2 * m {
        lemma_small_mod(i as nat, (2 * m) as nat);
        assert(stage_blocks(p, a, r)[i] == stage(p, a.take(2 * m), r)[i]);
        if i < m {
            assert(a.take(2 * m)[i] == a[i]);
            assert(a.take(2 * m)[i + m] == a[i + m]);
        } else {
            assert(a.take(2 * m)[i - m] == a[i - m]);
            assert(a.take(2 * m)[i] == a[i]);
        }
    } else {
        lemma_stage_blocks_point(p, tail, r, i - 2 * m);
        assert(stage_blocks(p, a, r)[i] == stage_blocks(p, tail, r)[i - 2 * m]);
        assert((i - 2 * m) % (2 * m) == i % (2 * m)) by {
            lemma_mod_sub_multiples_vanish(i, 2 * m);
        }
        let q = i % (2 * m);
        lemma_block_bounds(a.len() as int, 2 * m, i);
        if q < m {
            assert(tail[i - 2 * m] == a[i]);
            assert(tail[i - 2 * m + m] == a[i + m]);
        } else {
            assert(tail[i - 2 * m - m] == a[i - m]);
            assert(tail[i - 2 * m] == a[i]);
        }
    }
}

/// A block stage distributes over a split at a block boundary.
pub proof fn lemma_stage_blocks_concat(p: u64, x: Seq<u64>, y: Seq<u64>, r: Seq<u64>)
    requires
        r.len() >= 1,
        x.len() % (2 * r.len()) == 0,
    ensures
        stage_blocks(p, x + y, r) == stage_blocks(p, x, r) + stage_blocks(p, y, r),
    decreases x.len(),
{
    let m = r.len() as int;
    if x.len() == 0 {
        assert(x + y =~= y);
        assert(stage_blocks(p, x, r) =~= Seq::<u64>::empty());
        assert(Seq::<u64>::empty() + stage_blocks(p, y, r) =~= stage_blocks(p, y, r));
    } else {
        lemma_multiple_at_least(x.len(), (2 * r.len()) as nat);
        assert((x + y).take(2 * m) =~= x.take(2 * m));
        assert((x + y).skip(2 * m) =~= x.skip(2 * m) + y);
        assert(x.skip(2 * m).len() % (2 * r.len()) == 0) by {
            lemma_mod_sub_multiples_vanish(x.len() as int, 2 * m);
        }
        lemma_stage_blocks_concat(p, x.skip(2 * m), y, r);
        assert(stage(p, x.take(2 * m), r) + (stage_blocks(p, x.skip(2 * m), r) + stage_blocks(
            p,
            y,
            r,
        )) =~= (stage(p, x.take(2 * m), r) + stage_blocks(p, x.skip(2 * m), r)) + stage_blocks(
            p,
            y,
            r,
        ));
    }
}

/// Law: the transform of a single-element buffer is the buffer itself,
/// whatever the table.
pub proof fn lemma_singleton_unchanged(p: u64, a: Seq<u64>, t: Seq<Seq<u64>>)
    requires
        a.len() == 1,
    ensures
        dif_fft(p, a, t) == a,
{
}

/// The transform keeps the buffer's length.
pub proof fn lemma_dif_fft_len(p: u64, a: Seq<u64>, t: Seq<Seq<u64>>)
    ensures
        dif_fft(p, a, t).len() == a.len(),
    decreases a.len(),
{
    if a.len() > 1 {
        let r = if a.len() == 2 { seq![1u64] } else { t[0] };
        let rest = if a.len() == 2 { t } else { t.drop_first() };
        let b = stage(p, a, r);
        let m = a.len() as int / 2;
        lemma_dif_fft_len(p, b.take(m), rest);
        lemma_dif_fft_len(p, b.skip(m), rest);
    }
}

/// A stage of canonical inputs yields canonical outputs.
pub proof fn lemma_stage_below(p: u64, a: Seq<u64>, r: Seq<u64>)
    requires
        p >= 2,
    ensures
        all_below(stage(p, a, r), p),
{
}

/// A block stage of canonical inputs yields canonical outputs.
pub proof fn lemma_stage_blocks_below(p: u64, a: Seq<u64>, r: Seq<u64>)
    requires
        p >= 2,
        all_below(a, p),
    ensures
        all_below(stage_blocks(p, a, r), p),
    decreases a.len(),
{
    if !(r.len() == 0 || a.len() < 2 * r.len()) {
        lemma_stage_below(p, a.take(2 * r.len() as int), r);
        assert(all_below(a.skip(2 * r.len() as int), p));
        lemma_stage_blocks_below(p, a.skip(2 * r.len() as int), r);
        lemma_stage_blocks_len(p, a.skip(2 * r.len() as int), r);
    }
}

/// A transform of canonical inputs yields canonical outputs.
pub proof fn lemma_dif_fft_below(p: u64, a: Seq<u64>, t: Seq<Seq<u64>>)
    requires
        p >= 2,
        all_below(a, p),
    ensures
        all_below(dif_fft(p, a, t), p),
    decreases a.len(),
{
    if a.len() > 1 {
        let r = if a.len() == 2 { seq![1u64] } else { t[0] };
        let rest = if a.len() == 2 { t } else { t.drop_first() };
        let b = stage(p, a, r);
        let m = a.len() as int / 2;
        lemma_stage_below(p, a, r);
        assert(all_below(b.take(m), p));
        assert(all_below(b.skip(m), p));
        lemma_dif_fft_below(p, b.take(m), rest);
        lemma_dif_fft_below(p, b.skip(m), rest);
        lemma_dif_fft_len(p, b.take(m), rest);
    }
}

/// At length two the transform is one butterfly under the trivial root.
pub proof fn lemma_dif_fft_len2(p: u64, a: Seq<u64>, t: Seq<Seq<u64>>)
    requires
        p >= 2,
        a.len() == 2,
        a[0] < p,
        a[1] < p,
    ensures
        dif_fft(p, a, t) == seq![fadd(p, a[0], a[1]), fsub(p, a[0], a[1])],
{
    let r = seq![1u64];
    let b = stage(p, a, r);
    assert(b[0] == bfly_lo(p, a[0], a[1]));
    assert(b[1] == bfly_hi(p, a[0], a[1], 1u64));
    assert(fsub(p, a[0], a[1]) < p);
    crate::field::lemma_fmul_one(p, fsub(p, a[0], a[1]));
    assert(dif_fft(p, b.take(1), t) == b.take(1));
    assert(dif_fft(p, b.skip(1), t) == b.skip(1));
    assert(b.take(1) + b.skip(1) =~= seq![fadd(p, a[0], a[1]), fsub(p, a[0], a[1])]);
}

/// Composition of one stage and the two half transforms, read off the four
/// buffer snapshots: before, after the stage, after the first half, after
/// the second half.
pub proof fn lemma_kernel_glue(
    p: u64,
    v0: Seq<u64>,
    v1: Seq<u64>,
    v2: Seq<u64>,
    v3: Seq<u64>,
    off: int,
    n: int,
    ts: Seq<Seq<u64>>,
)
    requires
        n >= 4,
        n % 2 == 0,
        table_ok(p, ts, n as nat),
        0 <= off,
        off + n <= v0.len(),
        v1.len() == v0.len(),
        v2.len() == v0.len(),
        v3.len() == v0.len(),
        seg(v1, off, n) == stage(p, seg(v0, off, n), ts[0]),
        frames(v1, v0, off, n),
        seg(v2, off, n / 2) == dif_fft(p, seg(v1, off, n / 2), ts.drop_first()),
        frames(v2, v1, off, n / 2),
        seg(v3, off + n / 2, n / 2) == dif_fft(p, seg(v2, off + n / 2, n / 2), ts.drop_first()),
        frames(v3, v2, off + n / 2, n / 2),
    ensures
        seg(v3, off, n) == dif_fft(p, seg(v0, off, n), ts),
        frames(v3, v0, off, n),
{
    let s = seg(v0, off, n);
    let b = stage(p, s, ts[0]);
    let m = n / 2;
    let ts1 = ts.drop_first();
    assert(seg(v1, off, m) =~= b.take(m)) by {
        assert(forall|i: int| 0 <= i < n ==> seg(v1, off, n)[i] == v1[off + i]);
    }
    assert(seg(v2, off + m, m) =~= seg(v1, off + m, m));
    assert(seg(v1, off + m, m) =~= b.skip(m)) by {
        assert(forall|i: int| 0 <= i < n ==> seg(v1, off, n)[i] == v1[off + i]);
    }
    lemma_dif_fft_len(p, b.take(m), ts1);
    lemma_dif_fft_len(p, b.skip(m), ts1);
    assert(seg(v3, off, m) =~= seg(v2, off, m));
    assert(seg(v3, off, n) =~= seg(v3, off, m) + seg(v3, off + m, m));
    assert(dif_fft(p, s, ts) == dif_fft(p, b.take(m), ts1) + dif_fft(p, b.skip(m), ts1));
}

/// Appending one more level to a breadth-first run applies that level last.
pub proof fn lemma_apply_levels_push(p: u64, a: Seq<u64>, lv: Seq<Seq<u64>>, r: Seq<u64>)
    ensures
        apply_levels(p, a, lv.push(r)) == stage_blocks(p, apply_levels(p, a, lv), r),
    decreases lv.len(),
{
    if lv.len() == 0 {
        assert(lv.push(r)[0] == r);
        assert(lv.push(r).drop_first() =~= Seq::<Seq<u64>>::empty());
        assert(apply_levels(p, a, lv.push(r)) == apply_levels(
            p,
            stage_blocks(p, a, r),
            Seq::<Seq<u64>>::empty(),
        ));
        assert(apply_levels(p, stage_blocks(p, a, r), Seq::<Seq<u64>>::empty()) == stage_blocks(
            p,
            a,
            r,
        ));
        assert(apply_levels(p, a, lv) == a);
    } else {
        assert(lv.push(r)[0] == lv[0]);
        assert(lv.push(r).drop_first() =~= lv.drop_first().push(r));
        lemma_apply_levels_push(p, stage_blocks(p, a, lv[0]), lv.drop_first(), r);
        assert(apply_levels(p, a, lv.push(r)) == apply_levels(
            p,
            stage_blocks(p, a, lv[0]),
            lv.drop_first().push(r),
        ));
        assert(apply_levels(p, a, lv) == apply_levels(p, stage_blocks(p, a, lv[0]), lv.drop_first()));
    }
}

/// A breadth-first run splits over a cut that every level's block size
/// divides.
pub proof fn lemma_apply_levels_concat(p: u64, x: Seq<u64>, y: Seq<u64>, lv: Seq<Seq<u64>>)
    requires
        forall|j: int|
            0 <= j < lv.len() ==> (#[trigger] lv[j]).len() >= 1 && x.len() % (2 * lv[j].len())
                == 0 && y.len() % (2 * lv[j].len()) == 0,
    ensures
        apply_levels(p, x + y, lv) == apply_levels(p, x, lv) + apply_levels(p, y, lv),
    decreases lv.len(),
{
    if lv.len() > 0 {
        lemma_stage_blocks_concat(p, x, y, lv[0]);
        lemma_stage_blocks_len(p, x, lv[0]);
        lemma_stage_blocks_len(p, y, lv[0]);
        let x1 = stage_blocks(p, x, lv[0]);
        let y1 = stage_blocks(p, y, lv[0]);
        assert(forall|j: int|
            0 <= j < lv.drop_first().len() ==> lv.drop_first()[j] == lv[j + 1]);
        lemma_apply_levels_concat(p, x1, y1, lv.drop_first());
    }
}

/// Dropping the table's first level commutes with appending the synthesized
/// innermost level.
pub proof fn lemma_full_levels_drop(t: Seq<Seq<u64>>)
    requires
        t.len() >= 1,
    ensures
        full_levels(t).drop_first() == full_levels(t.drop_first()),
{
    assert(full_levels(t).drop_first() =~= full_levels(t.drop_first()));
}

/// A table fit for length `n` loses its first level and fits length `n / 2`.
pub proof fn lemma_table_ok_drop(p: u64, t: Seq<Seq<u64>>, n: nat)
    requires
        table_ok(p, t, n),
        t.len() >= 1,
    ensures
        table_ok(p, t.drop_first(), n / 2),
        n / 2 == pow2(t.len()),
        n >= 4,
{
    lemma_pow2_adds(t.len(), 1);
    lemma_pow2_pos(t.len());
    vstd::arithmetic::power2::lemma2_to64();
    assert(n == pow2(t.len()) * 2);
    assert(n / 2 == pow2(t.len()));
    assert(pow2(t.len()) >= 2) by {
        vstd::arithmetic::power2::lemma_pow2_strictly_increases(0, t.len());
    }
    assert(forall|i: int|
        0 <= i < t.drop_first().len() ==> t.drop_first()[i] == t[i + 1]);
}

/// The breadth-first reading of the network equals the depth-first one: for a
/// buffer whose length matches the table, running whole levels outermost
/// first (plus the synthesized innermost level) gives exactly the recursive
/// decimation-in-frequency transform.
pub proof fn lemma_breadth_first_equals_recursive(p: u64, a: Seq<u64>, t: Seq<Seq<u64>>)
    requires
        a.len() == pow2(t.len() + 1),
        table_ok(p, t, a.len() as nat),
    ensures
        apply_levels(p, a, full_levels(t)) == dif_fft(p, a, t),
    decreases t.len(),
{
    let fl = full_levels(t);
    if t.len() == 0 {
        vstd::arithmetic::power2::lemma2_to64();
        let r = seq![1u64];
        assert(fl[0] == r);
        assert(fl.drop_first() =~= Seq::<Seq<u64>>::empty());
        lemma_stage_blocks_single(p, a, r);
        let b = stage(p, a, r);
        assert(apply_levels(p, a, fl) == apply_levels(
            p,
            stage_blocks(p, a, r),
            Seq::<Seq<u64>>::empty(),
        ));
        assert(apply_levels(p, b, Seq::<Seq<u64>>::empty()) == b);
        assert(apply_levels(p, a, fl) == b);
        assert(b.len() == 2);
        assert(dif_fft(p, b.take(1), t) == b.take(1));
        assert(dif_fft(p, b.skip(1), t) == b.skip(1));
        lemma_take_skip(b, 1);
    } else {
        lemma_table_ok_drop(p, t, a.len() as nat);
        let n = a.len() as int;
        let m = n / 2;
        let r = t[0];
        assert(r.len() == pow2(t.len()));
        assert(a.len() == 2 * r.len()) by {
            lemma_pow2_adds(t.len(), 1);
            vstd::arithmetic::power2::lemma2_to64();
        }
        let b = stage(p, a, r);
        assert(b.len() == a.len());
        lemma_stage_blocks_single(p, a, r);
        assert(fl[0] == r);
        lemma_full_levels_drop(t);
        let t1 = t.drop_first();
        let fl1 = full_levels(t1);
        assert(apply_levels(p, a, fl) == apply_levels(p, stage_blocks(p, a, fl[0]), fl.drop_first()));
        assert(apply_levels(p, a, fl) == apply_levels(p, b, fl1));
        let bl = b.take(m);
        let br = b.skip(m);
        lemma_take_skip(b, m);
        assert(n == 2 * m);
        assert(bl.len() == m);
        assert(br.len() == m);
        // every level of fl1 cuts cleanly at the midpoint
        assert forall|j: int| 0 <= j < fl1.len() implies (#[trigger] fl1[j]).len() >= 1 && bl.len()
            % (2 * fl1[j].len()) == 0 && br.len() % (2 * fl1[j].len()) == 0 by {
            if j < t1.len() {
                assert(fl1[j] == t1[j]);
                assert(t1[j].len() == pow2((t1.len() - j) as nat));
                lemma_pow2_pos((t1.len() - j) as nat);
                assert(2 * pow2((t1.len() - j) as nat) == pow2((t1.len() - j + 1) as nat)) by {
                    lemma_pow2_adds((t1.len() - j) as nat, 1);
                    vstd::arithmetic::power2::lemma2_to64();
                }
                lemma_pow2_divides((t1.len() - j + 1) as nat, t.len());
            } else {
                assert(fl1[j] == seq![1u64]);
                assert(fl1[j].len() == 1);
                lemma_pow2_divides(1, t.len());
                vstd::arithmetic::power2::lemma2_to64();
            }
        }
        lemma_apply_levels_concat(p, bl, br, fl1);
        lemma_breadth_first_equals_recursive(p, bl, t1);
        lemma_breadth_first_equals_recursive(p, br, t1);
        assert(a.len() > 2) by {
            vstd::arithmetic::power2::lemma_pow2_strictly_increases(1, t.len() + 1);
            vstd::arithmetic::power2::lemma2_to64();
        }
        assert(dif_fft(p, a, t) == dif_fft(p, bl, t1) + dif_fft(p, br, t1));
    }
}

} // verus!
