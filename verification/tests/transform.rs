//! End-to-end checks of the transform against a direct DFT evaluation,
//! the fixed scenarios, and agreement between the executable paths.

use dif_ntt::field::MontyField31;

/// The standard number-theoretic-transform prime `3 * 2^12 + 1` with
/// primitive root 11.
const P: u64 = 12289;
const PRIMITIVE_ROOT: u64 = 11;

fn pow_mod(mut b: u64, mut e: u64, p: u64) -> u64 {
    let mut acc: u64 = 1 % p;
    b %= p;
    while e > 0 {
        if e & 1 == 1 {
            acc = ((acc as u128 * b as u128) % p as u128) as u64;
        }
        b = ((b as u128 * b as u128) % p as u128) as u64;
        e >>= 1;
    }
    acc
}

/// A generator of the subgroup of order `n` (a power of two up to 4096).
fn gen_of_order(n: u64) -> u64 {
    assert!(n.is_power_of_two() && n <= 4096);
    let g = pow_mod(PRIMITIVE_ROOT, (P - 1) / n, P);
    // self-check: order is exactly n
    assert_eq!(pow_mod(g, n, P), 1);
    if n > 1 {
        assert_eq!(pow_mod(g, n / 2, P), P - 1);
    }
    g
}

fn bit_reverse(mut k: usize, lg_n: u32) -> usize {
    let mut r = 0usize;
    for _ in 0..lg_n {
        r = (r << 1) | (k & 1);
        k >>= 1;
    }
    r
}

/// Direct quadratic evaluation of the DFT, re-indexed by bit reversal.
fn naive_dft_bitrev(input: &[u64], g: u64) -> Vec<u64> {
    let n = input.len();
    let lg_n = n.trailing_zeros();
    let mut g_pows = vec![1u64; n];
    for i in 1..n {
        g_pows[i] = ((g_pows[i - 1] as u128 * g as u128) % P as u128) as u64;
    }
    (0..n)
        .map(|k| {
            let freq = bit_reverse(k, lg_n);
            let mut acc: u128 = 0;
            for j in 0..n {
                acc = (acc + input[j] as u128 * g_pows[(j * freq) % n] as u128) % P as u128;
            }
            acc as u64
        })
        .collect()
}

fn pseudorandom_buf(n: usize, seed: u64) -> Vec<u64> {
    let mut state = seed | 1;
    (0..n)
        .map(|_| {
            state = state.wrapping_mul(6364136223846793005).wrapping_add(1442695040888963407);
            (state >> 16) % P
        })
        .collect()
}

fn check_against_naive(n: usize) {
    let buf = pseudorandom_buf(n, 0x9e3779b97f4a7c15 ^ n as u64);
    let mut out = buf.clone();
    if n == 1 {
        let table: Vec<Vec<u64>> = Vec::new();
        MontyField31::forward_fft(&mut out, &table, P);
        assert_eq!(out, buf);
        return;
    }
    let g = gen_of_order(n as u64);
    let table = MontyField31::roots_of_unity_table(n, g, P);
    assert_eq!(table.len() + 1, n.trailing_zeros() as usize);
    MontyField31::forward_fft(&mut out, &table, P);
    assert_eq!(out, naive_dft_bitrev(&buf, g));
}

#[test]
fn matches_naive_dft_small() {
    for n in [1usize, 2, 4, 8, 16, 32, 64, 128, 256] {
        check_against_naive(n);
    }
}

#[test]
fn matches_naive_dft_mid() {
    check_against_naive(512);
    check_against_naive(1024);
}

#[test]
fn matches_naive_dft_2048() {
    check_against_naive(2048);
}

#[test]
fn matches_naive_dft_4096() {
    check_against_naive(4096);
}

#[test]
fn single_element_unchanged() {
    let table: Vec<Vec<u64>> = Vec::new();
    let mut buf = vec![7u64];
    MontyField31::forward_fft(&mut buf, &table, P);
    assert_eq!(buf, vec![7u64]);
}

#[test]
fn length_two_mod_17() {
    // 5 + 9 = 14; 5 - 9 = -4 = 13 (mod 17)
    let table: Vec<Vec<u64>> = Vec::new();
    let mut buf = vec![5u64, 9u64];
    MontyField31::forward_fft(&mut buf, &table, 17);
    assert_eq!(buf, vec![14u64, 13u64]);
}

#[test]
fn length_four_mod_5() {
    // p = 5, fourth root of unity 2, input [1,2,3,4] -> [0,3,4,2]
    let mut buf = vec![1u64, 2, 3, 4];
    MontyField31::forward_4(&mut buf, 0, 2, 5);
    assert_eq!(buf, vec![0u64, 3, 4, 2]);

    // the same through the dispatcher with a built table
    let table = MontyField31::roots_of_unity_table(4, 2, 5);
    assert_eq!(table, vec![vec![1u64, 2]]);
    let mut buf2 = vec![1u64, 2, 3, 4];
    MontyField31::forward_fft(&mut buf2, &table, 5);
    assert_eq!(buf2, vec![0u64, 3, 4, 2]);
}

/// Breadth-first path (taken by `forward_fft` for these sizes) and the
/// unrolled kernels give bit-identical output.
#[test]
fn breadth_first_matches_unrolled() {
    for n in [4usize, 8, 16, 32, 64, 128, 256] {
        let g = gen_of_order(n as u64);
        let table = MontyField31::roots_of_unity_table(n, g, P);
        let buf = pseudorandom_buf(n, 0xabcd ^ n as u64);

        let mut bf = buf.clone();
        MontyField31::forward_fft(&mut bf, &table, P);

        let mut un = buf.clone();
        match n {
            4 => MontyField31::forward_4(&mut un, 0, table[0][1], P),
            8 => MontyField31::forward_8(&mut un, 0, &table, 0, P),
            16 => MontyField31::forward_16(&mut un, 0, &table, 0, P),
            32 => MontyField31::forward_32(&mut un, 0, &table, 0, P),
            64 => MontyField31::forward_64(&mut un, 0, &table, 0, P),
            128 => MontyField31::forward_128(&mut un, 0, &table, 0, P),
            _ => MontyField31::forward_256(&mut un, 0, &table, 0, P),
        }
        assert_eq!(bf, un);
    }
}

#[test]
fn length_two_kernel_matches_dispatcher() {
    let table: Vec<Vec<u64>> = Vec::new();
    let mut a = vec![3u64, 11];
    let mut b = vec![3u64, 11];
    MontyField31::forward_fft(&mut a, &table, P);
    MontyField31::forward_2(&mut b, 0, P);
    assert_eq!(a, b);
}
