//! Packed/scalar path agreement, butterfly laws on concrete values, and
//! twiddle-table root-of-unity checks.

use dif_ntt::field::MontyField31;
use dif_ntt::table::GOLDILOCKS_P;

const P: u64 = 12289;
const PRIMITIVE_ROOT: u64 = 11;

fn pow_mod(mut b: u128, mut e: u128, p: u128) -> u128 {
    let mut acc: u128 = 1 % p;
    b %= p;
    while e > 0 {
        if e & 1 == 1 {
            acc = acc * b % p;
        }
        b = b * b % p;
        e >>= 1;
    }
    acc
}

fn gen_of_order(n: u64) -> u64 {
    pow_mod(PRIMITIVE_ROOT as u128, ((P - 1) / n) as u128, P as u128) as u64
}

fn pseudorandom_buf(n: usize, seed: u64) -> Vec<u64> {
    let mut state = seed | 1;
    (0..n)
        .map(|_| {
            state = state.wrapping_mul(6364136223846793005).wrapping_add(1442695040888963407);
            (state >> 16) % P
        })
        .collect()
}

/// Packed and scalar executors of the outermost stage agree bit for bit.
#[test]
fn packed_and_scalar_s0_agree() {
    let n = 64usize;
    let g = gen_of_order(n as u64);
    let table = MontyField31::roots_of_unity_table(n, g, P);
    let buf = pseudorandom_buf(n, 42);

    let mut packed = buf.clone();
    MontyField31::forward_small_s0(&mut packed, 0, n, &table[0], P);

    let mut scalar = buf.clone();
    MontyField31::scalar_small_s0(&mut scalar, 0, n, &table[0], P);

    assert_eq!(packed, scalar);
    assert_ne!(packed, buf);
}

/// Packed and scalar executors of the fused second stage agree bit for bit.
#[test]
fn packed_and_scalar_s1_agree() {
    let n = 64usize;
    let g = gen_of_order(n as u64);
    let table = MontyField31::roots_of_unity_table(n, g, P);
    let buf = pseudorandom_buf(n, 43);

    let mut packed = buf.clone();
    MontyField31::forward_small_s1(&mut packed, 0, n, &table[1], P);

    let mut scalar = buf.clone();
    MontyField31::scalar_small_s1(&mut scalar, 0, n, &table[1], P);

    assert_eq!(packed, scalar);
    assert_ne!(packed, buf);
}

/// The runtime-chosen stage executor agrees with the scalar oracle on both
/// sides of the lane-width threshold.
#[test]
fn forward_pass_agrees_with_scalar_oracle() {
    for n in [4usize, 8, 32] {
        let g = gen_of_order(n as u64);
        let table = MontyField31::roots_of_unity_table(n, g, P);
        let buf = pseudorandom_buf(n, 7 ^ n as u64);

        let mut chosen = buf.clone();
        MontyField31::forward_pass(&mut chosen, 0, n, &table[0], P);

        let mut oracle = buf.clone();
        MontyField31::scalar_small_s0(&mut oracle, 0, n, &table[0], P);

        assert_eq!(chosen, oracle);
    }
}

/// `butterfly(x, x, w) = (2x, 0)`.
#[test]
fn butterfly_equal_inputs() {
    let (lo, hi) = MontyField31::forward_butterfly(5, 5, 3, 17);
    assert_eq!((lo, hi), (10, 0));
    let (lo, hi) = MontyField31::forward_butterfly(12, 12, 7, 17);
    assert_eq!((lo, hi), (24 % 17, 0));
}

/// `butterfly(x, 0, w) = (x, x * w)`.
#[test]
fn butterfly_zero_tail() {
    let (lo, hi) = MontyField31::forward_butterfly(5, 0, 3, 17);
    assert_eq!((lo, hi), (5, 15));
    let (lo, hi) = MontyField31::forward_butterfly(9, 0, 4, 17);
    assert_eq!((lo, hi), (9, 36 % 17));
}

/// Butterfly outputs are always canonical.
#[test]
fn butterfly_canonical() {
    for x in 0..17u64 {
        for y in 0..17u64 {
            for w in 0..17u64 {
                let (lo, hi) = MontyField31::forward_butterfly(x, y, w, 17);
                assert!(lo < 17 && hi < 17);
                assert_eq!(lo, (x + y) % 17);
                assert_eq!(hi, (17 + x - y) * w % 17);
            }
        }
    }
}

fn check_table_roots(table: &[Vec<u64>], n: u64, p: u64) {
    for (i, level) in table.iter().enumerate() {
        let order = n >> i;
        assert_eq!(level.len() as u64, order / 2);
        assert_eq!(level[0], 1);
        for &e in level {
            // every entry is a root of unity of the level's order
            assert_eq!(pow_mod(e as u128, order as u128, p as u128), 1);
        }
        // no two entries of one level are additive inverses of each other
        for a in 0..level.len() {
            for b in 0..level.len() {
                assert_ne!((level[a] as u128 + level[b] as u128) % p as u128, 0);
            }
        }
    }
}

/// Twiddle-table correctness over the small prime field.
#[test]
fn table_entries_are_roots_small_field() {
    for n in [4u64, 16, 256, 1024] {
        let g = gen_of_order(n);
        let table = MontyField31::roots_of_unity_table(n as usize, g, P);
        check_table_roots(&table, n, P);
    }
}

/// Twiddle-table correctness over the Goldilocks field, with the generator
/// obtained from the field crate.
#[test]
fn table_entries_are_roots_goldilocks() {
    for n in [2usize, 8, 64, 1024] {
        let table = MontyField31::goldilocks_roots_of_unity_table(n);
        assert_eq!(table.len() + 1, n.trailing_zeros() as usize);
        check_table_roots(&table, n as u64, GOLDILOCKS_P);
    }
}

/// The built table holds exactly the successive powers of the generator,
/// subsampled per level.
#[test]
fn table_entries_are_generator_powers() {
    let n = 32u64;
    let g = gen_of_order(n);
    let table = MontyField31::roots_of_unity_table(n as usize, g, P);
    assert_eq!(table.len(), 4);
    for (i, level) in table.iter().enumerate() {
        for (k, &e) in level.iter().enumerate() {
            let exponent = (k as u128) << i;
            assert_eq!(e as u128, pow_mod(g as u128, exponent, P as u128));
        }
    }
}
