#![allow(non_snake_case)]

use cpkit::argsort::argsort;
use cpkit::change_radix::change_radix;
use cpkit::combination::{nCr_small, ncr_lucas, ncr_mod};
use cpkit::modpow::{modinv, modpow};
use cpkit::prime::{is_prime, prime_factorization};
use cpkit::run_length_encoding::run_length_encoding;
use cpkit::transpose::transpose;
use std::collections::HashMap;

#[test]
fn test_nCr_small() {
    let n = 16;
    let r = 11;
    assert_eq!(nCr_small(n, r), 4368);
}

#[test]
fn ncr_small_edges() {
    assert_eq!(nCr_small(0, 0), 1);
    assert_eq!(nCr_small(10, 0), 1);
    assert_eq!(nCr_small(10, 10), 1);
    assert_eq!(nCr_small(10, 1), 10);
    assert_eq!(nCr_small(100, 50), 100891344545564193334812497256);
}

#[test]
fn ncr_mod_matches_pascal() {
    let p = 13;
    let comb = ncr_mod(p);
    assert_eq!(comb[0][0], 1);
    assert_eq!(comb[4][2], 6);
    assert_eq!(comb[12][5], 792 % 13);
    // above the diagonal the coefficient is zero
    assert_eq!(comb[3][7], 0);
}

#[test]
fn ncr_lucas_small_cases() {
    // C(10, 3) = 120; 120 % 7 == 1
    assert_eq!(ncr_lucas(10, 3, 7), 1);
    // C(16, 11) = 4368; 4368 % 13 == 0
    assert_eq!(ncr_lucas(16, 11, 13), 4368 % 13);
    // arguments below p reduce to the plain table
    assert_eq!(ncr_lucas(4, 2, 11), 6);
}

#[test]
fn modpow_concrete_values() {
    assert_eq!(modpow(2, 10, 1_000_000_007), 1024);
    assert_eq!(modpow(3, 0, 97), 1);
    assert_eq!(modpow(5, 3, 7), 125 % 7);
    // Fermat inverse: x * modinv(x) == 1 (mod p)
    let p = 1_000_000_007i64;
    for x in [1i64, 2, 12345, 999999999] {
        let inv = modinv(x, p);
        assert_eq!((x as i128 * inv as i128) % (p as i128), 1);
    }
}

#[test]
fn transpose_swaps_axes() {
    let a = vec![vec![1i64, 2, 3], vec![4, 5, 6]];
    let t = transpose(&a);
    assert_eq!(t, vec![vec![1i64, 4], vec![2, 5], vec![3, 6]]);
}

#[test]
fn run_length_encoding_compresses_runs() {
    let s = vec![82i64, 82, 82, 76, 76, 82, 76, 82, 82];
    let enc = run_length_encoding(s);
    assert_eq!(enc, vec![(82i64, 3usize), (76, 2), (82, 1), (76, 1), (82, 2)]);
    let one = run_length_encoding(vec![5i64]);
    assert_eq!(one, vec![(5i64, 1usize)]);
}

#[test]
fn is_prime_concrete() {
    assert!(is_prime(2));
    assert!(is_prime(3));
    assert!(!is_prime(4));
    assert!(is_prime(97));
    assert!(!is_prime(91)); // 7 * 13
    assert!(is_prime(998244353));
    assert!(!is_prime(998244351)); // 3 * 332748117
    // trial division reports 0 and 1 as having no proper divisor
    assert!(is_prime(0));
    assert!(is_prime(1));
}

#[test]
fn prime_factorization_concrete() {
    assert_eq!(prime_factorization(12), vec![2, 2, 3]);
    assert_eq!(prime_factorization(97), vec![97]);
    assert_eq!(prime_factorization(360), vec![2, 2, 2, 3, 3, 5]);
    assert_eq!(prime_factorization(1), vec![1]);
    assert_eq!(prime_factorization(2), vec![2]);
    assert_eq!(prime_factorization(9991), vec![97, 103]);
}

#[test]
fn memo_rec_computes_fibonacci() {
    let mut memo: HashMap<i64, i64> = HashMap::new();
    memo.insert(0, 0);
    memo.insert(1, 1);
    assert_eq!(cpkit::memo_rec::memo_rec(10, &mut memo), 55);
    assert_eq!(cpkit::memo_rec::memo_rec(2, &mut memo), 1);
    assert_eq!(cpkit::memo_rec::memo_rec(62, &mut memo), 4052739537881);
    // the cache now answers directly
    assert_eq!(memo[&10], 55);
}

#[test]
fn test_argsort() {
    let v = vec![3, 2, 1, 5, 7];
    let sorted_idx = argsort(&v);
    assert_eq!(sorted_idx, vec![2, 1, 0, 3, 4]);
}

#[test]
fn argsort_is_stable_on_ties() {
    let v = vec![5i64, 1, 5, 1, 5];
    assert_eq!(argsort(&v), vec![1, 3, 0, 2, 4]);
    assert_eq!(argsort(&Vec::new()), Vec::<usize>::new());
}

#[test]
fn test_change_radix() {
    let s = "7";
    let s_radix_2 = change_radix(s, 10, 2);
    assert_eq!(s_radix_2, "111");
}

#[test]
fn change_radix_more_bases() {
    assert_eq!(change_radix("0", 10, 2), "0");
    assert_eq!(change_radix("255", 10, 2), "11111111");
    assert_eq!(change_radix("100", 10, 8), "144");
    // "11" read in base 5 is 6, written in base 3 as 20
    assert_eq!(change_radix("11", 5, 3), "20");
}
