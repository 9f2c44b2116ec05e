use cpkit::modint::{ModInt, MOD};
use cpkit::xoshiro256::{SplitMix64, Xoshiro256};

#[test]
fn modint_add_sub_wrap() {
    let a = ModInt::new(MOD - 1);
    let b = ModInt::new(5);
    assert_eq!(a.add(b).value(), 4);
    assert_eq!(b.sub(a).value(), 6);
    assert_eq!(a.sub(b).value(), MOD - 6);
    assert_eq!(ModInt::new(MOD).value(), 0);
    assert_eq!(ModInt::zero().add(ModInt::one()).value(), 1);
}

#[test]
fn modint_mul_and_pow() {
    let a = ModInt::new(123456789);
    let b = ModInt::new(987654321);
    // (123456789 * 987654321) mod 998244353
    let prod = ((123456789u128 * 987654321u128) % (MOD as u128)) as usize;
    assert_eq!(a.mul(b).value(), prod);
    assert_eq!(ModInt::new(3).pow(5).value(), 243);
    assert_eq!(ModInt::new(2).pow(0).value(), 1);
    // 2^31 mod p
    assert_eq!(ModInt::new(2).pow(31).value(), (1usize << 31) % MOD);
}

#[test]
fn modint_inv_is_inverse() {
    for x in [1usize, 2, 3, 17, 998244352] {
        let m = ModInt::new(x);
        let prod = m.mul(m.inv()).value();
        assert_eq!(prod, 1, "inverse failed for {}", x);
    }
    // division: (10 / 2) mod p == 5
    assert_eq!(ModInt::new(10).div(ModInt::new(2)).value(), 5);
}

#[test]
fn xoshiro_is_deterministic_per_seed() {
    let mut a = Xoshiro256::new(42);
    let mut b = Xoshiro256::new(42);
    for _ in 0..100 {
        assert_eq!(a.next_u64(), b.next_u64());
    }
    let mut c = Xoshiro256::new(43);
    let mut d = Xoshiro256::new(42);
    let mut differs = false;
    for _ in 0..10 {
        if c.next_u64() != d.next_u64() {
            differs = true;
        }
    }
    assert!(differs);
}

#[test]
fn xoshiro_ranged_draws_stay_in_range() {
    let mut rng = Xoshiro256::new(7);
    for _ in 0..1000 {
        let u = rng.gen_usize(10, 20);
        assert!((10..20).contains(&u));
        let s = rng.gen_i64(-5, 5);
        assert!((-5..5).contains(&s));
    }
}

#[test]
fn split_mix_64_scrambles() {
    let mut sm = SplitMix64::new(0);
    let x = sm.next_u64();
    let y = sm.next_u64();
    assert_ne!(x, y);
    let mut sm2 = SplitMix64::new(0);
    assert_eq!(sm2.next_u64(), x);
}
