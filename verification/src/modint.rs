//! Arithmetic in the prime field of order 998244353. A `ModInt` always holds
//! its canonical representative (a value below the modulus); sums, products,
//! powers and inverses are stated exactly over the mathematical residues.

use vstd::prelude::*;
use vstd::arithmetic::div_mod::lemma_mul_mod_noop_general;
use vstd::calc;

verus! {

/// The modulus: a prime commonly used for number-theoretic transforms.
pub const MOD: usize = 998244353;

/// `b^e` reduced at every step: `pow_mod(b, e) = (b * ... * b) % MOD`.
pub open spec fn pow_mod(b: int, e: nat) -> int
    decreases e,
{
    if e == 0 {
        1
    } else {
        (b * pow_mod(b, (e - 1) as nat)) % (MOD as int)
    }
}

/// `pow_mod` lands in the canonical range.
proof fn lemma_pow_mod_range(b: int, e: nat)
    ensures
        0 <= pow_mod(b, e) < MOD as int,
    decreases e,
{
    if e > 0 {
        lemma_pow_mod_range(b, (e - 1) as nat);
    }
}

/// Squaring the base halves the exponent.
proof fn lemma_pow_mod_square(b: int, m: nat)
    ensures
        pow_mod(b, 2 * m) == pow_mod((b * b) % (MOD as int), m),
    decreases m,
{
    let md = MOD as int;
    if m > 0 {
        lemma_pow_mod_square(b, (m - 1) as nat);
        let t = pow_mod(b, (2 * m - 2) as nat);
        calc! {
            (==)
            pow_mod(b, 2 * m); {}
            (b * pow_mod(b, (2 * m - 1) as nat)) % md; {
                assert(pow_mod(b, (2 * m - 1) as nat) == (b * t) % md);
                lemma_mul_mod_noop_general(b, b * t, md);
                assert((b * ((b * t) % md)) % md == (b * (b * t)) % md);
                assert(b * (b * t) == (b * b) * t) by (nonlinear_arith);
            }
            ((b * b) * t) % md; {
                lemma_mul_mod_noop_general(b * b, t, md);
            }
            (((b * b) % md) * t) % md; {
                lemma_mul_mod_noop_general((b * b) % md, t, md);
                assert(t == pow_mod((b * b) % md, (m - 1) as nat));
                lemma_mul_mod_noop_general((b * b) % md, pow_mod((b * b) % md, (m - 1) as nat), md);
            }
            (((b * b) % md) * pow_mod((b * b) % md, (m - 1) as nat)) % md; {}
            pow_mod((b * b) % md, m);
        }
    }
}

/// Residue modulo the prime, stored canonically.
#[derive(Clone, Copy)]
pub struct ModInt {
    value: usize,
}

impl ModInt {
    /// The residue this value stands for.
    pub closed spec fn spec_value(&self) -> int {
        self.value as int
    }

    /// The stored representative is canonical.
    pub closed spec fn wf(&self) -> bool {
        self.value < MOD
    }

    pub fn new(n: usize) -> (r: Self)
        ensures
            r.wf(),
            r.spec_value() == n as int % (MOD as int),
    {
        ModInt { value: n % MOD }
    }

    pub fn zero() -> (r: Self)
        ensures
            r.wf(),
            r.spec_value() == 0,
    {
        ModInt { value: 0 }
    }

    pub fn one() -> (r: Self)
        ensures
            r.wf(),
            r.spec_value() == 1,
    {
        ModInt { value: 1 }
    }

    pub fn value(&self) -> (r: usize)
        ensures
            r == self.spec_value(),
    {
        self.value
    }

    /// Sum of the residues.
    pub fn add(self, other: Self) -> (r: Self)
        requires
            self.wf(),
            other.wf(),
        ensures
            r.wf(),
            r.spec_value() == (self.spec_value() + other.spec_value()) % (MOD as int),
    {
        ModInt { value: (self.value + other.value) % MOD }
    }

    /// Difference of the residues, kept canonical.
    pub fn sub(self, other: Self) -> (r: Self)
        requires
            self.wf(),
            other.wf(),
        ensures
            r.wf(),
            r.spec_value() == (self.spec_value() - other.spec_value()) % (MOD as int),
    {
        let r = ModInt { value: (MOD + self.value - other.value) % MOD };
        proof {
            assert((MOD as int + self.spec_value() - other.spec_value()) % (MOD as int) == (
            self.spec_value() - other.spec_value()) % (MOD as int)) by {
                vstd::arithmetic::div_mod::lemma_add_mod_noop(
                    MOD as int,
                    self.spec_value() - other.spec_value(),
                    MOD as int,
                );
                vstd::arithmetic::div_mod::lemma_mod_self_0(MOD as int);
                vstd::arithmetic::div_mod::lemma_mod_twice(
                    self.spec_value() - other.spec_value(),
                    MOD as int,
                );
            }
        }
        r
    }

    /// Product of the residues.
    pub fn mul(self, other: Self) -> (r: Self)
        requires
            self.wf(),
            other.wf(),
        ensures
            r.wf(),
            r.spec_value() == (self.spec_value() * other.spec_value()) % (MOD as int),
    {
        proof {
            assert(self.spec_value() * other.spec_value() < (MOD as int) * (MOD as int))
                by (nonlinear_arith)
                requires
                    0 <= self.spec_value() < MOD as int,
                    0 <= other.spec_value() < MOD as int,
            ;
        }
        let wide = (self.value as u64) * (other.value as u64);
        ModInt { value: (wide % (MOD as u64)) as usize }
    }

    /// `self` raised to `n`, by binary exponentiation.
    pub fn pow(&self, n: usize) -> (r: Self)
        requires
            self.wf(),
        ensures
            r.wf(),
            r.spec_value() == pow_mod(self.spec_value(), n as nat),
    {
        let mut p = *self;
        let mut ret = ModInt { value: 1 };
        let mut nn = n;
        proof {
            // seed the invariant: the accumulator is 1 and the target value
            // is already canonical
            lemma_pow_mod_range(self.spec_value(), n as nat);
            vstd::arithmetic::div_mod::lemma_small_mod(
                pow_mod(self.spec_value(), n as nat) as nat,
                MOD as nat,
            );
            assert(1 * pow_mod(self.spec_value(), n as nat) == pow_mod(self.spec_value(), n as nat));
            assert((1 * pow_mod(self.spec_value(), n as nat)) % (MOD as int) == pow_mod(
                self.spec_value(),
                n as nat,
            ));
        }
        while nn > 0
            invariant
                p.wf(),
                ret.wf(),
                (ret.spec_value() * pow_mod(p.spec_value(), nn as nat)) % (MOD as int) == pow_mod(
                    self.spec_value(),
                    n as nat,
                ),
            decreases nn,
        {
            let ghost r0 = ret.spec_value();
            let ghost p0 = p.spec_value();
            let ghost m0 = nn as nat;
            let ghost md = MOD as int;
            if nn % 2 == 1 {
                ret = ret.mul(p);
                proof {
                    // peel one factor off the exponent
                    assert(pow_mod(p0, m0) == (p0 * pow_mod(p0, (m0 - 1) as nat)) % md);
                    lemma_mul_mod_noop_general(r0, p0 * pow_mod(p0, (m0 - 1) as nat), md);
                    assert((r0 * (p0 * pow_mod(p0, (m0 - 1) as nat))) % md == ((r0 * p0) % md
                        * pow_mod(p0, (m0 - 1) as nat)) % md) by {
                        lemma_mul_mod_noop_general(r0, p0 * pow_mod(p0, (m0 - 1) as nat), md);
                        assert(r0 * (p0 * pow_mod(p0, (m0 - 1) as nat)) == (r0 * p0) * pow_mod(
                            p0,
                            (m0 - 1) as nat,
                        )) by (nonlinear_arith);
                        lemma_mul_mod_noop_general(r0 * p0, pow_mod(p0, (m0 - 1) as nat), md);
                    }
                    lemma_pow_mod_square(p0, ((m0 - 1) / 2) as nat);
                    assert(2 * (((m0 - 1) / 2) as nat) == m0 - 1);
                }
            } else {
                proof {
                    lemma_pow_mod_square(p0, (m0 / 2) as nat);
                    assert(2 * ((m0 / 2) as nat) == m0);
                    lemma_mul_mod_noop_general(r0, pow_mod(p0, m0), md);
                    lemma_pow_mod_range((p0 * p0) % md, (m0 / 2) as nat);
                }
            }
            p = p.mul(p);
            nn = nn / 2;
            proof {
                lemma_mul_mod_noop_general(ret.spec_value(), pow_mod(p.spec_value(), nn as nat), md);
                lemma_pow_mod_range(p.spec_value(), nn as nat);
            }
        }
        proof {
            assert(pow_mod(p.spec_value(), 0) == 1);
            assert((ret.spec_value() * 1) % (MOD as int) == ret.spec_value()) by {
                vstd::arithmetic::div_mod::lemma_small_mod(
                    ret.spec_value() as nat,
                    MOD as nat,
                );
            }
        }
        ret
    }

    /// Multiplicative inverse of a non-zero residue, as the power `MOD - 2`;
    /// for the prime modulus this is the inverse by Fermat's little theorem.
    pub fn inv(&self) -> (r: Self)
        requires
            self.wf(),
        ensures
            r.wf(),
            r.spec_value() == pow_mod(self.spec_value(), (MOD - 2) as nat),
    {
        self.pow(MOD - 2)
    }

    /// Product with the inverse of `other`.
    pub fn div(self, other: Self) -> (r: Self)
        requires
            self.wf(),
            other.wf(),
        ensures
            r.wf(),
            r.spec_value() == (self.spec_value() * pow_mod(
                other.spec_value(),
                (MOD - 2) as nat,
            )) % (MOD as int),
    {
        self.mul(other.inv())
    }
}

} // verus!
