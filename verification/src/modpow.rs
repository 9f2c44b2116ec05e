//! Modular exponentiation by repeated squaring, for an arbitrary modulus.

use vstd::prelude::*;
use vstd::arithmetic::div_mod::lemma_mul_mod_noop_general;

verus! {

/// `x^p` reduced at every step: `pow_mod_m(x, p, m) = (x * ... * x) % m`.
pub open spec fn pow_mod_m(x: int, p: nat, m: int) -> int
    decreases p,
{
    if p == 0 {
        1int % m
    } else {
        (x * pow_mod_m(x, (p - 1) as nat, m)) % m
    }
}

/// `pow_mod_m` lands in `[0, m)` for a positive exponent.
proof fn lemma_pow_mod_m_range(x: int, p: nat, m: int)
    requires
        m >= 1,
    ensures
        0 <= pow_mod_m(x, p, m) < m,
    decreases p,
{
    if p > 0 {
        lemma_pow_mod_m_range(x, (p - 1) as nat, m);
    }
}

/// Squaring the base halves the exponent.
proof fn lemma_pow_mod_m_square(x: int, p: nat, m: int)
    requires
        m >= 1,
    ensures
        pow_mod_m(x, 2 * p, m) == pow_mod_m((x * x) % m, p, m),
    decreases p,
{
    if p > 0 {
        lemma_pow_mod_m_square(x, (p - 1) as nat, m);
        let t = pow_mod_m(x, (2 * p - 2) as nat, m);
        assert(pow_mod_m(x, (2 * p - 1) as nat, m) == (x * t) % m);
        lemma_mul_mod_noop_general(x, x * t, m);
        assert((x * ((x * t) % m)) % m == (x * (x * t)) % m);
        assert(x * (x * t) == (x * x) * t) by (nonlinear_arith);
        lemma_mul_mod_noop_general(x * x, t, m);
        assert(((x * x) * t) % m == (((x * x) % m) * t) % m);
        assert(t == pow_mod_m((x * x) % m, (p - 1) as nat, m));
        lemma_mul_mod_noop_general((x * x) % m, pow_mod_m((x * x) % m, (p - 1) as nat, m), m);
    }
}

/// `x^p mod mod_num` by binary exponentiation, in `O(log p)` steps. The
/// modulus is capped so that intermediate products fit the machine word.
pub fn modpow(x: i64, p: i64, mod_num: i64) -> (r: i64)
    requires
        1 <= mod_num <= 3_037_000_499,
        0 <= x < mod_num,
        0 <= p,
    ensures
        0 <= r < mod_num,
        r == pow_mod_m(x as int, p as nat, mod_num as int),
{
    let m = mod_num;
    let mut xx = x;
    let mut ret: i64 = 1 % m;
    let mut pp = p;
    proof {
        lemma_pow_mod_m_range(x as int, p as nat, m as int);
        lemma_mul_mod_noop_general(1int, pow_mod_m(x as int, p as nat, m as int), m as int);
        vstd::arithmetic::div_mod::lemma_small_mod(
            pow_mod_m(x as int, p as nat, m as int) as nat,
            m as nat,
        );
        assert(((1int % (m as int)) * pow_mod_m(x as int, p as nat, m as int)) % (m as int)
            == pow_mod_m(x as int, p as nat, m as int));
    }
    while pp > 0
        invariant
            1 <= m <= 3_037_000_499,
            0 <= xx < m,
            0 <= ret < m,
            0 <= pp,
            (ret * pow_mod_m(xx as int, pp as nat, m as int)) % (m as int) == pow_mod_m(
                x as int,
                p as nat,
                m as int,
            ),
        decreases pp,
    {
        let ghost r0 = ret as int;
        let ghost x0 = xx as int;
        let ghost p0 = pp as nat;
        let ghost md = m as int;
        if pp % 2 == 1 {
            proof {
                assert(x0 * r0 <= 3_037_000_499int * 3_037_000_499 && x0 * r0 >= 0)
                    by (nonlinear_arith)
                    requires
                        0 <= x0 < md,
                        0 <= r0 < md,
                        md <= 3_037_000_499,
                ;
            }
            ret = ((ret as i128 * xx as i128) % (m as i128)) as i64;
            proof {
                assert(pow_mod_m(x0, p0, md) == (x0 * pow_mod_m(x0, (p0 - 1) as nat, md)) % md);
                lemma_mul_mod_noop_general(r0, x0 * pow_mod_m(x0, (p0 - 1) as nat, md), md);
                assert(r0 * (x0 * pow_mod_m(x0, (p0 - 1) as nat, md)) == (r0 * x0) * pow_mod_m(
                    x0,
                    (p0 - 1) as nat,
                    md,
                )) by (nonlinear_arith);
                lemma_mul_mod_noop_general(r0 * x0, pow_mod_m(x0, (p0 - 1) as nat, md), md);
                lemma_pow_mod_m_square(x0, ((p0 - 1) / 2) as nat, md);
                assert(2 * (((p0 - 1) / 2) as nat) == p0 - 1);
            }
        } else {
            proof {
                lemma_pow_mod_m_square(x0, (p0 / 2) as nat, md);
                assert(2 * ((p0 / 2) as nat) == p0);
            }
        }
        proof {
            assert(x0 * x0 <= 3_037_000_499int * 3_037_000_499 && x0 * x0 >= 0)
                by (nonlinear_arith)
                requires
                    0 <= x0 < md,
                    md <= 3_037_000_499,
            ;
        }
        xx = ((xx as i128 * xx as i128) % (m as i128)) as i64;
        pp = pp / 2;
        proof {
            lemma_mul_mod_noop_general(ret as int, pow_mod_m(xx as int, pp as nat, md), md);
            lemma_pow_mod_m_range(xx as int, pp as nat, md);
        }
    }
    proof {
        lemma_mul_mod_noop_general(ret as int, 1int, m as int);
        vstd::arithmetic::div_mod::lemma_small_mod(ret as nat, m as nat);
        assert((ret * (1int % (m as int))) % (m as int) == ret);
    }
    ret
}

/// Inverse of `x` modulo a prime `mod_num`, as the power `mod_num - 2`
/// (Fermat's little theorem).
pub fn modinv(x: i64, mod_num: i64) -> (r: i64)
    requires
        3 <= mod_num <= 3_037_000_499,
        0 <= x < mod_num,
    ensures
        0 <= r < mod_num,
        r == pow_mod_m(x as int, (mod_num - 2) as nat, mod_num as int),
{
    modpow(x, mod_num - 2, mod_num)
}

} // verus!
