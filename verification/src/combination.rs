//! Binomial coefficients: the exact small-range value by the multiplicative
//! formula, a Pascal-triangle table of residues, and Lucas recombination of
//! the table for large arguments.

use vstd::prelude::*;
use vstd::arithmetic::div_mod::lemma_add_mod_noop;
use vstd::arithmetic::div_mod::lemma_mul_mod_noop_general;
use vstd::arithmetic::power2::pow2;

verus! {

/// Binomial coefficient by the Pascal recurrence; 0 when `k > n`.
pub open spec fn binom(n: nat, k: nat) -> nat
    decreases n,
{
    if k == 0 {
        1
    } else if n == 0 {
        0
    } else {
        binom((n - 1) as nat, (k - 1) as nat) + binom((n - 1) as nat, k)
    }
}

/// Rows are bounded by the powers of two.
proof fn lemma_binom_le_pow2(n: nat, k: nat)
    ensures
        binom(n, k) <= pow2(n),
    decreases n,
{
    vstd::arithmetic::power2::lemma_pow2_pos(n);
    if k == 0 {
    } else if n == 0 {
    } else {
        lemma_binom_le_pow2((n - 1) as nat, (k - 1) as nat);
        lemma_binom_le_pow2((n - 1) as nat, k);
        assert(pow2(n) == 2 * pow2((n - 1) as nat)) by {
            vstd::arithmetic::power2::lemma_pow2_unfold(n);
        }
    }
}

/// A coefficient above the diagonal vanishes.
proof fn lemma_binom_above(n: nat, k: nat)
    requires
        k > n,
    ensures
        binom(n, k) == 0,
    decreases n,
{
    if n > 0 {
        lemma_binom_above((n - 1) as nat, (k - 1) as nat);
        lemma_binom_above((n - 1) as nat, k);
    }
}

/// The diagonal is all ones.
proof fn lemma_binom_diag(n: nat)
    ensures
        binom(n, n) == 1,
    decreases n,
{
    if n > 0 {
        lemma_binom_diag((n - 1) as nat);
        lemma_binom_above((n - 1) as nat, n);
    }
}

/// The multiplicative step of the falling-factorial formula:
/// `k * C(n, k) == (n - k + 1) * C(n, k - 1)`.
proof fn lemma_binom_mul_step(n: nat, k: nat)
    requires
        1 <= k <= n,
    ensures
        k * binom(n, k) == (n - k + 1) * binom(n, (k - 1) as nat),
    decreases n,
{
    if k == n {
        lemma_binom_diag(n);
        lemma_binom_diag((n - 1) as nat);
        lemma_binom_above((n - 1) as nat, n);
        if k == 1 {
        } else {
            lemma_binom_mul_step((n - 1) as nat, (k - 1) as nat);
        }
        // C(n, n-1) == n follows from Pascal plus the inner diagonal
        assert(binom(n, (n - 1) as nat) == binom((n - 1) as nat, (n - 2) as nat) + 1 || n == 1);
        lemma_binom_edge(n);
    } else {
        // k < n: expand both sides with Pascal and recurse
        let n1 = (n - 1) as nat;
        let k1 = (k - 1) as nat;
        assert(binom(n, k) == binom(n1, k1) + binom(n1, k));
        assert(binom(n, k1) == (if k1 == 0 {
            binom(n1, k1)
        } else {
            binom(n1, (k1 - 1) as nat) + binom(n1, k1)
        }));
        if k1 == 0 {
            // k == 1: C(n,1) == n
            lemma_binom_edge_low(n);
        } else {
            lemma_binom_mul_step(n1, k);
            lemma_binom_mul_step(n1, k1);
            // k*C(n,k) = k*C(n-1,k-1) + k*C(n-1,k)
            //          = k*C(n-1,k-1) + (n-k)*C(n-1,k-1)
            //          = n*C(n-1,k-1)
            // (n-k+1)*C(n,k-1) = (n-k+1)*C(n-1,k-2) + (n-k+1)*C(n-1,k-1)
            //                  = (k-1)*C(n-1,k-1) + (n-k+1)*C(n-1,k-1)
            //                  = n*C(n-1,k-1)
            assert(k * binom(n, k) == k * binom(n1, k1) + k * binom(n1, k)) by (nonlinear_arith)
                requires
                    binom(n, k) == binom(n1, k1) + binom(n1, k),
            ;
            assert(k * binom(n1, k) == (n1 - k + 1) * binom(n1, k1));
            assert((n - k + 1) * binom(n, k1) == (n - k + 1) * binom(n1, (k1 - 1) as nat) + (n - k
                + 1) * binom(n1, k1)) by (nonlinear_arith)
                requires
                    binom(n, k1) == binom(n1, (k1 - 1) as nat) + binom(n1, k1),
            ;
            assert(k1 * binom(n1, k1) == (n1 - k1 + 1) * binom(n1, (k1 - 1) as nat));
            assert(k * binom(n, k) == (n - k + 1) * binom(n, k1)) by (nonlinear_arith)
                requires
                    k * binom(n, k) == k * binom(n1, k1) + k * binom(n1, k),
                    k * binom(n1, k) == (n1 - k + 1) * binom(n1, k1),
                    (n - k + 1) * binom(n, k1) == (n - k + 1) * binom(n1, (k1 - 1) as nat) + (n - k
                        + 1) * binom(n1, k1),
                    k1 * binom(n1, k1) == (n1 - k1 + 1) * binom(n1, (k1 - 1) as nat),
                    n1 == n - 1,
                    k1 == k - 1,
                    1 <= k < n,
            ;
        }
    }
}

/// `C(n, 1) == n`.
proof fn lemma_binom_edge_low(n: nat)
    ensures
        binom(n, 1) == n,
    decreases n,
{
    if n > 0 {
        lemma_binom_edge_low((n - 1) as nat);
        assert(binom(n, 1) == binom((n - 1) as nat, 0) + binom((n - 1) as nat, 1));
    } else {
        assert(binom(0, 1) == 0);
    }
}

/// `C(n, n-1) == n` for positive `n`.
proof fn lemma_binom_edge(n: nat)
    requires
        n >= 1,
    ensures
        binom(n, (n - 1) as nat) == n,
    decreases n,
{
    if n == 1 {
    } else {
        lemma_binom_edge((n - 1) as nat);
        lemma_binom_diag((n - 1) as nat);
    }
}

/// Exact binomial coefficient for small arguments, by the overflow-avoiding
/// interleaving of products and exact divisions:
/// `C(n,r) = (n/1) * ((n-1)/2) * ... * ((n-r+1)/r)`, each prefix already a
/// whole binomial coefficient.
#[allow(non_snake_case)]
#[verifier::loop_isolation(false)]
pub fn nCr_small(n: u128, r: u128) -> (c: u128)
    requires
        r <= n <= 100,
    ensures
        c == binom(n as nat, r as nat),
{
    let mut ncr: u128 = 1;
    let mut i: u128 = 1;
    while i <= r
        invariant
            1 <= i <= r + 1,
            ncr == binom(n as nat, (i - 1) as nat),
        decreases r + 1 - i,
    {
        proof {
            lemma_binom_mul_step(n as nat, i as nat);
            lemma_binom_le_pow2(n as nat, i as nat);
            vstd::arithmetic::power2::lemma_pow2_pos(100);
            if (n as nat) < 100 {
                vstd::arithmetic::power2::lemma_pow2_strictly_increases(n as nat, 100);
            }
            assert(binom(n as nat, i as nat) <= pow2(100));
            assert(pow2(108) < 0x1_0000_0000_0000_0000_0000_0000_0000_0000) by {
                vstd::arithmetic::power2::lemma2_to64();
                vstd::arithmetic::power2::lemma2_to64_rest();
                vstd::arithmetic::power2::lemma_pow2_adds(64, 36);
                vstd::arithmetic::power2::lemma_pow2_adds(100, 8);
                assert(pow2(100) == 0x10000000000000000 * 0x1000000000);
                assert(pow2(108) == pow2(100) * 0x100);
            }
            // the product this step forms is i * C(n, i), which is small
            assert(ncr * (n - i + 1) == i * binom(n as nat, i as nat)) by (nonlinear_arith)
                requires
                    ncr == binom(n as nat, (i - 1) as nat),
                    (i as nat) * binom(n as nat, i as nat) == (n - i + 1) * binom(
                        n as nat,
                        (i - 1) as nat,
                    ),
                    1 <= i <= n,
            ;
            assert(i * binom(n as nat, i as nat) <= 101 * pow2(100)) by (nonlinear_arith)
                requires
                    binom(n as nat, i as nat) <= pow2(100),
                    1 <= i <= 101,
            ;
            assert(101 * pow2(100) < pow2(108)) by {
                vstd::arithmetic::power2::lemma_pow2_adds(100, 8);
                vstd::arithmetic::power2::lemma2_to64();
                assert(pow2(108) == pow2(100) * 256);
                assert(101 * pow2(100) < 256 * pow2(100)) by (nonlinear_arith)
                    requires
                        pow2(100) >= 1,
                ;
            }
        }
        ncr = ncr * (n - i + 1);
        ncr = ncr / i;
        proof {
            vstd::arithmetic::div_mod::lemma_div_multiples_vanish(
                binom(n as nat, i as nat) as int,
                i as int,
            );
        }
        i += 1;
    }
    ncr
}

/// Pascal triangle of residues: entry `[i][j]` is `C(i, j) % p` (0 above the
/// diagonal, as the coefficient itself is).
#[verifier::loop_isolation(false)]
pub fn ncr_mod(p: usize) -> (r: Vec<Vec<usize>>)
    requires
        2 <= p <= 0x7fff_ffff,
    ensures
        r@.len() == p,
        forall|i: int| 0 <= i < p ==> (#[trigger] r@[i])@.len() == p,
        forall|i: int, j: int|
            0 <= i < p && 0 <= j < p ==> (#[trigger] r@[i]@[j]) as nat == binom(i as nat, j as nat)
                % (p as nat),
    {
    let mut comb: Vec<Vec<usize>> = Vec::new();
    let mut i: usize = 0;
    while i < p
        invariant
            comb@.len() == i,
            i <= p,
            forall|q: int| 0 <= q < i ==> (#[trigger] comb@[q])@.len() == p,
            forall|q: int, j: int| 0 <= q < i && 0 <= j < p ==> (#[trigger] comb@[q]@[j]) == 0,
        decreases p - i,
    {
        let mut row: Vec<usize> = Vec::new();
        let mut j: usize = 0;
        while j < p
            invariant
                row@.len() == j,
                j <= p,
                forall|q: int| 0 <= q < j ==> (#[trigger] row@[q]) == 0,
            decreases p - j,
        {
            row.push(0);
            j += 1;
        }
        comb.push(row);
        i += 1;
    }
    comb[0][0] = 1;
    proof {
        vstd::arithmetic::div_mod::lemma_small_mod(1nat, p as nat);
        assert(binom(0, 0) % (p as nat) == 1);
        assert forall|j: int| 1 <= j < p implies (#[trigger] comb@[0]@[j]) as nat == binom(
            0,
            j as nat,
        ) % (p as nat) by {
            lemma_binom_above(0, j as nat);
            assert(comb@[0]@[j] == 0);
            assert(binom(0, j as nat) % (p as nat) == 0) by {
                vstd::arithmetic::div_mod::lemma_small_mod(0nat, p as nat);
            }
        }
    }
    let mut i2: usize = 1;
    while i2 < p
        invariant
            2 <= p,
            comb@.len() == p,
            1 <= i2 <= p,
            forall|q: int| 0 <= q < p ==> (#[trigger] comb@[q])@.len() == p,
            forall|q: int, j: int|
                0 <= q < i2 && 0 <= j < p ==> (#[trigger] comb@[q]@[j]) as nat == binom(
                    q as nat,
                    j as nat,
                ) % (p as nat),
            forall|q: int, j: int|
                i2 <= q < p && 0 <= j < p ==> (#[trigger] comb@[q]@[j]) == 0,
        decreases p - i2,
    {
        comb[i2][0] = 1;
        proof {
            vstd::arithmetic::div_mod::lemma_small_mod(1nat, p as nat);
            assert(binom(i2 as nat, 0) % (p as nat) == 1);
        }
        let mut j2: usize = i2;
        while j2 >= 1
            invariant
                2 <= p,
                comb@.len() == p,
                1 <= i2 < p,
                0 <= j2 <= i2,
                forall|q: int| 0 <= q < p ==> (#[trigger] comb@[q])@.len() == p,
                forall|q: int, j: int|
                    0 <= q < i2 && 0 <= j < p ==> (#[trigger] comb@[q]@[j]) as nat == binom(
                        q as nat,
                        j as nat,
                    ) % (p as nat),
                comb@[i2 as int]@[0] == 1,
                forall|j: int|
                    j2 < j <= i2 ==> (#[trigger] comb@[i2 as int]@[j]) as nat == binom(
                        i2 as nat,
                        j as nat,
                    ) % (p as nat),
                forall|j: int| i2 < j < p ==> (#[trigger] comb@[i2 as int]@[j]) == 0,
                forall|q: int, j: int|
                    i2 < q < p && 0 <= j < p ==> (#[trigger] comb@[q]@[j]) == 0,
            decreases j2,
        {
            let a = comb[i2 - 1][j2 - 1];
            let b = comb[i2 - 1][j2];
            proof {
                lemma_add_mod_noop(
                    binom((i2 - 1) as nat, (j2 - 1) as nat) as int,
                    binom((i2 - 1) as nat, j2 as nat) as int,
                    p as int,
                );
            }
            comb[i2][j2] = (a + b) % p;
            j2 -= 1;
        }
        proof {
            assert forall|j: int| 0 <= j < p implies (#[trigger] comb@[i2 as int]@[j]) as nat
                == binom(i2 as nat, j as nat) % (p as nat) by {
                if j == 0 {
                    assert(comb@[i2 as int]@[0] == 1);
                    assert(binom(i2 as nat, 0) % (p as nat) == 1);
                } else if j <= i2 {
                    assert((comb@[i2 as int]@[j]) as nat == binom(i2 as nat, j as nat) % (
                    p as nat));
                } else {
                    lemma_binom_above(i2 as nat, j as nat);
                    assert(comb@[i2 as int]@[j] == 0);
                    assert(binom(i2 as nat, j as nat) % (p as nat) == 0) by {
                        vstd::arithmetic::div_mod::lemma_small_mod(0nat, p as nat);
                    }
                }
            }
        }
        i2 += 1;
    }
    comb
}

/// Lucas recombination: the product, modulo `p`, of the per-digit binomial
/// residues of `n` and `r` written in base `p`. For prime `p` this is
/// `C(n, r) % p` by Lucas's theorem.
pub open spec fn lucas_mod(n: nat, r: nat, p: nat) -> nat
    decreases n,
    via lucas_mod_decreases
{
    if p <= 1 {
        0
    } else if n == 0 {
        1nat % p
    } else {
        ((binom(n % p, r % p) % p) * lucas_mod(n / p, r / p, p)) % p
    }
}

#[via_fn]
proof fn lucas_mod_decreases(n: nat, r: nat, p: nat) {
    if p >= 2 && n > 0 {
        vstd::arithmetic::div_mod::lemma_div_decreases(n as int, p as int);
    }
}

/// `lucas_mod` lands in the canonical range.
proof fn lemma_lucas_range(n: nat, r: nat, p: nat)
    requires
        p >= 2,
    ensures
        lucas_mod(n, r, p) < p,
    decreases n,
{
    if n > 0 {
        vstd::arithmetic::div_mod::lemma_div_decreases(n as int, p as int);
        lemma_lucas_range(n / p, r / p, p);
    }
}

/// `C(n, r) % p` recombined from the Pascal table by Lucas's rule, in
/// `O(p^2 + log_p(n))`.
#[verifier::loop_isolation(false)]
pub fn ncr_lucas(n: usize, r: usize, p: usize) -> (res: usize)
    requires
        2 <= p <= 0x7fff_ffff,
    ensures
        res as nat == lucas_mod(n as nat, r as nat, p as nat),
{
    let mut ret: usize = 1;
    let comb = ncr_mod(p);
    let mut nn = n;
    let mut rr = r;
    proof {
        lemma_lucas_range(n as nat, r as nat, p as nat);
        lemma_mul_mod_noop_general(1int, lucas_mod(n as nat, r as nat, p as nat) as int, p as int);
        vstd::arithmetic::div_mod::lemma_small_mod(
            lucas_mod(n as nat, r as nat, p as nat),
            p as nat,
        );
    }
    while nn > 0
        invariant
            ret < p,
            ((ret as nat) * lucas_mod(nn as nat, rr as nat, p as nat)) % (p as nat) == lucas_mod(
                n as nat,
                r as nat,
                p as nat,
            ),
        decreases nn,
    {
        let ghost r0 = ret as int;
        let ghost l1 = lucas_mod((nn / p) as nat, (rr / p) as nat, p as nat) as int;
        let ghost c0 = (binom((nn % p) as nat, (rr % p) as nat) % (p as nat)) as int;
        let ghost md = p as int;
        let n_next = nn % p;
        let r_next = rr % p;
        let c = comb[n_next][r_next];
        proof {
            assert(c as int == c0);
            assert(0 <= c0 < md);
            assert((r0 * c0) < md * md && 0 <= r0 * c0) by (nonlinear_arith)
                requires
                    0 <= r0 < md,
                    0 <= c0 < md,
            ;
            assert(md * md <= 0x7fff_ffff_i64 * 0x7fff_ffff) by (nonlinear_arith)
                requires
                    2 <= md <= 0x7fff_ffff,
            ;
            // fold the digit factor into the accumulator
            assert(lucas_mod(nn as nat, rr as nat, p as nat) == ((c0 * l1) % md) as nat);
            lemma_mul_mod_noop_general(r0, c0 * l1, md);
            assert(r0 * (c0 * l1) == (r0 * c0) * l1) by (nonlinear_arith);
            lemma_mul_mod_noop_general(r0 * c0, l1, md);
            vstd::arithmetic::div_mod::lemma_div_decreases(nn as int, p as int);
        }
        let wide = (ret as u64) * (c as u64);
        ret = (wide % (p as u64)) as usize;
        nn = nn / p;
        rr = rr / p;
        proof {
            lemma_mul_mod_noop_general(
                ret as int,
                lucas_mod(nn as nat, rr as nat, p as nat) as int,
                md,
            );
            lemma_lucas_range(nn as nat, rr as nat, p as nat);
        }
    }
    proof {
        lemma_mul_mod_noop_general(ret as int, 1int, p as int);
        vstd::arithmetic::div_mod::lemma_small_mod(ret as nat, p as nat);
        assert(((ret as nat) * (1nat % (p as nat))) % (p as nat) == ret as nat);
    }
    ret
}

} // verus!
