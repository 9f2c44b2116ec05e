//! Primality testing by trial division up to the square root.

use vstd::prelude::*;

verus! {

/// `n` has no proper divisor: no `d` with `2 <= d < n` divides it. (0 and 1
/// satisfy this vacuously, matching what trial division reports for them.)
pub open spec fn has_no_divisor(n: int) -> bool {
    forall|d: int| 2 <= d < n ==> #[trigger] (n % d) != 0
}

/// Trial division: whether no number up to the square root divides `n`, which
/// settles whether any number below `n` does. `O(sqrt n)`.
#[verifier::loop_isolation(false)]
pub fn is_prime(n: usize) -> (r: bool)
    ensures
        r == has_no_divisor(n as int),
{
    let mut i: usize = 2;
    while i <= n / i
        invariant
            2 <= i,
            i <= n || i == 2,
            forall|d: int| 2 <= d < i ==> #[trigger] ((n as int) % d) != 0,
        decreases n - i,
    {
        proof {
            // the loop guard says i * i <= n
            vstd::arithmetic::div_mod::lemma_fundamental_div_mod(n as int, i as int);
            assert(i * i <= n) by (nonlinear_arith)
                requires
                    i <= n / i,
                    2 <= i,
                    n as int == (i as int) * ((n as int) / (i as int)) + (n as int) % (
                    i as int),
                    (n as int) % (i as int) >= 0,
            ;
            assert(2 * i <= n) by (nonlinear_arith)
                requires
                    2 <= i,
                    i * i <= n,
            ;
        }
        if n % i == 0 {
            proof {
                assert(2 * i <= i * i) by (nonlinear_arith)
                    requires
                        2 <= i,
                ;
                assert(2 <= i < n);
                assert(!has_no_divisor(n as int));
            }
            return false;
        }
        i += 1;
    }
    proof {
        // past the square root: any divisor would have a cofactor below it
        vstd::arithmetic::div_mod::lemma_fundamental_div_mod(n as int, i as int);
        assert(n < i * i) by (nonlinear_arith)
            requires
                n / i < i,
                2 <= i,
                n as int == (i as int) * ((n as int) / (i as int)) + (n as int) % (i as int),
                0 <= (n as int) % (i as int) < i as int,
        ;
        assert forall|d: int| 2 <= d < n implies #[trigger] ((n as int) % d) != 0 by {
            if (n as int) % d == 0 {
                if d < i {
                } else {
                    vstd::arithmetic::div_mod::lemma_fundamental_div_mod(n as int, d);
                    let q = (n as int) / d;
                    assert(n == d * q);
                    // the cofactor is at least 2: otherwise d would be n
                    assert(2 <= q) by (nonlinear_arith)
                        requires
                            n == d * q,
                            2 <= d < n,
                            q >= 0,
                    ;
                    // and it sits below the square root, hence below i
                    assert(q < i) by (nonlinear_arith)
                        requires
                            n == d * q,
                            d >= i,
                            n < i * i,
                            q >= 0,
                            i >= 2,
                    ;
                    assert((n as int) % q == 0) by {
                        vstd::arithmetic::div_mod::lemma_mod_multiples_basic(d, q);
                        assert(n as int == d * q);
                    }
                    assert(false);
                }
            }
        }
    }
    true
}

/// Product of a sequence of factors.
pub open spec fn product_of(s: Seq<usize>) -> int
    decreases s.len(),
{
    if s.len() == 0 {
        1
    } else {
        product_of(s.drop_last()) * (s.last() as int)
    }
}

/// Divisibility carries down a factor chain: when `d` divides `i` and `i`
/// divides `m`, `d` divides `m`.
proof fn lemma_divides_transitive(d: int, i: int, m: int)
    requires
        1 <= d,
        1 <= i,
        0 <= m,
        i % d == 0,
        m % i == 0,
    ensures
        m % d == 0,
{
    vstd::arithmetic::div_mod::lemma_fundamental_div_mod(i, d);
    vstd::arithmetic::div_mod::lemma_fundamental_div_mod(m, i);
    let e = i / d;
    let q = m / i;
    assert(m == d * (e * q)) by (nonlinear_arith)
        requires
            i == d * e,
            m == i * q,
    ;
    vstd::arithmetic::div_mod::lemma_mod_multiples_basic(e * q, d);
}

/// A number with no divisor below its square root has no proper divisor.
proof fn lemma_no_divisor_past_sqrt(m: int, i: int)
    requires
        2 <= i,
        m < i * i,
        0 <= m,
        forall|d: int| 2 <= d < i ==> #[trigger] (m % d) != 0,
    ensures
        has_no_divisor(m),
{
    assert forall|d: int| 2 <= d < m implies #[trigger] (m % d) != 0 by {
        if m % d == 0 {
            if d < i {
            } else {
                vstd::arithmetic::div_mod::lemma_fundamental_div_mod(m, d);
                let q = m / d;
                assert(m == d * q);
                assert(2 <= q) by (nonlinear_arith)
                    requires
                        m == d * q,
                        2 <= d < m,
                        q >= 0,
                ;
                assert(q < i) by (nonlinear_arith)
                    requires
                        m == d * q,
                        d >= i,
                        m < i * i,
                        q >= 0,
                        i >= 2,
                ;
                assert(m % q == 0) by {
                    vstd::arithmetic::div_mod::lemma_mod_multiples_basic(d, q);
                    assert(m == d * q);
                }
                assert(false);
            }
        }
    }
}

/// Prime factorization by trial division: the non-decreasing list of primes
/// whose product is `n`. A number that is already prime (in the
/// `has_no_divisor` sense, so also 0 and 1) comes back as a single factor.
#[verifier::loop_isolation(false)]
#[verifier::rlimit(100)]
pub fn prime_factorization(n: usize) -> (r: Vec<usize>)
    ensures
        product_of(r@) == n,
        forall|k: int| 0 <= k < r@.len() ==> has_no_divisor(#[trigger] r@[k] as int),
        forall|k: int| 0 <= k && k + 1 < r@.len() ==> (#[trigger] r@[k]) <= r@[k + 1],
{
    if is_prime(n) {
        let mut factor: Vec<usize> = Vec::new();
        factor.push(n);
        proof {
            assert(factor@.drop_last() =~= Seq::<usize>::empty());
            assert(product_of(Seq::<usize>::empty()) == 1);
            assert(product_of(factor@) == 1 * (n as int));
        }
        factor
    } else {
        let mut factor: Vec<usize> = Vec::new();
        let mut m = n;
        let mut i: usize = 2;
        proof {
            // a number with a proper divisor is at least 2
            assert(n >= 2);
        }
        while i <= m / i
            invariant
                2 <= i,
                1 <= m,
                m <= n,
                i <= n + 1,
                product_of(factor@) * m == n,
                forall|d: int| 2 <= d < i ==> #[trigger] ((m as int) % d) != 0,
                forall|k: int| 0 <= k < factor@.len() ==> has_no_divisor(#[trigger] factor@[k] as int),
                forall|k: int| 0 <= k < factor@.len() ==> 2 <= (#[trigger] factor@[k]) <= i,
                forall|k: int| 0 <= k && k + 1 < factor@.len() ==> (#[trigger] factor@[k]) <= factor@[k + 1],
            decreases m, n + 1 - i,
        {
            let ghost mst = m as int;
            proof {
                vstd::arithmetic::div_mod::lemma_fundamental_div_mod(m as int, i as int);
                assert(i * i <= m) by (nonlinear_arith)
                    requires
                        i <= m / i,
                        2 <= i,
                        m as int == (i as int) * ((m as int) / (i as int)) + (m as int) % (
                        i as int),
                        (m as int) % (i as int) >= 0,
                ;
                assert(2 * i <= m) by (nonlinear_arith)
                    requires
                        2 <= i,
                        i * i <= m,
                ;
            }
            while m % i == 0
                invariant
                    2 <= i,
                    1 <= m,
                    m <= n,
                    m as int <= mst,
                    product_of(factor@) * m == n,
                    forall|d: int| 2 <= d < i ==> #[trigger] ((m as int) % d) != 0,
                    forall|k: int|
                        0 <= k < factor@.len() ==> has_no_divisor(#[trigger] factor@[k] as int),
                    forall|k: int| 0 <= k < factor@.len() ==> 2 <= (#[trigger] factor@[k]) <= i,
                    forall|k: int|
                        0 <= k && k + 1 < factor@.len() ==> (#[trigger] factor@[k]) <= factor@[k
                            + 1],
                decreases m,
            {
                let ghost m0 = m as int;
                let ghost f0 = factor@;
                proof {
                    vstd::arithmetic::div_mod::lemma_fundamental_div_mod(m as int, i as int);
                    // i itself has no proper divisor: one would divide m too
                    assert forall|d: int| 2 <= d < i implies #[trigger] ((i as int) % d)
                        != 0 by {
                        if (i as int) % d == 0 {
                            lemma_divides_transitive(d, i as int, m as int);
                            assert(false);
                        }
                    }
                    assert(has_no_divisor(i as int));
                }
                m = m / i;
                factor.push(i);
                proof {
                    assert(factor@.drop_last() =~= f0);
                    assert(m0 == i * m) by (nonlinear_arith)
                        requires
                            m0 % (i as int) == 0,
                            m == m0 / (i as int),
                            m0 == (i as int) * (m0 / (i as int)) + m0 % (i as int),
                    ;
                    assert(1 <= m && m < m0) by (nonlinear_arith)
                        requires
                            m0 == i * m,
                            1 <= m0,
                            0 <= m,
                            2 <= i,
                    ;
                    assert(product_of(factor@) * m == n) by (nonlinear_arith)
                        requires
                            product_of(factor@) == product_of(f0) * (i as int),
                            product_of(f0) * m0 == n,
                            m0 == i * m,
                    ;
                    // new small-divisor freedom: a divisor of the quotient
                    // divides the original
                    assert forall|d: int| 2 <= d < i implies #[trigger] ((m as int) % d)
                        != 0 by {
                        if (m as int) % d == 0 {
                            assert(m0 % (m as int) == 0) by {
                                vstd::arithmetic::div_mod::lemma_mod_multiples_basic(
                                    i as int,
                                    m as int,
                                );
                                assert(m0 == (i as int) * (m as int));
                            }
                            lemma_divides_transitive(d, m as int, m0);
                            assert(false);
                        }
                    }
                }
            }
            proof {
                assert(2 * (i as int) <= mst);
                assert(mst <= n as int);
                assert(i + 1 <= n + 1);
                assert(m as int <= mst);
            }
            i += 1;
        }
        proof {
            vstd::arithmetic::div_mod::lemma_fundamental_div_mod(m as int, i as int);
            assert(m < i * i) by (nonlinear_arith)
                requires
                    m / i < i,
                    2 <= i,
                    m as int == (i as int) * ((m as int) / (i as int)) + (m as int) % (i as int),
                    0 <= (m as int) % (i as int) < i as int,
            ;
            lemma_no_divisor_past_sqrt(m as int, i as int);
        }
        if m != 1 {
            let ghost f0 = factor@;
            proof {
                // the leftover is at least as large as every pushed factor
                assert(m >= i) by {
                    if m < i {
                        assert((m as int) % (m as int) == 0) by {
                            vstd::arithmetic::div_mod::lemma_mod_self_0(m as int);
                        }
                        assert(false);
                    }
                }
            }
            factor.push(m);
            proof {
                assert(factor@.drop_last() =~= f0);
                assert(factor@.last() == m);
                assert(product_of(factor@) == product_of(f0) * (m as int));
                assert(product_of(f0) * (m as int) == n);
                assert(product_of(factor@) == n);
            }
        }
        proof {
            if m == 1 {
                assert(product_of(factor@) * (m as int) == n);
                assert(product_of(factor@) == n) by (nonlinear_arith)
                    requires
                        product_of(factor@) * (m as int) == n as int,
                        m == 1,
                ;
            }
        }
        factor
    }
}

} // verus!
