//! Memoized recursion over a hash-map cache, on the Fibonacci recurrence:
//! each value is computed once and every later call finds it in the cache.

use vstd::prelude::*;
use std::collections::HashMap;

verus! {

broadcast use vstd::std_specs::hash::group_hash_axioms;

/// The Fibonacci numbers (0 below index 1).
pub open spec fn fib(k: int) -> int
    decreases k,
{
    if k <= 0 {
        0
    } else if k == 1 {
        1
    } else {
        fib(k - 2) + fib(k - 1)
    }
}

/// The Fibonacci numbers are non-negative and no larger than the powers of
/// two, so they fit the machine word for small indices.
proof fn lemma_fib_bound(k: int)
    ensures
        0 <= fib(k),
        k >= 0 ==> fib(k) <= vstd::arithmetic::power2::pow2(k as nat),
    decreases (if k >= 0 {
        k
    } else {
        0
    }),
{
    if k >= 2 {
        lemma_fib_bound(k - 2);
        lemma_fib_bound(k - 1);
        vstd::arithmetic::power2::lemma_pow2_adds((k - 2) as nat, 1);
        vstd::arithmetic::power2::lemma_pow2_adds((k - 1) as nat, 1);
        vstd::arithmetic::power2::lemma2_to64();
        vstd::arithmetic::power2::lemma_pow2_strictly_increases((k - 2) as nat, (k - 1) as nat);
    } else if k >= 0 {
        vstd::arithmetic::power2::lemma2_to64();
        vstd::arithmetic::power2::lemma_pow2_pos(k as nat);
    }
}

/// The cache is sound: it holds both base values and agrees with the
/// recurrence on every key it holds.
pub open spec fn memo_ok(memo: Map<i64, i64>) -> bool {
    &&& memo.contains_key(0)
    &&& memo.contains_key(1)
    &&& forall|k: i64| memo.contains_key(k) ==> (#[trigger] memo[k]) as int == fib(k as int)
}

/// `fib(n)` by memoized recursion: a cached value is returned at once, a
/// missing one is computed from its two predecessors and cached. The cache
/// stays sound and keeps everything it held.
pub fn memo_rec(n: i64, memo: &mut HashMap<i64, i64>) -> (r: i64)
    requires
        memo_ok(old(memo)@),
        0 <= n <= 62,
    ensures
        r as int == fib(n as int),
        memo_ok(final(memo)@),
        forall|k: i64| old(memo)@.contains_key(k) ==> final(memo)@.contains_key(k),
    decreases n,
{
    let cached: Option<i64> = match memo.get(&n) {
        Some(v) => Some(*v),
        None => None,
    };
    match cached {
        Some(v) => v,
        None => {
            proof {
                // both base keys are cached, so this key is above them
                assert(n != 0 && n != 1);
            }
            let a = memo_rec(n - 2, memo);
            let b = memo_rec(n - 1, memo);
            proof {
                lemma_fib_bound(n as int - 2);
                lemma_fib_bound(n as int - 1);
                lemma_fib_bound(n as int);
                vstd::arithmetic::power2::lemma2_to64();
                vstd::arithmetic::power2::lemma2_to64_rest();
                if n < 62 {
                    vstd::arithmetic::power2::lemma_pow2_strictly_increases(n as nat, 62);
                }
                assert(a as int + b as int == fib(n as int));
                assert(fib(n as int) <= vstd::arithmetic::power2::pow2(n as nat));
                assert(vstd::arithmetic::power2::pow2(62) == 0x4000000000000000);
                assert(fib(n as int) <= 0x4000000000000000);
            }
            let new = a + b;
            memo.insert(n, new);
            new
        },
    }
}

} // verus!
