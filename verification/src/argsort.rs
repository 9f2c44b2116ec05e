//! Index sort: the permutation that reads a vector in ascending order.

use vstd::prelude::*;

verus! {

/// Position `a` comes strictly before position `b` when reading `v` in
/// ascending, stable order: smaller value first, ties by position.
pub open spec fn reads_before(v: Seq<i64>, a: usize, b: usize) -> bool {
    v[a as int] < v[b as int] || (v[a as int] == v[b as int] && a < b)
}

/// The stable ascending permutation of indices: every position occurs, and
/// they are arranged so that the values they pick are non-decreasing, equal
/// values in their original order.
#[verifier::loop_isolation(false)]
pub fn argsort(v: &Vec<i64>) -> (idx: Vec<usize>)
    ensures
        idx@.len() == v@.len(),
        forall|q: int| 0 <= q < v@.len() ==> idx@.contains(#[trigger] (q as usize)),
        forall|k1: int, k2: int|
            0 <= k1 < k2 < idx@.len() ==> reads_before(v@, #[trigger] idx@[k1], #[trigger] idx@[k2]),
{
    let n = v.len();
    let mut idx: Vec<usize> = Vec::new();
    let mut q: usize = 0;
    while q < n
        invariant
            idx@.len() == q,
            q <= n,
            forall|k: int| 0 <= k < q ==> (#[trigger] idx@[k]) == k,
        decreases n - q,
    {
        idx.push(q);
        q += 1;
    }
    proof {
        assert forall|q2: int| 0 <= q2 < n implies idx@.contains(#[trigger] (q2 as usize)) by {
            assert(idx@[q2] == q2 as usize);
        }
    }
    let mut k: usize = 1;
    while k < n
        invariant
            idx@.len() == n,
            1 <= k || n == 0,
            forall|p: int| 0 <= p < n ==> (#[trigger] idx@[p] as int) < n,
            forall|q2: int| 0 <= q2 < n ==> idx@.contains(#[trigger] (q2 as usize)),
            forall|a: int, b: int| 0 <= a < b < n ==> #[trigger] idx@[a] != #[trigger] idx@[b],
            forall|a: int, b: int|
                0 <= a < b < k && b < n ==> reads_before(v@, #[trigger] idx@[a], #[trigger] idx@[b]),
        decreases n - k,
    {
        let mut j: usize = k;
        let mut go: usize = 1;
        while go == 1
            invariant
                go <= 1,
                j <= k,
                k < n,
                idx@.len() == n,
                forall|p: int| 0 <= p < n ==> (#[trigger] idx@[p] as int) < n,
                forall|q2: int| 0 <= q2 < n ==> idx@.contains(#[trigger] (q2 as usize)),
                forall|a: int, b: int| 0 <= a < b < n ==> #[trigger] idx@[a] != #[trigger] idx@[b],
                // sorted up to k, ignoring pairs that end at the travelling slot
                forall|a: int, b: int|
                    0 <= a < b <= k && b != j ==> reads_before(
                        v@,
                        #[trigger] idx@[a],
                        #[trigger] idx@[b],
                    ),
                // the travelling element precedes everything after it
                forall|b: int| j < b <= k ==> reads_before(v@, idx@[j as int], #[trigger] idx@[b]),
                // the walk stops only once the travelling element is in place
                go == 0 ==> j == 0 || reads_before(v@, idx@[j - 1], idx@[j as int]),
            decreases j + go,
        {
            if j == 0 {
                go = 0;
            } else {
                let x = idx[j];
                let y = idx[j - 1];
                if v[x] < v[y] || (v[x] == v[y] && x < y) {
                    let ghost pre = idx@;
                    idx[j - 1] = x;
                    idx[j] = y;
                    proof {
                        assert forall|q2: int| 0 <= q2 < n implies idx@.contains(#[trigger] (q2 as usize)) by {
                            let w = choose|w: int| 0 <= w < n && pre[w] == q2 as usize;
                            if w == j - 1 {
                                assert(idx@[j as int] == q2 as usize);
                            } else if w == j {
                                assert(idx@[j - 1] == q2 as usize);
                            } else {
                                assert(idx@[w] == q2 as usize);
                            }
                        }
                        assert forall|a: int, b: int| 0 <= a < b < n implies idx@[a]
                            != idx@[b] by {
                            assert(pre[a] != pre[b] || a == b);
                            if a == j - 1 || a == j || b == j - 1 || b == j {
                                assert(pre[j - 1] != pre[j as int]);
                            }
                        }
                    }
                    j -= 1;
                    proof {
                        // re-establish the hole invariants one slot lower
                        assert forall|a: int, b: int|
                            0 <= a < b <= k && b != j implies reads_before(
                            v@,
                            #[trigger] idx@[a],
                            #[trigger] idx@[b],
                        ) by {
                            if b == j + 1 {
                                // this slot now holds the displaced element
                                if a == j {
                                } else {
                                    assert(reads_before(v@, pre[a], pre[j as int]));
                                }
                            } else {
                                if a == j {
                                    assert(reads_before(v@, pre[j + 1], pre[b]));
                                } else if a == j + 1 {
                                    assert(reads_before(v@, pre[j as int], pre[b]));
                                } else {
                                    assert(reads_before(v@, pre[a], pre[b]));
                                }
                            }
                        }
                    }
                } else {
                    proof {
                        // the order is total on distinct positions
                        assert(x != y);
                        assert(reads_before(v@, y, x));
                    }
                    go = 0;
                }
            }
        }
        proof {
            // close the hole: everything before the travelling slot precedes it
            assert forall|a: int, b: int| 0 <= a < b <= k implies reads_before(
                v@,
                #[trigger] idx@[a],
                #[trigger] idx@[b],
            ) by {
                if b == j {
                    assert(j >= 1);
                    assert(reads_before(v@, idx@[j - 1], idx@[j as int]));
                    if a < j - 1 {
                        assert(reads_before(v@, idx@[a], idx@[j - 1]));
                    }
                }
            }
        }
        k += 1;
    }
    idx
}

} // verus!
