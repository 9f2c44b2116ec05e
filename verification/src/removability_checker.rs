//! Precomputed removability table for square bit-pattern windows. A window of
//! side `w` is encoded as a `w*w`-bit pattern, cell `r*w + c` at bit `r*w+c`.
//! A filled cell may be removed exactly when the remaining filled cells still
//! form one 4-connected component; the table answers that for every pattern
//! with the centre cell dropped, so a search can test removals in O(1).

use vstd::prelude::*;

verus! {

/// Bit `i` of the pattern.
pub open spec fn bit_of(p: u32, i: int) -> bool {
    (p >> i as u32) & 1 == 1
}

/// The lowest set bit of `p` at or above `i` and below `w2`, or `w2` if none.
pub open spec fn first_cell_from(p: u32, i: int, w2: int) -> int
    decreases w2 - i,
{
    if i < 0 || i >= w2 {
        w2
    } else if bit_of(p, i) {
        i
    } else {
        first_cell_from(p, i + 1, w2)
    }
}

/// Four-neighbourhood of the `w`-wide grid: left/right within a row, up/down
/// within a column.
pub open spec fn grid_adj(w: int, a: int, b: int) -> bool {
    ||| (b == a + 1 && a % w < w - 1)
    ||| (a == b + 1 && b % w < w - 1)
    ||| b == a + w
    ||| a == b + w
}

/// One expansion round: a cell becomes visited if it was, or if it is filled
/// and touches a visited cell.
pub open spec fn reach_step(w: int, p: u32, vis: Seq<bool>) -> Seq<bool> {
    Seq::new(
        vis.len(),
        |i: int|
            vis[i] || (bit_of(p, i) && exists|j: int|
                0 <= j < vis.len() && vis[j] && grid_adj(w, j, i)),
    )
}

/// Cells reachable from `start` within `k` expansion rounds.
pub open spec fn reach(w: int, p: u32, start: int, k: nat) -> Seq<bool>
    decreases k,
{
    if k == 0 {
        Seq::new((w * w) as nat, |i: int| i == start)
    } else {
        reach_step(w, p, reach(w, p, start, (k - 1) as nat))
    }
}

/// The filled cells of `p` form one non-empty 4-connected component of the
/// `w`-by-`w` grid: every filled cell is reachable from the first filled cell
/// within `w*w` rounds (enough for any path in the grid).
pub open spec fn connected(w: int, p: u32) -> bool {
    let w2 = w * w;
    let s = first_cell_from(p, 0, w2);
    &&& p != 0
    &&& s < w2
    &&& forall|i: int| 0 <= i < w2 && bit_of(p, i) ==> reach(w, p, s, w2 as nat)[i]
}

/// The pattern with the centre cell cleared.
pub open spec fn drop_center(p: u32, w: int) -> u32 {
    p & !(1u32 << ((w * w / 2) as u32))
}

/// Removability table: entry `p` says whether the pattern `p`, with its
/// centre cell dropped, is still one connected component.
pub struct RemovabilityChecker {
    pub window: usize,
    pub removability: Vec<bool>,
}

/// Whether cells `a` and `b` of the `w`-wide grid are 4-neighbours.
fn adj(w: usize, a: usize, b: usize) -> (r: bool)
    requires
        1 <= w <= 30,
        w * w <= 30,
        a < w * w,
        b < w * w,
    ensures
        r == grid_adj(w as int, a as int, b as int),
{
    (b == a + 1 && a % w < w - 1) || (a == b + 1 && b % w < w - 1) || b == a + w || a == b + w
}

impl RemovabilityChecker {
    /// Build the table for all `2^(w*w)` patterns.
    #[verifier::loop_isolation(false)]
    pub fn new(window: usize) -> (r: Self)
        requires
            1 <= window,
            window * window <= 30,
        ensures
            r.window == window,
            r.removability@.len() == (1usize << (window * window)),
            forall|p: int|
                0 <= p < r.removability@.len() ==> r.removability@[p] == connected(
                    window as int,
                    drop_center(p as u32, window as int),
                ),
    {
        proof {
            assert(1 <= window * window && window <= window * window) by (nonlinear_arith)
                requires
                    1 <= window,
            ;
        }
        let w2 = window * window;
        let n: usize = 1usize << w2;
        let mut removability: Vec<bool> = Vec::new();
        let mut pattern: usize = 0;
        while pattern < n
            invariant
                removability@.len() == pattern,
                pattern <= n,
                forall|p: int|
                    0 <= p < pattern ==> removability@[p] == connected(
                        window as int,
                        drop_center(p as u32, window as int),
                    ),
            decreases n - pattern,
        {
            proof {
                assert((pattern as u32) < (1u32 << (w2 as u32)) && ((pattern as u32) & !(1u32 << ((
                w2 / 2) as u32))) < (1u32 << (w2 as u32))) by (bit_vector)
                    requires
                        pattern < (1usize << w2),
                        w2 <= 30,
                        1 <= w2,
                ;
                assert(drop_center(pattern as u32, window as int) == (pattern as u32) & !(1u32 << ((
                w2 / 2) as u32)));
            }
            let center_dropped = (pattern as u32) & !(1u32 << ((w2 / 2) as u32));
            let ok = Self::bfs(window, center_dropped);
            removability.push(ok);
            pattern += 1;
        }
        Self { window, removability }
    }

    /// Whether the filled cells of `pattern` form one non-empty 4-connected
    /// component: find the first filled cell, expand its neighbourhood to a
    /// fixed point, and check that every filled cell was reached.
    #[verifier::loop_isolation(false)]
    pub fn bfs(window: usize, pattern: u32) -> (r: bool)
        requires
            1 <= window,
            window * window <= 30,
            pattern < (1u32 << ((window * window) as u32)),
        ensures
            r == connected(window as int, pattern),
    {
        proof {
            assert(1 <= window * window && window <= window * window) by (nonlinear_arith)
                requires
                    1 <= window,
            ;
        }
        let w2 = window * window;
        if pattern == 0 {
            return false;
        }
        // first filled cell
        let mut s: usize = 0;
        while s < w2 && (pattern >> (s as u32)) & 1 != 1
            invariant
                0 <= s <= w2,
                first_cell_from(pattern, 0, w2 as int) == first_cell_from(
                    pattern,
                    s as int,
                    w2 as int,
                ),
            decreases w2 - s,
        {
            s += 1;
        }
        if s == w2 {
            // no filled cell below w2, yet pattern != 0: impossible under the
            // precondition, but harmless to answer directly
            proof {
                assert(first_cell_from(pattern, 0, w2 as int) == w2);
            }
            return false;
        }
        proof {
            assert(first_cell_from(pattern, 0, w2 as int) == s);
        }

        // iterate the expansion to its fixed point
        let mut vis: Vec<bool> = Vec::new();
        let mut i: usize = 0;
        while i < w2
            invariant
                vis@.len() == i,
                i <= w2,
                forall|q: int| 0 <= q < i ==> vis@[q] == (q == s as int),
            decreases w2 - i,
        {
            vis.push(i == s);
            i += 1;
        }
        proof {
            assert(vis@ =~= reach(window as int, pattern, s as int, 0));
        }
        let mut k: usize = 0;
        while k < w2
            invariant
                k <= w2,
                vis@.len() == w2,
                vis@ == reach(window as int, pattern, s as int, k as nat),
            decreases w2 - k,
        {
            let ghost old_vis = vis@;
            let mut nv: Vec<bool> = Vec::new();
            let mut i2: usize = 0;
            while i2 < w2
                invariant
                    nv@.len() == i2,
                    i2 <= w2,
                    vis@ == old_vis,
                    vis@.len() == w2,
                    forall|q: int| 0 <= q < i2 ==> nv@[q] == reach_step(
                        window as int,
                        pattern,
                        old_vis,
                    )[q],
                decreases w2 - i2,
            {
                let mut found = false;
                let mut j: usize = 0;
                if vis[i2] {
                    found = true;
                } else if (pattern >> (i2 as u32)) & 1 == 1 {
                    while j < w2
                        invariant
                            j <= w2,
                            vis@ == old_vis,
                            vis@.len() == w2,
                            i2 < w2,
                            found == exists|q: int|
                                0 <= q < j && old_vis[q] && grid_adj(
                                    window as int,
                                    q,
                                    i2 as int,
                                ),
                        decreases w2 - j,
                    {
                        if vis[j] && adj(window, j, i2) {
                            found = true;
                            proof {
                                assert(old_vis[j as int] && grid_adj(
                                    window as int,
                                    j as int,
                                    i2 as int,
                                ));
                            }
                            j = w2;
                        } else {
                            j += 1;
                        }
                    }
                }
                proof {
                    assert(nv@.push(found)[i2 as int] == reach_step(
                        window as int,
                        pattern,
                        old_vis,
                    )[i2 as int]);
                }
                nv.push(found);
                i2 += 1;
            }
            proof {
                assert(nv@ =~= reach_step(window as int, pattern, old_vis));
            }
            vis = nv;
            k += 1;
        }

        // every filled cell must have been reached
        let mut all = true;
        let mut i3: usize = 0;
        while i3 < w2
            invariant
                i3 <= w2,
                vis@.len() == w2,
                vis@ == reach(window as int, pattern, s as int, w2 as nat),
                all == forall|q: int|
                    0 <= q < i3 && bit_of(pattern, q) ==> reach(
                        window as int,
                        pattern,
                        s as int,
                        w2 as nat,
                    )[q],
            decreases w2 - i3,
        {
            if (pattern >> (i3 as u32)) & 1 == 1 && !vis[i3] {
                all = false;
                proof {
                    assert(bit_of(pattern, i3 as int) && !reach(
                        window as int,
                        pattern,
                        s as int,
                        w2 as nat,
                    )[i3 as int]);
                }
                i3 = w2;
            } else {
                i3 += 1;
            }
        }
        all
    }
}

} // verus!
