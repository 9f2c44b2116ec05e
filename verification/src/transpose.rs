//! Transpose of a rectangular two-dimensional array.

use vstd::prelude::*;

verus! {

/// The transpose: entry `[i][j]` of the result is entry `[j][i]` of the
/// input. Rows must be at least as long as the first row, whose length
/// becomes the height of the result.
#[verifier::loop_isolation(false)]
pub fn transpose(a: &Vec<Vec<i64>>) -> (r: Vec<Vec<i64>>)
    requires
        a@.len() >= 1,
        forall|i: int| 0 <= i < a@.len() ==> (#[trigger] a@[i])@.len() >= a@[0]@.len(),
    ensures
        r@.len() == a@[0]@.len(),
        forall|i: int| 0 <= i < r@.len() ==> (#[trigger] r@[i])@.len() == a@.len(),
        forall|i: int, j: int|
            0 <= i < r@.len() && 0 <= j < a@.len() ==> (#[trigger] r@[i]@[j]) == a@[j]@[i],
{
    let h = a.len();
    let w = a[0].len();
    let mut a_t: Vec<Vec<i64>> = Vec::new();
    let mut wi: usize = 0;
    while wi < w
        invariant
            a_t@.len() == wi,
            wi <= w,
            forall|i: int| 0 <= i < wi ==> (#[trigger] a_t@[i])@.len() == h,
            forall|i: int, j: int| 0 <= i < wi && 0 <= j < h ==> (#[trigger] a_t@[i]@[j]) == 0,
        decreases w - wi,
    {
        let mut row: Vec<i64> = Vec::new();
        let mut hi: usize = 0;
        while hi < h
            invariant
                row@.len() == hi,
                hi <= h,
                forall|j: int| 0 <= j < hi ==> (#[trigger] row@[j]) == 0,
            decreases h - hi,
        {
            row.push(0);
            hi += 1;
        }
        a_t.push(row);
        wi += 1;
    }
    let mut hi: usize = 0;
    while hi < h
        invariant
            hi <= h,
            a_t@.len() == w,
            forall|i: int| 0 <= i < w ==> (#[trigger] a_t@[i])@.len() == h,
            forall|i: int, j: int|
                0 <= i < w && 0 <= j < hi ==> (#[trigger] a_t@[i]@[j]) == a@[j]@[i],
        decreases h - hi,
    {
        let mut wi2: usize = 0;
        while wi2 < w
            invariant
                wi2 <= w,
                hi < h,
                a_t@.len() == w,
                forall|i: int| 0 <= i < w ==> (#[trigger] a_t@[i])@.len() == h,
                forall|i: int, j: int|
                    0 <= i < w && 0 <= j < hi ==> (#[trigger] a_t@[i]@[j]) == a@[j]@[i],
                forall|i: int|
                    0 <= i < wi2 ==> (#[trigger] a_t@[i]@[hi as int]) == a@[hi as int]@[i],
            decreases w - wi2,
        {
            a_t[wi2][hi] = a[hi][wi2];
            wi2 += 1;
        }
        hi += 1;
    }
    a_t
}

} // verus!
