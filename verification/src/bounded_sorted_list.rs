//! A list that keeps only the `size` entries with the smallest keys, sorted
//! ascending: the candidate pool of a beam search. Backed by a vector kept in
//! key order; inserting past the bound evicts an entry with the largest key.

use vstd::prelude::*;

verus! {

/// Keeps the top `size` entries by smallest `i64` key, in ascending key
/// order, ties in insertion order.
pub struct BoundedSortedList<V: Copy> {
    que: Vec<(i64, V)>,
    size: usize,
}

impl<V: Copy> BoundedSortedList<V> {
    /// The held entries, in ascending key order.
    pub closed spec fn entries(&self) -> Seq<(i64, V)> {
        self.que@
    }

    /// The bound on how many entries are held.
    pub closed spec fn cap(&self) -> int {
        self.size as int
    }

    /// At most `size` entries, in ascending key order.
    pub closed spec fn wf(&self) -> bool {
        &&& self.que@.len() <= self.size
        &&& forall|a: int, b: int|
            0 <= a < b < self.que@.len() ==> (#[trigger] self.que@[a]).0 <= (
            #[trigger] self.que@[b]).0
    }

    /// Empty list with the given bound.
    pub fn new(size: usize) -> (r: Self)
        ensures
            r.wf(),
            r.cap() == size,
            r.entries() == Seq::<(i64, V)>::empty(),
    {
        let r = Self { que: Vec::new(), size };
        proof {
            assert(r.entries() =~= Seq::<(i64, V)>::empty());
        }
        r
    }

    /// Whether inserting key `k` would change the list: room is left, or `k`
    /// beats the worst held key.
    pub fn can_insert(&self, k: i64) -> (r: bool)
        requires
            self.wf(),
            self.cap() >= 1,
        ensures
            r == (self.entries().len() < self.cap() || self.entries().last().0 > k),
    {
        self.que.len() < self.size || self.que[self.que.len() - 1].0 > k
    }

    /// Number of held entries.
    pub fn len(&self) -> (r: usize)
        ensures
            r == self.entries().len(),
    {
        self.que.len()
    }

    /// The held entries in ascending key order, worst last.
    pub fn list(&self) -> (r: Vec<(i64, V)>)
        requires
            self.wf(),
        ensures
            r@ == self.entries(),
            forall|a: int, b: int| 0 <= a < b < r@.len() ==> (#[trigger] r@[a]).0 <= (
            #[trigger] r@[b]).0,
    {
        let mut out: Vec<(i64, V)> = Vec::new();
        let mut i: usize = 0;
        while i < self.que.len()
            invariant
                out@.len() == i,
                i <= self.que@.len(),
                forall|q: int| 0 <= q < i ==> (#[trigger] out@[q]) == self.que@[q],
            decreases self.que@.len() - i,
        {
            out.push(self.que[i]);
            i += 1;
        }
        proof {
            assert(out@ =~= self.entries());
        }
        out
    }

    /// `p` is where a new entry with key `k` belongs in `s`: everything
    /// before it has a key at most `k`, everything from it on a larger key.
    /// For a sorted `s` this position is unique, so naming it pins the result
    /// of `insert` completely.
    pub open spec fn at_key_position(s: Seq<(i64, V)>, p: int, k: i64) -> bool {
        &&& 0 <= p <= s.len()
        &&& (forall|q: int| 0 <= q < p ==> (#[trigger] s[q]).0 <= k)
        &&& (p == s.len() || s[p].0 > k)
    }

    /// Place `(k, v)` at its key position, ties after their equals. With room
    /// left the entry is simply added; at the bound it replaces the last (a
    /// worst-key) entry when its key is strictly better, else nothing moves.
    #[verifier::loop_isolation(false)]
    pub fn insert(&mut self, k: i64, v: V)
        requires
            old(self).wf(),
            old(self).entries().len() < usize::MAX,
        ensures
            final(self).wf(),
            final(self).cap() == old(self).cap(),
            old(self).entries().len() < old(self).cap() ==> exists|p: int|
                #[trigger] Self::at_key_position(old(self).entries(), p, k) && final(self).entries()
                    == old(self).entries().insert(p, (k, v)),
            old(self).entries().len() >= old(self).cap() && old(self).cap() > 0 && old(
                self,
            ).entries().last().0 > k ==> exists|p: int|
                #[trigger] Self::at_key_position(old(self).entries().drop_last(), p, k)
                    && final(self).entries() == old(self).entries().drop_last().insert(
                    p,
                    (k, v),
                ),
            old(self).entries().len() >= old(self).cap() && !(old(self).cap() > 0 && old(
                self,
            ).entries().last().0 > k) ==> final(self).entries() == old(self).entries(),
    {
        if self.que.len() < self.size {
            let p = self.key_position(k);
            self.que.insert(p, (k, v));
            proof {
                self.lemma_sorted_after_insert(old(self).entries(), p as int, k, v);
            }
        } else if self.size > 0 && self.que[self.que.len() - 1].0 > k {
            let ghost whole = self.que@;
            let last = self.que.len() - 1;
            self.que.remove(last);
            proof {
                assert(self.que@ =~= whole.drop_last());
            }
            let p = self.key_position(k);
            let ghost trimmed = self.que@;
            self.que.insert(p, (k, v));
            proof {
                self.lemma_sorted_after_insert(trimmed, p as int, k, v);
            }
        }
    }

    /// The position before the first held key strictly above `k`.
    fn key_position(&self, k: i64) -> (p: usize)
        requires
            self.wf(),
        ensures
            Self::at_key_position(self.entries(), p as int, k),
    {
        let mut p: usize = 0;
        while p < self.que.len() && self.que[p].0 <= k
            invariant
                p <= self.que@.len(),
                forall|q: int| 0 <= q < p ==> (#[trigger] self.que@[q]).0 <= k,
            decreases self.que@.len() - p,
        {
            p += 1;
        }
        p
    }

    /// Inserting at the key position keeps the entries sorted.
    proof fn lemma_sorted_after_insert(&self, s: Seq<(i64, V)>, p: int, k: i64, v: V)
        requires
            0 <= p <= s.len(),
            forall|a: int, b: int| 0 <= a < b < s.len() ==> (#[trigger] s[a]).0 <= (
            #[trigger] s[b]).0,
            forall|q: int| 0 <= q < p ==> (#[trigger] s[q]).0 <= k,
            p == s.len() || s[p].0 > k,
            self.entries() == s.insert(p, (k, v)),
        ensures
            forall|a: int, b: int|
                0 <= a < b < self.entries().len() ==> (#[trigger] self.entries()[a]).0 <= (
                #[trigger] self.entries()[b]).0,
    {
        s.insert_ensures(p, (k, v));
        let t = self.entries();
        assert forall|a: int, b: int| 0 <= a < b < t.len() implies (#[trigger] t[a]).0 <= (
        #[trigger] t[b]).0 by {
            if a == p {
                // the new entry precedes only keys above it
                assert(t[b] == s[b - 1]);
                if b - 1 > p {
                    assert(s[p].0 <= s[b - 1].0);
                }
            } else if b == p {
                assert(t[a] == s[a]);
            } else {
                let a0 = if a < p {
                    a
                } else {
                    a - 1
                };
                let b0 = if b < p {
                    b
                } else {
                    b - 1
                };
                assert(t[a] == s[a0] && t[b] == s[b0]);
                if a0 < b0 {
                    assert(s[a0].0 <= s[b0].0);
                } else {
                    // a0 == b0 only straddling the insertion point
                    assert(a < p && b == p + 1 || a0 < b0);
                    assert(s[a0].0 <= k || true);
                }
            }
        }
    }
}

} // verus!
