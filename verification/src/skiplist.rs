//! Indexable skip list: a probabilistic ordered sequence addressed purely by
//! position. Elements live in an arena of nodes; each node takes part in
//! `height` levels, sampled once at insertion, and stores per level the arena
//! index of the next node at that level together with a span: the number of
//! elements that link steps over (target included). Walking any level from
//! the sentinel head and summing spans therefore recovers 1-based positions,
//! which is what turns an ordinary skip list into one keyed by index.
//!
//! The abstract model is the sequence of stored values in positional order
//! (the `view`); every operation's contract is stated against it.

use vstd::prelude::*;

use crate::xoshiro256::Xoshiro256;
use crate::xoshiro256::xoshiro_next_state;
use crate::xoshiro256::xoshiro_output;

verus! {

/// Number of levels of the sentinel head, and the cap on sampled heights.
pub const MAX_LEVEL: usize = 20;

/// Seed for the height-sampling generator a fresh container owns.
pub const DEFAULT_SEED: u64 = 0x9fb21c651e98df25;

/// One arena slot. `value` is `None` exactly while the slot sits on the free
/// list; a live node stores its element, its height, and one `(next, skip)`
/// pair per level it takes part in. `next[l]` is the arena index of the next
/// node participating in level `l` (`None` at the end of that level's chain)
/// and `skip[l]` the number of elements that step covers.
struct Node<T> {
    value: Option<T>,
    height: usize,
    next: Vec<Option<usize>>,
    skip: Vec<usize>,
}

/// Indexable skip list. Owns a sentinel head (the `head_*` vectors, always
/// `MAX_LEVEL` levels) and an arena of nodes; removed slots are recycled
/// through a free list. The ghost `order` sequence lists the arena indices of
/// the live nodes in positional order and is the bridge between the pointer
/// structure and the abstract sequence.
pub struct SkipList<T> {
    head_next: Vec<Option<usize>>,
    head_skip: Vec<usize>,
    nodes: Vec<Node<T>>,
    free: Vec<usize>,
    len: usize,
    rng: Xoshiro256,
    order: Ghost<Seq<usize>>,
}

impl<T> View for SkipList<T> {
    type V = Seq<T>;

    closed spec fn view(&self) -> Seq<T> {
        Seq::new(self.order@.len(), |q: int| self.nodes@[self.order@[q] as int].value->Some_0)
    }
}

/// The height that the sampling walk yields from generator state `s` when it
/// already stands at `level`: while the low bit of the next draw says
/// continue and the cap is not reached, step the generator and go one level
/// up; otherwise stop where it stands. Each draw of height `k < MAX_LEVEL`
/// therefore needs `k` coin flips, the last one a stop.
pub open spec fn sample_height(s: [u64; 4], level: int) -> int
    decreases MAX_LEVEL - level,
{
    if (xoshiro_output(s) & 1) == 1 && level < MAX_LEVEL {
        sample_height(xoshiro_next_state(s), level + 1)
    } else {
        level
    }
}

/// The arena index standing at position `p`, with `-1` denoting the head.
spec fn cur_of(ord: Seq<usize>, p: int) -> Option<usize> {
    if p == -1 {
        None
    } else {
        Some(ord[p])
    }
}

impl<T> SkipList<T> {
    /// Arena indices of the live nodes in positional order.
    pub closed spec fn ord(&self) -> Seq<usize> {
        self.order@
    }

    spec fn height_of(&self, i: usize) -> int {
        self.nodes@[i as int].height as int
    }

    /// Position `p` takes part in level `l`: the head does at every level,
    /// a node at the levels below its height.
    pub closed spec fn is_part(&self, ord: Seq<usize>, l: int, p: int) -> bool {
        p == -1 || (0 <= p < ord.len() && self.height_of(ord[p]) > l)
    }

    /// Forward link at level `l` out of position `p`.
    spec fn nxt_of(&self, ord: Seq<usize>, l: int, p: int) -> Option<usize> {
        if p == -1 {
            self.head_next@[l]
        } else {
            self.nodes@[ord[p] as int].next@[l]
        }
    }

    /// Span at level `l` out of position `p`.
    pub closed spec fn skp_of(&self, ord: Seq<usize>, l: int, p: int) -> int {
        if p == -1 {
            self.head_skip@[l] as int
        } else {
            self.nodes@[ord[p] as int].skip@[l] as int
        }
    }

    /// The link out of position `p` at level `l` is sound: it covers at least
    /// one element, lands on the next position taking part in level `l`
    /// (skipping only lower nodes), and is `None` exactly when it runs off
    /// the end of the sequence.
    spec fn link_wf(&self, ord: Seq<usize>, l: int, p: int) -> bool {
        let s = self.skp_of(ord, l, p);
        &&& 1 <= s
        &&& p + s <= ord.len()
        &&& (p + s == ord.len() ==> self.nxt_of(ord, l, p) is None)
        &&& (p + s < ord.len() ==> self.nxt_of(ord, l, p) == Some(ord[p + s])
            && self.height_of(ord[p + s]) > l)
        &&& (forall|q: int| p < q < p + s ==> self.height_of(#[trigger] ord[q]) <= l)
    }

    /// Every participant of level `l` carries a sound link.
    spec fn level_wf(&self, ord: Seq<usize>, l: int) -> bool {
        forall|p: int|
            -1 <= p < ord.len() && self.is_part(ord, l, p) ==> #[trigger] self.link_wf(
                ord,
                l,
                p,
            )
    }

    /// Arena slot `i` holds a live node: a stored value, a height within
    /// bounds, and link arrays of exactly that height.
    spec fn node_wf(&self, i: usize) -> bool {
        &&& (i as int) < self.nodes@.len()
        &&& self.nodes@[i as int].value is Some
        &&& 1 <= self.nodes@[i as int].height <= MAX_LEVEL
        &&& self.nodes@[i as int].next@.len() == self.nodes@[i as int].height
        &&& self.nodes@[i as int].skip@.len() == self.nodes@[i as int].height
    }

    spec fn nodes_wf(&self, ord: Seq<usize>) -> bool {
        &&& (forall|p: int| 0 <= p < ord.len() ==> self.node_wf(#[trigger] ord[p]))
        &&& (forall|p: int, q: int| 0 <= p < q < ord.len() ==> ord[p] != ord[q])
    }

    /// Free-list slots are valid arena indices, pairwise distinct, and none
    /// of them is live.
    spec fn free_wf(&self, ord: Seq<usize>) -> bool {
        &&& (forall|k: int|
            0 <= k < self.free@.len() ==> (#[trigger] self.free@[k] as int) < self.nodes@.len()
                && !ord.contains(self.free@[k]))
        &&& (forall|j: int, k: int| 0 <= j < k < self.free@.len() ==> self.free@[j] != self.free@[k])
    }

    /// Structural invariant: established by construction and preserved by
    /// every operation.
    pub closed spec fn wf(&self) -> bool {
        &&& self.head_next@.len() == MAX_LEVEL
        &&& self.head_skip@.len() == MAX_LEVEL
        &&& self.len == self.ord().len()
        &&& self.nodes_wf(self.ord())
        &&& self.free_wf(self.ord())
        &&& (forall|l: int| 0 <= l < MAX_LEVEL ==> #[trigger] self.level_wf(self.ord(), l))
    }

    /// The state of the owned height-sampling generator.
    pub closed spec fn rng_state(&self) -> [u64; 4] {
        self.rng.state()
    }

    /// Empty container: head links all `None`, head spans all 1, length 0,
    /// with the height-sampling generator at a fixed default seed.
    pub fn new() -> (r: Self)
        ensures
            r.wf(),
            r@ == Seq::<T>::empty(),
            r.rng_state() == Xoshiro256::seeded_state(DEFAULT_SEED),
    {
        Self::with_seed(DEFAULT_SEED)
    }

    /// Empty container whose height sampling starts from the given seed: the
    /// heights drawn, and so the whole structure, are a function of the seed
    /// and the operation history alone.
    pub fn with_seed(seed: u64) -> (r: Self)
        ensures
            r.wf(),
            r@ == Seq::<T>::empty(),
            r.rng_state() == Xoshiro256::seeded_state(seed),
    {
        let mut head_next: Vec<Option<usize>> = Vec::new();
        let mut head_skip: Vec<usize> = Vec::new();
        while head_next.len() < MAX_LEVEL
            invariant
                head_next@.len() <= MAX_LEVEL,
                head_skip@.len() == head_next@.len(),
                forall|k: int| 0 <= k < head_next@.len() ==> (#[trigger] head_next@[k]) is None,
                forall|k: int| 0 <= k < head_skip@.len() ==> (#[trigger] head_skip@[k]) == 1,
            decreases MAX_LEVEL - head_next@.len(),
        {
            head_next.push(None);
            head_skip.push(1);
        }
        let r = SkipList {
            head_next,
            head_skip,
            nodes: Vec::new(),
            free: Vec::new(),
            len: 0,
            rng: Xoshiro256::new(seed),
            order: Ghost(Seq::empty()),
        };
        proof {
            assert forall|l: int| 0 <= l < MAX_LEVEL implies #[trigger] r.level_wf(r.ord(), l) by {
                assert forall|p: int|
                    -1 <= p < r.ord().len() && r.is_part(r.ord(), l, p) implies #[trigger] r.link_wf(
                    r.ord(),
                    l,
                    p,
                ) by {
                    assert(p == -1);
                    assert(r.skp_of(r.ord(), l, p) == 1);
                }
            }
            assert(r@ =~= Seq::<T>::empty());
        }
        r
    }

    /// Number of stored elements.
    pub fn len(&self) -> (r: usize)
        requires
            self.wf(),
        ensures
            r == self@.len(),
    {
        self.len
    }

    /// Read the `(next, skip)` pair at level `l` out of the head (`cur` is
    /// `None`) or out of an arena node.
    fn link_of(&self, cur: Option<usize>, l: usize) -> (r: (Option<usize>, usize))
        requires
            l < MAX_LEVEL,
            self.head_next@.len() == MAX_LEVEL,
            self.head_skip@.len() == MAX_LEVEL,
            match cur {
                Some(i) => (i as int) < self.nodes@.len() && l < self.nodes@[i as int].next@.len()
                    && l < self.nodes@[i as int].skip@.len(),
                None => true,
            },
        ensures
            match cur {
                None => r.0 == self.head_next@[l as int] && r.1 == self.head_skip@[l as int],
                Some(i) => r.0 == self.nodes@[i as int].next@[l as int] && r.1
                    == self.nodes@[i as int].skip@[l as int],
            },
    {
        match cur {
            None => (self.head_next[l], self.head_skip[l]),
            Some(i) => (self.nodes[i].next[l], self.nodes[i].skip[l]),
        }
    }

    /// Two containers with equal structural fields (only the random state may
    /// differ) describe the same sequence and are equally well formed.
    proof fn lemma_same_fields(a: Self, b: Self)
        requires
            a.wf(),
            b.head_next == a.head_next,
            b.head_skip == a.head_skip,
            b.nodes == a.nodes,
            b.free == a.free,
            b.len == a.len,
            b.order == a.order,
        ensures
            b.wf(),
            b@ == a@,
    {
        assert forall|l: int| 0 <= l < MAX_LEVEL implies #[trigger] b.level_wf(b.ord(), l) by {
            assert(a.level_wf(a.ord(), l));
            Self::lemma_level_eq(a, b, a.ord(), l);
        }
        assert forall|p: int| 0 <= p < b.ord().len() implies b.node_wf(#[trigger] b.ord()[p]) by {
            assert(a.node_wf(a.ord()[p]));
        }
        assert forall|k: int| 0 <= k < b.free@.len() implies (#[trigger] b.free@[k] as int)
            < b.nodes@.len() && !b.ord().contains(b.free@[k]) by {
            assert((a.free@[k] as int) < a.nodes@.len() && !a.ord().contains(a.free@[k]));
        }
        assert(b@ =~= a@);
    }

    /// Once the node arena and head satisfy every structural condition for a
    /// given order, a container whose bookkeeping fields (length, ghost
    /// order) are set to match is well formed.
    proof fn lemma_retag(a: Self, b: Self, ord: Seq<usize>)
        requires
            b.head_next == a.head_next,
            b.head_skip == a.head_skip,
            b.nodes == a.nodes,
            b.free == a.free,
            a.head_next@.len() == MAX_LEVEL,
            a.head_skip@.len() == MAX_LEVEL,
            a.nodes_wf(ord),
            forall|k: int|
                0 <= k < a.free@.len() ==> (#[trigger] a.free@[k] as int) < a.nodes@.len()
                    && !ord.contains(a.free@[k]),
            forall|j: int, k: int| 0 <= j < k < a.free@.len() ==> a.free@[j] != a.free@[k],
            forall|l: int| 0 <= l < MAX_LEVEL ==> #[trigger] a.level_wf(ord, l),
            b.len == ord.len(),
            b.ord() == ord,
        ensures
            b.wf(),
    {
        assert forall|p: int| 0 <= p < ord.len() implies b.node_wf(#[trigger] ord[p]) by {
            assert(a.node_wf(ord[p]));
        }
        assert forall|k: int| 0 <= k < b.free@.len() implies (#[trigger] b.free@[k] as int)
            < b.nodes@.len() && !ord.contains(b.free@[k]) by {
            assert((a.free@[k] as int) < a.nodes@.len() && !ord.contains(a.free@[k]));
        }
        assert forall|l: int| 0 <= l < MAX_LEVEL implies #[trigger] b.level_wf(b.ord(), l) by {
            assert(a.level_wf(ord, l));
            assert forall|q: int| 0 <= q < ord.len() implies b.height_of(#[trigger] ord[q])
                == a.height_of(ord[q]) by {}
            Self::lemma_level_eq(a, b, ord, l);
        }
    }

    /// A level whose links, spans and participant heights agree in two
    /// containers is sound in one exactly when it is sound in the other.
    proof fn lemma_level_eq(a: Self, b: Self, ord: Seq<usize>, l: int)
        requires
            a.level_wf(ord, l),
            forall|q: int|
                0 <= q < ord.len() ==> b.height_of(#[trigger] ord[q]) == a.height_of(ord[q]),
            forall|p: int|
                -1 <= p < ord.len() && a.is_part(ord, l, p) ==> #[trigger] b.nxt_of(ord, l, p)
                    == a.nxt_of(ord, l, p),
            forall|p: int|
                -1 <= p < ord.len() && a.is_part(ord, l, p) ==> #[trigger] b.skp_of(ord, l, p)
                    == a.skp_of(ord, l, p),
        ensures
            b.level_wf(ord, l),
    {
        assert forall|p: int|
            -1 <= p < ord.len() && b.is_part(ord, l, p) implies #[trigger] b.link_wf(
            ord,
            l,
            p,
        ) by {
            assert(a.is_part(ord, l, p));
            assert(a.link_wf(ord, l, p));
            assert(b.skp_of(ord, l, p) == a.skp_of(ord, l, p));
            assert(b.nxt_of(ord, l, p) == a.nxt_of(ord, l, p));
            let s = b.skp_of(ord, l, p);
            assert forall|q: int| p < q < p + s implies b.height_of(#[trigger] ord[q]) <= l by {
                assert(a.height_of(ord[q]) <= l);
            }
        }
    }

    /// After splicing a fresh node of sufficient height into level `l` at
    /// position `tgt` — predecessor `p` now spans to the new node, the new
    /// node takes over the remainder of the old link — the level is sound for
    /// the order with the node inserted.
    #[verifier::rlimit(100)]
    proof fn lemma_insert_splice(a: Self, b: Self, ord0: Seq<usize>, l: int, p: int, tgt: int, idx: usize)
        requires
            a.level_wf(ord0, l),
            0 <= tgt <= ord0.len(),
            -1 <= p < tgt,
            a.is_part(ord0, l, p),
            p + a.skp_of(ord0, l, p) >= tgt,
            !ord0.contains(idx),
            forall|q: int|
                0 <= q < ord0.len() ==> b.height_of(#[trigger] ord0[q]) == a.height_of(ord0[q]),
            forall|p2: int|
                -1 <= p2 < ord0.len() && p2 != p ==> #[trigger] b.nxt_of(ord0, l, p2) == a.nxt_of(
                    ord0,
                    l,
                    p2,
                ),
            forall|p2: int|
                -1 <= p2 < ord0.len() && p2 != p ==> #[trigger] b.skp_of(ord0, l, p2) == a.skp_of(
                    ord0,
                    l,
                    p2,
                ),
            b.nxt_of(ord0, l, p) == Some(idx),
            b.skp_of(ord0, l, p) == tgt - p,
            b.nodes@[idx as int].next@[l] == a.nxt_of(ord0, l, p),
            b.nodes@[idx as int].skip@[l] == p + a.skp_of(ord0, l, p) + 1 - tgt,
            b.height_of(idx) > l,
        ensures
            b.level_wf(ord0.insert(tgt, idx), l),
    {
        let ord1 = ord0.insert(tgt, idx);
        ord0.insert_ensures(tgt, idx);
        let sa = a.skp_of(ord0, l, p);
        assert(a.link_wf(ord0, l, p));
        assert forall|p2: int|
            -1 <= p2 < ord1.len() && b.is_part(ord1, l, p2) implies #[trigger] b.link_wf(
            ord1,
            l,
            p2,
        ) by {
            if p2 == tgt {
                // the fresh node: it inherits the tail of the old link
                assert(ord1[tgt] == idx);
                assert(b.skp_of(ord1, l, p2) == b.nodes@[idx as int].skip@[l] as int);
                assert(b.nxt_of(ord1, l, p2) == b.nodes@[idx as int].next@[l]);
                assert(b.skp_of(ord1, l, p2) == p + sa + 1 - tgt);
                if p + sa < ord0.len() {
                    assert(ord1[p + sa + 1] == ord0[p + sa]);
                    assert(b.nxt_of(ord1, l, p2) == Some(ord0[p + sa]));
                }
                assert forall|q: int| p2 < q < p2 + b.skp_of(ord1, l, p2) implies b.height_of(
                    #[trigger] ord1[q],
                ) <= l by {
                    assert(ord1[q] == ord0[q - 1]);
                    assert(a.height_of(ord0[q - 1]) <= l);
                }
            } else if p2 == p {
                // the predecessor now spans exactly to the fresh node
                assert(b.skp_of(ord1, l, p2) == b.skp_of(ord0, l, p));
                assert(b.nxt_of(ord1, l, p2) == b.nxt_of(ord0, l, p));
                assert(b.skp_of(ord1, l, p2) == tgt - p);
                assert(ord1[tgt] == idx);
                assert(b.nxt_of(ord1, l, p2) == Some(idx));
                assert forall|q: int| p2 < q < tgt implies b.height_of(#[trigger] ord1[q])
                    <= l by {
                    assert(ord1[q] == ord0[q]);
                    assert(a.height_of(ord0[q]) <= l);
                }
            } else if p2 < tgt {
                // untouched participant strictly before the splice point
                assert(ord1[p2] == ord0[p2] || p2 == -1);
                assert(a.is_part(ord0, l, p2));
                if p2 > p {
                    // would sit between the predecessor and the splice point
                    assert(a.height_of(ord0[p2]) <= l);
                    assert(false);
                }
                assert(a.link_wf(ord0, l, p2));
                let s2 = a.skp_of(ord0, l, p2);
                // its link cannot jump over the participant at p
                if p2 + s2 > p {
                    assert(a.height_of(ord0[p]) <= l);
                    assert(false);
                }
                assert(b.nxt_of(ord0, l, p2) == a.nxt_of(ord0, l, p2));
                assert(b.skp_of(ord0, l, p2) == a.skp_of(ord0, l, p2));
                assert(b.skp_of(ord1, l, p2) == b.skp_of(ord0, l, p2));
                assert(b.nxt_of(ord1, l, p2) == b.nxt_of(ord0, l, p2));
                assert(b.skp_of(ord1, l, p2) == s2);
                assert(ord1[p2 + s2] == ord0[p2 + s2]);
                assert(b.nxt_of(ord1, l, p2) == Some(ord0[p2 + s2]));
                assert forall|q: int| p2 < q < p2 + s2 implies b.height_of(#[trigger] ord1[q])
                    <= l by {
                    assert(ord1[q] == ord0[q]);
                    assert(a.height_of(ord0[q]) <= l);
                }
            } else {
                // shifted participant after the splice point
                let q0 = p2 - 1;
                assert(ord1[p2] == ord0[q0]);
                assert(a.is_part(ord0, l, q0));
                assert(a.link_wf(ord0, l, q0));
                let s2 = a.skp_of(ord0, l, q0);
                assert(b.nxt_of(ord0, l, q0) == a.nxt_of(ord0, l, q0));
                assert(b.skp_of(ord0, l, q0) == a.skp_of(ord0, l, q0));
                assert(b.skp_of(ord1, l, p2) == b.skp_of(ord0, l, q0));
                assert(b.nxt_of(ord1, l, p2) == b.nxt_of(ord0, l, q0));
                assert(b.skp_of(ord1, l, p2) == s2);
                if q0 + s2 < ord0.len() {
                    assert(ord1[q0 + s2 + 1] == ord0[q0 + s2]);
                    assert(b.nxt_of(ord1, l, p2) == Some(ord0[q0 + s2]));
                }
                assert forall|q: int| p2 < q < p2 + s2 implies b.height_of(#[trigger] ord1[q])
                    <= l by {
                    assert(ord1[q] == ord0[q - 1]);
                    assert(a.height_of(ord0[q - 1]) <= l);
                }
            }
        }
    }

    /// After inserting a node too low for level `l`, whose only effect there
    /// is that the link spanning the insertion point grew by one, the level
    /// is sound for the order with the node inserted.
    #[verifier::rlimit(100)]
    proof fn lemma_insert_keep(a: Self, b: Self, ord0: Seq<usize>, l: int, p: int, tgt: int, idx: usize)
        requires
            a.level_wf(ord0, l),
            0 <= tgt <= ord0.len(),
            -1 <= p < tgt,
            a.is_part(ord0, l, p),
            p + a.skp_of(ord0, l, p) >= tgt,
            !ord0.contains(idx),
            forall|q: int|
                0 <= q < ord0.len() ==> b.height_of(#[trigger] ord0[q]) == a.height_of(ord0[q]),
            forall|p2: int|
                -1 <= p2 < ord0.len() && p2 != p ==> #[trigger] b.nxt_of(ord0, l, p2) == a.nxt_of(
                    ord0,
                    l,
                    p2,
                ),
            forall|p2: int|
                -1 <= p2 < ord0.len() && p2 != p ==> #[trigger] b.skp_of(ord0, l, p2) == a.skp_of(
                    ord0,
                    l,
                    p2,
                ),
            b.nxt_of(ord0, l, p) == a.nxt_of(ord0, l, p),
            b.skp_of(ord0, l, p) == a.skp_of(ord0, l, p) + 1,
            b.height_of(idx) <= l,
        ensures
            b.level_wf(ord0.insert(tgt, idx), l),
    {
        let ord1 = ord0.insert(tgt, idx);
        ord0.insert_ensures(tgt, idx);
        let sa = a.skp_of(ord0, l, p);
        assert(a.link_wf(ord0, l, p));
        assert forall|p2: int|
            -1 <= p2 < ord1.len() && b.is_part(ord1, l, p2) implies #[trigger] b.link_wf(
            ord1,
            l,
            p2,
        ) by {
            if p2 == tgt {
                // the fresh node does not take part in this level
                assert(ord1[tgt] == idx);
                assert(false);
            } else if p2 == p {
                // the spanning link grew by one
                assert(b.skp_of(ord1, l, p2) == b.skp_of(ord0, l, p));
                assert(b.nxt_of(ord1, l, p2) == b.nxt_of(ord0, l, p));
                assert(b.skp_of(ord1, l, p2) == sa + 1);
                if p + sa < ord0.len() {
                    assert(ord1[p + sa + 1] == ord0[p + sa]);
                    assert(b.nxt_of(ord1, l, p2) == Some(ord0[p + sa]));
                }
                assert forall|q: int| p2 < q < p2 + sa + 1 implies b.height_of(#[trigger] ord1[q])
                    <= l by {
                    if q < tgt {
                        assert(ord1[q] == ord0[q]);
                        assert(a.height_of(ord0[q]) <= l);
                    } else if q == tgt {
                        assert(ord1[q] == idx);
                    } else {
                        assert(ord1[q] == ord0[q - 1]);
                        assert(a.height_of(ord0[q - 1]) <= l);
                    }
                }
            } else if p2 < tgt {
                assert(ord1[p2] == ord0[p2] || p2 == -1);
                assert(a.is_part(ord0, l, p2));
                if p2 > p {
                    assert(a.height_of(ord0[p2]) <= l);
                    assert(false);
                }
                assert(a.link_wf(ord0, l, p2));
                let s2 = a.skp_of(ord0, l, p2);
                if p2 + s2 > p {
                    assert(a.height_of(ord0[p]) <= l);
                    assert(false);
                }
                assert(b.nxt_of(ord0, l, p2) == a.nxt_of(ord0, l, p2));
                assert(b.skp_of(ord0, l, p2) == a.skp_of(ord0, l, p2));
                assert(b.skp_of(ord1, l, p2) == b.skp_of(ord0, l, p2));
                assert(b.nxt_of(ord1, l, p2) == b.nxt_of(ord0, l, p2));
                assert(b.skp_of(ord1, l, p2) == s2);
                assert(ord1[p2 + s2] == ord0[p2 + s2]);
                assert(b.nxt_of(ord1, l, p2) == Some(ord0[p2 + s2]));
                assert forall|q: int| p2 < q < p2 + s2 implies b.height_of(#[trigger] ord1[q])
                    <= l by {
                    assert(ord1[q] == ord0[q]);
                    assert(a.height_of(ord0[q]) <= l);
                }
            } else {
                let q0 = p2 - 1;
                assert(ord1[p2] == ord0[q0]);
                assert(a.is_part(ord0, l, q0));
                assert(a.link_wf(ord0, l, q0));
                let s2 = a.skp_of(ord0, l, q0);
                assert(b.nxt_of(ord0, l, q0) == a.nxt_of(ord0, l, q0));
                assert(b.skp_of(ord0, l, q0) == a.skp_of(ord0, l, q0));
                assert(b.skp_of(ord1, l, p2) == b.skp_of(ord0, l, q0));
                assert(b.nxt_of(ord1, l, p2) == b.nxt_of(ord0, l, q0));
                assert(b.skp_of(ord1, l, p2) == s2);
                if q0 + s2 < ord0.len() {
                    assert(ord1[q0 + s2 + 1] == ord0[q0 + s2]);
                    assert(b.nxt_of(ord1, l, p2) == Some(ord0[q0 + s2]));
                }
                assert forall|q: int| p2 < q < p2 + s2 implies b.height_of(#[trigger] ord1[q])
                    <= l by {
                    assert(ord1[q] == ord0[q - 1]);
                    assert(a.height_of(ord0[q - 1]) <= l);
                }
            }
        }
    }

    /// Membership in a sequence with one element inserted.
    proof fn lemma_insert_contains(s: Seq<usize>, i: int, v: usize, x: usize)
        requires
            0 <= i <= s.len(),
        ensures
            s.insert(i, v).contains(x) <==> (s.contains(x) || x == v),
    {
        s.insert_ensures(i, v);
        let s1 = s.insert(i, v);
        if s1.contains(x) {
            let q = choose|q: int| 0 <= q < s1.len() && s1[q] == x;
            if q < i {
                assert(s[q] == x);
            } else if q == i {
            } else {
                assert(s[q - 1] == x);
            }
        }
        if s.contains(x) {
            let q = choose|q: int| 0 <= q < s.len() && s[q] == x;
            if q < i {
                assert(s1[q] == x);
            } else {
                assert(s1[q + 1] == x);
            }
        }
        if x == v {
            assert(s1[i] == x);
        }
    }

    /// Write the `(next, skip)` pair at level `l` of the head (`cur` is
    /// `None`) or of an arena node; nothing else changes.
    fn set_link(&mut self, cur: Option<usize>, l: usize, nxt: Option<usize>, skp: usize)
        requires
            l < MAX_LEVEL,
            old(self).head_next@.len() == MAX_LEVEL,
            old(self).head_skip@.len() == MAX_LEVEL,
            match cur {
                Some(i) => (i as int) < old(self).nodes@.len() && (l as int) < old(
                    self,
                ).nodes@[i as int].next@.len() && (l as int) < old(
                    self,
                ).nodes@[i as int].skip@.len(),
                None => true,
            },
        ensures
            match cur {
                None => {
                    &&& final(self).head_next@ == old(self).head_next@.update(l as int, nxt)
                    &&& final(self).head_skip@ == old(self).head_skip@.update(l as int, skp)
                    &&& final(self).nodes == old(self).nodes
                },
                Some(i) => {
                    &&& final(self).head_next == old(self).head_next
                    &&& final(self).head_skip == old(self).head_skip
                    &&& final(self).nodes@.len() == old(self).nodes@.len()
                    &&& (forall|j: int|
                        0 <= j < old(self).nodes@.len() && j != i as int
                            ==> final(self).nodes@[j] == old(self).nodes@[j])
                    &&& final(self).nodes@[i as int].value == old(self).nodes@[i as int].value
                    &&& final(self).nodes@[i as int].height == old(self).nodes@[i as int].height
                    &&& final(self).nodes@[i as int].next@ == old(
                        self,
                    ).nodes@[i as int].next@.update(l as int, nxt)
                    &&& final(self).nodes@[i as int].skip@ == old(
                        self,
                    ).nodes@[i as int].skip@.update(l as int, skp)
                },
            },
            final(self).free == old(self).free,
            final(self).len == old(self).len,
            final(self).rng == old(self).rng,
            final(self).order == old(self).order,
    {
        match cur {
            None => {
                self.head_next[l] = nxt;
                self.head_skip[l] = skp;
            },
            Some(i) => {
                self.nodes[i].next[l] = nxt;
                self.nodes[i].skip[l] = skp;
            },
        }
    }

    /// Sample the height of a fresh node: exactly the walk `sample_height`
    /// describes, taking one fair coin per level from the owned generator —
    /// at least 1, at most the cap. Only the random state changes.
    fn gen_level(&mut self) -> (h: usize)
        ensures
            1 <= h <= MAX_LEVEL,
            h as int == sample_height(old(self).rng.state(), 1),
            final(self).head_next == old(self).head_next,
            final(self).head_skip == old(self).head_skip,
            final(self).nodes == old(self).nodes,
            final(self).free == old(self).free,
            final(self).len == old(self).len,
            final(self).order == old(self).order,
    {
        let ghost s0 = self.rng.state();
        let mut level: usize = 1;
        let mut go = (self.rng.next_u64() & 1) == 1;
        while go && level < MAX_LEVEL
            invariant
                1 <= level <= MAX_LEVEL,
                sample_height(s0, 1) == (if go && level < MAX_LEVEL {
                    sample_height(self.rng.state(), level as int + 1)
                } else {
                    level as int
                }),
                self.head_next == old(self).head_next,
                self.head_skip == old(self).head_skip,
                self.nodes == old(self).nodes,
                self.free == old(self).free,
                self.len == old(self).len,
                self.order == old(self).order,
            decreases MAX_LEVEL - level,
        {
            let ghost sc = self.rng.state();
            level += 1;
            go = (self.rng.next_u64() & 1) == 1;
            proof {
                assert(sample_height(sc, level as int) == (if go && level < MAX_LEVEL {
                    sample_height(self.rng.state(), level as int + 1)
                } else {
                    level as int
                }));
            }
        }
        level
    }

    /// Insert `element` at position `index`, shifting later elements right.
    /// A fresh node of sampled height is spliced into every level below its
    /// height; every link spanning the insertion point at a higher level
    /// simply grows by one.
    #[verifier::loop_isolation(false)]
    #[verifier::rlimit(100)]
    pub fn insert(&mut self, index: usize, element: T)
        requires
            old(self).wf(),
            index <= old(self)@.len(),
            old(self)@.len() < usize::MAX - 1,
        ensures
            final(self).wf(),
            final(self)@ == old(self)@.insert(index as int, element),
    {
        let ghost ord0 = old(self).ord();
        let ghost tgt = index as int;
        let ghost e = element;

        let h = self.gen_level();
        proof {
            Self::lemma_same_fields(*old(self), *self);
        }

        // fresh node; its per-level links are written during the descent
        let mut nnext: Vec<Option<usize>> = Vec::new();
        let mut nskip: Vec<usize> = Vec::new();
        while nnext.len() < h
            invariant
                nnext@.len() <= h,
                nskip@.len() == nnext@.len(),
            decreases h - nnext@.len(),
        {
            nnext.push(None);
            nskip.push(0);
        }
        let node = Node { value: Some(element), height: h, next: nnext, skip: nskip };
        let ghost pre = *self;
        let idx: usize = match self.free.pop() {
            Some(s) => {
                self.nodes[s] = node;
                s
            },
            None => {
                let s = self.nodes.len();
                self.nodes.push(node);
                s
            },
        };
        let ghost new_ord = ord0.insert(tgt, idx);

        proof {
            ord0.insert_ensures(tgt, idx);
            assert(!ord0.contains(idx));
            assert forall|q: int| 0 <= q < ord0.len() implies self.nodes@[#[trigger] ord0[q] as int]
                == pre.nodes@[ord0[q] as int] by {
                assert(ord0[q] != idx);
            }
            assert forall|q: int| 0 <= q < ord0.len() implies self.node_wf(#[trigger] ord0[q]) by {
                assert(pre.node_wf(ord0[q]));
            }
            assert forall|l2: int| 0 <= l2 < MAX_LEVEL implies #[trigger] self.level_wf(
                ord0,
                l2,
            ) by {
                assert(pre.level_wf(ord0, l2));
                assert forall|q: int| 0 <= q < ord0.len() implies self.height_of(#[trigger] ord0[q])
                    == pre.height_of(ord0[q]) by {}
                assert forall|p2: int| -1 <= p2 < ord0.len() implies #[trigger] self.nxt_of(
                    ord0,
                    l2,
                    p2,
                ) == pre.nxt_of(ord0, l2, p2) && self.skp_of(ord0, l2, p2) == pre.skp_of(
                    ord0,
                    l2,
                    p2,
                ) by {
                    if p2 >= 0 {
                        assert(ord0[p2] != idx);
                    }
                }
                Self::lemma_level_eq(pre, *self, ord0, l2);
            }
        }

        let mut l: usize = MAX_LEVEL;
        let mut cur: Option<usize> = None;
        let mut off: usize = index;
        let ghost mut p: int = -1;
        while l > 0
            invariant
                0 <= tgt <= ord0.len(),
                ord0.len() < usize::MAX - 1,
                self.head_next@.len() == MAX_LEVEL,
                self.head_skip@.len() == MAX_LEVEL,
                self.nodes_wf(ord0),
                !ord0.contains(idx),
                (idx as int) < self.nodes@.len(),
                self.nodes@[idx as int].value == Some(e),
                self.nodes@[idx as int].height == h,
                self.nodes@[idx as int].next@.len() == h,
                self.nodes@[idx as int].skip@.len() == h,
                1 <= h <= MAX_LEVEL,
                forall|q: int|
                    0 <= q < ord0.len() ==> self.nodes@[#[trigger] ord0[q] as int].value == old(
                        self,
                    ).nodes@[ord0[q] as int].value,
                forall|k: int|
                    0 <= k < self.free@.len() ==> (#[trigger] self.free@[k] as int)
                        < self.nodes@.len() && !ord0.contains(self.free@[k]) && self.free@[k]
                        != idx,
                forall|j: int, k: int|
                    0 <= j < k < self.free@.len() ==> self.free@[j] != self.free@[k],
                self.len == ord0.len(),
                0 <= l <= MAX_LEVEL,
                -1 <= p < tgt,
                p + off + 1 == tgt,
                cur == cur_of(ord0, p),
                self.is_part(ord0, l as int, p),
                forall|l2: int| l <= l2 < MAX_LEVEL ==> #[trigger] self.level_wf(new_ord, l2),
                forall|l2: int| 0 <= l2 < l ==> #[trigger] self.level_wf(ord0, l2),
            decreases l,
        {
            l -= 1;
            proof {
                assert(self.is_part(ord0, l as int, p));
                assert(self.level_wf(ord0, l as int));
                assert(self.link_wf(ord0, l as int, p));
                if p >= 0 {
                    assert(self.node_wf(ord0[p]));
                }
            }
            let pair = self.link_of(cur, l);
            let mut nxt = pair.0;
            let mut skp = pair.1;
            while skp <= off
                invariant
                    0 <= tgt <= ord0.len(),
                    l < MAX_LEVEL,
                    -1 <= p < tgt,
                    p + off + 1 == tgt,
                    cur == cur_of(ord0, p),
                    self.is_part(ord0, l as int, p),
                    nxt == self.nxt_of(ord0, l as int, p),
                    skp == self.skp_of(ord0, l as int, p),
                    self.nodes_wf(ord0),
                    self.level_wf(ord0, l as int),
                    self.head_next@.len() == MAX_LEVEL,
                    self.head_skip@.len() == MAX_LEVEL,
                decreases off,
            {
                proof {
                    assert(self.link_wf(ord0, l as int, p));
                    assert(p + skp < tgt);
                    assert(p + skp < ord0.len());
                }
                off -= skp;
                proof {
                    p = p + skp as int;
                }
                cur = nxt;
                proof {
                    assert(0 <= p < ord0.len());
                    assert(self.height_of(ord0[p]) > l as int);
                    assert(self.is_part(ord0, l as int, p));
                    assert(self.link_wf(ord0, l as int, p));
                    assert(self.node_wf(ord0[p]));
                }
                let pair2 = self.link_of(cur, l);
                nxt = pair2.0;
                skp = pair2.1;
            }
            proof {
                assert(skp == self.skp_of(ord0, l as int, p) && skp > off);
                assert(p + self.skp_of(ord0, l as int, p) >= tgt);
                assert(self.link_wf(ord0, l as int, p));
                assert(p + skp <= ord0.len());
                if p >= 0 {
                    assert(self.node_wf(ord0[p]));
                }
            }
            let ghost aa = *self;
            if l < h {
                // splice the fresh node into this level
                self.set_link(Some(idx), l, nxt, skp - off);
                self.set_link(cur, l, Some(idx), off + 1);
                proof {
                    assert forall|q: int| 0 <= q < ord0.len() implies self.height_of(
                        #[trigger] ord0[q],
                    ) == aa.height_of(ord0[q]) by {
                        assert(ord0[q] != idx);
                    }
                    assert forall|p2: int| -1 <= p2 < ord0.len() && p2 != p implies #[trigger] self.nxt_of(
                        ord0,
                        l as int,
                        p2,
                    ) == aa.nxt_of(ord0, l as int, p2) && self.skp_of(ord0, l as int, p2)
                        == aa.skp_of(ord0, l as int, p2) by {
                        if p2 >= 0 {
                            assert(ord0[p2] != idx);
                            if p >= 0 {
                                assert(ord0[p2] != ord0[p]);
                            }
                        }
                    }
                    assert(self.nxt_of(ord0, l as int, p) == Some(idx));
                    assert(self.skp_of(ord0, l as int, p) == tgt - p);
                    assert(self.nodes@[idx as int].next@[l as int] == aa.nxt_of(ord0, l as int, p));
                    assert(self.nodes@[idx as int].skip@[l as int] as int == p + aa.skp_of(
                        ord0,
                        l as int,
                        p,
                    ) + 1 - tgt);
                    Self::lemma_insert_splice(aa, *self, ord0, l as int, p, tgt, idx);
                    assert(self.level_wf(new_ord, l as int));
                }
            } else {
                // too low for this level: the spanning link grows by one
                self.set_link(cur, l, nxt, skp + 1);
                proof {
                    assert forall|q: int| 0 <= q < ord0.len() implies self.height_of(
                        #[trigger] ord0[q],
                    ) == aa.height_of(ord0[q]) by {
                        assert(ord0[q] != idx);
                    }
                    assert forall|p2: int| -1 <= p2 < ord0.len() && p2 != p implies #[trigger] self.nxt_of(
                        ord0,
                        l as int,
                        p2,
                    ) == aa.nxt_of(ord0, l as int, p2) && self.skp_of(ord0, l as int, p2)
                        == aa.skp_of(ord0, l as int, p2) by {
                        if p2 >= 0 && p >= 0 {
                            assert(ord0[p2] != ord0[p]);
                        }
                    }
                    assert(self.nxt_of(ord0, l as int, p) == aa.nxt_of(ord0, l as int, p));
                    assert(self.skp_of(ord0, l as int, p) == aa.skp_of(ord0, l as int, p) + 1);
                    assert(self.height_of(idx) == h <= l as int);
                    Self::lemma_insert_keep(aa, *self, ord0, l as int, p, tgt, idx);
                    assert(self.level_wf(new_ord, l as int));
                }
            }
            proof {
                // the other levels are untouched by the writes above
                assert forall|q: int| 0 <= q < new_ord.len() implies aa.node_wf(
                    #[trigger] new_ord[q],
                ) by {
                    if q < tgt {
                        assert(new_ord[q] == ord0[q]);
                        assert(aa.node_wf(ord0[q]));
                    } else if q == tgt {
                        assert(new_ord[q] == idx);
                    } else {
                        assert(new_ord[q] == ord0[q - 1]);
                        assert(aa.node_wf(ord0[q - 1]));
                    }
                }
                assert forall|q: int| 0 <= q < new_ord.len() implies self.height_of(
                    #[trigger] new_ord[q],
                ) == aa.height_of(new_ord[q]) by {
                    assert(aa.node_wf(new_ord[q]));
                }
                assert forall|l2: int| l as int + 1 <= l2 < MAX_LEVEL implies #[trigger] self.level_wf(
                    new_ord,
                    l2,
                ) by {
                    assert(aa.level_wf(new_ord, l2));
                    assert forall|p2: int|
                        -1 <= p2 < new_ord.len() && aa.is_part(new_ord, l2, p2)
                            implies #[trigger] self.nxt_of(new_ord, l2, p2) == aa.nxt_of(
                        new_ord,
                        l2,
                        p2,
                    ) && self.skp_of(new_ord, l2, p2) == aa.skp_of(new_ord, l2, p2) by {
                        if p2 >= 0 {
                            assert(aa.node_wf(new_ord[p2]));
                            assert(aa.height_of(new_ord[p2]) > l2);
                        }
                    }
                    Self::lemma_level_eq(aa, *self, new_ord, l2);
                }
                assert forall|l2: int| 0 <= l2 < l implies #[trigger] self.level_wf(
                    ord0,
                    l2,
                ) by {
                    assert(aa.level_wf(ord0, l2));
                    assert forall|p2: int|
                        -1 <= p2 < ord0.len() && aa.is_part(ord0, l2, p2) implies #[trigger] self.nxt_of(
                        ord0,
                        l2,
                        p2,
                    ) == aa.nxt_of(ord0, l2, p2) && self.skp_of(ord0, l2, p2) == aa.skp_of(
                        ord0,
                        l2,
                        p2,
                    ) by {
                        if p2 >= 0 {
                            assert(aa.node_wf(ord0[p2]));
                            assert(aa.height_of(ord0[p2]) > l2);
                            assert(ord0[p2] != idx);
                        }
                    }
                    Self::lemma_level_eq(aa, *self, ord0, l2);
                }
                assert forall|q: int| 0 <= q < ord0.len() implies self.node_wf(
                    #[trigger] ord0[q],
                ) by {
                    assert(aa.node_wf(ord0[q]));
                }
            }
        }
        let ghost fin0 = *self;
        proof {
            assert forall|q: int| 0 <= q < new_ord.len() implies fin0.node_wf(
                #[trigger] new_ord[q],
            ) by {
                if q < tgt {
                    assert(new_ord[q] == ord0[q]);
                    assert(fin0.node_wf(ord0[q]));
                } else if q == tgt {
                    assert(new_ord[q] == idx);
                } else {
                    assert(new_ord[q] == ord0[q - 1]);
                    assert(fin0.node_wf(ord0[q - 1]));
                }
            }
            assert forall|q1: int, q2: int| 0 <= q1 < q2 < new_ord.len() implies new_ord[q1]
                != new_ord[q2] by {
                if q1 == tgt {
                    assert(new_ord[q1] == idx && new_ord[q2] == ord0[q2 - 1]);
                } else if q2 == tgt {
                    assert(new_ord[q2] == idx);
                    assert(new_ord[q1] == ord0[q1]);
                } else if q2 < tgt {
                    assert(new_ord[q1] == ord0[q1] && new_ord[q2] == ord0[q2]);
                } else if q1 > tgt {
                    assert(new_ord[q1] == ord0[q1 - 1] && new_ord[q2] == ord0[q2 - 1]);
                } else {
                    assert(new_ord[q1] == ord0[q1] && new_ord[q2] == ord0[q2 - 1]);
                }
            }
            assert forall|k: int| 0 <= k < fin0.free@.len() implies (
            #[trigger] fin0.free@[k] as int) < fin0.nodes@.len() && !new_ord.contains(
                fin0.free@[k],
            ) by {
                Self::lemma_insert_contains(ord0, tgt, idx, fin0.free@[k]);
            }
        }
        self.len = self.len + 1;
        proof {
            self.order@ = new_ord;
            Self::lemma_retag(fin0, *self, new_ord);
            old(self)@.insert_ensures(tgt, e);
            assert forall|q: int| 0 <= q < new_ord.len() implies self@[q] == old(self)@.insert(
                tgt,
                e,
            )[q] by {
                if q < tgt {
                    assert(new_ord[q] == ord0[q]);
                } else if q > tgt {
                    assert(new_ord[q] == ord0[q - 1]);
                }
            }
            assert(self@ =~= old(self)@.insert(tgt, e));
        }
    }

    /// Positional read access: descend the levels, advancing while the span
    /// does not overshoot the remaining offset.
    /// After unlinking the node at position `tgt` from level `l` — the
    /// predecessor absorbs the target's span, less the removed element — the
    /// level is sound for the order with the position removed.
    #[verifier::rlimit(100)]
    proof fn lemma_remove_unlink(a: Self, b: Self, ord0: Seq<usize>, l: int, p: int, tgt: int)
        requires
            a.level_wf(ord0, l),
            0 <= tgt < ord0.len(),
            -1 <= p < tgt,
            a.is_part(ord0, l, p),
            p + a.skp_of(ord0, l, p) == tgt,
            forall|q: int|
                0 <= q < ord0.len() ==> b.height_of(#[trigger] ord0[q]) == a.height_of(ord0[q]),
            forall|p2: int|
                -1 <= p2 < ord0.len() && p2 != p ==> #[trigger] b.nxt_of(ord0, l, p2) == a.nxt_of(
                    ord0,
                    l,
                    p2,
                ),
            forall|p2: int|
                -1 <= p2 < ord0.len() && p2 != p ==> #[trigger] b.skp_of(ord0, l, p2) == a.skp_of(
                    ord0,
                    l,
                    p2,
                ),
            b.nxt_of(ord0, l, p) == a.nxt_of(ord0, l, tgt),
            b.skp_of(ord0, l, p) == a.skp_of(ord0, l, p) + a.skp_of(ord0, l, tgt) - 1,
        ensures
            b.level_wf(ord0.remove(tgt), l),
    {
        let ord1 = ord0.remove(tgt);
        ord0.remove_ensures(tgt);
        let sp = a.skp_of(ord0, l, p);
        assert(a.link_wf(ord0, l, p));
        assert(a.is_part(ord0, l, tgt));
        assert(a.link_wf(ord0, l, tgt));
        let st = a.skp_of(ord0, l, tgt);
        assert forall|p2: int|
            -1 <= p2 < ord1.len() && b.is_part(ord1, l, p2) implies #[trigger] b.link_wf(
            ord1,
            l,
            p2,
        ) by {
            if p2 == p {
                // the predecessor absorbed the target's link
                assert(b.skp_of(ord1, l, p2) == b.skp_of(ord0, l, p));
                assert(b.nxt_of(ord1, l, p2) == b.nxt_of(ord0, l, p));
                assert(p2 + sp + st - 1 <= ord1.len());
                if tgt + st < ord0.len() {
                    assert(ord1[tgt + st - 1] == ord0[tgt + st]);
                    assert(b.nxt_of(ord1, l, p2) == Some(ord0[tgt + st]));
                }
                assert forall|q: int| p2 < q < p2 + sp + st - 1 implies b.height_of(
                    #[trigger] ord1[q],
                ) <= l by {
                    if q < tgt {
                        assert(ord1[q] == ord0[q]);
                        assert(a.height_of(ord0[q]) <= l);
                    } else {
                        assert(ord1[q] == ord0[q + 1]);
                        assert(a.height_of(ord0[q + 1]) <= l);
                    }
                }
            } else if p2 < tgt {
                // untouched participant before the removal point
                assert(ord1[p2] == ord0[p2] || p2 == -1);
                assert(a.is_part(ord0, l, p2));
                if p2 > p {
                    assert(a.height_of(ord0[p2]) <= l);
                    assert(false);
                }
                assert(a.link_wf(ord0, l, p2));
                let s2 = a.skp_of(ord0, l, p2);
                if p2 + s2 > p {
                    assert(a.height_of(ord0[p]) <= l);
                    assert(false);
                }
                assert(b.nxt_of(ord0, l, p2) == a.nxt_of(ord0, l, p2));
                assert(b.skp_of(ord0, l, p2) == a.skp_of(ord0, l, p2));
                assert(b.skp_of(ord1, l, p2) == b.skp_of(ord0, l, p2));
                assert(b.nxt_of(ord1, l, p2) == b.nxt_of(ord0, l, p2));
                assert(ord1[p2 + s2] == ord0[p2 + s2]);
                assert(b.nxt_of(ord1, l, p2) == Some(ord0[p2 + s2]));
                assert forall|q: int| p2 < q < p2 + s2 implies b.height_of(#[trigger] ord1[q])
                    <= l by {
                    assert(ord1[q] == ord0[q]);
                    assert(a.height_of(ord0[q]) <= l);
                }
            } else {
                // shifted participant after the removal point
                let q0 = p2 + 1;
                assert(ord1[p2] == ord0[q0]);
                assert(a.is_part(ord0, l, q0));
                assert(a.link_wf(ord0, l, q0));
                let s2 = a.skp_of(ord0, l, q0);
                assert(b.nxt_of(ord0, l, q0) == a.nxt_of(ord0, l, q0));
                assert(b.skp_of(ord0, l, q0) == a.skp_of(ord0, l, q0));
                assert(b.skp_of(ord1, l, p2) == b.skp_of(ord0, l, q0));
                assert(b.nxt_of(ord1, l, p2) == b.nxt_of(ord0, l, q0));
                if q0 + s2 < ord0.len() {
                    assert(ord1[q0 + s2 - 1] == ord0[q0 + s2]);
                    assert(b.nxt_of(ord1, l, p2) == Some(ord0[q0 + s2]));
                }
                assert forall|q: int| p2 < q < p2 + s2 implies b.height_of(#[trigger] ord1[q])
                    <= l by {
                    assert(ord1[q] == ord0[q + 1]);
                    assert(a.height_of(ord0[q + 1]) <= l);
                }
            }
        }
    }

    /// After shrinking by one a link that jumps over the removed position at
    /// level `l` (the removed node is too low to take part there), the level
    /// is sound for the order with the position removed.
    #[verifier::rlimit(100)]
    proof fn lemma_remove_skip(a: Self, b: Self, ord0: Seq<usize>, l: int, p: int, tgt: int)
        requires
            a.level_wf(ord0, l),
            0 <= tgt < ord0.len(),
            -1 <= p < tgt,
            a.is_part(ord0, l, p),
            p + a.skp_of(ord0, l, p) > tgt,
            forall|q: int|
                0 <= q < ord0.len() ==> b.height_of(#[trigger] ord0[q]) == a.height_of(ord0[q]),
            forall|p2: int|
                -1 <= p2 < ord0.len() && p2 != p ==> #[trigger] b.nxt_of(ord0, l, p2) == a.nxt_of(
                    ord0,
                    l,
                    p2,
                ),
            forall|p2: int|
                -1 <= p2 < ord0.len() && p2 != p ==> #[trigger] b.skp_of(ord0, l, p2) == a.skp_of(
                    ord0,
                    l,
                    p2,
                ),
            b.nxt_of(ord0, l, p) == a.nxt_of(ord0, l, p),
            b.skp_of(ord0, l, p) == a.skp_of(ord0, l, p) - 1,
        ensures
            b.level_wf(ord0.remove(tgt), l),
    {
        let ord1 = ord0.remove(tgt);
        ord0.remove_ensures(tgt);
        let sp = a.skp_of(ord0, l, p);
        assert(a.link_wf(ord0, l, p));
        assert forall|p2: int|
            -1 <= p2 < ord1.len() && b.is_part(ord1, l, p2) implies #[trigger] b.link_wf(
            ord1,
            l,
            p2,
        ) by {
            if p2 == p {
                // the spanning link shrank by one
                assert(b.skp_of(ord1, l, p2) == b.skp_of(ord0, l, p));
                assert(b.nxt_of(ord1, l, p2) == b.nxt_of(ord0, l, p));
                if p + sp < ord0.len() {
                    assert(ord1[p + sp - 1] == ord0[p + sp]);
                    assert(b.nxt_of(ord1, l, p2) == Some(ord0[p + sp]));
                }
                assert forall|q: int| p2 < q < p2 + sp - 1 implies b.height_of(#[trigger] ord1[q])
                    <= l by {
                    if q < tgt {
                        assert(ord1[q] == ord0[q]);
                        assert(a.height_of(ord0[q]) <= l);
                    } else {
                        assert(ord1[q] == ord0[q + 1]);
                        assert(a.height_of(ord0[q + 1]) <= l);
                    }
                }
            } else if p2 < tgt {
                assert(ord1[p2] == ord0[p2] || p2 == -1);
                assert(a.is_part(ord0, l, p2));
                if p2 > p {
                    assert(a.height_of(ord0[p2]) <= l);
                    assert(false);
                }
                assert(a.link_wf(ord0, l, p2));
                let s2 = a.skp_of(ord0, l, p2);
                if p2 + s2 > p {
                    assert(a.height_of(ord0[p]) <= l);
                    assert(false);
                }
                assert(b.nxt_of(ord0, l, p2) == a.nxt_of(ord0, l, p2));
                assert(b.skp_of(ord0, l, p2) == a.skp_of(ord0, l, p2));
                assert(b.skp_of(ord1, l, p2) == b.skp_of(ord0, l, p2));
                assert(b.nxt_of(ord1, l, p2) == b.nxt_of(ord0, l, p2));
                assert(ord1[p2 + s2] == ord0[p2 + s2]);
                assert(b.nxt_of(ord1, l, p2) == Some(ord0[p2 + s2]));
                assert forall|q: int| p2 < q < p2 + s2 implies b.height_of(#[trigger] ord1[q])
                    <= l by {
                    assert(ord1[q] == ord0[q]);
                    assert(a.height_of(ord0[q]) <= l);
                }
            } else {
                // shifted participant; it sits at or beyond the old link's end
                let q0 = p2 + 1;
                assert(ord1[p2] == ord0[q0]);
                assert(a.is_part(ord0, l, q0));
                if q0 < p + sp {
                    assert(a.height_of(ord0[q0]) <= l);
                    assert(false);
                }
                assert(a.link_wf(ord0, l, q0));
                let s2 = a.skp_of(ord0, l, q0);
                assert(b.nxt_of(ord0, l, q0) == a.nxt_of(ord0, l, q0));
                assert(b.skp_of(ord0, l, q0) == a.skp_of(ord0, l, q0));
                assert(b.skp_of(ord1, l, p2) == b.skp_of(ord0, l, q0));
                assert(b.nxt_of(ord1, l, p2) == b.nxt_of(ord0, l, q0));
                if q0 + s2 < ord0.len() {
                    assert(ord1[q0 + s2 - 1] == ord0[q0 + s2]);
                    assert(b.nxt_of(ord1, l, p2) == Some(ord0[q0 + s2]));
                }
                assert forall|q: int| p2 < q < p2 + s2 implies b.height_of(#[trigger] ord1[q])
                    <= l by {
                    assert(ord1[q] == ord0[q + 1]);
                    assert(a.height_of(ord0[q + 1]) <= l);
                }
            }
        }
    }

    /// Membership in a sequence with one position removed.
    proof fn lemma_remove_contains(s: Seq<usize>, i: int, x: usize)
        requires
            0 <= i < s.len(),
        ensures
            s.remove(i).contains(x) ==> s.contains(x),
    {
        s.remove_ensures(i);
        let s1 = s.remove(i);
        if s1.contains(x) {
            let q = choose|q: int| 0 <= q < s1.len() && s1[q] == x;
            if q < i {
                assert(s[q] == x);
            } else {
                assert(s[q + 1] == x);
            }
        }
    }

    /// Remove and return the element at position `index`, shifting later
    /// elements left. The node is unlinked from every level it takes part in;
    /// every higher link spanning it shrinks by one; its slot goes back to
    /// the free list.
    #[verifier::loop_isolation(false)]
    #[verifier::rlimit(100)]
    pub fn remove(&mut self, index: usize) -> (r: T)
        requires
            old(self).wf(),
            index < old(self)@.len(),
        ensures
            final(self).wf(),
            final(self)@ == old(self)@.remove(index as int),
            r == old(self)@[index as int],
    {
        let ghost ord0 = self.ord();
        let ghost tgt = index as int;
        let ghost new_ord = ord0.remove(tgt);
        proof {
            ord0.remove_ensures(tgt);
        }

        let mut l: usize = MAX_LEVEL;
        let mut cur: Option<usize> = None;
        let mut off: usize = index + 1;
        let mut found: Option<usize> = None;
        let ghost mut p: int = -1;
        while l > 0
            invariant
                self.head_next@.len() == MAX_LEVEL,
                self.head_skip@.len() == MAX_LEVEL,
                self.nodes_wf(ord0),
                forall|q: int|
                    0 <= q < ord0.len() ==> self.nodes@[#[trigger] ord0[q] as int].value == old(
                        self,
                    ).nodes@[ord0[q] as int].value,
                forall|k: int|
                    0 <= k < self.free@.len() ==> (#[trigger] self.free@[k] as int)
                        < self.nodes@.len() && !ord0.contains(self.free@[k]),
                forall|j: int, k: int|
                    0 <= j < k < self.free@.len() ==> self.free@[j] != self.free@[k],
                self.free == old(self).free,
                self.len == ord0.len(),
                self.nodes@.len() == old(self).nodes@.len(),
                0 <= l <= MAX_LEVEL,
                -1 <= p < tgt,
                p + off == tgt,
                cur == cur_of(ord0, p),
                self.is_part(ord0, l as int, p),
                match found {
                    Some(t) => t == ord0[tgt],
                    None => true,
                },
                l == 0 ==> found is Some,
                forall|l2: int| l <= l2 < MAX_LEVEL ==> #[trigger] self.level_wf(new_ord, l2),
                forall|l2: int| 0 <= l2 < l ==> #[trigger] self.level_wf(ord0, l2),
            decreases l,
        {
            l -= 1;
            proof {
                assert(self.is_part(ord0, l as int, p));
                assert(self.level_wf(ord0, l as int));
                assert(self.link_wf(ord0, l as int, p));
                if p >= 0 {
                    assert(self.node_wf(ord0[p]));
                }
            }
            let pair = self.link_of(cur, l);
            let mut nxt = pair.0;
            let mut skp = pair.1;
            while skp < off
                invariant
                    -1 <= p < tgt,
                    p + off == tgt,
                    cur == cur_of(ord0, p),
                    self.is_part(ord0, l as int, p),
                    nxt == self.nxt_of(ord0, l as int, p),
                    skp == self.skp_of(ord0, l as int, p),
                decreases off,
            {
                proof {
                    assert(self.link_wf(ord0, l as int, p));
                    assert(p + skp < tgt);
                    assert(p + skp < ord0.len());
                }
                off -= skp;
                proof {
                    p = p + skp as int;
                }
                cur = nxt;
                proof {
                    assert(0 <= p < ord0.len());
                    assert(self.height_of(ord0[p]) > l as int);
                    assert(self.is_part(ord0, l as int, p));
                    assert(self.link_wf(ord0, l as int, p));
                    assert(self.node_wf(ord0[p]));
                }
                let pair2 = self.link_of(cur, l);
                nxt = pair2.0;
                skp = pair2.1;
            }
            proof {
                assert(skp == self.skp_of(ord0, l as int, p) && skp >= off);
                assert(self.link_wf(ord0, l as int, p));
                assert(p + skp <= ord0.len());
            }
            let ghost aa = *self;
            if skp == off {
                // the link lands exactly on the target: unlink it here
                proof {
                    assert(p + skp == tgt);
                    assert(self.nxt_of(ord0, l as int, p) == Some(ord0[tgt]));
                    assert(self.is_part(ord0, l as int, tgt));
                    assert(self.link_wf(ord0, l as int, tgt));
                    assert(self.node_wf(ord0[tgt]));
                }
                let ti = match nxt {
                    Some(t) => t,
                    None => unreached(),
                };
                found = Some(ti);
                let tpair = self.link_of(Some(ti), l);
                self.set_link(cur, l, tpair.0, skp - 1 + tpair.1);
                proof {
                    assert forall|q: int| 0 <= q < ord0.len() implies self.height_of(
                        #[trigger] ord0[q],
                    ) == aa.height_of(ord0[q]) by {}
                    assert forall|p2: int| -1 <= p2 < ord0.len() && p2 != p implies #[trigger] self.nxt_of(
                        ord0,
                        l as int,
                        p2,
                    ) == aa.nxt_of(ord0, l as int, p2) && self.skp_of(ord0, l as int, p2)
                        == aa.skp_of(ord0, l as int, p2) by {
                        if p2 >= 0 && p >= 0 {
                            assert(ord0[p2] != ord0[p]);
                        }
                    }
                    assert(self.nxt_of(ord0, l as int, p) == aa.nxt_of(ord0, l as int, tgt));
                    assert(self.skp_of(ord0, l as int, p) == aa.skp_of(ord0, l as int, p)
                        + aa.skp_of(ord0, l as int, tgt) - 1);
                    Self::lemma_remove_unlink(aa, *self, ord0, l as int, p, tgt);
                    assert(self.level_wf(new_ord, l as int));
                }
            } else {
                // the link jumps over the target: it shrinks by one
                proof {
                    assert(p + skp > tgt);
                    assert(self.height_of(ord0[tgt]) <= l as int);
                    if l == 0 {
                        assert(self.node_wf(ord0[tgt]));
                        assert(false);
                    }
                }
                self.set_link(cur, l, nxt, skp - 1);
                proof {
                    assert forall|q: int| 0 <= q < ord0.len() implies self.height_of(
                        #[trigger] ord0[q],
                    ) == aa.height_of(ord0[q]) by {}
                    assert forall|p2: int| -1 <= p2 < ord0.len() && p2 != p implies #[trigger] self.nxt_of(
                        ord0,
                        l as int,
                        p2,
                    ) == aa.nxt_of(ord0, l as int, p2) && self.skp_of(ord0, l as int, p2)
                        == aa.skp_of(ord0, l as int, p2) by {
                        if p2 >= 0 && p >= 0 {
                            assert(ord0[p2] != ord0[p]);
                        }
                    }
                    assert(self.nxt_of(ord0, l as int, p) == aa.nxt_of(ord0, l as int, p));
                    assert(self.skp_of(ord0, l as int, p) == aa.skp_of(ord0, l as int, p) - 1);
                    Self::lemma_remove_skip(aa, *self, ord0, l as int, p, tgt);
                    assert(self.level_wf(new_ord, l as int));
                }
            }
            proof {
                // the other levels are untouched by the write above
                assert forall|q: int| 0 <= q < new_ord.len() implies aa.node_wf(
                    #[trigger] new_ord[q],
                ) by {
                    if q < tgt {
                        assert(new_ord[q] == ord0[q]);
                        assert(aa.node_wf(ord0[q]));
                    } else {
                        assert(new_ord[q] == ord0[q + 1]);
                        assert(aa.node_wf(ord0[q + 1]));
                    }
                }
                assert forall|q: int| 0 <= q < new_ord.len() implies self.height_of(
                    #[trigger] new_ord[q],
                ) == aa.height_of(new_ord[q]) by {
                    assert(aa.node_wf(new_ord[q]));
                }
                assert forall|l2: int| l as int + 1 <= l2 < MAX_LEVEL implies #[trigger] self.level_wf(
                    new_ord,
                    l2,
                ) by {
                    assert(aa.level_wf(new_ord, l2));
                    assert forall|p2: int|
                        -1 <= p2 < new_ord.len() && aa.is_part(new_ord, l2, p2)
                            implies #[trigger] self.nxt_of(new_ord, l2, p2) == aa.nxt_of(
                        new_ord,
                        l2,
                        p2,
                    ) && self.skp_of(new_ord, l2, p2) == aa.skp_of(new_ord, l2, p2) by {
                        if p2 >= 0 {
                            assert(aa.node_wf(new_ord[p2]));
                            assert(aa.height_of(new_ord[p2]) > l2);
                        }
                    }
                    Self::lemma_level_eq(aa, *self, new_ord, l2);
                }
                assert forall|l2: int| 0 <= l2 < l implies #[trigger] self.level_wf(
                    ord0,
                    l2,
                ) by {
                    assert(aa.level_wf(ord0, l2));
                    assert forall|p2: int|
                        -1 <= p2 < ord0.len() && aa.is_part(ord0, l2, p2) implies #[trigger] self.nxt_of(
                        ord0,
                        l2,
                        p2,
                    ) == aa.nxt_of(ord0, l2, p2) && self.skp_of(ord0, l2, p2) == aa.skp_of(
                        ord0,
                        l2,
                        p2,
                    ) by {
                        if p2 >= 0 {
                            assert(aa.node_wf(ord0[p2]));
                            assert(aa.height_of(ord0[p2]) > l2);
                        }
                    }
                    Self::lemma_level_eq(aa, *self, ord0, l2);
                }
                assert forall|q: int| 0 <= q < ord0.len() implies self.node_wf(
                    #[trigger] ord0[q],
                ) by {
                    assert(aa.node_wf(ord0[q]));
                }
            }
        }
        let ti = match found {
            Some(t) => t,
            None => unreached(),
        };
        proof {
            assert(self.node_wf(ord0[tgt]));
        }
        let ghost mid = *self;
        let v_opt = self.nodes[ti].value.take();
        let v = match v_opt {
            Some(v) => v,
            None => unreached(),
        };
        self.free.push(ti);
        let ghost fin0 = *self;
        proof {
            // the freed slot is no longer live, everything else is untouched
            assert forall|q: int| 0 <= q < new_ord.len() implies new_ord[q] != ti by {
                if q < tgt {
                    assert(new_ord[q] == ord0[q]);
                } else {
                    assert(new_ord[q] == ord0[q + 1]);
                }
            }
            assert forall|q: int| 0 <= q < new_ord.len() implies fin0.node_wf(
                #[trigger] new_ord[q],
            ) by {
                assert(mid.node_wf(new_ord[q]));
                assert(new_ord[q] != ti);
            }
            assert forall|l2: int| 0 <= l2 < MAX_LEVEL implies #[trigger] fin0.level_wf(
                new_ord,
                l2,
            ) by {
                assert(mid.level_wf(new_ord, l2));
                assert forall|q: int| 0 <= q < new_ord.len() implies fin0.height_of(
                    #[trigger] new_ord[q],
                ) == mid.height_of(new_ord[q]) by {
                    assert(new_ord[q] != ti);
                }
                assert forall|p2: int|
                    -1 <= p2 < new_ord.len() && mid.is_part(new_ord, l2, p2)
                        implies #[trigger] fin0.nxt_of(new_ord, l2, p2) == mid.nxt_of(
                    new_ord,
                    l2,
                    p2,
                ) && fin0.skp_of(new_ord, l2, p2) == mid.skp_of(new_ord, l2, p2) by {
                    if p2 >= 0 {
                        assert(new_ord[p2] != ti);
                    }
                }
                Self::lemma_level_eq(mid, fin0, new_ord, l2);
            }
            assert forall|k: int| 0 <= k < fin0.free@.len() implies (
            #[trigger] fin0.free@[k] as int) < fin0.nodes@.len() && !new_ord.contains(
                fin0.free@[k],
            ) by {
                if k < mid.free@.len() {
                    Self::lemma_remove_contains(ord0, tgt, fin0.free@[k]);
                } else {
                    assert(fin0.free@[k] == ti);
                    if new_ord.contains(ti) {
                        let q = choose|q: int| 0 <= q < new_ord.len() && new_ord[q] == ti;
                        assert(new_ord[q] != ti);
                    }
                }
            }
            assert forall|j: int, k: int| 0 <= j < k < fin0.free@.len() implies fin0.free@[j]
                != fin0.free@[k] by {
                if k == mid.free@.len() as int {
                    assert(fin0.free@[k] == ti);
                    assert(!ord0.contains(mid.free@[j]));
                    assert(ord0[tgt] == ti);
                }
            }
        }
        self.len = self.len - 1;
        proof {
            self.order@ = new_ord;
            Self::lemma_retag(fin0, *self, new_ord);
            old(self)@.remove_ensures(tgt);
            assert forall|q: int| 0 <= q < new_ord.len() implies self@[q] == old(self)@.remove(
                tgt,
            )[q] by {
                if q < tgt {
                    assert(new_ord[q] == ord0[q]);
                    assert(new_ord[q] != ti);
                } else {
                    assert(new_ord[q] == ord0[q + 1]);
                    assert(new_ord[q] != ti);
                }
            }
            assert(self@ =~= old(self)@.remove(tgt));
            assert(v == old(self)@[tgt]);
        }
        v
    }

    /// Append at the end.
    pub fn push_back(&mut self, element: T)
        requires
            old(self).wf(),
            old(self)@.len() < usize::MAX - 1,
        ensures
            final(self).wf(),
            final(self)@ == old(self)@.push(element),
    {
        let n = self.len;
        self.insert(n, element);
        proof {
            old(self)@.insert_ensures(old(self)@.len() as int, element);
            assert(self@ =~= old(self)@.push(element));
        }
    }

    /// Prepend at position 0.
    pub fn push_front(&mut self, element: T)
        requires
            old(self).wf(),
            old(self)@.len() < usize::MAX - 1,
        ensures
            final(self).wf(),
            final(self)@ == old(self)@.insert(0, element),
    {
        self.insert(0, element);
    }

    /// Remove and return the last element; `None` on an empty container.
    pub fn pop_back(&mut self) -> (r: Option<T>)
        requires
            old(self).wf(),
        ensures
            final(self).wf(),
            old(self)@.len() == 0 ==> r is None && final(self)@ == old(self)@,
            old(self)@.len() > 0 ==> r == Some(old(self)@.last()) && final(self)@ == old(
                self,
            )@.drop_last(),
    {
        if self.len == 0 {
            None
        } else {
            let n = self.len - 1;
            let v = self.remove(n);
            proof {
                old(self)@.remove_ensures(old(self)@.len() - 1);
                assert(self@ =~= old(self)@.drop_last());
            }
            Some(v)
        }
    }

    /// Remove and return the first element; `None` on an empty container.
    pub fn pop_front(&mut self) -> (r: Option<T>)
        requires
            old(self).wf(),
        ensures
            final(self).wf(),
            old(self)@.len() == 0 ==> r is None && final(self)@ == old(self)@,
            old(self)@.len() > 0 ==> r == Some(old(self)@[0]) && final(self)@ == old(self)@.remove(
                0,
            ),
    {
        if self.len == 0 {
            None
        } else {
            Some(self.remove(0))
        }
    }

    /// Fresh forward iterator over the elements in positional order.
    pub fn iter(&self) -> (r: Iter<'_, T>)
        requires
            self.wf(),
        ensures
            r.wf(),
            r.target() == self@,
            r.pos() == 0,
    {
        proof {
            assert(self.level_wf(self.ord(), 0));
            assert(self.link_wf(self.ord(), 0, -1));
        }
        Iter { list: self, cur: self.head_next[0], pos: Ghost(0) }
    }

    /// Fresh mutable cursor over the elements in positional order. The cursor
    /// itself holds no borrow; each `next` call takes the container anew, and
    /// no structural mutation may happen between the calls.
    pub fn iter_mut(&mut self) -> (r: IterMut)
        requires
            old(self).wf(),
        ensures
            *final(self) == *old(self),
            r.wf_for(*old(self)),
            r.pos() == 0,
    {
        proof {
            assert(self.level_wf(self.ord(), 0));
            assert(self.link_wf(self.ord(), 0, -1));
        }
        IterMut { cur: self.head_next[0], pos: Ghost(0) }
    }

    pub fn at(&self, index: usize) -> (r: &T)
        requires
            self.wf(),
            index < self@.len(),
        ensures
            *r == self@[index as int],
    {
        let ghost ord = self.ord();
        let mut l: usize = MAX_LEVEL;
        let mut cur: Option<usize> = None;
        let mut off: usize = index + 1;
        let ghost mut p: int = -1;
        while l > 0
            invariant
                self.wf(),
                ord == self.ord(),
                index < ord.len(),
                0 <= l <= MAX_LEVEL,
                -1 <= p <= index as int,
                p + off == index as int,
                cur == cur_of(ord, p),
                self.is_part(ord, l as int, p),
                l < MAX_LEVEL ==> self.skp_of(ord, l as int, p) > off as int,
            decreases l,
        {
            l -= 1;
            proof {
                assert(self.is_part(ord, l as int, p));
                assert(self.level_wf(ord, l as int));
                assert(self.link_wf(ord, l as int, p));
            }
            let pair = self.link_of(cur, l);
            let mut nxt = pair.0;
            let mut skp = pair.1;
            while skp <= off
                invariant
                    self.wf(),
                    ord == self.ord(),
                    index < ord.len(),
                    l < MAX_LEVEL,
                    -1 <= p <= index as int,
                    p + off == index as int,
                    cur == cur_of(ord, p),
                    self.is_part(ord, l as int, p),
                    nxt == self.nxt_of(ord, l as int, p),
                    skp == self.skp_of(ord, l as int, p),
                decreases off,
            {
                proof {
                    assert(self.level_wf(ord, l as int));
                    assert(self.link_wf(ord, l as int, p));
                    // the step stays at or before the target, hence lands on
                    // a live position
                    assert(p + skp <= index as int);
                    assert(p + skp < ord.len());
                }
                off -= skp;
                proof {
                    p = p + skp as int;
                }
                cur = nxt;
                proof {
                    assert(0 <= p < ord.len());
                    assert(self.height_of(ord[p]) > l as int);
                    assert(self.is_part(ord, l as int, p));
                    assert(self.level_wf(ord, l as int));
                    assert(self.link_wf(ord, l as int, p));
                }
                let pair2 = self.link_of(cur, l);
                nxt = pair2.0;
                skp = pair2.1;
            }
        }
        proof {
            // at level 0 every span is 1, so the walk stopped exactly on the
            // target position
            assert(self.level_wf(ord, 0));
            assert(self.link_wf(ord, 0, p));
            if p < index as int {
                let s = self.skp_of(ord, 0, p);
                assert(s > 1);
                assert(self.height_of(ord[p + 1]) <= 0);
                assert(self.node_wf(ord[p + 1]));
                assert(false);
            }
            assert(p == index as int);
        }
        match cur {
            Some(i) => {
                proof {
                    assert(self.node_wf(ord[index as int]));
                }
                match self.nodes[i].value.as_ref() {
                    Some(v) => v,
                    None => unreached(),
                }
            },
            None => unreached(),
        }
    }

    /// One stored value replaced in place (same slot, same links): the
    /// container stays well formed and its sequence is updated at that
    /// position.
    proof fn lemma_value_update(a: Self, b: Self, k: int, v: T)
        requires
            a.wf(),
            0 <= k < a.ord().len(),
            b.head_next == a.head_next,
            b.head_skip == a.head_skip,
            b.free == a.free,
            b.len == a.len,
            b.order == a.order,
            b.nodes@.len() == a.nodes@.len(),
            forall|j: int|
                0 <= j < a.nodes@.len() && j != a.ord()[k] as int ==> b.nodes@[j] == a.nodes@[j],
            b.nodes@[a.ord()[k] as int].value == Some(v),
            b.nodes@[a.ord()[k] as int].height == a.nodes@[a.ord()[k] as int].height,
            b.nodes@[a.ord()[k] as int].next == a.nodes@[a.ord()[k] as int].next,
            b.nodes@[a.ord()[k] as int].skip == a.nodes@[a.ord()[k] as int].skip,
        ensures
            b.wf(),
            b@ == a@.update(k, v),
    {
        let ord = a.ord();
        assert forall|p: int| 0 <= p < ord.len() implies b.node_wf(#[trigger] ord[p]) by {
            assert(a.node_wf(ord[p]));
        }
        assert forall|kk: int| 0 <= kk < b.free@.len() implies (#[trigger] b.free@[kk] as int)
            < b.nodes@.len() && !ord.contains(b.free@[kk]) by {
            assert((a.free@[kk] as int) < a.nodes@.len() && !ord.contains(a.free@[kk]));
        }
        assert forall|l: int| 0 <= l < MAX_LEVEL implies #[trigger] b.level_wf(b.ord(), l) by {
            assert(a.level_wf(ord, l));
            assert forall|q: int| 0 <= q < ord.len() implies b.height_of(#[trigger] ord[q])
                == a.height_of(ord[q]) by {}
            assert forall|p2: int|
                -1 <= p2 < ord.len() && a.is_part(ord, l, p2) implies #[trigger] b.nxt_of(
                ord,
                l,
                p2,
            ) == a.nxt_of(ord, l, p2) && b.skp_of(ord, l, p2) == a.skp_of(ord, l, p2) by {}
            Self::lemma_level_eq(a, b, ord, l);
        }
        assert forall|q: int| 0 <= q < ord.len() implies b@[q] == a@.update(k, v)[q] by {
            if q != k {
                assert(ord[q] != ord[k]);
            }
        }
        assert(b@ =~= a@.update(k, v));
    }

    /// Position reached after `k` link steps along level `l` from the head
    /// (`-1` is the head itself; the walk stays put once it runs off the end).
    pub closed spec fn pos_after(&self, l: int, k: nat) -> int
        decreases k,
    {
        if k == 0 {
            -1
        } else {
            let p = self.pos_after(l, (k - 1) as nat);
            if p >= self.ord().len() {
                p
            } else {
                p + self.skp_of(self.ord(), l, p)
            }
        }
    }

    /// Sum of the spans of the first `k` links along level `l` from the head.
    pub closed spec fn span_sum(&self, l: int, k: nat) -> int
        decreases k,
    {
        if k == 0 {
            0
        } else {
            let p = self.pos_after(l, (k - 1) as nat);
            if p >= self.ord().len() {
                self.span_sum(l, (k - 1) as nat)
            } else {
                self.span_sum(l, (k - 1) as nat) + self.skp_of(self.ord(), l, p)
            }
        }
    }

    /// Span invariant: at every level and after any number of steps from the
    /// head, the cumulative span walked equals the 1-based position of the
    /// node reached, and the walk only ever lands on nodes that take part in
    /// that level.
    pub proof fn lemma_span_invariant(&self, l: int, k: nat)
        requires
            self.wf(),
            0 <= l < MAX_LEVEL,
        ensures
            self.span_sum(l, k) == self.pos_after(l, k) + 1,
            -1 <= self.pos_after(l, k) <= self@.len(),
            self.pos_after(l, k) < self@.len() ==> self.is_part(self.ord(), l, self.pos_after(l, k)),
        decreases k,
    {
        if k > 0 {
            self.lemma_span_invariant(l, (k - 1) as nat);
            let p = self.pos_after(l, (k - 1) as nat);
            if p < self.ord().len() {
                assert(self.level_wf(self.ord(), l));
                assert(self.link_wf(self.ord(), l, p));
            }
        }
    }
}

/// Forward iterator: yields shared references to the elements in positional
/// order. Each call to `iter` starts a fresh walk along the level-0 chain.
pub struct Iter<'a, T> {
    list: &'a SkipList<T>,
    cur: Option<usize>,
    pos: Ghost<int>,
}

impl<'a, T> Iter<'a, T> {
    /// The sequence being walked.
    pub closed spec fn target(&self) -> Seq<T> {
        self.list@
    }

    /// How many elements have been yielded so far.
    pub closed spec fn pos(&self) -> int {
        self.pos@
    }

    pub closed spec fn wf(&self) -> bool {
        &&& self.list.wf()
        &&& 0 <= self.pos@ <= self.list.ord().len()
        &&& self.cur == (if self.pos@ < self.list.ord().len() {
            Some(self.list.ord()[self.pos@])
        } else {
            None::<usize>
        })
    }

    /// Yield the next element in positional order, or `None` once done.
    pub fn next(&mut self) -> (r: Option<&'a T>)
        requires
            old(self).wf(),
        ensures
            final(self).wf(),
            final(self).target() == old(self).target(),
            old(self).pos() < old(self).target().len() ==> final(self).pos() == old(self).pos() + 1
                && r is Some && *(r->Some_0) == old(self).target()[old(self).pos()],
            old(self).pos() >= old(self).target().len() ==> final(self).pos() == old(self).pos()
                && r is None,
    {
        match self.cur {
            None => None,
            Some(i) => {
                let ghost ord = self.list.ord();
                let ghost k = self.pos@;
                proof {
                    assert(self.list.nodes_wf(ord));
                    assert(self.list.node_wf(ord[k]));
                    assert(self.list.level_wf(ord, 0));
                    assert(self.list.link_wf(ord, 0, k));
                    if self.list.skp_of(ord, 0, k) > 1 {
                        assert(self.list.height_of(ord[k + 1]) <= 0);
                        assert(self.list.node_wf(ord[k + 1]));
                        assert(false);
                    }
                }
                self.cur = self.list.nodes[i].next[0];
                proof {
                    self.pos@ = k + 1;
                }
                match self.list.nodes[i].value.as_ref() {
                    Some(v) => Some(v),
                    None => unreached(),
                }
            },
        }
    }
}

/// Mutable cursor over the elements in positional order. It stores only the
/// walk position; each step borrows the container afresh and yields exclusive
/// access to one element. No structural mutation may happen between steps:
/// the cursor is tied by `wf_for` to the container value it was made from.
pub struct IterMut {
    cur: Option<usize>,
    pos: Ghost<int>,
}

impl IterMut {
    /// How many elements have been yielded so far.
    pub closed spec fn pos(&self) -> int {
        self.pos@
    }

    /// The cursor stands at position `pos` of this container.
    pub closed spec fn wf_for<T>(&self, list: SkipList<T>) -> bool {
        &&& list.wf()
        &&& 0 <= self.pos@ <= list.ord().len()
        &&& self.cur == (if self.pos@ < list.ord().len() {
            Some(list.ord()[self.pos@])
        } else {
            None::<usize>
        })
    }

    /// Whether an element remains to visit.
    pub fn has_next<T>(&self, list: &SkipList<T>) -> (r: bool)
        requires
            self.wf_for(*list),
        ensures
            r == (self.pos() < list@.len()),
    {
        match self.cur {
            Some(_) => true,
            None => false,
        }
    }

    /// Yield exclusive access to the next element and advance. Afterwards the
    /// container holds, at the position just visited, whatever the caller
    /// wrote through the reference.
    pub fn next<'a, T>(&mut self, list: &'a mut SkipList<T>) -> (r: &'a mut T)
        requires
            old(self).wf_for(*old(list)),
            old(self).pos() < old(list)@.len(),
        ensures
            *r == old(list)@[old(self).pos()],
            final(list)@ == old(list)@.update(old(self).pos(), *final(r)),
            final(self).wf_for(*final(list)),
            final(self).pos() == old(self).pos() + 1,
    {
        let ghost ord = list.ord();
        let ghost k = self.pos@;
        match self.cur {
            None => unreached(),
            Some(i) => {
                proof {
                    assert(list.nodes_wf(ord));
                    assert(list.node_wf(ord[k]));
                    assert(list.level_wf(ord, 0));
                    assert(list.link_wf(ord, 0, k));
                    if list.skp_of(ord, 0, k) > 1 {
                        assert(list.height_of(ord[k + 1]) <= 0);
                        assert(list.node_wf(ord[k + 1]));
                        assert(false);
                    }
                }
                self.cur = list.nodes[i].next[0];
                proof {
                    self.pos@ = k + 1;
                }
                let ghost before = *list;
                proof {
                    // whatever the caller writes through the reference, the
                    // container stays well formed with one value replaced
                    assert forall|b: SkipList<T>|
                        #![trigger b.nodes@]
                        (b.head_next == before.head_next && b.head_skip == before.head_skip
                            && b.free == before.free && b.len == before.len && b.order
                            == before.order && b.nodes@.len() == before.nodes@.len() && (forall|
                            j: int,
                        |
                            0 <= j < before.nodes@.len() && j != i as int ==> b.nodes@[j]
                                == before.nodes@[j]) && b.nodes@[i as int].value is Some
                            && b.nodes@[i as int].height == before.nodes@[i as int].height
                            && b.nodes@[i as int].next == before.nodes@[i as int].next
                            && b.nodes@[i as int].skip == before.nodes@[i as int].skip) implies (
                    b.wf() && b@ == before@.update(k, b.nodes@[i as int].value->Some_0)
                        && b.ord() == before.ord()) by {
                        SkipList::<T>::lemma_value_update(
                            before,
                            b,
                            k,
                            b.nodes@[i as int].value->Some_0,
                        );
                    }
                }
                let vr = match &mut list.nodes[i].value {
                    Some(v) => v,
                    None => unreached(),
                };
                vr
            },
        }
    }
}

/// Round trip: inserting a value at position `i` of any sequence places it
/// there, and at once removing position `i` yields back exactly the original
/// sequence. Together with the contracts of `insert` and `remove` this says
/// that `insert(i, v)` followed by `remove(i)` returns `v` and restores the
/// container.
pub proof fn lemma_insert_remove_round_trip<T>(s: Seq<T>, i: int, v: T)
    requires
        0 <= i <= s.len(),
    ensures
        s.insert(i, v)[i] == v,
        s.insert(i, v).remove(i) == s,
{
    s.insert_ensures(i, v);
    s.insert(i, v).remove_ensures(i);
    assert(s.insert(i, v).remove(i) =~= s);
}

} // verus!

