//! Minimum-cost flow by capacity scaling with successive shortest paths. The
//! graph is a residual network: every edge is stored together with its
//! reverse, flows on the pair stay opposite, costs stay opposite. Supplies
//! (positive) and demands (negative) live in a node-balance vector; the
//! solver repeatedly saturates cheap edges and pushes along shortest paths
//! until every balance is zero, or reports infeasibility.

use vstd::prelude::*;

verus! {

/// Outcome of `solve`: every supply met, or not.
#[allow(non_camel_case_types)]
#[derive(Clone, Copy, Debug, PartialEq, Eq, Structural)]
pub enum Status {
    OPTIMAL,
    INFEASIBLE,
}

/// Stable handle to an edge: its tail vertex and slot index there.
#[derive(Clone)]
pub struct EdgePtr {
    from: usize,
    idx: usize,
}

impl EdgePtr {
    /// Tail vertex of the edge pointed at.
    pub closed spec fn spec_from(&self) -> int {
        self.from as int
    }

    /// Slot of the edge in its tail vertex's list.
    pub closed spec fn spec_idx(&self) -> int {
        self.idx as int
    }
}

/// One directed edge of the residual network.
#[derive(Clone)]
pub struct Edge {
    to: usize,
    rev: usize,
    cap: i64,
    flow: i64,
    cost: i64,
}

impl Edge {
    pub closed spec fn spec_to(&self) -> int {
        self.to as int
    }

    pub closed spec fn spec_rev(&self) -> int {
        self.rev as int
    }

    pub closed spec fn spec_cap(&self) -> int {
        self.cap as int
    }

    pub closed spec fn spec_flow(&self) -> int {
        self.flow as int
    }

    pub closed spec fn spec_cost(&self) -> int {
        self.cost as int
    }

    /// Capacity still available on this edge.
    pub fn residual_cap(&self) -> (r: i64)
        requires
            i64::MIN <= self.spec_cap() - self.spec_flow() <= i64::MAX,
        ensures
            r as int == self.spec_cap() - self.spec_flow(),
    {
        self.cap - self.flow
    }
}

/// Minimum-cost-flow problem and solver state: adjacency lists of paired
/// residual edges, node balances `b`, node potentials `p`.
pub struct CapacityScalingSuccessiveShortestPath {
    n: usize,
    g: Vec<Vec<Edge>>,
    b: Vec<i64>,
    p: Vec<i64>,
}

impl CapacityScalingSuccessiveShortestPath {
    /// Number of vertices.
    pub closed spec fn num_v(&self) -> int {
        self.n as int
    }

    /// Number of edge slots at vertex `v`.
    pub closed spec fn edge_count(&self, v: int) -> int {
        self.g@[v]@.len() as int
    }

    pub closed spec fn edge_at(&self, v: int, i: int) -> Edge {
        self.g@[v]@[i]
    }

    pub open spec fn flow_of(&self, v: int, i: int) -> int {
        self.edge_at(v, i).spec_flow()
    }

    pub open spec fn cap_of(&self, v: int, i: int) -> int {
        self.edge_at(v, i).spec_cap()
    }

    pub open spec fn cost_of(&self, v: int, i: int) -> int {
        self.edge_at(v, i).spec_cost()
    }

    pub open spec fn to_of(&self, v: int, i: int) -> int {
        self.edge_at(v, i).spec_to()
    }

    pub open spec fn rev_of(&self, v: int, i: int) -> int {
        self.edge_at(v, i).spec_rev()
    }

    /// Balance of vertex `v`: supplies added minus demands added minus what
    /// has already been routed away.
    pub closed spec fn supply_of(&self, v: int) -> int {
        self.b@[v] as int
    }

    /// Dual value of vertex `v`.
    pub closed spec fn potential_of(&self, v: int) -> int {
        self.p@[v] as int
    }

    /// Edge slot `(v, i)` and its reverse slot point at each other, with
    /// opposite flows and opposite costs.
    pub closed spec fn edge_ok(&self, v: int, i: int) -> bool {
        let e = self.g@[v]@[i];
        let rv = e.to as int;
        let ri = e.rev as int;
        &&& rv < self.n
        &&& ri < self.g@[rv]@.len()
        &&& !(rv == v && ri == i)
        &&& self.g@[rv]@[ri].to as int == v
        &&& self.g@[rv]@[ri].rev as int == i
        &&& self.g@[rv]@[ri].flow as int == -(e.flow as int)
        &&& self.g@[rv]@[ri].cost as int == -(e.cost as int)
    }

    /// Structural invariant: vectors sized to the vertex count and every edge
    /// correctly paired with its reverse.
    pub closed spec fn wf(&self) -> bool {
        &&& self.g@.len() == self.n
        &&& self.b@.len() == self.n
        &&& self.p@.len() == self.n
        &&& forall|v: int, i: int|
            0 <= v < self.n && 0 <= i < self.g@[v]@.len() ==> #[trigger] self.edge_ok(v, i)
    }

    /// Fresh problem on `n` vertices: no edges, all balances and potentials 0.
    #[verifier::loop_isolation(false)]
    pub fn new(n: usize) -> (r: Self)
        ensures
            r.wf(),
            r.num_v() == n,
            forall|v: int| 0 <= v < n ==> #[trigger] r.supply_of(v) == 0,
            forall|v: int| 0 <= v < n ==> #[trigger] r.potential_of(v) == 0,
            forall|v: int| 0 <= v < n ==> #[trigger] r.edge_count(v) == 0,
    {
        let mut g: Vec<Vec<Edge>> = Vec::new();
        let mut b: Vec<i64> = Vec::new();
        let mut p: Vec<i64> = Vec::new();
        let mut v: usize = 0;
        while v < n
            invariant
                g@.len() == v,
                b@.len() == v,
                p@.len() == v,
                v <= n,
                forall|q: int| 0 <= q < v ==> (#[trigger] g@[q])@.len() == 0,
                forall|q: int| 0 <= q < v ==> (#[trigger] b@[q]) == 0,
                forall|q: int| 0 <= q < v ==> (#[trigger] p@[q]) == 0,
            decreases n - v,
        {
            g.push(Vec::new());
            b.push(0);
            p.push(0);
            v += 1;
        }
        Self { n, g, b, p }
    }

    /// Add an edge `from -> to` with flow bounds `[lower, upper]` and linear
    /// cost `cost`, as a pair of residual edges: the forward slot carries
    /// capacity `upper`, the reverse slot capacity `-lower` and cost `-cost`.
    /// Returns a handle to the forward slot. Nothing else changes.
    #[verifier::loop_isolation(false)]
    pub fn add_edge(&mut self, from: usize, to: usize, lower: i64, upper: i64, cost: i64) -> (r:
        EdgePtr)
        requires
            old(self).wf(),
            from < old(self).num_v(),
            to < old(self).num_v(),
            lower > i64::MIN,
            cost > i64::MIN,
            old(self).edge_count(from as int) + 2 < usize::MAX,
        ensures
            final(self).wf(),
            final(self).num_v() == old(self).num_v(),
            r.spec_from() == from,
            r.spec_idx() == old(self).edge_count(from as int),
            // the forward slot
            final(self).to_of(from as int, r.spec_idx()) == to,
            final(self).cap_of(from as int, r.spec_idx()) == upper,
            final(self).flow_of(from as int, r.spec_idx()) == 0,
            final(self).cost_of(from as int, r.spec_idx()) == cost,
            // the reverse slot
            final(self).rev_of(from as int, r.spec_idx()) == (if from == to {
                old(self).edge_count(to as int) + 1
            } else {
                old(self).edge_count(to as int)
            }),
            final(self).cap_of(to as int, final(self).rev_of(from as int, r.spec_idx()))
                == -lower,
            final(self).cost_of(to as int, final(self).rev_of(from as int, r.spec_idx()))
                == -cost,
            final(self).flow_of(to as int, final(self).rev_of(from as int, r.spec_idx())) == 0,
            // sizes
            final(self).edge_count(from as int) == old(self).edge_count(from as int) + (if from
                == to {
                2int
            } else {
                1int
            }),
            forall|v: int|
                0 <= v < old(self).num_v() && v != from && v != to
                    ==> #[trigger] final(self).edge_count(v) == old(self).edge_count(v),
            from != to ==> final(self).edge_count(to as int) == old(self).edge_count(to as int)
                + 1,
            // untouched slots keep their edges
            forall|v: int, i: int|
                0 <= v < old(self).num_v() && 0 <= i < old(self).edge_count(v)
                    ==> #[trigger] final(self).edge_at(v, i) == old(self).edge_at(v, i),
            // balances and potentials stay
            forall|v: int|
                0 <= v < old(self).num_v() ==> #[trigger] final(self).supply_of(v) == old(
                    self,
                ).supply_of(v) && final(self).potential_of(v) == old(self).potential_of(v),
    {
        let fidx = self.g[from].len();
        let tidx = self.g[to].len() + (if from == to {
            1
        } else {
            0
        });
        let fwd = Edge { to, rev: tidx, cap: upper, flow: 0, cost };
        let bwd = Edge { to: from, rev: fidx, cap: -lower, flow: 0, cost: -cost };
        self.g[from].push(fwd);
        self.g[to].push(bwd);
        proof {
            let a = *old(self);
            let bb = *self;
            assert forall|v: int, i: int|
                0 <= v < bb.n && 0 <= i < bb.g@[v]@.len() implies #[trigger] bb.edge_ok(v, i) by {
                if v == from as int && i == fidx as int {
                } else if v == to as int && i == tidx as int {
                } else {
                    assert(a.edge_ok(v, i));
                }
            }
        }
        EdgePtr { from, idx: fidx }
    }

    /// Record `amount` more supply at `v`.
    pub fn add_supply(&mut self, v: usize, amount: i64)
        requires
            old(self).wf(),
            v < old(self).num_v(),
            i64::MIN <= old(self).supply_of(v as int) + amount <= i64::MAX,
        ensures
            final(self).wf(),
            final(self).num_v() == old(self).num_v(),
            final(self).supply_of(v as int) == old(self).supply_of(v as int) + amount,
            forall|q: int|
                0 <= q < old(self).num_v() && q != v ==> #[trigger] final(self).supply_of(q)
                    == old(self).supply_of(q),
            forall|v2: int|
                0 <= v2 < old(self).num_v() ==> #[trigger] final(self).edge_count(v2) == old(
                    self,
                ).edge_count(v2),
            forall|v2: int, i: int|
                0 <= v2 < old(self).num_v() && 0 <= i < old(self).edge_count(v2)
                    ==> #[trigger] final(self).edge_at(v2, i) == old(self).edge_at(v2, i),
            forall|v2: int|
                0 <= v2 < old(self).num_v() ==> #[trigger] final(self).potential_of(v2) == old(
                    self,
                ).potential_of(v2),
    {
        let nv = self.b[v] + amount;
        self.b[v] = nv;
        proof {
            assert forall|v2: int, i: int|
                0 <= v2 < self.n && 0 <= i < self.g@[v2]@.len() implies #[trigger] self.edge_ok(
                v2,
                i,
            ) by {
                assert(old(self).edge_ok(v2, i));
            }
        }
    }

    /// Record `amount` more demand at `v`.
    pub fn add_demand(&mut self, v: usize, amount: i64)
        requires
            old(self).wf(),
            v < old(self).num_v(),
            amount > i64::MIN,
            i64::MIN <= old(self).supply_of(v as int) - amount <= i64::MAX,
        ensures
            final(self).wf(),
            final(self).num_v() == old(self).num_v(),
            final(self).supply_of(v as int) == old(self).supply_of(v as int) - amount,
            forall|q: int|
                0 <= q < old(self).num_v() && q != v ==> #[trigger] final(self).supply_of(q)
                    == old(self).supply_of(q),
            forall|v2: int|
                0 <= v2 < old(self).num_v() ==> #[trigger] final(self).edge_count(v2) == old(
                    self,
                ).edge_count(v2),
            forall|v2: int, i: int|
                0 <= v2 < old(self).num_v() && 0 <= i < old(self).edge_count(v2)
                    ==> #[trigger] final(self).edge_at(v2, i) == old(self).edge_at(v2, i),
            forall|v2: int|
                0 <= v2 < old(self).num_v() ==> #[trigger] final(self).potential_of(v2) == old(
                    self,
                ).potential_of(v2),
    {
        self.add_supply(v, -amount);
    }

    /// Same vertices, same edge slots, and the same static data (endpoints,
    /// reverse indices, capacities, costs) on every slot; flows, balances and
    /// potentials may differ.
    pub open spec fn same_shape_as(&self, other: &Self) -> bool {
        &&& self.num_v() == other.num_v()
        &&& forall|v: int|
            0 <= v < other.num_v() ==> #[trigger] self.edge_count(v) == other.edge_count(v)
        &&& forall|v: int, i: int|
            0 <= v < other.num_v() && 0 <= i < other.edge_count(v) ==> {
                let e1 = #[trigger] self.edge_at(v, i);
                let e2 = #[trigger] other.edge_at(v, i);
                e1.spec_to() == e2.spec_to() && e1.spec_rev() == e2.spec_rev() && e1.spec_cap()
                    == e2.spec_cap() && e1.spec_cost() == e2.spec_cost()
            }
    }

    /// Sum of the balances of the first `v` vertices.
    pub closed spec fn supply_sum_to(&self, v: int) -> int
        decreases v,
    {
        if v <= 0 {
            0
        } else {
            self.supply_sum_to(v - 1) + self.supply_of(v - 1)
        }
    }

    /// Total of all balances. Routing only moves balance between vertices,
    /// so every solver step keeps this total.
    pub closed spec fn supply_total(&self) -> int {
        self.supply_sum_to(self.num_v())
    }

    /// Equal balances, equal partial sums.
    proof fn lemma_sum_same(a: Self, b: Self, v: int)
        requires
            b.num_v() == a.num_v(),
            forall|q: int| 0 <= q < a.num_v() ==> #[trigger] b.supply_of(q) == a.supply_of(q),
            0 <= v <= a.num_v(),
        ensures
            b.supply_sum_to(v) == a.supply_sum_to(v),
        decreases v,
    {
        if v > 0 {
            Self::lemma_sum_same(a, b, v - 1);
        }
    }

    /// Moving `f` from one vertex to another leaves every full partial sum
    /// covering both of them unchanged.
    proof fn lemma_sum_moved(a: Self, b: Self, t: int, r: int, f: int, v: int)
        requires
            b.num_v() == a.num_v(),
            0 <= t < a.num_v(),
            0 <= r < a.num_v(),
            t != r,
            b.supply_of(t) == a.supply_of(t) + f,
            b.supply_of(r) == a.supply_of(r) - f,
            forall|q: int|
                0 <= q < a.num_v() && q != t && q != r ==> #[trigger] b.supply_of(q)
                    == a.supply_of(q),
            0 <= v <= a.num_v(),
        ensures
            b.supply_sum_to(v) == a.supply_sum_to(v) + (if t < v {
                f
            } else {
                0
            }) - (if r < v {
                f
            } else {
                0
            }),
        decreases v,
    {
        if v > 0 {
            Self::lemma_sum_moved(a, b, t, r, f, v - 1);
        }
    }

    /// Move `amount` units over the edge the handle points at: its flow grows
    /// by `amount`, the flow of its reverse slot falls by `amount`. Reports
    /// `false`, changing nothing, exactly when a new flow would not be
    /// representable.
    fn push(&mut self, e: &EdgePtr, amount: i64) -> (ok: bool)
        requires
            old(self).wf(),
            0 <= e.spec_from() < old(self).num_v(),
            0 <= e.spec_idx() < old(self).edge_count(e.spec_from()),
        ensures
            ok == (i64::MIN <= old(self).flow_of(e.spec_from(), e.spec_idx()) + amount
                <= i64::MAX && i64::MIN <= old(self).flow_of(
                old(self).to_of(e.spec_from(), e.spec_idx()),
                old(self).rev_of(e.spec_from(), e.spec_idx()),
            ) - amount <= i64::MAX),
            final(self).supply_total() == old(self).supply_total(),
            final(self).wf(),
            final(self).same_shape_as(old(self)),
            forall|q: int|
                0 <= q < old(self).num_v() ==> #[trigger] final(self).supply_of(q) == old(
                    self,
                ).supply_of(q),
            forall|q: int|
                0 <= q < old(self).num_v() ==> #[trigger] final(self).potential_of(q) == old(
                    self,
                ).potential_of(q),
            ok ==> final(self).flow_of(e.spec_from(), e.spec_idx()) == old(self).flow_of(
                e.spec_from(),
                e.spec_idx(),
            ) + amount,
            ok ==> final(self).flow_of(
                old(self).to_of(e.spec_from(), e.spec_idx()),
                old(self).rev_of(e.spec_from(), e.spec_idx()),
            ) == old(self).flow_of(
                old(self).to_of(e.spec_from(), e.spec_idx()),
                old(self).rev_of(e.spec_from(), e.spec_idx()),
            ) - amount,
            forall|v: int, i: int|
                0 <= v < old(self).num_v() && 0 <= i < old(self).edge_count(v) && !(v
                    == e.spec_from() && i == e.spec_idx()) && !(v == old(self).to_of(
                    e.spec_from(),
                    e.spec_idx(),
                ) && i == old(self).rev_of(e.spec_from(), e.spec_idx()))
                    ==> #[trigger] final(self).flow_of(v, i) == old(self).flow_of(v, i),
            !ok ==> forall|v: int, i: int|
                0 <= v < old(self).num_v() && 0 <= i < old(self).edge_count(v)
                    ==> #[trigger] final(self).flow_of(v, i) == old(self).flow_of(v, i),
    {
        let from = e.from;
        let idx = e.idx;
        proof {
            assert(self.edge_ok(from as int, idx as int));
        }
        let to = self.g[from][idx].to;
        let ridx = self.g[from][idx].rev;
        let f1 = self.g[from][idx].flow;
        let f2 = self.g[to][ridx].flow;
        match f1.checked_add(amount) {
            None => false,
            Some(nf1) => match f2.checked_sub(amount) {
                None => false,
                Some(nf2) => {
                    self.g[from][idx].flow = nf1;
                    self.g[to][ridx].flow = nf2;
                    proof {
                        Self::lemma_sum_same(*old(self), *self, old(self).num_v());
                        let a = *old(self);
                        assert forall|v: int, i: int|
                            0 <= v < self.n && 0 <= i < self.g@[v]@.len()
                                implies #[trigger] self.edge_ok(v, i) by {
                            assert(a.edge_ok(v, i));
                            if v == from as int && i == idx as int {
                            } else if v == to as int && i == ridx as int {
                            } else {
                                // this slot and its reverse are both untouched
                                let rv = a.g@[v]@[i].to as int;
                                let ri = a.g@[v]@[i].rev as int;
                                if rv == from as int && ri == idx as int {
                                    assert(a.edge_ok(from as int, idx as int));
                                    assert(false);
                                }
                                if rv == to as int && ri == ridx as int {
                                    assert(a.edge_ok(to as int, ridx as int));
                                    assert(false);
                                }
                            }
                        }
                    }
                    true
                },
            },
        }
    }

    /// Residual capacity of `e` and its cost reduced by the endpoint
    /// potentials, or `None` when a step of that arithmetic overflows.
    fn residual_cap_cost(&self, from: usize, e: &Edge) -> (r: Option<(i64, i64)>)
        requires
            self.wf(),
            from < self.num_v(),
            0 <= e.spec_to() < self.num_v(),
        ensures
            r is Some ==> (r->Some_0).0 as int == e.spec_cap() - e.spec_flow() && (
            r->Some_0).1 as int == e.spec_cost() + self.potential_of(from as int)
                - self.potential_of(e.spec_to()),
    {
        let to = e.to;
        match e.cap.checked_sub(e.flow) {
            None => None,
            Some(rc) => match e.cost.checked_add(self.p[from]) {
                None => None,
                Some(c1) => match c1.checked_sub(self.p[to]) {
                    None => None,
                    Some(c2) => Some((rc, c2)),
                },
            },
        }
    }

    /// Shape and potentials are kept by a write that only touches flows or
    /// balances; chains two preservation steps.
    proof fn lemma_shape_trans(a: Self, b: Self, c: Self)
        requires
            b.same_shape_as(&a),
            c.same_shape_as(&b),
        ensures
            c.same_shape_as(&a),
    {
        assert forall|v: int| 0 <= v < a.num_v() implies #[trigger] c.edge_count(v)
            == a.edge_count(v) by {
            assert(b.edge_count(v) == a.edge_count(v));
        }
        assert forall|v: int, i: int|
            0 <= v < a.num_v() && 0 <= i < a.edge_count(v) implies ({
                let e1 = #[trigger] c.edge_at(v, i);
                let e2 = #[trigger] a.edge_at(v, i);
                e1.spec_to() == e2.spec_to() && e1.spec_rev() == e2.spec_rev() && e1.spec_cap()
                    == e2.spec_cap() && e1.spec_cost() == e2.spec_cost()
            }) by {
            assert(b.edge_count(v) == a.edge_count(v));
            let em = b.edge_at(v, i);
            assert(em.spec_to() == a.edge_at(v, i).spec_to());
            assert(c.edge_at(v, i).spec_to() == em.spec_to());
        }
    }

    /// Largest balance among the first `v` vertices, floored at 0.
    spec fn bal_peak(&self, v: int) -> int
        decreases v,
    {
        if v <= 0 {
            0
        } else {
            vstd::math::max(self.bal_peak(v - 1), self.supply_of(v - 1))
        }
    }

    /// The residual magnitude the scaling scan sees for slot `(v, i)`:
    /// the absolute residual, clipped to the machine word.
    spec fn slot_mag(&self, v: int, i: int) -> int {
        let rc = self.cap_of(v, i) - self.flow_of(v, i);
        if rc > i64::MAX || rc <= i64::MIN {
            i64::MAX as int
        } else if rc < 0 {
            -rc
        } else {
            rc
        }
    }

    /// Largest slot magnitude among the first `i` slots of vertex `v`.
    spec fn row_peak(&self, v: int, i: int) -> int
        decreases i,
    {
        if i <= 0 {
            0
        } else {
            vstd::math::max(self.row_peak(v, i - 1), self.slot_mag(v, i - 1))
        }
    }

    /// Largest slot magnitude among the first `v` vertices.
    spec fn mag_peak(&self, v: int) -> int
        decreases v,
    {
        if v <= 0 {
            0
        } else {
            vstd::math::max(self.mag_peak(v - 1), self.row_peak(v - 1, self.edge_count(v - 1)))
        }
    }

    /// What the scaling step must reach: the largest balance or residual
    /// magnitude in the network, at least 0.
    pub closed spec fn scale_bound(&self) -> int {
        vstd::math::max(self.bal_peak(self.num_v()), self.mag_peak(self.num_v()))
    }

    /// `r` is a power of `f`: 1, or `f` times a smaller power.
    pub open spec fn is_pow_of(f: int, r: int) -> bool
        decreases r,
        via Self::is_pow_of_decreases
    {
        if r == 1 {
            true
        } else if r < 1 || f < 2 || r % f != 0 {
            false
        } else {
            Self::is_pow_of(f, r / f)
        }
    }

    #[via_fn]
    proof fn is_pow_of_decreases(f: int, r: int) {
        if !(r == 1) && !(r < 1 || f < 2 || r % f != 0) {
            vstd::arithmetic::div_mod::lemma_div_decreases(r, f);
        }
    }

    /// Initial scaling step: a power of the scaling factor at least as large
    /// as every balance and every residual capacity, the smallest such power
    /// except where a step of the doubling would leave the machine word (the
    /// scan clips an unrepresentable residual to the word's maximum).
    #[verifier::loop_isolation(false)]
    fn get_delta(&self, scaling_factor: i64) -> (r: i64)
        requires
            self.wf(),
            scaling_factor >= 2,
        ensures
            r >= 1,
            Self::is_pow_of(scaling_factor as int, r as int),
            // whenever one more doubling fits the word, the result is the
            // least power of the factor reaching the scan's bound
            self.scale_bound() * scaling_factor <= i64::MAX ==> r >= self.scale_bound() && (r == 1
                || r / scaling_factor < self.scale_bound()),
    {
        let n = self.n;
        let mut cap_inf: i64 = 0;
        let mut v: usize = 0;
        while v < n
            invariant
                self.wf(),
                n == self.num_v(),
                v <= n,
                cap_inf as int == vstd::math::max(self.bal_peak(v as int), self.mag_peak(v as int)),
            decreases n - v,
        {
            if self.b[v] > cap_inf {
                cap_inf = self.b[v];
            }
            let mut ei: usize = 0;
            let row_len = self.g[v].len();
            while ei < row_len
                invariant
                    self.wf(),
                    n == self.num_v(),
                    v < n,
                    ei <= row_len,
                    row_len == self.edge_count(v as int),
                    cap_inf as int == vstd::math::max(
                        vstd::math::max(self.bal_peak(v as int + 1), self.mag_peak(v as int)),
                        self.row_peak(v as int, ei as int),
                    ),
                decreases row_len - ei,
            {
                let cap = self.g[v][ei].cap;
                let flow = self.g[v][ei].flow;
                let mag = match cap.checked_sub(flow) {
                    None => i64::MAX,
                    Some(rc) => if rc == i64::MIN {
                        i64::MAX
                    } else if rc < 0 {
                        -rc
                    } else {
                        rc
                    },
                };
                proof {
                    assert(mag as int == self.slot_mag(v as int, ei as int));
                }
                if mag > cap_inf {
                    cap_inf = mag;
                }
                ei += 1;
            }
            v += 1;
        }
        proof {
            assert(cap_inf as int == self.scale_bound());
        }
        let mut delta: i64 = 1;
        while delta < cap_inf
            invariant
                delta >= 1,
                scaling_factor >= 2,
                Self::is_pow_of(scaling_factor as int, delta as int),
                delta == 1 || delta / scaling_factor < cap_inf,
                cap_inf as int == self.scale_bound(),
            decreases cap_inf - delta,
        {
            match delta.checked_mul(scaling_factor) {
                Some(d) => {
                    proof {
                        assert(d > delta) by (nonlinear_arith)
                            requires
                                delta >= 1,
                                scaling_factor >= 2,
                                d == delta * scaling_factor,
                        ;
                        assert(delta as int * scaling_factor as int == scaling_factor as int
                            * delta as int) by (nonlinear_arith);
                        vstd::arithmetic::div_mod::lemma_div_multiples_vanish(
                            delta as int,
                            scaling_factor as int,
                        );
                        vstd::arithmetic::div_mod::lemma_mod_multiples_basic(
                            delta as int,
                            scaling_factor as int,
                        );
                        assert(d as int / (scaling_factor as int) == delta as int);
                        assert(Self::is_pow_of(scaling_factor as int, d as int));
                    }
                    if d >= cap_inf {
                        return d;
                    }
                    delta = d;
                },
                None => {
                    proof {
                        // one more doubling left the word, so the bound times
                        // the factor cannot fit it either
                        assert(self.scale_bound() * scaling_factor > i64::MAX)
                            by (nonlinear_arith)
                            requires
                                delta * scaling_factor > i64::MAX,
                                delta < self.scale_bound(),
                                delta >= 1,
                                scaling_factor >= 2,
                        ;
                    }
                    return delta;
                },
            }
        }
        delta
    }

    /// Push every residual edge that is negative (capacity below its lower
    /// bound) or has negative reduced cost to its rounded residual capacity,
    /// moving the imbalance into the node balances.
    #[verifier::loop_isolation(false)]
    fn saturate_negative(&mut self, delta: i64)
        requires
            old(self).wf(),
            delta >= 1,
        ensures
            final(self).wf(),
            final(self).same_shape_as(old(self)),
            final(self).supply_total() == old(self).supply_total(),
            forall|q: int|
                0 <= q < old(self).num_v() ==> #[trigger] final(self).potential_of(q) == old(
                    self,
                ).potential_of(q),
    {
        let n = self.n;
        let mut v: usize = 0;
        while v < n
            invariant
                self.wf(),
                n == self.num_v(),
                self.same_shape_as(old(self)),
                self.supply_total() == old(self).supply_total(),
                forall|q: int|
                    0 <= q < n ==> #[trigger] self.potential_of(q) == old(self).potential_of(q),
            decreases n - v,
        {
            let mut ei: usize = 0;
            while ei < self.g[v].len()
                invariant
                    self.wf(),
                    n == self.num_v(),
                    v < n,
                    self.same_shape_as(old(self)),
                    self.supply_total() == old(self).supply_total(),
                    forall|q: int|
                        0 <= q < n ==> #[trigger] self.potential_of(q) == old(self).potential_of(
                            q,
                        ),
                decreases old(self).edge_count(v as int) - ei,
            {
                proof {
                    assert(self.edge_count(v as int) == old(self).edge_count(v as int));
                }
                let ghost mid0 = *self;
                proof {
                    assert(self.edge_ok(v as int, ei as int));
                }
                let to = self.g[v][ei].to;
                let rcc = {
                    let er = &self.g[v][ei];
                    self.residual_cap_cost(v, er)
                };
                let mut cap: i64 = 0;
                let mut act = false;
                match rcc {
                    None => {},
                    Some((cap0, cost)) => {
                        match cap0.checked_sub(cap0 % delta) {
                            None => {},
                            Some(c) => {
                                if c < 0 || cost < 0 {
                                    cap = c;
                                    act = true;
                                }
                            },
                        }
                    },
                }
                if act {
                    let ok = self.push(&EdgePtr { from: v, idx: ei }, cap);
                    proof {
                        Self::lemma_shape_trans(*old(self), mid0, *self);
                        assert forall|q: int| 0 <= q < n implies #[trigger] self.potential_of(q)
                            == old(self).potential_of(q) by {
                            assert(self.potential_of(q) == mid0.potential_of(q));
                        }
                    }
                    if ok {
                        let ghost pre1 = *self;
                        let b_v = self.b[v];
                        let b_to = self.b[to];
                        match b_v.checked_sub(cap) {
                            None => {},
                            Some(nb) => {
                                match b_to.checked_add(cap) {
                                    None => {},
                                    Some(nb2) => {
                                        if to != v {
                                            self.b[v] = nb;
                                            self.b[to] = nb2;
                                            proof {
                                                Self::lemma_sum_moved(
                                                    pre1,
                                                    *self,
                                                    to as int,
                                                    v as int,
                                                    cap as int,
                                                    n as int,
                                                );
                                            }
                                        } else {
                                            proof {
                                                Self::lemma_sum_same(pre1, *self, n as int);
                                            }
                                        }
                                        proof {
                                            assert forall|v2: int, i: int|
                                                0 <= v2 < self.n && 0 <= i < self.g@[v2]@.len()
                                                    implies #[trigger] self.edge_ok(v2, i) by {
                                                assert(pre1.edge_ok(v2, i));
                                            }
                                            assert forall|v2: int, i: int|
                                                0 <= v2 < n && 0 <= i < pre1.edge_count(v2)
                                                    implies #[trigger] self.edge_at(v2, i)
                                                == pre1.edge_at(v2, i) by {}
                                            Self::lemma_shape_trans(*old(self), pre1, *self);
                                            assert forall|q: int| 0 <= q < n implies #[trigger] self.potential_of(
                                                q,
                                            ) == old(self).potential_of(q) by {
                                                assert(self.potential_of(q) == pre1.potential_of(
                                                    q,
                                                ));
                                            }
                                        }
                                    },
                                }
                            },
                        }
                    }
                }
                ei += 1;
            }
            v += 1;
        }
    }

    /// One dual step: shortest reduced-cost distances from the excess
    /// vertices over edges with at least `delta` residual capacity, raising
    /// the potentials, and collecting the deficit vertices reached. Returns
    /// the shortest-path parent edge of every vertex.
    #[verifier::loop_isolation(false)]
    fn dual(&mut self, excess_vs: &Vec<usize>, delta: i64) -> (r: (Vec<Option<EdgePtr>>, Vec<
        usize,
    >))
        requires
            old(self).wf(),
            delta >= 1,
            forall|k: int|
                0 <= k < excess_vs@.len() ==> (#[trigger] excess_vs@[k] as int) < old(
                    self,
                ).num_v(),
        ensures
            final(self).wf(),
            final(self).same_shape_as(old(self)),
            forall|q: int|
                0 <= q < old(self).num_v() ==> #[trigger] final(self).supply_of(q) == old(
                    self,
                ).supply_of(q),
            final(self).supply_total() == old(self).supply_total(),
            forall|v: int, i: int|
                0 <= v < old(self).num_v() && 0 <= i < old(self).edge_count(v)
                    ==> #[trigger] final(self).flow_of(v, i) == old(self).flow_of(v, i),
            r.0@.len() == old(self).num_v(),
            forall|k: int|
                0 <= k < r.0@.len() ==> ((#[trigger] r.0@[k]) is Some ==> 0 <= (
                r.0@[k]->Some_0).spec_from() < old(self).num_v() && 0 <= (
                r.0@[k]->Some_0).spec_idx() < old(self).edge_count((r.0@[k]->Some_0).spec_from())),
            forall|k: int| 0 <= k < r.1@.len() ==> (#[trigger] r.1@[k] as int) < old(self).num_v(),
    {
        let n = self.n;
        let mut dist: Vec<Option<i64>> = Vec::new();
        let mut par: Vec<Option<EdgePtr>> = Vec::new();
        let mut done: Vec<bool> = Vec::new();
        let mut v: usize = 0;
        while v < n
            invariant
                dist@.len() == v,
                par@.len() == v,
                done@.len() == v,
                v <= n,
                forall|k: int| 0 <= k < v ==> (#[trigger] par@[k]) is None,
            decreases n - v,
        {
            dist.push(None);
            par.push(None);
            done.push(false);
            v += 1;
        }
        let mut k: usize = 0;
        while k < excess_vs.len()
            invariant
                dist@.len() == n,
                par@.len() == n,
                done@.len() == n,
                forall|k2: int| 0 <= k2 < par@.len() ==> (#[trigger] par@[k2]) is None,
            decreases excess_vs@.len() - k,
        {
            let ev = excess_vs[k];
            dist[ev] = Some(0);
            k += 1;
        }

        let mut farthest: i64 = 0;
        let mut dificit_vs: Vec<usize> = Vec::new();
        let mut rounds: usize = 0;
        while rounds < n
            invariant
                *self == *old(self),
                n == self.num_v(),
                dist@.len() == n,
                par@.len() == n,
                done@.len() == n,
                forall|k2: int|
                    0 <= k2 < par@.len() ==> ((#[trigger] par@[k2]) is Some ==> 0 <= (
                    par@[k2]->Some_0).spec_from() < n && 0 <= (par@[k2]->Some_0).spec_idx()
                        < self.edge_count((par@[k2]->Some_0).spec_from())),
                forall|k2: int|
                    0 <= k2 < dificit_vs@.len() ==> (#[trigger] dificit_vs@[k2] as int) < n,
            decreases n - rounds,
        {
            // pick the unfinished vertex with the smallest tentative distance
            let mut best: usize = n;
            let mut best_d: i64 = 0;
            let mut u: usize = 0;
            while u < n
                invariant
                    dist@.len() == n,
                    done@.len() == n,
                    best <= n,
                decreases n - u,
            {
                if !done[u] {
                    match dist[u] {
                        Some(d) => {
                            if best == n || d < best_d {
                                best = u;
                                best_d = d;
                            }
                        },
                        None => {},
                    }
                }
                u += 1;
            }
            if best == n {
                break ;
            }
            done[best] = true;
            farthest = best_d;
            if self.b[best] <= -delta {
                dificit_vs.push(best);
            }
            let mut ei: usize = 0;
            while ei < self.g[best].len()
                invariant
                    *self == *old(self),
                    n == self.num_v(),
                    best < n,
                    dist@.len() == n,
                    par@.len() == n,
                    done@.len() == n,
                    forall|k2: int|
                        0 <= k2 < par@.len() ==> ((#[trigger] par@[k2]) is Some ==> 0 <= (
                        par@[k2]->Some_0).spec_from() < n && 0 <= (par@[k2]->Some_0).spec_idx()
                            < self.edge_count((par@[k2]->Some_0).spec_from())),
                decreases self.g@[best as int]@.len() - ei,
            {
                proof {
                    assert(self.edge_ok(best as int, ei as int));
                }
                let to = self.g[best][ei].to;
                let rcc = {
                    let er = &self.g[best][ei];
                    self.residual_cap_cost(best, er)
                };
                match rcc {
                    None => {},
                    Some((cap, rcost)) => {
                        if cap >= delta {
                            match best_d.checked_add(rcost) {
                                None => {},
                                Some(nd) => {
                                    let better = match dist[to] {
                                        None => true,
                                        Some(dt) => nd < dt,
                                    };
                                    if better {
                                        dist[to] = Some(nd);
                                        par[to] = Some(EdgePtr { from: best, idx: ei });
                                    }
                                },
                            }
                        }
                    },
                }
                ei += 1;
            }
            rounds += 1;
        }

        // raise the potentials by the distances found
        let mut v2: usize = 0;
        while v2 < n
            invariant
                self.wf(),
                n == self.num_v(),
                dist@.len() == n,
                par@.len() == n,
                self.same_shape_as(old(self)),
                forall|q: int| 0 <= q < n ==> #[trigger] self.supply_of(q) == old(self).supply_of(q),
                forall|v3: int, i: int|
                    0 <= v3 < n && 0 <= i < old(self).edge_count(v3) ==> #[trigger] self.flow_of(
                        v3,
                        i,
                    ) == old(self).flow_of(v3, i),
                forall|k2: int|
                    0 <= k2 < par@.len() ==> ((#[trigger] par@[k2]) is Some ==> 0 <= (
                    par@[k2]->Some_0).spec_from() < n && 0 <= (par@[k2]->Some_0).spec_idx()
                        < self.edge_count((par@[k2]->Some_0).spec_from())),
                forall|k2: int|
                    0 <= k2 < dificit_vs@.len() ==> (#[trigger] dificit_vs@[k2] as int) < n,
            decreases n - v2,
        {
            let d = match dist[v2] {
                Some(d) => d,
                None => farthest,
            };
            let ghost pre = *self;
            match self.p[v2].checked_add(d) {
                None => {},
                Some(np) => {
                    self.p[v2] = np;
                    proof {
                        assert forall|v3: int, i: int|
                            0 <= v3 < self.n && 0 <= i < self.g@[v3]@.len()
                                implies #[trigger] self.edge_ok(v3, i) by {
                            assert(pre.edge_ok(v3, i));
                        }
                        assert forall|v3: int, i: int|
                            0 <= v3 < n && 0 <= i < pre.edge_count(v3)
                                implies #[trigger] self.edge_at(v3, i) == pre.edge_at(v3, i) by {}
                        Self::lemma_shape_trans(*old(self), pre, *self);
                        assert forall|q: int| 0 <= q < n implies #[trigger] self.supply_of(q)
                            == old(self).supply_of(q) by {
                            assert(self.supply_of(q) == pre.supply_of(q));
                        }
                        assert forall|v3: int, i: int|
                            0 <= v3 < n && 0 <= i < old(self).edge_count(v3)
                                implies #[trigger] self.flow_of(v3, i) == old(self).flow_of(
                            v3,
                            i,
                        ) by {
                            assert(pre.flow_of(v3, i) == old(self).flow_of(v3, i));
                            assert(self.edge_at(v3, i) == pre.edge_at(v3, i));
                        }
                    }
                },
            }
            v2 += 1;
        }
        proof {
            Self::lemma_sum_same(*old(self), *self, self.n as int);
        }
        (par, dificit_vs)
    }

    /// One primal step: along the parent tree of the dual step, push as much
    /// flow as fits from the excess roots to each deficit vertex, in
    /// multiples of `delta`.
    #[verifier::loop_isolation(false)]
    fn primal(&mut self, par: &Vec<Option<EdgePtr>>, dificit_vs: Vec<usize>, delta: i64)
        requires
            old(self).wf(),
            delta >= 1,
            par@.len() == old(self).num_v(),
            forall|k: int|
                0 <= k < par@.len() ==> ((#[trigger] par@[k]) is Some ==> 0 <= (
                par@[k]->Some_0).spec_from() < old(self).num_v() && 0 <= (
                par@[k]->Some_0).spec_idx() < old(self).edge_count((par@[k]->Some_0).spec_from())),
            forall|k: int|
                0 <= k < dificit_vs@.len() ==> (#[trigger] dificit_vs@[k] as int) < old(
                    self,
                ).num_v(),
        ensures
            final(self).wf(),
            final(self).same_shape_as(old(self)),
            final(self).supply_total() == old(self).supply_total(),
            forall|q: int|
                0 <= q < old(self).num_v() ==> #[trigger] final(self).potential_of(q) == old(
                    self,
                ).potential_of(q),
    {
        let n = self.n;
        let mut t_i: usize = 0;
        while t_i < dificit_vs.len()
            invariant
                self.wf(),
                n == self.num_v(),
                delta >= 1,
                self.same_shape_as(old(self)),
                self.supply_total() == old(self).supply_total(),
                forall|q: int|
                    0 <= q < n ==> #[trigger] self.potential_of(q) == old(self).potential_of(q),
            decreases dificit_vs@.len() - t_i,
        {
            let t = dificit_vs[t_i];
            t_i += 1;
            if self.b[t] == i64::MIN {
                continue ;
            }
            let mut f: i64 = -self.b[t];
            // bottleneck along the parent chain
            let mut v = t;
            let mut steps: usize = 0;
            let mut broken = false;
            while steps <= n
                invariant
                    self.wf(),
                    n == self.num_v(),
                    v < n,
                    self.same_shape_as(old(self)),
                decreases n + 1 - steps,
            {
                if steps == n {
                    // the parent entries do not form a chain; give up
                    broken = true;
                    break ;
                }
                let mut stop = false;
                match &par[v] {
                    Some(eptr) => {
                        let from = eptr.from;
                        let idx = eptr.idx;
                        proof {
                            assert(self.edge_count(from as int) == old(self).edge_count(
                                from as int,
                            ));
                        }
                        let cap = self.g[from][idx].cap;
                        let flow = self.g[from][idx].flow;
                        match cap.checked_sub(flow) {
                            None => {
                                broken = true;
                                stop = true;
                            },
                            Some(rc) => {
                                if rc < f {
                                    f = rc;
                                }
                                v = from;
                            },
                        }
                    },
                    None => {
                        stop = true;
                    },
                }
                if stop || broken {
                    break ;
                }
                steps += 1;
            }
            if broken {
                continue ;
            }
            let root = v;
            if self.b[root] < f {
                f = self.b[root];
            }
            match f.checked_sub(f % delta) {
                None => {
                    continue ;
                },
                Some(fr) => {
                    f = fr;
                },
            }
            if f <= 0 {
                continue ;
            }
            // push along the chain
            let mut v2 = t;
            let mut steps2: usize = 0;
            while steps2 <= n
                invariant
                    self.wf(),
                    n == self.num_v(),
                    v2 < n,
                    self.same_shape_as(old(self)),
                    self.supply_total() == old(self).supply_total(),
                    forall|q: int|
                        0 <= q < n ==> #[trigger] self.potential_of(q) == old(
                            self,
                        ).potential_of(q),
                decreases n + 1 - steps2,
            {
                if steps2 == n {
                    break ;
                }
                let nxt: Option<(usize, usize)> = match &par[v2] {
                    Some(eptr) => Some((eptr.from, eptr.idx)),
                    None => None,
                };
                match nxt {
                    Some((from, idx)) => {
                        proof {
                            assert(self.edge_count(from as int) == old(self).edge_count(
                                from as int,
                            ));
                        }
                        let ghost mid0 = *self;
                        let _ = self.push(&EdgePtr { from, idx }, f);
                        proof {
                            Self::lemma_shape_trans(*old(self), mid0, *self);
                            assert forall|q: int| 0 <= q < n implies #[trigger] self.potential_of(
                                q,
                            ) == old(self).potential_of(q) by {
                                assert(self.potential_of(q) == mid0.potential_of(q));
                            }
                        }
                        v2 = from;
                    },
                    None => {
                        break ;
                    },
                }
                steps2 += 1;
            }
            // book the moved amount at the two endpoints together: both
            // sides move or neither does, so no balance is created or lost
            if t != v2 {
                let ghost pre2 = *self;
                match (self.b[t].checked_add(f), self.b[v2].checked_sub(f)) {
                    (Some(nb1), Some(nb2)) => {
                        self.b[t] = nb1;
                        self.b[v2] = nb2;
                        proof {
                            Self::lemma_sum_moved(pre2, *self, t as int, v2 as int, f as int, n as int);
                            assert forall|v3: int, i: int|
                                0 <= v3 < self.n && 0 <= i < self.g@[v3]@.len()
                                    implies #[trigger] self.edge_ok(v3, i) by {
                                assert(pre2.edge_ok(v3, i));
                            }
                            assert forall|v3: int, i: int|
                                0 <= v3 < n && 0 <= i < pre2.edge_count(v3)
                                    implies #[trigger] self.edge_at(v3, i) == pre2.edge_at(
                                v3,
                                i,
                            ) by {}
                            Self::lemma_shape_trans(*old(self), pre2, *self);
                            assert forall|q: int| 0 <= q < n implies #[trigger] self.potential_of(
                                q,
                            ) == old(self).potential_of(q) by {
                                assert(self.potential_of(q) == pre2.potential_of(q));
                            }
                        }
                    },
                    _ => {},
                }
            }
        }
    }

    /// Every flow stays within its slot's capacity. Together with the paired
    /// reverse slot (capacity `-lower`, flow negated) this keeps each added
    /// edge's flow inside its `[lower, upper]` range.
    pub open spec fn flows_within_caps(&self) -> bool {
        forall|v: int, i: int|
            0 <= v < self.num_v() && 0 <= i < self.edge_count(v) ==> #[trigger] self.flow_of(v, i)
                <= self.cap_of(v, i)
    }

    /// Slot `(v, i)` respects dual feasibility: if it still has residual
    /// capacity, its cost reduced by the endpoint potentials is representable
    /// and non-negative.
    pub open spec fn reduced_cost_ok(&self, v: int, i: int) -> bool {
        self.flow_of(v, i) < self.cap_of(v, i) ==> {
            &&& i64::MIN <= self.cost_of(v, i) + self.potential_of(v) <= i64::MAX
            &&& i64::MIN <= self.cost_of(v, i) + self.potential_of(v) - self.potential_of(
                self.to_of(v, i),
            ) <= i64::MAX
            &&& self.cost_of(v, i) + self.potential_of(v) - self.potential_of(self.to_of(v, i))
                >= 0
        }
    }

    /// No residual slot has negative reduced cost: the potentials certify
    /// that no cheaper rerouting of the current flow exists.
    pub open spec fn dual_feasible(&self) -> bool {
        forall|v: int, i: int|
            0 <= v < self.num_v() && 0 <= i < self.edge_count(v) ==> #[trigger] self.reduced_cost_ok(
                v,
                i,
            )
    }

    /// Both final checks on one slot: capacity respected, reduced cost sound.
    spec fn slot_ok(&self, v: int, i: int) -> bool {
        self.flow_of(v, i) <= self.cap_of(v, i) && self.reduced_cost_ok(v, i)
    }

    /// Run the capacity-scaling successive-shortest-path optimization.
    /// `OPTIMAL` is returned exactly when the final state is a certified
    /// optimum: every node balance driven to zero (all supplies routed),
    /// every flow within its capacity, and no residual slot with negative
    /// reduced cost (the standard potential certificate that the routed flow
    /// admits no cheaper rerouting).
    #[verifier::loop_isolation(false)]
    #[verifier::rlimit(100)]
    pub fn solve(&mut self, scaling_factor: i64) -> (r: Status)
        requires
            old(self).wf(),
            scaling_factor >= 2,
        ensures
            final(self).wf(),
            final(self).same_shape_as(old(self)),
            final(self).supply_total() == old(self).supply_total(),
            r == Status::OPTIMAL <==> ((forall|v: int|
                0 <= v < old(self).num_v() ==> #[trigger] final(self).supply_of(v) == 0)
                && final(self).flows_within_caps() && final(self).dual_feasible()),
    {
        let n = self.n;
        let mut delta = self.get_delta(scaling_factor);
        while delta > 0
            invariant
                self.wf(),
                n == self.num_v(),
                scaling_factor >= 2,
                self.same_shape_as(old(self)),
                self.supply_total() == old(self).supply_total(),
            decreases delta,
        {
            let ghost s0 = *self;
            self.saturate_negative(delta);
            proof {
                Self::lemma_shape_trans(*old(self), s0, *self);
            }
            let mut fuel: u64 = 0xffff_ffff_ffff_ffff;
            let mut go = true;
            while go && fuel > 0
                invariant
                    self.wf(),
                    n == self.num_v(),
                    delta >= 1,
                    scaling_factor >= 2,
                    self.same_shape_as(old(self)),
                    self.supply_total() == old(self).supply_total(),
                decreases fuel,
            {
                fuel -= 1;
                let mut excess_vs: Vec<usize> = Vec::new();
                let mut v: usize = 0;
                while v < n
                    invariant
                        self.wf(),
                        n == self.num_v(),
                        v <= n,
                        forall|k: int|
                            0 <= k < excess_vs@.len() ==> (#[trigger] excess_vs@[k] as int) < n,
                    decreases n - v,
                {
                    if self.b[v] >= delta {
                        excess_vs.push(v);
                    }
                    v += 1;
                }
                let ghost s1 = *self;
                let (par, dificit_vs) = self.dual(&excess_vs, delta);
                proof {
                    assert(self.supply_total() == s1.supply_total());
                    assert(s1.supply_total() == old(self).supply_total());
                    Self::lemma_shape_trans(*old(self), s1, *self);
                    assert forall|k2: int|
                        0 <= k2 < par@.len() implies ((#[trigger] par@[k2]) is Some ==> 0 <= (
                        par@[k2]->Some_0).spec_from() < self.num_v() && 0 <= (
                        par@[k2]->Some_0).spec_idx() < self.edge_count(
                            (par@[k2]->Some_0).spec_from(),
                        )) by {
                        if par@[k2] is Some {
                            let pf = (par@[k2]->Some_0).spec_from();
                            if 0 <= pf < self.num_v() {
                                assert(self.edge_count(pf) == s1.edge_count(pf));
                            }
                        }
                    }
                }
                if dificit_vs.len() > 0 {
                    let ghost s2 = *self;
                    self.primal(&par, dificit_vs, delta);
                    proof {
                        assert(self.supply_total() == s2.supply_total());
                        Self::lemma_shape_trans(*old(self), s2, *self);
                    }
                } else {
                    go = false;
                }
            }
            proof {
                assert(delta / scaling_factor < delta) by (nonlinear_arith)
                    requires
                        delta >= 1,
                        scaling_factor >= 2,
                ;
            }
            delta = delta / scaling_factor;
        }
        let mut balanced = true;
        let mut v: usize = 0;
        while v < n
            invariant
                self.wf(),
                n == self.num_v(),
                v <= n,
                balanced == (forall|q: int| 0 <= q < v ==> #[trigger] self.supply_of(q) == 0),
            decreases n - v,
        {
            if self.b[v] != 0 {
                proof {
                    assert(self.supply_of(v as int) != 0);
                }
                balanced = false;
            }
            v += 1;
        }
        // certify the result: capacities respected, no residual slot with
        // negative reduced cost
        let mut certified = true;
        let mut v2: usize = 0;
        while v2 < n
            invariant
                self.wf(),
                n == self.num_v(),
                v2 <= n,
                certified == (forall|q: int, i2: int|
                    0 <= q < v2 && 0 <= i2 < self.edge_count(q) ==> #[trigger] self.slot_ok(
                        q,
                        i2,
                    )),
            decreases n - v2,
        {
            let mut i: usize = 0;
            let row_len = self.g[v2].len();
            while i < row_len
                invariant
                    self.wf(),
                    n == self.num_v(),
                    v2 < n,
                    i <= row_len,
                    row_len == self.edge_count(v2 as int),
                    certified == ((forall|q: int, i2: int|
                        0 <= q < v2 && 0 <= i2 < self.edge_count(q) ==> #[trigger] self.slot_ok(
                            q,
                            i2,
                        )) && (forall|i2: int|
                        0 <= i2 < i ==> #[trigger] self.slot_ok(v2 as int, i2))),
                decreases row_len - i,
            {
                let ghost c0 = certified;
                proof {
                    assert(self.edge_ok(v2 as int, i as int));
                }
                let e_flow = self.g[v2][i].flow;
                let e_cap = self.g[v2][i].cap;
                let e_cost = self.g[v2][i].cost;
                let e_to = self.g[v2][i].to;
                if e_flow > e_cap {
                    proof {
                        assert(!self.slot_ok(v2 as int, i as int));
                    }
                    certified = false;
                } else if e_flow < e_cap {
                    match e_cost.checked_add(self.p[v2]) {
                        None => {
                            proof {
                                assert(!self.reduced_cost_ok(v2 as int, i as int));
                            }
                            certified = false;
                        },
                        Some(c1) => {
                            match c1.checked_sub(self.p[e_to]) {
                                None => {
                                    proof {
                                        assert(!self.reduced_cost_ok(v2 as int, i as int));
                                    }
                                    certified = false;
                                },
                                Some(c2) => {
                                    if c2 < 0 {
                                        proof {
                                            assert(!self.reduced_cost_ok(v2 as int, i as int));
                                        }
                                        certified = false;
                                    } else {
                                        proof {
                                            assert(self.slot_ok(v2 as int, i as int));
                                        }
                                    }
                                },
                            }
                        },
                    }
                } else {
                    proof {
                        // the slot is saturated: no residual, nothing to check
                        assert(self.slot_ok(v2 as int, i as int));
                    }
                }
                proof {
                    let iplus = i as int + 1;
                    assert(certified == ((forall|q: int, i2: int|
                        0 <= q < v2 && 0 <= i2 < self.edge_count(q) ==> #[trigger] self.slot_ok(
                            q,
                            i2,
                        )) && (forall|i2: int|
                        0 <= i2 < iplus ==> #[trigger] self.slot_ok(v2 as int, i2)))) by {
                        if certified {
                            assert forall|i2: int|
                                0 <= i2 < iplus implies #[trigger] self.slot_ok(
                                v2 as int,
                                i2,
                            ) by {
                                if i2 == i as int {
                                    assert(self.slot_ok(v2 as int, i as int));
                                }
                            }
                        } else {
                            if c0 {
                                assert(!self.slot_ok(v2 as int, i as int));
                            } else {
                                if (forall|q: int, i2: int|
                                    0 <= q < v2 && 0 <= i2 < self.edge_count(q)
                                        ==> #[trigger] self.slot_ok(q, i2)) && (forall|i2: int|
                                    0 <= i2 < i ==> #[trigger] self.slot_ok(v2 as int, i2)) {
                                    assert(false);
                                }
                            }
                        }
                    }
                }
                i += 1;
            }
            v2 += 1;
        }
        proof {
            assert(certified == (self.flows_within_caps() && self.dual_feasible())) by {
                if certified {
                    assert forall|q: int, i2: int|
                        0 <= q < self.num_v() && 0 <= i2 < self.edge_count(q)
                            implies #[trigger] self.flow_of(q, i2) <= self.cap_of(q, i2) by {
                        assert(self.slot_ok(q, i2));
                    }
                    assert forall|q: int, i2: int|
                        0 <= q < self.num_v() && 0 <= i2 < self.edge_count(q)
                            implies #[trigger] self.reduced_cost_ok(q, i2) by {
                        assert(self.slot_ok(q, i2));
                    }
                } else {
                    let (q, i2): (int, int) = choose|q: int, i2: int|
                        0 <= q < self.num_v() && 0 <= i2 < self.edge_count(q) && !self.slot_ok(
                            q,
                            i2,
                        );
                    if self.flows_within_caps() && self.dual_feasible() {
                        assert(self.flow_of(q, i2) <= self.cap_of(q, i2));
                        assert(self.reduced_cost_ok(q, i2));
                        assert(false);
                    }
                }
            }
        }
        if balanced && certified {
            Status::OPTIMAL
        } else {
            Status::INFEASIBLE
        }
    }

    /// A slot is the canonical one of its residual pair: the one with the
    /// smaller tail vertex, or the smaller index on a self-loop.
    pub open spec fn canonical(&self, v: int, i: int) -> bool {
        let e = self.edge_at(v, i);
        v < e.spec_to() || (v == e.spec_to() && i < e.spec_rev())
    }

    /// Contribution of one slot to the total cost: flow times cost for a
    /// canonical slot, 0 for its mirror.
    pub open spec fn slot_cost(&self, v: int, i: int) -> int {
        if self.canonical(v, i) {
            self.flow_of(v, i) * self.cost_of(v, i)
        } else {
            0
        }
    }

    /// Sum of the slot costs of the first `i` slots at vertex `v`.
    pub open spec fn row_cost(&self, v: int, i: int) -> int
        decreases i,
    {
        if i <= 0 {
            0
        } else {
            self.row_cost(v, i - 1) + self.slot_cost(v, i - 1)
        }
    }

    /// Sum of the slot costs of the first `v` vertices.
    pub open spec fn cost_sum(&self, v: int) -> int
        decreases v,
    {
        if v <= 0 {
            0
        } else {
            self.cost_sum(v - 1) + self.row_cost(v - 1, self.edge_count(v - 1))
        }
    }

    /// Total cost of the current flow: flow times cost, summed over every
    /// edge pair once.
    pub open spec fn flow_cost(&self) -> int {
        self.cost_sum(self.num_v())
    }

    /// Every row's slot costs are bounded, so every partial sum is.
    proof fn lemma_row_cost_bound(&self, v: int, i: int)
        requires
            forall|v2: int, i2: int|
                0 <= v2 < self.num_v() && 0 <= i2 < self.edge_count(v2)
                    ==> -0x4000_0000_0000_0000 <= #[trigger] self.slot_cost(v2, i2)
                    <= 0x4000_0000_0000_0000,
            0 <= v < self.num_v(),
            0 <= i <= self.edge_count(v),
            self.edge_count(v) <= 0xffff_ffff,
        ensures
            -(i * 0x4000_0000_0000_0000) <= self.row_cost(v, i) <= i
                * 0x4000_0000_0000_0000,
        decreases i,
    {
        if i > 0 {
            self.lemma_row_cost_bound(v, i - 1);
        }
    }

    /// Every prefix of the total is bounded.
    proof fn lemma_cost_sum_bound(&self, v: int)
        requires
            forall|v2: int, i2: int|
                0 <= v2 < self.num_v() && 0 <= i2 < self.edge_count(v2)
                    ==> -0x4000_0000_0000_0000 <= #[trigger] self.slot_cost(v2, i2)
                    <= 0x4000_0000_0000_0000,
            forall|v2: int|
                0 <= v2 < self.num_v() ==> #[trigger] self.edge_count(v2) <= 0xffff_ffff,
            0 <= v <= self.num_v(),
        ensures
            -(v * 0xffff_ffff * 0x4000_0000_0000_0000) <= self.cost_sum(v) <= v
                * 0xffff_ffff * 0x4000_0000_0000_0000,
        decreases v,
    {
        if v > 0 {
            self.lemma_cost_sum_bound(v - 1);
            self.lemma_row_cost_bound(v - 1, self.edge_count(v - 1));
            assert(self.row_cost(v - 1, self.edge_count(v - 1)) <= 0xffff_ffff
                * 0x4000_0000_0000_0000 && -(0xffff_ffff
                * 0x4000_0000_0000_0000) <= self.row_cost(v - 1, self.edge_count(v - 1)))
                by (nonlinear_arith)
                requires
                    -(self.edge_count(v - 1) * 0x4000_0000_0000_0000) <= self.row_cost(
                        v - 1,
                        self.edge_count(v - 1),
                    ) <= self.edge_count(v - 1) * 0x4000_0000_0000_0000,
                    0 <= self.edge_count(v - 1) <= 0xffff_ffff,
            ;
            assert((v - 1) * 0xffff_ffff * 0x4000_0000_0000_0000 + 0xffff_ffff
                * 0x4000_0000_0000_0000 == v * 0xffff_ffff
                * 0x4000_0000_0000_0000) by (nonlinear_arith);
        }
    }

    /// Total cost of the routed flow: the sum, over every edge pair once, of
    /// flow times cost. Magnitude bounds on the inputs keep the sum
    /// representable.
    #[verifier::loop_isolation(false)]
    pub fn get_result_cost(&self) -> (r: i64)
        requires
            self.wf(),
            self.num_v() <= 0x3fff_ffff,
            forall|v: int| 0 <= v < self.num_v() ==> #[trigger] self.edge_count(v) <= 0xffff_ffff,
            forall|v: int, i: int|
                0 <= v < self.num_v() && 0 <= i < self.edge_count(v) ==> -0x7fff_ffff
                    <= #[trigger] self.flow_of(v, i) <= 0x7fff_ffff,
            forall|v: int, i: int|
                0 <= v < self.num_v() && 0 <= i < self.edge_count(v) ==> -0x7fff_ffff
                    <= #[trigger] self.cost_of(v, i) <= 0x7fff_ffff,
            i64::MIN <= self.flow_cost() <= i64::MAX,
        ensures
            r as int == self.flow_cost(),
    {
        proof {
            assert forall|v2: int, i2: int|
                0 <= v2 < self.num_v() && 0 <= i2 < self.edge_count(v2)
                    implies -0x4000_0000_0000_0000 <= #[trigger] self.slot_cost(v2, i2)
                <= 0x4000_0000_0000_0000 by {
                assert(-0x7fff_ffff <= self.flow_of(v2, i2) <= 0x7fff_ffff && -0x7fff_ffff
                    <= self.cost_of(v2, i2) <= 0x7fff_ffff);
                assert(-0x4000_0000_0000_0000 <= self.flow_of(v2, i2) * self.cost_of(
                    v2,
                    i2,
                ) <= 0x4000_0000_0000_0000) by (nonlinear_arith)
                    requires
                        -0x7fff_ffff <= self.flow_of(v2, i2) <= 0x7fff_ffff,
                        -0x7fff_ffff <= self.cost_of(v2, i2) <= 0x7fff_ffff,
                ;
            }
        }
        let n = self.n;
        let mut acc: i128 = 0;
        let mut v: usize = 0;
        while v < n
            invariant
                self.wf(),
                n == self.num_v(),
                v <= n,
                acc as int == self.cost_sum(v as int),
            decreases n - v,
        {
            proof {
                self.lemma_cost_sum_bound(v as int);
            }
            let mut i: usize = 0;
            let row_len = self.g[v].len();
            while i < row_len
                invariant
                    self.wf(),
                    n == self.num_v(),
                    v < n,
                    i <= row_len,
                    row_len == self.edge_count(v as int),
                    acc as int == self.cost_sum(v as int) + self.row_cost(v as int, i as int),
                decreases row_len - i,
            {
                proof {
                    self.lemma_cost_sum_bound(v as int);
                    self.lemma_row_cost_bound(v as int, i as int);
                    self.lemma_row_cost_bound(v as int, i + 1);
                    assert(self.edge_ok(v as int, i as int));
                    assert(-(0x3fff_ffff_i128 as int * 0xffff_ffff * 0x4000_0000_0000_0000)
                        <= self.cost_sum(v as int) <= 0x3fff_ffff_i128 as int * 0xffff_ffff
                        * 0x4000_0000_0000_0000) by (nonlinear_arith)
                        requires
                            -(v as int * 0xffff_ffff * 0x4000_0000_0000_0000) <= self.cost_sum(
                                v as int,
                            ) <= v as int * 0xffff_ffff * 0x4000_0000_0000_0000,
                            0 <= v as int <= 0x3fff_ffff,
                    ;
                    assert(-(0xffff_ffff_i128 as int * 0x4000_0000_0000_0000) <= self.row_cost(
                        v as int,
                        i as int,
                    ) <= 0xffff_ffff_i128 as int * 0x4000_0000_0000_0000) by (nonlinear_arith)
                        requires
                            -(i as int * 0x4000_0000_0000_0000) <= self.row_cost(v as int, i as int)
                                <= i as int * 0x4000_0000_0000_0000,
                            0 <= i as int <= 0xffff_ffff,
                    ;
                }
                let e_to = self.g[v][i].to;
                let e_rev = self.g[v][i].rev;
                if v < e_to || (v == e_to && i < e_rev) {
                    let f = self.g[v][i].flow;
                    let c = self.g[v][i].cost;
                    proof {
                        assert(f as int * c as int == self.slot_cost(v as int, i as int));
                        assert(-0x4000_0000_0000_0000 <= f as int * c as int
                            <= 0x4000_0000_0000_0000) by (nonlinear_arith)
                            requires
                                -0x7fff_ffff <= f as int <= 0x7fff_ffff,
                                -0x7fff_ffff <= c as int <= 0x7fff_ffff,
                        ;
                    }
                    acc = acc + (f as i128) * (c as i128);
                } else {
                    proof {
                        assert(self.slot_cost(v as int, i as int) == 0);
                    }
                }
                i += 1;
            }
            v += 1;
        }
        proof {
            assert(acc as int == self.flow_cost());
        }
        acc as i64
    }

    /// Current flow on the edge a handle points at.
    pub fn get_edge_flow(&self, e: &EdgePtr) -> (r: i64)
        requires
            self.wf(),
            0 <= e.spec_from() < self.num_v(),
            0 <= e.spec_idx() < self.edge_count(e.spec_from()),
        ensures
            r == self.flow_of(e.spec_from(), e.spec_idx()),
    {
        self.g[e.from][e.idx].flow
    }

    /// Current potential (dual value) of vertex `v`.
    pub fn get_potential(&self, v: usize) -> (r: i64)
        requires
            self.wf(),
            v < self.num_v(),
        ensures
            r == self.potential_of(v as int),
    {
        self.p[v]
    }
}

} // verus!
