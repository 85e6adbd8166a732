//! Topological compaction and the solver plan.
//!
//! The external loopy-belief-propagation solver wants nodes inserted
//! parents first, each with its parents' already-assigned dense indices and
//! a log-probability tensor. This module computes that topological order,
//! the dense renumbering, and a plan holding per node its compacted parent
//! indices, its tensor shape, and its credence table (absent meaning an
//! all-zero table), together with the evidence pairs; the caller turns the
//! plan into solver calls.

use vstd::prelude::*;

use vstd::multiset::Multiset;
use vstd::pervasive::VecAdditionalExecFns;

use crate::cred::CredTable;
use crate::graph::{
    card, expected_shape, live, nd, par, table_like, acyclic, edges_wf, graph_wf, is_path,
    lemma_push_no_dup, lemma_unique_bounded_len, Dag, Node,
};

verus! {

/// Slot `u` is live, not yet placed, and all its parents are placed.
pub open spec fn ready(g: Seq<Option<Node>>, done: Seq<Option<usize>>, u: int) -> bool {
    live(g, u) && done[u] is None && (forall|k: int|
        0 <= k < par(g, u).len() ==> done[#[trigger] par(g, u)[k] as int] is Some)
}

/// In an acyclic graph, as long as one live slot is unplaced, some live
/// unplaced slot has all its parents placed: walking to an unplaced parent
/// cannot go on forever.
pub proof fn lemma_ready_node(g: Seq<Option<Node>>, done: Seq<Option<usize>>, p: Seq<usize>)
    requires
        edges_wf(g),
        acyclic(g),
        done.len() == g.len(),
        g.len() <= usize::MAX,
        is_path(g, p),
        p.no_duplicates(),
        forall|k: int| 0 <= k < p.len() ==> done[#[trigger] p[k] as int] is None,
    ensures
        exists|u: int| 0 <= u < g.len() && ready(g, done, u),
    decreases g.len() - p.len(),
{
    let v = p.last();
    if ready(g, done, v as int) {
        assert(0 <= v as int && (v as int) < g.len());
    } else {
        assert(live(g, v as int));
        let k = choose|k: int|
            0 <= k < par(g, v as int).len() && !(done[#[trigger] par(g, v as int)[k] as int]
                is Some);
        let w = par(g, v as int)[k];
        assert(live(g, w as int));
        // w cannot lie on the walk: that would close a cycle
        assert(!p.contains(w)) by {
            if p.contains(w) {
                let j = choose|j: int| 0 <= j < p.len() && p[j] == w;
                let q = p.subrange(j, p.len() as int).push(w);
                assert forall|t: int| 0 <= t < q.len() implies live(g, #[trigger] q[t] as int) by {
                    if t < q.len() - 1 {
                        assert(q[t] == p[j + t]);
                    } else {
                        assert(q[t] == w);
                    }
                }
                assert forall|t: int| 0 <= t < q.len() - 1 implies par(
                    g,
                    #[trigger] q[t] as int,
                ).contains(q[t + 1]) by {
                    if t < q.len() - 2 {
                        assert(q[t] == p[j + t] && q[t + 1] == p[j + t + 1]);
                        assert(par(g, p[j + t] as int).contains(p[j + t + 1]));
                    } else {
                        assert(q[t] == p[p.len() - 1] && q[t + 1] == w);
                        assert(par(g, v as int).contains(w));
                    }
                }
                assert(is_path(g, q));
                assert(q.len() >= 2 && q.first() == w && q.last() == w);
            }
        }
        let p2 = p.push(w);
        lemma_push_no_dup(p, w);
        assert forall|t: int| 0 <= t < p2.len() implies live(g, #[trigger] p2[t] as int) by {
            if t < p2.len() - 1 {
                assert(p2[t] == p[t]);
            } else {
                assert(p2[t] == w);
            }
        }
        assert forall|t: int| 0 <= t < p2.len() - 1 implies par(
            g,
            #[trigger] p2[t] as int,
        ).contains(p2[t + 1]) by {
            if t < p2.len() - 2 {
                assert(p2[t] == p[t] && p2[t + 1] == p[t + 1]);
                assert(par(g, p[t] as int).contains(p[t + 1]));
            } else {
                assert(p2[t] == p[p.len() - 1] && p2[t + 1] == w);
            }
        }
        assert(is_path(g, p2));
        assert forall|t: int| 0 <= t < p2.len() implies done[#[trigger] p2[t] as int] is None by {
            if t < p2.len() - 1 {
                assert(p2[t] == p[t]);
            } else {
                assert(p2[t] == w);
            }
        }
        lemma_unique_bounded_len(p2, g.len() as int);
        lemma_ready_node(g, done, p2);
    }
}

/// Some position before `k` in `order` holds `x`.
pub open spec fn placed_before(order: Seq<usize>, x: usize, k: int) -> bool {
    exists|j: int| 0 <= j < k && order[j] == x
}

/// The result of the compaction: `order` lists the live slots, parents
/// always before children, and `map` sends each live slot to its position
/// in `order`.
pub open spec fn compaction_ok(
    g: Seq<Option<Node>>,
    order: Seq<usize>,
    map: Seq<Option<usize>>,
) -> bool {
    map.len() == g.len() && order.no_duplicates() && (forall|k: int|
        0 <= k < order.len() ==> live(g, #[trigger] order[k] as int)) && (forall|i: int|
        0 <= i < g.len() && !live(g, i) ==> map[i] is None) && (forall|i: int|
        live(g, i) ==> #[trigger] map[i] is Some) && (forall|i: int|
        0 <= i < g.len() && #[trigger] map[i] is Some ==> live(g, i) && (map[i]->Some_0 as int)
            < order.len() && order[map[i]->Some_0 as int] == i as usize) && (forall|k: int|
        0 <= k < order.len() ==> map[#[trigger] order[k] as int] == Some(k as usize)) && (forall|
        k: int,
        m: int,
    |
        0 <= k < order.len() && 0 <= m < par(g, order[k] as int).len() ==> placed_before(
            order,
            #[trigger] par(g, order[k] as int)[m],
            k,
        ))
}

/// One node of the solver plan, in topological position: the compacted
/// indices of its parents (each smaller than the node's own position), the
/// tensor shape (own cardinality first, then the parents'), and the
/// credence table to load (absent meaning all zeroes in that shape).
pub struct PlanNode {
    /// Compacted indices of the parents, in parent order.
    pub parent_ids: Vec<usize>,
    /// The tensor shape: own cardinality, then each parent's.
    pub values_count: Vec<usize>,
    /// The credence table, or `None` for the all-zero default.
    pub credencies: Option<CredTable>,
}

/// Everything the external solver needs: the nodes in insertion order and
/// the observed evidence as (solver index, value index) pairs.
pub struct SolverPlan {
    /// The nodes, in topological order; position equals solver index.
    pub nodes: Vec<PlanNode>,
    /// Fixed evidence, ascending by solver index.
    pub evidence: Vec<(usize, usize)>,
}

impl Dag {
    /// Renumbers the live slots densely so that every parent comes before
    /// all of its children, returning the slot ids in that order together
    /// with the map from slot id to dense index.
    pub fn compact_ids(&self) -> (r: (Vec<usize>, Vec<Option<usize>>))
        requires
            self.wf(),
        ensures
            compaction_ok(self@, r.0@, r.1@),
    {
        let ghost g = self@;
        let n = self.n_slots();
        let mut order: Vec<usize> = Vec::new();
        let mut map: Vec<Option<usize>> = Vec::new();
        let mut z: usize = 0;
        while z < n
            invariant
                z <= n,
                map@.len() == z,
                forall|i: int| 0 <= i < z ==> map@[i] is None,
            decreases n - z,
        {
            map.push(None);
            z = z + 1;
        }
        loop
            invariant
                graph_wf(g),
                g == self@,
                n == g.len(),
                map@.len() == n as nat,
                order@.no_duplicates(),
                order@.len() <= n,
                forall|k: int| 0 <= k < order@.len() ==> live(g, #[trigger] order@[k] as int),
                forall|i: int| 0 <= i < n && !live(g, i) ==> map@[i] is None,
                forall|i: int|
                    0 <= i < n && #[trigger] map@[i] is Some ==> live(g, i) && (
                    map@[i]->Some_0 as int) < order@.len() && order@[map@[i]->Some_0 as int]
                        == i as usize,
                forall|k: int|
                    0 <= k < order@.len() ==> map@[#[trigger] order@[k] as int] == Some(k as usize),
                forall|k: int, m: int|
                    0 <= k < order@.len() && 0 <= m < par(g, order@[k] as int).len()
                        ==> placed_before(order@, #[trigger] par(g, order@[k] as int)[m], k),
            ensures
                compaction_ok(g, order@, map@),
                forall|i: int| live(g, i) ==> map@[i] is Some,
            decreases n - order@.len(),
        {
            // look for a live, unplaced slot whose parents are all placed
            let mut found: Option<usize> = None;
            let mut i: usize = 0;
            while i < n
                invariant
                    graph_wf(g),
                    g == self@,
                    n == g.len(),
                    map@.len() == n as nat,
                    i <= n,
                    found is None ==> forall|j: int| 0 <= j < i ==> !ready(g, map@, j),
                    found matches Some(u) ==> ready(g, map@, u as int) && (u as int) < n,
                ensures
                    found is None ==> forall|j: int| 0 <= j < n ==> !ready(g, map@, j),
                    found matches Some(u) ==> ready(g, map@, u as int) && (u as int) < n,
                decreases n - i,
            {
                let node_opt = self.get(i);
                if node_opt.is_some() && map[i].is_none() {
                    let node = node_opt.unwrap();
                    let mut all_placed = true;
                    let mut k: usize = 0;
                    while k < node.parents.len()
                        invariant
                            graph_wf(g),
                            g == self@,
                            n == g.len(),
                            map@.len() == n as nat,
                            live(g, i as int),
                            i < n,
                            node.parents@ == par(g, i as int),
                            k <= node.parents@.len(),
                            all_placed <==> (forall|t: int|
                                0 <= t < k ==> map@[#[trigger] par(g, i as int)[t] as int] is Some),
                        decreases node.parents@.len() - k,
                    {
                        let p = node.parents[k];
                        proof {
                            assert(live(g, par(g, i as int)[k as int] as int));
                        }
                        if map[p].is_none() {
                            all_placed = false;
                        }
                        k = k + 1;
                    }
                    if all_placed {
                        found = Some(i);
                        break;
                    }
                }
                proof {
                    assert(!ready(g, map@, i as int));
                }
                i = i + 1;
            }
            match found {
                None => {
                    proof {
                        // nothing is ready, so everything live is placed
                        assert forall|i2: int| live(g, i2) implies map@[i2] is Some by {
                            if map@[i2] is None {
                                let p0 = seq![i2 as usize];
                                assert(p0[0] == i2 as usize);
                                assert(is_path(g, p0));
                                lemma_ready_node(g, map@, p0);
                                let u = choose|u: int| 0 <= u < g.len() && ready(g, map@, u);
                            }
                        }
                        assert(compaction_ok(g, order@, map@));
                    }
                    break;
                },
                Some(u) => {
                    let ghost order0 = order@;
                    let ghost map0 = map@;
                    let pos = order.len();
                    map.set(u, Some(pos));
                    order.push(u);
                    proof {
                        assert(order@[pos as int] == u);
                        assert(!order0.contains(u)) by {
                            if order0.contains(u) {
                                let k = choose|k: int|
                                    0 <= k < order0.len() && #[trigger] order0[k] == u;
                                assert(map0[order0[k] as int] == Some(k as usize));
                            }
                        }
                        lemma_push_no_dup(order0, u);
                        lemma_unique_bounded_len(order@, n as int);
                        assert forall|k: int, m: int|
                            0 <= k < order@.len() && 0 <= m < par(g, order@[k] as int).len()
                            implies placed_before(
                            order@,
                            #[trigger] par(g, order@[k] as int)[m],
                            k,
                        ) by {
                            if k < order@.len() - 1 {
                                assert(order@[k] == order0[k]);
                                assert(par(g, order0[k] as int)[m] == par(g, order@[k] as int)[m]);
                                assert(placed_before(order0, par(g, order0[k] as int)[m], k));
                                let j = choose|j: int|
                                    0 <= j < k && order0[j] == par(g, order0[k] as int)[m];
                                assert(order@[j] == order0[j]);
                                assert(0 <= j < k && order@[j] == par(g, order@[k] as int)[m]);
                            } else {
                                assert(order@[k] == u);
                                let x = par(g, u as int)[m];
                                assert(map0[x as int] is Some);
                                let j = map0[x as int]->Some_0 as int;
                                assert(order0[j] == x);
                                assert(order@[j] == x);
                                assert(j < order0.len());
                                assert(0 <= j < k && order@[j] == par(g, order@[k] as int)[m]);
                            }
                        }
                    }
                },
            }
        }
        (order, map)
    }

    /// Builds the solver plan: the topological order and, per node in that
    /// order, the compacted parent indices, the tensor shape, and the
    /// stored credence table if any. Fails exactly when some node has no
    /// values at all, since inference is undefined for such a variable;
    /// evidence pairs are collected for every observed node.
    pub fn make_bayesnet(&self) -> (r: Result<(SolverPlan, Vec<usize>), ()>)
        requires
            self.wf(),
        ensures
            match r {
                Err(()) => exists|i: int| live(self@, i) && card(self@, i) == 0,
                Ok((plan, order)) => {
                    &&& (forall|i: int| live(self@, i) ==> card(self@, i) >= 1)
                    &&& exists|map: Seq<Option<usize>>| compaction_ok(self@, order@, map)
                    &&& (forall|i: int|
                        live(self@, i) ==> exists|k: int|
                            0 <= k < order@.len() && #[trigger] order@[k] == i as usize)
                    &&& plan.nodes@.len() == order@.len()
                    &&& (forall|k: int|
                        0 <= k < order@.len() ==> {
                            let pn = #[trigger] plan.nodes@[k];
                            let slot = order@[k] as int;
                            &&& pn.values_count@ == expected_shape(self@, slot)
                            &&& table_like(pn.credencies, nd(self@, slot).credencies)
                            &&& pn.parent_ids@.len() == par(self@, slot).len()
                            &&& (forall|m: int|
                                0 <= m < pn.parent_ids@.len() ==> (#[trigger] pn.parent_ids@[m] as int)
                                    < k && order@[pn.parent_ids@[m] as int] == par(self@, slot)[m])
                        })
                    &&& (forall|j: int|
                        0 <= j < plan.evidence@.len() ==> {
                            let e = #[trigger] plan.evidence@[j];
                            &&& (e.0 as int) < order@.len()
                            &&& nd(self@, order@[e.0 as int] as int).observation == Some(e.1)
                        })
                    &&& (forall|k: int|
                        0 <= k < order@.len() && nd(self@, #[trigger] order@[k] as int).observation is Some
                            ==> exists|j: int|
                            0 <= j < plan.evidence@.len() && #[trigger] plan.evidence@[j] == (
                            k as usize,
                            nd(self@, order@[k] as int).observation->Some_0,
                            ))
                    &&& (forall|j1: int, j2: int|
                        0 <= j1 < j2 < plan.evidence@.len() ==> (#[trigger] plan.evidence@[j1]).0 < (
                        #[trigger] plan.evidence@[j2]).0)
                },
            },
    {
        let ghost g = self@;
        let nslots = self.n_slots();
        proof {
            assert(g.len() == nslots);
        }
        let (order, map) = self.compact_ids();
        let mut nodes: Vec<PlanNode> = Vec::new();
        let mut evidence: Vec<(usize, usize)> = Vec::new();
        let mut k: usize = 0;
        while k < order.len()
            invariant
                graph_wf(g),
                g == self@,
                compaction_ok(g, order@, map@),
                k <= order@.len(),
                nodes@.len() == k,
                forall|k2: int|
                    0 <= k2 < k ==> {
                        let pn = #[trigger] nodes@[k2];
                        let slot = order@[k2] as int;
                        &&& pn.values_count@ == expected_shape(g, slot)
                        &&& table_like(pn.credencies, nd(g, slot).credencies)
                        &&& pn.parent_ids@.len() == par(g, slot).len()
                        &&& (forall|m: int|
                            0 <= m < pn.parent_ids@.len() ==> (#[trigger] pn.parent_ids@[m] as int)
                                < k2 && order@[pn.parent_ids@[m] as int] == par(g, slot)[m])
                    },
                forall|k2: int| 0 <= k2 < k ==> card(g, #[trigger] order@[k2] as int) >= 1,
                forall|j: int|
                    0 <= j < evidence@.len() ==> {
                        let e = #[trigger] evidence@[j];
                        &&& (e.0 as int) < k
                        &&& nd(g, order@[e.0 as int] as int).observation == Some(e.1)
                    },
                forall|k2: int|
                    0 <= k2 < k && nd(g, #[trigger] order@[k2] as int).observation is Some
                        ==> exists|j: int|
                        0 <= j < evidence@.len() && #[trigger] evidence@[j] == (
                        k2 as usize,
                        nd(g, order@[k2] as int).observation->Some_0,
                        ),
                forall|j1: int, j2: int|
                    0 <= j1 < j2 < evidence@.len() ==> (#[trigger] evidence@[j1]).0 < (
                    #[trigger] evidence@[j2]).0,
            decreases order@.len() - k,
        {
            let slot = order[k];
            proof {
                assert(live(g, order@[k as int] as int));
            }
            let node = self.get(slot).unwrap();
            if node.values.is_empty() {
                proof {
                    assert(live(g, order@[k as int] as int) && card(g, order@[k as int] as int)
                        == 0);
                }
                return Err(());
            }
            // compacted parent indices and the tensor shape
            let mut parent_ids: Vec<usize> = Vec::new();
            let mut values_count: Vec<usize> = Vec::new();
            values_count.push(node.values.len());
            let mut m: usize = 0;
            while m < node.parents.len()
                invariant
                    graph_wf(g),
                    g == self@,
                    compaction_ok(g, order@, map@),
                    k < order@.len(),
                    live(g, order@[k as int] as int),
                    slot == order@[k as int],
                    node.parents@ == par(g, slot as int),
                    node.values@ == nd(g, slot as int).values@,
                    m <= node.parents@.len(),
                    parent_ids@.len() == m,
                    values_count@.len() == m + 1,
                    values_count@[0] == card(g, slot as int) as usize,
                    forall|t: int|
                        0 <= t < m ==> (#[trigger] parent_ids@[t] as int) < k && order@[parent_ids@[t] as int]
                            == par(g, slot as int)[t],
                    forall|t: int|
                        0 <= t < m ==> values_count@[t + 1] == card(
                            g,
                            par(g, slot as int)[t] as int,
                        ) as usize,
                decreases node.parents@.len() - m,
            {
                let p = node.parents[m];
                proof {
                    assert(live(g, par(g, slot as int)[m as int] as int));
                    assert(map@[p as int] is Some);
                    assert(placed_before(order@, par(g, order@[k as int] as int)[m as int], k as int));
                    let j = choose|j: int|
                        0 <= j < k && order@[j] == par(g, order@[k as int] as int)[m as int];
                    assert(map@[order@[j] as int] == Some(j as usize));
                }
                let cp = map[p].unwrap();
                parent_ids.push(cp);
                values_count.push(self.get(p).unwrap().values.len());
                m = m + 1;
            }
            proof {
                assert(values_count@ =~= expected_shape(g, slot as int));
            }
            let credencies = match &node.credencies {
                Some(t) => Some(t.clone_table()),
                None => None,
            };
            let ghost ev0 = evidence@;
            match node.observation {
                Some(ev) => {
                    evidence.push((k, ev));
                },
                None => {},
            }
            nodes.push(PlanNode { parent_ids, values_count, credencies });
            k = k + 1;
            proof {
                assert forall|k2: int|
                    0 <= k2 < k && nd(g, #[trigger] order@[k2] as int).observation is Some
                    implies exists|j: int|
                    0 <= j < evidence@.len() && #[trigger] evidence@[j] == (
                    k2 as usize,
                    nd(g, order@[k2] as int).observation->Some_0,
                    ) by {
                    if k2 < k - 1 {
                        let j = choose|j: int|
                            0 <= j < ev0.len() && #[trigger] ev0[j] == (
                            k2 as usize,
                            nd(g, order@[k2] as int).observation->Some_0,
                            );
                        assert(evidence@[j] == ev0[j]);
                    } else {
                        assert(evidence@[evidence@.len() - 1] == (
                        k2 as usize,
                        nd(g, order@[k2] as int).observation->Some_0,
                        ));
                    }
                }
            }
        }
        proof {
            assert forall|i: int| live(g, i) implies card(g, i) >= 1 by {
                assert(map@[i] is Some);
                let k2 = map@[i]->Some_0 as int;
                assert(order@[k2] == i as usize);
                assert(card(g, order@[k2] as int) >= 1);
                assert(order@[k2] as int == i);
            }
            assert forall|i: int| live(g, i) implies exists|k2: int|
                0 <= k2 < order@.len() && #[trigger] order@[k2] == i as usize by {
                assert(map@[i] is Some);
                let k2 = map@[i]->Some_0 as int;
                assert(order@[k2] == i as usize);
            }
        }
        Ok((SolverPlan { nodes, evidence }, order))
    }

    /// The identifiers of the live nodes that carry no observation, in
    /// ascending order: the candidates of the mutual-information survey.
    pub fn unobserved_ids(&self) -> (r: Vec<usize>)
        ensures
            forall|k: int|
                0 <= k < r@.len() ==> live(self@, (#[trigger] r@[k]) as int) && nd(
                    self@,
                    r@[k] as int,
                ).observation is None,
            forall|k1: int, k2: int| 0 <= k1 < k2 < r@.len() ==> r@[k1] < r@[k2],
            forall|i: int|
                live(self@, i) && nd(self@, i).observation is None ==> exists|k: int|
                    0 <= k < r@.len() && (#[trigger] r@[k]) == i as usize,
    {
        let mut out: Vec<usize> = Vec::new();
        let n = self.n_slots();
        let mut i: usize = 0;
        while i < n
            invariant
                n == self@.len(),
                i <= n,
                forall|k: int|
                    0 <= k < out@.len() ==> (#[trigger] out@[k] as int) < i && live(
                        self@,
                        out@[k] as int,
                    ) && nd(self@, out@[k] as int).observation is None,
                forall|k1: int, k2: int| 0 <= k1 < k2 < out@.len() ==> out@[k1] < out@[k2],
                forall|j: int|
                    0 <= j < i && live(self@, j) && nd(self@, j).observation is None ==> exists|
                        k: int,
                    |
                        0 <= k < out@.len() && (#[trigger] out@[k]) == j as usize,
            decreases self@.len() - i,
        {
            match self.get(i) {
                Some(noderef) => {
                    if noderef.observation.is_none() {
                        let ghost out0 = out@;
                        out.push(i);
                        proof {
                            assert(out@[out@.len() - 1] == i);
                            assert forall|j: int|
                                0 <= j < i + 1 && live(self@, j) && nd(
                                    self@,
                                    j,
                                ).observation is None implies exists|k: int|
                                0 <= k < out@.len() && (#[trigger] out@[k]) == j as usize by {
                                if j < i {
                                    let k = choose|k: int|
                                        0 <= k < out0.len() && (#[trigger] out0[k]) == j as usize;
                                    assert(out@[k] == j as usize);
                                } else {
                                    assert(out@[out@.len() - 1] == j as usize);
                                }
                            }
                        }
                    }
                },
                None => {},
            }
            i = i + 1;
        }
        out
    }
}

/// The pairs of `items` whose identifier stands in `allowed`, in their
/// original order.
pub open spec fn kept_by_id<T>(items: Seq<(T, usize)>, allowed: Seq<usize>) -> Seq<(T, usize)> {
    items.filter(|p: (T, usize)| allowed.contains(p.1))
}

/// A list with no allowed identifier keeps nothing.
proof fn lemma_kept_none<T>(s: Seq<(T, usize)>, allowed: Seq<usize>)
    requires
        forall|k: int| 0 <= k < s.len() ==> !allowed.contains((#[trigger] s[k]).1),
    ensures
        kept_by_id(s, allowed) =~= Seq::<(T, usize)>::empty(),
    decreases s.len(),
{
    reveal(Seq::filter);
    if s.len() > 0 {
        assert(s.drop_last() =~= s.subrange(0, s.len() - 1));
        lemma_kept_none(s.drop_last(), allowed);
    }
}

/// Taking one allowed pair out moves exactly it from the kept multiset.
proof fn lemma_kept_remove<T>(s: Seq<(T, usize)>, allowed: Seq<usize>, b: int)
    requires
        0 <= b < s.len(),
        allowed.contains(s[b].1),
    ensures
        kept_by_id(s, allowed).to_multiset() =~= kept_by_id(s.remove(b), allowed).to_multiset()
            .insert(s[b]),
{
    broadcast use vstd::seq_lib::lemma_multiset_commutative;
    broadcast use vstd::seq_lib::group_to_multiset_ensures;
    broadcast use vstd::multiset::group_multiset_axioms;
    broadcast use vstd::seq_lib::group_seq_lib_default;

    let x = s[b];
    let a = s.subrange(0, b);
    let c = s.subrange(b + 1, s.len() as int);
    assert(s =~= a + (seq![x] + c));
    assert(s.remove(b) =~= a + c);
    assert(kept_by_id(s, allowed) == kept_by_id(a, allowed) + kept_by_id(seq![x] + c, allowed));
    assert(kept_by_id(seq![x] + c, allowed) == kept_by_id(seq![x], allowed) + kept_by_id(
        c,
        allowed,
    ));
    assert(kept_by_id(a + c, allowed) == kept_by_id(a, allowed) + kept_by_id(c, allowed));
    assert(kept_by_id(seq![x], allowed) =~= seq![x]) by {
        reveal(Seq::filter);
        assert(seq![x].drop_last() =~= Seq::<(T, usize)>::empty());
    }
    assert(seq![x].to_multiset() =~= Multiset::<(T, usize)>::empty().insert(x)) by {
        assert(seq![x] =~= Seq::<(T, usize)>::empty().push(x));
        assert forall|y: (T, usize)| true implies Seq::<(T, usize)>::empty().to_multiset().count(
            y,
        ) == 0 by {
            assert(!Seq::<(T, usize)>::empty().contains(y));
        }
        assert(Seq::<(T, usize)>::empty().to_multiset() =~= Multiset::<(T, usize)>::empty());
    }
}

/// Keeps, of `items`, the pairs whose identifier stands in `allowed`, and
/// hands them back ordered by identifier: the alignment step that lets two
/// belief surveys over the same identifier set be compared position by
/// position. The output holds exactly the kept pairs, once each.
pub fn align_by_id<T>(items: Vec<(T, usize)>, allowed: &Vec<usize>) -> (r: Vec<(T, usize)>)
    ensures
        r@.to_multiset() == kept_by_id(items@, allowed@).to_multiset(),
        forall|k: int|
            0 <= k < r@.len() ==> allowed@.contains((#[trigger] r@[k]).1) && items@.contains(
                r@[k],
            ),
        forall|k1: int, k2: int| 0 <= k1 < k2 < r@.len() ==> r@[k1].1 <= r@[k2].1,
        forall|j: int|
            0 <= j < items@.len() && allowed@.contains((#[trigger] items@[j]).1) ==> exists|k: int|
                0 <= k < r@.len() && (#[trigger] r@[k]).1 == items@[j].1,
{
    let ghost items0 = items@;
    let mut rest = items;
    let mut out: Vec<(T, usize)> = Vec::new();
    proof {
        broadcast use vstd::seq_lib::group_to_multiset_ensures;
        broadcast use vstd::multiset::group_multiset_axioms;
        assert(out@ =~= Seq::<(T, usize)>::empty());
        assert forall|y: (T, usize)| true implies out@.to_multiset().count(y) == 0 by {
            assert(!out@.contains(y));
        }
        assert(out@.to_multiset() =~= Multiset::<(T, usize)>::empty());
        assert(out@.to_multiset().add(kept_by_id(rest@, allowed@).to_multiset()) =~= kept_by_id(
            items0,
            allowed@,
        ).to_multiset());
    }
    loop
        invariant_except_break
            out@.to_multiset().add(kept_by_id(rest@, allowed@).to_multiset()) =~= kept_by_id(
                items0,
                allowed@,
            ).to_multiset(),
            forall|k: int| 0 <= k < rest@.len() ==> items0.contains(#[trigger] rest@[k]),
            forall|k: int|
                0 <= k < out@.len() ==> allowed@.contains((#[trigger] out@[k]).1)
                    && items0.contains(out@[k]),
            forall|k1: int, k2: int| 0 <= k1 < k2 < out@.len() ==> out@[k1].1 <= out@[k2].1,
            forall|k: int, k2: int|
                0 <= k < out@.len() && 0 <= k2 < rest@.len() && allowed@.contains(
                    (#[trigger] rest@[k2]).1,
                ) ==> (#[trigger] out@[k]).1 <= rest@[k2].1,
            forall|j: int|
                0 <= j < items0.len() && allowed@.contains((#[trigger] items0[j]).1) ==> (exists|
                    k: int,
                |
                    0 <= k < out@.len() && (#[trigger] out@[k]).1 == items0[j].1) || (exists|
                    k: int,
                |
                    0 <= k < rest@.len() && (#[trigger] rest@[k]) == items0[j]),
        ensures
            out@.to_multiset() == kept_by_id(items0, allowed@).to_multiset(),
            forall|k: int|
                0 <= k < out@.len() ==> allowed@.contains((#[trigger] out@[k]).1)
                    && items0.contains(out@[k]),
            forall|k1: int, k2: int| 0 <= k1 < k2 < out@.len() ==> out@[k1].1 <= out@[k2].1,
            forall|j: int|
                0 <= j < items0.len() && allowed@.contains((#[trigger] items0[j]).1) ==> exists|
                    k: int,
                |
                    0 <= k < out@.len() && (#[trigger] out@[k]).1 == items0[j].1,
        decreases rest@.len(),
    {
        // pick the smallest allowed identifier still waiting
        let mut best: Option<usize> = None;
        let mut k: usize = 0;
        while k < rest.len()
            invariant
                k <= rest@.len(),
                best is None ==> forall|t: int|
                    0 <= t < k ==> !allowed@.contains((#[trigger] rest@[t]).1),
                best matches Some(b) ==> (b as int) < rest@.len() && allowed@.contains(
                    rest@[b as int].1,
                ) && (forall|t: int|
                    0 <= t < k && allowed@.contains((#[trigger] rest@[t]).1) ==> rest@[b as int].1
                        <= rest@[t].1),
            decreases rest@.len() - k,
        {
            if contains_allowed(allowed, rest[k].1) {
                match best {
                    None => {
                        best = Some(k);
                    },
                    Some(b) => {
                        if rest[k].1 < rest[b].1 {
                            best = Some(k);
                        }
                    },
                }
            }
            k = k + 1;
        }
        match best {
            None => {
                proof {
                    broadcast use vstd::multiset::group_multiset_axioms;
                    lemma_kept_none(rest@, allowed@);
                    assert(kept_by_id(rest@, allowed@).to_multiset()
                        =~= Multiset::<(T, usize)>::empty()) by {
                        assert forall|y: (T, usize)| true implies kept_by_id(
                            rest@,
                            allowed@,
                        ).to_multiset().count(y) == 0 by {
                            broadcast use vstd::seq_lib::group_to_multiset_ensures;
                            assert(!kept_by_id(rest@, allowed@).contains(y));
                        }
                    }
                    assert(out@.to_multiset() =~= kept_by_id(items0, allowed@).to_multiset());
                    assert forall|j: int|
                        0 <= j < items0.len() && allowed@.contains((#[trigger] items0[j]).1)
                        implies exists|k2: int|
                        0 <= k2 < out@.len() && (#[trigger] out@[k2]).1 == items0[j].1 by {
                        if exists|k2: int|
                            0 <= k2 < rest@.len() && (#[trigger] rest@[k2]) == items0[j] {
                            let k2 = choose|k2: int|
                                0 <= k2 < rest@.len() && (#[trigger] rest@[k2]) == items0[j];
                        }
                    }
                }
                break;
            },
            Some(b) => {
                let ghost rest0 = rest@;
                let ghost out0 = out@;
                let pair = rest.remove(b);
                out.push(pair);
                proof {
                    broadcast use vstd::seq_lib::group_to_multiset_ensures;
                    broadcast use vstd::multiset::group_multiset_axioms;
                    assert(out@[out@.len() - 1] == rest0[b as int]);
                    assert(rest@ == rest0.remove(b as int));
                    lemma_kept_remove(rest0, allowed@, b as int);
                    assert(out@ == out0.push(rest0[b as int]));
                    assert(out@.to_multiset() =~= out0.to_multiset().insert(rest0[b as int]));
                    assert(out@.to_multiset().add(kept_by_id(rest@, allowed@).to_multiset())
                        =~= kept_by_id(items0, allowed@).to_multiset());
                    assert forall|k2: int| 0 <= k2 < rest@.len() implies items0.contains(
                        #[trigger] rest@[k2],
                    ) by {
                        if k2 < b {
                            assert(rest@[k2] == rest0[k2]);
                        } else {
                            assert(rest@[k2] == rest0[k2 + 1]);
                        }
                    }
                    assert forall|k2: int|
                        0 <= k2 < rest@.len() && allowed@.contains((#[trigger] rest@[k2]).1)
                        implies out@[out@.len() - 1].1 <= rest@[k2].1 by {
                        if k2 < b {
                            assert(rest@[k2] == rest0[k2]);
                        } else {
                            assert(rest@[k2] == rest0[k2 + 1]);
                        }
                    }
                    assert forall|j: int|
                        0 <= j < items0.len() && allowed@.contains((#[trigger] items0[j]).1)
                        implies (exists|k2: int|
                        0 <= k2 < out@.len() && (#[trigger] out@[k2]).1 == items0[j].1) || (exists|
                        k2: int,
                    |
                        0 <= k2 < rest@.len() && (#[trigger] rest@[k2]) == items0[j]) by {
                        if exists|k2: int|
                            0 <= k2 < out0.len() && (#[trigger] out0[k2]).1 == items0[j].1 {
                            let k2 = choose|k2: int|
                                0 <= k2 < out0.len() && (#[trigger] out0[k2]).1 == items0[j].1;
                            assert(out@[k2].1 == items0[j].1);
                        } else if exists|k2: int|
                            0 <= k2 < rest0.len() && (#[trigger] rest0[k2]) == items0[j] {
                            let k2 = choose|k2: int|
                                0 <= k2 < rest0.len() && (#[trigger] rest0[k2]) == items0[j];
                            if k2 == b {
                                assert(out@[out@.len() - 1] == items0[j]);
                            } else if k2 < b {
                                assert(rest@[k2] == items0[j]);
                            } else {
                                assert(rest@[k2 - 1] == items0[j]);
                            }
                        }
                    }
                }
            },
        }
    }
    out
}

/// Whether `allowed` holds `x`.
fn contains_allowed(allowed: &Vec<usize>, x: usize) -> (r: bool)
    ensures
        r == allowed@.contains(x),
{
    let mut i: usize = 0;
    while i < allowed.len()
        invariant
            i <= allowed@.len(),
            forall|k: int| 0 <= k < i ==> allowed@[k] != x,
        decreases allowed@.len() - i,
    {
        if allowed[i] == x {
            return true;
        }
        i = i + 1;
    }
    false
}

} // verus!
