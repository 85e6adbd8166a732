//! The library's laws, stated and proved as standalone facts.
//!
//! Each mutation's own contract already pins its effect; the proofs here
//! spell out the cross-cutting guarantees a caller relies on.

use vstd::prelude::*;

use crate::cred::seq_product;
use crate::graph::{
    card, chl, expected_shape, graph_wf, is_path, lemma_edge_back_cycle, lemma_reaches_self, live,
    nd, node_duplicated, par, Node,
};
use crate::json::{record_matches, records_linkable, replayed_node, JsonNode};
use crate::solver::{compaction_ok, placed_before};

verus! {

/// Acyclicity: in a well-formed graph — and every graph built through the
/// mutation API is well formed, since each operation rejects a cycle-making
/// edge with `WouldCycle` and leaves the graph unchanged on failure — no
/// walk along parent links of two or more slots returns to its start, so
/// no node is its own ancestor.
pub proof fn lemma_no_self_ancestor(g: Seq<Option<Node>>, p: Seq<usize>)
    requires
        graph_wf(g),
        is_path(g, p),
        p.len() >= 2,
    ensures
        p.first() != p.last(),
{
}

/// Shape invariant: any credence table stored in a well-formed graph has
/// the node's own cardinality as its leading dimension, then each parent's
/// cardinality in parent order, and exactly one entry per cell. (That a
/// parent or value mutation clears the table until it is explicitly reset
/// stands in each mutation's own contract.)
pub proof fn lemma_table_shape(g: Seq<Option<Node>>, i: int)
    requires
        graph_wf(g),
        live(g, i),
        nd(g, i).credencies is Some,
    ensures
        ({
            let t = nd(g, i).credencies->Some_0;
            &&& t.shape_spec().len() == par(g, i).len() + 1
            &&& t.shape_spec()[0] == card(g, i) as usize
            &&& (forall|m: int|
                0 <= m < par(g, i).len() ==> t.shape_spec()[m + 1] == card(
                    g,
                    #[trigger] par(g, i)[m] as int,
                ) as usize)
            &&& t.data_spec().len() == crate::cred::seq_product(t.shape_spec())
        }),
{
    let t = nd(g, i).credencies->Some_0;
    assert(t.shape_spec() == expected_shape(g, i));
}

/// Duplicate-node isolation, one direction: after `duplicate_node(id)`
/// returned the copy `m`, a mutation that touches only `m` and the tables
/// of `m`'s children — which is what `set_credencies`, `add_value` and
/// `remove_value` on `m` do by their contracts — leaves the original node
/// exactly as it was before the duplication.
pub proof fn lemma_duplicate_keeps_original(
    g0: Seq<Option<Node>>,
    g1: Seq<Option<Node>>,
    g2: Seq<Option<Node>>,
    id: usize,
    m: usize,
)
    requires
        graph_wf(g0),
        live(g0, id as int),
        node_duplicated(g0, g1, id, m),
        g2.len() == g1.len(),
        forall|j: int|
            0 <= j < g1.len() && j != m && !chl(g1, m as int).contains(j as usize) ==> g2[j]
                == g1[j],
    ensures
        nd(g2, id as int) == nd(g0, id as int),
{
    // the original is not the copy and not one of the copy's children
    assert(id != m);
    assert(!chl(g0, id as int).contains(id)) by {
        if chl(g0, id as int).contains(id) {
            let k = choose|k: int|
                0 <= k < chl(g0, id as int).len() && chl(g0, id as int)[k] == id;
            assert(par(g0, id as int).contains(id));
            lemma_reaches_self(g0, id);
            lemma_edge_back_cycle(g0, id, id);
        }
    }
    assert(chl(g1, m as int) == chl(g0, id as int));
    assert(0 <= id as int && (id as int) < g1.len());
    assert(g2[id as int] == g1[id as int]);
}

/// Duplicate-node isolation, the other direction: a mutation that touches
/// only the original `id` and the tables of `id`'s children leaves the
/// copy `m` exactly as the duplication built it.
pub proof fn lemma_duplicate_keeps_copy(
    g0: Seq<Option<Node>>,
    g1: Seq<Option<Node>>,
    g2: Seq<Option<Node>>,
    id: usize,
    m: usize,
)
    requires
        graph_wf(g0),
        live(g0, id as int),
        node_duplicated(g0, g1, id, m),
        g2.len() == g1.len(),
        forall|j: int|
            0 <= j < g1.len() && j != id && !chl(g1, id as int).contains(j as usize) ==> g2[j]
                == g1[j],
    ensures
        nd(g2, m as int) == nd(g1, m as int),
{
    assert(id != m);
    // the copy is not one of the original's children: those were all live
    // before the duplication, and the copy's slot was free
    assert(nd(g1, id as int) == nd(g0, id as int));
    assert(chl(g1, id as int) == chl(g0, id as int));
    assert(!chl(g0, id as int).contains(m)) by {
        if chl(g0, id as int).contains(m) {
            let k = choose|k: int| 0 <= k < chl(g0, id as int).len() && chl(g0, id as int)[k] == m;
            assert(live(g0, chl(g0, id as int)[k] as int));
        }
    }
    assert(0 <= m as int && (m as int) < g1.len());
    assert(g2[m as int] == g1[m as int]);
}


/// Exported records always link: their parent indices point only at
/// earlier records (the export is topological) and hold no duplicates, so
/// replaying an export is guaranteed to succeed.
pub proof fn lemma_export_records_linkable(
    g: Seq<Option<Node>>,
    order: Seq<usize>,
    map: Seq<Option<usize>>,
    rs: Seq<JsonNode>,
)
    requires
        graph_wf(g),
        compaction_ok(g, order, map),
        rs.len() == order.len(),
        forall|k: int|
            0 <= k < rs.len() ==> record_matches(g, map, order[k] as int, (#[trigger] rs[k])@),
    ensures
        records_linkable(rs),
{
    assert forall|k: int, m: int|
        0 <= k < rs.len() && 0 <= m < rs[k].parents@.len() implies (#[trigger] rs[k].parents@[m] as int)
        < k by {
        let i = order[k] as int;
        assert(live(g, i));
        assert(rs[k].parents@[m] == map[par(g, i)[m] as int]->Some_0);
        assert(live(g, par(g, i)[m] as int));
        assert(placed_before(order, par(g, i)[m], k));
        let j = choose|j: int| 0 <= j < k && order[j] == par(g, i)[m];
        assert(map[order[j] as int] == Some(j as usize));
    }
    assert forall|k: int| 0 <= k < rs.len() implies (#[trigger] rs[k]).parents@.no_duplicates() by {
        let i = order[k] as int;
        assert(live(g, i));
        let ps = rs[k].parents@;
        assert forall|m1: int, m2: int|
            0 <= m1 < ps.len() && 0 <= m2 < ps.len() && m1 != m2 implies ps[m1] != ps[m2] by {
            assert(live(g, par(g, i)[m1] as int));
            assert(live(g, par(g, i)[m2] as int));
            assert(map[par(g, i)[m1] as int] is Some);
            assert(map[par(g, i)[m2] as int] is Some);
            if ps[m1] == ps[m2] {
                // the renumbering is injective: positions name slots
                assert(order[map[par(g, i)[m1] as int]->Some_0 as int] == par(g, i)[m1]);
                assert(order[map[par(g, i)[m2] as int]->Some_0 as int] == par(g, i)[m2]);
                assert(par(g, i)[m1] == par(g, i)[m2]);
                assert(par(g, i).no_duplicates());
            }
        }
    }
}

/// Round trip: replaying an export rebuilds the same network up to the
/// dense renumbering. Record position `k` of the reloaded graph mirrors
/// slot `order[k]` of the original: same label, description, values and
/// observation, the same credence table entry for entry, and the same
/// topology with every parent renamed through `map`. (Row annotations of a
/// stale length are dropped on the way, and freed slots disappear; neither
/// carries network content.)
pub proof fn lemma_round_trip(
    g: Seq<Option<Node>>,
    order: Seq<usize>,
    map: Seq<Option<usize>>,
    rs: Seq<JsonNode>,
    g2: Seq<Option<Node>>,
)
    requires
        graph_wf(g),
        compaction_ok(g, order, map),
        rs.len() == order.len(),
        forall|k: int|
            0 <= k < rs.len() ==> record_matches(g, map, order[k] as int, (#[trigger] rs[k])@),
        g2.len() == rs.len(),
        forall|k: int| 0 <= k < rs.len() ==> replayed_node(g2, k, (#[trigger] rs[k])@),
    ensures
        forall|k: int|
            0 <= k < order.len() ==> {
                let i = #[trigger] order[k] as int;
                let a = nd(g, i);
                let b = nd(g2, k);
                &&& live(g2, k)
                &&& b.label@ == a.label@
                &&& b.description@ == a.description@
                &&& b.values@.map_values(|s: String| s@) == a.values@.map_values(|s: String| s@)
                &&& b.parents@ == Seq::new(
                    par(g, i).len(),
                    |m: int| map[par(g, i)[m] as int]->Some_0,
                )
                &&& b.observation == a.observation
                &&& (match (b.credencies, a.credencies) {
                    (Some(tb), Some(ta)) => tb.shape_spec() == ta.shape_spec() && tb.entries()
                        == ta.entries(),
                    (None, None) => true,
                    _ => false,
                })
            },
{
    assert forall|k: int| 0 <= k < order.len() implies {
        let i = #[trigger] order[k] as int;
        let a = nd(g, i);
        let b = nd(g2, k);
        &&& live(g2, k)
        &&& b.label@ == a.label@
        &&& b.description@ == a.description@
        &&& b.values@.map_values(|s: String| s@) == a.values@.map_values(|s: String| s@)
        &&& b.parents@ == Seq::new(par(g, i).len(), |m: int| map[par(g, i)[m] as int]->Some_0)
        &&& b.observation == a.observation
        &&& (match (b.credencies, a.credencies) {
            (Some(tb), Some(ta)) => tb.shape_spec() == ta.shape_spec() && tb.entries()
                == ta.entries(),
            (None, None) => true,
            _ => false,
        })
    } by {
        let i = order[k] as int;
        let a = nd(g, i);
        let b = nd(g2, k);
        let rv = rs[k]@;
        assert(record_matches(g, map, i, rv));
        assert(replayed_node(g2, k, rv));
        assert(live(g, i));
        // cardinalities agree record for record
        assert(b.values@.map_values(|s: String| s@) == a.values@.map_values(|s: String| s@));
        assert(b.values@.len() == a.values@.len()) by {
            assert(b.values@.map_values(|s: String| s@).len() == b.values@.len());
            assert(a.values@.map_values(|s: String| s@).len() == a.values@.len());
        }
        // the observation survives: it was a valid index of the original
        assert(b.observation == a.observation) by {
            match rv.observation {
                Some(o) => {
                    assert(a.observation == Some(o));
                    assert((o as int) < card(g, i));
                    assert(rv.values.len() == a.values@.len());
                },
                None => {},
            }
        }
        // the table survives: its entry count fits the rebuilt shape
        match (rv.credencies, a.credencies) {
            (Some(d), Some(ta)) => {
                assert(d == ta.entries());
                assert(ta.shape_spec() == expected_shape(g, i));
                assert(ta.dense());
                assert(d.len() == ta.data_spec().len()) by {
                    assert(ta.entries().len() == ta.data_spec().len());
                }
                // the rebuilt shape equals the original shape
                assert(expected_shape(g2, k) =~= expected_shape(g, i)) by {
                    assert(card(g2, k) == card(g, i));
                    assert(b.parents@ == Seq::new(
                        par(g, i).len(),
                        |m: int| map[par(g, i)[m] as int]->Some_0,
                    ));
                    assert forall|m: int| 0 <= m < par(g, i).len() implies card(
                        g2,
                        #[trigger] par(g2, k)[m] as int,
                    ) == card(g, par(g, i)[m] as int) by {
                        let x = par(g, i)[m];
                        assert(live(g, x as int));
                        assert(map[x as int] is Some);
                        let km = map[x as int]->Some_0;
                        assert(par(g2, k)[m] == km);
                        assert((km as int) < order.len() && order[km as int] == x);
                        // the parent's record pins its value count
                        assert(record_matches(g, map, order[km as int] as int, rs[km as int]@));
                        assert(replayed_node(g2, km as int, rs[km as int]@));
                        let rp = rs[km as int]@;
                        assert(rp.values == nd(g, x as int).values@.map_values(|s: String| s@));
                        assert(nd(g2, km as int).values@.map_values(|s: String| s@) == rp.values);
                        assert(nd(g2, km as int).values@.len() == rp.values.len()) by {
                            assert(nd(g2, km as int).values@.map_values(|s: String| s@).len()
                                == nd(g2, km as int).values@.len());
                        }
                        assert(rp.values.len() == nd(g, x as int).values@.len()) by {
                            assert(nd(g, x as int).values@.map_values(|s: String| s@).len() == nd(
                                g,
                                x as int,
                            ).values@.len());
                        }
                    }
                }
                assert(seq_product(expected_shape(g2, k)) == seq_product(expected_shape(g, i)));
                assert(d.len() == seq_product(expected_shape(g2, k)));
                assert(crate::cred::prefix_products_fit(expected_shape(g2, k)));
                assert(b.credencies is Some);
                let tb = b.credencies->Some_0;
                assert(tb.shape_spec() == expected_shape(g2, k));
                assert(tb.shape_spec() == ta.shape_spec());
                assert(tb.entries() == d);
            },
            (None, None) => {
                assert(b.credencies is None);
            },
            _ => {},
        }
    }
}

} // verus!
