//! The JSON serialization of graphs.
//!
//! A graph is exported as an array of records, one per node in topological
//! order, parents encoded as indices into the same array; credence entries
//! are decimal number tokens, with `null` for the missing-value sentinel.
//! The emitted text is pinned exactly by [`emit_graph`], and the reader is
//! pinned exactly by [`sp_records`]: every parsing function equals its
//! spec-level counterpart. Import replays the parsed records through the
//! normal mutation API, so a loaded graph can never violate the graph
//! invariants: an invalid topology surfaces the edge error, while
//! malformed optional annotation data (row texts, mis-sized tables) is
//! dropped silently.

use vstd::prelude::*;

use crate::cred::{prefix_products_fit, scan_number, seq_product, str_to_chars, Cred, CredTable};
use crate::graph::{
    card, chl, copy_strings, expected_shape, graph_wf, live, nd, par, parent_cards, Dag, EdgeError,
    Node,
};
use crate::solver::compaction_ok;

verus! {

/// One node of the JSON file: the content fields of a node, with parents
/// as indices into the record array itself.
pub struct JsonNode {
    /// Display name.
    pub label: String,
    /// Free-text description; empty when the file omits it.
    pub description: String,
    /// The ordered outcomes.
    pub values: Vec<String>,
    /// Indices of the parent records in the same array.
    pub parents: Vec<usize>,
    /// Index of the observed outcome, if any.
    pub observation: Option<usize>,
    /// The flattened credence table, row-major, if any.
    pub credencies: Option<Vec<Cred>>,
    /// One annotation per combination of parent values; empty when omitted.
    pub cred_description: Vec<String>,
}

/// The abstract content of a record.
pub ghost struct JsonNodeV {
    pub label: Seq<char>,
    pub description: Seq<char>,
    pub values: Seq<Seq<char>>,
    pub parents: Seq<usize>,
    pub observation: Option<usize>,
    pub credencies: Option<Seq<Option<Seq<char>>>>,
    pub cred_description: Seq<Seq<char>>,
}

impl View for JsonNode {
    type V = JsonNodeV;

    open spec fn view(&self) -> JsonNodeV {
        JsonNodeV {
            label: self.label@,
            description: self.description@,
            values: self.values@.map_values(|s: String| s@),
            parents: self.parents@,
            observation: self.observation,
            credencies: match self.credencies {
                Some(d) => Some(d@.map_values(|c: Cred| c@)),
                None => None,
            },
            cred_description: self.cred_description@.map_values(|s: String| s@),
        }
    }
}

/// A syntax failure of the import, with the character offset it was
/// noticed at.
#[derive(Copy, Clone, Debug)]
pub struct JsonError {
    /// Character offset of the failure.
    pub offset: usize,
}

/// Why an import failed: the text is not valid JSON of the expected
/// schema, or the records encode a graph that breaks the invariants.
#[derive(Debug)]
pub enum DeserError {
    /// The text could not be parsed.
    Json(JsonError),
    /// Replaying the records hit an impossible edge.
    Graph(EdgeError),
}

/// Relies on `String::from_iter` (via `Iterator::collect`): the returned
/// string holds exactly the given characters, in order.
#[verifier::external_body]
fn chars_to_string(v: &Vec<char>) -> (r: String)
    ensures
        r@ == v@,
{
    v.iter().collect()
}

/// Relies on `char::from_u32`: `Some` exactly for Unicode scalar values
/// (not surrogates, not beyond the maximum), holding that very value.
pub assume_specification[ char::from_u32 ](i: u32) -> (r: Option<char>)
    ensures
        r matches Some(c) ==> c as u32 == i,
        r is Some <==> (i < 0xD800 || (0xE000 <= i && i < 0x110000)),
;

/// `r` mirrors the node in slot `i` of `g`, its parents renumbered
/// through `map`.
pub open spec fn record_matches(
    g: Seq<Option<Node>>,
    map: Seq<Option<usize>>,
    i: int,
    r: JsonNodeV,
) -> bool {
    &&& r.label == nd(g, i).label@
    &&& r.description == nd(g, i).description@
    &&& r.values == nd(g, i).values@.map_values(|s: String| s@)
    &&& r.parents == Seq::new(par(g, i).len(), |m: int| map[par(g, i)[m] as int]->Some_0)
    &&& r.observation == nd(g, i).observation
    &&& (match (r.credencies, nd(g, i).credencies) {
        (Some(d), Some(t)) => d == t.entries(),
        (None, None) => true,
        _ => false,
    })
    &&& r.cred_description == nd(g, i).cred_description@.map_values(|s: String| s@)
}

/// The node in slot `k` of `g` is what replaying record `r` as the `k`-th
/// record builds: content copied, parents linked, an out-of-range
/// observation dropped, and the optional table and row annotations kept
/// only when their sizes fit.
pub open spec fn replayed_node(g: Seq<Option<Node>>, k: int, r: JsonNodeV) -> bool {
    live(g, k) && {
        let n = nd(g, k);
        &&& n.label@ == r.label
        &&& n.description@ == r.description
        &&& n.values@.map_values(|s: String| s@) == r.values
        &&& n.parents@ == r.parents
        &&& n.observation == (match r.observation {
            Some(o) => if (o as int) < r.values.len() {
                Some(o)
            } else {
                None
            },
            None => None,
        })
        &&& n.cred_description@.map_values(|s: String| s@) == (if r.cred_description.len()
            == seq_product(parent_cards(g, k)) {
            r.cred_description
        } else {
            Seq::<Seq<char>>::empty()
        })
        &&& (match r.credencies {
            None => n.credencies is None,
            Some(data) => {
                if data.len() == seq_product(expected_shape(g, k)) && prefix_products_fit(
                    expected_shape(g, k),
                ) {
                    n.credencies matches Some(t) && t.shape_spec() == expected_shape(g, k)
                        && t.entries() == data
                } else {
                    n.credencies is None
                }
            },
        })
    }
}

/// The records' parent indices point only at earlier records, without
/// duplicates: the well-formedness that a replay is guaranteed to accept.
pub open spec fn records_linkable_v(rs: Seq<JsonNodeV>) -> bool {
    (forall|k: int| 0 <= k < rs.len() ==> (#[trigger] rs[k]).parents.no_duplicates()) && (forall|
        k: int,
        m: int,
    |
        0 <= k < rs.len() && 0 <= m < rs[k].parents.len() ==> (#[trigger] rs[k].parents[m] as int)
            < k)
}

/// Some parent entry of record `k` commits the offense that `e` names:
/// `BadNode` for an index past the record's own position (the slot does
/// not exist yet), `WouldCycle` for the record's own position (a
/// self-parent), `AlreadyExisting` for an index repeated within the list.
pub open spec fn edge_offense_v(rs: Seq<JsonNodeV>, e: EdgeError) -> bool {
    exists|k: int, m: int|
        #![trigger rs[k].parents[m]]
        0 <= k < rs.len() && 0 <= m < rs[k].parents.len() && (match e {
            EdgeError::BadNode => (rs[k].parents[m] as int) > k,
            EdgeError::WouldCycle => (rs[k].parents[m] as int) == k,
            EdgeError::AlreadyExisting => exists|m2: int|
                0 <= m2 < m && #[trigger] rs[k].parents[m2] == rs[k].parents[m],
        })
}

/// The records' parent indices point only at earlier records, without
/// duplicates: the well-formedness that a replay is guaranteed to accept.
pub open spec fn records_linkable(rs: Seq<JsonNode>) -> bool {
    (forall|k: int| 0 <= k < rs.len() ==> (#[trigger] rs[k]).parents@.no_duplicates()) && (forall|
        k: int,
        m: int,
    |
        0 <= k < rs.len() && 0 <= m < rs[k].parents@.len() ==> (#[trigger] rs[k].parents@[m] as int)
            < k)
}

/// A replayed record stays replayed while the node keeps its content
/// fields and every cardinality in sight stays put (only link lists and
/// other nodes may move).
pub proof fn lemma_replayed_stable(
    g1: Seq<Option<Node>>,
    g2: Seq<Option<Node>>,
    j: int,
    r: JsonNodeV,
)
    requires
        replayed_node(g1, j, r),
        live(g2, j),
        nd(g2, j).label == nd(g1, j).label,
        nd(g2, j).description == nd(g1, j).description,
        nd(g2, j).values == nd(g1, j).values,
        nd(g2, j).parents == nd(g1, j).parents,
        nd(g2, j).credencies == nd(g1, j).credencies,
        nd(g2, j).cred_description == nd(g1, j).cred_description,
        nd(g2, j).observation == nd(g1, j).observation,
        forall|m: int|
            0 <= m < par(g1, j).len() ==> live(g1, #[trigger] par(g1, j)[m] as int) && card(
                g2,
                par(g1, j)[m] as int,
            ) == card(g1, par(g1, j)[m] as int),
    ensures
        replayed_node(g2, j, r),
{
    assert(parent_cards(g2, j) =~= parent_cards(g1, j));
    assert(expected_shape(g2, j) =~= expected_shape(g1, j));
}

impl Dag {
    /// The graph as records: one per node in topological order, parents
    /// renumbered to record positions. Also returns the order (slot ids by
    /// record position) and the renumbering map.
    pub fn export_records(&self) -> (r: (Vec<JsonNode>, Vec<usize>, Vec<Option<usize>>))
        requires
            self.wf(),
        ensures
            compaction_ok(self@, r.1@, r.2@),
            r.0@.len() == r.1@.len(),
            forall|k: int|
                0 <= k < r.0@.len() ==> record_matches(
                    self@,
                    r.2@,
                    r.1@[k] as int,
                    (#[trigger] r.0@[k])@,
                ),
    {
        let ghost g = self@;
        let (order, map) = self.compact_ids();
        let mut recs: Vec<JsonNode> = Vec::new();
        let mut k: usize = 0;
        while k < order.len()
            invariant
                graph_wf(g),
                g == self@,
                compaction_ok(g, order@, map@),
                k <= order@.len(),
                recs@.len() == k,
                forall|k2: int|
                    0 <= k2 < k ==> record_matches(g, map@, order@[k2] as int, (
                    #[trigger] recs@[k2])@),
            decreases order@.len() - k,
        {
            let slot = order[k];
            proof {
                assert(live(g, order@[k as int] as int));
            }
            let n = self.get(slot).unwrap();
            // parents renumbered to record positions
            let mut parents: Vec<usize> = Vec::new();
            let mut m: usize = 0;
            while m < n.parents.len()
                invariant
                    graph_wf(g),
                    g == self@,
                    compaction_ok(g, order@, map@),
                    k < order@.len(),
                    slot == order@[k as int],
                    live(g, slot as int),
                    n.parents@ == par(g, slot as int),
                    m <= n.parents@.len(),
                    parents@.len() == m,
                    forall|t: int|
                        0 <= t < m ==> #[trigger] parents@[t] == map@[par(
                            g,
                            slot as int,
                        )[t] as int]->Some_0,
                decreases n.parents@.len() - m,
            {
                let p = n.parents[m];
                proof {
                    assert(live(g, par(g, slot as int)[m as int] as int));
                    assert(map@[p as int] is Some);
                }
                parents.push(map[p].unwrap());
                m = m + 1;
            }
            let credencies = match &n.credencies {
                Some(t) => {
                    let data = t.data();
                    let mut out: Vec<Cred> = Vec::new();
                    let mut j: usize = 0;
                    while j < data.len()
                        invariant
                            data@ == t.data_spec(),
                            j <= data@.len(),
                            out@ =~= data@.subrange(0, j as int),
                        decreases data@.len() - j,
                    {
                        out.push(data[j].clone_cred());
                        j = j + 1;
                    }
                    proof {
                        assert(out@ =~= t.data_spec());
                    }
                    Some(out)
                },
                None => None,
            };
            let rec = JsonNode {
                label: n.label.clone(),
                description: n.description.clone(),
                values: copy_strings(&n.values),
                parents,
                observation: n.observation,
                credencies,
                cred_description: copy_strings(&n.cred_description),
            };
            proof {
                assert(rec@.parents =~= Seq::new(
                    par(g, slot as int).len(),
                    |m2: int| map@[par(g, slot as int)[m2] as int]->Some_0,
                ));
                assert(rec@.values =~= nd(g, slot as int).values@.map_values(|s: String| s@));
                assert(rec@.cred_description =~= nd(g, slot as int).cred_description@.map_values(
                    |s: String| s@,
                ));
                match (rec@.credencies, nd(g, slot as int).credencies) {
                    (Some(d), Some(t)) => {
                        assert(d =~= t.entries());
                    },
                    _ => {},
                }
                assert(record_matches(g, map@, slot as int, rec@));
            }
            recs.push(rec);
            k = k + 1;
        }
        (recs, order, map)
    }

    /// Serializes the graph: the text is exactly [`emit_graph`] of records
    /// that mirror the compacted graph ([`record_matches`]), in topological
    /// order, with credence entries as their number tokens (`null` for the
    /// missing-value sentinel).
    pub fn to_json(&self) -> (r: String)
        requires
            self.wf(),
        ensures
            exists|recs: Seq<JsonNode>, order: Seq<usize>, map: Seq<Option<usize>>|
                #![trigger compaction_ok(self@, order, map), recs.len()]
                {
                    &&& compaction_ok(self@, order, map)
                    &&& recs.len() == order.len()
                    &&& (forall|k: int|
                        0 <= k < recs.len() ==> record_matches(
                            self@,
                            map,
                            order[k] as int,
                            (#[trigger] recs[k])@,
                        ))
                    &&& r@ == emit_graph(recs.map_values(|n: JsonNode| n@))
                },
    {
        let (recs, order, map) = self.export_records();
        let text = emit_records(&recs);
        proof {
            assert(compaction_ok(self@, order@, map@) && recs@.len() == order@.len() && (forall|
                k: int,
            |
                0 <= k < recs@.len() ==> record_matches(
                    self@,
                    map@,
                    order@[k] as int,
                    (#[trigger] recs@[k])@,
                )) && text@ == emit_graph(recs@.map_values(|n: JsonNode| n@)));
        }
        text
    }

    /// Builds a graph from records by replaying them through the mutation
    /// API: node `k` of the result mirrors record `k`, with invalid
    /// observations dropped and mis-sized tables or annotation lists
    /// silently ignored. Succeeds exactly when the records link: every
    /// parent index points at an earlier record and none repeats; else the
    /// offending edge's error comes back.
    #[verifier::rlimit(80)]
    pub fn from_records(records: &Vec<JsonNode>) -> (r: Result<Dag, DeserError>)
        ensures
            match r {
                Ok(d) => d.wf() && d@.len() == records@.len() && (forall|k: int|
                    0 <= k < records@.len() ==> replayed_node(d@, k, (#[trigger] records@[k])@)),
                Err(e) => e matches DeserError::Graph(e2) && edge_offense_v(
                    records@.map_values(|n2: JsonNode| n2@),
                    e2,
                ),
            },
            r is Ok <==> records_linkable(records@),
    {
        let mut dag = Dag::new();
        let mut k: usize = 0;
        while k < records.len()
            invariant
                dag.wf(),
                k <= records@.len(),
                dag@.len() == k,
                forall|j: int| 0 <= j < k ==> live(dag@, j),
                forall|j: int, m: int|
                    0 <= j < k && 0 <= m < par(dag@, j).len() ==> (#[trigger] par(dag@, j)[m] as int)
                        < j,
                forall|j: int| 0 <= j < k ==> replayed_node(dag@, j, (#[trigger] records@[j])@),
            decreases records@.len() - k,
        {
            let ghost g0 = dag@;
            let rec = &records[k];
            let id = dag.insert_node();
            proof {
                assert(id == k) by {
                    if (id as int) < k {
                        assert(live(g0, id as int));
                    }
                }
            }
            let ghost gi = dag@;
            dag.set_label(id, rec.label.clone());
            proof {
                assert forall|j: int| 0 <= j < k implies live(dag@, j) && dag@[j] == g0[j] by {
                    assert(live(g0, j));
                    assert(gi[j] == g0[j]);
                    assert(dag@[j] == gi[j]);
                }
                assert forall|j: int| 0 <= j < k implies replayed_node(
                    dag@,
                    j,
                    (#[trigger] records@[j])@,
                ) by {
                    assert(live(g0, j));
                    assert forall|m: int| 0 <= m < par(g0, j).len() implies live(
                        g0,
                        #[trigger] par(g0, j)[m] as int,
                    ) && card(dag@, par(g0, j)[m] as int) == card(g0, par(g0, j)[m] as int) by {
                        let x = par(g0, j)[m] as int;
                        assert(live(g0, x));
                        assert(gi[x] == g0[x]);
                        assert(dag@[x] == gi[x]);
                    }
                    lemma_replayed_stable(g0, dag@, j, records@[j]@);
                }
                assert forall|j: int, m: int|
                    0 <= j <= k && 0 <= m < par(dag@, j).len() implies (#[trigger] par(
                    dag@,
                    j,
                )[m] as int) < j by {
                    if j < k {
                        assert(par(dag@, j) == par(g0, j));
                    } else {
                        assert(par(dag@, j).len() == 0);
                    }
                }
                assert(par(dag@, k as int) =~= rec.parents@.subrange(0, 0));
            }
            // the parent links; a failure here is the import's graph error
            let mut e: usize = 0;
            while e < rec.parents.len()
                invariant
                    dag.wf(),
                    k < records@.len(),
                    id == k,
                    rec == &records@[k as int],
                    e <= rec.parents@.len(),
                    dag@.len() == k + 1,
                    live(dag@, k as int),
                    forall|j: int| 0 <= j < k ==> live(dag@, j),
                    forall|j: int, m: int|
                        0 <= j <= k && 0 <= m < par(dag@, j).len() ==> (#[trigger] par(
                            dag@,
                            j,
                        )[m] as int) < j,
                    par(dag@, k as int) == rec.parents@.subrange(0, e as int),
                    nd(dag@, k as int).label@ == rec.label@,
                    nd(dag@, k as int).description@.len() == 0,
                    nd(dag@, k as int).values@.len() == 0,
                    nd(dag@, k as int).credencies is None,
                    nd(dag@, k as int).cred_description@.len() == 0,
                    nd(dag@, k as int).observation is None,
                    forall|j: int| 0 <= j < k ==> replayed_node(dag@, j, (#[trigger] records@[j])@),
                decreases rec.parents@.len() - e,
            {
                let ghost gpre = dag@;
                let p = rec.parents[e];
                match dag.add_edge(id, p) {
                    Ok(()) => {},
                    Err(err) => {
                        proof {
                            let rvs = records@.map_values(|n2: JsonNode| n2@);
                            assert(rvs[k as int].parents == rec.parents@);
                            match err {
                                EdgeError::BadNode => {
                                    // the only node that can be missing is a
                                    // slot not inserted yet
                                    assert(!live(gpre, p as int) || !live(gpre, id as int));
                                    assert((p as int) > k);
                                    assert((rvs[k as int].parents[e as int] as int) > k as int);
                                },
                                EdgeError::WouldCycle => {
                                    // nothing points at the new node, so only
                                    // the trivial walk can reach it
                                    assert forall|j: int| live(gpre, j) implies !par(
                                        gpre,
                                        j,
                                    ).contains(id) by {
                                        if par(gpre, j).contains(id) {
                                            let m = choose|m: int|
                                                0 <= m < par(gpre, j).len() && par(gpre, j)[m]
                                                    == id;
                                        }
                                    }
                                    if p != id {
                                        crate::graph::lemma_no_inbound_unreachable(gpre, p, id);
                                    }
                                    assert(p == id);
                                    assert((rvs[k as int].parents[e as int] as int) == k as int);
                                },
                                EdgeError::AlreadyExisting => {
                                    assert(par(gpre, k as int).contains(p));
                                    let m = choose|m: int|
                                        0 <= m < e && rec.parents@.subrange(0, e as int)[m] == p;
                                    assert(rec.parents@[m] == rec.parents@[e as int]);
                                    assert(rvs[k as int].parents[m] == rvs[k as int].parents[e as int]);
                                },
                            }
                            assert(edge_offense_v(rvs, err));
                            if records_linkable(records@) {
                                assert(rec.parents@.no_duplicates());
                                assert((rec.parents@[e as int] as int) < k);
                            }
                        }
                        return Err(DeserError::Graph(err));
                    },
                }
                e = e + 1;
                proof {
                    assert(par(dag@, k as int) =~= rec.parents@.subrange(0, e as int));
                    assert forall|j: int| 0 <= j < k implies live(dag@, j) by {
                        assert(live(gpre, j));
                    }
                    assert forall|j: int| 0 <= j < k implies replayed_node(
                        dag@,
                        j,
                        (#[trigger] records@[j])@,
                    ) by {
                        if j != p {
                            assert(dag@[j] == gpre[j]);
                        }
                        assert forall|m: int| 0 <= m < par(gpre, j).len() implies live(
                            gpre,
                            #[trigger] par(gpre, j)[m] as int,
                        ) && card(dag@, par(gpre, j)[m] as int) == card(
                            gpre,
                            par(gpre, j)[m] as int,
                        ) by {
                            let x = par(gpre, j)[m] as int;
                            assert(live(gpre, x));
                            if x == k {
                                assert(nd(dag@, x).values == nd(gpre, x).values);
                                assert(nd(dag@, x).values@ == nd(gpre, x).values@);
                            } else if x == p as int {
                                assert(nd(dag@, x).values == nd(gpre, x).values);
                                assert(nd(dag@, x).values@ == nd(gpre, x).values@);
                            } else {
                                assert(dag@[x] == gpre[x]);
                            }
                        }
                        lemma_replayed_stable(gpre, dag@, j, records@[j]@);
                    }
                    assert forall|j: int, m: int|
                        0 <= j <= k && 0 <= m < par(dag@, j).len() implies (#[trigger] par(
                        dag@,
                        j,
                    )[m] as int) < j by {
                        if j != k {
                            assert(par(dag@, j) == par(gpre, j));
                        } else {
                            assert(par(dag@, j)[m] == rec.parents@.subrange(0, e as int)[m]);
                            if m < e - 1 {
                                assert(par(gpre, j)[m] == par(dag@, j)[m]);
                            } else {
                                assert(par(dag@, j)[m] == p);
                                assert(live(gpre, p as int));
                                assert((p as int) < k + 1);
                                assert(p != id);
                            }
                        }
                    }
                }
            }
            proof {
                assert(par(dag@, k as int) =~= rec.parents@);
            }
            // the values, then the remaining content
            let mut v: usize = 0;
            while v < rec.values.len()
                invariant
                    dag.wf(),
                    k < records@.len(),
                    id == k,
                    rec == &records@[k as int],
                    v <= rec.values@.len(),
                    dag@.len() == k + 1,
                    live(dag@, k as int),
                    forall|j: int| 0 <= j < k ==> live(dag@, j),
                    forall|j: int, m: int|
                        0 <= j <= k && 0 <= m < par(dag@, j).len() ==> (#[trigger] par(
                            dag@,
                            j,
                        )[m] as int) < j,
                    par(dag@, k as int) == rec.parents@,
                    nd(dag@, k as int).values@ =~= rec.values@.subrange(0, v as int),
                    nd(dag@, k as int).label@ == rec.label@,
                    nd(dag@, k as int).description@.len() == 0,
                    nd(dag@, k as int).credencies is None,
                    nd(dag@, k as int).cred_description@.len() == 0,
                    nd(dag@, k as int).observation is None,
                    forall|j: int| 0 <= j < k ==> replayed_node(dag@, j, (#[trigger] records@[j])@),
                decreases rec.values@.len() - v,
            {
                let ghost gpre = dag@;
                proof {
                    // this node has no children: every parent index is
                    // smaller than its owner, and this is the newest node
                    if chl(gpre, k as int).len() > 0 {
                        let c = chl(gpre, k as int)[0];
                        assert(live(gpre, c as int) && par(gpre, c as int).contains(id));
                        let m = choose|m: int|
                            0 <= m < par(gpre, c as int).len() && par(gpre, c as int)[m] == id;
                        assert((par(gpre, c as int)[m] as int) < c as int);
                    }
                }
                dag.add_value(id, rec.values[v].clone());
                v = v + 1;
                proof {
                    assert(nd(dag@, k as int).values@ =~= rec.values@.subrange(0, v as int));
                    assert forall|j: int| 0 <= j < k implies replayed_node(
                        dag@,
                        j,
                        (#[trigger] records@[j])@,
                    ) by {
                        assert(!chl(gpre, k as int).contains(j as usize));
                        assert(dag@[j] == gpre[j]);
                        assert forall|m: int| 0 <= m < par(gpre, j).len() implies live(
                            gpre,
                            #[trigger] par(gpre, j)[m] as int,
                        ) && card(dag@, par(gpre, j)[m] as int) == card(
                            gpre,
                            par(gpre, j)[m] as int,
                        ) by {
                            let x = par(gpre, j)[m] as int;
                            assert(live(gpre, x));
                            assert((par(gpre, j)[m] as int) < j);
                            assert(!chl(gpre, k as int).contains(par(gpre, j)[m]));
                            assert(dag@[x] == gpre[x]);
                        }
                        lemma_replayed_stable(gpre, dag@, j, records@[j]@);
                    }
                    assert forall|j: int, m: int|
                        0 <= j <= k && 0 <= m < par(dag@, j).len() implies (#[trigger] par(
                        dag@,
                        j,
                    )[m] as int) < j by {
                        assert(par(dag@, j) == par(gpre, j));
                    }
                }
            }
            proof {
                assert(nd(dag@, k as int).values@ =~= rec.values@);
                assert(nd(dag@, k as int).values@ == rec.values@);
            }
            let ghost gv = dag@;
            dag.set_observation(id, rec.observation);
            proof {
                assert forall|j: int| 0 <= j < k implies replayed_node(
                    dag@,
                    j,
                    (#[trigger] records@[j])@,
                ) by {
                    assert(dag@[j] == gv[j]);
                    assert forall|m: int| 0 <= m < par(gv, j).len() implies live(
                        gv,
                        #[trigger] par(gv, j)[m] as int,
                    ) && card(dag@, par(gv, j)[m] as int) == card(gv, par(gv, j)[m] as int) by {
                        let x = par(gv, j)[m] as int;
                        assert(live(gv, x));
                        if x != k {
                            assert(dag@[x] == gv[x]);
                        } else {
                            assert(nd(dag@, x).values == nd(gv, x).values);
                        }
                    }
                    lemma_replayed_stable(gv, dag@, j, records@[j]@);
                }
            }
            let ghost go = dag@;
            dag.set_description(id, rec.description.clone());
            proof {
                assert forall|j: int| 0 <= j < k implies replayed_node(
                    dag@,
                    j,
                    (#[trigger] records@[j])@,
                ) by {
                    assert(dag@[j] == go[j]);
                    assert forall|m: int| 0 <= m < par(go, j).len() implies live(
                        go,
                        #[trigger] par(go, j)[m] as int,
                    ) && card(dag@, par(go, j)[m] as int) == card(go, par(go, j)[m] as int) by {
                        let x = par(go, j)[m] as int;
                        assert(live(go, x));
                        if x != k {
                            assert(dag@[x] == go[x]);
                        } else {
                            assert(nd(dag@, x).values == nd(go, x).values);
                        }
                    }
                    lemma_replayed_stable(go, dag@, j, records@[j]@);
                }
            }
            let ghost gd = dag@;
            let cdescs = copy_strings(&rec.cred_description);
            let cdres = dag.set_cred_descriptions(id, cdescs);
            proof {
                assert forall|j: int| 0 <= j < k implies replayed_node(
                    dag@,
                    j,
                    (#[trigger] records@[j])@,
                ) by {
                    assert(dag@[j] == gd[j]);
                    assert forall|m: int| 0 <= m < par(gd, j).len() implies live(
                        gd,
                        #[trigger] par(gd, j)[m] as int,
                    ) && card(dag@, par(gd, j)[m] as int) == card(gd, par(gd, j)[m] as int) by {
                        let x = par(gd, j)[m] as int;
                        assert(live(gd, x));
                        if x != k {
                            assert(dag@[x] == gd[x]);
                        } else {
                            assert(nd(dag@, x).values == nd(gd, x).values);
                        }
                    }
                    lemma_replayed_stable(gd, dag@, j, records@[j]@);
                }
            }
            let ghost ga = dag@;
            // the table, best effort: built against the graph's own shape
            match &rec.credencies {
                Some(data) => {
                    let ghost gc = dag@;
                    let mut shape: Vec<usize> = Vec::new();
                    {
                        let nref = dag.get(id).unwrap();
                        shape.push(nref.values.len());
                        let mut t: usize = 0;
                        while t < nref.parents.len()
                            invariant
                                dag.wf(),
                                gc == dag@,
                                live(gc, id as int),
                                nref.parents@ == par(gc, id as int),
                                nref.values@ == nd(gc, id as int).values@,
                                t <= nref.parents@.len(),
                                shape@.len() == t + 1,
                                shape@[0] == card(gc, id as int) as usize,
                                forall|m: int|
                                    0 <= m < t ==> shape@[m + 1] == card(
                                        gc,
                                        par(gc, id as int)[m] as int,
                                    ) as usize,
                            decreases nref.parents@.len() - t,
                        {
                            let p = nref.parents[t];
                            proof {
                                assert(live(gc, par(gc, id as int)[t as int] as int));
                            }
                            shape.push(dag.get(p).unwrap().values.len());
                            t = t + 1;
                        }
                    }
                    proof {
                        assert(shape@ =~= expected_shape(dag@, id as int));
                    }
                    let mut dcopy: Vec<Cred> = Vec::new();
                    let mut j: usize = 0;
                    while j < data.len()
                        invariant
                            j <= data@.len(),
                            dcopy@ =~= data@.subrange(0, j as int),
                        decreases data@.len() - j,
                    {
                        dcopy.push(data[j].clone_cred());
                        j = j + 1;
                    }
                    proof {
                        assert(dcopy@ =~= data@);
                        assert(dcopy@ == data@);
                    }
                    match CredTable::new(shape, dcopy) {
                        Some(table) => {
                            let ghost gt = dag@;
                            let _ = dag.set_credencies(id, table);
                            proof {
                                assert forall|j2: int| 0 <= j2 < k implies replayed_node(
                                    dag@,
                                    j2,
                                    (#[trigger] records@[j2])@,
                                ) by {
                                    assert(dag@[j2] == gt[j2]);
                                    assert forall|m: int| 0 <= m < par(gt, j2).len() implies live(
                                        gt,
                                        #[trigger] par(gt, j2)[m] as int,
                                    ) && card(dag@, par(gt, j2)[m] as int) == card(
                                        gt,
                                        par(gt, j2)[m] as int,
                                    ) by {
                                        let x = par(gt, j2)[m] as int;
                                        assert(live(gt, x));
                                        if x != k {
                                            assert(dag@[x] == gt[x]);
                                        } else {
                                            assert(nd(dag@, x).values == nd(gt, x).values);
                                        }
                                    }
                                    lemma_replayed_stable(gt, dag@, j2, records@[j2]@);
                                }
                                assert(nd(dag@, k as int).credencies matches Some(t2)
                                    && t2.shape_spec() == expected_shape(gt, k as int)
                                    && t2.data_spec() == data@);
                            }
                        },
                        None => {},
                    }
                },
                None => {},
            }
            k = k + 1;
            proof {
                let g2 = dag@;
                let idd = k - 1;
                let rv = records@[idd]@;
                // the tail steps touch only the new node
                assert forall|x: int| 0 <= x < gv.len() && x != idd implies g2[x] == gv[x] by {
                    assert(go[x] == gv[x]);
                    assert(gd[x] == go[x]);
                    assert(ga[x] == gd[x]);
                }
                assert(par(g2, idd) == par(gv, idd));
                assert(par(gv, idd) == rec.parents@);
                // the cardinalities its table shape reads never move
                assert forall|m: int| 0 <= m < par(gv, idd).len() implies live(
                    gv,
                    #[trigger] par(gv, idd)[m] as int,
                ) && (par(gv, idd)[m] as int) < idd by {}
                assert(parent_cards(g2, idd) =~= parent_cards(gv, idd));
                assert(parent_cards(gd, idd) =~= parent_cards(gv, idd)) by {
                    assert forall|m: int| 0 <= m < par(gd, idd).len() implies card(
                        gd,
                        #[trigger] par(gd, idd)[m] as int,
                    ) == card(gv, par(gd, idd)[m] as int) by {
                        assert(par(gd, idd) == par(gv, idd));
                        assert((par(gv, idd)[m] as int) != idd);
                        assert(gd[par(gd, idd)[m] as int] == gv[par(gv, idd)[m] as int]) by {
                            assert(go[par(gv, idd)[m] as int] == gv[par(gv, idd)[m] as int]);
                        }
                    }
                }
                assert(expected_shape(ga, idd) =~= expected_shape(g2, idd)) by {
                    assert(par(ga, idd) == par(gv, idd));
                    assert(card(ga, idd) == card(g2, idd));
                    assert forall|m: int| 0 <= m < par(ga, idd).len() implies card(
                        ga,
                        #[trigger] par(ga, idd)[m] as int,
                    ) == card(g2, par(ga, idd)[m] as int) by {
                        assert((par(gv, idd)[m] as int) != idd);
                        assert(ga[par(gv, idd)[m] as int] == gv[par(gv, idd)[m] as int]) by {
                            assert(go[par(gv, idd)[m] as int] == gv[par(gv, idd)[m] as int]);
                            assert(gd[par(gv, idd)[m] as int] == go[par(gv, idd)[m] as int]);
                        }
                        assert(g2[par(gv, idd)[m] as int] == gv[par(gv, idd)[m] as int]);
                    }
                }
                assert(nd(g2, idd).values@.map_values(|s: String| s@) == rv.values) by {
                    assert(nd(g2, idd).values@ == rec.values@);
                }
                // the row annotations stood exactly when their count fits
                assert(nd(g2, idd).cred_description@.map_values(|s: String| s@) == (
                if rv.cred_description.len() == seq_product(parent_cards(g2, idd)) {
                    rv.cred_description
                } else {
                    Seq::<Seq<char>>::empty()
                })) by {
                    assert(seq_product(parent_cards(g2, idd)) == seq_product(
                        parent_cards(gd, idd),
                    ));
                    assert(rv.cred_description =~= cdescs@.map_values(|s: String| s@));
                    assert(rv.cred_description.len() == cdescs@.len());
                    if cdescs@.len() == seq_product(parent_cards(gd, idd)) {
                        assert(nd(ga, idd).cred_description == cdescs);
                        assert(nd(g2, idd).cred_description == nd(ga, idd).cred_description);
                    } else {
                        assert(nd(ga, idd).cred_description@.len() == 0);
                        assert(nd(g2, idd).cred_description@.len() == 0);
                        assert(nd(g2, idd).cred_description@.map_values(|s: String| s@)
                            =~= Seq::<Seq<char>>::empty());
                    }
                }
                match rv.credencies {
                    Some(data) => {
                        if nd(g2, idd).credencies is Some {
                            assert(nd(g2, idd).credencies->Some_0.entries() =~= data);
                        }
                    },
                    None => {},
                }
                assert(replayed_node(g2, idd, rv));
                assert forall|j: int| 0 <= j < k implies replayed_node(
                    g2,
                    j,
                    (#[trigger] records@[j])@,
                ) by {
                    if j < idd {
                        assert(live(gv, j));
                        assert(dag@[j] == gv[j]);
                        assert forall|m: int| 0 <= m < par(gv, j).len() implies live(
                            gv,
                            #[trigger] par(gv, j)[m] as int,
                        ) && card(dag@, par(gv, j)[m] as int) == card(
                            gv,
                            par(gv, j)[m] as int,
                        ) by {
                            let x = par(gv, j)[m] as int;
                            assert(live(gv, x));
                            if x != idd {
                                assert(g2[x] == gv[x]);
                            } else {
                                assert(nd(g2, idd).values@ == rec.values@);
                                assert(nd(gv, idd).values@ == rec.values@);
                            }
                        }
                        lemma_replayed_stable(gv, dag@, j, records@[j]@);
                    }
                }
                assert forall|j: int| 0 <= j < k implies live(g2, j) by {
                    assert(live(gv, j));
                }
                assert forall|j: int, m: int|
                    0 <= j < k && 0 <= m < par(g2, j).len() implies (#[trigger] par(
                    g2,
                    j,
                )[m] as int) < j by {
                    if j < idd {
                        assert(g2[j] == gv[j]);
                        assert(par(gv, j)[m] == par(g2, j)[m]);
                    } else {
                        assert(par(g2, j) == par(gv, j));
                        assert(par(gv, j)[m] == par(g2, j)[m]);
                    }
                }
            }
        }
        proof {
            // the replay finished, so the records link: each node's parent
            // list equals its record's, is duplicate-free (the graph is
            // well formed), and points only at earlier slots
            assert forall|k2: int| 0 <= k2 < records@.len() implies (
            #[trigger] records@[k2]).parents@.no_duplicates() by {
                assert(replayed_node(dag@, k2, records@[k2]@));
                assert(par(dag@, k2) == records@[k2]@.parents);
                assert(par(dag@, k2).no_duplicates());
            }
            assert forall|k2: int, m: int|
                0 <= k2 < records@.len() && 0 <= m < records@[k2].parents@.len() implies (
            #[trigger] records@[k2].parents@[m] as int) < k2 by {
                assert(replayed_node(dag@, k2, records@[k2]@));
                assert(par(dag@, k2) == records@[k2]@.parents);
                assert((par(dag@, k2)[m] as int) < k2);
            }
        }
        Ok(dag)
    }

    /// Parses JSON text and replays the records (see
    /// [`Dag::from_records`]). The contract classifies every outcome over
    /// the text itself: where the text is not an array of records
    /// ([`sp_records`]), the syntax error comes back; where its records do
    /// not link, the offending edge's error comes back (see
    /// [`edge_offense_v`]); otherwise the result is the replay of exactly
    /// the records the text encodes, satisfying every graph invariant.
    pub fn from_json(json: &str) -> (r: Result<Dag, DeserError>)
        ensures
            match sp_records(json@) {
                None => r matches Err(e) && e is Json,
                Some(rvs) => {
                    if records_linkable_v(rvs) {
                        &&& r matches Ok(d)
                        &&& r->Ok_0.wf()
                        &&& r->Ok_0@.len() == rvs.len()
                        &&& (forall|k: int|
                            0 <= k < rvs.len() ==> replayed_node(r->Ok_0@, k, #[trigger] rvs[k]))
                    } else {
                        r matches Err(e) && e matches DeserError::Graph(e2) && edge_offense_v(
                            rvs,
                            e2,
                        )
                    }
                },
            },
            json@ =~= seq!['[', ']'] ==> r is Ok,
            json@.len() == 0 ==> (r matches Err(e) && e is Json),
    {
        let chars = str_to_chars(json);
        let records = match parse_records(&chars) {
            Ok(rs) => rs,
            Err(off) => {
                return Err(DeserError::Json(JsonError { offset: off }));
            },
        };
        let ghost rvs = records@.map_values(|n2: JsonNode| n2@);
        proof {
            assert(sp_records(json@) == Some(rvs));
            // view-level and record-level linkability coincide
            assert forall|k: int| 0 <= k < records@.len() implies (#[trigger] rvs[k]).parents
                == records@[k].parents@ by {
                assert(rvs[k] == records@[k]@);
            }
            assert(records_linkable(records@) <==> records_linkable_v(rvs)) by {
                if records_linkable(records@) {
                    assert forall|k: int| 0 <= k < rvs.len() implies (
                    #[trigger] rvs[k]).parents.no_duplicates() by {
                        assert(records@[k].parents@.no_duplicates());
                    }
                    assert forall|k: int, m: int|
                        0 <= k < rvs.len() && 0 <= m < rvs[k].parents.len() implies (
                    #[trigger] rvs[k].parents[m] as int) < k by {
                        assert((records@[k].parents@[m] as int) < k);
                    }
                }
                if records_linkable_v(rvs) {
                    assert forall|k: int| 0 <= k < records@.len() implies (
                    #[trigger] records@[k]).parents@.no_duplicates() by {
                        assert(rvs[k].parents.no_duplicates());
                    }
                    assert forall|k: int, m: int|
                        0 <= k < records@.len() && 0 <= m < records@[k].parents@.len() implies (
                    #[trigger] records@[k].parents@[m] as int) < k by {
                        assert((rvs[k].parents[m] as int) < k);
                    }
                }
            }
        }
        let r = Self::from_records(&records);
        proof {
            match &r {
                Ok(d) => {
                    assert(records_linkable(records@));
                    assert forall|k: int| 0 <= k < rvs.len() implies replayed_node(
                        d@,
                        k,
                        #[trigger] rvs[k],
                    ) by {
                        assert(replayed_node(d@, k, records@[k]@));
                        assert(rvs[k] == records@[k]@);
                    }
                },
                Err(_) => {
                    assert(!records_linkable(records@));
                },
            }
        }
        r
    }
}

} // verus!

verus! {

// ---------------------------------------------------------------------
// text output

/// Appends `lit`'s characters.
fn push_str_chars(out: &mut Vec<char>, lit: &str)
    ensures
        final(out)@ == old(out)@ + lit@,
{
    let n = lit.unicode_len();
    let mut i: usize = 0;
    while i < n
        invariant
            n == lit@.len(),
            i <= n,
            out@ == old(out)@ + lit@.subrange(0, i as int),
        decreases n - i,
    {
        out.push(lit.get_char(i));
        i = i + 1;
        proof {
            assert(out@ =~= old(out)@ + lit@.subrange(0, i as int));
        }
    }
    proof {
        assert(out@ =~= old(out)@ + lit@);
    }
}

/// The character of a hexadecimal digit below 16.
pub open spec fn hex_char(d: nat) -> char {
    if d == 0 {
        '0'
    } else if d == 1 {
        '1'
    } else if d == 2 {
        '2'
    } else if d == 3 {
        '3'
    } else if d == 4 {
        '4'
    } else if d == 5 {
        '5'
    } else if d == 6 {
        '6'
    } else if d == 7 {
        '7'
    } else if d == 8 {
        '8'
    } else if d == 9 {
        '9'
    } else if d == 10 {
        'a'
    } else if d == 11 {
        'b'
    } else if d == 12 {
        'c'
    } else if d == 13 {
        'd'
    } else if d == 14 {
        'e'
    } else {
        'f'
    }
}

/// What one character becomes inside a quoted JSON string: quote and
/// backslash escaped, control characters as `\u00..`, all else verbatim.
pub open spec fn esc_char(c: char) -> Seq<char> {
    if c == '"' {
        seq!['\\', '"']
    } else if c == '\\' {
        seq!['\\', '\\']
    } else if (c as u32) < 0x20 {
        seq!['\\', 'u', '0', '0', hex_char(((c as u32) / 16) as nat), hex_char(
            ((c as u32) % 16) as nat,
        )]
    } else {
        seq![c]
    }
}

/// A whole character sequence escaped.
pub open spec fn esc_all(s: Seq<char>) -> Seq<char>
    decreases s.len(),
{
    if s.len() == 0 {
        Seq::empty()
    } else {
        esc_all(s.drop_last()) + esc_char(s.last())
    }
}

/// The decimal digits of `n`, most significant first.
pub open spec fn dec_rep(n: nat) -> Seq<char>
    decreases n,
{
    if n < 10 {
        seq![hex_char(n)]
    } else {
        dec_rep(n / 10).push(hex_char(n % 10))
    }
}

/// Reversing after an append puts the new element first.
proof fn lemma_reverse_push<A>(s: Seq<A>, x: A)
    ensures
        s.push(x).reverse() =~= seq![x] + s.reverse(),
{
    let a = s.push(x).reverse();
    let b = seq![x] + s.reverse();
    assert forall|k: int| 0 <= k < a.len() implies a[k] == b[k] by {
        if k == 0 {
            assert(a[k] == s.push(x)[s.len() as int]);
        } else {
            assert(a[k] == s.push(x)[s.len() - k]);
            assert(b[k] == s.reverse()[k - 1]);
            assert(s.reverse()[k - 1] == s[s.len() - k]);
        }
    }
}

/// The character for a hexadecimal digit below 16.
fn hex_digit(d: u32) -> (c: char)
    requires
        d < 16,
    ensures
        c == hex_char(d as nat),
{
    if d == 0 {
        '0'
    } else if d == 1 {
        '1'
    } else if d == 2 {
        '2'
    } else if d == 3 {
        '3'
    } else if d == 4 {
        '4'
    } else if d == 5 {
        '5'
    } else if d == 6 {
        '6'
    } else if d == 7 {
        '7'
    } else if d == 8 {
        '8'
    } else if d == 9 {
        '9'
    } else if d == 10 {
        'a'
    } else if d == 11 {
        'b'
    } else if d == 12 {
        'c'
    } else if d == 13 {
        'd'
    } else if d == 14 {
        'e'
    } else {
        'f'
    }
}

/// A quoted JSON string.
pub open spec fn emit_string(s: Seq<char>) -> Seq<char> {
    seq!['"'] + esc_all(s) + seq!['"']
}

/// Pieces joined by commas.
pub open spec fn join_comma(xs: Seq<Seq<char>>) -> Seq<char>
    decreases xs.len(),
{
    if xs.len() == 0 {
        Seq::empty()
    } else if xs.len() == 1 {
        xs[0]
    } else {
        join_comma(xs.drop_last()) + seq![','] + xs.last()
    }
}

/// A JSON array of strings.
pub open spec fn emit_str_array(vs: Seq<Seq<char>>) -> Seq<char> {
    seq!['['] + join_comma(vs.map_values(|v: Seq<char>| emit_string(v))) + seq![']']
}

/// A JSON array of integers.
pub open spec fn emit_usize_array(ps: Seq<usize>) -> Seq<char> {
    seq!['['] + join_comma(ps.map_values(|p: usize| dec_rep(p as nat))) + seq![']']
}

/// One credence entry: its number token, or `null` for the sentinel.
pub open spec fn emit_cred(c: Option<Seq<char>>) -> Seq<char> {
    match c {
        Some(t) => t,
        None => "null"@,
    }
}

/// One record, every field written out in a fixed order.
pub open spec fn emit_record(r: JsonNodeV) -> Seq<char> {
    "{\"label\":"@ + emit_string(r.label) + ",\"description\":"@ + emit_string(r.description)
        + ",\"values\":"@ + emit_str_array(r.values) + ",\"parents\":"@ + emit_usize_array(
        r.parents,
    ) + ",\"observation\":"@ + (match r.observation {
        Some(o) => dec_rep(o as nat),
        None => "null"@,
    }) + ",\"credencies\":"@ + (match r.credencies {
        Some(d) => seq!['['] + join_comma(d.map_values(|c: Option<Seq<char>>| emit_cred(c)))
            + seq![']'],
        None => "null"@,
    }) + ",\"cred_description\":"@ + emit_str_array(r.cred_description) + seq!['}']
}

/// The whole file: the records as a JSON array.
pub open spec fn emit_graph(rs: Seq<JsonNodeV>) -> Seq<char> {
    seq!['['] + join_comma(rs.map_values(|r: JsonNodeV| emit_record(r))) + seq![']']
}

/// Joining one more piece appends a comma first, except to the first.
proof fn lemma_join_step(xs: Seq<Seq<char>>, i: int)
    requires
        0 <= i < xs.len(),
    ensures
        join_comma(xs.subrange(0, i + 1)) == if i == 0 {
            xs[0]
        } else {
            join_comma(xs.subrange(0, i)) + seq![','] + xs[i]
        },
{
    assert(xs.subrange(0, i + 1).drop_last() =~= xs.subrange(0, i));
    assert(xs.subrange(0, i + 1).last() == xs[i]);
    if i == 0 {
        assert(xs.subrange(0, 1).len() == 1);
        assert(xs.subrange(0, 1)[0] == xs[0]);
    }
}

/// Appends a quoted JSON string: quote and backslash escaped, control
/// characters written as `\u00..` escapes.
fn push_json_string(out: &mut Vec<char>, s: &String)
    ensures
        final(out)@ == old(out)@ + seq!['"'] + esc_all(s@) + seq!['"'],
{
    out.push('"');
    let st = s.as_str();
    let n = st.unicode_len();
    let mut i: usize = 0;
    while i < n
        invariant
            st@ == s@,
            n == st@.len(),
            i <= n,
            out@ == old(out)@ + seq!['"'] + esc_all(st@.subrange(0, i as int)),
        decreases n - i,
    {
        let ghost pre = st@.subrange(0, i as int);
        let c = st.get_char(i);
        if c == '"' {
            out.push('\\');
            out.push('"');
        } else if c == '\\' {
            out.push('\\');
            out.push('\\');
        } else if (c as u32) < 0x20 {
            out.push('\\');
            out.push('u');
            out.push('0');
            out.push('0');
            out.push(hex_digit((c as u32) / 16));
            out.push(hex_digit((c as u32) % 16));
        } else {
            out.push(c);
        }
        i = i + 1;
        proof {
            assert(st@.subrange(0, i as int).drop_last() =~= pre);
            assert(st@.subrange(0, i as int).last() == st@[i - 1]);
            assert(esc_all(st@.subrange(0, i as int)) == esc_all(pre) + esc_char(st@[i - 1]));
            assert(out@ =~= old(out)@ + seq!['"'] + esc_all(st@.subrange(0, i as int)));
        }
    }
    out.push('"');
    proof {
        assert(st@.subrange(0, n as int) =~= s@);
        assert(out@ =~= old(out)@ + seq!['"'] + esc_all(s@) + seq!['"']);
    }
}

/// Appends the decimal digits of `n`.
fn push_usize(out: &mut Vec<char>, n: usize)
    ensures
        final(out)@ == old(out)@ + dec_rep(n as nat),
{
    let mut digits: Vec<char> = Vec::new();
    let mut rest = n;
    loop
        invariant_except_break
            dec_rep(n as nat) =~= dec_rep(rest as nat) + digits@.reverse(),
        ensures
            dec_rep(n as nat) =~= digits@.reverse(),
        decreases rest,
    {
        let ghost dig0 = digits@;
        let d = (rest % 10) as u32;
        digits.push(hex_digit(d));
        proof {
            lemma_reverse_push(dig0, hex_char(d as nat));
        }
        if rest < 10 {
            proof {
                assert(dec_rep(rest as nat) == seq![hex_char(rest as nat)]);
                assert(dec_rep(n as nat) =~= digits@.reverse());
            }
            break;
        }
        rest = rest / 10;
        proof {
            assert(dec_rep((rest * 10 + d) as nat) == dec_rep(rest as nat).push(
                hex_char(d as nat),
            ));
            assert(dec_rep(rest as nat).push(hex_char(d as nat)) =~= dec_rep(rest as nat) + seq![
                hex_char(d as nat),
            ]);
            assert(dec_rep(n as nat) =~= dec_rep(rest as nat) + digits@.reverse());
        }
    }
    let mut i = digits.len();
    while i > 0
        invariant
            i <= digits@.len(),
            out@ == old(out)@ + digits@.subrange(i as int, digits@.len() as int).reverse(),
        decreases i,
    {
        i = i - 1;
        out.push(digits[i]);
        proof {
            let tail0 = digits@.subrange(i + 1, digits@.len() as int);
            let tail = digits@.subrange(i as int, digits@.len() as int);
            assert forall|k: int| 0 <= k < tail.reverse().len() implies tail.reverse()[k] == (
            tail0.reverse().push(digits@[i as int]))[k] by {
                if k < tail.len() - 1 {
                    assert(tail.reverse()[k] == tail[tail.len() - 1 - k]);
                    assert(tail0.reverse()[k] == tail0[tail0.len() - 1 - k]);
                    assert(tail[tail.len() - 1 - k] == tail0[tail0.len() - 1 - k]);
                } else {
                    assert(tail.reverse()[k] == tail[0]);
                }
            }
            assert(tail.reverse() =~= tail0.reverse().push(digits@[i as int]));
            assert(out@ =~= old(out)@ + tail.reverse());
        }
    }
    proof {
        assert(digits@.subrange(0, digits@.len() as int) =~= digits@);
        assert(out@ =~= old(out)@ + dec_rep(n as nat));
    }
}

/// Appends a string array.
fn push_string_array(out: &mut Vec<char>, vs: &Vec<String>)
    ensures
        final(out)@ == old(out)@ + emit_str_array(vs@.map_values(|s: String| s@)),
{
    let ghost mapped = vs@.map_values(|s: String| s@).map_values(|v: Seq<char>| emit_string(v));
    out.push('[');
    let mut i: usize = 0;
    while i < vs.len()
        invariant
            i <= vs@.len(),
            mapped == vs@.map_values(|s: String| s@).map_values(|v: Seq<char>| emit_string(v)),
            mapped.len() == vs@.len(),
            out@ == old(out)@ + seq!['['] + join_comma(mapped.subrange(0, i as int)),
        decreases vs@.len() - i,
    {
        if i > 0 {
            out.push(',');
        }
        push_json_string(out, &vs[i]);
        i = i + 1;
        proof {
            lemma_join_step(mapped, i - 1);
            assert(mapped[i - 1] == emit_string(vs@[i - 1]@));
            assert(out@ =~= old(out)@ + seq!['['] + join_comma(mapped.subrange(0, i as int)));
        }
    }
    out.push(']');
    proof {
        assert(mapped.subrange(0, vs@.len() as int) =~= mapped);
        assert(out@ =~= old(out)@ + emit_str_array(vs@.map_values(|s: String| s@)));
    }
}

/// Serializes records as a compact JSON array of objects, every field
/// written out, credence entries as their stored number tokens and the
/// missing-value sentinel as `null`: exactly [`emit_graph`] of the
/// records.
/// Appends one record object: exactly [`emit_record`] of it.
#[verifier::rlimit(100)]
#[verifier::spinoff_prover]
fn push_record(out: &mut Vec<char>, rec: &JsonNode)
    ensures
        final(out)@ == old(out)@ + emit_record(rec@),
{
    let ghost base = out@;
    push_str_chars(out, "{\"label\":");
    push_json_string(out, &rec.label);
    proof {
        assert(out@ =~= base + ("{\"label\":"@ + emit_string(rec@.label)));
    }
    let ghost e1 = base + ("{\"label\":"@ + emit_string(rec@.label));
    push_str_chars(out, ",\"description\":");
    push_json_string(out, &rec.description);
    proof {
        assert(out@ =~= e1 + (",\"description\":"@ + emit_string(rec@.description)));
    }
    let ghost e2 = e1 + (",\"description\":"@ + emit_string(rec@.description));
    push_str_chars(out, ",\"values\":");
    push_string_array(out, &rec.values);
    proof {
        assert(out@ =~= e2 + (",\"values\":"@ + emit_str_array(rec@.values)));
    }
    let ghost e3 = e2 + (",\"values\":"@ + emit_str_array(rec@.values));
    push_str_chars(out, ",\"parents\":");
    let ghost pmapped = rec.parents@.map_values(|p: usize| dec_rep(p as nat));
    let ghost pbase = out@;
    out.push('[');
    let mut m: usize = 0;
    while m < rec.parents.len()
        invariant
            m <= rec.parents@.len(),
            pmapped == rec.parents@.map_values(|p: usize| dec_rep(p as nat)),
            pmapped.len() == rec.parents@.len(),
            out@ == pbase + seq!['['] + join_comma(pmapped.subrange(0, m as int)),
        decreases rec.parents@.len() - m,
    {
        if m > 0 {
            out.push(',');
        }
        push_usize(out, rec.parents[m]);
        m = m + 1;
        proof {
            lemma_join_step(pmapped, m - 1);
            assert(pmapped[m - 1] == dec_rep(rec.parents@[m - 1] as nat));
            assert(out@ =~= pbase + seq!['['] + join_comma(pmapped.subrange(0, m as int)));
        }
    }
    out.push(']');
    proof {
        assert(pmapped.subrange(0, pmapped.len() as int) =~= pmapped);
        assert(out@ =~= e3 + (",\"parents\":"@ + emit_usize_array(rec@.parents)));
    }
    let ghost e4 = e3 + (",\"parents\":"@ + emit_usize_array(rec@.parents));
    push_str_chars(out, ",\"observation\":");
    match rec.observation {
        Some(o) => push_usize(out, o),
        None => push_str_chars(out, "null"),
    }
    proof {
        assert(out@ =~= e4 + (",\"observation\":"@ + (match rec@.observation {
            Some(o) => dec_rep(o as nat),
            None => "null"@,
        })));
    }
    let ghost e5 = e4 + (",\"observation\":"@ + (match rec@.observation {
        Some(o) => dec_rep(o as nat),
        None => "null"@,
    }));
    push_str_chars(out, ",\"credencies\":");
    match &rec.credencies {
        None => push_str_chars(out, "null"),
        Some(data) => {
            let ghost cmapped = data@.map_values(|c: Cred| c@).map_values(
                |cv: Option<Seq<char>>| emit_cred(cv),
            );
            let ghost cbase = out@;
            out.push('[');
            let mut j: usize = 0;
            while j < data.len()
                invariant
                    j <= data@.len(),
                    cmapped == data@.map_values(|c: Cred| c@).map_values(
                        |cv: Option<Seq<char>>| emit_cred(cv),
                    ),
                    cmapped.len() == data@.len(),
                    out@ == cbase + seq!['['] + join_comma(cmapped.subrange(0, j as int)),
                decreases data@.len() - j,
            {
                if j > 0 {
                    out.push(',');
                }
                match data[j].token() {
                    Some(tok) => push_str_chars(out, tok.as_str()),
                    None => push_str_chars(out, "null"),
                }
                j = j + 1;
                proof {
                    lemma_join_step(cmapped, j - 1);
                    assert(cmapped[j - 1] == emit_cred(data@[j - 1]@));
                    assert(out@ =~= cbase + seq!['['] + join_comma(
                        cmapped.subrange(0, j as int),
                    ));
                }
            }
            out.push(']');
            proof {
                assert(cmapped.subrange(0, cmapped.len() as int) =~= cmapped);
            }
        },
    }
    proof {
        assert(out@ =~= e5 + (",\"credencies\":"@ + (match rec@.credencies {
            Some(d) => seq!['['] + join_comma(d.map_values(|cv: Option<Seq<char>>| emit_cred(cv)))
                + seq![']'],
            None => "null"@,
        })));
    }
    let ghost e6 = e5 + (",\"credencies\":"@ + (match rec@.credencies {
        Some(d) => seq!['['] + join_comma(d.map_values(|cv: Option<Seq<char>>| emit_cred(cv)))
            + seq![']'],
        None => "null"@,
    }));
    push_str_chars(out, ",\"cred_description\":");
    push_string_array(out, &rec.cred_description);
    out.push('}');
    proof {
        assert(out@ =~= e6 + (",\"cred_description\":"@ + emit_str_array(rec@.cred_description))
            + seq!['}']);
        assert(out@ =~= base + emit_record(rec@));
    }
}

/// Serializes records as a compact JSON array of objects, every field
/// written out, credence entries as their stored number tokens and the
/// missing-value sentinel as `null`: exactly [`emit_graph`] of the
/// records.
pub fn emit_records(recs: &Vec<JsonNode>) -> (r: String)
    ensures
        r@ == emit_graph(recs@.map_values(|n: JsonNode| n@)),
{
    let ghost mapped = recs@.map_values(|n: JsonNode| n@).map_values(
        |rv: JsonNodeV| emit_record(rv),
    );
    let mut out: Vec<char> = Vec::new();
    out.push('[');
    let mut k: usize = 0;
    while k < recs.len()
        invariant
            k <= recs@.len(),
            mapped == recs@.map_values(|n: JsonNode| n@).map_values(
                |rv: JsonNodeV| emit_record(rv),
            ),
            mapped.len() == recs@.len(),
            out@ == seq!['['] + join_comma(mapped.subrange(0, k as int)),
        decreases recs@.len() - k,
    {
        if k > 0 {
            out.push(',');
        }
        push_record(&mut out, &recs[k]);
        k = k + 1;
        proof {
            lemma_join_step(mapped, k - 1);
            assert(mapped[k - 1] == emit_record(recs@[k - 1]@));
            assert(out@ =~= seq!['['] + join_comma(mapped.subrange(0, k as int)));
        }
    }
    out.push(']');
    proof {
        assert(mapped.subrange(0, mapped.len() as int) =~= mapped);
        assert(out@ =~= emit_graph(recs@.map_values(|n: JsonNode| n@)));
    }
    chars_to_string(&out)
}

} // verus!

verus! {

// ---------------------------------------------------------------------
// text input

/// Whether `c` is JSON whitespace.
pub open spec fn is_ws(c: char) -> bool {
    c == ' ' || c == '\t' || c == '\n' || c == '\r'
}

/// Skipping whitespace stays within the text and stops before the first
/// character that is not whitespace.
pub proof fn lemma_sp_ws(s: Seq<char>, i: int)
    requires
        0 <= i <= s.len(),
    ensures
        i <= sp_ws(s, i) <= s.len(),
        sp_ws(s, i) < s.len() ==> !is_ws(s[sp_ws(s, i)]),
        sp_ws(s, sp_ws(s, i)) == sp_ws(s, i),
    decreases s.len() - i,
{
    if i < s.len() && is_ws(s[i]) {
        lemma_sp_ws(s, i + 1);
    }
}

/// Index of the first non-whitespace character at or after `i`.
pub open spec fn sp_ws(s: Seq<char>, i: int) -> int
    decreases s.len() - i when 0 <= i <= s.len()
{
    if i < s.len() && is_ws(s[i]) {
        sp_ws(s, i + 1)
    } else {
        i
    }
}

/// Index of the first non-whitespace character at or after `i`.
fn skip_ws(s: &Vec<char>, i: usize) -> (r: usize)
    requires
        i <= s@.len(),
    ensures
        r == sp_ws(s@, i as int),
        i <= r <= s@.len(),
        forall|k: int| i <= k < r ==> is_ws(#[trigger] s@[k]),
        r < s@.len() ==> !is_ws(s@[r as int]),
{
    let n = s.len();
    let mut j = i;
    while j < n && (s[j] == ' ' || s[j] == '\t' || s[j] == '\n' || s[j] == '\r')
        invariant
            i <= j <= n,
            n == s@.len(),
            sp_ws(s@, i as int) == sp_ws(s@, j as int),
            forall|k: int| i <= k < j ==> is_ws(#[trigger] s@[k]),
        decreases n - j,
    {
        j = j + 1;
    }
    j
}

/// Index just past `w` when the text at `i` spells it out.
pub open spec fn sp_word(s: Seq<char>, i: int, w: Seq<char>) -> Option<int> {
    if i + w.len() <= s.len() && s.subrange(i, i + w.len()) == w {
        Some(i + w.len())
    } else {
        None
    }
}

/// Consumes the characters of `w` at `i`.
fn expect_word(s: &Vec<char>, i: usize, w: &str) -> (r: Result<usize, usize>)
    requires
        i <= s@.len(),
    ensures
        match r {
            Ok(j) => sp_word(s@, i as int, w@) == Some(j as int) && i <= j <= s@.len() && j == i
                + w@.len(),
            Err(_) => sp_word(s@, i as int, w@) is None,
        },
{
    let wn = w.unicode_len();
    if wn > s.len() - i {
        return Err(i);
    }
    let mut t: usize = 0;
    while t < wn
        invariant
            wn == w@.len(),
            i + wn <= s@.len(),
            s@.len() <= usize::MAX,
            t <= wn,
            forall|k: int| 0 <= k < t ==> s@[i + k] == w@[k],
        decreases wn - t,
    {
        if s[i + t] != w.get_char(t) {
            proof {
                assert(s@.subrange(i as int, i + wn) != w@) by {
                    assert(s@.subrange(i as int, i + wn)[t as int] == s@[i + t]);
                }
            }
            return Err(i + t);
        }
        t = t + 1;
    }
    proof {
        assert(s@.subrange(i as int, i + wn) =~= w@);
    }
    Ok(i + wn)
}

/// The value of a hexadecimal digit, or a negative number for any other
/// character.
pub open spec fn hexv(c: char) -> int {
    if '0' <= c && c <= '9' {
        c as u32 - '0' as u32
    } else if 'a' <= c && c <= 'f' {
        c as u32 - 'a' as u32 + 10
    } else if 'A' <= c && c <= 'F' {
        c as u32 - 'A' as u32 + 10
    } else {
        -1
    }
}

/// The value of the four hexadecimal digits at `i`, if they are there.
pub open spec fn sp_hex4(s: Seq<char>, i: int) -> Option<u32> {
    if i + 4 <= s.len() && hexv(s[i]) >= 0 && hexv(s[i + 1]) >= 0 && hexv(s[i + 2]) >= 0 && hexv(
        s[i + 3],
    ) >= 0 {
        Some((hexv(s[i]) * 4096 + hexv(s[i + 1]) * 256 + hexv(s[i + 2]) * 16 + hexv(
            s[i + 3],
        )) as u32)
    } else {
        None
    }
}

/// The value of one hexadecimal digit character.
fn hex_digit_of(c: char) -> (r: Option<u32>)
    ensures
        match r {
            Some(v) => hexv(c) == v && v < 16,
            None => hexv(c) < 0,
        },
{
    if '0' <= c && c <= '9' {
        Some((c as u32) - ('0' as u32))
    } else if 'a' <= c && c <= 'f' {
        Some((c as u32) - ('a' as u32) + 10)
    } else if 'A' <= c && c <= 'F' {
        Some((c as u32) - ('A' as u32) + 10)
    } else {
        None
    }
}

/// Reads four hexadecimal digits at `i`.
fn parse_hex4(s: &Vec<char>, i: usize) -> (r: Result<(u32, usize), usize>)
    requires
        i <= s@.len(),
    ensures
        match r {
            Ok(p) => sp_hex4(s@, i as int) == Some(p.0) && p.0 < 0x10000 && p.1 == i + 4 && i
                <= p.1 <= s@.len(),
            Err(_) => sp_hex4(s@, i as int) is None,
        },
{
    if s.len() - i < 4 {
        return Err(i);
    }
    let d0 = match hex_digit_of(s[i]) {
        Some(v) => v,
        None => {
            return Err(i);
        },
    };
    let d1 = match hex_digit_of(s[i + 1]) {
        Some(v) => v,
        None => {
            return Err(i + 1);
        },
    };
    let d2 = match hex_digit_of(s[i + 2]) {
        Some(v) => v,
        None => {
            return Err(i + 2);
        },
    };
    let d3 = match hex_digit_of(s[i + 3]) {
        Some(v) => v,
        None => {
            return Err(i + 3);
        },
    };
    Ok((d0 * 4096 + d1 * 256 + d2 * 16 + d3, i + 4))
}

/// Puts one resolved character in front of a string-tail parse.
pub open spec fn sp_cons(c: char, rest: Option<(Seq<char>, int)>) -> Option<(Seq<char>, int)> {
    match rest {
        Some((t, j)) => Some((seq![c] + t, j)),
        None => None,
    }
}

/// The content and end of a quoted string's tail, read from just after
/// the opening quote: characters until the closing quote, escapes
/// resolved (including surrogate pairs), raw control characters refused.
pub open spec fn sp_string_tail(s: Seq<char>, i: int) -> Option<(Seq<char>, int)>
    decreases s.len() - i when 0 <= i <= s.len()
{
    if i >= s.len() {
        None
    } else if s[i] == '"' {
        Some((Seq::empty(), i + 1))
    } else if s[i] == '\\' {
        if i + 1 >= s.len() {
            None
        } else {
            let e = s[i + 1];
            if e == '"' {
                sp_cons('"', sp_string_tail(s, i + 2))
            } else if e == '\\' {
                sp_cons('\\', sp_string_tail(s, i + 2))
            } else if e == '/' {
                sp_cons('/', sp_string_tail(s, i + 2))
            } else if e == 'b' {
                sp_cons('\u{8}', sp_string_tail(s, i + 2))
            } else if e == 'f' {
                sp_cons('\u{c}', sp_string_tail(s, i + 2))
            } else if e == 'n' {
                sp_cons('\n', sp_string_tail(s, i + 2))
            } else if e == 'r' {
                sp_cons('\r', sp_string_tail(s, i + 2))
            } else if e == 't' {
                sp_cons('\t', sp_string_tail(s, i + 2))
            } else if e == 'u' {
                match sp_hex4(s, i + 2) {
                    None => None,
                    Some(u) => {
                        if 0xD800 <= u && u < 0xDC00 {
                            if s.len() - (i + 6) < 2 || s[i + 6] != '\\' || s[i + 7] != 'u' {
                                None
                            } else {
                                match sp_hex4(s, i + 8) {
                                    None => None,
                                    Some(u2) => {
                                        if !(0xDC00 <= u2 && u2 < 0xE000) {
                                            None
                                        } else {
                                            let code = (0x10000 + (u - 0xD800) * 0x400 + (u2
                                                - 0xDC00)) as u32;
                                            sp_cons(code as char, sp_string_tail(s, i + 12))
                                        }
                                    },
                                }
                            }
                        } else if 0xDC00 <= u && u < 0xE000 {
                            None
                        } else {
                            sp_cons(u as char, sp_string_tail(s, i + 6))
                        }
                    },
                }
            } else {
                None
            }
        }
    } else if (s[i] as u32) < 0x20 {
        None
    } else {
        sp_cons(s[i], sp_string_tail(s, i + 1))
    }
}

/// The content and end of the quoted string that starts at `i`.
pub open spec fn sp_string(s: Seq<char>, i: int) -> Option<(Seq<char>, int)> {
    if 0 <= i < s.len() && s[i] == '"' {
        sp_string_tail(s, i + 1)
    } else {
        None
    }
}

/// Parses a quoted JSON string at `i`, resolving escapes (including
/// `\u` escapes and surrogate pairs): exactly [`sp_string`].
#[verifier::rlimit(100)]
#[verifier::spinoff_prover]
fn parse_string_at(s: &Vec<char>, i0: usize) -> (r: Result<(Vec<char>, usize), usize>)
    requires
        i0 <= s@.len(),
    ensures
        match r {
            Ok(p) => sp_string(s@, i0 as int) == Some((p.0@, p.1 as int)) && i0 < p.1 <= s@.len(),
            Err(_) => sp_string(s@, i0 as int) is None,
        },
{
    let n = s.len();
    if i0 >= n || s[i0] != '"' {
        return Err(i0);
    }
    let mut i = i0 + 1;
    let mut out: Vec<char> = Vec::new();
    proof {
        assert(sp_string(s@, i0 as int) == sp_string_tail(s@, i as int));
    }
    loop
        invariant
            n == s@.len(),
            i0 < i <= n,
            sp_string(s@, i0 as int) == (match sp_string_tail(s@, i as int) {
                Some((t, j)) => Some((out@ + t, j)),
                None => None::<(Seq<char>, int)>,
            }),
        decreases n - i,
    {
        if i >= n {
            return Err(i);
        }
        let c = s[i];
        if c == '"' {
            proof {
                assert(out@ + Seq::<char>::empty() =~= out@);
            }
            return Ok((out, i + 1));
        }
        if c == '\\' {
            if i + 1 >= n {
                return Err(i);
            }
            let e = s[i + 1];
            if e == '"' {
                let ghost out0 = out@;
                out.push('"');
                i = i + 2;
                proof {
                    if sp_string_tail(s@, i as int) is Some {
                        let t = sp_string_tail(s@, i as int)->Some_0.0;
                        assert(out0 + (seq!['"'] + t) =~= out@ + t);
                    }
                }
            } else if e == '\\' {
                let ghost out0 = out@;
                out.push('\\');
                i = i + 2;
                proof {
                    if sp_string_tail(s@, i as int) is Some {
                        let t = sp_string_tail(s@, i as int)->Some_0.0;
                        assert(out0 + (seq!['\\'] + t) =~= out@ + t);
                    }
                }
            } else if e == '/' {
                let ghost out0 = out@;
                out.push('/');
                i = i + 2;
                proof {
                    if sp_string_tail(s@, i as int) is Some {
                        let t = sp_string_tail(s@, i as int)->Some_0.0;
                        assert(out0 + (seq!['/'] + t) =~= out@ + t);
                    }
                }
            } else if e == 'b' {
                let ghost out0 = out@;
                out.push('\u{8}');
                i = i + 2;
                proof {
                    if sp_string_tail(s@, i as int) is Some {
                        let t = sp_string_tail(s@, i as int)->Some_0.0;
                        assert(out0 + (seq!['\u{8}'] + t) =~= out@ + t);
                    }
                }
            } else if e == 'f' {
                let ghost out0 = out@;
                out.push('\u{c}');
                i = i + 2;
                proof {
                    if sp_string_tail(s@, i as int) is Some {
                        let t = sp_string_tail(s@, i as int)->Some_0.0;
                        assert(out0 + (seq!['\u{c}'] + t) =~= out@ + t);
                    }
                }
            } else if e == 'n' {
                let ghost out0 = out@;
                out.push('\n');
                i = i + 2;
                proof {
                    if sp_string_tail(s@, i as int) is Some {
                        let t = sp_string_tail(s@, i as int)->Some_0.0;
                        assert(out0 + (seq!['\n'] + t) =~= out@ + t);
                    }
                }
            } else if e == 'r' {
                let ghost out0 = out@;
                out.push('\r');
                i = i + 2;
                proof {
                    if sp_string_tail(s@, i as int) is Some {
                        let t = sp_string_tail(s@, i as int)->Some_0.0;
                        assert(out0 + (seq!['\r'] + t) =~= out@ + t);
                    }
                }
            } else if e == 't' {
                let ghost out0 = out@;
                out.push('\t');
                i = i + 2;
                proof {
                    if sp_string_tail(s@, i as int) is Some {
                        let t = sp_string_tail(s@, i as int)->Some_0.0;
                        assert(out0 + (seq!['\t'] + t) =~= out@ + t);
                    }
                }
            } else if e == 'u' {
                let (u, j) = match parse_hex4(s, i + 2) {
                    Ok(p) => p,
                    Err(p) => {
                        return Err(p);
                    },
                };
                if 0xD800 <= u && u < 0xDC00 {
                    // a high surrogate needs its low partner
                    if n - j < 2 || s[j] != '\\' || s[j + 1] != 'u' {
                        return Err(j);
                    }
                    let (u2, j2) = match parse_hex4(s, j + 2) {
                        Ok(p) => p,
                        Err(p) => {
                            return Err(p);
                        },
                    };
                    if !(0xDC00 <= u2 && u2 < 0xE000) {
                        return Err(j);
                    }
                    let code: u32 = 0x10000 + (u - 0xD800) * 0x400 + (u2 - 0xDC00);
                    proof {
                        assert(j == i + 6 && j2 == i + 12);
                        assert(0x10000 <= code && code < 0x110000);
                    }
                    match char::from_u32(code) {
                        Some(ch) => {
                            let ghost out0 = out@;
                            out.push(ch);
                            proof {
                                vstd::utf8::char_u32_cast(ch, code);
                            }
                            if j2 <= i {
                                return Err(j2);
                            }
                            i = j2;
                            proof {
                                if sp_string_tail(s@, i as int) is Some {
                                    let t = sp_string_tail(s@, i as int)->Some_0.0;
                                    assert(out0 + (seq![ch] + t) =~= out@ + t);
                                }
                            }
                        },
                        None => {
                            return Err(j);
                        },
                    }
                } else if 0xDC00 <= u && u < 0xE000 {
                    return Err(i);
                } else {
                    proof {
                        assert(j == i + 6);
                        assert(u < 0xD800 || (0xE000 <= u && u < 0x110000));
                    }
                    match char::from_u32(u) {
                        Some(ch) => {
                            let ghost out0 = out@;
                            out.push(ch);
                            proof {
                                vstd::utf8::char_u32_cast(ch, u);
                            }
                            if j <= i {
                                return Err(j);
                            }
                            i = j;
                            proof {
                                if sp_string_tail(s@, i as int) is Some {
                                    let t = sp_string_tail(s@, i as int)->Some_0.0;
                                    assert(out0 + (seq![ch] + t) =~= out@ + t);
                                }
                            }
                        },
                        None => {
                            return Err(i);
                        },
                    }
                }
            } else {
                return Err(i);
            }
        } else if (c as u32) < 0x20 {
            return Err(i);
        } else {
            let ghost out0 = out@;
            out.push(c);
            i = i + 1;
            proof {
                if sp_string_tail(s@, i as int) is Some {
                    let t = sp_string_tail(s@, i as int)->Some_0.0;
                    assert(out0 + (seq![c] + t) =~= out@ + t);
                }
            }
        }
    }
}

/// The numeric value of a digit run.
pub open spec fn digits_val(s: Seq<char>) -> nat
    decreases s.len(),
{
    if s.len() == 0 {
        0
    } else {
        (digits_val(s.drop_last()) * 10 + (s.last() as u32 - 48)) as nat
    }
}

/// A digit run's value never shrinks as it grows to the right.
proof fn lemma_digits_val_extend(t: Seq<char>, k: int)
    requires
        0 <= k <= t.len(),
        forall|m: int| 0 <= m < t.len() ==> crate::cred::is_digit(#[trigger] t[m]),
    ensures
        digits_val(t.subrange(0, k)) <= digits_val(t),
    decreases t.len() - k,
{
    if k < t.len() {
        assert(t.subrange(0, k + 1).drop_last() =~= t.subrange(0, k));
        assert(t.subrange(0, k + 1).last() == t[k]);
        lemma_digits_val_extend(t, k + 1);
    } else {
        assert(t.subrange(0, k) =~= t);
    }
}

/// The value and end of the nonnegative integer at `i`: a plain digit run
/// that fits the machine word; a sign, fraction, exponent or overflow is
/// refused.
pub open spec fn sp_usize(s: Seq<char>, i: int) -> Option<(usize, int)> {
    let j = crate::cred::number_token_end(s, i);
    if j < 0 || j <= i {
        None
    } else if exists|k: int| i <= k < j && !crate::cred::is_digit(#[trigger] s[k]) {
        None
    } else if digits_val(s.subrange(i, j)) > usize::MAX {
        None
    } else {
        Some((digits_val(s.subrange(i, j)) as usize, j))
    }
}

/// Parses a nonnegative integer at `i`: exactly [`sp_usize`].
fn parse_usize_at(s: &Vec<char>, i0: usize) -> (r: Result<(usize, usize), usize>)
    requires
        i0 <= s@.len(),
    ensures
        match r {
            Ok(p) => sp_usize(s@, i0 as int) == Some((p.0, p.1 as int)) && i0 < p.1 <= s@.len()
                && p.0 == digits_val(s@.subrange(i0 as int, p.1 as int)),
            Err(_) => sp_usize(s@, i0 as int) is None,
        },
{
    let j = match scan_number(s, i0) {
        Some(j) => j,
        None => {
            return Err(i0);
        },
    };
    if j <= i0 {
        return Err(i0);
    }
    let ghost tok = s@.subrange(i0 as int, j as int);
    let mut acc: usize = 0;
    let mut t = i0;
    while t < j
        invariant
            i0 <= t <= j <= s@.len(),
            tok == s@.subrange(i0 as int, j as int),
            crate::cred::number_token_end(s@, i0 as int) == j,
            acc == digits_val(s@.subrange(i0 as int, t as int)),
            forall|k: int| i0 <= k < t ==> crate::cred::is_digit(#[trigger] s@[k]),
        decreases j - t,
    {
        let c = s[t];
        if !('0' <= c && c <= '9') {
            return Err(t);
        }
        let d = ((c as u32) - 48) as usize;
        let ghost accpre = acc;
        proof {
            assert(s@.subrange(i0 as int, t + 1).drop_last() =~= s@.subrange(i0 as int, t as int));
            assert(s@.subrange(i0 as int, t + 1).last() == s@[t as int]);
            assert(digits_val(s@.subrange(i0 as int, t + 1)) == accpre * 10 + d);
        }
        let overflowed: bool;
        acc = match acc.checked_mul(10) {
            Some(v) => match v.checked_add(d) {
                Some(v2) => {
                    overflowed = false;
                    v2
                },
                None => {
                    overflowed = true;
                    0
                },
            },
            None => {
                overflowed = true;
                0
            },
        };
        if overflowed {
            proof {
                // the value only grows to the right, so the whole run
                // cannot fit either
                assert(digits_val(s@.subrange(i0 as int, t + 1)) > usize::MAX);
                if forall|k: int| i0 <= k < j ==> crate::cred::is_digit(#[trigger] s@[k]) {
                    assert forall|m: int| 0 <= m < tok.len() implies crate::cred::is_digit(
                        #[trigger] tok[m],
                    ) by {
                        assert(tok[m] == s@[i0 + m]);
                    }
                    lemma_digits_val_extend(tok, t + 1 - i0);
                    assert(tok.subrange(0, t + 1 - i0) =~= s@.subrange(i0 as int, t + 1));
                    assert(digits_val(tok) > usize::MAX);
                }
            }
            return Err(t);
        }
        t = t + 1;
    }
    proof {
        assert(acc <= usize::MAX);
        assert(tok =~= s@.subrange(i0 as int, j as int));
    }
    Ok((acc, j))
}

/// Index just past one syntactically skipped container at `i0`: strings
/// and numbers are read exactly, brackets by balance alone, whitespace
/// consumed one character per step.
pub open spec fn sp_skip_container(s: Seq<char>, i0: int, depth: int) -> Option<int>
    decreases s.len() - i0 when 0 <= i0 <= s.len() via sp_skip_container_dec
{
    if i0 >= s.len() {
        None
    } else if is_ws(s[i0]) {
        sp_skip_container(s, i0 + 1, depth)
    } else {
        let c2 = s[i0];
        if c2 == '[' || c2 == '{' {
            if depth == usize::MAX {
                None
            } else {
                sp_skip_container(s, i0 + 1, depth + 1)
            }
        } else if c2 == ']' || c2 == '}' {
            if depth == 1 {
                Some(i0 + 1)
            } else {
                sp_skip_container(s, i0 + 1, depth - 1)
            }
        } else if c2 == '"' {
            match sp_string(s, i0) {
                Some((t, j)) => {
                    if j <= i0 || j > s.len() {
                        None
                    } else {
                        sp_skip_container(s, j, depth)
                    }
                },
                None => None,
            }
        } else if c2 == ',' || c2 == ':' {
            sp_skip_container(s, i0 + 1, depth)
        } else if c2 == '-' || crate::cred::is_digit(c2) {
            let j = crate::cred::number_token_end(s, i0);
            if j < 0 || j <= i0 {
                None
            } else {
                sp_skip_container(s, j, depth)
            }
        } else if c2 == 't' {
            match sp_word(s, i0, "true"@) {
                Some(j) => {
                    if j <= i0 {
                        None
                    } else {
                        sp_skip_container(s, j, depth)
                    }
                },
                None => None,
            }
        } else if c2 == 'f' {
            match sp_word(s, i0, "false"@) {
                Some(j) => {
                    if j <= i0 {
                        None
                    } else {
                        sp_skip_container(s, j, depth)
                    }
                },
                None => None,
            }
        } else if c2 == 'n' {
            match sp_word(s, i0, "null"@) {
                Some(j) => {
                    if j <= i0 {
                        None
                    } else {
                        sp_skip_container(s, j, depth)
                    }
                },
                None => None,
            }
        } else {
            None
        }
    }
}

#[via_fn]
proof fn sp_skip_container_dec(s: Seq<char>, i0: int, depth: int) {
    crate::cred::lemma_number_token_end_bounds(s, i0);
}

/// Skipping a container ignores leading whitespace one step at a time.
proof fn lemma_sp_skip_container_ws(s: Seq<char>, i0: int, depth: int)
    requires
        0 <= i0 <= s.len(),
    ensures
        sp_skip_container(s, i0, depth) == sp_skip_container(s, sp_ws(s, i0), depth),
    decreases s.len() - i0,
{
    if i0 < s.len() && is_ws(s[i0]) {
        lemma_sp_skip_container_ws(s, i0 + 1, depth);
    }
}

/// Index just past one syntactically skipped value at `i0`.
pub open spec fn sp_skip(s: Seq<char>, i0: int) -> Option<int> {
    let i = sp_ws(s, i0);
    if i >= s.len() {
        None
    } else {
        let c = s[i];
        if c == '"' {
            match sp_string(s, i) {
                Some((t, j)) => Some(j),
                None => None,
            }
        } else if c == 't' {
            sp_word(s, i, "true"@)
        } else if c == 'f' {
            sp_word(s, i, "false"@)
        } else if c == 'n' {
            sp_word(s, i, "null"@)
        } else if c == '-' || crate::cred::is_digit(c) {
            let j = crate::cred::number_token_end(s, i);
            if j < 0 {
                None
            } else {
                Some(j)
            }
        } else if c == '[' || c == '{' {
            sp_skip_container(s, i + 1, 1)
        } else {
            None
        }
    }
}

/// Skips one JSON value at `i` syntactically (strings and numbers exactly,
/// containers by bracket balance): exactly [`sp_skip`]. Unknown record
/// fields are passed over the way a schema-driven reader ignores them.
fn skip_value(s: &Vec<char>, i0: usize) -> (r: Result<usize, usize>)
    requires
        i0 <= s@.len(),
    ensures
        match r {
            Ok(j) => sp_skip(s@, i0 as int) == Some(j as int) && i0 <= j <= s@.len(),
            Err(_) => sp_skip(s@, i0 as int) is None,
        },
{
    let n = s.len();
    let mut i = skip_ws(s, i0);
    if i >= n {
        return Err(i);
    }
    let c = s[i];
    if c == '"' {
        return match parse_string_at(s, i) {
            Ok((_, j)) => Ok(j),
            Err(p) => Err(p),
        };
    }
    if c == 't' {
        return expect_word(s, i, "true");
    }
    if c == 'f' {
        return expect_word(s, i, "false");
    }
    if c == 'n' {
        return expect_word(s, i, "null");
    }
    if c == '-' || ('0' <= c && c <= '9') {
        return match scan_number(s, i) {
            Some(j) => Ok(j),
            None => Err(i),
        };
    }
    if c == '[' || c == '{' {
        let mut depth: usize = 1;
        i = i + 1;
        proof {
            assert(sp_skip(s@, i0 as int) == sp_skip_container(s@, i as int, 1));
        }
        loop
            invariant
                n == s@.len(),
                i0 <= i <= n,
                depth >= 1,
                sp_skip(s@, i0 as int) == sp_skip_container(s@, i as int, depth as int),
            decreases n - i,
        {
            let ghost ipre = i as int;
            i = skip_ws(s, i);
            proof {
                lemma_sp_skip_container_ws(s@, ipre, depth as int);
                assert(sp_skip_container(s@, ipre, depth as int) == sp_skip_container(
                    s@,
                    i as int,
                    depth as int,
                ));
            }
            if i >= n {
                return Err(i);
            }
            let c2 = s[i];
            if c2 == '[' || c2 == '{' {
                if depth == usize::MAX {
                    return Err(i);
                }
                depth = depth + 1;
                i = i + 1;
            } else if c2 == ']' || c2 == '}' {
                depth = depth - 1;
                i = i + 1;
                if depth == 0 {
                    return Ok(i);
                }
            } else if c2 == '"' {
                match parse_string_at(s, i) {
                    Ok((_, j)) => {
                        i = j;
                    },
                    Err(p) => {
                        return Err(p);
                    },
                }
            } else if c2 == ',' || c2 == ':' {
                i = i + 1;
            } else if c2 == '-' || ('0' <= c2 && c2 <= '9') {
                match scan_number(s, i) {
                    Some(j) => {
                        if j <= i {
                            return Err(i);
                        }
                        i = j;
                    },
                    None => {
                        return Err(i);
                    },
                }
            } else if c2 == 't' || c2 == 'f' || c2 == 'n' {
                let j = match expect_word(s, i, if c2 == 't' {
                    "true"
                } else if c2 == 'f' {
                    "false"
                } else {
                    "null"
                }) {
                    Ok(j) => j,
                    Err(p) => {
                        return Err(p);
                    },
                };
                if j <= i {
                    return Err(i);
                }
                i = j;
            } else {
                return Err(i);
            }
        }
    }
    Err(i)
}

/// The elements and end of a string-array tail, read from the first
/// element position (not empty, leading whitespace already consumed).
pub open spec fn sp_str_items(s: Seq<char>, i: int) -> Option<(Seq<Seq<char>>, int)>
    decreases s.len() - i when 0 <= i <= s.len() via sp_str_items_dec
{
    match sp_string(s, i) {
        None => None,
        Some((v, j)) => {
            if j <= i || j > s.len() {
                None
            } else {
                let i1 = sp_ws(s, j);
                if i1 >= s.len() {
                    None
                } else if s[i1] == ']' {
                    Some((seq![v], i1 + 1))
                } else if s[i1] != ',' {
                    None
                } else {
                    let i2 = sp_ws(s, i1 + 1);
                    if i2 <= i {
                        None
                    } else {
                        match sp_str_items(s, i2) {
                            Some((rest, end)) => Some((seq![v] + rest, end)),
                            None => None,
                        }
                    }
                }
            }
        },
    }
}

#[via_fn]
proof fn sp_str_items_dec(s: Seq<char>, i: int) {
    if 0 <= i <= s.len() {
        match sp_string(s, i) {
            Some((v, j)) => {
                if i < j <= s.len() {
                    lemma_sp_ws(s, j);
                    let i1 = sp_ws(s, j);
                    if i1 + 1 <= s.len() {
                        lemma_sp_ws(s, i1 + 1);
                    }
                }
            },
            None => {},
        }
    }
}

/// The elements and end of the string array at `i0`.
pub open spec fn sp_str_array(s: Seq<char>, i0: int) -> Option<(Seq<Seq<char>>, int)> {
    let i = sp_ws(s, i0);
    if i >= s.len() || s[i] != '[' {
        None
    } else {
        let i1 = sp_ws(s, i + 1);
        if i1 < s.len() && s[i1] == ']' {
            Some((Seq::empty(), i1 + 1))
        } else {
            sp_str_items(s, i1)
        }
    }
}

/// The elements and end of an integer-array tail, read from the first
/// element position.
pub open spec fn sp_usize_items(s: Seq<char>, i: int) -> Option<(Seq<usize>, int)>
    decreases s.len() - i when 0 <= i <= s.len() via sp_usize_items_dec
{
    match sp_usize(s, i) {
        None => None,
        Some((v, j)) => {
            if j <= i || j > s.len() {
                None
            } else {
                let i1 = sp_ws(s, j);
                if i1 >= s.len() {
                    None
                } else if s[i1] == ']' {
                    Some((seq![v], i1 + 1))
                } else if s[i1] != ',' {
                    None
                } else {
                    let i2 = sp_ws(s, i1 + 1);
                    if i2 <= i {
                        None
                    } else {
                        match sp_usize_items(s, i2) {
                            Some((rest, end)) => Some((seq![v] + rest, end)),
                            None => None,
                        }
                    }
                }
            }
        },
    }
}

#[via_fn]
proof fn sp_usize_items_dec(s: Seq<char>, i: int) {
    if 0 <= i <= s.len() {
        match sp_usize(s, i) {
            Some((v, j)) => {
                if i < j <= s.len() {
                    lemma_sp_ws(s, j);
                    let i1 = sp_ws(s, j);
                    if i1 + 1 <= s.len() {
                        lemma_sp_ws(s, i1 + 1);
                    }
                }
            },
            None => {},
        }
    }
}

/// The elements and end of the integer array at `i0`.
pub open spec fn sp_usize_array(s: Seq<char>, i0: int) -> Option<(Seq<usize>, int)> {
    let i = sp_ws(s, i0);
    if i >= s.len() || s[i] != '[' {
        None
    } else {
        let i1 = sp_ws(s, i + 1);
        if i1 < s.len() && s[i1] == ']' {
            Some((Seq::empty(), i1 + 1))
        } else {
            sp_usize_items(s, i1)
        }
    }
}

/// One credence element at `i`: the missing-value keyword, or a number
/// token of the grammar, kept verbatim.
pub open spec fn sp_cred_elem(s: Seq<char>, i: int) -> Option<(Option<Seq<char>>, int)> {
    if 0 <= i < s.len() && s[i] == 'n' {
        match sp_word(s, i, "null"@) {
            Some(j) => Some((None, j)),
            None => None,
        }
    } else {
        let j = crate::cred::number_token_end(s, i);
        if j < 0 || j <= i || j > s.len() {
            None
        } else if !crate::cred::is_number_token(s.subrange(i, j)) {
            None
        } else {
            Some((Some(s.subrange(i, j)), j))
        }
    }
}

/// The entries and end of a credence-array tail, read from the first
/// element position.
pub open spec fn sp_cred_items(s: Seq<char>, i: int) -> Option<(Seq<Option<Seq<char>>>, int)>
    decreases s.len() - i when 0 <= i <= s.len() via sp_cred_items_dec
{
    match sp_cred_elem(s, i) {
        None => None,
        Some((v, j)) => {
            if j <= i || j > s.len() {
                None
            } else {
                let i1 = sp_ws(s, j);
                if i1 >= s.len() {
                    None
                } else if s[i1] == ']' {
                    Some((seq![v], i1 + 1))
                } else if s[i1] != ',' {
                    None
                } else {
                    let i2 = sp_ws(s, i1 + 1);
                    if i2 <= i {
                        None
                    } else {
                        match sp_cred_items(s, i2) {
                            Some((rest, end)) => Some((seq![v] + rest, end)),
                            None => None,
                        }
                    }
                }
            }
        },
    }
}

#[via_fn]
proof fn sp_cred_items_dec(s: Seq<char>, i: int) {
    if 0 <= i <= s.len() {
        match sp_cred_elem(s, i) {
            Some((v, j)) => {
                if i < j <= s.len() {
                    lemma_sp_ws(s, j);
                    let i1 = sp_ws(s, j);
                    if i1 + 1 <= s.len() {
                        lemma_sp_ws(s, i1 + 1);
                    }
                }
            },
            None => {},
        }
    }
}

/// The entries and end of the credence array at `i0`.
pub open spec fn sp_cred_array(s: Seq<char>, i0: int) -> Option<(Seq<Option<Seq<char>>>, int)> {
    let i = sp_ws(s, i0);
    if i >= s.len() || s[i] != '[' {
        None
    } else {
        let i1 = sp_ws(s, i + 1);
        if i1 < s.len() && s[i1] == ']' {
            Some((Seq::empty(), i1 + 1))
        } else {
            sp_cred_items(s, i1)
        }
    }
}

/// Parses the string array of a `values` or `cred_description` field:
/// exactly [`sp_str_array`].
fn parse_string_array(s: &Vec<char>, i0: usize) -> (r: Result<(Vec<String>, usize), usize>)
    requires
        i0 <= s@.len(),
    ensures
        match r {
            Ok(p) => sp_str_array(s@, i0 as int) == Some(
                (p.0@.map_values(|t: String| t@), p.1 as int),
            ) && i0 <= p.1 <= s@.len(),
            Err(_) => sp_str_array(s@, i0 as int) is None,
        },
{
    let n = s.len();
    let mut i = skip_ws(s, i0);
    if i >= n || s[i] != '[' {
        return Err(i);
    }
    i = skip_ws(s, i + 1);
    let mut out: Vec<String> = Vec::new();
    if i < n && s[i] == ']' {
        proof {
            assert(out@.map_values(|t: String| t@) =~= Seq::<Seq<char>>::empty());
        }
        return Ok((out, i + 1));
    }
    proof {
        assert(sp_str_array(s@, i0 as int) == sp_str_items(s@, i as int));
    }
    loop
        invariant
            n == s@.len(),
            i0 <= i <= n,
            sp_str_array(s@, i0 as int) == (match sp_str_items(s@, i as int) {
                Some((rest, end)) => Some((out@.map_values(|t: String| t@) + rest, end)),
                None => None::<(Seq<Seq<char>>, int)>,
            }),
        decreases n - i,
    {
        let (chs, j) = match parse_string_at(s, i) {
            Ok(p) => p,
            Err(p) => {
                return Err(p);
            },
        };
        let ghost out0 = out@;
        let ghost v = chs@;
        out.push(chars_to_string(&chs));
        proof {
            assert(out@.map_values(|t: String| t@) =~= out0.map_values(|t: String| t@).push(v));
        }
        let i1 = skip_ws(s, j);
        if i1 >= n {
            return Err(i1);
        }
        if s[i1] == ']' {
            proof {
                assert(out0.map_values(|t: String| t@) + seq![v] =~= out@.map_values(
                    |t: String| t@,
                ));
            }
            return Ok((out, i1 + 1));
        }
        if s[i1] != ',' {
            return Err(i1);
        }
        let i2 = skip_ws(s, i1 + 1);
        if i2 <= i {
            return Err(i2);
        }
        i = i2;
        proof {
            if sp_str_items(s@, i as int) is Some {
                let rest = sp_str_items(s@, i as int)->Some_0.0;
                assert(out0.map_values(|t: String| t@) + (seq![v] + rest) =~= out@.map_values(
                    |t: String| t@,
                ) + rest);
            }
        }
    }
}

/// Parses the integer array of a `parents` field: exactly
/// [`sp_usize_array`].
fn parse_usize_array(s: &Vec<char>, i0: usize) -> (r: Result<(Vec<usize>, usize), usize>)
    requires
        i0 <= s@.len(),
    ensures
        match r {
            Ok(p) => sp_usize_array(s@, i0 as int) == Some((p.0@, p.1 as int)) && i0 <= p.1
                <= s@.len(),
            Err(_) => sp_usize_array(s@, i0 as int) is None,
        },
{
    let n = s.len();
    let mut i = skip_ws(s, i0);
    if i >= n || s[i] != '[' {
        return Err(i);
    }
    i = skip_ws(s, i + 1);
    let mut out: Vec<usize> = Vec::new();
    if i < n && s[i] == ']' {
        proof {
            assert(out@ =~= Seq::<usize>::empty());
        }
        return Ok((out, i + 1));
    }
    proof {
        assert(sp_usize_array(s@, i0 as int) == sp_usize_items(s@, i as int));
    }
    loop
        invariant
            n == s@.len(),
            i0 <= i <= n,
            sp_usize_array(s@, i0 as int) == (match sp_usize_items(s@, i as int) {
                Some((rest, end)) => Some((out@ + rest, end)),
                None => None::<(Seq<usize>, int)>,
            }),
        decreases n - i,
    {
        let (v, j) = match parse_usize_at(s, i) {
            Ok(p) => p,
            Err(p) => {
                return Err(p);
            },
        };
        let ghost out0 = out@;
        out.push(v);
        let i1 = skip_ws(s, j);
        if i1 >= n {
            return Err(i1);
        }
        if s[i1] == ']' {
            proof {
                assert(out0 + seq![v] =~= out@);
            }
            return Ok((out, i1 + 1));
        }
        if s[i1] != ',' {
            return Err(i1);
        }
        let i2 = skip_ws(s, i1 + 1);
        if i2 <= i {
            return Err(i2);
        }
        i = i2;
        proof {
            if sp_usize_items(s@, i as int) is Some {
                let rest = sp_usize_items(s@, i as int)->Some_0.0;
                assert(out0 + (seq![v] + rest) =~= out@ + rest);
            }
        }
    }
}

/// Parses a `credencies` array: number tokens kept verbatim, `null` for
/// the missing-value sentinel; exactly [`sp_cred_array`].
fn parse_cred_array(s: &Vec<char>, i0: usize) -> (r: Result<(Vec<Cred>, usize), usize>)
    requires
        i0 <= s@.len(),
    ensures
        match r {
            Ok(p) => sp_cred_array(s@, i0 as int) == Some(
                (p.0@.map_values(|c: Cred| c@), p.1 as int),
            ) && i0 <= p.1 <= s@.len(),
            Err(_) => sp_cred_array(s@, i0 as int) is None,
        },
{
    let n = s.len();
    let mut i = skip_ws(s, i0);
    if i >= n || s[i] != '[' {
        return Err(i);
    }
    i = skip_ws(s, i + 1);
    let mut out: Vec<Cred> = Vec::new();
    if i < n && s[i] == ']' {
        proof {
            assert(out@.map_values(|c: Cred| c@) =~= Seq::<Option<Seq<char>>>::empty());
        }
        return Ok((out, i + 1));
    }
    proof {
        assert(sp_cred_array(s@, i0 as int) == sp_cred_items(s@, i as int));
    }
    loop
        invariant
            n == s@.len(),
            i0 <= i <= n,
            sp_cred_array(s@, i0 as int) == (match sp_cred_items(s@, i as int) {
                Some((rest, end)) => Some((out@.map_values(|c: Cred| c@) + rest, end)),
                None => None::<(Seq<Option<Seq<char>>>, int)>,
            }),
        decreases n - i,
    {
        let ghost ie = i as int;
        let ghost out0 = out@;
        let ghost ev: Option<Seq<char>>;
        let j: usize;
        if i < n && s[i] == 'n' {
            j = match expect_word(s, i, "null") {
                Ok(j2) => j2,
                Err(p) => {
                    return Err(p);
                },
            };
            out.push(Cred::null());
            proof {
                ev = None;
                assert(sp_cred_elem(s@, ie) == Some((ev, j as int)));
            }
        } else {
            let j2 = match scan_number(s, i) {
                Some(j2) => j2,
                None => {
                    return Err(i);
                },
            };
            if j2 <= i {
                return Err(i);
            }
            let mut tok: Vec<char> = Vec::new();
            let mut t = i;
            while t < j2
                invariant
                    i <= t <= j2 <= s@.len(),
                    tok@ =~= s@.subrange(i as int, t as int),
                decreases j2 - t,
            {
                tok.push(s[t]);
                t = t + 1;
                proof {
                    assert(tok@ =~= s@.subrange(i as int, t as int));
                }
            }
            proof {
                assert(tok@ =~= s@.subrange(i as int, j2 as int));
            }
            match Cred::number(chars_to_string(&tok)) {
                Some(c) => {
                    proof {
                        ev = c@;
                        assert(c@ == Some(s@.subrange(ie, j2 as int)));
                        assert(sp_cred_elem(s@, ie) == Some((ev, j2 as int)));
                    }
                    out.push(c);
                },
                None => {
                    proof {
                        assert(sp_cred_elem(s@, ie) is None);
                    }
                    return Err(i);
                },
            }
            j = j2;
        }
        proof {
            assert(out@.map_values(|c: Cred| c@) =~= out0.map_values(|c: Cred| c@).push(ev));
        }
        i = skip_ws(s, j);
        if i >= n {
            return Err(i);
        }
        if s[i] == ']' {
            proof {
                assert(out0.map_values(|c: Cred| c@) + seq![ev] =~= out@.map_values(
                    |c: Cred| c@,
                ));
            }
            return Ok((out, i + 1));
        }
        if s[i] != ',' {
            return Err(i);
        }
        let i2 = skip_ws(s, i + 1);
        if i2 <= i {
            return Err(i);
        }
        i = i2;
        proof {
            assert(i2 > ie);
            if sp_cred_items(s@, i as int) is Some {
                let rest = sp_cred_items(s@, i as int)->Some_0.0;
                assert(out0.map_values(|c: Cred| c@) + (seq![ev] + rest) =~= out@.map_values(
                    |c: Cred| c@,
                ) + rest);
            }
        }
    }
}

/// The fields gathered while reading a record object.
pub ghost struct RecPartial {
    pub label: Option<Seq<char>>,
    pub description: Option<Seq<char>>,
    pub values: Option<Seq<Seq<char>>>,
    pub parents: Option<Seq<usize>>,
    pub observation: Option<usize>,
    pub have_observation: bool,
    pub credencies: Option<Seq<Option<Seq<char>>>>,
    pub have_credencies: bool,
    pub cred_description: Option<Seq<Seq<char>>>,
}

/// No field seen yet.
pub open spec fn sp_rec_empty() -> RecPartial {
    RecPartial {
        label: None,
        description: None,
        values: None,
        parents: None,
        observation: None,
        have_observation: false,
        credencies: None,
        have_credencies: false,
        cred_description: None,
    }
}

/// The gathered fields as exec-level option values.
pub open spec fn rec_state(
    label: Option<String>,
    description: Option<String>,
    values: Option<Vec<String>>,
    parents: Option<Vec<usize>>,
    observation: Option<usize>,
    have_observation: bool,
    credencies: Option<Vec<Cred>>,
    have_credencies: bool,
    cred_description: Option<Vec<String>>,
) -> RecPartial {
    RecPartial {
        label: match label {
            Some(l) => Some(l@),
            None => None,
        },
        description: match description {
            Some(d) => Some(d@),
            None => None,
        },
        values: match values {
            Some(v) => Some(v@.map_values(|t: String| t@)),
            None => None,
        },
        parents: match parents {
            Some(p) => Some(p@),
            None => None,
        },
        observation: observation,
        have_observation: have_observation,
        credencies: match credencies {
            Some(c) => Some(c@.map_values(|c2: Cred| c2@)),
            None => None,
        },
        have_credencies: have_credencies,
        cred_description: match cred_description {
            Some(d) => Some(d@.map_values(|t: String| t@)),
            None => None,
        },
    }
}

/// Closes a record: `label`, `values` and `parents` are required, the
/// texts default to empty, the optional fields to absent.
pub open spec fn sp_rec_finish(st: RecPartial, end: int) -> Option<(JsonNodeV, int)> {
    match (st.label, st.values, st.parents) {
        (Some(l), Some(vs), Some(ps)) => Some(
            (
                JsonNodeV {
                    label: l,
                    description: match st.description {
                        Some(d) => d,
                        None => Seq::empty(),
                    },
                    values: vs,
                    parents: ps,
                    observation: st.observation,
                    credencies: st.credencies,
                    cred_description: match st.cred_description {
                        Some(d) => d,
                        None => Seq::empty(),
                    },
                },
                end,
            ),
        ),
        _ => None,
    }
}

/// One member's value at `j2`, dispatched on the key: the known fields
/// are read by their shape (each at most once), anything else is skipped
/// syntactically.
pub open spec fn sp_member_value(s: Seq<char>, j2: int, key: Seq<char>, st: RecPartial) -> Option<
    (RecPartial, int),
> {
    if key == "label"@ {
        if st.label is Some {
            None
        } else {
            match sp_string(s, j2) {
                Some((v, j3)) => Some((RecPartial { label: Some(v), ..st }, j3)),
                None => None,
            }
        }
    } else if key == "description"@ {
        if st.description is Some {
            None
        } else {
            match sp_string(s, j2) {
                Some((v, j3)) => Some((RecPartial { description: Some(v), ..st }, j3)),
                None => None,
            }
        }
    } else if key == "values"@ {
        if st.values is Some {
            None
        } else {
            match sp_str_array(s, j2) {
                Some((v, j3)) => Some((RecPartial { values: Some(v), ..st }, j3)),
                None => None,
            }
        }
    } else if key == "parents"@ {
        if st.parents is Some {
            None
        } else {
            match sp_usize_array(s, j2) {
                Some((v, j3)) => Some((RecPartial { parents: Some(v), ..st }, j3)),
                None => None,
            }
        }
    } else if key == "observation"@ {
        if st.have_observation {
            None
        } else if j2 < s.len() && s[j2] == 'n' {
            match sp_word(s, j2, "null"@) {
                Some(j3) => Some((RecPartial { have_observation: true, ..st }, j3)),
                None => None,
            }
        } else {
            match sp_usize(s, j2) {
                Some((v, j3)) => Some(
                    (RecPartial { observation: Some(v), have_observation: true, ..st }, j3),
                ),
                None => None,
            }
        }
    } else if key == "credencies"@ {
        if st.have_credencies {
            None
        } else if j2 < s.len() && s[j2] == 'n' {
            match sp_word(s, j2, "null"@) {
                Some(j3) => Some((RecPartial { have_credencies: true, ..st }, j3)),
                None => None,
            }
        } else {
            match sp_cred_array(s, j2) {
                Some((v, j3)) => Some(
                    (RecPartial { credencies: Some(v), have_credencies: true, ..st }, j3),
                ),
                None => None,
            }
        }
    } else if key == "cred_description"@ {
        if st.cred_description is Some {
            None
        } else {
            match sp_str_array(s, j2) {
                Some((v, j3)) => Some((RecPartial { cred_description: Some(v), ..st }, j3)),
                None => None,
            }
        }
    } else {
        match sp_skip(s, j2) {
            Some(j3) => Some((st, j3)),
            None => None,
        }
    }
}

/// The record built from the member list at `i` (positioned on the first
/// key) on top of the fields gathered so far.
pub open spec fn sp_members(s: Seq<char>, i: int, st: RecPartial) -> Option<(JsonNodeV, int)>
    decreases s.len() - i when 0 <= i <= s.len() via sp_members_dec
{
    match sp_string(s, i) {
        None => None,
        Some((key, j)) => {
            if j <= i || j > s.len() {
                None
            } else {
                let j2a = sp_ws(s, j);
                if j2a >= s.len() || s[j2a] != ':' {
                    None
                } else {
                    let j2 = sp_ws(s, j2a + 1);
                    match sp_member_value(s, j2, key, st) {
                        None => None,
                        Some((st2, after)) => {
                            if after <= i || after > s.len() {
                                None
                            } else {
                                let k2 = sp_ws(s, after);
                                if k2 >= s.len() {
                                    None
                                } else if s[k2] == '}' {
                                    sp_rec_finish(st2, k2 + 1)
                                } else if s[k2] != ',' {
                                    None
                                } else {
                                    let k3 = sp_ws(s, k2 + 1);
                                    if k3 <= i {
                                        None
                                    } else {
                                        sp_members(s, k3, st2)
                                    }
                                }
                            }
                        },
                    }
                }
            }
        },
    }
}

#[via_fn]
proof fn sp_members_dec(s: Seq<char>, i: int, st: RecPartial) {
    if 0 <= i <= s.len() {
        match sp_string(s, i) {
            Some((key, j)) => {
                if i < j <= s.len() {
                    lemma_sp_ws(s, j);
                    let j2a = sp_ws(s, j);
                    if j2a < s.len() {
                        lemma_sp_ws(s, j2a + 1);
                        let j2 = sp_ws(s, j2a + 1);
                        match sp_member_value(s, j2, key, st) {
                            Some((st2, after)) => {
                                if i < after <= s.len() {
                                    lemma_sp_ws(s, after);
                                    let k2 = sp_ws(s, after);
                                    if k2 < s.len() {
                                        lemma_sp_ws(s, k2 + 1);
                                    }
                                }
                            },
                            None => {},
                        }
                    }
                }
            },
            None => {},
        }
    }
}

/// The record object at `i0` and its end.
pub open spec fn sp_record(s: Seq<char>, i0: int) -> Option<(JsonNodeV, int)> {
    let i = sp_ws(s, i0);
    if i >= s.len() || s[i] != '{' {
        None
    } else {
        let i1 = sp_ws(s, i + 1);
        if i1 < s.len() && s[i1] == '}' {
            sp_rec_finish(sp_rec_empty(), i1 + 1)
        } else {
            sp_members(s, i1, sp_rec_empty())
        }
    }
}

/// Whether `k` spells `w`.
fn key_is(k: &Vec<char>, w: &str) -> (r: bool)
    ensures
        r == (k@ == w@),
{
    let wn = w.unicode_len();
    if k.len() != wn {
        return false;
    }
    let mut t: usize = 0;
    while t < wn
        invariant
            wn == w@.len(),
            k@.len() == wn,
            t <= wn,
            forall|m: int| 0 <= m < t ==> k@[m] == w@[m],
        decreases wn - t,
    {
        if k[t] != w.get_char(t) {
            return false;
        }
        t = t + 1;
    }
    proof {
        assert(k@ =~= w@);
    }
    true
}

/// Parses one record object at `i`: exactly [`sp_record`]. Required
/// fields are `label`, `values` and `parents`; `description` and
/// `cred_description` default to empty, `observation` and `credencies` to
/// absent; a repeated field or an unknown shape is refused, and unknown
/// fields are skipped.
#[verifier::rlimit(100)]
#[verifier::spinoff_prover]
fn parse_record_at(s: &Vec<char>, i0: usize) -> (r: Result<(JsonNode, usize), usize>)
    requires
        i0 <= s@.len(),
    ensures
        match r {
            Ok(p) => sp_record(s@, i0 as int) == Some((p.0@, p.1 as int)) && i0 <= p.1 <= s@.len(),
            Err(_) => sp_record(s@, i0 as int) is None,
        },
{
    let n = s.len();
    let mut i = skip_ws(s, i0);
    if i >= n || s[i] != '{' {
        return Err(i);
    }
    i = skip_ws(s, i + 1);
    let mut label: Option<String> = None;
    let mut description: Option<String> = None;
    let mut values: Option<Vec<String>> = None;
    let mut parents: Option<Vec<usize>> = None;
    let mut observation: Option<usize> = None;
    let mut have_observation = false;
    let mut credencies: Option<Vec<Cred>> = None;
    let mut have_credencies = false;
    let mut cred_description: Option<Vec<String>> = None;
    if i < n && s[i] == '}' {
        i = i + 1;
        proof {
            assert(sp_record(s@, i0 as int) == sp_rec_finish(sp_rec_empty(), i as int));
        }
    } else {
        proof {
            assert(sp_record(s@, i0 as int) == sp_members(s@, i as int, sp_rec_empty()));
        }
        loop
            invariant_except_break
                n == s@.len(),
                i0 <= i <= n,
                sp_record(s@, i0 as int) == sp_members(
                    s@,
                    i as int,
                    rec_state(
                        label,
                        description,
                        values,
                        parents,
                        observation,
                        have_observation,
                        credencies,
                        have_credencies,
                        cred_description,
                    ),
                ),
            ensures
                i0 <= i <= n,
                sp_record(s@, i0 as int) == sp_rec_finish(
                    rec_state(
                        label,
                        description,
                        values,
                        parents,
                        observation,
                        have_observation,
                        credencies,
                        have_credencies,
                        cred_description,
                    ),
                    i as int,
                ),
            decreases n - i,
        {
            let ghost ientry = i as int;
            let ghost st0 = rec_state(
                label,
                description,
                values,
                parents,
                observation,
                have_observation,
                credencies,
                have_credencies,
                cred_description,
            );
            let (key, j) = match parse_string_at(s, i) {
                Ok(p) => p,
                Err(p) => {
                    return Err(p);
                },
            };
            let mut j2 = skip_ws(s, j);
            if j2 >= n || s[j2] != ':' {
                return Err(j2);
            }
            j2 = skip_ws(s, j2 + 1);
            let after: usize;
            if key_is(&key, "label") {
                if label.is_some() {
                    return Err(j2);
                }
                let (chs, j3) = match parse_string_at(s, j2) {
                    Ok(p) => p,
                    Err(p) => {
                        return Err(p);
                    },
                };
                label = Some(chars_to_string(&chs));
                after = j3;
                proof {
                    assert((after as int) >= j2 as int);
                    assert(sp_member_value(s@, j2 as int, key@, st0) == Some(
                        (
                            rec_state(
                                label,
                                description,
                                values,
                                parents,
                                observation,
                                have_observation,
                                credencies,
                                have_credencies,
                                cred_description,
                            ),
                            after as int,
                        ),
                    ));
                }
            } else if key_is(&key, "description") {
                if description.is_some() {
                    return Err(j2);
                }
                let (chs, j3) = match parse_string_at(s, j2) {
                    Ok(p) => p,
                    Err(p) => {
                        return Err(p);
                    },
                };
                description = Some(chars_to_string(&chs));
                after = j3;
                proof {
                    assert((after as int) >= j2 as int);
                    assert(sp_member_value(s@, j2 as int, key@, st0) == Some(
                        (
                            rec_state(
                                label,
                                description,
                                values,
                                parents,
                                observation,
                                have_observation,
                                credencies,
                                have_credencies,
                                cred_description,
                            ),
                            after as int,
                        ),
                    ));
                }
            } else if key_is(&key, "values") {
                if values.is_some() {
                    return Err(j2);
                }
                let (vs, j3) = match parse_string_array(s, j2) {
                    Ok(p) => p,
                    Err(p) => {
                        return Err(p);
                    },
                };
                values = Some(vs);
                after = j3;
                proof {
                    assert((after as int) >= j2 as int);
                    assert(sp_member_value(s@, j2 as int, key@, st0) == Some(
                        (
                            rec_state(
                                label,
                                description,
                                values,
                                parents,
                                observation,
                                have_observation,
                                credencies,
                                have_credencies,
                                cred_description,
                            ),
                            after as int,
                        ),
                    ));
                }
            } else if key_is(&key, "parents") {
                if parents.is_some() {
                    return Err(j2);
                }
                let (ps, j3) = match parse_usize_array(s, j2) {
                    Ok(p) => p,
                    Err(p) => {
                        return Err(p);
                    },
                };
                parents = Some(ps);
                after = j3;
                proof {
                    assert((after as int) >= j2 as int);
                    assert(sp_member_value(s@, j2 as int, key@, st0) == Some(
                        (
                            rec_state(
                                label,
                                description,
                                values,
                                parents,
                                observation,
                                have_observation,
                                credencies,
                                have_credencies,
                                cred_description,
                            ),
                            after as int,
                        ),
                    ));
                }
            } else if key_is(&key, "observation") {
                if have_observation {
                    return Err(j2);
                }
                have_observation = true;
                if j2 < n && s[j2] == 'n' {
                    after = match expect_word(s, j2, "null") {
                        Ok(j3) => j3,
                        Err(p) => {
                            return Err(p);
                        },
                    };
                proof {
                    assert((after as int) >= j2 as int);
                    assert(sp_member_value(s@, j2 as int, key@, st0) == Some(
                        (
                            rec_state(
                                label,
                                description,
                                values,
                                parents,
                                observation,
                                have_observation,
                                credencies,
                                have_credencies,
                                cred_description,
                            ),
                            after as int,
                        ),
                    ));
                }
                } else {
                    let (v, j3) = match parse_usize_at(s, j2) {
                        Ok(p) => p,
                        Err(p) => {
                            return Err(p);
                        },
                    };
                    observation = Some(v);
                    after = j3;
                proof {
                    assert((after as int) >= j2 as int);
                    assert(sp_member_value(s@, j2 as int, key@, st0) == Some(
                        (
                            rec_state(
                                label,
                                description,
                                values,
                                parents,
                                observation,
                                have_observation,
                                credencies,
                                have_credencies,
                                cred_description,
                            ),
                            after as int,
                        ),
                    ));
                }
                }
            } else if key_is(&key, "credencies") {
                if have_credencies {
                    return Err(j2);
                }
                have_credencies = true;
                if j2 < n && s[j2] == 'n' {
                    after = match expect_word(s, j2, "null") {
                        Ok(j3) => j3,
                        Err(p) => {
                            return Err(p);
                        },
                    };
                proof {
                    assert((after as int) >= j2 as int);
                    assert(sp_member_value(s@, j2 as int, key@, st0) == Some(
                        (
                            rec_state(
                                label,
                                description,
                                values,
                                parents,
                                observation,
                                have_observation,
                                credencies,
                                have_credencies,
                                cred_description,
                            ),
                            after as int,
                        ),
                    ));
                }
                } else {
                    let (cs, j3) = match parse_cred_array(s, j2) {
                        Ok(p) => p,
                        Err(p) => {
                            return Err(p);
                        },
                    };
                    credencies = Some(cs);
                    after = j3;
                proof {
                    assert((after as int) >= j2 as int);
                    assert(sp_member_value(s@, j2 as int, key@, st0) == Some(
                        (
                            rec_state(
                                label,
                                description,
                                values,
                                parents,
                                observation,
                                have_observation,
                                credencies,
                                have_credencies,
                                cred_description,
                            ),
                            after as int,
                        ),
                    ));
                }
                }
            } else if key_is(&key, "cred_description") {
                if cred_description.is_some() {
                    return Err(j2);
                }
                let (vs, j3) = match parse_string_array(s, j2) {
                    Ok(p) => p,
                    Err(p) => {
                        return Err(p);
                    },
                };
                cred_description = Some(vs);
                after = j3;
                proof {
                    assert((after as int) >= j2 as int);
                    assert(sp_member_value(s@, j2 as int, key@, st0) == Some(
                        (
                            rec_state(
                                label,
                                description,
                                values,
                                parents,
                                observation,
                                have_observation,
                                credencies,
                                have_credencies,
                                cred_description,
                            ),
                            after as int,
                        ),
                    ));
                }
            } else {
                after = match skip_value(s, j2) {
                    Ok(j3) => j3,
                    Err(p) => {
                        return Err(p);
                    },
                };
            proof {
                assert((after as int) >= j2 as int);
                assert(sp_member_value(s@, j2 as int, key@, st0) == Some(
                    (
                        rec_state(
                            label,
                            description,
                            values,
                            parents,
                            observation,
                            have_observation,
                            credencies,
                            have_credencies,
                            cred_description,
                        ),
                        after as int,
                    ),
            ));
                }
            }
            proof {
                assert((after as int) > ientry && after <= n);
            }
            let k2 = skip_ws(s, after);
            if k2 >= n {
                return Err(k2);
            }
            if s[k2] == '}' {
                i = k2 + 1;
                proof {
                    assert(sp_record(s@, i0 as int) == sp_rec_finish(
                        rec_state(
                            label,
                            description,
                            values,
                            parents,
                            observation,
                            have_observation,
                            credencies,
                            have_credencies,
                            cred_description,
                        ),
                        i as int,
                    ));
                }
                break;
            }
            if s[k2] != ',' {
                return Err(k2);
            }
            let k3 = skip_ws(s, k2 + 1);
            if k3 <= i {
                return Err(k3);
            }
            i = k3;
            proof {
                assert(sp_record(s@, i0 as int) == sp_members(
                    s@,
                    i as int,
                    rec_state(
                        label,
                        description,
                        values,
                        parents,
                        observation,
                        have_observation,
                        credencies,
                        have_credencies,
                        cred_description,
                    ),
                ));
            }
        }
    }
    let ghost stf = rec_state(
        label,
        description,
        values,
        parents,
        observation,
        have_observation,
        credencies,
        have_credencies,
        cred_description,
    );
    let ghost iend = i as int;
    let label = match label {
        Some(l) => l,
        None => {
            return Err(i);
        },
    };
    let values = match values {
        Some(v) => v,
        None => {
            return Err(i);
        },
    };
    let parents = match parents {
        Some(p) => p,
        None => {
            return Err(i);
        },
    };
    let description = match description {
        Some(d) => d,
        None => String::new(),
    };
    let cred_description = match cred_description {
        Some(d) => d,
        None => Vec::new(),
    };
    let rec = JsonNode {
        label,
        description,
        values,
        parents,
        observation,
        credencies,
        cred_description,
    };
    proof {
        assert(sp_record(s@, i0 as int) == sp_rec_finish(stf, iend));
        assert(rec@.description =~= (match stf.description {
            Some(d) => d,
            None => Seq::<char>::empty(),
        }));
        assert(rec@.cred_description =~= (match stf.cred_description {
            Some(d) => d,
            None => Seq::<Seq<char>>::empty(),
        }));
        assert(sp_rec_finish(stf, iend) == Some((rec@, iend)));
    }
    Ok((rec, i))
}

/// The records and end of a record-list tail, read from the first record
/// position (not empty, leading whitespace already consumed).
pub open spec fn sp_rec_items(s: Seq<char>, i: int) -> Option<(Seq<JsonNodeV>, int)>
    decreases s.len() - i when 0 <= i <= s.len() via sp_rec_items_dec
{
    match sp_record(s, i) {
        None => None,
        Some((rv, j)) => {
            if j <= i || j > s.len() {
                None
            } else {
                let j2 = sp_ws(s, j);
                if j2 >= s.len() {
                    None
                } else if s[j2] == ']' {
                    Some((seq![rv], j2 + 1))
                } else if s[j2] != ',' {
                    None
                } else {
                    let j3 = sp_ws(s, j2 + 1);
                    if j3 <= i {
                        None
                    } else {
                        match sp_rec_items(s, j3) {
                            Some((rest, end)) => Some((seq![rv] + rest, end)),
                            None => None,
                        }
                    }
                }
            }
        },
    }
}

#[via_fn]
proof fn sp_rec_items_dec(s: Seq<char>, i: int) {
    if 0 <= i <= s.len() {
        match sp_record(s, i) {
            Some((rv, j)) => {
                if i < j <= s.len() {
                    lemma_sp_ws(s, j);
                    let j2 = sp_ws(s, j);
                    if j2 + 1 <= s.len() {
                        lemma_sp_ws(s, j2 + 1);
                    }
                }
            },
            None => {},
        }
    }
}

/// The whole file as records: an array of record objects with nothing but
/// whitespace after it.
pub open spec fn sp_records(s: Seq<char>) -> Option<Seq<JsonNodeV>> {
    let i = sp_ws(s, 0);
    if i >= s.len() || s[i] != '[' {
        None
    } else {
        let i1 = sp_ws(s, i + 1);
        if i1 < s.len() && s[i1] == ']' {
            if sp_ws(s, i1 + 1) == s.len() {
                Some(Seq::empty())
            } else {
                None
            }
        } else {
            match sp_rec_items(s, i1) {
                Some((rs, end)) => {
                    if 0 <= end <= s.len() && sp_ws(s, end) == s.len() {
                        Some(rs)
                    } else {
                        None
                    }
                },
                None => None,
            }
        }
    }
}

/// Parses the whole file: exactly [`sp_records`]. The empty array loads
/// as no records at all, and empty text is refused.
pub fn parse_records(s: &Vec<char>) -> (r: Result<Vec<JsonNode>, usize>)
    ensures
        match r {
            Ok(rs) => sp_records(s@) == Some(rs@.map_values(|n2: JsonNode| n2@)),
            Err(_) => sp_records(s@) is None,
        },
        s@ =~= seq!['[', ']'] ==> (r matches Ok(rs) && rs@.len() == 0),
        s@.len() == 0 ==> r is Err,
{
    let n = s.len();
    let mut i = skip_ws(s, 0);
    if i >= n || s[i] != '[' {
        return Err(i);
    }
    i = skip_ws(s, i + 1);
    let mut out: Vec<JsonNode> = Vec::new();
    if i < n && s[i] == ']' {
        i = i + 1;
        proof {
            assert(out@.map_values(|n2: JsonNode| n2@) =~= Seq::<JsonNodeV>::empty());
        }
    } else {
        proof {
            if s@ =~= seq!['[', ']'] {
                assert(!is_ws(s@[1]));
                assert(i == 1);
                assert(s@[1] == ']');
            }
        }
        loop
            invariant_except_break
                n == s@.len(),
                i <= n,
                !(s@ =~= seq!['[', ']']),
                s@.len() != 0,
                (match sp_rec_items(s@, i as int) {
                    Some((rest, end)) => sp_records(s@) == (if 0 <= end <= s@.len() && sp_ws(
                        s@,
                        end,
                    ) == s@.len() {
                        Some(out@.map_values(|n2: JsonNode| n2@) + rest)
                    } else {
                        None::<Seq<JsonNodeV>>
                    }),
                    None => sp_records(s@) is None,
                }),
            ensures
                n == s@.len(),
                i <= n,
                !(s@ =~= seq!['[', ']']),
                s@.len() != 0,
                sp_records(s@) == (if 0 <= i as int <= s@.len() && sp_ws(s@, i as int) == s@.len() {
                    Some(out@.map_values(|n2: JsonNode| n2@))
                } else {
                    None::<Seq<JsonNodeV>>
                }),
            decreases n - i,
        {
            let ghost ientry = i as int;
            let ghost out0 = out@;
            let (rec, j) = match parse_record_at(s, i) {
                Ok(p) => p,
                Err(p) => {
                    return Err(p);
                },
            };
            let ghost rv = rec@;
            out.push(rec);
            proof {
                assert(out@.map_values(|n2: JsonNode| n2@) =~= out0.map_values(
                    |n2: JsonNode| n2@,
                ).push(rv));
            }
            let j2 = skip_ws(s, j);
            if j2 >= n {
                return Err(j2);
            }
            if s[j2] == ']' {
                i = j2 + 1;
                proof {
                    assert(out0.map_values(|n2: JsonNode| n2@) + seq![rv] =~= out@.map_values(
                        |n2: JsonNode| n2@,
                    ));
                }
                break;
            }
            if s[j2] != ',' {
                return Err(j2);
            }
            let j3 = skip_ws(s, j2 + 1);
            if j3 <= i {
                return Err(j3);
            }
            i = j3;
            proof {
                if sp_rec_items(s@, i as int) is Some {
                    let rest = sp_rec_items(s@, i as int)->Some_0.0;
                    assert(out0.map_values(|n2: JsonNode| n2@) + (seq![rv] + rest)
                        =~= out@.map_values(|n2: JsonNode| n2@) + rest);
                }
            }
        }
    }
    let end = skip_ws(s, i);
    if end < n {
        return Err(end);
    }
    proof {
        assert(out@.map_values(|n2: JsonNode| n2@) == sp_records(s@)->Some_0);
    }
    Ok(out)
}

} // verus!
