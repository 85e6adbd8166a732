//! The directed acyclic graph of random variables and its mutation API.
//!
//! Nodes live in a slot-indexed arena; a removed node frees its slot and a
//! later insertion reuses the first free slot. Parent and child links are
//! both stored and kept consistent, and every mutation preserves the
//! invariants: links point at live nodes, no duplicate edges, no node is its
//! own ancestor, stored credence tables match the shape derived from the
//! node's own values and its parents' values, and observations index into
//! the node's values.

use vstd::prelude::*;

use vstd::pervasive::VecAdditionalExecFns;

use crate::cred::CredTable;

verus! {

/// Errors reported by the edge-mutation operations.
#[derive(Copy, Clone, Debug)]
pub enum EdgeError {
    /// One endpoint of the requested edge does not exist.
    BadNode,
    /// Adding the requested edge would make a node its own ancestor.
    WouldCycle,
    /// The requested edge is already present.
    AlreadyExisting,
}

/// One random variable of the network.
pub struct Node {
    /// Slot indices of the nodes this node is conditioned on, in table order.
    pub parents: Vec<usize>,
    /// Slot indices of the nodes conditioned on this node.
    pub children: Vec<usize>,
    /// Display name.
    pub label: String,
    /// Free-text description.
    pub description: String,
    /// The ordered outcomes of the variable.
    pub values: Vec<String>,
    /// The credence table, shaped by this node's and its parents' values.
    pub credencies: Option<CredTable>,
    /// One annotation per combination of parent values.
    pub cred_description: Vec<String>,
    /// Index of the observed outcome, when the variable is fixed.
    pub observation: Option<usize>,
}

/// The graph of nodes; slots of removed nodes are kept and reused.
pub struct Dag {
    nodes: Vec<Option<Node>>,
}

impl View for Dag {
    type V = Seq<Option<Node>>;

    closed spec fn view(&self) -> Seq<Option<Node>> {
        self.nodes@
    }
}

/// Whether slot `i` of `g` holds a node.
pub open spec fn live(g: Seq<Option<Node>>, i: int) -> bool {
    0 <= i < g.len() && g[i] is Some
}

/// The node in slot `i`.
pub open spec fn nd(g: Seq<Option<Node>>, i: int) -> Node {
    g[i]->Some_0
}

/// The parent list of the node in slot `i`.
pub open spec fn par(g: Seq<Option<Node>>, i: int) -> Seq<usize> {
    nd(g, i).parents@
}

/// The child list of the node in slot `i`.
pub open spec fn chl(g: Seq<Option<Node>>, i: int) -> Seq<usize> {
    nd(g, i).children@
}

/// The cardinality (number of values) of the node in slot `i`.
pub open spec fn card(g: Seq<Option<Node>>, i: int) -> nat {
    nd(g, i).values@.len()
}

/// The shape a credence table of the node in slot `i` must have:
/// its own cardinality, then each parent's, in parent order.
pub open spec fn expected_shape(g: Seq<Option<Node>>, i: int) -> Seq<usize> {
    Seq::new(
        par(g, i).len() + 1,
        |k: int|
            if k == 0 {
                card(g, i) as usize
            } else {
                card(g, par(g, i)[k - 1] as int) as usize
            },
    )
}

/// Parent and child links are mutually consistent, point at live nodes,
/// and hold no duplicates.
pub open spec fn edges_wf(g: Seq<Option<Node>>) -> bool {
    (forall|i: int|
        live(g, i) ==> (#[trigger] par(g, i)).no_duplicates() && chl(g, i).no_duplicates())
        && (forall|i: int, k: int|
        live(g, i) && 0 <= k < par(g, i).len() ==> live(g, #[trigger] par(g, i)[k] as int) && chl(
            g,
            par(g, i)[k] as int,
        ).contains(i as usize)) && (forall|i: int, k: int|
        live(g, i) && 0 <= k < chl(g, i).len() ==> live(g, #[trigger] chl(g, i)[k] as int) && par(
            g,
            chl(g, i)[k] as int,
        ).contains(i as usize))
}

/// A walk along parent links: at least one slot, all live, each next slot a
/// parent of the one before it.
pub open spec fn is_path(g: Seq<Option<Node>>, p: Seq<usize>) -> bool {
    p.len() >= 1 && (forall|k: int| 0 <= k < p.len() ==> live(g, #[trigger] p[k] as int)) && (
    forall|k: int| 0 <= k < p.len() - 1 ==> par(g, #[trigger] p[k] as int).contains(p[k + 1]))
}

/// No walk along parent links returns to its start: no node is its own
/// ancestor, and no node is its own parent.
pub open spec fn acyclic(g: Seq<Option<Node>>) -> bool {
    forall|p: Seq<usize>| #[trigger] is_path(g, p) && p.len() >= 2 ==> p.first() != p.last()
}

/// There is a walk along parent links from `a` to `b` (`a` itself counts).
pub open spec fn reaches(g: Seq<Option<Node>>, a: usize, b: usize) -> bool {
    exists|p: Seq<usize>| #[trigger] is_path(g, p) && p.first() == a && p.last() == b
}

/// Every stored credence table matches the shape derived from the graph
/// and holds exactly one entry per cell of that shape.
pub open spec fn shape_wf(g: Seq<Option<Node>>) -> bool {
    forall|i: int|
        live(g, i) && (#[trigger] nd(g, i).credencies) is Some ==> nd(g, i).credencies->Some_0.shape_spec()
            == expected_shape(g, i) && nd(g, i).credencies->Some_0.dense()
}

/// Every stored observation indexes into its node's values.
pub open spec fn obs_wf(g: Seq<Option<Node>>) -> bool {
    forall|i: int|
        live(g, i) && (#[trigger] nd(g, i).observation) is Some ==> (nd(g, i).observation->Some_0 as int) < card(g, i)
}

/// All invariants of the graph together.
pub open spec fn graph_wf(g: Seq<Option<Node>>) -> bool {
    edges_wf(g) && acyclic(g) && shape_wf(g) && obs_wf(g)
}

/// A node with no values, no links, no table, no text, no observation.
pub open spec fn empty_node(n: Node) -> bool {
    n.parents@.len() == 0 && n.children@.len() == 0 && n.label@.len() == 0 && n.description@.len()
        == 0 && n.values@.len() == 0 && n.credencies is None && n.cred_description@.len() == 0
        && n.observation is None
}

/// `s` with every occurrence of `v` removed, order otherwise kept.
pub open spec fn seq_remove<A>(s: Seq<A>, v: A) -> Seq<A>
    decreases s.len(),
{
    if s.len() == 0 {
        Seq::empty()
    } else {
        let pre = seq_remove(s.drop_last(), v);
        if s.last() == v {
            pre
        } else {
            pre.push(s.last())
        }
    }
}

pub proof fn lemma_seq_remove<A>(s: Seq<A>, v: A)
    ensures
        !seq_remove(s, v).contains(v),
        forall|x: A| x != v ==> (seq_remove(s, v).contains(x) <==> s.contains(x)),
        s.no_duplicates() ==> seq_remove(s, v).no_duplicates(),
        s.no_duplicates() && s.contains(v) ==> seq_remove(s, v).len() == s.len() - 1,
        !s.contains(v) ==> seq_remove(s, v) == s,
        s.no_duplicates() && s.len() > 0 && v == s[0] ==> seq_remove(s, v) == s.drop_first(),
    decreases s.len(),
{
    if s.len() == 0 {
        assert(seq_remove(s, v) =~= s);
    } else {
        let pre = s.drop_last();
        lemma_seq_remove(pre, v);
        assert forall|x: A| s.contains(x) implies pre.contains(x) || x == s.last() by {
            let k = choose|k: int| 0 <= k < s.len() && s[k] == x;
            if k < s.len() - 1 {
                assert(pre[k] == x);
            }
        }
        assert forall|x: A| pre.contains(x) implies s.contains(x) by {
            let k = choose|k: int| 0 <= k < pre.len() && pre[k] == x;
            assert(s[k] == x);
        }
        assert(s[s.len() - 1] == s.last());
        assert(s.contains(s.last()));
        assert forall|x: A| x != v implies (seq_remove(s, v).contains(x) <==> s.contains(
            x,
        )) by {
            if s.last() != v {
                let q = seq_remove(pre, v).push(s.last());
                assert(q[q.len() - 1] == s.last());
                if x == s.last() {
                    assert(q.contains(x));
                }
                if seq_remove(pre, v).contains(x) {
                    let k = choose|k: int|
                        0 <= k < seq_remove(pre, v).len() && seq_remove(pre, v)[k] == x;
                    assert(q[k] == x);
                    assert(q.contains(x));
                }
                if q.contains(x) && x != s.last() {
                    let k = choose|k: int| 0 <= k < q.len() && q[k] == x;
                    assert(seq_remove(pre, v)[k] == x);
                    assert(seq_remove(pre, v).contains(x));
                }
            }
        }
        if !s.contains(v) {
            assert(seq_remove(s, v) =~= s);
        }
        if s.no_duplicates() {
            if s.last() != v {
                let q = seq_remove(pre, v).push(s.last());
                assert(!pre.contains(s.last()));
                assert(!seq_remove(pre, v).contains(s.last()));
                assert forall|i: int, j: int|
                    0 <= i < q.len() && 0 <= j < q.len() && i != j implies q[i] != q[j] by {
                    if i < q.len() - 1 && j < q.len() - 1 {
                        assert(q[i] == seq_remove(pre, v)[i]);
                        assert(q[j] == seq_remove(pre, v)[j]);
                    } else if j == q.len() - 1 {
                        assert(seq_remove(pre, v)[i] == q[i]);
                        assert(seq_remove(pre, v).contains(q[i]));
                    } else {
                        assert(seq_remove(pre, v)[j] == q[j]);
                        assert(seq_remove(pre, v).contains(q[j]));
                    }
                }
            }
            if s.contains(v) {
                if s.last() == v {
                    assert(!pre.contains(v));
                    assert(seq_remove(pre, v) == pre);
                } else {
                    assert(pre.contains(v));
                }
            }
            if s.len() > 0 && v == s[0] {
                if s.len() == 1 {
                    assert(seq_remove(s, v) =~= s.drop_first());
                } else {
                    assert(pre[0] == s[0]);
                    assert(s.last() != v);
                    assert(seq_remove(s, v) == seq_remove(pre, v).push(s.last()));
                    assert(seq_remove(pre, v) == pre.drop_first());
                    assert(seq_remove(s, v) =~= s.drop_first());
                }
            }
        }
    }
}

/// A walk transfers from `g2` back to `g1` when all its slots are live in
/// `g1` with the same parent links.
pub proof fn lemma_path_transfer(g1: Seq<Option<Node>>, g2: Seq<Option<Node>>, p: Seq<usize>)
    requires
        is_path(g2, p),
        forall|k: int| 0 <= k < p.len() ==> live(g1, #[trigger] p[k] as int),
        forall|k: int|
            0 <= k < p.len() - 1 ==> par(g1, #[trigger] p[k] as int).contains(p[k + 1]),
    ensures
        is_path(g1, p),
{
}

/// Acyclicity carries over to a graph whose live slots are live in the old
/// graph with the same parent links (liveness and parent sets may shrink).
pub proof fn lemma_sub_edges_acyclic(g1: Seq<Option<Node>>, g2: Seq<Option<Node>>)
    requires
        acyclic(g1),
        forall|j: int| live(g2, j) ==> live(g1, j),
        forall|j: int, x: usize|
            live(g2, j) && #[trigger] par(g2, j).contains(x) ==> par(g1, j).contains(x),
    ensures
        acyclic(g2),
{
    assert forall|p: Seq<usize>| #[trigger] is_path(g2, p) && p.len() >= 2 implies p.first()
        != p.last() by {
        assert forall|k: int| 0 <= k < p.len() - 1 implies par(
            g1,
            #[trigger] p[k] as int,
        ).contains(p[k + 1]) by {
            assert(par(g2, p[k] as int).contains(p[k + 1]));
        }
        lemma_path_transfer(g1, g2, p);
    }
}

impl Dag {
    /// All invariants hold; every public operation preserves this.
    pub open spec fn wf(&self) -> bool {
        graph_wf(self@)
    }

    /// A graph with no nodes.
    pub fn new() -> (r: Dag)
        ensures
            r.wf(),
            r@.len() == 0,
    {
        let d = Dag { nodes: Vec::new() };
        proof {
            assert forall|p: Seq<usize>| #[trigger] is_path(d@, p) && p.len() >= 2 implies p.first()
                != p.last() by {
                assert(!live(d@, p[0] as int));
            }
        }
        d
    }

    /// The iteration budget handed to the solver: twice the slot count,
    /// freed slots included.
    pub fn estimate_iteration_number(&self) -> (r: usize)
        requires
            2 * self@.len() <= usize::MAX,
        ensures
            r == 2 * self@.len(),
    {
        2 * self.nodes.len()
    }

    /// The number of slots, freed ones included.
    pub(crate) fn n_slots(&self) -> (r: usize)
        ensures
            r == self@.len(),
    {
        self.nodes.len()
    }

    /// The node in slot `id`, if that slot holds one.
    pub fn get(&self, id: usize) -> (r: Option<&Node>)
        ensures
            match r {
                Some(n) => live(self@, id as int) && *n == nd(self@, id as int),
                None => !live(self@, id as int),
            },
    {
        if id < self.nodes.len() {
            self.nodes[id].as_ref()
        } else {
            None
        }
    }

    /// Creates an empty node in the first free slot (or a new slot at the
    /// end) and returns its identifier.
    pub fn insert_node(&mut self) -> (id: usize)
        requires
            old(self).wf(),
        ensures
            final(self).wf(),
            live(final(self)@, id as int),
            !live(old(self)@, id as int),
            empty_node(nd(final(self)@, id as int)),
            id as int <= old(self)@.len(),
            final(self)@.len() == if (id as int) < old(self)@.len() {
                old(self)@.len()
            } else {
                old(self)@.len() + 1
            },
            forall|j: int| 0 <= j < old(self)@.len() && j != id ==> final(self)@[j] == old(
                self,
            )@[j],
            forall|j: int| 0 <= j < id ==> live(old(self)@, j),
    {
        let ghost g1 = self@;
        let n = self.nodes.len();
        let mut id: usize = 0;
        while id < n && self.nodes[id].is_some()
            invariant
                n == self@.len(),
                id <= n,
                self@ == g1,
                forall|j: int| 0 <= j < id ==> live(self@, j),
            decreases n - id,
        {
            id = id + 1;
        }
        let fresh = Node {
            parents: Vec::new(),
            children: Vec::new(),
            label: String::new(),
            description: String::new(),
            values: Vec::new(),
            credencies: None,
            cred_description: Vec::new(),
            observation: None,
        };
        if id < n {
            self.nodes.set(id, Some(fresh));
        } else {
            self.nodes.push(Some(fresh));
        }
        proof {
            lemma_fresh_node_wf(g1, self@, id as int);
        }
        id
    }

    /// Sets the display label of a node; no effect when the slot is free.
    pub fn set_label(&mut self, node: usize, label: String)
        requires
            old(self).wf(),
        ensures
            final(self).wf(),
            final(self)@.len() == old(self)@.len(),
            forall|j: int| 0 <= j < old(self)@.len() && j != node ==> final(self)@[j] == old(
                self,
            )@[j],
            !live(old(self)@, node as int) ==> final(self)@ == old(self)@,
            live(old(self)@, node as int) ==> live(final(self)@, node as int) && nd(
                final(self)@,
                node as int,
            ) == (Node { label: label, ..nd(old(self)@, node as int) }),
    {
        let ghost g1 = self@;
        if node < self.nodes.len() {
            let mut slot: Option<Node> = None;
            self.nodes.set_and_swap(node, &mut slot);
            match slot {
                Some(mut n) => {
                    n.label = label;
                    self.nodes.set(node, Some(n));
                },
                None => {
                    self.nodes.set(node, None);
                    assert(self@ =~= g1);
                },
            }
        }
        proof {
            if live(g1, node as int) {
                assert(nd(self@, node as int).credencies == nd(g1, node as int).credencies);
                lemma_local_fields_wf(g1, self@, node as int);
            }
        }
    }

    /// Sets the description of a node; no effect when the slot is free.
    pub fn set_description(&mut self, node: usize, description: String)
        requires
            old(self).wf(),
        ensures
            final(self).wf(),
            final(self)@.len() == old(self)@.len(),
            forall|j: int| 0 <= j < old(self)@.len() && j != node ==> final(self)@[j] == old(
                self,
            )@[j],
            !live(old(self)@, node as int) ==> final(self)@ == old(self)@,
            live(old(self)@, node as int) ==> live(final(self)@, node as int) && nd(
                final(self)@,
                node as int,
            ) == (Node { description: description, ..nd(old(self)@, node as int) }),
    {
        let ghost g1 = self@;
        if node < self.nodes.len() {
            let mut slot: Option<Node> = None;
            self.nodes.set_and_swap(node, &mut slot);
            match slot {
                Some(mut n) => {
                    n.description = description;
                    self.nodes.set(node, Some(n));
                },
                None => {
                    self.nodes.set(node, None);
                    assert(self@ =~= g1);
                },
            }
        }
        proof {
            if live(g1, node as int) {
                assert(nd(self@, node as int).credencies == nd(g1, node as int).credencies);
                lemma_local_fields_wf(g1, self@, node as int);
            }
        }
    }

    /// Fixes or clears the observed outcome of a node. An index that does
    /// not point into the node's values is refused (the graph is left
    /// unchanged), so that stored observations always stay valid.
    pub fn set_observation(&mut self, node: usize, observation: Option<usize>)
        requires
            old(self).wf(),
        ensures
            final(self).wf(),
            final(self)@.len() == old(self)@.len(),
            forall|j: int| 0 <= j < old(self)@.len() && j != node ==> final(self)@[j] == old(
                self,
            )@[j],
            !live(old(self)@, node as int) ==> final(self)@ == old(self)@,
            live(old(self)@, node as int) ==> {
                let ok = match observation {
                    Some(o) => (o as int) < card(old(self)@, node as int),
                    None => true,
                };
                live(final(self)@, node as int) && nd(final(self)@, node as int) == (
                if ok {
                    Node { observation: observation, ..nd(old(self)@, node as int) }
                } else {
                    nd(old(self)@, node as int)
                })
            },
    {
        let ghost g1 = self@;
        if node < self.nodes.len() {
            let mut slot: Option<Node> = None;
            self.nodes.set_and_swap(node, &mut slot);
            match slot {
                Some(mut n) => {
                    let ok = match observation {
                        Some(o) => o < n.values.len(),
                        None => true,
                    };
                    if ok {
                        n.observation = observation;
                    }
                    self.nodes.set(node, Some(n));
                    assert(!ok ==> self@ =~= g1);
                },
                None => {
                    self.nodes.set(node, None);
                    assert(self@ =~= g1);
                },
            }
        }
        proof {
            if live(g1, node as int) {
                assert(nd(self@, node as int).credencies == nd(g1, node as int).credencies);
                lemma_local_fields_wf(g1, self@, node as int);
            }
        }
    }
}

/// Adding a fresh, empty node (in a freed slot or a new slot at the end)
/// preserves all link invariants and acyclicity.
proof fn lemma_fresh_node_wf(g1: Seq<Option<Node>>, g2: Seq<Option<Node>>, id: int)
    requires
        graph_wf(g1),
        0 <= id < g2.len(),
        !live(g1, id),
        live(g2, id),
        empty_node(nd(g2, id)),
        g1.len() <= g2.len() <= g1.len() + 1,
        forall|j: int| 0 <= j < g1.len() && j != id ==> g2[j] == g1[j],
        g2.len() == g1.len() + 1 ==> id == g1.len(),
    ensures
        graph_wf(g2),
{
    assert(forall|j: int| live(g1, j) ==> j != id && live(g2, j) && g1[j] == g2[j]);
    assert(forall|j: int| live(g2, j) && j != id ==> live(g1, j) && g1[j] == g2[j]);
    // links stay well formed
    assert forall|i: int| live(g2, i) && i != id implies 0 <= i < g1.len() && live(g1, i) && g2[i]
        == g1[i] by {
        if i >= g1.len() {
            assert(i == id);
        }
    }
    assert forall|i: int, k: int| live(g2, i) && 0 <= k < par(g2, i).len() implies live(
        g2,
        #[trigger] par(g2, i)[k] as int,
    ) && chl(g2, par(g2, i)[k] as int).contains(i as usize) by {
        assert(i != id);
        assert(live(g1, par(g1, i)[k] as int));
    }
    assert forall|i: int, k: int| live(g2, i) && 0 <= k < chl(g2, i).len() implies live(
        g2,
        #[trigger] chl(g2, i)[k] as int,
    ) && par(g2, chl(g2, i)[k] as int).contains(i as usize) by {
        assert(i != id);
        assert(live(g1, chl(g1, i)[k] as int));
    }
    assert forall|i: int| live(g2, i) implies (#[trigger] par(g2, i)).no_duplicates() && chl(
        g2,
        i,
    ).no_duplicates() by {
        if i != id {
            assert(par(g2, i) == par(g1, i));
            assert(chl(g2, i) == chl(g1, i));
            assert(par(g1, i).no_duplicates());
            assert(chl(g1, i).no_duplicates());
        } else {
            assert(par(g2, i).len() == 0);
            assert(chl(g2, i).len() == 0);
        }
    }
    // acyclicity: no walk can touch the fresh node, so walks are old walks
    assert forall|p: Seq<usize>| #[trigger] is_path(g2, p) && p.len() >= 2 implies p.first()
        != p.last() by {
        assert forall|k: int| 0 <= k < p.len() - 1 implies p[k] != id by {
            if p[k] == id {
                assert(par(g2, p[k] as int).contains(p[k + 1]));
            }
        }
        assert(p[p.len() - 1] != id) by {
            if p[p.len() - 1] == id {
                let k = p.len() - 2;
                assert(par(g2, p[k] as int).contains(p[k + 1]));
                assert(p[k] != id);
                let pk = p[k] as int;
                assert(live(g1, pk) && par(g1, pk).contains(id as usize));
                let m = choose|m: int| 0 <= m < par(g1, pk).len() && par(g1, pk)[m] == id as usize;
                assert(live(g1, par(g1, pk)[m] as int));
            }
        }
        assert forall|k: int| 0 <= k < p.len() implies live(g1, #[trigger] p[k] as int) by {
            assert(p[k] != id);
            assert(live(g2, p[k] as int));
        }
        assert forall|k: int| 0 <= k < p.len() - 1 implies par(
            g1,
            #[trigger] p[k] as int,
        ).contains(p[k + 1]) by {
            assert(par(g2, p[k] as int).contains(p[k + 1]));
        }
        lemma_path_transfer(g1, g2, p);
    }
    // shapes and observations: untouched nodes, and the fresh one is bare
    assert forall|i: int|
        live(g2, i) && (#[trigger] nd(g2, i).credencies) is Some implies nd(g2, i).credencies->Some_0.shape_spec()
        == expected_shape(g2, i) && nd(g2, i).credencies->Some_0.dense() by {
        if i == id {
            assert(nd(g2, i).credencies is None);
        }
        assert(i != id);
        assert(nd(g2, i) == nd(g1, i));
        assert forall|k: int| 0 <= k < par(g1, i).len() implies live(
            g1,
            #[trigger] par(g1, i)[k] as int,
        ) by {}
        assert(expected_shape(g2, i) =~= expected_shape(g1, i));
    }
    assert forall|i: int|
        live(g2, i) && (#[trigger] nd(g2, i).observation) is Some implies (nd(g2, i).observation->Some_0 as int) < card(
        g2,
        i,
    ) by {
        if i == id {
            assert(nd(g2, i).observation is None);
        }
        assert(i != id);
        assert(nd(g2, i) == nd(g1, i));
    }
}

/// Changing only fields of one node that carry no links and no shape
/// obligations (label, description, a checked observation) preserves all
/// invariants.
proof fn lemma_local_fields_wf(g1: Seq<Option<Node>>, g2: Seq<Option<Node>>, id: int)
    requires
        graph_wf(g1),
        g1.len() == g2.len(),
        live(g1, id),
        live(g2, id),
        forall|j: int| 0 <= j < g1.len() && j != id ==> g2[j] == g1[j],
        nd(g2, id).parents == nd(g1, id).parents,
        nd(g2, id).children == nd(g1, id).children,
        nd(g2, id).values == nd(g1, id).values,
        (nd(g2, id).credencies matches Some(t) ==> t.shape_spec() == expected_shape(g1, id)
            && t.dense()),
        (nd(g2, id).observation matches Some(o) ==> (o as int) < card(g1, id)),
    ensures
        graph_wf(g2),
{
    assert(forall|j: int| live(g2, j) <==> live(g1, j));
    assert(forall|j: int| live(g2, j) ==> par(g2, j) == par(g1, j) && chl(g2, j) == chl(g1, j));
    assert forall|i: int, k: int| live(g2, i) && 0 <= k < par(g2, i).len() implies live(
        g2,
        #[trigger] par(g2, i)[k] as int,
    ) && chl(g2, par(g2, i)[k] as int).contains(i as usize) by {
        assert(live(g1, par(g1, i)[k] as int));
    }
    assert forall|i: int, k: int| live(g2, i) && 0 <= k < chl(g2, i).len() implies live(
        g2,
        #[trigger] chl(g2, i)[k] as int,
    ) && par(g2, chl(g2, i)[k] as int).contains(i as usize) by {
        assert(live(g1, chl(g1, i)[k] as int));
    }
    lemma_sub_edges_acyclic(g1, g2);
    assert forall|i: int|
        live(g2, i) && (#[trigger] nd(g2, i).credencies) is Some implies nd(g2, i).credencies->Some_0.shape_spec()
        == expected_shape(g2, i) && nd(g2, i).credencies->Some_0.dense() by {
        if i != id {
            assert(nd(g2, i).credencies == nd(g1, i).credencies);
        }
        assert(card(g2, i) == card(g1, i));
        assert(expected_shape(g2, i) =~= expected_shape(g1, i));
    }
}


/// Whether `v` holds `x`.
pub(crate) fn contains_usize(v: &Vec<usize>, x: usize) -> (r: bool)
    ensures
        r == v@.contains(x),
{
    let mut i: usize = 0;
    while i < v.len()
        invariant
            i <= v@.len(),
            forall|k: int| 0 <= k < i ==> v@[k] != x,
        decreases v@.len() - i,
    {
        if v[i] == x {
            return true;
        }
        i = i + 1;
    }
    false
}

/// An element-wise copy.
pub(crate) fn copy_usizes(v: &Vec<usize>) -> (r: Vec<usize>)
    ensures
        r@ == v@,
{
    let mut out: Vec<usize> = Vec::new();
    let mut i: usize = 0;
    while i < v.len()
        invariant
            i <= v@.len(),
            out@ =~= v@.subrange(0, i as int),
        decreases v@.len() - i,
    {
        out.push(v[i]);
        i = i + 1;
    }
    proof {
        assert(out@ =~= v@);
    }
    out
}

/// An element-wise copy.
pub(crate) fn copy_strings(v: &Vec<String>) -> (r: Vec<String>)
    ensures
        r@ == v@,
{
    let mut out: Vec<String> = Vec::new();
    let mut i: usize = 0;
    while i < v.len()
        invariant
            i <= v@.len(),
            out@ =~= v@.subrange(0, i as int),
        decreases v@.len() - i,
    {
        out.push(v[i].clone());
        i = i + 1;
    }
    proof {
        assert(out@ =~= v@);
    }
    out
}

/// Appending a fresh element keeps a list duplicate-free.
pub proof fn lemma_push_no_dup<A>(s: Seq<A>, x: A)
    requires
        s.no_duplicates(),
        !s.contains(x),
    ensures
        s.push(x).no_duplicates(),
{
    let q = s.push(x);
    assert forall|i: int, j: int|
        0 <= i < q.len() && 0 <= j < q.len() && i != j implies q[i] != q[j] by {
        if i < q.len() - 1 && j < q.len() - 1 {
            assert(q[i] == s[i]);
            assert(q[j] == s[j]);
        } else if j == q.len() - 1 {
            assert(q[i] == s[i]);
            assert(s.contains(q[i]));
        } else {
            assert(q[j] == s[j]);
            assert(s.contains(q[j]));
        }
    }
}

/// What an appended list holds: the old elements and the new one.
pub proof fn lemma_push_contains<A>(s: Seq<A>, x: A)
    ensures
        forall|y: A| #[trigger] s.push(x).contains(y) <==> s.contains(y) || y == x,
{
    let q = s.push(x);
    assert forall|y: A| #[trigger] q.contains(y) implies s.contains(y) || y == x by {
        let k = choose|k: int| 0 <= k < q.len() && q[k] == y;
        if k < q.len() - 1 {
            assert(s[k] == y);
        }
    }
    assert forall|y: A| s.contains(y) || y == x implies #[trigger] q.contains(y) by {
        if s.contains(y) {
            let k = choose|k: int| 0 <= k < s.len() && s[k] == y;
            assert(q[k] == y);
        } else {
            assert(q[q.len() - 1] == y);
        }
    }
}

/// A duplicate-free list of slot indices below `n` has at most `n` entries.
pub proof fn lemma_unique_bounded_len(s: Seq<usize>, n: int)
    requires
        s.no_duplicates(),
        0 <= n,
        forall|k: int| 0 <= k < s.len() ==> (s[k] as int) < n,
    ensures
        s.len() <= n,
{
    let t = s.map_values(|x: usize| x as int);
    assert forall|i: int, j: int|
        0 <= i < t.len() && 0 <= j < t.len() && i != j implies t[i] != t[j] by {
        assert(t[i] == s[i] as int);
        assert(t[j] == s[j] as int);
    }
    t.unique_seq_to_set();
    assert forall|x: int| t.to_set().contains(x) implies vstd::set_lib::set_int_range(
        0,
        n,
    ).contains(x) by {
        let k = choose|k: int| 0 <= k < t.len() && t[k] == x;
        assert((s[k] as int) < n);
    }
    vstd::set_lib::lemma_int_range(0, n);
    vstd::set_lib::lemma_len_subset(t.to_set(), vstd::set_lib::set_int_range(0, n));
}

/// Every live slot can reach itself.
pub proof fn lemma_reaches_self(g: Seq<Option<Node>>, a: usize)
    requires
        live(g, a as int),
    ensures
        reaches(g, a, a),
{
    let p = seq![a];
    assert(p[0] == a);
    assert(is_path(g, p));
    assert(p.first() == a && p.last() == a);
}

/// A walk extends by one parent step.
pub proof fn lemma_reaches_step(g: Seq<Option<Node>>, a: usize, b: usize, c: usize)
    requires
        edges_wf(g),
        reaches(g, a, b),
        par(g, b as int).contains(c),
    ensures
        reaches(g, a, c),
{
    let p = choose|p: Seq<usize>| #[trigger] is_path(g, p) && p.first() == a && p.last() == b;
    let q = p.push(c);
    let m = choose|m: int| 0 <= m < par(g, b as int).len() && par(g, b as int)[m] == c;
    assert(live(g, par(g, b as int)[m] as int));
    assert forall|k: int| 0 <= k < q.len() implies live(g, #[trigger] q[k] as int) by {
        if k < q.len() - 1 {
            assert(q[k] == p[k]);
        } else {
            assert(q[k] == c);
        }
    }
    assert forall|k: int| 0 <= k < q.len() - 1 implies par(g, #[trigger] q[k] as int).contains(
        q[k + 1],
    ) by {
        if k < q.len() - 2 {
            assert(q[k] == p[k] && q[k + 1] == p[k + 1]);
            assert(par(g, p[k] as int).contains(p[k + 1]));
        } else {
            assert(q[k] == p[p.len() - 1] && q[k + 1] == c);
        }
    }
    assert(is_path(g, q) && q.first() == a && q.last() == c);
}

/// Dropping the first slot of a walk leaves a walk.
pub proof fn lemma_path_drop_first(g: Seq<Option<Node>>, p: Seq<usize>)
    requires
        is_path(g, p),
        p.len() >= 2,
    ensures
        is_path(g, p.drop_first()),
{
    let q = p.drop_first();
    assert forall|k: int| 0 <= k < q.len() implies live(g, #[trigger] q[k] as int) by {
        assert(q[k] == p[k + 1]);
    }
    assert forall|k: int| 0 <= k < q.len() - 1 implies par(g, #[trigger] q[k] as int).contains(
        q[k + 1],
    ) by {
        assert(q[k] == p[k + 1] && q[k + 1] == p[k + 2]);
        assert(par(g, p[k + 1] as int).contains(p[k + 2]));
    }
}

/// A set that holds the start of a walk and is closed under parent steps
/// holds every slot of the walk.
pub proof fn lemma_closed_set_blocks(g: Seq<Option<Node>>, s: Seq<usize>, p: Seq<usize>)
    requires
        is_path(g, p),
        s.contains(p.first()),
        forall|k: int, m: int|
            0 <= k < s.len() && 0 <= m < par(g, s[k] as int).len() ==> s.contains(
                #[trigger] par(g, s[k] as int)[m],
            ),
    ensures
        forall|k: int| 0 <= k < p.len() ==> s.contains(#[trigger] p[k]),
    decreases p.len(),
{
    if p.len() >= 2 {
        let k0 = choose|k0: int| 0 <= k0 < s.len() && s[k0] == p.first();
        assert(par(g, p[0] as int).contains(p[1]));
        let m = choose|m: int|
            0 <= m < par(g, s[k0] as int).len() && par(g, s[k0] as int)[m] == p[1];
        assert(s.contains(par(g, s[k0] as int)[m]));
        lemma_path_drop_first(g, p);
        let rest = p.drop_first();
        assert(rest.first() == p[1]);
        lemma_closed_set_blocks(g, s, rest);
        assert forall|k: int| 0 <= k < p.len() implies s.contains(#[trigger] p[k]) by {
            if k >= 1 {
                assert(rest[k - 1] == p[k]);
                assert(s.contains(rest[k - 1]));
            }
        }
    }
}

/// A slot that stands in nobody's parent list cannot be walked to from
/// anywhere else.
pub proof fn lemma_no_inbound_unreachable(g: Seq<Option<Node>>, a: usize, x: usize)
    requires
        a != x,
        forall|j: int| live(g, j) ==> !par(g, j).contains(x),
    ensures
        !reaches(g, a, x),
{
    if reaches(g, a, x) {
        let p = choose|p: Seq<usize>| #[trigger] is_path(g, p) && p.first() == a && p.last() == x;
        assert(p.len() >= 2);
        let k = p.len() - 2;
        assert(par(g, p[k] as int).contains(p[k + 1]));
        assert(live(g, p[k] as int));
    }
}

/// A walk from `a` to `b` together with an edge `a -> b` (that is, `a`
/// standing in `b`'s parents) would close a cycle, so in a well-formed
/// graph an edge's head cannot reach its tail.
pub proof fn lemma_edge_back_cycle(g: Seq<Option<Node>>, a: usize, b: usize)
    requires
        edges_wf(g),
        acyclic(g),
        par(g, b as int).contains(a),
    ensures
        !reaches(g, a, b),
{
    if !reaches(g, a, b) {
        return;
    }
    let p = choose|p: Seq<usize>| #[trigger] is_path(g, p) && p.first() == a && p.last() == b;
    let q = p.push(a);
    let m = choose|m: int| 0 <= m < par(g, b as int).len() && par(g, b as int)[m] == a;
    assert(live(g, par(g, b as int)[m] as int));
    assert forall|k: int| 0 <= k < q.len() implies live(g, #[trigger] q[k] as int) by {
        if k < q.len() - 1 {
            assert(q[k] == p[k]);
        } else {
            assert(q[k] == a);
        }
    }
    assert forall|k: int| 0 <= k < q.len() - 1 implies par(g, #[trigger] q[k] as int).contains(
        q[k + 1],
    ) by {
        if k < q.len() - 2 {
            assert(q[k] == p[k] && q[k + 1] == p[k + 1]);
            assert(par(g, p[k] as int).contains(p[k + 1]));
        } else {
            assert(q[k] == p[p.len() - 1] && q[k + 1] == a);
        }
    }
    assert(is_path(g, q));
    assert(q.len() >= 2 && q.first() == a && q.last() == a);
    assert(q.first() != q.last());
}

/// The exact outcome of asking whether the edge `parent -> child` can be
/// added to `g`.
pub open spec fn check_edge_spec(
    g: Seq<Option<Node>>,
    child: usize,
    parent: usize,
    r: Result<(), EdgeError>,
) -> bool {
    match r {
        Ok(()) => live(g, child as int) && live(g, parent as int) && !reaches(g, parent, child)
            && !par(g, child as int).contains(parent),
        Err(EdgeError::BadNode) => !live(g, child as int) || !live(g, parent as int),
        Err(EdgeError::WouldCycle) => live(g, child as int) && live(g, parent as int) && reaches(
            g,
            parent,
            child,
        ),
        Err(EdgeError::AlreadyExisting) => live(g, child as int) && live(g, parent as int)
            && !reaches(g, parent, child) && par(g, child as int).contains(parent),
    }
}

impl Dag {
    /// Asks, without mutating anything, whether the edge making `parent` a
    /// parent of `child` may be added: both ends must exist, the edge must
    /// be new, and `child` must not be an ancestor of `parent` (nor equal
    /// to it), which the answer decides exactly.
    pub fn check_edge_addition(&self, child: usize, parent: usize) -> (r: Result<(), EdgeError>)
        requires
            self.wf(),
        ensures
            check_edge_spec(self@, child, parent, r),
    {
        let ghost g = self@;
        if child >= self.nodes.len() || parent >= self.nodes.len() {
            return Err(EdgeError::BadNode);
        }
        if self.nodes[child].is_none() || self.nodes[parent].is_none() {
            return Err(EdgeError::BadNode);
        }
        if parent == child {
            proof {
                lemma_reaches_self(g, parent);
            }
            return Err(EdgeError::WouldCycle);
        }
        let pnode = self.nodes[parent].as_ref().unwrap();
        if contains_usize(&pnode.children, child) {
            proof {
                let k = choose|k: int|
                    0 <= k < chl(g, parent as int).len() && chl(g, parent as int)[k] == child;
                assert(par(g, child as int).contains(parent));
                lemma_edge_back_cycle(g, parent, child);
            }
            return Err(EdgeError::AlreadyExisting);
        }
        let mut ancestors = copy_usizes(&pnode.parents);
        let mut visited: Vec<usize> = Vec::new();
        visited.push(parent);
        proof {
            lemma_reaches_self(g, parent);
            assert(visited@[0] == parent);
            assert(visited@.contains(parent));
            assert forall|x: usize| visited@.contains(x) implies x == parent by {
                let k = choose|k: int| 0 <= k < visited@.len() && visited@[k] == x;
            }
            assert forall|k: int| 0 <= k < ancestors@.len() implies live(
                g,
                #[trigger] ancestors@[k] as int,
            ) && reaches(g, parent, ancestors@[k]) by {
                assert(ancestors@[k] == par(g, parent as int)[k]);
                lemma_reaches_step(g, parent, parent, ancestors@[k]);
            }
        }
        loop
            invariant
                self@ == g,
                graph_wf(g),
                live(g, parent as int),
                live(g, child as int),
                parent != child,
                visited@.no_duplicates(),
                visited@.contains(parent),
                !visited@.contains(child),
                visited@.len() <= g.len(),
                forall|k: int|
                    0 <= k < visited@.len() ==> live(g, #[trigger] visited@[k] as int) && reaches(
                        g,
                        parent,
                        visited@[k],
                    ),
                forall|k: int|
                    0 <= k < ancestors@.len() ==> live(g, #[trigger] ancestors@[k] as int)
                        && reaches(g, parent, ancestors@[k]),
                forall|k: int, m: int|
                    0 <= k < visited@.len() && 0 <= m < par(g, visited@[k] as int).len()
                        ==> visited@.contains(#[trigger] par(g, visited@[k] as int)[m])
                        || ancestors@.contains(par(g, visited@[k] as int)[m]),
            ensures
                ancestors@.len() == 0,
                visited@.contains(parent),
                !visited@.contains(child),
                forall|k: int, m: int|
                    0 <= k < visited@.len() && 0 <= m < par(g, visited@[k] as int).len()
                        ==> visited@.contains(#[trigger] par(g, visited@[k] as int)[m]),
            decreases g.len() - visited@.len(), ancestors@.len(),
        {
            if ancestors.len() == 0 {
                break;
            }
            let ghost anc0 = ancestors@;
            let id = ancestors.pop().unwrap();
            proof {
                assert(id == anc0[anc0.len() - 1]);
                assert(live(g, anc0[anc0.len() - 1] as int));
                assert(reaches(g, parent, anc0[anc0.len() - 1]));
            }
            if id == child {
                return Err(EdgeError::WouldCycle);
            }
            if contains_usize(&visited, id) {
                proof {
                    assert forall|k: int, m: int|
                        0 <= k < visited@.len() && 0 <= m < par(g, visited@[k] as int).len()
                            implies visited@.contains(#[trigger] par(g, visited@[k] as int)[m])
                        || ancestors@.contains(par(g, visited@[k] as int)[m]) by {
                        let x = par(g, visited@[k] as int)[m];
                        if !visited@.contains(x) {
                            assert(anc0.contains(x));
                            let j = choose|j: int| 0 <= j < anc0.len() && anc0[j] == x;
                            if j < anc0.len() - 1 {
                                assert(ancestors@[j] == x);
                            } else {
                                assert(x == id);
                            }
                        }
                    }
                }
                continue;
            }
            let ghost vis0 = visited@;
            visited.push(id);
            proof {
                lemma_push_no_dup(vis0, id);
                lemma_push_contains(vis0, id);
                assert(visited@.contains(parent));
                lemma_unique_bounded_len(visited@, g.len() as int);
            }
            let ghost anc1 = ancestors@;
            let idnode = self.nodes[id].as_ref().unwrap();
            let mut q: usize = 0;
            while q < idnode.parents.len()
                invariant
                    q <= idnode.parents@.len(),
                    idnode.parents@ == par(g, id as int),
                    ancestors@ =~= anc1 + par(g, id as int).subrange(0, q as int),
                decreases idnode.parents@.len() - q,
            {
                ancestors.push(idnode.parents[q]);
                q = q + 1;
            }
            proof {
                assert(ancestors@ =~= anc1 + par(g, id as int));
                assert forall|k: int| 0 <= k < ancestors@.len() implies live(
                    g,
                    #[trigger] ancestors@[k] as int,
                ) && reaches(g, parent, ancestors@[k]) by {
                    if k < anc1.len() {
                        assert(ancestors@[k] == anc1[k]);
                        assert(anc1[k] == anc0[k]);
                    } else {
                        assert(ancestors@[k] == par(g, id as int)[k - anc1.len()]);
                        assert(live(g, id as int));
                        lemma_reaches_step(g, parent, id, ancestors@[k]);
                    }
                }
                assert forall|k: int, m: int|
                    0 <= k < visited@.len() && 0 <= m < par(g, visited@[k] as int).len()
                        implies visited@.contains(#[trigger] par(g, visited@[k] as int)[m])
                    || ancestors@.contains(par(g, visited@[k] as int)[m]) by {
                    let x = par(g, visited@[k] as int)[m];
                    if k < vis0.len() {
                        assert(visited@[k] == vis0[k]);
                        if !vis0.contains(x) {
                            assert(anc0.contains(x));
                            let j = choose|j: int| 0 <= j < anc0.len() && anc0[j] == x;
                            if j < anc0.len() - 1 {
                                assert(ancestors@[j] == anc1[j]);
                                assert(ancestors@.contains(x));
                            } else {
                                assert(x == id);
                                assert(visited@.contains(x));
                            }
                        } else {
                            let j = choose|j: int| 0 <= j < vis0.len() && vis0[j] == x;
                            assert(visited@[j] == x);
                        }
                    } else {
                        assert(visited@[k] == id);
                        assert(ancestors@[anc1.len() + m] == par(g, id as int)[m]);
                        assert(ancestors@.contains(x));
                    }
                }
            }
        }
        proof {
            if reaches(g, parent, child) {
                let p = choose|p: Seq<usize>|
                    #[trigger] is_path(g, p) && p.first() == parent && p.last() == child;
                lemma_closed_set_blocks(g, visited@, p);
                assert(visited@.contains(p[p.len() - 1]));
            }
            if par(g, child as int).contains(parent) {
                let k = choose|k: int|
                    0 <= k < par(g, child as int).len() && par(g, child as int)[k] == parent;
                assert(chl(g, parent as int).contains(child));
            }
        }
        Ok(())
    }
}


/// What the successful addition of the edge `parent -> child` does to the
/// graph: `parent` is appended to `child`'s parents, `child` to `parent`'s
/// children, `child`'s table and row annotations are cleared (their shape
/// is now stale), and nothing else moves.
pub open spec fn edge_added(
    g1: Seq<Option<Node>>,
    g2: Seq<Option<Node>>,
    child: usize,
    parent: usize,
) -> bool {
    g1.len() == g2.len() && live(g1, child as int) && live(g1, parent as int) && child != parent
        && live(g2, child as int) && live(g2, parent as int) && (forall|j: int|
        0 <= j < g1.len() && j != child && j != parent ==> g2[j] == g1[j]) && par(g2, child as int)
        == par(g1, child as int).push(parent) && nd(g2, child as int).children == nd(
        g1,
        child as int,
    ).children && nd(g2, child as int).values == nd(g1, child as int).values && nd(
        g2,
        child as int,
    ).label == nd(g1, child as int).label && nd(g2, child as int).description == nd(
        g1,
        child as int,
    ).description && nd(g2, child as int).credencies is None && nd(
        g2,
        child as int,
    ).cred_description@.len() == 0 && nd(g2, child as int).observation == nd(
        g1,
        child as int,
    ).observation && chl(g2, parent as int) == chl(g1, parent as int).push(child) && nd(
        g2,
        parent as int,
    ).parents == nd(g1, parent as int).parents && nd(g2, parent as int).values == nd(
        g1,
        parent as int,
    ).values && nd(g2, parent as int).label == nd(g1, parent as int).label && nd(
        g2,
        parent as int,
    ).description == nd(g1, parent as int).description && nd(g2, parent as int).credencies == nd(
        g1,
        parent as int,
    ).credencies && nd(g2, parent as int).cred_description == nd(g1, parent as int).cred_description
        && nd(g2, parent as int).observation == nd(g1, parent as int).observation
}

/// Rotating a closed walk (one that ends where it starts) around any of
/// its slots yields a closed walk of the same length through that slot.
pub proof fn lemma_cycle_rotate(g: Seq<Option<Node>>, p: Seq<usize>, m: int)
    requires
        is_path(g, p),
        p.len() >= 2,
        p.first() == p.last(),
        0 <= m < p.len(),
    ensures
        ({
            let q = p.subrange(m, p.len() as int) + p.subrange(1, m + 1);
            is_path(g, q) && q.len() == p.len() && q.first() == p[m] && q.last() == p[m]
        }),
{
    let n = p.len() as int;
    let q = p.subrange(m, n) + p.subrange(1, m + 1);
    assert(q.len() == n);
    assert forall|k: int| 0 <= k < q.len() implies live(g, #[trigger] q[k] as int) by {
        if k < n - m {
            assert(q[k] == p[m + k]);
        } else {
            assert(q[k] == p[k - (n - m) + 1]);
        }
    }
    assert forall|k: int| 0 <= k < q.len() - 1 implies par(g, #[trigger] q[k] as int).contains(
        q[k + 1],
    ) by {
        if k < n - m - 1 {
            assert(q[k] == p[m + k] && q[k + 1] == p[m + k + 1]);
            assert(par(g, p[m + k] as int).contains(p[m + k + 1]));
        } else if k == n - m - 1 {
            assert(q[k] == p[n - 1]);
            assert(p[n - 1] == p[0]);
            assert(q[k + 1] == p[1]);
            assert(par(g, p[0] as int).contains(p[1]));
        } else {
            let k2 = k - (n - m) + 1;
            assert(q[k] == p[k2] && q[k + 1] == p[k2 + 1]);
            assert(par(g, p[k2] as int).contains(p[k2 + 1]));
        }
    }
    if m == 0 {
        assert(q.first() == p[m]);
        assert(q.last() == p[n - 1]);
        assert(p[n - 1] == p[0]);
    } else {
        assert(q.first() == p[m]);
        assert(q.last() == p[(n - 1) - (n - m) + 1]);
    }
}

/// In a graph that differs from an acyclic `g1` only by the parent entry
/// `parent` appended at `child`, a closed walk through `child` forces the
/// old graph to walk from `parent` to `child`.
pub proof fn lemma_new_cycle_forces_reach(
    g1: Seq<Option<Node>>,
    g2: Seq<Option<Node>>,
    child: usize,
    parent: usize,
    p: Seq<usize>,
)
    requires
        acyclic(g1),
        forall|j: int| live(g2, j) ==> live(g1, j),
        forall|j: int| live(g2, j) && j != child ==> par(g2, j) == par(g1, j),
        live(g2, child as int),
        par(g2, child as int) == par(g1, child as int).push(parent),
        is_path(g2, p),
        p.first() == child,
        p.last() == child,
        p.len() >= 2,
    ensures
        reaches(g1, parent, child),
    decreases p.len(),
{
    let n = p.len() as int;
    lemma_push_contains(par(g1, child as int), parent);
    if exists|m: int| 1 <= m < n - 1 && p[m] == child {
        let m = choose|m: int| 1 <= m < n - 1 && p[m] == child;
        let q = p.subrange(m, n);
        assert forall|k: int| 0 <= k < q.len() implies live(g2, #[trigger] q[k] as int) by {
            assert(q[k] == p[m + k]);
        }
        assert forall|k: int| 0 <= k < q.len() - 1 implies par(
            g2,
            #[trigger] q[k] as int,
        ).contains(q[k + 1]) by {
            assert(q[k] == p[m + k] && q[k + 1] == p[m + k + 1]);
            assert(par(g2, p[m + k] as int).contains(p[m + k + 1]));
        }
        assert(is_path(g2, q) && q.first() == child && q.last() == child && q.len() >= 2);
        lemma_new_cycle_forces_reach(g1, g2, child, parent, q);
    } else {
        // no interior slot is `child`
        assert(forall|k: int| 1 <= k < n - 1 ==> p[k] != child);
        if p[1] == parent {
            let q = p.subrange(1, n);
            assert forall|k: int| 0 <= k < q.len() implies live(g1, #[trigger] q[k] as int) by {
                assert(q[k] == p[k + 1]);
                assert(live(g2, p[k + 1] as int));
            }
            assert forall|k: int| 0 <= k < q.len() - 1 implies par(
                g1,
                #[trigger] q[k] as int,
            ).contains(q[k + 1]) by {
                assert(q[k] == p[k + 1] && q[k + 1] == p[k + 2]);
                assert(par(g2, p[k + 1] as int).contains(p[k + 2]));
                assert(p[k + 1] != child);
            }
            assert(is_path(g1, q) && q.first() == parent && q.last() == child);
        } else {
            // the whole walk stands in the old graph and closes a cycle there
            assert forall|k: int| 0 <= k < n implies live(g1, #[trigger] p[k] as int) by {
                assert(live(g2, p[k] as int));
            }
            assert forall|k: int| 0 <= k < n - 1 implies par(
                g1,
                #[trigger] p[k] as int,
            ).contains(p[k + 1]) by {
                assert(par(g2, p[k] as int).contains(p[k + 1]));
                if p[k] == child {
                    assert(k == 0);
                    assert(p[1] != parent);
                } else {
                    assert(par(g2, p[k] as int) == par(g1, p[k] as int));
                }
            }
            lemma_path_transfer(g1, g2, p);
            assert(p.first() != p.last());
        }
    }
}

/// Appending the parent entry `parent` at `child` keeps the graph acyclic
/// as long as `child` was no ancestor of `parent`.
pub proof fn lemma_add_edge_acyclic(
    g1: Seq<Option<Node>>,
    g2: Seq<Option<Node>>,
    child: usize,
    parent: usize,
)
    requires
        acyclic(g1),
        !reaches(g1, parent, child),
        forall|j: int| live(g2, j) ==> live(g1, j),
        forall|j: int| live(g2, j) && j != child ==> par(g2, j) == par(g1, j),
        live(g2, child as int),
        par(g2, child as int) == par(g1, child as int).push(parent),
    ensures
        acyclic(g2),
{
    assert forall|p: Seq<usize>| #[trigger] is_path(g2, p) && p.len() >= 2 implies p.first()
        != p.last() by {
        if p.first() == p.last() {
            let n = p.len() as int;
            if exists|m: int| 0 <= m < n && p[m] == child {
                let m = choose|m: int| 0 <= m < n && p[m] == child;
                lemma_cycle_rotate(g2, p, m);
                let q = p.subrange(m, n) + p.subrange(1, m + 1);
                lemma_new_cycle_forces_reach(g1, g2, child, parent, q);
            } else {
                assert forall|k: int| 0 <= k < n implies live(g1, #[trigger] p[k] as int) by {
                    assert(live(g2, p[k] as int));
                }
                assert forall|k: int| 0 <= k < n - 1 implies par(
                    g1,
                    #[trigger] p[k] as int,
                ).contains(p[k + 1]) by {
                    assert(par(g2, p[k] as int).contains(p[k + 1]));
                    assert(p[k] != child);
                }
                lemma_path_transfer(g1, g2, p);
                assert(p.first() != p.last());
            }
        }
    }
}

/// The full invariant carries over the addition of an admissible edge.
pub proof fn lemma_add_edge_wf(
    g1: Seq<Option<Node>>,
    g2: Seq<Option<Node>>,
    child: usize,
    parent: usize,
)
    requires
        graph_wf(g1),
        edge_added(g1, g2, child, parent),
        !reaches(g1, parent, child),
        !par(g1, child as int).contains(parent),
    ensures
        graph_wf(g2),
{
    let c = child as int;
    let q = parent as int;
    lemma_push_contains(par(g1, c), parent);
    lemma_push_contains(chl(g1, q), child);
    assert(forall|j: int| live(g2, j) <==> live(g1, j));
    // the edge was absent on the child side, hence also on the parent side
    assert(!chl(g1, q).contains(child)) by {
        if chl(g1, q).contains(child) {
            let k = choose|k: int| 0 <= k < chl(g1, q).len() && chl(g1, q)[k] == child;
            assert(par(g1, c).contains(parent));
        }
    }
    assert forall|i: int| live(g2, i) implies (#[trigger] par(g2, i)).no_duplicates() && chl(
        g2,
        i,
    ).no_duplicates() by {
        if i == c {
            lemma_push_no_dup(par(g1, c), parent);
            assert(chl(g2, i) == chl(g1, i));
        } else if i == q {
            assert(par(g1, i).no_duplicates());
            lemma_push_no_dup(chl(g1, q), child);
            assert(par(g2, i) == par(g1, i));
        } else {
            assert(par(g2, i) == par(g1, i));
            assert(chl(g2, i) == chl(g1, i));
        }
    }
    assert forall|i: int, k: int| live(g2, i) && 0 <= k < par(g2, i).len() implies live(
        g2,
        #[trigger] par(g2, i)[k] as int,
    ) && chl(g2, par(g2, i)[k] as int).contains(i as usize) by {
        let x = par(g2, i)[k];
        if i == c && k == par(g2, i).len() - 1 {
            assert(x == parent);
            assert(chl(g2, q).contains(child));
        } else {
            if i == c {
                assert(x == par(g1, i)[k]);
            } else {
                assert(par(g2, i) == par(g1, i));
            }
            assert(live(g1, x as int) && chl(g1, x as int).contains(i as usize));
            if x == parent {
                assert(chl(g2, x as int).contains(i as usize));
            } else {
                assert(chl(g2, x as int) == chl(g1, x as int));
            }
        }
    }
    assert forall|i: int, k: int| live(g2, i) && 0 <= k < chl(g2, i).len() implies live(
        g2,
        #[trigger] chl(g2, i)[k] as int,
    ) && par(g2, chl(g2, i)[k] as int).contains(i as usize) by {
        let x = chl(g2, i)[k];
        if i == q && k == chl(g2, i).len() - 1 {
            assert(x == child);
            assert(par(g2, c).contains(parent));
        } else {
            if i == q {
                assert(x == chl(g1, i)[k]);
            } else {
                assert(chl(g2, i) == chl(g1, i));
            }
            assert(live(g1, x as int) && par(g1, x as int).contains(i as usize));
            if x == child {
                assert(par(g2, x as int).contains(i as usize));
            } else {
                assert(par(g2, x as int) == par(g1, x as int));
            }
        }
    }
    lemma_add_edge_acyclic(g1, g2, child, parent);
    assert(forall|j: int| live(g2, j) ==> card(g2, j) == card(g1, j));
    assert forall|i: int|
        live(g2, i) && (#[trigger] nd(g2, i).credencies) is Some implies nd(
        g2,
        i,
    ).credencies->Some_0.shape_spec() == expected_shape(g2, i) && nd(
        g2,
        i,
    ).credencies->Some_0.dense() by {
        assert(i != c);
        if i == q {
            assert(nd(g2, i).credencies == nd(g1, i).credencies);
            assert(par(g2, i) == par(g1, i));
        } else {
            assert(g2[i] == g1[i]);
        }
        assert(expected_shape(g2, i) =~= expected_shape(g1, i));
    }
    assert forall|i: int|
        live(g2, i) && (#[trigger] nd(g2, i).observation) is Some implies (nd(
        g2,
        i,
    ).observation->Some_0 as int) < card(g2, i) by {
        if i == c || i == q {
            assert(nd(g2, i).observation == nd(g1, i).observation);
        } else {
            assert(g2[i] == g1[i]);
        }
    }
}

impl Dag {
    /// Adds the edge making `parent` a parent of `child` after re-checking
    /// it, appending the links on both sides and clearing the child's now
    /// stale credence table and row annotations. On failure the graph is
    /// unchanged, and the error says exactly why (see
    /// [`Dag::check_edge_addition`]).
    pub fn add_edge(&mut self, child: usize, parent: usize) -> (r: Result<(), EdgeError>)
        requires
            old(self).wf(),
        ensures
            final(self).wf(),
            check_edge_spec(old(self)@, child, parent, r),
            r is Err ==> final(self)@ == old(self)@,
            r is Ok ==> edge_added(old(self)@, final(self)@, child, parent),
    {
        let ghost g1 = self@;
        match self.check_edge_addition(child, parent) {
            Err(e) => {
                return Err(e);
            },
            Ok(()) => {},
        }
        proof {
            if child == parent {
                lemma_reaches_self(g1, parent);
            }
        }
        // the child gains the parent link and loses its stale table
        let mut slot: Option<Node> = None;
        self.nodes.set_and_swap(child, &mut slot);
        let mut cn = slot.unwrap();
        cn.parents.push(parent);
        cn.credencies = None;
        cn.cred_description = Vec::new();
        self.nodes.set(child, Some(cn));
        // the parent gains the child link (always fresh at this point)
        let mut slot2: Option<Node> = None;
        self.nodes.set_and_swap(parent, &mut slot2);
        let mut pn = slot2.unwrap();
        proof {
            if chl(g1, parent as int).contains(child) {
                let k = choose|k: int|
                    0 <= k < chl(g1, parent as int).len() && chl(g1, parent as int)[k] == child;
                assert(par(g1, child as int).contains(parent));
            }
        }
        if !contains_usize(&pn.children, child) {
            pn.children.push(child);
        }
        self.nodes.set(parent, Some(pn));
        proof {
            assert(edge_added(g1, self@, child, parent));
            lemma_add_edge_wf(g1, self@, child, parent);
        }
        Ok(())
    }
}


/// `v` with every occurrence of `x` removed, order otherwise kept.
pub(crate) fn remove_usize(v: &Vec<usize>, x: usize) -> (r: Vec<usize>)
    ensures
        r@ == seq_remove(v@, x),
{
    let mut out: Vec<usize> = Vec::new();
    let mut i: usize = 0;
    while i < v.len()
        invariant
            i <= v@.len(),
            out@ == seq_remove(v@.subrange(0, i as int), x),
        decreases v@.len() - i,
    {
        proof {
            assert(v@.subrange(0, i + 1).drop_last() =~= v@.subrange(0, i as int));
            assert(v@.subrange(0, i + 1).last() == v@[i as int]);
        }
        if v[i] != x {
            out.push(v[i]);
        }
        i = i + 1;
    }
    proof {
        assert(v@.subrange(0, v@.len() as int) =~= v@);
    }
    out
}

/// Whether two index lists hold the same entries in the same order.
pub(crate) fn eq_usizes(a: &Vec<usize>, b: &Vec<usize>) -> (r: bool)
    ensures
        r == (a@ == b@),
{
    if a.len() != b.len() {
        return false;
    }
    let mut i: usize = 0;
    while i < a.len()
        invariant
            a@.len() == b@.len(),
            i <= a@.len(),
            forall|k: int| 0 <= k < i ==> a@[k] == b@[k],
        decreases a@.len() - i,
    {
        if a[i] != b[i] {
            return false;
        }
        i = i + 1;
    }
    proof {
        assert(a@ =~= b@);
    }
    true
}

/// What removing the edge `parent -> child` does to the graph: the links
/// leave both sides, and the child's table and row annotations are cleared
/// (the child's table shape depends on its parent list). A free slot on
/// either end leaves that end alone; clearing on a live child happens even
/// when the edge was not there, as a plain overapproximation of staleness.
pub open spec fn edge_removed(
    g1: Seq<Option<Node>>,
    g2: Seq<Option<Node>>,
    child: usize,
    parent: usize,
) -> bool {
    g1.len() == g2.len() && (forall|j: int|
        0 <= j < g1.len() && j != child && j != parent ==> g2[j] == g1[j]) && (forall|j: int|
        live(g2, j) <==> live(g1, j)) && (forall|j: int|
        live(g1, j) ==> {
            let a = nd(g1, j);
            let b = nd(g2, j);
            (b.parents@ == if j == child {
                seq_remove(a.parents@, parent)
            } else {
                a.parents@
            }) && (b.children@ == if j == parent {
                seq_remove(a.children@, child)
            } else {
                a.children@
            }) && b.values == a.values && b.label == a.label && b.description == a.description
                && b.observation == a.observation && (if j == child {
                b.credencies is None && b.cred_description@.len() == 0
            } else {
                b.credencies == a.credencies && b.cred_description == a.cred_description
            })
        })
}

/// The full invariant carries over the removal of an edge.
#[verifier::rlimit(100)]
#[verifier::spinoff_prover]
pub proof fn lemma_remove_edge_wf(
    g1: Seq<Option<Node>>,
    g2: Seq<Option<Node>>,
    child: usize,
    parent: usize,
)
    requires
        graph_wf(g1),
        edge_removed(g1, g2, child, parent),
        g1.len() <= usize::MAX,
    ensures
        graph_wf(g2),
{
    let c = child as int;
    let q = parent as int;
    lemma_seq_remove(if live(g1, c) {
        par(g1, c)
    } else {
        Seq::empty()
    }, parent);
    lemma_seq_remove(if live(g1, q) {
        chl(g1, q)
    } else {
        Seq::empty()
    }, child);
    assert forall|i: int| live(g2, i) implies (#[trigger] par(g2, i)).no_duplicates() && chl(
        g2,
        i,
    ).no_duplicates() by {
        assert(par(g1, i).no_duplicates());
        lemma_seq_remove(par(g1, i), parent);
        lemma_seq_remove(chl(g1, i), child);
    }
    assert forall|i: int, k: int| live(g2, i) && 0 <= k < par(g2, i).len() implies live(
        g2,
        #[trigger] par(g2, i)[k] as int,
    ) && chl(g2, par(g2, i)[k] as int).contains(i as usize) by {
        let x = par(g2, i)[k];
        assert(par(g2, i).contains(x));
        lemma_seq_remove(par(g1, i), parent);
        assert(par(g1, i).contains(x));
        let m = choose|m: int| 0 <= m < par(g1, i).len() && par(g1, i)[m] == x;
        assert(live(g1, x as int) && chl(g1, x as int).contains(i as usize));
        if x == parent {
            assert(i != child);
            assert(i as usize != child);
            lemma_seq_remove(chl(g1, q), child);
            assert(chl(g2, q) == seq_remove(chl(g1, q), child));
            assert(seq_remove(chl(g1, q), child).contains(i as usize) <==> chl(g1, q).contains(
                i as usize,
            ));
            assert(chl(g2, q).contains(i as usize));
        } else {
            assert(chl(g2, x as int) == chl(g1, x as int));
        }
    }
    assert forall|i: int, k: int| live(g2, i) && 0 <= k < chl(g2, i).len() implies live(
        g2,
        #[trigger] chl(g2, i)[k] as int,
    ) && par(g2, chl(g2, i)[k] as int).contains(i as usize) by {
        let x = chl(g2, i)[k];
        assert(chl(g2, i).contains(x));
        lemma_seq_remove(chl(g1, i), child);
        assert(chl(g1, i).contains(x));
        let m = choose|m: int| 0 <= m < chl(g1, i).len() && chl(g1, i)[m] == x;
        assert(live(g1, x as int) && par(g1, x as int).contains(i as usize));
        if x == child {
            assert(i != parent);
            assert(i as usize != parent);
            lemma_seq_remove(par(g1, c), parent);
            assert(par(g2, c) == seq_remove(par(g1, c), parent));
            assert(seq_remove(par(g1, c), parent).contains(i as usize) <==> par(g1, c).contains(
                i as usize,
            ));
            assert(par(g2, c).contains(i as usize));
        } else {
            assert(par(g2, x as int) == par(g1, x as int));
        }
    }
    assert forall|j: int, x: usize| live(g2, j) && #[trigger] par(g2, j).contains(x) implies par(
        g1,
        j,
    ).contains(x) by {
        lemma_seq_remove(par(g1, j), parent);
    }
    lemma_sub_edges_acyclic(g1, g2);
    assert(forall|j: int| live(g2, j) ==> card(g2, j) == card(g1, j));
    assert forall|i: int|
        live(g2, i) && (#[trigger] nd(g2, i).credencies) is Some implies nd(
        g2,
        i,
    ).credencies->Some_0.shape_spec() == expected_shape(g2, i) && nd(
        g2,
        i,
    ).credencies->Some_0.dense() by {
        assert(i != child);
        assert(nd(g2, i).credencies == nd(g1, i).credencies);
        assert(par(g2, i) == par(g1, i));
        assert(expected_shape(g2, i) =~= expected_shape(g1, i));
    }
    assert forall|i: int|
        live(g2, i) && (#[trigger] nd(g2, i).observation) is Some implies (nd(
        g2,
        i,
    ).observation->Some_0 as int) < card(g2, i) by {
        assert(nd(g2, i).observation == nd(g1, i).observation);
        assert(nd(g1, i).observation is Some);
        assert(card(g2, i) == card(g1, i));
    }
}

impl Dag {
    /// Removes the edge making `parent` a parent of `child`, if present:
    /// both links are dropped, and the child's credence table and row
    /// annotations are cleared. A missing node on either side leaves that
    /// side alone.
    pub fn remove_edge(&mut self, child: usize, parent: usize)
        requires
            old(self).wf(),
        ensures
            final(self).wf(),
            edge_removed(old(self)@, final(self)@, child, parent),
    {
        let ghost g1 = self@;
        if child < self.nodes.len() {
            let mut slot: Option<Node> = None;
            self.nodes.set_and_swap(child, &mut slot);
            match slot {
                Some(mut cn) => {
                    cn.parents = remove_usize(&cn.parents, parent);
                    cn.credencies = None;
                    cn.cred_description = Vec::new();
                    self.nodes.set(child, Some(cn));
                },
                None => {
                    self.nodes.set(child, None);
                    assert(self@ =~= g1);
                },
            }
        }
        let ghost gmid = self@;
        if parent < self.nodes.len() {
            let mut slot: Option<Node> = None;
            self.nodes.set_and_swap(parent, &mut slot);
            match slot {
                Some(mut pn) => {
                    pn.children = remove_usize(&pn.children, child);
                    self.nodes.set(parent, Some(pn));
                },
                None => {
                    self.nodes.set(parent, None);
                    assert(self@ =~= gmid);
                },
            }
        }
        proof {
            if child == parent && live(g1, child as int) {
                if par(g1, child as int).contains(child) {
                    lemma_reaches_self(g1, child);
                    lemma_edge_back_cycle(g1, child, child);
                }
                lemma_seq_remove(par(g1, child as int), parent);
            }
            assert(edge_removed(g1, self@, child, parent));
            assert(g1.len() <= usize::MAX);
            lemma_remove_edge_wf(g1, self@, child, parent);
        }
    }
}


/// `b` is `a` with only its credence table cleared.
pub open spec fn cred_cleared(a: Node, b: Node) -> bool {
    b.parents == a.parents && b.children == a.children && b.values == a.values && b.label == a.label
        && b.description == a.description && b.credencies is None && b.cred_description
        == a.cred_description && b.observation == a.observation
}

/// What appending a value to `node` does: the value list grows, the node's
/// own table, row annotations and observation are cleared (they index the
/// old value list), and every child's table is cleared (its shape runs
/// through this node's cardinality).
pub open spec fn value_added(
    g1: Seq<Option<Node>>,
    g2: Seq<Option<Node>>,
    node: usize,
    value: String,
) -> bool {
    g1.len() == g2.len() && (!live(g1, node as int) ==> g2 == g1) && (live(g1, node as int) ==> (
    forall|j: int| live(g2, j) <==> live(g1, j)) && (forall|j: int|
        0 <= j < g1.len() && j != node && !chl(g1, node as int).contains(j as usize) ==> g2[j]
            == g1[j]) && (forall|j: int|
        live(g1, j) && j != node && chl(g1, node as int).contains(j as usize) ==> cred_cleared(
            nd(g1, j),
            nd(g2, j),
        )) && nd(g2, node as int).values@ == nd(g1, node as int).values@.push(value) && nd(
        g2,
        node as int,
    ).parents == nd(g1, node as int).parents && nd(g2, node as int).children == nd(
        g1,
        node as int,
    ).children && nd(g2, node as int).label == nd(g1, node as int).label && nd(
        g2,
        node as int,
    ).description == nd(g1, node as int).description && nd(g2, node as int).credencies is None
        && nd(g2, node as int).cred_description@.len() == 0 && nd(
        g2,
        node as int,
    ).observation is None)
}

/// What removing value `value_id` of `node` does: the mirror image of
/// [`value_added`], with the value list shrunk at that index.
pub open spec fn value_removed(
    g1: Seq<Option<Node>>,
    g2: Seq<Option<Node>>,
    node: usize,
    value_id: usize,
) -> bool {
    g1.len() == g2.len() && (!live(g1, node as int) ==> g2 == g1) && (live(g1, node as int) ==> (
    forall|j: int| live(g2, j) <==> live(g1, j)) && (forall|j: int|
        0 <= j < g1.len() && j != node && !chl(g1, node as int).contains(j as usize) ==> g2[j]
            == g1[j]) && (forall|j: int|
        live(g1, j) && j != node && chl(g1, node as int).contains(j as usize) ==> cred_cleared(
            nd(g1, j),
            nd(g2, j),
        )) && nd(g2, node as int).values@ == nd(g1, node as int).values@.remove(value_id as int)
        && nd(g2, node as int).parents == nd(g1, node as int).parents && nd(
        g2,
        node as int,
    ).children == nd(g1, node as int).children && nd(g2, node as int).label == nd(
        g1,
        node as int,
    ).label && nd(g2, node as int).description == nd(g1, node as int).description && nd(
        g2,
        node as int,
    ).credencies is None && nd(g2, node as int).cred_description@.len() == 0 && nd(
        g2,
        node as int,
    ).observation is None)
}

/// The full invariant carries over a change of `node`'s value list, as
/// long as the node's own table and observation and all its children's
/// tables were cleared with it.
pub proof fn lemma_value_mut_wf(g1: Seq<Option<Node>>, g2: Seq<Option<Node>>, node: usize)
    requires
        graph_wf(g1),
        g1.len() == g2.len(),
        g1.len() <= usize::MAX,
        live(g1, node as int),
        forall|j: int| live(g2, j) <==> live(g1, j),
        forall|j: int| live(g1, j) ==> par(g2, j) == par(g1, j) && chl(g2, j) == chl(g1, j),
        forall|j: int| live(g1, j) && j != node ==> nd(g2, j).values == nd(g1, j).values,
        nd(g2, node as int).credencies is None,
        (nd(g2, node as int).observation matches Some(o) ==> (o as int) < card(g2, node as int)),
        forall|j: int|
            live(g1, j) && chl(g1, node as int).contains(j as usize) ==> nd(
                g2,
                j,
            ).credencies is None,
        forall|j: int|
            live(g1, j) && j != node && !chl(g1, node as int).contains(j as usize) ==> nd(
                g2,
                j,
            ).credencies == nd(g1, j).credencies,
        forall|j: int| live(g1, j) && j != node ==> nd(g2, j).observation == nd(g1, j).observation,
    ensures
        graph_wf(g2),
{
    assert forall|i: int| live(g2, i) implies (#[trigger] par(g2, i)).no_duplicates() && chl(
        g2,
        i,
    ).no_duplicates() by {
        assert(par(g2, i) == par(g1, i));
        assert(chl(g2, i) == chl(g1, i));
        assert(par(g1, i).no_duplicates());
    }
    assert forall|i: int, k: int| live(g2, i) && 0 <= k < par(g2, i).len() implies live(
        g2,
        #[trigger] par(g2, i)[k] as int,
    ) && chl(g2, par(g2, i)[k] as int).contains(i as usize) by {
        assert(live(g1, par(g1, i)[k] as int));
    }
    assert forall|i: int, k: int| live(g2, i) && 0 <= k < chl(g2, i).len() implies live(
        g2,
        #[trigger] chl(g2, i)[k] as int,
    ) && par(g2, chl(g2, i)[k] as int).contains(i as usize) by {
        assert(live(g1, chl(g1, i)[k] as int));
    }
    lemma_sub_edges_acyclic(g1, g2);
    assert forall|i: int|
        live(g2, i) && (#[trigger] nd(g2, i).credencies) is Some implies nd(
        g2,
        i,
    ).credencies->Some_0.shape_spec() == expected_shape(g2, i) && nd(
        g2,
        i,
    ).credencies->Some_0.dense() by {
        assert(i != node);
        assert(!chl(g1, node as int).contains(i as usize));
        assert(nd(g2, i).credencies == nd(g1, i).credencies);
        assert(nd(g1, i).credencies is Some);
        assert(card(g2, i) == card(g1, i));
        assert forall|k: int| 0 <= k < par(g1, i).len() implies card(
            g2,
            #[trigger] par(g1, i)[k] as int,
        ) == card(g1, par(g1, i)[k] as int) by {
            let x = par(g1, i)[k];
            assert(live(g1, x as int) && chl(g1, x as int).contains(i as usize));
            if x as int == node as int {
                assert(chl(g1, node as int).contains(i as usize));
            }
            assert(nd(g2, x as int).values == nd(g1, x as int).values);
        }
        assert(expected_shape(g2, i) =~= expected_shape(g1, i));
    }
    assert forall|i: int|
        live(g2, i) && (#[trigger] nd(g2, i).observation) is Some implies (nd(
        g2,
        i,
    ).observation->Some_0 as int) < card(g2, i) by {
        if i != node {
            assert(nd(g2, i).observation == nd(g1, i).observation);
            assert(nd(g1, i).observation is Some);
            assert(card(g2, i) == card(g1, i));
        }
    }
}

impl Dag {
    /// Appends a permissible value to a node. The node's credence table,
    /// row annotations and observation are cleared, and so is the credence
    /// table of every child (their shapes index the old value list). No
    /// effect when the slot is free.
    pub fn add_value(&mut self, node: usize, value: String)
        requires
            old(self).wf(),
        ensures
            final(self).wf(),
            value_added(old(self)@, final(self)@, node, value),
    {
        let ghost g1 = self@;
        if node >= self.nodes.len() {
            return;
        }
        let mut slot: Option<Node> = None;
        self.nodes.set_and_swap(node, &mut slot);
        match slot {
            None => {
                self.nodes.set(node, None);
                assert(self@ =~= g1);
            },
            Some(mut n) => {
                n.values.push(value);
                n.credencies = None;
                n.cred_description = Vec::new();
                n.observation = None;
                let kids = copy_usizes(&n.children);
                self.nodes.set(node, Some(n));
                self.clear_child_tables(Ghost(g1), node, &kids);
                proof {
                    lemma_value_mut_wf(g1, self@, node);
                }
            },
        }
    }

    /// Removes value `value_id` of a node, with the same clearing as
    /// [`Dag::add_value`] (the remaining table rows would be misindexed).
    /// No effect when the slot is free.
    pub fn remove_value(&mut self, node: usize, value_id: usize)
        requires
            old(self).wf(),
            live(old(self)@, node as int) ==> (value_id as int) < card(old(self)@, node as int),
        ensures
            final(self).wf(),
            value_removed(old(self)@, final(self)@, node, value_id),
    {
        let ghost g1 = self@;
        if node >= self.nodes.len() {
            return;
        }
        let mut slot: Option<Node> = None;
        self.nodes.set_and_swap(node, &mut slot);
        match slot {
            None => {
                self.nodes.set(node, None);
                assert(self@ =~= g1);
            },
            Some(mut n) => {
                n.values.remove(value_id);
                n.credencies = None;
                n.cred_description = Vec::new();
                n.observation = None;
                let kids = copy_usizes(&n.children);
                self.nodes.set(node, Some(n));
                self.clear_child_tables(Ghost(g1), node, &kids);
                proof {
                    lemma_value_mut_wf(g1, self@, node);
                }
            },
        }
    }

    /// Clears the credence table of every node in `kids`, the children of
    /// `node` as of the snapshot `g1`; the graph must differ from `g1`
    /// only at `node` itself.
    fn clear_child_tables(&mut self, Ghost(g1): Ghost<Seq<Option<Node>>>, node: usize, kids: &Vec<usize>)
        requires
            graph_wf(g1),
            g1.len() <= usize::MAX,
            live(g1, node as int),
            kids@ == chl(g1, node as int),
            old(self)@.len() == g1.len(),
            live(old(self)@, node as int),
            forall|j: int| 0 <= j < g1.len() && j != node ==> old(self)@[j] == g1[j],
        ensures
            final(self)@.len() == old(self)@.len(),
            final(self)@[node as int] == old(self)@[node as int],
            forall|j: int|
                0 <= j < g1.len() && j != node && !kids@.contains(j as usize) ==> final(self)@[j]
                    == g1[j],
            forall|j: int|
                live(g1, j) && j != node && kids@.contains(j as usize) ==> live(final(self)@, j)
                    && cred_cleared(nd(g1, j), nd(final(self)@, j)),
            forall|j: int| live(final(self)@, j) <==> live(old(self)@, j),
    {
        proof {
            // the node is not its own child: that would be a self-loop
            if chl(g1, node as int).contains(node) {
                let k = choose|k: int|
                    0 <= k < chl(g1, node as int).len() && chl(g1, node as int)[k] == node;
                assert(par(g1, node as int).contains(node));
                lemma_reaches_self(g1, node);
                lemma_edge_back_cycle(g1, node, node);
            }
            assert(chl(g1, node as int).no_duplicates()) by {
                assert(par(g1, node as int).no_duplicates());
            }
        }
        let ghost h0 = self@;
        let mut i: usize = 0;
        while i < kids.len()
            invariant
                graph_wf(g1),
                live(g1, node as int),
                kids@ == chl(g1, node as int),
                !kids@.contains(node),
                kids@.no_duplicates(),
                i <= kids@.len(),
                self@.len() == g1.len(),
                self@[node as int] == h0[node as int],
                live(self@, node as int),
                h0.len() == g1.len(),
                forall|j: int| 0 <= j < g1.len() && j != node ==> h0[j] == g1[j],
                forall|j: int|
                    0 <= j < g1.len() && j != node && !kids@.contains(j as usize) ==> self@[j]
                        == g1[j],
                forall|m: int|
                    0 <= m < i ==> live(self@, kids@[m] as int) && cred_cleared(
                        nd(g1, kids@[m] as int),
                        nd(self@, kids@[m] as int),
                    ),
                forall|m: int| i <= m < kids@.len() ==> self@[kids@[m] as int] == g1[kids@[m] as int],
                forall|j: int| live(self@, j) <==> live(h0, j),
            decreases kids@.len() - i,
        {
            let c = kids[i];
            proof {
                assert(live(g1, chl(g1, node as int)[i as int] as int));
                assert(self@[c as int] == g1[c as int]);
            }
            let mut slot: Option<Node> = None;
            self.nodes.set_and_swap(c, &mut slot);
            let mut cn = slot.unwrap();
            cn.credencies = None;
            self.nodes.set(c, Some(cn));
            i = i + 1;
            proof {
                assert forall|m: int| i <= m < kids@.len() implies self@[kids@[m] as int] == g1[kids@[m] as int] by {
                    assert(kids@[m] != kids@[i - 1]);
                    assert(kids@[m] as int != c as int);
                }
                assert forall|m: int| 0 <= m < i implies live(self@, kids@[m] as int)
                    && cred_cleared(nd(g1, kids@[m] as int), nd(self@, kids@[m] as int)) by {
                    if m < i - 1 {
                        assert(kids@[m] != kids@[i - 1]);
                    }
                }
            }
        }
        proof {
            assert forall|j: int|
                live(g1, j) && j != node && kids@.contains(j as usize) implies live(self@, j)
                && cred_cleared(nd(g1, j), nd(self@, j)) by {
                let m = choose|m: int| 0 <= m < kids@.len() && kids@[m] == j as usize;
                assert(kids@[m] as int == j);
                assert(live(self@, kids@[m] as int) && cred_cleared(
                    nd(g1, kids@[m] as int),
                    nd(self@, kids@[m] as int),
                ));
            }
        }
    }
}


/// The cardinalities of a node's parents, in parent order.
pub open spec fn parent_cards(g: Seq<Option<Node>>, i: int) -> Seq<usize> {
    Seq::new(par(g, i).len(), |k: int| card(g, par(g, i)[k] as int) as usize)
}

/// A zero factor makes the whole product zero.
pub proof fn lemma_zero_product(s: Seq<usize>, k: int)
    requires
        0 <= k < s.len(),
        s[k] == 0,
    ensures
        crate::cred::seq_product(s) == 0,
    decreases s.len(),
{
    if k == s.len() - 1 {
        assert(s.last() == s[k]);
        assert(crate::cred::seq_product(s) == (crate::cred::seq_product(s.drop_last()) * (
        s.last() as nat)) as nat);
    } else {
        assert(s.drop_last()[k] == s[k]);
        lemma_zero_product(s.drop_last(), k);
        assert(crate::cred::seq_product(s) == (crate::cred::seq_product(s.drop_last()) * (
        s.last() as nat)) as nat);
    }
}

/// With no zero factor, every running product is at most the full product.
pub proof fn lemma_product_prefix_bound(s: Seq<usize>, i: int)
    requires
        forall|k: int| 0 <= k < s.len() ==> (#[trigger] s[k]) >= 1,
        0 <= i <= s.len(),
    ensures
        crate::cred::seq_product(s.subrange(0, i)) <= crate::cred::seq_product(s),
    decreases s.len() - i,
{
    if i == s.len() {
        assert(s.subrange(0, i) =~= s);
    } else {
        lemma_product_prefix_bound(s, i + 1);
        assert(s.subrange(0, i + 1).drop_last() =~= s.subrange(0, i));
        assert(s.subrange(0, i + 1).last() == s[i]);
        let a = crate::cred::seq_product(s.subrange(0, i));
        let b = s[i] as nat;
        assert(a <= a * b) by (nonlinear_arith)
            requires
                b >= 1,
        ;
    }
}

impl Dag {
    /// The number of parent-value combinations of a node: the product of
    /// its parents' cardinalities (1 with no parents, 0 for a free slot).
    /// `None` when that product overflows the machine word.
    fn count_parent_values(&self, node: usize) -> (r: Option<usize>)
        requires
            self.wf(),
        ensures
            !live(self@, node as int) ==> r == Some(0usize),
            live(self@, node as int) ==> match r {
                Some(p) => p == crate::cred::seq_product(parent_cards(self@, node as int)),
                None => crate::cred::seq_product(parent_cards(self@, node as int)) > usize::MAX,
            },
    {
        let ghost g = self@;
        let ghost cards = parent_cards(g, node as int);
        if node >= self.nodes.len() {
            return Some(0);
        }
        let n = match self.nodes[node].as_ref() {
            Some(n) => n,
            None => {
                return Some(0);
            },
        };
        // a parent with no values makes the product zero
        let mut i: usize = 0;
        while i < n.parents.len()
            invariant
                self.wf(),
                g == self@,
                live(g, node as int),
                n.parents@ == par(g, node as int),
                cards == parent_cards(g, node as int),
                i <= n.parents@.len(),
                forall|k: int| 0 <= k < i ==> cards[k] >= 1,
            decreases n.parents@.len() - i,
        {
            let p = n.parents[i];
            proof {
                assert(live(g, par(g, node as int)[i as int] as int));
            }
            if self.nodes[p].as_ref().unwrap().values.len() == 0 {
                proof {
                    lemma_zero_product(cards, i as int);
                }
                return Some(0);
            }
            i = i + 1;
        }
        // no zero factor: a checked product is exact
        let mut acc: usize = 1;
        let mut j: usize = 0;
        while j < n.parents.len()
            invariant
                self.wf(),
                g == self@,
                live(g, node as int),
                n.parents@ == par(g, node as int),
                cards == parent_cards(g, node as int),
                forall|k: int| 0 <= k < cards.len() ==> (#[trigger] cards[k]) >= 1,
                j <= n.parents@.len(),
                acc == crate::cred::seq_product(cards.subrange(0, j as int)),
            decreases n.parents@.len() - j,
        {
            let p = n.parents[j];
            proof {
                assert(live(g, par(g, node as int)[j as int] as int));
                assert(cards.subrange(0, j + 1).drop_last() =~= cards.subrange(0, j as int));
                assert(cards.subrange(0, j + 1).last() == cards[j as int]);
            }
            let c = self.nodes[p].as_ref().unwrap().values.len();
            acc = match acc.checked_mul(c) {
                Some(v) => v,
                None => {
                    proof {
                        assert(crate::cred::seq_product(cards.subrange(0, j + 1)) > usize::MAX);
                        lemma_product_prefix_bound(cards, j + 1);
                    }
                    return None;
                },
            };
            j = j + 1;
        }
        proof {
            assert(cards.subrange(0, cards.len() as int) =~= cards);
        }
        Some(acc)
    }

    /// Stores the per-row annotations of a node's credence table; refused
    /// (and the graph left unchanged) unless the count equals the number
    /// of parent-value combinations, or when the slot is free.
    pub fn set_cred_descriptions(&mut self, node: usize, descriptions: Vec<String>) -> (r: Result<
        (),
        (),
    >)
        requires
            old(self).wf(),
        ensures
            final(self).wf(),
            r is Err ==> final(self)@ == old(self)@,
            !live(old(self)@, node as int) ==> r is Err,
            live(old(self)@, node as int) ==> {
                if descriptions@.len() == crate::cred::seq_product(
                    parent_cards(old(self)@, node as int),
                ) {
                    r is Ok && final(self)@.len() == old(self)@.len() && (forall|j: int|
                        0 <= j < old(self)@.len() && j != node ==> final(self)@[j] == old(
                            self,
                        )@[j]) && live(final(self)@, node as int) && nd(final(self)@, node as int)
                        == (Node {
                        cred_description: descriptions,
                        ..nd(old(self)@, node as int)
                    })
                } else {
                    r is Err && final(self)@ == old(self)@
                }
            },
    {
        let ghost g1 = self@;
        let dlen = descriptions.len();
        let expected = match self.count_parent_values(node) {
            Some(p) => p,
            None => {
                return Err(());
            },
        };
        if dlen != expected {
            return Err(());
        }
        if node >= self.nodes.len() {
            return Err(());
        }
        let mut slot: Option<Node> = None;
        self.nodes.set_and_swap(node, &mut slot);
        match slot {
            None => {
                self.nodes.set(node, None);
                assert(self@ =~= g1);
                Err(())
            },
            Some(mut n) => {
                n.cred_description = descriptions;
                self.nodes.set(node, Some(n));
                proof {
                    assert(nd(self@, node as int).credencies == nd(g1, node as int).credencies);
                    assert(nd(self@, node as int).observation == nd(g1, node as int).observation);
                    lemma_local_fields_wf(g1, self@, node as int);
                }
                Ok(())
            },
        }
    }

    /// Stores a credence table on a node; refused (and the graph left
    /// unchanged) unless the table's shape is exactly the node's own
    /// cardinality followed by its parents' cardinalities. Asking this of
    /// a free slot changes nothing and reports success, as a harmless
    /// degenerate case.
    pub fn set_credencies(&mut self, node: usize, credencies: CredTable) -> (r: Result<(), ()>)
        requires
            old(self).wf(),
        ensures
            final(self).wf(),
            !live(old(self)@, node as int) ==> r is Ok && final(self)@ == old(self)@,
            live(old(self)@, node as int) ==> {
                if credencies.shape_spec() == expected_shape(old(self)@, node as int) {
                    r is Ok && final(self)@.len() == old(self)@.len() && (forall|j: int|
                        0 <= j < old(self)@.len() && j != node ==> final(self)@[j] == old(
                            self,
                        )@[j]) && live(final(self)@, node as int) && nd(final(self)@, node as int)
                        == (Node { credencies: Some(credencies), ..nd(old(self)@, node as int) })
                } else {
                    r is Err && final(self)@ == old(self)@
                }
            },
    {
        let ghost g1 = self@;
        if node >= self.nodes.len() {
            return Ok(());
        }
        let shape_ok: bool;
        {
            let n = match self.nodes[node].as_ref() {
                Some(n) => n,
                None => {
                    return Ok(());
                },
            };
            let mut shape: Vec<usize> = Vec::new();
            shape.push(n.values.len());
            let mut i: usize = 0;
            while i < n.parents.len()
                invariant
                    self.wf(),
                    g1 == self@,
                    live(g1, node as int),
                    n.parents@ == par(g1, node as int),
                    n.values@ == nd(g1, node as int).values@,
                    i <= n.parents@.len(),
                    shape@.len() == i + 1,
                    shape@[0] == card(g1, node as int) as usize,
                    forall|k: int|
                        0 <= k < i ==> shape@[k + 1] == card(
                            g1,
                            par(g1, node as int)[k] as int,
                        ) as usize,
                decreases n.parents@.len() - i,
            {
                let p = n.parents[i];
                proof {
                    assert(live(g1, par(g1, node as int)[i as int] as int));
                }
                shape.push(self.nodes[p].as_ref().unwrap().values.len());
                i = i + 1;
            }
            proof {
                assert(shape@ =~= expected_shape(g1, node as int));
            }
            shape_ok = eq_usizes(&shape, credencies.shape());
        }
        if !shape_ok {
            return Err(());
        }
        proof {
            use_type_invariant(&credencies);
        }
        let mut slot: Option<Node> = None;
        self.nodes.set_and_swap(node, &mut slot);
        let mut n = slot.unwrap();
        n.credencies = Some(credencies);
        self.nodes.set(node, Some(n));
        proof {
            assert(nd(self@, node as int).observation == nd(g1, node as int).observation);
            lemma_local_fields_wf(g1, self@, node as int);
        }
        Ok(())
    }
}


/// Two slots cannot be parents of each other: that would be a cycle of two.
pub proof fn lemma_no_mutual_edge(g: Seq<Option<Node>>, x: usize, y: usize)
    requires
        edges_wf(g),
        acyclic(g),
        live(g, x as int),
        par(g, x as int).contains(y),
    ensures
        !par(g, y as int).contains(x),
{
    lemma_reaches_self(g, x);
    lemma_reaches_step(g, x, x, y);
    if par(g, y as int).contains(x) {
        lemma_edge_back_cycle(g, x, y);
    }
}

/// `b` is `a` with the child link to `node` removed.
pub open spec fn parent_unlinked(a: Node, b: Node, node: usize) -> bool {
    b.children@ == seq_remove(a.children@, node) && b.parents@ == a.parents@ && b.values == a.values
        && b.label == a.label && b.description == a.description && b.credencies == a.credencies
        && b.cred_description == a.cred_description && b.observation == a.observation
}

/// `b` is `a` with the parent link to `node` removed and the (now stale)
/// table and row annotations cleared.
pub open spec fn child_unlinked(a: Node, b: Node, node: usize) -> bool {
    b.parents@ == seq_remove(a.parents@, node) && b.children@ == a.children@ && b.values == a.values
        && b.label == a.label && b.description == a.description && b.credencies is None
        && b.cred_description@.len() == 0 && b.observation == a.observation
}

/// What removing `node` does: its slot is freed, every former parent loses
/// the child link, every former child loses the parent link (and with it
/// its table), and nothing else moves.
pub open spec fn node_removed(g1: Seq<Option<Node>>, g2: Seq<Option<Node>>, node: usize) -> bool {
    g1.len() == g2.len() && (!live(g1, node as int) ==> g2 == g1) && (live(g1, node as int) ==> g2[node as int] is None
        && (forall|j: int| 0 <= j < g1.len() && j != node ==> (live(g2, j) <==> live(g1, j))) && (
    forall|j: int|
        0 <= j < g1.len() && j != node && !par(g1, node as int).contains(j as usize) && !chl(
            g1,
            node as int,
        ).contains(j as usize) ==> g2[j] == g1[j]) && (forall|j: int|
        live(g1, j) && j != node && chl(g1, node as int).contains(j as usize) ==> child_unlinked(
            nd(g1, j),
            nd(g2, j),
            node,
        )) && (forall|j: int|
        live(g1, j) && j != node && par(g1, node as int).contains(j as usize) ==> parent_unlinked(
            nd(g1, j),
            nd(g2, j),
            node,
        )))
}

impl Dag {
    /// Removes a node: every edge touching it is removed first (so the
    /// neighbours stay consistent), then its slot is freed for reuse. No
    /// effect when the slot is already free.
    pub fn remove_node(&mut self, node: usize)
        requires
            old(self).wf(),
        ensures
            final(self).wf(),
            node_removed(old(self)@, final(self)@, node),
    {
        let ghost g1 = self@;
        if node >= self.nodes.len() {
            return;
        }
        let (ps, cs) = match self.nodes[node].as_ref() {
            None => {
                return;
            },
            Some(n) => (copy_usizes(&n.parents), copy_usizes(&n.children)),
        };
        proof {
            if par(g1, node as int).contains(node) {
                lemma_reaches_self(g1, node);
                lemma_edge_back_cycle(g1, node, node);
            }
            if chl(g1, node as int).contains(node) {
                let k = choose|k: int|
                    0 <= k < chl(g1, node as int).len() && chl(g1, node as int)[k] == node;
                assert(par(g1, node as int).contains(node));
            }
            assert(par(g1, node as int).no_duplicates());
            assert forall|a: int, b: int|
                0 <= a < ps@.len() && 0 <= b < cs@.len() implies ps@[a] != cs@[b] by {
                let p = ps@[a];
                assert(live(g1, par(g1, node as int)[a] as int));
                lemma_no_mutual_edge(g1, node, p);
                if p == cs@[b] {
                    let k = choose|k: int|
                        0 <= k < chl(g1, node as int).len() && chl(g1, node as int)[k] == p;
                    assert(live(g1, chl(g1, node as int)[k] as int));
                    assert(par(g1, p as int).contains(node));
                }
            }
        }
        let mut i: usize = 0;
        while i < ps.len()
            invariant
                self.wf(),
                graph_wf(g1),
                g1.len() <= usize::MAX,
                self@.len() == g1.len(),
                live(g1, node as int),
                live(self@, node as int),
                ps@ == par(g1, node as int),
                cs@ == chl(g1, node as int),
                ps@.no_duplicates(),
                !ps@.contains(node),
                !cs@.contains(node),
                i <= ps@.len(),
                par(self@, node as int) == ps@.skip(i as int),
                chl(self@, node as int) == chl(g1, node as int),
                nd(self@, node as int).values == nd(g1, node as int).values,
                forall|j: int| 0 <= j < g1.len() && j != node ==> (live(self@, j) <==> live(g1, j)),
                forall|j: int|
                    0 <= j < g1.len() && j != node && !ps@.subrange(0, i as int).contains(j as usize)
                        ==> self@[j] == g1[j],
                forall|m: int|
                    0 <= m < i ==> live(self@, ps@[m] as int) && parent_unlinked(
                        nd(g1, ps@[m] as int),
                        nd(self@, ps@[m] as int),
                        node,
                    ),
            decreases ps@.len() - i,
        {
            let p = ps[i];
            let ghost gpre = self@;
            proof {
                assert(live(g1, par(g1, node as int)[i as int] as int));
                assert(!ps@.subrange(0, i as int).contains(p));
                assert(self@[p as int] == g1[p as int]);
            }
            self.remove_edge(node, p);
            i = i + 1;
            proof {
                assert(ps@.skip(i - 1).drop_first() =~= ps@.skip(i as int));
                assert(ps@.skip(i - 1)[0] == ps@[i - 1]);
                lemma_seq_remove(ps@.skip(i - 1), p);
                assert(par(self@, node as int) == ps@.skip(i as int));
                assert forall|j: int|
                    0 <= j < g1.len() && j != node && !ps@.subrange(0, i as int).contains(j as usize)
                    implies self@[j] == g1[j] by {
                    assert(!ps@.subrange(0, i - 1).contains(j as usize)) by {
                        if ps@.subrange(0, i - 1).contains(j as usize) {
                            let k = choose|k: int|
                                0 <= k < i - 1 && #[trigger] ps@.subrange(0, i - 1)[k]
                                    == j as usize;
                            assert(ps@.subrange(0, i as int)[k] == j as usize);
                        }
                    }
                    assert(j as usize != p) by {
                        if j as usize == p {
                            assert(ps@.subrange(0, i as int)[i - 1] == p);
                        }
                    }
                    assert(gpre[j] == g1[j]);
                }
                assert forall|m: int| 0 <= m < i implies live(self@, ps@[m] as int)
                    && parent_unlinked(nd(g1, ps@[m] as int), nd(self@, ps@[m] as int), node) by {
                    if m < i - 1 {
                        assert(ps@[m] != ps@[i - 1]);
                        assert(self@[ps@[m] as int] == gpre[ps@[m] as int]);
                    } else {
                        assert(ps@[m] == p);
                        assert(p != node);
                        assert(live(gpre, p as int));
                        assert(gpre[p as int] == g1[p as int]);
                        assert(nd(gpre, p as int) == nd(g1, p as int));
                        assert(chl(self@, p as int) == seq_remove(chl(gpre, p as int), node));
                    }
                }
            }
        }
        proof {
            assert(ps@.skip(ps@.len() as int) =~= Seq::<usize>::empty());
        }
        let mut i2: usize = 0;
        while i2 < cs.len()
            invariant
                self.wf(),
                graph_wf(g1),
                g1.len() <= usize::MAX,
                self@.len() == g1.len(),
                live(g1, node as int),
                live(self@, node as int),
                ps@ == par(g1, node as int),
                cs@ == chl(g1, node as int),
                cs@.no_duplicates(),
                !ps@.contains(node),
                !cs@.contains(node),
                forall|a: int, b: int| 0 <= a < ps@.len() && 0 <= b < cs@.len() ==> ps@[a] != cs@[b],
                i2 <= cs@.len(),
                par(self@, node as int) == Seq::<usize>::empty(),
                chl(self@, node as int) == cs@.skip(i2 as int),
                forall|j: int| 0 <= j < g1.len() && j != node ==> (live(self@, j) <==> live(g1, j)),
                forall|j: int|
                    0 <= j < g1.len() && j != node && !ps@.contains(j as usize) && !cs@.subrange(
                        0,
                        i2 as int,
                    ).contains(j as usize) ==> self@[j] == g1[j],
                forall|m: int|
                    0 <= m < ps@.len() ==> live(self@, ps@[m] as int) && parent_unlinked(
                        nd(g1, ps@[m] as int),
                        nd(self@, ps@[m] as int),
                        node,
                    ),
                forall|m: int|
                    0 <= m < i2 ==> live(self@, cs@[m] as int) && child_unlinked(
                        nd(g1, cs@[m] as int),
                        nd(self@, cs@[m] as int),
                        node,
                    ),
            decreases cs@.len() - i2,
        {
            let c = cs[i2];
            let ghost gpre = self@;
            proof {
                assert(live(g1, chl(g1, node as int)[i2 as int] as int));
                assert(!cs@.subrange(0, i2 as int).contains(c));
                assert(!ps@.contains(c)) by {
                    if ps@.contains(c) {
                        let a = choose|a: int| 0 <= a < ps@.len() && ps@[a] == c;
                    }
                }
                assert(self@[c as int] == g1[c as int]);
            }
            self.remove_edge(c, node);
            i2 = i2 + 1;
            proof {
                assert(cs@.skip(i2 - 1).drop_first() =~= cs@.skip(i2 as int));
                assert(cs@.skip(i2 - 1)[0] == cs@[i2 - 1]);
                lemma_seq_remove(cs@.skip(i2 - 1), c);
                assert(chl(self@, node as int) == cs@.skip(i2 as int));
                assert forall|j: int|
                    0 <= j < g1.len() && j != node && !ps@.contains(j as usize) && !cs@.subrange(
                        0,
                        i2 as int,
                    ).contains(j as usize) implies self@[j] == g1[j] by {
                    assert(!cs@.subrange(0, i2 - 1).contains(j as usize)) by {
                        if cs@.subrange(0, i2 - 1).contains(j as usize) {
                            let k = choose|k: int|
                                0 <= k < i2 - 1 && #[trigger] cs@.subrange(0, i2 - 1)[k]
                                    == j as usize;
                            assert(cs@.subrange(0, i2 as int)[k] == j as usize);
                        }
                    }
                    assert(j as usize != c) by {
                        if j as usize == c {
                            assert(cs@.subrange(0, i2 as int)[i2 - 1] == c);
                        }
                    }
                    assert(gpre[j] == g1[j]);
                }
                assert forall|m: int| 0 <= m < ps@.len() implies live(self@, ps@[m] as int)
                    && parent_unlinked(nd(g1, ps@[m] as int), nd(self@, ps@[m] as int), node) by {
                    assert(ps@[m] != c);
                    assert(self@[ps@[m] as int] == gpre[ps@[m] as int]);
                }
                assert forall|m: int| 0 <= m < i2 implies live(self@, cs@[m] as int)
                    && child_unlinked(nd(g1, cs@[m] as int), nd(self@, cs@[m] as int), node) by {
                    if m < i2 - 1 {
                        assert(cs@[m] != cs@[i2 - 1]);
                        assert(self@[cs@[m] as int] == gpre[cs@[m] as int]);
                    } else {
                        assert(cs@[m] == c);
                        assert(c != node);
                        assert(live(gpre, c as int));
                        assert(gpre[c as int] == g1[c as int]);
                        assert(nd(gpre, c as int) == nd(g1, c as int));
                        assert(par(self@, c as int) == seq_remove(par(gpre, c as int), node));
                    }
                }
            }
        }
        proof {
            assert(cs@.skip(cs@.len() as int) =~= Seq::<usize>::empty());
        }
        let ghost gpre = self@;
        self.nodes.set(node, None);
        proof {
            let g2 = self@;
            // nothing links to the freed slot any more
            assert forall|j: int| live(g2, j) implies !par(gpre, j).contains(node) && !chl(
                gpre,
                j,
            ).contains(node) by {
                if par(gpre, j).contains(node) {
                    let k = choose|k: int| 0 <= k < par(gpre, j).len() && par(gpre, j)[k] == node;
                    assert(chl(gpre, node as int).contains(j as usize));
                }
                if chl(gpre, j).contains(node) {
                    let k = choose|k: int| 0 <= k < chl(gpre, j).len() && chl(gpre, j)[k] == node;
                    assert(par(gpre, node as int).contains(j as usize));
                }
            }
            assert forall|i: int| live(g2, i) implies (#[trigger] par(g2, i)).no_duplicates()
                && chl(g2, i).no_duplicates() by {
                assert(par(g2, i) == par(gpre, i));
                assert(chl(g2, i) == chl(gpre, i));
                assert(par(gpre, i).no_duplicates());
            }
            assert forall|i: int, k: int| live(g2, i) && 0 <= k < par(g2, i).len() implies live(
                g2,
                #[trigger] par(g2, i)[k] as int,
            ) && chl(g2, par(g2, i)[k] as int).contains(i as usize) by {
                let x = par(g2, i)[k];
                assert(live(gpre, x as int) && chl(gpre, x as int).contains(i as usize));
                assert(par(gpre, i).contains(x));
                assert(x != node);
            }
            assert forall|i: int, k: int| live(g2, i) && 0 <= k < chl(g2, i).len() implies live(
                g2,
                #[trigger] chl(g2, i)[k] as int,
            ) && par(g2, chl(g2, i)[k] as int).contains(i as usize) by {
                let x = chl(g2, i)[k];
                assert(live(gpre, x as int) && par(gpre, x as int).contains(i as usize));
                assert(chl(gpre, i).contains(x));
                assert(x != node);
            }
            assert forall|j: int, x: usize|
                live(g2, j) && #[trigger] par(g2, j).contains(x) implies par(gpre, j).contains(
                x,
            ) by {}
            lemma_sub_edges_acyclic(gpre, g2);
            assert forall|i: int|
                live(g2, i) && (#[trigger] nd(g2, i).credencies) is Some implies nd(
                g2,
                i,
            ).credencies->Some_0.shape_spec() == expected_shape(g2, i) && nd(
                g2,
                i,
            ).credencies->Some_0.dense() by {
                assert(nd(g2, i).credencies == nd(gpre, i).credencies);
                assert(nd(gpre, i).credencies is Some);
                assert(expected_shape(g2, i) =~= expected_shape(gpre, i));
            }
            assert forall|i: int|
                live(g2, i) && (#[trigger] nd(g2, i).observation) is Some implies (nd(
                g2,
                i,
            ).observation->Some_0 as int) < card(g2, i) by {
                assert(nd(g2, i).observation == nd(gpre, i).observation);
                assert(nd(gpre, i).observation is Some);
            }
            assert(node_removed(g1, self@, node));
        }
    }
}


/// Whether two optional credence tables hold the same shape and entries.
pub open spec fn table_like(a: Option<CredTable>, b: Option<CredTable>) -> bool {
    match (a, b) {
        (Some(t1), Some(t2)) => t1.shape_spec() == t2.shape_spec() && t1.data_spec()
            == t2.data_spec(),
        (None, None) => true,
        _ => false,
    }
}

/// Whether two nodes agree field by field.
pub open spec fn node_like(a: Node, b: Node) -> bool {
    a.parents@ == b.parents@ && a.children@ == b.children@ && a.label@ == b.label@
        && a.description@ == b.description@ && a.values@ == b.values@ && table_like(
        a.credencies,
        b.credencies,
    ) && a.cred_description@ == b.cred_description@ && a.observation == b.observation
}

/// `b` is `a` with the child `m` linked in.
pub open spec fn gained_child(a: Node, b: Node, m: usize) -> bool {
    b.children@ == a.children@.push(m) && b.parents@ == a.parents@ && b.values == a.values
        && b.label == a.label && b.description == a.description && b.credencies == a.credencies
        && b.cred_description == a.cred_description && b.observation == a.observation
}

/// `b` is `a` with the parent `m` linked in and the (now stale) table and
/// row annotations cleared.
pub open spec fn gained_parent(a: Node, b: Node, m: usize) -> bool {
    b.parents@ == a.parents@.push(m) && b.children@ == a.children@ && b.values == a.values
        && b.label == a.label && b.description == a.description && b.credencies is None
        && b.cred_description@.len() == 0 && b.observation == a.observation
}

/// What duplicating `id` into the fresh slot `m` does: the copy mirrors the
/// original's content and edges (its label marked), the original is
/// untouched, each of its parents gains the copy as a child, and each of
/// its children gains the copy as a parent (losing its table to the shape
/// change).
pub open spec fn node_duplicated(
    g0: Seq<Option<Node>>,
    g2: Seq<Option<Node>>,
    id: usize,
    m: usize,
) -> bool {
    !live(g0, m as int) && (forall|j: int| 0 <= j < m ==> live(g0, j)) && live(g2, m as int)
        && m != id && live(g2, id as int) && g2.len() == (
    if (m as int) < g0.len() {
        g0.len() as int
    } else {
        g0.len() as int + 1
    }) && nd(g2, id as int) == nd(g0, id as int) && par(g2, m as int) == par(g0, id as int) && chl(
        g2,
        m as int,
    ) == chl(g0, id as int) && nd(g2, m as int).values@ == nd(g0, id as int).values@ && nd(
        g2,
        m as int,
    ).description@ == nd(g0, id as int).description@ && nd(g2, m as int).cred_description@ == nd(
        g0,
        id as int,
    ).cred_description@ && nd(g2, m as int).observation == nd(g0, id as int).observation && nd(
        g2,
        m as int,
    ).label@ == nd(g0, id as int).label@ + " (bis)"@ && table_like(
        nd(g2, m as int).credencies,
        nd(g0, id as int).credencies,
    ) && (forall|j: int|
        0 <= j < g0.len() && j != id && j != m && !par(g0, id as int).contains(j as usize) && !chl(
            g0,
            id as int,
        ).contains(j as usize) ==> g2[j] == g0[j]) && (forall|j: int|
        live(g0, j) && par(g0, id as int).contains(j as usize) ==> gained_child(
            nd(g0, j),
            nd(g2, j),
            m,
        )) && (forall|j: int|
        live(g0, j) && chl(g0, id as int).contains(j as usize) ==> gained_parent(
            nd(g0, j),
            nd(g2, j),
            m,
        ))
}

/// A walk in the transplanted graph (a fresh slot `m` wired with a subset
/// of `node`'s parents, some nodes having gained `m` as a parent) that
/// starts at `m` and leaves it maps to an old walk from `node`.
pub proof fn lemma_transplant_path(
    g0: Seq<Option<Node>>,
    gc: Seq<Option<Node>>,
    node: usize,
    m: usize,
    p: Seq<usize>,
)
    requires
        acyclic(g0),
        edges_wf(g0),
        !live(g0, m as int),
        live(g0, node as int),
        forall|j: int| live(gc, j) ==> live(g0, j) || j == m,
        forall|x: usize| #[trigger] par(gc, m as int).contains(x) ==> par(g0, node as int).contains(x),
        forall|j: int|
            live(gc, j) && j != m ==> par(gc, j) == par(g0, j) || par(gc, j) == par(g0, j).push(m),
        is_path(gc, p),
        p.first() == m,
        p.len() >= 2,
        p.last() != m,
    ensures
        reaches(g0, node, p.last()),
    decreases p.len(),
{
    let n = p.len() as int;
    if exists|k: int| 1 <= k < n - 1 && p[k] == m {
        let k = choose|k: int| 1 <= k < n - 1 && p[k] == m;
        let q = p.subrange(k, n);
        assert forall|j: int| 0 <= j < q.len() implies live(gc, #[trigger] q[j] as int) by {
            assert(q[j] == p[k + j]);
        }
        assert forall|j: int| 0 <= j < q.len() - 1 implies par(
            gc,
            #[trigger] q[j] as int,
        ).contains(q[j + 1]) by {
            assert(q[j] == p[k + j] && q[j + 1] == p[k + j + 1]);
            assert(par(gc, p[k + j] as int).contains(p[k + j + 1]));
        }
        assert(is_path(gc, q) && q.first() == m && q.len() >= 2 && q.last() == p.last());
        lemma_transplant_path(g0, gc, node, m, q);
    } else {
        let q = seq![node] + p.subrange(1, n);
        assert(q.len() == n);
        assert forall|j: int| 0 <= j < q.len() implies live(g0, #[trigger] q[j] as int) by {
            if j == 0 {
                assert(q[j] == node);
            } else {
                assert(q[j] == p[j]);
                assert(p[j] != m);
                assert(live(gc, p[j] as int));
            }
        }
        assert forall|j: int| 0 <= j < q.len() - 1 implies par(
            g0,
            #[trigger] q[j] as int,
        ).contains(q[j + 1]) by {
            if j == 0 {
                assert(q[1] == p[1]);
                assert(par(gc, m as int).contains(p[1]));
            } else {
                assert(q[j] == p[j] && q[j + 1] == p[j + 1]);
                assert(par(gc, p[j] as int).contains(p[j + 1]));
                assert(p[j] != m);
                assert(p[j + 1] != m);
                lemma_push_contains(par(g0, p[j] as int), m);
            }
        }
        assert(is_path(g0, q) && q.first() == node && q.last() == p.last());
    }
}

/// In the transplanted graph, the fresh slot cannot walk back to any old
/// child of the node it mirrors.
pub proof fn lemma_transplant_unreachable(
    g0: Seq<Option<Node>>,
    gc: Seq<Option<Node>>,
    node: usize,
    m: usize,
    c: usize,
)
    requires
        acyclic(g0),
        edges_wf(g0),
        !live(g0, m as int),
        live(g0, node as int),
        forall|j: int| live(gc, j) ==> live(g0, j) || j == m,
        forall|x: usize| #[trigger] par(gc, m as int).contains(x) ==> par(g0, node as int).contains(x),
        forall|j: int|
            live(gc, j) && j != m ==> par(gc, j) == par(g0, j) || par(gc, j) == par(g0, j).push(m),
        live(g0, c as int),
        par(g0, c as int).contains(node),
        c != m,
    ensures
        !reaches(gc, m, c),
{
    if reaches(gc, m, c) {
        let p = choose|p: Seq<usize>| #[trigger] is_path(gc, p) && p.first() == m && p.last() == c;
        assert(p.len() >= 2);
        lemma_transplant_path(g0, gc, node, m, p);
        lemma_edge_back_cycle(g0, node, c);
    }
}

impl Dag {
    /// Duplicates a node: a fresh node receives copies of the original's
    /// values, description, table, row annotations and observation, every
    /// edge of the original is re-created on the copy through the normal
    /// edge-addition path, and the copy's label is the original's marked
    /// `" (bis)"`. Returns the copy's identifier, or `None` when the slot
    /// is free.
    pub fn duplicate_node(&mut self, id: usize) -> (r: Option<usize>)
        requires
            old(self).wf(),
        ensures
            final(self).wf(),
            !live(old(self)@, id as int) ==> r is None && final(self)@ == old(self)@,
            live(old(self)@, id as int) ==> r is Some && node_duplicated(
                old(self)@,
                final(self)@,
                id,
                r->Some_0,
            ),
    {
        let ghost g0 = self@;
        if id >= self.nodes.len() {
            return None;
        }
        if self.nodes[id].is_none() {
            return None;
        }
        proof {
            if par(g0, id as int).contains(id) {
                lemma_reaches_self(g0, id);
                lemma_edge_back_cycle(g0, id, id);
            }
            if chl(g0, id as int).contains(id) {
                let k = choose|k: int|
                    0 <= k < chl(g0, id as int).len() && chl(g0, id as int)[k] == id;
                assert(par(g0, id as int).contains(id));
            }
        }
        let m = self.insert_node();
        // copy the content fields of the original
        let (vals, desc, obs, ps, cs, lab, creds, cdesc) = {
            let n = self.nodes[id].as_ref().unwrap();
            (
                copy_strings(&n.values),
                n.description.clone(),
                n.observation,
                copy_usizes(&n.parents),
                copy_usizes(&n.children),
                n.label.clone(),
                match &n.credencies {
                    Some(t) => Some(t.clone_table()),
                    None => None,
                },
                copy_strings(&n.cred_description),
            )
        };
        let cap = self.nodes.len();
        proof {
            assert(self@.len() == cap);
        }
        let ghost gi = self@;
        let mut slot: Option<Node> = None;
        self.nodes.set_and_swap(m, &mut slot);
        let mut nm = slot.unwrap();
        nm.values = vals;
        nm.description = desc;
        nm.observation = obs;
        self.nodes.set(m, Some(nm));
        proof {
            assert(chl(gi, m as int).len() == 0);
            lemma_value_mut_wf(gi, self@, m);
        }
        let ghost ga = self@;
        proof {
            assert forall|k: int| 0 <= k < ps@.len() implies live(g0, #[trigger] ps@[k] as int)
                && ps@[k] != m && ps@[k] != id by {
                assert(live(g0, par(g0, id as int)[k] as int));
            }
            assert forall|k: int| 0 <= k < cs@.len() implies live(g0, #[trigger] cs@[k] as int)
                && cs@[k] != m && cs@[k] != id && par(g0, cs@[k] as int).contains(id) by {
                assert(live(g0, chl(g0, id as int)[k] as int));
            }
            assert forall|a: int, b: int|
                0 <= a < ps@.len() && 0 <= b < cs@.len() implies ps@[a] != cs@[b] by {
                lemma_no_mutual_edge(g0, id, ps@[a]);
                if ps@[a] == cs@[b] {
                    assert(par(g0, ps@[a] as int).contains(id));
                }
            }
            assert forall|j: int| live(ga, j) implies !par(ga, j).contains(m) by {
                if j != m {
                    assert(par(ga, j) == par(g0, j));
                    if par(g0, j).contains(m) {
                        let k = choose|k: int| 0 <= k < par(g0, j).len() && par(g0, j)[k] == m;
                        assert(live(g0, par(g0, j)[k] as int));
                    }
                } else {
                    assert(par(ga, m as int).len() == 0);
                }
            }
        }
        // re-create the parent edges on the copy
        let mut i: usize = 0;
        while i < ps.len()
            invariant
                self.wf(),
                graph_wf(g0),
                g0.len() <= usize::MAX,
                live(g0, id as int),
                !live(g0, m as int),
                m as int <= g0.len(),
                ps@ == par(g0, id as int),
                cs@ == chl(g0, id as int),
                ps@.no_duplicates(),
                forall|k: int|
                    0 <= k < ps@.len() ==> live(g0, #[trigger] ps@[k] as int) && ps@[k] != m
                        && ps@[k] != id,
                i <= ps@.len(),
                self@.len() == if (m as int) < g0.len() {
                    g0.len() as int
                } else {
                    g0.len() as int + 1
                },
                live(self@, m as int),
                par(self@, m as int) == ps@.subrange(0, i as int),
                chl(self@, m as int).len() == 0,
                nd(self@, m as int).values@ == nd(g0, id as int).values@,
                nd(self@, m as int).description@ == nd(g0, id as int).description@,
                nd(self@, m as int).observation == nd(g0, id as int).observation,
                nd(self@, m as int).credencies is None,
                forall|j: int|
                    0 <= j < g0.len() && j != m && !ps@.subrange(0, i as int).contains(j as usize)
                        ==> self@[j] == g0[j],
                forall|k: int|
                    0 <= k < i ==> live(self@, #[trigger] ps@[k] as int) && gained_child(
                        nd(g0, ps@[k] as int),
                        nd(self@, ps@[k] as int),
                        m,
                    ),
                forall|j: int| live(self@, j) ==> !par(self@, j).contains(m),
                forall|j: int|
                    j != m ==> (live(self@, j) <==> (0 <= j < g0.len() && live(g0, j))),
            decreases ps@.len() - i,
        {
            let p = ps[i];
            let ghost gpre = self@;
            proof {
                assert(self@[p as int] == g0[p as int]) by {
                    assert(!ps@.subrange(0, i as int).contains(p));
                }
            }
            let r = self.add_edge(m, p);
            proof {
                match r {
                    Ok(()) => {},
                    Err(EdgeError::BadNode) => {
                        assert(live(gpre, m as int));
                        assert(live(gpre, p as int));
                    },
                    Err(EdgeError::WouldCycle) => {
                        lemma_no_inbound_unreachable(gpre, p, m);
                    },
                    Err(EdgeError::AlreadyExisting) => {
                        assert(par(gpre, m as int) == ps@.subrange(0, i as int));
                    },
                }
                assert(r is Ok);
                assert(edge_added(gpre, self@, m, p));
                lemma_push_contains(par(gpre, m as int), p);
            }
            i = i + 1;
            proof {
                assert(par(self@, m as int) =~= ps@.subrange(0, i as int));
                assert forall|j: int|
                    0 <= j < g0.len() && j != m && !ps@.subrange(0, i as int).contains(j as usize)
                    implies self@[j] == g0[j] by {
                    assert(!ps@.subrange(0, i - 1).contains(j as usize)) by {
                        if ps@.subrange(0, i - 1).contains(j as usize) {
                            let k = choose|k: int|
                                0 <= k < i - 1 && #[trigger] ps@.subrange(0, i - 1)[k]
                                    == j as usize;
                            assert(ps@.subrange(0, i as int)[k] == j as usize);
                        }
                    }
                    assert(j as usize != p) by {
                        if j as usize == p {
                            assert(ps@.subrange(0, i as int)[i - 1] == p);
                        }
                    }
                    assert(gpre[j] == g0[j]);
                }
                assert forall|k: int| 0 <= k < i implies live(self@, #[trigger] ps@[k] as int)
                    && gained_child(nd(g0, ps@[k] as int), nd(self@, ps@[k] as int), m) by {
                    if k < i - 1 {
                        assert(ps@[k] != ps@[i - 1]);
                        assert(ps@[k] != m);
                        assert(self@[ps@[k] as int] == gpre[ps@[k] as int]);
                    } else {
                        assert(gpre[p as int] == g0[p as int]);
                    }
                }
                assert forall|j: int| live(self@, j) implies !par(self@, j).contains(m) by {
                    if j == m {
                        if par(self@, m as int).contains(m) {
                            let k = choose|k: int|
                                0 <= k < ps@.subrange(0, i as int).len() && #[trigger] ps@.subrange(
                                    0,
                                    i as int,
                                )[k] == m;
                            assert(ps@[k] == m);
                        }
                    } else {
                        assert(par(self@, j) == par(gpre, j));
                    }
                }
            }
        }
        proof {
            assert(ps@.subrange(0, ps@.len() as int) =~= ps@);
        }
        // re-create the child edges on the copy
        let mut i2: usize = 0;
        while i2 < cs.len()
            invariant
                self.wf(),
                graph_wf(g0),
                g0.len() <= usize::MAX,
                live(g0, id as int),
                !live(g0, m as int),
                m as int <= g0.len(),
                ps@ == par(g0, id as int),
                cs@ == chl(g0, id as int),
                cs@.no_duplicates(),
                forall|k: int|
                    0 <= k < ps@.len() ==> live(g0, #[trigger] ps@[k] as int) && ps@[k] != m
                        && ps@[k] != id,
                forall|k: int|
                    0 <= k < cs@.len() ==> live(g0, #[trigger] cs@[k] as int) && cs@[k] != m
                        && cs@[k] != id && par(g0, cs@[k] as int).contains(id),
                forall|a: int, b: int| 0 <= a < ps@.len() && 0 <= b < cs@.len() ==> ps@[a] != cs@[b],
                i2 <= cs@.len(),
                self@.len() == if (m as int) < g0.len() {
                    g0.len() as int
                } else {
                    g0.len() as int + 1
                },
                live(self@, m as int),
                par(self@, m as int) == ps@,
                chl(self@, m as int) == cs@.subrange(0, i2 as int),
                nd(self@, m as int).values@ == nd(g0, id as int).values@,
                nd(self@, m as int).description@ == nd(g0, id as int).description@,
                nd(self@, m as int).observation == nd(g0, id as int).observation,
                nd(self@, m as int).credencies is None,
                forall|j: int|
                    0 <= j < g0.len() && j != m && !ps@.contains(j as usize) && !cs@.subrange(
                        0,
                        i2 as int,
                    ).contains(j as usize) ==> self@[j] == g0[j],
                forall|k: int|
                    0 <= k < ps@.len() ==> live(self@, #[trigger] ps@[k] as int) && gained_child(
                        nd(g0, ps@[k] as int),
                        nd(self@, ps@[k] as int),
                        m,
                    ),
                forall|k: int|
                    0 <= k < i2 ==> live(self@, #[trigger] cs@[k] as int) && gained_parent(
                        nd(g0, cs@[k] as int),
                        nd(self@, cs@[k] as int),
                        m,
                    ),
                forall|j: int|
                    live(self@, j) && j != m ==> par(self@, j) == par(g0, j) || par(self@, j)
                        == par(g0, j).push(m),
                forall|j: int|
                    j != m ==> (live(self@, j) <==> (0 <= j < g0.len() && live(g0, j))),
            decreases cs@.len() - i2,
        {
            let c = cs[i2];
            let ghost gpre = self@;
            proof {
                assert(self@[c as int] == g0[c as int]) by {
                    assert(!cs@.subrange(0, i2 as int).contains(c));
                    assert(!ps@.contains(c)) by {
                        if ps@.contains(c) {
                            let a = choose|a: int| 0 <= a < ps@.len() && ps@[a] == c;
                        }
                    }
                }
            }
            let r = self.add_edge(c, m);
            proof {
                match r {
                    Ok(()) => {},
                    Err(EdgeError::BadNode) => {
                        assert(live(gpre, m as int));
                        assert(live(gpre, c as int));
                    },
                    Err(EdgeError::WouldCycle) => {
                        lemma_transplant_unreachable(g0, gpre, id, m, c);
                    },
                    Err(EdgeError::AlreadyExisting) => {
                        assert(par(gpre, c as int) == par(g0, c as int));
                        if par(g0, c as int).contains(m) {
                            let k = choose|k: int|
                                0 <= k < par(g0, c as int).len() && par(g0, c as int)[k] == m;
                            assert(live(g0, par(g0, c as int)[k] as int));
                        }
                    },
                }
                assert(r is Ok);
                assert(edge_added(gpre, self@, c, m));
                lemma_push_contains(chl(gpre, m as int), c);
            }
            i2 = i2 + 1;
            proof {
                assert(chl(self@, m as int) =~= cs@.subrange(0, i2 as int));
                assert forall|j: int|
                    0 <= j < g0.len() && j != m && !ps@.contains(j as usize) && !cs@.subrange(
                        0,
                        i2 as int,
                    ).contains(j as usize) implies self@[j] == g0[j] by {
                    assert(!cs@.subrange(0, i2 - 1).contains(j as usize)) by {
                        if cs@.subrange(0, i2 - 1).contains(j as usize) {
                            let k = choose|k: int|
                                0 <= k < i2 - 1 && #[trigger] cs@.subrange(0, i2 - 1)[k]
                                    == j as usize;
                            assert(cs@.subrange(0, i2 as int)[k] == j as usize);
                        }
                    }
                    assert(j as usize != c) by {
                        if j as usize == c {
                            assert(cs@.subrange(0, i2 as int)[i2 - 1] == c);
                        }
                    }
                    assert(gpre[j] == g0[j]);
                }
                assert forall|k: int| 0 <= k < ps@.len() implies live(
                    self@,
                    #[trigger] ps@[k] as int,
                ) && gained_child(nd(g0, ps@[k] as int), nd(self@, ps@[k] as int), m) by {
                    assert(ps@[k] != c);
                    assert(ps@[k] != m);
                    assert(self@[ps@[k] as int] == gpre[ps@[k] as int]);
                }
                assert forall|k: int| 0 <= k < i2 implies live(self@, #[trigger] cs@[k] as int)
                    && gained_parent(nd(g0, cs@[k] as int), nd(self@, cs@[k] as int), m) by {
                    if k < i2 - 1 {
                        assert(cs@[k] != cs@[i2 - 1]);
                        assert(cs@[k] != m);
                        assert(self@[cs@[k] as int] == gpre[cs@[k] as int]);
                    } else {
                        assert(gpre[c as int] == g0[c as int]);
                    }
                }
                assert forall|j: int| live(self@, j) && j != m implies par(self@, j) == par(
                    g0,
                    j,
                ) || par(self@, j) == par(g0, j).push(m) by {
                    if j == c {
                        assert(par(gpre, c as int) == par(g0, c as int));
                    } else {
                        assert(par(self@, j) == par(gpre, j));
                    }
                }
            }
        }
        proof {
            assert(cs@.subrange(0, cs@.len() as int) =~= cs@);
        }
        // mark the copy's label
        let mut lab2 = lab;
        lab2.append(" (bis)");
        let ghost gb = self@;
        self.set_label(m, lab2);
        proof {
            assert(nd(self@, m as int) == (Node {
                label: lab2,
                ..nd(gb, m as int)
            }));
        }
        // restore the copied table and row annotations, lost to the edge path
        let ghost gl = self@;
        let mut slot2: Option<Node> = None;
        self.nodes.set_and_swap(m, &mut slot2);
        let mut nm2 = slot2.unwrap();
        nm2.credencies = creds;
        nm2.cred_description = cdesc;
        self.nodes.set(m, Some(nm2));
        proof {
            let g2 = self@;
            assert(nd(g2, m as int).credencies == creds);
            if creds is Some {
                assert(nd(g0, id as int).credencies is Some);
                let t0 = nd(g0, id as int).credencies->Some_0;
                assert(t0.shape_spec() == expected_shape(g0, id as int));
                assert(creds->Some_0.shape_spec() == t0.shape_spec());
                assert forall|k: int| 0 <= k < par(gl, m as int).len() implies card(
                    gl,
                    #[trigger] par(gl, m as int)[k] as int,
                ) == card(g0, par(g0, id as int)[k] as int) by {
                    assert(par(gl, m as int)[k] == ps@[k]);
                    assert(gained_child(nd(g0, ps@[k] as int), nd(gl, ps@[k] as int), m));
                }
                assert(expected_shape(gl, m as int) =~= expected_shape(g0, id as int));
            }
            lemma_local_fields_wf(gl, g2, m as int);
            assert(node_duplicated(g0, self@, id, m));
        }
        Some(m)
    }

    /// An element-wise copy of a node.
    pub fn clone_node(n: &Node) -> (r: Node)
        ensures
            node_like(r, *n),
    {
        Node {
            parents: copy_usizes(&n.parents),
            children: copy_usizes(&n.children),
            label: n.label.clone(),
            description: n.description.clone(),
            values: copy_strings(&n.values),
            credencies: match &n.credencies {
                Some(t) => Some(t.clone_table()),
                None => None,
            },
            cred_description: copy_strings(&n.cred_description),
            observation: n.observation,
        }
    }

    /// The live nodes with their identifiers, in ascending identifier
    /// order, one pair per live slot.
    pub fn iter_nodes(&self) -> (r: Vec<(usize, Node)>)
        ensures
            forall|k: int|
                0 <= k < r@.len() ==> live(self@, (#[trigger] r@[k]).0 as int) && node_like(
                    r@[k].1,
                    nd(self@, r@[k].0 as int),
                ),
            forall|k1: int, k2: int| 0 <= k1 < k2 < r@.len() ==> r@[k1].0 < r@[k2].0,
            forall|i: int|
                live(self@, i) ==> exists|k: int|
                    0 <= k < r@.len() && (#[trigger] r@[k]).0 == i as usize,
    {
        let mut out: Vec<(usize, Node)> = Vec::new();
        let mut i: usize = 0;
        while i < self.nodes.len()
            invariant
                i <= self@.len(),
                forall|k: int|
                    0 <= k < out@.len() ==> (#[trigger] out@[k]).0 < i && live(
                        self@,
                        out@[k].0 as int,
                    ) && node_like(out@[k].1, nd(self@, out@[k].0 as int)),
                forall|k1: int, k2: int| 0 <= k1 < k2 < out@.len() ==> out@[k1].0 < out@[k2].0,
                forall|j: int|
                    0 <= j < i && live(self@, j) ==> exists|k: int|
                        0 <= k < out@.len() && (#[trigger] out@[k]).0 == j as usize,
            decreases self@.len() - i,
        {
            match self.nodes[i].as_ref() {
                Some(n) => {
                    let ghost out0 = out@;
                    out.push((i, Self::clone_node(n)));
                    proof {
                        assert(out@[out@.len() - 1].0 == i as usize);
                        assert forall|j: int|
                            0 <= j < i + 1 && live(self@, j) implies exists|k: int|
                            0 <= k < out@.len() && (#[trigger] out@[k]).0 == j as usize by {
                            if j < i {
                                let k = choose|k: int|
                                    0 <= k < out0.len() && (#[trigger] out0[k]).0 == j as usize;
                                assert(out@[k].0 == j as usize);
                            } else {
                                assert(out@[out@.len() - 1].0 == j as usize);
                            }
                        }
                    }
                },
                None => {},
            }
            i = i + 1;
        }
        out
    }
}

} // verus!
