//! The typed dataflow graph and its evaluator.
//!
//! The graph owns a set of nodes, addressed by process-unique
//! identifiers, and a set of edges from output ports to input ports.
//! Three invariants are maintained across every mutation: the node-level
//! arc relation is acyclic, no input port has more than one incoming
//! edge, and every edge connects ports of compatible kinds.  A rejected
//! mutation leaves the graph exactly as it was.

use vstd::prelude::*;
use vstd::set_lib::lemma_len_subset;

use crate::data_type::DataType;
use crate::data_type::TypedData;
use crate::digraph::acyclic;
use crate::digraph::lemma_acyclic_insert;
use crate::digraph::lemma_acyclic_mono;
use crate::digraph::lemma_arc_reaches;
use crate::digraph::lemma_closed_set_reach;
use crate::digraph::lemma_insert_makes_cycle;
use crate::digraph::lemma_reaches_mono;
use crate::digraph::lemma_reaches_refl;
use crate::digraph::lemma_reaches_trans;
use crate::digraph::lemma_source_exists;
use crate::digraph::has_cycle;
use crate::digraph::is_path;
use crate::digraph::reaches;
use crate::digraph::lemma_reaches_arc_cycle;
use crate::nodes::lemma_same_shape_trans;
use crate::nodes::lemma_with_literal_shape;
use crate::nodes::literal_settable;
use crate::nodes::with_literal;
use crate::nodes::NumberNode;
use crate::nodes::StringNode;
use crate::nodes::lemma_updated_idempotent;
use crate::nodes::lemma_updated_shape;
use crate::nodes::same_shape;
use crate::nodes::DemoNode;

verus! {

/// One directed connection, from an output port of `src_node` to an
/// input port of `dst_node`.
#[derive(Debug, Clone, Copy, PartialEq, Eq, Structural)]
pub struct Edge {
    pub src_node: u64,
    pub src_port: usize,
    pub dst_node: u64,
    pub dst_port: usize,
}

/// Everything a mutating operation can be rejected with.  All of these
/// are recoverable and leave the structure they were reported by
/// unchanged.
#[derive(Debug, Clone, Copy, PartialEq, Eq, Structural)]
pub enum GraphError {
    /// An operation referenced a node identifier that is not present.
    UnknownNode,
    /// A port index exceeds the node's declared port count.
    PortOutOfRange,
    /// The source and destination port kinds are incompatible.
    TypeMismatch,
    /// Committing the edge would close a cycle.
    WouldCreateCycle,
    /// A task-tracker operation referenced a task that is not pending.
    NotPending,
}

/// A stored node together with its identifier.
#[derive(Debug)]
pub struct NodeEntry {
    pub id: u64,
    pub node: DemoNode,
}

/// The typed graph: nodes in insertion order, edges, and the next fresh
/// identifier.  All mutation goes through the validated operations;
/// [`NodeGraph::wf`] is the well-formedness every operation preserves.
#[derive(Debug)]
pub struct NodeGraph {
    pub nodes: Vec<NodeEntry>,
    pub edges: Vec<Edge>,
    pub next_id: u64,
}

impl NodeGraph {
    /// The node identifiers, in insertion order.
    pub open spec fn ids(self) -> Seq<u64> {
        self.nodes@.map_values(|e: NodeEntry| e.id)
    }

    /// Whether a node with identifier `id` is present.
    pub open spec fn has_node(self, id: u64) -> bool {
        self.ids().contains(id)
    }

    /// The storage index of the node with identifier `id` (well defined
    /// when `id` is present, because identifiers are unique).
    pub open spec fn idx_of(self, id: u64) -> int {
        choose|i: int| 0 <= i < self.nodes@.len() && self.nodes@[i].id == id
    }

    /// The node stored under identifier `id`.
    pub open spec fn node_of(self, id: u64) -> DemoNode {
        self.nodes@[self.idx_of(id)].node
    }

    /// The node identifiers as a set.
    pub open spec fn id_set(self) -> Set<u64> {
        self.ids().to_set()
    }

    /// The node-level arc relation: an arc from `a` to `b` iff some edge
    /// leaves a port of `a` for a port of `b`.
    pub open spec fn arcs(self) -> Set<(u64, u64)> {
        Set::new(
            |pr: (u64, u64)|
                exists|k: int|
                    0 <= k < self.edges@.len() && (#[trigger] self.edges@[k]).src_node == pr.0
                        && self.edges@[k].dst_node == pr.1,
        )
    }

    /// Whether input port `dp` of node `dn` has an incoming edge.
    pub open spec fn has_edge_at(self, dn: u64, dp: int) -> bool {
        exists|k: int|
            0 <= k < self.edges@.len() && (#[trigger] self.edges@[k]).dst_node == dn
                && self.edges@[k].dst_port == dp
    }

    /// The unique edge into input port `dp` of node `dn` (well defined
    /// when present, by the single-writer invariant).
    pub open spec fn edge_at(self, dn: u64, dp: int) -> Edge {
        self.edges@[choose|k: int|
            0 <= k < self.edges@.len() && (#[trigger] self.edges@[k]).dst_node == dn
                && self.edges@[k].dst_port == dp]
    }

    /// The edges as a map from occupied input port to feeding output
    /// port.  Because each input port holds at most one edge, this map
    /// is the whole semantic content of the edge set.
    pub open spec fn edge_map(self) -> Map<(u64, int), (u64, int)> {
        Map::new(
            |dk: (u64, int)| self.has_edge_at(dk.0, dk.1),
            |dk: (u64, int)|
                {
                    let e = self.edge_at(dk.0, dk.1);
                    (e.src_node, e.src_port as int)
                },
        )
    }

    /// A single edge is structurally valid: its endpoints exist, its
    /// port indices are in range, and the port kinds are compatible.
    pub open spec fn edge_ok(self, e: Edge) -> bool {
        &&& self.has_node(e.src_node)
        &&& self.has_node(e.dst_node)
        &&& e.src_port < self.node_of(e.src_node).output_kinds().len()
        &&& e.dst_port < self.node_of(e.dst_node).input_kinds().len()
        &&& self.node_of(e.src_node).output_kinds()[e.src_port as int].compatible_spec(
            self.node_of(e.dst_node).input_kinds()[e.dst_port as int],
        )
    }

    /// Well-formedness, preserved by every operation: identifiers are
    /// unique and below the allocation counter, every edge is valid and
    /// targets a distinct input port, and the arc relation is acyclic.
    pub open spec fn wf(self) -> bool {
        &&& self.ids().no_duplicates()
        &&& forall|i: int|
            0 <= i < self.nodes@.len() ==> (#[trigger] self.nodes@[i]).id < self.next_id
        &&& forall|k: int| 0 <= k < self.edges@.len() ==> self.edge_ok(#[trigger] self.edges@[k])
        &&& forall|k1: int, k2: int|
            0 <= k1 < k2 < self.edges@.len() ==> !((#[trigger] self.edges@[k1]).dst_node
                == (#[trigger] self.edges@[k2]).dst_node && self.edges@[k1].dst_port
                == self.edges@[k2].dst_port)
        &&& acyclic(self.arcs())
    }

    /// The value arriving at input port `i` of node `id`: the cached
    /// output of whatever feeds it, absent if the port is unconnected.
    pub open spec fn gathered_at(self, id: u64, i: int) -> Option<TypedData> {
        if self.has_edge_at(id, i) {
            let e = self.edge_at(id, i);
            self.node_of(e.src_node).out_val(e.src_port as int)
        } else {
            None
        }
    }

    /// One optional value per declared input port of node `id`.
    pub open spec fn gathered(self, id: u64) -> Seq<Option<TypedData>> {
        Seq::new(self.node_of(id).input_kinds().len(), |i: int| self.gathered_at(id, i))
    }

    /// Node `id` is consistent: recomputing it from what currently
    /// arrives at its inputs would not change it.
    pub open spec fn consistent_at(self, id: u64) -> bool {
        self.node_of(id) == self.node_of(id).updated(self.gathered(id))
    }

    /// The downstream closure of `n`: every node reachable from `n` by
    /// following arcs forward, including `n` itself.
    pub open spec fn reach_set(self, n: u64) -> Set<u64> {
        Set::new(|x: u64| reaches(self.arcs(), n, x))
    }

    /// The upstream closure of `n`: every node that reaches `n`,
    /// including `n` itself.  In a well-formed graph this is a finite
    /// set, and it shrinks strictly along an arc — the measure on which
    /// the denotational value of a node is defined.
    pub open spec fn upstream_of(self, n: u64) -> Set<u64> {
        Set::new(|u: u64| reaches(self.arcs(), u, n))
    }

    /// The set of nodes an evaluation visits: everything, or the
    /// downstream closure of the seed.
    pub open spec fn visited_set(self, start: Option<u64>) -> Set<u64> {
        match start {
            None => self.id_set(),
            Some(n) => self.reach_set(n),
        }
    }

    /// An index holding identifier `id` is the unique such index.
    proof fn lemma_idx_unique(self, i: int, id: u64)
        requires
            self.ids().no_duplicates(),
            0 <= i < self.nodes@.len(),
            self.nodes@[i].id == id,
        ensures
            self.has_node(id),
            self.idx_of(id) == i,
            self.node_of(id) == self.nodes@[i].node,
    {
        assert(self.ids()[i] == id);
        assert(self.has_node(id));
        let j = self.idx_of(id);
        assert(0 <= j < self.nodes@.len() && self.nodes@[j].id == id);
        if i != j {
            assert(self.ids()[i] == self.ids()[j]);
            assert(false);
        }
    }

    /// Any edge index into port `(dn, dp)` holds the edge `edge_at`
    /// names, by the single-writer invariant.
    proof fn lemma_edge_at_unique(self, k: int, dn: u64, dp: int)
        requires
            self.wf(),
            0 <= k < self.edges@.len(),
            self.edges@[k].dst_node == dn,
            self.edges@[k].dst_port == dp,
        ensures
            self.has_edge_at(dn, dp),
            self.edge_at(dn, dp) == self.edges@[k],
    {
        assert(self.has_edge_at(dn, dp));
        let k2 = choose|k2: int|
            0 <= k2 < self.edges@.len() && (#[trigger] self.edges@[k2]).dst_node == dn
                && self.edges@[k2].dst_port == dp;
        if k < k2 || k2 < k {
            assert(false);
        }
    }

    /// Creates an empty graph.
    pub fn new() -> (r: Self)
        ensures
            r.wf(),
            r.nodes@.len() == 0,
            r.edges@.len() == 0,
            r.next_id == 0,
    {
        let r = NodeGraph { nodes: Vec::new(), edges: Vec::new(), next_id: 0 };
        proof {
            assert(r.ids() =~= Seq::<u64>::empty());
            if has_cycle(r.arcs()) {
                let p = choose|p: Seq<u64>|
                    is_path(r.arcs(), p) && p.len() >= 2 && p.first() == p.last();
                assert(r.arcs().contains((p[0int], p[0int + 1])));
            }
        }
        r
    }

    /// Stores a node under a fresh identifier and returns it.  Insertion
    /// creates no edges and always succeeds (short of exhausting the
    /// identifier space).
    pub fn insert_node(&mut self, node: DemoNode) -> (id: u64)
        requires
            old(self).wf(),
            old(self).next_id < u64::MAX,
        ensures
            final(self).wf(),
            id == old(self).next_id,
            !old(self).has_node(id),
            final(self).has_node(id),
            final(self).node_of(id) == node,
            forall|id2: u64|
                old(self).has_node(id2) ==> final(self).has_node(id2)
                    && final(self).node_of(id2) == old(self).node_of(id2),
            final(self).nodes@ == old(self).nodes@.push(NodeEntry { id, node }),
            final(self).edges@ == old(self).edges@,
            final(self).next_id == old(self).next_id + 1,
    {
        let id = self.next_id;
        let ghost g0 = *self;
        self.nodes.push(NodeEntry { id, node });
        self.next_id = self.next_id + 1;
        proof {
            assert(self.ids() =~= g0.ids().push(id));
            if g0.ids().contains(id) {
                let i = choose|i: int| 0 <= i < g0.ids().len() && g0.ids()[i] == id;
                assert(g0.nodes@[i].id == id);
                assert(false);
            }
            assert(self.ids().no_duplicates());
            let i = self.nodes@.len() - 1;
            assert(self.nodes@[i].id == id);
            self.lemma_idx_unique(i, id);
            assert forall|id2: u64| g0.has_node(id2) implies self.has_node(id2) && self.node_of(
                id2,
            ) == g0.node_of(id2) by {
                let j = choose|j: int| 0 <= j < g0.ids().len() && g0.ids()[j] == id2;
                assert(g0.nodes@[j].id == id2);
                g0.lemma_idx_unique(j, id2);
                assert(self.nodes@[j] == g0.nodes@[j]);
                self.lemma_idx_unique(j, id2);
            }
            assert(self.arcs() =~= g0.arcs());
            assert forall|k: int| 0 <= k < self.edges@.len() implies self.edge_ok(
                #[trigger] self.edges@[k],
            ) by {
                let e = self.edges@[k];
                assert(g0.edge_ok(e));
                let si = g0.idx_of(e.src_node);
                let di = g0.idx_of(e.dst_node);
                assert(self.nodes@[si].id == e.src_node);
                assert(self.nodes@[di].id == e.dst_node);
                self.lemma_idx_unique(si, e.src_node);
                self.lemma_idx_unique(di, e.dst_node);
            }
        }
        id
    }

    /// Finds the storage index of identifier `id`, if present.
    fn find_node(&self, id: u64) -> (r: Option<usize>)
        requires
            self.ids().no_duplicates(),
        ensures
            match r {
                Some(i) => i < self.nodes@.len() && self.nodes@[i as int].id == id
                    && self.has_node(id) && self.idx_of(id) == i as int,
                None => !self.has_node(id),
            },
    {
        let mut i: usize = 0;
        while i < self.nodes.len()
            invariant
                i <= self.nodes@.len(),
                forall|j: int| 0 <= j < i ==> (#[trigger] self.nodes@[j]).id != id,
                self.ids().no_duplicates(),
            decreases self.nodes@.len() - i,
        {
            if self.nodes[i].id == id {
                proof {
                    self.lemma_idx_unique(i as int, id);
                }
                return Some(i);
            }
            i = i + 1;
        }
        proof {
            if self.has_node(id) {
                let j = choose|j: int| 0 <= j < self.ids().len() && self.ids()[j] == id;
                assert(self.nodes@[j].id == id);
                assert(false);
            }
        }
        None
    }

    /// Finds the storage index of an identifier that is known to be
    /// present.
    fn find_node_must(&self, id: u64) -> (i: usize)
        requires
            self.ids().no_duplicates(),
            self.has_node(id),
        ensures
            i < self.nodes@.len(),
            self.nodes@[i as int].id == id,
            self.idx_of(id) == i as int,
            self.node_of(id) == self.nodes@[i as int].node,
    {
        match self.find_node(id) {
            Some(i) => i,
            None => {
                proof {
                    assert(false);
                }
                0
            },
        }
    }

    /// Finds the index of the edge into input port `(dn, dp)`, if any.
    fn find_edge_at(&self, dn: u64, dp: usize) -> (r: Option<usize>)
        requires
            self.wf(),
        ensures
            match r {
                Some(k) => k < self.edges@.len() && self.edges@[k as int].dst_node == dn
                    && self.edges@[k as int].dst_port == dp && self.has_edge_at(dn, dp as int)
                    && self.edge_at(dn, dp as int) == self.edges@[k as int],
                None => !self.has_edge_at(dn, dp as int),
            },
    {
        let mut k: usize = 0;
        while k < self.edges.len()
            invariant
                k <= self.edges@.len(),
                forall|j: int|
                    0 <= j < k ==> !((#[trigger] self.edges@[j]).dst_node == dn
                        && self.edges@[j].dst_port == dp),
                self.wf(),
            decreases self.edges@.len() - k,
        {
            let e = self.edges[k];
            if e.dst_node == dn && e.dst_port == dp {
                proof {
                    self.lemma_edge_at_unique(k as int, dn, dp as int);
                }
                return Some(k);
            }
            k = k + 1;
        }
        None
    }

    /// The cached value of output port `idx` of node `id`, absent while
    /// the node has not produced one.
    pub fn output_value(&self, id: u64, idx: usize) -> (r: Option<TypedData>)
        requires
            self.wf(),
            self.has_node(id),
            idx < self.node_of(id).output_kinds().len(),
        ensures
            r == self.node_of(id).out_val(idx as int),
    {
        let i = self.find_node_must(id);
        self.nodes[i].node.output_value(idx)
    }

    /// The value currently arriving at input port `idx` of node `id`:
    /// the connected upstream output's cached value, absent if the port
    /// is unconnected.  This is what a display terminus shows.
    pub fn input_value(&self, id: u64, idx: usize) -> (r: Option<TypedData>)
        requires
            self.wf(),
            self.has_node(id),
            idx < self.node_of(id).input_kinds().len(),
        ensures
            r == self.gathered_at(id, idx as int),
    {
        match self.find_edge_at(id, idx) {
            Some(k) => {
                let e = self.edges[k];
                proof {
                    assert(self.edge_ok(self.edges@[k as int]));
                }
                let si = self.find_node_must(e.src_node);
                self.nodes[si].node.output_value(e.src_port)
            },
            None => None,
        }
    }

    /// The number of declared input ports of node `id`.
    pub fn input_count(&self, id: u64) -> (r: usize)
        requires
            self.wf(),
            self.has_node(id),
        ensures
            r == self.node_of(id).input_kinds().len(),
    {
        let i = self.find_node_must(id);
        self.nodes[i].node.input_count()
    }

    /// The number of declared output ports of node `id`.
    pub fn output_count(&self, id: u64) -> (r: usize)
        requires
            self.wf(),
            self.has_node(id),
        ensures
            r == self.node_of(id).output_kinds().len(),
    {
        let i = self.find_node_must(id);
        self.nodes[i].node.output_count()
    }

    /// The node identifiers, in insertion order.
    pub fn node_list(&self) -> (r: Vec<u64>)
        ensures
            r@ == self.ids(),
    {
        let mut r: Vec<u64> = Vec::new();
        let mut i: usize = 0;
        while i < self.nodes.len()
            invariant
                i <= self.nodes@.len(),
                r@.len() == i,
                forall|j: int| 0 <= j < i ==> r@[j] == (#[trigger] self.nodes@[j]).id,
            decreases self.nodes@.len() - i,
        {
            r.push(self.nodes[i].id);
            i = i + 1;
        }
        proof {
            assert(r@ =~= self.ids());
        }
        r
    }

    /// The edges, in storage order.
    pub fn edge_list(&self) -> (r: Vec<Edge>)
        ensures
            r@ == self.edges@,
    {
        let mut r: Vec<Edge> = Vec::new();
        let mut i: usize = 0;
        while i < self.edges.len()
            invariant
                i <= self.edges@.len(),
                r@.len() == i,
                forall|j: int| 0 <= j < i ==> r@[j] == self.edges@[j],
            decreases self.edges@.len() - i,
        {
            r.push(self.edges[i]);
            i = i + 1;
        }
        proof {
            assert(r@ =~= self.edges@);
        }
        r
    }

    /// The edges of `s` that do not touch node `id` on either side, in
    /// their original order.
    pub open spec fn edges_not_incident(s: Seq<Edge>, id: u64) -> Seq<Edge> {
        s.filter(|e: Edge| e.src_node != id && e.dst_node != id)
    }

    /// Deletes node `id` together with every edge incident to it, in
    /// either direction; the remaining nodes and edges keep their
    /// order.  Fails with `UnknownNode`, leaving the graph unchanged,
    /// if `id` is not present.
    #[verifier::loop_isolation(false)]
    pub fn remove_node(&mut self, id: u64) -> (r: Result<(), GraphError>)
        requires
            old(self).wf(),
        ensures
            final(self).wf(),
            r is Err ==> *final(self) == *old(self),
            (r == Result::<(), GraphError>::Err(GraphError::UnknownNode)) <==> !old(
                self,
            ).has_node(id),
            r is Ok <==> old(self).has_node(id),
            r is Ok ==> final(self).nodes@ == old(self).nodes@.remove(old(self).idx_of(id)),
            r is Ok ==> !final(self).has_node(id),
            r is Ok ==> forall|id2: u64|
                old(self).has_node(id2) && id2 != id
                    ==> final(self).has_node(id2)
                    && final(self).node_of(id2) == old(self).node_of(id2),
            r is Ok ==> final(self).next_id == old(self).next_id,
            r is Ok ==> final(self).edges@ == Self::edges_not_incident(old(self).edges@, id),
    {
        let i = match self.find_node(id) {
            Some(i) => i,
            None => {
                return Err(GraphError::UnknownNode);
            },
        };
        let ghost g0 = *self;
        let mut kept: Vec<Edge> = Vec::new();
        let mut k: usize = 0;
        while k < self.edges.len()
            invariant
                k <= self.edges@.len(),
                kept@ == Self::edges_not_incident(self.edges@.subrange(0, k as int), id),
                forall|j: int|
                    0 <= j < kept@.len() ==> exists|k2: int|
                        0 <= k2 < k && #[trigger] kept@[j] == self.edges@[k2],
                forall|j1: int, j2: int|
                    0 <= j1 < j2 < kept@.len() ==> !((#[trigger] kept@[j1]).dst_node
                        == (#[trigger] kept@[j2]).dst_node && kept@[j1].dst_port
                        == kept@[j2].dst_port),
            decreases self.edges@.len() - k,
        {
            let e = self.edges[k];
            proof {
                reveal_with_fuel(Seq::filter, 2);
                let sub1 = self.edges@.subrange(0, k + 1);
                assert(sub1.drop_last() =~= self.edges@.subrange(0, k as int));
                assert(sub1.last() == e);
            }
            if e.src_node != id && e.dst_node != id {
                let ghost kept0 = kept@;
                kept.push(e);
                proof {
                    assert(kept@ == kept0.push(e));
                    assert forall|j1: int, j2: int|
                        0 <= j1 < j2 < kept@.len() implies !((#[trigger] kept@[j1]).dst_node
                        == (#[trigger] kept@[j2]).dst_node && kept@[j1].dst_port
                        == kept@[j2].dst_port) by {
                        if j2 == kept@.len() - 1 {
                            assert(kept@[j2] == e);
                            let k1 = choose|k1: int|
                                0 <= k1 < k && #[trigger] kept0[j1] == self.edges@[k1];
                            assert(kept@[j1] == self.edges@[k1]);
                            assert(e == self.edges@[k as int]);
                        }
                    }
                }
            }
            k = k + 1;
        }
        proof {
            assert(self.edges@.subrange(0, self.edges@.len() as int) =~= self.edges@);
        }
        self.edges = kept;
        let _entry = self.nodes.remove(i);
        proof {
            let ii = i as int;
            assert(self.ids() =~= g0.ids().remove(ii));
            assert forall|j1: int, j2: int| 0 <= j1 < j2 < self.ids().len() implies self.ids()[j1]
                != self.ids()[j2] by {
                let m1 = if j1 < ii {
                    j1
                } else {
                    j1 + 1
                };
                let m2 = if j2 < ii {
                    j2
                } else {
                    j2 + 1
                };
                assert(self.nodes@[j1] == g0.nodes@[m1]);
                assert(self.nodes@[j2] == g0.nodes@[m2]);
                assert(g0.ids()[m1] == g0.nodes@[m1].id);
                assert(g0.ids()[m2] == g0.nodes@[m2].id);
            }
            // the removed identifier is gone
            if self.has_node(id) {
                let j = choose|j: int| 0 <= j < self.ids().len() && self.ids()[j] == id;
                let m = if j < ii {
                    j
                } else {
                    j + 1
                };
                assert(self.nodes@[j] == g0.nodes@[m]);
                assert(m != ii);
                assert(g0.ids()[m] == id && g0.ids()[ii] == id);
                assert(false);
            }
            // every other node reads back unchanged
            assert forall|id2: u64| g0.has_node(id2) && id2 != id implies self.has_node(id2)
                && self.node_of(id2) == g0.node_of(id2) by {
                let m = choose|m: int| 0 <= m < g0.ids().len() && g0.ids()[m] == id2;
                assert(g0.nodes@[m].id == id2);
                g0.lemma_idx_unique(m, id2);
                assert(m != ii);
                let j = if m < ii {
                    m
                } else {
                    m - 1
                };
                assert(self.nodes@[j] == g0.nodes@[m]);
                self.lemma_idx_unique(j, id2);
            }
            // the kept edges are valid in the smaller graph
            assert forall|k2: int| 0 <= k2 < self.edges@.len() implies self.edge_ok(
                #[trigger] self.edges@[k2],
            ) by {
                let e = self.edges@[k2];
                let m = choose|m: int| 0 <= m < g0.edges@.len() && e == g0.edges@[m];
                assert(g0.edge_ok(e));
                assert(e.src_node != id && e.dst_node != id) by {
                    assert(Self::edges_not_incident(g0.edges@, id)[k2] == e);
                    g0.edges@.lemma_filter_pred(
                        |e2: Edge| e2.src_node != id && e2.dst_node != id,
                        k2,
                    );
                }
            }
            // the arc relation only shrank
            assert forall|pr: (u64, u64)| self.arcs().contains(pr) implies g0.arcs().contains(
                pr,
            ) by {
                let k2 = choose|k2: int|
                    0 <= k2 < self.edges@.len() && (#[trigger] self.edges@[k2]).src_node == pr.0
                        && self.edges@[k2].dst_node == pr.1;
                let m = choose|m: int| 0 <= m < g0.edges@.len() && self.edges@[k2] == g0.edges@[m];
                assert(g0.arcs().contains(pr));
            }
            lemma_acyclic_mono(self.arcs(), g0.arcs());
            assert(self.wf());
        }
        Ok(())
    }

    /// Sets the literal value of the source node `id` and propagates the
    /// change through its downstream closure.  Fails, leaving the graph
    /// unchanged, with `UnknownNode` if `id` is not present and with
    /// `TypeMismatch` if the node is not a source accepting a value of
    /// this kind.
    pub fn set_literal_value(&mut self, id: u64, value: TypedData) -> (r: Result<(), GraphError>)
        requires
            old(self).wf(),
        ensures
            final(self).wf(),
            r is Err ==> *final(self) == *old(self),
            (r == Result::<(), GraphError>::Err(GraphError::UnknownNode)) <==> !old(
                self,
            ).has_node(id),
            (r == Result::<(), GraphError>::Err(GraphError::TypeMismatch)) <==> (old(
                self,
            ).has_node(id) && !literal_settable(old(self).node_of(id), value)),
            r is Ok <==> (old(self).has_node(id) && literal_settable(old(self).node_of(id), value)),
            r is Ok ==> final(self).edges@ == old(self).edges@ && final(self).next_id == old(
                self,
            ).next_id && final(self).ids() == old(self).ids(),
            r is Ok ==> final(self).node_of(id) == with_literal(old(self).node_of(id), value),
            r is Ok ==> forall|i: int|
                0 <= i < old(self).nodes@.len() && (#[trigger] old(self).nodes@[i]).id != id
                    && !final(self).reach_set(id).contains(old(self).nodes@[i].id)
                    ==> final(self).nodes@[i] == old(self).nodes@[i],
            r is Ok ==> forall|i: int|
                0 <= i < old(self).nodes@.len() && (#[trigger] old(self).nodes@[i]).id != id
                    ==> same_shape(old(self).nodes@[i].node, final(self).nodes@[i].node),
            r is Ok ==> forall|x: u64|
                #[trigger] final(self).reach_set(id).contains(x) ==> final(self).consistent_at(x),
            // recomputing only the source's downstream closure suffices:
            // a graph that was consistent outside it is consistent
            // everywhere afterwards
            r is Ok ==> ((forall|x: u64|
                old(self).has_node(x) && !final(self).reach_set(id).contains(x)
                    ==> #[trigger] old(self).consistent_at(x)) ==> (forall|x: u64|
                #[trigger] final(self).has_node(x) ==> final(self).consistent_at(x))),
    {
        let i = match self.find_node(id) {
            Some(i) => i,
            None => {
                return Err(GraphError::UnknownNode);
            },
        };
        let settable = match (&self.nodes[i].node, &value) {
            (DemoNode::Number(_), TypedData::Number(_)) => true,
            (DemoNode::Text(_), TypedData::String(_)) => true,
            _ => false,
        };
        if !settable {
            return Err(GraphError::TypeMismatch);
        }
        let ghost g0 = *self;
        let entry = self.nodes.remove(i);
        let newnode = match (entry.node, value) {
            (DemoNode::Number(_), TypedData::Number(x)) => DemoNode::Number(
                NumberNode { value: x },
            ),
            (DemoNode::Text(_), TypedData::String(s)) => DemoNode::Text(StringNode { value: s }),
            (other, _) => other,
        };
        self.nodes.insert(i, NodeEntry { id, node: newnode });
        proof {
            let ii = i as int;
            assert(newnode == with_literal(g0.nodes@[ii].node, value));
            assert(self.nodes@ =~= g0.nodes@.update(ii, NodeEntry { id, node: newnode }));
            assert(self.ids() =~= g0.ids());
            assert(self.arcs() =~= g0.arcs());
            lemma_with_literal_shape(g0.nodes@[ii].node, value);
            g0.lemma_idx_unique(ii, id);
            self.lemma_idx_unique(ii, id);
            assert forall|id0: u64| g0.has_node(id0) && id0 != id implies self.has_node(id0)
                && self.node_of(id0) == g0.node_of(id0) by {
                NodeGraph::lemma_node_of_stable(g0, *self, id0);
            }
            assert forall|k: int| 0 <= k < self.edges@.len() implies self.edge_ok(
                #[trigger] self.edges@[k],
            ) by {
                let e = self.edges@[k];
                assert(g0.edge_ok(e));
                if e.src_node == id {
                    assert(self.node_of(e.src_node).output_kinds() == g0.node_of(
                        e.src_node,
                    ).output_kinds());
                }
                if e.dst_node == id {
                    assert(self.node_of(e.dst_node).input_kinds() == g0.node_of(
                        e.dst_node,
                    ).input_kinds());
                }
            }
            assert(self.wf());
        }
        let ghost gcommit = *self;
        DemoViewer::evaluate(self, Some(id));
        proof {
            assert(self.arcs() =~= gcommit.arcs());
            assert(self.reach_set(id) =~= gcommit.reach_set(id));
            assert(gcommit.visited_set(Some(id)) == gcommit.reach_set(id));
            assert(self.ids() =~= gcommit.ids());
            // the seed is a source: recomputation leaves it unchanged
            assert(gcommit.reach_set(id).contains(id)) by {
                lemma_reaches_refl(gcommit.arcs(), id);
            }
            assert(self.nodes@[i as int].id == id);
            assert(same_shape(gcommit.nodes@[i as int].node, self.nodes@[i as int].node));
            assert(self.node_of(id) == self.nodes@[i as int].node) by {
                self.lemma_idx_unique(i as int, id);
            }
            assert(self.node_of(id) == newnode) by {
                if !(newnode is Add) {
                    assert(self.nodes@[i as int].node == gcommit.nodes@[i as int].node);
                }
            }
            assert forall|i2: int|
                0 <= i2 < g0.nodes@.len() && (#[trigger] g0.nodes@[i2]).id != id
                    && !self.reach_set(id).contains(g0.nodes@[i2].id) implies self.nodes@[i2]
                == g0.nodes@[i2] by {
                assert(gcommit.nodes@[i2] == g0.nodes@[i2]);
                assert(!gcommit.visited_set(Some(id)).contains(gcommit.nodes@[i2].id));
            }
            assert forall|x: u64| #[trigger] self.reach_set(id).contains(x) implies
                self.consistent_at(x) by {
                assert(gcommit.visited_set(Some(id)).contains(x));
            }
            // outside the closure, each node and everything feeding it
            // are untouched, so consistency carries over
            assert(self.edges@ == g0.edges@);
            assert(self.arcs() =~= g0.arcs());
            assert(self.ids() =~= g0.ids());
            assert forall|y: u64|
                self.has_node(y) && !self.reach_set(id).contains(y) implies g0.has_node(y) && (
            #[trigger] self.node_of(y)) == g0.node_of(y) by {
                let iy = choose|iy: int| 0 <= iy < self.ids().len() && self.ids()[iy] == y;
                assert(g0.ids()[iy] == y);
                assert(g0.nodes@[iy].id == y);
                g0.lemma_idx_unique(iy, y);
                lemma_reaches_refl(self.arcs(), id);
                assert(y != id);
                assert(iy != i as int);
                assert(gcommit.nodes@[iy] == g0.nodes@[iy]);
                assert(!gcommit.visited_set(Some(id)).contains(gcommit.nodes@[iy].id));
                assert(self.nodes@[iy] == gcommit.nodes@[iy]);
                self.lemma_idx_unique(iy, y);
            }
            if forall|x: u64|
                g0.has_node(x) && !self.reach_set(id).contains(x)
                    ==> #[trigger] g0.consistent_at(x) {
                assert forall|x: u64| #[trigger] self.has_node(x) implies self.consistent_at(
                    x,
                ) by {
                    if !self.reach_set(id).contains(x) {
                        assert(self.node_of(x) == g0.node_of(x));
                        assert forall|s: u64| #[trigger] g0.arcs().contains((s, x)) implies
                            self.has_node(s) && self.node_of(s) == g0.node_of(s) by {
                            assert(self.arcs().contains((s, x)));
                            if self.reach_set(id).contains(s) {
                                lemma_arc_reaches(self.arcs(), s, x);
                                lemma_reaches_trans(self.arcs(), id, s, x);
                                assert(false);
                            }
                            let k = choose|k: int|
                                0 <= k < g0.edges@.len() && (#[trigger] g0.edges@[k]).src_node == s
                                    && g0.edges@[k].dst_node == x;
                            assert(g0.edge_ok(g0.edges@[k]));
                        }
                        NodeGraph::lemma_gathered_stable(g0, *self, x);
                        assert(g0.consistent_at(x));
                    }
                }
            }
        }
        Ok(())
    }

    /// Both endpoints of a prospective edge exist.
    pub open spec fn conn_nodes_ok(self, src_node: u64, dst_node: u64) -> bool {
        self.has_node(src_node) && self.has_node(dst_node)
    }

    /// Both port indices of a prospective edge are within the declared
    /// port counts.
    pub open spec fn conn_ports_ok(
        self,
        src_node: u64,
        src_port: usize,
        dst_node: u64,
        dst_port: usize,
    ) -> bool {
        src_port < self.node_of(src_node).output_kinds().len() && dst_port < self.node_of(
            dst_node,
        ).input_kinds().len()
    }

    /// The kinds of a prospective edge's ports are compatible.
    pub open spec fn conn_compat(
        self,
        src_node: u64,
        src_port: usize,
        dst_node: u64,
        dst_port: usize,
    ) -> bool {
        self.node_of(src_node).output_kinds()[src_port as int].compatible_spec(
            self.node_of(dst_node).input_kinds()[dst_port as int],
        )
    }

    /// Validates and commits an edge from `(src_node, src_port)` to
    /// `(dst_node, dst_port)`.  Any edge already occupying the
    /// destination port is silently replaced.  The call fails — leaving
    /// the graph exactly as it was — with `UnknownNode` if an endpoint
    /// does not exist, `PortOutOfRange` if a port index is out of range,
    /// `TypeMismatch` if the port kinds are incompatible, and
    /// `WouldCreateCycle` if the destination node already reaches the
    /// source node, which is exactly when the new edge would close a
    /// cycle.  On success the evaluator is run seeded at the destination
    /// node.
    pub fn connect(
        &mut self,
        src_node: u64,
        src_port: usize,
        dst_node: u64,
        dst_port: usize,
    ) -> (r: Result<(), GraphError>)
        requires
            old(self).wf(),
        ensures
            final(self).wf(),
            r is Err ==> *final(self) == *old(self),
            (r == Result::<(), GraphError>::Err(GraphError::UnknownNode)) <==> !old(
                self,
            ).conn_nodes_ok(src_node, dst_node),
            (r == Result::<(), GraphError>::Err(GraphError::PortOutOfRange)) <==> (old(
                self,
            ).conn_nodes_ok(src_node, dst_node) && !old(self).conn_ports_ok(
                src_node,
                src_port,
                dst_node,
                dst_port,
            )),
            (r == Result::<(), GraphError>::Err(GraphError::TypeMismatch)) <==> (old(
                self,
            ).conn_nodes_ok(src_node, dst_node) && old(self).conn_ports_ok(
                src_node,
                src_port,
                dst_node,
                dst_port,
            ) && !old(self).conn_compat(src_node, src_port, dst_node, dst_port)),
            (r == Result::<(), GraphError>::Err(GraphError::WouldCreateCycle)) <==> (old(
                self,
            ).conn_nodes_ok(src_node, dst_node) && old(self).conn_ports_ok(
                src_node,
                src_port,
                dst_node,
                dst_port,
            ) && old(self).conn_compat(src_node, src_port, dst_node, dst_port) && reaches(
                old(self).arcs(),
                dst_node,
                src_node,
            )),
            r is Ok <==> (old(self).conn_nodes_ok(src_node, dst_node) && old(self).conn_ports_ok(
                src_node,
                src_port,
                dst_node,
                dst_port,
            ) && old(self).conn_compat(src_node, src_port, dst_node, dst_port) && !reaches(
                old(self).arcs(),
                dst_node,
                src_node,
            )),
            (r == Result::<(), GraphError>::Err(GraphError::WouldCreateCycle)) ==> has_cycle(
                old(self).arcs().insert((src_node, dst_node)),
            ),
            r is Ok ==> final(self).edge_map() == old(self).edge_map().insert(
                (dst_node, dst_port as int),
                (src_node, src_port as int),
            ),
            r is Ok ==> final(self).ids() == old(self).ids() && final(self).next_id == old(
                self,
            ).next_id && final(self).nodes@.len() == old(self).nodes@.len(),
            r is Ok ==> forall|i: int|
                0 <= i < old(self).nodes@.len() && !final(self).reach_set(dst_node).contains(
                    (#[trigger] old(self).nodes@[i]).id,
                ) ==> final(self).nodes@[i] == old(self).nodes@[i],
            r is Ok ==> forall|i: int|
                0 <= i < old(self).nodes@.len() ==> same_shape(
                    (#[trigger] old(self).nodes@[i]).node,
                    final(self).nodes@[i].node,
                ),
            r is Ok ==> forall|x: u64|
                #[trigger] final(self).reach_set(dst_node).contains(x)
                    ==> final(self).consistent_at(x),
            // recomputing only the downstream closure suffices: a graph
            // that was consistent outside the new closure is consistent
            // everywhere afterwards
            r is Ok ==> ((forall|x: u64|
                old(self).has_node(x) && !final(self).reach_set(dst_node).contains(x)
                    ==> #[trigger] old(self).consistent_at(x)) ==> (forall|x: u64|
                #[trigger] final(self).has_node(x) ==> final(self).consistent_at(x))),
    {
        let si = match self.find_node(src_node) {
            Some(i) => i,
            None => {
                return Err(GraphError::UnknownNode);
            },
        };
        let di = match self.find_node(dst_node) {
            Some(i) => i,
            None => {
                return Err(GraphError::UnknownNode);
            },
        };
        if src_port >= self.nodes[si].node.output_count() {
            return Err(GraphError::PortOutOfRange);
        }
        if dst_port >= self.nodes[di].node.input_count() {
            return Err(GraphError::PortOutOfRange);
        }
        let sk = self.nodes[si].node.output_kind(src_port);
        let dk = self.nodes[di].node.input_kind(dst_port);
        if !sk.compatible_with(dk) {
            return Err(GraphError::TypeMismatch);
        }
        let closure = self.downstream_closure(dst_node);
        if contains_u64(&closure, src_node) {
            proof {
                lemma_insert_makes_cycle(self.arcs(), (src_node, dst_node));
            }
            return Err(GraphError::WouldCreateCycle);
        }
        let ghost g0 = *self;
        match self.find_edge_at(dst_node, dst_port) {
            Some(kidx) => {
                self.edges.remove(kidx);
                proof {
                    self.lemma_wf_after_edge_remove(g0, kidx as int);
                }
            },
            None => {},
        }
        let ghost gmid = *self;
        proof {
            assert(gmid.wf());
            assert(gmid.nodes@ == g0.nodes@);
            // the destination port is free now
            if gmid.has_edge_at(dst_node, dst_port as int) {
                let k2 = choose|k2: int|
                    0 <= k2 < gmid.edges@.len() && (#[trigger] gmid.edges@[k2]).dst_node == dst_node
                        && gmid.edges@[k2].dst_port == dst_port;
                gmid.lemma_edge_at_unique(k2, dst_node, dst_port as int);
                if g0.has_edge_at(dst_node, dst_port as int) {
                    gmid.lemma_edge_removed_others(
                        g0,
                        choose|k: int|
                            0 <= k < g0.edges@.len() && (#[trigger] g0.edges@[k]).dst_node
                                == dst_node && g0.edges@[k].dst_port == dst_port,
                        dst_node,
                        dst_port as int,
                    );
                    assert(false);
                } else {
                    assert(g0.edges@[k2].dst_node == dst_node);
                    assert(false);
                }
            }
            // removing the occupant only dropped arcs into the destination
            assert(gmid.arcs().subset_of(g0.arcs())) by {
                if gmid.edges@ == g0.edges@ {
                    assert(gmid.arcs() =~= g0.arcs());
                } else {
                }
            }
            assert(!reaches(gmid.arcs(), dst_node, src_node)) by {
                if reaches(gmid.arcs(), dst_node, src_node) {
                    lemma_reaches_mono(gmid.arcs(), g0.arcs(), dst_node, src_node);
                }
            }
        }
        self.edges.push(Edge { src_node, src_port, dst_node, dst_port });
        proof {
            let e = Edge { src_node, src_port, dst_node, dst_port };
            let pr = (src_node, dst_node);
            assert(self.edges@ == gmid.edges@.push(e));
            assert(self.arcs() =~= gmid.arcs().insert(pr)) by {
                assert forall|q: (u64, u64)| self.arcs().contains(q) implies gmid.arcs().insert(
                    pr,
                ).contains(q) by {
                    let k = choose|k: int|
                        0 <= k < self.edges@.len() && (#[trigger] self.edges@[k]).src_node == q.0
                            && self.edges@[k].dst_node == q.1;
                    if k < gmid.edges@.len() {
                        assert(gmid.edges@[k] == self.edges@[k]);
                        assert(gmid.arcs().contains(q));
                    } else {
                        assert(q == pr);
                    }
                }
                assert forall|q: (u64, u64)| gmid.arcs().insert(pr).contains(q) implies
                    self.arcs().contains(q) by {
                    if gmid.arcs().contains(q) {
                        let k = choose|k: int|
                            0 <= k < gmid.edges@.len() && (#[trigger] gmid.edges@[k]).src_node
                                == q.0 && gmid.edges@[k].dst_node == q.1;
                        assert(self.edges@[k] == gmid.edges@[k]);
                    } else {
                        assert(q == pr);
                        assert(self.edges@[self.edges@.len() - 1] == e);
                    }
                }
            }
            lemma_acyclic_insert(gmid.arcs(), pr);
            assert(acyclic(self.arcs()));
            // node lookups are untouched throughout
            assert(self.nodes@ == g0.nodes@);
            assert(self.ids() =~= g0.ids());
            assert forall|id0: u64| g0.has_node(id0) implies self.has_node(id0) && self.node_of(
                id0,
            ) == g0.node_of(id0) by {
                NodeGraph::lemma_node_of_stable(g0, *self, id0);
            }
            g0.lemma_idx_unique(si as int, src_node);
            g0.lemma_idx_unique(di as int, dst_node);
            // every edge is still valid, and the new edge is valid
            assert forall|k: int| 0 <= k < self.edges@.len() implies self.edge_ok(
                #[trigger] self.edges@[k],
            ) by {
                if k < gmid.edges@.len() {
                    assert(self.edges@[k] == gmid.edges@[k]);
                    assert(gmid.edge_ok(gmid.edges@[k]));
                    let e2 = gmid.edges@[k];
                    NodeGraph::lemma_node_of_stable(gmid, *self, e2.src_node);
                    NodeGraph::lemma_node_of_stable(gmid, *self, e2.dst_node);
                } else {
                    assert(self.edges@[k] == e);
                    assert(self.node_of(src_node) == g0.node_of(src_node));
                    assert(self.node_of(dst_node) == g0.node_of(dst_node));
                }
            }
            // single writer: the destination port was free
            assert forall|k1: int, k2: int|
                0 <= k1 < k2 < self.edges@.len() implies !((#[trigger] self.edges@[k1]).dst_node
                == (#[trigger] self.edges@[k2]).dst_node && self.edges@[k1].dst_port
                == self.edges@[k2].dst_port) by {
                if k2 < gmid.edges@.len() {
                    assert(self.edges@[k1] == gmid.edges@[k1]);
                    assert(self.edges@[k2] == gmid.edges@[k2]);
                } else {
                    assert(self.edges@[k2] == e);
                    if self.edges@[k1].dst_node == dst_node && self.edges@[k1].dst_port
                        == dst_port {
                        assert(gmid.edges@[k1] == self.edges@[k1]);
                        assert(gmid.has_edge_at(dst_node, dst_port as int));
                        assert(false);
                    }
                }
            }
            assert(self.wf());
            // the edge map gained exactly the new entry
            self.lemma_edge_at_unique(self.edges@.len() - 1, dst_node, dst_port as int);
            assert forall|dk2: (u64, int)|
                #[trigger] self.has_edge_at(dk2.0, dk2.1) && dk2 != (
                dst_node,
                dst_port as int,
                ) implies g0.has_edge_at(dk2.0, dk2.1) && self.edge_at(dk2.0, dk2.1)
                == g0.edge_at(dk2.0, dk2.1) by {
                let k = choose|k: int|
                    0 <= k < self.edges@.len() && (#[trigger] self.edges@[k]).dst_node == dk2.0
                        && self.edges@[k].dst_port == dk2.1;
                assert(k < gmid.edges@.len());
                assert(gmid.edges@[k] == self.edges@[k]);
                self.lemma_edge_at_unique(k, dk2.0, dk2.1);
                gmid.lemma_edge_at_unique(k, dk2.0, dk2.1);
                if gmid.edges@ == g0.edges@ {
                    g0.lemma_edge_at_unique(k, dk2.0, dk2.1);
                } else {
                    gmid.lemma_edge_removed_others(
                        g0,
                        choose|kr: int|
                            0 <= kr < g0.edges@.len() && (#[trigger] g0.edges@[kr]).dst_node
                                == dst_node && g0.edges@[kr].dst_port == dst_port,
                        dk2.0,
                        dk2.1,
                    );
                }
            }
            assert forall|dk2: (u64, int)|
                #[trigger] g0.has_edge_at(dk2.0, dk2.1) && dk2 != (
                dst_node,
                dst_port as int,
                ) implies self.has_edge_at(dk2.0, dk2.1) by {
                let k = choose|k: int|
                    0 <= k < g0.edges@.len() && (#[trigger] g0.edges@[k]).dst_node == dk2.0
                        && g0.edges@[k].dst_port == dk2.1;
                if gmid.edges@ == g0.edges@ {
                    assert(self.edges@[k] == g0.edges@[k]);
                    assert(self.has_edge_at(dk2.0, dk2.1));
                } else {
                    let kr = choose|kr: int|
                        0 <= kr < g0.edges@.len() && (#[trigger] g0.edges@[kr]).dst_node == dst_node
                            && g0.edges@[kr].dst_port == dst_port;
                    assert(gmid.edges@ == g0.edges@.remove(kr));
                    assert(k != kr);
                    let km = if k < kr {
                        k
                    } else {
                        k - 1
                    };
                    assert(gmid.edges@[km] == g0.edges@[k]);
                    assert(self.edges@[km] == g0.edges@[k]);
                    assert(self.has_edge_at(dk2.0, dk2.1));
                }
            }
            assert(self.edge_map() =~= g0.edge_map().insert(
                (dst_node, dst_port as int),
                (src_node, src_port as int),
            ));
        }
        let ghost gcommit = *self;
        DemoViewer::evaluate(self, Some(dst_node));
        proof {
            assert(self.edges@ == gcommit.edges@);
            assert(self.edge_map() =~= gcommit.edge_map()) by {
                assert forall|dk2: (u64, int)|
                    #[trigger] self.has_edge_at(dk2.0, dk2.1) implies gcommit.has_edge_at(
                    dk2.0,
                    dk2.1,
                ) && self.edge_at(dk2.0, dk2.1) == gcommit.edge_at(dk2.0, dk2.1) by {
                    NodeGraph::lemma_edge_at_stable(*self, gcommit, dk2.0, dk2.1);
                }
                assert forall|dk2: (u64, int)|
                    #[trigger] gcommit.has_edge_at(dk2.0, dk2.1) implies self.has_edge_at(
                    dk2.0,
                    dk2.1,
                ) by {
                    NodeGraph::lemma_edge_at_stable(gcommit, *self, dk2.0, dk2.1);
                }
            }
            assert(self.arcs() =~= gcommit.arcs());
            assert(self.reach_set(dst_node) =~= gcommit.reach_set(dst_node));
            assert(gcommit.visited_set(Some(dst_node)) == gcommit.reach_set(dst_node));
            assert(self.ids() =~= gcommit.ids());
            assert forall|i: int|
                0 <= i < g0.nodes@.len() && !self.reach_set(dst_node).contains(
                    (#[trigger] g0.nodes@[i]).id,
                ) implies self.nodes@[i] == g0.nodes@[i] by {
                assert(gcommit.nodes@[i] == g0.nodes@[i]);
                assert(!gcommit.visited_set(Some(dst_node)).contains(gcommit.nodes@[i].id));
            }
            assert forall|x: u64| #[trigger] self.reach_set(dst_node).contains(x) implies
                self.consistent_at(x) by {
                assert(gcommit.visited_set(Some(dst_node)).contains(x));
            }
            // outside the closure, each node and everything feeding it
            // are untouched, so consistency carries over
            assert(gcommit.nodes@ == g0.nodes@);
            assert(self.edge_map() == g0.edge_map().insert(
                (dst_node, dst_port as int),
                (src_node, src_port as int),
            ));
            assert forall|y: u64|
                self.has_node(y) && !self.reach_set(dst_node).contains(y) implies g0.has_node(y)
                && (#[trigger] self.node_of(y)) == g0.node_of(y) by {
                let iy = choose|iy: int| 0 <= iy < self.ids().len() && self.ids()[iy] == y;
                assert(g0.ids()[iy] == y);
                assert(g0.nodes@[iy].id == y);
                g0.lemma_idx_unique(iy, y);
                assert(gcommit.nodes@[iy].id == y);
                assert(!gcommit.visited_set(Some(dst_node)).contains(gcommit.nodes@[iy].id));
                assert(self.nodes@[iy] == gcommit.nodes@[iy]);
                self.lemma_idx_unique(iy, y);
            }
            if forall|x: u64|
                g0.has_node(x) && !self.reach_set(dst_node).contains(x)
                    ==> #[trigger] g0.consistent_at(x) {
                assert forall|x: u64| #[trigger] self.has_node(x) implies self.consistent_at(
                    x,
                ) by {
                    if !self.reach_set(dst_node).contains(x) {
                        lemma_reaches_refl(self.arcs(), dst_node);
                        assert(x != dst_node);
                        assert(self.node_of(x) == g0.node_of(x));
                        assert(g0.consistent_at(x));
                        assert forall|p: int|
                            0 <= p < g0.node_of(x).input_kinds().len() implies self.gathered_at(
                            x,
                            p,
                        ) == g0.gathered_at(x, p) by {
                            let dk2 = (x, p);
                            assert(dk2 != (dst_node, dst_port as int));
                            assert(self.edge_map().dom().contains(dk2) == g0.edge_map().dom().contains(
                                dk2,
                            ));
                            if self.has_edge_at(x, p) {
                                assert(g0.has_edge_at(x, p));
                                assert(self.edge_map()[dk2] == g0.edge_map()[dk2]);
                                let e1 = self.edge_at(x, p);
                                let e0 = g0.edge_at(x, p);
                                assert(self.edge_map()[dk2] == (e1.src_node, e1.src_port as int));
                                assert(g0.edge_map()[dk2] == (e0.src_node, e0.src_port as int));
                                assert(e1.src_node == e0.src_node && e1.src_port == e0.src_port);
                                let s = e1.src_node;
                                let k1 = choose|k1: int|
                                    0 <= k1 < self.edges@.len() && (
                                    #[trigger] self.edges@[k1]).dst_node == x
                                        && self.edges@[k1].dst_port == p;
                                self.lemma_edge_at_unique(k1, x, p);
                                assert(self.arcs().contains((s, x)));
                                if self.reach_set(dst_node).contains(s) {
                                    lemma_arc_reaches(self.arcs(), s, x);
                                    lemma_reaches_trans(self.arcs(), dst_node, s, x);
                                    assert(false);
                                }
                                assert(self.edge_ok(self.edges@[k1]));
                                assert(self.node_of(s) == g0.node_of(s));
                            } else {
                                assert(!g0.has_edge_at(x, p));
                            }
                        }
                        assert(self.gathered(x) =~= g0.gathered(x));
                    }
                }
            }
        }
        Ok(())
    }

    /// Removes the edge from `(src_node, src_port)` to
    /// `(dst_node, dst_port)` if exactly that edge is present; does
    /// nothing otherwise.  Caches are left as they are.
    pub fn disconnect(&mut self, src_node: u64, src_port: usize, dst_node: u64, dst_port: usize)
        requires
            old(self).wf(),
        ensures
            final(self).wf(),
            final(self).nodes@ == old(self).nodes@,
            final(self).next_id == old(self).next_id,
            final(self).edge_map() == if old(self).has_edge_at(dst_node, dst_port as int)
                && old(self).edge_at(dst_node, dst_port as int) == (Edge {
                src_node,
                src_port,
                dst_node,
                dst_port,
            }) {
                old(self).edge_map().remove((dst_node, dst_port as int))
            } else {
                old(self).edge_map()
            },
    {
        let ghost g0 = *self;
        match self.find_edge_at(dst_node, dst_port) {
            Some(k) => {
                let e = self.edges[k];
                if e.src_node == src_node && e.src_port == src_port {
                    self.edges.remove(k);
                    proof {
                        self.lemma_wf_after_edge_remove(g0, k as int);
                        assert forall|dn: u64, dp: int|
                            self.has_edge_at(dn, dp) implies g0.has_edge_at(dn, dp) && !(dn
                            == dst_node && dp == dst_port) && self.edge_at(dn, dp) == g0.edge_at(
                            dn,
                            dp,
                        ) by {
                            self.lemma_edge_removed_others(g0, k as int, dn, dp);
                        }
                        assert forall|dn: u64, dp: int|
                            g0.has_edge_at(dn, dp) && !(dn == dst_node && dp
                                == dst_port) implies self.has_edge_at(dn, dp) by {
                            let k2 = choose|k2: int|
                                0 <= k2 < g0.edges@.len() && (#[trigger] g0.edges@[k2]).dst_node
                                    == dn && g0.edges@[k2].dst_port == dp;
                            if k2 < k as int {
                                assert(self.edges@[k2] == g0.edges@[k2]);
                                assert(self.has_edge_at(dn, dp));
                            } else {
                                assert(k2 > k as int);
                                assert(self.edges@[k2 - 1] == g0.edges@[k2]);
                                assert(self.has_edge_at(dn, dp));
                            }
                        }
                        assert(self.edge_map() =~= g0.edge_map().remove(
                            (dst_node, dst_port as int),
                        ));
                    }
                }
            },
            None => {},
        }
    }

    /// Removing one edge keeps the graph well formed: the arc relation
    /// only shrinks.
    proof fn lemma_wf_after_edge_remove(self, g0: NodeGraph, k: int)
        requires
            g0.wf(),
            0 <= k < g0.edges@.len(),
            self.nodes@ == g0.nodes@,
            self.next_id == g0.next_id,
            self.edges@ == g0.edges@.remove(k),
        ensures
            self.wf(),
            self.arcs().subset_of(g0.arcs()),
    {
        assert forall|j: int| 0 <= j < self.edges@.len() implies self.edge_ok(
            #[trigger] self.edges@[j],
        ) by {
            let jj = if j < k {
                j
            } else {
                j + 1
            };
            assert(self.edges@[j] == g0.edges@[jj]);
            assert(g0.edge_ok(g0.edges@[jj]));
        }
        assert forall|j1: int, j2: int| 0 <= j1 < j2 < self.edges@.len() implies !((
        #[trigger] self.edges@[j1]).dst_node == (#[trigger] self.edges@[j2]).dst_node
            && self.edges@[j1].dst_port == self.edges@[j2].dst_port) by {
            let i1 = if j1 < k {
                j1
            } else {
                j1 + 1
            };
            let i2 = if j2 < k {
                j2
            } else {
                j2 + 1
            };
            assert(self.edges@[j1] == g0.edges@[i1]);
            assert(self.edges@[j2] == g0.edges@[i2]);
        }
        assert forall|pr: (u64, u64)| self.arcs().contains(pr) implies g0.arcs().contains(pr) by {
            let j = choose|j: int|
                0 <= j < self.edges@.len() && (#[trigger] self.edges@[j]).src_node == pr.0
                    && self.edges@[j].dst_node == pr.1;
            let jj = if j < k {
                j
            } else {
                j + 1
            };
            assert(g0.edges@[jj] == self.edges@[j]);
            assert(g0.arcs().contains(pr));
        }
        lemma_acyclic_mono(self.arcs(), g0.arcs());
    }

    /// Every node reachable from `id` by following edges forward,
    /// inclusive of `id` itself, without duplicates.
    #[verifier::loop_isolation(false)]
    pub fn downstream_closure(&self, id: u64) -> (r: Vec<u64>)
        requires
            self.wf(),
            self.has_node(id),
        ensures
            r@.no_duplicates(),
            forall|y: u64| #[trigger] r@.contains(y) <==> reaches(self.arcs(), id, y),
            forall|k: int| 0 <= k < r@.len() ==> self.has_node(#[trigger] r@[k]),
    {
        let mut result: Vec<u64> = Vec::new();
        let mut queue: Vec<u64> = Vec::new();
        result.push(id);
        queue.push(id);
        proof {
            lemma_reaches_refl(self.arcs(), id);
            assert(result@[0] == id);
            assert(result@.contains(id));
            self.lemma_result_fits(result@);
        }
        while queue.len() > 0
            invariant
                result@.no_duplicates(),
                result@.contains(id),
                result@.len() <= self.nodes@.len(),
                forall|k: int|
                    0 <= k < result@.len() ==> reaches(self.arcs(), id, #[trigger] result@[k])
                        && self.has_node(result@[k]),
                forall|k: int| 0 <= k < queue@.len() ==> result@.contains(#[trigger] queue@[k]),
                forall|x: u64, y: u64|
                    result@.contains(x) && !queue@.contains(x) && #[trigger] self.arcs().contains(
                        (x, y),
                    ) ==> result@.contains(y),
            decreases self.nodes@.len() - result@.len(), queue@.len(),
        {
            let ghost qpre = queue@;
            let n = queue[queue.len() - 1];
            let _popped = queue.pop();
            let ghost res0 = result@;
            let ghost q0 = queue@;
            proof {
                assert(result@.contains(qpre[qpre.len() - 1]));
                assert(queue@ == qpre.subrange(0, qpre.len() - 1));
                assert forall|x: u64, y: u64|
                    result@.contains(x) && !queue@.contains(x) && x != n
                        && #[trigger] self.arcs().contains((x, y)) implies result@.contains(y) by {
                    if qpre.contains(x) {
                        let i = choose|i: int| 0 <= i < qpre.len() && qpre[i] == x;
                        if i < qpre.len() - 1 {
                            assert(queue@[i] == qpre[i]);
                            assert(queue@.contains(x));
                        } else {
                            assert(x == n);
                        }
                        assert(false);
                    }
                }
            }
            let mut k: usize = 0;
            while k < self.edges.len()
                invariant
                    k <= self.edges@.len(),
                    result@.no_duplicates(),
                    result@.contains(id),
                    result@.contains(n),
                    result@.len() <= self.nodes@.len(),
                    res0.len() <= result@.len(),
                    queue@.len() == q0.len() + result@.len() - res0.len(),
                    forall|k2: int|
                        0 <= k2 < result@.len() ==> reaches(
                            self.arcs(),
                            id,
                            #[trigger] result@[k2],
                        ) && self.has_node(result@[k2]),
                    forall|k2: int| 0 <= k2 < queue@.len() ==> result@.contains(
                        #[trigger] queue@[k2],
                    ),
                    forall|x: u64, y: u64|
                        result@.contains(x) && !queue@.contains(x) && x != n
                            && #[trigger] self.arcs().contains((x, y)) ==> result@.contains(y),
                    forall|j: int|
                        0 <= j < k && (#[trigger] self.edges@[j]).src_node == n
                            ==> result@.contains(self.edges@[j].dst_node),
                decreases self.edges@.len() - k,
            {
                let e = self.edges[k];
                if e.src_node == n {
                    if !contains_u64(&result, e.dst_node) {
                        proof {
                            assert(self.arcs().contains((n, e.dst_node)));
                            lemma_arc_reaches(self.arcs(), n, e.dst_node);
                            lemma_reaches_trans(self.arcs(), id, n, e.dst_node);
                            assert(self.edge_ok(self.edges@[k as int]));
                        }
                        let ghost rbefore = result@;
                        let ghost qbefore = queue@;
                        result.push(e.dst_node);
                        queue.push(e.dst_node);
                        proof {
                            assert forall|z: u64| rbefore.contains(z) implies result@.contains(
                                z,
                            ) by {
                                let i = choose|i: int| 0 <= i < rbefore.len() && rbefore[i] == z;
                                assert(result@[i] == z);
                            }
                            assert forall|z: u64| qbefore.contains(z) implies queue@.contains(
                                z,
                            ) by {
                                let i = choose|i: int| 0 <= i < qbefore.len() && qbefore[i] == z;
                                assert(queue@[i] == z);
                            }
                            assert forall|z: u64| result@.contains(z) implies rbefore.contains(z)
                                || z == e.dst_node by {
                                let i = choose|i: int| 0 <= i < result@.len() && result@[i] == z;
                                if i < rbefore.len() {
                                    assert(rbefore[i] == z);
                                }
                            }
                            assert forall|z: u64| queue@.contains(z) implies qbefore.contains(z)
                                || z == e.dst_node by {
                                let i = choose|i: int| 0 <= i < queue@.len() && queue@[i] == z;
                                if i < qbefore.len() {
                                    assert(qbefore[i] == z);
                                }
                            }
                            assert(result@[result@.len() - 1] == e.dst_node);
                            assert(result@.contains(e.dst_node));
                            assert(queue@[queue@.len() - 1] == e.dst_node);
                            assert(queue@.contains(e.dst_node));
                            assert forall|i1: int, i2: int|
                                0 <= i1 < i2 < result@.len() implies result@[i1]
                                != result@[i2] by {
                                if i2 == result@.len() - 1 {
                                    assert(rbefore.contains(rbefore[i1]));
                                }
                            }
                            self.lemma_result_fits(result@);
                        }
                    }
                }
                k = k + 1;
            }
            proof {
                assert forall|x: u64, y: u64|
                    result@.contains(x) && !queue@.contains(x) && #[trigger] self.arcs().contains(
                        (x, y),
                    ) implies result@.contains(y) by {
                    if x == n {
                        let j = choose|j: int|
                            0 <= j < self.edges@.len() && (#[trigger] self.edges@[j]).src_node == x
                                && self.edges@[j].dst_node == y;
                        assert(result@.contains(self.edges@[j].dst_node));
                    }
                }
            }
        }
        proof {
            let rset = Set::new(|y: u64| result@.contains(y));
            assert forall|y: u64| reaches(self.arcs(), id, y) implies result@.contains(y) by {
                assert(rset.contains(id));
                lemma_closed_set_reach(self.arcs(), rset, id, y);
            }
        }
        result
    }

    /// Collects, for every declared input port of the node stored at
    /// index `i`, the output value of whatever feeds it, an absent
    /// marker where the port is unconnected.
    #[verifier::loop_isolation(false)]
    fn gather_inputs(&self, i: usize) -> (r: Vec<Option<TypedData>>)
        requires
            self.wf(),
            i < self.nodes@.len(),
        ensures
            r@ == self.gathered(self.nodes@[i as int].id),
    {
        proof {
            self.lemma_idx_unique(i as int, self.nodes@[i as int].id);
        }
        let id = self.nodes[i].id;
        let count = self.nodes[i].node.input_count();
        let mut r: Vec<Option<TypedData>> = Vec::new();
        let mut p: usize = 0;
        while p < count
            invariant
                p <= count,
                r@.len() == p,
                forall|q: int| 0 <= q < p ==> r@[q] == self.gathered_at(id, q),
            decreases count - p,
        {
            let v = self.input_value(id, p);
            r.push(v);
            p = p + 1;
        }
        proof {
            assert(r@ =~= self.gathered(id));
        }
        r
    }

    /// Some identifier in `s` has an arc to `x`.
    pub open spec fn has_pred_in_spec(self, s: Seq<u64>, x: u64) -> bool {
        exists|t: int| 0 <= t < s.len() && self.arcs().contains(((#[trigger] s[t]), x))
    }

    /// Decides whether any identifier in `list` has an arc to `x`.
    #[verifier::loop_isolation(false)]
    fn has_pred_in(&self, list: &Vec<u64>, x: u64) -> (b: bool)
        ensures
            b == self.has_pred_in_spec(list@, x),
    {
        let mut k: usize = 0;
        while k < self.edges.len()
            invariant
                k <= self.edges@.len(),
                forall|j: int|
                    0 <= j < k ==> !((#[trigger] self.edges@[j]).dst_node == x
                        && list@.contains(self.edges@[j].src_node)),
            decreases self.edges@.len() - k,
        {
            let e = self.edges[k];
            if e.dst_node == x {
                if contains_u64(list, e.src_node) {
                    proof {
                        assert(self.arcs().contains((e.src_node, x)));
                        let t = choose|t: int| 0 <= t < list@.len() && list@[t] == e.src_node;
                        assert(self.arcs().contains(((list@[t]), x)));
                    }
                    return true;
                }
            }
            k = k + 1;
        }
        proof {
            if self.has_pred_in_spec(list@, x) {
                let t = choose|t: int|
                    0 <= t < list@.len() && self.arcs().contains(((#[trigger] list@[t]), x));
                let j = choose|j: int|
                    0 <= j < self.edges@.len() && (#[trigger] self.edges@[j]).src_node == list@[t]
                        && self.edges@[j].dst_node == x;
                assert(list@.contains(self.edges@[j].src_node));
                assert(false);
            }
        }
        false
    }

    /// Picks an identifier in `remaining` that no identifier in
    /// `remaining` has an arc to.  Such an identifier always exists,
    /// because the arc relation is acyclic.
    #[verifier::loop_isolation(false)]
    fn find_ready(&self, remaining: &Vec<u64>) -> (j: usize)
        requires
            self.wf(),
            remaining@.len() > 0,
            remaining@.no_duplicates(),
        ensures
            j < remaining@.len(),
            forall|t: int|
                0 <= t < remaining@.len() ==> !self.arcs().contains(
                    ((#[trigger] remaining@[t]), remaining@[j as int]),
                ),
    {
        let mut j: usize = 0;
        while j < remaining.len()
            invariant
                j <= remaining@.len(),
                forall|i: int|
                    0 <= i < j ==> self.has_pred_in_spec(remaining@, #[trigger] remaining@[i]),
            decreases remaining@.len() - j,
        {
            if !self.has_pred_in(remaining, remaining[j]) {
                return j;
            }
            j = j + 1;
        }
        proof {
            let s = remaining@.to_set();
            remaining@.unique_seq_to_set();
            lemma_source_exists(self.arcs(), s);
            let x = choose|x: u64|
                s.contains(x) && forall|t: u64| s.contains(t) ==> !self.arcs().contains((t, x));
            let i = choose|i: int| 0 <= i < remaining@.len() && remaining@[i] == x;
            assert(self.has_pred_in_spec(remaining@, remaining@[i]));
            let t = choose|t: int|
                0 <= t < remaining@.len() && self.arcs().contains(((#[trigger] remaining@[t]), x));
            assert(s.contains(remaining@[t]));
            assert(false);
        }
        // never reached: the contradiction above closes this branch
        0
    }

    /// Looking a node up is stable across any change that keeps the
    /// identifier sequence and the entry holding the identifier.
    proof fn lemma_node_of_stable(g1: NodeGraph, g2: NodeGraph, id: u64)
        requires
            g1.ids().no_duplicates(),
            g2.ids() == g1.ids(),
            g1.has_node(id),
            forall|k: int|
                0 <= k < g1.nodes@.len() && (#[trigger] g1.nodes@[k]).id == id ==> g2.nodes@[k]
                    == g1.nodes@[k],
        ensures
            g2.has_node(id),
            g2.node_of(id) == g1.node_of(id),
    {
        let i = g1.idx_of(id);
        g1.lemma_idx_unique(i, id);
        assert(g2.ids()[i] == id);
        assert(g2.nodes@[i].id == id);
        g2.lemma_idx_unique(i, id);
    }

    /// The edge occupying a port is stable across any change that keeps
    /// the edge list.
    proof fn lemma_edge_at_stable(g1: NodeGraph, g2: NodeGraph, dn: u64, dp: int)
        requires
            g1.wf(),
            g2.wf(),
            g2.edges@ == g1.edges@,
            g1.has_edge_at(dn, dp),
        ensures
            g2.has_edge_at(dn, dp),
            g2.edge_at(dn, dp) == g1.edge_at(dn, dp),
    {
        let k = choose|k: int|
            0 <= k < g1.edges@.len() && (#[trigger] g1.edges@[k]).dst_node == dn
                && g1.edges@[k].dst_port == dp;
        g1.lemma_edge_at_unique(k, dn, dp);
        g2.lemma_edge_at_unique(k, dn, dp);
    }

    /// What arrives at the inputs of `x` is stable across any change
    /// that keeps the edges and every node feeding `x`.
    proof fn lemma_gathered_stable(g1: NodeGraph, g2: NodeGraph, x: u64)
        requires
            g1.wf(),
            g2.wf(),
            g2.edges@ == g1.edges@,
            g1.has_node(x),
            g2.has_node(x),
            g2.node_of(x).input_kinds() == g1.node_of(x).input_kinds(),
            forall|s: u64|
                #[trigger] g1.arcs().contains((s, x)) ==> g2.has_node(s) && g2.node_of(s)
                    == g1.node_of(s),
        ensures
            g2.gathered(x) == g1.gathered(x),
    {
        assert forall|p: int|
            0 <= p < g1.node_of(x).input_kinds().len() implies g2.gathered_at(x, p)
            == g1.gathered_at(x, p) by {
            if g1.has_edge_at(x, p) {
                Self::lemma_edge_at_stable(g1, g2, x, p);
                let k = choose|k: int|
                    0 <= k < g1.edges@.len() && (#[trigger] g1.edges@[k]).dst_node == x
                        && g1.edges@[k].dst_port == p;
                g1.lemma_edge_at_unique(k, x, p);
                let e = g1.edge_at(x, p);
                assert(g1.arcs().contains((e.src_node, x)));
            } else {
                if g2.has_edge_at(x, p) {
                    Self::lemma_edge_at_stable(g2, g1, x, p);
                    assert(false);
                }
            }
        }
        assert(g2.gathered(x) =~= g1.gathered(x));
    }

    /// A duplicate-free vector whose members are all node identifiers
    /// cannot be longer than the node table.
    proof fn lemma_result_fits(self, r: Seq<u64>)
        requires
            r.no_duplicates(),
            forall|k: int| 0 <= k < r.len() ==> self.has_node(#[trigger] r[k]),
        ensures
            r.len() <= self.nodes@.len(),
    {
        r.unique_seq_to_set();
        assert(r.to_set().subset_of(self.id_set())) by {
            assert forall|y: u64| r.to_set().contains(y) implies self.id_set().contains(y) by {
                let k = choose|k: int| 0 <= k < r.len() && r[k] == y;
                assert(self.has_node(r[k]));
            }
        }
        self.ids().lemma_cardinality_of_set();
        vstd::set_lib::lemma_len_subset(r.to_set(), self.id_set());
    }

    /// After removing edge `k`, every other occupied input port is still
    /// occupied by the same edge.
    proof fn lemma_edge_removed_others(self, g0: NodeGraph, k: int, dn: u64, dp: int)
        requires
            g0.wf(),
            0 <= k < g0.edges@.len(),
            self.nodes@ == g0.nodes@,
            self.edges@ == g0.edges@.remove(k),
            self.wf(),
            self.has_edge_at(dn, dp),
        ensures
            g0.has_edge_at(dn, dp),
            !(dn == g0.edges@[k].dst_node && dp == g0.edges@[k].dst_port),
            self.edge_at(dn, dp) == g0.edge_at(dn, dp),
    {
        let j = choose|j: int|
            0 <= j < self.edges@.len() && (#[trigger] self.edges@[j]).dst_node == dn
                && self.edges@[j].dst_port == dp;
        let jj = if j < k {
            j
        } else {
            j + 1
        };
        assert(self.edges@[j] == g0.edges@[jj]);
        g0.lemma_edge_at_unique(jj, dn, dp);
        self.lemma_edge_at_unique(j, dn, dp);
        if dn == g0.edges@[k].dst_node && dp == g0.edges@[k].dst_port {
            assert(g0.edges@[jj].dst_node == g0.edges@[k].dst_node);
            assert(jj != k);
            assert(false);
        }
    }
}

/// The dependency-ordered evaluator over the typed graph.
pub struct DemoViewer;

impl DemoViewer {
    /// Recomputes cached outputs in dependency order: every node when
    /// `start` is absent, otherwise exactly the downstream closure of
    /// the seed.  Afterwards every visited node is consistent with what
    /// arrives at its inputs, nothing outside the visited set has
    /// changed, and re-running on an already consistent graph changes
    /// nothing at all.  A full evaluation leaves every node's output
    /// carrying its denotational value, [`denot_out`].
    #[verifier::loop_isolation(false)]
    #[verifier::rlimit(80)]
    pub fn evaluate(graph: &mut NodeGraph, start: Option<u64>)
        requires
            old(graph).wf(),
            start matches Some(n) ==> old(graph).has_node(n),
        ensures
            final(graph).wf(),
            final(graph).edges@ == old(graph).edges@,
            final(graph).next_id == old(graph).next_id,
            final(graph).nodes@.len() == old(graph).nodes@.len(),
            forall|i: int|
                0 <= i < old(graph).nodes@.len()
                    ==> (#[trigger] final(graph).nodes@[i]).id == old(graph).nodes@[i].id,
            forall|i: int|
                0 <= i < old(graph).nodes@.len() && !old(graph).visited_set(start).contains(
                    (#[trigger] old(graph).nodes@[i]).id,
                ) ==> final(graph).nodes@[i] == old(graph).nodes@[i],
            forall|i: int|
                0 <= i < old(graph).nodes@.len() ==> same_shape(
                    (#[trigger] old(graph).nodes@[i]).node,
                    final(graph).nodes@[i].node,
                ),
            forall|x: u64|
                #[trigger] old(graph).visited_set(start).contains(x)
                    ==> final(graph).consistent_at(x),
            (forall|x: u64|
                #[trigger] old(graph).visited_set(start).contains(x)
                    ==> old(graph).consistent_at(x)) ==> final(graph).nodes@ == old(graph).nodes@,
            start is None ==> forall|x: u64|
                #[trigger] final(graph).has_node(x)
                    ==> final(graph).node_of(x).out_val(0) == denot_out(*final(graph), x),
    {
        let ghost g0 = *graph;
        let mut remaining: Vec<u64>;
        match start {
            None => {
                remaining = graph.node_list();
            },
            Some(n) => {
                remaining = graph.downstream_closure(n);
            },
        }
        proof {
            let v = g0.visited_set(start);
            match start {
                None => {
                    assert(remaining@ == g0.ids());
                    assert forall|k: int| 0 <= k < remaining@.len() implies v.contains(
                        #[trigger] remaining@[k],
                    ) && g0.has_node(remaining@[k]) by {
                        assert(g0.ids().contains(remaining@[k]));
                    }
                },
                Some(n) => {
                    assert forall|k: int| 0 <= k < remaining@.len() implies v.contains(
                        #[trigger] remaining@[k],
                    ) && g0.has_node(remaining@[k]) by {
                        assert(remaining@.contains(remaining@[k]));
                    }
                },
            }
            assert forall|x: u64| #[trigger] v.contains(x) implies remaining@.contains(x) by {}
        }
        while remaining.len() > 0
            invariant
                graph.wf(),
                graph.edges@ == g0.edges@,
                graph.next_id == g0.next_id,
                graph.nodes@.len() == g0.nodes@.len(),
                forall|i: int|
                    0 <= i < g0.nodes@.len() ==> (#[trigger] graph.nodes@[i]).id
                        == g0.nodes@[i].id,
                remaining@.no_duplicates(),
                forall|k: int|
                    0 <= k < remaining@.len() ==> g0.visited_set(start).contains(
                        #[trigger] remaining@[k],
                    ) && g0.has_node(remaining@[k]),
                forall|i: int|
                    0 <= i < g0.nodes@.len() && !(g0.visited_set(start).contains(
                        (#[trigger] g0.nodes@[i]).id,
                    ) && !remaining@.contains(g0.nodes@[i].id)) ==> graph.nodes@[i]
                        == g0.nodes@[i],
                forall|i: int|
                    0 <= i < g0.nodes@.len() ==> same_shape(
                        (#[trigger] g0.nodes@[i]).node,
                        graph.nodes@[i].node,
                    ),
                forall|x: u64|
                    #[trigger] g0.visited_set(start).contains(x) && !remaining@.contains(x)
                        ==> graph.consistent_at(x),
                forall|t: u64, x: u64|
                    remaining@.contains(t) && g0.visited_set(start).contains(x)
                        && !remaining@.contains(x) ==> !(#[trigger] graph.arcs().contains((t, x))),
                (forall|x: u64|
                    #[trigger] g0.visited_set(start).contains(x) ==> g0.consistent_at(x))
                    ==> graph.nodes@ == g0.nodes@,
            decreases remaining@.len(),
        {
            let ghost v = g0.visited_set(start);
            let j = graph.find_ready(&remaining);
            let n = remaining[j];
            proof {
                assert(remaining@.contains(n));
                assert(graph.ids() =~= g0.ids());
            }
            let i = graph.find_node_must(n);
            let ins = graph.gather_inputs(i);
            let ghost gpre = *graph;
            let ghost rem0 = remaining@;
            let mut entry = graph.nodes.remove(i);
            entry.node.update(&ins);
            graph.nodes.insert(i, entry);
            let _removed = remaining.remove(j);
            proof {
                let ii = i as int;
                let old_node = gpre.nodes@[ii].node;
                let new_entry = NodeEntry { id: n, node: old_node.updated(ins@) };
                assert(graph.nodes@ =~= gpre.nodes@.update(ii, new_entry));
                assert(graph.ids() =~= gpre.ids());
                assert(graph.edges@ == gpre.edges@);
                assert(graph.arcs() =~= gpre.arcs());
                lemma_updated_shape(old_node, ins@);
                gpre.lemma_idx_unique(ii, n);
                graph.lemma_idx_unique(ii, n);
                assert(graph.node_of(n) == old_node.updated(ins@));
                assert(gpre.node_of(n) == old_node);
                // every other node reads back unchanged
                assert forall|id0: u64| gpre.has_node(id0) && id0 != n implies graph.has_node(id0)
                    && graph.node_of(id0) == gpre.node_of(id0) by {
                    NodeGraph::lemma_node_of_stable(gpre, *graph, id0);
                }
                // well-formedness: edges still valid, arcs unchanged
                assert forall|k: int| 0 <= k < graph.edges@.len() implies graph.edge_ok(
                    #[trigger] graph.edges@[k],
                ) by {
                    let e = graph.edges@[k];
                    assert(gpre.edge_ok(e));
                    if e.src_node == n {
                        assert(graph.node_of(e.src_node).output_kinds() == gpre.node_of(
                            e.src_node,
                        ).output_kinds());
                    }
                    if e.dst_node == n {
                        assert(graph.node_of(e.dst_node).input_kinds() == gpre.node_of(
                            e.dst_node,
                        ).input_kinds());
                    }
                }
                assert(graph.wf());
                // the processed node cannot feed itself
                assert(!gpre.arcs().contains((n, n))) by {
                    if gpre.arcs().contains((n, n)) {
                        lemma_reaches_refl(gpre.arcs(), n);
                        lemma_reaches_arc_cycle(gpre.arcs(), n, n);
                    }
                }
                // inputs are stable wherever the processed node does not feed
                assert forall|x: u64|
                    gpre.has_node(x) && !gpre.arcs().contains((n, x)) implies graph.gathered(x)
                    == gpre.gathered(x) by {
                    if x == n {
                        NodeGraph::lemma_gathered_stable(gpre, *graph, x);
                    } else {
                        NodeGraph::lemma_gathered_stable(gpre, *graph, x);
                    }
                }
                // membership in the shrunk work list
                assert forall|x: u64| remaining@.contains(x) implies rem0.contains(x) && x
                    != n by {
                    let t = choose|t: int| 0 <= t < remaining@.len() && remaining@[t] == x;
                    let tt = if t < j as int {
                        t
                    } else {
                        t + 1
                    };
                    assert(rem0[tt] == x);
                    if x == n {
                        assert(rem0[tt] == rem0[j as int]);
                        assert(false);
                    }
                }
                assert forall|x: u64| rem0.contains(x) && x != n implies remaining@.contains(
                    x,
                ) by {
                    let t = choose|t: int| 0 <= t < rem0.len() && rem0[t] == x;
                    if t < j as int {
                        assert(remaining@[t] == x);
                    } else {
                        assert(t != j as int);
                        assert(remaining@[t - 1] == x);
                    }
                }
                // the newly processed node is consistent
                assert(ins@ == gpre.gathered(n));
                assert(graph.gathered(n) == gpre.gathered(n));
                lemma_updated_idempotent(old_node, ins@);
                assert(graph.consistent_at(n));
                // previously processed nodes stay consistent
                assert forall|x: u64|
                    #[trigger] v.contains(x) && !remaining@.contains(x) implies
                    graph.consistent_at(x) by {
                    if x != n {
                        assert(!rem0.contains(x));
                        assert(gpre.consistent_at(x));
                        assert(!gpre.arcs().contains((n, x)));
                        assert(graph.node_of(x) == gpre.node_of(x));
                        assert(graph.gathered(x) == gpre.gathered(x));
                    }
                }
                // no arcs from the work list into the processed set
                assert forall|t: u64, x: u64|
                    remaining@.contains(t) && v.contains(x) && !remaining@.contains(x) implies !(
                    #[trigger] graph.arcs().contains((t, x))) by {
                    if x == n {
                        let tt = choose|tt: int| 0 <= tt < rem0.len() && rem0[tt] == t;
                        assert(!gpre.arcs().contains((rem0[tt], rem0[j as int])));
                    } else {
                        assert(rem0.contains(t));
                        assert(!rem0.contains(x));
                    }
                }
                // untouched nodes
                assert forall|i2: int|
                    0 <= i2 < g0.nodes@.len() && !(v.contains((#[trigger] g0.nodes@[i2]).id)
                        && !remaining@.contains(g0.nodes@[i2].id)) implies graph.nodes@[i2]
                    == g0.nodes@[i2] by {
                    if i2 != ii {
                        assert(graph.nodes@[i2] == gpre.nodes@[i2]);
                        if !(v.contains(g0.nodes@[i2].id) && !rem0.contains(g0.nodes@[i2].id)) {
                        } else {
                            assert(gpre.nodes@[i2] == g0.nodes@[i2]);
                        }
                        if rem0.contains(g0.nodes@[i2].id) && !remaining@.contains(
                            g0.nodes@[i2].id,
                        ) {
                            assert(g0.nodes@[i2].id == n);
                            assert(g0.nodes@[i2].id == g0.nodes@[ii].id);
                            assert(g0.ids()[i2] == g0.ids()[ii]);
                            assert(i2 == ii);
                            assert(false);
                        }
                    } else {
                        assert(v.contains(g0.nodes@[ii].id));
                        assert(!remaining@.contains(n));
                        assert(false);
                    }
                }
                // shapes
                assert forall|i2: int| 0 <= i2 < g0.nodes@.len() implies same_shape(
                    (#[trigger] g0.nodes@[i2]).node,
                    graph.nodes@[i2].node,
                ) by {
                    if i2 == ii {
                        lemma_same_shape_trans(g0.nodes@[ii].node, old_node, graph.nodes@[ii].node);
                    }
                }
                // an already consistent graph is left untouched
                if forall|x: u64| #[trigger] v.contains(x) ==> g0.consistent_at(x) {
                    assert(gpre.nodes@ == g0.nodes@);
                    assert(v.contains(n));
                    assert(g0.consistent_at(n));
                    assert(gpre.ids() == g0.ids());
                    NodeGraph::lemma_node_of_stable(g0, gpre, n);
                    assert forall|s: u64| #[trigger] g0.arcs().contains((s, n)) implies
                        gpre.has_node(s) && gpre.node_of(s) == g0.node_of(s) by {
                        assert(g0.edge_ok(g0.edges@[choose|k: int|
                            0 <= k < g0.edges@.len() && (#[trigger] g0.edges@[k]).src_node == s
                                && g0.edges@[k].dst_node == n]));
                        NodeGraph::lemma_node_of_stable(g0, gpre, s);
                    }
                    NodeGraph::lemma_gathered_stable(g0, gpre, n);
                    assert(gpre.consistent_at(n));
                    assert(old_node.updated(ins@) == old_node);
                    assert(new_entry == gpre.nodes@[ii]);
                    assert(graph.nodes@ =~= gpre.nodes@);
                }
            }
        }
        proof {
            if start is None {
                assert(graph.ids() =~= g0.ids());
                assert forall|x: u64| #[trigger] graph.has_node(x) implies graph.node_of(
                    x,
                ).out_val(0) == denot_out(*graph, x) by {
                    assert forall|u: u64| #[trigger] reaches(graph.arcs(), u, x) implies
                        graph.consistent_at(u) by {
                        let p = choose|p: Seq<u64>|
                            is_path(graph.arcs(), p) && p.first() == u && p.last() == x;
                        if p.len() == 1 {
                            assert(u == x);
                        } else {
                            assert(graph.arcs().contains((p[0int], p[0int + 1])));
                            let k = choose|k: int|
                                0 <= k < graph.edges@.len() && (
                                #[trigger] graph.edges@[k]).src_node == p[0int]
                                    && graph.edges@[k].dst_node == p[0int + 1];
                            assert(graph.edge_ok(graph.edges@[k]));
                        }
                        assert(graph.has_node(u));
                        assert(g0.visited_set(start).contains(u));
                    }
                    lemma_consistent_outputs_denotational(*graph, x);
                }
            }
        }
    }
}

/// The denotational value of node `n`: the value its output carries
/// once the whole graph has been evaluated.  Sources carry their
/// literal, the sink carries nothing, and the sum node carries the
/// wrapping sum of the numeric contributions of whatever feeds its two
/// inputs, an unconnected input contributing zero.  Acyclicity makes
/// this recursion well founded: the upstream closure shrinks strictly
/// along every edge.
pub open spec fn denot_out(g: NodeGraph, n: u64) -> Option<TypedData>
    decreases g.upstream_of(n).len(),
    when g.wf() && g.has_node(n)
    via denot_out_decreases
{
    match g.node_of(n) {
        DemoNode::Number(x) => Some(TypedData::Number(x.value)),
        DemoNode::Text(t) => Some(TypedData::String(t.value)),
        DemoNode::Sink(_) => None,
        DemoNode::Add(_) => {
            let c0 = crate::nodes::num_or_zero_spec(
                if g.has_edge_at(n, 0) {
                    denot_out(g, g.edge_at(n, 0).src_node)
                } else {
                    None
                },
            );
            let c1 = crate::nodes::num_or_zero_spec(
                if g.has_edge_at(n, 1) {
                    denot_out(g, g.edge_at(n, 1).src_node)
                } else {
                    None
                },
            );
            Some(TypedData::Number(c0.wrapping_add(c1)))
        },
    }
}

#[via_fn]
proof fn denot_out_decreases(g: NodeGraph, n: u64) {
    if g.node_of(n) is Add {
        if g.has_edge_at(n, 0) {
            lemma_feeding_edge_strict(g, n, 0);
        }
        if g.has_edge_at(n, 1) {
            lemma_feeding_edge_strict(g, n, 1);
        }
    }
}

/// The upstream closure of a well-formed graph's node is finite: all
/// its members are nodes.
proof fn lemma_upstream_finite(g: NodeGraph, n: u64)
    requires
        g.wf(),
        g.has_node(n),
    ensures
        g.upstream_of(n).finite(),
        g.upstream_of(n).len() <= g.id_set().len(),
        g.upstream_of(n).contains(n),
{
    assert forall|u: u64| g.upstream_of(n).contains(u) implies g.id_set().contains(u) by {
        let p = choose|p: Seq<u64>| is_path(g.arcs(), p) && p.first() == u && p.last() == n;
        if p.len() == 1 {
            assert(u == n);
        } else {
            assert(g.arcs().contains((p[0int], p[0int + 1])));
            let k = choose|k: int|
                0 <= k < g.edges@.len() && (#[trigger] g.edges@[k]).src_node == p[0int]
                    && g.edges@[k].dst_node == p[0int + 1];
            assert(g.edge_ok(g.edges@[k]));
        }
    }
    lemma_len_subset(g.upstream_of(n), g.id_set());
    lemma_reaches_refl(g.arcs(), n);
}

/// Along the edge feeding input port `i` of node `n`, the upstream
/// closure shrinks strictly.
proof fn lemma_feeding_edge_strict(g: NodeGraph, n: u64, i: int)
    requires
        g.wf(),
        g.has_node(n),
        g.has_edge_at(n, i),
    ensures
        g.has_node(g.edge_at(n, i).src_node),
        g.upstream_of(g.edge_at(n, i).src_node).len() < g.upstream_of(n).len(),
{
    let k = choose|k: int|
        0 <= k < g.edges@.len() && (#[trigger] g.edges@[k]).dst_node == n
            && g.edges@[k].dst_port == i;
    let s = g.edge_at(n, i).src_node;
    assert(g.edges@[k] == g.edge_at(n, i));
    assert(g.edge_ok(g.edges@[k]));
    assert(g.arcs().contains((s, n)));
    lemma_upstream_finite(g, n);
    lemma_upstream_finite(g, s);
    assert forall|u: u64| g.upstream_of(s).contains(u) implies g.upstream_of(n).remove(
        n,
    ).contains(u) by {
        lemma_arc_reaches(g.arcs(), s, n);
        lemma_reaches_trans(g.arcs(), u, s, n);
        if u == n {
            lemma_reaches_arc_cycle(g.arcs(), n, s);
        }
    }
    lemma_len_subset(g.upstream_of(s), g.upstream_of(n).remove(n));
}

/// A graph that is everywhere consistent upstream of `n` carries the
/// denotational value of `n` on `n`'s output.
pub proof fn lemma_consistent_outputs_denotational(g: NodeGraph, n: u64)
    requires
        g.wf(),
        g.has_node(n),
        forall|u: u64| #[trigger] reaches(g.arcs(), u, n) ==> g.consistent_at(u),
    ensures
        g.node_of(n).out_val(0) == denot_out(g, n),
    decreases g.upstream_of(n).len(),
{
    lemma_reaches_refl(g.arcs(), n);
    assert(g.consistent_at(n));
    match g.node_of(n) {
        DemoNode::Number(_) => {},
        DemoNode::Text(_) => {},
        DemoNode::Sink(_) => {},
        DemoNode::Add(_) => {
            assert forall|i: int| i == 0 || i == 1 implies g.gathered_at(n, i) == (
            if g.has_edge_at(n, i) {
                denot_out(g, g.edge_at(n, i).src_node)
            } else {
                None
            }) by {
                if g.has_edge_at(n, i) {
                    lemma_feeding_edge_strict(g, n, i);
                    let s = g.edge_at(n, i).src_node;
                    assert forall|u: u64| #[trigger] reaches(g.arcs(), u, s) implies
                        g.consistent_at(u) by {
                        lemma_arc_reaches(g.arcs(), s, n);
                        lemma_reaches_trans(g.arcs(), u, s, n);
                    }
                    lemma_consistent_outputs_denotational(g, s);
                }
            }
            assert(g.gathered(n)[0] == g.gathered_at(n, 0));
            assert(g.gathered(n)[1] == g.gathered_at(n, 1));
        },
    }
}

/// Law: a well-formed graph never contains a cycle.  Every operation of
/// [`NodeGraph`] requires and ensures well-formedness, and a `connect`
/// that would close a cycle is rejected with the graph unchanged, so
/// this holds after any sequence of operations starting from
/// [`NodeGraph::new`].
pub proof fn lemma_graph_acyclic(g: NodeGraph)
    requires
        g.wf(),
    ensures
        acyclic(g.arcs()),
{
}

/// Law: at most one edge targets any input port.  As with acyclicity,
/// every operation preserves this, so after any sequence of operations
/// each input port has at most one writer.
pub proof fn lemma_single_writer(g: NodeGraph)
    requires
        g.wf(),
    ensures
        forall|k1: int, k2: int|
            0 <= k1 < k2 < g.edges@.len() ==> !((#[trigger] g.edges@[k1]).dst_node
                == (#[trigger] g.edges@[k2]).dst_node && g.edges@[k1].dst_port
                == g.edges@[k2].dst_port),
{
}

/// Membership in a pushed sequence: the old members and the new one.
pub(crate) proof fn lemma_push_contains(s: Seq<u64>, x: u64)
    ensures
        forall|z: u64| #[trigger] s.push(x).contains(z) <==> s.contains(z) || z == x,
{
    assert forall|z: u64| #[trigger] s.push(x).contains(z) implies s.contains(z) || z == x by {
        let m = choose|m: int| 0 <= m < s.push(x).len() && s.push(x)[m] == z;
        if m < s.len() {
            assert(s[m] == z);
        }
    }
    assert forall|z: u64| s.contains(z) implies s.push(x).contains(z) by {
        let m = choose|m: int| 0 <= m < s.len() && s[m] == z;
        assert(s.push(x)[m] == z);
    }
    assert(s.push(x)[s.len() as int] == x);
    assert(s.push(x).contains(x));
}

/// Pushing a fresh element keeps a sequence duplicate free.
pub(crate) proof fn lemma_push_no_duplicates(s: Seq<u64>, x: u64)
    requires
        s.no_duplicates(),
        !s.contains(x),
    ensures
        s.push(x).no_duplicates(),
{
    assert forall|i: int, j: int| 0 <= i < j < s.push(x).len() implies s.push(x)[i] != s.push(x)[j]
        by {
        if j == s.len() {
            assert(s.contains(s[i]));
        }
    }
}

/// Linear membership test on a vector of identifiers.
pub(crate) fn contains_u64(v: &Vec<u64>, x: u64) -> (b: bool)
    ensures
        b == v@.contains(x),
{
    let mut i: usize = 0;
    while i < v.len()
        invariant
            i <= v@.len(),
            forall|j: int| 0 <= j < i ==> v@[j] != x,
        decreases v@.len() - i,
    {
        if v[i] == x {
            assert(v@[i as int] == x);
            return true;
        }
        i = i + 1;
    }
    false
}

} // verus!
