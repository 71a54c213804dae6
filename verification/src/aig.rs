//! The AIG aggregate: an append-only store of two-input AND nodes, the
//! primary-input and primary-output tables, and a topological order.

use vstd::prelude::*;

use crate::cut::AIGCut;
use crate::edge::AIGRef;

verus! {

/// AND node of the graph: a diagnostic display name, the two fan-in edges,
/// a fan-out counter (also used as the mark bit of the topological walk), the
/// enumerated cuts, and the two per-node annotations picked from the best cut.
/// `u64::MAX` stands for "not yet annotated" in both scalar fields.
#[derive(Clone, Debug)]
pub struct AIGNode {
    pub name: String,
    pub inp0: AIGRef,
    pub inp1: AIGRef,
    pub num_fanouts: u64,
    pub cuts: Vec<AIGCut>,
    pub arrival: u64,
    pub area_flow: u64,
}

impl AIGNode {
    /// A fresh node with the given fan-ins, no cuts and unset annotations.
    pub fn new(inp0: AIGRef, inp1: AIGRef, name: &str) -> (r: AIGNode)
        ensures
            r.name@ == name@,
            r.inp0 == inp0,
            r.inp1 == inp1,
            r.num_fanouts == 0,
            r.cuts@.len() == 0,
            r.arrival == u64::MAX,
            r.area_flow == u64::MAX,
    {
        AIGNode {
            name: name.to_owned(),
            inp0,
            inp1,
            num_fanouts: 0,
            cuts: Vec::new(),
            arrival: u64::MAX,
            area_flow: u64::MAX,
        }
    }
}

/// An edge is resolvable against a graph with `n_nodes` nodes and `n_pis`
/// primary inputs.
pub open spec fn ref_ok(r: AIGRef, n_nodes: int, n_pis: int) -> bool {
    &&& r.wf()
    &&& if r.spec_is_pi() {
        r.spec_index() < n_pis
    } else {
        r.spec_index() < n_nodes
    }
}

/// A fan-in edge of the node at index `i` resolves to a primary input or to a
/// node created strictly earlier, which keeps the store acyclic.
pub open spec fn fanin_ok(r: AIGRef, i: int, n_pis: int) -> bool {
    &&& r.wf()
    &&& if r.spec_is_pi() {
        r.spec_index() < n_pis
    } else {
        r.spec_index() < i
    }
}

/// Complete AIG, including the input and output tables.
#[derive(Clone, Debug)]
pub struct AIG {
    pub nodes: Vec<AIGNode>,
    pub pi: Vec<String>,
    pub po: Vec<(String, AIGRef)>,
    pub topo_order: Vec<usize>,
}

impl AIG {
    /// Every node's fan-ins point at primary inputs or at earlier nodes.
    pub open spec fn nodes_wf(self) -> bool {
        forall|i: int|
            0 <= i < self.nodes@.len() ==> fanin_ok(
                #[trigger] self.nodes@[i].inp0,
                i,
                self.pi@.len() as int,
            ) && fanin_ok(self.nodes@[i].inp1, i, self.pi@.len() as int)
    }

    /// Every primary-output edge targets a valid node or primary input.
    pub open spec fn pos_wf(self) -> bool {
        forall|i: int|
            0 <= i < self.po@.len() ==> ref_ok(
                #[trigger] self.po@[i].1,
                self.nodes@.len() as int,
                self.pi@.len() as int,
            )
    }

    /// Structural well-formedness: the graph is acyclic by construction and
    /// all edges resolve.
    pub open spec fn wf(self) -> bool {
        self.nodes_wf() && self.pos_wf()
    }

    /// The stored topological order is valid: indices in range, no node twice,
    /// and both fan-ins of an entry stand earlier in the order (primary inputs
    /// do not participate).
    pub open spec fn topo_ok(self) -> bool {
        &&& self.topo_order@.no_duplicates()
        &&& forall|p: int|
            0 <= p < self.topo_order@.len() ==> #[trigger] self.topo_order@[p]
                < self.nodes@.len()
        &&& forall|p: int|
            0 <= p < self.topo_order@.len() ==> {
                let n = self.nodes@[#[trigger] self.topo_order@[p] as int];
                &&& (!n.inp0.spec_is_pi() ==> self.topo_order@.take(p).contains(
                    n.inp0.spec_index() as usize,
                ))
                &&& (!n.inp1.spec_is_pi() ==> self.topo_order@.take(p).contains(
                    n.inp1.spec_index() as usize,
                ))
            }
    }

    /// Read access to the node an edge targets. Valid only for non-PI edges.
    pub fn get(&self, nref: AIGRef) -> (r: &AIGNode)
        requires
            !nref.spec_is_pi(),
            nref.spec_index() < self.nodes@.len(),
        ensures
            *r == self.nodes@[nref.spec_index() as int],
    {
        let n = self.nodes.len();
        assert(nref.spec_index() < n as u64);
        &self.nodes[nref.idx()]
    }
}

} // verus!
