//! The graph-structured stack: nodes, edges, and the comparison of frontiers.

use std::collections::HashMap;
use vstd::prelude::*;

use crate::store::{InternVec, Interned};
use crate::utils::{FNV_OFFSET, FNV_PRIME};

verus! {

/// A state of the LR automaton.
pub type LRStateId = usize;

/// The index of a stack node.
pub type GssNodeId = usize;

/// The index of a stack edge.
pub type GssEdgeId = usize;

/// One stack node: an automaton state at a column.
#[derive(Debug, Clone, Copy, Hash, PartialEq, Eq, Structural)]
pub struct GssNode {
    pub state: LRStateId,
    pub column: usize,
    pub generation: u32,
}

/// One stack edge: a node, the node below it, and the product between them.
#[derive(Debug, Clone, Copy, Hash, PartialEq, Eq, Structural)]
pub struct GssEdge {
    pub from: GssNodeId,
    pub to: GssNodeId,
    pub product: usize,
    pub generation: u32,
}

impl GssEdge {
    pub fn new(from: GssNodeId, to: GssNodeId, product: usize, generation: u32) -> (r: GssEdge)
        ensures
            r == (GssEdge { from, to, product, generation }),
    {
        GssEdge { from, to, product, generation }
    }
}

/// Mixes one word into a hash.
spec fn mixed(hash: u64, word: u64) -> u64 {
    (hash ^ word).wrapping_mul(FNV_PRIME)
}

impl Interned for GssNode {
    closed spec fn bucket_spec(self) -> u64 {
        mixed(mixed(mixed(FNV_OFFSET, self.state as u64), self.column as u64), self.generation as u64)
    }

    fn bucket(&self) -> (r: u64) {
        let a: u64 = (FNV_OFFSET ^ (self.state as u64)).wrapping_mul(FNV_PRIME);
        let b: u64 = (a ^ (self.column as u64)).wrapping_mul(FNV_PRIME);
        (b ^ (self.generation as u64)).wrapping_mul(FNV_PRIME)
    }

    fn same(&self, other: &Self) -> (r: bool) {
        *self == *other
    }
}

impl Interned for GssEdge {
    closed spec fn bucket_spec(self) -> u64 {
        mixed(
            mixed(mixed(mixed(FNV_OFFSET, self.from as u64), self.to as u64), self.product as u64),
            self.generation as u64,
        )
    }

    fn bucket(&self) -> (r: u64) {
        let a: u64 = (FNV_OFFSET ^ (self.from as u64)).wrapping_mul(FNV_PRIME);
        let b: u64 = (a ^ (self.to as u64)).wrapping_mul(FNV_PRIME);
        let c: u64 = (b ^ (self.product as u64)).wrapping_mul(FNV_PRIME);
        (c ^ (self.generation as u64)).wrapping_mul(FNV_PRIME)
    }

    fn same(&self, other: &Self) -> (r: bool) {
        *self == *other
    }
}

/// What a stack holds.
pub ghost struct GssView {
    pub nodes: Seq<GssNode>,
    pub edges: Seq<GssEdge>,
}

/// Nodes with one more, where it is not there yet.
pub open spec fn interned(nodes: Seq<GssNode>, node: GssNode) -> Seq<GssNode> {
    if nodes.contains(node) {
        nodes
    } else {
        nodes.push(node)
    }
}

/// Stacks of which each follows from the one before: at most one node came.
pub open spec fn nodes_follow(history: Seq<Seq<GssNode>>) -> bool {
    forall|i: int|
        0 <= i < history.len() - 1 ==> history[i + 1] == #[trigger] history[i] || exists|
            node: GssNode,
        | history[i + 1] == #[trigger] interned(history[i], node)
}

/// A node is told apart by its state, column and generation: asked for once more
/// at any later time, the same node has the same id and nothing is added. A new
/// node gets the next id, and no node ever loses its own.
pub proof fn lemma_nodes_are_interned(history: Seq<Seq<GssNode>>, node: GssNode)
    requires
        history.len() >= 2,
        history[0].no_duplicates(),
        history[1] == interned(history[0], node),
        nodes_follow(history),
    ensures
        history.last().no_duplicates(),
        interned(history.last(), node) == history.last(),
        history.last().index_of(node) == history[1].index_of(node),
        history[0].contains(node) ==> history[1].index_of(node) == history[0].index_of(node),
        !history[0].contains(node) ==> history[1].index_of(node) == history[0].len(),
        forall|i: int|
            0 <= i < history[1].len() ==> #[trigger] history[1][i] == history.last()[i],
        history[1].len() <= history.last().len(),
    decreases history.len(),
{
    if history.len() == 2 {
        if history[0].contains(node) {
            let k = history[0].index_of(node);
            assert(history[0][k] == node);
        } else {
            let k = history[1].index_of(node);
            assert(history[1][history[0].len() as int] == node);
            assert(history[1].contains(node));
            assert(history[1][k] == node);
            if k < history[0].len() {
                assert(history[0][k] == node);
            }
        }
    } else {
        let rest = history.drop_last();
        assert(nodes_follow(rest)) by {
            assert forall|i: int| 0 <= i < rest.len() - 1 implies rest[i + 1] == #[trigger] rest[i]
                || exists|other: GssNode| rest[i + 1] == #[trigger] interned(rest[i], other) by {
                assert(history[i] == rest[i] && history[i + 1] == rest[i + 1]);
            }
        }
        lemma_nodes_are_interned(rest, node);
        let v = rest.last();
        let w = history.last();
        assert(history[history.len() - 2] == v);
        assert(v.contains(node));
        let k = v.index_of(node);
        assert(v[k] == node);
        assert(w[k] == node);
        assert(w.contains(node));
        let m = w.index_of(node);
        assert(w[m] == node);
        assert(w.no_duplicates());
        assert forall|i: int| 0 <= i < history[1].len() implies #[trigger] history[1][i] == w[i] by {
            assert(history[1][i] == v[i]);
        }
    }
}

/// The ids of the edges that leave a node, in the order of their making.
pub open spec fn edge_ids_from(edges: Seq<GssEdge>, from: GssNodeId) -> Seq<GssEdgeId>
    decreases edges.len(),
{
    if edges.len() == 0 {
        Seq::empty()
    } else {
        let before = edge_ids_from(edges.drop_last(), from);
        if edges.last().from == from {
            before.push((edges.len() - 1) as usize)
        } else {
            before
        }
    }
}

/// The edges that leave a node, in the order of their making.
pub open spec fn edges_from(edges: Seq<GssEdge>, from: GssNodeId) -> Seq<GssEdge> {
    edge_ids_from(edges, from).map_values(|id: GssEdgeId| edges[id as int])
}

/// The edges that leave a node are edges that leave it, and all of them.
pub proof fn lemma_edge_ids(edges: Seq<GssEdge>, from: GssNodeId)
    requires
        edges.len() <= usize::MAX,
    ensures
        forall|i: int|
            0 <= i < edge_ids_from(edges, from).len() ==> (#[trigger] edge_ids_from(edges, from)[i])
                < edges.len() && edges[edge_ids_from(edges, from)[i] as int].from == from,
        forall|i: int, j: int|
            0 <= i < j < edge_ids_from(edges, from).len() ==> (#[trigger] edge_ids_from(
                edges,
                from,
            )[i]) < #[trigger] edge_ids_from(edges, from)[j],
        forall|id: int|
            0 <= id < edges.len() && (#[trigger] edges[id]).from == from ==> edge_ids_from(
                edges,
                from,
            ).contains(id as usize),
    decreases edges.len(),
{
    if edges.len() > 0 {
        let rest = edges.drop_last();
        lemma_edge_ids(rest, from);
        let before = edge_ids_from(rest, from);
        let all = edge_ids_from(edges, from);
        assert forall|id: int| 0 <= id < edges.len() && (#[trigger] edges[id]).from
            == from implies all.contains(id as usize) by {
            if id < rest.len() {
                assert(rest[id] == edges[id]);
                assert(before.contains(id as usize));
                let i = choose|i: int| 0 <= i < before.len() && before[i] == id as usize;
                assert(all[i] == id as usize);
            } else {
                assert(all[all.len() - 1] == id as usize);
            }
        }
        assert forall|i: int| 0 <= i < all.len() implies (#[trigger] all[i]) < edges.len()
            && edges[all[i] as int].from == from by {
            if i < before.len() {
                assert(all[i] == before[i]);
                assert(rest[before[i] as int] == edges[before[i] as int]);
            }
        }
        assert forall|i: int, j: int| 0 <= i < j < all.len() implies (#[trigger] all[i])
            < #[trigger] all[j] by {
            assert(all[i] == before[i]);
            if j < before.len() {
                assert(all[j] == before[j]);
            }
        }
    }
}

/// The graph-structured stack of one document.
pub struct GssArena {
    nodes: InternVec<GssNode>,
    edges: InternVec<GssEdge>,
    outgoing: HashMap<usize, Vec<GssEdgeId>>,
}

impl GssArena {
    pub closed spec fn view(self) -> GssView {
        GssView { nodes: self.nodes@, edges: self.edges@ }
    }

    /// No node or edge occurs twice, and the outgoing lists are right.
    pub closed spec fn wf(self) -> bool {
        &&& self.nodes.wf()
        &&& self.edges.wf()
        &&& forall|from: usize|
            #![trigger edge_ids_from(self.edges@, from)]
            if self.outgoing@.dom().contains(from) {
                self.outgoing@[from]@ == edge_ids_from(self.edges@, from)
                    && edge_ids_from(self.edges@, from).len() > 0
            } else {
                edge_ids_from(self.edges@, from).len() == 0
            }
    }

    /// What a well formed stack promises.
    pub proof fn lemma_wf(self)
        requires
            self.wf(),
        ensures
            self@.nodes.no_duplicates(),
            self@.edges.no_duplicates(),
            self@.nodes.len() <= usize::MAX,
            self@.edges.len() <= usize::MAX,
    {
        self.nodes.lemma_distinct();
        self.edges.lemma_distinct();
    }

    pub fn new() -> (r: GssArena)
        ensures
            r.wf(),
            r@.nodes == Seq::<GssNode>::empty(),
            r@.edges == Seq::<GssEdge>::empty(),
    {
        GssArena { nodes: InternVec::new(), edges: InternVec::new(), outgoing: HashMap::new() }
    }

    /// The node of a state at a column; made where it is not there yet.
    pub fn node(&mut self, state: LRStateId, column: usize, generation: u32) -> (r: GssNodeId)
        requires
            old(self).wf(),
        ensures
            final(self).wf(),
            final(self)@.edges == old(self)@.edges,
            r < final(self)@.nodes.len(),
            final(self)@.nodes[r as int] == (GssNode { state, column, generation }),
            final(self)@.nodes == interned(
                old(self)@.nodes,
                GssNode { state, column, generation },
            ),
            r == final(self)@.nodes.index_of(GssNode { state, column, generation }),
    {
        let node = GssNode { state, column, generation };
        let id: usize = match self.nodes.find(&node) {
            Some(id) => {
                assert(self.nodes@.contains(self.nodes@[id as int]));
                id
            },
            None => self.nodes.push_new(node),
        };
        proof {
            self.lemma_wf();
            assert(self@.nodes[id as int] == node);
            assert(self@.nodes[self@.nodes.index_of(node)] == node);
        }
        id
    }

    /// Adds an edge; returns false where it was there already.
    pub fn add_edge(
        &mut self,
        from: GssNodeId,
        to: GssNodeId,
        product: usize,
        generation: u32,
    ) -> (r: bool)
        requires
            old(self).wf(),
        ensures
            final(self).wf(),
            final(self)@.nodes == old(self)@.nodes,
            r == !old(self)@.edges.contains(GssEdge { from, to, product, generation }),
            final(self)@.edges == (if r {
                old(self)@.edges.push(GssEdge { from, to, product, generation })
            } else {
                old(self)@.edges
            }),
    {
        broadcast use vstd::std_specs::hash::group_hash_axioms;

        let edge = GssEdge::new(from, to, product, generation);
        match self.edges.find(&edge) {
            Some(id) => {
                assert(self.edges@.contains(self.edges@[id as int]));
                return false;
            },
            None => {},
        }
        let ghost before = self.edges@;
        let ghost out0 = self.outgoing@;
        let id: usize = self.edges.push_new(edge);
        let mut list: Vec<GssEdgeId> = match self.outgoing.remove(&from) {
            Some(list) => list,
            None => Vec::new(),
        };
        proof {
            assert(list@ =~= edge_ids_from(before, from));
        }
        list.push(id);
        self.outgoing.insert(from, list);
        proof {
            assert(self.edges@.drop_last() =~= before);
            assert forall|other: usize|
                #![trigger edge_ids_from(self.edges@, other)]
                if self.outgoing@.dom().contains(other) {
                    self.outgoing@[other]@ == edge_ids_from(self.edges@, other)
                        && edge_ids_from(self.edges@, other).len() > 0
                } else {
                    edge_ids_from(self.edges@, other).len() == 0
                } by {
                let old_ids = edge_ids_from(before, other);
                if other != from {
                    assert(edge_ids_from(self.edges@, other) == old_ids);
                }
            }
        }
        true
    }

    pub fn get_node(&self, id: GssNodeId) -> (r: Option<&GssNode>)
        requires
            self.wf(),
        ensures
            match r {
                Some(node) => id < self@.nodes.len() && *node == self@.nodes[id as int],
                None => id >= self@.nodes.len(),
            },
    {
        self.nodes.get(id)
    }

    pub fn node_count(&self) -> (r: usize)
        requires
            self.wf(),
        ensures
            r == self@.nodes.len(),
    {
        self.nodes.len()
    }

    pub fn edge_count(&self) -> (r: usize)
        requires
            self.wf(),
        ensures
            r == self@.edges.len(),
    {
        self.edges.len()
    }

    pub fn get_edge(&self, id: GssEdgeId) -> (r: Option<&GssEdge>)
        requires
            self.wf(),
        ensures
            match r {
                Some(edge) => id < self@.edges.len() && *edge == self@.edges[id as int],
                None => id >= self@.edges.len(),
            },
    {
        self.edges.get(id)
    }

    /// The ids of the edges that leave a node; none where no edge leaves it.
    pub fn outgoing_edge_ids(&self, id: GssNodeId) -> (r: Option<&[GssEdgeId]>)
        requires
            self.wf(),
        ensures
            match r {
                Some(list) => list@ == edge_ids_from(self@.edges, id) && list@.len() > 0,
                None => edge_ids_from(self@.edges, id).len() == 0,
            },
    {
        broadcast use vstd::std_specs::hash::group_hash_axioms;

        proof {
            let ids = edge_ids_from(self.edges@, id);
        }
        match self.outgoing.get(&id) {
            Some(list) => Some(list.as_slice()),
            None => None,
        }
    }

    /// The edges that leave a node, in the order of their making.
    pub fn outgoing_edges(&self, id: GssNodeId) -> (r: Vec<GssEdge>)
        requires
            self.wf(),
        ensures
            r@ == edges_from(self@.edges, id),
    {
        let mut out: Vec<GssEdge> = Vec::new();
        let ghost ids = edge_ids_from(self@.edges, id);
        proof {
            self.edges.lemma_distinct();
            lemma_edge_ids(self@.edges, id);
        }
        match self.outgoing_edge_ids(id) {
            Some(list) => {
                let mut index: usize = 0;
                while index < list.len()
                    invariant
                        self.wf(),
                        index <= list@.len(),
                        list@ == ids,
                        ids == edge_ids_from(self@.edges, id),
                        forall|i: int|
                            0 <= i < ids.len() ==> (#[trigger] ids[i]) < self@.edges.len(),
                        out@ == edges_from(self@.edges, id).take(index as int),
                    decreases list@.len() - index,
                {
                    let edge_id: usize = list[index];
                    assert(ids[index as int] < self@.edges.len());
                    match self.edges.get(edge_id) {
                        Some(edge) => {
                            out.push(*edge);
                        },
                        None => {},
                    }
                    index += 1;
                    assert(out@ =~= edges_from(self@.edges, id).take(index as int));
                }
                assert(out@ =~= edges_from(self@.edges, id));
            },
            None => {
                assert(out@ =~= edges_from(self@.edges, id));
            },
        }
        out
    }

    /// Freezes the current generation; nodes and edges stay as they are.
    pub fn seal_generation(&mut self)
        requires
            old(self).wf(),
        ensures
            final(self).wf(),
            final(self)@ == old(self)@,
    {
        self.nodes.seal();
        self.edges.seal();
    }
}

} // verus!
