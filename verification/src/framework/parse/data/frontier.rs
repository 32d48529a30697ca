//! Frontiers: shapes of stack nodes, and the comparison of two sets of active
//! nodes up to the identity of nodes and products.

use std::collections::HashMap;
use vstd::prelude::*;
use vstd::relations::*;
use vstd::seq_lib::*;

use crate::framework::parse::data::green::{TreeArena, TreeView};
use crate::framework::parse::data::gss::{
    edges_from, GssArena, GssEdge, GssNodeId, GssView,
};
use crate::framework::parse::data::product::{
    CanonicalProducts, ProductArena, ProductView, StateProducts,
};
use crate::shape::{
    hash_children, keyed_ascending, keyed_le, keyed_shapes, keyed_views,
    lemma_keyed_shapes_ascending, lemma_keyed_total, lemma_shape_ascending_permuted, mix,
    shape_ascending, sort_keyed, views, Keyed, KeyedView, Shape, ShapeView,
};
use crate::shape_graph::{
    grown, has_shape, lemma_built, lemma_dependency, lemma_remembered, memo_wf, shape_key,
    shape_of, shapes_of, ShapeGraph,
};
use crate::sort::{sorted_distinct, strictly_ascending};
use crate::utils::{FNV_OFFSET, FNV_PRIME};

verus! {

/// The shape of an edge: the node below and the product between.
pub open spec fn edge_shape(to: ShapeView, product: ShapeView) -> ShapeView {
    ShapeView { tag: 7, label: 0, extra: 0, children: seq![to, product] }
}

/// The shape of a node: its state and the shapes of its edges, whatever their
/// order.
pub open spec fn node_shape(state: usize, edges: Seq<ShapeView>) -> ShapeView {
    ShapeView { tag: 8, label: state as u64, extra: 0, children: shape_ascending(edges) }
}

fn make_edge(to: Shape, product: Shape) -> (r: Shape)
    requires
        to.wf(),
        product.wf(),
    ensures
        r.wf(),
        r.view() == edge_shape(to.view(), product.view()),
{
    let mut children: Vec<Shape> = Vec::new();
    children.push(to);
    children.push(product);
    assert(views(children@) =~= seq![to.view(), product.view()]);
    Shape::new(7, 0, 0, children)
}

/// The shapes of sorted keyed shapes.
fn strip(items: Vec<Keyed>) -> (out: Vec<Shape>)
    requires
        forall|i: int| 0 <= i < items@.len() ==> (#[trigger] items@[i]).shape.wf(),
    ensures
        views(out@) == keyed_shapes(keyed_views(items@)),
        forall|i: int| 0 <= i < out@.len() ==> (#[trigger] out@[i]).wf(),
{
    let mut out: Vec<Shape> = Vec::new();
    let mut index: usize = 0;
    while index < items.len()
        invariant
            index <= items@.len(),
            out@.len() == index,
            forall|i: int| 0 <= i < items@.len() ==> (#[trigger] items@[i]).shape.wf(),
            forall|i: int| 0 <= i < index ==> (#[trigger] out@[i]).wf(),
            forall|i: int| 0 <= i < index ==> (#[trigger] out@[i]).view() == items@[i].shape.view(),
        decreases items@.len() - index,
    {
        assert(items@[index as int].shape.wf());
        out.push(items[index].shape.clone());
        index += 1;
    }
    assert(views(out@) =~= keyed_shapes(keyed_views(items@)));
    out
}

/// Sorting keeps what holds of every item.
pub proof fn lemma_sorted_shapes_wf(items: Seq<Keyed>, out: Seq<Keyed>)
    requires
        items.to_multiset() == out.to_multiset(),
        forall|i: int| 0 <= i < items.len() ==> (#[trigger] items[i]).shape.wf(),
    ensures
        forall|i: int| 0 <= i < out.len() ==> (#[trigger] out[i]).shape.wf(),
{
    broadcast use group_to_multiset_ensures;

    assert forall|i: int| 0 <= i < out.len() implies (#[trigger] out[i]).shape.wf() by {
        assert(out.contains(out[i]));
        assert(out.to_multiset().count(out[i]) > 0);
        assert(items.contains(out[i]));
    }
}

/// The shape of a node over its state and its edges' shapes.
fn make_node(state: usize, edges: Vec<Keyed>) -> (r: Shape)
    requires
        forall|i: int| 0 <= i < edges@.len() ==> (#[trigger] edges@[i]).shape.wf(),
    ensures
        r.wf(),
        r.view() == node_shape(state, keyed_shapes(keyed_views(edges@))),
{
    let ghost before = edges@;
    let sorted = sort_keyed(edges);
    proof {
        lemma_sorted_shapes_wf(before, sorted@);
        lemma_keyed_shapes_ascending(keyed_views(before));
    }
    let children = strip(sorted);
    Shape::new(8, state as u64, 0, children)
}

// ---------------------------------------------------------------------------
// Canonical shapes of nodes

/// Every product on an edge from a node has a canonical shape.
pub open spec fn products_known(gss: GssView, products: Seq<ProductView>, id: GssNodeId) -> bool {
    forall|i: int|
        0 <= i < edges_from(gss.edges, id).len() ==> has_shape::<CanonicalProducts<'_>>(
            products,
            (#[trigger] edges_from(gss.edges, id)[i]).product,
        )
}

/// The targets of a list of edges.
pub open spec fn targets(edges: Seq<GssEdge>) -> Seq<usize> {
    edges.map_values(|edge: GssEdge| edge.to)
}

/// The shapes of edges over the shapes of their targets.
pub open spec fn canonical_edges(
    products: Seq<ProductView>,
    edges: Seq<GssEdge>,
    kids: Seq<ShapeView>,
) -> Seq<ShapeView> {
    Seq::new(
        edges.len(),
        |i: int|
            edge_shape(kids[i], shape_of::<CanonicalProducts<'_>>(products, edges[i].product)),
    )
}

/// The canonical shapes of a stack's nodes.
pub struct CanonicalNodes<'a> {
    pub gss: &'a GssArena,
    pub products: &'a ProductArena,
    pub memo: HashMap<usize, Shape>,
}

impl<'a> ShapeGraph for CanonicalNodes<'a> {
    type Graph = (GssView, Seq<ProductView>);

    open spec fn graph(&self) -> Self::Graph {
        (self.gss@, self.products@)
    }

    open spec fn inv(&self) -> bool {
        &&& self.gss.wf()
        &&& self.products.wf()
        &&& memo_wf::<CanonicalProducts<'_>>(self.products@, self.memo@)
    }

    open spec fn bound(graph: Self::Graph) -> nat {
        graph.0.nodes.len()
    }

    open spec fn deps(graph: Self::Graph, id: usize) -> Option<Seq<usize>> {
        if id < graph.0.nodes.len() && products_known(graph.0, graph.1, id) {
            Some(targets(edges_from(graph.0.edges, id)))
        } else {
            None
        }
    }

    open spec fn build(graph: Self::Graph, id: usize, kids: Seq<ShapeView>) -> ShapeView {
        node_shape(
            graph.0.nodes[id as int].state,
            canonical_edges(graph.1, edges_from(graph.0.edges, id), kids),
        )
    }

    proof fn lemma_bounded(graph: Self::Graph, id: usize) {
    }

    fn exec_deps(&mut self, id: usize) -> (r: Option<Vec<usize>>) {
        if id >= self.gss.node_count() {
            return None;
        }
        let ghost g = self.graph();
        let edges = self.gss.outgoing_edges(id);
        let mut out: Vec<usize> = Vec::new();
        let mut index: usize = 0;
        while index < edges.len()
            invariant
                g == old(self).graph(),
                self.inv(),
                self.graph() == g,
                index <= edges@.len(),
                edges@ == edges_from(g.0.edges, id),
                out@ == targets(edges@).take(index as int),
                forall|i: int|
                    0 <= i < index ==> has_shape::<CanonicalProducts<'_>>(
                        g.1,
                        (#[trigger] edges@[i]).product,
                    ),
            decreases edges@.len() - index,
        {
            let edge = edges[index];
            match self.products.canonical_key(edge.product, &mut self.memo) {
                Some(_) => {},
                None => {
                    proof {
                        assert(!has_shape::<CanonicalProducts<'_>>(
                            g.1,
                            edges_from(g.0.edges, id)[index as int].product,
                        ));
                    }
                    return None;
                },
            }
            out.push(edge.to);
            index += 1;
            assert(out@ =~= targets(edges@).take(index as int));
        }
        assert(out@ =~= targets(edges@));
        Some(out)
    }

    fn exec_build(&mut self, id: usize, kids: Vec<Shape>) -> (r: Shape) {
        let ghost g = self.graph();
        let state: usize = self.gss.get_node(id).unwrap().state;
        let edges = self.gss.outgoing_edges(id);
        proof {
            assert forall|i: int| 0 <= i < edges@.len() implies has_shape::<CanonicalProducts<'_>>(
                g.1,
                (#[trigger] edges@[i]).product,
            ) by {
                assert(edges@[i] == edges_from(g.0.edges, id)[i]);
            }
        }
        let items = canonical_items(self.products, &mut self.memo, &edges, &kids);
        make_node(state, items)
    }
}

/// The canonical shapes of edges.
fn canonical_items(
    products: &ProductArena,
    memo: &mut HashMap<usize, Shape>,
    edges: &Vec<GssEdge>,
    kids: &Vec<Shape>,
) -> (items: Vec<Keyed>)
    requires
        products.wf(),
        memo_wf::<CanonicalProducts<'_>>(products@, old(memo)@),
        kids@.len() == edges@.len(),
        forall|i: int|
            0 <= i < edges@.len() ==> has_shape::<CanonicalProducts<'_>>(
                products@,
                (#[trigger] edges@[i]).product,
            ),
        forall|i: int| 0 <= i < kids@.len() ==> (#[trigger] kids@[i]).wf(),
    ensures
        memo_wf::<CanonicalProducts<'_>>(products@, final(memo)@),
        keyed_shapes(keyed_views(items@)) == canonical_edges(products@, edges@, views(kids@)),
        forall|i: int| 0 <= i < items@.len() ==> (#[trigger] items@[i]).shape.wf(),
{
    let mut items: Vec<Keyed> = Vec::new();
    let mut index: usize = 0;
    while index < edges.len()
        invariant
            products.wf(),
            memo_wf::<CanonicalProducts<'_>>(products@, memo@),
            index <= edges@.len(),
            kids@.len() == edges@.len(),
            forall|i: int|
                0 <= i < edges@.len() ==> has_shape::<CanonicalProducts<'_>>(
                    products@,
                    (#[trigger] edges@[i]).product,
                ),
            forall|i: int| 0 <= i < kids@.len() ==> (#[trigger] kids@[i]).wf(),
            items@.len() == index,
            forall|i: int| 0 <= i < index ==> (#[trigger] items@[i]).shape.wf(),
            forall|i: int|
                0 <= i < index ==> (#[trigger] items@[i]).shape.view() == edge_shape(
                    kids@[i].view(),
                    shape_of::<CanonicalProducts<'_>>(products@, edges@[i].product),
                ),
        decreases edges@.len() - index,
    {
        let edge = edges[index];
        assert(has_shape::<CanonicalProducts<'_>>(products@, edges@[index as int].product));
        let product = products.canonical_key(edge.product, memo).unwrap();
        assert(kids@[index as int].wf());
        let shape = make_edge(kids[index].clone(), product);
        items.push(Keyed { shape, first: 0, second: 0 });
        index += 1;
    }
    assert(keyed_shapes(keyed_views(items@)) =~= canonical_edges(
        products@,
        edges@,
        views(kids@),
    ));
    items
}

/// Nodes of one state whose edges have the same shapes, in whatever order and
/// between whatever nodes, have the same shape.
pub proof fn lemma_shape_ignores_identity(
    gss: GssView,
    products: Seq<ProductView>,
    a: GssNodeId,
    b: GssNodeId,
)
    requires
        has_shape::<CanonicalNodes<'_>>((gss, products), a),
        has_shape::<CanonicalNodes<'_>>((gss, products), b),
        gss.nodes[a as int].state == gss.nodes[b as int].state,
        canonical_edges(
            products,
            edges_from(gss.edges, a),
            shapes_of::<CanonicalNodes<'_>>((gss, products), targets(edges_from(gss.edges, a))),
        ).to_multiset() == canonical_edges(
            products,
            edges_from(gss.edges, b),
            shapes_of::<CanonicalNodes<'_>>((gss, products), targets(edges_from(gss.edges, b))),
        ).to_multiset(),
    ensures
        shape_of::<CanonicalNodes<'_>>((gss, products), a) == shape_of::<CanonicalNodes<'_>>(
            (gss, products),
            b,
        ),
{
    let g = (gss, products);
    lemma_unfold_canonical(g, a);
    lemma_unfold_canonical(g, b);
    lemma_shape_ascending_permuted(
        canonical_edges(
            products,
            edges_from(gss.edges, a),
            shapes_of::<CanonicalNodes<'_>>(g, targets(edges_from(gss.edges, a))),
        ),
        canonical_edges(
            products,
            edges_from(gss.edges, b),
            shapes_of::<CanonicalNodes<'_>>(g, targets(edges_from(gss.edges, b))),
        ),
    );
}

/// The shape of a node is built from the shapes of its targets.
proof fn lemma_unfold_canonical(g: (GssView, Seq<ProductView>), id: GssNodeId)
    requires
        has_shape::<CanonicalNodes<'_>>(g, id),
    ensures
        CanonicalNodes::deps(g, id) == Some(targets(edges_from(g.0.edges, id))),
        shape_of::<CanonicalNodes<'_>>(g, id) == node_shape(
            g.0.nodes[id as int].state,
            canonical_edges(
                g.1,
                edges_from(g.0.edges, id),
                shapes_of::<CanonicalNodes<'_>>(g, targets(edges_from(g.0.edges, id))),
            ),
        ),
{
    if CanonicalNodes::deps(g, id) is None {
        crate::shape_graph::lemma_no_deps::<CanonicalNodes<'_>>(g, id);
    }
    let list = CanonicalNodes::deps(g, id)->Some_0;
    assert forall|i: int| 0 <= i < list.len() implies has_shape::<CanonicalNodes<'_>>(
        g,
        #[trigger] list[i],
    ) by {
        lemma_dependency::<CanonicalNodes<'_>>(g, id, i);
    }
    lemma_built::<CanonicalNodes<'_>>(g, id);
}

// ---------------------------------------------------------------------------
// State shapes of nodes

/// Every product on an edge from a node has a state shape, and no edge leads to
/// the id that stands for the node itself.
pub open spec fn states_known(
    gss: GssView,
    products: Seq<ProductView>,
    trees: Seq<TreeView>,
    id: GssNodeId,
) -> bool {
    forall|i: int|
        0 <= i < edges_from(gss.edges, id).len() ==> has_shape::<StateProducts<'_>>(
            (products, trees),
            (#[trigger] edges_from(gss.edges, id)[i]).product,
        ) && (edges_from(gss.edges, id)[i].to != usize::MAX)
}

/// The targets of a node's edges, with the greatest id in place of the node
/// itself: an edge from a node to itself does not look into the node again.
pub open spec fn state_targets(edges: Seq<GssEdge>, id: GssNodeId) -> Seq<usize> {
    edges.map_values(
        |edge: GssEdge|
            if edge.to == id {
                usize::MAX
            } else {
                edge.to
            },
    )
}

/// The state shapes of edges over the shapes of their targets.
pub open spec fn state_edges(
    products: Seq<ProductView>,
    trees: Seq<TreeView>,
    edges: Seq<GssEdge>,
    kids: Seq<ShapeView>,
) -> Seq<ShapeView> {
    Seq::new(
        edges.len(),
        |i: int|
            edge_shape(
                kids[i],
                shape_of::<StateProducts<'_>>((products, trees), edges[i].product),
            ),
    )
}

/// The state shapes of a stack's nodes.
pub struct StateNodes<'a> {
    pub gss: &'a GssArena,
    pub products: &'a ProductArena,
    pub trees: &'a TreeArena,
    pub memo: HashMap<usize, Shape>,
}

/// What the state shapes of nodes depend on.
pub type StateGraph = (GssView, Seq<ProductView>, Seq<TreeView>);

impl<'a> ShapeGraph for StateNodes<'a> {
    type Graph = StateGraph;

    open spec fn graph(&self) -> Self::Graph {
        (self.gss@, self.products@, self.trees@)
    }

    open spec fn inv(&self) -> bool {
        &&& self.gss.wf()
        &&& self.products.wf()
        &&& self.trees.wf()
        &&& memo_wf::<StateProducts<'_>>((self.products@, self.trees@), self.memo@)
    }

    open spec fn bound(graph: Self::Graph) -> nat {
        (usize::MAX + 1) as nat
    }

    open spec fn deps(graph: Self::Graph, id: usize) -> Option<Seq<usize>> {
        if id == usize::MAX {
            Some(Seq::empty())
        } else if id < graph.0.nodes.len() && states_known(graph.0, graph.1, graph.2, id) {
            Some(state_targets(edges_from(graph.0.edges, id), id))
        } else {
            None
        }
    }

    open spec fn build(graph: Self::Graph, id: usize, kids: Seq<ShapeView>) -> ShapeView {
        if id == usize::MAX {
            ShapeView { tag: 9, label: 0, extra: 0, children: Seq::empty() }
        } else {
            node_shape(
                graph.0.nodes[id as int].state,
                state_edges(graph.1, graph.2, edges_from(graph.0.edges, id), kids),
            )
        }
    }

    proof fn lemma_bounded(graph: Self::Graph, id: usize) {
    }

    fn exec_deps(&mut self, id: usize) -> (r: Option<Vec<usize>>) {
        if id == usize::MAX {
            return Some(Vec::new());
        }
        if id >= self.gss.node_count() {
            return None;
        }
        let ghost g = self.graph();
        let edges = self.gss.outgoing_edges(id);
        let mut out: Vec<usize> = Vec::new();
        let mut index: usize = 0;
        while index < edges.len()
            invariant
                g == old(self).graph(),
                self.inv(),
                self.graph() == g,
                index <= edges@.len(),
                id != usize::MAX,
                edges@ == edges_from(g.0.edges, id),
                out@ == state_targets(edges@, id).take(index as int),
                forall|i: int|
                    0 <= i < index ==> has_shape::<StateProducts<'_>>(
                        (g.1, g.2),
                        (#[trigger] edges@[i]).product,
                    ) && edges@[i].to != usize::MAX,
            decreases edges@.len() - index,
        {
            let edge = edges[index];
            if edge.to == usize::MAX {
                proof {
                    assert(edges_from(g.0.edges, id)[index as int].to == usize::MAX);
                }
                return None;
            }
            match self.products.structural_key(self.trees, edge.product, &mut self.memo) {
                Some(_) => {},
                None => {
                    proof {
                        assert(!has_shape::<StateProducts<'_>>(
                            (g.1, g.2),
                            edges_from(g.0.edges, id)[index as int].product,
                        ));
                    }
                    return None;
                },
            }
            out.push(
                if edge.to == id {
                    usize::MAX
                } else {
                    edge.to
                },
            );
            index += 1;
            assert(out@ =~= state_targets(edges@, id).take(index as int));
        }
        assert(out@ =~= state_targets(edges@, id));
        Some(out)
    }

    fn exec_build(&mut self, id: usize, kids: Vec<Shape>) -> (r: Shape) {
        if id == usize::MAX {
            return Shape::leaf(9, 0, 0);
        }
        let ghost g = self.graph();
        let state: usize = self.gss.get_node(id).unwrap().state;
        let edges = self.gss.outgoing_edges(id);
        proof {
            assert forall|i: int| 0 <= i < edges@.len() implies has_shape::<StateProducts<'_>>(
                (g.1, g.2),
                (#[trigger] edges@[i]).product,
            ) by {
                assert(edges@[i] == edges_from(g.0.edges, id)[i]);
            }
        }
        let items = state_items(self.products, self.trees, &mut self.memo, &edges, &kids);
        proof {
            assert(keyed_shapes(keyed_views(items@)) =~= state_edges(
                g.1,
                g.2,
                edges@,
                views(kids@),
            ));
        }
        make_node(state, items)
    }
}

/// The state shapes of edges, each with its target and its product.
pub open spec fn state_items_view(
    g: (Seq<ProductView>, Seq<TreeView>),
    edges: Seq<GssEdge>,
    kids: Seq<ShapeView>,
) -> Seq<KeyedView> {
    Seq::new(
        edges.len(),
        |i: int|
            KeyedView {
                shape: edge_shape(
                    kids[i],
                    shape_of::<StateProducts<'_>>(g, edges[i].product),
                ),
                first: edges[i].to,
                second: edges[i].product,
            },
    )
}

pub(crate) fn state_items(
    products: &ProductArena,
    trees: &TreeArena,
    memo: &mut HashMap<usize, Shape>,
    edges: &Vec<GssEdge>,
    kids: &Vec<Shape>,
) -> (items: Vec<Keyed>)
    requires
        products.wf(),
        trees.wf(),
        memo_wf::<StateProducts<'_>>((products@, trees@), old(memo)@),
        kids@.len() == edges@.len(),
        forall|i: int|
            0 <= i < edges@.len() ==> has_shape::<StateProducts<'_>>(
                (products@, trees@),
                (#[trigger] edges@[i]).product,
            ),
        forall|i: int| 0 <= i < kids@.len() ==> (#[trigger] kids@[i]).wf(),
    ensures
        memo_wf::<StateProducts<'_>>((products@, trees@), final(memo)@),
        keyed_views(items@) == state_items_view((products@, trees@), edges@, views(kids@)),
        forall|i: int| 0 <= i < items@.len() ==> (#[trigger] items@[i]).shape.wf(),
{
    let ghost g = (products@, trees@);
    let mut items: Vec<Keyed> = Vec::new();
    let mut index: usize = 0;
    while index < edges.len()
        invariant
            g == (products@, trees@),
            products.wf(),
            trees.wf(),
            memo_wf::<StateProducts<'_>>(g, memo@),
            index <= edges@.len(),
            kids@.len() == edges@.len(),
            forall|i: int|
                0 <= i < edges@.len() ==> has_shape::<StateProducts<'_>>(
                    g,
                    (#[trigger] edges@[i]).product,
                ),
            forall|i: int| 0 <= i < kids@.len() ==> (#[trigger] kids@[i]).wf(),
            items@.len() == index,
            forall|i: int| 0 <= i < index ==> (#[trigger] items@[i]).shape.wf(),
            forall|i: int|
                0 <= i < index ==> (#[trigger] items@[i]).shape.view() == edge_shape(
                    kids@[i].view(),
                    shape_of::<StateProducts<'_>>(g, edges@[i].product),
                ),
            forall|i: int|
                0 <= i < index ==> (#[trigger] items@[i]).first == edges@[i].to
                    && items@[i].second == edges@[i].product,
        decreases edges@.len() - index,
    {
        let edge = edges[index];
        assert(has_shape::<StateProducts<'_>>(g, edges@[index as int].product));
        let product = products.structural_key(trees, edge.product, memo).unwrap();
        assert(kids@[index as int].wf());
        let shape = make_edge(kids[index].clone(), product);
        items.push(Keyed { shape, first: edge.to, second: edge.product });
        index += 1;
    }
    assert forall|i: int| 0 <= i < items@.len() implies (#[trigger] items@[i]).view()
        == state_items_view(g, edges@, views(kids@))[i] by {
    }
    assert(keyed_views(items@) =~= state_items_view(g, edges@, views(kids@)));
    items
}

// ---------------------------------------------------------------------------
// Canonical frontiers

/// Some shape occurs twice.
pub open spec fn repeats(list: Seq<KeyedView>) -> bool {
    exists|i: int, j: int|
        0 <= i < j < list.len() && (#[trigger] list[i]).shape == (#[trigger] list[j]).shape
}

/// Roots with their canonical shapes.
pub open spec fn root_keys(g: (GssView, Seq<ProductView>), roots: Seq<usize>) -> Seq<KeyedView> {
    roots.map_values(
        |id: usize|
            KeyedView { shape: shape_of::<CanonicalNodes<'_>>(g, id), first: id, second: 0 },
    )
}

/// Products with their canonical shapes.
pub open spec fn product_keys(products: Seq<ProductView>, ids: Seq<usize>) -> Seq<KeyedView> {
    ids.map_values(
        |id: usize|
            KeyedView {
                shape: shape_of::<CanonicalProducts<'_>>(products, id),
                first: id,
                second: 0,
            },
    )
}

/// The products on edges that leave a node of a set.
pub open spec fn products_from(gss: GssView, nodes: Set<usize>) -> Set<usize> {
    Set::new(
        |product: usize|
            exists|id: usize, i: int|
                #![trigger nodes.contains(id), edges_from(gss.edges, id)[i]]
                nodes.contains(id) && 0 <= i < edges_from(gss.edges, id).len() && edges_from(
                    gss.edges,
                    id,
                )[i].product == product,
    )
}

/// The order-free key of a frontier.
#[derive(Debug, PartialEq, Eq)]
pub struct CanonicalFrontierKey {
    pub base: Vec<Shape>,
    pub active: Vec<Shape>,
}

/// A frontier up to the identity of its nodes, with the nodes and products that
/// were looked at and whether two of them look alike.
#[derive(Debug)]
pub struct CanonicalFrontier {
    pub key: CanonicalFrontierKey,
    pub fingerprint: u64,
    pub nodes: Vec<Keyed>,
    pub products: Vec<Keyed>,
    pub ambiguous: bool,
}

/// What a frontier says.
pub ghost struct FrontierView {
    pub base: Seq<ShapeView>,
    pub active: Seq<ShapeView>,
    pub nodes: Seq<KeyedView>,
    pub products: Seq<KeyedView>,
    pub ambiguous: bool,
}

impl CanonicalFrontierKey {
    /// All shapes carry right fingerprints.
    pub open spec fn wf(self) -> bool {
        &&& forall|i: int| 0 <= i < self.base@.len() ==> (#[trigger] self.base@[i]).wf()
        &&& forall|i: int| 0 <= i < self.active@.len() ==> (#[trigger] self.active@[i]).wf()
    }

    /// The sorted shapes of the base and of the active nodes.
    pub open spec fn view(self) -> (Seq<ShapeView>, Seq<ShapeView>) {
        (views(self.base@), views(self.active@))
    }

    /// True where both keys say the same.
    pub fn same(&self, other: &CanonicalFrontierKey) -> (r: bool)
        requires
            self.wf(),
            other.wf(),
        ensures
            r == (self.view() == other.view()),
    {
        same_shapes(&self.base, &other.base) && same_shapes(&self.active, &other.active)
    }

    /// A copy of the key.
    pub fn copied(&self) -> (r: CanonicalFrontierKey)
        requires
            self.wf(),
        ensures
            r.wf(),
            r.view() == self.view(),
    {
        CanonicalFrontierKey { base: copy_shapes(&self.base), active: copy_shapes(&self.active) }
    }
}

fn copy_shapes(list: &Vec<Shape>) -> (out: Vec<Shape>)
    requires
        forall|i: int| 0 <= i < list@.len() ==> (#[trigger] list@[i]).wf(),
    ensures
        views(out@) == views(list@),
        forall|i: int| 0 <= i < out@.len() ==> (#[trigger] out@[i]).wf(),
{
    let mut out: Vec<Shape> = Vec::new();
    let mut index: usize = 0;
    while index < list.len()
        invariant
            index <= list@.len(),
            out@.len() == index,
            forall|i: int| 0 <= i < list@.len() ==> (#[trigger] list@[i]).wf(),
            forall|i: int| 0 <= i < index ==> (#[trigger] out@[i]).wf(),
            forall|i: int| 0 <= i < index ==> (#[trigger] out@[i]).view() == list@[i].view(),
        decreases list@.len() - index,
    {
        assert(list@[index as int].wf());
        out.push(list[index].clone());
        index += 1;
    }
    assert(views(out@) =~= views(list@));
    out
}

fn same_shapes(a: &Vec<Shape>, b: &Vec<Shape>) -> (r: bool)
    requires
        forall|i: int| 0 <= i < a@.len() ==> (#[trigger] a@[i]).wf(),
        forall|i: int| 0 <= i < b@.len() ==> (#[trigger] b@[i]).wf(),
    ensures
        r == (views(a@) == views(b@)),
{
    if a.len() != b.len() {
        assert(views(a@).len() != views(b@).len());
        return false;
    }
    let mut index: usize = 0;
    while index < a.len()
        invariant
            index <= a@.len(),
            a@.len() == b@.len(),
            forall|i: int| 0 <= i < a@.len() ==> (#[trigger] a@[i]).wf(),
            forall|i: int| 0 <= i < b@.len() ==> (#[trigger] b@[i]).wf(),
            forall|i: int| 0 <= i < index ==> (#[trigger] a@[i]).view() == b@[i].view(),
        decreases a@.len() - index,
    {
        if !a[index].same(&b[index]) {
            assert(views(a@)[index as int] != views(b@)[index as int]);
            return false;
        }
        index += 1;
    }
    assert(views(a@) =~= views(b@));
    true
}

/// The compact fingerprint of a frontier key.
pub open spec fn frontier_hash(base: Seq<ShapeView>, active: Seq<ShapeView>) -> u64 {
    hash_children(
        mix(
            hash_children(mix(FNV_OFFSET, base.len() as u64), base, base.len()),
            active.len() as u64,
        ),
        active,
        active.len(),
    )
}

impl CanonicalFrontier {
    pub open spec fn view(self) -> FrontierView {
        FrontierView {
            base: views(self.key.base@),
            active: views(self.key.active@),
            nodes: keyed_views(self.nodes@),
            products: keyed_views(self.products@),
            ambiguous: self.ambiguous,
        }
    }

    /// All fingerprints are right, and no node or product is listed twice.
    pub open spec fn wf(self) -> bool {
        &&& self.key.wf()
        &&& self.fingerprint == frontier_hash(views(self.key.base@), views(self.key.active@))
        &&& forall|i: int| 0 <= i < self.nodes@.len() ==> (#[trigger] self.nodes@[i]).shape.wf()
        &&& forall|i: int|
            0 <= i < self.products@.len() ==> (#[trigger] self.products@[i]).shape.wf()
        &&& listed_once(keyed_views(self.nodes@))
        &&& listed_once(keyed_views(self.products@))
    }
}

/// No id is listed twice.
pub open spec fn listed_once(list: Seq<KeyedView>) -> bool {
    forall|i: int, j: int|
        0 <= i < j < list.len() ==> (#[trigger] list[i]).first != (#[trigger] list[j]).first
}

/// `list` holds the ids of a set, each once, with their shapes, in ascending
/// order.
pub open spec fn is_listing(
    list: Seq<KeyedView>,
    ids: Set<usize>,
    keys: spec_fn(Seq<usize>) -> Seq<KeyedView>,
) -> bool {
    exists|order: Seq<usize>|
        strictly_ascending(order) && order.to_set() == ids && list == keyed_ascending(
            #[trigger] keys(order),
        )
}

/// `frontier` is the canonical frontier of the roots `base` and `active`, where
/// the nodes of `fresh` were looked into.
pub open spec fn is_frontier(
    g: (GssView, Seq<ProductView>),
    base: Seq<usize>,
    active: Seq<usize>,
    fresh: Set<usize>,
    frontier: FrontierView,
) -> bool {
    &&& forall|i: int| 0 <= i < base.len() ==> has_shape::<CanonicalNodes<'_>>(g, #[trigger] base[i])
    &&& forall|i: int|
        0 <= i < active.len() ==> has_shape::<CanonicalNodes<'_>>(g, #[trigger] active[i])
    &&& frontier.base == keyed_shapes(keyed_ascending(root_keys(g, base)))
    &&& frontier.active == keyed_shapes(keyed_ascending(root_keys(g, active)))
    &&& is_listing(
        frontier.nodes,
        base.to_set() + active.to_set() + fresh,
        |ids: Seq<usize>| root_keys(g, ids),
    )
    &&& is_listing(
        frontier.products,
        products_from(g.0, fresh),
        |ids: Seq<usize>| product_keys(g.1, ids),
    )
    &&& frontier.ambiguous == (repeats(keyed_ascending(root_keys(g, base))) || repeats(
        keyed_ascending(root_keys(g, active)),
    ) || repeats(frontier.nodes) || repeats(frontier.products))
}

/// Shapes remembered between the comparisons of one replay.
pub struct CanonicalFrontierCache {
    pub nodes: HashMap<usize, Shape>,
    pub products: HashMap<usize, Shape>,
    pub state_nodes: HashMap<usize, Shape>,
    pub state_products: HashMap<usize, Shape>,
}

impl CanonicalFrontierCache {
    /// What is remembered of canonical shapes is right.
    pub open spec fn canonical_wf(self, g: (GssView, Seq<ProductView>)) -> bool {
        &&& memo_wf::<CanonicalNodes<'_>>(g, self.nodes@)
        &&& memo_wf::<CanonicalProducts<'_>>(g.1, self.products@)
    }

    /// What is remembered of state shapes is right.
    pub open spec fn state_wf(self, g: StateGraph) -> bool {
        &&& memo_wf::<StateNodes<'_>>(g, self.state_nodes@)
        &&& memo_wf::<StateProducts<'_>>((g.1, g.2), self.state_products@)
    }

    /// A cache that remembers nothing.
    pub fn new() -> (r: Self)
        ensures
            forall|g: (GssView, Seq<ProductView>)| #[trigger] r.canonical_wf(g),
            forall|g: StateGraph| #[trigger] r.state_wf(g),
            r.nodes@ == Map::<usize, Shape>::empty(),
    {
        let r = CanonicalFrontierCache {
            nodes: HashMap::new(),
            products: HashMap::new(),
            state_nodes: HashMap::new(),
            state_products: HashMap::new(),
        };
        proof {
            reveal(memo_wf);
        }
        r
    }
}

/// The canonical shapes of roots, each with its root.
fn root_items(
    graph: &mut CanonicalNodes<'_>,
    roots: &[GssNodeId],
    memo: &mut HashMap<usize, Shape>,
    fresh: &mut Vec<usize>,
) -> (r: Option<Vec<Keyed>>)
    requires
        old(graph).inv(),
        memo_wf::<CanonicalNodes<'_>>(old(graph).graph(), old(memo)@),
    ensures
        final(graph).inv(),
        final(graph).graph() == old(graph).graph(),
        memo_wf::<CanonicalNodes<'_>>(old(graph).graph(), final(memo)@),
        grown(old(memo)@, final(memo)@, old(fresh)@, final(fresh)@),
        match r {
            Some(items) => {
                &&& forall|i: int|
                    0 <= i < roots@.len() ==> has_shape::<CanonicalNodes<'_>>(
                        old(graph).graph(),
                        #[trigger] roots@[i],
                    )
                &&& keyed_views(items@) == root_keys(old(graph).graph(), roots@)
                &&& forall|i: int| 0 <= i < items@.len() ==> (#[trigger] items@[i]).shape.wf()
                &&& forall|i: int|
                    0 <= i < roots@.len() ==> final(memo)@.dom().contains(#[trigger] roots@[i])
            },
            None => exists|i: int|
                0 <= i < roots@.len() && !has_shape::<CanonicalNodes<'_>>(
                    old(graph).graph(),
                    #[trigger] roots@[i],
                ),
        },
{
    let ghost g = graph.graph();
    let ghost memo0 = memo@;
    let ghost fresh0 = fresh@;
    let mut items: Vec<Keyed> = Vec::new();
    let mut index: usize = 0;
    proof {
        crate::shape_graph::lemma_grown_none(memo@, fresh@);
    }
    while index < roots.len()
        invariant
            g == old(graph).graph(),
            memo0 == old(memo)@,
            fresh0 == old(fresh)@,
            index <= roots@.len(),
            graph.inv(),
            graph.graph() == g,
            memo_wf::<CanonicalNodes<'_>>(g, memo@),
            grown(memo0, memo@, fresh0, fresh@),
            items@.len() == index,
            forall|i: int| 0 <= i < index ==> (#[trigger] items@[i]).shape.wf(),
            forall|i: int|
                0 <= i < index ==> (#[trigger] items@[i]).shape.view() == shape_of::<
                    CanonicalNodes<'_>,
                >(g, roots@[i]) && items@[i].first == roots@[i] && items@[i].second == 0,
            forall|i: int|
                0 <= i < index ==> has_shape::<CanonicalNodes<'_>>(g, #[trigger] roots@[i])
                    && memo@.dom().contains(roots@[i]),
        decreases roots@.len() - index,
    {
        let id: usize = roots[index];
        let ghost memo1 = memo@;
        let ghost fresh1 = fresh@;
        match shape_key(graph, id, memo, fresh) {
            Some(shape) => {
                items.push(Keyed { shape, first: id, second: 0 });
            },
            None => {
                proof {
                    crate::shape_graph::lemma_grown_twice(
                        memo0,
                        memo1,
                        memo@,
                        fresh0,
                        fresh1,
                        fresh@,
                    );
                    assert(!has_shape::<CanonicalNodes<'_>>(g, roots@[index as int]));
                }
                return None;
            },
        }
        proof {
            crate::shape_graph::lemma_grown_twice(memo0, memo1, memo@, fresh0, fresh1, fresh@);
            assert(memo1.submap_of(memo@)) by {
                reveal(grown);
            }
        }
        index += 1;
    }
    assert(keyed_views(items@) =~= root_keys(g, roots@));
    Some(items)
}

/// True where two neighbours of a sorted list have one shape.
fn has_repeat(items: &Vec<Keyed>) -> (r: bool)
    requires
        forall|i: int| 0 <= i < items@.len() ==> (#[trigger] items@[i]).shape.wf(),
        sorted_by(keyed_views(items@), keyed_le()),
    ensures
        r == repeats(keyed_views(items@)),
{
    let ghost list = keyed_views(items@);
    let mut index: usize = 0;
    while items.len() > 0 && index < items.len() - 1
        invariant
            index <= items@.len(),
            items@.len() == 0 || index < items@.len(),
            list == keyed_views(items@),
            forall|i: int| 0 <= i < items@.len() ==> (#[trigger] items@[i]).shape.wf(),
            forall|i: int, j: int|
                0 <= i < index && j == i + 1 ==> (#[trigger] list[i]).shape != (
                #[trigger] list[j]).shape,
        decreases items@.len() - index,
    {
        assert(items@[index as int].shape.wf());
        assert(items@[index as int + 1].shape.wf());
        if items[index].shape.same(&items[index + 1].shape) {
            assert(list[index as int].shape == list[index as int + 1].shape);
            return true;
        }
        assert(list[index as int].shape != list[index as int + 1].shape);
        index += 1;
    }
    proof {
        if repeats(list) {
            let (i, j) = choose|i: int, j: int|
                0 <= i < j < list.len() && (#[trigger] list[i]).shape == (#[trigger] list[j]).shape;
            let next = list[i + 1];
            assert(list[i].shape != list[i + 1].shape);
            assert(keyed_le()(list[i], list[i + 1]));
            if i + 1 < j {
                assert(keyed_le()(list[i + 1], list[j]));
            }
            crate::shape::lemma_order_swap(list[i].shape, next.shape);
            crate::shape::lemma_order_equal(list[i].shape, next.shape);
        }
    }
    false
}

/// The ids with their remembered shapes.
fn list_nodes(
    Ghost(g): Ghost<(GssView, Seq<ProductView>)>,
    ids: &Vec<usize>,
    memo: &HashMap<usize, Shape>,
) -> (items: Vec<Keyed>)
    requires
        memo_wf::<CanonicalNodes<'_>>(g, memo@),
        forall|i: int| 0 <= i < ids@.len() ==> memo@.dom().contains(#[trigger] ids@[i]),
    ensures
        keyed_views(items@) == root_keys(g, ids@),
        forall|i: int| 0 <= i < items@.len() ==> (#[trigger] items@[i]).shape.wf(),
{
    broadcast use vstd::std_specs::hash::group_hash_axioms;

    let mut items: Vec<Keyed> = Vec::new();
    let mut index: usize = 0;
    while index < ids.len()
        invariant
            index <= ids@.len(),
            memo_wf::<CanonicalNodes<'_>>(g, memo@),
            forall|i: int| 0 <= i < ids@.len() ==> memo@.dom().contains(#[trigger] ids@[i]),
            items@.len() == index,
            forall|i: int| 0 <= i < index ==> (#[trigger] items@[i]).shape.wf(),
            forall|i: int|
                0 <= i < index ==> (#[trigger] items@[i]).shape.view() == shape_of::<
                    CanonicalNodes<'_>,
                >(g, ids@[i]) && items@[i].first == ids@[i] && items@[i].second == 0,
        decreases ids@.len() - index,
    {
        broadcast use vstd::std_specs::hash::group_hash_axioms;

        let id: usize = ids[index];
        assert(memo@.dom().contains(ids@[index as int]));
        proof {
            lemma_remembered::<CanonicalNodes<'_>>(g, memo@, id);
        }
        match memo.get(&id) {
            Some(shape) => {
                items.push(Keyed { shape: shape.clone(), first: id, second: 0 });
            },
            None => {},
        }
        index += 1;
    }
    assert(keyed_views(items@) =~= root_keys(g, ids@));
    items
}

/// The products on edges that leave the given nodes.
fn collect_products(gss: &GssArena, nodes: &Vec<usize>) -> (out: Vec<usize>)
    requires
        gss.wf(),
    ensures
        out@.to_set() == products_from(gss@, nodes@.to_set()),
{
    let mut out: Vec<usize> = Vec::new();
    let mut index: usize = 0;
    while index < nodes.len()
        invariant
            gss.wf(),
            index <= nodes@.len(),
            forall|k: int, i: int|
                #![trigger edges_from(gss@.edges, nodes@[k])[i]]
                0 <= k < index && 0 <= i < edges_from(gss@.edges, nodes@[k]).len() ==> out@.contains(
                    edges_from(gss@.edges, nodes@[k])[i].product,
                ),
            forall|p: int|
                0 <= p < out@.len() ==> products_from(gss@, nodes@.to_set()).contains(
                    #[trigger] out@[p],
                ),
        decreases nodes@.len() - index,
    {
        let id: usize = nodes[index];
        let edges = gss.outgoing_edges(id);
        let mut at: usize = 0;
        let ghost before = out@;
        while at < edges.len()
            invariant
                gss.wf(),
                index < nodes@.len(),
                id == nodes@[index as int],
                edges@ == edges_from(gss@.edges, id),
                at <= edges@.len(),
                before.is_prefix_of(out@),
                forall|i: int|
                    0 <= i < at ==> out@.contains((#[trigger] edges@[i]).product),
                forall|p: int|
                    0 <= p < out@.len() ==> products_from(gss@, nodes@.to_set()).contains(
                        #[trigger] out@[p],
                    ),
            decreases edges@.len() - at,
        {
            let ghost prior = out@;
            out.push(edges[at].product);
            proof {
                assert(nodes@.to_set().contains(id)) by {
                    assert(nodes@.contains(nodes@[index as int]));
                }
                assert(edges_from(gss@.edges, id)[at as int].product == edges@[at as int].product);
                assert(products_from(gss@, nodes@.to_set()).contains(edges@[at as int].product));
                assert forall|i: int| 0 <= i < at + 1 implies out@.contains(
                    (#[trigger] edges@[i]).product,
                ) by {
                    if i < at {
                        let p = choose|p: int|
                            0 <= p < prior.len() && prior[p] == edges@[i].product;
                        assert(out@[p] == edges@[i].product);
                    } else {
                        assert(out@[prior.len() as int] == edges@[i].product);
                    }
                }
            }
            at += 1;
        }
        proof {
            assert forall|k: int, i: int|
                #![trigger edges_from(gss@.edges, nodes@[k])[i]]
                0 <= k < index + 1 && 0 <= i < edges_from(
                    gss@.edges,
                    nodes@[k],
                ).len() implies out@.contains(edges_from(gss@.edges, nodes@[k])[i].product) by {
                if k < index {
                    let product = edges_from(gss@.edges, nodes@[k])[i].product;
                    assert(before.contains(product));
                    let p = choose|p: int| 0 <= p < before.len() && before[p] == product;
                    assert(out@[p] == product);
                } else {
                    assert(edges@[i] == edges_from(gss@.edges, nodes@[k])[i]);
                }
            }
        }
        index += 1;
    }
    proof {
        let all = products_from(gss@, nodes@.to_set());
        assert forall|product: usize| out@.to_set().contains(product) == all.contains(product) by {
            if out@.contains(product) {
                let p = choose|p: int| 0 <= p < out@.len() && out@[p] == product;
                assert(all.contains(out@[p]));
            }
            if all.contains(product) {
                let (id, i) = choose|id: usize, i: int|
                    #![trigger nodes@.to_set().contains(id), edges_from(gss@.edges, id)[i]]
                    nodes@.to_set().contains(id) && 0 <= i < edges_from(gss@.edges, id).len()
                        && edges_from(gss@.edges, id)[i].product == product;
                assert(nodes@.contains(id));
                let k = choose|k: int| 0 <= k < nodes@.len() && nodes@[k] == id;
                assert(out@.contains(edges_from(gss@.edges, nodes@[k])[i].product));
            }
        }
        assert(out@.to_set() =~= all);
    }
    out
}

/// The given products with their canonical shapes.
fn list_products(products: &ProductArena, ids: &Vec<usize>, memo: &mut HashMap<usize, Shape>) -> (
    items: Vec<Keyed>)
    requires
        products.wf(),
        memo_wf::<CanonicalProducts<'_>>(products@, old(memo)@),
        forall|i: int|
            0 <= i < ids@.len() ==> has_shape::<CanonicalProducts<'_>>(
                products@,
                #[trigger] ids@[i],
            ),
    ensures
        memo_wf::<CanonicalProducts<'_>>(products@, final(memo)@),
        keyed_views(items@) == product_keys(products@, ids@),
        forall|i: int| 0 <= i < items@.len() ==> (#[trigger] items@[i]).shape.wf(),
{
    let mut items: Vec<Keyed> = Vec::new();
    let mut index: usize = 0;
    while index < ids.len()
        invariant
            products.wf(),
            index <= ids@.len(),
            memo_wf::<CanonicalProducts<'_>>(products@, memo@),
            forall|i: int|
                0 <= i < ids@.len() ==> has_shape::<CanonicalProducts<'_>>(
                    products@,
                    #[trigger] ids@[i],
                ),
            items@.len() == index,
            forall|i: int| 0 <= i < index ==> (#[trigger] items@[i]).shape.wf(),
            forall|i: int|
                0 <= i < index ==> (#[trigger] items@[i]).shape.view() == shape_of::<
                    CanonicalProducts<'_>,
                >(products@, ids@[i]) && items@[i].first == ids@[i] && items@[i].second == 0,
        decreases ids@.len() - index,
    {
        let id: usize = ids[index];
        assert(has_shape::<CanonicalProducts<'_>>(products@, ids@[index as int]));
        let shape = products.canonical_key(id, memo).unwrap();
        items.push(Keyed { shape, first: id, second: 0 });
        index += 1;
    }
    assert(keyed_views(items@) =~= product_keys(products@, ids@));
    items
}

fn hash_list(start: u64, list: &Vec<Shape>) -> (hash: u64)
    requires
        forall|i: int| 0 <= i < list@.len() ==> (#[trigger] list@[i]).wf(),
    ensures
        hash == hash_children(
            mix(start, views(list@).len() as u64),
            views(list@),
            views(list@).len(),
        ),
{
    let mut hash: u64 = (start ^ (list.len() as u64)).wrapping_mul(FNV_PRIME);
    let ghost first = hash;
    let mut index: usize = 0;
    while index < list.len()
        invariant
            index <= list@.len(),
            forall|i: int| 0 <= i < list@.len() ==> (#[trigger] list@[i]).wf(),
            hash == hash_children(first, views(list@), index as nat),
        decreases list@.len() - index,
    {
        assert(list@[index as int].wf());
        hash = (hash ^ list[index].fingerprint).wrapping_mul(FNV_PRIME);
        index += 1;
    }
    hash
}

/// A listing of distinct ids lists each once.
proof fn lemma_listed_once(ids: Seq<usize>, keys: Seq<KeyedView>)
    requires
        strictly_ascending(ids),
        keys.len() == ids.len(),
        forall|i: int| 0 <= i < ids.len() ==> (#[trigger] keys[i]).first == ids[i],
    ensures
        listed_once(keyed_ascending(keys)),
{
    broadcast use group_to_multiset_ensures;

    lemma_keyed_total();
    keys.lemma_sort_by_ensures(keyed_le());
    let sorted = keyed_ascending(keys);
    let f = |item: KeyedView| item.first;
    crate::shape::lemma_map_multiset(keys, sorted, f);
    assert(keys.map_values(f) =~= ids);
    let firsts = sorted.map_values(f);
    assert(ids.no_duplicates());
    ids.lemma_multiset_has_no_duplicates();
    assert(firsts.to_multiset() == ids.to_multiset());
    assert(firsts.no_duplicates()) by {
        firsts.lemma_multiset_has_no_duplicates_conv();
    }
    assert forall|i: int, j: int| 0 <= i < j < sorted.len() implies (#[trigger] sorted[i]).first
        != (#[trigger] sorted[j]).first by {
        assert(firsts[i] != firsts[j]);
    }
}

impl GssArena {
    /// The canonical frontier of two sets of roots; none where a root has no
    /// shape.
    pub fn canonical_frontier(
        &self,
        sets: (&[GssNodeId], &[GssNodeId]),
        products: &ProductArena,
    ) -> (r: Option<CanonicalFrontier>)
        requires
            self.wf(),
            products.wf(),
        ensures
            match r {
                Some(frontier) => frontier.wf() && exists|fresh: Set<usize>|
                    #[trigger] is_frontier(
                        (self@, products@),
                        sets.0@,
                        sets.1@,
                        fresh,
                        frontier.view(),
                    ),
                None => exists|id: usize|
                    (sets.0@.contains(id) || sets.1@.contains(id)) && !#[trigger] has_shape::<
                        CanonicalNodes<'_>,
                    >((self@, products@), id),
            },
    {
        let mut cache = CanonicalFrontierCache::new();
        assert(cache.canonical_wf((self@, products@)));
        self.canonical_frontier_cached(sets, products, &mut cache)
    }

    /// The canonical frontier of two sets of roots. Nodes whose shapes are
    /// remembered are not looked into again.
    pub fn canonical_frontier_cached(
        &self,
        sets: (&[GssNodeId], &[GssNodeId]),
        products: &ProductArena,
        cache: &mut CanonicalFrontierCache,
    ) -> (r: Option<CanonicalFrontier>)
        requires
            self.wf(),
            products.wf(),
            old(cache).canonical_wf((self@, products@)),
        ensures
            final(cache).canonical_wf((self@, products@)),
            old(cache).nodes@.submap_of(final(cache).nodes@),
            final(cache).state_nodes@ == old(cache).state_nodes@,
            final(cache).state_products@ == old(cache).state_products@,
            match r {
                Some(frontier) => frontier.wf() && is_frontier(
                    (self@, products@),
                    sets.0@,
                    sets.1@,
                    final(cache).nodes@.dom().difference(old(cache).nodes@.dom()),
                    frontier.view(),
                ),
                None => exists|id: usize|
                    (sets.0@.contains(id) || sets.1@.contains(id)) && !#[trigger] has_shape::<
                        CanonicalNodes<'_>,
                    >((self@, products@), id),
            },
    {
        let ghost g = (self@, products@);
        let ghost memo0 = cache.nodes@;
        let mut product_memo: HashMap<usize, Shape> = HashMap::new();
        core::mem::swap(&mut product_memo, &mut cache.products);
        let mut graph = CanonicalNodes { gss: self, products, memo: product_memo };
        let mut fresh: Vec<usize> = Vec::new();
        let first = root_items(&mut graph, sets.0, &mut cache.nodes, &mut fresh);
        let ghost memo1 = cache.nodes@;
        let ghost fresh1 = fresh@;
        let base_items = match first {
            Some(items) => items,
            None => {
                let CanonicalNodes { gss: _, products: _, memo } = graph;
                cache.products = memo;
                proof {
                    reveal(grown);
                    let i = choose|i: int|
                        0 <= i < sets.0@.len() && !has_shape::<CanonicalNodes<'_>>(
                            g,
                            #[trigger] sets.0@[i],
                        );
                    assert(sets.0@.contains(sets.0@[i]));
                }
                return None;
            },
        };
        let second = root_items(&mut graph, sets.1, &mut cache.nodes, &mut fresh);
        let CanonicalNodes { gss: _, products: _, memo } = graph;
        cache.products = memo;
        proof {
            crate::shape_graph::lemma_grown_twice(
                memo0,
                memo1,
                cache.nodes@,
                Seq::empty(),
                fresh1,
                fresh@,
            );
            reveal(grown);
            assert(fresh@.skip(0) =~= fresh@);
        }
        let active_items = match second {
            Some(items) => items,
            None => {
                proof {
                    let i = choose|i: int|
                        0 <= i < sets.1@.len() && !has_shape::<CanonicalNodes<'_>>(
                            g,
                            #[trigger] sets.1@[i],
                        );
                    assert(sets.1@.contains(sets.1@[i]));
                }
                return None;
            },
        };
        let ghost added = cache.nodes@.dom().difference(memo0.dom());
        proof {
            assert(fresh@.to_set() =~= added);
        }
        Some(finish_frontier(self, products, sets, base_items, active_items, fresh, cache))
    }
}

/// Assembles a frontier from its roots' shapes and the nodes looked into.
fn finish_frontier(
    gss: &GssArena,
    products: &ProductArena,
    sets: (&[GssNodeId], &[GssNodeId]),
    base_items: Vec<Keyed>,
    active_items: Vec<Keyed>,
    fresh: Vec<usize>,
    cache: &mut CanonicalFrontierCache,
) -> (r: CanonicalFrontier)
    requires
        gss.wf(),
        products.wf(),
        old(cache).canonical_wf((gss@, products@)),
        forall|i: int| 0 <= i < fresh@.len() ==> old(cache).nodes@.dom().contains(#[trigger] fresh@[i]),
        forall|i: int|
            0 <= i < sets.0@.len() ==> old(cache).nodes@.dom().contains(#[trigger] sets.0@[i]),
        forall|i: int|
            0 <= i < sets.1@.len() ==> old(cache).nodes@.dom().contains(#[trigger] sets.1@[i]),
        keyed_views(base_items@) == root_keys((gss@, products@), sets.0@),
        keyed_views(active_items@) == root_keys((gss@, products@), sets.1@),
        forall|i: int| 0 <= i < base_items@.len() ==> (#[trigger] base_items@[i]).shape.wf(),
        forall|i: int| 0 <= i < active_items@.len() ==> (#[trigger] active_items@[i]).shape.wf(),
    ensures
        final(cache).canonical_wf((gss@, products@)),
        final(cache).nodes@ == old(cache).nodes@,
        final(cache).state_nodes@ == old(cache).state_nodes@,
        final(cache).state_products@ == old(cache).state_products@,
        r.wf(),
        is_frontier((gss@, products@), sets.0@, sets.1@, fresh@.to_set(), r.view()),
{
    let ghost g = (gss@, products@);
    let ghost base0 = base_items@;
    let ghost active0 = active_items@;
    proof {
        lemma_keyed_total();
        keyed_views(base0).lemma_sort_by_ensures(keyed_le());
        keyed_views(active0).lemma_sort_by_ensures(keyed_le());
    }
    let base_sorted = sort_keyed(base_items);
    let active_sorted = sort_keyed(active_items);
    proof {
        lemma_sorted_shapes_wf(base0, base_sorted@);
        lemma_sorted_shapes_wf(active0, active_sorted@);
    }
    let base_twice = has_repeat(&base_sorted);
    let active_twice = has_repeat(&active_sorted);

    let mut all: Vec<usize> = Vec::new();
    append_ids(&mut all, sets.0);
    append_ids(&mut all, sets.1);
    append_ids(&mut all, fresh.as_slice());
    let ids = sorted_distinct(&all);
    proof {
        assert(all@ =~= sets.0@ + sets.1@ + fresh@);
        lemma_three_sets(sets.0@, sets.1@, fresh@);
        assert forall|i: int| 0 <= i < ids@.len() implies cache.nodes@.dom().contains(
            #[trigger] ids@[i],
        ) by {
            assert(ids@.to_set().contains(ids@[i]));
            assert(all@.to_set().contains(ids@[i]));
            let k = choose|k: int| 0 <= k < all@.len() && all@[k] == ids@[i];
            if k < sets.0@.len() {
                assert(all@[k] == sets.0@[k]);
            } else if k < sets.0@.len() + sets.1@.len() {
                assert(all@[k] == sets.1@[k - sets.0@.len()]);
            } else {
                assert(all@[k] == fresh@[k - sets.0@.len() - sets.1@.len()]);
            }
        }
    }
    let node_items = list_nodes(Ghost(g), &ids, &cache.nodes);
    let ghost nodes0 = node_items@;
    proof {
        keyed_views(nodes0).lemma_sort_by_ensures(keyed_le());
    }
    let nodes = sort_keyed(node_items);
    proof {
        lemma_sorted_shapes_wf(nodes0, nodes@);
        lemma_listed_once(ids@, keyed_views(nodes0));
    }
    let nodes_twice = has_repeat(&nodes);

    let reached = collect_products(gss, &fresh);
    let product_ids = sorted_distinct(&reached);
    proof {
        assert forall|i: int| 0 <= i < product_ids@.len() implies has_shape::<
            CanonicalProducts<'_>,
        >(products@, #[trigger] product_ids@[i]) by {
            let product = product_ids@[i];
            assert(product_ids@.to_set().contains(product));
            assert(products_from(gss@, fresh@.to_set()).contains(product));
            let (id, k) = choose|id: usize, k: int|
                #![trigger fresh@.to_set().contains(id), edges_from(gss@.edges, id)[k]]
                fresh@.to_set().contains(id) && 0 <= k < edges_from(gss@.edges, id).len()
                    && edges_from(gss@.edges, id)[k].product == product;
            assert(fresh@.contains(id));
            let at = choose|at: int| 0 <= at < fresh@.len() && fresh@[at] == id;
            assert(cache.nodes@.dom().contains(fresh@[at]));
            lemma_remembered::<CanonicalNodes<'_>>(g, cache.nodes@, id);
            lemma_unfold_canonical(g, id);
        }
    }
    let product_items = list_products(products, &product_ids, &mut cache.products);
    let ghost products0 = product_items@;
    proof {
        keyed_views(products0).lemma_sort_by_ensures(keyed_le());
    }
    let listed = sort_keyed(product_items);
    proof {
        lemma_sorted_shapes_wf(products0, listed@);
        lemma_listed_once(product_ids@, keyed_views(products0));
    }
    let products_twice = has_repeat(&listed);

    let base = strip(base_sorted);
    let active = strip(active_sorted);
    let fingerprint: u64 = hash_list(hash_list(FNV_OFFSET, &base), &active);
    let r = CanonicalFrontier {
        key: CanonicalFrontierKey { base, active },
        fingerprint,
        nodes,
        products: listed,
        ambiguous: base_twice || active_twice || nodes_twice || products_twice,
    };
    proof {
        let keys = |list: Seq<usize>| root_keys(g, list);
        assert(keys(ids@) == root_keys(g, ids@));
        assert(is_listing(
            r.view().nodes,
            sets.0@.to_set() + sets.1@.to_set() + fresh@.to_set(),
            keys,
        ));
        let keys = |list: Seq<usize>| product_keys(g.1, list);
        assert(keys(product_ids@) == product_keys(g.1, product_ids@));
        assert(is_listing(r.view().products, products_from(g.0, fresh@.to_set()), keys));
        assert forall|i: int| 0 <= i < sets.0@.len() implies has_shape::<CanonicalNodes<'_>>(
            g,
            #[trigger] sets.0@[i],
        ) by {
            assert(old(cache).nodes@.dom().contains(sets.0@[i]));
            lemma_remembered::<CanonicalNodes<'_>>(g, old(cache).nodes@, sets.0@[i]);
        }
        assert forall|i: int| 0 <= i < sets.1@.len() implies has_shape::<CanonicalNodes<'_>>(
            g,
            #[trigger] sets.1@[i],
        ) by {
            assert(old(cache).nodes@.dom().contains(sets.1@[i]));
            lemma_remembered::<CanonicalNodes<'_>>(g, old(cache).nodes@, sets.1@[i]);
        }
    }
    r
}

fn append_ids(out: &mut Vec<usize>, ids: &[usize])
    ensures
        final(out)@ == old(out)@ + ids@,
{
    let ghost before = out@;
    let mut index: usize = 0;
    while index < ids.len()
        invariant
            index <= ids@.len(),
            out@ == before + ids@.take(index as int),
        decreases ids@.len() - index,
    {
        out.push(ids[index]);
        index += 1;
        assert(out@ =~= before + ids@.take(index as int));
    }
    assert(out@ =~= before + ids@);
}

proof fn lemma_three_sets(a: Seq<usize>, b: Seq<usize>, c: Seq<usize>)
    ensures
        (a + b + c).to_set() == a.to_set() + b.to_set() + c.to_set(),
{
    let all = a + b + c;
    assert forall|x: usize| all.to_set().contains(x) == (a.to_set() + b.to_set()
        + c.to_set()).contains(x) by {
        if a.contains(x) {
            let i = choose|i: int| 0 <= i < a.len() && a[i] == x;
            assert(all[i] == x);
        }
        if b.contains(x) {
            let i = choose|i: int| 0 <= i < b.len() && b[i] == x;
            assert(all[a.len() + i] == x);
        }
        if c.contains(x) {
            let i = choose|i: int| 0 <= i < c.len() && c[i] == x;
            assert(all[a.len() + b.len() + i] == x);
        }
        if all.contains(x) {
            let i = choose|i: int| 0 <= i < all.len() && all[i] == x;
            if i < a.len() {
                assert(a[i] == x);
            } else if i < a.len() + b.len() {
                assert(b[i - a.len()] == x);
            } else {
                assert(c[i - a.len() - b.len()] == x);
            }
        }
    }
    assert(all.to_set() =~= a.to_set() + b.to_set() + c.to_set());
}

} // verus!
