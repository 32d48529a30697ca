//! What shapes tell apart.

use vstd::prelude::*;

use crate::framework::parse::data::frontier::{edge_shape, node_shape};
use crate::framework::parse::data::green::TreeView;
use crate::framework::parse::data::product::{
    canonical_shape, head_of, state_shape, ProductDataView, ProductView,
};
use crate::shape::{
    lemma_shape_ascending_permuted, lemma_shape_total, shape_ascending, shape_le, ShapeView,
};

verus! {

/// Two products are of one kind.
pub open spec fn same_kind(a: ProductView, b: ProductView) -> bool {
    match a.data {
        ProductDataView::Error { .. } => b.data is Error,
        ProductDataView::Token { .. } => b.data is Token,
        ProductDataView::Node { .. } => b.data is Node,
    }
}

/// Two products have one canonical shape exactly where they are of one kind, over
/// one green tree and children of the same shapes; and two tokens only where they
/// have one entry and both have a record or neither.
pub proof fn lemma_canonical_products_alike(
    a: ProductView,
    b: ProductView,
    left: Seq<ShapeView>,
    right: Seq<ShapeView>,
)
    ensures
        canonical_shape(a, left) == canonical_shape(b, right) <==> {
            &&& same_kind(a, b)
            &&& a.green == b.green
            &&& left == right
            &&& a.data is Token ==> a.data->Token_entry == b.data->Token_entry && (
            a.data->Token_ast is Some <==> b.data->Token_ast is Some)
        },
{
}

/// Two products have one state shape exactly where they are of one kind, over
/// children of the same shapes; two reductions only where they have one head, and
/// two errors only over one green tree.
pub proof fn lemma_state_products_alike(
    trees: Seq<TreeView>,
    a: ProductView,
    b: ProductView,
    left: Seq<ShapeView>,
    right: Seq<ShapeView>,
)
    requires
        head_of(trees, a.green) is Some,
        head_of(trees, b.green) is Some,
    ensures
        state_shape(trees, a, left) == state_shape(trees, b, right) <==> {
            &&& same_kind(a, b)
            &&& left == right
            &&& a.data is Error ==> a.green == b.green
            &&& a.data is Node ==> head_of(trees, a.green) == head_of(trees, b.green)
        },
{
}

/// Two edges have one shape exactly where they lead to nodes of one shape over
/// products of one shape.
pub proof fn lemma_edges_alike(to: ShapeView, product: ShapeView, other: ShapeView, with: ShapeView)
    ensures
        edge_shape(to, product) == edge_shape(other, with) <==> to == other && product == with,
{
    let a = edge_shape(to, product).children;
    let b = edge_shape(other, with).children;
    if a == b {
        assert(a[0] == to && a[1] == product);
        assert(b[0] == other && b[1] == with);
    }
}

/// Two nodes have one shape exactly where they are in one state and have edges of
/// the same shapes, each as often, in whatever order.
pub proof fn lemma_nodes_alike(
    state: usize,
    edges: Seq<ShapeView>,
    other: usize,
    others: Seq<ShapeView>,
)
    ensures
        node_shape(state, edges) == node_shape(other, others) <==> state == other
            && edges.to_multiset() == others.to_multiset(),
{
    lemma_shape_total();
    edges.lemma_sort_by_ensures(shape_le());
    others.lemma_sort_by_ensures(shape_le());
    if edges.to_multiset() == others.to_multiset() {
        lemma_shape_ascending_permuted(edges, others);
    }
    if node_shape(state, edges) == node_shape(other, others) {
        assert(shape_ascending(edges) == shape_ascending(others));
    }
}

} // verus!
