//! Products: what shifts and reductions make, and the shapes by which parser
//! configurations are compared.

use std::collections::HashMap;
use vstd::prelude::*;

use crate::framework::parse::data::ast::{AnchoredSpan, AstBox, AstId, TokenEntryId};
use crate::framework::parse::data::green::{DataView, GreenId, TreeArena, TreeData, TreeView};
use crate::shape::{Shape, ShapeView};
use crate::shape_graph::{
    grown, has_shape, memo_wf, shape_key, shape_of, ShapeGraph,
};
use crate::store::GenerationVec;

verus! {

/// The index of a product in its arena.
pub type ProductId = usize;

/// How a product came about.
#[derive(Debug, PartialEq, Eq)]
pub enum ProductData {
    Error { children: Vec<ProductId> },
    Token { entry: TokenEntryId, ast: Option<AstId> },
    Node { ast: AstId, children: Vec<ProductId> },
}

/// A shift or a reduction, with the metadata that every projection of a
/// committed parse shares.
#[derive(Debug, PartialEq, Eq)]
pub struct Product {
    pub green: GreenId,
    pub data: ProductData,
    pub extent: AnchoredSpan,
    pub ast_ids: Vec<AstId>,
}

/// How a product came about, with child lists as sequences.
pub ghost enum ProductDataView {
    Error { children: Seq<ProductId> },
    Token { entry: TokenEntryId, ast: Option<AstId> },
    Node { ast: AstId, children: Seq<ProductId> },
}

/// What a product says.
pub ghost struct ProductView {
    pub green: GreenId,
    pub data: ProductDataView,
    pub extent: AnchoredSpan,
    pub ast_ids: Seq<AstId>,
}

impl View for ProductData {
    type V = ProductDataView;

    open spec fn view(&self) -> ProductDataView {
        match *self {
            ProductData::Error { children } => ProductDataView::Error { children: children@ },
            ProductData::Token { entry, ast } => ProductDataView::Token { entry, ast },
            ProductData::Node { ast, children } => ProductDataView::Node {
                ast,
                children: children@,
            },
        }
    }
}

impl View for Product {
    type V = ProductView;

    open spec fn view(&self) -> ProductView {
        ProductView {
            green: self.green,
            data: self.data@,
            extent: self.extent,
            ast_ids: self.ast_ids@,
        }
    }
}

/// The products that a product was made from.
pub open spec fn children_of(product: ProductView) -> Seq<ProductId> {
    match product.data {
        ProductDataView::Error { children } => children,
        ProductDataView::Token { .. } => Seq::empty(),
        ProductDataView::Node { children, .. } => children,
    }
}

/// The syntax record that a product itself stands for.
pub open spec fn own_record(product: ProductView) -> Option<AstId> {
    match product.data {
        ProductDataView::Error { .. } => None,
        ProductDataView::Token { ast, .. } => ast,
        ProductDataView::Node { ast, .. } => Some(ast),
    }
}

/// A product without metadata.
pub open spec fn bare_product(green: GreenId, data: ProductDataView) -> ProductView {
    ProductView {
        green,
        data,
        extent: AnchoredSpan { start: 0, end: 0, end_at_token_end: false },
        ast_ids: Seq::empty(),
    }
}

impl Product {
    pub fn new(green: GreenId, data: ProductData) -> (r: Self)
        ensures
            r@ == bare_product(green, data@),
    {
        Product { green, data, extent: AnchoredSpan::point(0), ast_ids: Vec::new() }
    }

    /// The same product with its extent and the records it reaches.
    pub fn with_metadata(self, extent: AnchoredSpan, ast_ids: Vec<AstId>) -> (r: Self)
        ensures
            r@ == (ProductView { extent, ast_ids: ast_ids@, ..self@ }),
    {
        Product { green: self.green, data: self.data, extent, ast_ids }
    }

    pub fn error(green: GreenId) -> (r: Self)
        ensures
            r@ == bare_product(green, ProductDataView::Error { children: Seq::empty() }),
    {
        Self::new(green, ProductData::Error { children: Vec::new() })
    }

    pub fn error_with_children(green: GreenId, children: Vec<ProductId>) -> (r: Self)
        ensures
            r@ == bare_product(green, ProductDataView::Error { children: children@ }),
    {
        Self::new(green, ProductData::Error { children })
    }

    pub fn token(green: GreenId, entry: TokenEntryId) -> (r: Self)
        ensures
            r@ == bare_product(green, ProductDataView::Token { entry, ast: None }),
    {
        Self::new(green, ProductData::Token { entry, ast: None })
    }

    /// A token with a syntax record of its own.
    pub fn typed_token<T>(green: GreenId, entry: TokenEntryId, ast: AstBox<T>) -> (r: Self)
        ensures
            r@ == bare_product(green, ProductDataView::Token { entry, ast: Some(ast.id) }),
    {
        Self::new(green, ProductData::Token { entry, ast: Some(ast.raw_id()) })
    }

    pub fn node<T>(green: GreenId, ast: AstBox<T>, children: Vec<ProductId>) -> (r: Self)
        ensures
            r@ == bare_product(
                green,
                ProductDataView::Node { ast: ast.id, children: children@ },
            ),
    {
        Self::new(green, ProductData::Node { ast: ast.raw_id(), children })
    }

    /// A copy of the child list.
    pub fn children(&self) -> (r: Vec<ProductId>)
        ensures
            r@ == children_of(self@),
    {
        match &self.data {
            ProductData::Error { children } => copy_ids(children),
            ProductData::Token { .. } => Vec::new(),
            ProductData::Node { children, .. } => copy_ids(children),
        }
    }

    /// The syntax record that the product itself stands for.
    pub fn direct_record(&self) -> (r: Option<AstId>)
        ensures
            r == own_record(self@),
    {
        match &self.data {
            ProductData::Error { .. } => None,
            ProductData::Token { ast, .. } => *ast,
            ProductData::Node { ast, .. } => Some(*ast),
        }
    }
}

/// A copy of a list of ids.
pub fn copy_ids(ids: &Vec<usize>) -> (r: Vec<usize>)
    ensures
        r@ == ids@,
{
    let mut out: Vec<usize> = Vec::new();
    let mut index: usize = 0;
    while index < ids.len()
        invariant
            index <= ids@.len(),
            out@ == ids@.take(index as int),
        decreases ids@.len() - index,
    {
        out.push(ids[index]);
        index += 1;
        assert(out@ =~= ids@.take(index as int));
    }
    assert(out@ =~= ids@);
    out
}

/// The products of one document, appended and frozen by generation.
pub struct ProductArena {
    products: GenerationVec<Product>,
}

impl ProductArena {
    /// What the products say, by id.
    pub closed spec fn view(self) -> Seq<ProductView> {
        self.products@.map_values(|product: Product| product@)
    }

    pub closed spec fn wf(self) -> bool {
        self.products.wf()
    }

    pub fn new() -> (r: Self)
        ensures
            r.wf(),
            r@ == Seq::<ProductView>::empty(),
    {
        let r = ProductArena { products: GenerationVec::new() };
        assert(r@ =~= Seq::<ProductView>::empty());
        r
    }

    /// Appends a product and returns its id.
    pub fn insert(&mut self, product: Product) -> (r: ProductId)
        requires
            old(self).wf(),
        ensures
            final(self).wf(),
            r == old(self)@.len(),
            final(self)@ == old(self)@.push(product@),
    {
        let ghost added = product@;
        let id: usize = self.products.push(product);
        assert(self@ =~= old(self)@.push(added));
        id
    }

    /// The number of products.
    pub fn len(&self) -> (r: usize)
        requires
            self.wf(),
        ensures
            r == self@.len(),
    {
        self.products.len()
    }

    /// The product with an id, where there is one.
    pub fn get(&self, id: ProductId) -> (r: Option<&Product>)
        requires
            self.wf(),
        ensures
            match r {
                Some(product) => id < self@.len() && product@ == self@[id as int],
                None => id >= self@.len(),
            },
    {
        self.products.get(id)
    }

    /// Freezes the current generation; the products stay as they are.
    pub fn seal_generation(&mut self)
        requires
            old(self).wf(),
        ensures
            final(self).wf(),
            final(self)@ == old(self)@,
    {
        self.products.seal();
    }
}

// ---------------------------------------------------------------------------
// Canonical shapes

/// The canonical shape of a product over the shapes of its children: its green
/// tree, and for a token its entry and whether it has a record. Record ids and
/// extents are left out.
pub open spec fn canonical_shape(product: ProductView, kids: Seq<ShapeView>) -> ShapeView {
    match product.data {
        ProductDataView::Error { .. } => ShapeView {
            tag: 0,
            label: product.green as u64,
            extra: 0,
            children: kids,
        },
        ProductDataView::Token { entry, ast } => ShapeView {
            tag: if ast is Some {
                2
            } else {
                1
            },
            label: product.green as u64,
            extra: entry as u64,
            children: kids,
        },
        ProductDataView::Node { .. } => ShapeView {
            tag: 3,
            label: product.green as u64,
            extra: 0,
            children: kids,
        },
    }
}

/// The canonical shapes of an arena's products.
pub struct CanonicalProducts<'a> {
    pub arena: &'a ProductArena,
}

impl<'a> ShapeGraph for CanonicalProducts<'a> {
    type Graph = Seq<ProductView>;

    open spec fn graph(&self) -> Self::Graph {
        self.arena@
    }

    open spec fn inv(&self) -> bool {
        self.arena.wf()
    }

    open spec fn bound(graph: Self::Graph) -> nat {
        graph.len()
    }

    open spec fn deps(graph: Self::Graph, id: usize) -> Option<Seq<usize>> {
        if id < graph.len() {
            Some(children_of(graph[id as int]))
        } else {
            None
        }
    }

    open spec fn build(graph: Self::Graph, id: usize, kids: Seq<ShapeView>) -> ShapeView {
        canonical_shape(graph[id as int], kids)
    }

    proof fn lemma_bounded(graph: Self::Graph, id: usize) {
    }

    fn exec_deps(&mut self, id: usize) -> (r: Option<Vec<usize>>) {
        match self.arena.get(id) {
            Some(product) => Some(product.children()),
            None => None,
        }
    }

    fn exec_build(&mut self, id: usize, kids: Vec<Shape>) -> (r: Shape) {
        let product = self.arena.get(id).unwrap();
        let label: u64 = product.green as u64;
        match &product.data {
            ProductData::Error { .. } => Shape::new(0, label, 0, kids),
            ProductData::Token { entry, ast } => {
                let tag: u8 = if ast.is_some() {
                    2
                } else {
                    1
                };
                Shape::new(tag, label, *entry as u64, kids)
            },
            ProductData::Node { .. } => Shape::new(3, label, 0, kids),
        }
    }
}

// ---------------------------------------------------------------------------
// State shapes

/// The nonterminal at the head of a green tree.
pub open spec fn head_of(trees: Seq<TreeView>, green: GreenId) -> Option<u32> {
    if green < trees.len() {
        match trees[green as int].data {
            DataView::Node { id, .. } => Some(id),
            DataView::Error { node, .. } => Some(node),
            DataView::Leaf { .. } => None,
        }
    } else {
        None
    }
}

/// The state shape of a product over the shapes of its children: what the
/// parser's further behaviour depends on. Tokens are all alike, a reduction is
/// its head, and an error keeps its whole green tree.
pub open spec fn state_shape(
    trees: Seq<TreeView>,
    product: ProductView,
    kids: Seq<ShapeView>,
) -> ShapeView {
    match product.data {
        ProductDataView::Error { .. } => ShapeView {
            tag: 4,
            label: product.green as u64,
            extra: 0,
            children: kids,
        },
        ProductDataView::Token { .. } => ShapeView { tag: 5, label: 0, extra: 0, children: kids },
        ProductDataView::Node { .. } => ShapeView {
            tag: 6,
            label: head_of(trees, product.green)->Some_0 as u64,
            extra: 0,
            children: kids,
        },
    }
}

/// The state shapes of an arena's products.
pub struct StateProducts<'a> {
    pub arena: &'a ProductArena,
    pub trees: &'a TreeArena,
}

/// The head of a green tree.
fn exec_head(trees: &TreeArena, green: GreenId) -> (r: Option<u32>)
    requires
        trees.wf(),
    ensures
        r == head_of(trees@, green),
{
    match trees.get(green) {
        Some(tree) => match &tree.data {
            TreeData::Node { id, .. } => Some(*id),
            TreeData::Error { node, .. } => Some(*node),
            TreeData::Leaf { .. } => None,
        },
        None => None,
    }
}

impl<'a> ShapeGraph for StateProducts<'a> {
    type Graph = (Seq<ProductView>, Seq<TreeView>);

    open spec fn graph(&self) -> Self::Graph {
        (self.arena@, self.trees@)
    }

    open spec fn inv(&self) -> bool {
        self.arena.wf() && self.trees.wf()
    }

    open spec fn bound(graph: Self::Graph) -> nat {
        graph.0.len()
    }

    open spec fn deps(graph: Self::Graph, id: usize) -> Option<Seq<usize>> {
        if id < graph.0.len() && (graph.0[id as int].data is Node ==> head_of(
            graph.1,
            graph.0[id as int].green,
        ) is Some) {
            Some(children_of(graph.0[id as int]))
        } else {
            None
        }
    }

    open spec fn build(graph: Self::Graph, id: usize, kids: Seq<ShapeView>) -> ShapeView {
        state_shape(graph.1, graph.0[id as int], kids)
    }

    proof fn lemma_bounded(graph: Self::Graph, id: usize) {
    }

    fn exec_deps(&mut self, id: usize) -> (r: Option<Vec<usize>>) {
        match self.arena.get(id) {
            Some(product) => {
                let headless = match &product.data {
                    ProductData::Node { .. } => exec_head(self.trees, product.green).is_none(),
                    _ => false,
                };
                if headless {
                    None
                } else {
                    Some(product.children())
                }
            },
            None => None,
        }
    }

    fn exec_build(&mut self, id: usize, kids: Vec<Shape>) -> (r: Shape) {
        let product = self.arena.get(id).unwrap();
        match &product.data {
            ProductData::Error { .. } => Shape::new(4, product.green as u64, 0, kids),
            ProductData::Token { .. } => Shape::new(5, 0, 0, kids),
            ProductData::Node { .. } => {
                let head: u32 = exec_head(self.trees, product.green).unwrap();
                Shape::new(6, head as u64, 0, kids)
            },
        }
    }
}

impl ProductArena {
    /// The canonical shape of a product graph; none where it is cyclic or
    /// incomplete. Shapes are remembered in `memo`.
    pub fn canonical_key(&self, id: ProductId, memo: &mut HashMap<usize, Shape>) -> (r: Option<
        Shape,
    >)
        requires
            self.wf(),
            memo_wf::<CanonicalProducts<'_>>(self@, old(memo)@),
        ensures
            memo_wf::<CanonicalProducts<'_>>(self@, final(memo)@),
            old(memo)@.submap_of(final(memo)@),
            match r {
                Some(shape) => {
                    &&& has_shape::<CanonicalProducts<'_>>(self@, id)
                    &&& shape.wf()
                    &&& shape.view() == shape_of::<CanonicalProducts<'_>>(self@, id)
                    &&& final(memo)@.dom().contains(id)
                },
                None => !has_shape::<CanonicalProducts<'_>>(self@, id),
            },
    {
        let mut graph = CanonicalProducts { arena: self };
        let mut fresh: Vec<usize> = Vec::new();
        let r = shape_key(&mut graph, id, memo, &mut fresh);
        proof {
            reveal(grown);
        }
        r
    }

    /// The state shape of a product graph; none where it is cyclic or
    /// incomplete. Shapes are remembered in `memo`.
    pub fn structural_key(
        &self,
        trees: &TreeArena,
        id: ProductId,
        memo: &mut HashMap<usize, Shape>,
    ) -> (r: Option<Shape>)
        requires
            self.wf(),
            trees.wf(),
            memo_wf::<StateProducts<'_>>((self@, trees@), old(memo)@),
        ensures
            memo_wf::<StateProducts<'_>>((self@, trees@), final(memo)@),
            old(memo)@.submap_of(final(memo)@),
            match r {
                Some(shape) => {
                    &&& has_shape::<StateProducts<'_>>((self@, trees@), id)
                    &&& shape.wf()
                    &&& shape.view() == shape_of::<StateProducts<'_>>((self@, trees@), id)
                    &&& final(memo)@.dom().contains(id)
                },
                None => !has_shape::<StateProducts<'_>>((self@, trees@), id),
            },
    {
        let mut graph = StateProducts { arena: self, trees };
        let mut fresh: Vec<usize> = Vec::new();
        let r = shape_key(&mut graph, id, memo, &mut fresh);
        proof {
            reveal(grown);
        }
        r
    }

    /// A compact fingerprint of a product graph, equal for equal canonical
    /// shapes; none where the graph is cyclic or incomplete.
    pub fn canonical_fingerprint(&self, id: ProductId, memo: &mut HashMap<usize, Shape>) -> (r:
        Option<u64>)
        requires
            self.wf(),
            memo_wf::<CanonicalProducts<'_>>(self@, old(memo)@),
        ensures
            memo_wf::<CanonicalProducts<'_>>(self@, final(memo)@),
            match r {
                Some(fingerprint) => {
                    &&& has_shape::<CanonicalProducts<'_>>(self@, id)
                    &&& fingerprint == crate::shape::shape_hash(
                        shape_of::<CanonicalProducts<'_>>(self@, id),
                    )
                },
                None => !has_shape::<CanonicalProducts<'_>>(self@, id),
            },
    {
        match self.canonical_key(id, memo) {
            Some(shape) => Some(shape.fingerprint),
            None => None,
        }
    }
}

} // verus!
