//! One parser at work on a document: paths through the stacks, and the products
//! of reductions.

use vstd::prelude::*;

use crate::framework::lex::lexed::TokenOccurrenceId;
use crate::framework::parse::data::ast::{
    covering, AnchoredSpan, AstArena, AstId, AstMetadata, AstRecord,
};
use crate::framework::parse::data::green::{
    summed_length, DataView, GreenId, ParseErrorInfo, TreeArena, TreeView,
};
use crate::framework::parse::data::gss::{
    edges_from, GssArena, GssEdge, GssNode, GssNodeId, GssView,
};
use crate::framework::parse::data::product::{
    copy_ids, Product, ProductArena, ProductData, ProductDataView, ProductId, ProductView,
};
use crate::framework::parse::grammar::{Grammar, NonTerminalId, Symbol, TerminalId};
use crate::framework::parse::parsing::error::{BuildError, ParseError};
use crate::framework::parse::parsing::lineage::{assigned, AnchorKey, LineageView};
use crate::framework::parse::parsing::reductions::{
    key_of, with_reduction, CacheView, KeyView, ReductionKey,
};
use crate::framework::parse::parsing::repairs::Repair;
use crate::framework::parse::parsing::session::{ParserSessionState, SessionView};
use crate::framework::parse::tables::Parser;
use crate::framework::parse::tokens::ParserTokenDocument;

verus! {

// ---------------------------------------------------------------------------
// The arenas of a document

/// The arenas of one document.
pub struct SessionArenas<V> {
    pub trees: TreeArena,
    pub products: ProductArena,
    pub ast: AstArena<V>,
    pub gss: GssArena,
}

impl<V> SessionArenas<V> {
    pub open spec fn wf(self) -> bool {
        &&& self.trees.wf()
        &&& self.products.wf()
        &&& self.ast.wf()
        &&& self.gss.wf()
    }

    /// The arenas of a document that was never parsed.
    pub fn new(document: u64) -> (r: Self)
        ensures
            r.wf(),
            r.trees@ == Seq::<TreeView>::empty(),
            r.products@ == Seq::<ProductView>::empty(),
            r.ast.records().len() == 0,
            r.ast.document() == document,
            r.gss@.nodes == Seq::<GssNode>::empty(),
            r.gss@.edges == Seq::<GssEdge>::empty(),
    {
        SessionArenas {
            trees: TreeArena::new(),
            products: ProductArena::new(),
            ast: AstArena::with_document(document),
            gss: GssArena::new(),
        }
    }

    /// Freezes the current generation of every arena.
    pub fn seal_generations(&mut self)
        requires
            old(self).wf(),
        ensures
            final(self).wf(),
            final(self).trees@ == old(self).trees@,
            final(self).products@ == old(self).products@,
            final(self).gss@ == old(self).gss@,
            final(self).ast.records() == old(self).ast.records(),
            final(self).ast.document() == old(self).ast.document(),
            forall|id: int| final(self).ast.binding(id) == #[trigger] old(self).ast.binding(id),
    {
        self.trees.seal_generation();
        self.products.seal_generation();
        self.gss.seal_generation();
        self.ast.seal_generation();
    }
}

/// What a language adds to its grammar: the syntax values of its productions,
/// and how it finds a way out where a parse is stuck.
pub trait Language<V> {
    /// What a reduction may give: anything, unless the language says otherwise.
    open spec fn builds(
        &self,
        production: u32,
        children: Seq<ProductId>,
        products: ProductArena,
        ast: AstArena<V>,
        r: Result<V, BuildError>,
    ) -> bool {
        true
    }

    /// What repairs may be found: any, unless the language says otherwise.
    open spec fn finds(
        &self,
        context: SessionContext<V>,
        column: usize,
        document: ParserTokenDocument,
        rank: usize,
        r: Option<Vec<Repair>>,
    ) -> bool {
        true
    }

    /// The value of a reduction over the products of its symbols.
    fn build(
        &self,
        production: u32,
        children: &Vec<ProductId>,
        products: &ProductArena,
        ast: &AstArena<V>,
    ) -> (r: Result<V, BuildError>)
        ensures
            self.builds(production, children@, *products, *ast, r),
    ;

    /// A repair for a parse that is stuck before the token at a rank.
    fn find_recovery(
        &self,
        context: &SessionContext<V>,
        column: usize,
        document: &ParserTokenDocument,
        rank: usize,
    ) -> (r: Option<Vec<Repair>>)
        ensures
            self.finds(*context, column, *document, rank, r),
    ;
}

// ---------------------------------------------------------------------------
// The state of the work

/// A parser's state together with the arenas.
pub struct SessionContext<V> {
    pub state: ParserSessionState,
    pub arenas: SessionArenas<V>,
}

/// What the work is about.
#[verifier::ext_equal]
pub ghost struct StackView {
    pub session: SessionView,
    pub gss: GssView,
    pub products: Seq<ProductView>,
    pub trees: Seq<TreeView>,
    pub reductions: CacheView,
    pub lineage: LineageView,
    /// By record, what it is bound to.
    pub bindings: Seq<AstMetadata>,
}

/// What the records of an arena are bound to.
pub open spec fn bindings_of<V>(ast: AstArena<V>) -> Seq<AstMetadata> {
    Seq::new(ast.records().len(), |id: int| ast.binding(id))
}

/// The states of all nodes are states of the parser.
pub open spec fn states_fit(gss: GssView, states: nat) -> bool {
    forall|i: int| 0 <= i < gss.nodes.len() ==> (#[trigger] gss.nodes[i]).state < states
}

impl<V> View for SessionContext<V> {
    type V = StackView;

    open spec fn view(&self) -> StackView {
        StackView {
            session: self.state@,
            gss: self.arenas.gss@,
            products: self.arenas.products@,
            trees: self.arenas.trees@,
            reductions: self.state.reductions.view(),
            lineage: self.state.lineage@,
            bindings: bindings_of(self.arenas.ast),
        }
    }
}

impl<V> SessionContext<V> {
    /// The state is sound and fits the parser.
    pub open spec fn wf(self, parser: Parser) -> bool {
        &&& self.state.wf()
        &&& self.arenas.wf()
        &&& parser.wf()
        &&& states_fit(self.arenas.gss@, parser.states@.len())
    }
}

/// The place of a token as a number.
pub open spec fn anchor_place(token: TokenOccurrenceId) -> usize {
    if token.0 <= usize::MAX {
        token.0 as usize
    } else {
        usize::MAX
    }
}

/// The place of a token as a number.
pub fn anchor_place_of(token: TokenOccurrenceId) -> (r: usize)
    ensures
        r == anchor_place(token),
{
    if token.0 <= usize::MAX as u64 {
        token.0 as usize
    } else {
        usize::MAX
    }
}

// ---------------------------------------------------------------------------
// Products of tokens and of errors

/// A list with a tree added, unless it is there.
pub open spec fn with_tree(trees: Seq<TreeView>, tree: TreeView) -> Seq<TreeView> {
    if trees.contains(tree) {
        trees
    } else {
        trees.push(tree)
    }
}

/// One product more, over a tree.
pub open spec fn with_product(v: StackView, w: StackView, tree: TreeView, data: ProductDataView, extent: AnchoredSpan) -> bool {
    &&& w.trees == with_tree(v.trees, tree)
    &&& w.products.len() == v.products.len() + 1
    &&& w.products.drop_last() == v.products
    &&& w.products.last().green < w.trees.len()
    &&& w.trees[w.products.last().green as int] == tree
    &&& w.products.last().data == data
    &&& w.products.last().extent == extent
    &&& w.products.last().ast_ids == Seq::<AstId>::empty()
    &&& w == (StackView { trees: w.trees, products: w.products, ..v })
}

/// The extent of an error: a point where it is empty, else the token.
pub open spec fn error_extent(length: usize, anchor: TokenOccurrenceId) -> AnchoredSpan {
    AnchoredSpan {
        start: anchor_place(anchor),
        end: anchor_place(anchor),
        end_at_token_end: length != 0,
    }
}

/// The tree of an error.
pub open spec fn error_tree(info: ParseErrorInfo) -> TreeView {
    TreeView {
        length: info.length,
        data: DataView::Error {
            kind: info.kind,
            node: info.node,
            children: Seq::empty(),
            unexpected: info.unexpected,
            expected: info.expected,
            recovered: info.recovered,
            location: info.location,
        },
    }
}

impl<V> SessionContext<V> {
    /// Makes the product of an error.
    pub fn alloc_error_node(
        &mut self,
        parser: &Parser,
        info: ParseErrorInfo,
        anchor: TokenOccurrenceId,
    ) -> (r: ProductId)
        requires
            old(self).wf(*parser),
        ensures
            final(self).wf(*parser),
            final(self).state == old(self).state,
            final(self).arenas.ast == old(self).arenas.ast,
            r == old(self)@.products.len(),
            with_product(
                old(self)@,
                final(self)@,
                error_tree(info),
                ProductDataView::Error { children: Seq::empty() },
                error_extent(info.length, anchor),
            ),
    {
        let ghost v = self@;
        let green: usize = self.arenas.trees.error(
            info.length,
            info.kind,
            info.node,
            Vec::new(),
            info.unexpected,
            info.expected,
            info.recovered,
            info.location,
        );
        let extent = if info.length == 0 {
            AnchoredSpan::point(anchor_place_of(anchor))
        } else {
            AnchoredSpan::token(anchor_place_of(anchor))
        };
        let product = Product::error(green).with_metadata(extent, Vec::new());
        let id: usize = self.arenas.products.insert(product);
        proof {
            assert(self@.products.drop_last() =~= v.products);
            assert(self@.products.last().ast_ids =~= Seq::<AstId>::empty());
        }
        id
    }

    /// Makes the product of a token.
    pub fn alloc_token(
        &mut self,
        parser: &Parser,
        length: usize,
        terminal: TerminalId,
        entry: usize,
        token: TokenOccurrenceId,
    ) -> (r: ProductId)
        requires
            old(self).wf(*parser),
        ensures
            final(self).wf(*parser),
            final(self).state == old(self).state,
            final(self).arenas.ast == old(self).arenas.ast,
            r == old(self)@.products.len(),
            with_product(
                old(self)@,
                final(self)@,
                TreeView { length, data: DataView::Leaf { id: terminal } },
                ProductDataView::Token { entry, ast: None },
                AnchoredSpan {
                    start: anchor_place(token),
                    end: anchor_place(token),
                    end_at_token_end: true,
                },
            ),
    {
        let ghost v = self@;
        let green: usize = self.arenas.trees.leaf(length, terminal);
        let extent = AnchoredSpan::token(anchor_place_of(token));
        let product = Product::token(green, entry).with_metadata(extent, Vec::new());
        let id: usize = self.arenas.products.insert(product);
        proof {
            assert(self@.products.drop_last() =~= v.products);
            assert(self@.products.last().ast_ids =~= Seq::<AstId>::empty());
        }
        id
    }
}

// ---------------------------------------------------------------------------
// Paths through the stacks

/// A way down the stacks: where it ends, and the products along it from the
/// bottom up.
pub struct ReductionPath {
    pub predecessor: GssNodeId,
    pub products: Vec<ProductId>,
}

/// What a path says.
#[verifier::ext_equal]
pub ghost struct PathView {
    pub predecessor: GssNodeId,
    pub products: Seq<ProductId>,
}

impl View for ReductionPath {
    type V = PathView;

    open spec fn view(&self) -> PathView {
        PathView { predecessor: self.predecessor, products: self.products@ }
    }
}

/// What paths say.
pub open spec fn path_views(paths: Seq<ReductionPath>) -> Seq<PathView> {
    paths.map_values(|path: ReductionPath| path@)
}

/// Paths with one product more on top.
pub open spec fn extended(paths: Seq<PathView>, product: ProductId) -> Seq<PathView> {
    paths.map_values(
        |path: PathView|
            PathView { predecessor: path.predecessor, products: path.products.push(product) },
    )
}

/// The first symbol of a production is the one for errors.
pub open spec fn takes_errors(g: Grammar, production: usize) -> bool {
    production < g.productions@.len() && g.productions@[production as int].rhs_start
        < g.rhs_symbols@.len() && g.rhs_symbols@[g.productions@[production as int].rhs_start as int]
        == Symbol::T(g.error_terminal)
}

/// A product is an error.
pub open spec fn is_error(products: Seq<ProductView>, product: ProductId) -> bool {
    product < products.len() && products[product as int].data is Error
}

/// Paths that take an error of the column for the one symbol.
pub open spec fn error_paths(products: Seq<ProductView>, list: Seq<ProductId>, node: GssNodeId) -> Seq<
    PathView,
>
    decreases list.len(),
{
    if list.len() == 0 {
        Seq::empty()
    } else {
        let before = error_paths(products, list.drop_last(), node);
        if is_error(products, list.last()) {
            before.push(PathView { predecessor: node, products: seq![list.last()] })
        } else {
            before
        }
    }
}

/// All paths of a length down from a node. Where none of length one is there,
/// errors of the column can stand in for the symbol for errors.
pub open spec fn paths_from(
    v: StackView,
    g: Grammar,
    column: int,
    node: GssNodeId,
    production: usize,
    depth: nat,
) -> Seq<PathView>
    decreases depth, 1nat, 0nat,
{
    if depth == 0 {
        seq![PathView { predecessor: node, products: Seq::empty() }]
    } else {
        let found = paths_over(
            v,
            g,
            column,
            production,
            depth,
            edges_from(v.gss.edges, node),
            edges_from(v.gss.edges, node).len(),
        );
        if found.len() == 0 && depth == 1 && takes_errors(g, production) {
            error_paths(v.products, v.session.columns[column].products, node)
        } else {
            found
        }
    }
}

/// The paths over the first edges of a list.
pub open spec fn paths_over(
    v: StackView,
    g: Grammar,
    column: int,
    production: usize,
    depth: nat,
    edges: Seq<GssEdge>,
    until: nat,
) -> Seq<PathView>
    decreases depth, 0nat, until,
{
    if until == 0 || depth == 0 {
        Seq::empty()
    } else {
        let edge = edges[until - 1];
        paths_over(v, g, column, production, depth, edges, (until - 1) as nat) + extended(
            paths_from(v, g, column, edge.to, production, (depth - 1) as nat),
            edge.product,
        )
    }
}

impl<V> SessionContext<V> {
    /// Whether the first symbol of a production is the one for errors.
    fn takes_errors(&self, parser: &Parser, production: usize) -> (r: bool)
        ensures
            r == takes_errors(parser.grammar, production),
    {
        let g = &parser.grammar;
        if production >= g.productions.len() {
            return false;
        }
        let at: usize = g.productions[production].rhs_start;
        if at >= g.rhs_symbols.len() {
            return false;
        }
        g.rhs_symbols[at] == Symbol::T(g.error_terminal)
    }

    /// Paths that take an error of a column for the one symbol.
    fn error_paths(&self, column: usize, node: GssNodeId) -> (r: Vec<ReductionPath>)
        requires
            self.arenas.wf(),
            column < self.state.columns@.len(),
        ensures
            path_views(r@) == error_paths(
                self@.products,
                self@.session.columns[column as int].products,
                node,
            ),
    {
        let ghost list = self@.session.columns[column as int].products;
        let ghost all = self@.products;
        let mut out: Vec<ReductionPath> = Vec::new();
        let mut at: usize = 0;
        assert(path_views(out@) =~= Seq::<PathView>::empty());
        assert(list == self.state.columns@[column as int].products@);
        while at < self.state.columns[column].products.len()
            invariant
                self.arenas.wf(),
                column < self.state.columns@.len(),
                list == self.state.columns@[column as int].products@,
                all == self@.products,
                at <= list.len(),
                path_views(out@) == error_paths(all, list.take(at as int), node),
            decreases list.len() - at,
        {
            let product: usize = self.state.columns[column].products[at];
            assert(list.take(at as int + 1).drop_last() =~= list.take(at as int));
            assert(list.take(at as int + 1).last() == product);
            let found = match self.arenas.products.get(product) {
                Some(known) => match &known.data {
                    ProductData::Error { .. } => true,
                    _ => false,
                },
                None => false,
            };
            assert(found == is_error(all, product));
            if found {
                let ghost before = out@;
                let mut products: Vec<usize> = Vec::new();
                products.push(product);
                let path = ReductionPath { predecessor: node, products };
                let ghost said = path@;
                out.push(path);
                proof {
                    assert(said.products =~= seq![product]);
                    assert(path_views(out@) =~= path_views(before).push(said));
                }
            }
            at += 1;
        }
        assert(list.take(at as int) =~= list);
        out
    }

    /// All paths of a length down from a node.
    pub fn reduce_paths(
        &self,
        parser: &Parser,
        column: usize,
        node: GssNodeId,
        production: usize,
        depth: usize,
    ) -> (r: Vec<ReductionPath>)
        requires
            self.arenas.wf(),
            column < self.state.columns@.len(),
        ensures
            path_views(r@) == paths_from(
                self@,
                parser.grammar,
                column as int,
                node,
                production,
                depth as nat,
            ),
        decreases depth,
    {
        let ghost v = self@;
        let ghost g = parser.grammar;
        let mut out: Vec<ReductionPath> = Vec::new();
        if depth == 0 {
            let path = ReductionPath { predecessor: node, products: Vec::new() };
            let ghost said = path@;
            out.push(path);
            proof {
                assert(said.products =~= Seq::<usize>::empty());
                assert(path_views(out@) =~= seq![said]);
            }
            return out;
        }
        let edges = self.arenas.gss.outgoing_edges(node);
        let mut at: usize = 0;
        assert(path_views(out@) =~= Seq::<PathView>::empty());
        while at < edges.len()
            invariant
                self.arenas.wf(),
                column < self.state.columns@.len(),
                v == self@,
                g == parser.grammar,
                depth > 0,
                at <= edges@.len(),
                edges@ == edges_from(v.gss.edges, node),
                path_views(out@) == paths_over(
                    v,
                    g,
                    column as int,
                    production,
                    depth as nat,
                    edges@,
                    at as nat,
                ),
            decreases edges@.len() - at,
        {
            let edge = edges[at];
            let below = self.reduce_paths(parser, column, edge.to, production, depth - 1);
            let ghost start = path_views(out@);
            let ghost lower = path_views(below@);
            let ghost longer = extended(lower, edge.product);
            let mut k: usize = 0;
            assert(start + longer.take(0) =~= start);
            while k < below.len()
                invariant
                    k <= below@.len(),
                    lower == path_views(below@),
                    longer == extended(lower, edge.product),
                    path_views(out@) == start + longer.take(k as int),
                decreases below@.len() - k,
            {
                let mut products = copy_ids(&below[k].products);
                products.push(edge.product);
                let path = ReductionPath { predecessor: below[k].predecessor, products };
                let ghost said = path@;
                let ghost before = out@;
                out.push(path);
                proof {
                    assert(lower[k as int] == below@[k as int]@);
                    assert(said =~= longer[k as int]);
                    assert(path_views(out@) =~= path_views(before).push(said));
                    assert(longer.take(k as int + 1) =~= longer.take(k as int).push(
                        longer[k as int],
                    ));
                    assert(path_views(out@) =~= start + longer.take(k as int + 1));
                }
                k += 1;
            }
            assert(longer.take(k as int) =~= longer);
            at += 1;
        }
        assert(path_views(out@).len() == out@.len());
        if out.len() == 0 && depth == 1 && self.takes_errors(parser, production) {
            return self.error_paths(column, node);
        }
        out
    }
}

// ---------------------------------------------------------------------------
// Reductions

/// The trees of products.
pub open spec fn greens_of(products: Seq<ProductView>, ids: Seq<ProductId>) -> Seq<GreenId> {
    ids.map_values(|id: ProductId| products[id as int].green)
}

/// The extents of products.
pub open spec fn extents_of(products: Seq<ProductView>, ids: Seq<ProductId>) -> Seq<AnchoredSpan> {
    ids.map_values(|id: ProductId| products[id as int].extent)
}

/// The records of products, one list after the other.
pub open spec fn records_under(products: Seq<ProductView>, ids: Seq<ProductId>) -> Seq<AstId>
    decreases ids.len(),
{
    if ids.len() == 0 {
        Seq::empty()
    } else {
        records_under(products, ids.drop_last()) + products[ids.last() as int].ast_ids
    }
}

/// The bindings with a parent named for records.
pub open spec fn adopted(bindings: Seq<AstMetadata>, kids: Seq<AstId>, parent: AstId) -> Seq<
    AstMetadata,
>
    decreases kids.len(),
{
    if kids.len() == 0 {
        bindings
    } else {
        let before = adopted(bindings, kids.drop_last(), parent);
        let kid = kids.last();
        if kid < before.len() {
            before.update(
                kid as int,
                AstMetadata { parent: Some(parent), ..before[kid as int] },
            )
        } else {
            before
        }
    }
}

/// All products of a list are there.
pub open spec fn all_there(products: Seq<ProductView>, ids: Seq<ProductId>) -> bool {
    forall|i: int| 0 <= i < ids.len() ==> (#[trigger] ids[i]) < products.len()
}

/// `w` is `v` with the product of a new reduction.
pub open spec fn newly_reduced(
    v: StackView,
    w: StackView,
    lhs: NonTerminalId,
    key: KeyView,
    boundary: TokenOccurrenceId,
) -> bool {
    let record = v.bindings.len() as usize;
    let product = v.products.len() as usize;
    let greens = greens_of(v.products, key.children);
    let extent = covering(extents_of(v.products, key.children), anchor_place(boundary));
    let tree = TreeView {
        length: summed_length(v.trees, greens) as usize,
        data: DataView::Node { id: lhs, children: greens },
    };
    &&& all_there(v.products, key.children)
    &&& summed_length(v.trees, greens) <= usize::MAX
    &&& w.trees == with_tree(v.trees, tree)
    &&& w.products.len() == v.products.len() + 1
    &&& w.products.drop_last() == v.products
    &&& w.products.last().green < w.trees.len()
    &&& w.trees[w.products.last().green as int] == tree
    &&& w.products.last().data == (ProductDataView::Node { ast: record, children: key.children })
    &&& w.products.last().extent == extent
    &&& w.products.last().ast_ids == seq![record]
    &&& w.reductions == with_reduction(v.reductions, key, product)
    &&& w.lineage == assigned(v.lineage, AnchorKey { production: key.production, extent }, record)
    &&& w.bindings == adopted(
        v.bindings.push(AstMetadata { owner: Some(product), parent: None }),
        records_under(v.products, key.children),
        record,
    )
    &&& w.session == v.session
    &&& w.gss == v.gss
}

/// `product` is the product of a reduction; it was made where it was not known.
pub open spec fn reduced(
    v: StackView,
    w: StackView,
    lhs: NonTerminalId,
    key: KeyView,
    boundary: TokenOccurrenceId,
    product: ProductId,
) -> bool {
    if v.reductions.products.dom().contains(key) {
        product == v.reductions.products[key] && w == v
    } else {
        product == v.products.len() && newly_reduced(v, w, lhs, key, boundary)
    }
}

/// A new reduction has the value that the language built for it, and no other
/// value changed.
pub open spec fn records_built<V, L: Language<V>>(
    language: L,
    before: SessionContext<V>,
    after: SessionContext<V>,
    key: KeyView,
    boundary: TokenOccurrenceId,
) -> bool {
    if before@.reductions.products.dom().contains(key) {
        after.arenas.ast.records() == before.arenas.ast.records()
    } else {
        exists|value: V| #[trigger]
            language.builds(
                key.production,
                key.children,
                before.arenas.products,
                before.arenas.ast,
                Ok(value),
            ) && after.arenas.ast.records() == before.arenas.ast.records().push(
                AstRecord {
                    value,
                    extent: covering(
                        extents_of(before@.products, key.children),
                        anchor_place(boundary),
                    ),
                },
            )
    }
}

/// Why a reduction could not be made: a child is not there, the text under it
/// is too long, no identity is left, or the language refused.
pub open spec fn build_failed<V, L: Language<V>>(
    language: L,
    context: SessionContext<V>,
    production: u32,
    children: Seq<ProductId>,
    error: BuildError,
) -> bool {
    ||| error matches BuildError::MissingProduct(id) && children.contains(id) && id
        >= context@.products.len()
    ||| error is TooLong && exists|n: int|
        0 <= n <= children.len() && summed_length(
            context@.trees,
            #[trigger] greens_of(context@.products, children).take(n),
        ) > usize::MAX
    ||| error is Exhausted && context@.lineage.next == u64::MAX
    ||| language.builds(
        production,
        children,
        context.arenas.products,
        context.arenas.ast,
        Err(error),
    )
}


impl<V> SessionContext<V> {
    /// The product of a reduction; made where it is not known. Where it cannot
    /// be made, nothing changes.
    pub fn reduce_cached<L: Language<V>>(
        &mut self,
        parser: &Parser,
        language: &L,
        production: usize,
        children: &Vec<ProductId>,
        boundary: TokenOccurrenceId,
    ) -> (r: Result<ProductId, ParseError>)
        requires
            old(self).wf(*parser),
            production < parser.grammar.productions@.len(),
        ensures
            final(self).wf(*parser),
            final(self).state.recovery == old(self).state.recovery,
            final(self).arenas.ast.document() == old(self).arenas.ast.document(),
            match r {
                Ok(product) => reduced(
                    old(self)@,
                    final(self)@,
                    parser.grammar.productions@[production as int].lhs,
                    key_of(production as u32, children@, boundary),
                    boundary,
                    product,
                ),
                Err(error) => error is Build && *final(self) == *old(self)
                    && !old(self)@.reductions.products.dom().contains(
                    key_of(production as u32, children@, boundary),
                ) && build_failed(
                    *language,
                    *old(self),
                    production as u32,
                    children@,
                    error->Build_0,
                ),
            },
            r is Ok ==> records_built(
                *language,
                *old(self),
                *final(self),
                key_of(production as u32, children@, boundary),
                boundary,
            ),
    {
        let ghost v = self@;
        let key = ReductionKey::new(production as u32, children, boundary);
        let ghost said = key@;
        if let Some(product) = self.state.reductions.find(&key) {
            return Ok(product);
        }
        let mut greens: Vec<usize> = Vec::new();
        let mut extents: Vec<AnchoredSpan> = Vec::new();
        let mut kids: Vec<usize> = Vec::new();
        let mut length: usize = 0;
        let mut at: usize = 0;
        let ghost ids = children@;
        let ghost all_greens = greens_of(v.products, ids);
        while at < children.len()
            invariant
                *self == *old(self),
                self.wf(*parser),
                v == self@,
                said == key_of(production as u32, children@, boundary),
                !v.reductions.products.dom().contains(said),
                at <= children@.len(),
                ids == children@,
                all_greens == greens_of(v.products, ids),
                forall|i: int| 0 <= i < at ==> (#[trigger] ids[i]) < v.products.len(),
                greens@ == all_greens.take(at as int),
                extents@ == extents_of(v.products, ids).take(at as int),
                kids@ == records_under(v.products, ids.take(at as int)),
                length == summed_length(v.trees, all_greens.take(at as int)),
            decreases children@.len() - at,
        {
            let id: usize = children[at];
            proof {
                assert(ids.take(at as int + 1).drop_last() =~= ids.take(at as int));
                assert(ids.take(at as int + 1).last() == id);
                assert(all_greens.take(at as int + 1).drop_last() =~= all_greens.take(at as int));
                assert(all_greens.take(at as int + 1).last() == all_greens[at as int]);
            }
            let child = match self.arenas.products.get(id) {
                Some(child) => child,
                None => {
                    assert(children@[at as int] == id);
                    return Err(ParseError::Build(BuildError::MissingProduct(id)));
                },
            };
            let more: usize = match self.arenas.trees.get(child.green) {
                Some(tree) => tree.length,
                None => 0,
            };
            if more > usize::MAX - length {
                assert(summed_length(v.trees, all_greens.take(at as int + 1)) > usize::MAX);
                return Err(ParseError::Build(BuildError::TooLong));
            }
            length = length + more;
            greens.push(child.green);
            extents.push(child.extent);
            let mut records = copy_ids(&child.ast_ids);
            kids.append(&mut records);
            proof {
                assert(greens@ =~= all_greens.take(at as int + 1));
                assert(extents@ =~= extents_of(v.products, ids).take(at as int + 1));
                assert(kids@ =~= records_under(v.products, ids.take(at as int + 1)));
            }
            at += 1;
        }
        proof {
            assert(ids.take(at as int) =~= ids);
            assert(all_greens.take(at as int) =~= all_greens);
            assert(extents_of(v.products, ids).take(at as int) =~= extents_of(v.products, ids));
        }
        if self.state.lineage.mark().next_lineage == u64::MAX {
            return Err(ParseError::Build(BuildError::Exhausted));
        }
        let value = match language.build(
            production as u32,
            children,
            &self.arenas.products,
            &self.arenas.ast,
        ) {
            Ok(value) => value,
            Err(error) => {
                return Err(ParseError::Build(error));
            },
        };
        let lhs: u32 = parser.grammar.production_lhs(production);
        let extent = AnchoredSpan::cover(extents.as_slice(), anchor_place_of(boundary));
        let green: usize = self.arenas.trees.node(lhs, greens);
        let ghost records0 = self.arenas.ast.records();
        let record = self.arenas.ast.insert(value, extent);
        let record_id: usize = record.raw_id();
        let product: usize = self.arenas.products.len();
        self.arenas.ast.bind_product(record_id, product);
        let ghost bound = bindings_of(self.arenas.ast);
        proof {
            assert(bound =~= v.bindings.push(
                AstMetadata { owner: Some(product), parent: None },
            ));
        }
        let mut k: usize = 0;
        while k < kids.len()
            invariant
                k <= kids@.len(),
                self.state == old(self).state,
                self.arenas.products == old(self).arenas.products,
                self.arenas.gss == old(self).arenas.gss,
                self.arenas.ast.wf(),
                self.arenas.trees.wf(),
                self.arenas.ast.records() == records0.push(AstRecord { value, extent }),
                self.arenas.trees@ == with_tree(
                    v.trees,
                    TreeView { length, data: DataView::Node { id: lhs, children: all_greens } },
                ),
                green < self.arenas.trees@.len(),
                self.arenas.trees@[green as int] == (TreeView {
                    length,
                    data: DataView::Node { id: lhs, children: all_greens },
                }),
                bindings_of(self.arenas.ast) == adopted(bound, kids@.take(k as int), record_id),
                self.arenas.ast.document() == old(self).arenas.ast.document(),
            decreases kids@.len() - k,
        {
            let ghost before = bindings_of(self.arenas.ast);
            self.arenas.ast.set_parent(kids[k], Some(record_id));
            proof {
                assert(kids@.take(k as int + 1).drop_last() =~= kids@.take(k as int));
                assert(kids@.take(k as int + 1).last() == kids@[k as int]);
                assert(bindings_of(self.arenas.ast) =~= adopted(
                    bound,
                    kids@.take(k as int + 1),
                    record_id,
                ));
            }
            k += 1;
        }
        assert(kids@.take(k as int) =~= kids@);
        let mut own: Vec<usize> = Vec::new();
        own.push(record_id);
        let made = Product::node(green, record, copy_ids(children)).with_metadata(extent, own);
        let ghost made_view = made@;
        let id: usize = self.arenas.products.insert(made);
        self.state.lineage.assign_new(production as u32, extent, record_id);
        self.state.reductions.note(key, id);
        proof {
            let w = self@;
            assert(w.products =~= v.products.push(made_view));
            assert(w.products.drop_last() =~= v.products);
            assert(made_view.ast_ids =~= seq![record_id]);
            assert(w.session == v.session);
            assert(newly_reduced(v, w, lhs, said, boundary));
            assert(language.builds(
                said.production,
                said.children,
                old(self).arenas.products,
                old(self).arenas.ast,
                Ok(value),
            ));
        }
        Ok(id)
    }
}

} // verus!
