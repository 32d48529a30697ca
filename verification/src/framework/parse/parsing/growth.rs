//! What only grows while a document is parsed: the stacks, the products, the
//! trees, what is known of reductions, and the records with their values.

use vstd::prelude::*;

use crate::framework::lex::lexed::TokenOccurrenceId;
use crate::framework::parse::data::ast::AstArena;
use crate::framework::parse::data::product::{ProductArena, ProductDataView, ProductId};
use crate::framework::parse::parsing::reductions::KeyView;
use crate::framework::parse::parsing::reuse::within;
use crate::framework::parse::parsing::stack::{
    records_built, reduced, with_product, Language, SessionContext, StackView,
};

verus! {

/// The nodes, edges, products and trees that were there are there, in their
/// places, and every known reduction is kept.
#[verifier::opaque]
pub open spec fn grown(v: StackView, w: StackView) -> bool {
    &&& v.gss.nodes.is_prefix_of(w.gss.nodes)
    &&& v.gss.edges.is_prefix_of(w.gss.edges)
    &&& v.products.is_prefix_of(w.products)
    &&& v.trees.is_prefix_of(w.trees)
    &&& within(v.reductions.products, w.reductions.products)
}

/// A record holds what the language built for a reduction, over the products
/// and records that were there before it.
pub open spec fn built_by<V, L: Language<V>>(
    language: L,
    context: SessionContext<V>,
    record: int,
    key: KeyView,
    products: ProductArena,
    ast: AstArena<V>,
) -> bool {
    let w = context@;
    let product = w.reductions.products[key];
    let content = context.arenas.ast.records()[record];
    &&& w.reductions.products.dom().contains(key)
    &&& product < w.products.len()
    &&& w.products[product as int].data == (ProductDataView::Node {
        ast: record as usize,
        children: key.children,
    })
    &&& w.products[product as int].extent == content.extent
    &&& products@ == w.products.take(product as int)
    &&& ast.records() == context.arenas.ast.records().take(record)
    &&& language.builds(key.production, key.children, products, ast, Ok(content.value))
}

/// The value of a record was built by the language from the children of its
/// reduction.
pub open spec fn is_built<V, L: Language<V>>(
    language: L,
    context: SessionContext<V>,
    record: int,
) -> bool {
    exists|key: KeyView, products: ProductArena, ast: AstArena<V>| #[trigger]
        built_by(language, context, record, key, products, ast)
}

/// What was there is there, and the language built the value of every record
/// that came.
#[verifier::opaque]
pub open spec fn built_on<V, L: Language<V>>(
    language: L,
    before: SessionContext<V>,
    after: SessionContext<V>,
) -> bool {
    &&& grown(before@, after@)
    &&& after.arenas.ast.document() == before.arenas.ast.document()
    &&& before.arenas.ast.records().is_prefix_of(after.arenas.ast.records())
    &&& forall|record: int|
        before.arenas.ast.records().len() <= record < after.arenas.ast.records().len()
            ==> #[trigger] is_built(language, after, record)
}

/// What starts a start of a list starts the list.
pub proof fn lemma_prefix_trans<T>(a: Seq<T>, b: Seq<T>, c: Seq<T>)
    requires
        a.is_prefix_of(b),
        b.is_prefix_of(c),
    ensures
        a.is_prefix_of(c),
{
    assert forall|i: int| 0 <= i < a.len() implies a[i] == c.subrange(0, a.len() as int)[i] by {
        assert(a[i] == b.subrange(0, a.len() as int)[i]);
        assert(b[i] == c.subrange(0, b.len() as int)[i]);
    }
    assert(a =~= c.subrange(0, a.len() as int));
}

/// A list starts with itself.
pub proof fn lemma_prefix_self<T>(a: Seq<T>)
    ensures
        a.is_prefix_of(a),
{
    assert(a =~= a.subrange(0, a.len() as int));
}

/// A list with one value more starts with the list.
pub proof fn lemma_prefix_push<T>(a: Seq<T>, x: T)
    ensures
        a.is_prefix_of(a.push(x)),
        a.is_prefix_of(a),
{
    assert(a =~= a.push(x).subrange(0, a.len() as int));
    assert(a =~= a.subrange(0, a.len() as int));
}

/// What did not change grew.
pub proof fn lemma_grown_self(v: StackView)
    ensures
        grown(v, v),
{
    reveal(grown);
    assert(v.gss.nodes =~= v.gss.nodes.subrange(0, v.gss.nodes.len() as int));
    assert(v.gss.edges =~= v.gss.edges.subrange(0, v.gss.edges.len() as int));
    assert(v.products =~= v.products.subrange(0, v.products.len() as int));
    assert(v.trees =~= v.trees.subrange(0, v.trees.len() as int));
}

/// Growth after growth is growth.
pub proof fn lemma_grown_trans(u: StackView, v: StackView, w: StackView)
    requires
        grown(u, v),
        grown(v, w),
    ensures
        grown(u, w),
{
    reveal(grown);
    lemma_prefix_trans(u.gss.nodes, v.gss.nodes, w.gss.nodes);
    lemma_prefix_trans(u.gss.edges, v.gss.edges, w.gss.edges);
    lemma_prefix_trans(u.products, v.products, w.products);
    lemma_prefix_trans(u.trees, v.trees, w.trees);
}

/// Where the arenas and the known reductions are the same, they grew.
pub proof fn lemma_grown_same(v: StackView, w: StackView)
    requires
        w.gss == v.gss,
        w.products == v.products,
        w.trees == v.trees,
        w.reductions.products == v.reductions.products,
    ensures
        grown(v, w),
{
    lemma_grown_self(v);
    reveal(grown);
}

/// Where only the stacks changed, and they grew, everything did.
pub proof fn lemma_grown_stacks(v: StackView, w: StackView)
    requires
        v.gss.nodes.is_prefix_of(w.gss.nodes),
        v.gss.edges.is_prefix_of(w.gss.edges),
        w.products == v.products,
        w.trees == v.trees,
        w.reductions.products == v.reductions.products,
    ensures
        grown(v, w),
{
    lemma_grown_self(v);
    reveal(grown);
}

/// A new product over a tree lets everything grow.
pub proof fn lemma_grown_product(
    v: StackView,
    w: StackView,
    tree: crate::framework::parse::data::green::TreeView,
    data: ProductDataView,
    extent: crate::framework::parse::data::ast::AnchoredSpan,
)
    requires
        with_product(v, w, tree, data, extent),
    ensures
        grown(v, w),
{
    lemma_grown_self(v);
    reveal(grown);
    assert(v.products.is_prefix_of(w.products)) by {
        assert(w.products.drop_last() =~= w.products.subrange(0, v.products.len() as int));
    }
    lemma_prefix_push(v.trees, tree);
}

/// A reduction lets everything grow.
pub proof fn lemma_grown_reduced(
    v: StackView,
    w: StackView,
    lhs: u32,
    key: KeyView,
    boundary: TokenOccurrenceId,
    product: ProductId,
)
    requires
        reduced(v, w, lhs, key, boundary, product),
    ensures
        grown(v, w),
{
    lemma_grown_self(v);
    reveal(grown);
    if !v.reductions.products.dom().contains(key) {
        assert(w.products.drop_last() =~= w.products.subrange(0, v.products.len() as int));
        lemma_prefix_push(v.trees, w.trees.last());
        assert(v.trees.is_prefix_of(w.trees)) by {
            assert(v.trees =~= w.trees.subrange(0, v.trees.len() as int));
        }
    }
}

/// Where the records are the same and the rest grew, nothing had to be built.
pub proof fn lemma_built_grown<V, L: Language<V>>(
    language: L,
    before: SessionContext<V>,
    after: SessionContext<V>,
)
    requires
        grown(before@, after@),
        after.arenas.ast.records() == before.arenas.ast.records(),
        after.arenas.ast.document() == before.arenas.ast.document(),
    ensures
        built_on(language, before, after),
{
    reveal(built_on);
    let records = before.arenas.ast.records();
    assert(records =~= records.subrange(0, records.len() as int));
}

/// Where arenas and known reductions are the same, nothing had to be built.
pub proof fn lemma_built_same<V, L: Language<V>>(
    language: L,
    before: SessionContext<V>,
    after: SessionContext<V>,
)
    requires
        after@.gss == before@.gss,
        after@.products == before@.products,
        after@.trees == before@.trees,
        after@.reductions.products == before@.reductions.products,
        after.arenas.ast.records() == before.arenas.ast.records(),
        after.arenas.ast.document() == before.arenas.ast.document(),
    ensures
        built_on(language, before, after),
{
    lemma_grown_same(before@, after@);
    lemma_built_grown(language, before, after);
}

/// What is built on grows.
pub proof fn lemma_built_grows<V, L: Language<V>>(
    language: L,
    before: SessionContext<V>,
    after: SessionContext<V>,
)
    requires
        built_on(language, before, after),
    ensures
        grown(before@, after@),
        after.arenas.ast.document() == before.arenas.ast.document(),
{
    reveal(built_on);
}

/// What grows and is built over what grew and was built.
pub proof fn lemma_built_trans<V, L: Language<V>>(
    language: L,
    first: SessionContext<V>,
    second: SessionContext<V>,
    third: SessionContext<V>,
)
    requires
        built_on(language, first, second),
        built_on(language, second, third),
    ensures
        built_on(language, first, third),
{
    reveal(built_on);
    lemma_grown_trans(first@, second@, third@);
    let a = first.arenas.ast.records();
    let b = second.arenas.ast.records();
    let c = third.arenas.ast.records();
    lemma_prefix_trans(a, b, c);
    assert forall|record: int| a.len() <= record < c.len() implies #[trigger] is_built(
        language,
        third,
        record,
    ) by {
        if record < b.len() {
            assert(is_built(language, second, record));
            let (key, products, ast) = choose|key: KeyView, products: ProductArena, ast: AstArena<V>|
                #[trigger] built_by(language, second, record, key, products, ast);
            lemma_stays_built(language, second, third, record, key, products, ast);
        }
    }
}

proof fn lemma_stays_built<V, L: Language<V>>(
    language: L,
    second: SessionContext<V>,
    third: SessionContext<V>,
    record: int,
    key: KeyView,
    products: ProductArena,
    ast: AstArena<V>,
)
    requires
        grown(second@, third@),
        second.arenas.ast.records().is_prefix_of(third.arenas.ast.records()),
        0 <= record < second.arenas.ast.records().len(),
        built_by(language, second, record, key, products, ast),
    ensures
        built_by(language, third, record, key, products, ast),
{
    reveal(grown);
    let b = second.arenas.ast.records();
    let c = third.arenas.ast.records();
    let product = second@.reductions.products[key] as int;
    assert(b[record] == c.subrange(0, b.len() as int)[record]);
    assert(second@.products[product] == third@.products.subrange(
        0,
        second@.products.len() as int,
    )[product]);
    assert(third@.products.take(product) =~= second@.products.take(product));
    assert(c.take(record) =~= b.take(record));
}

/// A reduction builds on what is there.
pub proof fn lemma_built_reduced<V, L: Language<V>>(
    language: L,
    before: SessionContext<V>,
    after: SessionContext<V>,
    lhs: u32,
    key: KeyView,
    boundary: TokenOccurrenceId,
    product: ProductId,
)
    requires
        reduced(before@, after@, lhs, key, boundary, product),
        records_built(language, before, after, key, boundary),
        after.arenas.ast.document() == before.arenas.ast.document(),
    ensures
        built_on(language, before, after),
{
    lemma_grown_reduced(before@, after@, lhs, key, boundary, product);
    if before@.reductions.products.dom().contains(key) {
        lemma_built_grown(language, before, after);
    } else {
        reveal(built_on);
        let a = before.arenas.ast.records();
        let b = after.arenas.ast.records();
        lemma_prefix_push(a, b.last());
        assert(a.is_prefix_of(b)) by {
            assert(a =~= b.subrange(0, a.len() as int));
        }
        assert(b.take(a.len() as int) =~= a);
        assert(after@.products.take(product as int) =~= before@.products) by {
            assert(after@.products.drop_last() =~= after@.products.take(product as int));
        }
        assert(before@.bindings.len() == a.len());
        assert(built_by(
            language,
            after,
            a.len() as int,
            key,
            before.arenas.products,
            before.arenas.ast,
        ));
    }
}

} // verus!
