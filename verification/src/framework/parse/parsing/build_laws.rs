//! What a reduction builds.

use vstd::prelude::*;

use crate::framework::lex::lexed::TokenOccurrenceId;
use crate::framework::parse::data::ast::{AstId, AstMetadata};
use crate::framework::parse::data::green::{summed_length, DataView, GreenId, TreeView};
use crate::framework::parse::data::product::{ProductDataView, ProductId, ProductView};
use crate::framework::parse::grammar::NonTerminalId;
use crate::framework::parse::parsing::reductions::KeyView;
use crate::framework::parse::parsing::stack::{
    adopted, greens_of, newly_reduced, records_under, reduced, StackView,
};

verus! {

/// A record stands directly under one of some products.
pub open spec fn stands_under(
    products: Seq<ProductView>,
    children: Seq<ProductId>,
    record: AstId,
) -> bool {
    exists|i: int|
        0 <= i < children.len() && products[#[trigger] children[i] as int].ast_ids.contains(record)
}

proof fn lemma_records_under(products: Seq<ProductView>, children: Seq<ProductId>, record: AstId)
    ensures
        records_under(products, children).contains(record) <==> stands_under(
            products,
            children,
            record,
        ),
    decreases children.len(),
{
    if children.len() > 0 {
        let rest = children.drop_last();
        let before = records_under(products, rest);
        let own = products[children.last() as int].ast_ids;
        let all = before + own;
        lemma_records_under(products, rest, record);
        if before.contains(record) {
            let k = before.index_of(record);
            assert(all[k] == record);
            let i = choose|i: int|
                0 <= i < rest.len() && products[#[trigger] rest[i] as int].ast_ids.contains(record);
            assert(children[i] == rest[i]);
        }
        if own.contains(record) {
            let k = own.index_of(record);
            assert(all[before.len() + k] == record);
            let last = children.len() - 1;
            assert(products[children[last] as int].ast_ids.contains(record));
        }
        if all.contains(record) {
            let k = all.index_of(record);
            if k < before.len() {
                assert(before[k] == record);
            } else {
                assert(own[k - before.len()] == record);
            }
        }
        if stands_under(products, children, record) {
            let i = choose|i: int|
                0 <= i < children.len() && products[#[trigger] children[i] as int].ast_ids.contains(
                    record,
                );
            if i < rest.len() {
                assert(rest[i] == children[i]);
            }
        }
    }
}

proof fn lemma_adopted(bindings: Seq<AstMetadata>, kids: Seq<AstId>, parent: AstId, record: AstId)
    requires
        record < bindings.len(),
    ensures
        adopted(bindings, kids, parent).len() == bindings.len(),
        adopted(bindings, kids, parent)[record as int].owner == bindings[record as int].owner,
        adopted(bindings, kids, parent)[record as int].parent == if kids.contains(record) {
            Some(parent)
        } else {
            bindings[record as int].parent
        },
    decreases kids.len(),
{
    if kids.len() > 0 {
        let rest = kids.drop_last();
        lemma_adopted(bindings, rest, parent, record);
        if rest.contains(record) {
            let k = rest.index_of(record);
            assert(kids[k] == record);
        }
        if kids.last() == record {
            assert(kids[kids.len() - 1] == record);
        }
        if kids.contains(record) {
            let k = kids.index_of(record);
            if k < rest.len() {
                assert(rest[k] == record);
            }
        }
    }
}

/// A new reduction is a product of its own, the last one, that holds the products
/// it was reduced from, in their order. Its tree is a node of what it reduces to
/// over the trees of those products. The record of the reduction belongs to the
/// product, and is the parent of every record directly under one of its children;
/// no other record gets another parent. Asked for once more, it is found.
pub proof fn lemma_reduction_builds_a_node(
    v: StackView,
    w: StackView,
    lhs: NonTerminalId,
    key: KeyView,
    boundary: TokenOccurrenceId,
    product: ProductId,
)
    requires
        !v.reductions.products.dom().contains(key),
        reduced(v, w, lhs, key, boundary, product),
        v.products.len() < usize::MAX,
        v.bindings.len() < usize::MAX,
    ensures
        product == v.products.len(),
        w.products.len() == v.products.len() + 1,
        w.products[product as int].data == (ProductDataView::Node {
            ast: v.bindings.len() as usize,
            children: key.children,
        }),
        w.products[product as int].ast_ids == seq![v.bindings.len() as usize],
        ({
            let tree = w.trees[w.products[product as int].green as int];
            &&& w.products[product as int].green < w.trees.len()
            &&& tree.data matches DataView::Node { id, children } && id == lhs && children.len()
                == key.children.len() && forall|i: int|
                0 <= i < key.children.len() ==> #[trigger] children[i]
                    == v.products[key.children[i] as int].green
        }),
        w.reductions.products.dom().contains(key),
        w.reductions.products[key] == product,
        w.bindings.len() == v.bindings.len() + 1,
        w.bindings.last().owner == Some(product),
        forall|record: AstId|
            record < v.bindings.len() ==> {
                let binding = #[trigger] w.bindings[record as int];
                &&& binding.owner == v.bindings[record as int].owner
                &&& binding.parent == if stands_under(v.products, key.children, record) {
                    Some(v.bindings.len() as usize)
                } else {
                    v.bindings[record as int].parent
                }
            },
{
    let record = v.bindings.len() as usize;
    let grown = v.bindings.push(AstMetadata { owner: Some(product), parent: None });
    let kids = records_under(v.products, key.children);
    assert(w.products[product as int] == w.products.last());
    lemma_adopted(grown, kids, record, record);
    assert forall|other: AstId| other < v.bindings.len() implies {
        let binding = #[trigger] w.bindings[other as int];
        &&& binding.owner == v.bindings[other as int].owner
        &&& binding.parent == if stands_under(v.products, key.children, other) {
            Some(v.bindings.len() as usize)
        } else {
            v.bindings[other as int].parent
        }
    } by {
        lemma_adopted(grown, kids, record, other);
        lemma_records_under(v.products, key.children, other);
    }
}

/// A list of trees is as long as its parts: as two lists that it is made of, and
/// one tree as long as itself.
pub proof fn lemma_lengths_add_up(trees: Seq<TreeView>, a: Seq<GreenId>, b: Seq<GreenId>)
    ensures
        summed_length(trees, a + b) == summed_length(trees, a) + summed_length(trees, b),
        forall|id: GreenId|
            id < trees.len() ==> #[trigger] summed_length(trees, seq![id])
                == trees[id as int].length,
    decreases b.len(),
{
    assert forall|id: GreenId| id < trees.len() implies #[trigger] summed_length(trees, seq![id])
        == trees[id as int].length by {
        let one = seq![id];
        assert(one.drop_last() =~= Seq::<GreenId>::empty());
        assert(summed_length(trees, one.drop_last()) == 0);
        assert(one.last() == id);
    }
    if b.len() == 0 {
        assert(a + b =~= a);
    } else {
        lemma_lengths_add_up(trees, a, b.drop_last());
        assert((a + b).drop_last() =~= a + b.drop_last());
        assert((a + b).last() == b.last());
    }
}

/// The tree of a new reduction is as long as the trees of what it was reduced
/// from together.
pub proof fn lemma_reduction_is_as_long_as_its_parts(
    v: StackView,
    w: StackView,
    lhs: NonTerminalId,
    key: KeyView,
    boundary: TokenOccurrenceId,
)
    requires
        newly_reduced(v, w, lhs, key, boundary),
    ensures
        w.trees[w.products.last().green as int].length == summed_length(
            v.trees,
            key.children.map_values(|id: ProductId| v.products[id as int].green),
        ),
{
    let greens = key.children.map_values(|id: ProductId| v.products[id as int].green);
    assert(greens_of(v.products, key.children) =~= greens);
    lemma_length_is_natural(v.trees, greens);
}

proof fn lemma_length_is_natural(trees: Seq<TreeView>, ids: Seq<GreenId>)
    ensures
        summed_length(trees, ids) >= 0,
    decreases ids.len(),
{
    if ids.len() > 0 {
        lemma_length_is_natural(trees, ids.drop_last());
    }
}

} // verus!
