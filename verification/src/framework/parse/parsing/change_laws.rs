//! What a frozen command tells: which nodes came, changed and went, and the
//! children of those that stay.

use vstd::prelude::*;

use crate::framework::parse::data::ast::{AstArena, AstId};
use crate::framework::parse::data::product::ProductView;
use crate::framework::parse::delta::{is_splice, LineageRecord, ParseDelta, SyntaxNodeId};
use crate::framework::parse::parsing::freeze::{
    all_say, as_ids, borne, candidates, changed_nodes, changed_splice, changed_splices,
    children_now, fresh_nodes, frozen, identified, ids_of, kept_splice, kept_splices, last_bearers,
    leavers, leaving_nodes, node_keys, numbers, order_views, orders_with, orders_without,
    parents_of, says, self_bearers, shown_children, signature, spliced_parents, splices_after,
    tells_of, FreezeInput, TreeKinds,
};
use crate::framework::parse::parsing::lineage::{parent_at, LineageView};
use crate::sort::{distinct_sorted, lemma_distinct_sorted, Ordered};

verus! {

/// A node with its identity.
pub open spec fn node(lineage: u64, record: u64) -> LineageRecord {
    LineageRecord { lineage: SyntaxNodeId(lineage), record }
}

/// A record bears an identity that it did not take over.
pub open spec fn is_new_node(v: LineageView, record: u64, lineage: u64) -> bool {
    &&& v.lineages.dom().contains(record as usize)
    &&& v.lineages[record as usize] == lineage
    &&& !v.inherited.dom().contains(record as usize)
}

/// A record bears an identity that it took over from one that is gone and that
/// showed something else: another green tree or another extent.
pub open spec fn is_changed_node<V>(
    v: LineageView,
    live: Map<u64, ()>,
    products: Seq<ProductView>,
    ast: AstArena<V>,
    record: u64,
    lineage: u64,
) -> bool {
    let old = v.inherited[record as usize];
    &&& v.lineages.dom().contains(record as usize)
    &&& v.lineages[record as usize] == lineage
    &&& v.inherited.dom().contains(record as usize)
    &&& old as u64 == record || !live.dom().contains(old as u64)
    &&& signature(ast, products, old as u64) != signature(ast, products, record)
}

/// A record that died leaves with an identity that no record that came bears.
pub open spec fn is_gone_node(
    committed: Map<u64, u64>,
    v: LineageView,
    came: Seq<u64>,
    record: u64,
    lineage: u64,
) -> bool {
    &&& if committed.dom().contains(record) {
        committed[record] == lineage
    } else {
        v.died.dom().contains(record) && v.died[record] == lineage
    }
    &&& forall|i: int|
        0 <= i < came.len() && v.lineages.dom().contains(#[trigger] came[i] as usize)
            ==> v.lineages[came[i] as usize] != lineage
}

proof fn lemma_fresh_nodes<V>(
    v: LineageView,
    live: Map<u64, ()>,
    products: Seq<ProductView>,
    ast: AstArena<V>,
    records: Seq<u64>,
    found: LineageRecord,
)
    ensures
        fresh_nodes(v, live, products, ast, records).contains(found) <==> records.contains(
            found.record,
        ) && is_new_node(v, found.record, found.lineage.0),
        changed_nodes(v, live, products, ast, records).contains(found) <==> records.contains(
            found.record,
        ) && is_changed_node(v, live, products, ast, found.record, found.lineage.0),
    decreases records.len(),
{
    if records.len() > 0 {
        let rest = records.drop_last();
        let last = records.last();
        lemma_fresh_nodes(v, live, products, ast, rest, found);
        lemma_last_of(records, found.record);
        lemma_pushed(fresh_nodes(v, live, products, ast, rest), found);
        lemma_pushed(changed_nodes(v, live, products, ast, rest), found);
    }
}

proof fn lemma_last_of(records: Seq<u64>, record: u64)
    requires
        records.len() > 0,
    ensures
        records.contains(record) <==> records.drop_last().contains(record) || records.last()
            == record,
{
    let rest = records.drop_last();
    if rest.contains(record) {
        let k = rest.index_of(record);
        assert(records[k] == record);
    }
    if records.last() == record {
        assert(records[records.len() - 1] == record);
    }
    if records.contains(record) {
        let k = records.index_of(record);
        if k < rest.len() {
            assert(rest[k] == record);
        }
    }
}

proof fn lemma_pushed<T>(before: Seq<T>, item: T)
    ensures
        forall|extra: T|
            #![trigger before.push(extra)]
            before.push(extra).contains(item) <==> before.contains(item) || extra == item,
{
    assert forall|extra: T|
        #![trigger before.push(extra)]
        before.push(extra).contains(item) <==> before.contains(item) || extra == item by {
        let all = before.push(extra);
        if before.contains(item) {
            let k = before.index_of(item);
            assert(all[k] == item);
        }
        if extra == item {
            assert(all[before.len() as int] == item);
        }
        if all.contains(item) {
            let k = all.index_of(item);
            if k < before.len() {
                assert(before[k] == item);
            }
        }
    }
}

proof fn lemma_leaving_nodes(
    committed: Map<u64, u64>,
    v: LineageView,
    came: Seq<u64>,
    records: Seq<u64>,
    found: LineageRecord,
)
    ensures
        leaving_nodes(committed, v, borne(v, came), records).contains(found) <==> records.contains(
            found.record,
        ) && is_gone_node(committed, v, came, found.record, found.lineage.0),
    decreases records.len(),
{
    let carriers = borne(v, came);
    if records.len() > 0 {
        let rest = records.drop_last();
        let last = records.last();
        lemma_leaving_nodes(committed, v, came, rest, found);
        lemma_last_of(records, found.record);
        lemma_pushed(leaving_nodes(committed, v, carriers, rest), found);
    }
}

proof fn lemma_listed_once<T: Ordered>(values: Seq<T>, item: T)
    ensures
        distinct_sorted(values.to_set()).contains(item) <==> values.contains(item),
{
    lemma_distinct_sorted(values);
    assert(distinct_sorted(values.to_set()).to_set().contains(item) <==> values.to_set().contains(
        item,
    ));
}

/// Which nodes a command tells of. A record that came to life and bears an
/// identity of its own is a node that came. One that took its identity over from
/// a record that is gone, and shows something else, is a node that changed. A
/// record that died, and whose identity no record that came bears, is a node that
/// went. And there are no others.
pub proof fn lemma_told_nodes<V, T: TreeKinds<V>>(
    delta: ParseDelta,
    input: FreezeInput<V, T>,
    v: LineageView,
    live: Map<u64, ()>,
    came: Seq<u64>,
    went: Seq<u64>,
    lineage: u64,
    record: u64,
)
    requires
        frozen(delta, input, v, live, came, went),
    ensures
        delta.inserted_records@.contains(node(lineage, record)) <==> came.contains(record)
            && is_new_node(v, record, lineage),
        delta.updated_records@.contains(node(lineage, record)) <==> came.contains(record)
            && is_changed_node(v, live, input.products, input.ast, record, lineage),
        (exists|i: int|
            0 <= i < delta.removed_records@.len() && (
            #[trigger] delta.removed_records@[i]).lineage.0 == lineage
                && delta.removed_records@[i].record == record) <==> went.contains(record)
            && is_gone_node(input.committed, v, came, record, lineage),
{
    let found = node(lineage, record);
    lemma_fresh_nodes(v, live, input.products, input.ast, came, found);
    lemma_listed_once(fresh_nodes(v, live, input.products, input.ast, came), found);
    lemma_listed_once(changed_nodes(v, live, input.products, input.ast, came), found);
    let left = leaving_nodes(input.committed, v, borne(v, came), went);
    lemma_leaving_nodes(input.committed, v, came, went, found);
    lemma_listed_once(left, found);
    let list = leavers(input, v, came, went);
    let told = delta.removed_records@;
    if list.contains(found) {
        let i = list.index_of(found);
        assert(tells_of(
            told[i],
            list[i],
            input.tree,
            input.products,
            input.ast,
            input.committed,
            v,
        ));
    }
    if exists|i: int|
        0 <= i < told.len() && (#[trigger] told[i]).lineage.0 == lineage && told[i].record
            == record {
        let i = choose|i: int|
            0 <= i < told.len() && (#[trigger] told[i]).lineage.0 == lineage && told[i].record
                == record;
        assert(tells_of(
            told[i],
            list[i],
            input.tree,
            input.products,
            input.ast,
            input.committed,
            v,
        ));
        assert(list[i] == found);
    }
}

// ---------------------------------------------------------------------------
// Orders of children

/// An order is that of the children of a record: the identity of each, alive or
/// dead, one behind the other.
pub open spec fn names_children(v: LineageView, children: Seq<u64>, order: Seq<u64>) -> bool {
    &&& order.len() == children.len()
    &&& forall|i: int|
        0 <= i < children.len() ==> bears(v, #[trigger] children[i], order[i])
}

/// A record bears an identity, or died with it.
pub open spec fn bears(v: LineageView, record: u64, lineage: u64) -> bool {
    if v.lineages.dom().contains(record as usize) {
        v.lineages[record as usize] == lineage
    } else {
        let key = (record as usize) as u64;
        v.died.dom().contains(key) && v.died[key] == lineage
    }
}

proof fn lemma_identified(v: LineageView, children: Seq<u64>, order: Seq<u64>)
    requires
        names_children(v, children, order),
    ensures
        numbers(ids_of(identified(v, children))) == order,
    decreases children.len(),
{
    let all = identified(v, children);
    if children.len() == 0 {
        assert(numbers(ids_of(all)) =~= order);
    } else {
        let rest = children.drop_last();
        let front = order.drop_last();
        let last = children.len() - 1;
        assert forall|i: int| 0 <= i < rest.len() implies bears(
            v,
            #[trigger] rest[i],
            front[i],
        ) by {
            assert(rest[i] == children[i]);
        }
        lemma_identified(v, rest, front);
        assert(bears(v, children[last], order[last]));
        let before = identified(v, rest);
        assert(numbers(ids_of(before)).len() == before.len());
        assert(numbers(ids_of(all)) =~= order) by {
            assert forall|i: int| 0 <= i < order.len() implies numbers(ids_of(all))[i]
                == order[i] by {
                if i < front.len() {
                    assert(numbers(ids_of(before))[i] == front[i]);
                    assert(all[i] == before[i]);
                }
            }
        }
    }
}

/// The parents of a list are listed with those who bear their identities.
proof fn lemma_parents_hold<V>(v: LineageView, ast: AstArena<V>, records: Seq<u64>, found: LineageRecord)
    ensures
        parents_of(v, ast, records).contains(found) ==> v.holders.dom().contains(found.lineage.0)
            && v.holders[found.lineage.0] as u64 == found.record,
    decreases records.len(),
{
    if records.len() > 0 {
        let rest = records.drop_last();
        lemma_parents_hold(v, ast, rest, found);
        lemma_pushed(parents_of(v, ast, rest), found);
    }
}

proof fn lemma_bearers_hold(v: LineageView, records: Seq<u64>, found: LineageRecord)
    ensures
        self_bearers(v, records).contains(found) ==> v.holders.dom().contains(found.lineage.0)
            && v.holders[found.lineage.0] as u64 == found.record,
        records.contains(found.record) && bears(v, found.record, found.lineage.0)
            && v.holders.dom().contains(found.lineage.0) && v.holders[found.lineage.0] as u64
            == found.record ==> self_bearers(v, records).contains(found),
    decreases records.len(),
{
    if records.len() > 0 {
        let rest = records.drop_last();
        lemma_bearers_hold(v, rest, found);
        lemma_last_of(records, found.record);
        lemma_pushed(self_bearers(v, rest), found);
    }
}

proof fn lemma_parent_listed<V>(
    v: LineageView,
    ast: AstArena<V>,
    records: Seq<u64>,
    record: u64,
    parent: AstId,
    lineage: u64,
)
    requires
        records.contains(record),
        parent_at(ast, record as usize) == Some(parent),
        bears(v, parent as u64, lineage),
        v.holders.dom().contains(lineage),
    ensures
        parents_of(v, ast, records).contains(node(lineage, v.holders[lineage] as u64)),
    decreases records.len(),
{
    let rest = records.drop_last();
    let found = node(lineage, v.holders[lineage] as u64);
    lemma_last_of(records, record);
    if rest.contains(record) {
        lemma_parent_listed(v, ast, rest, record, parent, lineage);
    }
    lemma_pushed(parents_of(v, ast, rest), found);
}

/// Every candidate is the bearer of its identity.
proof fn lemma_candidates_hold<V>(
    v: LineageView,
    ast: AstArena<V>,
    came: Seq<u64>,
    went: Seq<u64>,
    changed: Seq<LineageRecord>,
    found: LineageRecord,
)
    ensures
        candidates(v, ast, came, went, changed).contains(found) ==> v.holders.dom().contains(
            found.lineage.0,
        ) && v.holders[found.lineage.0] as u64 == found.record,
        parents_of(v, ast, came).contains(found) || parents_of(v, ast, went).contains(found)
            || self_bearers(v, came).contains(found) ==> candidates(
            v,
            ast,
            came,
            went,
            changed,
        ).contains(found),
{
    let a = parents_of(v, ast, came);
    let b = parents_of(v, ast, went);
    let c = parents_of(v, ast, node_keys(changed));
    let d = self_bearers(v, came);
    let list = a + b + c + d;
    lemma_listed_once(list, found);
    lemma_parents_hold(v, ast, came, found);
    lemma_parents_hold(v, ast, went, found);
    lemma_parents_hold(v, ast, node_keys(changed), found);
    lemma_bearers_hold(v, came, found);
    if list.contains(found) {
        let k = list.index_of(found);
        if k < a.len() {
            assert(a[k] == found);
        } else if k < a.len() + b.len() {
            assert(b[k - a.len()] == found);
        } else if k < a.len() + b.len() + c.len() {
            assert(c[k - a.len() - b.len()] == found);
        } else {
            assert(d[k - a.len() - b.len() - c.len()] == found);
        }
    }
    if a.contains(found) {
        let k = a.index_of(found);
        assert(list[k] == found);
    }
    if b.contains(found) {
        let k = b.index_of(found);
        assert(list[a.len() + k] == found);
    }
    if d.contains(found) {
        let k = d.index_of(found);
        assert(list[a.len() + b.len() + c.len() + k] == found);
    }
}

/// The order of a parent that is listed under one record only.
proof fn lemma_orders_with<V, T: TreeKinds<V>>(
    tree: T,
    products: Seq<ProductView>,
    ast: AstArena<V>,
    v: LineageView,
    orders: Map<u64, Seq<u64>>,
    parents: Seq<LineageRecord>,
    lineage: u64,
    record: u64,
)
    requires
        forall|k: int|
            0 <= k < parents.len() && (#[trigger] parents[k]).lineage.0 == lineage
                ==> parents[k].record == record,
    ensures
        ({
            let after = orders_with(tree, products, ast, v, orders, parents);
            if parents.contains(node(lineage, record)) {
                &&& after.dom().contains(lineage)
                &&& after[lineage] == numbers(
                    ids_of(children_now(tree, products, ast, v, record)),
                )
            } else {
                &&& after.dom().contains(lineage) == orders.dom().contains(lineage)
                &&& orders.dom().contains(lineage) ==> after[lineage] == orders[lineage]
            }
        }),
    decreases parents.len(),
{
    if parents.len() > 0 {
        let rest = parents.drop_last();
        let last = parents.last();
        assert forall|k: int|
            0 <= k < rest.len() && (#[trigger] rest[k]).lineage.0 == lineage implies rest[k].record
            == record by {
            assert(rest[k] == parents[k]);
        }
        lemma_orders_with(tree, products, ast, v, orders, rest, lineage, record);
        lemma_pushed(rest, node(lineage, record));
        assert(rest.push(last) =~= parents);
        assert(parents[parents.len() - 1] == last);
        if last.lineage.0 == lineage {
            assert(last == node(lineage, record));
        }
    }
}

proof fn lemma_orders_without(orders: Map<u64, Seq<u64>>, nodes: Seq<LineageRecord>, lineage: u64)
    ensures
        ({
            let after = orders_without(orders, nodes);
            let named = exists|k: int|
                0 <= k < nodes.len() && (#[trigger] nodes[k]).lineage.0 == lineage;
            &&& after.dom().contains(lineage) == (orders.dom().contains(lineage) && !named)
            &&& after.dom().contains(lineage) ==> after[lineage] == orders[lineage]
        }),
    decreases nodes.len(),
{
    if nodes.len() > 0 {
        let rest = nodes.drop_last();
        lemma_orders_without(orders, rest, lineage);
        if exists|k: int| 0 <= k < rest.len() && (#[trigger] rest[k]).lineage.0 == lineage {
            let k = choose|k: int| 0 <= k < rest.len() && (#[trigger] rest[k]).lineage.0 == lineage;
            assert(nodes[k].lineage.0 == lineage);
        }
        if exists|k: int| 0 <= k < nodes.len() && (#[trigger] nodes[k]).lineage.0 == lineage {
            let k = choose|k: int|
                0 <= k < nodes.len() && (#[trigger] nodes[k]).lineage.0 == lineage;
            if k < rest.len() {
                assert(rest[k].lineage.0 == lineage);
            }
        }
        if nodes.last().lineage.0 == lineage {
            assert(nodes[nodes.len() - 1].lineage.0 == lineage);
        }
    }
}

/// A node is touched by a command: a record of it came, or a child of a record of
/// it came or went.
pub open spec fn is_touched<V>(
    v: LineageView,
    ast: AstArena<V>,
    came: Seq<u64>,
    went: Seq<u64>,
    lineage: u64,
) -> bool {
    ||| came.contains(v.holders[lineage] as u64) && bears(v, v.holders[lineage] as u64, lineage)
    ||| exists|record: u64, parent: AstId|
        (came.contains(record) || went.contains(record)) && #[trigger] parent_at(
            ast,
            record as usize,
        ) == Some(parent) && #[trigger] bears(v, parent as u64, lineage)
}

proof fn lemma_touched_is_candidate<V>(
    v: LineageView,
    ast: AstArena<V>,
    came: Seq<u64>,
    went: Seq<u64>,
    changed: Seq<LineageRecord>,
    lineage: u64,
)
    requires
        v.holders.dom().contains(lineage),
        is_touched(v, ast, came, went, lineage),
    ensures
        candidates(v, ast, came, went, changed).contains(
            node(lineage, v.holders[lineage] as u64),
        ),
{
    let found = node(lineage, v.holders[lineage] as u64);
    lemma_candidates_hold(v, ast, came, went, changed, found);
    if came.contains(v.holders[lineage] as u64) && bears(v, v.holders[lineage] as u64, lineage) {
        lemma_bearers_hold(v, came, found);
    } else {
        let (record, parent) = choose|record: u64, parent: AstId|
            (came.contains(record) || went.contains(record)) && #[trigger] parent_at(
                ast,
                record as usize,
            ) == Some(parent) && #[trigger] bears(v, parent as u64, lineage);
        if came.contains(record) {
            lemma_parent_listed(v, ast, came, record, parent, lineage);
        } else {
            lemma_parent_listed(v, ast, went, record, parent, lineage);
        }
    }
}

/// The order of the children of a node that a command touches is the one that
/// the tree has after it, with the identities of the children.
pub proof fn lemma_touched_orders_are_the_trees<V, T: TreeKinds<V>>(
    delta: ParseDelta,
    input: FreezeInput<V, T>,
    v: LineageView,
    live: Map<u64, ()>,
    came: Seq<u64>,
    went: Seq<u64>,
    lineage: u64,
    order: Seq<u64>,
)
    requires
        frozen(delta, input, v, live, came, went),
        input.orders.dom() != Set::<u64>::empty(),
        v.holders.dom().contains(lineage),
        is_touched(v, input.ast, came, went, lineage),
        names_children(
            v,
            shown_children(input.tree, input.products, input.ast, v.holders[lineage] as u64),
            order,
        ),
        forall|i: int|
            0 <= i < delta.removed_records@.len() ==> (
            #[trigger] delta.removed_records@[i]).lineage.0 != lineage,
    ensures
        order_views(delta.child_orders_next@).dom().contains(lineage),
        order_views(delta.child_orders_next@)[lineage] == order,
{
    let record = v.holders[lineage] as u64;
    let changed = changed_nodes(v, live, input.products, input.ast, came);
    let parents = candidates(v, input.ast, came, went, changed);
    lemma_touched_is_candidate(v, input.ast, came, went, changed, lineage);
    assert forall|k: int|
        0 <= k < parents.len() && (#[trigger] parents[k]).lineage.0 == lineage implies parents[k]
        .record == record by {
        assert(parents.contains(parents[k]));
        lemma_candidates_hold(v, input.ast, came, went, changed, parents[k]);
    }
    lemma_orders_with(
        input.tree,
        input.products,
        input.ast,
        v,
        input.orders,
        parents,
        lineage,
        record,
    );
    lemma_identified(
        v,
        shown_children(input.tree, input.products, input.ast, record),
        order,
    );
    let touched = orders_with(input.tree, input.products, input.ast, v, input.orders, parents);
    let list = leavers(input, v, came, went);
    lemma_orders_without(touched, list, lineage);
    assert forall|k: int| 0 <= k < list.len() implies (#[trigger] list[k]).lineage.0
        != lineage by {
        assert(delta.removed_records@[k].lineage.0 != lineage);
        assert(tells_of(
            delta.removed_records@[k],
            list[k],
            input.tree,
            input.products,
            input.ast,
            input.committed,
            v,
        ));
    }
}

/// The order of a node that no record of a command belongs to stays as it was.
pub proof fn lemma_other_orders_stay<V, T: TreeKinds<V>>(
    delta: ParseDelta,
    input: FreezeInput<V, T>,
    v: LineageView,
    live: Map<u64, ()>,
    came: Seq<u64>,
    went: Seq<u64>,
    lineage: u64,
)
    requires
        frozen(delta, input, v, live, came, went),
        input.orders.dom().contains(lineage),
        forall|record: u64|
            !#[trigger] candidates(
                v,
                input.ast,
                came,
                went,
                changed_nodes(v, live, input.products, input.ast, came),
            ).contains(node(lineage, record)),
        forall|i: int|
            0 <= i < delta.removed_records@.len() ==> (
            #[trigger] delta.removed_records@[i]).lineage.0 != lineage,
    ensures
        order_views(delta.child_orders_next@).dom().contains(lineage),
        order_views(delta.child_orders_next@)[lineage] == input.orders[lineage],
{
    let changed = changed_nodes(v, live, input.products, input.ast, came);
    let parents = candidates(v, input.ast, came, went, changed);
    assert forall|k: int|
        0 <= k < parents.len() && (#[trigger] parents[k]).lineage.0 == lineage implies parents[k]
        .record == 0 by {
        assert(parents[k] == node(lineage, parents[k].record));
        assert(parents.contains(parents[k]));
    }
    lemma_orders_with(
        input.tree,
        input.products,
        input.ast,
        v,
        input.orders,
        parents,
        lineage,
        0,
    );
    let touched = orders_with(input.tree, input.products, input.ast, v, input.orders, parents);
    let list = leavers(input, v, came, went);
    lemma_orders_without(touched, list, lineage);
    assert(input.orders.dom() != Set::<u64>::empty());
    assert forall|k: int| 0 <= k < list.len() implies (#[trigger] list[k]).lineage.0
        != lineage by {
        assert(delta.removed_records@[k].lineage.0 != lineage);
        assert(tells_of(
            delta.removed_records@[k],
            list[k],
            input.tree,
            input.products,
            input.ast,
            input.committed,
            v,
        ));
    }
}

// ---------------------------------------------------------------------------
// Splices

proof fn lemma_kept_splices<V, T: TreeKinds<V>>(
    tree: T,
    products: Seq<ProductView>,
    ast: AstArena<V>,
    v: LineageView,
    last: Map<u64, u64>,
    orders: Map<u64, Seq<u64>>,
    spliced: Set<u64>,
    parents: Seq<LineageRecord>,
    parent: LineageRecord,
)
    requires
        parents.contains(parent),
        kept_splice(tree, products, ast, v, last, orders, spliced, parent) is Some,
    ensures
        kept_splices(tree, products, ast, v, last, orders, spliced, parents).contains(
            kept_splice(tree, products, ast, v, last, orders, spliced, parent)->Some_0,
        ),
    decreases parents.len(),
{
    let rest = parents.drop_last();
    let view = kept_splice(tree, products, ast, v, last, orders, spliced, parent)->Some_0;
    lemma_pushed(rest, parent);
    assert(rest.push(parents.last()) =~= parents);
    if rest.contains(parent) {
        lemma_kept_splices(tree, products, ast, v, last, orders, spliced, rest, parent);
    }
    lemma_pushed(
        kept_splices(tree, products, ast, v, last, orders, spliced, rest),
        view,
    );
}

/// A command splices every node that it touches and whose children it changes:
/// there is a splice of that node, which leads from the order that was published
/// to the one of the tree, unless the node took over from a record that is told
/// to have changed; then one leads from the children of that record.
pub proof fn lemma_changed_children_are_spliced<V, T: TreeKinds<V>>(
    delta: ParseDelta,
    input: FreezeInput<V, T>,
    v: LineageView,
    live: Map<u64, ()>,
    came: Seq<u64>,
    went: Seq<u64>,
    lineage: u64,
    order: Seq<u64>,
)
    requires
        frozen(delta, input, v, live, came, went),
        v.holders.dom().contains(lineage),
        is_touched(v, input.ast, came, went, lineage),
        names_children(
            v,
            shown_children(input.tree, input.products, input.ast, v.holders[lineage] as u64),
            order,
        ),
        input.orders.dom().contains(lineage),
        input.orders[lineage] != order,
    ensures
        exists|k: int|
            0 <= k < delta.child_splices@.len() && (#[trigger] delta.child_splices@[k]).parent.0
                == lineage && (is_splice(
                delta.child_splices@[k].delta,
                as_ids(input.orders[lineage]),
                as_ids(order),
            ) || from_changed(input, v, live, came, lineage)),
{
    let record = v.holders[lineage] as u64;
    let changed = changed_nodes(v, live, input.products, input.ast, came);
    let first = changed_splices(input.tree, input.products, input.ast, v, changed);
    let last = choose|last: Map<u64, u64>|
        #[trigger] last_bearers(v.died, last) && all_say(
            delta.child_splices@,
            splices_after(input, v, live, came, went, last),
        );
    let list = splices_after(input, v, live, came, went, last);
    let parents = candidates(v, input.ast, came, went, changed);
    let parent = node(lineage, record);
    lemma_touched_is_candidate(v, input.ast, came, went, changed, lineage);
    lemma_identified(
        v,
        shown_children(input.tree, input.products, input.ast, record),
        order,
    );
    let spliced = spliced_parents(first);
    let new = ids_of(children_now(input.tree, input.products, input.ast, v, record));
    assert(as_ids(order) =~= new) by {
        assert(numbers(new) == order);
        assert forall|i: int| 0 <= i < new.len() implies as_ids(order)[i] == new[i] by {
            assert(numbers(new)[i] == new[i].0);
        }
    }
    if spliced.contains(lineage) {
        let k = choose|k: int| 0 <= k < first.len() && (#[trigger] first[k]).parent == lineage;
        assert(list[k] == first[k]);
        assert(says(delta.child_splices@[k], list[k]));
        assert(from_changed(input, v, live, came, lineage));
    } else {
        assert(as_ids(input.orders[lineage]) != new) by {
            if as_ids(input.orders[lineage]) == new {
                assert forall|i: int| 0 <= i < order.len() implies order[i]
                    == input.orders[lineage][i] by {
                    assert(as_ids(input.orders[lineage])[i] == as_ids(order)[i]);
                }
                assert(as_ids(input.orders[lineage]).len() == as_ids(order).len());
                assert(order =~= input.orders[lineage]);
            }
        }
        let view = kept_splice(
            input.tree,
            input.products,
            input.ast,
            v,
            last,
            input.orders,
            spliced,
            parent,
        );
        assert(view is Some);
        lemma_kept_splices(
            input.tree,
            input.products,
            input.ast,
            v,
            last,
            input.orders,
            spliced,
            parents,
            parent,
        );
        let kept = kept_splices(
            input.tree,
            input.products,
            input.ast,
            v,
            last,
            input.orders,
            spliced,
            parents,
        );
        let j = kept.index_of(view->Some_0);
        let k = first.len() + j;
        assert(list[k] == view->Some_0);
        assert(says(delta.child_splices@[k], list[k]));
    }
}

/// A node took over from a record that is told to have changed, and its children
/// differ from those of that record.
pub open spec fn from_changed<V, T: TreeKinds<V>>(
    input: FreezeInput<V, T>,
    v: LineageView,
    live: Map<u64, ()>,
    came: Seq<u64>,
    lineage: u64,
) -> bool {
    exists|k: int| #![trigger changed_splices(
            input.tree,
            input.products,
            input.ast,
            v,
            changed_nodes(v, live, input.products, input.ast, came),
        )[k]]
        {
            let list = changed_splices(
                input.tree,
                input.products,
                input.ast,
                v,
                changed_nodes(v, live, input.products, input.ast, came),
            );
            0 <= k < list.len() && list[k].parent == lineage
        }
}

proof fn lemma_changed_splices<V, T: TreeKinds<V>>(
    tree: T,
    products: Seq<ProductView>,
    ast: AstArena<V>,
    v: LineageView,
    nodes: Seq<LineageRecord>,
    found: LineageRecord,
)
    requires
        nodes.contains(found),
        changed_splice(tree, products, ast, v, found.record) is Some,
    ensures
        changed_splices(tree, products, ast, v, nodes).contains(
            changed_splice(tree, products, ast, v, found.record)->Some_0,
        ),
    decreases nodes.len(),
{
    let rest = nodes.drop_last();
    let view = changed_splice(tree, products, ast, v, found.record)->Some_0;
    lemma_pushed(rest, found);
    assert(rest.push(nodes.last()) =~= nodes);
    if rest.contains(found) {
        lemma_changed_splices(tree, products, ast, v, rest, found);
    }
    lemma_pushed(changed_splices(tree, products, ast, v, rest), view);
}

/// The ids of an order.
proof fn lemma_order_ids(v: LineageView, children: Seq<u64>, order: Seq<u64>)
    requires
        names_children(v, children, order),
    ensures
        ids_of(identified(v, children)) == as_ids(order),
{
    lemma_identified(v, children, order);
    let ids = ids_of(identified(v, children));
    assert(as_ids(order) =~= ids) by {
        assert(numbers(ids) == order);
        assert forall|i: int| 0 <= i < ids.len() implies as_ids(order)[i] == ids[i] by {
            assert(numbers(ids)[i] == ids[i].0);
        }
    }
}

/// A node that is told to have changed, and whose children are not those of the
/// record that it took over from, is spliced from those to its own.
pub proof fn lemma_changed_node_is_spliced<V, T: TreeKinds<V>>(
    delta: ParseDelta,
    input: FreezeInput<V, T>,
    v: LineageView,
    live: Map<u64, ()>,
    came: Seq<u64>,
    went: Seq<u64>,
    lineage: u64,
    record: u64,
    before: Seq<u64>,
    after: Seq<u64>,
)
    requires
        frozen(delta, input, v, live, came, went),
        came.contains(record),
        is_changed_node(v, live, input.products, input.ast, record, lineage),
        names_children(
            v,
            shown_children(
                input.tree,
                input.products,
                input.ast,
                v.inherited[record as usize] as u64,
            ),
            before,
        ),
        names_children(
            v,
            shown_children(input.tree, input.products, input.ast, record),
            after,
        ),
        before != after,
    ensures
        exists|k: int|
            0 <= k < delta.child_splices@.len() && (#[trigger] delta.child_splices@[k]).parent.0
                == lineage && is_splice(
                delta.child_splices@[k].delta,
                as_ids(before),
                as_ids(after),
            ),
{
    let found = node(lineage, record);
    let changed = changed_nodes(v, live, input.products, input.ast, came);
    lemma_fresh_nodes(v, live, input.products, input.ast, came, found);
    let last = choose|last: Map<u64, u64>|
        #[trigger] last_bearers(v.died, last) && all_say(
            delta.child_splices@,
            splices_after(input, v, live, came, went, last),
        );
    let list = splices_after(input, v, live, came, went, last);
    let old_record = v.inherited[record as usize] as u64;
    lemma_order_ids(
        v,
        shown_children(input.tree, input.products, input.ast, old_record),
        before,
    );
    lemma_order_ids(v, shown_children(input.tree, input.products, input.ast, record), after);
    assert(as_ids(before) != as_ids(after)) by {
        if as_ids(before) == as_ids(after) {
            assert(as_ids(before).len() == as_ids(after).len());
            assert forall|i: int| 0 <= i < before.len() implies before[i] == after[i] by {
                assert(as_ids(before)[i] == as_ids(after)[i]);
            }
            assert(before =~= after);
        }
    }
    let view = changed_splice(input.tree, input.products, input.ast, v, record);
    assert(view is Some);
    lemma_changed_splices(input.tree, input.products, input.ast, v, changed, found);
    let first = changed_splices(input.tree, input.products, input.ast, v, changed);
    let k = first.index_of(view->Some_0);
    assert(list[k] == view->Some_0);
    assert(says(delta.child_splices@[k], list[k]));
}

} // verus!
