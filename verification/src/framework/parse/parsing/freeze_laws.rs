//! What holds of every frozen command: its keys are in order and disjoint, and
//! no parent is spliced twice.

use vstd::prelude::*;

use crate::framework::parse::data::ast::AstArena;
use crate::framework::parse::data::product::ProductView;
use crate::framework::parse::delta::{apart, one_splice_per_parent, LineageRecord, ParseDelta};
use crate::framework::parse::parsing::freeze::{
    all_say, arrival, borne, candidates, changed_nodes, changed_splices, fresh_nodes, frozen,
    ids_of, kept_splices, last_bearers, leaving_nodes, node_keys, parents_of, says, self_bearers,
    spliced_parents, splices_after, Arrival, FreezeInput, TreeKinds,
};
use crate::framework::parse::parsing::lineage::{found, known_lineage, LineageView};
use crate::framework::parse::parsing::lineage_laws::sound;
use crate::sort::{lemma_distinct_sorted, strictly_ascending, Ordered};

verus! {

/// Where the new nodes come from.
proof fn lemma_fresh_members<V>(
    v: LineageView,
    live: Map<u64, ()>,
    products: Seq<ProductView>,
    ast: AstArena<V>,
    records: Seq<u64>,
    i: int,
)
    requires
        0 <= i < fresh_nodes(v, live, products, ast, records).len(),
    ensures
        ({
            let node = fresh_nodes(v, live, products, ast, records)[i];
            &&& records.contains(node.record)
            &&& arrival(v, live, products, ast, node.record) == Arrival::Fresh(node.lineage.0)
        }),
    decreases records.len(),
{
    let rest = records.drop_last();
    let before = fresh_nodes(v, live, products, ast, rest);
    if i < before.len() {
        lemma_fresh_members(v, live, products, ast, rest, i);
        let node = before[i];
        let k = choose|k: int| 0 <= k < rest.len() && rest[k] == node.record;
        assert(records[k] == node.record);
    } else {
        assert(records[records.len() - 1] == records.last());
    }
}

/// Where the changed nodes come from, and that no record gives two.
proof fn lemma_changed_members<V>(
    v: LineageView,
    live: Map<u64, ()>,
    products: Seq<ProductView>,
    ast: AstArena<V>,
    records: Seq<u64>,
)
    requires
        records.no_duplicates(),
    ensures
        forall|i: int|
            0 <= i < changed_nodes(v, live, products, ast, records).len() ==> {
                let node = #[trigger] changed_nodes(v, live, products, ast, records)[i];
                &&& records.contains(node.record)
                &&& arrival(v, live, products, ast, node.record) == Arrival::Changed(node.lineage.0)
            },
        forall|i: int, j: int|
            0 <= i < j < changed_nodes(v, live, products, ast, records).len() ==> (
            #[trigger] changed_nodes(v, live, products, ast, records)[i]).record != (
            #[trigger] changed_nodes(v, live, products, ast, records)[j]).record,
    decreases records.len(),
{
    if records.len() > 0 {
        let rest = records.drop_last();
        let last = records.last();
        let before = changed_nodes(v, live, products, ast, rest);
        let after = changed_nodes(v, live, products, ast, records);
        assert(rest.no_duplicates()) by {
            assert forall|i: int, j: int| 0 <= i < rest.len() && 0 <= j < rest.len() && i
                != j implies rest[i] != rest[j] by {
                assert(records[i] != records[j]);
            }
        }
        lemma_changed_members(v, live, products, ast, rest);
        assert(!rest.contains(last)) by {
            if rest.contains(last) {
                let k = choose|k: int| 0 <= k < rest.len() && rest[k] == last;
                assert(records[k] != records[records.len() - 1]);
            }
        }
        assert forall|i: int| 0 <= i < after.len() implies {
            let node = #[trigger] after[i];
            &&& records.contains(node.record)
            &&& arrival(v, live, products, ast, node.record) == Arrival::Changed(node.lineage.0)
        } by {
            if i < before.len() {
                let node = before[i];
                let k = choose|k: int| 0 <= k < rest.len() && rest[k] == node.record;
                assert(records[k] == node.record);
            } else {
                assert(records[records.len() - 1] == last);
            }
        }
        assert forall|i: int, j: int| 0 <= i < j < after.len() implies (#[trigger] after[i]).record
            != (#[trigger] after[j]).record by {
            if j < before.len() {
                assert(before[i].record != before[j].record);
            } else {
                assert(rest.contains(before[i].record));
            }
        }
    }
}

/// The nodes that leave are borne by nobody.
proof fn lemma_leaving_members(
    committed: Map<u64, u64>,
    v: LineageView,
    carriers: Set<u64>,
    records: Seq<u64>,
    i: int,
)
    requires
        0 <= i < leaving_nodes(committed, v, carriers, records).len(),
    ensures
        !carriers.contains(leaving_nodes(committed, v, carriers, records)[i].lineage.0),
    decreases records.len(),
{
    let before = leaving_nodes(committed, v, carriers, records.drop_last());
    if i < before.len() {
        lemma_leaving_members(committed, v, carriers, records.drop_last(), i);
    }
}

/// Every candidate is the bearer of its identity.
spec fn bears(v: LineageView, item: LineageRecord) -> bool {
    v.holders.dom().contains(item.lineage.0) && v.holders[item.lineage.0] as u64 == item.record
}

proof fn lemma_parents_bear<V>(v: LineageView, ast: AstArena<V>, records: Seq<u64>)
    ensures
        forall|i: int|
            0 <= i < parents_of(v, ast, records).len() ==> bears(
                v,
                #[trigger] parents_of(v, ast, records)[i],
            ),
    decreases records.len(),
{
    if records.len() > 0 {
        let before = parents_of(v, ast, records.drop_last());
        let after = parents_of(v, ast, records);
        lemma_parents_bear(v, ast, records.drop_last());
        assert forall|i: int| 0 <= i < after.len() implies bears(v, #[trigger] after[i]) by {
            if i < before.len() {
                assert(after[i] == before[i]);
            }
        }
    }
}

proof fn lemma_selves_bear(v: LineageView, records: Seq<u64>)
    ensures
        forall|i: int|
            0 <= i < self_bearers(v, records).len() ==> bears(
                v,
                #[trigger] self_bearers(v, records)[i],
            ),
    decreases records.len(),
{
    if records.len() > 0 {
        let before = self_bearers(v, records.drop_last());
        let after = self_bearers(v, records);
        lemma_selves_bear(v, records.drop_last());
        assert forall|i: int| 0 <= i < after.len() implies bears(v, #[trigger] after[i]) by {
            if i < before.len() {
                assert(after[i] == before[i]);
            }
        }
    }
}

/// No two candidates have one identity.
proof fn lemma_candidates_distinct<V>(
    v: LineageView,
    ast: AstArena<V>,
    came: Seq<u64>,
    went: Seq<u64>,
    changed: Seq<LineageRecord>,
)
    ensures
        forall|i: int, j: int|
            0 <= i < j < candidates(v, ast, came, went, changed).len() ==> (
            #[trigger] candidates(v, ast, came, went, changed)[i]).lineage != (
            #[trigger] candidates(v, ast, came, went, changed)[j]).lineage,
{
    let a = parents_of(v, ast, came);
    let b = parents_of(v, ast, went);
    let c = parents_of(v, ast, node_keys(changed));
    let d = self_bearers(v, came);
    let all = a + b + c + d;
    lemma_parents_bear(v, ast, came);
    lemma_parents_bear(v, ast, went);
    lemma_parents_bear(v, ast, node_keys(changed));
    lemma_selves_bear(v, came);
    let list = candidates(v, ast, came, went, changed);
    lemma_distinct_sorted(all);
    assert forall|i: int| 0 <= i < list.len() implies bears(v, #[trigger] list[i]) by {
        assert(list.to_set().contains(list[i]));
        assert(all.to_set().contains(list[i]));
        let k = choose|k: int| 0 <= k < all.len() && all[k] == list[i];
        if k < a.len() {
            assert(a[k] == list[i]);
        } else if k < a.len() + b.len() {
            assert(b[k - a.len()] == list[i]);
        } else if k < a.len() + b.len() + c.len() {
            assert(c[k - a.len() - b.len()] == list[i]);
        } else {
            assert(d[k - a.len() - b.len() - c.len()] == list[i]);
        }
    }
    assert forall|i: int, j: int| 0 <= i < j < list.len() implies (#[trigger] list[i]).lineage != (
    #[trigger] list[j]).lineage by {
        assert(bears(v, list[i]) && bears(v, list[j]));
        assert(list[i] != list[j]);
    }
}

/// The splices of changed nodes are for those nodes.
proof fn lemma_changed_splice_parents<V, T: TreeKinds<V>>(
    tree: T,
    products: Seq<ProductView>,
    ast: AstArena<V>,
    v: LineageView,
    nodes: Seq<LineageRecord>,
)
    requires
        forall|i: int, j: int|
            0 <= i < j < nodes.len() ==> known_lineage(v, (#[trigger] nodes[i]).record as usize)
                != known_lineage(v, (#[trigger] nodes[j]).record as usize) || known_lineage(
                v,
                nodes[i].record as usize,
            ) is None,
    ensures
        forall|i: int|
            0 <= i < changed_splices(tree, products, ast, v, nodes).len() ==> exists|k: int|
                0 <= k < nodes.len() && known_lineage(v, (#[trigger] nodes[k]).record as usize)
                    == Some((#[trigger] changed_splices(tree, products, ast, v, nodes)[i]).parent),
        forall|i: int, j: int|
            0 <= i < j < changed_splices(tree, products, ast, v, nodes).len() ==> (
            #[trigger] changed_splices(tree, products, ast, v, nodes)[i]).parent != (
            #[trigger] changed_splices(tree, products, ast, v, nodes)[j]).parent,
    decreases nodes.len(),
{
    if nodes.len() > 0 {
        let rest = nodes.drop_last();
        let last = nodes.last();
        let before = changed_splices(tree, products, ast, v, rest);
        let after = changed_splices(tree, products, ast, v, nodes);
        assert forall|i: int, j: int| 0 <= i < j < rest.len() implies known_lineage(
            v,
            (#[trigger] rest[i]).record as usize,
        ) != known_lineage(v, (#[trigger] rest[j]).record as usize) || known_lineage(
            v,
            rest[i].record as usize,
        ) is None by {
            assert(nodes[i] == rest[i] && nodes[j] == rest[j]);
        }
        lemma_changed_splice_parents(tree, products, ast, v, rest);
        assert forall|i: int| 0 <= i < after.len() implies exists|k: int|
            0 <= k < nodes.len() && known_lineage(v, (#[trigger] nodes[k]).record as usize) == Some(
                (#[trigger] after[i]).parent,
            ) by {
            if i < before.len() {
                let k = choose|k: int|
                    0 <= k < rest.len() && known_lineage(v, (#[trigger] rest[k]).record as usize)
                        == Some(before[i].parent);
                assert(nodes[k] == rest[k]);
            } else {
                assert(nodes[nodes.len() - 1] == last);
            }
        }
        assert forall|i: int, j: int| 0 <= i < j < after.len() implies (#[trigger] after[i]).parent
            != (#[trigger] after[j]).parent by {
            if j < before.len() {
                assert(before[i].parent != before[j].parent);
            } else {
                let k = choose|k: int|
                    0 <= k < rest.len() && known_lineage(v, (#[trigger] rest[k]).record as usize)
                        == Some(before[i].parent);
                assert(nodes[k] == rest[k]);
                assert(nodes[nodes.len() - 1] == last);
            }
        }
    }
}

/// The splices of kept parents are for candidates that are not spliced yet.
proof fn lemma_kept_splice_parents<V, T: TreeKinds<V>>(
    tree: T,
    products: Seq<ProductView>,
    ast: AstArena<V>,
    v: LineageView,
    last_of: Map<u64, u64>,
    orders: Map<u64, Seq<u64>>,
    spliced: Set<u64>,
    parents: Seq<LineageRecord>,
)
    requires
        forall|i: int, j: int|
            0 <= i < j < parents.len() ==> (#[trigger] parents[i]).lineage != (
            #[trigger] parents[j]).lineage,
    ensures
        forall|i: int|
            0 <= i < kept_splices(tree, products, ast, v, last_of, orders, spliced, parents).len()
                ==> {
                let parent = (#[trigger] kept_splices(
                    tree,
                    products,
                    ast,
                    v,
                    last_of,
                    orders,
                    spliced,
                    parents,
                )[i]).parent;
                &&& !spliced.contains(parent)
                &&& exists|k: int|
                    0 <= k < parents.len() && (#[trigger] parents[k]).lineage.0 == parent
            },
        forall|i: int, j: int|
            0 <= i < j < kept_splices(
                tree,
                products,
                ast,
                v,
                last_of,
                orders,
                spliced,
                parents,
            ).len() ==> (#[trigger] kept_splices(
                tree,
                products,
                ast,
                v,
                last_of,
                orders,
                spliced,
                parents,
            )[i]).parent != (#[trigger] kept_splices(
                tree,
                products,
                ast,
                v,
                last_of,
                orders,
                spliced,
                parents,
            )[j]).parent,
    decreases parents.len(),
{
    if parents.len() > 0 {
        let rest = parents.drop_last();
        let last = parents.last();
        let before = kept_splices(tree, products, ast, v, last_of, orders, spliced, rest);
        let after = kept_splices(tree, products, ast, v, last_of, orders, spliced, parents);
        assert forall|i: int, j: int| 0 <= i < j < rest.len() implies (#[trigger] rest[i]).lineage
            != (#[trigger] rest[j]).lineage by {
            assert(parents[i] == rest[i] && parents[j] == rest[j]);
        }
        lemma_kept_splice_parents(tree, products, ast, v, last_of, orders, spliced, rest);
        assert forall|i: int| 0 <= i < after.len() implies {
            let parent = (#[trigger] after[i]).parent;
            &&& !spliced.contains(parent)
            &&& exists|k: int| 0 <= k < parents.len() && (#[trigger] parents[k]).lineage.0 == parent
        } by {
            if i < before.len() {
                let k = choose|k: int|
                    0 <= k < rest.len() && (#[trigger] rest[k]).lineage.0 == before[i].parent;
                assert(parents[k] == rest[k]);
            } else {
                assert(parents[parents.len() - 1] == last);
            }
        }
        assert forall|i: int, j: int| 0 <= i < j < after.len() implies (#[trigger] after[i]).parent
            != (#[trigger] after[j]).parent by {
            if j < before.len() {
                assert(before[i].parent != before[j].parent);
            } else {
                let k = choose|k: int|
                    0 <= k < rest.len() && (#[trigger] rest[k]).lineage.0 == before[i].parent;
                assert(parents[k] == rest[k]);
                assert(parents[parents.len() - 1] == last);
            }
        }
    }
}

/// A frozen command is valid: its keys are ascending and disjoint, and no
/// parent is spliced twice.
pub proof fn lemma_frozen_valid<V, T: TreeKinds<V>>(
    delta: ParseDelta,
    input: FreezeInput<V, T>,
    v: LineageView,
    live: Map<u64, ()>,
    came: Seq<u64>,
    went: Seq<u64>,
)
    requires
        frozen(delta, input, v, live, came, went),
        sound(v, live),
        strictly_ascending(came),
        strictly_ascending(went),
        apart(came, went),
        forall|i: int| 0 <= i < came.len() ==> #[trigger] came[i] <= usize::MAX,
    ensures
        delta.valid(),
{
    let fresh = fresh_nodes(v, live, input.products, input.ast, came);
    let changed = changed_nodes(v, live, input.products, input.ast, came);
    let left = leaving_nodes(input.committed, v, borne(v, came), went);
    let a = delta.syntax_payloads.inserted@;
    let b = delta.syntax_payloads.updated@;
    let c = delta.syntax_payloads.removed@;
    lemma_distinct_sorted(ids_of(fresh));
    lemma_distinct_sorted(ids_of(changed));
    lemma_distinct_sorted(ids_of(left));
    assert(came.no_duplicates());
    lemma_changed_members(v, live, input.products, input.ast, came);
    assert forall|i: int| 0 <= i < a.len() implies exists|k: int|
        0 <= k < fresh.len() && (#[trigger] fresh[k]).lineage == #[trigger] a[i] by {
        assert(a.to_set().contains(a[i]));
        assert(ids_of(fresh).to_set().contains(a[i]));
        let k = choose|k: int| 0 <= k < ids_of(fresh).len() && ids_of(fresh)[k] == a[i];
        assert(fresh[k].lineage == a[i]);
    }
    assert forall|i: int| 0 <= i < b.len() implies exists|k: int|
        0 <= k < changed.len() && (#[trigger] changed[k]).lineage == #[trigger] b[i] by {
        assert(b.to_set().contains(b[i]));
        assert(ids_of(changed).to_set().contains(b[i]));
        let k = choose|k: int| 0 <= k < ids_of(changed).len() && ids_of(changed)[k] == b[i];
        assert(changed[k].lineage == b[i]);
    }
    assert forall|i: int| 0 <= i < c.len() implies !borne(v, came).contains(
        (#[trigger] c[i]).0,
    ) by {
        assert(c.to_set().contains(c[i]));
        assert(ids_of(left).to_set().contains(c[i]));
        let k = choose|k: int| 0 <= k < ids_of(left).len() && ids_of(left)[k] == c[i];
        lemma_leaving_members(input.committed, v, borne(v, came), went, k);
        assert(left[k].lineage == c[i]);
    }
    assert forall|i: int| 0 <= i < a.len() implies borne(v, came).contains((#[trigger] a[i]).0) by {
        let k = choose|k: int| 0 <= k < fresh.len() && (#[trigger] fresh[k]).lineage == a[i];
        lemma_fresh_members(v, live, input.products, input.ast, came, k);
        let m = choose|m: int| 0 <= m < came.len() && came[m] == fresh[k].record;
        assert(found(v.lineages, came[m] as usize) == Some(a[i].0));
    }
    assert forall|i: int| 0 <= i < b.len() implies borne(v, came).contains((#[trigger] b[i]).0) by {
        let k = choose|k: int| 0 <= k < changed.len() && (#[trigger] changed[k]).lineage == b[i];
        let m = choose|m: int| 0 <= m < came.len() && came[m] == changed[k].record;
        assert(found(v.lineages, came[m] as usize) == Some(b[i].0));
    }
    assert(apart(a, b)) by {
        assert forall|i: int, j: int| 0 <= i < a.len() && 0 <= j < b.len() implies #[trigger] a[i]
            != #[trigger] b[j] by {
            let k = choose|k: int| 0 <= k < fresh.len() && (#[trigger] fresh[k]).lineage == a[i];
            let m = choose|m: int| 0 <= m < changed.len() && (#[trigger] changed[m]).lineage == b[j];
            lemma_fresh_members(v, live, input.products, input.ast, came, k);
            if a[i] == b[j] {
                let x = choose|x: int| 0 <= x < came.len() && came[x] == fresh[k].record;
                let y = choose|y: int| 0 <= y < came.len() && came[y] == changed[m].record;
                assert(came[x] <= usize::MAX && came[y] <= usize::MAX);
                let one = fresh[k].record as usize;
                let two = changed[m].record as usize;
                assert(v.holders[v.lineages[one]] == one);
                assert(v.holders[v.lineages[two]] == two);
            }
        }
    }
    assert(delta.syntax_payloads.sorted_disjoint());
    assert(delta.ast_records.sorted_disjoint());
    assert forall|i: int, j: int| 0 <= i < j < changed.len() implies known_lineage(
        v,
        (#[trigger] changed[i]).record as usize,
    ) != known_lineage(v, (#[trigger] changed[j]).record as usize) || known_lineage(
        v,
        changed[i].record as usize,
    ) is None by {
        let one = changed[i].record;
        let two = changed[j].record;
        assert(came.contains(one) && came.contains(two));
        let x = choose|x: int| 0 <= x < came.len() && came[x] == one;
        let y = choose|y: int| 0 <= y < came.len() && came[y] == two;
        assert(came[x] <= usize::MAX && came[y] <= usize::MAX);
        assert(one != two);
        assert(v.holders[v.lineages[one as usize]] == one as usize);
        assert(v.holders[v.lineages[two as usize]] == two as usize);
    }
    lemma_changed_splice_parents(input.tree, input.products, input.ast, v, changed);
    lemma_candidates_distinct(v, input.ast, came, went, changed);
    let last_of = choose|last_of: Map<u64, u64>|
        #[trigger] last_bearers(v.died, last_of) && all_say(
            delta.child_splices@,
            splices_after(input, v, live, came, went, last_of),
        );
    let first = changed_splices(input.tree, input.products, input.ast, v, changed);
    let parents = candidates(v, input.ast, came, went, changed);
    lemma_kept_splice_parents(
        input.tree,
        input.products,
        input.ast,
        v,
        last_of,
        input.orders,
        spliced_parents(first),
        parents,
    );
    let second = kept_splices(
        input.tree,
        input.products,
        input.ast,
        v,
        last_of,
        input.orders,
        spliced_parents(first),
        parents,
    );
    let all = first + second;
    let splices = delta.child_splices@;
    assert forall|i: int, j: int| 0 <= i < j < splices.len() implies (#[trigger] splices[i]).parent
        != (#[trigger] splices[j]).parent by {
        assert(says(splices[i], all[i]) && says(splices[j], all[j]));
        if j < first.len() {
            assert(all[i] == first[i] && all[j] == first[j]);
        } else if i >= first.len() {
            assert(all[i] == second[i - first.len()] && all[j] == second[j - first.len()]);
        } else {
            assert(all[i] == first[i] && all[j] == second[j - first.len()]);
            assert(spliced_parents(first).contains(first[i].parent));
        }
    }
    assert(one_splice_per_parent(splices));
}

} // verus!
