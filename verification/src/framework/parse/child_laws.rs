//! What is published of the children of nodes.

use vstd::prelude::*;

use crate::framework::parse::component::{
    child_place, children_for, lineages_agree, orders_published, parent_above, retracted,
    spliced_in, splice_end, splice_start, with_changed_nodes, with_child_splice, with_child_splices, with_new_node,
    with_new_nodes, without_nodes, OrderView, PublishInput, PublishedChild, PublishedNode,
    SyntaxFamily,
};
use crate::framework::parse::delta::{
    is_splice, lemma_shared_ends, lemma_splice_rebuilds, shared_ends, ChildSplice, LineageRecord,
    ParseDelta, RemovedRecord, SyntaxNodeId,
};
use crate::framework::parse::stages::{nodes_among, RecordNode};

verus! {

/// The first place of a child with an identity.
pub open spec fn first_with(children: Seq<PublishedChild>, lineage: u64, at: int) -> bool {
    &&& 0 <= at < children.len()
    &&& children[at].lineage == lineage
    &&& forall|k: int| 0 <= k < at ==> (#[trigger] children[k]).lineage != lineage
}

/// What a record is published as: it is of a kind, and bears an identity now,
/// bore one, or is given one by the command.
pub open spec fn published_as_child<V, F: SyntaxFamily<V>>(
    input: PublishInput<V, F>,
    record: u64,
    node: PublishedNode,
) -> bool {
    let v = input.lineage;
    &&& input.family.member_spec(input.ast, record) == Some(node.member)
    &&& !node.root
    &&& if v.lineages.dom().contains(record as usize) {
        node.lineage == v.lineages[record as usize]
    } else if v.died.dom().contains(record) {
        node.lineage == v.died[record]
    } else {
        input.changed.dom().contains(record) && node.lineage == input.changed[record]
    }
}

proof fn lemma_first_place(children: Seq<PublishedChild>, lineage: u64, at: int)
    requires
        first_with(children, lineage, at),
    ensures
        child_place(children, lineage) == Some(at),
    decreases children.len(),
{
    let rest = children.drop_last();
    if at < rest.len() {
        assert(rest[at] == children[at]);
        assert forall|k: int| 0 <= k < at implies (#[trigger] rest[k]).lineage != lineage by {
            assert(rest[k] == children[k]);
        }
        lemma_first_place(rest, lineage, at);
    } else {
        assert forall|k: int| 0 <= k < rest.len() implies (#[trigger] rest[k]).lineage
            != lineage by {
            assert(rest[k] == children[k]);
        }
        lemma_no_place(rest, lineage);
    }
}

proof fn lemma_no_place(children: Seq<PublishedChild>, lineage: u64)
    requires
        forall|k: int| 0 <= k < children.len() ==> (#[trigger] children[k]).lineage != lineage,
    ensures
        child_place(children, lineage) is None,
    decreases children.len(),
{
    if children.len() > 0 {
        let rest = children.drop_last();
        assert forall|k: int| 0 <= k < rest.len() implies (#[trigger] rest[k]).lineage
            != lineage by {
            assert(rest[k] == children[k]);
        }
        assert(children[children.len() - 1].lineage != lineage);
        lemma_no_place(rest, lineage);
    }
}

proof fn lemma_spliced_in<V, F: SyntaxFamily<V>>(
    input: PublishInput<V, F>,
    list: Seq<LineageRecord>,
    nodes: Seq<PublishedNode>,
)
    requires
        nodes.len() == list.len(),
        forall|i: int|
            0 <= i < list.len() ==> published_as_child(
                input,
                (#[trigger] list[i]).record,
                nodes[i],
            ),
    ensures
        spliced_in(input, list) == Some(
            Seq::new(
                list.len(),
                |i: int| PublishedChild { lineage: list[i].lineage.0, node: nodes[i] },
            ),
        ),
    decreases list.len(),
{
    let all = Seq::new(
        list.len(),
        |i: int| PublishedChild { lineage: list[i].lineage.0, node: nodes[i] },
    );
    if list.len() == 0 {
        assert(all =~= Seq::<PublishedChild>::empty());
    } else {
        let rest = list.drop_last();
        let front = nodes.drop_last();
        assert forall|i: int| 0 <= i < rest.len() implies published_as_child(
            input,
            (#[trigger] rest[i]).record,
            front[i],
        ) by {
            assert(rest[i] == list[i]);
        }
        lemma_spliced_in(input, rest, front);
        let before = Seq::new(
            rest.len(),
            |i: int| PublishedChild { lineage: rest[i].lineage.0, node: front[i] },
        );
        let last = list.len() - 1;
        assert(published_as_child(input, list[last].record, nodes[last]));
        assert(before.push(
            PublishedChild { lineage: list.last().lineage.0, node: nodes.last() },
        ) =~= all);
    }
}

/// A splice keeps what it does not name: the children before its start and from
/// its end on stay, all of them and in order, and between them stand the children
/// that came, as they are published. So there are as many as before, without the
/// ones that went and with the ones that came. No other node is touched.
pub proof fn lemma_splice_keeps_the_rest<V, F: SyntaxFamily<V>>(
    orders: Map<u64, OrderView>,
    previous: Map<u64, OrderView>,
    input: PublishInput<V, F>,
    splice: ChildSplice,
    start: int,
    end: int,
    nodes: Seq<PublishedNode>,
)
    requires
        previous.dom().contains(splice.parent.0),
        match splice.delta.before {
            Some(id) => first_with(previous[splice.parent.0].children, id.0, start - 1),
            None => start == 0,
        },
        match splice.delta.after {
            Some(id) => first_with(previous[splice.parent.0].children, id.0, end),
            None => end == previous[splice.parent.0].children.len(),
        },
        start <= end,
        nodes.len() == splice.inserted_children@.len(),
        forall|i: int|
            0 <= i < nodes.len() ==> published_as_child(
                input,
                (#[trigger] splice.inserted_children@[i]).record,
                nodes[i],
            ),
        splice.delta.inserted@.len() == nodes.len(),
        forall|i: int|
            0 <= i < nodes.len() ==> (#[trigger] splice.inserted_children@[i]).lineage
                == splice.delta.inserted@[i],
    ensures
        ({
            let old = previous[splice.parent.0].children;
            let after = with_child_splice(orders, previous, input, splice);
            let new = after[splice.parent.0].children;
            let came = nodes.len() as int;
            &&& after.dom() == orders.dom().insert(splice.parent.0)
            &&& new.len() == old.len() - (end - start) + came
            &&& forall|i: int| 0 <= i < start ==> #[trigger] new[i] == old[i]
            &&& forall|i: int|
                0 <= i < came ==> #[trigger] new[start + i] == (PublishedChild {
                    lineage: splice.delta.inserted@[i].0,
                    node: nodes[i],
                })
            &&& forall|i: int|
                end <= i < old.len() ==> #[trigger] old[i] == new[i - end + start + came]
            &&& forall|other: u64|
                other != splice.parent.0 && orders.dom().contains(other) ==> #[trigger] after[other]
                    == orders[other]
        }),
{
    let old = previous[splice.parent.0].children;
    if let Some(id) = splice.delta.before {
        lemma_first_place(old, id.0, start - 1);
    }
    if let Some(id) = splice.delta.after {
        lemma_first_place(old, id.0, end);
    }
    lemma_spliced_in(input, splice.inserted_children@, nodes);
    let inserted = Seq::new(
        nodes.len(),
        |i: int|
            PublishedChild { lineage: splice.inserted_children@[i].lineage.0, node: nodes[i] },
    );
    assert(spliced_in(input, splice.inserted_children@) == Some(inserted));
    assert forall|i: int| 0 <= i < inserted.len() implies (#[trigger] inserted[i]).lineage
        == splice.delta.inserted@[i].0 by {
        assert(splice.inserted_children@[i].lineage == splice.delta.inserted@[i]);
    }
    assert(lineages_agree(inserted, splice.delta.inserted@));
    assert(splice_start(old, splice.delta.before) == Some(start));
    assert(splice_end(old, splice.delta.after) == Some(end));
    let after = with_child_splice(orders, previous, input, splice);
    let new = after[splice.parent.0].children;
    assert(new == old.take(start) + inserted + old.skip(end));
    assert(after.dom() =~= orders.dom().insert(splice.parent.0));
    assert forall|i: int| 0 <= i < nodes.len() implies #[trigger] new[start + i] == (
    PublishedChild { lineage: splice.delta.inserted@[i].0, node: nodes[i] }) by {
        assert(new[start + i] == inserted[i]);
    }
    assert forall|i: int| end <= i < old.len() implies #[trigger] old[i] == new[i - end + start
        + nodes.len()] by {
        assert(old.skip(end)[i - end] == old[i]);
    }
}

/// A splice that leads from the children that are published of a node to others
/// publishes those others: the shortest splice between two lists of distinct
/// identities, put to the children with the identities of the first, gives
/// children with the identities of the second.
pub proof fn lemma_splice_publishes_the_new_children<V, F: SyntaxFamily<V>>(
    orders: Map<u64, OrderView>,
    previous: Map<u64, OrderView>,
    input: PublishInput<V, F>,
    splice: ChildSplice,
    old: Seq<SyntaxNodeId>,
    new: Seq<SyntaxNodeId>,
    nodes: Seq<PublishedNode>,
)
    requires
        is_splice(splice.delta, old, new),
        old.no_duplicates(),
        previous.dom().contains(splice.parent.0),
        previous[splice.parent.0].children.len() == old.len(),
        forall|i: int|
            0 <= i < old.len() ==> (#[trigger] previous[splice.parent.0].children[i]).lineage
                == old[i].0,
        nodes.len() == splice.inserted_children@.len(),
        forall|i: int|
            0 <= i < nodes.len() ==> published_as_child(
                input,
                (#[trigger] splice.inserted_children@[i]).record,
                nodes[i],
            ),
        splice.delta.inserted@.len() == nodes.len(),
        forall|i: int|
            0 <= i < nodes.len() ==> (#[trigger] splice.inserted_children@[i]).lineage
                == splice.delta.inserted@[i],
    ensures
        ({
            let after = with_child_splice(orders, previous, input, splice);
            let children = after[splice.parent.0].children;
            &&& after.dom().contains(splice.parent.0)
            &&& children.len() == new.len()
            &&& forall|i: int|
                0 <= i < new.len() ==> (#[trigger] children[i]).lineage == new[i].0
        }),
{
    let (prefix, suffix) = shared_ends(old, new);
    lemma_shared_ends(old, new);
    lemma_splice_rebuilds(splice.delta, old, new);
    let held = previous[splice.parent.0].children;
    let start = prefix as int;
    let end = old.len() - suffix;
    assert(start <= end);
    if prefix > 0 {
        let id = new[start - 1];
        assert(new.take(start)[start - 1] == old.take(start)[start - 1]);
        assert(held[start - 1].lineage == id.0);
        assert forall|k: int| 0 <= k < start - 1 implies (#[trigger] held[k]).lineage != id.0 by {
            assert(old[k] != old[start - 1]);
        }
        assert(first_with(held, id.0, start - 1));
    }
    if suffix > 0 {
        let id = new[new.len() - suffix];
        assert(new.skip(new.len() - suffix)[0] == old.skip(end)[0]);
        assert(held[end].lineage == id.0);
        assert forall|k: int| 0 <= k < end implies (#[trigger] held[k]).lineage != id.0 by {
            assert(old[k] != old[end]);
        }
        assert(first_with(held, id.0, end));
    }
    lemma_splice_keeps_the_rest(orders, previous, input, splice, start, end, nodes);
    let after = with_child_splice(orders, previous, input, splice);
    let children = after[splice.parent.0].children;
    let came = nodes.len() as int;
    let rebuilt = old.take(start) + splice.delta.inserted@ + old.skip(end);
    assert(rebuilt == new);
    assert forall|i: int| 0 <= i < new.len() implies (#[trigger] children[i]).lineage
        == new[i].0 by {
        if i < start {
            assert(children[i] == held[i]);
            assert(new[i] == old[i]);
        } else if i < start + came {
            assert(children[start + (i - start)].lineage == splice.delta.inserted@[i - start].0);
            assert(new[i] == splice.delta.inserted@[i - start]);
        } else {
            let k = i - start - came + end;
            assert(held[k] == children[k - end + start + came]);
            assert(new[i] == old[k]);
        }
    }
}

// ---------------------------------------------------------------------------
// A whole command

proof fn lemma_splices_elsewhere<V, F: SyntaxFamily<V>>(
    orders: Map<u64, OrderView>,
    previous: Map<u64, OrderView>,
    input: PublishInput<V, F>,
    list: Seq<ChildSplice>,
    parent: u64,
)
    requires
        forall|k: int| 0 <= k < list.len() ==> (#[trigger] list[k]).parent.0 != parent,
    ensures
        ({
            let after = with_child_splices(orders, previous, input, list);
            &&& after.dom().contains(parent) == orders.dom().contains(parent)
            &&& orders.dom().contains(parent) ==> after[parent] == orders[parent]
        }),
    decreases list.len(),
{
    if list.len() > 0 {
        let rest = list.drop_last();
        assert forall|k: int| 0 <= k < rest.len() implies (#[trigger] rest[k]).parent.0
            != parent by {
            assert(rest[k] == list[k]);
        }
        assert(list[list.len() - 1].parent.0 != parent);
        lemma_splices_elsewhere(orders, previous, input, rest, parent);
    }
}

proof fn lemma_changes_keep_children<V, F: SyntaxFamily<V>>(
    orders: Map<u64, OrderView>,
    input: PublishInput<V, F>,
    list: Seq<LineageRecord>,
    parent: u64,
)
    ensures
        ({
            let after = with_changed_nodes(orders, input, list);
            let named = exists|k: int|
                0 <= k < list.len() && (#[trigger] list[k]).lineage.0 == parent;
            &&& after.dom().contains(parent) == orders.dom().contains(parent)
            &&& orders.dom().contains(parent) ==> after[parent].children == orders[parent].children
            &&& orders.dom().contains(parent) && !named ==> after[parent] == orders[parent]
        }),
    decreases list.len(),
{
    if list.len() > 0 {
        let rest = list.drop_last();
        lemma_changes_keep_children(orders, input, rest, parent);
        if exists|k: int| 0 <= k < rest.len() && (#[trigger] rest[k]).lineage.0 == parent {
            let k = choose|k: int|
                0 <= k < rest.len() && (#[trigger] rest[k]).lineage.0 == parent;
            assert(list[k].lineage.0 == parent);
        }
        if list.last().lineage.0 == parent {
            assert(list[list.len() - 1].lineage.0 == parent);
        }
    }
}

proof fn lemma_news_elsewhere<V, F: SyntaxFamily<V>>(
    orders: Map<u64, OrderView>,
    input: PublishInput<V, F>,
    list: Seq<LineageRecord>,
    parent: u64,
)
    requires
        forall|k: int| 0 <= k < list.len() ==> (#[trigger] list[k]).lineage.0 != parent,
    ensures
        ({
            let after = with_new_nodes(orders, input, list);
            &&& after.dom().contains(parent) == orders.dom().contains(parent)
            &&& orders.dom().contains(parent) ==> after[parent] == orders[parent]
        }),
    decreases list.len(),
{
    if list.len() > 0 {
        let rest = list.drop_last();
        assert forall|k: int| 0 <= k < rest.len() implies (#[trigger] rest[k]).lineage.0
            != parent by {
            assert(rest[k] == list[k]);
        }
        assert(list[list.len() - 1].lineage.0 != parent);
        lemma_news_elsewhere(orders, input, rest, parent);
    }
}

proof fn lemma_removals(orders: Map<u64, OrderView>, list: Seq<RemovedRecord>, parent: u64)
    ensures
        ({
            let after = without_nodes(orders, list);
            let gone = exists|k: int| 0 <= k < list.len() && (#[trigger] list[k]).lineage.0 == parent;
            &&& after.dom().contains(parent) == (orders.dom().contains(parent) && !gone)
            &&& after.dom().contains(parent) ==> after[parent] == orders[parent]
        }),
    decreases list.len(),
{
    if list.len() > 0 {
        let rest = list.drop_last();
        lemma_removals(orders, rest, parent);
        let gone = exists|k: int| 0 <= k < list.len() && (#[trigger] list[k]).lineage.0 == parent;
        let gone_before = exists|k: int|
            0 <= k < rest.len() && (#[trigger] rest[k]).lineage.0 == parent;
        if gone_before {
            let k = choose|k: int|
                0 <= k < rest.len() && (#[trigger] rest[k]).lineage.0 == parent;
            assert(list[k].lineage.0 == parent);
        }
        if gone {
            let k = choose|k: int|
                0 <= k < list.len() && (#[trigger] list[k]).lineage.0 == parent;
            if k < rest.len() {
                assert(rest[k].lineage.0 == parent);
            }
        }
        if list.last().lineage.0 == parent {
            assert(list[list.len() - 1].lineage.0 == parent);
        }
    }
}

/// A node that a command neither brings nor takes away nor splices keeps its
/// published children, whatever else it says of it.
pub proof fn lemma_untouched_children_stay<V, F: SyntaxFamily<V>>(
    previous: Map<u64, OrderView>,
    input: PublishInput<V, F>,
    delta: ParseDelta,
    parent: u64,
)
    requires
        previous.dom().contains(parent),
        forall|k: int|
            0 <= k < delta.removed_records@.len() ==> (#[trigger] delta.removed_records@[k]).lineage.0
                != parent,
        forall|k: int|
            0 <= k < delta.inserted_records@.len() ==> (
            #[trigger] delta.inserted_records@[k]).lineage.0 != parent,
        forall|k: int|
            0 <= k < delta.child_splices@.len() ==> (#[trigger] delta.child_splices@[k]).parent.0
                != parent,
    ensures
        ({
            let after = orders_published(previous, input, delta);
            &&& after.dom().contains(parent)
            &&& after[parent].children == previous[parent].children
        }),
{
    let kept = without_nodes(previous, delta.removed_records@);
    let fresh = with_new_nodes(kept, input, delta.inserted_records@);
    let renewed = with_changed_nodes(fresh, input, delta.updated_records@);
    lemma_removals(previous, delta.removed_records@, parent);
    lemma_news_elsewhere(kept, input, delta.inserted_records@, parent);
    lemma_changes_keep_children(fresh, input, delta.updated_records@, parent);
    lemma_splices_elsewhere(renewed, previous, input, delta.child_splices@, parent);
}

/// A node that a command takes away is published no more.
pub proof fn lemma_removed_node_is_gone<V, F: SyntaxFamily<V>>(
    previous: Map<u64, OrderView>,
    input: PublishInput<V, F>,
    delta: ParseDelta,
    at: int,
)
    requires
        0 <= at < delta.removed_records@.len(),
        ({
            let parent = delta.removed_records@[at].lineage.0;
            &&& forall|k: int|
                0 <= k < delta.inserted_records@.len() ==> (
                #[trigger] delta.inserted_records@[k]).lineage.0 != parent
            &&& forall|k: int|
                0 <= k < delta.child_splices@.len() ==> (
                #[trigger] delta.child_splices@[k]).parent.0 != parent
        }),
    ensures
        !orders_published(previous, input, delta).dom().contains(
            delta.removed_records@[at].lineage.0,
        ),
{
    let parent = delta.removed_records@[at].lineage.0;
    let kept = without_nodes(previous, delta.removed_records@);
    let fresh = with_new_nodes(kept, input, delta.inserted_records@);
    let renewed = with_changed_nodes(fresh, input, delta.updated_records@);
    lemma_removals(previous, delta.removed_records@, parent);
    lemma_news_elsewhere(kept, input, delta.inserted_records@, parent);
    lemma_changes_keep_children(fresh, input, delta.updated_records@, parent);
    lemma_splices_elsewhere(renewed, previous, input, delta.child_splices@, parent);
}

/// A node that a command splices has the children that the splice leads to:
/// those before its start, those that came, and those from its end on.
pub proof fn lemma_spliced_children_are_published<V, F: SyntaxFamily<V>>(
    previous: Map<u64, OrderView>,
    input: PublishInput<V, F>,
    delta: ParseDelta,
    at: int,
    old: Seq<SyntaxNodeId>,
    new: Seq<SyntaxNodeId>,
    nodes: Seq<PublishedNode>,
)
    requires
        0 <= at < delta.child_splices@.len(),
        forall|k: int|
            at < k < delta.child_splices@.len() ==> (#[trigger] delta.child_splices@[k]).parent
                != delta.child_splices@[at].parent,
        ({
            let splice = delta.child_splices@[at];
            &&& is_splice(splice.delta, old, new)
            &&& old.no_duplicates()
            &&& previous.dom().contains(splice.parent.0)
            &&& previous[splice.parent.0].children.len() == old.len()
            &&& forall|i: int|
                0 <= i < old.len() ==> (#[trigger] previous[splice.parent.0].children[i]).lineage
                    == old[i].0
            &&& nodes.len() == splice.inserted_children@.len()
            &&& forall|i: int|
                0 <= i < nodes.len() ==> published_as_child(
                    input,
                    (#[trigger] splice.inserted_children@[i]).record,
                    nodes[i],
                )
            &&& splice.delta.inserted@.len() == nodes.len()
            &&& forall|i: int|
                0 <= i < nodes.len() ==> (#[trigger] splice.inserted_children@[i]).lineage
                    == splice.delta.inserted@[i]
        }),
    ensures
        ({
            let after = orders_published(previous, input, delta);
            let parent = delta.child_splices@[at].parent.0;
            let children = after[parent].children;
            &&& after.dom().contains(parent)
            &&& children.len() == new.len()
            &&& forall|i: int|
                0 <= i < new.len() ==> (#[trigger] children[i]).lineage == new[i].0
        }),
{
    let kept = without_nodes(previous, delta.removed_records@);
    let fresh = with_new_nodes(kept, input, delta.inserted_records@);
    let renewed = with_changed_nodes(fresh, input, delta.updated_records@);
    let list = delta.child_splices@;
    lemma_last_splice_counts(renewed, previous, input, list, at);
    let before = with_child_splices(renewed, previous, input, list.take(at));
    lemma_splice_publishes_the_new_children(before, previous, input, list[at], old, new, nodes);
}

/// What comes behind the last splice of a node leaves it as that splice did.
proof fn lemma_last_splice_counts<V, F: SyntaxFamily<V>>(
    orders: Map<u64, OrderView>,
    previous: Map<u64, OrderView>,
    input: PublishInput<V, F>,
    list: Seq<ChildSplice>,
    at: int,
)
    requires
        0 <= at < list.len(),
        forall|k: int| at < k < list.len() ==> (#[trigger] list[k]).parent != list[at].parent,
    ensures
        ({
            let parent = list[at].parent.0;
            let before = with_child_splices(orders, previous, input, list.take(at));
            let then = with_child_splice(before, previous, input, list[at]);
            let after = with_child_splices(orders, previous, input, list);
            &&& after.dom().contains(parent) == then.dom().contains(parent)
            &&& then.dom().contains(parent) ==> after[parent] == then[parent]
        }),
    decreases list.len(),
{
    let rest = list.drop_last();
    if at == list.len() - 1 {
        assert(list.take(at) =~= rest);
    } else {
        assert(list[list.len() - 1].parent != list[at].parent);
        assert(rest[at] == list[at]);
        assert(rest.take(at) =~= list.take(at));
        assert forall|k: int| at < k < rest.len() implies (#[trigger] rest[k]).parent
            != rest[at].parent by {
            assert(rest[k] == list[k]);
        }
        lemma_last_splice_counts(orders, previous, input, rest, at);
    }
}

/// A node that a command brings is published as what it is, with its children,
/// each as it is published, in the order of their records.
pub proof fn lemma_new_node_has_its_children<V, F: SyntaxFamily<V>>(
    previous: Map<u64, OrderView>,
    input: PublishInput<V, F>,
    delta: ParseDelta,
    at: int,
    node: PublishedNode,
    nodes: Seq<PublishedNode>,
)
    requires
        0 <= at < delta.inserted_records@.len(),
        ({
            let found = delta.inserted_records@[at];
            let records = input.family.children_spec(input.ast, found.record);
            &&& forall|k: int|
                at < k < delta.inserted_records@.len() ==> (
                #[trigger] delta.inserted_records@[k]).lineage != found.lineage
            &&& forall|k: int|
                0 <= k < delta.child_splices@.len() ==> (
                #[trigger] delta.child_splices@[k]).parent != found.lineage
            &&& if input.root == Some(found.record) {
                &&& input.family.member_spec(input.ast, found.record) == Some(node.member)
                &&& node.root
                &&& node.lineage == 0
            } else {
                published_as_child(input, found.record, node)
            }
            &&& forall|k: int|
                0 <= k < delta.updated_records@.len() ==> (
                #[trigger] delta.updated_records@[k]).lineage != found.lineage
            &&& nodes.len() == records.len()
            &&& forall|i: int|
                0 <= i < records.len() ==> published_as_child(
                    input,
                    #[trigger] records[i],
                    nodes[i],
                )
        }),
    ensures
        ({
            let found = delta.inserted_records@[at];
            let after = orders_published(previous, input, delta);
            &&& after.dom().contains(found.lineage.0)
            &&& after[found.lineage.0].parent_node == node
            &&& after[found.lineage.0].children.len() == nodes.len()
            &&& forall|i: int|
                0 <= i < nodes.len() ==> #[trigger] after[found.lineage.0].children[i] == (
                PublishedChild { lineage: nodes[i].lineage, node: nodes[i] })
        }),
{
    let found = delta.inserted_records@[at];
    let list = delta.inserted_records@;
    let kept = without_nodes(previous, delta.removed_records@);
    let fresh = with_new_nodes(kept, input, list);
    let renewed = with_changed_nodes(fresh, input, delta.updated_records@);
    lemma_children_for(input, input.family.children_spec(input.ast, found.record), nodes);
    lemma_last_new_counts(kept, input, list, at);
    lemma_changes_keep_children(fresh, input, delta.updated_records@, found.lineage.0);
    lemma_splices_elsewhere(renewed, previous, input, delta.child_splices@, found.lineage.0);
}

proof fn lemma_last_new_counts<V, F: SyntaxFamily<V>>(
    orders: Map<u64, OrderView>,
    input: PublishInput<V, F>,
    list: Seq<LineageRecord>,
    at: int,
)
    requires
        0 <= at < list.len(),
        forall|k: int| at < k < list.len() ==> (#[trigger] list[k]).lineage != list[at].lineage,
    ensures
        ({
            let parent = list[at].lineage.0;
            let before = with_new_nodes(orders, input, list.take(at));
            let then = with_new_node(before, input, list[at]);
            let after = with_new_nodes(orders, input, list);
            &&& after.dom().contains(parent) == then.dom().contains(parent)
            &&& then.dom().contains(parent) ==> after[parent] == then[parent]
        }),
    decreases list.len(),
{
    let rest = list.drop_last();
    if at == list.len() - 1 {
        assert(list.take(at) =~= rest);
    } else {
        assert(list[list.len() - 1].lineage != list[at].lineage);
        assert(rest[at] == list[at]);
        assert(rest.take(at) =~= list.take(at));
        assert forall|k: int| at < k < rest.len() implies (#[trigger] rest[k]).lineage
            != rest[at].lineage by {
            assert(rest[k] == list[k]);
        }
        lemma_last_new_counts(orders, input, rest, at);
    }
}

proof fn lemma_children_for<V, F: SyntaxFamily<V>>(
    input: PublishInput<V, F>,
    records: Seq<u64>,
    nodes: Seq<PublishedNode>,
)
    requires
        nodes.len() == records.len(),
        forall|i: int|
            0 <= i < records.len() ==> published_as_child(input, #[trigger] records[i], nodes[i]),
    ensures
        children_for(input, records) == Some(
            Seq::new(
                records.len(),
                |i: int| PublishedChild { lineage: nodes[i].lineage, node: nodes[i] },
            ),
        ),
    decreases records.len(),
{
    let all = Seq::new(
        records.len(),
        |i: int| PublishedChild { lineage: nodes[i].lineage, node: nodes[i] },
    );
    if records.len() == 0 {
        assert(all =~= Seq::<PublishedChild>::empty());
    } else {
        let rest = records.drop_last();
        let front = nodes.drop_last();
        assert forall|i: int| 0 <= i < rest.len() implies published_as_child(
            input,
            #[trigger] rest[i],
            front[i],
        ) by {
            assert(rest[i] == records[i]);
        }
        lemma_children_for(input, rest, front);
        let before = Seq::new(
            rest.len(),
            |i: int| PublishedChild { lineage: front[i].lineage, node: front[i] },
        );
        let last = records.len() - 1;
        assert(published_as_child(input, records[last], nodes[last]));
        assert(before.push(
            PublishedChild { lineage: nodes.last().lineage, node: nodes.last() },
        ) =~= all);
    }
}

// ---------------------------------------------------------------------------
// Nodes

/// What a record is published as, the root of the document under the identity
/// that all roots have.
pub open spec fn published_node<V, F: SyntaxFamily<V>>(
    input: PublishInput<V, F>,
    record: u64,
    node: PublishedNode,
) -> bool {
    if input.root == Some(record) {
        &&& input.family.member_spec(input.ast, record) == Some(node.member)
        &&& node.root
        &&& node.lineage == 0
    } else {
        published_as_child(input, record, node)
    }
}

/// A node that a command changes is published as what it is now; its children
/// stay unless they are spliced.
pub proof fn lemma_changed_node_is_renewed<V, F: SyntaxFamily<V>>(
    previous: Map<u64, OrderView>,
    input: PublishInput<V, F>,
    delta: ParseDelta,
    at: int,
    node: PublishedNode,
)
    requires
        0 <= at < delta.updated_records@.len(),
        ({
            let found = delta.updated_records@[at];
            &&& previous.dom().contains(found.lineage.0)
            &&& published_node(input, found.record, node)
            &&& forall|k: int|
                at < k < delta.updated_records@.len() ==> (
                #[trigger] delta.updated_records@[k]).lineage != found.lineage
            &&& forall|k: int|
                0 <= k < delta.removed_records@.len() ==> (
                #[trigger] delta.removed_records@[k]).lineage != found.lineage
            &&& forall|k: int|
                0 <= k < delta.inserted_records@.len() ==> (
                #[trigger] delta.inserted_records@[k]).lineage != found.lineage
            &&& forall|k: int|
                0 <= k < delta.child_splices@.len() ==> (
                #[trigger] delta.child_splices@[k]).parent != found.lineage
        }),
    ensures
        ({
            let lineage = delta.updated_records@[at].lineage.0;
            let after = orders_published(previous, input, delta);
            &&& after.dom().contains(lineage)
            &&& after[lineage].parent_node == node
            &&& after[lineage].children == previous[lineage].children
        }),
{
    let found = delta.updated_records@[at];
    let lineage = found.lineage.0;
    let kept = without_nodes(previous, delta.removed_records@);
    let fresh = with_new_nodes(kept, input, delta.inserted_records@);
    let renewed = with_changed_nodes(fresh, input, delta.updated_records@);
    lemma_removals(previous, delta.removed_records@, lineage);
    lemma_news_elsewhere(kept, input, delta.inserted_records@, lineage);
    lemma_last_change_counts(fresh, input, delta.updated_records@, at, node);
    lemma_changes_keep_children(fresh, input, delta.updated_records@, lineage);
    lemma_splices_elsewhere(renewed, previous, input, delta.child_splices@, lineage);
}

proof fn lemma_last_change_counts<V, F: SyntaxFamily<V>>(
    orders: Map<u64, OrderView>,
    input: PublishInput<V, F>,
    list: Seq<LineageRecord>,
    at: int,
    node: PublishedNode,
)
    requires
        0 <= at < list.len(),
        orders.dom().contains(list[at].lineage.0),
        published_node(input, list[at].record, node),
        forall|k: int| at < k < list.len() ==> (#[trigger] list[k]).lineage != list[at].lineage,
    ensures
        with_changed_nodes(orders, input, list).dom().contains(list[at].lineage.0),
        with_changed_nodes(orders, input, list)[list[at].lineage.0].parent_node == node,
    decreases list.len(),
{
    let rest = list.drop_last();
    if at == list.len() - 1 {
        lemma_changes_keep_children(orders, input, rest, list[at].lineage.0);
    } else {
        assert(list[list.len() - 1].lineage != list[at].lineage);
        assert(rest[at] == list[at]);
        assert forall|k: int| at < k < rest.len() implies (#[trigger] rest[k]).lineage
            != rest[at].lineage by {
            assert(rest[k] == list[k]);
        }
        lemma_last_change_counts(orders, input, rest, at, node);
    }
}

/// Every live record of a kind that is published is among the nodes, as what it
/// is, and nothing else is.
pub proof fn lemma_live_nodes_are_published<V, F: SyntaxFamily<V>>(
    input: PublishInput<V, F>,
    records: Seq<u64>,
    found: RecordNode,
)
    ensures
        nodes_among(input, records).contains(found) <==> records.contains(found.record)
            && published_node(input, found.record, found.node) && (found.record as usize)
            < input.ast.records().len(),
    decreases records.len(),
{
    if records.len() > 0 {
        let rest = records.drop_last();
        let last = records.last();
        let before = nodes_among(input, rest);
        let all = nodes_among(input, records);
        lemma_live_nodes_are_published(input, rest, found);
        if before.contains(found) {
            let k = before.index_of(found);
            assert(all[k] == found);
            let j = rest.index_of(found.record);
            assert(records[j] == found.record);
        }
        if records.contains(found.record) {
            let j = records.index_of(found.record);
            if j < rest.len() {
                assert(rest[j] == found.record);
            } else if published_node(input, found.record, found.node) && (found.record as usize)
                < input.ast.records().len() {
                assert(all[before.len() as int] == found);
            }
        }
        if all.contains(found) {
            let k = all.index_of(found);
            if k < before.len() {
                assert(before[k] == found);
            } else {
                assert(records[records.len() - 1] == found.record);
            }
        }
    }
}

/// What a node that went was published as: as itself, or where it was not, as a
/// child of its former parent.
pub open spec fn was_published_as(
    previous: Map<u64, OrderView>,
    removed: RemovedRecord,
    node: PublishedNode,
) -> bool {
    if previous.dom().contains(removed.lineage.0) {
        previous[removed.lineage.0].parent_node == node
    } else {
        &&& removed.parent_lineage matches Some(parent)
        &&& previous.dom().contains(parent)
        &&& exists|at: int| #[trigger]
            first_with(previous[parent].children, removed.lineage.0, at)
                && previous[parent].children[at].node == node
    }
}

/// Every node that went is taken back as what it was published as; only the root
/// that stays is not.
pub proof fn lemma_removed_nodes_are_taken_back(
    previous: Map<u64, OrderView>,
    removed: Seq<RemovedRecord>,
    preserve: Option<u64>,
    at: int,
    node: PublishedNode,
)
    requires
        0 <= at < removed.len(),
        was_published_as(previous, removed[at], node),
        preserve != Some(removed[at].record),
    ensures
        retracted(previous, removed, preserve).contains(node),
    decreases removed.len(),
{
    let rest = removed.drop_last();
    let before = retracted(previous, rest, preserve);
    let all = retracted(previous, removed, preserve);
    if at < rest.len() {
        assert(rest[at] == removed[at]);
        lemma_removed_nodes_are_taken_back(previous, rest, preserve, at, node);
        let k = before.index_of(node);
        assert(all[k] == node);
    } else {
        let last = removed[at];
        if !previous.dom().contains(last.lineage.0) {
            let parent = last.parent_lineage->Some_0;
            let place = choose|place: int| #[trigger]
                first_with(previous[parent].children, last.lineage.0, place)
                    && previous[parent].children[place].node == node;
            lemma_first_place(previous[parent].children, last.lineage.0, place);
        }
        assert(all[before.len() as int] == node);
    }
}

/// A record is a node with an identity.
pub open spec fn is_node_with<V, F: SyntaxFamily<V>>(
    input: PublishInput<V, F>,
    record: usize,
    lineage: u64,
) -> bool {
    exists|node: PublishedNode| #[trigger]
        published_as_child(input, record as u64, node) && node.lineage == lineage
}

/// The parent of a node in the tree is the nearest record above it that is a node
/// with an identity, however many records that are none stand between.
pub proof fn lemma_nearest_node_is_the_parent<V, F: SyntaxFamily<V>>(
    input: PublishInput<V, F>,
    chain: Seq<usize>,
    lineage: u64,
    steps: nat,
)
    requires
        chain.len() >= 2,
        steps >= chain.len() - 1,
        forall|i: int|
            0 <= i < chain.len() - 1 ==> (#[trigger] chain[i]) < input.ast.records().len()
                && input.ast.binding(chain[i] as int).parent == Some(chain[i + 1]),
        forall|i: int, other: u64|
            0 < i < chain.len() - 1 ==> !#[trigger] is_node_with(input, chain[i], other),
        is_node_with(input, chain.last(), lineage),
    ensures
        parent_above(
            input.family,
            input.ast,
            input.lineage,
            input.changed,
            chain[0] as int,
            steps,
        ) == Some(lineage),
    decreases chain.len(),
{
    let parent = chain[1];
    assert(chain[0] < input.ast.records().len());
    let own = crate::framework::parse::component::identity_of(
        input.lineage,
        input.changed,
        parent as u64,
    );
    if chain.len() > 2 {
        if input.family.member_spec(input.ast, parent as u64) is Some && own is Some {
            let node = PublishedNode {
                lineage: own->Some_0,
                member: input.family.member_spec(input.ast, parent as u64)->Some_0,
                root: false,
            };
            assert(published_as_child(input, parent as u64, node));
            assert(is_node_with(input, chain[1], own->Some_0));
        }
        let rest = chain.drop_first();
        assert forall|i: int| 0 <= i < rest.len() - 1 implies (#[trigger] rest[i])
            < input.ast.records().len() && input.ast.binding(rest[i] as int).parent == Some(
            rest[i + 1],
        ) by {
            assert(rest[i] == chain[i + 1]);
            assert(rest[i + 1] == chain[i + 2]);
        }
        assert forall|i: int, other: u64| 0 < i < rest.len() - 1 implies !#[trigger] is_node_with(
            input,
            rest[i],
            other,
        ) by {
            assert(rest[i] == chain[i + 1]);
        }
        assert(rest.last() == chain.last());
        lemma_nearest_node_is_the_parent(input, rest, lineage, (steps - 1) as nat);
    } else {
        let node = choose|node: PublishedNode| #[trigger]
            published_as_child(input, chain.last() as u64, node) && node.lineage == lineage;
        assert(chain.last() == parent);
    }
}

} // verus!
