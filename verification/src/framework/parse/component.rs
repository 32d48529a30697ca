//! What a parse publishes.

use std::collections::HashMap;

use vstd::prelude::*;

use crate::framework::parse::data::ast::AstArena;
use crate::framework::parse::data::green::ParseErrorInfo;
use crate::framework::parse::delta::{ChildSplice, LineageRecord, ParseDelta, RemovedRecord, SyntaxNodeId};
use crate::framework::parse::diagnostics::{collect_parse_diagnostics, collected};
use crate::framework::parse::parsing::document::ParserDocumentRoot;
use crate::framework::parse::parsing::lineage::{LineageState, LineageView};
use crate::framework::parse::types::{IncrementalParseStats, ParseStatus};
use crate::store::RadixMap;

verus! {

/// How a parse ended, as editors see it.
pub open spec fn status_seen(diagnostics: nat, nothing_accepted: bool) -> ParseStatus {
    if diagnostics == 0 {
        ParseStatus::Clean
    } else if nothing_accepted {
        ParseStatus::Unrecoverable { diagnostics: diagnostics as usize }
    } else {
        ParseStatus::Recovered { diagnostics: diagnostics as usize }
    }
}

/// How a parse ended, as editors see it.
pub fn parse_status(diagnostics: &Vec<ParseErrorInfo>, nothing_accepted: bool) -> (r: ParseStatus)
    ensures
        r == status_seen(diagnostics@.len(), nothing_accepted),
{
    let count: usize = diagnostics.len();
    if count == 0 {
        ParseStatus::Clean
    } else if nothing_accepted {
        ParseStatus::Unrecoverable { diagnostics: count }
    } else {
        ParseStatus::Recovered { diagnostics: count }
    }
}

/// What a parse without a tree publishes.
#[derive(Clone, Copy, Debug)]
pub struct ParseUnit {
    /// The record at the root.
    pub root: Option<u64>,
    pub status: ParseStatus,
    pub stats: IncrementalParseStats,
}

impl ParseUnit {
    pub fn new(root: Option<u64>, status: ParseStatus, stats: IncrementalParseStats) -> (r: Self)
        ensures
            r.root == root,
            r.status == status,
            r.stats == stats,
    {
        ParseUnit { root, status, stats }
    }

    /// Whether two publications are the same: what was counted does not matter.
    pub fn same(&self, other: &Self) -> (r: bool)
        ensures
            r == (self.root == other.root && self.status == other.status),
    {
        let roots = match (self.root, other.root) {
            (Some(a), Some(b)) => a == b,
            (None, None) => true,
            _ => false,
        };
        roots && self.status == other.status
    }
}

/// The identity under which a node of a tree is published.
#[derive(Clone, Copy, Debug, PartialEq, Eq, Structural)]
pub struct PublishedNode {
    pub lineage: u64,
    /// Which kind of node of its family it is.
    pub member: u64,
    pub root: bool,
}

/// A child of a published node.
#[derive(Clone, Copy, Debug, PartialEq, Eq, Structural)]
pub struct PublishedChild {
    pub lineage: u64,
    pub node: PublishedNode,
}

/// A node with its children, as they are published.
#[derive(Debug)]
pub struct PublishedChildOrder {
    pub parent_node: PublishedNode,
    pub children: Vec<PublishedChild>,
}

/// What a published node with its children is.
#[verifier::ext_equal]
pub ghost struct OrderView {
    pub parent_node: PublishedNode,
    pub children: Seq<PublishedChild>,
}

impl View for PublishedChildOrder {
    type V = OrderView;

    open spec fn view(&self) -> OrderView {
        OrderView { parent_node: self.parent_node, children: self.children@ }
    }
}

/// What published nodes with their children are.
pub open spec fn orders_view(orders: Map<u64, PublishedChildOrder>) -> Map<u64, OrderView> {
    Map::new(|key: u64| orders.dom().contains(key), |key: u64| orders[key]@)
}

/// What a family of syntax trees says of records.
pub trait SyntaxFamily<V> {
    /// Which kind of node a record of an arena is. Asking again gives the same.
    open spec fn member_spec(&self, ast: AstArena<V>, record: u64) -> Option<u64> {
        arbitrary()
    }

    /// The records of a record's children. Asking again gives the same.
    open spec fn children_spec(&self, ast: AstArena<V>, record: u64) -> Seq<u64> {
        arbitrary()
    }

    /// Which kind of node a record is; none where it is no node.
    fn member_of(&self, ast: &AstArena<V>, record: u64) -> (r: Option<u64>)
        requires
            ast.wf(),
        ensures
            r == self.member_spec(*ast, record),
    ;

    /// The records of a record's children, in order.
    fn child_records(&self, ast: &AstArena<V>, record: u64) -> (r: Vec<u64>)
        requires
            ast.wf(),
        ensures
            r@ == self.children_spec(*ast, record),
    ;
}

/// The identities of the records that a command touched.
pub open spec fn touched(records: Seq<LineageRecord>) -> Map<u64, u64>
    decreases records.len(),
{
    if records.len() == 0 {
        Map::empty()
    } else {
        touched(records.drop_last()).insert(records.last().record, records.last().lineage.0)
    }
}

/// What a command publishes of a tree.
pub struct DeltaPublication<'a, V> {
    pub ast: &'a AstArena<V>,
    pub lineage: &'a LineageState,
    pub delta: &'a ParseDelta,
    pub current_root_record: Option<u64>,
    pub previous_root_record: Option<u64>,
    pub previous_child_orders: &'a RadixMap<PublishedChildOrder>,
    pub changed_lineages: HashMap<u64, u64>,
}

/// The identity of a record: what it bears, or bore, or what the command says.
pub open spec fn identity_of(v: LineageView, changed: Map<u64, u64>, record: u64) -> Option<u64> {
    if v.lineages.dom().contains(record as usize) {
        Some(v.lineages[record as usize])
    } else if v.died.dom().contains(record) {
        Some(v.died[record])
    } else if changed.dom().contains(record) {
        Some(changed[record])
    } else {
        None
    }
}

/// The identity under which a record is published. The root of a document has
/// the same one in all its versions.
pub open spec fn node_for<V, F: SyntaxFamily<V>>(
    family: F,
    ast: AstArena<V>,
    v: LineageView,
    changed: Map<u64, u64>,
    record: u64,
    root: bool,
) -> Option<PublishedNode> {
    match family.member_spec(ast, record) {
        Some(member) => if root {
            Some(PublishedNode { lineage: 0, member, root })
        } else {
            match identity_of(v, changed, record) {
                Some(lineage) => Some(PublishedNode { lineage, member, root }),
                None => None,
            }
        },
        None => None,
    }
}

impl<'a, V> DeltaPublication<'a, V> {
    /// The parts of the publication are sound.
    pub open spec fn wf(self) -> bool {
        &&& self.ast.wf()
        &&& self.lineage.wf()
        &&& self.previous_child_orders.wf()
        &&& self.changed_lineages@ == touched(
            self.delta.inserted_records@ + self.delta.updated_records@,
        )
    }

    /// What a command publishes of a tree.
    pub fn new(
        ast: &'a AstArena<V>,
        lineage: &'a LineageState,
        delta: &'a ParseDelta,
        current_root_record: Option<u64>,
        previous_root_record: Option<u64>,
        previous_child_orders: &'a RadixMap<PublishedChildOrder>,
    ) -> (r: Self)
        requires
            ast.wf(),
            lineage.wf(),
            previous_child_orders.wf(),
        ensures
            r.wf(),
            r.ast == ast,
            r.lineage == lineage,
            r.delta == delta,
            r.current_root_record == current_root_record,
            r.previous_root_record == previous_root_record,
            r.previous_child_orders == previous_child_orders,
    {
        broadcast use vstd::std_specs::hash::group_hash_axioms;

        let ghost all = delta.inserted_records@ + delta.updated_records@;
        let mut changed_lineages: HashMap<u64, u64> = HashMap::new();
        let mut at: usize = 0;
        let came: usize = delta.inserted_records.len();
        assert(all.take(0) =~= Seq::<LineageRecord>::empty());
        while at < came
            invariant
                at <= came,
                came == delta.inserted_records@.len(),
                all == delta.inserted_records@ + delta.updated_records@,
                changed_lineages@ == touched(all.take(at as int)),
            decreases came - at,
        {
            broadcast use vstd::std_specs::hash::group_hash_axioms;

            let found = delta.inserted_records[at];
            assert(all.take(at as int + 1).drop_last() =~= all.take(at as int));
            changed_lineages.insert(found.record, found.lineage.0);
            at += 1;
        }
        let mut next: usize = 0;
        let changed: usize = delta.updated_records.len();
        while next < changed
            invariant
                next <= changed,
                came == delta.inserted_records@.len(),
                changed == delta.updated_records@.len(),
                all == delta.inserted_records@ + delta.updated_records@,
                changed_lineages@ == touched(all.take(came + next)),
            decreases changed - next,
        {
            broadcast use vstd::std_specs::hash::group_hash_axioms;

            let found = delta.updated_records[next];
            assert(all.take(came + next + 1).drop_last() =~= all.take(came + next));
            changed_lineages.insert(found.record, found.lineage.0);
            next += 1;
        }
        assert(all.take(came + next) =~= all);
        DeltaPublication {
            ast,
            lineage,
            delta,
            current_root_record,
            previous_root_record,
            previous_child_orders,
            changed_lineages,
        }
    }

    /// The identity of a record.
    pub fn lineage_of(&self, record: u64) -> (r: Option<u64>)
        requires
            self.wf(),
        ensures
            r == identity_of(self.lineage@, self.changed_lineages@, record),
    {
        broadcast use vstd::std_specs::hash::group_hash_axioms;

        match self.lineage.lineage_of(record as usize) {
            Some(lineage) => Some(lineage),
            None => match self.lineage.died_lineage_of(record) {
                Some(lineage) => Some(lineage),
                None => match self.changed_lineages.get(&record) {
                    Some(lineage) => Some(*lineage),
                    None => None,
                },
            },
        }
    }

    /// The record that bears an identity.
    pub fn bearer_of(&self, lineage: u64) -> (r: Option<u64>)
        ensures
            r == (if self.lineage@.holders.dom().contains(lineage) {
                Some(self.lineage@.holders[lineage] as u64)
            } else {
                None::<u64>
            }),
    {
        match self.lineage.holder_of(lineage) {
            Some(record) => Some(record as u64),
            None => None,
        }
    }

    /// The identity under which a record is published.
    pub fn published_node_for_record<F: SyntaxFamily<V>>(
        &self,
        family: &F,
        record: u64,
        root: bool,
    ) -> (r: Option<PublishedNode>)
        requires
            self.wf(),
        ensures
            r == node_for(
                *family,
                *self.ast,
                self.lineage@,
                self.changed_lineages@,
                record,
                root,
            ),
    {
        let member: u64 = match family.member_of(self.ast, record) {
            Some(member) => member,
            None => {
                return None;
            },
        };
        if root {
            return Some(PublishedNode { lineage: 0, member, root });
        }
        match self.lineage_of(record) {
            Some(lineage) => Some(PublishedNode { lineage, member, root }),
            None => None,
        }
    }
}

/// The nearest node above a record that has an identity, over a number of steps.
pub open spec fn parent_above<V, F: SyntaxFamily<V>>(
    family: F,
    ast: AstArena<V>,
    v: LineageView,
    changed: Map<u64, u64>,
    record: int,
    steps: nat,
) -> Option<u64>
    decreases steps,
{
    if steps == 0 || record < 0 || record >= ast.records().len() {
        None
    } else {
        match ast.binding(record).parent {
            Some(parent) => {
                let lineage = identity_of(v, changed, parent as u64);
                if family.member_spec(ast, parent as u64) is Some && lineage is Some {
                    lineage
                } else {
                    parent_above(family, ast, v, changed, parent as int, (steps - 1) as nat)
                }
            },
            None => None,
        }
    }
}

impl<'a, V> DeltaPublication<'a, V> {
    /// The nearest node above a record that has an identity.
    pub fn nearest_tree_parent<F: SyntaxFamily<V>>(&self, family: &F, record: u64) -> (r: Option<u64>)
        requires
            self.wf(),
        ensures
            r == parent_above(
                *family,
                *self.ast,
                self.lineage@,
                self.changed_lineages@,
                record as usize as int,
                self.ast.records().len(),
            ),
    {
        let mut at: usize = record as usize;
        let mut left: usize = self.ast.len();
        let ghost found = parent_above(
            *family,
            *self.ast,
            self.lineage@,
            self.changed_lineages@,
            at as int,
            left as nat,
        );
        while left > 0
            invariant
                self.wf(),
                found == parent_above(
                    *family,
                    *self.ast,
                    self.lineage@,
                    self.changed_lineages@,
                    record as usize as int,
                    self.ast.records().len(),
                ),
                found == parent_above(
                    *family,
                    *self.ast,
                    self.lineage@,
                    self.changed_lineages@,
                    at as int,
                    left as nat,
                ),
            decreases left,
        {
            if !self.ast.contains_id(at) {
                return None;
            }
            match self.ast.parent_of(at) {
                Some(parent) => {
                    let lineage = self.lineage_of(parent as u64);
                    if family.member_of(self.ast, parent as u64).is_some() && lineage.is_some() {
                        return lineage;
                    }
                    at = parent;
                },
                None => {
                    return None;
                },
            }
            left -= 1;
        }
        None
    }
}

// ---------------------------------------------------------------------------
// The children of published nodes

/// What the published children depend on.
pub ghost struct PublishInput<V, F> {
    pub family: F,
    pub ast: AstArena<V>,
    pub lineage: LineageView,
    pub changed: Map<u64, u64>,
    pub root: Option<u64>,
}

/// The identity under which a record is published.
pub open spec fn input_node<V, F: SyntaxFamily<V>>(
    input: PublishInput<V, F>,
    record: u64,
    root: bool,
) -> Option<PublishedNode> {
    node_for(input.family, input.ast, input.lineage, input.changed, record, root)
}

/// The published children with given records; none where one of them is not
/// published.
pub open spec fn children_for<V, F: SyntaxFamily<V>>(
    input: PublishInput<V, F>,
    records: Seq<u64>,
) -> Option<Seq<PublishedChild>>
    decreases records.len(),
{
    if records.len() == 0 {
        Some(Seq::empty())
    } else {
        match children_for(input, records.drop_last()) {
            Some(before) => match (
                identity_of(input.lineage, input.changed, records.last()),
                input_node(input, records.last(), false),
            ) {
                (Some(lineage), Some(node)) => Some(before.push(PublishedChild { lineage, node })),
                _ => None,
            },
            None => None,
        }
    }
}

/// The published nodes with one that came.
pub open spec fn with_new_node<V, F: SyntaxFamily<V>>(
    orders: Map<u64, OrderView>,
    input: PublishInput<V, F>,
    found: LineageRecord,
) -> Map<u64, OrderView> {
    match (
        input_node(input, found.record, input.root == Some(found.record)),
        children_for(input, input.family.children_spec(input.ast, found.record)),
    ) {
        (Some(parent_node), Some(children)) => orders.insert(
            found.lineage.0,
            OrderView { parent_node, children },
        ),
        _ => orders,
    }
}

/// The published nodes with those that came.
pub open spec fn with_new_nodes<V, F: SyntaxFamily<V>>(
    orders: Map<u64, OrderView>,
    input: PublishInput<V, F>,
    list: Seq<LineageRecord>,
) -> Map<u64, OrderView>
    decreases list.len(),
{
    if list.len() == 0 {
        orders
    } else {
        with_new_node(with_new_nodes(orders, input, list.drop_last()), input, list.last())
    }
}

/// The published nodes with one that changed: it keeps its children.
pub open spec fn with_changed_node<V, F: SyntaxFamily<V>>(
    orders: Map<u64, OrderView>,
    input: PublishInput<V, F>,
    found: LineageRecord,
) -> Map<u64, OrderView> {
    match input_node(input, found.record, input.root == Some(found.record)) {
        Some(parent_node) => if orders.dom().contains(found.lineage.0) {
            orders.insert(found.lineage.0, OrderView { parent_node, ..orders[found.lineage.0] })
        } else {
            orders
        },
        None => orders,
    }
}

/// The published nodes with those that changed.
pub open spec fn with_changed_nodes<V, F: SyntaxFamily<V>>(
    orders: Map<u64, OrderView>,
    input: PublishInput<V, F>,
    list: Seq<LineageRecord>,
) -> Map<u64, OrderView>
    decreases list.len(),
{
    if list.len() == 0 {
        orders
    } else {
        with_changed_node(with_changed_nodes(orders, input, list.drop_last()), input, list.last())
    }
}

/// The first place of a child.
pub open spec fn child_place(children: Seq<PublishedChild>, lineage: u64) -> Option<int>
    decreases children.len(),
{
    if children.len() == 0 {
        None
    } else {
        match child_place(children.drop_last(), lineage) {
            Some(at) => Some(at),
            None => if children.last().lineage == lineage {
                Some(children.len() - 1)
            } else {
                None
            },
        }
    }
}

/// Where a splice starts among children.
pub open spec fn splice_start(children: Seq<PublishedChild>, before: Option<SyntaxNodeId>) -> Option<
    int,
> {
    match before {
        Some(id) => match child_place(children, id.0) {
            Some(at) => Some(at + 1),
            None => None,
        },
        None => Some(0),
    }
}

/// Where a splice ends among children.
pub open spec fn splice_end(children: Seq<PublishedChild>, after: Option<SyntaxNodeId>) -> Option<
    int,
> {
    match after {
        Some(id) => child_place(children, id.0),
        None => Some(children.len() as int),
    }
}

/// The children that a splice puts in; none where one of them is not published.
pub open spec fn spliced_in<V, F: SyntaxFamily<V>>(
    input: PublishInput<V, F>,
    list: Seq<LineageRecord>,
) -> Option<Seq<PublishedChild>>
    decreases list.len(),
{
    if list.len() == 0 {
        Some(Seq::empty())
    } else {
        match (
            spliced_in(input, list.drop_last()),
            input_node(input, list.last().record, false),
        ) {
            (Some(before), Some(node)) => Some(
                before.push(PublishedChild { lineage: list.last().lineage.0, node }),
            ),
            _ => None,
        }
    }
}

/// Children have given identities, in order.
pub open spec fn lineages_agree(children: Seq<PublishedChild>, ids: Seq<SyntaxNodeId>) -> bool {
    &&& children.len() == ids.len()
    &&& forall|i: int| 0 <= i < ids.len() ==> (#[trigger] children[i]).lineage == ids[i].0
}

/// The published nodes with the children of one spliced. The node itself is the
/// one that is published by now; only the children come from what was published
/// before. A splice that does not fit what was published is left out.
pub open spec fn with_child_splice<V, F: SyntaxFamily<V>>(
    orders: Map<u64, OrderView>,
    previous: Map<u64, OrderView>,
    input: PublishInput<V, F>,
    splice: ChildSplice,
) -> Map<u64, OrderView> {
    if previous.dom().contains(splice.parent.0) {
        let order = previous[splice.parent.0];
        match (
            splice_start(order.children, splice.delta.before),
            splice_end(order.children, splice.delta.after),
            spliced_in(input, splice.inserted_children@),
        ) {
            (Some(start), Some(end), Some(inserted)) => if start <= end && lineages_agree(
                inserted,
                splice.delta.inserted@,
            ) {
                orders.insert(
                    splice.parent.0,
                    OrderView {
                        parent_node: if orders.dom().contains(splice.parent.0) {
                            orders[splice.parent.0].parent_node
                        } else {
                            order.parent_node
                        },
                        children: order.children.take(start) + inserted + order.children.skip(end),
                    },
                )
            } else {
                orders
            },
            _ => orders,
        }
    } else {
        orders
    }
}

/// The published nodes with the children of some spliced.
pub open spec fn with_child_splices<V, F: SyntaxFamily<V>>(
    orders: Map<u64, OrderView>,
    previous: Map<u64, OrderView>,
    input: PublishInput<V, F>,
    list: Seq<ChildSplice>,
) -> Map<u64, OrderView>
    decreases list.len(),
{
    if list.len() == 0 {
        orders
    } else {
        with_child_splice(
            with_child_splices(orders, previous, input, list.drop_last()),
            previous,
            input,
            list.last(),
        )
    }
}

/// The published nodes without those that went.
pub open spec fn without_nodes(orders: Map<u64, OrderView>, list: Seq<RemovedRecord>) -> Map<
    u64,
    OrderView,
>
    decreases list.len(),
{
    if list.len() == 0 {
        orders
    } else {
        without_nodes(orders, list.drop_last()).remove(list.last().lineage.0)
    }
}

/// The published nodes after a command.
pub open spec fn orders_published<V, F: SyntaxFamily<V>>(
    previous: Map<u64, OrderView>,
    input: PublishInput<V, F>,
    delta: ParseDelta,
) -> Map<u64, OrderView> {
    let kept = without_nodes(previous, delta.removed_records@);
    let fresh = with_new_nodes(kept, input, delta.inserted_records@);
    let renewed = with_changed_nodes(fresh, input, delta.updated_records@);
    with_child_splices(renewed, previous, input, delta.child_splices@)
}

fn copy_children(list: &Vec<PublishedChild>, from: usize, to: usize) -> (r: Vec<PublishedChild>)
    requires
        from <= to <= list@.len(),
    ensures
        r@ == list@.subrange(from as int, to as int),
{
    crate::framework::parse::delta::part_of(list, from, to)
}

fn copy_published(orders: &RadixMap<PublishedChildOrder>) -> (r: RadixMap<PublishedChildOrder>)
    requires
        orders.wf(),
    ensures
        r.wf(),
        orders_view(r@) == orders_view(orders@),
{
    let ghost keys = orders.spec_keys();
    proof {
        orders.lemma_keys();
    }
    let count: usize = orders.len();
    let mut out: RadixMap<PublishedChildOrder> = RadixMap::new();
    let mut index: usize = 0;
    while index < count
        invariant
            orders.wf(),
            out.wf(),
            keys == orders.spec_keys(),
            count == keys.len(),
            index <= count,
            forall|key: u64| orders@.dom().contains(key) <==> #[trigger] keys.contains(key),
            forall|key: u64| #[trigger]
                out@.dom().contains(key) <==> exists|k: int| 0 <= k < index && keys[k] == key,
            forall|key: u64| #[trigger]
                out@.dom().contains(key) ==> orders@.dom().contains(key) && out@[key]@
                    == orders@[key]@,
        decreases count - index,
    {
        let key: u64 = orders.key_at(index);
        let order = orders.value_at(index);
        let ghost before = out@;
        let copy = PublishedChildOrder {
            parent_node: order.parent_node,
            children: copy_children(&order.children, 0, order.children.len()),
        };
        assert(order.children@.subrange(0, order.children@.len() as int) =~= order.children@);
        assert(copy@ =~= order@);
        out.insert(key, copy);
        proof {
            assert forall|other: u64| #[trigger]
                out@.dom().contains(other) <==> exists|k: int|
                    0 <= k < index + 1 && keys[k] == other by {
                if other == key {
                    assert(0 <= index < index + 1 && keys[index as int] == other);
                } else {
                    assert(out@.dom().contains(other) == before.dom().contains(other));
                    if before.dom().contains(other) {
                        let k = choose|k: int| 0 <= k < index && keys[k] == other;
                        assert(0 <= k < index + 1 && keys[k] == other);
                    }
                    if exists|k: int| 0 <= k < index + 1 && keys[k] == other {
                        let k = choose|k: int| 0 <= k < index + 1 && keys[k] == other;
                        assert(0 <= k < index && keys[k] == other);
                    }
                }
            }
        }
        index += 1;
    }
    proof {
        assert forall|key: u64| orders@.dom().contains(key) <==> out@.dom().contains(key) by {
            if orders@.dom().contains(key) {
                assert(keys.contains(key));
                let k = choose|k: int| 0 <= k < keys.len() && keys[k] == key;
                assert(0 <= k < index && keys[k] == key);
            }
        }
        assert(orders_view(out@) =~= orders_view(orders@));
    }
    out
}

fn find_child(children: &Vec<PublishedChild>, lineage: u64) -> (r: Option<usize>)
    ensures
        match r {
            Some(at) => child_place(children@, lineage) == Some(at as int) && at < children@.len(),
            None => child_place(children@, lineage) is None,
        },
{
    let ghost all = children@;
    let mut at: usize = 0;
    assert(all.take(0) =~= Seq::<PublishedChild>::empty());
    while at < children.len()
        invariant
            at <= children@.len(),
            all == children@,
            child_place(all.take(at as int), lineage) is None,
        decreases children@.len() - at,
    {
        proof {
            assert(all.take(at as int + 1).drop_last() =~= all.take(at as int));
        }
        if children[at].lineage == lineage {
            proof {
                lemma_child_place(all, lineage, at as int);
            }
            return Some(at);
        }
        at += 1;
    }
    assert(all.take(at as int) =~= all);
    None
}

proof fn lemma_child_place(children: Seq<PublishedChild>, lineage: u64, at: int)
    requires
        0 <= at < children.len(),
        children[at].lineage == lineage,
        child_place(children.take(at), lineage) is None,
    ensures
        child_place(children, lineage) == Some(at),
    decreases children.len(),
{
    let rest = children.drop_last();
    if at == children.len() - 1 {
        assert(children.take(at) =~= rest);
    } else {
        assert(rest.take(at) =~= children.take(at));
        lemma_child_place(rest, lineage, at);
    }
}

impl<'a, V> DeltaPublication<'a, V> {
    /// What the published children depend on.
    pub open spec fn input<F>(self, family: F) -> PublishInput<V, F> {
        PublishInput {
            family,
            ast: *self.ast,
            lineage: self.lineage@,
            changed: self.changed_lineages@,
            root: self.current_root_record,
        }
    }

    fn is_root(&self, record: u64) -> (r: bool)
        ensures
            r == (self.current_root_record == Some(record)),
    {
        match self.current_root_record {
            Some(root) => root == record,
            None => false,
        }
    }

    fn published_children<F: SyntaxFamily<V>>(&self, family: &F, records: &Vec<u64>) -> (r: Option<
        Vec<PublishedChild>,
    >)
        requires
            self.wf(),
        ensures
            match r {
                Some(children) => children_for(self.input(*family), records@) == Some(children@),
                None => children_for(self.input(*family), records@) is None,
            },
    {
        let ghost input = self.input(*family);
        let mut out: Vec<PublishedChild> = Vec::new();
        let mut at: usize = 0;
        assert(records@.take(0) =~= Seq::<u64>::empty());
        while at < records.len()
            invariant
                self.wf(),
                input == self.input(*family),
                at <= records@.len(),
                children_for(input, records@.take(at as int)) == Some(out@),
            decreases records@.len() - at,
        {
            let record: u64 = records[at];
            proof {
                assert(records@.take(at as int + 1).drop_last() =~= records@.take(at as int));
            }
            let lineage = self.lineage_of(record);
            let node = self.published_node_for_record(family, record, false);
            match (lineage, node) {
                (Some(lineage), Some(node)) => {
                    out.push(PublishedChild { lineage, node });
                },
                _ => {
                    proof {
                        lemma_children_stop(input, records@, at as int + 1);
                    }
                    return None;
                },
            }
            at += 1;
        }
        assert(records@.take(at as int) =~= records@);
        Some(out)
    }

    fn published_insertions<F: SyntaxFamily<V>>(&self, family: &F, list: &Vec<LineageRecord>) -> (r:
        Option<Vec<PublishedChild>>)
        requires
            self.wf(),
        ensures
            match r {
                Some(children) => spliced_in(self.input(*family), list@) == Some(children@),
                None => spliced_in(self.input(*family), list@) is None,
            },
    {
        let ghost input = self.input(*family);
        let mut out: Vec<PublishedChild> = Vec::new();
        let mut at: usize = 0;
        assert(list@.take(0) =~= Seq::<LineageRecord>::empty());
        while at < list.len()
            invariant
                self.wf(),
                input == self.input(*family),
                at <= list@.len(),
                spliced_in(input, list@.take(at as int)) == Some(out@),
            decreases list@.len() - at,
        {
            let found = list[at];
            proof {
                assert(list@.take(at as int + 1).drop_last() =~= list@.take(at as int));
            }
            match self.published_node_for_record(family, found.record, false) {
                Some(node) => {
                    out.push(PublishedChild { lineage: found.lineage.0, node });
                },
                None => {
                    proof {
                        lemma_spliced_stop(input, list@, at as int + 1);
                    }
                    return None;
                },
            }
            at += 1;
        }
        assert(list@.take(at as int) =~= list@);
        Some(out)
    }

    fn apply_child_splice<F: SyntaxFamily<V>>(
        &self,
        family: &F,
        orders: &mut RadixMap<PublishedChildOrder>,
        splice: &ChildSplice,
    )
        requires
            self.wf(),
            old(orders).wf(),
        ensures
            final(orders).wf(),
            orders_view(final(orders)@) == with_child_splice(
                orders_view(old(orders)@),
                orders_view(self.previous_child_orders@),
                self.input(*family),
                *splice,
            ),
    {
        let ghost held = orders_view(orders@);
        let ghost before = orders_view(self.previous_child_orders@);
        let previous = match self.previous_child_orders.get(splice.parent.0) {
            Some(previous) => previous,
            None => {
                assert(!before.dom().contains(splice.parent.0));
                return ;
            },
        };
        assert(before[splice.parent.0] == previous@);
        let total: usize = previous.children.len();
        let start: usize = match splice.delta.before {
            Some(id) => match find_child(&previous.children, id.0) {
                Some(at) => at + 1,
                None => {
                    return ;
                },
            },
            None => 0,
        };
        let end: usize = match splice.delta.after {
            Some(id) => match find_child(&previous.children, id.0) {
                Some(at) => at,
                None => {
                    return ;
                },
            },
            None => previous.children.len(),
        };
        if end < start {
            return ;
        }
        let inserted = match self.published_insertions(family, &splice.inserted_children) {
            Some(inserted) => inserted,
            None => {
                return ;
            },
        };
        if inserted.len() != splice.delta.inserted.len() {
            return ;
        }
        let mut at: usize = 0;
        while at < inserted.len()
            invariant
                at <= inserted@.len(),
                inserted@.len() == splice.delta.inserted@.len(),
                held == orders_view(orders@),
                orders.wf(),
                *orders == *old(orders),
                self.wf(),
                before == orders_view(self.previous_child_orders@),
                before.dom().contains(splice.parent.0),
                before[splice.parent.0] == previous@,
                splice_start(previous.children@, splice.delta.before) == Some(start as int),
                splice_end(previous.children@, splice.delta.after) == Some(end as int),
                spliced_in(self.input(*family), splice.inserted_children@) == Some(inserted@),
                start <= end <= previous.children@.len(),
                forall|i: int|
                    0 <= i < at ==> (#[trigger] inserted@[i]).lineage
                        == splice.delta.inserted@[i].0,
            decreases inserted@.len() - at,
        {
            if inserted[at].lineage != splice.delta.inserted[at].0 {
                assert(!lineages_agree(inserted@, splice.delta.inserted@)) by {
                    assert(inserted@[at as int].lineage != splice.delta.inserted@[at as int].0);
                }
                return ;
            }
            at += 1;
        }
        let mut children = copy_children(&previous.children, 0, start);
        let mut mid = inserted;
        let mut rest = copy_children(&previous.children, end, previous.children.len());
        let ghost all = previous.children@;
        let ghost given = mid@;
        children.append(&mut mid);
        children.append(&mut rest);
        let parent_node = match orders.get(splice.parent.0) {
            Some(held) => held.parent_node,
            None => previous.parent_node,
        };
        let order = PublishedChildOrder { parent_node, children };
        proof {
            assert(all.subrange(0, start as int) =~= all.take(start as int));
            assert(all.subrange(end as int, all.len() as int) =~= all.skip(end as int));
            assert(order@ =~= (OrderView {
                parent_node,
                children: all.take(start as int) + given + all.skip(end as int),
            }));
        }
        orders.insert(splice.parent.0, order);
        assert(orders_view(orders@) =~= held.insert(splice.parent.0, order@));
    }

    /// The published nodes with their children after a command: nodes that went
    /// are gone, nodes that came are listed with their children, and changed
    /// child lists are spliced.
    #[verifier::rlimit(40)]
    pub fn build_published_child_orders<F: SyntaxFamily<V>>(&self, family: &F) -> (r: RadixMap<
        PublishedChildOrder,
    >)
        requires
            self.wf(),
        ensures
            r.wf(),
            orders_view(r@) == orders_published(
                orders_view(self.previous_child_orders@),
                self.input(*family),
                *self.delta,
            ),
    {
        let ghost input = self.input(*family);
        let ghost before = orders_view(self.previous_child_orders@);
        let ghost went = self.delta.removed_records@;
        let mut next = copy_published(self.previous_child_orders);
        let mut at: usize = 0;
        assert(went.take(0) =~= Seq::<RemovedRecord>::empty());
        while at < self.delta.removed_records.len()
            invariant
                at <= self.delta.removed_records@.len(),
                went == self.delta.removed_records@,
                next.wf(),
                orders_view(next@) == without_nodes(before, went.take(at as int)),
            decreases self.delta.removed_records@.len() - at,
        {
            let ghost held = orders_view(next@);
            let lineage: u64 = self.delta.removed_records[at].lineage.0;
            assert(went.take(at as int + 1).drop_last() =~= went.take(at as int));
            next.remove(lineage);
            assert(orders_view(next@) =~= held.remove(lineage));
            at += 1;
        }
        assert(went.take(at as int) =~= went);
        let ghost kept = orders_view(next@);
        let ghost came = self.delta.inserted_records@;
        let mut i: usize = 0;
        assert(came.take(0) =~= Seq::<LineageRecord>::empty());
        while i < self.delta.inserted_records.len()
            invariant
                self.wf(),
                input == self.input(*family),
                i <= self.delta.inserted_records@.len(),
                came == self.delta.inserted_records@,
                next.wf(),
                orders_view(next@) == with_new_nodes(kept, input, came.take(i as int)),
            decreases self.delta.inserted_records@.len() - i,
        {
            let ghost held = orders_view(next@);
            let found = self.delta.inserted_records[i];
            assert(came.take(i as int + 1).drop_last() =~= came.take(i as int));
            let node = self.published_node_for_record(
                family,
                found.record,
                self.is_root(found.record),
            );
            let records = family.child_records(self.ast, found.record);
            let children = self.published_children(family, &records);
            match (node, children) {
                (Some(parent_node), Some(children)) => {
                    let order = PublishedChildOrder { parent_node, children };
                    next.insert(found.lineage.0, order);
                    assert(orders_view(next@) =~= held.insert(found.lineage.0, order@));
                },
                _ => {},
            }
            i += 1;
        }
        assert(came.take(i as int) =~= came);
        let ghost fresh = orders_view(next@);
        let ghost changed = self.delta.updated_records@;
        let mut j: usize = 0;
        assert(changed.take(0) =~= Seq::<LineageRecord>::empty());
        while j < self.delta.updated_records.len()
            invariant
                self.wf(),
                input == self.input(*family),
                j <= self.delta.updated_records@.len(),
                changed == self.delta.updated_records@,
                next.wf(),
                orders_view(next@) == with_changed_nodes(fresh, input, changed.take(j as int)),
            decreases self.delta.updated_records@.len() - j,
        {
            let ghost held = orders_view(next@);
            let found = self.delta.updated_records[j];
            assert(changed.take(j as int + 1).drop_last() =~= changed.take(j as int));
            let node = self.published_node_for_record(
                family,
                found.record,
                self.is_root(found.record),
            );
            if let Some(parent_node) = node {
                let again: Option<PublishedChildOrder> = match next.get(found.lineage.0) {
                    Some(order) => {
                        assert(held[found.lineage.0] == order@);
                        assert(order.children@.subrange(0, order.children@.len() as int)
                            =~= order.children@);
                        Some(
                            PublishedChildOrder {
                                parent_node,
                                children: copy_children(
                                    &order.children,
                                    0,
                                    order.children.len(),
                                ),
                            },
                        )
                    },
                    None => None,
                };
                if let Some(order) = again {
                    next.insert(found.lineage.0, order);
                    assert(order@ =~= (OrderView { parent_node, ..held[found.lineage.0] }));
                    assert(orders_view(next@) =~= held.insert(found.lineage.0, order@));
                }
            }
            j += 1;
        }
        assert(changed.take(j as int) =~= changed);
        let ghost renewed = orders_view(next@);
        let ghost splices = self.delta.child_splices@;
        let mut k: usize = 0;
        assert(splices.take(0) =~= Seq::<ChildSplice>::empty());
        while k < self.delta.child_splices.len()
            invariant
                self.wf(),
                input == self.input(*family),
                before == orders_view(self.previous_child_orders@),
                k <= self.delta.child_splices@.len(),
                splices == self.delta.child_splices@,
                next.wf(),
                orders_view(next@) == with_child_splices(
                    renewed,
                    before,
                    input,
                    splices.take(k as int),
                ),
            decreases self.delta.child_splices@.len() - k,
        {
            assert(splices.take(k as int + 1).drop_last() =~= splices.take(k as int));
            self.apply_child_splice(family, &mut next, &self.delta.child_splices[k]);
            k += 1;
        }
        assert(splices.take(k as int) =~= splices);
        next
    }
}

proof fn lemma_children_stop<V, F: SyntaxFamily<V>>(
    input: PublishInput<V, F>,
    records: Seq<u64>,
    at: int,
)
    requires
        0 <= at <= records.len(),
        children_for(input, records.take(at)) is None,
    ensures
        children_for(input, records) is None,
    decreases records.len(),
{
    if at == records.len() {
        assert(records.take(at) =~= records);
    } else {
        assert(records.drop_last().take(at) =~= records.take(at));
        lemma_children_stop(input, records.drop_last(), at);
    }
}

proof fn lemma_spliced_stop<V, F: SyntaxFamily<V>>(
    input: PublishInput<V, F>,
    list: Seq<LineageRecord>,
    at: int,
)
    requires
        0 <= at <= list.len(),
        spliced_in(input, list.take(at)) is None,
    ensures
        spliced_in(input, list) is None,
    decreases list.len(),
{
    if at == list.len() {
        assert(list.take(at) =~= list);
    } else {
        assert(list.drop_last().take(at) =~= list.take(at));
        lemma_spliced_stop(input, list.drop_last(), at);
    }
}

// ---------------------------------------------------------------------------
// Nodes that went

/// The identity under which a node that went was published: as a parent, or
/// else as a child of its former parent.
pub open spec fn published_as(previous: Map<u64, OrderView>, removed: RemovedRecord) -> Option<
    PublishedNode,
> {
    if previous.dom().contains(removed.lineage.0) {
        Some(previous[removed.lineage.0].parent_node)
    } else {
        match removed.parent_lineage {
            Some(parent) => if previous.dom().contains(parent) {
                match child_place(previous[parent].children, removed.lineage.0) {
                    Some(at) => Some(previous[parent].children[at].node),
                    None => None,
                }
            } else {
                None
            },
            None => None,
        }
    }
}

/// The nodes that are taken back. The root stays.
pub open spec fn retracted(
    previous: Map<u64, OrderView>,
    removed: Seq<RemovedRecord>,
    preserve: Option<u64>,
) -> Seq<PublishedNode>
    decreases removed.len(),
{
    if removed.len() == 0 {
        Seq::empty()
    } else {
        let before = retracted(previous, removed.drop_last(), preserve);
        let last = removed.last();
        match published_as(previous, last) {
            Some(node) => if preserve == Some(last.record) {
                before
            } else {
                before.push(node)
            },
            None => before,
        }
    }
}

/// The nodes that are taken back.
pub fn stage_published_removed_nodes(
    previous: &RadixMap<PublishedChildOrder>,
    removed: &Vec<RemovedRecord>,
    preserve_root_record: Option<u64>,
) -> (r: Vec<PublishedNode>)
    requires
        previous.wf(),
    ensures
        r@ == retracted(orders_view(previous@), removed@, preserve_root_record),
{
    let ghost before = orders_view(previous@);
    let mut out: Vec<PublishedNode> = Vec::new();
    let mut at: usize = 0;
    assert(removed@.take(0) =~= Seq::<RemovedRecord>::empty());
    while at < removed.len()
        invariant
            at <= removed@.len(),
            previous.wf(),
            before == orders_view(previous@),
            out@ == retracted(before, removed@.take(at as int), preserve_root_record),
        decreases removed@.len() - at,
    {
        let found = &removed[at];
        assert(removed@.take(at as int + 1).drop_last() =~= removed@.take(at as int));
        let kept = match preserve_root_record {
            Some(record) => record == found.record,
            None => false,
        };
        let node: Option<PublishedNode> = match previous.get(found.lineage.0) {
            Some(order) => {
                assert(before[found.lineage.0] == order@);
                Some(order.parent_node)
            },
            None => match found.parent_lineage {
                Some(parent) => match previous.get(parent) {
                    Some(order) => {
                        assert(before[parent] == order@);
                        match find_child(&order.children, found.lineage.0) {
                            Some(place) => Some(order.children[place].node),
                            None => None,
                        }
                    },
                    None => None,
                },
                None => None,
            },
        };
        assert(node == published_as(before, *found));
        if !kept {
            if let Some(node) = node {
                out.push(node);
            }
        }
        at += 1;
    }
    assert(removed@.take(at as int) =~= removed@);
    out
}

// ---------------------------------------------------------------------------
// A document

/// The diagnostics of a document's parse.
pub fn latest_parse_diagnostics<V>(root: &ParserDocumentRoot<V>) -> (r: Vec<ParseErrorInfo>)
    requires
        root.context.arenas.wf(),
    ensures
        r@ == collected(
            root.context@.session.diagnostics,
            root.context@.products,
            root.context@.trees,
            root.roots@,
        ),
{
    collect_parse_diagnostics(
        root.context.state.diagnostics.as_slice(),
        &root.context.arenas.products,
        &root.context.arenas.trees,
        root.roots.as_slice(),
    )
}

/// What a document's parse publishes, with its diagnostics.
pub fn document_unit<V>(root: &ParserDocumentRoot<V>) -> (r: (ParseUnit, Vec<ParseErrorInfo>))
    requires
        root.context.arenas.wf(),
    ensures
        ({
            let infos = collected(
                root.context@.session.diagnostics,
                root.context@.products,
                root.context@.trees,
                root.roots@,
            );
            &&& r.1@ == infos
            &&& r.0.status == status_seen(infos.len(), root.roots@.len() == 0)
            &&& r.0.stats == root.incremental_stats
            &&& r.0.root == match root.tree_facts.root {
                Some(record) => if (record as usize) < root.context.arenas.ast.records().len() {
                    Some(record)
                } else {
                    None
                },
                None => None,
            }
        }),
{
    let infos = latest_parse_diagnostics(root);
    let status = parse_status(&infos, root.roots.len() == 0);
    let found: Option<u64> = match root.tree_facts.root {
        Some(record) => if root.context.arenas.ast.contains_id(record as usize) {
            Some(record)
        } else {
            None
        },
        None => None,
    };
    (ParseUnit::new(found, status, root.incremental_stats), infos)
}

} // verus!
