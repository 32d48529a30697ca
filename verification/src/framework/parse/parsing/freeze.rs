//! Freezing a command into what it changed.

use std::collections::HashSet;
use vstd::prelude::*;

use crate::framework::parse::data::ast::{AnchoredSpan, AstArena, AstId};
use crate::framework::parse::data::green::ParseErrorInfo;
use crate::framework::parse::data::product::{ProductArena, ProductId, ProductView};
use crate::framework::parse::delta::{
    common_edges, is_splice, ordered_splice, part_of, shared_ends, ChildSplice, KeyDelta,
    LineageRecord, OrderedDelta, ParseDelta, ParsedStatus, RemovedRecord, SyntaxNodeId,
    SyntheticTokenId,
};
use crate::framework::parse::diagnostics::{diagnostic_delta, diagnostic_keys};
use crate::framework::parse::parsing::error::{BuildError, ParseError};
use crate::framework::parse::parsing::lineage::{
    direct_tree_child_records, dormant, found, known_lineage, lives, no_identity_left, owner_at,
    parent_at, product_at, settled, tree_child_records, LineageState, LineageView,
};
use crate::framework::parse::parsing::reachability::{
    applied, apply_accepted_root_delta, change_from, refused, ReachabilityUpdate, RootChange,
};
use crate::framework::parse::types::{ParserTreeFacts, RecordTransition};
use crate::sort::{
    distinct_sorted, lemma_strictly_ascending_unique, sorted_distinct, strictly_ascending, Ordered,
};
use crate::store::{rising, RadixMap};

verus! {

// ---------------------------------------------------------------------------
// The tree that a language shows

/// Which records of a language are tree nodes, and what their children are.
pub trait TreeKinds<V> {
    /// The children of a record, in order.
    spec fn children_spec(
        &self,
        products: Seq<ProductView>,
        ast: AstArena<V>,
        record: u64,
    ) -> Seq<u64>;

    /// A record is a tree node.
    spec fn member_spec(&self, ast: AstArena<V>, record: u64) -> bool;

    fn children(&self, products: &ProductArena, ast: &AstArena<V>, record: u64) -> (r: Vec<u64>)
        requires
            products.wf(),
            ast.wf(),
        ensures
            r@ == self.children_spec(products@, *ast, record),
    ;

    fn is_member(&self, ast: &AstArena<V>, record: u64) -> (r: bool)
        requires
            ast.wf(),
        ensures
            r == self.member_spec(*ast, record),
    ;
}

/// The tree of the reductions themselves.
pub struct DirectTree;

/// Ids as keys.
pub open spec fn as_keys(ids: Seq<AstId>) -> Seq<u64> {
    ids.map_values(|id: AstId| id as u64)
}

fn keys_of(ids: &Vec<AstId>) -> (r: Vec<u64>)
    ensures
        r@ == as_keys(ids@),
{
    let mut out: Vec<u64> = Vec::new();
    let mut index: usize = 0;
    while index < ids.len()
        invariant
            index <= ids@.len(),
            out@ == as_keys(ids@).take(index as int),
        decreases ids@.len() - index,
    {
        out.push(ids[index] as u64);
        index += 1;
        assert(out@ =~= as_keys(ids@).take(index as int));
    }
    assert(out@ =~= as_keys(ids@));
    out
}

impl<V> TreeKinds<V> for DirectTree {
    open spec fn children_spec(
        &self,
        products: Seq<ProductView>,
        ast: AstArena<V>,
        record: u64,
    ) -> Seq<u64> {
        as_keys(tree_child_records(products, ast, record as usize))
    }

    open spec fn member_spec(&self, ast: AstArena<V>, record: u64) -> bool {
        true
    }

    fn children(&self, products: &ProductArena, ast: &AstArena<V>, record: u64) -> (r: Vec<u64>) {
        keys_of(&direct_tree_child_records(products, ast, record as usize))
    }

    fn is_member(&self, ast: &AstArena<V>, record: u64) -> (r: bool) {
        true
    }
}

/// The tree nodes of a list of records.
pub open spec fn members<V, T: TreeKinds<V>>(
    tree: T,
    ast: AstArena<V>,
    records: Seq<u64>,
) -> Seq<u64>
    decreases records.len(),
{
    if records.len() == 0 {
        Seq::empty()
    } else if tree.member_spec(ast, records.last()) {
        members(tree, ast, records.drop_last()).push(records.last())
    } else {
        members(tree, ast, records.drop_last())
    }
}

/// The children of a record in the tree.
pub open spec fn shown_children<V, T: TreeKinds<V>>(
    tree: T,
    products: Seq<ProductView>,
    ast: AstArena<V>,
    record: u64,
) -> Seq<u64> {
    members(tree, ast, tree.children_spec(products, ast, record))
}

fn list_children<V, T: TreeKinds<V>>(
    tree: &T,
    products: &ProductArena,
    ast: &AstArena<V>,
    record: u64,
) -> (r: Vec<u64>)
    requires
        products.wf(),
        ast.wf(),
    ensures
        r@ == shown_children(*tree, products@, *ast, record),
{
    let raw = tree.children(products, ast, record);
    let mut out: Vec<u64> = Vec::new();
    let mut index: usize = 0;
    assert(raw@.take(0) =~= Seq::<u64>::empty());
    while index < raw.len()
        invariant
            index <= raw@.len(),
            ast.wf(),
            out@ == members(*tree, *ast, raw@.take(index as int)),
        decreases raw@.len() - index,
    {
        assert(raw@.take(index as int + 1).drop_last() =~= raw@.take(index as int));
        let child: u64 = raw[index];
        if tree.is_member(ast, child) {
            out.push(child);
        }
        index += 1;
    }
    assert(raw@.take(index as int) =~= raw@);
    out
}

// ---------------------------------------------------------------------------
// Which records came and went

/// The records that came to life.
pub open spec fn born(journal: Map<u64, RecordTransition>) -> Set<u64> {
    Set::new(
        |record: u64|
            journal.dom().contains(record) && journal[record].before_count == 0
                && journal[record].after_count > 0,
    )
}

/// The records that died.
pub open spec fn gone(journal: Map<u64, RecordTransition>) -> Set<u64> {
    Set::new(
        |record: u64|
            journal.dom().contains(record) && journal[record].before_count > 0
                && journal[record].after_count == 0,
    )
}

/// The records that came to life and those that died, in ascending order.
pub fn transitions(journal: &RadixMap<RecordTransition>) -> (r: (Vec<u64>, Vec<u64>))
    requires
        journal.wf(),
    ensures
        r.0@ == distinct_sorted(born(journal@)),
        r.1@ == distinct_sorted(gone(journal@)),
        strictly_ascending(r.0@),
        strictly_ascending(r.1@),
        r.0@.to_set() == born(journal@),
        r.1@.to_set() == gone(journal@),
{
    let ghost keys = journal.spec_keys();
    proof {
        journal.lemma_keys();
    }
    let count: usize = journal.len();
    let mut came: Vec<u64> = Vec::new();
    let mut went: Vec<u64> = Vec::new();
    let mut index: usize = 0;
    while index < count
        invariant
            journal.wf(),
            keys == journal.spec_keys(),
            rising(keys),
            count == keys.len(),
            index <= count,
            forall|key: u64| journal@.dom().contains(key) <==> #[trigger] keys.contains(key),
            strictly_ascending(came@),
            strictly_ascending(went@),
            forall|i: int|
                0 <= i < came@.len() ==> born(journal@).contains(#[trigger] came@[i]) && exists|
                    k: int,
                |
                    0 <= k < index && keys[k] == came@[i],
            forall|i: int|
                0 <= i < went@.len() ==> gone(journal@).contains(#[trigger] went@[i]) && exists|
                    k: int,
                |
                    0 <= k < index && keys[k] == went@[i],
            forall|k: int|
                0 <= k < index && born(journal@).contains(keys[k]) ==> came@.contains(
                    #[trigger] keys[k],
                ),
            forall|k: int|
                0 <= k < index && gone(journal@).contains(keys[k]) ==> went@.contains(
                    #[trigger] keys[k],
                ),
        decreases count - index,
    {
        let record: u64 = journal.key_at(index);
        let transition: RecordTransition = *journal.get(record).unwrap();
        let ghost came0 = came@;
        let ghost went0 = went@;
        assert(keys[index as int] == record);
        if transition.before_count == 0 && transition.after_count > 0 {
            came.push(record);
            assert(came@[came0.len() as int] == record);
        } else if transition.before_count > 0 && transition.after_count == 0 {
            went.push(record);
            assert(went@[went0.len() as int] == record);
        }
        proof {
            assert forall|i: int, j: int| 0 <= i < j < came@.len() implies (
            #[trigger] came@[i]).le_spec(#[trigger] came@[j]) && came@[i] != came@[j] by {
                if j == came0.len() {
                    let k = choose|k: int| 0 <= k < index && keys[k] == came0[i];
                    assert(keys[k] < keys[index as int]);
                }
            }
            assert forall|i: int, j: int| 0 <= i < j < went@.len() implies (
            #[trigger] went@[i]).le_spec(#[trigger] went@[j]) && went@[i] != went@[j] by {
                if j == went0.len() {
                    let k = choose|k: int| 0 <= k < index && keys[k] == went0[i];
                    assert(keys[k] < keys[index as int]);
                }
            }
            assert forall|i: int| 0 <= i < came@.len() implies born(journal@).contains(
                #[trigger] came@[i],
            ) && exists|k: int| 0 <= k < index + 1 && keys[k] == came@[i] by {
                if i < came0.len() {
                    assert(came@[i] == came0[i]);
                    let k = choose|k: int| 0 <= k < index && keys[k] == came0[i];
                    assert(0 <= k < index + 1 && keys[k] == came@[i]);
                } else {
                    assert(0 <= index < index + 1 && keys[index as int] == came@[i]);
                }
            }
            assert forall|i: int| 0 <= i < went@.len() implies gone(journal@).contains(
                #[trigger] went@[i],
            ) && exists|k: int| 0 <= k < index + 1 && keys[k] == went@[i] by {
                if i < went0.len() {
                    assert(went@[i] == went0[i]);
                    let k = choose|k: int| 0 <= k < index && keys[k] == went0[i];
                    assert(0 <= k < index + 1 && keys[k] == went@[i]);
                } else {
                    assert(0 <= index < index + 1 && keys[index as int] == went@[i]);
                }
            }
            assert forall|k: int| 0 <= k < index + 1 && born(journal@).contains(keys[k]) implies
                came@.contains(#[trigger] keys[k]) by {
                if k < index {
                    assert(came0.contains(keys[k]));
                    let i = choose|i: int| 0 <= i < came0.len() && came0[i] == keys[k];
                    assert(came@[i] == keys[k]);
                }
            }
            assert forall|k: int| 0 <= k < index + 1 && gone(journal@).contains(keys[k]) implies
                went@.contains(#[trigger] keys[k]) by {
                if k < index {
                    assert(went0.contains(keys[k]));
                    let i = choose|i: int| 0 <= i < went0.len() && went0[i] == keys[k];
                    assert(went@[i] == keys[k]);
                }
            }
        }
        index += 1;
    }
    proof {
        assert forall|record: u64| came@.to_set().contains(record) == born(journal@).contains(
            record,
        ) by {
            if born(journal@).contains(record) {
                assert(keys.contains(record));
                let k = choose|k: int| 0 <= k < keys.len() && keys[k] == record;
                assert(came@.contains(keys[k]));
            }
        }
        assert(came@.to_set() =~= born(journal@));
        assert forall|record: u64| went@.to_set().contains(record) == gone(journal@).contains(
            record,
        ) by {
            if gone(journal@).contains(record) {
                assert(keys.contains(record));
                let k = choose|k: int| 0 <= k < keys.len() && keys[k] == record;
                assert(went@.contains(keys[k]));
            }
        }
        assert(went@.to_set() =~= gone(journal@));
        lemma_strictly_ascending_unique(came@, distinct_sorted(born(journal@)));
        lemma_strictly_ascending_unique(went@, distinct_sorted(gone(journal@)));
    }
    (came, went)
}

// ---------------------------------------------------------------------------
// What became of the records that came to life

/// The green structure and the extent of a record: where both are the same,
/// nothing that a parser shows differs.
pub open spec fn signature<V>(
    ast: AstArena<V>,
    products: Seq<ProductView>,
    record: u64,
) -> Option<(usize, AnchoredSpan)> {
    match product_at(products, owner_at(ast, record as usize)) {
        Some(product) => if (record as usize) < ast.records().len() {
            Some((product.green, ast.records()[(record as usize) as int].extent))
        } else {
            None
        },
        None => None,
    }
}

/// The green structure and the extent of a record.
pub fn record_signature<V>(ast: &AstArena<V>, products: &ProductArena, record: u64) -> (r: Option<
    (usize, AnchoredSpan),
>)
    requires
        ast.wf(),
        products.wf(),
    ensures
        r == signature(*ast, products@, record),
{
    let owner: usize = match ast.product_of(record as usize) {
        Some(owner) => owner,
        None => {
            return None;
        },
    };
    let green: usize = match products.get(owner) {
        Some(product) => product.green,
        None => {
            return None;
        },
    };
    match ast.extent_of_id(record as usize) {
        Some(extent) => Some((green, extent)),
        None => None,
    }
}

/// What a record that came to life means for the tree.
#[derive(Clone, Copy, Debug, PartialEq, Eq, Structural)]
pub enum Arrival {
    /// A node with a new identity.
    Fresh(u64),
    /// A node that changed under its identity.
    Changed(u64),
    /// A node whose record was replaced by an equal one, or that is kept by
    /// another record.
    Silent,
}

/// What a record that came to life means for the tree: a record without a
/// predecessor is a new node, one whose predecessor shows something else is a
/// changed node.
pub open spec fn arrival<V>(
    v: LineageView,
    live: Map<u64, ()>,
    products: Seq<ProductView>,
    ast: AstArena<V>,
    record: u64,
) -> Arrival {
    let at = record as usize;
    match found(v.lineages, at) {
        None => Arrival::Silent,
        Some(lineage) => match found(v.inherited, at) {
            None => Arrival::Fresh(lineage),
            Some(old) => if (lives(live, old) && old as u64 != record) || signature(
                ast,
                products,
                old as u64,
            ) == signature(ast, products, record) {
                Arrival::Silent
            } else {
                Arrival::Changed(lineage)
            },
        },
    }
}

fn arrival_of<V>(
    lineage: &LineageState,
    live: &RadixMap<()>,
    products: &ProductArena,
    ast: &AstArena<V>,
    record: u64,
) -> (r: Arrival)
    requires
        lineage.wf(),
        live.wf(),
        products.wf(),
        ast.wf(),
    ensures
        r == arrival(lineage@, live@, products@, *ast, record),
{
    let at: usize = record as usize;
    match lineage.lineage_of(at) {
        None => Arrival::Silent,
        Some(own) => match lineage.inherited_from(at) {
            None => Arrival::Fresh(own),
            Some(old) => {
                if live.contains(old as u64) && old as u64 != record {
                    return Arrival::Silent;
                }
                let before = record_signature(ast, products, old as u64);
                let after = record_signature(ast, products, record);
                let same = match (before, after) {
                    (Some(a), Some(b)) => a.0 == b.0 && a.1 == b.1,
                    (None, None) => true,
                    _ => false,
                };
                if same {
                    Arrival::Silent
                } else {
                    Arrival::Changed(own)
                }
            },
        },
    }
}

/// The new nodes among the records that came to life.
pub open spec fn fresh_nodes<V>(
    v: LineageView,
    live: Map<u64, ()>,
    products: Seq<ProductView>,
    ast: AstArena<V>,
    records: Seq<u64>,
) -> Seq<LineageRecord>
    decreases records.len(),
{
    if records.len() == 0 {
        Seq::empty()
    } else {
        let rest = fresh_nodes(v, live, products, ast, records.drop_last());
        match arrival(v, live, products, ast, records.last()) {
            Arrival::Fresh(lineage) => rest.push(
                LineageRecord { lineage: SyntaxNodeId(lineage), record: records.last() },
            ),
            _ => rest,
        }
    }
}

/// The changed nodes among the records that came to life.
pub open spec fn changed_nodes<V>(
    v: LineageView,
    live: Map<u64, ()>,
    products: Seq<ProductView>,
    ast: AstArena<V>,
    records: Seq<u64>,
) -> Seq<LineageRecord>
    decreases records.len(),
{
    if records.len() == 0 {
        Seq::empty()
    } else {
        let rest = changed_nodes(v, live, products, ast, records.drop_last());
        match arrival(v, live, products, ast, records.last()) {
            Arrival::Changed(lineage) => rest.push(
                LineageRecord { lineage: SyntaxNodeId(lineage), record: records.last() },
            ),
            _ => rest,
        }
    }
}

/// The identities of the records of a list.
pub open spec fn borne(v: LineageView, records: Seq<u64>) -> Set<u64> {
    Set::new(
        |lineage: u64|
            exists|i: int|
                0 <= i < records.len() && found(v.lineages, #[trigger] records[i] as usize) == Some(
                    lineage,
                ),
    )
}

/// Tells the new nodes from the changed ones, and lists what identities the
/// records bear.
fn classify<V>(
    lineage: &LineageState,
    live: &RadixMap<()>,
    products: &ProductArena,
    ast: &AstArena<V>,
    records: &Vec<u64>,
) -> (r: (Vec<LineageRecord>, Vec<LineageRecord>, HashSet<u64>))
    requires
        lineage.wf(),
        live.wf(),
        products.wf(),
        ast.wf(),
    ensures
        r.0@ == fresh_nodes(lineage@, live@, products@, *ast, records@),
        r.1@ == changed_nodes(lineage@, live@, products@, *ast, records@),
        r.2@ == borne(lineage@, records@),
{
    broadcast use vstd::std_specs::hash::group_hash_axioms;

    let mut fresh: Vec<LineageRecord> = Vec::new();
    let mut changed: Vec<LineageRecord> = Vec::new();
    let mut carriers: HashSet<u64> = HashSet::new();
    let mut index: usize = 0;
    assert(records@.take(0) =~= Seq::<u64>::empty());
    assert(carriers@ =~= borne(lineage@, records@.take(0)));
    while index < records.len()
        invariant
            index <= records@.len(),
            lineage.wf(),
            live.wf(),
            products.wf(),
            ast.wf(),
            fresh@ == fresh_nodes(lineage@, live@, products@, *ast, records@.take(index as int)),
            changed@ == changed_nodes(
                lineage@,
                live@,
                products@,
                *ast,
                records@.take(index as int),
            ),
            carriers@ == borne(lineage@, records@.take(index as int)),
        decreases records@.len() - index,
    {
        broadcast use vstd::std_specs::hash::group_hash_axioms;

        let record: u64 = records[index];
        let ghost before = records@.take(index as int);
        let ghost after = records@.take(index as int + 1);
        assert(after.drop_last() =~= before);
        assert(after.last() == record);
        match arrival_of(lineage, live, products, ast, record) {
            Arrival::Fresh(own) => {
                fresh.push(LineageRecord { lineage: SyntaxNodeId(own), record });
            },
            Arrival::Changed(own) => {
                changed.push(LineageRecord { lineage: SyntaxNodeId(own), record });
            },
            Arrival::Silent => {},
        }
        let ghost carried = carriers@;
        match lineage.lineage_of(record as usize) {
            Some(own) => {
                carriers.insert(own);
            },
            None => {},
        }
        proof {
            assert forall|own: u64| carriers@.contains(own) == borne(lineage@, after).contains(
                own,
            ) by {
                if carried.contains(own) {
                    let i = choose|i: int|
                        0 <= i < before.len() && found(
                            lineage@.lineages,
                            #[trigger] before[i] as usize,
                        ) == Some(own);
                    assert(after[i] == before[i]);
                }
                if found(lineage@.lineages, record as usize) == Some(own) {
                    assert(after[index as int] == record);
                }
                if borne(lineage@, after).contains(own) {
                    let i = choose|i: int|
                        0 <= i < after.len() && found(
                            lineage@.lineages,
                            #[trigger] after[i] as usize,
                        ) == Some(own);
                    if i < index {
                        assert(before[i] == after[i]);
                    }
                }
            }
            assert(carriers@ =~= borne(lineage@, after));
        }
        index += 1;
    }
    assert(records@.take(index as int) =~= records@);
    (fresh, changed, carriers)
}

/// The identities of a list.
pub open spec fn ids_of(list: Seq<LineageRecord>) -> Seq<SyntaxNodeId> {
    list.map_values(|item: LineageRecord| item.lineage)
}

pub(crate) fn list_ids(list: &Vec<LineageRecord>) -> (r: Vec<SyntaxNodeId>)
    ensures
        r@ == ids_of(list@),
{
    let mut out: Vec<SyntaxNodeId> = Vec::new();
    let mut index: usize = 0;
    while index < list.len()
        invariant
            index <= list@.len(),
            out@ == ids_of(list@).take(index as int),
        decreases list@.len() - index,
    {
        out.push(list[index].lineage);
        index += 1;
        assert(out@ =~= ids_of(list@).take(index as int));
    }
    assert(out@ =~= ids_of(list@));
    out
}

// ---------------------------------------------------------------------------
// Records that died

/// The identity that leaves with a record: what was committed of it, else what
/// the dead left behind.
pub open spec fn leaving(committed: Map<u64, u64>, v: LineageView, record: u64) -> Option<u64> {
    match found(committed, record) {
        Some(lineage) => Some(lineage),
        None => found(v.died, record),
    }
}

/// The nodes that leave: their identities are borne by no record that came to
/// life.
pub open spec fn leaving_nodes(
    committed: Map<u64, u64>,
    v: LineageView,
    carriers: Set<u64>,
    records: Seq<u64>,
) -> Seq<LineageRecord>
    decreases records.len(),
{
    if records.len() == 0 {
        Seq::empty()
    } else {
        let rest = leaving_nodes(committed, v, carriers, records.drop_last());
        match leaving(committed, v, records.last()) {
            Some(lineage) => if carriers.contains(lineage) {
                rest
            } else {
                rest.push(LineageRecord { lineage: SyntaxNodeId(lineage), record: records.last() })
            },
            None => rest,
        }
    }
}

fn list_leaving(
    committed: &RadixMap<u64>,
    lineage: &LineageState,
    carriers: &HashSet<u64>,
    records: &Vec<u64>,
) -> (r: Vec<LineageRecord>)
    requires
        committed.wf(),
        lineage.wf(),
    ensures
        r@ == leaving_nodes(committed@, lineage@, carriers@, records@),
{
    broadcast use vstd::std_specs::hash::group_hash_axioms;

    let mut out: Vec<LineageRecord> = Vec::new();
    let mut index: usize = 0;
    assert(records@.take(0) =~= Seq::<u64>::empty());
    while index < records.len()
        invariant
            index <= records@.len(),
            committed.wf(),
            lineage.wf(),
            out@ == leaving_nodes(committed@, lineage@, carriers@, records@.take(index as int)),
        decreases records@.len() - index,
    {
        broadcast use vstd::std_specs::hash::group_hash_axioms;

        let record: u64 = records[index];
        assert(records@.take(index as int + 1).drop_last() =~= records@.take(index as int));
        let own: Option<u64> = match committed.get(record) {
            Some(own) => Some(*own),
            None => lineage.died_lineage_of(record),
        };
        match own {
            Some(own) => {
                if !carriers.contains(&own) {
                    out.push(LineageRecord { lineage: SyntaxNodeId(own), record });
                }
            },
            None => {},
        }
        index += 1;
    }
    assert(records@.take(index as int) =~= records@);
    out
}

/// The identity of the former parent of a record.
pub open spec fn parent_lineage(
    committed: Map<u64, u64>,
    v: LineageView,
    parent: Option<u64>,
) -> Option<u64> {
    match parent {
        None => None,
        Some(record) => match leaving(committed, v, record) {
            Some(lineage) => Some(lineage),
            None => found(v.lineages, record as usize),
        },
    }
}

/// A parent as a key.
pub open spec fn parent_key<V>(ast: AstArena<V>, record: u64) -> Option<u64> {
    match parent_at(ast, record as usize) {
        Some(parent) => Some(parent as u64),
        None => None,
    }
}

/// `removed` says what is needed to take a node back.
pub open spec fn tells_of<V, T: TreeKinds<V>>(
    removed: RemovedRecord,
    node: LineageRecord,
    tree: T,
    products: Seq<ProductView>,
    ast: AstArena<V>,
    committed: Map<u64, u64>,
    v: LineageView,
) -> bool {
    &&& removed.lineage == node.lineage
    &&& removed.record == node.record
    &&& removed.parent_record == parent_key(ast, node.record)
    &&& removed.parent_lineage == parent_lineage(committed, v, parent_key(ast, node.record))
    &&& removed.child_records@ == shown_children(tree, products, ast, node.record)
}

/// Tells what is needed to take nodes back.
fn tell_removed<V, T: TreeKinds<V>>(
    tree: &T,
    products: &ProductArena,
    ast: &AstArena<V>,
    committed: &RadixMap<u64>,
    lineage: &LineageState,
    nodes: &Vec<LineageRecord>,
) -> (r: Vec<RemovedRecord>)
    requires
        products.wf(),
        ast.wf(),
        committed.wf(),
        lineage.wf(),
    ensures
        r@.len() == nodes@.len(),
        forall|i: int|
            0 <= i < r@.len() ==> tells_of(
                #[trigger] r@[i],
                nodes@[i],
                *tree,
                products@,
                *ast,
                committed@,
                lineage@,
            ),
{
    let mut out: Vec<RemovedRecord> = Vec::new();
    let mut index: usize = 0;
    while index < nodes.len()
        invariant
            index <= nodes@.len(),
            products.wf(),
            ast.wf(),
            committed.wf(),
            lineage.wf(),
            out@.len() == index,
            forall|i: int|
                0 <= i < out@.len() ==> tells_of(
                    #[trigger] out@[i],
                    nodes@[i],
                    *tree,
                    products@,
                    *ast,
                    committed@,
                    lineage@,
                ),
        decreases nodes@.len() - index,
    {
        let node = nodes[index];
        let child_records = list_children(tree, products, ast, node.record);
        let parent_record: Option<u64> = match ast.parent_of(node.record as usize) {
            Some(parent) => Some(parent as u64),
            None => None,
        };
        let parent_lineage: Option<u64> = match parent_record {
            None => None,
            Some(parent) => match committed.get(parent) {
                Some(own) => Some(*own),
                None => match lineage.died_lineage_of(parent) {
                    Some(own) => Some(own),
                    None => lineage.lineage_of(parent as usize),
                },
            },
        };
        out.push(
            RemovedRecord {
                lineage: node.lineage,
                record: node.record,
                parent_record,
                parent_lineage,
                child_records,
            },
        );
        index += 1;
    }
    out
}

// ---------------------------------------------------------------------------
// Children

/// Records with their identities, dead or alive; records without one are left
/// out.
pub open spec fn identified(v: LineageView, records: Seq<u64>) -> Seq<LineageRecord>
    decreases records.len(),
{
    if records.len() == 0 {
        Seq::empty()
    } else {
        let rest = identified(v, records.drop_last());
        match known_lineage(v, records.last() as usize) {
            Some(lineage) => rest.push(
                LineageRecord { lineage: SyntaxNodeId(lineage), record: records.last() },
            ),
            None => rest,
        }
    }
}

fn identify(lineage: &LineageState, records: &Vec<u64>) -> (r: Vec<LineageRecord>)
    requires
        lineage.wf(),
    ensures
        r@ == identified(lineage@, records@),
{
    let mut out: Vec<LineageRecord> = Vec::new();
    let mut index: usize = 0;
    assert(records@.take(0) =~= Seq::<u64>::empty());
    while index < records.len()
        invariant
            index <= records@.len(),
            lineage.wf(),
            out@ == identified(lineage@, records@.take(index as int)),
        decreases records@.len() - index,
    {
        assert(records@.take(index as int + 1).drop_last() =~= records@.take(index as int));
        let record: u64 = records[index];
        match lineage.resolve_lineage(record as usize) {
            Some(own) => {
                out.push(LineageRecord { lineage: SyntaxNodeId(own), record });
            },
            None => {},
        }
        index += 1;
    }
    assert(records@.take(index as int) =~= records@);
    out
}

/// The children of a record with their identities.
pub open spec fn children_now<V, T: TreeKinds<V>>(
    tree: T,
    products: Seq<ProductView>,
    ast: AstArena<V>,
    v: LineageView,
    record: u64,
) -> Seq<LineageRecord> {
    identified(v, shown_children(tree, products, ast, record))
}

/// How the children of one parent changed.
pub ghost struct SpliceView {
    pub parent: u64,
    pub old: Seq<SyntaxNodeId>,
    pub new: Seq<SyntaxNodeId>,
    pub removed: Seq<LineageRecord>,
    pub inserted: Seq<LineageRecord>,
}

/// A splice says how the children of a parent changed.
pub open spec fn says(splice: ChildSplice, view: SpliceView) -> bool {
    &&& splice.parent == SyntaxNodeId(view.parent)
    &&& is_splice(splice.delta, view.old, view.new)
    &&& splice.removed_children@ == view.removed
    &&& splice.inserted_children@ == view.inserted
}

/// The values of a list whose identities are not in another.
pub open spec fn absent(list: Seq<LineageRecord>, present: Seq<SyntaxNodeId>) -> Seq<LineageRecord>
    decreases list.len(),
{
    if list.len() == 0 {
        Seq::empty()
    } else if present.contains(list.last().lineage) {
        absent(list.drop_last(), present)
    } else {
        absent(list.drop_last(), present).push(list.last())
    }
}

fn list_absent(list: &Vec<LineageRecord>, present: &Vec<SyntaxNodeId>) -> (r: Vec<LineageRecord>)
    ensures
        r@ == absent(list@, present@),
{
    let mut out: Vec<LineageRecord> = Vec::new();
    let mut index: usize = 0;
    assert(list@.take(0) =~= Seq::<LineageRecord>::empty());
    while index < list.len()
        invariant
            index <= list@.len(),
            out@ == absent(list@.take(index as int), present@),
        decreases list@.len() - index,
    {
        assert(list@.take(index as int + 1).drop_last() =~= list@.take(index as int));
        let item = list[index];
        if !holds(present, item.lineage) {
            out.push(item);
        }
        index += 1;
    }
    assert(list@.take(index as int) =~= list@);
    out
}

fn holds(list: &Vec<SyntaxNodeId>, id: SyntaxNodeId) -> (r: bool)
    ensures
        r == list@.contains(id),
{
    let mut index: usize = 0;
    while index < list.len()
        invariant
            index <= list@.len(),
            forall|k: int| 0 <= k < index ==> #[trigger] list@[k] != id,
        decreases list@.len() - index,
    {
        if list[index] == id {
            return true;
        }
        index += 1;
    }
    false
}

fn same_ids(a: &Vec<SyntaxNodeId>, b: &Vec<SyntaxNodeId>) -> (r: bool)
    ensures
        r == (a@ == b@),
{
    if a.len() != b.len() {
        return false;
    }
    let mut index: usize = 0;
    while index < a.len()
        invariant
            index <= a@.len(),
            a@.len() == b@.len(),
            forall|k: int| 0 <= k < index ==> a@[k] == b@[k],
        decreases a@.len() - index,
    {
        if a[index] != b[index] {
            return false;
        }
        index += 1;
    }
    assert(a@ =~= b@);
    true
}

/// How the children of a changed node differ from those of its predecessor;
/// none where they do not.
pub open spec fn changed_splice<V, T: TreeKinds<V>>(
    tree: T,
    products: Seq<ProductView>,
    ast: AstArena<V>,
    v: LineageView,
    record: u64,
) -> Option<SpliceView> {
    match (found(v.inherited, record as usize), known_lineage(v, record as usize)) {
        (Some(old_record), Some(lineage)) => {
            let before = children_now(tree, products, ast, v, old_record as u64);
            let after = children_now(tree, products, ast, v, record);
            let old = ids_of(before);
            let new = ids_of(after);
            if old == new {
                None
            } else {
                let (prefix, suffix) = shared_ends(old, new);
                Some(
                    SpliceView {
                        parent: lineage,
                        old,
                        new,
                        removed: absent(
                            before.subrange(prefix as int, before.len() - suffix),
                            new,
                        ),
                        inserted: after.subrange(prefix as int, after.len() - suffix),
                    },
                )
            }
        },
        _ => None,
    }
}

/// The changes of the children of the changed nodes.
pub open spec fn changed_splices<V, T: TreeKinds<V>>(
    tree: T,
    products: Seq<ProductView>,
    ast: AstArena<V>,
    v: LineageView,
    nodes: Seq<LineageRecord>,
) -> Seq<SpliceView>
    decreases nodes.len(),
{
    if nodes.len() == 0 {
        Seq::empty()
    } else {
        let rest = changed_splices(tree, products, ast, v, nodes.drop_last());
        match changed_splice(tree, products, ast, v, nodes.last().record) {
            Some(view) => rest.push(view),
            None => rest,
        }
    }
}

/// The splices of a list say what a list of views says.
pub open spec fn all_say(splices: Seq<ChildSplice>, list: Seq<SpliceView>) -> bool {
    &&& splices.len() == list.len()
    &&& forall|i: int| 0 <= i < splices.len() ==> says(#[trigger] splices[i], list[i])
}

fn splice_changed<V, T: TreeKinds<V>>(
    tree: &T,
    products: &ProductArena,
    ast: &AstArena<V>,
    lineage: &LineageState,
    record: u64,
) -> (r: Option<ChildSplice>)
    requires
        products.wf(),
        ast.wf(),
        lineage.wf(),
    ensures
        match r {
            Some(splice) => changed_splice(*tree, products@, *ast, lineage@, record) is Some
                && says(
                splice,
                changed_splice(*tree, products@, *ast, lineage@, record)->Some_0,
            ),
            None => changed_splice(*tree, products@, *ast, lineage@, record) is None,
        },
{
    let old_record: usize = match lineage.inherited_from(record as usize) {
        Some(old) => old,
        None => {
            return None;
        },
    };
    let own: u64 = match lineage.resolve_lineage(record as usize) {
        Some(own) => own,
        None => {
            return None;
        },
    };
    let before = identify(lineage, &list_children(tree, products, ast, old_record as u64));
    let after = identify(lineage, &list_children(tree, products, ast, record));
    let old = list_ids(&before);
    let new = list_ids(&after);
    if same_ids(&old, &new) {
        return None;
    }
    let (prefix, suffix) = common_edges(&old, &new);
    let middle = part_of(&before, prefix, before.len() - suffix);
    Some(
        ChildSplice {
            parent: SyntaxNodeId(own),
            delta: ordered_splice(&old, &new),
            removed_children: list_absent(&middle, &new),
            inserted_children: part_of(&after, prefix, after.len() - suffix),
        },
    )
}

/// The changes of the children of the changed nodes.
fn splice_all_changed<V, T: TreeKinds<V>>(
    tree: &T,
    products: &ProductArena,
    ast: &AstArena<V>,
    lineage: &LineageState,
    nodes: &Vec<LineageRecord>,
) -> (r: Vec<ChildSplice>)
    requires
        products.wf(),
        ast.wf(),
        lineage.wf(),
    ensures
        all_say(r@, changed_splices(*tree, products@, *ast, lineage@, nodes@)),
{
    let mut out: Vec<ChildSplice> = Vec::new();
    let mut index: usize = 0;
    assert(nodes@.take(0) =~= Seq::<LineageRecord>::empty());
    while index < nodes.len()
        invariant
            index <= nodes@.len(),
            products.wf(),
            ast.wf(),
            lineage.wf(),
            all_say(
                out@,
                changed_splices(*tree, products@, *ast, lineage@, nodes@.take(index as int)),
            ),
        decreases nodes@.len() - index,
    {
        assert(nodes@.take(index as int + 1).drop_last() =~= nodes@.take(index as int));
        match splice_changed(tree, products, ast, lineage, nodes[index].record) {
            Some(splice) => {
                out.push(splice);
            },
            None => {},
        }
        index += 1;
    }
    assert(nodes@.take(index as int) =~= nodes@);
    out
}

// ---------------------------------------------------------------------------
// Parents that stay

/// The bearer of the identity of a parent.
pub open spec fn parent_bearer(v: LineageView, parent: Option<AstId>) -> Option<LineageRecord> {
    match parent {
        None => None,
        Some(record) => match known_lineage(v, record) {
            None => None,
            Some(lineage) => match found(v.holders, lineage) {
                None => None,
                Some(bearer) => Some(
                    LineageRecord { lineage: SyntaxNodeId(lineage), record: bearer as u64 },
                ),
            },
        },
    }
}

/// The bearers of the identities of the parents of a list of records.
pub open spec fn parents_of<V>(
    v: LineageView,
    ast: AstArena<V>,
    records: Seq<u64>,
) -> Seq<LineageRecord>
    decreases records.len(),
{
    if records.len() == 0 {
        Seq::empty()
    } else {
        let rest = parents_of(v, ast, records.drop_last());
        match parent_bearer(v, parent_at(ast, records.last() as usize)) {
            Some(parent) => rest.push(parent),
            None => rest,
        }
    }
}

/// The records of a list that bear their identities.
pub open spec fn self_bearers(v: LineageView, records: Seq<u64>) -> Seq<LineageRecord>
    decreases records.len(),
{
    if records.len() == 0 {
        Seq::empty()
    } else {
        let rest = self_bearers(v, records.drop_last());
        match known_lineage(v, records.last() as usize) {
            Some(lineage) => if found(v.holders, lineage) is Some && found(
                v.holders,
                lineage,
            )->Some_0 as u64 == records.last() {
                rest.push(LineageRecord { lineage: SyntaxNodeId(lineage), record: records.last() })
            } else {
                rest
            },
            None => rest,
        }
    }
}

/// The records of a list of nodes.
pub open spec fn node_keys(nodes: Seq<LineageRecord>) -> Seq<u64> {
    nodes.map_values(|node: LineageRecord| node.record)
}

/// The parents whose children may have changed: those of the records that
/// came, went or changed, and the records that came themselves.
pub open spec fn candidates<V>(
    v: LineageView,
    ast: AstArena<V>,
    came: Seq<u64>,
    went: Seq<u64>,
    changed: Seq<LineageRecord>,
) -> Seq<LineageRecord> {
    distinct_sorted(
        (parents_of(v, ast, came) + parents_of(v, ast, went) + parents_of(
            v,
            ast,
            node_keys(changed),
        ) + self_bearers(v, came)).to_set(),
    )
}

/// Adds the parents of a list of records.
fn add_parents<V>(
    out: &mut Vec<LineageRecord>,
    lineage: &LineageState,
    ast: &AstArena<V>,
    records: &Vec<u64>,
)
    requires
        lineage.wf(),
        ast.wf(),
    ensures
        final(out)@ == old(out)@ + parents_of(lineage@, *ast, records@),
{
    let ghost before = out@;
    let mut index: usize = 0;
    assert(records@.take(0) =~= Seq::<u64>::empty());
    assert(out@ =~= before + parents_of(lineage@, *ast, records@.take(0)));
    while index < records.len()
        invariant
            index <= records@.len(),
            lineage.wf(),
            ast.wf(),
            before == old(out)@,
            out@ == before + parents_of(lineage@, *ast, records@.take(index as int)),
        decreases records@.len() - index,
    {
        let ghost known = parents_of(lineage@, *ast, records@.take(index as int));
        assert(records@.take(index as int + 1).drop_last() =~= records@.take(index as int));
        match ast.parent_of(records[index] as usize) {
            Some(parent) => match lineage.resolve_lineage(parent) {
                Some(own) => match lineage.holder_of(own) {
                    Some(bearer) => {
                        let item = LineageRecord {
                            lineage: SyntaxNodeId(own),
                            record: bearer as u64,
                        };
                        out.push(item);
                        assert(out@ =~= before + known.push(item));
                    },
                    None => {},
                },
                None => {},
            },
            None => {},
        }
        index += 1;
    }
    assert(records@.take(index as int) =~= records@);
}

/// Adds the records of a list that bear their identities.
fn add_self_bearers(out: &mut Vec<LineageRecord>, lineage: &LineageState, records: &Vec<u64>)
    requires
        lineage.wf(),
    ensures
        final(out)@ == old(out)@ + self_bearers(lineage@, records@),
{
    let ghost before = out@;
    let mut index: usize = 0;
    assert(records@.take(0) =~= Seq::<u64>::empty());
    assert(out@ =~= before + self_bearers(lineage@, records@.take(0)));
    while index < records.len()
        invariant
            index <= records@.len(),
            lineage.wf(),
            before == old(out)@,
            out@ == before + self_bearers(lineage@, records@.take(index as int)),
        decreases records@.len() - index,
    {
        let ghost known = self_bearers(lineage@, records@.take(index as int));
        assert(records@.take(index as int + 1).drop_last() =~= records@.take(index as int));
        let record: u64 = records[index];
        match lineage.resolve_lineage(record as usize) {
            Some(own) => match lineage.holder_of(own) {
                Some(bearer) => {
                    if bearer as u64 == record {
                        let item = LineageRecord { lineage: SyntaxNodeId(own), record };
                        out.push(item);
                        assert(out@ =~= before + known.push(item));
                    }
                },
                None => {},
            },
            None => {},
        }
        index += 1;
    }
    assert(records@.take(index as int) =~= records@);
}

fn list_keys(nodes: &Vec<LineageRecord>) -> (r: Vec<u64>)
    ensures
        r@ == node_keys(nodes@),
{
    let mut out: Vec<u64> = Vec::new();
    let mut index: usize = 0;
    while index < nodes.len()
        invariant
            index <= nodes@.len(),
            out@ == node_keys(nodes@).take(index as int),
        decreases nodes@.len() - index,
    {
        out.push(nodes[index].record);
        index += 1;
        assert(out@ =~= node_keys(nodes@).take(index as int));
    }
    assert(out@ =~= node_keys(nodes@));
    out
}

/// The parents whose children may have changed.
fn list_candidates<V>(
    lineage: &LineageState,
    ast: &AstArena<V>,
    came: &Vec<u64>,
    went: &Vec<u64>,
    changed: &Vec<LineageRecord>,
) -> (r: Vec<LineageRecord>)
    requires
        lineage.wf(),
        ast.wf(),
    ensures
        r@ == candidates(lineage@, *ast, came@, went@, changed@),
        strictly_ascending(r@),
{
    let mut all: Vec<LineageRecord> = Vec::new();
    add_parents(&mut all, lineage, ast, came);
    assert(all@ =~= parents_of(lineage@, *ast, came@));
    add_parents(&mut all, lineage, ast, went);
    let changed_keys = list_keys(changed);
    add_parents(&mut all, lineage, ast, &changed_keys);
    add_self_bearers(&mut all, lineage, came);
    sorted_distinct(&all)
}

// ---------------------------------------------------------------------------
// What dead identities stood for

/// `last` names, for every identity of the dead, the last record that bore it.
pub open spec fn last_bearers(died: Map<u64, u64>, last: Map<u64, u64>) -> bool {
    &&& forall|record: u64|
        #[trigger] died.dom().contains(record) ==> last.dom().contains(died[record]) && record
            <= last[died[record]]
    &&& forall|lineage: u64|
        #[trigger] last.dom().contains(lineage) ==> died.dom().contains(last[lineage])
            && died[last[lineage]] == lineage
}

/// The record that a dropped child resolves to: the bearer of its identity,
/// else the last dead one.
pub open spec fn dropped(v: LineageView, last: Map<u64, u64>, lineage: u64) -> Option<u64> {
    match found(v.holders, lineage) {
        Some(bearer) => Some(bearer as u64),
        None => found(last, lineage),
    }
}

/// The record that a dropped child resolves to.
pub fn dropped_record(lineage: u64, state: &LineageState, last: &RadixMap<u64>) -> (r: Option<u64>)
    requires
        state.wf(),
        last.wf(),
    ensures
        r == dropped(state@, last@, lineage),
{
    match state.holder_of(lineage) {
        Some(bearer) => Some(bearer as u64),
        None => match last.get(lineage) {
            Some(record) => Some(*record),
            None => None,
        },
    }
}

/// Identities with the records that they resolve to; those without one are
/// left out, and so are those of a second list.
pub open spec fn resolved(
    v: LineageView,
    last: Map<u64, u64>,
    ids: Seq<SyntaxNodeId>,
    present: Seq<SyntaxNodeId>,
) -> Seq<LineageRecord>
    decreases ids.len(),
{
    if ids.len() == 0 {
        Seq::empty()
    } else {
        let rest = resolved(v, last, ids.drop_last(), present);
        match dropped(v, last, ids.last().0) {
            Some(record) => if present.contains(ids.last()) {
                rest
            } else {
                rest.push(LineageRecord { lineage: ids.last(), record })
            },
            None => rest,
        }
    }
}

fn resolve_dropped(
    state: &LineageState,
    last: &RadixMap<u64>,
    ids: &Vec<SyntaxNodeId>,
    present: &Vec<SyntaxNodeId>,
) -> (r: Vec<LineageRecord>)
    requires
        state.wf(),
        last.wf(),
    ensures
        r@ == resolved(state@, last@, ids@, present@),
{
    let mut out: Vec<LineageRecord> = Vec::new();
    let mut index: usize = 0;
    assert(ids@.take(0) =~= Seq::<SyntaxNodeId>::empty());
    while index < ids.len()
        invariant
            index <= ids@.len(),
            state.wf(),
            last.wf(),
            out@ == resolved(state@, last@, ids@.take(index as int), present@),
        decreases ids@.len() - index,
    {
        assert(ids@.take(index as int + 1).drop_last() =~= ids@.take(index as int));
        let id = ids[index];
        if !holds(present, id) {
            match dropped_record(id.0, state, last) {
                Some(record) => {
                    out.push(LineageRecord { lineage: id, record });
                },
                None => {},
            }
        }
        index += 1;
    }
    assert(ids@.take(index as int) =~= ids@);
    out
}

impl LineageState {
    /// For every identity of the dead, the last record that bore it.
    pub fn last_dead(&self) -> (r: RadixMap<u64>)
        requires
            self.wf(),
        ensures
            r.wf(),
            last_bearers(self@.died, r@),
    {
        let ghost died = self@.died;
        let ghost keys = self.spec_died_keys();
        proof {
            self.lemma_died_keys();
        }
        let count: usize = self.died_count();
        let mut out: RadixMap<u64> = RadixMap::new();
        let mut index: usize = 0;
        while index < count
            invariant
                self.wf(),
                out.wf(),
                died == self@.died,
                keys == self.spec_died_keys(),
                rising(keys),
                forall|key: u64| died.dom().contains(key) <==> #[trigger] keys.contains(key),
                count == keys.len(),
                index <= count,
                forall|k: int|
                    0 <= k < index ==> out@.dom().contains(died[#[trigger] keys[k]]) && keys[k]
                        <= out@[died[keys[k]]],
                forall|lineage: u64|
                    #[trigger] out@.dom().contains(lineage) ==> died.dom().contains(out@[lineage])
                        && died[out@[lineage]] == lineage && exists|k: int|
                        0 <= k < index && keys[k] == out@[lineage],
            decreases count - index,
        {
            let (record, own) = self.died_at(index);
            let ghost before = out@;
            out.insert(own, record);
            proof {
                assert(keys[index as int] == record);
                assert forall|k: int| 0 <= k < index + 1 implies out@.dom().contains(
                    died[#[trigger] keys[k]],
                ) && keys[k] <= out@[died[keys[k]]] by {
                    if k < index {
                        assert(keys[k] < keys[index as int]);
                        assert(before.dom().contains(died[keys[k]]));
                    }
                }
                assert forall|lineage: u64| #[trigger] out@.dom().contains(lineage) implies
                    died.dom().contains(out@[lineage]) && died[out@[lineage]] == lineage && exists|
                    k: int,
                |
                    0 <= k < index + 1 && keys[k] == out@[lineage] by {
                    if lineage == own {
                        assert(keys[index as int] == out@[lineage]);
                    } else {
                        assert(before.dom().contains(lineage));
                        let k = choose|k: int| 0 <= k < index && keys[k] == before[lineage];
                        assert(0 <= k < index + 1 && keys[k] == out@[lineage]);
                    }
                }
            }
            index += 1;
        }
        proof {
            assert forall|record: u64| #[trigger] died.dom().contains(record) implies
                out@.dom().contains(died[record]) && record <= out@[died[record]] by {
                assert(keys.contains(record));
                let k = choose|k: int| 0 <= k < keys.len() && keys[k] == record;
                assert(out@.dom().contains(died[keys[k]]));
            }
        }
        out
    }
}

// ---------------------------------------------------------------------------
// Orders of children

/// Orders as sequences.
pub open spec fn order_views(orders: Map<u64, Vec<u64>>) -> Map<u64, Seq<u64>> {
    Map::new(|key: u64| orders.dom().contains(key), |key: u64| orders[key]@)
}

/// Identities as numbers.
pub open spec fn numbers(ids: Seq<SyntaxNodeId>) -> Seq<u64> {
    ids.map_values(|id: SyntaxNodeId| id.0)
}

/// Numbers as identities.
pub open spec fn as_ids(list: Seq<u64>) -> Seq<SyntaxNodeId> {
    list.map_values(|number: u64| SyntaxNodeId(number))
}

fn list_numbers(ids: &Vec<SyntaxNodeId>) -> (r: Vec<u64>)
    ensures
        r@ == numbers(ids@),
{
    let mut out: Vec<u64> = Vec::new();
    let mut index: usize = 0;
    while index < ids.len()
        invariant
            index <= ids@.len(),
            out@ == numbers(ids@).take(index as int),
        decreases ids@.len() - index,
    {
        out.push(ids[index].0);
        index += 1;
        assert(out@ =~= numbers(ids@).take(index as int));
    }
    assert(out@ =~= numbers(ids@));
    out
}

fn list_as_ids(list: &Vec<u64>) -> (r: Vec<SyntaxNodeId>)
    ensures
        r@ == as_ids(list@),
{
    let mut out: Vec<SyntaxNodeId> = Vec::new();
    let mut index: usize = 0;
    while index < list.len()
        invariant
            index <= list@.len(),
            out@ == as_ids(list@).take(index as int),
        decreases list@.len() - index,
    {
        out.push(SyntaxNodeId(list[index]));
        index += 1;
        assert(out@ =~= as_ids(list@).take(index as int));
    }
    assert(out@ =~= as_ids(list@));
    out
}

/// How the children of a parent differ from what was published of them; none
/// where nothing was published, where they do not differ, or where the parent
/// is spliced already.
pub open spec fn kept_splice<V, T: TreeKinds<V>>(
    tree: T,
    products: Seq<ProductView>,
    ast: AstArena<V>,
    v: LineageView,
    last: Map<u64, u64>,
    orders: Map<u64, Seq<u64>>,
    spliced: Set<u64>,
    parent: LineageRecord,
) -> Option<SpliceView> {
    if spliced.contains(parent.lineage.0) || !orders.dom().contains(parent.lineage.0) {
        None
    } else {
        let after = children_now(tree, products, ast, v, parent.record);
        let old = as_ids(orders[parent.lineage.0]);
        let new = ids_of(after);
        if old == new {
            None
        } else {
            let (prefix, suffix) = shared_ends(old, new);
            Some(
                SpliceView {
                    parent: parent.lineage.0,
                    old,
                    new,
                    removed: resolved(
                        v,
                        last,
                        old.subrange(prefix as int, old.len() - suffix),
                        new,
                    ),
                    inserted: after.subrange(prefix as int, after.len() - suffix),
                },
            )
        }
    }
}

/// The changes of the children of parents that stay.
pub open spec fn kept_splices<V, T: TreeKinds<V>>(
    tree: T,
    products: Seq<ProductView>,
    ast: AstArena<V>,
    v: LineageView,
    last: Map<u64, u64>,
    orders: Map<u64, Seq<u64>>,
    spliced: Set<u64>,
    parents: Seq<LineageRecord>,
) -> Seq<SpliceView>
    decreases parents.len(),
{
    if parents.len() == 0 {
        Seq::empty()
    } else {
        let rest = kept_splices(
            tree,
            products,
            ast,
            v,
            last,
            orders,
            spliced,
            parents.drop_last(),
        );
        match kept_splice(tree, products, ast, v, last, orders, spliced, parents.last()) {
            Some(view) => rest.push(view),
            None => rest,
        }
    }
}

/// The orders with those of further parents.
pub open spec fn orders_with<V, T: TreeKinds<V>>(
    tree: T,
    products: Seq<ProductView>,
    ast: AstArena<V>,
    v: LineageView,
    orders: Map<u64, Seq<u64>>,
    parents: Seq<LineageRecord>,
) -> Map<u64, Seq<u64>>
    decreases parents.len(),
{
    if parents.len() == 0 {
        orders
    } else {
        orders_with(tree, products, ast, v, orders, parents.drop_last()).insert(
            parents.last().lineage.0,
            numbers(ids_of(children_now(tree, products, ast, v, parents.last().record))),
        )
    }
}

/// The orders without those of nodes that left.
pub open spec fn orders_without(
    orders: Map<u64, Seq<u64>>,
    nodes: Seq<LineageRecord>,
) -> Map<u64, Seq<u64>>
    decreases nodes.len(),
{
    if nodes.len() == 0 {
        orders
    } else {
        orders_without(orders, nodes.drop_last()).remove(nodes.last().lineage.0)
    }
}

pub(crate) fn copy_orders(orders: &RadixMap<Vec<u64>>) -> (r: RadixMap<Vec<u64>>)
    requires
        orders.wf(),
    ensures
        r.wf(),
        order_views(r@) == order_views(orders@),
{
    let ghost keys = orders.spec_keys();
    proof {
        orders.lemma_keys();
    }
    let count: usize = orders.len();
    let mut out: RadixMap<Vec<u64>> = RadixMap::new();
    let mut index: usize = 0;
    while index < count
        invariant
            orders.wf(),
            out.wf(),
            keys == orders.spec_keys(),
            count == keys.len(),
            index <= count,
            forall|key: u64| orders@.dom().contains(key) <==> #[trigger] keys.contains(key),
            forall|key: u64|
                #[trigger] out@.dom().contains(key) <==> exists|k: int|
                    0 <= k < index && keys[k] == key,
            forall|key: u64|
                #[trigger] out@.dom().contains(key) ==> orders@.dom().contains(key) && out@[key]@
                    == orders@[key]@,
        decreases count - index,
    {
        let key: u64 = orders.key_at(index);
        let list = orders.get(key).unwrap();
        let ghost before = out@;
        out.insert(key, part_of(list, 0, list.len()));
        proof {
            assert(list@.subrange(0, list@.len() as int) =~= list@);
            assert forall|other: u64|
                #[trigger] out@.dom().contains(other) <==> exists|k: int|
                    0 <= k < index + 1 && keys[k] == other by {
                if other == key {
                    assert(0 <= index < index + 1 && keys[index as int] == other);
                } else {
                    assert(out@.dom().contains(other) == before.dom().contains(other));
                    if before.dom().contains(other) {
                        let k = choose|k: int| 0 <= k < index && keys[k] == other;
                        assert(0 <= k < index + 1 && keys[k] == other);
                    }
                    if exists|k: int| 0 <= k < index + 1 && keys[k] == other {
                        let k = choose|k: int| 0 <= k < index + 1 && keys[k] == other;
                        assert(0 <= k < index && keys[k] == other);
                    }
                }
            }
        }
        index += 1;
    }
    proof {
        assert forall|key: u64| out@.dom().contains(key) == orders@.dom().contains(key) by {
            if orders@.dom().contains(key) {
                assert(keys.contains(key));
                let k = choose|k: int| 0 <= k < keys.len() && keys[k] == key;
                assert(0 <= k < index && keys[k] == key);
            }
        }
        assert(order_views(out@) =~= order_views(orders@));
    }
    out
}

proof fn lemma_order_insert(orders: Map<u64, Vec<u64>>, key: u64, list: Vec<u64>)
    ensures
        order_views(orders.insert(key, list)) == order_views(orders).insert(key, list@),
{
    assert(order_views(orders.insert(key, list)) =~= order_views(orders).insert(key, list@));
}

/// Notes the orders of parents, and how they differ from what was published.
fn splice_kept<V, T: TreeKinds<V>>(
    tree: &T,
    products: &ProductArena,
    ast: &AstArena<V>,
    lineage: &LineageState,
    last: &RadixMap<u64>,
    published: &RadixMap<Vec<u64>>,
    spliced: &HashSet<u64>,
    parents: &Vec<LineageRecord>,
    orders: &mut RadixMap<Vec<u64>>,
    splices: &mut Vec<ChildSplice>,
    known: Ghost<Seq<SpliceView>>,
)
    requires
        products.wf(),
        ast.wf(),
        lineage.wf(),
        last.wf(),
        published.wf(),
        old(orders).wf(),
        all_say(old(splices)@, known@),
    ensures
        final(orders).wf(),
        order_views(final(orders)@) == orders_with(
            *tree,
            products@,
            *ast,
            lineage@,
            order_views(old(orders)@),
            parents@,
        ),
        all_say(
            final(splices)@,
            known@ + kept_splices(
                *tree,
                products@,
                *ast,
                lineage@,
                last@,
                order_views(published@),
                spliced@,
                parents@,
            ),
        ),
{
    broadcast use vstd::std_specs::hash::group_hash_axioms;

    let ghost orders0 = order_views(orders@);
    let mut index: usize = 0;
    assert(parents@.take(0) =~= Seq::<LineageRecord>::empty());
    assert(known@ + Seq::<SpliceView>::empty() =~= known@);
    while index < parents.len()
        invariant
            index <= parents@.len(),
            products.wf(),
            ast.wf(),
            lineage.wf(),
            last.wf(),
            published.wf(),
            orders.wf(),
            orders0 == order_views(old(orders)@),
            order_views(orders@) == orders_with(
                *tree,
                products@,
                *ast,
                lineage@,
                orders0,
                parents@.take(index as int),
            ),
            all_say(
                splices@,
                known@ + kept_splices(
                    *tree,
                    products@,
                    *ast,
                    lineage@,
                    last@,
                    order_views(published@),
                    spliced@,
                    parents@.take(index as int),
                ),
            ),
        decreases parents@.len() - index,
    {
        broadcast use vstd::std_specs::hash::group_hash_axioms;

        let parent = parents[index];
        let ghost done = parents@.take(index as int);
        let ghost next = parents@.take(index as int + 1);
        let ghost views = kept_splices(
            *tree,
            products@,
            *ast,
            lineage@,
            last@,
            order_views(published@),
            spliced@,
            done,
        );
        assert(next.drop_last() =~= done);
        assert(next.last() == parent);
        let after = identify(lineage, &list_children(tree, products, ast, parent.record));
        let new = list_ids(&after);
        let order = list_numbers(&new);
        let ghost orders1 = orders@;
        proof {
            lemma_order_insert(orders1, parent.lineage.0, order);
        }
        orders.insert(parent.lineage.0, order);
        if !spliced.contains(&parent.lineage.0) {
            match published.get(parent.lineage.0) {
                Some(old_order) => {
                    let old = list_as_ids(old_order);
                    if !same_ids(&old, &new) {
                        let (prefix, suffix) = common_edges(&old, &new);
                        let middle = part_of(&old, prefix, old.len() - suffix);
                        let removed_children = resolve_dropped(lineage, last, &middle, &new);
                        let inserted_children = part_of(&after, prefix, after.len() - suffix);
                        let splice = ChildSplice {
                            parent: parent.lineage,
                            delta: ordered_splice(&old, &new),
                            removed_children,
                            inserted_children,
                        };
                        let ghost view = kept_splice(
                            *tree,
                            products@,
                            *ast,
                            lineage@,
                            last@,
                            order_views(published@),
                            spliced@,
                            parent,
                        )->Some_0;
                        assert(says(splice, view));
                        splices.push(splice);
                        assert(known@ + views.push(view) =~= (known@ + views).push(view));
                    }
                },
                None => {},
            }
        }
        index += 1;
    }
    assert(parents@.take(index as int) =~= parents@);
}

/// The live records with their identities.
pub open spec fn live_nodes(v: LineageView, live: Map<u64, ()>) -> Seq<LineageRecord> {
    identified(v, distinct_sorted(live.dom()))
}

fn list_live(lineage: &LineageState, live: &RadixMap<()>) -> (r: Vec<LineageRecord>)
    requires
        lineage.wf(),
        live.wf(),
    ensures
        r@ == live_nodes(lineage@, live@),
{
    let ghost keys = live.spec_keys();
    proof {
        live.lemma_keys();
    }
    let count: usize = live.len();
    let mut records: Vec<u64> = Vec::new();
    let mut index: usize = 0;
    while index < count
        invariant
            live.wf(),
            keys == live.spec_keys(),
            count == keys.len(),
            index <= count,
            records@ == keys.take(index as int),
        decreases count - index,
    {
        records.push(live.key_at(index));
        index += 1;
        assert(records@ =~= keys.take(index as int));
    }
    proof {
        assert(keys.take(index as int) =~= keys);
        assert(strictly_ascending(keys));
        assert(keys.to_set() =~= live@.dom());
        lemma_strictly_ascending_unique(keys, distinct_sorted(live@.dom()));
    }
    identify(lineage, &records)
}

/// Notes the orders of all live records.
fn note_orders<V, T: TreeKinds<V>>(
    tree: &T,
    products: &ProductArena,
    ast: &AstArena<V>,
    lineage: &LineageState,
    nodes: &Vec<LineageRecord>,
    orders: &mut RadixMap<Vec<u64>>,
)
    requires
        products.wf(),
        ast.wf(),
        lineage.wf(),
        old(orders).wf(),
    ensures
        final(orders).wf(),
        order_views(final(orders)@) == orders_with(
            *tree,
            products@,
            *ast,
            lineage@,
            order_views(old(orders)@),
            nodes@,
        ),
{
    let ghost orders0 = order_views(orders@);
    let mut index: usize = 0;
    assert(nodes@.take(0) =~= Seq::<LineageRecord>::empty());
    while index < nodes.len()
        invariant
            index <= nodes@.len(),
            products.wf(),
            ast.wf(),
            lineage.wf(),
            orders.wf(),
            orders0 == order_views(old(orders)@),
            order_views(orders@) == orders_with(
                *tree,
                products@,
                *ast,
                lineage@,
                orders0,
                nodes@.take(index as int),
            ),
        decreases nodes@.len() - index,
    {
        let node = nodes[index];
        assert(nodes@.take(index as int + 1).drop_last() =~= nodes@.take(index as int));
        let after = identify(lineage, &list_children(tree, products, ast, node.record));
        let order = list_numbers(&list_ids(&after));
        let ghost orders1 = orders@;
        proof {
            lemma_order_insert(orders1, node.lineage.0, order);
        }
        orders.insert(node.lineage.0, order);
        index += 1;
    }
    assert(nodes@.take(index as int) =~= nodes@);
}

/// Drops the orders of nodes that left.
fn drop_orders(orders: &mut RadixMap<Vec<u64>>, nodes: &Vec<LineageRecord>)
    requires
        old(orders).wf(),
    ensures
        final(orders).wf(),
        order_views(final(orders)@) == orders_without(order_views(old(orders)@), nodes@),
{
    let ghost orders0 = order_views(orders@);
    let mut index: usize = 0;
    assert(nodes@.take(0) =~= Seq::<LineageRecord>::empty());
    while index < nodes.len()
        invariant
            index <= nodes@.len(),
            orders.wf(),
            orders0 == order_views(old(orders)@),
            order_views(orders@) == orders_without(orders0, nodes@.take(index as int)),
        decreases nodes@.len() - index,
    {
        assert(nodes@.take(index as int + 1).drop_last() =~= nodes@.take(index as int));
        let ghost orders1 = orders@;
        let key: u64 = nodes[index].lineage.0;
        orders.remove(key);
        assert(order_views(orders@) =~= order_views(orders1).remove(key));
        index += 1;
    }
    assert(nodes@.take(index as int) =~= nodes@);
}

/// The parents of a list of splices.
pub open spec fn spliced_parents(list: Seq<SpliceView>) -> Set<u64> {
    Set::new(|parent: u64| exists|i: int| 0 <= i < list.len() && (#[trigger] list[i]).parent == parent)
}

fn list_spliced(splices: &Vec<ChildSplice>, known: Ghost<Seq<SpliceView>>) -> (r: HashSet<u64>)
    requires
        all_say(splices@, known@),
    ensures
        r@ == spliced_parents(known@),
{
    broadcast use vstd::std_specs::hash::group_hash_axioms;

    let mut out: HashSet<u64> = HashSet::new();
    let mut index: usize = 0;
    while index < splices.len()
        invariant
            index <= splices@.len(),
            all_say(splices@, known@),
            forall|parent: u64|
                #[trigger] out@.contains(parent) <==> exists|i: int|
                    0 <= i < index && (#[trigger] known@[i]).parent == parent,
        decreases splices@.len() - index,
    {
        broadcast use vstd::std_specs::hash::group_hash_axioms;

        let parent: u64 = splices[index].parent.0;
        let ghost before = out@;
        assert(says(splices@[index as int], known@[index as int]));
        out.insert(parent);
        assert forall|other: u64|
            #[trigger] out@.contains(other) <==> exists|i: int|
                0 <= i < index + 1 && (#[trigger] known@[i]).parent == other by {
            if other == parent {
                assert(known@[index as int].parent == other);
            } else {
                if before.contains(other) {
                    let i = choose|i: int| 0 <= i < index && (#[trigger] known@[i]).parent == other;
                    assert(known@[i].parent == other);
                }
                if exists|i: int| 0 <= i < index + 1 && (#[trigger] known@[i]).parent == other {
                    let i = choose|i: int|
                        0 <= i < index + 1 && (#[trigger] known@[i]).parent == other;
                    assert(i < index);
                }
            }
        }
        index += 1;
    }
    assert(out@ =~= spliced_parents(known@));
    out
}

// ---------------------------------------------------------------------------
// Freezing

/// What a command is frozen from, besides the identities: the tree as it was
/// published, and what the command ended with.
pub ghost struct FreezeInput<V, T> {
    pub tree: T,
    pub products: Seq<ProductView>,
    pub ast: AstArena<V>,
    /// The identities that were committed with the last command.
    pub committed: Map<u64, u64>,
    /// The orders of children that were published.
    pub orders: Map<u64, Seq<u64>>,
    pub old_root: Option<u64>,
    pub new_root: Option<u64>,
    pub old_infos: Seq<ParseErrorInfo>,
    pub new_infos: Seq<ParseErrorInfo>,
    pub old_status: Option<ParsedStatus>,
    pub new_status: ParsedStatus,
    /// The identities of the tokens that recovery made up.
    pub synthetic: Map<u64, u64>,
}

/// The nodes that leave, in ascending order.
pub open spec fn leavers<V, T: TreeKinds<V>>(
    input: FreezeInput<V, T>,
    v: LineageView,
    came: Seq<u64>,
    went: Seq<u64>,
) -> Seq<LineageRecord> {
    distinct_sorted(leaving_nodes(input.committed, v, borne(v, came), went).to_set())
}

/// The identities of made-up tokens.
pub open spec fn made_up(synthetic: Map<u64, u64>) -> Set<SyntheticTokenId> {
    Set::new(
        |id: SyntheticTokenId|
            exists|key: u64| #[trigger] synthetic.dom().contains(key) && synthetic[key] == id.0,
    )
}

/// The identity of the root as it was published.
pub open spec fn old_root_lineage<V, T: TreeKinds<V>>(input: FreezeInput<V, T>) -> Option<u64> {
    match input.old_root {
        Some(record) => found(input.committed, record),
        None => None,
    }
}

/// The identity of the root as it is.
pub open spec fn new_root_lineage<V, T: TreeKinds<V>>(
    input: FreezeInput<V, T>,
    v: LineageView,
) -> Option<u64> {
    match input.new_root {
        Some(record) => known_lineage(v, record as usize),
        None => None,
    }
}

/// A list of at most one identity.
pub open spec fn at_most_one(lineage: Option<u64>) -> Seq<SyntaxNodeId> {
    match lineage {
        Some(own) => seq![SyntaxNodeId(own)],
        None => Seq::empty(),
    }
}

/// The payloads that came, changed and went.
pub open spec fn payloads_frozen<V, T: TreeKinds<V>>(
    delta: ParseDelta,
    input: FreezeInput<V, T>,
    v: LineageView,
    live: Map<u64, ()>,
    came: Seq<u64>,
    went: Seq<u64>,
) -> bool {
    let fresh = fresh_nodes(v, live, input.products, input.ast, came);
    let changed = changed_nodes(v, live, input.products, input.ast, came);
    let left = leaving_nodes(input.committed, v, borne(v, came), went);
    &&& delta.ast_records.inserted@ == came
    &&& delta.ast_records.updated@.len() == 0
    &&& delta.ast_records.removed@ == went
    &&& delta.syntax_payloads.inserted@ == distinct_sorted(ids_of(fresh).to_set())
    &&& delta.syntax_payloads.updated@ == distinct_sorted(ids_of(changed).to_set())
    &&& delta.syntax_payloads.removed@ == distinct_sorted(ids_of(left).to_set())
    &&& delta.parents.spec_is_empty()
    &&& delta.inserted_records@ == distinct_sorted(fresh.to_set())
    &&& delta.updated_records@ == distinct_sorted(changed.to_set())
    &&& delta.removed_records@.len() == leavers(input, v, came, went).len()
    &&& forall|i: int|
        0 <= i < delta.removed_records@.len() ==> tells_of(
            #[trigger] delta.removed_records@[i],
            leavers(input, v, came, went)[i],
            input.tree,
            input.products,
            input.ast,
            input.committed,
            v,
        )
}

/// The orders of children after a command.
pub open spec fn orders_after<V, T: TreeKinds<V>>(
    input: FreezeInput<V, T>,
    v: LineageView,
    live: Map<u64, ()>,
    came: Seq<u64>,
    went: Seq<u64>,
) -> Map<u64, Seq<u64>> {
    let changed = changed_nodes(v, live, input.products, input.ast, came);
    let parents = candidates(v, input.ast, came, went, changed);
    let touched = orders_with(input.tree, input.products, input.ast, v, input.orders, parents);
    let all = if input.orders.dom() == Set::<u64>::empty() {
        orders_with(input.tree, input.products, input.ast, v, touched, live_nodes(v, live))
    } else {
        touched
    };
    orders_without(all, leavers(input, v, came, went))
}

/// The splices of a command, given what dropped identities resolve to.
pub open spec fn splices_after<V, T: TreeKinds<V>>(
    input: FreezeInput<V, T>,
    v: LineageView,
    live: Map<u64, ()>,
    came: Seq<u64>,
    went: Seq<u64>,
    last: Map<u64, u64>,
) -> Seq<SpliceView> {
    let changed = changed_nodes(v, live, input.products, input.ast, came);
    let first = changed_splices(input.tree, input.products, input.ast, v, changed);
    first + kept_splices(
        input.tree,
        input.products,
        input.ast,
        v,
        last,
        input.orders,
        spliced_parents(first),
        candidates(v, input.ast, came, went, changed),
    )
}

/// The splices and orders of children.
pub open spec fn children_frozen<V, T: TreeKinds<V>>(
    delta: ParseDelta,
    input: FreezeInput<V, T>,
    v: LineageView,
    live: Map<u64, ()>,
    came: Seq<u64>,
    went: Seq<u64>,
) -> bool {
    &&& exists|last: Map<u64, u64>|
        #[trigger] last_bearers(v.died, last) && all_say(
            delta.child_splices@,
            splices_after(input, v, live, came, went, last),
        )
    &&& delta.child_orders_next.wf()
    &&& order_views(delta.child_orders_next@) == orders_after(input, v, live, came, went)
}

/// The root, the made-up tokens, the diagnostics and the status.
pub open spec fn rest_frozen<V, T: TreeKinds<V>>(
    delta: ParseDelta,
    input: FreezeInput<V, T>,
    v: LineageView,
    live: Map<u64, ()>,
) -> bool {
    let old_root = old_root_lineage(input);
    let new_root = new_root_lineage(input, v);
    let old_keys = diagnostic_keys(input.old_infos).to_set();
    let new_keys = diagnostic_keys(input.new_infos).to_set();
    &&& delta.roots.before is None
    &&& delta.roots.after is None
    &&& delta.roots.removed@ == if old_root == new_root {
        Seq::empty()
    } else {
        at_most_one(old_root)
    }
    &&& delta.roots.inserted@ == if old_root == new_root {
        Seq::empty()
    } else {
        at_most_one(new_root)
    }
    &&& delta.synthesized_tokens.inserted@ == distinct_sorted(made_up(input.synthetic))
    &&& delta.synthesized_tokens.updated@.len() == 0
    &&& delta.synthesized_tokens.removed@.len() == 0
    &&& delta.synthesized_tokens.sorted_disjoint()
    &&& delta.diagnostics.inserted@ == distinct_sorted(new_keys.difference(old_keys))
    &&& delta.diagnostics.updated@.len() == 0
    &&& delta.diagnostics.removed@ == distinct_sorted(old_keys.difference(new_keys))
    &&& delta.diagnostics.sorted_disjoint()
    &&& delta.status == if input.old_status == Some(input.new_status) {
        None
    } else {
        Some(input.new_status)
    }
    &&& delta.live_records.wf()
    &&& delta.live_records@ == live
}

/// `delta` is what a command changed.
pub open spec fn frozen<V, T: TreeKinds<V>>(
    delta: ParseDelta,
    input: FreezeInput<V, T>,
    v: LineageView,
    live: Map<u64, ()>,
    came: Seq<u64>,
    went: Seq<u64>,
) -> bool {
    &&& payloads_frozen(delta, input, v, live, came, went)
    &&& children_frozen(delta, input, v, live, came, went)
    &&& rest_frozen(delta, input, v, live)
}

/// The identities of the made-up tokens, in ascending order.
fn list_made_up(synthetic: &RadixMap<u64>) -> (r: Vec<SyntheticTokenId>)
    requires
        synthetic.wf(),
    ensures
        strictly_ascending(r@),
        r@ == distinct_sorted(made_up(synthetic@)),
{
    let ghost keys = synthetic.spec_keys();
    proof {
        synthetic.lemma_keys();
    }
    let count: usize = synthetic.len();
    let mut all: Vec<SyntheticTokenId> = Vec::new();
    let mut index: usize = 0;
    while index < count
        invariant
            synthetic.wf(),
            keys == synthetic.spec_keys(),
            count == keys.len(),
            index <= count,
            forall|key: u64| synthetic@.dom().contains(key) <==> #[trigger] keys.contains(key),
            all@.len() == index,
            forall|i: int| 0 <= i < index ==> (#[trigger] all@[i]).0 == synthetic@[keys[i]],
        decreases count - index,
    {
        let key: u64 = synthetic.key_at(index);
        all.push(SyntheticTokenId(*synthetic.get(key).unwrap()));
        index += 1;
    }
    proof {
        assert forall|id: SyntheticTokenId| all@.to_set().contains(id) == made_up(
            synthetic@,
        ).contains(id) by {
            if all@.contains(id) {
                let i = choose|i: int| 0 <= i < all@.len() && all@[i] == id;
                assert(keys.contains(keys[i]));
                assert(synthetic@.dom().contains(keys[i]));
            }
            if made_up(synthetic@).contains(id) {
                let key = choose|key: u64|
                    #[trigger] synthetic@.dom().contains(key) && synthetic@[key] == id.0;
                assert(keys.contains(key));
                let i = choose|i: int| 0 <= i < keys.len() && keys[i] == key;
                assert(all@[i] == id);
            }
        }
        assert(all@.to_set() =~= made_up(synthetic@));
    }
    sorted_distinct(&all)
}

/// How the root changed.
fn root_delta(old_root: Option<u64>, new_root: Option<u64>) -> (r: OrderedDelta<SyntaxNodeId>)
    ensures
        r.before is None,
        r.after is None,
        r.removed@ == if old_root == new_root {
            Seq::<SyntaxNodeId>::empty()
        } else {
            at_most_one(old_root)
        },
        r.inserted@ == if old_root == new_root {
            Seq::<SyntaxNodeId>::empty()
        } else {
            at_most_one(new_root)
        },
{
    let same = match (old_root, new_root) {
        (Some(a), Some(b)) => a == b,
        (None, None) => true,
        _ => false,
    };
    if same {
        return OrderedDelta::empty();
    }
    let mut removed: Vec<SyntaxNodeId> = Vec::new();
    let mut inserted: Vec<SyntaxNodeId> = Vec::new();
    match old_root {
        Some(own) => {
            removed.push(SyntaxNodeId(own));
        },
        None => {},
    }
    match new_root {
        Some(own) => {
            inserted.push(SyntaxNodeId(own));
        },
        None => {},
    }
    assert(removed@ =~= at_most_one(old_root));
    assert(inserted@ =~= at_most_one(new_root));
    OrderedDelta { before: None, removed, inserted, after: None }
}

/// No identity is left for a record that a command brought to life.
pub open spec fn freezing_exhausted<V>(
    lineage: LineageView,
    ast: AstArena<V>,
    change: RootChange,
    records: Map<u64, ()>,
) -> bool {
    exists|update: ReachabilityUpdate| #[trigger]
        applied(change, records, update) && no_identity_left(
            lineage,
            ast,
            dormant(distinct_sorted(born(update.record_journal@)), lineage.lineages),
        )
}

/// Freezes a command: what came, changed and went between the tree as it was
/// published and what the accepted roots now reach.
pub fn freeze_parse_delta<V, T: TreeKinds<V>>(
    lineage: &mut LineageState,
    synthetic: &RadixMap<u64>,
    products: &ProductArena,
    ast: &AstArena<V>,
    previous: &ParserTreeFacts,
    previous_roots: &[ProductId],
    current_roots: &[ProductId],
    tree_root: Option<u64>,
    previous_infos: &[ParseErrorInfo],
    current_infos: &[ParseErrorInfo],
    previous_status: Option<ParsedStatus>,
    current_status: ParsedStatus,
    tree: &T,
) -> (r: Result<(ParseDelta, ReachabilityUpdate), ParseError>)
    requires
        old(lineage).wf(),
        synthetic.wf(),
        products.wf(),
        ast.wf(),
        previous.wf(),
    ensures
        final(lineage).wf(),
        ({
            let change = change_from(*previous, previous_roots@, current_roots@, products@);
            let input = FreezeInput {
                tree: *tree,
                products: products@,
                ast: *ast,
                committed: previous.record_lineages@,
                orders: order_views(previous.child_orders@),
                old_root: previous.root,
                new_root: tree_root,
                old_infos: previous_infos@,
                new_infos: current_infos@,
                old_status: previous_status,
                new_status: current_status,
                synthetic: synthetic@,
            };
            match r {
                Ok((delta, update)) => {
                    let came = distinct_sorted(born(update.record_journal@));
                    let went = distinct_sorted(gone(update.record_journal@));
                    &&& applied(change, previous.records@, update)
                    &&& final(lineage)@ == settled(
                        old(lineage)@,
                        update.live_records@,
                        came,
                        went,
                        products@,
                        *ast,
                    )
                    &&& frozen(
                        delta,
                        input,
                        final(lineage)@,
                        update.live_records@,
                        came,
                        went,
                    )
                },
                Err(error) => {
                    ||| refused(change, previous.records@, error)
                    ||| error == ParseError::Build(BuildError::Exhausted) && freezing_exhausted(
                        old(lineage)@,
                        *ast,
                        change,
                        previous.records@,
                    )
                },
            }
        }),
{
    let ghost change = change_from(*previous, previous_roots@, current_roots@, products@);
    let update = match apply_accepted_root_delta(
        previous,
        previous_roots,
        current_roots,
        products,
    ) {
        Ok(update) => update,
        Err(error) => {
            return Err(error);
        },
    };
    let (came, went) = transitions(&update.record_journal);
    if !lineage.settle(&update.live_records, &came, &went, products, ast) {
        assert(applied(change, previous.records@, update));
        return Err(ParseError::Build(BuildError::Exhausted));
    }
    let (fresh, changed, carriers) = classify(
        lineage,
        &update.live_records,
        products,
        ast,
        &came,
    );
    let left = list_leaving(&previous.record_lineages, lineage, &carriers, &went);
    let leavers = sorted_distinct(&left);
    let removed_records = tell_removed(
        tree,
        products,
        ast,
        &previous.record_lineages,
        lineage,
        &leavers,
    );
    let last = lineage.last_dead();
    let mut splices = splice_all_changed(tree, products, ast, lineage, &changed);
    let ghost first = changed_splices(*tree, products@, *ast, lineage@, changed@);
    let spliced = list_spliced(&splices, Ghost(first));
    let parents = list_candidates(lineage, ast, &came, &went, &changed);
    let mut orders = copy_orders(&previous.child_orders);
    splice_kept(
        tree,
        products,
        ast,
        lineage,
        &last,
        &previous.child_orders,
        &spliced,
        &parents,
        &mut orders,
        &mut splices,
        Ghost(first),
    );
    if previous.child_orders.is_empty() {
        let nodes = list_live(lineage, &update.live_records);
        note_orders(tree, products, ast, lineage, &nodes, &mut orders);
    }
    proof {
        let prior = order_views(previous.child_orders@);
        if previous.child_orders@ == Map::<u64, Vec<u64>>::empty() {
            assert(prior.dom() =~= Set::<u64>::empty());
        } else if prior.dom() == Set::<u64>::empty() {
            assert forall|key: u64| !previous.child_orders@.dom().contains(key) by {
                assert(!prior.dom().contains(key));
            }
            assert(previous.child_orders@ =~= Map::<u64, Vec<u64>>::empty());
        }
    }
    drop_orders(&mut orders, &leavers);
    let old_root: Option<u64> = match previous.root {
        Some(record) => match previous.record_lineages.get(record) {
            Some(own) => Some(*own),
            None => None,
        },
        None => None,
    };
    let new_root: Option<u64> = match tree_root {
        Some(record) => lineage.resolve_lineage(record as usize),
        None => None,
    };
    let same_status = match previous_status {
        Some(status) => status == current_status,
        None => false,
    };
    let delta = ParseDelta {
        ast_records: KeyDelta { inserted: came, updated: Vec::new(), removed: went },
        syntax_payloads: KeyDelta {
            inserted: sorted_distinct(&list_ids(&fresh)),
            updated: sorted_distinct(&list_ids(&changed)),
            removed: sorted_distinct(&list_ids(&left)),
        },
        parents: KeyDelta::empty(),
        child_splices: splices,
        child_orders_next: orders,
        roots: root_delta(old_root, new_root),
        synthesized_tokens: KeyDelta {
            inserted: list_made_up(synthetic),
            updated: Vec::new(),
            removed: Vec::new(),
        },
        diagnostics: diagnostic_delta(previous_infos, current_infos),
        status: if same_status {
            None
        } else {
            Some(current_status)
        },
        inserted_records: sorted_distinct(&fresh),
        removed_records,
        updated_records: sorted_distinct(&changed),
        live_records: update.live_records.copied(),
    };
    assert(last_bearers(lineage@.died, last@));
    Ok((delta, update))
}

} // verus!
