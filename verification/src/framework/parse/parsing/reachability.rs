//! Which products and records the accepted roots reach.
//!
//! Every product and every record has a count: how often it is mentioned by
//! the accepted roots and by the products that these reach. A change of the
//! accepted roots touches only products whose count moves away from zero or
//! back to it.

use vstd::prelude::*;
use vstd::seq_lib::*;

use crate::framework::parse::data::product::{
    children_of, own_record, ProductArena, ProductId, ProductView,
};
use crate::framework::parse::parsing::error::{ParseError, ReachError};
use crate::framework::parse::types::{ParserTreeFacts, RecordTransition};
use crate::store::RadixMap;

verus! {

// ---------------------------------------------------------------------------
// What counts mean

/// A count; zero where none is kept.
pub open spec fn count_at(counts: Map<u64, u32>, key: int) -> int {
    if 0 <= key <= u64::MAX && counts.dom().contains(key as u64) {
        counts[key as u64] as int
    } else {
        0
    }
}

/// How often a list of ids mentions an id.
pub open spec fn mentions(ids: Seq<usize>, id: int) -> int {
    if 0 <= id <= usize::MAX {
        ids.to_multiset().count(id as usize) as int
    } else {
        0
    }
}

/// The children of a product; none where there is no such product.
pub open spec fn children_at(products: Seq<ProductView>, id: int) -> Seq<usize> {
    if 0 <= id < products.len() {
        children_of(products[id])
    } else {
        Seq::empty()
    }
}

/// The record that a product stands for.
pub open spec fn record_at(products: Seq<ProductView>, id: int) -> Option<u64> {
    if 0 <= id < products.len() {
        match own_record(products[id]) {
            Some(record) => Some(record as u64),
            None => None,
        }
    } else {
        None
    }
}

/// How often roots and the products that they reach mention a product, where
/// every child comes before its parent.
pub open spec fn reach_count(products: Seq<ProductView>, roots: Seq<usize>, id: int) -> int
    decreases products.len() - id, 0int,
{
    if id >= products.len() {
        mentions(roots, id)
    } else {
        mentions(roots, id) + reached_edges(products, roots, id, id + 1)
    }
}

/// How often the reached products from `from` on mention a product.
pub open spec fn reached_edges(
    products: Seq<ProductView>,
    roots: Seq<usize>,
    id: int,
    from: int,
) -> int
    decreases products.len() - from, 1int,
{
    if from >= products.len() {
        0
    } else {
        (if reach_count(products, roots, from) > 0 {
            mentions(children_at(products, from), id)
        } else {
            0
        }) + reached_edges(products, roots, id, from + 1)
    }
}

/// How many reached products from `from` on stand for a record.
pub open spec fn record_count(
    products: Seq<ProductView>,
    roots: Seq<usize>,
    record: u64,
    from: int,
) -> int
    decreases products.len() - from,
{
    if from >= products.len() {
        0
    } else {
        (if reach_count(products, roots, from) > 0 && record_at(products, from) == Some(record) {
            1int
        } else {
            0
        }) + record_count(products, roots, record, from + 1)
    }
}

// ---------------------------------------------------------------------------
// How counts change

/// A change of the accepted roots on top of given counts.
pub ghost struct RootChange {
    pub products: Seq<ProductView>,
    pub counts: Map<u64, u32>,
    pub records: Map<u64, u32>,
    pub previous: Seq<usize>,
    pub current: Seq<usize>,
}

/// How the accepted lists themselves change the count of a product.
pub open spec fn root_change(change: RootChange, id: int) -> int {
    mentions(change.current, id) - mentions(change.previous, id)
}

/// How the count of a product changes: by the accepted lists, and by the
/// products above it that come to life or die.
pub open spec fn change_of(change: RootChange, id: int) -> int
    decreases change.products.len() - id, 0int,
{
    if id >= change.products.len() {
        root_change(change, id)
    } else {
        root_change(change, id) + edge_change(change, id, id + 1)
    }
}

/// How the products from `from` on that come to life or die change the count
/// of a product.
pub open spec fn edge_change(change: RootChange, id: int, from: int) -> int
    decreases change.products.len() - from, 1int,
{
    if from >= change.products.len() {
        0
    } else {
        turn(count_at(change.counts, from), change_of(change, from)) * mentions(
            children_at(change.products, from),
            id,
        ) + edge_change(change, id, from + 1)
    }
}

/// One where a count comes to life, minus one where it dies.
pub open spec fn turn(before: int, delta: int) -> int {
    if before == 0 && before + delta > 0 {
        1
    } else if before > 0 && before + delta == 0 {
        -1
    } else {
        0
    }
}

/// Whether a product comes to life or dies.
pub open spec fn turn_of(change: RootChange, id: int) -> int {
    turn(count_at(change.counts, id), change_of(change, id))
}

/// How the products from `from` on that come to life or die change the count
/// of a record.
pub open spec fn record_change(change: RootChange, record: u64, from: int) -> int
    decreases change.products.len() - from,
{
    if from >= change.products.len() {
        0
    } else {
        (if record_at(change.products, from) == Some(record) {
            turn_of(change, from)
        } else {
            0
        }) + record_change(change, record, from + 1)
    }
}

/// Some product from `from` on that stands for a record comes to life or dies.
pub open spec fn touched(change: RootChange, record: u64, from: int) -> bool {
    exists|id: int|
        from <= id < change.products.len() && record_at(change.products, id) == Some(record)
            && #[trigger] turn_of(change, id) != 0
}

/// The counts after a change: a count that moved is kept where it is not zero.
pub open spec fn counts_after(change: RootChange, counts: Map<u64, u32>) -> bool {
    forall|key: u64|
        #![trigger counts.dom().contains(key)]
        {
            &&& counts.dom().contains(key) <==> if change_of(change, key as int) == 0 {
                change.counts.dom().contains(key)
            } else {
                count_at(change.counts, key as int) + change_of(change, key as int) != 0
            }
            &&& counts.dom().contains(key) ==> counts[key] == count_at(change.counts, key as int)
                + change_of(change, key as int)
        }
}

/// The record counts after the changes of the products from `from` on.
pub open spec fn records_after(change: RootChange, from: int, records: Map<u64, u32>) -> bool {
    forall|key: u64|
        #![trigger records.dom().contains(key)]
        {
            &&& records.dom().contains(key) <==> if touched(change, key, from) {
                count_at(change.records, key as int) + record_change(change, key, from) != 0
            } else {
                change.records.dom().contains(key)
            }
            &&& records.dom().contains(key) ==> records[key] == count_at(
                change.records,
                key as int,
            ) + record_change(change, key, from)
        }
}

/// The journal after the changes of the products from `from` on: the touched
/// records with their counts before and after.
pub open spec fn journal_after(
    change: RootChange,
    from: int,
    journal: Map<u64, RecordTransition>,
) -> bool {
    forall|key: u64|
        #![trigger journal.dom().contains(key)]
        {
            &&& journal.dom().contains(key) <==> touched(change, key, from)
            &&& journal.dom().contains(key) ==> journal[key].before_count == count_at(
                change.records,
                key as int,
            ) && journal[key].after_count == count_at(change.records, key as int)
                + record_change(change, key, from)
        }
}

/// A record dies.
pub open spec fn record_dies(change: RootChange, record: u64) -> bool {
    touched(change, record, 0) && count_at(change.records, record as int) > 0 && count_at(
        change.records,
        record as int,
    ) + record_change(change, record, 0) == 0
}

/// A record comes to life.
pub open spec fn record_wakes(change: RootChange, record: u64) -> bool {
    touched(change, record, 0) && count_at(change.records, record as int) == 0 && count_at(
        change.records,
        record as int,
    ) + record_change(change, record, 0) > 0
}

/// The live records after a change.
pub open spec fn live_after(change: RootChange, before: Map<u64, ()>, after: Map<u64, ()>) -> bool {
    forall|key: u64|
        #[trigger] after.dom().contains(key) <==> record_wakes(change, key) || (
        before.dom().contains(key) && !record_dies(change, key))
}

// ---------------------------------------------------------------------------
// What can go wrong

/// A count outside of its range.
pub open spec fn unfit(value: int) -> bool {
    value < 0 || value > u32::MAX
}

/// A sum outside of its range.
pub open spec fn too_wide(value: int) -> bool {
    value < i64::MIN || value > i64::MAX
}

/// The first mention in the previous roots that cannot be noted.
pub open spec fn previous_error(change: RootChange, at: int) -> Option<ReachError>
    decreases change.previous.len() - at,
{
    if at < 0 || at >= change.previous.len() {
        None
    } else if too_wide(
        -mentions(change.previous.take(at), change.previous[at] as int) - 1,
    ) {
        Some(
            ReachError {
                kind: "product-pending"@,
                key: change.previous[at] as u64,
                before: 0,
                delta: (-1) as i64,
            },
        )
    } else {
        previous_error(change, at + 1)
    }
}

/// The first mention in the current roots that cannot be noted.
pub open spec fn current_error(change: RootChange, at: int) -> Option<ReachError>
    decreases change.current.len() - at,
{
    if at < 0 || at >= change.current.len() {
        None
    } else if too_wide(
        mentions(change.current.take(at), change.current[at] as int) - mentions(
            change.previous,
            change.current[at] as int,
        ) + 1,
    ) {
        Some(
            ReachError {
                kind: "product-pending"@,
                key: change.current[at] as u64,
                before: 0,
                delta: 1,
            },
        )
    } else {
        current_error(change, at + 1)
    }
}

/// The first child of a product, from the place `at` on, whose mention cannot
/// be noted.
pub open spec fn child_error(change: RootChange, id: int, at: int) -> Option<ReachError>
    decreases children_at(change.products, id).len() - at,
{
    let children = children_at(change.products, id);
    if at < 0 || at >= children.len() {
        None
    } else if children[at] >= id {
        Some(
            ReachError {
                kind: "non-topological-edge"@,
                key: id as u64,
                before: count_at(change.counts, id) as u32,
                delta: children[at] as i64,
            },
        )
    } else if too_wide(
        root_change(change, children[at] as int) + edge_change(change, children[at] as int, id + 1)
            + turn_of(change, id) * mentions(children.take(at), children[at] as int) + turn_of(
            change,
            id,
        ),
    ) {
        Some(
            ReachError {
                kind: "product-pending"@,
                key: children[at] as u64,
                before: 0,
                delta: turn_of(change, id) as i64,
            },
        )
    } else {
        child_error(change, id, at + 1)
    }
}

/// What goes wrong at a product.
pub open spec fn product_error(change: RootChange, id: int) -> Option<ReachError> {
    let before = count_at(change.counts, id);
    let delta = change_of(change, id);
    if delta == 0 {
        None
    } else if unfit(before + delta) {
        Some(
            ReachError {
                kind: "product"@,
                key: id as u64,
                before: before as u32,
                delta: delta as i64,
            },
        )
    } else if turn_of(change, id) == 0 {
        None
    } else if record_unfit(change, id) {
        Some(
            ReachError {
                kind: "record"@,
                key: record_at(change.products, id)->Some_0,
                before: record_before(change, id) as u32,
                delta: turn_of(change, id) as i64,
            },
        )
    } else if id >= change.products.len() {
        Some(
            ReachError {
                kind: "missing-product"@,
                key: id as u64,
                before: before as u32,
                delta: delta as i64,
            },
        )
    } else {
        child_error(change, id, 0)
    }
}

/// The count of a product's record before the product is looked at.
pub open spec fn record_before(change: RootChange, id: int) -> int {
    let record = record_at(change.products, id)->Some_0;
    count_at(change.records, record as int) + record_change(change, record, id + 1)
}

/// The count of a product's record leaves its range.
pub open spec fn record_unfit(change: RootChange, id: int) -> bool {
    record_at(change.products, id) is Some && unfit(
        record_before(change, id) + turn_of(change, id),
    )
}

/// What goes wrong first among the products from `id` downwards.
pub open spec fn first_error(change: RootChange, id: int) -> Option<ReachError>
    decreases id + 1,
{
    if id < 0 {
        None
    } else if product_error(change, id) is Some {
        product_error(change, id)
    } else {
        first_error(change, id - 1)
    }
}

/// A record that dies is not among the live records.
pub open spec fn dies_unknown(change: RootChange, live: Map<u64, ()>, record: u64) -> bool {
    record_dies(change, record) && !live.dom().contains(record)
}

/// `error` says which record was the least to die without having lived.
pub open spec fn live_error(change: RootChange, live: Map<u64, ()>, error: ReachError) -> bool {
    &&& dies_unknown(change, live, error.key)
    &&& forall|other: u64| #[trigger] dies_unknown(change, live, other) ==> error.key <= other
    &&& error.kind == "record-live-map"@
    &&& error.before == count_at(change.records, error.key as int)
    &&& error.delta == -error.before
}

/// What goes wrong before the live records are looked at.
pub open spec fn count_error(change: RootChange) -> Option<ReachError> {
    if previous_error(change, 0) is Some {
        previous_error(change, 0)
    } else if current_error(change, 0) is Some {
        current_error(change, 0)
    } else {
        first_error(change, usize::MAX as int)
    }
}

// ---------------------------------------------------------------------------
// Laws

proof fn lemma_mentions_push(ids: Seq<usize>, added: usize, id: int)
    ensures
        mentions(ids.push(added), id) == mentions(ids, id) + if added == id {
            1int
        } else {
            0
        },
        mentions(ids, id) >= 0,
{
    broadcast use group_to_multiset_ensures;

}

proof fn lemma_mentions_empty(id: int)
    ensures
        mentions(Seq::<usize>::empty(), id) == 0,
{
    broadcast use group_to_multiset_ensures;

    assert(Seq::<usize>::empty().to_multiset() =~= vstd::multiset::Multiset::empty());
}

proof fn lemma_times(times: int, a: int, b: int)
    requires
        -1 <= times <= 1,
    ensures
        times * (a + b) == times * a + times * b,
        times == 1 ==> times * a == a,
        times == -1 ==> times * a == -a,
        times == 0 ==> times * a == 0,
{
    assert(times * (a + b) == times * a + times * b) by (nonlinear_arith);
    assert(times == 1 ==> times * a == a) by (nonlinear_arith);
    assert(times == -1 ==> times * a == -a) by (nonlinear_arith);
    assert(times == 0 ==> times * a == 0) by (nonlinear_arith);
}

proof fn lemma_reach_count_natural(products: Seq<ProductView>, roots: Seq<usize>, id: int)
    ensures
        reach_count(products, roots, id) >= 0,
    decreases products.len() - id, 0int,
{
    lemma_mentions_push(roots, 0, id);
    if id < products.len() {
        lemma_reached_edges_natural(products, roots, id, id + 1);
    }
}

proof fn lemma_reached_edges_natural(
    products: Seq<ProductView>,
    roots: Seq<usize>,
    id: int,
    from: int,
)
    ensures
        reached_edges(products, roots, id, from) >= 0,
    decreases products.len() - from, 1int,
{
    if from < products.len() {
        lemma_mentions_push(children_at(products, from), 0, id);
        lemma_reached_edges_natural(products, roots, id, from + 1);
    }
}

/// The counts are those of the roots that were accepted before.
pub open spec fn counts_match(change: RootChange) -> bool {
    forall|id: int|
        0 <= id ==> #[trigger] count_at(change.counts, id) == reach_count(
            change.products,
            change.previous,
            id,
        )
}

/// Where the counts are those of the previous roots, a change of the roots
/// turns them into those of the current roots.
pub proof fn lemma_change_reaches(change: RootChange, id: int)
    requires
        counts_match(change),
        0 <= id,
    ensures
        count_at(change.counts, id) + change_of(change, id) == reach_count(
            change.products,
            change.current,
            id,
        ),
    decreases change.products.len() - id, 0int,
{
    assert(count_at(change.counts, id) == reach_count(change.products, change.previous, id));
    if id < change.products.len() {
        lemma_edge_change_reaches(change, id, id + 1);
    }
}

proof fn lemma_edge_change_reaches(change: RootChange, id: int, from: int)
    requires
        counts_match(change),
        0 <= id < from,
    ensures
        reached_edges(change.products, change.previous, id, from) + edge_change(change, id, from)
            == reached_edges(change.products, change.current, id, from),
    decreases change.products.len() - from, 1int,
{
    if from < change.products.len() {
        lemma_change_reaches(change, from);
        lemma_reach_count_natural(change.products, change.current, from);
        lemma_reach_count_natural(change.products, change.previous, from);
        assert(count_at(change.counts, from) == reach_count(
            change.products,
            change.previous,
            from,
        ));
        lemma_edge_change_reaches(change, id, from + 1);
        lemma_times(turn_of(change, from), mentions(children_at(change.products, from), id), 0);
    }
}

/// The same of the records that the products from `from` on stand for.
pub proof fn lemma_record_change_reaches(change: RootChange, record: u64, from: int)
    requires
        counts_match(change),
        0 <= from,
    ensures
        record_count(change.products, change.previous, record, from) + record_change(
            change,
            record,
            from,
        ) == record_count(change.products, change.current, record, from),
        record_count(change.products, change.previous, record, from) >= 0,
    decreases change.products.len() - from,
{
    if from < change.products.len() {
        lemma_change_reaches(change, from);
        lemma_reach_count_natural(change.products, change.current, from);
        lemma_reach_count_natural(change.products, change.previous, from);
        assert(count_at(change.counts, from) == reach_count(
            change.products,
            change.previous,
            from,
        ));
        lemma_record_change_reaches(change, record, from + 1);
    }
}

/// A record that is not touched keeps its count.
proof fn lemma_untouched(change: RootChange, record: u64, from: int)
    requires
        !touched(change, record, from),
        0 <= from,
    ensures
        record_change(change, record, from) == 0,
    decreases change.products.len() - from,
{
    if from < change.products.len() {
        if record_at(change.products, from) == Some(record) {
            assert(turn_of(change, from) == 0);
        }
        assert(!touched(change, record, from + 1)) by {
            if touched(change, record, from + 1) {
                let id = choose|id: int|
                    from + 1 <= id < change.products.len() && record_at(change.products, id)
                        == Some(record) && #[trigger] turn_of(change, id) != 0;
                assert(turn_of(change, id) != 0);
            }
        }
        lemma_untouched(change, record, from + 1);
    }
}

/// Counts and live records are exactly what roots reach.
pub open spec fn reaches(
    products: Seq<ProductView>,
    roots: Seq<usize>,
    counts: Map<u64, u32>,
    records: Map<u64, u32>,
    live: Map<u64, ()>,
) -> bool {
    &&& forall|key: u64|
        #![trigger counts.dom().contains(key)]
        {
            &&& counts.dom().contains(key) <==> reach_count(products, roots, key as int) > 0
            &&& counts.dom().contains(key) ==> counts[key] == reach_count(
                products,
                roots,
                key as int,
            )
        }
    &&& forall|key: u64|
        #![trigger records.dom().contains(key)]
        {
            &&& records.dom().contains(key) <==> record_count(products, roots, key, 0) > 0
            &&& records.dom().contains(key) ==> records[key] == record_count(
                products,
                roots,
                key,
                0,
            )
        }
    &&& forall|key: u64|
        #[trigger] live.dom().contains(key) <==> record_count(products, roots, key, 0) > 0
}

proof fn lemma_far_ids_unreached(products: Seq<ProductView>, roots: Seq<usize>, id: int)
    requires
        id > usize::MAX,
        products.len() <= usize::MAX,
    ensures
        reach_count(products, roots, id) == 0,
{
}

/// Applying a change to what the previous roots reach gives exactly what the
/// current roots reach.
pub proof fn lemma_delta_is_oracle(
    change: RootChange,
    live: Map<u64, ()>,
    counts: Map<u64, u32>,
    records: Map<u64, u32>,
    live_now: Map<u64, ()>,
)
    requires
        change.products.len() <= usize::MAX,
        reaches(change.products, change.previous, change.counts, change.records, live),
        counts_after(change, counts),
        records_after(change, 0, records),
        live_after(change, live, live_now),
    ensures
        reaches(change.products, change.current, counts, records, live_now),
{
    assert forall|id: int| 0 <= id implies #[trigger] count_at(change.counts, id) == reach_count(
        change.products,
        change.previous,
        id,
    ) by {
        lemma_reach_count_natural(change.products, change.previous, id);
        if id <= u64::MAX {
            assert(change.counts.dom().contains(id as u64) <==> reach_count(
                change.products,
                change.previous,
                id,
            ) > 0);
        } else {
            lemma_far_ids_unreached(change.products, change.previous, id);
        }
    }
    assert(counts_match(change));
    assert forall|key: u64|
        #![trigger counts.dom().contains(key)]
        {
            &&& counts.dom().contains(key) <==> reach_count(
                change.products,
                change.current,
                key as int,
            ) > 0
            &&& counts.dom().contains(key) ==> counts[key] == reach_count(
                change.products,
                change.current,
                key as int,
            )
        } by {
        lemma_change_reaches(change, key as int);
        lemma_reach_count_natural(change.products, change.current, key as int);
        assert(change.counts.dom().contains(key) <==> reach_count(
            change.products,
            change.previous,
            key as int,
        ) > 0);
    }
    assert forall|key: u64|
        {
            &&& #[trigger] records.dom().contains(key) <==> record_count(
                change.products,
                change.current,
                key,
                0,
            ) > 0
            &&& records.dom().contains(key) ==> records[key] == record_count(
                change.products,
                change.current,
                key,
                0,
            )
        } by {
        lemma_record_facts(change, live, key);
    }
    assert forall|key: u64|
        #[trigger] live_now.dom().contains(key) <==> record_count(
            change.products,
            change.current,
            key,
            0,
        ) > 0 by {
        lemma_record_facts(change, live, key);
    }
}

proof fn lemma_record_facts(change: RootChange, live: Map<u64, ()>, key: u64)
    requires
        counts_match(change),
        reaches(change.products, change.previous, change.counts, change.records, live),
    ensures
        count_at(change.records, key as int) == record_count(
            change.products,
            change.previous,
            key,
            0,
        ),
        change.records.dom().contains(key) <==> count_at(change.records, key as int) > 0,
        live.dom().contains(key) <==> count_at(change.records, key as int) > 0,
        count_at(change.records, key as int) + record_change(change, key, 0) == record_count(
            change.products,
            change.current,
            key,
            0,
        ),
        record_count(change.products, change.current, key, 0) >= 0,
        !touched(change, key, 0) ==> record_change(change, key, 0) == 0,
{
    lemma_record_change_reaches(change, key, 0);
    lemma_record_count_natural(change.products, change.current, key, 0);
    if !touched(change, key, 0) {
        lemma_untouched(change, key, 0);
    }
    assert(change.records.dom().contains(key) <==> record_count(
        change.products,
        change.previous,
        key,
        0,
    ) > 0);
    assert(live.dom().contains(key) <==> record_count(
        change.products,
        change.previous,
        key,
        0,
    ) > 0);
}

proof fn lemma_record_count_natural(
    products: Seq<ProductView>,
    roots: Seq<usize>,
    record: u64,
    from: int,
)
    ensures
        record_count(products, roots, record, from) >= 0,
    decreases products.len() - from,
{
    if from < products.len() {
        lemma_record_count_natural(products, roots, record, from + 1);
    }
}

// ---------------------------------------------------------------------------
// Noting changes

/// What is noted of a product; zero where nothing is.
spec fn noted(pending: Map<u64, i64>, id: int) -> int {
    if 0 <= id <= u64::MAX && pending.dom().contains(id as u64) {
        pending[id as u64] as int
    } else {
        0
    }
}

/// Nothing is noted as zero.
spec fn no_zeros(pending: Map<u64, i64>) -> bool {
    forall|key: u64| #[trigger] pending.dom().contains(key) ==> pending[key] != 0
}

/// Changes a count; fails where the result is not a count.
pub fn checked_reach_count(kind: &'static str, key: u64, before: u32, delta: i64) -> (r: Result<
    u32,
    ParseError,
>)
    ensures
        match r {
            Ok(after) => !unfit(before + delta) && after == before + delta,
            Err(error) => unfit(before + delta) && error.reach_error() == Some(
                (ReachError { kind: kind@, key, before, delta }),
            ),
        },
{
    match (before as i64).checked_add(delta) {
        Some(after) => {
            if 0 <= after && after <= u32::MAX as i64 {
                Ok(after as u32)
            } else {
                Err(ParseError::InvalidReachability { kind, key, before, delta })
            }
        },
        None => Err(ParseError::InvalidReachability { kind, key, before, delta }),
    }
}

/// Notes a change of a product's count.
fn add_pending_product(pending: &mut RadixMap<i64>, product: ProductId, delta: i64) -> (r: Result<
    (),
    ParseError,
>)
    requires
        old(pending).wf(),
        no_zeros(old(pending)@),
    ensures
        final(pending).wf(),
        no_zeros(final(pending)@),
        match r {
            Ok(_) => {
                &&& !too_wide(noted(old(pending)@, product as int) + delta)
                &&& forall|id: int|
                    #[trigger] noted(final(pending)@, id) == noted(old(pending)@, id) + if id
                        == product {
                        delta as int
                    } else {
                        0
                    }
            },
            Err(error) => {
                &&& too_wide(noted(old(pending)@, product as int) + delta)
                &&& error.reach_error() == Some(
                    (ReachError {
                        kind: "product-pending"@,
                        key: product as u64,
                        before: 0,
                        delta,
                    }),
                )
            },
        },
{
    if delta == 0 {
        return Ok(());
    }
    let key: u64 = product as u64;
    let before: i64 = match pending.get(key) {
        Some(value) => *value,
        None => 0,
    };
    match before.checked_add(delta) {
        Some(after) => {
            if after == 0 {
                pending.remove(key);
            } else {
                pending.insert(key, after);
            }
            Ok(())
        },
        None => Err(
            ParseError::InvalidReachability { kind: "product-pending", key, before: 0, delta },
        ),
    }
}

/// Notes the previous roots.
fn note_previous(
    pending: &mut RadixMap<i64>,
    roots: &[ProductId],
    change: Ghost<RootChange>,
) -> (r: Result<(), ParseError>)
    requires
        old(pending).wf(),
        old(pending)@ == Map::<u64, i64>::empty(),
        change@.previous == roots@,
    ensures
        final(pending).wf(),
        no_zeros(final(pending)@),
        match r {
            Ok(_) => previous_error(change@, 0) is None && forall|id: int|
                #[trigger] noted(final(pending)@, id) == -mentions(roots@, id),
            Err(error) => previous_error(change@, 0) is Some && error.reach_error()
                == previous_error(change@, 0),
        },
{
    let mut index: usize = 0;
    assert(roots@.take(0) =~= Seq::<usize>::empty());
    assert forall|id: int| #[trigger] noted(pending@, id) == -mentions(roots@.take(0), id) by {
        lemma_mentions_empty(id);
    }
    while index < roots.len()
        invariant
            index <= roots@.len(),
            change@.previous == roots@,
            pending.wf(),
            no_zeros(pending@),
            forall|id: int|
                #[trigger] noted(pending@, id) == -mentions(roots@.take(index as int), id),
            previous_error(change@, 0) == previous_error(change@, index as int),
        decreases roots@.len() - index,
    {
        let ghost before = roots@.take(index as int);
        assert(roots@.take(index as int + 1) =~= before.push(roots@[index as int]));
        assert(noted(pending@, roots@[index as int] as int) == -mentions(
            before,
            roots@[index as int] as int,
        ));
        match add_pending_product(pending, roots[index], -1) {
            Ok(_) => {},
            Err(error) => {
                return Err(error);
            },
        }
        assert forall|id: int|
            #[trigger] noted(pending@, id) == -mentions(roots@.take(index as int + 1), id) by {
            lemma_mentions_push(before, roots@[index as int], id);
        }
        index += 1;
    }
    assert(roots@.take(index as int) =~= roots@);
    Ok(())
}

/// Notes the current roots.
fn note_current(
    pending: &mut RadixMap<i64>,
    roots: &[ProductId],
    change: Ghost<RootChange>,
) -> (r: Result<(), ParseError>)
    requires
        old(pending).wf(),
        no_zeros(old(pending)@),
        change@.current == roots@,
        forall|id: int| #[trigger] noted(old(pending)@, id) == -mentions(change@.previous, id),
    ensures
        final(pending).wf(),
        no_zeros(final(pending)@),
        match r {
            Ok(_) => current_error(change@, 0) is None && forall|id: int|
                #[trigger] noted(final(pending)@, id) == root_change(change@, id),
            Err(error) => current_error(change@, 0) is Some && error.reach_error()
                == current_error(change@, 0),
        },
{
    let mut index: usize = 0;
    assert(roots@.take(0) =~= Seq::<usize>::empty());
    assert forall|id: int|
        #[trigger] noted(pending@, id) == mentions(roots@.take(0), id) - mentions(
            change@.previous,
            id,
        ) by {
        lemma_mentions_empty(id);
    }
    while index < roots.len()
        invariant
            index <= roots@.len(),
            change@.current == roots@,
            pending.wf(),
            no_zeros(pending@),
            forall|id: int|
                #[trigger] noted(pending@, id) == mentions(roots@.take(index as int), id)
                    - mentions(change@.previous, id),
            current_error(change@, 0) == current_error(change@, index as int),
        decreases roots@.len() - index,
    {
        let ghost before = roots@.take(index as int);
        assert(roots@.take(index as int + 1) =~= before.push(roots@[index as int]));
        assert(noted(pending@, roots@[index as int] as int) == mentions(
            before,
            roots@[index as int] as int,
        ) - mentions(change@.previous, roots@[index as int] as int));
        match add_pending_product(pending, roots[index], 1) {
            Ok(_) => {},
            Err(error) => {
                return Err(error);
            },
        }
        assert forall|id: int|
            #[trigger] noted(pending@, id) == mentions(roots@.take(index as int + 1), id)
                - mentions(change@.previous, id) by {
            lemma_mentions_push(before, roots@[index as int], id);
        }
        index += 1;
    }
    assert(roots@.take(index as int) =~= roots@);
    Ok(())
}

/// Notes the children of a product that comes to life or dies.
fn note_children(
    pending: &mut RadixMap<i64>,
    product: ProductId,
    children: &Vec<ProductId>,
    before: u32,
    direction: i64,
    change: Ghost<RootChange>,
) -> (r: Result<(), ParseError>)
    requires
        old(pending).wf(),
        no_zeros(old(pending)@),
        children@ == children_at(change@.products, product as int),
        before == count_at(change@.counts, product as int),
        direction == turn_of(change@, product as int),
        direction == 1 || direction == -1,
        forall|id: int|
            0 <= id < product ==> #[trigger] noted(old(pending)@, id) == root_change(change@, id)
                + edge_change(change@, id, product + 1),
        forall|id: int| product <= id ==> #[trigger] noted(old(pending)@, id) == 0,
    ensures
        final(pending).wf(),
        no_zeros(final(pending)@),
        match r {
            Ok(_) => {
                &&& child_error(change@, product as int, 0) is None
                &&& forall|id: int|
                    0 <= id < product ==> #[trigger] noted(final(pending)@, id) == root_change(
                        change@,
                        id,
                    ) + edge_change(change@, id, product + 1) + turn_of(change@, product as int)
                        * mentions(children@, id)
                &&& forall|id: int| product <= id ==> #[trigger] noted(final(pending)@, id) == 0
            },
            Err(error) => child_error(change@, product as int, 0) is Some && error.reach_error()
                == child_error(change@, product as int, 0),
        },
{
    let ghost times = direction as int;
    let mut index: usize = 0;
    assert(children@.take(0) =~= Seq::<usize>::empty());
    assert forall|id: int| 0 <= id < product implies #[trigger] noted(pending@, id) == root_change(
        change@,
        id,
    ) + edge_change(change@, id, product + 1) + times * mentions(children@.take(0), id) by {
        lemma_mentions_empty(id);
        lemma_times(times, 0, 0);
    }
    while index < children.len()
        invariant
            index <= children@.len(),
            children@ == children_at(change@.products, product as int),
            before == count_at(change@.counts, product as int),
            direction == turn_of(change@, product as int),
            times == direction,
            direction == 1 || direction == -1,
            pending.wf(),
            no_zeros(pending@),
            forall|id: int|
                0 <= id < product ==> #[trigger] noted(pending@, id) == root_change(change@, id)
                    + edge_change(change@, id, product + 1) + times * mentions(
                    children@.take(index as int),
                    id,
                ),
            forall|id: int| product <= id ==> #[trigger] noted(pending@, id) == 0,
            child_error(change@, product as int, 0) == child_error(
                change@,
                product as int,
                index as int,
            ),
        decreases children@.len() - index,
    {
        let child: usize = children[index];
        if child >= product {
            return Err(
                ParseError::InvalidReachability {
                    kind: "non-topological-edge",
                    key: product as u64,
                    before,
                    delta: child as i64,
                },
            );
        }
        let ghost known = children@.take(index as int);
        assert(children@.take(index as int + 1) =~= known.push(child));
        assert(noted(pending@, child as int) == root_change(change@, child as int) + edge_change(
            change@,
            child as int,
            product + 1,
        ) + times * mentions(known, child as int));
        match add_pending_product(pending, child, direction) {
            Ok(_) => {},
            Err(error) => {
                return Err(error);
            },
        }
        assert forall|id: int| 0 <= id < product implies #[trigger] noted(pending@, id)
            == root_change(change@, id) + edge_change(change@, id, product + 1) + times * mentions(
            children@.take(index as int + 1),
            id,
        ) by {
            lemma_mentions_push(known, child, id);
            lemma_times(times, mentions(known, id), 1);
        }
        index += 1;
    }
    assert(children@.take(index as int) =~= children@);
    Ok(())
}

// ---------------------------------------------------------------------------
// Applying a change

/// What the accepted roots reach after a command, and the records whose counts
/// moved.
pub struct ReachabilityUpdate {
    pub live_records: RadixMap<()>,
    pub product_reach_counts: RadixMap<u32>,
    pub record_reach_counts: RadixMap<u32>,
    pub record_journal: RadixMap<RecordTransition>,
}

impl ReachabilityUpdate {
    pub open spec fn wf(self) -> bool {
        &&& self.live_records.wf()
        &&& self.product_reach_counts.wf()
        &&& self.record_reach_counts.wf()
        &&& self.record_journal.wf()
    }
}

/// The counts while the products from `from` on are settled.
spec fn counts_from(change: RootChange, from: int, counts: Map<u64, u32>) -> bool {
    forall|key: u64|
        #![trigger counts.dom().contains(key)]
        {
            &&& counts.dom().contains(key) <==> if key < from || change_of(change, key as int) == 0 {
                change.counts.dom().contains(key)
            } else {
                count_at(change.counts, key as int) + change_of(change, key as int) != 0
            }
            &&& counts.dom().contains(key) ==> counts[key] == if key < from {
                count_at(change.counts, key as int)
            } else {
                count_at(change.counts, key as int) + change_of(change, key as int)
            }
        }
}

/// What is noted while the products from `from` on are settled.
spec fn noted_from(change: RootChange, from: int, pending: Map<u64, i64>) -> bool {
    &&& no_zeros(pending)
    &&& forall|id: int|
        0 <= id < from ==> #[trigger] noted(pending, id) == root_change(change, id) + edge_change(
            change,
            id,
            from,
        )
    &&& forall|id: int| from <= id ==> #[trigger] noted(pending, id) == 0
}

/// Nothing goes wrong at the products from `from` on.
spec fn sound_from(change: RootChange, from: int) -> bool {
    forall|id: int| from <= id <= usize::MAX ==> #[trigger] product_error(change, id) is None
}

#[verifier::opaque]
spec fn settled(
    change: RootChange,
    from: int,
    counts: Map<u64, u32>,
    pending: Map<u64, i64>,
    records: Map<u64, u32>,
    journal: Map<u64, RecordTransition>,
) -> bool {
    &&& counts_from(change, from, counts)
    &&& noted_from(change, from, pending)
    &&& sound_from(change, from)
    &&& records_after(change, from, records)
    &&& journal_after(change, from, journal)
}

/// Where nothing is noted of a product, it stays as it is.
proof fn lemma_settle_still(
    change: RootChange,
    from: int,
    counts: Map<u64, u32>,
    pending: Map<u64, i64>,
    records: Map<u64, u32>,
    journal: Map<u64, RecordTransition>,
)
    requires
        settled(change, from, counts, pending, records, journal),
        0 < from,
        noted(pending, from - 1) == 0,
    ensures
        settled(change, from - 1, counts, pending, records, journal),
{
    reveal(settled);
    let id = from - 1;
    assert(noted(pending, id) == root_change(change, id) + edge_change(change, id, from));
    assert(change_of(change, id) == 0);
    assert(turn_of(change, id) == 0);
    assert forall|other: int| 0 <= other < id implies #[trigger] noted(pending, other)
        == root_change(change, other) + edge_change(change, other, id) by {
        if id < change.products.len() {
            lemma_times(0, mentions(children_at(change.products, id), other), 0);
        }
    }
    assert(product_error(change, id) is None);
    assert forall|key: u64| touched(change, key, id) <==> #[trigger] touched(change, key, from) by {
        lemma_touched_step(change, key, id);
    }
    assert forall|key: u64|
        #[trigger] record_change(change, key, id) == record_change(change, key, from) by {}
}

/// A record is touched by a product or by a later one.
proof fn lemma_touched_step(change: RootChange, record: u64, id: int)
    requires
        0 <= id,
    ensures
        touched(change, record, id) <==> touched(change, record, id + 1) || (id
            < change.products.len() && record_at(change.products, id) == Some(record) && turn_of(
            change,
            id,
        ) != 0),
{
    if touched(change, record, id) {
        let at = choose|at: int|
            id <= at < change.products.len() && record_at(change.products, at) == Some(record)
                && #[trigger] turn_of(change, at) != 0;
        if at > id {
            assert(turn_of(change, at) != 0);
        }
    }
    if touched(change, record, id + 1) {
        let at = choose|at: int|
            id + 1 <= at < change.products.len() && record_at(change.products, at) == Some(record)
                && #[trigger] turn_of(change, at) != 0;
        assert(turn_of(change, at) != 0);
    }
}

/// Where nothing is noted between two products, the ones between stay.
proof fn lemma_settle_gap(
    change: RootChange,
    from: int,
    to: int,
    counts: Map<u64, u32>,
    pending: Map<u64, i64>,
    records: Map<u64, u32>,
    journal: Map<u64, RecordTransition>,
)
    requires
        settled(change, from, counts, pending, records, journal),
        0 <= to <= from,
        forall|id: int| to <= id < from ==> #[trigger] noted(pending, id) == 0,
    ensures
        settled(change, to, counts, pending, records, journal),
    decreases from - to,
{
    if to < from {
        assert(noted(pending, from - 1) == 0);
        lemma_settle_still(change, from, counts, pending, records, journal);
        lemma_settle_gap(change, from - 1, to, counts, pending, records, journal);
    }
}

/// The first error downwards is the one at the first product that has one.
proof fn lemma_first_error(change: RootChange, id: int, top: int)
    requires
        0 <= id <= top,
        product_error(change, id) is Some,
        forall|other: int| id < other <= top ==> #[trigger] product_error(change, other) is None,
    ensures
        first_error(change, top) == product_error(change, id),
    decreases top - id,
{
    if id < top {
        assert(product_error(change, top) is None);
        lemma_first_error(change, id, top - 1);
    }
}

proof fn lemma_no_error(change: RootChange, top: int)
    requires
        forall|other: int| 0 <= other <= top ==> #[trigger] product_error(change, other) is None,
    ensures
        first_error(change, top) is None,
    decreases top + 1,
{
    if top >= 0 {
        assert(product_error(change, top) is None);
        lemma_no_error(change, top - 1);
    }
}

/// Moves the count of the record of a product that comes to life or dies.
fn settle_record(
    records: &mut RadixMap<u32>,
    journal: &mut RadixMap<RecordTransition>,
    record: u64,
    direction: i64,
    product: ProductId,
    change: Ghost<RootChange>,
) -> (r: Result<(), ParseError>)
    requires
        old(records).wf(),
        old(journal).wf(),
        record_at(change@.products, product as int) == Some(record),
        direction == turn_of(change@, product as int),
        direction == 1 || direction == -1,
        records_after(change@, product + 1, old(records)@),
        journal_after(change@, product + 1, old(journal)@),
    ensures
        final(records).wf(),
        final(journal).wf(),
        match r {
            Ok(_) => {
                &&& !record_unfit(change@, product as int)
                &&& records_after(change@, product as int, final(records)@)
                &&& journal_after(change@, product as int, final(journal)@)
            },
            Err(error) => {
                &&& record_unfit(change@, product as int)
                &&& error.reach_error() == Some(
                    (ReachError {
                        kind: "record"@,
                        key: record,
                        before: record_before(change@, product as int) as u32,
                        delta: turn_of(change@, product as int) as i64,
                    }),
                )
            },
        },
{
    let ghost records0 = records@;
    let ghost journal0 = journal@;
    proof {
        assert(records0.dom().contains(record) <==> if touched(change@, record, product + 1) {
            count_at(change@.records, record as int) + record_change(change@, record, product + 1)
                != 0
        } else {
            change@.records.dom().contains(record)
        });
        if !touched(change@, record, product + 1) {
            lemma_untouched(change@, record, product + 1);
        }
        assert(count_at(records0, record as int) == record_before(change@, product as int));
    }
    let before: u32 = match records.get(record) {
        Some(value) => *value,
        None => 0,
    };
    let after: u32 = match checked_reach_count("record", record, before, direction) {
        Ok(after) => after,
        Err(error) => {
            return Err(error);
        },
    };
    if after == 0 {
        records.remove(record);
    } else {
        records.insert(record, after);
    }
    let first: u32 = match journal.get(record) {
        Some(transition) => transition.before_count,
        None => before,
    };
    proof {
        assert(journal0.dom().contains(record) <==> touched(change@, record, product + 1));
    }
    journal.insert(record, RecordTransition { before_count: first, after_count: after });
    proof {
        let id = product as int;
        assert forall|key: u64|
            #![trigger records@.dom().contains(key)]
            {
                &&& records@.dom().contains(key) <==> if touched(change@, key, id) {
                    count_at(change@.records, key as int) + record_change(change@, key, id) != 0
                } else {
                    change@.records.dom().contains(key)
                }
                &&& records@.dom().contains(key) ==> records@[key] == count_at(
                    change@.records,
                    key as int,
                ) + record_change(change@, key, id)
            } by {
            lemma_touched_step(change@, key, id);
            assert(records0.dom().contains(key) == records0.dom().contains(key));
            if key != record {
                assert(records@.dom().contains(key) == records0.dom().contains(key));
            }
        }
        assert forall|key: u64|
            #![trigger journal@.dom().contains(key)]
            {
                &&& journal@.dom().contains(key) <==> touched(change@, key, id)
                &&& journal@.dom().contains(key) ==> journal@[key].before_count == count_at(
                    change@.records,
                    key as int,
                ) && journal@[key].after_count == count_at(change@.records, key as int)
                    + record_change(change@, key, id)
            } by {
            lemma_touched_step(change@, key, id);
            assert(journal0.dom().contains(key) == journal0.dom().contains(key));
            if key != record {
                assert(journal@.dom().contains(key) == journal0.dom().contains(key));
            }
        }
    }
    Ok(())
}

/// A product that stands for no record, or that does not turn, leaves the
/// records as they are.
proof fn lemma_records_still(
    change: RootChange,
    id: int,
    records: Map<u64, u32>,
    journal: Map<u64, RecordTransition>,
)
    requires
        0 <= id,
        records_after(change, id + 1, records),
        journal_after(change, id + 1, journal),
        record_at(change.products, id) is None || turn_of(change, id) == 0,
    ensures
        records_after(change, id, records),
        journal_after(change, id, journal),
{
    assert forall|key: u64|
        touched(change, key, id) <==> #[trigger] touched(change, key, id + 1) by {
        lemma_touched_step(change, key, id);
    }
    assert forall|key: u64|
        #[trigger] record_change(change, key, id) == record_change(change, key, id + 1) by {}
}

/// Settles one product whose count moves.
fn settle_product(
    products: &ProductArena,
    product: ProductId,
    delta: i64,
    counts: &mut RadixMap<u32>,
    pending: &mut RadixMap<i64>,
    records: &mut RadixMap<u32>,
    journal: &mut RadixMap<RecordTransition>,
    change: Ghost<RootChange>,
) -> (r: Result<(), ParseError>)
    requires
        products.wf(),
        products@ == change@.products,
        old(counts).wf(),
        old(pending).wf(),
        old(records).wf(),
        old(journal).wf(),
        delta != 0,
        delta == change_of(change@, product as int),
        counts_from(change@, product + 1, old(counts)@),
        no_zeros(old(pending)@),
        forall|id: int|
            0 <= id < product ==> #[trigger] noted(old(pending)@, id) == root_change(change@, id)
                + edge_change(change@, id, product + 1),
        forall|id: int| product <= id ==> #[trigger] noted(old(pending)@, id) == 0,
        records_after(change@, product + 1, old(records)@),
        journal_after(change@, product + 1, old(journal)@),
    ensures
        final(counts).wf(),
        final(pending).wf(),
        final(records).wf(),
        final(journal).wf(),
        match r {
            Ok(_) => {
                &&& product_error(change@, product as int) is None
                &&& counts_from(change@, product as int, final(counts)@)
                &&& noted_from(change@, product as int, final(pending)@)
                &&& records_after(change@, product as int, final(records)@)
                &&& journal_after(change@, product as int, final(journal)@)
            },
            Err(error) => product_error(change@, product as int) is Some && error.reach_error()
                == product_error(change@, product as int),
        },
{
    let ghost id = product as int;
    let key: u64 = product as u64;
    let ghost counts0 = counts@;
    proof {
        assert(counts0.dom().contains(key) <==> change@.counts.dom().contains(key));
        assert(count_at(counts0, id) == count_at(change@.counts, id));
    }
    let before: u32 = match counts.get(key) {
        Some(value) => *value,
        None => 0,
    };
    let after: u32 = match checked_reach_count("product", key, before, delta) {
        Ok(after) => after,
        Err(error) => {
            return Err(error);
        },
    };
    if after == 0 {
        counts.remove(key);
    } else {
        counts.insert(key, after);
    }
    assert(counts_from(change@, id, counts@)) by {
        assert forall|other: u64|
            #![trigger counts@.dom().contains(other)]
            {
                &&& counts@.dom().contains(other) <==> if other < id || change_of(
                    change@,
                    other as int,
                ) == 0 {
                    change@.counts.dom().contains(other)
                } else {
                    count_at(change@.counts, other as int) + change_of(change@, other as int) != 0
                }
                &&& counts@.dom().contains(other) ==> counts@[other] == if other < id {
                    count_at(change@.counts, other as int)
                } else {
                    count_at(change@.counts, other as int) + change_of(change@, other as int)
                }
            } by {
            if other != key {
                assert(counts@.dom().contains(other) == counts0.dom().contains(other));
            }
        }
    }
    let wakes = before == 0 && after > 0;
    let dies = before > 0 && after == 0;
    if !wakes && !dies {
        proof {
            assert(turn_of(change@, id) == 0);
            lemma_records_still(change@, id, records@, journal@);
            assert forall|other: int| 0 <= other < id implies #[trigger] noted(pending@, other)
                == root_change(change@, other) + edge_change(change@, other, id) by {
                lemma_times(0, mentions(children_at(change@.products, id), other), 0);
            }
        }
        return Ok(());
    }
    let direction: i64 = if wakes {
        1
    } else {
        -1
    };
    assert(direction == turn_of(change@, id));
    match products.get(product) {
        Some(data) => {
            match data.direct_record() {
                Some(record) => {
                    match settle_record(
                        records,
                        journal,
                        record as u64,
                        direction,
                        product,
                        change,
                    ) {
                        Ok(_) => {},
                        Err(error) => {
                            return Err(error);
                        },
                    }
                },
                None => {
                    proof {
                        lemma_records_still(change@, id, records@, journal@);
                    }
                },
            }
            let children = data.children();
            match note_children(pending, product, &children, before, direction, change) {
                Ok(_) => {},
                Err(error) => {
                    return Err(error);
                },
            }
            Ok(())
        },
        None => Err(
            ParseError::InvalidReachability { kind: "missing-product", key, before, delta },
        ),
    }
}

/// Moves the records of the journal in and out of the live ones.
fn settle_live(
    live: &mut RadixMap<()>,
    journal: &RadixMap<RecordTransition>,
    change: Ghost<RootChange>,
) -> (r: Result<(), ParseError>)
    requires
        old(live).wf(),
        journal.wf(),
        journal_after(change@, 0, journal@),
    ensures
        final(live).wf(),
        match r {
            Ok(_) => {
                &&& forall|key: u64| !#[trigger] dies_unknown(change@, old(live)@, key)
                &&& live_after(change@, old(live)@, final(live)@)
            },
            Err(error) => error.reach_error() is Some && live_error(
                change@,
                old(live)@,
                error.reach_error()->Some_0,
            ),
        },
{
    let ghost live0 = live@;
    let ghost keys = journal.spec_keys();
    proof {
        journal.lemma_keys();
    }
    let count: usize = journal.len();
    let mut index: usize = 0;
    while index < count
        invariant
            live0 == old(live)@,
            live.wf(),
            journal.wf(),
            journal_after(change@, 0, journal@),
            keys == journal.spec_keys(),
            count == keys.len(),
            index <= count,
            crate::store::rising(keys),
            forall|key: u64| journal@.dom().contains(key) <==> #[trigger] keys.contains(key),
            forall|i: int| 0 <= i < index ==> !dies_unknown(change@, live0, #[trigger] keys[i]),
            forall|key: u64|
                #[trigger] live@.dom().contains(key) <==> if exists|i: int|
                    0 <= i < index && keys[i] == key {
                    record_wakes(change@, key) || (live0.dom().contains(key) && !record_dies(
                        change@,
                        key,
                    ))
                } else {
                    live0.dom().contains(key)
                },
        decreases count - index,
    {
        let record: u64 = journal.key_at(index);
        let ghost live_before = live@;
        proof {
            assert(journal@.dom().contains(record));
            assert(keys[index as int] == record);
            assert forall|i: int| 0 <= i < index implies #[trigger] keys[i] != record by {}
            assert(live_before.dom().contains(record) == live0.dom().contains(record));
        }
        let transition: RecordTransition = *journal.get(record).unwrap();
        if transition.before_count == 0 && transition.after_count > 0 {
            live.insert(record, ());
        } else if transition.before_count > 0 && transition.after_count == 0 {
            if !live.remove(record) {
                proof {
                    assert(dies_unknown(change@, live0, record));
                    assert forall|other: u64| #[trigger]
                        dies_unknown(change@, live0, other) implies record <= other by {
                        assert(touched(change@, other, 0));
                        assert(journal@.dom().contains(other));
                        assert(keys.contains(other));
                        let j = choose|j: int| 0 <= j < keys.len() && keys[j] == other;
                        if j < index {
                            assert(!dies_unknown(change@, live0, keys[j]));
                        }
                        if j > index {
                            assert(keys[index as int] < keys[j]);
                        }
                    }
                }
                return Err(
                    ParseError::InvalidReachability {
                        kind: "record-live-map",
                        key: record,
                        before: transition.before_count,
                        delta: -(transition.before_count as i64),
                    },
                );
            }
        }
        proof {
            assert(!dies_unknown(change@, live0, record));
            assert forall|key: u64|
                #[trigger] live@.dom().contains(key) <==> if exists|i: int|
                    0 <= i < index + 1 && keys[i] == key {
                    record_wakes(change@, key) || (live0.dom().contains(key) && !record_dies(
                        change@,
                        key,
                    ))
                } else {
                    live0.dom().contains(key)
                } by {
                if key == record {
                    assert(keys[index as int] == key);
                } else {
                    assert(live@.dom().contains(key) == live_before.dom().contains(key));
                    if exists|i: int| 0 <= i < index && keys[i] == key {
                        let i = choose|i: int| 0 <= i < index && keys[i] == key;
                        assert(0 <= i < index + 1 && keys[i] == key);
                    }
                    if exists|i: int| 0 <= i < index + 1 && keys[i] == key {
                        let i = choose|i: int| 0 <= i < index + 1 && keys[i] == key;
                        assert(0 <= i < index && keys[i] == key);
                    }
                }
            }
        }
        index += 1;
    }
    proof {
        assert forall|key: u64| !#[trigger] dies_unknown(change@, live0, key) by {
            if dies_unknown(change@, live0, key) {
                assert(journal@.dom().contains(key));
                assert(keys.contains(key));
                let i = choose|i: int| 0 <= i < keys.len() && keys[i] == key;
                assert(!dies_unknown(change@, live0, keys[i]));
            }
        }
        assert forall|key: u64|
            #[trigger] live@.dom().contains(key) <==> record_wakes(change@, key) || (
            live0.dom().contains(key) && !record_dies(change@, key)) by {
            if journal@.dom().contains(key) {
                assert(keys.contains(key));
                let i = choose|i: int| 0 <= i < keys.len() && keys[i] == key;
                assert(0 <= i < index && keys[i] == key);
            } else {
                assert(!touched(change@, key, 0));
                if exists|i: int| 0 <= i < index && keys[i] == key {
                    let i = choose|i: int| 0 <= i < index && keys[i] == key;
                    assert(keys.contains(keys[i]));
                }
            }
        }
    }
    Ok(())
}

/// The change of the accepted roots of a document.
pub open spec fn change_from(
    facts: ParserTreeFacts,
    previous: Seq<ProductId>,
    current: Seq<ProductId>,
    products: Seq<ProductView>,
) -> RootChange {
    RootChange {
        products,
        counts: facts.product_reach_counts@,
        records: facts.record_reach_counts@,
        previous,
        current,
    }
}

/// A change can be applied, and `update` is what comes of it.
pub open spec fn applied(
    change: RootChange,
    live: Map<u64, ()>,
    update: ReachabilityUpdate,
) -> bool {
    &&& count_error(change) is None
    &&& forall|key: u64| !#[trigger] dies_unknown(change, live, key)
    &&& update.wf()
    &&& counts_after(change, update.product_reach_counts@)
    &&& records_after(change, 0, update.record_reach_counts@)
    &&& journal_after(change, 0, update.record_journal@)
    &&& live_after(change, live, update.live_records@)
}

/// A change cannot be applied, and `error` says why.
pub open spec fn refused(change: RootChange, live: Map<u64, ()>, error: ParseError) -> bool {
    error.reach_error() is Some && if count_error(change) is Some {
        error.reach_error() == count_error(change)
    } else {
        live_error(change, live, error.reach_error()->Some_0)
    }
}

/// Applies a change of the accepted roots to what the previous roots reached.
/// A product's children are adopted or released only when its count moves
/// away from zero or back to it, so a subtree that stays reached is never
/// walked.
pub fn apply_accepted_root_delta(
    previous: &ParserTreeFacts,
    previous_roots: &[ProductId],
    current_roots: &[ProductId],
    products: &ProductArena,
) -> (r: Result<ReachabilityUpdate, ParseError>)
    requires
        previous.wf(),
        products.wf(),
    ensures
        ({
            let change = change_from(*previous, previous_roots@, current_roots@, products@);
            match r {
                Ok(update) => applied(change, previous.records@, update),
                Err(error) => refused(change, previous.records@, error),
            }
        }),
{
    let ghost change = RootChange {
        products: products@,
        counts: previous.product_reach_counts@,
        records: previous.record_reach_counts@,
        previous: previous_roots@,
        current: current_roots@,
    };
    let mut counts = previous.product_reach_counts.copied();
    let mut records = previous.record_reach_counts.copied();
    let mut pending: RadixMap<i64> = RadixMap::new();
    let mut journal: RadixMap<RecordTransition> = RadixMap::new();
    match note_previous(&mut pending, previous_roots, Ghost(change)) {
        Ok(_) => {},
        Err(error) => {
            return Err(error);
        },
    }
    match note_current(&mut pending, current_roots, Ghost(change)) {
        Ok(_) => {},
        Err(error) => {
            return Err(error);
        },
    }
    let ghost mut from: int = usize::MAX + 1;
    let count: usize = products.len();
    proof {
        reveal(settled);
        assert forall|key: u64| !#[trigger] touched(change, key, from) by {}
        assert forall|id: int| 0 <= id < from implies #[trigger] noted(pending@, id) == root_change(
            change,
            id,
        ) + edge_change(change, id, from) by {}
        assert forall|id: int| from <= id implies #[trigger] noted(pending@, id) == 0 by {
            assert(noted(pending@, id) == root_change(change, id));
        }
        assert forall|key: u64| #![trigger counts@.dom().contains(key)]
            key >= from implies change_of(change, key as int) == 0 by {}
        assert(settled(change, from, counts@, pending@, records@, journal@));
    }
    while !pending.is_empty()
        invariant
            products.wf(),
            products@ == change.products,
            change == (RootChange {
                products: products@,
                counts: previous.product_reach_counts@,
                records: previous.record_reach_counts@,
                previous: previous_roots@,
                current: current_roots@,
            }),
            counts.wf(),
            pending.wf(),
            records.wf(),
            journal.wf(),
            0 <= from <= usize::MAX + 1,
            settled(change, from, counts@, pending@, records@, journal@),
            previous_error(change, 0) is None,
            current_error(change, 0) is None,
        decreases from,
    {
        let key: u64 = pending.last_key().unwrap();
        let delta: i64 = *pending.get(key).unwrap();
        proof {
            assert(no_zeros(pending@)) by {
                reveal(settled);
            }
            assert(noted(pending@, key as int) != 0);
            assert(key < from) by {
                reveal(settled);
            }
            assert forall|id: int| key + 1 <= id < from implies #[trigger] noted(pending@, id)
                == 0 by {
                if id <= u64::MAX && pending@.dom().contains(id as u64) {
                    assert(pending@.dom().contains(id as u64));
                }
            }
            lemma_settle_gap(
                change,
                from,
                key + 1,
                counts@,
                pending@,
                records@,
                journal@,
            );
            from = key + 1;
            reveal(settled);
            assert(noted(pending@, key as int) == root_change(change, key as int) + edge_change(
                change,
                key as int,
                from,
            ));
            assert(delta == change_of(change, key as int));
        }
        let product: usize = key as usize;
        let ghost noted_before = pending@;
        pending.remove(key);
        proof {
            assert forall|id: int| id != key implies #[trigger] noted(pending@, id) == noted(
                noted_before,
                id,
            ) by {}
            assert(noted(pending@, key as int) == 0);
        }
        match settle_product(
            products,
            product,
            delta,
            &mut counts,
            &mut pending,
            &mut records,
            &mut journal,
            Ghost(change),
        ) {
            Ok(_) => {},
            Err(error) => {
                proof {
                    lemma_first_error(change, product as int, usize::MAX as int);
                }
                return Err(error);
            },
        }
        proof {
            assert(sound_from(change, product as int)) by {
                assert forall|id: int| product <= id <= usize::MAX implies #[trigger] product_error(
                    change,
                    id,
                ) is None by {
                    if id > product {
                        assert(sound_from(change, from));
                    }
                }
            }
            from = product as int;
        }
    }
    proof {
        assert forall|id: int| 0 <= id < from implies #[trigger] noted(pending@, id) == 0 by {}
        lemma_settle_gap(change, from, 0, counts@, pending@, records@, journal@);
        reveal(settled);
        lemma_no_error(change, usize::MAX as int);
        assert(counts_after(change, counts@));
    }
    let mut live = previous.records.copied();
    match settle_live(&mut live, &journal, Ghost(change)) {
        Ok(_) => {},
        Err(error) => {
            return Err(error);
        },
    }
    Ok(
        ReachabilityUpdate {
            live_records: live,
            product_reach_counts: counts,
            record_reach_counts: records,
            record_journal: journal,
        },
    )
}

// ---------------------------------------------------------------------------
// Reachability from scratch

/// Whatever roots reach can be counted: it exists, comes after its children,
/// and no count is too large.
pub open spec fn countable(products: Seq<ProductView>, roots: Seq<usize>) -> bool {
    &&& forall|id: int|
        0 <= id && #[trigger] reach_count(products, roots, id) > 0 ==> id < products.len()
            && below(children_at(products, id), id) && reach_count(products, roots, id)
            <= u32::MAX
    &&& forall|record: u64| #[trigger] record_count(products, roots, record, 0) <= u32::MAX
}

/// Every id of a list is below a bound.
pub open spec fn below(ids: Seq<usize>, bound: int) -> bool {
    forall|i: int| 0 <= i < ids.len() ==> #[trigger] ids[i] < bound
}

/// How often the products of a set, from `from` on, mention a product.
spec fn open_edges(products: Seq<ProductView>, expanded: Set<int>, id: int, from: int) -> int
    decreases products.len() - from,
{
    if from >= products.len() {
        0
    } else {
        (if expanded.contains(from) {
            mentions(children_at(products, from), id)
        } else {
            0
        }) + open_edges(products, expanded, id, from + 1)
    }
}

proof fn lemma_open_insert(
    products: Seq<ProductView>,
    expanded: Set<int>,
    added: int,
    id: int,
    from: int,
)
    requires
        !expanded.contains(added),
        added < products.len(),
    ensures
        open_edges(products, expanded.insert(added), id, from) == open_edges(
            products,
            expanded,
            id,
            from,
        ) + if from <= added {
            mentions(children_at(products, added), id)
        } else {
            0
        },
    decreases products.len() - from,
{
    if from < products.len() {
        lemma_open_insert(products, expanded, added, id, from + 1);
    }
}

proof fn lemma_open_none(products: Seq<ProductView>, id: int, from: int)
    ensures
        open_edges(products, Set::empty(), id, from) == 0,
    decreases products.len() - from,
{
    if from < products.len() {
        lemma_open_none(products, id, from + 1);
    }
}

/// Products mention only what is below them.
proof fn lemma_open_from(
    products: Seq<ProductView>,
    expanded: Set<int>,
    id: int,
    from: int,
)
    requires
        0 <= from <= id + 1,
        forall|other: int|
            #[trigger] expanded.contains(other) ==> below(children_at(products, other), other),
    ensures
        open_edges(products, expanded, id, from) == open_edges(products, expanded, id, id + 1),
    decreases id + 1 - from,
{
    if from <= id {
        lemma_open_from(products, expanded, id, from + 1);
        if from < products.len() && expanded.contains(from) {
            lemma_not_mentioned(children_at(products, from), from, id);
        } else if from >= products.len() {
        }
    }
}

proof fn lemma_not_mentioned(ids: Seq<usize>, bound: int, id: int)
    requires
        below(ids, bound),
        bound <= id,
    ensures
        mentions(ids, id) == 0,
{
    broadcast use group_to_multiset_ensures;

    if 0 <= id <= usize::MAX && mentions(ids, id) > 0 {
        assert(ids.contains(id as usize));
    }
}

/// What reached products mention is reached.
proof fn lemma_open_reached(
    products: Seq<ProductView>,
    roots: Seq<usize>,
    expanded: Set<int>,
    id: int,
    from: int,
)
    requires
        forall|other: int|
            #[trigger] expanded.contains(other) ==> reach_count(products, roots, other) > 0,
    ensures
        open_edges(products, expanded, id, from) <= reached_edges(products, roots, id, from),
        open_edges(products, expanded, id, from) >= 0,
    decreases products.len() - from,
{
    if from < products.len() {
        lemma_mentions_push(children_at(products, from), 0, id);
        lemma_open_reached(products, roots, expanded, id, from + 1);
    }
}

/// Where all that is mentioned was looked into, the counts are exact.
proof fn lemma_open_exact(
    products: Seq<ProductView>,
    roots: Seq<usize>,
    expanded: Set<int>,
    id: int,
)
    requires
        0 <= id,
        forall|other: int|
            #[trigger] expanded.contains(other) ==> below(children_at(products, other), other),
        forall|other: int|
            0 <= other ==> (#[trigger] expanded.contains(other) <==> mentions(roots, other)
                + open_edges(products, expanded, other, 0) > 0),
    ensures
        reach_count(products, roots, id) == mentions(roots, id) + open_edges(
            products,
            expanded,
            id,
            0,
        ),
    decreases products.len() - id, 0int,
{
    lemma_open_from(products, expanded, id, 0);
    if id < products.len() {
        lemma_open_exact_edges(products, roots, expanded, id, id + 1);
    }
}

proof fn lemma_open_exact_edges(
    products: Seq<ProductView>,
    roots: Seq<usize>,
    expanded: Set<int>,
    id: int,
    from: int,
)
    requires
        0 <= id < from,
        forall|other: int|
            #[trigger] expanded.contains(other) ==> below(children_at(products, other), other),
        forall|other: int|
            0 <= other ==> (#[trigger] expanded.contains(other) <==> mentions(roots, other)
                + open_edges(products, expanded, other, 0) > 0),
    ensures
        reached_edges(products, roots, id, from) == open_edges(products, expanded, id, from),
    decreases products.len() - from, 1int,
{
    if from < products.len() {
        lemma_open_exact(products, roots, expanded, from);
        assert(expanded.contains(from) <==> reach_count(products, roots, from) > 0);
        lemma_open_exact_edges(products, roots, expanded, id, from + 1);
    }
}

/// The state of a walk over what roots reach: the counts are those of the
/// roots, of the products looked into and of the first children of the one
/// that is looked into; what has a count was looked into or waits.
#[verifier::opaque]
spec fn walking(
    products: Seq<ProductView>,
    roots: Seq<usize>,
    extra: Seq<usize>,
    counts: Map<u64, u32>,
    expanded: Set<int>,
    open: Set<int>,
    pending: Seq<usize>,
) -> bool {
    &&& forall|key: u64| #[trigger] counts.dom().contains(key) ==> counts[key] > 0
    &&& forall|id: int|
        0 <= id ==> #[trigger] count_at(counts, id) == mentions(roots, id) + open_edges(
            products,
            expanded,
            id,
            0,
        ) + mentions(extra, id)
    &&& forall|id: int|
        #[trigger] expanded.contains(id) ==> 0 <= id < products.len() && below(
            children_at(products, id),
            id,
        ) && reach_count(products, roots, id) > 0
    &&& forall|id: int|
        0 <= id ==> (#[trigger] count_at(counts, id) > 0 <==> expanded.contains(id)
            || open.contains(id) || (id <= usize::MAX && pending.contains(id as usize)))
    &&& pending.no_duplicates()
    &&& forall|i: int|
        0 <= i < pending.len() ==> !expanded.contains(#[trigger] pending[i] as int)
            && !open.contains(pending[i] as int)
}

/// Counts one mention and lets a product wait that was not mentioned yet.
fn count_mention(
    counts: &mut RadixMap<u32>,
    pending: &mut Vec<usize>,
    product: ProductId,
) -> (r: Result<(), ParseError>)
    requires
        old(counts).wf(),
    ensures
        final(counts).wf(),
        match r {
            Ok(_) => {
                &&& count_at(old(counts)@, product as int) < u32::MAX
                &&& final(counts)@ == old(counts)@.insert(
                    product as u64,
                    (count_at(old(counts)@, product as int) + 1) as u32,
                )
                &&& final(pending)@ == if count_at(old(counts)@, product as int) == 0 {
                    old(pending)@.push(product)
                } else {
                    old(pending)@
                }
            },
            Err(error) => count_at(old(counts)@, product as int) == u32::MAX
                && error.reach_error() is Some,
        },
{
    let key: u64 = product as u64;
    let before: u32 = match counts.get(key) {
        Some(value) => *value,
        None => 0,
    };
    let after: u32 = match checked_reach_count("product", key, before, 1) {
        Ok(after) => after,
        Err(error) => {
            return Err(error);
        },
    };
    counts.insert(key, after);
    if before == 0 {
        pending.push(product);
    }
    Ok(())
}

/// One more mention keeps the walk in order.
proof fn lemma_count_mention(
    products: Seq<ProductView>,
    roots: (Seq<usize>, Seq<usize>),
    extra: (Seq<usize>, Seq<usize>),
    counts: (Map<u64, u32>, Map<u64, u32>),
    expanded: Set<int>,
    open: Set<int>,
    pending: (Seq<usize>, Seq<usize>),
    product: usize,
)
    requires
        walking(products, roots.0, extra.0, counts.0, expanded, open, pending.0),
        (roots.1 == roots.0 && extra.1 == extra.0.push(product)) || (extra.1 == extra.0
            && roots.1 == roots.0.push(product) && expanded == Set::<int>::empty()),
        count_at(counts.0, product as int) < u32::MAX,
        counts.1 == counts.0.insert(
            product as u64,
            (count_at(counts.0, product as int) + 1) as u32,
        ),
        pending.1 == if count_at(counts.0, product as int) == 0 {
            pending.0.push(product)
        } else {
            pending.0
        },
    ensures
        walking(products, roots.1, extra.1, counts.1, expanded, open, pending.1),
{
    reveal(walking);
    let before = count_at(counts.0, product as int);
    assert forall|id: int| 0 <= id implies #[trigger] count_at(counts.1, id) == mentions(
        roots.1,
        id,
    ) + open_edges(products, expanded, id, 0) + mentions(extra.1, id) by {
        assert(count_at(counts.0, id) == mentions(roots.0, id) + open_edges(
            products,
            expanded,
            id,
            0,
        ) + mentions(extra.0, id));
        lemma_mentions_push(roots.0, product, id);
        lemma_mentions_push(extra.0, product, id);
    }
    assert forall|id: int| 0 <= id implies (#[trigger] count_at(counts.1, id) > 0
        <==> expanded.contains(id) || open.contains(id) || (id <= usize::MAX
        && pending.1.contains(id as usize))) by {
        assert(count_at(counts.0, id) > 0 <==> expanded.contains(id) || open.contains(id) || (id
            <= usize::MAX && pending.0.contains(id as usize)));
        if before == 0 {
            assert(pending.1[pending.0.len() as int] == product);
            if id <= usize::MAX && pending.0.contains(id as usize) {
                let k = choose|k: int| 0 <= k < pending.0.len() && pending.0[k] == id;
                assert(pending.1[k] == id);
            }
            if id <= usize::MAX && pending.1.contains(id as usize) && id != product {
                let k = choose|k: int| 0 <= k < pending.1.len() && pending.1[k] == id;
                assert(pending.0[k] == id);
            }
        }
    }
    if before == 0 {
        assert(!pending.0.contains(product));
        assert(count_at(counts.0, product as int) == 0);
    }
    assert forall|i: int| 0 <= i < pending.1.len() implies !expanded.contains(
        #[trigger] pending.1[i] as int,
    ) && !open.contains(pending.1[i] as int) by {
        if i < pending.0.len() {
            assert(pending.1[i] == pending.0[i]);
        }
    }
}

/// Recomputes what roots reach. A product is looked into once, when it first
/// becomes reachable; its count keeps every mention.
pub fn slow_accepted_root_reach(roots: &[ProductId], products: &ProductArena) -> (r: Result<
    (RadixMap<u32>, RadixMap<u32>),
    ParseError,
>)
    requires
        products.wf(),
    ensures
        match r {
            Ok((counts, records)) => {
                &&& countable(products@, roots@)
                &&& counts.wf()
                &&& records.wf()
                &&& forall|live: Map<u64, ()>|
                    (forall|key: u64|
                        #[trigger] live.dom().contains(key) <==> record_count(
                            products@,
                            roots@,
                            key,
                            0,
                        ) > 0) ==> #[trigger] reaches(
                        products@,
                        roots@,
                        counts@,
                        records@,
                        live,
                    )
            },
            Err(error) => !countable(products@, roots@) && error.reach_error() is Some,
        },
{
    let ghost all = products@;
    let mut counts: RadixMap<u32> = RadixMap::new();
    let mut pending: Vec<usize> = Vec::new();
    let count: usize = products.len();
    let mut index: usize = 0;
    let ghost none = Seq::<usize>::empty();
    proof {
        reveal(walking);
        assert(roots@.take(0) =~= none);
        assert forall|id: int| 0 <= id implies #[trigger] count_at(counts@, id) == mentions(
            none,
            id,
        ) + open_edges(all, Set::empty(), id, 0) + mentions(none, id) by {
            lemma_mentions_empty(id);
            lemma_open_none(all, id, 0);
        }
        assert(walking(all, roots@.take(0), none, counts@, Set::empty(), Set::empty(), pending@));
    }
    while index < roots.len()
        invariant
            all == products@,
            all.len() <= usize::MAX,
            none == Seq::<usize>::empty(),
            counts.wf(),
            index <= roots@.len(),
            walking(
                all,
                roots@.take(index as int),
                none,
                counts@,
                Set::empty(),
                Set::empty(),
                pending@,
            ),
        decreases roots@.len() - index,
    {
        let root: usize = roots[index];
        let ghost before = roots@.take(index as int);
        let ghost counts0 = counts@;
        let ghost pending0 = pending@;
        assert(roots@.take(index as int + 1) =~= before.push(root));
        match count_mention(&mut counts, &mut pending, root) {
            Ok(_) => {},
            Err(error) => {
                proof {
                    reveal(walking);
                    let id = root as int;
                    assert(count_at(counts0, id) == mentions(before, id) + open_edges(
                        all,
                        Set::empty(),
                        id,
                        0,
                    ) + mentions(none, id));
                    lemma_open_none(all, id, 0);
                    lemma_mentions_empty(id);
                    lemma_mentions_push(before, root, id);
                    lemma_mentions_prefix(roots@, index as int + 1, id);
                    lemma_roots_reached(all, roots@, id);
                }
                return Err(error);
            },
        }
        proof {
            lemma_count_mention(
                all,
                (before, roots@.take(index as int + 1)),
                (none, none),
                (counts0, counts@),
                Set::empty(),
                Set::empty(),
                (pending0, pending@),
                root,
            );
        }
        index += 1;
    }
    assert(roots@.take(index as int) =~= roots@);
    let ghost mut expanded: Set<int> = Set::empty();
    while pending.len() > 0
        invariant
            all == products@,
            products.wf(),
            all.len() == count,
            none == Seq::<usize>::empty(),
            counts.wf(),
            expanded.finite(),
            expanded.len() <= count,
            expanded.subset_of(vstd::set_lib::set_int_range(0, count as int)),
            walking(all, roots@, none, counts@, expanded, Set::empty(), pending@),
        decreases count - expanded.len(),
    {
        let ghost pending0 = pending@;
        let product: usize = pending.pop().unwrap();
        let ghost id = product as int;
        let ghost open = Set::<int>::empty().insert(id);
        proof {
            assert(pending0 =~= pending@.push(product));
            assert(reach_count(all, roots@, id) > 0 && !expanded.contains(id)
                && walking(all, roots@, none, counts@, expanded, open, pending@)) by {
                reveal(walking);
                assert(pending0[pending@.len() as int] == product);
                assert(pending0.contains(product));
                assert(count_at(counts@, id) > 0);
                lemma_count_reached(all, roots@, none, counts@, expanded, Set::empty(), pending0, id);
                lemma_mentions_empty(id);
                assert forall|other: int| 0 <= other implies (#[trigger] count_at(counts@, other)
                    > 0 <==> expanded.contains(other) || open.contains(other) || (other
                    <= usize::MAX && pending@.contains(other as usize))) by {
                    assert(count_at(counts@, other) > 0 <==> expanded.contains(other) || (other
                        <= usize::MAX && pending0.contains(other as usize)));
                    if other <= usize::MAX && pending0.contains(other as usize) {
                        let k = choose|k: int| 0 <= k < pending0.len() && pending0[k] == other;
                        if k < pending@.len() {
                            assert(pending@[k] == other);
                        }
                    }
                    if other <= usize::MAX && pending@.contains(other as usize) {
                        let k = choose|k: int| 0 <= k < pending@.len() && pending@[k] == other;
                        assert(pending0[k] == other);
                    }
                }
                assert forall|i: int| 0 <= i < pending@.len() implies !expanded.contains(
                    #[trigger] pending@[i] as int,
                ) && !open.contains(pending@[i] as int) by {
                    assert(pending0[i] == pending@[i]);
                    assert(pending0[i] != pending0[pending@.len() as int]);
                }
            }
        }
        let data = match products.get(product) {
            Some(data) => data,
            None => {
                return Err(
                    ParseError::InvalidReachability {
                        kind: "missing-product",
                        key: product as u64,
                        before: 0,
                        delta: 1,
                    },
                );
            },
        };
        let children = data.children();
        assert(children@ == children_at(all, id));
        let mut at: usize = 0;
        assert(children@.take(0) =~= none);
        while at < children.len()
            invariant
                all == products@,
                counts.wf(),
                at <= children@.len(),
                id == product,
                open == Set::<int>::empty().insert(id),
                children@ == children_at(all, id),
                reach_count(all, roots@, id) > 0,
                id < all.len(),
                !expanded.contains(id),
                below(children@.take(at as int), id),
                walking(all, roots@, children@.take(at as int), counts@, expanded, open, pending@),
            decreases children@.len() - at,
        {
            let child: usize = children[at];
            if child >= product {
                let before: u32 = match counts.get(product as u64) {
                    Some(value) => *value,
                    None => 0,
                };
                assert(!below(children@, id)) by {
                    assert(children@[at as int] >= id);
                }
                return Err(
                    ParseError::InvalidReachability {
                        kind: "non-topological-edge",
                        key: product as u64,
                        before,
                        delta: child as i64,
                    },
                );
            }
            let ghost known = children@.take(at as int);
            let ghost counts0 = counts@;
            let ghost pending1 = pending@;
            assert(children@.take(at as int + 1) =~= known.push(child));
            match count_mention(&mut counts, &mut pending, child) {
                Ok(_) => {},
                Err(error) => {
                    proof {
                        lemma_count_overflow(
                            all,
                            roots@,
                            children@,
                            at as int,
                            counts0,
                            expanded,
                            open,
                            pending1,
                            id,
                        );
                    }
                    return Err(error);
                },
            }
            proof {
                lemma_count_mention(
                    all,
                    (roots@, roots@),
                    (known, children@.take(at as int + 1)),
                    (counts0, counts@),
                    expanded,
                    open,
                    (pending1, pending@),
                    child,
                );
                assert(below(children@.take(at as int + 1), id)) by {
                    assert forall|i: int| 0 <= i < at + 1 implies #[trigger] children@.take(
                        at as int + 1,
                    )[i] < id by {
                        if i < at {
                            assert(known[i] < id);
                        }
                    }
                }
            }
            at += 1;
        }
        proof {
            assert(children@.take(at as int) =~= children@);
            let next = expanded.insert(id);
            assert(walking(all, roots@, none, counts@, next, Set::empty(), pending@)) by {
                reveal(walking);
                assert forall|other: int| 0 <= other implies #[trigger] count_at(counts@, other)
                    == mentions(roots@, other) + open_edges(all, next, other, 0) + mentions(
                    none,
                    other,
                ) by {
                    lemma_open_insert(all, expanded, id, other, 0);
                    lemma_mentions_empty(other);
                }
            }
            assert(next.subset_of(vstd::set_lib::set_int_range(0, count as int)));
            vstd::set_lib::lemma_int_range(0, count as int);
            vstd::set_lib::lemma_len_subset(next, vstd::set_lib::set_int_range(0, count as int));
            expanded = next;
        }
    }
    proof {
        lemma_walk_exact(all, roots@, counts@, expanded, pending@);
    }
    let mut records: RadixMap<u32> = RadixMap::new();
    let ghost keys = counts.spec_keys();
    proof {
        counts.lemma_keys();
    }
    let size: usize = counts.len();
    let mut at: usize = 0;
    let ghost mut next: int = 0;
    while at < size
        invariant
            all == products@,
            products.wf(),
            counts.wf(),
            records.wf(),
            all.len() == count,
            keys == counts.spec_keys(),
            size == keys.len(),
            at <= size,
            crate::store::rising(keys),
            forall|key: u64| counts@.dom().contains(key) <==> #[trigger] keys.contains(key),
            forall|key: u64|
                #[trigger] counts@.dom().contains(key) <==> reach_count(all, roots@, key as int)
                    > 0,
            forall|key: u64| #[trigger] counts@.dom().contains(key) ==> key < all.len(),
            next == if at == 0 {
                0
            } else {
                keys[at as int - 1] + 1
            },
            forall|record: u64|
                #[trigger] count_at(records@, record as int) == record_count(
                    all,
                    roots@,
                    record,
                    0,
                ) - record_count(all, roots@, record, next),
            forall|record: u64| #[trigger] records@.dom().contains(record) ==> records@[record] > 0,
        decreases size - at,
    {
        let product: u64 = counts.key_at(at);
        let ghost id = product as int;
        proof {
            assert(counts@.dom().contains(product));
            assert forall|other: int| next <= other < id implies #[trigger] reach_count(
                all,
                roots@,
                other,
            ) <= 0 by {
                lemma_reach_count_natural(all, roots@, other);
                if reach_count(all, roots@, other) > 0 {
                    let key = other as u64;
                    assert(counts@.dom().contains(key));
                    assert(keys.contains(key));
                    let k = choose|k: int| 0 <= k < keys.len() && keys[k] == key;
                    assert(keys[at as int] == product);
                    if k > at {
                        assert(keys[at as int] < keys[k]);
                    }
                    if k < at && k < at - 1 {
                        assert(keys[k] < keys[at as int - 1]);
                    }
                }
            }
            assert(id >= next) by {
                assert(keys[at as int] == product);
                if at > 0 {
                    assert(keys[at as int - 1] < keys[at as int]);
                }
            }
            assert forall|record: u64|
                #[trigger] count_at(records@, record as int) == record_count(
                    all,
                    roots@,
                    record,
                    0,
                ) - record_count(all, roots@, record, id) by {
                lemma_record_gap(all, roots@, record, next, id);
            }
        }
        assert(product as usize == id);
        let data = products.get(product as usize).unwrap();
        let ghost records0 = records@;
        match data.direct_record() {
            Some(own) => {
                let record: u64 = own as u64;
                let before: u32 = match records.get(record) {
                    Some(value) => *value,
                    None => 0,
                };
                assert(count_at(records0, record as int) == before);
                assert(record_at(all, id) == Some(record));
                let after: u32 = match checked_reach_count("record", record, before, 1) {
                    Ok(after) => after,
                    Err(error) => {
                        proof {
                            lemma_record_count_natural(all, roots@, record, id + 1);
                            assert(record_count(all, roots@, record, 0) > u32::MAX);
                        }
                        return Err(error);
                    },
                };
                records.insert(record, after);
            },
            None => {},
        }
        proof {
            assert forall|record: u64|
                #[trigger] count_at(records@, record as int) == record_count(
                    all,
                    roots@,
                    record,
                    0,
                ) - record_count(all, roots@, record, id + 1) by {
                assert(count_at(records0, record as int) == record_count(all, roots@, record, 0)
                    - record_count(all, roots@, record, id));
            }
            next = id + 1;
        }
        at += 1;
    }
    proof {
        assert forall|other: int| next <= other implies #[trigger] reach_count(all, roots@, other)
            <= 0 by {
            lemma_reach_count_natural(all, roots@, other);
            if reach_count(all, roots@, other) > 0 {
                if other > usize::MAX {
                    lemma_far_ids_unreached(all, roots@, other);
                }
                let key = other as u64;
                assert(counts@.dom().contains(key));
                assert(keys.contains(key));
                let k = choose|k: int| 0 <= k < keys.len() && keys[k] == key;
                if k < at - 1 {
                    assert(keys[k] < keys[at as int - 1]);
                }
            }
        }
        assert forall|record: u64|
            #[trigger] count_at(records@, record as int) == record_count(all, roots@, record, 0) by {
            let end = if next <= all.len() {
                all.len() as int
            } else {
                next
            };
            lemma_record_gap(all, roots@, record, next, end);
        }
        assert forall|record: u64| #[trigger] record_count(all, roots@, record, 0) <= u32::MAX by {
            assert(count_at(records@, record as int) == record_count(all, roots@, record, 0));
        }
        assert forall|record: u64|
            {
                &&& #[trigger] records@.dom().contains(record) <==> record_count(
                    all,
                    roots@,
                    record,
                    0,
                ) > 0
                &&& records@.dom().contains(record) ==> records@[record] == record_count(
                    all,
                    roots@,
                    record,
                    0,
                )
            } by {
            assert(count_at(records@, record as int) == record_count(all, roots@, record, 0));
        }
    }
    Ok((counts, records))
}

/// A prefix mentions no more than the whole.
proof fn lemma_mentions_prefix(ids: Seq<usize>, upto: int, id: int)
    requires
        0 <= upto <= ids.len(),
    ensures
        mentions(ids.take(upto), id) <= mentions(ids, id),
    decreases ids.len() - upto,
{
    if upto < ids.len() {
        assert(ids.take(upto + 1) =~= ids.take(upto).push(ids[upto]));
        lemma_mentions_push(ids.take(upto), ids[upto], id);
        lemma_mentions_prefix(ids, upto + 1, id);
    } else {
        assert(ids.take(upto) =~= ids);
    }
}

/// Roots are reached at least as often as they are mentioned.
proof fn lemma_roots_reached(products: Seq<ProductView>, roots: Seq<usize>, id: int)
    ensures
        reach_count(products, roots, id) >= mentions(roots, id),
{
    if id < products.len() {
        lemma_reached_edges_natural(products, roots, id, id + 1);
    }
}

/// Whatever was counted is reached that often at least.
proof fn lemma_count_reached(
    products: Seq<ProductView>,
    roots: Seq<usize>,
    extra: Seq<usize>,
    counts: Map<u64, u32>,
    expanded: Set<int>,
    open: Set<int>,
    pending: Seq<usize>,
    id: int,
)
    requires
        walking(products, roots, extra, counts, expanded, open, pending),
        0 <= id,
    ensures
        reach_count(products, roots, id) + mentions(extra, id) >= count_at(counts, id),
{
    reveal(walking);
    assert(count_at(counts, id) == mentions(roots, id) + open_edges(products, expanded, id, 0)
        + mentions(extra, id));
    lemma_open_from(products, expanded, id, 0);
    lemma_open_reached(products, roots, expanded, id, id + 1);
}

/// A count that would overflow shows that the roots cannot be counted.
proof fn lemma_count_overflow(
    products: Seq<ProductView>,
    roots: Seq<usize>,
    children: Seq<usize>,
    at: int,
    counts: Map<u64, u32>,
    expanded: Set<int>,
    open: Set<int>,
    pending: Seq<usize>,
    id: int,
)
    requires
        0 <= id < products.len(),
        children == children_at(products, id),
        0 <= at < children.len(),
        children[at] < id,
        reach_count(products, roots, id) > 0,
        !expanded.contains(id),
        walking(products, roots, children.take(at), counts, expanded, open, pending),
        count_at(counts, children[at] as int) == u32::MAX,
    ensures
        !countable(products, roots),
{
    let child = children[at] as int;
    let more = expanded.insert(id);
    assert(children.take(at + 1) =~= children.take(at).push(children[at]));
    lemma_mentions_push(children.take(at), children[at], child);
    lemma_mentions_prefix(children, at + 1, child);
    lemma_open_insert(products, expanded, id, child, child + 1);
    assert(reach_count(products, roots, child) > u32::MAX) by {
        reveal(walking);
        assert(count_at(counts, child) == mentions(roots, child) + open_edges(
            products,
            expanded,
            child,
            0,
        ) + mentions(children.take(at), child));
        lemma_open_from(products, expanded, child, 0);
        lemma_open_reached(products, roots, more, child, child + 1);
    }
}

/// When nothing waits, the counts are exact.
proof fn lemma_walk_exact(
    products: Seq<ProductView>,
    roots: Seq<usize>,
    counts: Map<u64, u32>,
    expanded: Set<int>,
    pending: Seq<usize>,
)
    requires
        products.len() <= usize::MAX,
        walking(products, roots, Seq::empty(), counts, expanded, Set::empty(), pending),
        pending.len() == 0,
    ensures
        forall|key: u64|
            #![trigger counts.dom().contains(key)]
            {
                &&& counts.dom().contains(key) <==> reach_count(products, roots, key as int) > 0
                &&& counts.dom().contains(key) ==> counts[key] == reach_count(
                    products,
                    roots,
                    key as int,
                ) && key < products.len()
            },
        forall|id: int|
            0 <= id && #[trigger] reach_count(products, roots, id) > 0 ==> id < products.len()
                && below(children_at(products, id), id) && reach_count(products, roots, id)
                <= u32::MAX,
{
    reveal(walking);
    assert forall|other: int| 0 <= other implies (#[trigger] expanded.contains(other)
        <==> mentions(roots, other) + open_edges(products, expanded, other, 0) > 0) by {
        lemma_mentions_empty(other);
        assert(count_at(counts, other) > 0 <==> expanded.contains(other));
    }
    assert forall|id: int| 0 <= id implies #[trigger] reach_count(products, roots, id) == count_at(
        counts,
        id,
    ) && (reach_count(products, roots, id) > 0 <==> expanded.contains(id)) by {
        lemma_open_exact(products, roots, expanded, id);
        lemma_mentions_empty(id);
        assert(count_at(counts, id) > 0 <==> expanded.contains(id));
    }
    assert forall|key: u64|
        #![trigger counts.dom().contains(key)]
        {
            &&& counts.dom().contains(key) <==> reach_count(products, roots, key as int) > 0
            &&& counts.dom().contains(key) ==> counts[key] == reach_count(
                products,
                roots,
                key as int,
            ) && key < products.len()
        } by {
        assert(reach_count(products, roots, key as int) == count_at(counts, key as int));
        if counts.dom().contains(key) {
            assert(expanded.contains(key as int));
        }
    }
}

/// Products that are not reached stand for no record.
proof fn lemma_record_gap(
    products: Seq<ProductView>,
    roots: Seq<usize>,
    record: u64,
    from: int,
    to: int,
)
    requires
        0 <= from <= to,
        forall|other: int| from <= other < to ==> #[trigger] reach_count(products, roots, other) <= 0,
    ensures
        record_count(products, roots, record, from) == record_count(products, roots, record, to),
    decreases to - from,
{
    if from < to {
        assert(reach_count(products, roots, from) <= 0);
        lemma_record_gap(products, roots, record, from + 1, to);
    }
}

} // verus!
