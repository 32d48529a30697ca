//! Who takes over which identity.

use vstd::prelude::*;

use crate::framework::parse::data::ast::{AstArena, AstId};
use crate::framework::parse::data::product::ProductView;
use crate::framework::parse::parsing::lineage::{
    all_committed, all_unbound, all_woken, assigned, begun, child_records, committed, context_elder,
    context_pass, context_passes, contexts_resolved, contextual, dormant, elder, first_place,
    is_first_place, known_lineage, parent_at, predecessor, reserved, settled, stillborn, unbound,
    unproved, without, woken, AnchorKey, LineageView, PendingInheritance,
};
use crate::sort::{distinct_sorted, lemma_distinct_sorted};

verus! {

// ---------------------------------------------------------------------------
// A new record

/// A record from before the command is the only one with a role and extent, and
/// nobody has laid claim to its identity: the next record of that role and
/// extent takes the identity over.
pub open spec fn bequeaths(v: LineageView, key: AnchorKey, old: AstId) -> bool {
    &&& exists|at: int|
        0 <= at < v.anchors[key].len() && #[trigger] v.anchors[key][at] == old && forall|other: int|
            0 <= other < v.anchors[key].len() && other != at ==> v.created.contains(
                #[trigger] v.anchors[key][other],
            )
    &&& !v.created.contains(old)
    &&& v.lineages.dom().contains(old)
    &&& !v.claimed.contains(v.lineages[old])
}

proof fn lemma_elder_members(list: Seq<AstId>, created: Seq<AstId>)
    ensures
        forall|i: int|
            0 <= i < elder(list, created).len() ==> list.contains(
                #[trigger] elder(list, created)[i],
            ) && !created.contains(elder(list, created)[i]),
        (forall|i: int| 0 <= i < list.len() ==> created.contains(#[trigger] list[i])) ==> elder(
            list,
            created,
        ).len() == 0,
    decreases list.len(),
{
    if list.len() > 0 {
        let rest = list.drop_last();
        lemma_elder_members(rest, created);
        let before = elder(rest, created);
        let all = elder(list, created);
        assert forall|i: int| 0 <= i < all.len() implies list.contains(#[trigger] all[i])
            && !created.contains(all[i]) by {
            if i < before.len() {
                assert(all[i] == before[i]);
                let k = rest.index_of(before[i]);
                assert(list[k] == all[i]);
            } else {
                assert(list[list.len() - 1] == all[i]);
            }
        }
        if forall|i: int| 0 <= i < list.len() ==> created.contains(#[trigger] list[i]) {
            assert forall|i: int| 0 <= i < rest.len() implies created.contains(
                #[trigger] rest[i],
            ) by {
                assert(rest[i] == list[i]);
            }
            assert(created.contains(list[list.len() - 1]));
        }
    }
}

/// One elder record at one place only.
proof fn lemma_one_elder(list: Seq<AstId>, created: Seq<AstId>, at: int)
    requires
        0 <= at < list.len(),
        !created.contains(list[at]),
        forall|other: int|
            0 <= other < list.len() && other != at ==> created.contains(#[trigger] list[other]),
    ensures
        elder(list, created) == seq![list[at]],
    decreases list.len(),
{
    let rest = list.drop_last();
    if at == list.len() - 1 {
        assert forall|i: int| 0 <= i < rest.len() implies created.contains(#[trigger] rest[i]) by {
            assert(rest[i] == list[i]);
        }
        lemma_elder_members(rest, created);
        assert(elder(list, created) =~= seq![list[at]]);
    } else {
        assert(created.contains(list[list.len() - 1]));
        assert forall|other: int| 0 <= other < rest.len() && other != at implies created.contains(
            #[trigger] rest[other],
        ) by {
            assert(rest[other] == list[other]);
        }
        lemma_one_elder(rest, created, at);
    }
}

/// The only elder record is at one place, and at all others is none.
proof fn lemma_elder_is_one(list: Seq<AstId>, created: Seq<AstId>) -> (at: int)
    requires
        elder(list, created).len() == 1,
    ensures
        0 <= at < list.len(),
        list[at] == elder(list, created)[0],
        forall|other: int|
            0 <= other < list.len() && other != at ==> created.contains(#[trigger] list[other]),
    decreases list.len(),
{
    let rest = list.drop_last();
    if created.contains(list.last()) {
        let at = lemma_elder_is_one(rest, created);
        assert forall|other: int| 0 <= other < list.len() && other != at implies created.contains(
            #[trigger] list[other],
        ) by {
            if other < rest.len() {
                assert(rest[other] == list[other]);
            }
        }
        at
    } else {
        assert forall|other: int| 0 <= other < rest.len() implies created.contains(
            #[trigger] list[other],
        ) by {
            if !created.contains(list[other]) {
                lemma_elder_holds(rest, created, other);
            }
        }
        list.len() - 1
    }
}

proof fn lemma_elder_holds(list: Seq<AstId>, created: Seq<AstId>, at: int)
    requires
        0 <= at < list.len(),
        !created.contains(list[at]),
    ensures
        elder(list, created).len() > 0,
    decreases list.len(),
{
    if at < list.len() - 1 {
        assert(list.drop_last()[at] == list[at]);
        lemma_elder_holds(list.drop_last(), created, at);
    }
}

/// A new record takes over the identity of the only other record of its role and
/// extent: the one that the record before it bore. Who holds the identity stays
/// open until the command is settled.
pub proof fn lemma_identity_is_inherited(
    v: LineageView,
    key: AnchorKey,
    record: AstId,
    old: AstId,
)
    requires
        bequeaths(v, key, old),
        old != record,
    ensures
        ({
            let w = assigned(v, key, record);
            &&& w.lineages.dom().contains(record)
            &&& w.lineages[record] == v.lineages[old]
            &&& w.lineages[old] == v.lineages[old]
            &&& w.inherited.dom().contains(record)
            &&& w.inherited[record] == old
            &&& w.claimed == v.claimed.insert(v.lineages[old])
            &&& w.pending.dom().contains(record)
            &&& w.pending[record] == (PendingInheritance {
                old_record: old,
                old_lineage: v.lineages[old],
                fresh_lineage: (v.next + 1) as u64,
            })
            &&& w.holders == v.holders
        }),
{
    let at = choose|at: int|
        0 <= at < v.anchors[key].len() && #[trigger] v.anchors[key][at] == old && forall|other: int|
            0 <= other < v.anchors[key].len() && other != at ==> v.created.contains(
                #[trigger] v.anchors[key][other],
            );
    lemma_one_elder(v.anchors[key], v.created, at);
    let w = reserved(v, record);
    assert(elder(w.anchors[key], w.created) == seq![old]);
    assert(predecessor(w, key, record) == Some(old));
}

/// A new record that no other bequeaths its identity to gets a fresh one, and
/// holds it at once.
pub proof fn lemma_identity_is_fresh(v: LineageView, key: AnchorKey, record: AstId)
    requires
        !v.lineages.dom().contains(record),
        forall|old: AstId| old != record ==> !#[trigger] bequeaths(v, key, old),
    ensures
        ({
            let w = assigned(v, key, record);
            &&& w.lineages.dom().contains(record)
            &&& w.lineages[record] == (v.next + 1) as u64
            &&& w.holders == v.holders.insert((v.next + 1) as u64, record)
            &&& w.inherited == v.inherited
            &&& w.pending == v.pending
            &&& w.claimed == v.claimed
        }),
{
    let w = reserved(v, record);
    let candidates = elder(w.anchors[key], w.created);
    if let Some(old) = predecessor(w, key, record) {
        let at = lemma_elder_is_one(v.anchors[key], v.created);
        lemma_elder_members(v.anchors[key], v.created);
        assert(v.anchors[key][at] == old);
        assert(candidates[0] == old);
        assert(bequeaths(v, key, old));
    }
}

/// What comes with every new record: an identity is set aside for it, it is the
/// last of its role and extent and the last of the command, and no other record
/// is touched.
pub proof fn lemma_record_is_entered(
    v: LineageView,
    key: AnchorKey,
    record: AstId,
    other: AstId,
    role: AnchorKey,
)
    requires
        other != record,
        role != key,
        v.anchors.dom().contains(role),
    ensures
        ({
            let w = assigned(v, key, record);
            &&& w.next == (v.next + 1) as u64
            &&& w.fresh.dom().contains(record)
            &&& w.fresh[record] == w.next
            &&& w.created == v.created.push(record)
            &&& w.anchors[key] == v.anchors[key].push(record)
            &&& w.anchors[role] == v.anchors[role]
            &&& w.record_anchors.dom().contains(record)
            &&& w.record_anchors[record] == key
            &&& w.lineages.dom().contains(other) == v.lineages.dom().contains(other)
            &&& w.lineages[other] == v.lineages[other]
            &&& w.record_anchors.dom().contains(other) == v.record_anchors.dom().contains(other)
            &&& w.record_anchors[other] == v.record_anchors[other]
            &&& w.fresh.dom().contains(other) == v.fresh.dom().contains(other)
            &&& w.fresh[other] == v.fresh[other]
            &&& w.died == v.died
            &&& w.died_anchors == v.died_anchors
        }),
{
}

/// A command starts with the identities, the roles and the extents of the one
/// before it, and with no records, claims or proofs of its own.
pub proof fn lemma_command_starts(v: LineageView)
    ensures
        ({
            let w = begun(v);
            &&& w.lineages == v.lineages
            &&& w.holders == v.holders
            &&& w.anchors == v.anchors
            &&& w.record_anchors == v.record_anchors
            &&& w.next == v.next
            &&& w.died == v.died
            &&& w.died_anchors == v.died_anchors
            &&& w.created.len() == 0
            &&& w.claimed == Set::<u64>::empty()
            &&& w.pending.dom() == Set::<AstId>::empty()
            &&& w.inherited.dom() == Set::<AstId>::empty()
            &&& w.fresh.dom() == Set::<AstId>::empty()
        }),
{
}

/// What one command builds and the next builds again has one identity: a record
/// that is alone in its role and extent hands its identity on to the record that
/// the next command builds there.
pub proof fn lemma_rebuilt_record_keeps_identity(
    v: LineageView,
    key: AnchorKey,
    first: AstId,
    second: AstId,
)
    requires
        first != second,
        v.anchors.dom().contains(key),
        v.anchors[key].len() == 0,
    ensures
        ({
            let before = assigned(begun(v), key, first);
            let after = assigned(begun(before), key, second);
            &&& after.lineages[second] == before.lineages[first]
            &&& after.inherited.dom().contains(second)
            &&& after.inherited[second] == first
        }),
{
    let before = assigned(begun(v), key, first);
    let start = begun(before);
    assert(start.anchors[key] =~= seq![first]);
    assert(start.anchors[key][0] == first);
    assert(bequeaths(start, key, first));
    lemma_identity_is_inherited(start, key, second, first);
}

// ---------------------------------------------------------------------------
// The end of a command

/// The identity that a proof comes to: that of the predecessor where it is gone,
/// the one that was set aside where it lives on.
pub open spec fn outcome(live: Map<u64, ()>, claim: PendingInheritance) -> u64 {
    if live.dom().contains(claim.old_record as u64) {
        claim.fresh_lineage
    } else {
        claim.old_lineage
    }
}

proof fn lemma_dormant_sleep(list: Seq<u64>, lineages: Map<AstId, u64>)
    ensures
        forall|i: int|
            0 <= i < dormant(list, lineages).len() ==> !lineages.dom().contains(
                #[trigger] dormant(list, lineages)[i],
            ),
    decreases list.len(),
{
    if list.len() > 0 {
        let rest = list.drop_last();
        lemma_dormant_sleep(rest, lineages);
        let all = dormant(list, lineages);
        let before = dormant(rest, lineages);
        assert forall|i: int| 0 <= i < all.len() implies !lineages.dom().contains(
            #[trigger] all[i],
        ) by {
            if i < before.len() {
                assert(all[i] == before[i]);
            }
        }
    }
}

/// Records that come to life leave one alone that bears an identity.
proof fn lemma_woken_leaves<V>(
    v: LineageView,
    ast: AstArena<V>,
    records: Seq<AstId>,
    record: AstId,
)
    requires
        !records.contains(record),
    ensures
        ({
            let w = all_woken(v, ast, records);
            &&& w.lineages.dom().contains(record) == v.lineages.dom().contains(record)
            &&& w.lineages[record] == v.lineages[record]
            &&& w.pending.dom().contains(record) == v.pending.dom().contains(record)
            &&& w.pending[record] == v.pending[record]
            &&& w.created.contains(record) == v.created.contains(record)
        }),
    decreases records.len(),
{
    if records.len() > 0 {
        let rest = records.drop_last();
        let last = records.last();
        assert(records[records.len() - 1] == last);
        assert(!rest.contains(record)) by {
            if rest.contains(record) {
                let k = rest.index_of(record);
                assert(records[k] == record);
            }
        }
        lemma_woken_leaves(v, ast, rest, record);
        let w = all_woken(v, ast, rest);
        let x = woken(w, ast, last);
        assert(x.created == w.created || x.created == w.created.push(last));
        lemma_push_keeps(w.created, last, record);
    }
}

proof fn lemma_push_keeps(list: Seq<AstId>, last: AstId, record: AstId)
    requires
        record != last,
    ensures
        list.push(last).contains(record) == list.contains(record),
{
    let all = list.push(last);
    if list.contains(record) {
        let k = list.index_of(record);
        assert(all[k] == record);
    }
    if all.contains(record) {
        let k = all.index_of(record);
        assert(list[k] == record);
    }
}

/// The context of one record leaves alone a record that has a proof or is none
/// of the command.
proof fn lemma_context_leaves<V>(
    v: LineageView,
    products: Seq<ProductView>,
    ast: AstArena<V>,
    upto: int,
    record: AstId,
)
    requires
        0 <= upto <= v.created.len(),
        v.pending.dom().contains(record) || !v.created.contains(record),
    ensures
        ({
            let w = context_pass(v, products, ast, upto);
            &&& w.created == v.created
            &&& w.lineages.dom().contains(record) == v.lineages.dom().contains(record)
            &&& w.lineages[record] == v.lineages[record]
            &&& w.pending.dom().contains(record) == v.pending.dom().contains(record)
            &&& w.pending[record] == v.pending[record]
        }),
    decreases upto,
{
    if upto > 0 {
        let other = v.created[upto - 1];
        assert(v.created.contains(other));
        let w = contextual(v, products, ast, other);
        lemma_context_leaves(w, products, ast, upto - 1, record);
    }
}

proof fn lemma_contexts_leave<V>(
    v: LineageView,
    products: Seq<ProductView>,
    ast: AstArena<V>,
    fuel: nat,
    record: AstId,
)
    requires
        v.pending.dom().contains(record) || !v.created.contains(record),
    ensures
        ({
            let w = context_passes(v, products, ast, fuel);
            &&& w.created == v.created
            &&& w.lineages.dom().contains(record) == v.lineages.dom().contains(record)
            &&& w.lineages[record] == v.lineages[record]
            &&& w.pending.dom().contains(record) == v.pending.dom().contains(record)
            &&& w.pending[record] == v.pending[record]
        }),
    decreases fuel,
{
    if fuel > 0 {
        lemma_context_leaves(v, products, ast, v.created.len() as int, record);
        let w = context_pass(v, products, ast, v.created.len() as int);
        if w.pending.dom() != v.pending.dom() {
            lemma_contexts_leave(w, products, ast, (fuel - 1) as nat, record);
        }
    }
}

/// Settling proofs leaves a record alone that has none; one that has a proof
/// bears what the proof comes to.
proof fn lemma_commits(
    v: LineageView,
    live: Map<u64, ()>,
    records: Seq<AstId>,
    record: AstId,
)
    ensures
        ({
            let w = all_committed(v, live, records);
            &&& w.created == v.created
            &&& w.pending == v.pending
            &&& w.died == v.died
            &&& v.pending.dom().contains(record) && records.contains(record) ==> {
                &&& w.lineages.dom().contains(record)
                &&& w.lineages[record] == outcome(live, v.pending[record])
            }
            &&& !v.pending.dom().contains(record) || !records.contains(record) ==> {
                &&& w.lineages.dom().contains(record) == v.lineages.dom().contains(record)
                &&& w.lineages[record] == v.lineages[record]
            }
        }),
    decreases records.len(),
{
    if records.len() > 0 {
        let rest = records.drop_last();
        let last = records.last();
        lemma_commits(v, live, rest, record);
        let w = all_committed(v, live, rest);
        assert(committed(w, live, last).pending == w.pending);
        assert(rest.push(last) =~= records);
        if record != last {
            lemma_push_keeps(rest, last, record);
        } else {
            assert(records[records.len() - 1] == record);
        }
    }
}

/// Records that die leave the others alone.
proof fn lemma_unbound_leaves(v: LineageView, records: Seq<u64>, record: AstId)
    requires
        forall|i: int| 0 <= i < records.len() ==> #[trigger] records[i] as usize != record,
    ensures
        ({
            let w = all_unbound(v, records);
            &&& w.lineages.dom().contains(record) == v.lineages.dom().contains(record)
            &&& w.lineages[record] == v.lineages[record]
        }),
    decreases records.len(),
{
    if records.len() > 0 {
        let rest = records.drop_last();
        assert forall|i: int| 0 <= i < rest.len() implies #[trigger] rest[i] as usize != record by {
            assert(rest[i] == records[i]);
        }
        assert(records[records.len() - 1] as usize != record);
        lemma_unbound_leaves(v, rest, record);
    }
}

proof fn lemma_stillborn_dead(list: Seq<AstId>, live: Map<u64, ()>)
    ensures
        forall|i: int|
            0 <= i < stillborn(list, live).len() ==> (#[trigger] stillborn(list, live)[i])
                <= usize::MAX && !live.dom().contains(stillborn(list, live)[i]),
    decreases list.len(),
{
    if list.len() > 0 {
        let rest = list.drop_last();
        lemma_stillborn_dead(rest, live);
        let all = stillborn(list, live);
        let before = stillborn(rest, live);
        assert forall|i: int| 0 <= i < all.len() implies (#[trigger] all[i]) <= usize::MAX
            && !live.dom().contains(all[i]) by {
            if i < before.len() {
                assert(all[i] == before[i]);
            }
        }
    }
}

/// None of those that die at the end of a command is live.
proof fn lemma_dead_are_dead(
    newly_dead: Seq<u64>,
    created: Seq<AstId>,
    live: Map<u64, ()>,
    record: AstId,
)
    requires
        forall|i: int|
            0 <= i < newly_dead.len() ==> #[trigger] newly_dead[i] <= usize::MAX
                && !live.dom().contains(newly_dead[i]),
        live.dom().contains(record as u64),
    ensures
        ({
            let dead = distinct_sorted((newly_dead + stillborn(created, live)).to_set());
            forall|i: int| 0 <= i < dead.len() ==> #[trigger] dead[i] as usize != record
        }),
{
    let list = newly_dead + stillborn(created, live);
    lemma_stillborn_dead(created, live);
    lemma_distinct_sorted(list);
    let dead = distinct_sorted(list.to_set());
    assert forall|i: int| 0 <= i < dead.len() implies #[trigger] dead[i] as usize != record by {
        assert(dead.contains(dead[i]));
        assert(list.to_set().contains(dead[i]));
        let k = list.index_of(dead[i]);
        if k < newly_dead.len() {
            assert(list[k] == newly_dead[k]);
        } else {
            assert(list[k] == stillborn(created, live)[k - newly_dead.len()]);
        }
    }
}

/// A record that a command neither builds nor loses keeps its identity.
pub proof fn lemma_survivor_keeps_identity<V>(
    v: LineageView,
    live: Map<u64, ()>,
    newly_live: Seq<u64>,
    newly_dead: Seq<u64>,
    products: Seq<ProductView>,
    ast: AstArena<V>,
    record: AstId,
)
    requires
        v.lineages.dom().contains(record),
        !v.created.contains(record),
        !v.pending.dom().contains(record),
        live.dom().contains(record as u64),
        forall|i: int|
            0 <= i < newly_dead.len() ==> #[trigger] newly_dead[i] <= usize::MAX
                && !live.dom().contains(newly_dead[i]),
    ensures
        ({
            let w = settled(v, live, newly_live, newly_dead, products, ast);
            &&& w.lineages.dom().contains(record)
            &&& w.lineages[record] == v.lineages[record]
        }),
{
    lemma_settled_identity(v, live, newly_live, newly_dead, products, ast, record);
}

/// A record that a command builds and that lives in the end bears the identity
/// of its predecessor where that is gone, and the one that was set aside for it
/// where the predecessor lives on.
pub proof fn lemma_heir_bears_identity<V>(
    v: LineageView,
    live: Map<u64, ()>,
    newly_live: Seq<u64>,
    newly_dead: Seq<u64>,
    products: Seq<ProductView>,
    ast: AstArena<V>,
    record: AstId,
)
    requires
        v.lineages.dom().contains(record),
        v.created.contains(record),
        v.pending.dom().contains(record),
        live.dom().contains(record as u64),
        forall|i: int|
            0 <= i < newly_dead.len() ==> #[trigger] newly_dead[i] <= usize::MAX
                && !live.dom().contains(newly_dead[i]),
    ensures
        ({
            let w = settled(v, live, newly_live, newly_dead, products, ast);
            &&& w.lineages.dom().contains(record)
            &&& w.lineages[record] == if live.dom().contains(v.pending[record].old_record as u64) {
                v.pending[record].fresh_lineage
            } else {
                v.pending[record].old_lineage
            }
        }),
{
    lemma_settled_identity(v, live, newly_live, newly_dead, products, ast, record);
}

proof fn lemma_settled_identity<V>(
    v: LineageView,
    live: Map<u64, ()>,
    newly_live: Seq<u64>,
    newly_dead: Seq<u64>,
    products: Seq<ProductView>,
    ast: AstArena<V>,
    record: AstId,
)
    requires
        v.lineages.dom().contains(record),
        v.created.contains(record) == v.pending.dom().contains(record),
        live.dom().contains(record as u64),
        forall|i: int|
            0 <= i < newly_dead.len() ==> #[trigger] newly_dead[i] <= usize::MAX
                && !live.dom().contains(newly_dead[i]),
    ensures
        ({
            let w = settled(v, live, newly_live, newly_dead, products, ast);
            &&& w.lineages.dom().contains(record)
            &&& w.lineages[record] == if v.pending.dom().contains(record) {
                outcome(live, v.pending[record])
            } else {
                v.lineages[record]
            }
        }),
{
    let sleeping = dormant(newly_live, v.lineages);
    lemma_dormant_sleep(newly_live, v.lineages);
    if sleeping.contains(record) {
        let k = sleeping.index_of(record);
        assert(!v.lineages.dom().contains(sleeping[k]));
    }
    lemma_woken_leaves(v, ast, sleeping, record);
    let awake = all_woken(v, ast, sleeping);
    let proved = contexts_resolved(awake, products, ast);
    lemma_contexts_leave(
        awake,
        products,
        ast,
        unproved(awake.created, awake.pending) + 1,
        record,
    );
    lemma_commits(proved, live, proved.created, record);
    let done = all_committed(proved, live, proved.created);
    lemma_dead_are_dead(newly_dead, done.created, live, record);
    let dead = distinct_sorted((newly_dead + stillborn(done.created, live)).to_set());
    lemma_unbound_leaves(done, dead, record);
}

// ---------------------------------------------------------------------------
// Death and return

/// Records that die leave alone what is known of others that are dead.
proof fn lemma_unbound_died(v: LineageView, records: Seq<u64>, record: AstId)
    requires
        records.no_duplicates(),
        forall|i: int| 0 <= i < records.len() ==> #[trigger] records[i] <= usize::MAX,
    ensures
        ({
            let w = all_unbound(v, records);
            &&& records.contains(record as u64) ==> !w.lineages.dom().contains(record)
            &&& records.contains(record as u64) && v.lineages.dom().contains(record) ==> {
                &&& w.died.dom().contains(record as u64)
                &&& w.died[record as u64] == v.lineages[record]
            }
            &&& !records.contains(record as u64) ==> {
                &&& w.lineages.dom().contains(record) == v.lineages.dom().contains(record)
                &&& w.lineages[record] == v.lineages[record]
                &&& w.died.dom().contains(record as u64) == v.died.dom().contains(record as u64)
                &&& w.died[record as u64] == v.died[record as u64]
            }
        }),
    decreases records.len(),
{
    if records.len() > 0 {
        let rest = records.drop_last();
        let last = records.last();
        assert(records[records.len() - 1] <= usize::MAX);
        assert forall|i: int| 0 <= i < rest.len() implies #[trigger] rest[i] <= usize::MAX by {
            assert(rest[i] == records[i]);
        }
        lemma_unbound_died(v, rest, record);
        assert(records.contains(record as u64) <==> rest.contains(record as u64) || last
            == record as u64) by {
            if rest.contains(record as u64) {
                let k = rest.index_of(record as u64);
                assert(records[k] == record as u64);
            }
            if records.contains(record as u64) {
                let k = records.index_of(record as u64);
                if k < rest.len() {
                    assert(rest[k] == record as u64);
                }
            }
            assert(records[records.len() - 1] == last);
        }
        if rest.contains(record as u64) {
            let k = rest.index_of(record as u64);
            assert(records[k] != records[records.len() - 1]);
        }
    }
}

/// A record that dies is remembered with the identity that it bore, and bears
/// none any more.
pub proof fn lemma_dead_record_is_remembered<V>(
    v: LineageView,
    live: Map<u64, ()>,
    newly_live: Seq<u64>,
    newly_dead: Seq<u64>,
    products: Seq<ProductView>,
    ast: AstArena<V>,
    record: AstId,
)
    requires
        v.lineages.dom().contains(record),
        !v.created.contains(record),
        newly_dead.contains(record as u64),
        forall|i: int| 0 <= i < newly_dead.len() ==> #[trigger] newly_dead[i] <= usize::MAX,
    ensures
        ({
            let w = settled(v, live, newly_live, newly_dead, products, ast);
            &&& !w.lineages.dom().contains(record)
            &&& w.died.dom().contains(record as u64)
            &&& w.died[record as u64] == v.lineages[record]
        }),
{
    let sleeping = dormant(newly_live, v.lineages);
    lemma_dormant_sleep(newly_live, v.lineages);
    if sleeping.contains(record) {
        let k = sleeping.index_of(record);
        assert(!v.lineages.dom().contains(sleeping[k]));
    }
    lemma_woken_leaves(v, ast, sleeping, record);
    let awake = all_woken(v, ast, sleeping);
    let proved = contexts_resolved(awake, products, ast);
    lemma_contexts_leave(
        awake,
        products,
        ast,
        unproved(awake.created, awake.pending) + 1,
        record,
    );
    lemma_commits(proved, live, proved.created, record);
    let done = all_committed(proved, live, proved.created);
    let list = newly_dead + stillborn(done.created, live);
    let dead = distinct_sorted(list.to_set());
    lemma_distinct_sorted(list);
    lemma_stillborn_dead(done.created, live);
    let k = newly_dead.index_of(record as u64);
    assert(list[k] == record as u64);
    assert(list.to_set().contains(record as u64));
    assert(dead.to_set().contains(record as u64));
    assert(dead.contains(record as u64));
    assert forall|i: int| 0 <= i < dead.len() implies #[trigger] dead[i] <= usize::MAX by {
        assert(dead.to_set().contains(dead[i]));
        assert(list.to_set().contains(dead[i]));
        let j = list.index_of(dead[i]);
        if j < newly_dead.len() {
            assert(list[j] == newly_dead[j]);
        } else {
            assert(list[j] == stillborn(done.created, live)[j - newly_dead.len()]);
        }
    }
    assert(dead.no_duplicates());
    lemma_unbound_died(done, dead, record);
}

proof fn lemma_without(list: Seq<AstId>, record: AstId, other: AstId)
    ensures
        without(list, record).contains(other) <==> list.contains(other) && other != record,
    decreases list.len(),
{
    if list.len() > 0 {
        let rest = list.drop_last();
        let before = without(rest, record);
        let all = without(list, record);
        lemma_without(rest, record, other);
        if before.contains(other) {
            let k = before.index_of(other);
            assert(all[k] == other);
            let j = rest.index_of(other);
            assert(list[j] == other);
        }
        if list.contains(other) && other != record {
            let j = list.index_of(other);
            if j < rest.len() {
                assert(rest[j] == other);
            } else {
                assert(all[before.len() as int] == other);
            }
        }
        if all.contains(other) {
            let k = all.index_of(other);
            if k < before.len() {
                assert(before[k] == other);
            } else {
                assert(list[list.len() - 1] == other);
            }
        }
    }
}

/// A record that dies leaves its role and extent, which are remembered with it;
/// the others of that role and extent stay, and so do all other roles.
pub proof fn lemma_dead_record_leaves_its_role(
    v: LineageView,
    record: AstId,
    other: AstId,
    role: AnchorKey,
)
    requires
        v.record_anchors.dom().contains(record),
        v.anchors.dom().contains(role),
    ensures
        ({
            let w = unbound(v, record);
            let key = v.record_anchors[record];
            &&& !w.record_anchors.dom().contains(record)
            &&& w.died_anchors.dom().contains(record)
            &&& w.died_anchors[record] == key
            &&& w.anchors[key].contains(other) <==> v.anchors[key].contains(other) && other
                != record
            &&& role != key ==> w.anchors[role] == v.anchors[role]
        }),
{
    lemma_without(v.anchors[v.record_anchors[record]], record, other);
}

/// A record that comes back to its identity comes back to its role and extent.
pub proof fn lemma_returned_record_takes_up_its_role<V>(
    v: LineageView,
    ast: AstArena<V>,
    record: AstId,
)
    requires
        v.died.dom().contains(record as u64),
        !v.holders.dom().contains(v.died[record as u64]),
        v.died_anchors.dom().contains(record),
    ensures
        ({
            let w = woken(v, ast, record);
            let key = v.died_anchors[record];
            &&& w.lineages[record] == v.died[record as u64]
            &&& w.holders[v.died[record as u64]] == record
            &&& !w.died.dom().contains(record as u64)
            &&& w.anchors[key] == v.anchors[key].push(record)
            &&& w.record_anchors.dom().contains(record)
            &&& w.record_anchors[record] == key
        }),
{
}

/// What dies and comes back stands where it stood: dying and coming back at once
/// gives a record its identity and its role and extent again.
pub proof fn lemma_death_and_return<V>(v: LineageView, ast: AstArena<V>, record: AstId)
    requires
        v.lineages.dom().contains(record),
        v.holders.dom().contains(v.lineages[record]),
        v.holders[v.lineages[record]] == record,
        v.record_anchors.dom().contains(record),
    ensures
        ({
            let w = woken(unbound(v, record), ast, record);
            &&& w.lineages == v.lineages
            &&& w.holders == v.holders
            &&& w.record_anchors == v.record_anchors
            &&& w.next == v.next
            &&& w.created == v.created
            &&& w.anchors[v.record_anchors[record]].contains(record)
        }),
{
    let dead = unbound(v, record);
    let w = woken(dead, ast, record);
    assert(w.lineages =~= v.lineages);
    assert(w.holders =~= v.holders);
    assert(w.record_anchors =~= v.record_anchors);
    let key = v.record_anchors[record];
    let list = dead.anchors[key];
    assert(w.anchors[key] == list.push(record));
    assert(list.push(record)[list.len() as int] == record);
}

/// Until its turn comes, the identity of a dead record stays free.
proof fn lemma_identity_stays_free<V>(
    v: LineageView,
    ast: AstArena<V>,
    records: Seq<AstId>,
    record: AstId,
    at: int,
)
    requires
        0 <= at <= records.len(),
        !v.lineages.dom().contains(record),
        v.died.dom().contains(record as u64),
        v.died[record as u64] <= v.next,
        !v.holders.dom().contains(v.died[record as u64]),
        v.next + at <= u64::MAX,
        forall|i: int|
            0 <= i < at ==> #[trigger] records[i] != record && (v.died.dom().contains(
                records[i] as u64,
            ) ==> v.died[records[i] as u64] != v.died[record as u64]),
    ensures
        ({
            let w = all_woken(v, ast, records.take(at));
            &&& w.died.dom().contains(record as u64)
            &&& w.died[record as u64] == v.died[record as u64]
            &&& !w.holders.dom().contains(v.died[record as u64])
            &&& v.next <= w.next <= v.next + at
            &&& forall|key: u64| #[trigger]
                w.died.dom().contains(key) ==> v.died.dom().contains(key) && w.died[key]
                    == v.died[key]
            &&& w.created.contains(record) == v.created.contains(record)
            &&& w.pending.dom().contains(record) == v.pending.dom().contains(record)
        }),
    decreases at,
{
    if at > 0 {
        lemma_identity_stays_free(v, ast, records, record, at - 1);
        let w = all_woken(v, ast, records.take(at - 1));
        assert(records.take(at).drop_last() =~= records.take(at - 1));
        let other = records[at - 1];
        assert(other != record);
        let x = woken(w, ast, other);
        assert(x.created == w.created || x.created == w.created.push(other));
        lemma_push_keeps(w.created, other, record);
    } else {
        assert(records.take(0) =~= Seq::<AstId>::empty());
    }
}

/// A record that died and comes back takes up the identity that it bore, where
/// nobody bears it and no other record that comes back bore it.
pub proof fn lemma_returned_record_takes_up_identity<V>(
    v: LineageView,
    live: Map<u64, ()>,
    newly_live: Seq<u64>,
    newly_dead: Seq<u64>,
    products: Seq<ProductView>,
    ast: AstArena<V>,
    record: AstId,
)
    requires
        !v.lineages.dom().contains(record),
        !v.created.contains(record),
        !v.pending.dom().contains(record),
        v.died.dom().contains(record as u64),
        v.died[record as u64] <= v.next,
        !v.holders.dom().contains(v.died[record as u64]),
        newly_live.no_duplicates(),
        newly_live.contains(record as u64),
        forall|i: int| 0 <= i < newly_live.len() ==> #[trigger] newly_live[i] <= usize::MAX,
        forall|i: int|
            0 <= i < newly_live.len() && #[trigger] newly_live[i] != record as u64
                && v.died.dom().contains(newly_live[i]) ==> v.died[newly_live[i]]
                != v.died[record as u64],
        v.next + newly_live.len() <= u64::MAX,
        live.dom().contains(record as u64),
        forall|i: int|
            0 <= i < newly_dead.len() ==> #[trigger] newly_dead[i] <= usize::MAX
                && !live.dom().contains(newly_dead[i]),
    ensures
        ({
            let w = settled(v, live, newly_live, newly_dead, products, ast);
            &&& w.lineages.dom().contains(record)
            &&& w.lineages[record] == v.died[record as u64]
        }),
{
    let sleeping = dormant(newly_live, v.lineages);
    lemma_dormant_all(newly_live, v.lineages);
    assert(sleeping.contains(record));
    let at = sleeping.index_of(record);
    assert forall|i: int| 0 <= i < at implies #[trigger] sleeping[i] != record && (
    v.died.dom().contains(sleeping[i] as u64) ==> v.died[sleeping[i] as u64]
        != v.died[record as u64]) by {
        assert(sleeping[i] != sleeping[at]);
        assert(newly_live.contains(sleeping[i] as u64));
        let k = newly_live.index_of(sleeping[i] as u64);
        assert(newly_live[k] != record as u64);
    }
    lemma_identity_stays_free(v, ast, sleeping, record, at);
    let w = all_woken(v, ast, sleeping.take(at));
    let x = all_woken(v, ast, sleeping.take(at + 1));
    assert(sleeping.take(at + 1).drop_last() =~= sleeping.take(at));
    assert(x == woken(w, ast, record));
    assert(x.lineages[record] == v.died[record as u64]);
    assert(x.created == w.created);
    lemma_woken_joins(v, ast, sleeping, at + 1);
    let later = sleeping.skip(at + 1);
    assert(!later.contains(record)) by {
        if later.contains(record) {
            let k = later.index_of(record);
            assert(sleeping[at + 1 + k] == record);
            assert(sleeping[at + 1 + k] != sleeping[at]);
        }
    }
    lemma_woken_leaves(x, ast, later, record);
    let awake = all_woken(v, ast, sleeping);
    let proved = contexts_resolved(awake, products, ast);
    lemma_contexts_leave(
        awake,
        products,
        ast,
        unproved(awake.created, awake.pending) + 1,
        record,
    );
    lemma_commits(proved, live, proved.created, record);
    let done = all_committed(proved, live, proved.created);
    lemma_dead_are_dead(newly_dead, done.created, live, record);
    let dead = distinct_sorted((newly_dead + stillborn(done.created, live)).to_set());
    lemma_unbound_leaves(done, dead, record);
}

/// Waking a list is waking its first part and then the rest.
proof fn lemma_woken_joins<V>(v: LineageView, ast: AstArena<V>, records: Seq<AstId>, at: int)
    requires
        0 <= at <= records.len(),
    ensures
        all_woken(v, ast, records) == all_woken(
            all_woken(v, ast, records.take(at)),
            ast,
            records.skip(at),
        ),
    decreases records.len(),
{
    let later = records.skip(at);
    if at == records.len() {
        assert(records.take(at) =~= records);
        assert(later =~= Seq::<AstId>::empty());
    } else {
        let rest = records.drop_last();
        lemma_woken_joins(v, ast, rest, at);
        assert(rest.take(at) =~= records.take(at));
        assert(later.drop_last() =~= rest.skip(at));
        assert(later.last() == records.last());
    }
}

/// All records of a list without an identity are woken, each once.
proof fn lemma_dormant_all(list: Seq<u64>, lineages: Map<AstId, u64>)
    requires
        list.no_duplicates(),
        forall|i: int| 0 <= i < list.len() ==> #[trigger] list[i] <= usize::MAX,
    ensures
        dormant(list, lineages).no_duplicates(),
        dormant(list, lineages).len() <= list.len(),
        forall|record: AstId| #[trigger]
            dormant(list, lineages).contains(record) <==> list.contains(record as u64)
                && !lineages.dom().contains(record),
        forall|i: int|
            0 <= i < dormant(list, lineages).len() ==> list.contains(
                #[trigger] dormant(list, lineages)[i] as u64,
            ),
    decreases list.len(),
{
    let all = dormant(list, lineages);
    if list.len() > 0 {
        let rest = list.drop_last();
        let last = list.last();
        assert(list[list.len() - 1] <= usize::MAX);
        assert forall|i: int| 0 <= i < rest.len() implies #[trigger] rest[i] <= usize::MAX by {
            assert(rest[i] == list[i]);
        }
        lemma_dormant_all(rest, lineages);
        let before = dormant(rest, lineages);
        assert(rest.push(last) =~= list);
        assert forall|record: AstId| #[trigger] all.contains(record) <==> list.contains(
            record as u64,
        ) && !lineages.dom().contains(record) by {
            assert(before.contains(record) <==> rest.contains(record as u64)
                && !lineages.dom().contains(record));
            assert(list.contains(record as u64) <==> rest.contains(record as u64) || last
                == record as u64) by {
                if rest.contains(record as u64) {
                    let k = rest.index_of(record as u64);
                    assert(list[k] == record as u64);
                }
                if list.contains(record as u64) {
                    let k = list.index_of(record as u64);
                    if k < rest.len() {
                        assert(rest[k] == record as u64);
                    }
                }
                assert(list[list.len() - 1] == last);
            }
            if !lineages.dom().contains(last as usize) {
                if before.contains(record) {
                    let k = before.index_of(record);
                    assert(all[k] == record);
                }
                if record as u64 == last {
                    assert(all[before.len() as int] == record);
                }
                if all.contains(record) {
                    let k = all.index_of(record);
                    if k < before.len() {
                        assert(before[k] == record);
                    }
                }
            }
        }
        assert(all.no_duplicates()) by {
            if !lineages.dom().contains(last as usize) {
                assert(!before.contains(last as usize)) by {
                    if before.contains(last as usize) {
                        let k = rest.index_of(last);
                        assert(list[k] != list[list.len() - 1]);
                    }
                }
            }
        }
        assert forall|i: int| 0 <= i < all.len() implies list.contains(
            #[trigger] all[i] as u64,
        ) by {
            assert(all.contains(all[i]));
        }
    }
}

// ---------------------------------------------------------------------------
// Contexts

/// The place of a record among the children of its parent proves who it was: the
/// parent has a predecessor with as many children, the children beside it are
/// those beside the old one, and the identity of the old one is free.
pub open spec fn place_proves<V>(
    v: LineageView,
    products: Seq<ProductView>,
    ast: AstArena<V>,
    record: AstId,
    parent: AstId,
    at: int,
    lineage: u64,
) -> bool {
    let old_parent = v.inherited[parent];
    let new = child_records(products, ast, parent);
    let old = child_records(products, ast, old_parent);
    &&& parent_at(ast, record) == Some(parent)
    &&& v.inherited.dom().contains(parent)
    &&& v.fresh.dom().contains(record)
    &&& new.len() == old.len()
    &&& 0 <= at < new.len()
    &&& new[at] == record
    &&& forall|k: int| 0 <= k < at ==> #[trigger] new[k] != record
    &&& if v.lineages.dom().contains(old[at]) {
        v.lineages[old[at]] == lineage
    } else {
        v.died.dom().contains(old[at] as u64) && v.died[old[at] as u64] == lineage
    }
    &&& !v.claimed.contains(lineage)
    &&& at > 0 ==> stand_for_each_other(v, new[at - 1], old[at - 1])
    &&& at + 1 < new.len() ==> stand_for_each_other(v, new[at + 1], old[at + 1])
}

/// Two records stand for each other: they bear one identity, or are one record
/// where one of them bears none.
pub open spec fn stand_for_each_other(v: LineageView, new: AstId, old: AstId) -> bool {
    if v.lineages.dom().contains(new) && v.lineages.dom().contains(old) {
        v.lineages[new] == v.lineages[old]
    } else {
        new == old
    }
}

proof fn lemma_place_proves<V>(
    v: LineageView,
    products: Seq<ProductView>,
    ast: AstArena<V>,
    record: AstId,
    parent: AstId,
    at: int,
    lineage: u64,
)
    requires
        place_proves(v, products, ast, record, parent, at, lineage),
    ensures
        context_elder(v, products, ast, record) == Some(
            child_records(products, ast, v.inherited[parent])[at],
        ),
        known_lineage(v, child_records(products, ast, v.inherited[parent])[at]) == Some(lineage),
{
    let new = child_records(products, ast, parent);
    assert(new.contains(record)) by {
        assert(new[at] == record);
    }
    assert(is_first_place(new, record, at));
    let found_at = choose|k: int| is_first_place(new, record, k);
    if found_at < at {
        assert(new[found_at] != record);
    }
    if at < found_at {
        assert(new[at] != record);
    }
    assert(first_place(new, record) == Some(at));
}

/// One look at a record whose place proves who it was gives it that identity, to
/// be settled when the command ends.
pub proof fn lemma_place_is_enough<V>(
    v: LineageView,
    products: Seq<ProductView>,
    ast: AstArena<V>,
    record: AstId,
    parent: AstId,
    at: int,
    lineage: u64,
)
    requires
        place_proves(v, products, ast, record, parent, at, lineage),
        !v.pending.dom().contains(record),
    ensures
        ({
            let w = contextual(v, products, ast, record);
            let old = child_records(products, ast, v.inherited[parent])[at];
            &&& w.lineages[record] == lineage
            &&& w.claimed.contains(lineage)
            &&& w.inherited.dom().contains(record)
            &&& w.pending.dom().contains(record)
            &&& w.pending[record] == (PendingInheritance {
                old_record: old,
                old_lineage: lineage,
                fresh_lineage: v.fresh[record],
            })
        }),
{
    lemma_place_proves(v, products, ast, record, parent, at, lineage);
}

/// A pass that adds no proof changes nothing, and finds no context that proves
/// anything.
proof fn lemma_idle_pass<V>(
    v: LineageView,
    products: Seq<ProductView>,
    ast: AstArena<V>,
    upto: int,
)
    requires
        0 <= upto <= v.created.len(),
        context_pass(v, products, ast, upto).pending.dom() == v.pending.dom(),
    ensures
        context_pass(v, products, ast, upto) == v,
        forall|k: int|
            0 <= k < upto && !v.pending.dom().contains(#[trigger] v.created[k])
                ==> context_elder(v, products, ast, v.created[k]) is None,
    decreases upto,
{
    if upto > 0 {
        let record = v.created[upto - 1];
        let w = contextual(v, products, ast, record);
        lemma_pass_adds(w, products, ast, upto - 1);
        if !v.pending.dom().contains(record) && context_elder(v, products, ast, record) is Some {
            assert(w.pending.dom().contains(record));
            assert(context_pass(w, products, ast, upto - 1).pending.dom().contains(record));
        }
        assert(w == v);
        lemma_idle_pass(w, products, ast, upto - 1);
    }
}

proof fn lemma_pass_adds<V>(
    v: LineageView,
    products: Seq<ProductView>,
    ast: AstArena<V>,
    upto: int,
)
    requires
        0 <= upto <= v.created.len(),
    ensures
        v.pending.dom().subset_of(context_pass(v, products, ast, upto).pending.dom()),
        context_pass(v, products, ast, upto).created == v.created,
        forall|record: AstId| #[trigger]
            context_pass(v, products, ast, upto).pending.dom().contains(record)
                ==> v.pending.dom().contains(record) || v.created.contains(record),
    decreases upto,
{
    if upto > 0 {
        let record = v.created[upto - 1];
        assert(v.created.contains(record));
        lemma_pass_adds(contextual(v, products, ast, record), products, ast, upto - 1);
    }
}

proof fn lemma_more_proved(
    list: Seq<AstId>,
    few: Map<AstId, PendingInheritance>,
    more: Map<AstId, PendingInheritance>,
)
    requires
        few.dom().subset_of(more.dom()),
    ensures
        unproved(list, more) <= unproved(list, few),
        unproved(list, more) == unproved(list, few) ==> forall|record: AstId|
            list.contains(record) && #[trigger] more.dom().contains(record) ==> few.dom().contains(
                record,
            ),
    decreases list.len(),
{
    if list.len() > 0 {
        let rest = list.drop_last();
        lemma_more_proved(rest, few, more);
        if unproved(list, more) == unproved(list, few) {
            assert forall|record: AstId|
                list.contains(record) && #[trigger] more.dom().contains(record) implies few.dom()
                .contains(record) by {
                let k = list.index_of(record);
                if k < rest.len() {
                    assert(rest[k] == record);
                    assert(rest.contains(record));
                }
            }
        }
    }
}

/// Passes go on until none is left that proves anything.
proof fn lemma_passes_end<V>(
    v: LineageView,
    products: Seq<ProductView>,
    ast: AstArena<V>,
    fuel: nat,
)
    requires
        fuel > unproved(v.created, v.pending),
    ensures
        ({
            let w = context_passes(v, products, ast, fuel);
            &&& w.created == v.created
            &&& forall|k: int|
                0 <= k < w.created.len() && !w.pending.dom().contains(#[trigger] w.created[k])
                    ==> context_elder(w, products, ast, w.created[k]) is None
        }),
    decreases fuel,
{
    let total = v.created.len() as int;
    let w = context_pass(v, products, ast, total);
    lemma_pass_adds(v, products, ast, total);
    if w.pending.dom() == v.pending.dom() {
        lemma_idle_pass(v, products, ast, total);
    } else {
        lemma_more_proved(v.created, v.pending, w.pending);
        assert(unproved(v.created, w.pending) < unproved(v.created, v.pending)) by {
            if unproved(v.created, w.pending) == unproved(v.created, v.pending) {
                assert(w.pending.dom() =~= v.pending.dom());
            }
        }
        lemma_passes_end(w, products, ast, (fuel - 1) as nat);
    }
}

/// After contexts were looked at, none is left that would prove who a record was:
/// every record of the command whose place proves it has its proof.
pub proof fn lemma_no_context_is_missed<V>(
    v: LineageView,
    products: Seq<ProductView>,
    ast: AstArena<V>,
    record: AstId,
    parent: AstId,
    at: int,
    lineage: u64,
)
    requires
        v.created.contains(record),
        place_proves(
            contexts_resolved(v, products, ast),
            products,
            ast,
            record,
            parent,
            at,
            lineage,
        ),
    ensures
        contexts_resolved(v, products, ast).pending.dom().contains(record),
{
    let w = contexts_resolved(v, products, ast);
    lemma_passes_end(v, products, ast, unproved(v.created, v.pending) + 1);
    if !w.pending.dom().contains(record) {
        let k = w.created.index_of(record);
        assert(w.created[k] == record);
        lemma_place_proves(w, products, ast, record, parent, at, lineage);
    }
}

} // verus!
