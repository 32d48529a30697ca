//! What holds of identities over whole commands: no two live records bear one
//! identity, and every identity is borne by whoever its holder says.

use vstd::prelude::*;

use crate::framework::parse::data::ast::{AstArena, AstId};
use crate::framework::parse::data::product::ProductView;
use crate::framework::parse::parsing::lineage::{
    all_committed, all_unbound, all_woken, assigned, begun, child_records, committed,
    context_elder, context_pass, context_passes, contexts_resolved, contextual, dormant, elder,
    first_place, found, is_first_place, known_lineage, lives, needs_fresh, no_identity_left,
    predecessor, reserved, runs_out, settled, stillborn, unbound, unheld, unproved, woken,
    AnchorKey, LineageView, PendingInheritance,
};
use crate::sort::{distinct_sorted, lemma_distinct_sorted};

verus! {

/// A record bears an identity from before the command.
pub open spec fn bearer(v: LineageView, record: AstId) -> bool {
    v.lineages.dom().contains(record) && !v.created.contains(record)
}

/// The state between commands is sound: the live records are those with an
/// identity, each is the holder of its identity, no identity is held by anyone
/// else, and no identity is yet to be handed out.
pub open spec fn sound(v: LineageView, live: Map<u64, ()>) -> bool {
    &&& forall|record: AstId| #[trigger] lives(live, record) <==> v.lineages.dom().contains(record)
    &&& forall|record: AstId|
        v.lineages.dom().contains(record) ==> v.holders.dom().contains(
            #[trigger] v.lineages[record],
        ) && v.holders[v.lineages[record]] == record && v.lineages[record] <= v.next
    &&& forall|lineage: u64|
        v.holders.dom().contains(lineage) ==> v.lineages.dom().contains(
            #[trigger] v.holders[lineage],
        ) && v.lineages[v.holders[lineage]] == lineage
    &&& forall|key: u64| v.died.dom().contains(key) ==> #[trigger] v.died[key] <= v.next
}

/// No two live records bear one identity.
pub proof fn lemma_sound_distinct(v: LineageView, live: Map<u64, ()>, a: AstId, b: AstId)
    requires
        sound(v, live),
        lives(live, a),
        lives(live, b),
        v.lineages[a] == v.lineages[b],
    ensures
        a == b,
{
    assert(v.holders[v.lineages[a]] == a);
    assert(v.holders[v.lineages[b]] == b);
}

/// The records of the command have fresh identities of their own.
spec fn created_ok(v: LineageView, base: u64) -> bool {
    &&& v.created.no_duplicates()
    &&& forall|record: AstId|
        #[trigger] v.created.contains(record) ==> v.fresh.dom().contains(record) && base
            < v.fresh[record] <= v.next && v.lineages.dom().contains(record)
    &&& forall|record: AstId|
        #[trigger] v.fresh.dom().contains(record) ==> v.created.contains(record)
    &&& forall|a: AstId, b: AstId|
        v.created.contains(a) && v.created.contains(b) && a != b ==> #[trigger] v.fresh[a]
            != #[trigger] v.fresh[b]
}

/// Bearers hold their identities.
spec fn bearers_ok(v: LineageView, base: u64) -> bool {
    forall|record: AstId|
        #[trigger] bearer(v, record) ==> v.lineages[record] <= base && v.holders.dom().contains(
            v.lineages[record],
        ) && v.holders[v.lineages[record]] == record
}

/// Identities are held by bearers, or by the records that they are fresh for.
spec fn holders_ok(v: LineageView) -> bool {
    forall|lineage: u64|
        #[trigger] v.holders.dom().contains(lineage) ==> {
            let record = v.holders[lineage];
            (bearer(v, record) && v.lineages[record] == lineage) || (v.created.contains(record)
                && v.fresh[record] == lineage)
        }
}

/// A predecessor lives on, or bears the identity in question.
spec fn claim_ok(v: LineageView, live: Map<u64, ()>, claim: PendingInheritance) -> bool {
    lives(live, claim.old_record) || (bearer(v, claim.old_record) && v.lineages[claim.old_record]
        == claim.old_lineage)
}

/// The proofs that wait are in order.
spec fn pending_ok(v: LineageView, live: Map<u64, ()>) -> bool {
    &&& forall|record: AstId|
        #[trigger] v.pending.dom().contains(record) ==> v.created.contains(record)
            && v.pending[record].fresh_lineage == v.fresh[record] && v.lineages[record]
            == v.pending[record].old_lineage && v.claimed.contains(v.pending[record].old_lineage)
            && claim_ok(v, live, v.pending[record])
    &&& forall|a: AstId, b: AstId|
        v.pending.dom().contains(a) && v.pending.dom().contains(b) && a != b
            ==> #[trigger] v.pending[a].old_lineage != #[trigger] v.pending[b].old_lineage
}

/// A record without a proof bears its fresh identity.
spec fn unproved_ok(v: LineageView) -> bool {
    forall|record: AstId|
        #[trigger] v.created.contains(record) && !v.pending.dom().contains(record)
            ==> v.lineages[record] == v.fresh[record] && v.holders.dom().contains(v.fresh[record])
            && v.holders[v.fresh[record]] == record
}

/// The identities of the dead are old.
spec fn died_ok(v: LineageView, base: u64) -> bool {
    forall|key: u64| #[trigger] v.died.dom().contains(key) ==> v.died[key] <= base
}

/// Predecessors bear an identity or live on.
spec fn inherited_ok(v: LineageView, live: Map<u64, ()>) -> bool {
    forall|record: AstId|
        #[trigger] v.inherited.dom().contains(record) ==> bearer(v, v.inherited[record]) || lives(
            live,
            v.inherited[record],
        )
}

/// The state within a command that began with `base` identities handed out and
/// will end with `live` records.
pub closed spec fn orderly(v: LineageView, base: u64, live: Map<u64, ()>) -> bool {
    &&& base <= v.next
    &&& created_ok(v, base)
    &&& bearers_ok(v, base)
    &&& holders_ok(v)
    &&& pending_ok(v, live)
    &&& unproved_ok(v)
    &&& died_ok(v, base)
    &&& inherited_ok(v, live)
}

/// A command begins in order, with the live records as bearers.
pub proof fn lemma_begin_orderly(v: LineageView, before: Map<u64, ()>, live: Map<u64, ()>)
    requires
        sound(v, before),
    ensures
        orderly(begun(v), v.next, live),
        forall|record: AstId| bearer(begun(v), record) <==> #[trigger] lives(before, record),
{
    let w = begun(v);
    assert forall|record: AstId| #[trigger] bearer(w, record) implies w.lineages[record] <= v.next
        && w.holders.dom().contains(w.lineages[record]) && w.holders[w.lineages[record]]
        == record by {
        assert(v.holders[v.lineages[record]] == record);
    }
    assert forall|lineage: u64| #[trigger] w.holders.dom().contains(lineage) implies {
        let record = w.holders[lineage];
        (bearer(w, record) && w.lineages[record] == lineage) || (w.created.contains(record)
            && w.fresh[record] == lineage)
    } by {
        assert(v.lineages.dom().contains(v.holders[lineage]));
    }
    assert forall|record: AstId| bearer(w, record) <==> #[trigger] lives(before, record) by {
        assert(lives(before, record) <==> v.lineages.dom().contains(record));
    }
}

/// A record that was never seen before keeps the command in order.
pub proof fn lemma_assign_orderly(
    v: LineageView,
    base: u64,
    live: Map<u64, ()>,
    key: AnchorKey,
    record: AstId,
)
    requires
        orderly(v, base, live),
        !v.lineages.dom().contains(record),
        v.next < u64::MAX,
    ensures
        orderly(assigned(v, key, record), base, live),
        forall|other: AstId|
            #[trigger] bearer(assigned(v, key, record), other) <==> bearer(v, other),
        assigned(v, key, record).lineages.dom() == v.lineages.dom().insert(record),
        assigned(v, key, record).created == v.created.push(record),
{
    let u = reserved(v, record);
    let w = assigned(v, key, record);
    let fresh = u.next;
    assert(!v.created.contains(record));
    assert forall|other: AstId| #[trigger] w.created.contains(other) <==> v.created.contains(other)
        || other == record by {
        lemma_push_contains(v.created, record, other);
    }
    assert(w.lineages.dom() =~= v.lineages.dom().insert(record));
    match predecessor(u, key, record) {
        Some(old) => {
            lemma_elder_member(u.anchors[key], u.created, 0);
            assert(!v.created.contains(old));
            assert(bearer(v, old));
        },
        None => {},
    }
    assert forall|other: AstId| #[trigger] bearer(w, other) <==> bearer(v, other) by {
        assert(w.created.contains(other) <==> v.created.contains(other) || other == record);
    }
    assert(w.created.no_duplicates());
    assert(created_ok(w, base)) by {
        assert forall|a: AstId, b: AstId|
            w.created.contains(a) && w.created.contains(b) && a != b implies #[trigger] w.fresh[a]
            != #[trigger] w.fresh[b] by {
            if a != record {
                assert(v.fresh[a] <= v.next);
            }
            if b != record {
                assert(v.fresh[b] <= v.next);
            }
            if a != record && b != record {
                assert(v.fresh[a] != v.fresh[b]);
            }
        }
    }
    assert forall|other: AstId| #[trigger] bearer(w, other) implies w.lineages[other] <= base
        && w.holders.dom().contains(w.lineages[other]) && w.holders[w.lineages[other]] == other by {
        assert(bearer(v, other));
    }
    assert(holders_ok(w)) by {
        assert forall|lineage: u64| #[trigger] w.holders.dom().contains(lineage) implies {
            let holder = w.holders[lineage];
            (bearer(w, holder) && w.lineages[holder] == lineage) || (w.created.contains(holder)
                && w.fresh[holder] == lineage)
        } by {
            if lineage != fresh || !(predecessor(u, key, record) is None) {
                assert(v.holders.dom().contains(lineage));
                let holder = v.holders[lineage];
                assert(holder != record);
                if bearer(v, holder) {
                    assert(bearer(w, holder));
                }
            }
        }
    }
    assert(pending_ok(w, live)) by {
        assert forall|other: AstId| #[trigger] w.pending.dom().contains(other) implies
            w.created.contains(other) && w.pending[other].fresh_lineage == w.fresh[other]
            && w.lineages[other] == w.pending[other].old_lineage && w.claimed.contains(
            w.pending[other].old_lineage,
        ) && claim_ok(w, live, w.pending[other]) by {
            if other != record {
                assert(v.pending.dom().contains(other));
                let claim = v.pending[other];
                if bearer(v, claim.old_record) {
                    assert(bearer(w, claim.old_record));
                }
            } else {
                assert(bearer(w, w.pending[other].old_record));
            }
        }
        assert forall|a: AstId, b: AstId|
            w.pending.dom().contains(a) && w.pending.dom().contains(b) && a != b implies
            #[trigger] w.pending[a].old_lineage != #[trigger] w.pending[b].old_lineage by {
            if a != record {
                assert(v.pending.dom().contains(a));
            }
            if b != record {
                assert(v.pending.dom().contains(b));
            }
            if a != record && b != record {
                assert(v.pending[a].old_lineage != v.pending[b].old_lineage);
            }
        }
    }
    assert(unproved_ok(w)) by {
        assert forall|other: AstId| #[trigger] w.created.contains(other)
            && !w.pending.dom().contains(other) implies w.lineages[other] == w.fresh[other]
            && w.holders.dom().contains(w.fresh[other]) && w.holders[w.fresh[other]] == other by {
            if other != record {
                assert(v.created.contains(other));
                assert(!v.pending.dom().contains(other));
                assert(v.fresh[other] <= v.next);
            } else {
                assert(!v.pending.dom().contains(record));
            }
        }
    }
    assert(inherited_ok(w, live)) by {
        assert forall|other: AstId| #[trigger] w.inherited.dom().contains(other) implies bearer(
            w,
            w.inherited[other],
        ) || lives(live, w.inherited[other]) by {
            if other != record || predecessor(u, key, record) is None {
                assert(v.inherited.dom().contains(other));
                if bearer(v, v.inherited[other]) {
                    assert(bearer(w, v.inherited[other]));
                }
            } else {
                assert(bearer(w, w.inherited[other]));
            }
        }
    }
}

proof fn lemma_push_contains(list: Seq<AstId>, added: AstId, other: AstId)
    ensures
        list.push(added).contains(other) <==> list.contains(other) || other == added,
{
    if list.contains(other) {
        let k = choose|k: int| 0 <= k < list.len() && list[k] == other;
        assert(list.push(added)[k] == other);
    }
    if other == added {
        assert(list.push(added)[list.len() as int] == other);
    }
    if list.push(added).contains(other) && other != added {
        let k = choose|k: int| 0 <= k < list.push(added).len() && list.push(added)[k] == other;
        assert(list[k] == other);
    }
}

/// Elder records were not created in the command.
proof fn lemma_elder_member(list: Seq<AstId>, created: Seq<AstId>, at: int)
    ensures
        0 <= at < elder(list, created).len() ==> !created.contains(elder(list, created)[at]),
    decreases list.len(),
{
    if list.len() > 0 {
        let rest = elder(list.drop_last(), created);
        if at < rest.len() {
            lemma_elder_member(list.drop_last(), created, at);
        }
    }
}

/// A record that comes to life keeps the command in order.
pub proof fn lemma_wake_orderly<V>(
    v: LineageView,
    base: u64,
    live: Map<u64, ()>,
    ast: AstArena<V>,
    record: AstId,
)
    requires
        orderly(v, base, live),
        !v.lineages.dom().contains(record),
        v.next < u64::MAX || !needs_fresh(v, record),
    ensures
        orderly(woken(v, ast, record), base, live),
        woken(v, ast, record).lineages.dom() == v.lineages.dom().insert(record),
        forall|other: AstId|
            #[trigger] bearer(woken(v, ast, record), other) ==> bearer(v, other) || other == record,
        forall|other: AstId|
            #[trigger] woken(v, ast, record).created.contains(other) ==> v.created.contains(other)
                || other == record,
{
    let w = woken(v, ast, record);
    if v.died.dom().contains(record as u64) && !v.holders.dom().contains(v.died[record as u64]) {
        let lineage = v.died[record as u64];
        assert(w.created == v.created);
        assert(w.lineages.dom() =~= v.lineages.dom().insert(record));
        assert(!v.created.contains(record));
        assert forall|other: AstId|
            #[trigger] bearer(w, other) <==> bearer(v, other) || other == record by {}
        assert(bearers_ok(w, base)) by {
            assert forall|other: AstId| #[trigger] bearer(w, other) implies w.lineages[other]
                <= base && w.holders.dom().contains(w.lineages[other])
                && w.holders[w.lineages[other]] == other by {
                if other != record {
                    assert(bearer(v, other));
                }
            }
        }
        assert(holders_ok(w)) by {
            assert forall|held: u64| #[trigger] w.holders.dom().contains(held) implies {
                let holder = w.holders[held];
                (bearer(w, holder) && w.lineages[holder] == held) || (w.created.contains(holder)
                    && w.fresh[holder] == held)
            } by {
                if held != lineage {
                    assert(v.holders.dom().contains(held));
                    assert(v.holders[held] != record);
                    if bearer(v, v.holders[held]) {
                        assert(bearer(w, v.holders[held]));
                    }
                } else {
                    assert(bearer(w, record));
                }
            }
        }
        assert(pending_ok(w, live)) by {
            assert forall|other: AstId| #[trigger] w.pending.dom().contains(other) implies
                w.created.contains(other) && w.pending[other].fresh_lineage == w.fresh[other]
                && w.lineages[other] == w.pending[other].old_lineage && w.claimed.contains(
                w.pending[other].old_lineage,
            ) && claim_ok(w, live, w.pending[other]) by {
                assert(v.pending.dom().contains(other));
                let claim = v.pending[other];
                if bearer(v, claim.old_record) {
                    assert(bearer(w, claim.old_record));
                    assert(claim.old_record != record);
                }
            }
            assert forall|a: AstId, b: AstId|
                w.pending.dom().contains(a) && w.pending.dom().contains(b) && a != b implies
                #[trigger] w.pending[a].old_lineage != #[trigger] w.pending[b].old_lineage by {
                assert(v.pending[a].old_lineage != v.pending[b].old_lineage);
            }
        }
        assert(unproved_ok(w)) by {
            assert forall|other: AstId| #[trigger] w.created.contains(other)
                && !w.pending.dom().contains(other) implies w.lineages[other] == w.fresh[other]
                && w.holders.dom().contains(w.fresh[other]) && w.holders[w.fresh[other]]
                == other by {
                assert(v.created.contains(other));
            }
        }
        assert(inherited_ok(w, live)) by {
            assert forall|other: AstId| #[trigger] w.inherited.dom().contains(other) implies bearer(
                w,
                w.inherited[other],
            ) || lives(live, w.inherited[other]) by {
                assert(v.inherited.dom().contains(other));
                if bearer(v, v.inherited[other]) {
                    assert(bearer(w, v.inherited[other]));
                }
            }
        }
        assert(created_ok(w, base)) by {
            assert forall|a: AstId, b: AstId|
                w.created.contains(a) && w.created.contains(b) && a != b implies
                #[trigger] w.fresh[a] != #[trigger] w.fresh[b] by {
                assert(v.fresh[a] != v.fresh[b]);
            }
        }
    } else {
        let key = AnchorKey {
            production: u32::MAX,
            extent: crate::framework::parse::parsing::lineage::extent_at(ast, record),
        };
        lemma_assign_orderly(v, base, live, key, record);
        assert forall|other: AstId| #[trigger] w.created.contains(other) implies
            v.created.contains(other) || other == record by {
            lemma_push_contains(v.created, record, other);
        }
    }
}

/// A record bears an identity from before the command or lives on.
pub open spec fn lasting(v: LineageView, live: Map<u64, ()>, record: AstId) -> bool {
    bearer(v, record) || lives(live, record)
}

/// The children of records from before the command, and of live ones, are such
/// records too.
pub open spec fn closed_under_children<V>(
    v: LineageView,
    live: Map<u64, ()>,
    products: Seq<ProductView>,
    ast: AstArena<V>,
) -> bool {
    forall|parent: AstId, at: int|
        lasting(v, live, parent) && 0 <= at < child_records(products, ast, parent).len()
            ==> #[trigger] lasting(v, live, child_records(products, ast, parent)[at])
}

/// Looking at the context of a record keeps the command in order.
proof fn lemma_contextual_orderly<V>(
    v: LineageView,
    base: u64,
    live: Map<u64, ()>,
    products: Seq<ProductView>,
    ast: AstArena<V>,
    record: AstId,
)
    requires
        orderly(v, base, live),
        closed_under_children(v, live, products, ast),
        v.created.contains(record),
    ensures
        orderly(contextual(v, products, ast, record), base, live),
        closed_under_children(contextual(v, products, ast, record), live, products, ast),
        forall|other: AstId|
            #[trigger] bearer(contextual(v, products, ast, record), other) <==> bearer(v, other),
        contextual(v, products, ast, record).created == v.created,
        contextual(v, products, ast, record).lineages.dom() == v.lineages.dom(),
        contextual(v, products, ast, record).next == v.next,
{
    let w = contextual(v, products, ast, record);
    assert(v.lineages.dom().contains(record));
    assert(w.lineages.dom() =~= v.lineages.dom());
    assert forall|other: AstId| #[trigger] bearer(w, other) <==> bearer(v, other) by {}
    assert forall|parent: AstId, at: int|
        lasting(w, live, parent) && 0 <= at < child_records(products, ast, parent).len() implies
        #[trigger] lasting(w, live, child_records(products, ast, parent)[at]) by {
        assert(bearer(w, parent) <==> bearer(v, parent));
        assert(lasting(v, live, child_records(products, ast, parent)[at]));
        assert(bearer(w, child_records(products, ast, parent)[at]) <==> bearer(
            v,
            child_records(products, ast, parent)[at],
        ));
    }
    if !v.pending.dom().contains(record) && context_elder(v, products, ast, record) is Some {
        let old = context_elder(v, products, ast, record)->Some_0;
        let lineage = known_lineage(v, old)->Some_0;
        let parent = crate::framework::parse::parsing::lineage::parent_at(ast, record)->Some_0;
        let old_parent = found(v.inherited, parent)->Some_0;
        let new_list = child_records(products, ast, parent);
        let old_list = child_records(products, ast, old_parent);
        let at = first_place(new_list, record)->Some_0;
        assert(0 <= at < new_list.len()) by {
            lemma_first_place(new_list, record);
        }
        assert(v.inherited.dom().contains(parent));
        assert(lasting(v, live, old_parent));
        assert(lasting(v, live, old_list[at]));
        assert(old == old_list[at]);
        let claim = PendingInheritance {
            old_record: old,
            old_lineage: lineage,
            fresh_lineage: v.fresh[record],
        };
        assert(claim_ok(w, live, claim)) by {
            assert(bearer(w, old) <==> bearer(v, old));
            if bearer(v, old) {
                assert(old != record);
            }
        }
        assert(bearers_ok(w, base)) by {
            assert forall|other: AstId| #[trigger] bearer(w, other) implies w.lineages[other]
                <= base && w.holders.dom().contains(w.lineages[other])
                && w.holders[w.lineages[other]] == other by {
                assert(bearer(v, other));
                assert(other != record);
            }
        }
        assert(holders_ok(w)) by {
            assert forall|held: u64| #[trigger] w.holders.dom().contains(held) implies {
                let holder = w.holders[held];
                (bearer(w, holder) && w.lineages[holder] == held) || (w.created.contains(holder)
                    && w.fresh[holder] == held)
            } by {
                assert(v.holders.dom().contains(held));
                let holder = v.holders[held];
                if bearer(v, holder) {
                    assert(bearer(w, holder));
                    assert(holder != record);
                }
            }
        }
        assert(pending_ok(w, live)) by {
            assert forall|other: AstId| #[trigger] w.pending.dom().contains(other) implies
                w.created.contains(other) && w.pending[other].fresh_lineage == w.fresh[other]
                && w.lineages[other] == w.pending[other].old_lineage && w.claimed.contains(
                w.pending[other].old_lineage,
            ) && claim_ok(w, live, w.pending[other]) by {
                if other != record {
                    assert(v.pending.dom().contains(other));
                    let earlier = v.pending[other];
                    assert(bearer(w, earlier.old_record) <==> bearer(v, earlier.old_record));
                    if bearer(v, earlier.old_record) {
                        assert(earlier.old_record != record);
                    }
                }
            }
            assert forall|a: AstId, b: AstId|
                w.pending.dom().contains(a) && w.pending.dom().contains(b) && a != b implies
                #[trigger] w.pending[a].old_lineage != #[trigger] w.pending[b].old_lineage by {
                if a != record {
                    assert(v.pending.dom().contains(a));
                }
                if b != record {
                    assert(v.pending.dom().contains(b));
                }
                if a != record && b != record {
                    assert(v.pending[a].old_lineage != v.pending[b].old_lineage);
                }
            }
        }
        assert(unproved_ok(w)) by {
            assert forall|other: AstId| #[trigger] w.created.contains(other)
                && !w.pending.dom().contains(other) implies w.lineages[other] == w.fresh[other]
                && w.holders.dom().contains(w.fresh[other]) && w.holders[w.fresh[other]]
                == other by {
                assert(v.created.contains(other));
                assert(other != record);
                assert(!v.pending.dom().contains(other));
            }
        }
        assert(created_ok(w, base)) by {
            assert forall|a: AstId, b: AstId|
                w.created.contains(a) && w.created.contains(b) && a != b implies
                #[trigger] w.fresh[a] != #[trigger] w.fresh[b] by {
                assert(v.fresh[a] != v.fresh[b]);
            }
        }
        assert(inherited_ok(w, live)) by {
            assert forall|other: AstId| #[trigger] w.inherited.dom().contains(other) implies bearer(
                w,
                w.inherited[other],
            ) || lives(live, w.inherited[other]) by {
                if v.inherited.dom().contains(other) {
                    assert(bearer(w, v.inherited[other]) <==> bearer(v, v.inherited[other]));
                } else {
                    assert(bearer(w, old) <==> bearer(v, old));
                }
            }
        }
    }
}

proof fn lemma_first_place(list: Seq<AstId>, record: AstId)
    requires
        list.contains(record),
    ensures
        is_first_place(list, record, first_place(list, record)->Some_0),
{
    let k = choose|k: int| 0 <= k < list.len() && list[k] == record;
    lemma_has_first(list, record, k);
}

proof fn lemma_has_first(list: Seq<AstId>, record: AstId, k: int)
    requires
        0 <= k < list.len(),
        list[k] == record,
    ensures
        exists|at: int| is_first_place(list, record, at),
    decreases k,
{
    if forall|j: int| 0 <= j < k ==> #[trigger] list[j] != record {
        assert(is_first_place(list, record, k));
    } else {
        let j = choose|j: int| 0 <= j < k && #[trigger] list[j] == record;
        lemma_has_first(list, record, j);
    }
}

proof fn lemma_pass_orderly<V>(
    v: LineageView,
    base: u64,
    live: Map<u64, ()>,
    products: Seq<ProductView>,
    ast: AstArena<V>,
    upto: int,
)
    requires
        orderly(v, base, live),
        closed_under_children(v, live, products, ast),
        upto <= v.created.len(),
    ensures
        orderly(context_pass(v, products, ast, upto), base, live),
        closed_under_children(context_pass(v, products, ast, upto), live, products, ast),
        forall|other: AstId|
            #[trigger] bearer(context_pass(v, products, ast, upto), other) <==> bearer(v, other),
        context_pass(v, products, ast, upto).created == v.created,
        context_pass(v, products, ast, upto).lineages.dom() == v.lineages.dom(),
        context_pass(v, products, ast, upto).next == v.next,
    decreases upto,
{
    if upto > 0 {
        let record = v.created[upto - 1];
        assert(v.created.contains(record));
        lemma_contextual_orderly(v, base, live, products, ast, record);
        let w = contextual(v, products, ast, record);
        lemma_pass_orderly(w, base, live, products, ast, upto - 1);
    }
}

proof fn lemma_passes_orderly<V>(
    v: LineageView,
    base: u64,
    live: Map<u64, ()>,
    products: Seq<ProductView>,
    ast: AstArena<V>,
    fuel: nat,
)
    requires
        orderly(v, base, live),
        closed_under_children(v, live, products, ast),
    ensures
        orderly(context_passes(v, products, ast, fuel), base, live),
        forall|other: AstId|
            #[trigger] bearer(context_passes(v, products, ast, fuel), other) <==> bearer(v, other),
        context_passes(v, products, ast, fuel).created == v.created,
        context_passes(v, products, ast, fuel).lineages.dom() == v.lineages.dom(),
        context_passes(v, products, ast, fuel).next == v.next,
    decreases fuel,
{
    if fuel > 0 {
        lemma_pass_orderly(v, base, live, products, ast, v.created.len() as int);
        let w = context_pass(v, products, ast, v.created.len() as int);
        if w.pending.dom() != v.pending.dom() {
            lemma_passes_orderly(w, base, live, products, ast, (fuel - 1) as nat);
        }
    }
}

// ---------------------------------------------------------------------------
// Transfers

/// What holds while the proofs of the first `done` records are settled.
#[verifier::opaque]
spec fn transferring(
    v: LineageView,
    w: LineageView,
    live: Map<u64, ()>,
    done: int,
) -> bool {
    &&& w.created == v.created
    &&& w.fresh == v.fresh
    &&& w.pending == v.pending
    &&& w.next == v.next
    &&& w.died == v.died
    &&& w.lineages.dom() == v.lineages.dom()
    &&& forall|record: AstId|
        #[trigger] bearer(v, record) ==> w.lineages[record] == v.lineages[record] && (lives(
            live,
            record,
        ) ==> w.holders.dom().contains(v.lineages[record]) && w.holders[v.lineages[record]]
            == record)
    &&& forall|i: int|
        0 <= i < done ==> {
            let record = #[trigger] v.created[i];
            &&& w.holders.dom().contains(w.lineages[record])
            &&& w.holders[w.lineages[record]] == record
            &&& w.lineages[record] == v.fresh[record] || moved(v, live, record)
                && w.lineages[record] == v.pending[record].old_lineage
        }
    &&& forall|i: int|
        done <= i < v.created.len() ==> {
            let record = #[trigger] v.created[i];
            &&& w.lineages[record] == v.lineages[record]
            &&& !v.pending.dom().contains(record) ==> w.holders.dom().contains(v.fresh[record])
                && w.holders[v.fresh[record]] == record
        }
    &&& forall|lineage: u64|
        #[trigger] w.holders.dom().contains(lineage) ==> {
            let record = w.holders[lineage];
            ||| bearer(v, record) && v.lineages[record] == lineage
            ||| among(v.created, record, 0, done) && w.lineages[record] == lineage
            ||| among(v.created, record, done, v.created.len() as int) && v.fresh[record] == lineage
        }
}

/// A record stands in a part of a list.
spec fn among(list: Seq<AstId>, record: AstId, from: int, to: int) -> bool {
    exists|i: int| from <= i < to && #[trigger] list[i] == record
}

/// The next record moves from the later part to the earlier one.
proof fn lemma_among_step(list: Seq<AstId>, done: int)
    requires
        list.no_duplicates(),
        0 <= done < list.len(),
    ensures
        forall|record: AstId|
            #[trigger] among(list, record, 0, done + 1) <==> among(list, record, 0, done) || record
                == list[done],
        forall|record: AstId|
            #[trigger] among(list, record, done, list.len() as int) <==> among(
                list,
                record,
                done + 1,
                list.len() as int,
            ) || record == list[done],
        !among(list, list[done], 0, done),
        !among(list, list[done], done + 1, list.len() as int),
{
    let n = list.len() as int;
    assert forall|record: AstId|
        #[trigger] among(list, record, 0, done + 1) <==> among(list, record, 0, done) || record
            == list[done] by {
        if among(list, record, 0, done + 1) {
            let i = choose|i: int| 0 <= i < done + 1 && #[trigger] list[i] == record;
            if i < done {
                assert(list[i] == record);
            }
        }
        if among(list, record, 0, done) {
            let i = choose|i: int| 0 <= i < done && #[trigger] list[i] == record;
            assert(list[i] == record);
        }
    }
    assert forall|record: AstId|
        #[trigger] among(list, record, done, n) <==> among(list, record, done + 1, n) || record
            == list[done] by {
        if among(list, record, done, n) {
            let i = choose|i: int| done <= i < n && #[trigger] list[i] == record;
            if i > done {
                assert(list[i] == record);
            }
        }
        if among(list, record, done + 1, n) {
            let i = choose|i: int| done + 1 <= i < n && #[trigger] list[i] == record;
            assert(list[i] == record);
        }
    }
}

/// A record takes over the identity of its predecessor.
spec fn moved(v: LineageView, live: Map<u64, ()>, record: AstId) -> bool {
    v.pending.dom().contains(record) && !lives(live, v.pending[record].old_record)
}

proof fn lemma_transfer_step(
    v: LineageView,
    w: LineageView,
    base: u64,
    live: Map<u64, ()>,
    done: int,
)
    requires
        orderly(v, base, live),
        transferring(v, w, live, done),
        0 <= done < v.created.len(),
    ensures
        transferring(v, committed(w, live, v.created[done]), live, done + 1),
{
    reveal(transferring);
    let record = v.created[done];
    let next = committed(w, live, record);
    assert(v.created.contains(record));
    let fresh = v.fresh[record];
    let n = v.created.len() as int;
    assert(next.lineages.dom() =~= w.lineages.dom());
    lemma_among_step(v.created, done);
    assert forall|i: int| 0 <= i < v.created.len() && i != done implies #[trigger] v.created[i]
        != record && v.created.contains(v.created[i]) && v.fresh[v.created[i]] != fresh by {
        assert(v.created.contains(v.created[i]));
        assert(v.fresh[v.created[i]] != v.fresh[record]);
    }
    if moved(v, live, record) {
        let claim = v.pending[record];
        let old = claim.old_record;
        let lineage = claim.old_lineage;
        assert(claim_ok(v, live, claim));
        assert(bearer(v, old) && v.lineages[old] == lineage);
        assert(lineage <= base);
        assert(next.lineages[record] == lineage);
        assert forall|other: AstId| #[trigger] bearer(v, other) implies next.lineages[other]
            == v.lineages[other] && (lives(live, other) ==> next.holders.dom().contains(
            v.lineages[other],
        ) && next.holders[v.lineages[other]] == other) by {
            assert(other != record);
            if lives(live, other) {
                assert(v.holders[v.lineages[other]] == other);
                assert(v.holders[v.lineages[old]] == old);
                assert(v.lineages[other] != lineage);
                assert(v.lineages[other] <= base);
            }
        }
        assert forall|i: int| 0 <= i < done + 1 implies {
            let other = #[trigger] v.created[i];
            &&& next.holders.dom().contains(next.lineages[other])
            &&& next.holders[next.lineages[other]] == other
            &&& next.lineages[other] == v.fresh[other] || moved(v, live, other)
                && next.lineages[other] == v.pending[other].old_lineage
        } by {
            let other = v.created[i];
            if i < done {
                assert(other != record);
                assert(v.created.contains(other));
                assert(base < v.fresh[other]);
                if w.lineages[other] == v.fresh[other] {
                    assert(w.lineages[other] != lineage && w.lineages[other] != fresh);
                } else {
                    assert(v.pending[other].old_lineage != v.pending[record].old_lineage);
                    assert(claim_ok(v, live, v.pending[other]));
                    assert(w.lineages[other] <= base);
                }
            }
        }
        assert forall|i: int| done + 1 <= i < v.created.len() implies {
            let other = #[trigger] v.created[i];
            &&& next.lineages[other] == v.lineages[other]
            &&& !v.pending.dom().contains(other) ==> next.holders.dom().contains(v.fresh[other])
                && next.holders[v.fresh[other]] == other
        } by {
            let other = v.created[i];
            assert(v.created.contains(other));
            assert(other != record);
            assert(base < v.fresh[other]);
        }
        assert forall|held: u64| #[trigger] next.holders.dom().contains(held) implies {
            let holder = next.holders[held];
            ||| bearer(v, holder) && v.lineages[holder] == held
            ||| among(v.created, holder, 0, done + 1) && next.lineages[holder] == held
            ||| among(v.created, holder, done + 1, n) && v.fresh[holder] == held
        } by {
            let holder = next.holders[held];
            assert(among(v.created, record, 0, done + 1));
            if held != lineage {
                assert(w.holders.dom().contains(held));
                assert(holder == w.holders[held]);
                assert(among(v.created, holder, 0, done + 1) <==> among(v.created, holder, 0, done)
                    || holder == record);
                assert(among(v.created, holder, done, n) <==> among(
                    v.created,
                    holder,
                    done + 1,
                    n,
                ) || holder == record);
                if holder == record && held == fresh {
                    assert(!unheld(w.holders, fresh, record).dom().contains(fresh));
                }
            }
        }
    } else if v.pending.dom().contains(record) {
        assert(next.lineages[record] == fresh);
        assert forall|other: AstId| #[trigger] bearer(v, other) implies next.lineages[other]
            == v.lineages[other] && (lives(live, other) ==> next.holders.dom().contains(
            v.lineages[other],
        ) && next.holders[v.lineages[other]] == other) by {
            assert(other != record);
            assert(v.lineages[other] <= base);
        }
        assert forall|i: int| 0 <= i < done + 1 implies {
            let other = #[trigger] v.created[i];
            &&& next.holders.dom().contains(next.lineages[other])
            &&& next.holders[next.lineages[other]] == other
            &&& next.lineages[other] == v.fresh[other] || moved(v, live, other)
                && next.lineages[other] == v.pending[other].old_lineage
        } by {
            let other = v.created[i];
            if i < done {
                assert(other != record);
                assert(v.created.contains(other));
                if w.lineages[other] != v.fresh[other] {
                    assert(claim_ok(v, live, v.pending[other]));
                    assert(w.lineages[other] <= base);
                }
                assert(w.lineages[other] != fresh);
            }
        }
        assert forall|i: int| done + 1 <= i < v.created.len() implies {
            let other = #[trigger] v.created[i];
            &&& next.lineages[other] == v.lineages[other]
            &&& !v.pending.dom().contains(other) ==> next.holders.dom().contains(v.fresh[other])
                && next.holders[v.fresh[other]] == other
        } by {
            assert(v.created[i] != record);
        }
        assert forall|held: u64| #[trigger] next.holders.dom().contains(held) implies {
            let holder = next.holders[held];
            ||| bearer(v, holder) && v.lineages[holder] == held
            ||| among(v.created, holder, 0, done + 1) && next.lineages[holder] == held
            ||| among(v.created, holder, done + 1, n) && v.fresh[holder] == held
        } by {
            let holder = next.holders[held];
            assert(among(v.created, record, 0, done + 1));
            if held != fresh {
                assert(w.holders.dom().contains(held));
                assert(among(v.created, holder, 0, done + 1) <==> among(v.created, holder, 0, done)
                    || holder == record);
                assert(among(v.created, holder, done, n) <==> among(
                    v.created,
                    holder,
                    done + 1,
                    n,
                ) || holder == record);
            }
        }
    } else {
        assert(next == w);
        assert(w.lineages[record] == v.lineages[record]);
        assert(v.lineages[record] == fresh);
        assert forall|held: u64| #[trigger] next.holders.dom().contains(held) implies {
            let holder = next.holders[held];
            ||| bearer(v, holder) && v.lineages[holder] == held
            ||| among(v.created, holder, 0, done + 1) && next.lineages[holder] == held
            ||| among(v.created, holder, done + 1, n) && v.fresh[holder] == held
        } by {
            let holder = next.holders[held];
            assert(among(v.created, holder, 0, done + 1) <==> among(v.created, holder, 0, done)
                || holder == record);
            assert(among(v.created, holder, done, n) <==> among(v.created, holder, done + 1, n)
                || holder == record);
        }
    }
}

proof fn lemma_transfer_start(v: LineageView, base: u64, live: Map<u64, ()>)
    requires
        orderly(v, base, live),
    ensures
        transferring(v, v, live, 0),
{
    reveal(transferring);
    let n = v.created.len() as int;
    assert forall|i: int| 0 <= i < n implies {
        let record = #[trigger] v.created[i];
        &&& v.lineages[record] == v.lineages[record]
        &&& !v.pending.dom().contains(record) ==> v.holders.dom().contains(v.fresh[record])
            && v.holders[v.fresh[record]] == record
    } by {
        assert(v.created.contains(v.created[i]));
    }
    assert forall|lineage: u64| #[trigger] v.holders.dom().contains(lineage) implies {
        let record = v.holders[lineage];
        ||| bearer(v, record) && v.lineages[record] == lineage
        ||| among(v.created, record, 0, 0) && v.lineages[record] == lineage
        ||| among(v.created, record, 0, n) && v.fresh[record] == lineage
    } by {
        let record = v.holders[lineage];
        if v.created.contains(record) {
            let k = choose|k: int| 0 <= k < v.created.len() && v.created[k] == record;
            assert(v.created[k] == record);
        }
    }
}

proof fn lemma_transfer_all(v: LineageView, base: u64, live: Map<u64, ()>, done: int)
    requires
        orderly(v, base, live),
        0 <= done <= v.created.len(),
    ensures
        transferring(v, all_committed(v, live, v.created.take(done)), live, done),
    decreases done,
{
    if done == 0 {
        assert(v.created.take(0) =~= Seq::<AstId>::empty());
        lemma_transfer_start(v, base, live);
    } else {
        lemma_transfer_all(v, base, live, done - 1);
        let before = v.created.take(done - 1);
        assert(v.created.take(done).drop_last() =~= before);
        lemma_transfer_step(v, all_committed(v, live, before), base, live, done - 1);
    }
}

/// What holds while the dead are taken out.
#[verifier::opaque]
spec fn thinning(u: LineageView, live: Map<u64, ()>) -> bool {
    &&& forall|record: AstId|
        #[trigger] u.lineages.dom().contains(record) ==> u.lineages[record] <= u.next && (lives(
            live,
            record,
        ) ==> u.holders.dom().contains(u.lineages[record]) && u.holders[u.lineages[record]]
            == record)
    &&& forall|lineage: u64|
        #[trigger] u.holders.dom().contains(lineage) ==> u.lineages.dom().contains(
            u.holders[lineage],
        ) && u.lineages[u.holders[lineage]] == lineage
    &&& forall|key: u64| #[trigger] u.died.dom().contains(key) ==> u.died[key] <= u.next
}

/// Once all proofs are settled, every record with an identity is in order.
proof fn lemma_transferred(
    v: LineageView,
    w: LineageView,
    base: u64,
    live: Map<u64, ()>,
)
    requires
        orderly(v, base, live),
        transferring(v, w, live, v.created.len() as int),
    ensures
        thinning(w, live),
{
    reveal(transferring);
    reveal(thinning);
    let n = v.created.len() as int;
    assert forall|record: AstId| #[trigger] w.lineages.dom().contains(record) implies
        w.lineages[record] <= w.next && (lives(live, record) ==> w.holders.dom().contains(
        w.lineages[record],
    ) && w.holders[w.lineages[record]] == record) by {
        if v.created.contains(record) {
            let k = choose|k: int| 0 <= k < v.created.len() && v.created[k] == record;
            assert(v.created[k] == record);
            if w.lineages[record] != v.fresh[record] {
                assert(claim_ok(v, live, v.pending[record]));
            }
        } else {
            assert(bearer(v, record));
        }
    }
    assert forall|lineage: u64| #[trigger] w.holders.dom().contains(lineage) implies
        w.lineages.dom().contains(w.holders[lineage]) && w.lineages[w.holders[lineage]]
        == lineage by {
        let record = w.holders[lineage];
        if among(v.created, record, 0, n) {
            let k = choose|k: int| 0 <= k < n && #[trigger] v.created[k] == record;
            assert(v.created.contains(record));
        }
        if among(v.created, record, n, n) {
            let k = choose|k: int| n <= k < n && #[trigger] v.created[k] == record;
        }
    }
}

proof fn lemma_unbind_all(u: LineageView, live: Map<u64, ()>, dead: Seq<u64>)
    requires
        thinning(u, live),
        forall|i: int|
            0 <= i < dead.len() ==> !lives(live, #[trigger] dead[i] as usize) && dead[i]
                <= usize::MAX,
    ensures
        thinning(all_unbound(u, dead), live),
        all_unbound(u, dead).next == u.next,
        forall|record: AstId|
            #[trigger] all_unbound(u, dead).lineages.dom().contains(record) <==> u.lineages.dom(
            ).contains(record) && !dead.contains(record as u64),
    decreases dead.len(),
{
    if dead.len() > 0 {
        let rest = dead.drop_last();
        let last = dead.last();
        assert forall|i: int| 0 <= i < rest.len() implies !lives(
            live,
            #[trigger] rest[i] as usize,
        ) && rest[i] <= usize::MAX by {
            assert(rest[i] == dead[i]);
        }
        lemma_unbind_all(u, live, rest);
        let w = all_unbound(u, rest);
        let record = last as usize;
        let x = unbound(w, record);
        assert(!lives(live, dead[dead.len() - 1] as usize));
        assert(thinning(x, live)) by {
            reveal(thinning);
            assert forall|other: AstId| #[trigger] x.lineages.dom().contains(other) implies
                x.lineages[other] <= x.next && (lives(live, other) ==> x.holders.dom().contains(
                x.lineages[other],
            ) && x.holders[x.lineages[other]] == other) by {
                assert(w.lineages.dom().contains(other));
            }
            assert forall|lineage: u64| #[trigger] x.holders.dom().contains(lineage) implies
                x.lineages.dom().contains(x.holders[lineage]) && x.lineages[x.holders[lineage]]
                == lineage by {
                assert(w.holders.dom().contains(lineage));
                if w.holders[lineage] == record {
                    assert(w.lineages.dom().contains(record));
                }
            }
            assert forall|key: u64| #[trigger] x.died.dom().contains(key) implies x.died[key]
                <= x.next by {
                if w.lineages.dom().contains(record) && key == record as u64 {
                } else {
                    assert(w.died.dom().contains(key));
                }
            }
        }
        assert forall|other: AstId|
            #[trigger] x.lineages.dom().contains(other) <==> u.lineages.dom().contains(other)
                && !dead.contains(other as u64) by {
            assert(w.lineages.dom().contains(other) <==> u.lineages.dom().contains(other)
                && !rest.contains(other as u64));
            if rest.contains(other as u64) {
                let k = choose|k: int| 0 <= k < rest.len() && rest[k] == other as u64;
                assert(dead[k] == other as u64);
            }
            if dead.contains(other as u64) {
                let k = choose|k: int| 0 <= k < dead.len() && dead[k] == other as u64;
                if k < rest.len() {
                    assert(rest[k] == other as u64);
                } else {
                    assert(last == other as u64);
                    assert(record == other);
                }
            }
            if other == record {
                assert(dead[dead.len() - 1] == other as u64);
            }
        }
    } else {
        assert forall|record: AstId|
            #[trigger] all_unbound(u, dead).lineages.dom().contains(record) <==> u.lineages.dom(
            ).contains(record) && !dead.contains(record as u64) by {}
    }
}

/// Records that come to life keep the command in order.
proof fn lemma_all_woken_orderly<V>(
    v: LineageView,
    base: u64,
    live: Map<u64, ()>,
    ast: AstArena<V>,
    records: Seq<AstId>,
)
    requires
        orderly(v, base, live),
        records.no_duplicates(),
        forall|i: int| 0 <= i < records.len() ==> !v.lineages.dom().contains(#[trigger] records[i]),
        !no_identity_left(v, ast, records),
    ensures
        orderly(all_woken(v, ast, records), base, live),
        forall|record: AstId|
            #[trigger] all_woken(v, ast, records).lineages.dom().contains(record)
                <==> v.lineages.dom().contains(record) || records.contains(record),
        forall|record: AstId|
            #[trigger] all_woken(v, ast, records).created.contains(record) ==> v.created.contains(
                record,
            ) || records.contains(record),
    decreases records.len(),
{
    if records.len() > 0 {
        let rest = records.drop_last();
        let last = records.last();
        assert forall|i: int| 0 <= i < rest.len() implies !v.lineages.dom().contains(
            #[trigger] rest[i],
        ) by {
            assert(rest[i] == records[i]);
        }
        assert(rest.no_duplicates()) by {
            assert forall|i: int, j: int| 0 <= i < rest.len() && 0 <= j < rest.len() && i
                != j implies rest[i] != rest[j] by {
                assert(records[i] != records[j]);
            }
        }
        assert forall|k: int| 0 <= k < rest.len() implies !#[trigger] runs_out(
            v,
            ast,
            rest,
            k,
        ) by {
            assert(rest.take(k) =~= records.take(k));
            assert(!runs_out(v, ast, records, k));
        }
        assert(records.take(rest.len() as int) =~= rest);
        assert(!runs_out(v, ast, records, rest.len() as int));
        lemma_all_woken_orderly(v, base, live, ast, rest);
        let w = all_woken(v, ast, rest);
        assert(!v.lineages.dom().contains(records[records.len() - 1]));
        assert(!w.lineages.dom().contains(last)) by {
            if rest.contains(last) {
                let k = choose|k: int| 0 <= k < rest.len() && rest[k] == last;
                assert(records[k] == records[records.len() - 1]);
            }
        }
        lemma_wake_orderly(w, base, live, ast, last);
        assert forall|record: AstId| records.contains(record) <==> rest.contains(record) || record
            == last by {
            lemma_push_contains(rest, last, record);
            assert(rest.push(last) =~= records);
        }
    } else {
        assert forall|record: AstId| !records.contains(record) by {}
    }
}

proof fn lemma_dormant_members(list: Seq<u64>, lineages: Map<AstId, u64>)
    requires
        list.no_duplicates(),
        forall|i: int| 0 <= i < list.len() ==> #[trigger] list[i] <= usize::MAX,
    ensures
        dormant(list, lineages).no_duplicates(),
        forall|record: AstId|
            #[trigger] dormant(list, lineages).contains(record) <==> list.contains(record as u64)
                && !lineages.dom().contains(record),
        dormant(list, lineages).len() <= list.len(),
    decreases list.len(),
{
    if list.len() > 0 {
        let rest = list.drop_last();
        let last = list.last();
        assert forall|i: int| 0 <= i < rest.len() implies #[trigger] rest[i] <= usize::MAX by {
            assert(rest[i] == list[i]);
        }
        assert(rest.no_duplicates()) by {
            assert forall|i: int, j: int| 0 <= i < rest.len() && 0 <= j < rest.len() && i
                != j implies rest[i] != rest[j] by {
                assert(list[i] != list[j]);
            }
        }
        lemma_dormant_members(rest, lineages);
        let before = dormant(rest, lineages);
        let after = dormant(list, lineages);
        assert(list[list.len() - 1] <= usize::MAX);
        assert(!rest.contains(last)) by {
            if rest.contains(last) {
                let k = choose|k: int| 0 <= k < rest.len() && rest[k] == last;
                assert(list[k] != list[list.len() - 1]);
            }
        }
        assert forall|key: u64| #[trigger] list.contains(key) <==> rest.contains(key) || key
            == last by {
            if list.contains(key) {
                let k = choose|k: int| 0 <= k < list.len() && list[k] == key;
                if k < rest.len() {
                    assert(rest[k] == key);
                }
            }
            if rest.contains(key) {
                let k = choose|k: int| 0 <= k < rest.len() && rest[k] == key;
                assert(list[k] == key);
            }
            if key == last {
                assert(list[list.len() - 1] == key);
            }
        }
        assert forall|record: AstId| #[trigger] before.contains(record) <==> rest.contains(
            record as u64,
        ) && !lineages.dom().contains(record) by {}
        if !lineages.dom().contains(last as usize) {
            assert(!before.contains(last as usize));
            assert forall|record: AstId| #[trigger] after.contains(record) <==> before.contains(
                record,
            ) || record == last as usize by {
                lemma_push_contains(before, last as usize, record);
            }
        }
        assert forall|record: AstId| #[trigger] after.contains(record) <==> list.contains(
            record as u64,
        ) && !lineages.dom().contains(record) by {
            assert(before.contains(record) <==> rest.contains(record as u64)
                && !lineages.dom().contains(record));
            assert(list.contains(record as u64) <==> rest.contains(record as u64) || record as u64
                == last);
        }
    } else {
        assert forall|record: AstId|
            #[trigger] dormant(list, lineages).contains(record) <==> list.contains(record as u64)
                && !lineages.dom().contains(record) by {}
    }
}

proof fn lemma_stillborn_members(list: Seq<AstId>, live: Map<u64, ()>)
    ensures
        forall|key: u64|
            #[trigger] stillborn(list, live).contains(key) <==> key <= usize::MAX && list.contains(
                key as usize,
            ) && !lives(live, key as usize),
    decreases list.len(),
{
    if list.len() > 0 {
        let rest = list.drop_last();
        let last = list.last();
        lemma_stillborn_members(rest, live);
        let before = stillborn(rest, live);
        let after = stillborn(list, live);
        assert forall|key: u64|
            #[trigger] after.contains(key) <==> key <= usize::MAX && list.contains(key as usize)
                && !lives(live, key as usize) by {
            assert(before.contains(key) <==> key <= usize::MAX && rest.contains(key as usize)
                && !lives(live, key as usize));
            assert(rest.push(last) =~= list);
            lemma_push_contains(rest, last, key as usize);
            if !lives(live, last) {
                if before.contains(key) {
                    let k = choose|k: int| 0 <= k < before.len() && before[k] == key;
                    assert(after[k] == key);
                }
                if key == last as u64 {
                    assert(after[before.len() as int] == key);
                }
                if after.contains(key) && key != last as u64 {
                    let k = choose|k: int| 0 <= k < after.len() && after[k] == key;
                    assert(before[k] == key);
                }
            }
        }
    } else {
        assert forall|key: u64|
            #[trigger] stillborn(list, live).contains(key) <==> key <= usize::MAX && list.contains(
                key as usize,
            ) && !lives(live, key as usize) by {}
    }
}

/// Settling a command against what is live in the end leaves identities sound:
/// exactly the live records bear one, and no two of them the same.
pub proof fn lemma_settle_sound<V>(
    v: LineageView,
    base: u64,
    before: Map<u64, ()>,
    live: Map<u64, ()>,
    newly_live: Seq<u64>,
    newly_dead: Seq<u64>,
    products: Seq<ProductView>,
    ast: AstArena<V>,
)
    requires
        orderly(v, base, live),
        forall|record: AstId| #[trigger] lives(before, record) <==> bearer(v, record),
        newly_live.no_duplicates(),
        forall|i: int|
            0 <= i < newly_live.len() ==> #[trigger] newly_live[i] <= usize::MAX && lives(
                live,
                newly_live[i] as usize,
            ),
        forall|record: AstId|
            #[trigger] lives(live, record) && !lives(before, record) ==> newly_live.contains(
                record as u64,
            ),
        forall|i: int|
            0 <= i < newly_dead.len() ==> #[trigger] newly_dead[i] <= usize::MAX && !lives(
                live,
                newly_dead[i] as usize,
            ),
        forall|record: AstId|
            #[trigger] lives(before, record) && !lives(live, record) ==> newly_dead.contains(
                record as u64,
            ),
        !no_identity_left(v, ast, dormant(newly_live, v.lineages)),
        closed_under_children(
            all_woken(v, ast, dormant(newly_live, v.lineages)),
            live,
            products,
            ast,
        ),
    ensures
        sound(settled(v, live, newly_live, newly_dead, products, ast), live),
{
    let sleeping = dormant(newly_live, v.lineages);
    lemma_dormant_members(newly_live, v.lineages);
    assert forall|i: int| 0 <= i < sleeping.len() implies !v.lineages.dom().contains(
        #[trigger] sleeping[i],
    ) by {
        assert(sleeping.contains(sleeping[i]));
    }
    lemma_all_woken_orderly(v, base, live, ast, sleeping);
    let awake = all_woken(v, ast, sleeping);
    lemma_passes_orderly(
        awake,
        base,
        live,
        products,
        ast,
        unproved(awake.created, awake.pending) + 1,
    );
    let proved = contexts_resolved(awake, products, ast);
    let n = proved.created.len() as int;
    lemma_transfer_all(proved, base, live, n);
    assert(proved.created.take(n) =~= proved.created);
    let done = all_committed(proved, live, proved.created);
    lemma_transferred(proved, done, base, live);
    assert(done.created == proved.created && done.lineages.dom() == proved.lineages.dom()
        && done.next == proved.next) by {
        reveal(transferring);
    }
    let all = newly_dead + stillborn(done.created, live);
    let dead = distinct_sorted(all.to_set());
    lemma_distinct_sorted(all);
    lemma_stillborn_members(done.created, live);
    assert forall|key: u64| dead.contains(key) <==> newly_dead.contains(key) || stillborn(
        done.created,
        live,
    ).contains(key) by {
        let late = stillborn(done.created, live);
        assert(dead.to_set().contains(key) == all.to_set().contains(key));
        if newly_dead.contains(key) {
            let k = choose|k: int| 0 <= k < newly_dead.len() && newly_dead[k] == key;
            assert(all[k] == key);
        }
        if late.contains(key) {
            let k = choose|k: int| 0 <= k < late.len() && late[k] == key;
            assert(all[newly_dead.len() + k] == key);
        }
        if all.contains(key) {
            let k = choose|k: int| 0 <= k < all.len() && all[k] == key;
            if k < newly_dead.len() {
                assert(newly_dead[k] == key);
            } else {
                assert(late[k - newly_dead.len()] == key);
            }
        }
    }
    assert forall|i: int| 0 <= i < dead.len() implies !lives(live, #[trigger] dead[i] as usize)
        && dead[i] <= usize::MAX by {
        assert(dead.contains(dead[i]));
        if newly_dead.contains(dead[i]) {
            let k = choose|k: int| 0 <= k < newly_dead.len() && newly_dead[k] == dead[i];
            assert(newly_dead[k] <= usize::MAX);
        }
    }
    lemma_unbind_all(done, live, dead);
    let end = settled(v, live, newly_live, newly_dead, products, ast);
    let bare = all_unbound(done, dead);
    assert(end.lineages == bare.lineages && end.holders == bare.holders && end.died == bare.died
        && end.next == bare.next);
    reveal(thinning);
    assert forall|record: AstId|
        #[trigger] lives(live, record) <==> end.lineages.dom().contains(record) by {
        assert(lives(before, record) <==> bearer(v, record));
        assert(bare.lineages.dom().contains(record) <==> done.lineages.dom().contains(record)
            && !dead.contains(record as u64));
        assert(awake.lineages.dom().contains(record) <==> v.lineages.dom().contains(record)
            || sleeping.contains(record));
        assert(sleeping.contains(record) <==> newly_live.contains(record as u64)
            && !v.lineages.dom().contains(record));
        if lives(live, record) {
            if newly_dead.contains(record as u64) {
                let k = choose|k: int| 0 <= k < newly_dead.len() && newly_dead[k] == record as u64;
                assert(!lives(live, newly_dead[k] as usize));
            }
        } else {
            if newly_live.contains(record as u64) {
                let k = choose|k: int| 0 <= k < newly_live.len() && newly_live[k] == record as u64;
                assert(lives(live, newly_live[k] as usize));
            }
            if v.created.contains(record) {
                lemma_still_created(v, base, live, ast, sleeping, record);
                assert(awake.created.contains(record));
                assert(stillborn(done.created, live).contains(record as u64));
            }
        }
    }
    assert forall|record: AstId| end.lineages.dom().contains(record) implies
        end.holders.dom().contains(#[trigger] end.lineages[record])
        && end.holders[end.lineages[record]] == record && end.lineages[record] <= end.next by {
        assert(bare.lineages.dom().contains(record));
        assert(lives(live, record));
    }
    assert forall|lineage: u64| end.holders.dom().contains(lineage) implies
        end.lineages.dom().contains(#[trigger] end.holders[lineage])
        && end.lineages[end.holders[lineage]] == lineage by {
        assert(bare.holders.dom().contains(lineage));
    }
    assert forall|key: u64| end.died.dom().contains(key) implies #[trigger] end.died[key]
        <= end.next by {
        assert(bare.died.dom().contains(key));
    }
}

/// Waking takes no record out of the command.
proof fn lemma_still_created<V>(
    v: LineageView,
    base: u64,
    live: Map<u64, ()>,
    ast: AstArena<V>,
    records: Seq<AstId>,
    record: AstId,
)
    requires
        v.created.contains(record),
    ensures
        all_woken(v, ast, records).created.contains(record),
    decreases records.len(),
{
    if records.len() > 0 {
        lemma_still_created(v, base, live, ast, records.drop_last(), record);
        let w = all_woken(v, ast, records.drop_last());
        lemma_push_contains(w.created, records.last(), record);
    }
}

} // verus!
