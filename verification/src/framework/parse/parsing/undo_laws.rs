//! Taking a command back to a mark undoes what was entered since.

use vstd::prelude::*;

use crate::framework::parse::data::ast::AstId;
use crate::framework::parse::parsing::lineage::{
    all_forgotten, assigned, forgotten, predecessor, reserved, rolled_back, without,
    AnchorKey, LineageMark, LineageView,
};

verus! {

/// The state after records were created, one after the other.
pub open spec fn entered(v: LineageView, list: Seq<(AnchorKey, AstId)>) -> LineageView
    decreases list.len(),
{
    if list.len() == 0 {
        v
    } else {
        assigned(entered(v, list.drop_last()), list.last().0, list.last().1)
    }
}

/// The records of a list of them with their roles and extents.
pub open spec fn records_in(list: Seq<(AnchorKey, AstId)>) -> Seq<AstId> {
    list.map_values(|entry: (AnchorKey, AstId)| entry.1)
}

/// Nothing is known of a record.
pub open spec fn is_unknown(v: LineageView, record: AstId) -> bool {
    &&& !v.lineages.dom().contains(record)
    &&& !v.fresh.dom().contains(record)
    &&& !v.pending.dom().contains(record)
    &&& !v.inherited.dom().contains(record)
    &&& !v.record_anchors.dom().contains(record)
    &&& forall|key: AnchorKey| !(#[trigger] v.anchors[key]).contains(record)
    &&& forall|lineage: u64|
        #[trigger] v.holders.dom().contains(lineage) ==> v.holders[lineage] != record
}

/// No identity is borne, held or claimed that was not handed out.
pub open spec fn is_handed_out(v: LineageView) -> bool {
    &&& forall|key: AnchorKey| #[trigger] v.anchors.dom().contains(key)
    &&& forall|lineage: u64| #[trigger] v.claimed.contains(lineage) ==> lineage <= v.next
    &&& forall|lineage: u64| #[trigger] v.holders.dom().contains(lineage) ==> lineage <= v.next
    &&& forall|record: AstId| #[trigger]
        v.lineages.dom().contains(record) ==> v.lineages[record] <= v.next
}

/// A list without those of another one.
spec fn lacking(list: Seq<AstId>, gone: Seq<AstId>) -> Seq<AstId>
    decreases list.len(),
{
    if list.len() == 0 {
        Seq::empty()
    } else if gone.contains(list.last()) {
        lacking(list.drop_last(), gone)
    } else {
        lacking(list.drop_last(), gone).push(list.last())
    }
}

proof fn lemma_grown(gone: Seq<AstId>, record: AstId, other: AstId)
    ensures
        gone.push(record).contains(other) <==> gone.contains(other) || other == record,
{
    let all = gone.push(record);
    if gone.contains(other) {
        let k = gone.index_of(other);
        assert(all[k] == other);
    }
    if other == record {
        assert(all[gone.len() as int] == other);
    }
    if all.contains(other) {
        let k = all.index_of(other);
        if k < gone.len() {
            assert(gone[k] == other);
        }
    }
}

proof fn lemma_lacking_none(list: Seq<AstId>, gone: Seq<AstId>)
    requires
        forall|k: int| 0 <= k < list.len() ==> !gone.contains(#[trigger] list[k]),
    ensures
        lacking(list, gone) == list,
    decreases list.len(),
{
    if list.len() > 0 {
        let rest = list.drop_last();
        assert forall|k: int| 0 <= k < rest.len() implies !gone.contains(#[trigger] rest[k]) by {
            assert(rest[k] == list[k]);
        }
        assert(!gone.contains(list[list.len() - 1]));
        lemma_lacking_none(rest, gone);
        assert(rest.push(list.last()) =~= list);
    }
}

proof fn lemma_lacking_more(list: Seq<AstId>, gone: Seq<AstId>, record: AstId)
    ensures
        without(lacking(list, gone), record) == lacking(list, gone.push(record)),
        !list.contains(record) ==> lacking(list, gone.push(record)) == lacking(list, gone),
    decreases list.len(),
{
    if list.len() > 0 {
        let rest = list.drop_last();
        let last = list.last();
        lemma_lacking_more(rest, gone, record);
        lemma_grown(gone, record, last);
        if !gone.contains(last) {
            let kept = lacking(rest, gone).push(last);
            assert(kept.drop_last() =~= lacking(rest, gone));
            assert(kept.last() == last);
        }
        if !list.contains(record) {
            assert(!rest.contains(record)) by {
                if rest.contains(record) {
                    let k = rest.index_of(record);
                    assert(list[k] == record);
                }
            }
            assert(list[list.len() - 1] == last);
        }
    }
}

/// What is known after records of which nothing was known were entered.
spec fn after_entering(v: LineageView, w: LineageView, records: Seq<AstId>) -> bool {
    &&& w.created == v.created + records
    &&& w.next == v.next + records.len()
    &&& w.died == v.died
    &&& w.died_anchors == v.died_anchors
    &&& forall|record: AstId| #[trigger] same_of(v, w, record) || records.contains(record)
    &&& forall|record: AstId| #[trigger]
        records.contains(record) ==> {
            &&& w.lineages.dom().contains(record)
            &&& w.fresh.dom().contains(record)
            &&& v.next < w.fresh[record] <= w.next
            &&& !v.claimed.contains(w.lineages[record])
            &&& w.record_anchors.dom().contains(record)
        }
    &&& forall|lineage: u64| #[trigger]
        v.holders.dom().contains(lineage) ==> w.holders.dom().contains(lineage)
            && w.holders[lineage] == v.holders[lineage]
    &&& forall|lineage: u64| #[trigger]
        w.holders.dom().contains(lineage) && !v.holders.dom().contains(lineage)
            ==> records.contains(w.holders[lineage]) && w.fresh[w.holders[lineage]] == lineage
    &&& forall|lineage: u64| #[trigger]
        v.claimed.contains(lineage) ==> w.claimed.contains(lineage)
    &&& forall|lineage: u64| #[trigger]
        w.claimed.contains(lineage) && !v.claimed.contains(lineage) ==> exists|record: AstId|
            #[trigger] records.contains(record) && w.lineages[record] == lineage
    &&& forall|key: AnchorKey| #[trigger] w.anchors.dom().contains(key)
    &&& forall|key: AnchorKey| lacking(#[trigger] w.anchors[key], records) == v.anchors[key]
    &&& forall|key: AnchorKey, record: AstId|
        records.contains(record) && #[trigger] w.anchors[key].contains(record)
            ==> w.record_anchors[record] == key
}

/// The same is known of a record.
spec fn same_of(v: LineageView, w: LineageView, record: AstId) -> bool {
    &&& w.lineages.dom().contains(record) == v.lineages.dom().contains(record)
    &&& w.lineages[record] == v.lineages[record]
    &&& w.fresh.dom().contains(record) == v.fresh.dom().contains(record)
    &&& w.fresh[record] == v.fresh[record]
    &&& w.pending.dom().contains(record) == v.pending.dom().contains(record)
    &&& w.pending[record] == v.pending[record]
    &&& w.inherited.dom().contains(record) == v.inherited.dom().contains(record)
    &&& w.inherited[record] == v.inherited[record]
    &&& w.record_anchors.dom().contains(record) == v.record_anchors.dom().contains(record)
    &&& w.record_anchors[record] == v.record_anchors[record]
}

proof fn lemma_entered(v: LineageView, list: Seq<(AnchorKey, AstId)>)
    requires
        is_handed_out(v),
        records_in(list).no_duplicates(),
        forall|k: int| 0 <= k < list.len() ==> is_unknown(v, (#[trigger] list[k]).1),
        v.next + list.len() <= u64::MAX,
    ensures
        after_entering(v, entered(v, list), records_in(list)),
    decreases list.len(),
{
    let records = records_in(list);
    let w = entered(v, list);
    if list.len() == 0 {
        assert(v.created + records =~= v.created);
        assert forall|key: AnchorKey| lacking(#[trigger] w.anchors[key], records)
            == v.anchors[key] by {
            lemma_lacking_none(v.anchors[key], records);
        }
        assert forall|record: AstId| #[trigger] same_of(v, w, record) || records.contains(
            record,
        ) by {}
    } else {
        let rest = list.drop_last();
        let before = records_in(rest);
        let (key, record) = list.last();
        assert(before =~= records.drop_last());
        assert(records =~= before.push(record));
        assert forall|k: int| 0 <= k < rest.len() implies is_unknown(v, (#[trigger] rest[k]).1) by {
            assert(rest[k] == list[k]);
        }
        lemma_entered(v, rest);
        let u = entered(v, rest);
        assert(is_unknown(v, list[list.len() - 1].1));
        assert(!before.contains(record)) by {
            if before.contains(record) {
                let k = before.index_of(record);
                assert(records[k] == records[records.len() - 1]);
            }
        }
        assert(same_of(v, u, record));
        lemma_entered_once(v, u, before, key, record);
    }
}

proof fn lemma_entered_once(
    v: LineageView,
    u: LineageView,
    before: Seq<AstId>,
    key: AnchorKey,
    record: AstId,
)
    requires
        is_handed_out(v),
        is_unknown(v, record),
        !before.contains(record),
        after_entering(v, u, before),
        same_of(v, u, record),
        u.next < u64::MAX,
    ensures
        after_entering(v, assigned(u, key, record), before.push(record)),
{
    let w = assigned(u, key, record);
    let records = before.push(record);
    let fresh = (u.next + 1) as u64;
    assert(w.created =~= v.created + records);
    assert forall|other: AstId| #[trigger] same_of(v, w, other) || records.contains(other) by {
        lemma_grown(before, record, other);
        assert(same_of(v, u, other) || before.contains(other));
    }
    let x = reserved(u, record);
    assert(x.lineages[record] == fresh);
    assert(!v.claimed.contains(w.lineages[record])) by {
        if let Some(old) = predecessor(x, key, record) {
            assert(!u.claimed.contains(w.lineages[record]));
        }
    }
    assert forall|other: AstId| #[trigger] records.contains(other) implies {
        &&& w.lineages.dom().contains(other)
        &&& w.fresh.dom().contains(other)
        &&& v.next < w.fresh[other] <= w.next
        &&& !v.claimed.contains(w.lineages[other])
        &&& w.record_anchors.dom().contains(other)
    } by {
        lemma_grown(before, record, other);
        if other != record {
            assert(before.contains(other));
        }
    }
    assert forall|lineage: u64| #[trigger] v.holders.dom().contains(lineage) implies w.holders.dom()
        .contains(lineage) && w.holders[lineage] == v.holders[lineage] by {
        assert(u.holders.dom().contains(lineage));
        assert(lineage <= v.next);
    }
    assert forall|lineage: u64| #[trigger]
        w.holders.dom().contains(lineage) && !v.holders.dom().contains(
            lineage,
        ) implies records.contains(w.holders[lineage]) && w.fresh[w.holders[lineage]]
        == lineage by {
        if lineage == fresh && w.holders[lineage] == record {
            lemma_grown(before, record, record);
        } else {
            assert(u.holders.dom().contains(lineage));
            lemma_grown(before, record, u.holders[lineage]);
        }
    }
    assert forall|lineage: u64| #[trigger]
        w.claimed.contains(lineage) && !v.claimed.contains(lineage) implies exists|other: AstId|
        #[trigger] records.contains(other) && w.lineages[other] == lineage by {
        if u.claimed.contains(lineage) {
            let other = choose|other: AstId| #[trigger]
                before.contains(other) && u.lineages[other] == lineage;
            lemma_grown(before, record, other);
            assert(records.contains(other) && w.lineages[other] == lineage);
        } else {
            lemma_grown(before, record, record);
            assert(records.contains(record) && w.lineages[record] == lineage);
        }
    }
    assert forall|role: AnchorKey| !(#[trigger] u.anchors[role]).contains(record) by {
        if u.anchors[role].contains(record) {
            lemma_lacking_holds(u.anchors[role], before, record);
            assert(lacking(u.anchors[role], before) == v.anchors[role]);
        }
    }
    assert forall|role: AnchorKey| lacking(#[trigger] w.anchors[role], records)
        == v.anchors[role] by {
        assert(lacking(u.anchors[role], before) == v.anchors[role]);
        lemma_lacking_more(u.anchors[role], before, record);
        if role == key {
            let more = u.anchors[key].push(record);
            assert(w.anchors[key] == more);
            assert(more.drop_last() =~= u.anchors[key]);
            lemma_grown(before, record, record);
        }
    }
    assert forall|role: AnchorKey, other: AstId|
        records.contains(other) && #[trigger] w.anchors[role].contains(
            other,
        ) implies w.record_anchors[other] == role by {
        lemma_grown(before, record, other);
        lemma_grown(u.anchors[role], record, other);
        if other == record {
            if role != key {
                assert(w.anchors[role] == u.anchors[role]);
            }
        } else {
            assert(before.contains(other));
            assert(u.anchors[role].contains(other));
        }
    }
}

proof fn lemma_lacking_holds(list: Seq<AstId>, gone: Seq<AstId>, record: AstId)
    requires
        list.contains(record),
        !gone.contains(record),
    ensures
        lacking(list, gone).contains(record),
    decreases list.len(),
{
    let rest = list.drop_last();
    let before = lacking(rest, gone);
    let all = lacking(list, gone);
    if list.last() == record {
        assert(all[before.len() as int] == record);
    } else {
        let k = list.index_of(record);
        assert(rest[k] == record);
        lemma_lacking_holds(rest, gone, record);
        let j = before.index_of(record);
        assert(all[j] == record);
    }
}

/// What is known after records were forgotten.
spec fn after_forgetting(w: LineageView, x: LineageView, done: Seq<AstId>) -> bool {
    &&& x.created == w.created
    &&& x.next == w.next
    &&& x.died == w.died
    &&& x.died_anchors == w.died_anchors
    &&& forall|record: AstId| #[trigger] same_of(w, x, record) || done.contains(record)
    &&& forall|record: AstId| #[trigger]
        done.contains(record) ==> {
            &&& !x.lineages.dom().contains(record)
            &&& !x.fresh.dom().contains(record)
            &&& !x.pending.dom().contains(record)
            &&& !x.inherited.dom().contains(record)
            &&& !x.record_anchors.dom().contains(record)
        }
    &&& forall|lineage: u64| #[trigger]
        x.holders.dom().contains(lineage) <==> w.holders.dom().contains(lineage) && !(
        done.contains(w.holders[lineage]) && is_of(w, w.holders[lineage], lineage))
    &&& forall|lineage: u64| #[trigger]
        x.holders.dom().contains(lineage) ==> x.holders[lineage] == w.holders[lineage]
    &&& forall|lineage: u64| #[trigger]
        x.claimed.contains(lineage) <==> w.claimed.contains(lineage) && forall|record: AstId|
            #[trigger] done.contains(record) ==> !is_of(w, record, lineage)
    &&& forall|key: AnchorKey| #[trigger] x.anchors.dom().contains(key)
    &&& forall|key: AnchorKey| #[trigger] x.anchors[key] == lacking(w.anchors[key], done)
}

/// An identity is borne by a record, or set aside for it.
spec fn is_of(w: LineageView, record: AstId, lineage: u64) -> bool {
    w.fresh[record] == lineage || w.lineages[record] == lineage
}

proof fn lemma_forgotten_once(
    w: LineageView,
    x: LineageView,
    done: Seq<AstId>,
    records: Seq<AstId>,
    record: AstId,
)
    requires
        after_forgetting(w, x, done),
        records.contains(record),
        !done.contains(record),
        w.lineages.dom().contains(record),
        w.fresh.dom().contains(record),
        w.record_anchors.dom().contains(record),
        forall|key: AnchorKey| #[trigger]
            w.anchors[key].contains(record) ==> w.record_anchors[record] == key,
    ensures
        after_forgetting(w, forgotten(x, record), done.push(record)),
{
    let y = forgotten(x, record);
    let more = done.push(record);
    assert(same_of(w, x, record));
    let key = w.record_anchors[record];
    assert forall|other: AstId| #[trigger] same_of(w, y, other) || more.contains(other) by {
        lemma_grown(done, record, other);
        assert(same_of(w, x, other) || done.contains(other));
    }
    assert forall|other: AstId| #[trigger] more.contains(other) implies {
        &&& !y.lineages.dom().contains(other)
        &&& !y.fresh.dom().contains(other)
        &&& !y.pending.dom().contains(other)
        &&& !y.inherited.dom().contains(other)
        &&& !y.record_anchors.dom().contains(other)
    } by {
        lemma_grown(done, record, other);
        if other != record {
            assert(done.contains(other));
        }
    }
    assert forall|lineage: u64| #[trigger] y.holders.dom().contains(lineage) <==> w.holders.dom()
        .contains(lineage) && !(more.contains(w.holders[lineage]) && is_of(
        w,
        w.holders[lineage],
        lineage,
    )) by {
        lemma_grown(done, record, w.holders[lineage]);
        assert(x.holders.dom().contains(lineage) <==> w.holders.dom().contains(lineage) && !(
        done.contains(w.holders[lineage]) && is_of(w, w.holders[lineage], lineage)));
    }
    assert forall|lineage: u64| #[trigger] y.holders.dom().contains(lineage) implies y.holders[lineage]
        == w.holders[lineage] by {
        assert(x.holders.dom().contains(lineage));
    }
    assert forall|lineage: u64| #[trigger] y.claimed.contains(lineage) <==> w.claimed.contains(
        lineage,
    ) && forall|other: AstId| #[trigger] more.contains(other) ==> !is_of(w, other, lineage) by {
        assert(x.claimed.contains(lineage) <==> w.claimed.contains(lineage) && forall|
            other: AstId,
        | #[trigger] done.contains(other) ==> !is_of(w, other, lineage));
        lemma_grown(done, record, record);
        if y.claimed.contains(lineage) {
            assert forall|other: AstId| #[trigger] more.contains(other) implies !is_of(
                w,
                other,
                lineage,
            ) by {
                lemma_grown(done, record, other);
                if other != record {
                    assert(done.contains(other));
                }
            }
        }
        if w.claimed.contains(lineage) && forall|other: AstId| #[trigger]
            more.contains(other) ==> !is_of(w, other, lineage) {
            assert forall|other: AstId| #[trigger] done.contains(other) implies !is_of(
                w,
                other,
                lineage,
            ) by {
                lemma_grown(done, record, other);
                assert(more.contains(other));
            }
            assert(!is_of(w, record, lineage));
        }
    }
    assert forall|role: AnchorKey| #[trigger] y.anchors[role] == lacking(
        w.anchors[role],
        more,
    ) by {
        assert(x.anchors[role] == lacking(w.anchors[role], done));
        lemma_lacking_more(w.anchors[role], done, record);
        if role != key {
            assert(!w.anchors[role].contains(record));
        }
    }
}

proof fn lemma_all_forgotten(
    v: LineageView,
    w: LineageView,
    records: Seq<AstId>,
    n: int,
)
    requires
        after_entering(v, w, records),
        records.no_duplicates(),
        0 <= n <= records.len(),
    ensures
        after_forgetting(w, all_forgotten(w, records.take(n)), records.take(n)),
    decreases n,
{
    let done = records.take(n);
    if n == 0 {
        let none = Seq::<AstId>::empty();
        assert(done =~= none);
        assert forall|key: AnchorKey| #[trigger] w.anchors[key] == lacking(
            w.anchors[key],
            done,
        ) by {
            lemma_lacking_none(w.anchors[key], done);
        }
        assert forall|record: AstId| #[trigger] same_of(w, w, record) by {}
    } else {
        lemma_all_forgotten(v, w, records, n - 1);
        let before = records.take(n - 1);
        let record = records[n - 1];
        assert(done.drop_last() =~= before);
        assert(before.push(record) =~= done);
        assert(!before.contains(record)) by {
            if before.contains(record) {
                let k = before.index_of(record);
                assert(records[k] == records[n - 1]);
            }
        }
        assert(records.contains(record));
        assert forall|key: AnchorKey| #[trigger]
            w.anchors[key].contains(record) implies w.record_anchors[record] == key by {}
        lemma_forgotten_once(w, all_forgotten(w, before), before, records, record);
    }
}

/// Whatever records were entered since a mark, taking the command back to it
/// leaves what was known at the mark: who bears, holds and claims what, the roles
/// and extents, and the next identity.
pub proof fn lemma_rollback_undoes(v: LineageView, list: Seq<(AnchorKey, AstId)>)
    requires
        is_handed_out(v),
        records_in(list).no_duplicates(),
        forall|k: int| 0 <= k < list.len() ==> is_unknown(v, (#[trigger] list[k]).1),
        v.next + list.len() <= u64::MAX,
        v.created.len() <= usize::MAX,
    ensures
        rolled_back(
            entered(v, list),
            LineageMark { created_len: v.created.len() as usize, next_lineage: v.next },
        ) == v,
{
    let records = records_in(list);
    let w = entered(v, list);
    lemma_entered(v, list);
    let count = v.created.len() as int;
    assert(w.created.skip(count) =~= records);
    lemma_all_forgotten(v, w, records, records.len() as int);
    assert(records.take(records.len() as int) =~= records);
    let x = all_forgotten(w, records);
    let y = rolled_back(
        w,
        LineageMark { created_len: v.created.len() as usize, next_lineage: v.next },
    );
    assert(y.created =~= v.created);
    assert forall|record: AstId| #[trigger] same_of(v, y, record) || is_gone(v, y, record) by {
        assert(same_of(v, w, record) || records.contains(record));
        assert(same_of(w, x, record) || records.contains(record));
        if records.contains(record) {
            let k = records.index_of(record);
            assert(list[k].1 == record);
            assert(is_unknown(v, list[k].1));
        }
    }
    lemma_same_maps(v, y);
    assert(y.holders =~= v.holders) by {
        assert forall|lineage: u64| y.holders.dom().contains(lineage) == v.holders.dom().contains(
            lineage,
        ) by {
            if v.holders.dom().contains(lineage) {
                let holder = v.holders[lineage];
                if records.contains(holder) {
                    let k = records.index_of(holder);
                    assert(is_unknown(v, list[k].1));
                }
                assert(w.holders.dom().contains(lineage));
                assert(x.holders.dom().contains(lineage));
            } else if x.holders.dom().contains(lineage) {
                assert(w.holders.dom().contains(lineage));
            }
        }
        assert forall|lineage: u64| v.holders.dom().contains(lineage) implies y.holders[lineage]
            == v.holders[lineage] by {
            assert(w.holders.dom().contains(lineage));
            assert(x.holders.dom().contains(lineage));
        }
    }
    assert(y.claimed =~= v.claimed) by {
        assert forall|lineage: u64| y.claimed.contains(lineage) == v.claimed.contains(lineage) by {
            if v.claimed.contains(lineage) {
                assert(w.claimed.contains(lineage));
                assert forall|record: AstId| #[trigger] records.contains(record) implies !is_of(
                    w,
                    record,
                    lineage,
                ) by {}
                assert(x.claimed.contains(lineage));
            } else if x.claimed.contains(lineage) {
                assert(w.claimed.contains(lineage));
                let record = choose|record: AstId| #[trigger]
                    records.contains(record) && w.lineages[record] == lineage;
                assert(is_of(w, record, lineage));
            }
        }
    }
    assert(y.anchors =~= v.anchors) by {
        assert forall|key: AnchorKey| y.anchors[key] == v.anchors[key] by {
            assert(x.anchors[key] == lacking(w.anchors[key], records));
            assert(lacking(w.anchors[key], records) == v.anchors[key]);
        }
    }
    assert(y =~= v);
}

/// Nothing is noted of a record, before and after.
spec fn is_gone(v: LineageView, w: LineageView, record: AstId) -> bool {
    &&& !w.lineages.dom().contains(record) && !v.lineages.dom().contains(record)
    &&& !w.fresh.dom().contains(record) && !v.fresh.dom().contains(record)
    &&& !w.pending.dom().contains(record) && !v.pending.dom().contains(record)
    &&& !w.inherited.dom().contains(record) && !v.inherited.dom().contains(record)
    &&& !w.record_anchors.dom().contains(record) && !v.record_anchors.dom().contains(record)
}

proof fn lemma_same_maps(v: LineageView, w: LineageView)
    requires
        forall|record: AstId| #[trigger] same_of(v, w, record) || is_gone(v, w, record),
    ensures
        w.lineages == v.lineages,
        w.fresh == v.fresh,
        w.pending == v.pending,
        w.inherited == v.inherited,
        w.record_anchors == v.record_anchors,
{
    assert forall|record: AstId| same_of(v, w, record) || #[trigger] is_gone(v, w, record) by {
        let same = same_of(v, w, record);
    }
    assert(w.lineages =~= v.lineages) by {
        assert forall|record: AstId| #[trigger] w.lineages.dom().contains(record)
            == v.lineages.dom().contains(record) && (v.lineages.dom().contains(record)
            ==> w.lineages[record] == v.lineages[record]) by {
            let same = same_of(v, w, record);
        }
    }
    assert(w.fresh =~= v.fresh) by {
        assert forall|record: AstId| #[trigger] w.fresh.dom().contains(record)
            == v.fresh.dom().contains(record) && (v.fresh.dom().contains(record)
            ==> w.fresh[record] == v.fresh[record]) by {
            let same = same_of(v, w, record);
        }
    }
    assert(w.pending =~= v.pending) by {
        assert forall|record: AstId| #[trigger] w.pending.dom().contains(record)
            == v.pending.dom().contains(record) && (v.pending.dom().contains(record)
            ==> w.pending[record] == v.pending[record]) by {
            let same = same_of(v, w, record);
        }
    }
    assert(w.inherited =~= v.inherited) by {
        assert forall|record: AstId| #[trigger] w.inherited.dom().contains(record)
            == v.inherited.dom().contains(record) && (v.inherited.dom().contains(record)
            ==> w.inherited[record] == v.inherited[record]) by {
            let same = same_of(v, w, record);
        }
    }
    assert(w.record_anchors =~= v.record_anchors) by {
        assert forall|record: AstId| #[trigger] w.record_anchors.dom().contains(record)
            == v.record_anchors.dom().contains(record) && (v.record_anchors.dom().contains(record)
            ==> w.record_anchors[record] == v.record_anchors[record]) by {
            let same = same_of(v, w, record);
        }
    }
}

} // verus!
