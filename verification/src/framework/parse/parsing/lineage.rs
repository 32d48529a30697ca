//! Stable identities of syntax records.
//!
//! Every live record bears an identity that outlives it: a record that is
//! built anew takes over the identity of its predecessor where the
//! correspondence can be proved, and a fresh one where it cannot. While a
//! command runs, a proof is only noted; who bears what changes when the
//! command is settled against what is live in the end.

use std::collections::{HashMap, HashSet};
use vstd::prelude::*;

use crate::framework::parse::data::ast::{AnchoredSpan, AstArena, AstId};
use crate::framework::parse::data::product::{
    own_record, ProductArena, ProductData, ProductDataView, ProductView,
};
use crate::sort::{distinct_sorted, sorted_distinct};
use crate::store::{rising, RadixMap};
use crate::utils::{fnv1a, fnv64};

verus! {

// ---------------------------------------------------------------------------
// Records by role and extent

/// The grammar role and the retained token anchors of a record.
#[derive(Clone, Copy, Debug, PartialEq, Eq, Structural)]
pub struct AnchorKey {
    pub production: u32,
    pub extent: AnchoredSpan,
}

/// The bytes of a number, the lowest first.
pub open spec fn low_bytes(value: u64) -> Seq<u8> {
    seq![
        (value & 0xff) as u8,
        ((value >> 8) & 0xff) as u8,
        ((value >> 16) & 0xff) as u8,
        ((value >> 24) & 0xff) as u8,
        ((value >> 32) & 0xff) as u8,
        ((value >> 40) & 0xff) as u8,
        ((value >> 48) & 0xff) as u8,
        ((value >> 56) & 0xff) as u8,
    ]
}

/// The bytes of a number, the lowest first.
pub fn low_bytes_of(value: u64) -> (r: [u8; 8])
    ensures
        r@ == low_bytes(value),
{
    let bytes: [u8; 8] = [
        (value & 0xff) as u8,
        ((value >> 8) & 0xff) as u8,
        ((value >> 16) & 0xff) as u8,
        ((value >> 24) & 0xff) as u8,
        ((value >> 32) & 0xff) as u8,
        ((value >> 40) & 0xff) as u8,
        ((value >> 48) & 0xff) as u8,
        ((value >> 56) & 0xff) as u8,
    ];
    assert(bytes@ =~= low_bytes(value));
    bytes
}

/// The hash of a number, byte by byte.
pub fn trie_hash_u64(value: u64) -> (r: u64)
    ensures
        r == fnv1a(low_bytes(value)),
{
    fnv64(&low_bytes_of(value))
}

impl AnchorKey {
    pub open spec fn spec_hash(self) -> u64 {
        fnv1a(
            low_bytes(
                (self.production as u64) ^ ((self.extent.start as u64) << 1) ^ ((
                self.extent.end as u64) << 33) ^ (if self.extent.end_at_token_end {
                    1u64
                } else {
                    0u64
                }),
            ),
        )
    }

    /// The hash by which records are found.
    pub fn trie_hash(&self) -> (r: u64)
        ensures
            r == self.spec_hash(),
    {
        let flag: u64 = if self.extent.end_at_token_end {
            1
        } else {
            0
        };
        trie_hash_u64(
            (self.production as u64) ^ ((self.extent.start as u64) << 1) ^ ((self.extent.end as u64)
                << 33) ^ flag,
        )
    }
}

/// A record under a key.
#[derive(Clone, Copy, Debug, PartialEq, Eq, Structural)]
pub struct AnchorEntry {
    pub key: AnchorKey,
    pub record: AstId,
}

/// The records of a list that are under a key.
pub open spec fn picked(list: Seq<AnchorEntry>, key: AnchorKey) -> Seq<AstId>
    decreases list.len(),
{
    if list.len() == 0 {
        Seq::empty()
    } else if list.last().key == key {
        picked(list.drop_last(), key).push(list.last().record)
    } else {
        picked(list.drop_last(), key)
    }
}

/// A list of records without one of them.
pub open spec fn without(list: Seq<AstId>, record: AstId) -> Seq<AstId>
    decreases list.len(),
{
    if list.len() == 0 {
        Seq::empty()
    } else if list.last() == record {
        without(list.drop_last(), record)
    } else {
        without(list.drop_last(), record).push(list.last())
    }
}

/// A list of entries without one of them.
spec fn dropped(list: Seq<AnchorEntry>, entry: AnchorEntry) -> Seq<AnchorEntry>
    decreases list.len(),
{
    if list.len() == 0 {
        Seq::empty()
    } else if list.last() == entry {
        dropped(list.drop_last(), entry)
    } else {
        dropped(list.drop_last(), entry).push(list.last())
    }
}

proof fn lemma_dropped(list: Seq<AnchorEntry>, entry: AnchorEntry, key: AnchorKey)
    ensures
        picked(dropped(list, entry), key) == if key == entry.key {
            without(picked(list, key), entry.record)
        } else {
            picked(list, key)
        },
    decreases list.len(),
{
    if list.len() > 0 {
        let rest = list.drop_last();
        lemma_dropped(rest, entry, key);
        if list.last() != entry {
            let kept = dropped(rest, entry).push(list.last());
            assert(kept.drop_last() =~= dropped(rest, entry));
            assert(kept.last() == list.last());
        }
        if list.last().key == key {
            let all = picked(rest, key).push(list.last().record);
            assert(all.drop_last() =~= picked(rest, key));
            assert(all.last() == list.last().record);
        }
    }
}

/// Live records by role and extent, in the order in which they were entered.
pub struct AnchorIndex {
    entries: HashMap<u64, Vec<AnchorEntry>>,
}

impl AnchorIndex {
    /// The records under a key.
    pub closed spec fn at(self, key: AnchorKey) -> Seq<AstId> {
        if self.entries@.dom().contains(key.spec_hash()) {
            picked(self.entries@[key.spec_hash()]@, key)
        } else {
            Seq::empty()
        }
    }

    /// The records under every key.
    pub open spec fn view(self) -> Map<AnchorKey, Seq<AstId>> {
        Map::new(|key: AnchorKey| true, |key: AnchorKey| self.at(key))
    }

    fn new() -> (r: Self)
        ensures
            forall|key: AnchorKey| #[trigger] r.at(key) == Seq::<AstId>::empty(),
    {
        AnchorIndex { entries: HashMap::new() }
    }

    /// The records under a key.
    fn get(&self, key: AnchorKey) -> (r: Vec<AstId>)
        ensures
            r@ == self.at(key),
    {
        broadcast use vstd::std_specs::hash::group_hash_axioms;

        let mut out: Vec<AstId> = Vec::new();
        match self.entries.get(&key.trie_hash()) {
            Some(list) => {
                let mut index: usize = 0;
                assert(list@.take(0) =~= Seq::<AnchorEntry>::empty());
                while index < list.len()
                    invariant
                        index <= list@.len(),
                        out@ == picked(list@.take(index as int), key),
                    decreases list@.len() - index,
                {
                    let entry = list[index];
                    assert(list@.take(index as int + 1).drop_last() =~= list@.take(index as int));
                    if entry.key == key {
                        out.push(entry.record);
                    }
                    index += 1;
                }
                assert(list@.take(index as int) =~= list@);
            },
            None => {},
        }
        out
    }

    /// Enters a record.
    fn register(&mut self, key: AnchorKey, record: AstId)
        ensures
            final(self)@ =~= old(self)@.insert(key, old(self).at(key).push(record)),
    {
        broadcast use vstd::std_specs::hash::group_hash_axioms;

        let hash: u64 = key.trie_hash();
        let ghost before = self.entries@;
        let mut list: Vec<AnchorEntry> = match self.entries.remove(&hash) {
            Some(list) => list,
            None => Vec::new(),
        };
        let ghost list0 = list@;
        list.push(AnchorEntry { key, record });
        let ghost list1 = list@;
        self.entries.insert(hash, list);
        proof {
            assert(list1.drop_last() =~= list0);
            assert(list1.last() == (AnchorEntry { key, record }));
            assert forall|other: AnchorKey| #[trigger] self.at(other) == if other == key {
                old(self).at(key).push(record)
            } else {
                old(self).at(other)
            } by {
                if other.spec_hash() == hash {
                    assert(self.entries@[hash]@ == list1);
                    assert(picked(list1, other) == if other == key {
                        picked(list0, other).push(record)
                    } else {
                        picked(list0, other)
                    });
                    if !before.dom().contains(hash) {
                        assert(list0 == Seq::<AnchorEntry>::empty());
                    }
                }
            }
        }
    }

    /// Takes a record out.
    fn unregister(&mut self, key: AnchorKey, record: AstId)
        ensures
            final(self)@ =~= old(self)@.insert(key, without(old(self).at(key), record)),
    {
        broadcast use vstd::std_specs::hash::group_hash_axioms;

        let hash: u64 = key.trie_hash();
        let ghost before = self.entries@;
        let list: Vec<AnchorEntry> = match self.entries.remove(&hash) {
            Some(list) => list,
            None => Vec::new(),
        };
        let ghost entry = AnchorEntry { key, record };
        let mut kept: Vec<AnchorEntry> = Vec::new();
        let mut index: usize = 0;
        assert(list@.take(0) =~= Seq::<AnchorEntry>::empty());
        while index < list.len()
            invariant
                index <= list@.len(),
                entry == (AnchorEntry { key, record }),
                kept@ == dropped(list@.take(index as int), entry),
            decreases list@.len() - index,
        {
            let item = list[index];
            assert(list@.take(index as int + 1).drop_last() =~= list@.take(index as int));
            if item.key != key || item.record != record {
                kept.push(item);
            }
            index += 1;
        }
        assert(list@.take(index as int) =~= list@);
        let ghost kept0 = kept@;
        if kept.len() > 0 {
            self.entries.insert(hash, kept);
        }
        proof {
            assert forall|other: AnchorKey| #[trigger] self.at(other) == if other == key {
                without(old(self).at(key), record)
            } else {
                old(self).at(other)
            } by {
                if other.spec_hash() == hash {
                    lemma_dropped(list@, entry, other);
                    if kept0.len() > 0 {
                        assert(self.entries@[hash]@ == kept0);
                    }
                    if !before.dom().contains(hash) {
                        assert(list@ == Seq::<AnchorEntry>::empty());
                    }
                }
            }
        }
    }
}

// ---------------------------------------------------------------------------
// The state of identities

/// A proof that waits for the end of the command: where `old_record` is no
/// longer live, the record takes over `old_lineage`, else it keeps
/// `fresh_lineage`.
#[derive(Clone, Copy, Debug, PartialEq, Eq, Structural)]
pub struct PendingInheritance {
    pub old_record: AstId,
    pub old_lineage: u64,
    pub fresh_lineage: u64,
}

/// What is known of identities.
#[verifier::ext_equal]
pub ghost struct LineageView {
    /// The identity of every record.
    pub lineages: Map<AstId, u64>,
    /// The bearer of every identity.
    pub holders: Map<u64, AstId>,
    /// The identity that was reserved for every record of this command.
    pub fresh: Map<AstId, u64>,
    /// The proofs that wait.
    pub pending: Map<AstId, PendingInheritance>,
    /// The records by role and extent.
    pub anchors: Map<AnchorKey, Seq<AstId>>,
    /// The role and extent of every record.
    pub record_anchors: Map<AstId, AnchorKey>,
    /// The last identity that was handed out.
    pub next: u64,
    /// The records of this command in the order of their creation.
    pub created: Seq<AstId>,
    /// The identities that a record of this command laid claim to.
    pub claimed: Set<u64>,
    /// The predecessor that was proved for a record of this command.
    pub inherited: Map<AstId, AstId>,
    /// The identities of dead records.
    pub died: Map<u64, u64>,
    /// The role and extent of dead records.
    pub died_anchors: Map<AstId, AnchorKey>,
}

/// Who bears which identity.
pub struct LineageState {
    record_lineages: HashMap<AstId, u64>,
    holders: HashMap<u64, AstId>,
    fresh_lineages: HashMap<AstId, u64>,
    pending: HashMap<AstId, PendingInheritance>,
    anchor_index: AnchorIndex,
    record_anchor_key: HashMap<AstId, AnchorKey>,
    next_lineage: u64,
    created: Vec<AstId>,
    created_set: HashSet<AstId>,
    claimed: HashSet<u64>,
    inherited: HashMap<AstId, AstId>,
    died_lineages: RadixMap<u64>,
    died_anchor_keys: HashMap<AstId, AnchorKey>,
}

/// A point in a command to which it can be taken back.
#[derive(Clone, Copy, Debug, PartialEq, Eq, Structural)]
pub struct LineageMark {
    pub created_len: usize,
    pub next_lineage: u64,
}

/// What is known of identities before there is a record: none was handed out.
pub open spec fn no_lineages() -> LineageView {
    LineageView {
        lineages: Map::empty(),
        holders: Map::empty(),
        fresh: Map::empty(),
        pending: Map::empty(),
        anchors: Map::new(|key: AnchorKey| true, |key: AnchorKey| Seq::empty()),
        record_anchors: Map::empty(),
        next: 0,
        created: Seq::empty(),
        claimed: Set::empty(),
        inherited: Map::empty(),
        died: Map::empty(),
        died_anchors: Map::empty(),
    }
}

/// The state at the start of a command.
pub open spec fn begun(v: LineageView) -> LineageView {
    LineageView {
        created: Seq::empty(),
        pending: Map::empty(),
        fresh: Map::empty(),
        claimed: Set::empty(),
        inherited: Map::empty(),
        ..v
    }
}

/// The state after a fresh identity was reserved for a record.
pub open spec fn reserved(v: LineageView, record: AstId) -> LineageView {
    let fresh = (v.next + 1) as u64;
    LineageView {
        next: fresh,
        fresh: v.fresh.insert(record, fresh),
        lineages: if v.lineages.dom().contains(record) {
            v.lineages
        } else {
            v.lineages.insert(record, fresh)
        },
        ..v
    }
}

/// The records of a list that were not created in this command.
pub open spec fn elder(list: Seq<AstId>, created: Seq<AstId>) -> Seq<AstId>
    decreases list.len(),
{
    if list.len() == 0 {
        Seq::empty()
    } else if created.contains(list.last()) {
        elder(list.drop_last(), created)
    } else {
        elder(list.drop_last(), created).push(list.last())
    }
}

/// The only elder record of the same role and extent, where its identity is
/// free: the predecessor of a record.
pub open spec fn predecessor(v: LineageView, key: AnchorKey, record: AstId) -> Option<AstId> {
    let candidates = elder(v.anchors[key], v.created);
    if candidates.len() == 1 && v.lineages.dom().contains(candidates[0]) && candidates[0] != record
        && !v.claimed.contains(v.lineages[candidates[0]]) {
        Some(candidates[0])
    } else {
        None
    }
}

/// The state after a record was created.
pub open spec fn assigned(v: LineageView, key: AnchorKey, record: AstId) -> LineageView {
    let w = reserved(v, record);
    let fresh = w.next;
    let settled = match predecessor(w, key, record) {
        Some(elder) => {
            let lineage = w.lineages[elder];
            LineageView {
                lineages: w.lineages.insert(record, lineage),
                inherited: w.inherited.insert(record, elder),
                claimed: w.claimed.insert(lineage),
                pending: w.pending.insert(
                    record,
                    PendingInheritance {
                        old_record: elder,
                        old_lineage: lineage,
                        fresh_lineage: fresh,
                    },
                ),
                ..w
            }
        },
        None => LineageView { holders: w.holders.insert(fresh, record), ..w },
    };
    LineageView {
        created: w.created.push(record),
        anchors: w.anchors.insert(key, w.anchors[key].push(record)),
        record_anchors: w.record_anchors.insert(record, key),
        ..settled
    }
}

/// The holders without an identity, where a record still bears it.
pub open spec fn unheld(holders: Map<u64, AstId>, lineage: u64, record: AstId) -> Map<u64, AstId> {
    if holders.dom().contains(lineage) && holders[lineage] == record {
        holders.remove(lineage)
    } else {
        holders
    }
}

/// The state without anything that was noted of a record of this command.
pub open spec fn forgotten(v: LineageView, record: AstId) -> LineageView {
    let w = if v.fresh.dom().contains(record) {
        LineageView {
            fresh: v.fresh.remove(record),
            claimed: v.claimed.remove(v.fresh[record]),
            holders: unheld(v.holders, v.fresh[record], record),
            ..v
        }
    } else {
        v
    };
    let x = if w.lineages.dom().contains(record) {
        LineageView {
            lineages: w.lineages.remove(record),
            claimed: w.claimed.remove(w.lineages[record]),
            holders: unheld(w.holders, w.lineages[record], record),
            ..w
        }
    } else {
        w
    };
    LineageView {
        pending: x.pending.remove(record),
        inherited: x.inherited.remove(record),
        record_anchors: x.record_anchors.remove(record),
        anchors: if x.record_anchors.dom().contains(record) {
            let key = x.record_anchors[record];
            x.anchors.insert(key, without(x.anchors[key], record))
        } else {
            x.anchors
        },
        ..x
    }
}

/// The state without anything that was noted of a list of records, the first
/// of them first.
pub open spec fn all_forgotten(v: LineageView, records: Seq<AstId>) -> LineageView
    decreases records.len(),
{
    if records.len() == 0 {
        v
    } else {
        forgotten(all_forgotten(v, records.drop_last()), records.last())
    }
}

/// The state taken back to a mark.
pub open spec fn rolled_back(v: LineageView, mark: LineageMark) -> LineageView {
    let w = all_forgotten(v, v.created.skip(mark.created_len as int));
    LineageView {
        created: v.created.take(mark.created_len as int),
        next: mark.next_lineage,
        ..w
    }
}

fn look(map: &HashMap<usize, u64>, key: usize) -> (r: Option<u64>)
    ensures
        r == (if map@.dom().contains(key) {
            Some(map@[key])
        } else {
            None::<u64>
        }),
{
    broadcast use vstd::std_specs::hash::group_hash_axioms;

    match map.get(&key) {
        Some(value) => Some(*value),
        None => None,
    }
}

impl LineageState {
    /// What is known of identities.
    pub closed spec fn view(self) -> LineageView {
        LineageView {
            lineages: self.record_lineages@,
            holders: self.holders@,
            fresh: self.fresh_lineages@,
            pending: self.pending@,
            anchors: self.anchor_index@,
            record_anchors: self.record_anchor_key@,
            next: self.next_lineage,
            created: self.created@,
            claimed: self.claimed@,
            inherited: self.inherited@,
            died: self.died_lineages@,
            died_anchors: self.died_anchor_keys@,
        }
    }

    pub closed spec fn wf(self) -> bool {
        &&& self.died_lineages.wf()
        &&& self.created_set@ == self.created@.to_set()
    }

    /// The state of a document without records.
    pub fn new() -> (r: Self)
        ensures
            r.wf(),
            r@ == no_lineages(),
    {
        let r = LineageState {
            record_lineages: HashMap::new(),
            holders: HashMap::new(),
            fresh_lineages: HashMap::new(),
            pending: HashMap::new(),
            anchor_index: AnchorIndex::new(),
            record_anchor_key: HashMap::new(),
            next_lineage: 0,
            created: Vec::new(),
            created_set: HashSet::new(),
            claimed: HashSet::new(),
            inherited: HashMap::new(),
            died_lineages: RadixMap::new(),
            died_anchor_keys: HashMap::new(),
        };
        proof {
            assert(r.created_set@ =~= r.created@.to_set());
            assert(r@.anchors =~= no_lineages().anchors);
        }
        r
    }

    /// Starts a command. The identities of dead records stay known: a later
    /// command may still refer to them.
    pub fn begin_command(&mut self)
        requires
            old(self).wf(),
        ensures
            final(self).wf(),
            final(self)@ == begun(old(self)@),
    {
        self.created.clear();
        self.created_set.clear();
        self.pending.clear();
        self.fresh_lineages.clear();
        self.claimed.clear();
        self.inherited.clear();
        proof {
            assert(self.created_set@ =~= self.created@.to_set());
            assert(self@ =~= begun(old(self)@));
        }
    }

    /// The identity of a record.
    pub fn lineage_of(&self, record: AstId) -> (r: Option<u64>)
        ensures
            r == (if self@.lineages.dom().contains(record) {
                Some(self@.lineages[record])
            } else {
                None::<u64>
            }),
    {
        look(&self.record_lineages, record)
    }

    /// The identity that a dead record bore.
    pub fn died_lineage_of(&self, record: u64) -> (r: Option<u64>)
        requires
            self.wf(),
        ensures
            r == (if self@.died.dom().contains(record) {
                Some(self@.died[record])
            } else {
                None::<u64>
            }),
    {
        match self.died_lineages.get(record) {
            Some(lineage) => Some(*lineage),
            None => None,
        }
    }

    /// The dead records in ascending order.
    pub closed spec fn spec_died_keys(self) -> Seq<u64> {
        self.died_lineages.spec_keys()
    }

    pub proof fn lemma_died_keys(self)
        requires
            self.wf(),
        ensures
            rising(self.spec_died_keys()),
            forall|key: u64|
                self@.died.dom().contains(key) <==> #[trigger] self.spec_died_keys().contains(key),
    {
        self.died_lineages.lemma_keys();
    }

    /// How many dead records are known.
    pub fn died_count(&self) -> (r: usize)
        requires
            self.wf(),
        ensures
            r == self.spec_died_keys().len(),
    {
        self.died_lineages.len()
    }

    /// A dead record and its identity, by its place in ascending order.
    pub fn died_at(&self, at: usize) -> (r: (u64, u64))
        requires
            self.wf(),
            at < self.spec_died_keys().len(),
        ensures
            r.0 == self.spec_died_keys()[at as int],
            self@.died.dom().contains(r.0),
            r.1 == self@.died[r.0],
    {
        let record: u64 = self.died_lineages.key_at(at);
        (record, *self.died_lineages.get(record).unwrap())
    }

    /// The bearer of an identity.
    pub fn holder_of(&self, lineage: u64) -> (r: Option<AstId>)
        ensures
            r == (if self@.holders.dom().contains(lineage) {
                Some(self@.holders[lineage])
            } else {
                None::<AstId>
            }),
    {
        broadcast use vstd::std_specs::hash::group_hash_axioms;

        match self.holders.get(&lineage) {
            Some(record) => Some(*record),
            None => None,
        }
    }

    /// The predecessor that this command proved for a record.
    pub fn inherited_from(&self, record: AstId) -> (r: Option<AstId>)
        ensures
            r == (if self@.inherited.dom().contains(record) {
                Some(self@.inherited[record])
            } else {
                None::<AstId>
            }),
    {
        broadcast use vstd::std_specs::hash::group_hash_axioms;

        match self.inherited.get(&record) {
            Some(elder) => Some(*elder),
            None => None,
        }
    }

    /// Reserves a fresh identity for a record.
    fn reserve_fresh(&mut self, record: AstId) -> (r: u64)
        requires
            old(self).wf(),
            old(self)@.next < u64::MAX,
        ensures
            final(self).wf(),
            final(self)@ == reserved(old(self)@, record),
            r == old(self)@.next + 1,
    {
        broadcast use vstd::std_specs::hash::group_hash_axioms;

        self.next_lineage = self.next_lineage + 1;
        let fresh: u64 = self.next_lineage;
        self.fresh_lineages.insert(record, fresh);
        if !self.record_lineages.contains_key(&record) {
            self.record_lineages.insert(record, fresh);
        }
        assert(self@ =~= reserved(old(self)@, record));
        fresh
    }

    /// The only elder record under a key; none where there are more or none.
    fn only_elder(&self, key: AnchorKey) -> (r: Option<AstId>)
        requires
            self.wf(),
        ensures
            ({
                let candidates = elder(self@.anchors[key], self@.created);
                r == if candidates.len() == 1 {
                    Some(candidates[0])
                } else {
                    None::<AstId>
                }
            }),
    {
        broadcast use vstd::std_specs::hash::group_hash_axioms;

        let list = self.anchor_index.get(key);
        let mut candidates: Vec<AstId> = Vec::new();
        let mut index: usize = 0;
        assert(list@.take(0) =~= Seq::<AstId>::empty());
        while index < list.len()
            invariant
                index <= list@.len(),
                self.wf(),
                candidates@ == elder(list@.take(index as int), self@.created),
            decreases list@.len() - index,
        {
            broadcast use vstd::std_specs::hash::group_hash_axioms;

            let record: usize = list[index];
            assert(list@.take(index as int + 1).drop_last() =~= list@.take(index as int));
            if !self.created_set.contains(&record) {
                candidates.push(record);
            }
            index += 1;
        }
        assert(list@.take(index as int) =~= list@);
        assert(self@.anchors[key] == list@);
        if candidates.len() == 1 {
            Some(candidates[0])
        } else {
            None
        }
    }

    /// Gives a record that was just built an identity. Where exactly one elder
    /// record has its role and extent and no other record of the command lays
    /// claim to that identity, the record may inherit it; a fresh identity is
    /// reserved in any case.
    pub fn assign_new(&mut self, production: u32, extent: AnchoredSpan, record: AstId) -> (r: u64)
        requires
            old(self).wf(),
            old(self)@.next < u64::MAX,
        ensures
            final(self).wf(),
            final(self)@ == assigned(old(self)@, AnchorKey { production, extent }, record),
            r == final(self)@.lineages[record],
            final(self)@.lineages.dom().contains(record),
    {
        broadcast use vstd::std_specs::hash::group_hash_axioms;

        let ghost v = self@;
        let key = AnchorKey { production, extent };
        let fresh: u64 = self.reserve_fresh(record);
        let ghost w = self@;
        let found = self.only_elder(key);
        let mut proved: Option<(AstId, u64)> = None;
        match found {
            Some(candidate) => {
                match look(&self.record_lineages, candidate) {
                    Some(lineage) => {
                        if candidate != record && !self.claimed.contains(&lineage) {
                            proved = Some((candidate, lineage));
                        }
                    },
                    None => {},
                }
            },
            None => {},
        }
        match proved {
            Some((candidate, lineage)) => {
                assert(predecessor(w, key, record) == Some(candidate));
                self.claimed.insert(lineage);
                self.record_lineages.insert(record, lineage);
                self.inherited.insert(record, candidate);
                self.pending.insert(
                    record,
                    PendingInheritance {
                        old_record: candidate,
                        old_lineage: lineage,
                        fresh_lineage: fresh,
                    },
                );
            },
            None => {
                assert(predecessor(w, key, record) is None);
                self.holders.insert(fresh, record);
            },
        }
        let ghost created0 = self.created@;
        self.created.push(record);
        self.created_set.insert(record);
        self.anchor_index.register(key, record);
        self.record_anchor_key.insert(record, key);
        proof {
            lemma_set_push(created0, record);
            assert(self@.anchors =~= w.anchors.insert(key, w.anchors[key].push(record)));
            assert(self@ =~= assigned(v, key, record));
        }
        look(&self.record_lineages, record).unwrap()
    }

    /// Takes an identity from its bearer, where a record still bears it.
    fn drop_holder(&mut self, lineage: u64, record: AstId)
        requires
            old(self).wf(),
        ensures
            final(self).wf(),
            final(self)@ == (LineageView {
                holders: unheld(old(self)@.holders, lineage, record),
                ..old(self)@
            }),
    {
        broadcast use vstd::std_specs::hash::group_hash_axioms;

        let bears = match self.holders.get(&lineage) {
            Some(bearer) => *bearer == record,
            None => false,
        };
        if bears {
            self.holders.remove(&lineage);
        }
        assert(self@ =~= (LineageView {
            holders: unheld(old(self)@.holders, lineage, record),
            ..old(self)@
        }));
    }

    /// A point to which the command can be taken back.
    pub fn mark(&self) -> (r: LineageMark)
        ensures
            r == (LineageMark {
                created_len: self@.created.len() as usize,
                next_lineage: self@.next,
            }),
            r.created_len == self@.created.len(),
    {
        LineageMark { created_len: self.created.len(), next_lineage: self.next_lineage }
    }

    /// Forgets what was noted of a record of this command.
    fn forget(&mut self, record: AstId)
        requires
            old(self).wf(),
        ensures
            final(self).wf(),
            final(self)@ == forgotten(old(self)@, record),
    {
        broadcast use vstd::std_specs::hash::group_hash_axioms;

        let ghost v = self@;
        match look(&self.fresh_lineages, record) {
            Some(fresh) => {
                self.fresh_lineages.remove(&record);
                self.claimed.remove(&fresh);
                self.drop_holder(fresh, record);
            },
            None => {},
        }
        match look(&self.record_lineages, record) {
            Some(lineage) => {
                self.record_lineages.remove(&record);
                self.claimed.remove(&lineage);
                self.drop_holder(lineage, record);
            },
            None => {},
        }
        self.pending.remove(&record);
        self.inherited.remove(&record);
        let anchor: Option<AnchorKey> = match self.record_anchor_key.get(&record) {
            Some(key) => Some(*key),
            None => None,
        };
        self.record_anchor_key.remove(&record);
        match anchor {
            Some(key) => {
                self.anchor_index.unregister(key, record);
            },
            None => {},
        }
        assert(self@ =~= forgotten(v, record));
    }

    /// Takes the command back to a mark: the records that were created since
    /// lose everything that was noted of them.
    pub fn rollback(&mut self, mark: LineageMark)
        requires
            old(self).wf(),
            mark.created_len <= old(self)@.created.len(),
        ensures
            final(self).wf(),
            final(self)@ == rolled_back(old(self)@, mark),
    {
        broadcast use vstd::std_specs::hash::group_hash_axioms;

        let ghost v = self@;
        let ghost gone = v.created.skip(mark.created_len as int);
        let total: usize = self.created.len();
        let mut index: usize = mark.created_len;
        assert(gone.take(0) =~= Seq::<AstId>::empty());
        while index < total
            invariant
                mark.created_len <= index <= total,
                total == v.created.len(),
                v == old(self)@,
                gone == v.created.skip(mark.created_len as int),
                self.wf(),
                self@.created == v.created,
                self@ == all_forgotten(v, gone.take(index - mark.created_len)),
            decreases total - index,
        {
            let record: usize = self.created[index];
            let ghost done = gone.take(index - mark.created_len);
            assert(gone.take(index + 1 - mark.created_len) =~= done.push(record));
            assert(done.push(record).drop_last() =~= done);
            self.forget(record);
            index += 1;
        }
        assert(gone.take(total - mark.created_len) =~= gone);
        self.created.truncate(mark.created_len);
        let mut kept: HashSet<AstId> = HashSet::new();
        let mut at: usize = 0;
        let ghost w = self@;
        assert(self.created@.take(0).to_set() =~= Set::<AstId>::empty());
        while at < self.created.len()
            invariant
                at <= self.created@.len(),
                kept@ == self.created@.take(at as int).to_set(),
            decreases self.created@.len() - at,
        {
            broadcast use vstd::std_specs::hash::group_hash_axioms;

            let record: usize = self.created[at];
            let ghost done = self.created@.take(at as int);
            assert(self.created@.take(at as int + 1) =~= done.push(record));
            proof {
                lemma_set_push(done, record);
            }
            kept.insert(record);
            at += 1;
        }
        assert(self.created@.take(at as int) =~= self.created@);
        self.created_set = kept;
        self.next_lineage = mark.next_lineage;
        assert(self@ =~= rolled_back(v, mark));
    }
}

proof fn lemma_set_push(list: Seq<AstId>, record: AstId)
    ensures
        list.push(record).to_set() =~= list.to_set().insert(record),
{
    assert forall|other: AstId| list.push(record).to_set().contains(other)
        == list.to_set().insert(record).contains(other) by {
        if list.contains(other) {
            let k = choose|k: int| 0 <= k < list.len() && list[k] == other;
            assert(list.push(record)[k] == other);
        }
        if other == record {
            assert(list.push(record)[list.len() as int] == record);
        }
        if list.push(record).contains(other) && other != record {
            let k = choose|k: int| 0 <= k < list.push(record).len() && list.push(record)[k] == other;
            assert(list[k] == other);
        }
    }
}

// ---------------------------------------------------------------------------
// Children of records

/// What `products` says of a product; none where there is no such product.
pub open spec fn product_at(products: Seq<ProductView>, id: Option<usize>) -> Option<ProductView> {
    match id {
        Some(at) => if at < products.len() {
            Some(products[at as int])
        } else {
            None
        },
        None => None,
    }
}

/// The product that owns a record.
pub open spec fn owner_at<V>(ast: AstArena<V>, record: AstId) -> Option<usize> {
    if record < ast.records().len() {
        ast.binding(record as int).owner
    } else {
        None
    }
}

/// The parent of a record.
pub open spec fn parent_at<V>(ast: AstArena<V>, record: AstId) -> Option<AstId> {
    if record < ast.records().len() {
        ast.binding(record as int).parent
    } else {
        None
    }
}

/// The products that a node was reduced from.
pub open spec fn node_parts(product: Option<ProductView>) -> Seq<usize> {
    match product {
        Some(found) => match found.data {
            ProductDataView::Node { children, .. } => children,
            _ => Seq::empty(),
        },
        None => Seq::empty(),
    }
}

/// The records that a list of products stands for.
pub open spec fn records_of(products: Seq<ProductView>, ids: Seq<usize>) -> Seq<AstId>
    decreases ids.len(),
{
    if ids.len() == 0 {
        Seq::empty()
    } else {
        let rest = records_of(products, ids.drop_last());
        match product_at(products, Some(ids.last())) {
            Some(found) => match own_record(found) {
                Some(record) => rest.push(record),
                None => rest,
            },
            None => rest,
        }
    }
}

/// The records of the nodes in a list of products.
pub open spec fn node_records_of(products: Seq<ProductView>, ids: Seq<usize>) -> Seq<AstId>
    decreases ids.len(),
{
    if ids.len() == 0 {
        Seq::empty()
    } else {
        let rest = node_records_of(products, ids.drop_last());
        match product_at(products, Some(ids.last())) {
            Some(found) => match found.data {
                ProductDataView::Node { ast, .. } => rest.push(ast),
                _ => rest,
            },
            None => rest,
        }
    }
}

/// The records of the children of a node, in order.
pub open spec fn child_records<V>(
    products: Seq<ProductView>,
    ast: AstArena<V>,
    record: AstId,
) -> Seq<AstId> {
    records_of(products, node_parts(product_at(products, owner_at(ast, record))))
}

/// The records of the children of a node that are nodes themselves, in order.
pub open spec fn tree_child_records<V>(
    products: Seq<ProductView>,
    ast: AstArena<V>,
    record: AstId,
) -> Seq<AstId> {
    node_records_of(products, node_parts(product_at(products, owner_at(ast, record))))
}

/// The products that the node of a record was reduced from.
fn parts_of<V>(products: &ProductArena, ast: &AstArena<V>, record: AstId) -> (r: Vec<usize>)
    requires
        products.wf(),
        ast.wf(),
    ensures
        r@ == node_parts(product_at(products@, owner_at(*ast, record))),
{
    let owner: usize = match ast.product_of(record) {
        Some(owner) => owner,
        None => {
            return Vec::new();
        },
    };
    match products.get(owner) {
        Some(product) => match &product.data {
            ProductData::Node { .. } => product.children(),
            _ => Vec::new(),
        },
        None => Vec::new(),
    }
}

/// The records of the children of a node, in order.
pub fn direct_child_records<V>(
    products: &ProductArena,
    ast: &AstArena<V>,
    record: AstId,
) -> (r: Vec<AstId>)
    requires
        products.wf(),
        ast.wf(),
    ensures
        r@ == child_records(products@, *ast, record),
{
    let parts = parts_of(products, ast, record);
    let mut out: Vec<AstId> = Vec::new();
    let mut index: usize = 0;
    assert(parts@.take(0) =~= Seq::<usize>::empty());
    while index < parts.len()
        invariant
            index <= parts@.len(),
            products.wf(),
            out@ == records_of(products@, parts@.take(index as int)),
        decreases parts@.len() - index,
    {
        assert(parts@.take(index as int + 1).drop_last() =~= parts@.take(index as int));
        match products.get(parts[index]) {
            Some(product) => match product.direct_record() {
                Some(child) => {
                    out.push(child);
                },
                None => {},
            },
            None => {},
        }
        index += 1;
    }
    assert(parts@.take(index as int) =~= parts@);
    out
}

/// The records of the children of a node that are nodes themselves, in order.
/// Typed tokens are parser metadata and take no place in the tree.
pub fn direct_tree_child_records<V>(
    products: &ProductArena,
    ast: &AstArena<V>,
    record: AstId,
) -> (r: Vec<AstId>)
    requires
        products.wf(),
        ast.wf(),
    ensures
        r@ == tree_child_records(products@, *ast, record),
{
    let parts = parts_of(products, ast, record);
    let mut out: Vec<AstId> = Vec::new();
    let mut index: usize = 0;
    assert(parts@.take(0) =~= Seq::<usize>::empty());
    while index < parts.len()
        invariant
            index <= parts@.len(),
            products.wf(),
            out@ == node_records_of(products@, parts@.take(index as int)),
        decreases parts@.len() - index,
    {
        assert(parts@.take(index as int + 1).drop_last() =~= parts@.take(index as int));
        match products.get(parts[index]) {
            Some(product) => match &product.data {
                ProductData::Node { ast: child, .. } => {
                    out.push(*child);
                },
                _ => {},
            },
            None => {},
        }
        index += 1;
    }
    assert(parts@.take(index as int) =~= parts@);
    out
}

// ---------------------------------------------------------------------------
// Proofs by context

/// What is found under a key.
pub open spec fn found<K, T>(map: Map<K, T>, key: K) -> Option<T> {
    if map.dom().contains(key) {
        Some(map[key])
    } else {
        None
    }
}

/// The identity of a record, dead or alive.
pub open spec fn known_lineage(v: LineageView, record: AstId) -> Option<u64> {
    if v.lineages.dom().contains(record) {
        Some(v.lineages[record])
    } else {
        found(v.died, record as u64)
    }
}

/// Two records at one place of two sibling lists stand for each other: they
/// bear one identity, or are one record where an identity is not known.
pub open spec fn side_agrees(v: LineageView, new: Seq<AstId>, old: Seq<AstId>, at: int) -> bool {
    if v.lineages.dom().contains(new[at]) && v.lineages.dom().contains(old[at]) {
        v.lineages[new[at]] == v.lineages[old[at]]
    } else {
        new[at] == old[at]
    }
}

/// The neighbours of a place agree.
pub open spec fn neighbors_agree(v: LineageView, new: Seq<AstId>, old: Seq<AstId>, at: int) -> bool {
    &&& at > 0 ==> side_agrees(v, new, old, at - 1)
    &&& at + 1 < new.len() && at + 1 < old.len() ==> side_agrees(v, new, old, at + 1)
}

/// The first place of a record in a list.
pub open spec fn first_place(list: Seq<AstId>, record: AstId) -> Option<int> {
    if list.contains(record) {
        Some(choose|at: int| is_first_place(list, record, at))
    } else {
        None
    }
}

pub open spec fn is_first_place(list: Seq<AstId>, record: AstId, at: int) -> bool {
    0 <= at < list.len() && list[at] == record && forall|k: int|
        0 <= k < at ==> #[trigger] list[k] != record
}

/// The predecessor that the context of a record proves: the record at its
/// place among the children of its parent's predecessor.
pub open spec fn context_elder<V>(
    v: LineageView,
    products: Seq<ProductView>,
    ast: AstArena<V>,
    record: AstId,
) -> Option<AstId> {
    match parent_at(ast, record) {
        None => None,
        Some(parent) => match found(v.inherited, parent) {
            None => None,
            Some(old_parent) => {
                let new = child_records(products, ast, parent);
                let old = child_records(products, ast, old_parent);
                if !v.fresh.dom().contains(record) || new.len() != old.len() {
                    None
                } else {
                    match first_place(new, record) {
                        None => None,
                        Some(at) => match known_lineage(v, old[at]) {
                            None => None,
                            Some(lineage) => if v.claimed.contains(lineage) || !neighbors_agree(
                                v,
                                new,
                                old,
                                at,
                            ) {
                                None
                            } else {
                                Some(old[at])
                            },
                        },
                    }
                }
            },
        },
    }
}

/// The state after the context of a record was looked at.
pub open spec fn contextual<V>(
    v: LineageView,
    products: Seq<ProductView>,
    ast: AstArena<V>,
    record: AstId,
) -> LineageView {
    if v.pending.dom().contains(record) {
        v
    } else {
        match context_elder(v, products, ast, record) {
            None => v,
            Some(elder) => {
                let lineage = known_lineage(v, elder)->Some_0;
                LineageView {
                    claimed: v.claimed.insert(lineage),
                    lineages: v.lineages.insert(record, lineage),
                    inherited: if v.inherited.dom().contains(record) {
                        v.inherited
                    } else {
                        v.inherited.insert(record, elder)
                    },
                    pending: v.pending.insert(
                        record,
                        PendingInheritance {
                            old_record: elder,
                            old_lineage: lineage,
                            fresh_lineage: v.fresh[record],
                        },
                    ),
                    ..v
                }
            },
        }
    }
}

/// The state after one pass over the records of the command below a place, the
/// last first.
pub open spec fn context_pass<V>(
    v: LineageView,
    products: Seq<ProductView>,
    ast: AstArena<V>,
    upto: int,
) -> LineageView
    decreases upto,
{
    if upto <= 0 {
        v
    } else {
        context_pass(contextual(v, products, ast, v.created[upto - 1]), products, ast, upto - 1)
    }
}

/// The state after at most so many passes, or after the first one that changes
/// nothing.
pub open spec fn context_passes<V>(
    v: LineageView,
    products: Seq<ProductView>,
    ast: AstArena<V>,
    fuel: nat,
) -> LineageView
    decreases fuel,
{
    if fuel == 0 {
        v
    } else {
        let w = context_pass(v, products, ast, v.created.len() as int);
        if w.pending.dom() == v.pending.dom() {
            w
        } else {
            context_passes(w, products, ast, (fuel - 1) as nat)
        }
    }
}

/// The state after passes until nothing changes.
pub open spec fn contexts_resolved<V>(
    v: LineageView,
    products: Seq<ProductView>,
    ast: AstArena<V>,
) -> LineageView {
    context_passes(v, products, ast, unproved(v.created, v.pending) + 1)
}

/// How many records of a list have no proof yet.
pub open spec fn unproved(
    list: Seq<AstId>,
    pending: Map<AstId, PendingInheritance>,
) -> nat
    decreases list.len(),
{
    if list.len() == 0 {
        0
    } else {
        (if pending.dom().contains(list.last()) {
            0
        } else {
            1nat
        }) + unproved(list.drop_last(), pending)
    }
}

proof fn lemma_unproved_less(
    list: Seq<AstId>,
    pending: Map<AstId, PendingInheritance>,
    record: AstId,
    value: PendingInheritance,
)
    ensures
        unproved(list, pending.insert(record, value)) <= unproved(list, pending),
        list.contains(record) && !pending.dom().contains(record) ==> unproved(
            list,
            pending.insert(record, value),
        ) < unproved(list, pending),
    decreases list.len(),
{
    if list.len() > 0 {
        lemma_unproved_less(list.drop_last(), pending, record, value);
        if list.contains(record) && list.last() != record {
            let k = choose|k: int| 0 <= k < list.len() && list[k] == record;
            assert(list.drop_last()[k] == record);
        }
    }
}

/// A pass keeps the records of the command and only adds proofs.
proof fn lemma_context_pass<V>(
    v: LineageView,
    products: Seq<ProductView>,
    ast: AstArena<V>,
    upto: int,
)
    requires
        upto <= v.created.len(),
    ensures
        context_pass(v, products, ast, upto).created == v.created,
        v.pending.dom().subset_of(context_pass(v, products, ast, upto).pending.dom()),
        unproved(v.created, context_pass(v, products, ast, upto).pending) <= unproved(
            v.created,
            v.pending,
        ),
        context_pass(v, products, ast, upto).pending.dom() != v.pending.dom() ==> unproved(
            v.created,
            context_pass(v, products, ast, upto).pending,
        ) < unproved(v.created, v.pending),
    decreases upto,
{
    if upto > 0 {
        let record = v.created[upto - 1];
        let w = contextual(v, products, ast, record);
        lemma_context_pass(w, products, ast, upto - 1);
        if w.pending != v.pending {
            let value = w.pending[record];
            lemma_unproved_less(v.created, v.pending, record, value);
            assert(v.created.contains(record));
        }
    }
}

impl LineageState {
    /// The identity of a record, dead or alive.
    pub fn resolve_lineage(&self, record: AstId) -> (r: Option<u64>)
        requires
            self.wf(),
        ensures
            r == known_lineage(self@, record),
    {
        match self.lineage_of(record) {
            Some(lineage) => Some(lineage),
            None => self.died_lineage_of(record as u64),
        }
    }

    /// Two records at one place of two sibling lists stand for each other.
    fn side_agrees(&self, new: &Vec<AstId>, old: &Vec<AstId>, at: usize) -> (r: bool)
        requires
            at < new@.len(),
            at < old@.len(),
        ensures
            r == side_agrees(self@, new@, old@, at as int),
    {
        match (self.lineage_of(new[at]), self.lineage_of(old[at])) {
            (Some(a), Some(b)) => a == b,
            _ => new[at] == old[at],
        }
    }

    /// The neighbours of a place agree.
    fn neighbors_agree(&self, new: &Vec<AstId>, old: &Vec<AstId>, at: usize) -> (r: bool)
        requires
            at < new@.len(),
            new@.len() == old@.len(),
        ensures
            r == neighbors_agree(self@, new@, old@, at as int),
    {
        if at > 0 && !self.side_agrees(new, old, at - 1) {
            return false;
        }
        if at < new.len() - 1 && !self.side_agrees(new, old, at + 1) {
            return false;
        }
        true
    }

    /// The predecessor that the context of a record proves, with its identity.
    fn context_elder<V>(
        &self,
        products: &ProductArena,
        ast: &AstArena<V>,
        record: AstId,
    ) -> (r: Option<(AstId, u64)>)
        requires
            self.wf(),
            products.wf(),
            ast.wf(),
        ensures
            match r {
                Some((elder, lineage)) => context_elder(self@, products@, *ast, record) == Some(
                    elder,
                ) && known_lineage(self@, elder) == Some(lineage) && self@.fresh.dom().contains(
                    record,
                ),
                None => context_elder(self@, products@, *ast, record) is None,
            },
    {
        broadcast use vstd::std_specs::hash::group_hash_axioms;

        let parent: usize = match ast.parent_of(record) {
            Some(parent) => parent,
            None => {
                return None;
            },
        };
        let old_parent: usize = match self.inherited_from(parent) {
            Some(old_parent) => old_parent,
            None => {
                return None;
            },
        };
        if !self.fresh_lineages.contains_key(&record) {
            return None;
        }
        let new = direct_child_records(products, ast, parent);
        let old = direct_child_records(products, ast, old_parent);
        if new.len() != old.len() {
            return None;
        }
        let at: usize = match place_in(&new, record) {
            Some(at) => at,
            None => {
                return None;
            },
        };
        let elder: usize = old[at];
        let lineage: u64 = match self.resolve_lineage(elder) {
            Some(lineage) => lineage,
            None => {
                return None;
            },
        };
        if self.claimed.contains(&lineage) || !self.neighbors_agree(&new, &old, at) {
            return None;
        }
        Some((elder, lineage))
    }

    /// Looks at the context of a record; returns whether it proved anything.
    fn resolve_context<V>(
        &mut self,
        products: &ProductArena,
        ast: &AstArena<V>,
        record: AstId,
    ) -> (r: bool)
        requires
            old(self).wf(),
            products.wf(),
            ast.wf(),
        ensures
            final(self).wf(),
            final(self)@ == contextual(old(self)@, products@, *ast, record),
            r == (final(self)@.pending.dom() != old(self)@.pending.dom()),
    {
        broadcast use vstd::std_specs::hash::group_hash_axioms;

        let ghost v = self@;
        if self.pending.contains_key(&record) {
            return false;
        }
        let (elder, lineage) = match self.context_elder(products, ast, record) {
            Some(proved) => proved,
            None => {
                return false;
            },
        };
        let fresh: u64 = look(&self.fresh_lineages, record).unwrap();
        self.claimed.insert(lineage);
        self.record_lineages.insert(record, lineage);
        if !self.inherited.contains_key(&record) {
            self.inherited.insert(record, elder);
        }
        self.pending.insert(
            record,
            PendingInheritance { old_record: elder, old_lineage: lineage, fresh_lineage: fresh },
        );
        proof {
            assert(self@ =~= contextual(v, products@, *ast, record));
            assert(self@.pending.dom().contains(record));
        }
        true
    }

    /// Proves what the contexts of the records of this command prove. Records
    /// are mostly created before their parents, but a cached product can mix
    /// the order: passes are made until nothing changes.
    fn resolve_contexts<V>(&mut self, products: &ProductArena, ast: &AstArena<V>)
        requires
            old(self).wf(),
            products.wf(),
            ast.wf(),
        ensures
            final(self).wf(),
            final(self)@ == contexts_resolved(old(self)@, products@, *ast),
    {
        let ghost v0 = self@;
        let ghost target = contexts_resolved(v0, products@, *ast);
        let ghost mut fuel: nat = unproved(v0.created, v0.pending) + 1;
        let total: usize = self.created.len();
        let mut changed = true;
        while changed
            invariant
                self.wf(),
                products.wf(),
                ast.wf(),
                total == self@.created.len(),
                v0 == old(self)@,
                target == contexts_resolved(v0, products@, *ast),
                changed ==> context_passes(self@, products@, *ast, fuel) == target && fuel
                    > unproved(self@.created, self@.pending),
                !changed ==> self@ == target,
            decreases
                    if changed {
                        unproved(self@.created, self@.pending) + 1
                    } else {
                        0
                    },
        {
            let ghost v = self@;
            let ghost goal = context_pass(v, products@, *ast, total as int);
            changed = false;
            let mut index: usize = total;
            while index > 0
                invariant
                    self.wf(),
                    products.wf(),
                    ast.wf(),
                    index <= total,
                    total == v.created.len(),
                    self@.created == v.created,
                    goal == context_pass(self@, products@, *ast, index as int),
                    v.pending.dom().subset_of(self@.pending.dom()),
                    changed == (self@.pending.dom() != v.pending.dom()),
                decreases index,
            {
                index -= 1;
                let record: usize = self.created[index];
                let ghost before = self@;
                assert(goal == context_pass(
                    contextual(before, products@, *ast, record),
                    products@,
                    *ast,
                    index as int,
                ));
                if self.resolve_context(products, ast, record) {
                    changed = true;
                    proof {
                        assert(self@.pending.dom() =~= before.pending.dom().insert(record));
                        assert(self@.pending.dom().contains(record));
                        assert(!v.pending.dom().contains(record));
                    }
                } else {
                    assert(self@.pending.dom() == before.pending.dom());
                }
            }
            proof {
                lemma_context_pass(v, products@, *ast, total as int);
                assert(self@ == goal);
                if changed {
                    fuel = (fuel - 1) as nat;
                }
            }
        }
    }
}

/// The first place of a record in a list.
fn place_in(list: &Vec<AstId>, record: AstId) -> (r: Option<usize>)
    ensures
        match r {
            Some(at) => at < list@.len() && first_place(list@, record) == Some(at as int),
            None => first_place(list@, record) is None,
        },
{
    let mut index: usize = 0;
    while index < list.len()
        invariant
            index <= list@.len(),
            forall|k: int| 0 <= k < index ==> #[trigger] list@[k] != record,
        decreases list@.len() - index,
    {
        if list[index] == record {
            proof {
                assert(list@.contains(record));
                assert(is_first_place(list@, record, index as int));
                let at = choose|at: int| is_first_place(list@, record, at);
                assert(is_first_place(list@, record, at));
                if at < index {
                    assert(list@[at] != record);
                }
                if at > index {
                    assert(list@[index as int] != record);
                }
            }
            return Some(index);
        }
        index += 1;
    }
    None
}

// ---------------------------------------------------------------------------
// Settling a command

/// A record is among the live ones.
pub open spec fn lives(live: Map<u64, ()>, record: AstId) -> bool {
    live.dom().contains(record as u64)
}

/// The records of a list without an identity.
pub open spec fn dormant(list: Seq<u64>, lineages: Map<AstId, u64>) -> Seq<AstId>
    decreases list.len(),
{
    if list.len() == 0 {
        Seq::empty()
    } else if lineages.dom().contains(list.last() as usize) {
        dormant(list.drop_last(), lineages)
    } else {
        dormant(list.drop_last(), lineages).push(list.last() as usize)
    }
}

/// The extent of a record; an empty one where there is no such record.
pub open spec fn extent_at<V>(ast: AstArena<V>, record: AstId) -> AnchoredSpan {
    if record < ast.records().len() {
        ast.records()[record as int].extent
    } else {
        AnchoredSpan { start: 0, end: 0, end_at_token_end: false }
    }
}

/// The state after a record without an identity came to life: a dead record
/// whose identity nobody bears takes it up again, any other is like a new one.
pub open spec fn woken<V>(v: LineageView, ast: AstArena<V>, record: AstId) -> LineageView {
    if v.died.dom().contains(record as u64) && !v.holders.dom().contains(v.died[record as u64]) {
        let lineage = v.died[record as u64];
        let w = LineageView {
            lineages: v.lineages.insert(record, lineage),
            holders: v.holders.insert(lineage, record),
            died: v.died.remove(record as u64),
            ..v
        };
        if v.died_anchors.dom().contains(record) {
            let key = v.died_anchors[record];
            LineageView {
                anchors: v.anchors.insert(key, v.anchors[key].push(record)),
                record_anchors: v.record_anchors.insert(record, key),
                died_anchors: v.died_anchors.remove(record),
                ..w
            }
        } else {
            w
        }
    } else {
        assigned(v, AnchorKey { production: u32::MAX, extent: extent_at(ast, record) }, record)
    }
}

/// A record that comes to life needs an identity of its own: it has none from
/// before that nobody bears.
pub open spec fn needs_fresh(v: LineageView, record: AstId) -> bool {
    !(v.died.dom().contains(record as u64) && !v.holders.dom().contains(v.died[record as u64]))
}

/// A record of a list needs an identity when its turn to come to life has come,
/// and none is left.
pub open spec fn runs_out<V>(
    v: LineageView,
    ast: AstArena<V>,
    records: Seq<AstId>,
    k: int,
) -> bool {
    let w = all_woken(v, ast, records.take(k));
    w.next == u64::MAX && needs_fresh(w, records[k])
}

/// No identity is left for one of a list of records that come to life.
pub open spec fn no_identity_left<V>(
    v: LineageView,
    ast: AstArena<V>,
    records: Seq<AstId>,
) -> bool {
    exists|k: int| 0 <= k < records.len() && #[trigger] runs_out(v, ast, records, k)
}

/// The state after a list of records came to life.
pub open spec fn all_woken<V>(
    v: LineageView,
    ast: AstArena<V>,
    records: Seq<AstId>,
) -> LineageView
    decreases records.len(),
{
    if records.len() == 0 {
        v
    } else {
        woken(all_woken(v, ast, records.drop_last()), ast, records.last())
    }
}

/// The state after the proof of a record was held against what is live: where
/// the predecessor lives on, the record keeps its fresh identity.
pub open spec fn committed(v: LineageView, live: Map<u64, ()>, record: AstId) -> LineageView {
    if !v.pending.dom().contains(record) {
        v
    } else {
        let proof_of = v.pending[record];
        if lives(live, proof_of.old_record) {
            LineageView {
                lineages: v.lineages.insert(record, proof_of.fresh_lineage),
                holders: v.holders.insert(proof_of.fresh_lineage, record),
                inherited: v.inherited.remove(record),
                ..v
            }
        } else {
            LineageView {
                lineages: v.lineages.insert(record, proof_of.old_lineage),
                holders: unheld(v.holders, proof_of.fresh_lineage, record).insert(
                    proof_of.old_lineage,
                    record,
                ),
                ..v
            }
        }
    }
}

/// The state after the proofs of a list of records were settled.
pub open spec fn all_committed(
    v: LineageView,
    live: Map<u64, ()>,
    records: Seq<AstId>,
) -> LineageView
    decreases records.len(),
{
    if records.len() == 0 {
        v
    } else {
        committed(all_committed(v, live, records.drop_last()), live, records.last())
    }
}

/// The state after a record died.
pub open spec fn unbound(v: LineageView, record: AstId) -> LineageView {
    let lineage = found(v.lineages, record);
    let anchor = found(v.record_anchors, record);
    LineageView {
        lineages: v.lineages.remove(record),
        died: match lineage {
            Some(known) => v.died.insert(record as u64, known),
            None => v.died,
        },
        record_anchors: v.record_anchors.remove(record),
        died_anchors: match anchor {
            Some(key) => v.died_anchors.insert(record, key),
            None => v.died_anchors,
        },
        anchors: match anchor {
            Some(key) => v.anchors.insert(key, without(v.anchors[key], record)),
            None => v.anchors,
        },
        holders: match lineage {
            Some(known) => unheld(v.holders, known, record),
            None => v.holders,
        },
        pending: v.pending.remove(record),
        ..v
    }
}

/// The state after a list of records died.
pub open spec fn all_unbound(v: LineageView, records: Seq<u64>) -> LineageView
    decreases records.len(),
{
    if records.len() == 0 {
        v
    } else {
        unbound(all_unbound(v, records.drop_last()), records.last() as usize)
    }
}

/// The records of a list that are not live.
pub open spec fn stillborn(list: Seq<AstId>, live: Map<u64, ()>) -> Seq<u64>
    decreases list.len(),
{
    if list.len() == 0 {
        Seq::empty()
    } else if lives(live, list.last()) {
        stillborn(list.drop_last(), live)
    } else {
        stillborn(list.drop_last(), live).push(list.last() as u64)
    }
}

/// The state after a command was settled.
pub open spec fn settled<V>(
    v: LineageView,
    live: Map<u64, ()>,
    newly_live: Seq<u64>,
    newly_dead: Seq<u64>,
    products: Seq<ProductView>,
    ast: AstArena<V>,
) -> LineageView {
    let awake = all_woken(v, ast, dormant(newly_live, v.lineages));
    let proved = contexts_resolved(awake, products, ast);
    let done = all_committed(proved, live, proved.created);
    let dead = distinct_sorted((newly_dead + stillborn(done.created, live)).to_set());
    LineageView {
        pending: Map::empty(),
        claimed: Set::empty(),
        fresh: Map::empty(),
        ..all_unbound(done, dead)
    }
}

impl LineageState {
    /// Brings a record without an identity to life; false where it needs one
    /// and none is left.
    fn wake<V>(&mut self, ast: &AstArena<V>, record: AstId) -> (r: bool)
        requires
            old(self).wf(),
            ast.wf(),
        ensures
            final(self).wf(),
            r == !(old(self)@.next == u64::MAX && needs_fresh(old(self)@, record)),
            r ==> final(self)@ == woken(old(self)@, *ast, record),
    {
        broadcast use vstd::std_specs::hash::group_hash_axioms;

        let ghost v = self@;
        match self.died_lineage_of(record as u64) {
            Some(lineage) => {
                if !self.holders.contains_key(&lineage) {
                    self.record_lineages.insert(record, lineage);
                    self.holders.insert(lineage, record);
                    let anchor: Option<AnchorKey> = match self.died_anchor_keys.get(&record) {
                        Some(key) => Some(*key),
                        None => None,
                    };
                    match anchor {
                        Some(key) => {
                            self.died_anchor_keys.remove(&record);
                            self.anchor_index.register(key, record);
                            self.record_anchor_key.insert(record, key);
                        },
                        None => {},
                    }
                    self.died_lineages.remove(record as u64);
                    assert(self@ =~= woken(v, *ast, record));
                    return true;
                }
            },
            None => {},
        }
        if self.next_lineage == u64::MAX {
            return false;
        }
        let extent = match ast.extent_of_id(record) {
            Some(extent) => extent,
            None => AnchoredSpan { start: 0, end: 0, end_at_token_end: false },
        };
        self.assign_new(u32::MAX, extent, record);
        true
    }

    /// Holds the proof of a record against what is live.
    fn commit(&mut self, live: &RadixMap<()>, record: AstId)
        requires
            old(self).wf(),
            live.wf(),
        ensures
            final(self).wf(),
            final(self)@ == committed(old(self)@, live@, record),
            final(self)@.created == old(self)@.created,
    {
        broadcast use vstd::std_specs::hash::group_hash_axioms;

        let ghost v = self@;
        let waiting: PendingInheritance = match self.pending.get(&record) {
            Some(waiting) => *waiting,
            None => {
                return ;
            },
        };
        if live.contains(waiting.old_record as u64) {
            self.record_lineages.insert(record, waiting.fresh_lineage);
            self.holders.insert(waiting.fresh_lineage, record);
            self.inherited.remove(&record);
        } else {
            self.drop_holder(waiting.fresh_lineage, record);
            self.record_lineages.insert(record, waiting.old_lineage);
            self.holders.insert(waiting.old_lineage, record);
        }
        assert(self@ =~= committed(v, live@, record));
    }

    /// Releases what a dead record was entered under and keeps its identity
    /// among those of the dead.
    fn unbind_dead(&mut self, record: AstId)
        requires
            old(self).wf(),
        ensures
            final(self).wf(),
            final(self)@ == unbound(old(self)@, record),
    {
        broadcast use vstd::std_specs::hash::group_hash_axioms;

        let ghost v = self@;
        let lineage = self.lineage_of(record);
        self.record_lineages.remove(&record);
        match lineage {
            Some(known) => {
                self.died_lineages.insert(record as u64, known);
            },
            None => {},
        }
        let anchor: Option<AnchorKey> = match self.record_anchor_key.get(&record) {
            Some(key) => Some(*key),
            None => None,
        };
        self.record_anchor_key.remove(&record);
        match anchor {
            Some(key) => {
                self.died_anchor_keys.insert(record, key);
                self.anchor_index.unregister(key, record);
            },
            None => {},
        }
        match lineage {
            Some(known) => {
                self.drop_holder(known, record);
            },
            None => {},
        }
        self.pending.remove(&record);
        assert(self@ =~= unbound(v, record));
    }

    /// Settles a command against what is live in the end. Only records that
    /// came to life, died or were created are looked at. False where no identity
    /// is left for a record that came to life.
    pub fn settle<V>(
        &mut self,
        final_live: &RadixMap<()>,
        newly_live: &Vec<u64>,
        newly_dead: &Vec<u64>,
        products: &ProductArena,
        ast: &AstArena<V>,
    ) -> (r: bool)
        requires
            old(self).wf(),
            final_live.wf(),
            products.wf(),
            ast.wf(),
        ensures
            final(self).wf(),
            r == !no_identity_left(
                old(self)@,
                *ast,
                dormant(newly_live@, old(self)@.lineages),
            ),
            r ==> final(self)@ == settled(
                old(self)@,
                final_live@,
                newly_live@,
                newly_dead@,
                products@,
                *ast,
            ),
    {
        let ghost v = self@;
        let mut sleeping: Vec<AstId> = Vec::new();
        let mut index: usize = 0;
        assert(newly_live@.take(0) =~= Seq::<u64>::empty());
        while index < newly_live.len()
            invariant
                index <= newly_live@.len(),
                self@ == v,
                self.wf(),
                sleeping@ == dormant(newly_live@.take(index as int), v.lineages),
            decreases newly_live@.len() - index,
        {
            let record: usize = newly_live[index] as usize;
            assert(newly_live@.take(index as int + 1).drop_last() =~= newly_live@.take(
                index as int,
            ));
            if self.lineage_of(record).is_none() {
                sleeping.push(record);
            }
            index += 1;
        }
        assert(newly_live@.take(index as int) =~= newly_live@);
        let mut at: usize = 0;
        assert(sleeping@.take(0) =~= Seq::<AstId>::empty());
        while at < sleeping.len()
            invariant
                at <= sleeping@.len(),
                sleeping@ == dormant(newly_live@, v.lineages),
                v == old(self)@,
                self.wf(),
                ast.wf(),
                self@ == all_woken(v, *ast, sleeping@.take(at as int)),
                forall|k: int| 0 <= k < at ==> !#[trigger] runs_out(v, *ast, sleeping@, k),
            decreases sleeping@.len() - at,
        {
            assert(sleeping@.take(at as int + 1).drop_last() =~= sleeping@.take(at as int));
            let awake = self.wake(ast, sleeping[at]);
            assert(runs_out(v, *ast, sleeping@, at as int) == !awake);
            if !awake {
                return false;
            }
            at += 1;
        }
        assert(sleeping@.take(at as int) =~= sleeping@);
        self.resolve_contexts(products, ast);
        let ghost proved = self@;
        let total: usize = self.created.len();
        let mut next: usize = 0;
        assert(proved.created.take(0) =~= Seq::<AstId>::empty());
        while next < total
            invariant
                next <= total,
                total == proved.created.len(),
                self.wf(),
                final_live.wf(),
                self@.created == proved.created,
                self@ == all_committed(proved, final_live@, proved.created.take(next as int)),
            decreases total - next,
        {
            let record: usize = self.created[next];
            assert(proved.created.take(next as int + 1).drop_last() =~= proved.created.take(
                next as int,
            ));
            self.commit(final_live, record);
            next += 1;
        }
        assert(proved.created.take(next as int) =~= proved.created);
        let ghost done = self@;
        let dead = self.dead_records(final_live, newly_dead);
        let mut gone: usize = 0;
        assert(dead@.take(0) =~= Seq::<u64>::empty());
        while gone < dead.len()
            invariant
                gone <= dead@.len(),
                self.wf(),
                self@ == all_unbound(done, dead@.take(gone as int)),
            decreases dead@.len() - gone,
        {
            assert(dead@.take(gone as int + 1).drop_last() =~= dead@.take(gone as int));
            self.unbind_dead(dead[gone] as usize);
            gone += 1;
        }
        assert(dead@.take(gone as int) =~= dead@);
        self.pending.clear();
        self.claimed.clear();
        self.fresh_lineages.clear();
        assert(self@ =~= settled(v, final_live@, newly_live@, newly_dead@, products@, *ast));
        true
    }

    /// The records that died or never came to life, in ascending order.
    fn dead_records(&self, live: &RadixMap<()>, newly_dead: &Vec<u64>) -> (r: Vec<u64>)
        requires
            live.wf(),
        ensures
            r@ == distinct_sorted((newly_dead@ + stillborn(self@.created, live@)).to_set()),
    {
        let mut all: Vec<u64> = Vec::new();
        let mut index: usize = 0;
        while index < newly_dead.len()
            invariant
                index <= newly_dead@.len(),
                all@ == newly_dead@.take(index as int),
            decreases newly_dead@.len() - index,
        {
            all.push(newly_dead[index]);
            index += 1;
            assert(all@ =~= newly_dead@.take(index as int));
        }
        assert(newly_dead@.take(index as int) =~= newly_dead@);
        let mut at: usize = 0;
        assert(self.created@.take(0) =~= Seq::<AstId>::empty());
        assert(all@ =~= newly_dead@ + stillborn(self.created@.take(0), live@));
        while at < self.created.len()
            invariant
                at <= self.created@.len(),
                live.wf(),
                all@ == newly_dead@ + stillborn(self.created@.take(at as int), live@),
            decreases self.created@.len() - at,
        {
            let record: usize = self.created[at];
            let ghost before = stillborn(self.created@.take(at as int), live@);
            assert(self.created@.take(at as int + 1).drop_last() =~= self.created@.take(
                at as int,
            ));
            if !live.contains(record as u64) {
                all.push(record as u64);
                assert(all@ =~= newly_dead@ + before.push(record as u64));
            }
            at += 1;
        }
        assert(self.created@.take(at as int) =~= self.created@);
        sorted_distinct(&all)
    }
}

} // verus!
