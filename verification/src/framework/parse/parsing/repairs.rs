//! Repairs: what is kept of them, and the identities of made-up tokens.

use vstd::prelude::*;

use crate::framework::lex::lexed::TokenOccurrenceId;
use crate::framework::parse::grammar::TerminalId;
use crate::framework::parse::parsing::columns::{CheckpointView, FrontierCheckpoint};
use crate::sort::sorted_distinct;
use crate::store::RadixMap;

verus! {

/// One step of a repair.
#[derive(Clone, Copy, Debug, PartialEq, Eq, Structural)]
pub enum Repair {
    /// Make a terminal up.
    Insert(TerminalId),
    /// Drop the next token.
    Delete,
    /// Take the next token.
    Shift,
    /// Take the next token for an error.
    ShiftAsError,
}

/// A token that a repair looked at.
#[derive(Clone, Copy, Debug, PartialEq, Eq, Structural)]
pub struct Witness {
    pub token: TokenOccurrenceId,
    pub terminal: TerminalId,
}

/// A step of a repair with the token that it was made at.
#[derive(Clone, Copy, Debug, PartialEq, Eq, Structural)]
pub struct JournaledRepair {
    pub repair: Repair,
    pub anchor: TokenOccurrenceId,
}

/// A repair that was made, to be made again where nothing has changed.
pub struct RecoveryJournalEntry {
    /// The token at which the parse got stuck.
    pub anchor: TokenOccurrenceId,
    /// The stacks at which it got stuck.
    pub frontier: FrontierCheckpoint,
    pub witnesses: Vec<Witness>,
    pub repairs: Vec<JournaledRepair>,
}

/// What a kept repair is.
#[verifier::ext_equal]
pub ghost struct EntryView {
    pub anchor: TokenOccurrenceId,
    pub frontier: CheckpointView,
    pub witnesses: Seq<Witness>,
    pub repairs: Seq<JournaledRepair>,
}

impl View for RecoveryJournalEntry {
    type V = EntryView;

    open spec fn view(&self) -> EntryView {
        EntryView {
            anchor: self.anchor,
            frontier: self.frontier@,
            witnesses: self.witnesses@,
            repairs: self.repairs@,
        }
    }
}

/// What is counted of repairs in a command.
#[derive(Clone, Copy, Debug, PartialEq, Eq, Structural)]
pub struct RecoveryCounts {
    /// Kept repairs that were made again.
    pub reused: u64,
    /// Kept repairs that were forgotten.
    pub invalidated: u64,
    /// Repairs that were found and kept.
    pub probes: u64,
    /// Tokens that steps which make a terminal up or drop a token looked at.
    pub witnesses: u64,
}

/// A count that does not run over.
pub open spec fn more(count: u64, by: nat) -> u64 {
    if count + by > u64::MAX {
        u64::MAX
    } else {
        (count + by) as u64
    }
}

/// What is kept of repairs.
#[verifier::ext_equal]
pub ghost struct RecoveryView {
    /// The number of the last repair.
    pub last: u64,
    /// By token, the identity of what was made up there in this command.
    pub synthetic: Map<u64, u64>,
    /// How many identities the repair that is being made has handed out.
    pub ordinal: u64,
    /// The repair that is being made.
    pub active: Option<u64>,
    pub document: u64,
    /// By token, the repairs that looked at it.
    pub witnesses: Map<u64, Seq<u64>>,
    /// By number, the repairs that were made.
    pub journal: Map<u64, EntryView>,
    /// What is counted of repairs in this command.
    pub counts: RecoveryCounts,
}

impl View for RecoveryState {
    type V = RecoveryView;

    open spec fn view(&self) -> RecoveryView {
        RecoveryView {
            last: self.next_recovery_segment,
            synthetic: self.synthetic_tokens@,
            ordinal: self.next_synthetic_ordinal,
            active: self.active_recovery_segment,
            document: self.document_serial,
            witnesses: self.witness_intervals@.map_values(|list: Vec<u64>| list@),
            journal: self.journal@.map_values(|entry: RecoveryJournalEntry| entry@),
            counts: self.counts,
        }
    }
}

/// A command starts: nothing was made up or counted yet.
pub open spec fn recovery_begun(r: RecoveryView, document: u64) -> RecoveryView {
    RecoveryView {
        document,
        synthetic: Map::empty(),
        active: None,
        counts: RecoveryCounts { reused: 0, invalidated: 0, probes: 0, witnesses: 0 },
        ..r
    }
}

/// A kept repair that was made again is counted.
pub open spec fn reuse_counted(r: RecoveryView) -> RecoveryView {
    RecoveryView {
        counts: RecoveryCounts { reused: more(r.counts.reused, 1), ..r.counts },
        ..r
    }
}

/// A repair that was found is counted.
pub open spec fn probe_counted(r: RecoveryView) -> RecoveryView {
    RecoveryView {
        counts: RecoveryCounts { probes: more(r.counts.probes, 1), ..r.counts },
        ..r
    }
}

/// A token that a step looked at is counted.
pub open spec fn witness_counted(r: RecoveryView) -> RecoveryView {
    RecoveryView {
        counts: RecoveryCounts { witnesses: more(r.counts.witnesses, 1), ..r.counts },
        ..r
    }
}

/// A repair begins, under the next number.
pub open spec fn segment_begun(r: RecoveryView) -> RecoveryView {
    RecoveryView {
        last: r.last.wrapping_add(1),
        ordinal: 0,
        active: Some(r.last.wrapping_add(1)),
        ..r
    }
}

/// A repair is taken up again under its number.
pub open spec fn segment_resumed(r: RecoveryView, serial: u64) -> RecoveryView {
    RecoveryView { ordinal: 0, active: Some(serial), ..r }
}

/// The next identity was handed out, and noted at a token.
pub open spec fn identity_noted(r: RecoveryView, token: u64) -> RecoveryView {
    RecoveryView {
        synthetic: r.synthetic.insert(
            token,
            synthetic_identity(
                r.document,
                match r.active {
                    Some(segment) => segment,
                    None => 0,
                },
                r.ordinal,
            ),
        ),
        ordinal: r.ordinal.wrapping_add(1),
        ..r
    }
}

/// A repair looked at a token.
pub open spec fn witness_noted(r: RecoveryView, token: u64, segment: u64) -> RecoveryView {
    RecoveryView {
        witnesses: r.witnesses.insert(
            token,
            with_segment(
                if r.witnesses.dom().contains(token) {
                    r.witnesses[token]
                } else {
                    Seq::empty()
                },
                segment,
            ),
        ),
        ..r
    }
}

/// An attempt came to nothing: the repair that was being made before is the one
/// again, with as many identities handed out. What was noted stays.
pub open spec fn attempt_undone(r: RecoveryView, before: RecoveryView) -> RecoveryView {
    RecoveryView { active: before.active, ordinal: before.ordinal, ..r }
}

/// What is kept of repairs across commands.
pub struct RecoveryState {
    /// The number of the last repair.
    pub next_recovery_segment: u64,
    /// By token, the identity of what was made up there in this command.
    pub synthetic_tokens: RadixMap<u64>,
    pub next_synthetic_ordinal: u64,
    /// The repair that is being made.
    pub active_recovery_segment: Option<u64>,
    /// The document, for the identities.
    pub document_serial: u64,
    /// By token, the repairs that looked at it.
    pub witness_intervals: RadixMap<Vec<u64>>,
    /// By number, the repairs that were made.
    pub journal: RadixMap<RecoveryJournalEntry>,
    /// What is counted of repairs in this command.
    pub counts: RecoveryCounts,
}

/// The identity of a made-up token: the document in the upper bits, then the
/// repair, then the place in it.
pub open spec fn synthetic_identity(document: u64, segment: u64, ordinal: u64) -> u64 {
    (document << 48u64) | ((segment & 0xFFFF_FFFFu64) << 16u64) | (ordinal & 0xFFFFu64)
}

/// The repairs that looked at a token.
pub open spec fn witnessed(map: Map<u64, Vec<u64>>, token: u64) -> Seq<u64> {
    if map.dom().contains(token) {
        map[token]@
    } else {
        Seq::empty()
    }
}

/// A repair looked at a token of a range.
pub open spec fn witnessed_in(map: Map<u64, Vec<u64>>, start: u64, end: u64, segment: u64) -> bool {
    exists|token: u64|
        start <= token <= end && #[trigger] witnessed(map, token).contains(segment)
}

/// A list with a number added, unless it is there.
pub open spec fn with_segment(list: Seq<u64>, segment: u64) -> Seq<u64> {
    if list.contains(segment) {
        list
    } else {
        list.push(segment)
    }
}

fn copy_numbers(list: &Vec<u64>) -> (r: Vec<u64>)
    ensures
        r@ == list@,
{
    let mut out: Vec<u64> = Vec::new();
    let mut at: usize = 0;
    while at < list.len()
        invariant
            at <= list@.len(),
            out@ == list@.take(at as int),
        decreases list@.len() - at,
    {
        out.push(list[at]);
        assert(out@ =~= list@.take(at as int + 1));
        at += 1;
    }
    assert(out@ =~= list@);
    out
}

fn has_number(list: &Vec<u64>, number: u64) -> (r: bool)
    ensures
        r == list@.contains(number),
{
    let mut at: usize = 0;
    while at < list.len()
        invariant
            at <= list@.len(),
            forall|i: int| 0 <= i < at ==> #[trigger] list@[i] != number,
        decreases list@.len() - at,
    {
        if list[at] == number {
            assert(list@[at as int] == number);
            return true;
        }
        at += 1;
    }
    false
}

impl RecoveryState {
    pub open spec fn wf(self) -> bool {
        &&& self.synthetic_tokens.wf()
        &&& self.witness_intervals.wf()
        &&& self.journal.wf()
        &&& forall|serial: u64| #[trigger]
            self.journal@.dom().contains(serial) ==> self.journal@[serial].frontier.wf()
    }

    /// Nothing was repaired yet.
    pub fn new() -> (r: Self)
        ensures
            r.wf(),
            r.next_recovery_segment == 0,
            r.synthetic_tokens@ == Map::<u64, u64>::empty(),
            r.next_synthetic_ordinal == 0,
            r.active_recovery_segment is None,
            r.document_serial == 0,
            r.witness_intervals@ == Map::<u64, Vec<u64>>::empty(),
            r.journal@ == Map::<u64, RecoveryJournalEntry>::empty(),
            r.counts == (RecoveryCounts { reused: 0, invalidated: 0, probes: 0, witnesses: 0 }),
    {
        RecoveryState {
            next_recovery_segment: 0,
            synthetic_tokens: RadixMap::new(),
            next_synthetic_ordinal: 0,
            active_recovery_segment: None,
            document_serial: 0,
            witness_intervals: RadixMap::new(),
            journal: RadixMap::new(),
            counts: RecoveryCounts { reused: 0, invalidated: 0, probes: 0, witnesses: 0 },
        }
    }

    /// Counts a kept repair that was made again.
    pub fn count_reuse(&mut self)
        requires
            old(self).wf(),
        ensures
            final(self).wf(),
            final(self)@ == reuse_counted(old(self)@),
            *final(self) == (RecoveryState { counts: final(self).counts, ..*old(self) }),
    {
        self.counts.reused = self.counts.reused.saturating_add(1);
    }

    /// Counts a kept repair that was forgotten.
    pub fn count_invalidated(&mut self)
        requires
            old(self).wf(),
        ensures
            final(self).wf(),
            *final(self) == (RecoveryState {
                counts: RecoveryCounts {
                    invalidated: more(old(self).counts.invalidated, 1),
                    ..old(self).counts
                },
                ..*old(self)
            }),
    {
        self.counts.invalidated = self.counts.invalidated.saturating_add(1);
    }

    /// Counts a repair that was found.
    pub fn count_probe(&mut self)
        requires
            old(self).wf(),
        ensures
            final(self).wf(),
            final(self)@ == probe_counted(old(self)@),
            *final(self) == (RecoveryState { counts: final(self).counts, ..*old(self) }),
    {
        self.counts.probes = self.counts.probes.saturating_add(1);
    }

    /// Counts a token that a step looked at.
    pub fn count_witness(&mut self)
        requires
            old(self).wf(),
        ensures
            final(self).wf(),
            final(self)@ == witness_counted(old(self)@),
            *final(self) == (RecoveryState { counts: final(self).counts, ..*old(self) }),
    {
        self.counts.witnesses = self.counts.witnesses.saturating_add(1);
    }

    /// Starts a command: nothing was made up yet.
    pub fn begin_command(&mut self, document: u64)
        requires
            old(self).wf(),
        ensures
            final(self).wf(),
            final(self)@ == recovery_begun(old(self)@, document),
            final(self).document_serial == document,
            final(self).synthetic_tokens@ == Map::<u64, u64>::empty(),
            final(self).active_recovery_segment is None,
            final(self).next_recovery_segment == old(self).next_recovery_segment,
            final(self).next_synthetic_ordinal == old(self).next_synthetic_ordinal,
            final(self).witness_intervals == old(self).witness_intervals,
            final(self).journal == old(self).journal,
    {
        self.document_serial = document;
        self.synthetic_tokens = RadixMap::new();
        self.active_recovery_segment = None;
        self.counts = RecoveryCounts { reused: 0, invalidated: 0, probes: 0, witnesses: 0 };
    }

    /// Begins a repair. Repairs are numbered one after the other; within each,
    /// places are counted from zero.
    pub fn begin_recovery_segment(&mut self) -> (r: u64)
        requires
            old(self).wf(),
        ensures
            final(self).wf(),
            final(self)@ == segment_begun(old(self)@),
            r == old(self).next_recovery_segment.wrapping_add(1),
            final(self).next_recovery_segment == r,
            final(self).next_synthetic_ordinal == 0,
            final(self).active_recovery_segment == Some(r),
            final(self).synthetic_tokens == old(self).synthetic_tokens,
            final(self).document_serial == old(self).document_serial,
            final(self).witness_intervals == old(self).witness_intervals,
            final(self).journal == old(self).journal,
    {
        self.next_recovery_segment = self.next_recovery_segment.wrapping_add(1);
        self.next_synthetic_ordinal = 0;
        self.active_recovery_segment = Some(self.next_recovery_segment);
        self.next_recovery_segment
    }

    /// Takes a repair up again under its number.
    pub fn resume_recovery_segment(&mut self, serial: u64)
        requires
            old(self).wf(),
        ensures
            final(self).wf(),
            final(self)@ == segment_resumed(old(self)@, serial),
            final(self).next_recovery_segment == old(self).next_recovery_segment,
            final(self).next_synthetic_ordinal == 0,
            final(self).active_recovery_segment == Some(serial),
            final(self).synthetic_tokens == old(self).synthetic_tokens,
            final(self).document_serial == old(self).document_serial,
            final(self).witness_intervals == old(self).witness_intervals,
            final(self).journal == old(self).journal,
    {
        self.active_recovery_segment = Some(serial);
        self.next_synthetic_ordinal = 0;
    }

    /// The next identity of a made-up token; noted at a token.
    pub fn next_synthetic_identity(&mut self, occurrence: TokenOccurrenceId) -> (r: u64)
        requires
            old(self).wf(),
        ensures
            final(self).wf(),
            final(self)@ == identity_noted(old(self)@, occurrence.0),
            r == synthetic_identity(
                old(self).document_serial,
                match old(self).active_recovery_segment {
                    Some(segment) => segment,
                    None => 0,
                },
                old(self).next_synthetic_ordinal,
            ),
            final(self).next_synthetic_ordinal == old(self).next_synthetic_ordinal.wrapping_add(1),
            final(self).synthetic_tokens@ == old(self).synthetic_tokens@.insert(occurrence.0, r),
            final(self).next_recovery_segment == old(self).next_recovery_segment,
            final(self).active_recovery_segment == old(self).active_recovery_segment,
            final(self).document_serial == old(self).document_serial,
            final(self).witness_intervals == old(self).witness_intervals,
            final(self).journal == old(self).journal,
    {
        let segment: u64 = match self.active_recovery_segment {
            Some(segment) => segment,
            None => 0,
        };
        let ordinal: u64 = self.next_synthetic_ordinal;
        self.next_synthetic_ordinal = self.next_synthetic_ordinal.wrapping_add(1);
        let identity: u64 = self.synthetic_bytes(segment, ordinal);
        self.synthetic_tokens.insert(occurrence.0, identity);
        identity
    }

    fn synthetic_bytes(&self, segment: u64, ordinal: u64) -> (r: u64)
        ensures
            r == synthetic_identity(self.document_serial, segment, ordinal),
    {
        (self.document_serial << 48u64) | ((segment & 0xFFFF_FFFFu64) << 16u64) | (ordinal
            & 0xFFFFu64)
    }

    /// Notes that a repair looked at a token.
    pub fn record_witness(&mut self, occurrence: TokenOccurrenceId, segment: u64)
        requires
            old(self).wf(),
        ensures
            final(self).wf(),
            final(self)@ == witness_noted(old(self)@, occurrence.0, segment),
            forall|token: u64| #[trigger]
                witnessed(final(self).witness_intervals@, token) == if token == occurrence.0 {
                    with_segment(witnessed(old(self).witness_intervals@, token), segment)
                } else {
                    witnessed(old(self).witness_intervals@, token)
                },
            final(self).next_recovery_segment == old(self).next_recovery_segment,
            final(self).synthetic_tokens == old(self).synthetic_tokens,
            final(self).next_synthetic_ordinal == old(self).next_synthetic_ordinal,
            final(self).active_recovery_segment == old(self).active_recovery_segment,
            final(self).document_serial == old(self).document_serial,
            final(self).journal == old(self).journal,
    {
        let mut bucket: Vec<u64> = match self.witness_intervals.get(occurrence.0) {
            Some(list) => copy_numbers(list),
            None => Vec::new(),
        };
        assert(bucket@ =~= witnessed(self.witness_intervals@, occurrence.0));
        if !has_number(&bucket, segment) {
            bucket.push(segment);
        }
        let ghost before = self.witness_intervals@;
        let ghost list = bucket@;
        self.witness_intervals.insert(occurrence.0, bucket);
        proof {
            let now = witness_noted(old(self)@, occurrence.0, segment);
            assert(list == with_segment(witnessed(before, occurrence.0), segment));
            assert(self@.witnesses =~= now.witnesses);
            assert(self@ =~= now);
        }
    }

    /// The repairs that looked at a token of a range, in ascending order.
    pub fn intersecting_witness_segments(
        &self,
        start: TokenOccurrenceId,
        end: TokenOccurrenceId,
    ) -> (r: Vec<u64>)
        requires
            self.wf(),
        ensures
            crate::sort::strictly_ascending(r@),
            forall|segment: u64| #[trigger]
                r@.contains(segment) <==> witnessed_in(
                    self.witness_intervals@,
                    start.0,
                    end.0,
                    segment,
                ),
    {
        let ghost map = self.witness_intervals@;
        let ghost keys = self.witness_intervals.spec_keys();
        let total: usize = self.witness_intervals.len();
        let mut found: Vec<u64> = Vec::new();
        let mut at: usize = 0;
        while at < total
            invariant
                self.wf(),
                at <= total,
                map == self.witness_intervals@,
                keys == self.witness_intervals.spec_keys(),
                total == keys.len(),
                forall|segment: u64| #[trigger]
                    found@.contains(segment) <==> exists|k: int|
                        0 <= k < at && start.0 <= #[trigger] keys[k] <= end.0 && witnessed(
                            map,
                            keys[k],
                        ).contains(segment),
            decreases total - at,
        {
            let key: u64 = self.witness_intervals.key_at(at);
            let ghost before = found@;
            if start.0 <= key && key <= end.0 {
                let list = self.witness_intervals.value_at(at);
                assert(list@ == witnessed(map, key));
                let mut k: usize = 0;
                while k < list.len()
                    invariant
                        k <= list@.len(),
                        forall|segment: u64| #[trigger]
                            found@.contains(segment) <==> before.contains(segment) || list@.take(
                                k as int,
                            ).contains(segment),
                    decreases list@.len() - k,
                {
                    let ghost known = found@;
                    found.push(list[k]);
                    proof {
                        let added = list@[k as int];
                        let short = list@.take(k as int);
                        let long = list@.take(k as int + 1);
                        assert(long =~= short.push(added));
                        assert forall|segment: u64| #[trigger]
                            found@.contains(segment) <==> before.contains(segment) || long.contains(
                                segment,
                            ) by {
                            lemma_pushed(known, added, segment);
                            lemma_pushed(short, added, segment);
                        }
                    }
                    k += 1;
                }
                assert(list@.take(k as int) =~= list@);
            }
            proof {
                assert forall|segment: u64| #[trigger]
                    found@.contains(segment) <==> exists|k: int|
                        0 <= k < at + 1 && start.0 <= #[trigger] keys[k] <= end.0 && witnessed(
                            map,
                            keys[k],
                        ).contains(segment) by {
                    assert(before.contains(segment) <==> exists|k: int|
                        0 <= k < at && start.0 <= #[trigger] keys[k] <= end.0 && witnessed(
                            map,
                            keys[k],
                        ).contains(segment));
                    assert(keys[at as int] == key);
                }
            }
            at += 1;
        }
        let out = sorted_distinct(&found);
        proof {
            self.witness_intervals.lemma_keys();
            assert forall|segment: u64| #[trigger]
                out@.contains(segment) <==> witnessed_in(map, start.0, end.0, segment) by {
                assert(out@.to_set().contains(segment) == found@.to_set().contains(segment));
                if witnessed_in(map, start.0, end.0, segment) {
                    let token = choose|token: u64|
                        start.0 <= token <= end.0 && #[trigger] witnessed(map, token).contains(
                            segment,
                        );
                    assert(map.dom().contains(token));
                    assert(keys.contains(token));
                    let k = choose|k: int| 0 <= k < keys.len() && keys[k] == token;
                    assert(witnessed(map, keys[k]).contains(segment));
                    assert(found@.contains(segment));
                }
                if found@.contains(segment) {
                    let k = choose|k: int|
                        0 <= k < at && start.0 <= #[trigger] keys[k] <= end.0 && witnessed(
                            map,
                            keys[k],
                        ).contains(segment);
                    assert(witnessed(map, keys[k]).contains(segment));
                }
            }
        }
        out
    }
}

proof fn lemma_pushed(list: Seq<u64>, added: u64, item: u64)
    ensures
        list.push(added).contains(item) <==> list.contains(item) || item == added,
{
    let all = list.push(added);
    if list.contains(item) {
        let k = choose|k: int| 0 <= k < list.len() && list[k] == item;
        assert(all[k] == item);
    }
    assert(all[list.len() as int] == added);
    if all.contains(item) && item != added {
        let k = choose|k: int| 0 <= k < all.len() && all[k] == item;
        assert(list[k] == item);
    }
}

/// Made-up tokens of one document have different identities where the repairs
/// or the places differ, as long as both are small enough for their bits.
pub proof fn lemma_synthetic_identities_differ(
    document: u64,
    segment: u64,
    ordinal: u64,
    other_segment: u64,
    other_ordinal: u64,
)
    requires
        segment <= 0xFFFF_FFFF,
        other_segment <= 0xFFFF_FFFF,
        ordinal <= 0xFFFF,
        other_ordinal <= 0xFFFF,
        segment != other_segment || ordinal != other_ordinal,
    ensures
        synthetic_identity(document, segment, ordinal) != synthetic_identity(
            document,
            other_segment,
            other_ordinal,
        ),
{
    assert(((document << 48u64) | ((segment & 0xFFFF_FFFFu64) << 16u64) | (ordinal & 0xFFFFu64))
        != ((document << 48u64) | ((other_segment & 0xFFFF_FFFFu64) << 16u64) | (other_ordinal
        & 0xFFFFu64))) by (bit_vector)
        requires
            segment <= 0xFFFF_FFFFu64,
            other_segment <= 0xFFFF_FFFFu64,
            ordinal <= 0xFFFFu64,
            other_ordinal <= 0xFFFFu64,
            segment != other_segment || ordinal != other_ordinal,
    ;
}

} // verus!
