//! Source revisions: editor operations, normalized splices, and the
//! coordinate maps between one revision of a document and the next.

use std::ops::Range;
use vstd::prelude::*;
use vstd::relations::*;
use vstd::utf8::*;

use crate::sort::{ascending, order, sorted, Ordered};
use crate::text::{
    is_rope_char_boundary, lemma_encode_concat, rope_byte_slice, rope_bytes, rope_clone,
    rope_len_bytes, rope_replace,
};
use crate::utils::Span;

verus! {

// ---------------------------------------------------------------------------
// Work counters

/// Deterministic source-pipeline work counters for one document command.
#[derive(Clone, Debug, Default, PartialEq, Eq)]
pub struct SourceWork {
    /// Editor operations validated by the batch normalizer.
    pub validated_operations: u64,
    /// Splices that survived no-op filtering.
    pub effective_splices: u64,
    /// Bytes removed by validated splices.
    pub bytes_removed: u64,
    /// Bytes inserted by validated splices.
    pub bytes_inserted: u64,
    /// Unchanged coordinate islands built from a revision delta.
    pub coordinate_islands_built: u64,
    /// Coordinate-island lookup attempts.
    pub coordinate_islands_queried: u64,
    /// Rope chunks traversed while applying or reading text.
    pub rope_chunks_traversed: u64,
    /// Text edit operations applied to stored text.
    pub rope_edit_operations: u64,
    /// Explicit complete-source string materializations on a command path.
    pub full_source_materializations: u64,
}

impl SourceWork {
    /// The counters of `self` and `other` add up without overflow.
    pub open spec fn sums_fit(self, other: SourceWork) -> bool {
        &&& self.validated_operations + other.validated_operations <= u64::MAX
        &&& self.effective_splices + other.effective_splices <= u64::MAX
        &&& self.bytes_removed + other.bytes_removed <= u64::MAX
        &&& self.bytes_inserted + other.bytes_inserted <= u64::MAX
        &&& self.coordinate_islands_built + other.coordinate_islands_built <= u64::MAX
        &&& self.coordinate_islands_queried + other.coordinate_islands_queried <= u64::MAX
        &&& self.rope_chunks_traversed + other.rope_chunks_traversed <= u64::MAX
        &&& self.rope_edit_operations + other.rope_edit_operations <= u64::MAX
        &&& self.full_source_materializations + other.full_source_materializations <= u64::MAX
    }

    /// The counters of `self` and `other` added up.
    pub open spec fn sum(self, other: SourceWork) -> SourceWork {
        SourceWork {
            validated_operations: (self.validated_operations + other.validated_operations) as u64,
            effective_splices: (self.effective_splices + other.effective_splices) as u64,
            bytes_removed: (self.bytes_removed + other.bytes_removed) as u64,
            bytes_inserted: (self.bytes_inserted + other.bytes_inserted) as u64,
            coordinate_islands_built: (self.coordinate_islands_built
                + other.coordinate_islands_built) as u64,
            coordinate_islands_queried: (self.coordinate_islands_queried
                + other.coordinate_islands_queried) as u64,
            rope_chunks_traversed: (self.rope_chunks_traversed
                + other.rope_chunks_traversed) as u64,
            rope_edit_operations: (self.rope_edit_operations + other.rope_edit_operations) as u64,
            full_source_materializations: (self.full_source_materializations
                + other.full_source_materializations) as u64,
        }
    }

    /// Merges another counter set into this one.
    pub fn merge(&mut self, other: &Self)
        requires
            old(self).sums_fit(*other),
        ensures
            *final(self) == old(self).sum(*other),
    {
        self.validated_operations += other.validated_operations;
        self.effective_splices += other.effective_splices;
        self.bytes_removed += other.bytes_removed;
        self.bytes_inserted += other.bytes_inserted;
        self.coordinate_islands_built += other.coordinate_islands_built;
        self.coordinate_islands_queried += other.coordinate_islands_queried;
        self.rope_chunks_traversed += other.rope_chunks_traversed;
        self.rope_edit_operations += other.rope_edit_operations;
        self.full_source_materializations += other.full_source_materializations;
    }
}

// ---------------------------------------------------------------------------
// Edits, splices and errors

/// One editor operation against an authoritative source document. Coordinates
/// are bytes against the current revision.
#[derive(Debug, Clone, PartialEq, Eq)]
pub enum SourceEdit {
    Insert { key: Span, value: String },
    Delete { key: Span },
}

impl SourceEdit {
    /// The span that the operation names.
    pub open spec fn spec_span(self) -> Span {
        match self {
            SourceEdit::Insert { key, .. } => key,
            SourceEdit::Delete { key } => key,
        }
    }

    pub fn span(&self) -> (r: &Span)
        ensures
            *r == self.spec_span(),
    {
        match self {
            SourceEdit::Insert { key, .. } => key,
            SourceEdit::Delete { key } => key,
        }
    }

    /// The byte at which the operation starts.
    pub open spec fn at(self) -> int {
        self.spec_span().range.start as int
    }

    /// The byte before which the operation's removal ends.
    pub open spec fn until(self) -> int {
        match self {
            SourceEdit::Insert { key, .. } => key.range.start as int,
            SourceEdit::Delete { key } => key.range.end as int,
        }
    }

    /// The text that the operation puts in.
    pub open spec fn text(self) -> Seq<char> {
        match self {
            SourceEdit::Insert { value, .. } => value@,
            SourceEdit::Delete { .. } => Seq::empty(),
        }
    }
}

/// Why a batch of edits or a command was refused.
#[derive(Debug, Clone, Copy, PartialEq, Eq, Structural)]
pub enum SourceError {
    /// Edits against a document that is not open.
    Unopened,
    /// An insertion point past the end or inside a character.
    InsertOutOfBounds { at: usize },
    /// A deleted range that is reversed, past the end, or off a boundary.
    InvalidDelete { start: usize, end: usize },
    /// Two replacements of one batch overlap.
    Overlap { first_start: usize, first_end: usize, second_start: usize, second_end: usize },
    /// The text that results is too long to address.
    Overflow,
    /// The command was made against another revision.
    StaleRevision,
    /// A byte range that does not lie on character boundaries.
    OffBoundary,
    /// The document's URI does not parse.
    InvalidUri,
}

/// One exact replacement between two revisions: old coordinates in the
/// revision before, new coordinates in the resulting one.
#[derive(Debug, PartialEq, Eq)]
pub struct SourceSplice {
    pub old_range: Range<usize>,
    pub new_range: Range<usize>,
}

impl Clone for SourceSplice {
    fn clone(&self) -> (r: Self)
        ensures
            r == *self,
    {
        SourceSplice {
            old_range: self.old_range.start..self.old_range.end,
            new_range: self.new_range.start..self.new_range.end,
        }
    }
}

/// The exact sparse delta that produced one revision from its predecessor.
#[derive(Debug, PartialEq, Eq)]
pub enum SourceDelta {
    Load { new_len: usize },
    Edit { splices: Vec<SourceSplice> },
}

/// A copy of every splice.
fn clone_splices(splices: &Vec<SourceSplice>) -> (out: Vec<SourceSplice>)
    ensures
        out@ == splices@,
{
    let mut out: Vec<SourceSplice> = Vec::new();
    let mut index: usize = 0;
    while index < splices.len()
        invariant
            index <= splices.len(),
            out@ == splices@.take(index as int),
        decreases splices.len() - index,
    {
        out.push(splices[index].clone());
        index += 1;
        assert(out@ =~= splices@.take(index as int));
    }
    assert(splices@.take(splices@.len() as int) =~= splices@);
    out
}

impl SourceDelta {
    /// The splices of an edit; a load has none.
    pub open spec fn splices(self) -> Seq<SourceSplice> {
        match self {
            SourceDelta::Load { .. } => Seq::empty(),
            SourceDelta::Edit { splices } => splices@,
        }
    }

    /// The same delta.
    pub open spec fn same(self, other: SourceDelta) -> bool {
        match (self, other) {
            (SourceDelta::Load { new_len: a }, SourceDelta::Load { new_len: b }) => a == b,
            (SourceDelta::Edit { splices: a }, SourceDelta::Edit { splices: b }) => a@ == b@,
            _ => false,
        }
    }
}

impl Clone for SourceDelta {
    fn clone(&self) -> (r: Self)
        ensures
            r.same(*self),
    {
        match self {
            SourceDelta::Load { new_len } => SourceDelta::Load { new_len: *new_len },
            SourceDelta::Edit { splices } => SourceDelta::Edit { splices: clone_splices(splices) },
        }
    }
}

/// A replacement of the old bytes `start..end` by `text`.
pub ghost struct Replacement {
    pub start: int,
    pub end: int,
    pub text: Seq<char>,
}

/// A splice together with the text it puts in.
pub ghost struct TextSplice {
    pub old_start: int,
    pub old_end: int,
    pub new_start: int,
    pub new_end: int,
    pub text: Seq<char>,
}

// ---------------------------------------------------------------------------
// Ordering of one batch

/// The order of one operation in its batch: by start, insertions before
/// deletions, then by position in the batch.
#[derive(Clone, Copy, Debug, PartialEq, Eq, Structural)]
pub struct OpKey {
    pub at: usize,
    pub kind: u8,
    pub ordinal: usize,
}

impl Ordered for OpKey {
    open spec fn le_spec(self, other: Self) -> bool {
        self.at < other.at || (self.at == other.at && (self.kind < other.kind || (self.kind
            == other.kind && self.ordinal <= other.ordinal)))
    }

    proof fn lemma_total() {
    }

    fn le_exec(&self, other: &Self) -> (r: bool) {
        self.at < other.at || (self.at == other.at && (self.kind < other.kind || (self.kind
            == other.kind && self.ordinal <= other.ordinal)))
    }
}

/// The order key of the `ordinal`-th operation.
pub open spec fn op_key(edit: SourceEdit, ordinal: int) -> OpKey {
    OpKey {
        at: edit.spec_span().range.start,
        kind: if edit is Insert {
            0
        } else {
            1
        },
        ordinal: ordinal as usize,
    }
}

/// The order keys of a batch.
pub open spec fn op_keys(edits: Seq<SourceEdit>) -> Seq<OpKey> {
    Seq::new(edits.len(), |i: int| op_key(edits[i], i))
}

/// The operations of a batch in the order in which they are merged.
pub open spec fn ordered_edits(edits: Seq<SourceEdit>) -> Seq<SourceEdit> {
    ascending(op_keys(edits)).map_values(|key: OpKey| edits[key.ordinal as int])
}

// ---------------------------------------------------------------------------
// Replacements of one batch

/// The number of leading insertions at `at`.
pub open spec fn insert_run(ops: Seq<SourceEdit>, at: int) -> nat
    decreases ops.len(),
{
    if ops.len() > 0 && ops[0] is Insert && ops[0].at() == at {
        1 + insert_run(ops.skip(1), at)
    } else {
        0
    }
}

/// The texts of the operations, one after the other.
pub open spec fn joined_text(ops: Seq<SourceEdit>) -> Seq<char>
    decreases ops.len(),
{
    if ops.len() == 0 {
        Seq::empty()
    } else {
        joined_text(ops.drop_last()) + ops.last().text()
    }
}

/// The replacements that ordered operations stand for: the insertions at one
/// point and the deletion that starts there make one replacement.
pub open spec fn replacements(ops: Seq<SourceEdit>) -> Seq<Replacement>
    decreases ops.len(),
{
    if ops.len() == 0 {
        Seq::empty()
    } else {
        let at = ops[0].at();
        let run = insert_run(ops, at) as int;
        if run < ops.len() && ops[run] is Delete && ops[run].at() == at {
            seq![Replacement { start: at, end: ops[run].until(), text: joined_text(ops.take(run)) }]
                + replacements(ops.skip(run + 1))
        } else {
            proof {
                lemma_insert_run_bound(ops, at);
                if ops[0] is Insert {
                    assert(insert_run(ops, at) >= 1);
                } else {
                    assert(ops[run] == ops[0]);
                }
            }
            seq![Replacement { start: at, end: at, text: joined_text(ops.take(run)) }]
                + replacements(ops.skip(run))
        }
    }
}

/// Why one edit is invalid against the text `bytes`, if it is.
pub open spec fn edit_error(edit: SourceEdit, bytes: Seq<u8>) -> Option<SourceError> {
    match edit {
        SourceEdit::Insert { key, .. } => if is_char_boundary(bytes, key.range.start as int) {
            None
        } else {
            Some(SourceError::InsertOutOfBounds { at: key.range.start })
        },
        SourceEdit::Delete { key } => if key.range.start <= key.range.end && is_char_boundary(
            bytes,
            key.range.start as int,
        ) && is_char_boundary(bytes, key.range.end as int) {
            None
        } else {
            Some(SourceError::InvalidDelete { start: key.range.start, end: key.range.end })
        },
    }
}

/// The error of the first invalid edit.
pub open spec fn first_edit_error(edits: Seq<SourceEdit>, bytes: Seq<u8>) -> Option<SourceError>
    decreases edits.len(),
{
    if edits.len() == 0 {
        None
    } else if edit_error(edits[0], bytes) is Some {
        edit_error(edits[0], bytes)
    } else {
        first_edit_error(edits.skip(1), bytes)
    }
}

/// The error of the first two neighbouring replacements that overlap.
pub open spec fn first_overlap(list: Seq<Replacement>) -> Option<SourceError>
    decreases list.len(),
{
    if list.len() < 2 {
        None
    } else if list[0].end > list[1].start {
        Some(
            SourceError::Overlap {
                first_start: list[0].start as usize,
                first_end: list[0].end as usize,
                second_start: list[1].start as usize,
                second_end: list[1].end as usize,
            },
        )
    } else {
        first_overlap(list.skip(1))
    }
}

/// The replacement leaves the old text as it is.
pub open spec fn is_no_op(item: Replacement, bytes: Seq<u8>) -> bool {
    encode_utf8(item.text) == bytes.subrange(item.start, item.end)
}

/// The length in bytes of a text.
pub open spec fn byte_len(text: Seq<char>) -> int {
    encode_utf8(text).len() as int
}

/// How much longer the text before the end of the splices has become.
pub open spec fn shift_after(list: Seq<TextSplice>) -> int {
    if list.len() == 0 {
        0
    } else {
        list.last().new_end - list.last().old_end
    }
}

/// The splices of the replacements that change the text.
pub open spec fn effective(list: Seq<Replacement>, bytes: Seq<u8>) -> Seq<TextSplice>
    decreases list.len(),
{
    if list.len() == 0 {
        Seq::empty()
    } else {
        let before = effective(list.drop_last(), bytes);
        let item = list.last();
        if is_no_op(item, bytes) {
            before
        } else {
            let new_start = item.start + shift_after(before);
            before.push(
                TextSplice {
                    old_start: item.start,
                    old_end: item.end,
                    new_start,
                    new_end: new_start + byte_len(item.text),
                    text: item.text,
                },
            )
        }
    }
}

/// `next` starts where `last` ends, in both coordinate spaces.
pub open spec fn adjacent(last: TextSplice, next: TextSplice) -> bool {
    last.old_end == next.old_start && last.new_end == next.new_start
}

/// Two adjacent splices as one.
pub open spec fn joined(last: TextSplice, next: TextSplice) -> TextSplice {
    TextSplice {
        old_start: last.old_start,
        old_end: next.old_end,
        new_start: last.new_start,
        new_end: next.new_end,
        text: last.text + next.text,
    }
}

/// The splices with runs of adjacent ones joined.
pub open spec fn merged(list: Seq<TextSplice>) -> Seq<TextSplice>
    decreases list.len(),
{
    if list.len() == 0 {
        Seq::empty()
    } else {
        let before = merged(list.drop_last());
        if before.len() > 0 && adjacent(before.last(), list.last()) {
            before.drop_last().push(joined(before.last(), list.last()))
        } else {
            before.push(list.last())
        }
    }
}

/// Some splice reaches past the addressable text.
pub open spec fn too_long(list: Seq<TextSplice>) -> bool {
    exists|i: int| 0 <= i < list.len() && #[trigger] list[i].new_end > isize::MAX
}

/// What a batch of edits normalizes to: its merged splices, or why it is
/// refused.
pub open spec fn normalized(base: Option<Seq<u8>>, edits: Seq<SourceEdit>) -> Result<
    Seq<TextSplice>,
    SourceError,
> {
    if edits.len() == 0 {
        Ok(Seq::empty())
    } else if base is None {
        Err(SourceError::Unopened)
    } else {
        let bytes = base->Some_0;
        let list = replacements(ordered_edits(edits));
        if first_edit_error(edits, bytes) is Some {
            Err(first_edit_error(edits, bytes)->Some_0)
        } else if first_overlap(list) is Some {
            Err(first_overlap(list)->Some_0)
        } else if too_long(effective(list, bytes)) {
            Err(SourceError::Overflow)
        } else {
            Ok(merged(effective(list, bytes)))
        }
    }
}

/// A validated, ordered set of splices for one document plus counters.
#[derive(Debug)]
pub struct NormalizedBatch {
    pub inserted: Vec<String>,
    pub splices: Vec<SourceSplice>,
    pub validated_operations: u64,
    pub effective_splices: u64,
    pub bytes_removed: u64,
    pub bytes_inserted: u64,
}

/// The splices paired with their texts.
pub open spec fn text_splices(splices: Seq<SourceSplice>, inserted: Seq<String>) -> Seq<TextSplice> {
    Seq::new(
        splices.len(),
        |i: int|
            TextSplice {
                old_start: splices[i].old_range.start as int,
                old_end: splices[i].old_range.end as int,
                new_start: splices[i].new_range.start as int,
                new_end: splices[i].new_range.end as int,
                text: inserted[i]@,
            },
    )
}

/// Bytes that the splices take out.
pub open spec fn removed_total(list: Seq<TextSplice>) -> int
    decreases list.len(),
{
    if list.len() == 0 {
        0
    } else {
        removed_total(list.drop_last()) + (list.last().old_end - list.last().old_start)
    }
}

/// Bytes that the splices put in.
pub open spec fn inserted_total(list: Seq<TextSplice>) -> int
    decreases list.len(),
{
    if list.len() == 0 {
        0
    } else {
        inserted_total(list.drop_last()) + byte_len(list.last().text)
    }
}

/// The `i`-th splice follows the one before it, lies inside `old_len` bytes,
/// and has the new coordinates that the texts before it give.
pub open spec fn in_place(list: Seq<TextSplice>, i: int, old_len: int) -> bool {
    let before = list.take(i);
    &&& 0 <= list[i].old_start
    &&& (if i == 0 {
        0
    } else {
        list[i - 1].old_end
    }) <= list[i].old_start <= list[i].old_end <= old_len
    &&& list[i].new_start == list[i].old_start + shift_after(before)
    &&& list[i].new_end == list[i].new_start + byte_len(list[i].text)
}

/// The splices lie in order, apart from each other, inside `old_len` bytes.
pub open spec fn in_order(list: Seq<TextSplice>, old_len: int) -> bool {
    forall|i: int| 0 <= i < list.len() ==> #[trigger] in_place(list, i, old_len)
}

/// Replaces each splice's old bytes by its text.
pub open spec fn spliced(bytes: Seq<u8>, list: Seq<TextSplice>) -> Seq<u8>
    decreases list.len(),
{
    if list.len() == 0 {
        bytes
    } else {
        let last = list.last();
        spliced(bytes.take(last.old_start), list.drop_last()) + encode_utf8(last.text)
            + bytes.skip(last.old_end)
    }
}

/// Replaces each replacement's bytes by its text.
pub open spec fn replaced(bytes: Seq<u8>, list: Seq<Replacement>) -> Seq<u8>
    decreases list.len(),
{
    if list.len() == 0 {
        bytes
    } else {
        let last = list.last();
        replaced(bytes.take(last.start), list.drop_last()) + encode_utf8(last.text)
            + bytes.skip(last.end)
    }
}

/// The replacements lie in order, apart from each other, on boundaries of
/// `bytes`.
pub open spec fn well_placed(list: Seq<Replacement>, bytes: Seq<u8>) -> bool {
    &&& forall|i: int|
        0 <= i < list.len() ==> 0 <= (#[trigger] list[i]).start <= list[i].end <= bytes.len()
            && is_char_boundary(bytes, list[i].start) && is_char_boundary(bytes, list[i].end)
    &&& forall|i: int, j: int|
        0 <= i < j < list.len() ==> (#[trigger] list[i]).end <= (#[trigger] list[j]).start
}

// ---------------------------------------------------------------------------
// Facts about the normal form

/// A sequence ends in one element more than its prefix.
proof fn lemma_take_push<T>(list: Seq<T>, i: int)
    requires
        0 <= i < list.len(),
    ensures
        list.take(i + 1).drop_last() == list.take(i),
        list.take(i + 1).last() == list[i],
{
    assert(list.take(i + 1).drop_last() =~= list.take(i));
}

/// Two texts with one encoding are one text.
pub proof fn lemma_encode_injective(a: Seq<char>, b: Seq<char>)
    requires
        encode_utf8(a) == encode_utf8(b),
    ensures
        a == b,
{
    encode_utf8_decode_utf8(a);
    encode_utf8_decode_utf8(b);
}

/// A boundary lies inside the text.
pub proof fn lemma_boundary_in_range(bytes: Seq<u8>, at: int)
    requires
        valid_utf8(bytes),
        is_char_boundary(bytes, at),
    ensures
        0 <= at <= bytes.len(),
{
}

/// Putting one more splice after splices in order keeps them in order.
pub proof fn lemma_in_order_push(list: Seq<TextSplice>, item: TextSplice, old_len: int)
    requires
        in_order(list, old_len),
        (if list.len() == 0 {
            0
        } else {
            list.last().old_end
        }) <= item.old_start <= item.old_end <= old_len,
        item.new_start == item.old_start + shift_after(list),
        item.new_end == item.new_start + byte_len(item.text),
    ensures
        in_order(list.push(item), old_len),
{
    let next = list.push(item);
    if list.len() > 0 {
        assert(in_place(list, list.len() - 1, old_len));
    }
    assert forall|i: int| 0 <= i < next.len() implies #[trigger] in_place(next, i, old_len) by {
        if i < list.len() {
            assert(in_place(list, i, old_len));
            assert(next.take(i) =~= list.take(i));
        } else {
            assert(next.take(i) =~= list);
        }
    }
}

/// A prefix of splices in order is in order, also against the text before the
/// next one.
pub proof fn lemma_in_order_prefix(list: Seq<TextSplice>, old_len: int)
    requires
        in_order(list, old_len),
        list.len() > 0,
    ensures
        in_order(list.drop_last(), old_len),
        in_order(list.drop_last(), list.last().old_start),
    decreases list.len(),
{
    let before = list.drop_last();
    assert(in_place(list, list.len() - 1, old_len));
    assert forall|i: int| 0 <= i < before.len() implies #[trigger] in_place(
        before,
        i,
        old_len,
    ) by {
        assert(in_place(list, i, old_len));
        assert(before.take(i) =~= list.take(i));
    }
    assert forall|i: int| 0 <= i < before.len() implies #[trigger] in_place(
        before,
        i,
        list.last().old_start,
    ) by {
        assert(in_place(before, i, old_len));
        lemma_in_order_starts(list, i, list.len() - 1, old_len);
    }
}

/// Splices in order end before later ones start.
pub proof fn lemma_in_order_starts(list: Seq<TextSplice>, i: int, j: int, old_len: int)
    requires
        in_order(list, old_len),
        0 <= i < j < list.len(),
    ensures
        list[i].old_end <= list[j].old_start,
    decreases j - i,
{
    assert(in_place(list, j, old_len));
    if i < j - 1 {
        lemma_in_order_starts(list, i, j - 1, old_len);
        assert(in_place(list, j - 1, old_len));
    }
}

/// Splices in order that end by `at` do not reach the text from `at` on.
pub proof fn lemma_spliced_prefix(bytes: Seq<u8>, list: Seq<TextSplice>, at: int)
    requires
        in_order(list, at),
        0 <= at <= bytes.len(),
    ensures
        spliced(bytes, list) == spliced(bytes.take(at), list) + bytes.skip(at),
{
    if list.len() == 0 {
        assert(bytes =~= bytes.take(at) + bytes.skip(at));
    } else {
        let last = list.last();
        assert(in_place(list, list.len() - 1, at));
        assert(bytes.take(at).take(last.old_start) =~= bytes.take(last.old_start));
        assert(bytes.skip(last.old_end) =~= bytes.take(at).skip(last.old_end) + bytes.skip(at));
        let head = spliced(bytes.take(last.old_start), list.drop_last());
        assert(head + encode_utf8(last.text) + (bytes.take(at).skip(last.old_end) + bytes.skip(at))
            =~= head + encode_utf8(last.text) + bytes.take(at).skip(last.old_end) + bytes.skip(at));
    }
}

/// The length of the text that splices in order give.
pub proof fn lemma_spliced_len(bytes: Seq<u8>, list: Seq<TextSplice>)
    requires
        in_order(list, bytes.len() as int),
    ensures
        spliced(bytes, list).len() == bytes.len() + shift_after(list),
    decreases list.len(),
{
    if list.len() > 0 {
        let last = list.last();
        let before = list.drop_last();
        assert(in_place(list, list.len() - 1, bytes.len() as int));
        lemma_in_order_prefix(list, bytes.len() as int);
        assert(list.take(list.len() - 1) =~= before);
        lemma_spliced_len(bytes.take(last.old_start), before);
    }
}

/// The splices of well placed replacements lie in order.
pub proof fn lemma_effective_in_order(list: Seq<Replacement>, bytes: Seq<u8>)
    requires
        well_placed(list, bytes),
    ensures
        in_order(effective(list, bytes), bytes.len() as int),
        list.len() > 0 ==> in_order(effective(list.drop_last(), bytes), list.last().start),
        effective(list, bytes).len() > 0 ==> effective(list, bytes).last().old_end
            <= list.last().end,
    decreases list.len(),
{
    if list.len() > 0 {
        let before = effective(list.drop_last(), bytes);
        assert(well_placed(list.drop_last(), bytes));
        lemma_effective_in_order(list.drop_last(), bytes);
        let item = list.last();
        let start = item.start;
        if list.len() > 1 {
            assert(list.drop_last().last() == list[list.len() - 2]);
            assert(list[list.len() - 2].end <= list[list.len() - 1].start);
        }
        lemma_in_order_narrow(before, bytes.len() as int, start);
        if !is_no_op(item, bytes) {
            lemma_in_order_push(before, effective(list, bytes).last(), bytes.len() as int);
        }
    }
}

/// Splices in order whose last ends by `at` are in order inside `at` bytes.
proof fn lemma_in_order_narrow(list: Seq<TextSplice>, old_len: int, at: int)
    requires
        in_order(list, old_len),
        list.len() > 0 ==> list.last().old_end <= at,
    ensures
        in_order(list, at),
{
    assert forall|i: int| 0 <= i < list.len() implies #[trigger] in_place(list, i, at) by {
        assert(in_place(list, i, old_len));
        assert(in_place(list, list.len() - 1, old_len));
        if i < list.len() - 1 {
            lemma_in_order_starts(list, i, list.len() - 1, old_len);
        }
    }
}

/// Which replacements change the text depends only on the text they cover.
proof fn lemma_effective_prefix(list: Seq<Replacement>, bytes: Seq<u8>, at: int)
    requires
        forall|i: int|
            0 <= i < list.len() ==> 0 <= (#[trigger] list[i]).start <= list[i].end <= at,
        0 <= at <= bytes.len(),
    ensures
        effective(list, bytes.take(at)) == effective(list, bytes),
    decreases list.len(),
{
    if list.len() > 0 {
        lemma_effective_prefix(list.drop_last(), bytes, at);
        let item = list.last();
        assert(list[list.len() - 1] == item);
        assert(bytes.take(at).subrange(item.start, item.end) =~= bytes.subrange(
            item.start,
            item.end,
        ));
    }
}

/// The splices of a batch give the text that all its replacements give:
/// dropping the replacements that change nothing loses nothing.
pub proof fn lemma_effective_text(list: Seq<Replacement>, bytes: Seq<u8>)
    requires
        well_placed(list, bytes),
    ensures
        spliced(bytes, effective(list, bytes)) == replaced(bytes, list),
    decreases list.len(),
{
    if list.len() > 0 {
        let item = list.last();
        let rest = list.drop_last();
        let before = effective(rest, bytes);
        assert(list[list.len() - 1] == item);
        assert forall|i: int| 0 <= i < rest.len() implies (#[trigger] rest[i]).end <= item.start by {
            assert(list[i].end <= list[list.len() - 1].start);
        }
        let short = bytes.take(item.start);
        lemma_effective_in_order(list, bytes);
        lemma_effective_prefix(rest, bytes, item.start);
        lemma_replaced_text_inner(list, bytes);
        if is_no_op(item, bytes) {
            lemma_spliced_prefix(bytes, before, item.start);
            assert(bytes.skip(item.start) =~= bytes.subrange(item.start, item.end) + bytes.skip(
                item.end,
            ));
            assert(replaced(short, rest) + encode_utf8(item.text) + bytes.skip(item.end)
                =~= replaced(short, rest) + bytes.skip(item.start));
        } else {
            assert(effective(list, bytes).drop_last() =~= before);
        }
    }
}

/// The induction step of [`lemma_effective_text`] on the text before the last
/// replacement.
proof fn lemma_replaced_text_inner(list: Seq<Replacement>, bytes: Seq<u8>)
    requires
        well_placed(list, bytes),
        list.len() > 0,
    ensures
        spliced(bytes.take(list.last().start), effective(list.drop_last(), bytes)) == replaced(
            bytes.take(list.last().start),
            list.drop_last(),
        ),
    decreases list.len() - 1,
{
    let item = list.last();
    let rest = list.drop_last();
    let short = bytes.take(item.start);
    assert(list[list.len() - 1] == item);
    if rest.len() > 0 {
        let inner = rest.last();
        let deep = rest.drop_last();
        assert(rest[rest.len() - 1] == inner);
        assert(list[list.len() - 2] == inner);
        assert(inner.end <= item.start);
        assert(well_placed(rest, bytes));
        lemma_replaced_text_inner(rest, bytes);
        lemma_effective_in_order(rest, bytes);
        let before = effective(deep, bytes);
        assert(short.take(inner.start) =~= bytes.take(inner.start));
        if is_no_op(inner, bytes) {
            lemma_spliced_prefix(short, before, inner.start);
            assert(short.skip(inner.start) =~= bytes.subrange(inner.start, inner.end)
                + short.skip(inner.end));
            assert(replaced(short.take(inner.start), deep) + encode_utf8(inner.text)
                + short.skip(inner.end) =~= replaced(short.take(inner.start), deep)
                + short.skip(inner.start));
        } else {
            assert(effective(rest, bytes).drop_last() =~= before);
        }
    }
}

/// Joining adjacent splices keeps them in order and apart.
pub proof fn lemma_merged_in_order(list: Seq<TextSplice>, old_len: int)
    requires
        in_order(list, old_len),
    ensures
        in_order(merged(list), old_len),
        shift_after(merged(list)) == shift_after(list),
        merged(list).len() <= list.len(),
        list.len() > 0 ==> merged(list).len() > 0 && merged(list).last().old_end
            == list.last().old_end && merged(list).last().new_end == list.last().new_end,
        forall|i: int|
            #![trigger merged(list)[i]]
            0 < i < merged(list).len() ==> merged(list)[i - 1].old_end < merged(list)[i].old_start,
    decreases list.len(),
{
    if list.len() > 0 {
        let rest = list.drop_last();
        let item = list.last();
        lemma_in_order_prefix(list, old_len);
        lemma_merged_in_order(rest, old_len);
        let before = merged(rest);
        assert(in_place(list, list.len() - 1, old_len));
        assert(list.take(list.len() - 1) =~= rest);
        if before.len() > 0 && adjacent(before.last(), item) {
            lemma_encode_concat(before.last().text, item.text);
            lemma_in_order_prefix(before, old_len);
            assert(in_place(before, before.len() - 1, old_len));
            assert(before.take(before.len() - 1) =~= before.drop_last());
            lemma_in_order_push(before.drop_last(), joined(before.last(), item), old_len);
        } else {
            lemma_in_order_push(before, item, old_len);
        }
    }
}

/// Joining adjacent splices keeps the text that they give.
pub proof fn lemma_merged_text(bytes: Seq<u8>, list: Seq<TextSplice>)
    requires
        in_order(list, bytes.len() as int),
    ensures
        spliced(bytes, merged(list)) == spliced(bytes, list),
    decreases list.len(),
{
    if list.len() > 0 {
        let rest = list.drop_last();
        let item = list.last();
        let before = merged(rest);
        let short = bytes.take(item.old_start);
        assert(in_place(list, list.len() - 1, bytes.len() as int));
        lemma_in_order_prefix(list, bytes.len() as int);
        lemma_merged_text(short, rest);
        lemma_merged_in_order(rest, bytes.len() as int);
        if before.len() > 0 && adjacent(before.last(), item) {
            let last = before.last();
            assert(in_place(before, before.len() - 1, bytes.len() as int));
            lemma_encode_concat(last.text, item.text);
            assert(short.take(last.old_start) =~= bytes.take(last.old_start));
            assert(short.skip(last.old_end) =~= Seq::<u8>::empty());
            let head = spliced(bytes.take(last.old_start), before.drop_last());
            assert(merged(list).drop_last() =~= before.drop_last());
            assert(head + (encode_utf8(last.text) + encode_utf8(item.text)) + bytes.skip(
                item.old_end,
            ) =~= head + encode_utf8(last.text) + Seq::<u8>::empty() + encode_utf8(item.text)
                + bytes.skip(item.old_end));
        } else {
            assert(merged(list).drop_last() =~= before);
        }
    }
}

// ---------------------------------------------------------------------------
// Normalization

/// A replacement under construction.
struct Repl {
    start: usize,
    end: usize,
    text: String,
}

impl View for Repl {
    type V = Replacement;

    closed spec fn view(&self) -> Replacement {
        Replacement { start: self.start as int, end: self.end as int, text: self.text@ }
    }
}

spec fn repl_views(list: Seq<Repl>) -> Seq<Replacement> {
    list.map_values(|item: Repl| item@)
}

/// The order keys of a batch, sorted.
fn order_ops(edits: &[SourceEdit]) -> (keys: Vec<OpKey>)
    ensures
        keys@ == ascending(op_keys(edits@)),
        keys@.len() == edits@.len(),
        forall|i: int| 0 <= i < keys@.len() ==> (#[trigger] keys@[i]).ordinal < edits@.len(),
{
    let mut keys: Vec<OpKey> = Vec::new();
    let mut index: usize = 0;
    while index < edits.len()
        invariant
            index <= edits.len(),
            keys@ == op_keys(edits@).take(index as int),
        decreases edits.len() - index,
    {
        let edit = &edits[index];
        let kind: u8 = match edit {
            SourceEdit::Insert { .. } => 0,
            SourceEdit::Delete { .. } => 1,
        };
        keys.push(OpKey { at: edit.span().range.start, kind, ordinal: index });
        index += 1;
        assert(keys@ =~= op_keys(edits@).take(index as int));
    }
    assert(op_keys(edits@).take(edits@.len() as int) =~= op_keys(edits@));
    let out = sorted(&keys);
    proof {
        broadcast use vstd::seq_lib::group_to_multiset_ensures;

        assert forall|i: int| 0 <= i < out@.len() implies (#[trigger] out@[i]).ordinal
            < edits@.len() by {
            assert(out@.contains(out@[i]));
            assert(out@.to_multiset().count(out@[i]) > 0);
            assert(keys@.contains(out@[i]));
        }
    }
    out
}

/// Joined text grows by the text of one more operation.
proof fn lemma_joined_step(ops: Seq<SourceEdit>, i: int)
    requires
        0 <= i < ops.len(),
    ensures
        joined_text(ops.take(i + 1)) == joined_text(ops.take(i)) + ops[i].text(),
{
    lemma_take_push(ops, i);
}

/// Merges ordered operations into replacements.
fn collect_replacements(edits: &[SourceEdit], keys: &Vec<OpKey>) -> (out: Vec<Repl>)
    requires
        keys@ == ascending(op_keys(edits@)),
        forall|i: int| 0 <= i < keys@.len() ==> (#[trigger] keys@[i]).ordinal < edits@.len(),
    ensures
        repl_views(out@) == replacements(ordered_edits(edits@)),
{
    let ghost ops = ordered_edits(edits@);
    let mut out: Vec<Repl> = Vec::new();
    let mut index: usize = 0;
    assert(ops.skip(0) =~= ops);
    assert(repl_views(out@) + replacements(ops) =~= replacements(ops));
    while index < keys.len()
        invariant
            index <= keys.len(),
            keys@.len() == ops.len(),
            forall|i: int|
                0 <= i < keys@.len() ==> (#[trigger] keys@[i]).ordinal < edits@.len() && ops[i]
                    == edits@[keys@[i].ordinal as int],
            repl_views(out@) + replacements(ops.skip(index as int)) == replacements(ops),
        decreases keys.len() - index,
    {
        let ghost rest = ops.skip(index as int);
        let at: usize = edits[keys[index].ordinal].span().range.start;
        let mut text = String::new();
        let mut next: usize = index;
        let mut open = true;
        assert(rest.take(0) =~= Seq::<SourceEdit>::empty());
        while open && next < keys.len()
            invariant_except_break
                open,
            invariant
                index <= next <= keys.len(),
                keys@.len() == ops.len(),
                rest == ops.skip(index as int),
                forall|i: int|
                    0 <= i < keys@.len() ==> (#[trigger] keys@[i]).ordinal < edits@.len() && ops[i]
                        == edits@[keys@[i].ordinal as int],
                text@ == joined_text(rest.take(next - index)),
                insert_run(rest, at as int) == (next - index) + insert_run(
                    ops.skip(next as int),
                    at as int,
                ),
            ensures
                insert_run(rest, at as int) == next - index,
            decreases keys.len() - next,
        {
            let edit = &edits[keys[next].ordinal];
            assert(ops.skip(next as int)[0] == ops[next as int]);
            match edit {
                SourceEdit::Insert { key, value } => {
                    if key.range.start == at {
                        proof {
                            assert(ops.skip(next as int).skip(1) =~= ops.skip(next as int + 1));
                            assert(rest[next - index] == ops[next as int]);
                            lemma_joined_step(rest, next - index);
                        }
                        text.append(value.as_str());
                        next += 1;
                    } else {
                        break;
                    }
                },
                SourceEdit::Delete { .. } => {
                    break;
                },
            }
        }
        let ghost before = repl_views(out@);
        let ghost run = next - index;
        let mut end: usize = at;
        let mut taken = false;
        assert(rest[0] == ops[index as int]);
        assert(ops[index as int].at() == at);
        if next < keys.len() {
            assert(rest[run] == ops[next as int]);
            match &edits[keys[next].ordinal] {
                SourceEdit::Delete { key } => {
                    if key.range.start == at {
                        end = key.range.end;
                        taken = true;
                    }
                },
                SourceEdit::Insert { .. } => {},
            }
        }
        let item = Repl { start: at, end, text };
        let ghost view = item@;
        out.push(item);
        assert(repl_views(out@) =~= before.push(view));
        proof {
            if !taken && run == 0 {
                assert(rest[0] is Delete);
            }
        }
        if taken {
            assert(rest.skip(run + 1) =~= ops.skip(next as int + 1));
            assert(replacements(rest) == seq![view] + replacements(rest.skip(run + 1)));
            next += 1;
        } else {
            assert(rest.skip(run) =~= ops.skip(next as int));
            assert(replacements(rest) == seq![view] + replacements(rest.skip(run)));
        }
        assert(before + (seq![view] + replacements(ops.skip(next as int))) =~= before.push(view)
            + replacements(ops.skip(next as int)));
        index = next;
    }
    assert(ops.skip(keys@.len() as int) =~= Seq::<SourceEdit>::empty());
    assert(repl_views(out@) + Seq::<Replacement>::empty() =~= repl_views(out@));
    out
}

/// Validates one edit against the text.
fn check_edit(edit: &SourceEdit, base: &ropey::Rope) -> (r: Option<SourceError>)
    ensures
        r == edit_error(*edit, rope_bytes(*base)),
{
    match edit {
        SourceEdit::Insert { key, .. } => {
            if is_rope_char_boundary(base, key.range.start) {
                None
            } else {
                Some(SourceError::InsertOutOfBounds { at: key.range.start })
            }
        },
        SourceEdit::Delete { key } => {
            let start: usize = key.range.start;
            let end: usize = key.range.end;
            if start <= end && is_rope_char_boundary(base, start) && is_rope_char_boundary(
                base,
                end,
            ) {
                None
            } else {
                Some(SourceError::InvalidDelete { start, end })
            }
        },
    }
}

/// Edits without an error are each valid.
proof fn lemma_edits_valid(edits: Seq<SourceEdit>, bytes: Seq<u8>)
    requires
        first_edit_error(edits, bytes) is None,
    ensures
        forall|i: int| 0 <= i < edits.len() ==> edit_error(#[trigger] edits[i], bytes) is None,
    decreases edits.len(),
{
    if edits.len() > 0 {
        lemma_edits_valid(edits.skip(1), bytes);
        assert forall|i: int| 0 <= i < edits.len() implies edit_error(
            #[trigger] edits[i],
            bytes,
        ) is None by {
            if i > 0 {
                assert(edits.skip(1)[i - 1] == edits[i]);
            }
        }
    }
}

/// The number of leading insertions is bounded by the operations there are.
pub proof fn lemma_insert_run_bound(ops: Seq<SourceEdit>, at: int)
    ensures
        insert_run(ops, at) <= ops.len(),
    decreases ops.len(),
{
    if ops.len() > 0 {
        lemma_insert_run_bound(ops.skip(1), at);
    }
}

/// Replacements of valid operations lie on boundaries of the text.
proof fn lemma_replacements_valid(ops: Seq<SourceEdit>, bytes: Seq<u8>)
    requires
        valid_utf8(bytes),
        forall|i: int| 0 <= i < ops.len() ==> edit_error(#[trigger] ops[i], bytes) is None,
    ensures
        forall|i: int|
            0 <= i < replacements(ops).len() ==> 0 <= (#[trigger] replacements(ops)[i]).start
                <= replacements(ops)[i].end <= bytes.len() && is_char_boundary(
                bytes,
                replacements(ops)[i].start,
            ) && is_char_boundary(bytes, replacements(ops)[i].end),
    decreases ops.len(),
{
    if ops.len() > 0 {
        let at = ops[0].at();
        let run = insert_run(ops, at) as int;
        lemma_insert_run_bound(ops, at);
        assert(edit_error(ops[0], bytes) is None);
        let next = if run < ops.len() && ops[run] is Delete && ops[run].at() == at {
            run + 1
        } else {
            run
        };
        if run == 0 {
            assert(ops[0] is Delete);
        }
        if next == run + 1 {
            assert(edit_error(ops[run], bytes) is None);
        }
        let rest = ops.skip(next);
        assert forall|i: int| 0 <= i < rest.len() implies edit_error(
            #[trigger] rest[i],
            bytes,
        ) is None by {
            assert(rest[i] == ops[next + i]);
        }
        lemma_replacements_valid(rest, bytes);
        let list = replacements(ops);
        assert forall|i: int| 0 <= i < list.len() implies 0 <= (#[trigger] list[i]).start
            <= list[i].end <= bytes.len() && is_char_boundary(bytes, list[i].start)
            && is_char_boundary(bytes, list[i].end) by {
            if i == 0 {
                lemma_boundary_in_range(bytes, at);
                lemma_boundary_in_range(bytes, list[0].end);
            } else {
                assert(list[i] == replacements(rest)[i - 1]);
            }
        }
    }
}

/// Neighbours that do not overlap leave all replacements apart.
proof fn lemma_no_overlap(list: Seq<Replacement>, i: int, j: int)
    requires
        first_overlap(list) is None,
        forall|k: int| 0 <= k < list.len() ==> (#[trigger] list[k]).start <= list[k].end,
        0 <= i < j < list.len(),
    ensures
        list[i].end <= list[j].start,
    decreases list.len(), j,
{
    if i > 0 {
        assert forall|k: int| 0 <= k < list.skip(1).len() implies (#[trigger] list.skip(
            1,
        )[k]).start <= list.skip(1)[k].end by {
            assert(list.skip(1)[k] == list[k + 1]);
        }
        lemma_no_overlap(list.skip(1), i - 1, j - 1);
    } else if j > 1 {
        assert forall|k: int| 0 <= k < list.skip(1).len() implies (#[trigger] list.skip(
            1,
        )[k]).start <= list.skip(1)[k].end by {
            assert(list.skip(1)[k] == list[k + 1]);
        }
        lemma_no_overlap(list.skip(1), 0, j - 1);
        assert(list.skip(1)[0] == list[1]);
        assert(list.skip(1)[j - 1] == list[j]);
        assert(list[0].end <= list[1].start);
        assert(list[1].start <= list[1].end);
    }
}

/// The replacements of an accepted batch are well placed.
pub proof fn lemma_batch_well_placed(edits: Seq<SourceEdit>, bytes: Seq<u8>)
    requires
        valid_utf8(bytes),
        edits.len() <= usize::MAX,
        first_edit_error(edits, bytes) is None,
        first_overlap(replacements(ordered_edits(edits))) is None,
    ensures
        well_placed(replacements(ordered_edits(edits)), bytes),
{
    broadcast use vstd::seq_lib::group_to_multiset_ensures;

    lemma_edits_valid(edits, bytes);
    let ops = ordered_edits(edits);
    let keys = op_keys(edits);
    OpKey::lemma_total();
    keys.lemma_sort_by_ensures(order::<OpKey>());
    assert forall|i: int| 0 <= i < ops.len() implies edit_error(#[trigger] ops[i], bytes) is None by {
        let key = ascending(keys)[i];
        assert(ascending(keys).contains(key));
        assert(ascending(keys).to_multiset().count(key) > 0);
        assert(keys.contains(key));
    }
    lemma_replacements_valid(ops, bytes);
    let list = replacements(ops);
    assert forall|i: int, j: int| 0 <= i < j < list.len() implies (#[trigger] list[i]).end <= (
    #[trigger] list[j]).start by {
        lemma_no_overlap(list, i, j);
    }
}

/// Looks for two neighbouring replacements that overlap.
fn find_overlap(list: &Vec<Repl>) -> (r: Option<SourceError>)
    ensures
        r == first_overlap(repl_views(list@)),
{
    let ghost views = repl_views(list@);
    let mut index: usize = 0;
    assert(views.skip(0) =~= views);
    while index + 1 < list.len()
        invariant
            views == repl_views(list@),
            index <= list.len(),
            list.len() == 0 || index < list.len(),
            first_overlap(views) == first_overlap(views.skip(index as int)),
        decreases list.len() - index,
    {
        let first = &list[index];
        let second = &list[index + 1];
        assert(views.skip(index as int)[0] == first@);
        assert(views.skip(index as int)[1] == second@);
        if first.end > second.start {
            return Some(
                SourceError::Overlap {
                    first_start: first.start,
                    first_end: first.end,
                    second_start: second.start,
                    second_end: second.end,
                },
            );
        }
        assert(views.skip(index as int).skip(1) =~= views.skip(index as int + 1));
        index += 1;
    }
    None
}

/// Splices paired with their texts, one more pair.
proof fn lemma_text_splices_push(
    splices: Seq<SourceSplice>,
    inserted: Seq<String>,
    splice: SourceSplice,
    text: String,
)
    requires
        splices.len() == inserted.len(),
    ensures
        text_splices(splices.push(splice), inserted.push(text)) == text_splices(
            splices,
            inserted,
        ).push(
            TextSplice {
                old_start: splice.old_range.start as int,
                old_end: splice.old_range.end as int,
                new_start: splice.new_range.start as int,
                new_end: splice.new_range.end as int,
                text: text@,
            },
        ),
{
    assert(text_splices(splices.push(splice), inserted.push(text)) =~= text_splices(
        splices,
        inserted,
    ).push(
        TextSplice {
            old_start: splice.old_range.start as int,
            old_end: splice.old_range.end as int,
            new_start: splice.new_range.start as int,
            new_end: splice.new_range.end as int,
            text: text@,
        },
    ));
}

/// The splices that change the text, with their texts and byte totals.
struct Effective {
    splices: Vec<SourceSplice>,
    inserted: Vec<String>,
    removed: u64,
    added: u64,
}

/// Computes new ranges with a running shift and drops what changes nothing.
fn effective_splices(base: &ropey::Rope, list: Vec<Repl>) -> (r: Option<Effective>)
    requires
        well_placed(repl_views(list@), rope_bytes(*base)),
    ensures
        r is None <==> too_long(effective(repl_views(list@), rope_bytes(*base))),
        r is Some ==> {
            let out = r->Some_0;
            &&& out.splices@.len() == out.inserted@.len()
            &&& text_splices(out.splices@, out.inserted@) == effective(
                repl_views(list@),
                rope_bytes(*base),
            )
            &&& out.removed == removed_total(effective(repl_views(list@), rope_bytes(*base)))
            &&& out.added == inserted_total(effective(repl_views(list@), rope_bytes(*base)))
        },
{
    let ghost views = repl_views(list@);
    let ghost bytes = rope_bytes(*base);
    let mut splices: Vec<SourceSplice> = Vec::new();
    let mut inserted: Vec<String> = Vec::new();
    let mut removed: u64 = 0;
    let mut added: u64 = 0;
    let mut shift: i128 = 0;
    let mut index: usize = 0;
    assert(views.take(0) =~= Seq::<Replacement>::empty());
    assert(text_splices(splices@, inserted@) =~= Seq::<TextSplice>::empty());
    let len: usize = rope_len_bytes(base);
    while index < list.len()
        invariant
            index <= list.len(),
            views == repl_views(list@),
            bytes == rope_bytes(*base),
            bytes.len() == len,
            well_placed(views, bytes),
            splices@.len() == inserted@.len(),
            text_splices(splices@, inserted@) == effective(views.take(index as int), bytes),
            shift == shift_after(effective(views.take(index as int), bytes)),
            removed == removed_total(effective(views.take(index as int), bytes)),
            added == inserted_total(effective(views.take(index as int), bytes)),
            shift == added - removed,
            removed <= len,
            index > 0 ==> removed <= views[index as int - 1].end,
            added <= isize::MAX + 0,
            !too_long(effective(views.take(index as int), bytes)),
        decreases list.len() - index,
    {
        let item = &list[index];
        let ghost before = effective(views.take(index as int), bytes);
        proof {
            lemma_take_push(views, index as int);
            assert(views[index as int] == item@);
            if index > 0 {
                assert(views[index as int - 1].end <= views[index as int].start);
            }
        }
        let old = rope_byte_slice(base, item.start, item.end);
        proof {
            if old@ != item.text@ && encode_utf8(old@) == encode_utf8(item.text@) {
                lemma_encode_injective(old@, item.text@);
            }
        }
        if !(old == item.text) {
            let size: usize = item.text.as_str().as_bytes().len();
            let new_start: i128 = item.start as i128 + shift;
            let new_end: i128 = new_start + size as i128;
            let ghost pushed = TextSplice {
                old_start: item.start as int,
                old_end: item.end as int,
                new_start: new_start as int,
                new_end: new_end as int,
                text: item.text@,
            };
            assert(effective(views.take(index as int + 1), bytes) == before.push(pushed));
            if new_end > isize::MAX as i128 {
                proof {
                    lemma_too_long_kept(views, index as int + 1, bytes, before.len() as int);
                    assert(too_long(effective(views, bytes)));
                }
                return None;
            }
            let splice = SourceSplice {
                old_range: item.start..item.end,
                new_range: (new_start as usize)..(new_end as usize),
            };
            let text = item.text.clone();
            proof {
                lemma_text_splices_push(splices@, inserted@, splice, text);
                assert(before.push(pushed).drop_last() =~= before);
                assert forall|i: int| 0 <= i < before.push(pushed).len() implies #[trigger]
                    before.push(pushed)[i].new_end <= isize::MAX by {
                    if i < before.len() {
                        assert(before.push(pushed)[i] == before[i]);
                    }
                }
            }
            splices.push(splice);
            inserted.push(text);
            removed = removed + (item.end - item.start) as u64;
            added = added + size as u64;
            shift = shift + size as i128 - (item.end - item.start) as i128;
        }
        index += 1;
    }
    assert(views.take(views.len() as int) =~= views);
    Some(Effective { splices, inserted, removed, added })
}

/// Later replacements do not take back a splice that is too long.
proof fn lemma_too_long_kept(list: Seq<Replacement>, i: int, bytes: Seq<u8>, at: int)
    requires
        0 <= i <= list.len(),
        0 <= at < effective(list.take(i), bytes).len(),
        effective(list.take(i), bytes)[at].new_end > isize::MAX,
    ensures
        too_long(effective(list, bytes)),
    decreases list.len() - i,
{
    if i == list.len() {
        assert(list.take(i) =~= list);
        assert(effective(list, bytes)[at].new_end > isize::MAX);
    } else {
        lemma_take_push(list, i);
        assert(effective(list.take(i + 1), bytes)[at] == effective(list.take(i), bytes)[at]);
        lemma_too_long_kept(list, i + 1, bytes, at);
    }
}

/// Joins adjacent splices.
fn merge_adjacent(splices: Vec<SourceSplice>, inserted: Vec<String>) -> (r: (
    Vec<SourceSplice>,
    Vec<String>,
))
    requires
        splices@.len() == inserted@.len(),
    ensures
        r.0@.len() == r.1@.len(),
        text_splices(r.0@, r.1@) == merged(text_splices(splices@, inserted@)),
{
    let ghost list = text_splices(splices@, inserted@);
    let mut out: Vec<SourceSplice> = Vec::new();
    let mut texts: Vec<String> = Vec::new();
    let mut index: usize = 0;
    assert(list.take(0) =~= Seq::<TextSplice>::empty());
    assert(text_splices(out@, texts@) =~= Seq::<TextSplice>::empty());
    while index < splices.len()
        invariant
            index <= splices.len(),
            splices@.len() == inserted@.len(),
            list == text_splices(splices@, inserted@),
            out@.len() == texts@.len(),
            text_splices(out@, texts@) == merged(list.take(index as int)),
        decreases splices.len() - index,
    {
        let splice = &splices[index];
        let ghost before = text_splices(out@, texts@);
        proof {
            lemma_take_push(list, index as int);
        }
        let joins = if out.len() > 0 {
            let last = &out[out.len() - 1];
            last.old_range.end == splice.old_range.start && last.new_range.end
                == splice.new_range.start
        } else {
            false
        };
        if joins {
            let last = out.pop().unwrap();
            let mut text = texts.pop().unwrap();
            let ghost first = before.last();
            assert(before.drop_last() =~= text_splices(out@, texts@));
            text.append(inserted[index].as_str());
            let both = SourceSplice {
                old_range: last.old_range.start..splice.old_range.end,
                new_range: last.new_range.start..splice.new_range.end,
            };
            proof {
                lemma_text_splices_push(out@, texts@, both, text);
                assert(joined(first, list[index as int]).text =~= text@);
            }
            out.push(both);
            texts.push(text);
        } else {
            let text = inserted[index].clone();
            let copy = splice.clone();
            proof {
                lemma_text_splices_push(out@, texts@, copy, text);
            }
            out.push(copy);
            texts.push(text);
        }
        index += 1;
    }
    assert(list.take(list.len() as int) =~= list);
    (out, texts)
}

/// Validates and normalizes editor operations against the current text:
/// bounds and UTF-8 boundaries, stable ordering, overlap rejection, dropping of
/// exact equals, and joining of adjacent splices.
pub fn normalize_edits(base: Option<&ropey::Rope>, edits: &[SourceEdit]) -> (r: Result<
    NormalizedBatch,
    SourceError,
>)
    ensures
        ({
            let bytes = match base {
                Some(rope) => Some(rope_bytes(*rope)),
                None => None,
            };
            match r {
                Ok(batch) => {
                    &&& normalized(bytes, edits@) is Ok
                    &&& batch.splices@.len() == batch.inserted@.len()
                    &&& text_splices(batch.splices@, batch.inserted@) == normalized(
                        bytes,
                        edits@,
                    )->Ok_0
                    &&& batch.validated_operations == edits@.len()
                    &&& batch.effective_splices == batch.splices@.len()
                    &&& batch.bytes_removed == removed_total(normalized(bytes, edits@)->Ok_0)
                    &&& batch.bytes_inserted == inserted_total(normalized(bytes, edits@)->Ok_0)
                },
                Err(error) => normalized(bytes, edits@) == Err::<Seq<TextSplice>, SourceError>(
                    error,
                ),
            }
        }),
{
    let count: u64 = edits.len() as u64;
    if edits.len() == 0 {
        let batch = NormalizedBatch {
            inserted: Vec::new(),
            splices: Vec::new(),
            validated_operations: count,
            effective_splices: 0,
            bytes_removed: 0,
            bytes_inserted: 0,
        };
        assert(text_splices(batch.splices@, batch.inserted@) =~= Seq::<TextSplice>::empty());
        return Ok(batch);
    }
    let rope = match base {
        Some(rope) => rope,
        None => {
            return Err(SourceError::Unopened);
        },
    };
    let ghost bytes = rope_bytes(*rope);
    let mut index: usize = 0;
    assert(edits@.skip(0) =~= edits@);
    while index < edits.len()
        invariant
            index <= edits.len(),
            edits.len() > 0,
            base == Some(rope),
            bytes == rope_bytes(*rope),
            first_edit_error(edits@, bytes) == first_edit_error(edits@.skip(index as int), bytes),
        decreases edits.len() - index,
    {
        assert(edits@.skip(index as int)[0] == edits@[index as int]);
        match check_edit(&edits[index], rope) {
            Some(error) => {
                return Err(error);
            },
            None => {},
        }
        assert(edits@.skip(index as int).skip(1) =~= edits@.skip(index as int + 1));
        index += 1;
    }
    assert(first_edit_error(edits@, bytes) is None);
    let keys = order_ops(edits);
    let list = collect_replacements(edits, &keys);
    match find_overlap(&list) {
        Some(error) => {
            return Err(error);
        },
        None => {},
    }
    proof {
        encode_utf8_valid_utf8(crate::text::rope_chars(*rope));
        lemma_batch_well_placed(edits@, bytes);
    }
    let ghost views = repl_views(list@);
    match effective_splices(rope, list) {
        None => Err(SourceError::Overflow),
        Some(out) => {
            let (splices, inserted) = merge_adjacent(out.splices, out.inserted);
            proof {
                lemma_effective_in_order(views, bytes);
                lemma_merged_totals(effective(views, bytes));
            }
            let effective_splices: u64 = splices.len() as u64;
            Ok(
                NormalizedBatch {
                    inserted,
                    splices,
                    validated_operations: count,
                    effective_splices,
                    bytes_removed: out.removed,
                    bytes_inserted: out.added,
                },
            )
        },
    }
}

/// Joining adjacent splices keeps the bytes taken out and put in.
pub proof fn lemma_merged_totals(list: Seq<TextSplice>)
    ensures
        removed_total(merged(list)) == removed_total(list),
        inserted_total(merged(list)) == inserted_total(list),
    decreases list.len(),
{
    if list.len() > 0 {
        let before = merged(list.drop_last());
        let item = list.last();
        lemma_merged_totals(list.drop_last());
        if before.len() > 0 && adjacent(before.last(), item) {
            lemma_encode_concat(before.last().text, item.text);
            assert(merged(list).drop_last() =~= before.drop_last());
        } else {
            assert(merged(list).drop_last() =~= before);
        }
    }
}

// ---------------------------------------------------------------------------
// Applying splices

/// Every splice starts and ends on a boundary of the text.
pub open spec fn on_boundaries(splices: Seq<SourceSplice>, bytes: Seq<u8>) -> bool {
    forall|i: int|
        0 <= i < splices.len() ==> is_char_boundary(
            bytes,
            (#[trigger] splices[i]).old_range.start as int,
        ) && is_char_boundary(bytes, splices[i].old_range.end as int)
}

/// The old ranges lie in order, apart from each other.
pub open spec fn apart(splices: Seq<SourceSplice>) -> bool {
    &&& forall|i: int|
        0 <= i < splices.len() ==> (#[trigger] splices[i]).old_range.start
            <= splices[i].old_range.end
    &&& forall|i: int, j: int|
        0 <= i < j < splices.len() ==> (#[trigger] splices[i]).old_range.end <= (
        #[trigger] splices[j]).old_range.start
}

/// Applies splices to a copy of the text, last first, so that the offsets of
/// the earlier ones stay valid.
#[verifier::rlimit(60)]
#[verifier::spinoff_prover]
pub fn apply_splices(base: &ropey::Rope, splices: &[SourceSplice], inserted: &[String]) -> (r:
    Result<ropey::Rope, SourceError>)
    requires
        splices@.len() == inserted@.len(),
        apart(splices@),
        on_boundaries(splices@, rope_bytes(*base)),
    ensures
        r is Ok,
        rope_bytes(r->Ok_0) == spliced(rope_bytes(*base), text_splices(splices@, inserted@)),
{
    let ghost bytes = rope_bytes(*base);
    let ghost list = text_splices(splices@, inserted@);
    let mut rope = rope_clone(base);
    let mut left: usize = splices.len();
    proof {
        encode_utf8_valid_utf8(crate::text::rope_chars(*base));
        assert(list.take(left as int) =~= list);
        assert(bytes.take(bytes.len() as int) =~= bytes);
        assert(bytes.skip(bytes.len() as int) =~= Seq::<u8>::empty());
        assert(bytes + Seq::<u8>::empty() =~= bytes);
        assert(spliced(bytes, list) + Seq::<u8>::empty() =~= spliced(bytes, list));
    }
    let ghost mut stop: int = bytes.len() as int;
    let ghost mut tail: Seq<u8> = Seq::empty();
    while left > 0
        invariant
            left <= splices@.len(),
            splices@.len() == inserted@.len(),
            bytes == rope_bytes(*base),
            valid_utf8(bytes),
            list == text_splices(splices@, inserted@),
            apart(splices@),
            on_boundaries(splices@, bytes),
            0 <= stop <= bytes.len(),
            forall|i: int| 0 <= i < left ==> (#[trigger] splices@[i]).old_range.end <= stop,
            rope_bytes(rope) == bytes.take(stop) + tail,
            forall|at: int|
                0 <= at <= stop ==> #[trigger] is_char_boundary(rope_bytes(rope), at)
                    == is_char_boundary(bytes, at),
            spliced(bytes, list) == spliced(bytes.take(stop), list.take(left as int)) + tail,
        decreases left,
    {
        left = left - 1;
        let splice = &splices[left];
        let start: usize = splice.old_range.start;
        let end: usize = splice.old_range.end;
        let text = inserted[left].as_str();
        let ghost before = rope_bytes(rope);
        assert(splices@[left as int] == *splice);
        assert(is_char_boundary(rope_bytes(rope), start as int));
        assert(is_char_boundary(rope_bytes(rope), end as int));
        rope_replace(&mut rope, start, end, text);
        proof {
            lemma_take_push(list, left as int);
            let piece = encode_utf8(text@);
            let after = bytes.take(stop).skip(end as int);
            assert(before.take(start as int) =~= bytes.take(start as int));
            assert(before.skip(end as int) =~= after + tail);
            assert(bytes.take(stop).take(start as int) =~= bytes.take(start as int));
            assert(rope_bytes(rope) =~= bytes.take(start as int) + (piece + after + tail));
            let head = spliced(bytes.take(start as int), list.take(left as int));
            assert(head + piece + after + tail =~= head + (piece + after + tail));
            tail = piece + after + tail;
            stop = start as int;
        }
    }
    proof {
        assert(list.take(0) =~= Seq::<TextSplice>::empty());
    }
    Ok(rope)
}

/// The splices of an accepted batch can be applied to the text it was made
/// for.
pub proof fn lemma_normalized_applies(bytes: Seq<u8>, edits: Seq<SourceEdit>)
    requires
        valid_utf8(bytes),
        edits.len() <= usize::MAX,
        normalized(Some(bytes), edits) is Ok,
    ensures
        in_order(normalized(Some(bytes), edits)->Ok_0, bytes.len() as int),
        forall|i: int|
            0 <= i < normalized(Some(bytes), edits)->Ok_0.len() ==> is_char_boundary(
                bytes,
                (#[trigger] normalized(Some(bytes), edits)->Ok_0[i]).old_start,
            ) && is_char_boundary(bytes, normalized(Some(bytes), edits)->Ok_0[i].old_end),
        forall|i: int|
            #![trigger normalized(Some(bytes), edits)->Ok_0[i]]
            0 < i < normalized(Some(bytes), edits)->Ok_0.len() ==> normalized(
                Some(bytes),
                edits,
            )->Ok_0[i - 1].old_end < normalized(Some(bytes), edits)->Ok_0[i].old_start,
{
    if edits.len() > 0 {
        let list = replacements(ordered_edits(edits));
        lemma_batch_well_placed(edits, bytes);
        lemma_effective_in_order(list, bytes);
        lemma_effective_boundaries(list, bytes);
        lemma_merged_in_order(effective(list, bytes), bytes.len() as int);
        lemma_merged_boundaries(effective(list, bytes), bytes);
    }
}

proof fn lemma_effective_boundaries(list: Seq<Replacement>, bytes: Seq<u8>)
    requires
        well_placed(list, bytes),
    ensures
        forall|i: int|
            0 <= i < effective(list, bytes).len() ==> is_char_boundary(
                bytes,
                (#[trigger] effective(list, bytes)[i]).old_start,
            ) && is_char_boundary(bytes, effective(list, bytes)[i].old_end),
    decreases list.len(),
{
    if list.len() > 0 {
        assert(well_placed(list.drop_last(), bytes));
        lemma_effective_boundaries(list.drop_last(), bytes);
        assert(list[list.len() - 1] == list.last());
        let before = effective(list.drop_last(), bytes);
        assert forall|i: int| 0 <= i < effective(list, bytes).len() implies is_char_boundary(
            bytes,
            (#[trigger] effective(list, bytes)[i]).old_start,
        ) && is_char_boundary(bytes, effective(list, bytes)[i].old_end) by {
            if i < before.len() {
                assert(is_char_boundary(bytes, before[i].old_start));
            }
        }
    }
}

proof fn lemma_merged_boundaries(list: Seq<TextSplice>, bytes: Seq<u8>)
    requires
        forall|i: int|
            0 <= i < list.len() ==> is_char_boundary(bytes, (#[trigger] list[i]).old_start)
                && is_char_boundary(bytes, list[i].old_end),
    ensures
        forall|i: int|
            0 <= i < merged(list).len() ==> is_char_boundary(
                bytes,
                (#[trigger] merged(list)[i]).old_start,
            ) && is_char_boundary(bytes, merged(list)[i].old_end),
    decreases list.len(),
{
    if list.len() > 0 {
        lemma_merged_boundaries(list.drop_last(), bytes);
        assert(list[list.len() - 1] == list.last());
        let before = merged(list.drop_last());
        assert forall|i: int| 0 <= i < merged(list).len() implies is_char_boundary(
            bytes,
            (#[trigger] merged(list)[i]).old_start,
        ) && is_char_boundary(bytes, merged(list)[i].old_end) by {
            if i < before.len() {
                assert(is_char_boundary(bytes, before[i].old_start));
            }
        }
    }
}

/// Applying the splices of an accepted batch gives the text that its
/// replacements give, all read against the text before the batch.
pub proof fn lemma_normalized_text(bytes: Seq<u8>, edits: Seq<SourceEdit>)
    requires
        valid_utf8(bytes),
        edits.len() <= usize::MAX,
        normalized(Some(bytes), edits) is Ok,
    ensures
        spliced(bytes, normalized(Some(bytes), edits)->Ok_0) == replaced(
            bytes,
            replacements(ordered_edits(edits)),
        ),
{
    if edits.len() > 0 {
        let list = replacements(ordered_edits(edits));
        lemma_batch_well_placed(edits, bytes);
        lemma_effective_in_order(list, bytes);
        lemma_effective_text(list, bytes);
        lemma_merged_text(bytes, effective(list, bytes));
    } else {
        OpKey::lemma_total();
        op_keys(edits).lemma_sort_by_ensures(order::<OpKey>());
        assert(op_keys(edits) =~= Seq::<OpKey>::empty());
        broadcast use vstd::seq_lib::group_to_multiset_ensures;

        assert(ascending(op_keys(edits)).to_multiset().len() == 0);
        assert(ordered_edits(edits) =~= Seq::<SourceEdit>::empty());
    }
}

/// A batch whose replacements all put back what they take out has no splices.
pub proof fn lemma_no_op_batch(bytes: Seq<u8>, edits: Seq<SourceEdit>)
    requires
        normalized(Some(bytes), edits) is Ok,
        forall|i: int|
            0 <= i < replacements(ordered_edits(edits)).len() ==> is_no_op(
                #[trigger] replacements(ordered_edits(edits))[i],
                bytes,
            ),
    ensures
        normalized(Some(bytes), edits)->Ok_0.len() == 0,
{
    lemma_no_op_effective(replacements(ordered_edits(edits)), bytes);
}

proof fn lemma_no_op_effective(list: Seq<Replacement>, bytes: Seq<u8>)
    requires
        forall|i: int| 0 <= i < list.len() ==> is_no_op(#[trigger] list[i], bytes),
    ensures
        effective(list, bytes).len() == 0,
    decreases list.len(),
{
    if list.len() > 0 {
        lemma_no_op_effective(list.drop_last(), bytes);
        assert(list[list.len() - 1] == list.last());
    }
}

} // verus!
