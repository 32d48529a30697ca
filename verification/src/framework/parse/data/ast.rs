//! Syntax records: opaque handles, anchored extents, and the arena that owns
//! the values.

use std::marker::PhantomData;
use vstd::prelude::*;
use vstd::utf8::*;

use crate::store::{GenerationVec, RadixMap};
use crate::utils::{fnv1a, fnv64};

verus! {

/// The index of a syntax record in its arena.
pub type AstId = usize;

/// The entry of a token in its document.
pub type TokenEntryId = usize;

/// The product that a syntax record belongs to.
pub type ProductId = usize;

/// A source extent expressed in stable token-occurrence coordinates.
///
/// `end_at_token_end` distinguishes a real one-token range from a zero-width
/// point before that token.
#[derive(Clone, Copy, Debug, PartialEq, Eq, Structural, Hash)]
pub struct AnchoredSpan {
    pub start: usize,
    pub end: usize,
    pub end_at_token_end: bool,
}

/// The extent of `extent` followed by `child`.
pub open spec fn joined_extent(extent: AnchoredSpan, child: AnchoredSpan) -> AnchoredSpan {
    AnchoredSpan {
        start: if extent.start <= child.start {
            extent.start
        } else {
            child.start
        },
        end: if extent.end >= child.end {
            extent.end
        } else {
            child.end
        },
        end_at_token_end: if child.end >= extent.end {
            child.end_at_token_end
        } else {
            extent.end_at_token_end
        },
    }
}

/// The extent that covers a list of extents, or the point at `fallback` where
/// the list is empty.
pub open spec fn covering(children: Seq<AnchoredSpan>, fallback: usize) -> AnchoredSpan
    decreases children.len(),
{
    if children.len() == 0 {
        AnchoredSpan { start: fallback, end: fallback, end_at_token_end: false }
    } else if children.len() == 1 {
        children[0]
    } else {
        joined_extent(covering(children.drop_last(), fallback), children.last())
    }
}

impl AnchoredSpan {
    /// The range of one token.
    pub fn token(occurrence: usize) -> (r: Self)
        ensures
            r == (AnchoredSpan { start: occurrence, end: occurrence, end_at_token_end: true }),
    {
        AnchoredSpan { start: occurrence, end: occurrence, end_at_token_end: true }
    }

    /// The point before one token.
    pub fn point(occurrence: usize) -> (r: Self)
        ensures
            r == (AnchoredSpan { start: occurrence, end: occurrence, end_at_token_end: false }),
    {
        AnchoredSpan { start: occurrence, end: occurrence, end_at_token_end: false }
    }

    /// The extent that covers all of `children`.
    pub fn cover(children: &[AnchoredSpan], fallback: usize) -> (r: Self)
        ensures
            r == covering(children@, fallback),
    {
        if children.len() == 0 {
            return Self::point(fallback);
        }
        let mut extent = children[0];
        let mut index: usize = 1;
        assert(children@.take(1) =~= seq![children@[0]]);
        while index < children.len()
            invariant
                1 <= index <= children@.len(),
                extent == covering(children@.take(index as int), fallback),
            decreases children@.len() - index,
        {
            let child = children[index];
            assert(children@.take(index as int + 1).drop_last() =~= children@.take(index as int));
            extent = AnchoredSpan {
                start: if extent.start <= child.start {
                    extent.start
                } else {
                    child.start
                },
                end: if extent.end >= child.end {
                    extent.end
                } else {
                    child.end
                },
                end_at_token_end: if child.end >= extent.end {
                    child.end_at_token_end
                } else {
                    extent.end_at_token_end
                },
            };
            index += 1;
        }
        assert(children@.take(children@.len() as int) =~= children@);
        extent
    }
}

/// A covering extent reaches from the least start to the greatest end of what
/// it covers, and no further.
pub proof fn lemma_cover_bounds(children: Seq<AnchoredSpan>, fallback: usize)
    requires
        children.len() > 0,
    ensures
        forall|i: int|
            0 <= i < children.len() ==> covering(children, fallback).start <= (
            #[trigger] children[i]).start && children[i].end <= covering(children, fallback).end,
        exists|i: int|
            0 <= i < children.len() && (#[trigger] children[i]).start == covering(
                children,
                fallback,
            ).start,
        exists|i: int|
            0 <= i < children.len() && (#[trigger] children[i]).end == covering(
                children,
                fallback,
            ).end && children[i].end_at_token_end == covering(children, fallback).end_at_token_end,
    decreases children.len(),
{
    let n = children.len() as int;
    if n == 1 {
        assert(children[0].start == covering(children, fallback).start);
    } else {
        let rest = children.drop_last();
        lemma_cover_bounds(rest, fallback);
        let inner = covering(rest, fallback);
        let last = children.last();
        assert(children[n - 1] == last);
        let low = choose|i: int| 0 <= i < rest.len() && (#[trigger] rest[i]).start == inner.start;
        let high = choose|i: int|
            0 <= i < rest.len() && (#[trigger] rest[i]).end == inner.end
                && rest[i].end_at_token_end == inner.end_at_token_end;
        assert(children[low] == rest[low]);
        assert(children[high] == rest[high]);
        assert forall|i: int| 0 <= i < children.len() implies covering(children, fallback).start
            <= (#[trigger] children[i]).start && children[i].end <= covering(
            children,
            fallback,
        ).end by {
            if i < n - 1 {
                assert(rest[i] == children[i]);
            }
        }
    }
}

/// An opaque handle of one syntax record.
pub struct AstBox<T> {
    pub id: AstId,
    pub document: u64,
    pub marker: PhantomData<T>,
}

impl<T> Copy for AstBox<T> {

}

impl<T> Clone for AstBox<T> {
    fn clone(&self) -> (r: Self)
        ensures
            r == *self,
    {
        *self
    }
}

/// Handles are equal where they name one record of one document.
impl<T> PartialEq for AstBox<T> {
    fn eq(&self, other: &Self) -> (r: bool) {
        self.id == other.id && self.document == other.document
    }
}

impl<T> vstd::std_specs::cmp::PartialEqSpecImpl for AstBox<T> {
    open spec fn obeys_eq_spec() -> bool {
        true
    }

    open spec fn eq_spec(&self, other: &Self) -> bool {
        self.id == other.id && self.document == other.document
    }
}

impl<T> AstBox<T> {
    pub fn new(id: AstId, document: u64) -> (r: Self)
        ensures
            r.id == id,
            r.document == document,
    {
        AstBox { id, document, marker: PhantomData }
    }

    pub fn raw_id(self) -> (r: AstId)
        ensures
            r == self.id,
    {
        self.id
    }

    /// Stable record identity, independent of current source offsets.
    pub fn identity(self) -> (r: u64)
        ensures
            r == self.id,
    {
        self.id as u64
    }

    /// Reference form of [`AstBox::identity`] for pattern-bound values.
    pub fn identity_ref(&self) -> (r: u64)
        ensures
            r == self.id,
    {
        self.id as u64
    }

    pub fn document_id(self) -> (r: u64)
        ensures
            r == self.document,
    {
        self.document
    }
}

/// An opaque handle of one token.
pub struct AstToken<T> {
    pub id: TokenEntryId,
    pub occurrence: usize,
    pub document: u64,
    pub marker: PhantomData<T>,
}

impl<T> Copy for AstToken<T> {

}

impl<T> Clone for AstToken<T> {
    fn clone(&self) -> (r: Self)
        ensures
            r == *self,
    {
        *self
    }
}

/// Handles are equal where they name one occurrence of one document.
impl<T> PartialEq for AstToken<T> {
    fn eq(&self, other: &Self) -> (r: bool) {
        self.id == other.id && self.occurrence == other.occurrence && self.document
            == other.document
    }
}

impl<T> vstd::std_specs::cmp::PartialEqSpecImpl for AstToken<T> {
    open spec fn obeys_eq_spec() -> bool {
        true
    }

    open spec fn eq_spec(&self, other: &Self) -> bool {
        self.id == other.id && self.occurrence == other.occurrence && self.document
            == other.document
    }
}

impl<T> AstToken<T> {
    pub fn new(id: TokenEntryId, occurrence: usize, document: u64) -> (r: Self)
        ensures
            r.id == id,
            r.occurrence == occurrence,
            r.document == document,
    {
        AstToken { id, occurrence, document, marker: PhantomData }
    }

    pub fn raw_id(self) -> (r: TokenEntryId)
        ensures
            r == self.id,
    {
        self.id
    }

    pub fn occurrence(self) -> (r: usize)
        ensures
            r == self.occurrence,
    {
        self.occurrence
    }

    pub fn document_id(self) -> (r: u64)
        ensures
            r == self.document,
    {
        self.document
    }
}

/// The stable key of a document: the FNV-1a hash of its URI.
pub fn document_key(uri: &str) -> (r: u64)
    ensures
        r == fnv1a(encode_utf8(uri@)),
{
    fnv64(uri.as_bytes())
}

/// One syntax value with the extent that the parser determined for it.
pub struct AstRecord<V> {
    pub value: V,
    pub extent: AnchoredSpan,
}

/// What a record is bound to: the product that owns it and its parent record.
#[derive(Clone, Copy, Debug, PartialEq, Eq, Structural)]
pub struct AstMetadata {
    pub owner: Option<ProductId>,
    pub parent: Option<AstId>,
}

/// The binding of a record that was never bound.
pub open spec fn unbound() -> AstMetadata {
    AstMetadata { owner: None, parent: None }
}

/// The syntax records of one document, appended and frozen by generation, with
/// sparse bindings on top.
pub struct AstArena<V> {
    records: GenerationVec<AstRecord<V>>,
    metadata: RadixMap<AstMetadata>,
    document: u64,
}

/// An arena follows from another: one record came, or only bindings changed, or
/// a generation was sealed.
pub open spec fn arena_follows<V>(before: AstArena<V>, after: AstArena<V>) -> bool {
    ||| after.records() == before.records()
    ||| exists|record: AstRecord<V>| after.records() == #[trigger] before.records().push(record)
}

/// What a record was made with is what is read of it, whatever else happens to
/// the arena later.
pub proof fn lemma_records_read_back<V>(
    history: Seq<AstArena<V>>,
    value: V,
    extent: AnchoredSpan,
)
    requires
        history.len() >= 2,
        history[1].records() == history[0].records().push(AstRecord { value, extent }),
        forall|i: int|
            1 <= i < history.len() - 1 ==> arena_follows(#[trigger] history[i], history[i + 1]),
    ensures
        history[0].records().len() < history.last().records().len(),
        history.last().records()[history[0].records().len() as int] == (AstRecord {
            value,
            extent,
        }),
    decreases history.len(),
{
    if history.len() > 2 {
        let rest = history.drop_last();
        assert forall|i: int| 1 <= i < rest.len() - 1 implies arena_follows(
            #[trigger] rest[i],
            rest[i + 1],
        ) by {
            assert(arena_follows(history[i], history[i + 1]));
        }
        lemma_records_read_back(rest, value, extent);
        assert(arena_follows(history[history.len() - 2], history[history.len() - 1]));
        assert(rest.last() == history[history.len() - 2]);
    }
}

impl<V> AstArena<V> {
    /// The records of the arena.
    pub closed spec fn records(self) -> Seq<AstRecord<V>> {
        self.records@
    }

    /// The document that the arena belongs to.
    pub closed spec fn document(self) -> u64 {
        self.document
    }

    /// The binding of a record.
    pub closed spec fn binding(self, id: int) -> AstMetadata {
        if self.metadata@.dom().contains(id as u64) {
            self.metadata@[id as u64]
        } else {
            unbound()
        }
    }

    /// Only records of the arena are bound.
    pub closed spec fn wf(self) -> bool {
        &&& self.records.wf()
        &&& self.metadata.wf()
        &&& forall|key: u64| #[trigger] self.metadata@.dom().contains(key) ==> key < self.records@.len()
    }

    /// The arena of the document that a URI names.
    pub fn new(uri: &str) -> (r: Self)
        ensures
            r.wf(),
            r.records() == Seq::<AstRecord<V>>::empty(),
            r.document() == fnv1a(encode_utf8(uri@)),
    {
        Self::with_document(document_key(uri))
    }

    /// The arena of a document.
    pub fn with_document(document: u64) -> (r: Self)
        ensures
            r.wf(),
            r.records() == Seq::<AstRecord<V>>::empty(),
            r.document() == document,
    {
        AstArena { records: GenerationVec::new(), metadata: RadixMap::new(), document }
    }

    pub fn document_id(&self) -> (r: u64)
        ensures
            r == self.document(),
    {
        self.document
    }

    /// The number of records.
    pub fn len(&self) -> (r: usize)
        requires
            self.wf(),
        ensures
            r == self.records().len(),
    {
        self.records.len()
    }

    /// Appends a value together with its source extent.
    pub fn insert(&mut self, value: V, extent: AnchoredSpan) -> (r: AstBox<V>)
        requires
            old(self).wf(),
        ensures
            final(self).wf(),
            final(self).records() == old(self).records().push(AstRecord { value, extent }),
            final(self).document() == old(self).document(),
            forall|id: int| final(self).binding(id) == #[trigger] old(self).binding(id),
            final(self).binding(old(self).records().len() as int) == unbound(),
            r.id == old(self).records().len(),
            r.document == old(self).document(),
    {
        let id: usize = self.records.push(AstRecord { value, extent });
        AstBox::new(id, self.document)
    }

    /// The value of a record.
    pub fn get(&self, node: AstBox<V>) -> (r: Option<&V>)
        requires
            self.wf(),
        ensures
            match r {
                Some(value) => node.id < self.records().len() && *value
                    == self.records()[node.id as int].value,
                None => node.id >= self.records().len(),
            },
    {
        self.get_id(node.id)
    }

    /// The value of the record with an index.
    pub fn get_id(&self, id: AstId) -> (r: Option<&V>)
        requires
            self.wf(),
        ensures
            match r {
                Some(value) => id < self.records().len() && *value
                    == self.records()[id as int].value,
                None => id >= self.records().len(),
            },
    {
        match self.records.get(id) {
            Some(record) => Some(&record.value),
            None => None,
        }
    }

    pub fn contains_id(&self, id: AstId) -> (r: bool)
        requires
            self.wf(),
        ensures
            r == (id < self.records().len()),
    {
        id < self.records.len()
    }

    /// A handle of the record with an index.
    pub fn expect(&self, id: AstId) -> (r: Option<AstBox<V>>)
        requires
            self.wf(),
        ensures
            match r {
                Some(node) => id < self.records().len() && node.id == id && node.document
                    == self.document(),
                None => id >= self.records().len(),
            },
    {
        if id < self.records.len() {
            Some(AstBox::new(id, self.document))
        } else {
            None
        }
    }

    pub fn extent_of_id(&self, id: AstId) -> (r: Option<AnchoredSpan>)
        requires
            self.wf(),
        ensures
            match r {
                Some(extent) => id < self.records().len() && extent
                    == self.records()[id as int].extent,
                None => id >= self.records().len(),
            },
    {
        match self.records.get(id) {
            Some(record) => Some(record.extent),
            None => None,
        }
    }

    /// The anchored extent of a record.
    pub fn extent(&self, node: AstBox<V>) -> (r: Option<AnchoredSpan>)
        requires
            self.wf(),
        ensures
            match r {
                Some(extent) => node.id < self.records().len() && extent
                    == self.records()[node.id as int].extent,
                None => node.id >= self.records().len(),
            },
    {
        self.extent_of_id(node.id)
    }

    /// The binding of a record, where the record exists.
    fn metadata(&self, id: AstId) -> (r: Option<AstMetadata>)
        requires
            self.wf(),
        ensures
            match r {
                Some(found) => id < self.records().len() && found == self.binding(id as int),
                None => id >= self.records().len(),
            },
    {
        if id >= self.records.len() {
            return None;
        }
        match self.metadata.get(id as u64) {
            Some(found) => Some(*found),
            None => Some(AstMetadata { owner: None, parent: None }),
        }
    }

    /// Binds a record; an index without a record is left alone.
    fn rebind(&mut self, id: AstId, metadata: AstMetadata)
        requires
            old(self).wf(),
            id < old(self).records().len(),
        ensures
            final(self).wf(),
            final(self).records() == old(self).records(),
            final(self).document() == old(self).document(),
            final(self).binding(id as int) == metadata,
            forall|other: int|
                0 <= other < old(self).records().len() && other != id ==> final(self).binding(other)
                    == #[trigger] old(self).binding(other),
    {
        proof {
            self.records.lemma_len();
        }
        self.metadata.insert(id as u64, metadata);
    }

    /// Names the product that owns a record.
    pub fn bind_product(&mut self, id: AstId, product: ProductId)
        requires
            old(self).wf(),
        ensures
            final(self).wf(),
            final(self).records() == old(self).records(),
            final(self).document() == old(self).document(),
            id < old(self).records().len() ==> final(self).binding(id as int) == (AstMetadata {
                owner: Some(product),
                ..old(self).binding(id as int)
            }),
            forall|other: int|
                0 <= other < old(self).records().len() && other != id ==> final(self).binding(other)
                    == #[trigger] old(self).binding(other),
    {
        match self.metadata(id) {
            Some(found) => {
                self.rebind(id, AstMetadata { owner: Some(product), parent: found.parent });
            },
            None => {},
        }
    }

    /// Names the parent of a record.
    pub fn set_parent(&mut self, id: AstId, parent: Option<AstId>)
        requires
            old(self).wf(),
        ensures
            final(self).wf(),
            final(self).records() == old(self).records(),
            final(self).document() == old(self).document(),
            id < old(self).records().len() ==> final(self).binding(id as int) == (AstMetadata {
                parent,
                ..old(self).binding(id as int)
            }),
            forall|other: int|
                0 <= other < old(self).records().len() && other != id ==> final(self).binding(other)
                    == #[trigger] old(self).binding(other),
    {
        match self.metadata(id) {
            Some(found) => {
                self.rebind(id, AstMetadata { owner: found.owner, parent });
            },
            None => {},
        }
    }

    /// The parent of a record, where it has one.
    pub fn parent_of(&self, id: AstId) -> (r: Option<AstId>)
        requires
            self.wf(),
        ensures
            r == (if id < self.records().len() {
                self.binding(id as int).parent
            } else {
                None
            }),
    {
        match self.metadata(id) {
            Some(found) => found.parent,
            None => None,
        }
    }

    /// The product that owns a record, where there is one.
    pub fn product_of(&self, id: AstId) -> (r: Option<ProductId>)
        requires
            self.wf(),
        ensures
            r == (if id < self.records().len() {
                self.binding(id as int).owner
            } else {
                None
            }),
    {
        match self.metadata(id) {
            Some(found) => found.owner,
            None => None,
        }
    }

    /// Freezes the current generation of records; nothing else changes.
    pub fn seal_generation(&mut self)
        requires
            old(self).wf(),
        ensures
            final(self).wf(),
            final(self).records() == old(self).records(),
            final(self).document() == old(self).document(),
            forall|id: int| final(self).binding(id) == #[trigger] old(self).binding(id),
    {
        self.records.seal();
    }
}

} // verus!
