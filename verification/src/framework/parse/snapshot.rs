//! The syntax of one version of a document.

use vstd::prelude::*;
use vstd::utf8::*;

use crate::framework::lex::lexed::{LayoutRevisionId, TokenOccurrenceId};
use crate::framework::parse::data::ast::{AnchoredSpan, AstArena, AstBox, AstToken};
use crate::framework::parse::grammar::TerminalId;
use crate::framework::parse::parsing::document::ParserDocumentRoot;
use crate::framework::parse::tokens::{
    is_rank, rank_in, tokens_differ, ParserTokenDocument, TokenData, TokensView,
};
use crate::framework::parse::types::AstLookupError;
use crate::store::RadixMap;
use crate::text::{rope_bytes, rope_len_bytes};
use crate::utils::ByteRange;

verus! {

/// A token as it is in one version of a document.
#[derive(Clone, Copy, Debug, PartialEq, Eq, Structural)]
pub struct AstTokenSnapshotEntry {
    pub terminal: Option<TerminalId>,
    pub span: ByteRange,
}

/// A node of one version of a document, with its place.
pub struct ResolvedAst<'a, V> {
    value: &'a V,
    range: ByteRange,
}

impl<'a, V> ResolvedAst<'a, V> {
    /// The value of the node.
    pub closed spec fn held(self) -> V {
        *self.value
    }

    /// The place of the node.
    pub closed spec fn place(self) -> ByteRange {
        self.range
    }

    /// The value of the node.
    pub fn arc(&self) -> (r: &'a V)
        ensures
            *r == self.held(),
    {
        self.value
    }

    /// The place of the node.
    pub fn span(&self) -> (r: ByteRange)
        ensures
            r == self.place(),
    {
        self.range
    }
}

/// The syntax of one version of a document.
pub struct AstSnapshot<'a, V> {
    pub id: u64,
    pub source: &'a ropey::Rope,
    pub arena: &'a AstArena<V>,
    pub live_records: &'a RadixMap<()>,
    pub token_document: &'a ParserTokenDocument,
}

/// The token with an identity.
pub open spec fn token_named(v: TokensView, occurrence: usize) -> Option<TokenData> {
    match rank_in(v, TokenOccurrenceId(occurrence as u64)) {
        Some(rank) => Some(v.tokens[rank]),
        None => None,
    }
}

/// A number that does not run over.
pub open spec fn reach(data: TokenData) -> int {
    if data.start + data.length > usize::MAX {
        usize::MAX as int
    } else {
        data.start + data.length
    }
}

/// The range between two places, in whatever order they are.
pub open spec fn between(a: int, b: int) -> ByteRange {
    if a <= b {
        ByteRange { start: a as usize, end: b as usize }
    } else {
        ByteRange { start: b as usize, end: a as usize }
    }
}

/// Where the token with an identity starts; without one, the end of the text.
pub open spec fn coordinate(v: TokensView, source_len: int, occurrence: usize) -> int {
    match token_named(v, occurrence) {
        Some(data) => data.start as int,
        None => source_len,
    }
}

/// The place of an extent.
pub open spec fn extent_range(v: TokensView, source_len: int, extent: AnchoredSpan) -> ByteRange {
    let start = coordinate(v, source_len, extent.start);
    let end = match token_named(v, extent.end) {
        Some(data) => if extent.end_at_token_end {
            reach(data)
        } else {
            data.start as int
        },
        None => source_len,
    };
    between(start, end)
}

fn range_between(a: usize, b: usize) -> (r: ByteRange)
    ensures
        r == between(a as int, b as int),
{
    if a <= b {
        ByteRange { start: a, end: b }
    } else {
        ByteRange { start: b, end: a }
    }
}

/// Why a node is not to be had.
pub open spec fn lookup_error<V>(snapshot: AstSnapshot<'_, V>, document: u64, id: usize) -> Option<
    AstLookupError,
> {
    if document != snapshot.arena.document() {
        Some(AstLookupError::WrongDocument)
    } else if !snapshot.live_records@.dom().contains(id as u64) {
        Some(AstLookupError::Deleted)
    } else if id >= snapshot.arena.records().len() {
        Some(AstLookupError::TypeMismatch)
    } else {
        None
    }
}

impl<'a, V> AstSnapshot<'a, V> {
    pub open spec fn wf(self) -> bool {
        &&& self.arena.wf()
        &&& self.live_records.wf()
        &&& self.token_document.wf()
    }

    pub fn new(
        id: u64,
        source: &'a ropey::Rope,
        arena: &'a AstArena<V>,
        live_records: &'a RadixMap<()>,
        token_document: &'a ParserTokenDocument,
    ) -> (r: Self)
        ensures
            r.id == id,
            r.source == source,
            r.arena == arena,
            r.live_records == live_records,
            r.token_document == token_document,
    {
        AstSnapshot { id, source, arena, live_records, token_document }
    }

    /// The token with an identity.
    fn find_token(&self, occurrence: usize) -> (r: Option<TokenData>)
        requires
            self.wf(),
        ensures
            r == token_named(self.token_document@, occurrence),
    {
        let id = TokenOccurrenceId(occurrence as u64);
        match self.token_document.rank_of_occurrence(id) {
            Some(rank) => {
                proof {
                    self.token_document.lemma_wf();
                    let v = self.token_document@;
                    let other = choose|other: int| #[trigger] is_rank(v, id, other);
                    assert(is_rank(v, id, rank as int));
                    if other < rank {
                        assert(v.tokens[other].column != v.tokens[rank as int].column);
                    } else if rank < other {
                        assert(v.tokens[rank as int].column != v.tokens[other].column);
                    }
                }
                self.token_document.token_at(rank)
            },
            None => None,
        }
    }

    /// Where the token with an identity starts.
    pub fn coordinate_at(&self, occurrence: usize) -> (r: usize)
        requires
            self.wf(),
        ensures
            r == coordinate(
                self.token_document@,
                rope_bytes(*self.source).len() as int,
                occurrence,
            ),
    {
        match self.find_token(occurrence) {
            Some(data) => data.start,
            None => rope_len_bytes(self.source),
        }
    }

    /// The place of an extent.
    pub fn span_for_extent(&self, extent: AnchoredSpan) -> (r: ByteRange)
        requires
            self.wf(),
        ensures
            r == extent_range(
                self.token_document@,
                rope_bytes(*self.source).len() as int,
                extent,
            ),
    {
        let start: usize = self.coordinate_at(extent.start);
        let end: usize = match self.find_token(extent.end) {
            Some(data) => if extent.end_at_token_end {
                data.start.saturating_add(data.length)
            } else {
                data.start
            },
            None => rope_len_bytes(self.source),
        };
        range_between(start, end)
    }

    /// The node that a handle names. It must be of this document, and live.
    pub fn resolve(&self, node: AstBox<V>) -> (r: Result<ResolvedAst<'a, V>, AstLookupError>)
        requires
            self.wf(),
        ensures
            match r {
                Ok(found) => {
                    &&& lookup_error(*self, node.document, node.id) is None
                    &&& found.held() == self.arena.records()[node.id as int].value
                    &&& found.place() == extent_range(
                        self.token_document@,
                        rope_bytes(*self.source).len() as int,
                        self.arena.records()[node.id as int].extent,
                    )
                },
                Err(error) => lookup_error(*self, node.document, node.id) == Some(
                    error,
                ),
            },
    {
        if node.document_id() != self.arena.document_id() {
            return Err(AstLookupError::WrongDocument);
        }
        let id: usize = node.raw_id();
        if !self.live_records.contains(id as u64) {
            return Err(AstLookupError::Deleted);
        }
        let value = match self.arena.get_id(id) {
            Some(value) => value,
            None => {
                return Err(AstLookupError::TypeMismatch);
            },
        };
        let extent = match self.arena.extent_of_id(id) {
            Some(extent) => extent,
            None => {
                return Err(AstLookupError::Deleted);
            },
        };
        Ok(ResolvedAst { value, range: self.span_for_extent(extent) })
    }

    /// The value of the node that a handle names.
    pub fn get(&self, node: AstBox<V>) -> (r: Option<&'a V>)
        requires
            self.wf(),
        ensures
            match r {
                Some(value) => lookup_error(*self, node.document, node.id) is None
                    && *value == self.arena.records()[node.id as int].value,
                None => lookup_error(*self, node.document, node.id) is Some,
            },
    {
        match self.resolve(node) {
            Ok(found) => Some(found.arc()),
            Err(_) => None,
        }
    }

    /// The token that a handle names, as it is in this version.
    pub fn token<T>(&self, token: AstToken<T>) -> (r: Option<AstTokenSnapshotEntry>)
        requires
            self.wf(),
        ensures
            r == (match token_named(self.token_document@, token.occurrence) {
                Some(data) => {
                    let len = rope_bytes(*self.source).len() as int;
                    let end = if reach(data) < len {
                        reach(data)
                    } else {
                        len
                    };
                    Some(
                        AstTokenSnapshotEntry {
                            terminal: data.terminal,
                            span: between(data.start as int, end),
                        },
                    )
                },
                None => None,
            }),
    {
        let data = match self.find_token(token.occurrence()) {
            Some(data) => data,
            None => {
                return None;
            },
        };
        let reached: usize = data.start.saturating_add(data.length);
        let len: usize = rope_len_bytes(self.source);
        let end: usize = if reached < len {
            reached
        } else {
            len
        };
        Some(
            AstTokenSnapshotEntry {
                terminal: data.terminal,
                span: range_between(data.start, end),
            },
        )
    }

    /// The live records, in ascending order.
    pub fn live_record_ids(&self) -> (r: Vec<u64>)
        requires
            self.wf(),
        ensures
            r@ == self.live_records.spec_keys(),
    {
        let total: usize = self.live_records.len();
        let mut out: Vec<u64> = Vec::new();
        let mut at: usize = 0;
        while at < total
            invariant
                self.wf(),
                at <= total,
                total == self.live_records.spec_keys().len(),
                out@ == self.live_records.spec_keys().take(at as int),
            decreases total - at,
        {
            out.push(self.live_records.key_at(at));
            at += 1;
            assert(out@ =~= self.live_records.spec_keys().take(at as int));
        }
        assert(out@ =~= self.live_records.spec_keys());
        out
    }

    /// Whether two snapshots are of the same version.
    pub fn same(&self, other: &Self) -> (r: bool)
        ensures
            r == (self.id == other.id),
    {
        self.id == other.id
    }
}

/// The syntax is asked for of a document that was never parsed.
#[derive(Clone, Copy, Debug, PartialEq, Eq, Structural)]
pub struct NeverParsed;

/// The syntax of the current version of a document, under the next number.
pub fn commit_snapshot<'a, V>(
    root: Option<&'a ParserDocumentRoot<V>>,
    next_snapshot: &mut u64,
    source: &'a ropey::Rope,
    token_document: &'a ParserTokenDocument,
) -> (r: Result<AstSnapshot<'a, V>, NeverParsed>)
    ensures
        r is Ok <==> root is Some,
        r is Ok ==> {
            let snapshot = r->Ok_0;
            &&& snapshot.id == *old(next_snapshot)
            &&& snapshot.source == source
            &&& *snapshot.arena == root->Some_0.context.arenas.ast
            &&& *snapshot.live_records == root->Some_0.tree_facts.records
            &&& snapshot.token_document == token_document
        },
        *final(next_snapshot) == if root is Some {
            if *old(next_snapshot) == u64::MAX {
                0
            } else {
                (*old(next_snapshot) + 1) as u64
            }
        } else {
            *old(next_snapshot)
        },
{
    let root = match root {
        Some(root) => root,
        None => {
            return Err(NeverParsed);
        },
    };
    let id = *next_snapshot;
    *next_snapshot = if id == u64::MAX {
        0
    } else {
        id + 1
    };
    Ok(
        AstSnapshot {
            id,
            source,
            arena: &root.context.arenas.ast,
            live_records: &root.tree_facts.records,
            token_document,
        },
    )
}

/// What becomes of the editor's view of a document when its layout changed.
#[derive(Clone, Copy, Debug, PartialEq, Eq, Structural)]
pub enum LayoutStep {
    /// The document is gone.
    Remove,
    /// The document was never parsed, so nothing changes.
    Keep,
    /// A new view is published, with what of the parse it still uses.
    Publish { columns_reused: u64, tokens_reused: u64 },
}

/// What becomes of the editor's view, given the layout of the document now
/// and the one that was parsed.
pub fn layout_step(
    now: Option<LayoutRevisionId>,
    parsed: Option<LayoutRevisionId>,
    columns: usize,
    tokens: usize,
) -> (r: LayoutStep)
    ensures
        r == match (now, parsed) {
            (None, _) => LayoutStep::Remove,
            (Some(_), None) => LayoutStep::Keep,
            (Some(now), Some(parsed)) => if parsed.0 < now.0 {
                LayoutStep::Publish {
                    columns_reused: if columns == 0 {
                        0
                    } else {
                        (columns - 1) as u64
                    },
                    tokens_reused: tokens as u64,
                }
            } else {
                LayoutStep::Publish { columns_reused: 0, tokens_reused: 0 }
            },
        },
{
    let now = match now {
        Some(now) => now,
        None => {
            return LayoutStep::Remove;
        },
    };
    let parsed = match parsed {
        Some(parsed) => parsed,
        None => {
            return LayoutStep::Keep;
        },
    };
    if parsed.0 < now.0 {
        let columns_reused: u64 = if columns == 0 {
            0
        } else {
            (columns - 1) as u64
        };
        LayoutStep::Publish { columns_reused, tokens_reused: tokens as u64 }
    } else {
        LayoutStep::Publish { columns_reused: 0, tokens_reused: 0 }
    }
}

/// The place of an extent reaches from the start of its first token to the end of
/// its last one, or, where it ends before that, to its start.
pub proof fn lemma_extent_spans_its_tokens(
    v: TokensView,
    source_len: int,
    extent: AnchoredSpan,
    first: int,
    last: int,
)
    requires
        tokens_differ(v.tokens),
        0 <= first <= last < v.tokens.len(),
        v.tokens[first].column.0 == extent.start,
        v.tokens[last].column.0 == extent.end,
        v.tokens[first].start <= v.tokens[last].start,
        v.tokens[last].start + v.tokens[last].length <= usize::MAX,
    ensures
        extent_range(v, source_len, extent).start == v.tokens[first].start,
        extent_range(v, source_len, extent).end == if extent.end_at_token_end {
            v.tokens[last].start + v.tokens[last].length
        } else {
            v.tokens[last].start as int
        },
{
    lemma_named_at(v, extent.start, first);
    lemma_named_at(v, extent.end, last);
}

proof fn lemma_named_at(v: TokensView, occurrence: usize, rank: int)
    requires
        tokens_differ(v.tokens),
        0 <= rank < v.tokens.len(),
        v.tokens[rank].column.0 == occurrence,
    ensures
        token_named(v, occurrence) == Some(v.tokens[rank]),
{
    let token = TokenOccurrenceId(occurrence as u64);
    assert(v.tokens[rank].column == token);
    assert(is_rank(v, token, rank));
    let found = choose|found: int| #[trigger] is_rank(v, token, found);
    assert(is_rank(v, token, found));
    if found < rank {
        assert(v.tokens[found].column != v.tokens[rank].column);
    }
    if rank < found {
        assert(v.tokens[rank].column != v.tokens[found].column);
    }
}

} // verus!
