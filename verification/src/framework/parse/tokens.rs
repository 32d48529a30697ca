//! The tokens of a document as the parser reads them, and what an edit asks the
//! parser to read again.

use vstd::prelude::*;

use crate::framework::lex::lexed::{
    LayoutRevisionId, StableDocumentId, TapeSplice, TokenOccurrenceId, TokenPatch,
};
use crate::framework::parse::grammar::{Grammar, TerminalId};
use crate::framework::parse::identity::eof_fingerprint;
use crate::framework::parse::parsing::shift::ParseToken;
use crate::framework::parse::types::{ParserBoundaryId, TokenBoundaryId, TokenBoundaryKind};
use crate::store::RadixMap;

verus! {

/// One token.
#[derive(Clone, Copy, Debug, PartialEq, Eq, Structural)]
pub struct TokenData {
    pub id: usize,
    pub terminal: Option<TerminalId>,
    pub start: usize,
    pub length: usize,
    /// The token's identity.
    pub column: TokenOccurrenceId,
    pub fingerprint: u64,
}

/// The tokens of one document that the parser sees.
pub struct ParserTokenDocument {
    document: StableDocumentId,
    source_len: usize,
    layout_revision: LayoutRevisionId,
    tokens: Vec<TokenData>,
    ranks: RadixMap<usize>,
}

/// What a document of tokens holds.
#[verifier::ext_equal]
pub ghost struct TokensView {
    pub document: StableDocumentId,
    pub source_len: usize,
    pub tokens: Seq<TokenData>,
}

/// The end of the input, as a token.
pub open spec fn end_token(source_len: usize) -> TokenData {
    TokenData {
        id: usize::MAX,
        terminal: None,
        start: source_len,
        length: 0,
        column: TokenOccurrenceId(u64::MAX),
        fingerprint: 0,
    }
}

/// The token at a rank; the end stands behind the last one.
pub open spec fn token_of(v: TokensView, rank: int) -> Option<TokenData> {
    if 0 <= rank < v.tokens.len() {
        Some(v.tokens[rank])
    } else if rank == v.tokens.len() {
        Some(end_token(v.source_len))
    } else {
        None
    }
}

/// The gap before the token at a rank.
pub open spec fn gap_at(v: TokensView, rank: int) -> TokenBoundaryId {
    TokenBoundaryId {
        document: v.document,
        kind: if 0 <= rank < v.tokens.len() {
            TokenBoundaryKind::Before(v.tokens[rank].column)
        } else {
            TokenBoundaryKind::Eof
        },
    }
}

/// The gap before the token at a rank, as the gap of a column.
pub open spec fn boundary_at(v: TokensView, rank: int) -> ParserBoundaryId {
    ParserBoundaryId::Source(gap_at(v, rank))
}

/// The rank of a token.
pub open spec fn is_rank(v: TokensView, token: TokenOccurrenceId, rank: int) -> bool {
    0 <= rank < v.tokens.len() && v.tokens[rank].column == token
}

/// No token occurs twice.
pub open spec fn tokens_differ(tokens: Seq<TokenData>) -> bool {
    forall|i: int, j: int|
        0 <= i < j < tokens.len() ==> (#[trigger] tokens[i]).column != (#[trigger] tokens[j]).column
}

impl View for ParserTokenDocument {
    type V = TokensView;

    closed spec fn view(&self) -> TokensView {
        TokensView {
            document: self.document,
            source_len: self.source_len,
            tokens: self.tokens@,
        }
    }
}

impl ParserTokenDocument {
    /// No token occurs twice, and ranks are right.
    pub closed spec fn wf(self) -> bool {
        &&& tokens_differ(self.tokens@)
        &&& self.ranks.wf()
        &&& forall|i: int|
            0 <= i < self.tokens@.len() ==> self.ranks@.dom().contains(
                (#[trigger] self.tokens@[i]).column.0,
            ) && self.ranks@[self.tokens@[i].column.0] == i
        &&& forall|token: u64| #[trigger]
            self.ranks@.dom().contains(token) ==> self.ranks@[token] < self.tokens@.len()
                && self.tokens@[self.ranks@[token] as int].column.0 == token
    }

    /// The revision of the layout.
    pub closed spec fn layout(self) -> LayoutRevisionId {
        self.layout_revision
    }

    /// What a well formed document promises.
    pub proof fn lemma_wf(self)
        requires
            self.wf(),
        ensures
            tokens_differ(self@.tokens),
            self@.tokens.len() <= usize::MAX,
    {
        assert(self.tokens.len() == self.tokens@.len());
    }

    /// The document of a list of tokens; none where a token occurs twice.
    pub fn new(
        document: StableDocumentId,
        source_len: usize,
        layout_revision: LayoutRevisionId,
        tokens: Vec<TokenData>,
    ) -> (r: Option<Self>)
        ensures
            r is Some <==> tokens_differ(tokens@),
            r is Some ==> {
                &&& r->Some_0.wf()
                &&& r->Some_0.layout() == layout_revision
                &&& r->Some_0@ == (TokensView { document, source_len, tokens: tokens@ })
            },
    {
        let mut ranks: RadixMap<usize> = RadixMap::new();
        let mut at: usize = 0;
        while at < tokens.len()
            invariant
                at <= tokens@.len(),
                ranks.wf(),
                forall|i: int|
                    0 <= i < at ==> ranks@.dom().contains((#[trigger] tokens@[i]).column.0)
                        && ranks@[tokens@[i].column.0] == i,
                forall|token: u64| #[trigger]
                    ranks@.dom().contains(token) ==> ranks@[token] < at
                        && tokens@[ranks@[token] as int].column.0 == token,
            decreases tokens@.len() - at,
        {
            let key: u64 = tokens[at].column.0;
            if ranks.contains(key) {
                proof {
                    let i = ranks@[key] as int;
                    assert(tokens@[i].column == tokens@[at as int].column);
                }
                return None;
            }
            ranks.insert(key, at);
            at += 1;
        }
        proof {
            assert forall|i: int, j: int| 0 <= i < j < tokens@.len() implies (
            #[trigger] tokens@[i]).column != (#[trigger] tokens@[j]).column by {
                assert(ranks@[tokens@[i].column.0] == i);
                assert(ranks@[tokens@[j].column.0] == j);
            }
        }
        Some(ParserTokenDocument { document, source_len, layout_revision, tokens, ranks })
    }

    /// The document that the tokens belong to.
    pub fn document(&self) -> (r: StableDocumentId)
        ensures
            r == self@.document,
    {
        self.document
    }

    /// The gap before the token at a rank.
    pub fn boundary_at_rank(&self, rank: usize) -> (r: TokenBoundaryId)
        ensures
            r == gap_at(self@, rank as int),
    {
        if rank < self.tokens.len() {
            TokenBoundaryId::before(self.document, self.tokens[rank].column)
        } else {
            TokenBoundaryId::eof(self.document)
        }
    }

    /// The revision of the layout.
    pub fn layout_revision(&self) -> (r: LayoutRevisionId)
        ensures
            r == self.layout(),
    {
        self.layout_revision
    }

    /// The number of tokens.
    pub fn semantic_len(&self) -> (r: usize)
        ensures
            r == self@.tokens.len(),
    {
        self.tokens.len()
    }

    /// The rank of a token.
    pub fn rank_of_occurrence(&self, token: TokenOccurrenceId) -> (r: Option<usize>)
        requires
            self.wf(),
        ensures
            match r {
                Some(rank) => is_rank(self@, token, rank as int),
                None => forall|rank: int| !#[trigger] is_rank(self@, token, rank),
            },
    {
        match self.ranks.get(token.0) {
            Some(rank) => Some(*rank),
            None => {
                assert forall|rank: int| !#[trigger] is_rank(self@, token, rank) by {
                    if is_rank(self@, token, rank) {
                        assert(self.ranks@.dom().contains(self.tokens@[rank].column.0));
                    }
                }
                None
            },
        }
    }

    /// The token at a rank; the end stands behind the last one.
    pub fn token_at(&self, rank: usize) -> (r: Option<TokenData>)
        ensures
            r == token_of(self@, rank as int),
    {
        if rank == self.tokens.len() {
            return Some(
                TokenData {
                    id: usize::MAX,
                    terminal: None,
                    start: self.source_len,
                    length: 0,
                    column: TokenOccurrenceId(u64::MAX),
                    fingerprint: eof_fingerprint(),
                },
            );
        }
        if rank < self.tokens.len() {
            Some(self.tokens[rank])
        } else {
            None
        }
    }
}

/// A token as the parser takes it: the end stands for itself, and a token
/// without a terminal for an error.
pub open spec fn decoded(data: TokenData, grammar: Grammar) -> ParseToken {
    ParseToken {
        entry: data.id,
        column: data.column,
        start: data.start,
        terminal: match data.terminal {
            Some(terminal) => terminal,
            None => if data.fingerprint == 0 {
                grammar.eof
            } else {
                grammar.error_terminal
            },
        },
        length: data.length,
        merge_source_terminal: None,
    }
}

/// A token as the parser takes it.
pub fn decode_data(data: TokenData, grammar: &Grammar) -> (r: ParseToken)
    ensures
        r == decoded(data, *grammar),
{
    let terminal: u32 = match data.terminal {
        Some(terminal) => terminal,
        None => if data.fingerprint == eof_fingerprint() {
            grammar.eof
        } else {
            grammar.error_terminal
        },
    };
    ParseToken {
        entry: data.id,
        column: data.column,
        start: data.start,
        terminal,
        length: data.length,
        merge_source_terminal: None,
    }
}

/// All terminals of a document are terminals of a grammar.
pub open spec fn terminals_fit(v: TokensView, grammar: Grammar) -> bool {
    forall|i: int|
        0 <= i < v.tokens.len() && (#[trigger] v.tokens[i]).terminal is Some
            ==> v.tokens[i].terminal->Some_0 < grammar.terminals
}

/// Whether all terminals of a document are terminals of a grammar.
pub fn fits_grammar(document: &ParserTokenDocument, grammar: &Grammar) -> (r: bool)
    ensures
        r == terminals_fit(document@, *grammar),
{
    let mut rank: usize = 0;
    let count: usize = document.semantic_len();
    while rank < count
        invariant
            rank <= count,
            count == document@.tokens.len(),
            forall|i: int|
                0 <= i < rank && (#[trigger] document@.tokens[i]).terminal is Some
                    ==> document@.tokens[i].terminal->Some_0 < grammar.terminals,
        decreases count - rank,
    {
        if let Some(data) = document.token_at(rank) {
            assert(document@.tokens[rank as int] == data);
            if let Some(terminal) = data.terminal {
                if terminal as usize >= grammar.terminals {
                    return false;
                }
            }
        }
        rank += 1;
    }
    true
}

// ---------------------------------------------------------------------------
// Reading one token after the other

/// A place in a document of tokens.
pub struct ParserTokenCursor {
    rank: usize,
    at_eof: bool,
}

impl ParserTokenCursor {
    /// The rank of the place.
    pub closed spec fn place(self) -> usize {
        self.rank
    }

    /// The place is in the document or at its end.
    pub closed spec fn wf(self, v: TokensView) -> bool {
        self.rank <= v.tokens.len() && self.at_eof == (self.rank == v.tokens.len())
    }

    /// What a well formed place promises.
    pub proof fn lemma_wf(self, v: TokensView)
        requires
            self.wf(v),
        ensures
            self.place() <= v.tokens.len(),
    {
    }

    /// The place at a rank, or the end.
    pub fn at(document: &ParserTokenDocument, rank: usize) -> (r: Self)
        ensures
            r.wf(document@),
            r.place() == if rank < document@.tokens.len() {
                rank as int
            } else {
                document@.tokens.len() as int
            },
    {
        let total: usize = document.semantic_len();
        if rank < total {
            ParserTokenCursor { rank, at_eof: false }
        } else {
            ParserTokenCursor { rank: total, at_eof: true }
        }
    }

    /// The rank of the place.
    pub fn rank(&self) -> (r: usize)
        ensures
            r == self.place(),
    {
        self.rank
    }

    /// The token at the place.
    pub fn current(&self, document: &ParserTokenDocument) -> (r: Option<TokenData>)
        requires
            self.wf(document@),
        ensures
            r == token_of(document@, self.place() as int),
            r is Some,
    {
        document.token_at(self.rank)
    }

    /// Goes on by one token. At the end it stays and returns false.
    pub fn advance(&mut self, document: &ParserTokenDocument) -> (r: bool)
        requires
            old(self).wf(document@),
        ensures
            final(self).wf(document@),
            r == (old(self).place() < document@.tokens.len()),
            final(self).place() == if r {
                old(self).place() + 1
            } else {
                old(self).place() as int
            },
    {
        if self.at_eof {
            return false;
        }
        let total: usize = document.semantic_len();
        self.rank = self.rank + 1;
        self.at_eof = self.rank == total;
        true
    }
}

/// How many tokens of a tail are decoded once a place of it was looked at: all up
/// to that place, as far as there are any.
pub open spec fn stretched(
    count: int,
    token: spec_fn(int) -> Option<ParseToken>,
    place: int,
) -> int
    decreases place + 1 - count,
{
    if count > place {
        count
    } else if token(count) is None {
        count
    } else {
        stretched(count + 1, token, place)
    }
}

/// To look at a place again decodes nothing.
pub proof fn lemma_looked_again(
    count: int,
    token: spec_fn(int) -> Option<ParseToken>,
    place: int,
)
    ensures
        stretched(stretched(count, token, place), token, place) == stretched(count, token, place),
    decreases place + 1 - count,
{
    if count <= place && token(count) is Some {
        lemma_looked_again(count + 1, token, place);
    }
}

/// The rest of a document from a rank on, decoded as far as it was asked for.
pub struct TokenTail<'a> {
    document: &'a ParserTokenDocument,
    start: usize,
    grammar: &'a Grammar,
    decoded: Vec<ParseToken>,
}

impl<'a> TokenTail<'a> {
    /// The token at a place of the tail.
    pub closed spec fn token(self, index: int) -> Option<ParseToken> {
        if self.start + index > usize::MAX {
            match token_of(self.document@, usize::MAX as int) {
                Some(data) => Some(decoded(data, *self.grammar)),
                None => None,
            }
        } else {
            match token_of(self.document@, self.start + index) {
                Some(data) => Some(decoded(data, *self.grammar)),
                None => None,
            }
        }
    }

    /// How many tokens were decoded.
    pub closed spec fn count(self) -> nat {
        self.decoded@.len()
    }

    /// The terminal of the end.
    pub closed spec fn end(self) -> TerminalId {
        self.grammar.eof
    }

    /// All terminals are terminals of a grammar.
    pub open spec fn fits(self, terminals: usize) -> bool {
        forall|index: int| index >= 0 && (#[trigger] self.token(index)) is Some ==> self.token(
            index,
        )->Some_0.terminal < terminals
    }

    /// What was decoded is right.
    pub closed spec fn wf(self) -> bool {
        forall|i: int|
            0 <= i < self.decoded@.len() ==> Some(#[trigger] self.decoded@[i]) == self.token(i)
    }

    /// The rest from a rank on.
    pub fn new(document: &'a ParserTokenDocument, start: usize, grammar: &'a Grammar) -> (r: Self)
        requires
            grammar.wf(),
            terminals_fit(document@, *grammar),
        ensures
            r.wf(),
            r.count() == 0,
            r.end() == grammar.eof,
            r.fits(grammar.terminals),
            forall|index: int|
                0 <= index && start + index <= usize::MAX ==> #[trigger] r.token(index) == match token_of(
                    document@,
                    start + index,
                ) {
                    Some(data) => Some(decoded(data, *grammar)),
                    None => None,
                },
    {
        let r = TokenTail { document, start, grammar, decoded: Vec::new() };
        proof {
            assert forall|index: int| index >= 0 && (#[trigger] r.token(index)) is Some implies
                r.token(index)->Some_0.terminal < grammar.terminals by {
                let rank = if start + index > usize::MAX {
                    usize::MAX as int
                } else {
                    start + index
                };
                if rank < document@.tokens.len() {
                    assert(document@.tokens[rank] == document@.tokens[rank]);
                }
            }
        }
        r
    }

    /// The token at a place of the tail.
    pub fn get(&mut self, index: usize) -> (r: Option<ParseToken>)
        requires
            old(self).wf(),
        ensures
            final(self).wf(),
            r == old(self).token(index as int),
            forall|i: int| #[trigger] final(self).token(i) == old(self).token(i),
            final(self).end() == old(self).end(),
            final(self).count() == stretched(
                old(self).count() as int,
                |i: int| old(self).token(i),
                index as int,
            ),
    {
        let ghost token = |i: int| old(self).token(i);
        while self.decoded.len() <= index
            invariant
                self.wf(),
                token == (|i: int| old(self).token(i)),
                stretched(self.decoded@.len() as int, token, index as int) == stretched(
                    old(self).decoded@.len() as int,
                    token,
                    index as int,
                ),
                self.document == old(self).document,
                self.start == old(self).start,
                self.grammar == old(self).grammar,
                self.decoded@.len() >= old(self).decoded@.len(),
            decreases index + 1 - self.decoded@.len(),
        {
            let done: usize = self.decoded.len();
            let rank: usize = if self.start <= usize::MAX - done {
                self.start + done
            } else {
                usize::MAX
            };
            assert(token(done as int) == self.token(done as int));
            let data = match self.document.token_at(rank) {
                Some(data) => data,
                None => {
                    proof {
                        lemma_tail_ends(*self, done as int, index as int);
                    }
                    return None;
                },
            };
            let token = decode_data(data, self.grammar);
            let ghost before = self.decoded@;
            self.decoded.push(token);
            proof {
                assert forall|i: int| 0 <= i < self.decoded@.len() implies Some(
                    #[trigger] self.decoded@[i],
                ) == self.token(i) by {
                    if i < before.len() {
                        assert(self.decoded@[i] == before[i]);
                    }
                }
            }
        }
        assert(Some(self.decoded@[index as int]) == self.token(index as int));
        Some(self.decoded[index])
    }

    /// The terminal at a place of the tail; behind the end, that of the end.
    pub fn terminal(&mut self, index: usize) -> (r: TerminalId)
        requires
            old(self).wf(),
        ensures
            final(self).wf(),
            r == (match old(self).token(index as int) {
                Some(token) => token.terminal,
                None => old(self).end(),
            }),
            forall|i: int| #[trigger] final(self).token(i) == old(self).token(i),
            final(self).end() == old(self).end(),
    {
        let end: u32 = self.grammar.eof;
        match self.get(index) {
            Some(token) => token.terminal,
            None => end,
        }
    }

    /// How many tokens were decoded.
    pub fn decoded(&self) -> (r: usize)
        ensures
            r == self.count(),
    {
        self.decoded.len()
    }
}

proof fn lemma_tail_ends(tail: TokenTail<'_>, from: int, index: int)
    requires
        0 <= from <= index,
        tail.token(from) is None,
    ensures
        tail.token(index) is None,
{
}

// ---------------------------------------------------------------------------
// What is read again

/// What an edit asks the parser to read again: where the old tokens and the new
/// ones part, and from where on they are the same again.
pub struct ReplayPlan<'a> {
    pub old: Option<&'a ParserTokenDocument>,
    pub new: &'a ParserTokenDocument,
    pub old_extent: usize,
    pub new_extent: usize,
    pub prefix_len: usize,
    pub suffix_len: usize,
    pub restart_boundary: usize,
    pub old_reuse_start: usize,
    pub new_reuse_start: usize,
}

/// The rank behind a kept token, or the start.
pub open spec fn rank_after(v: Option<TokensView>, token: Option<TokenOccurrenceId>) -> int {
    match (v, token) {
        (Some(v), Some(token)) => match rank_in(v, token) {
            Some(rank) => rank + 1,
            None => 0,
        },
        _ => 0,
    }
}

/// The rank of a kept token, or the end.
pub open spec fn rank_before(v: Option<TokensView>, token: Option<TokenOccurrenceId>, end: int) -> int {
    match (v, token) {
        (Some(v), Some(token)) => match rank_in(v, token) {
            Some(rank) => rank,
            None => end,
        },
        _ => end,
    }
}

/// The rank of a token, where it has one.
pub open spec fn rank_in(v: TokensView, token: TokenOccurrenceId) -> Option<int> {
    if exists|rank: int| #[trigger] is_rank(v, token, rank) {
        Some(choose|rank: int| #[trigger] is_rank(v, token, rank))
    } else {
        None
    }
}

/// The number of tokens with the end.
pub open spec fn extent_of(v: Option<TokensView>) -> int {
    match v {
        Some(v) => v.tokens.len() as int + 1,
        None => 0,
    }
}

/// What an old document holds, where there is one.
pub open spec fn old_view(old: Option<&ParserTokenDocument>) -> Option<TokensView> {
    match old {
        Some(document) => Some(document@),
        None => None,
    }
}

/// What is read again after a patch.
pub open spec fn planned(
    plan: ReplayPlan<'_>,
    old: Option<TokensView>,
    new: TokensView,
    splices: Seq<TapeSplice>,
) -> bool {
    let old_extent = extent_of(old);
    let new_extent = new.tokens.len() as int + 1;
    let cold = splices.len() == 0 && old_extent == 0;
    let prefix = if splices.len() > 0 {
        rank_after(old, splices[0].before)
    } else if cold {
        0
    } else {
        old_extent
    };
    let old_reuse = if splices.len() > 0 {
        rank_before(old, splices.last().after, old_extent)
    } else if cold {
        0
    } else {
        old_extent
    };
    let new_reuse = if splices.len() > 0 {
        rank_before(Some(new), splices.last().after, new_extent)
    } else {
        new_extent
    };
    &&& plan.old_extent == old_extent
    &&& plan.new_extent == new_extent
    &&& plan.prefix_len == prefix
    &&& plan.restart_boundary == prefix
    &&& plan.old_reuse_start == old_reuse
    &&& plan.new_reuse_start == new_reuse
    &&& plan.suffix_len == if old_extent > old_reuse {
        old_extent - old_reuse
    } else {
        0
    }
}

/// Ranks of tokens are the ranks that are found.
pub proof fn lemma_rank_in(document: ParserTokenDocument, token: TokenOccurrenceId, found: Option<usize>)
    requires
        document.wf(),
        match found {
            Some(rank) => is_rank(document@, token, rank as int),
            None => forall|rank: int| !#[trigger] is_rank(document@, token, rank),
        },
    ensures
        rank_in(document@, token) == match found {
            Some(rank) => Some(rank as int),
            None => None::<int>,
        },
{
    document.lemma_wf();
    if let Some(rank) = found {
        assert(is_rank(document@, token, rank as int));
        let other = choose|other: int| #[trigger] is_rank(document@, token, other);
        assert(is_rank(document@, token, other));
        if other < rank {
            assert(document@.tokens[other].column != document@.tokens[rank as int].column);
        } else if rank < other {
            assert(document@.tokens[rank as int].column != document@.tokens[other].column);
        }
    }
}

fn after_rank(document: Option<&ParserTokenDocument>, token: Option<TokenOccurrenceId>) -> (r: usize)
    requires
        document is Some ==> document->Some_0.wf(),
    ensures
        r == rank_after(old_view(document), token),
{
    match (document, token) {
        (Some(document), Some(token)) => {
            let found = document.rank_of_occurrence(token);
            proof {
                lemma_rank_in(*document, token, found);
                document.lemma_wf();
            }
            match found {
                Some(rank) => rank + 1,
                None => 0,
            }
        },
        _ => 0,
    }
}

fn before_rank(
    document: Option<&ParserTokenDocument>,
    token: Option<TokenOccurrenceId>,
    end: usize,
) -> (r: usize)
    requires
        document is Some ==> document->Some_0.wf(),
    ensures
        r == rank_before(old_view(document), token, end as int),
{
    match (document, token) {
        (Some(document), Some(token)) => {
            let found = document.rank_of_occurrence(token);
            proof {
                lemma_rank_in(*document, token, found);
            }
            match found {
                Some(rank) => rank,
                None => end,
            }
        },
        _ => end,
    }
}

impl<'a> ReplayPlan<'a> {
    /// What is read again after a patch. Where there was no document, all of
    /// the new one is read.
    pub fn from_token_patch(
        old: Option<&'a ParserTokenDocument>,
        new: &'a ParserTokenDocument,
        patch: &TokenPatch,
    ) -> (r: Self)
        requires
            old is Some ==> old->Some_0.wf() && old->Some_0@.tokens.len() < usize::MAX,
            new.wf(),
            new@.tokens.len() < usize::MAX,
        ensures
            r.old == old,
            r.new == new,
            planned(r, old_view(old), new@, patch.order_splices@),
    {
        let old_extent: usize = match old {
            Some(document) => document.semantic_len() + 1,
            None => 0,
        };
        let new_extent: usize = new.semantic_len() + 1;
        let total: usize = patch.order_splices.len();
        let cold = total == 0 && old_extent == 0;
        let prefix_len: usize = if total > 0 {
            after_rank(old, patch.order_splices[0].before)
        } else if cold {
            0
        } else {
            old_extent
        };
        let old_reuse_start: usize = if total > 0 {
            before_rank(old, patch.order_splices[total - 1].after, old_extent)
        } else if cold {
            0
        } else {
            old_extent
        };
        let new_reuse_start: usize = if total > 0 {
            before_rank(Some(new), patch.order_splices[total - 1].after, new_extent)
        } else {
            new_extent
        };
        ReplayPlan {
            old,
            new,
            old_extent,
            new_extent,
            prefix_len,
            suffix_len: if old_extent > old_reuse_start {
                old_extent - old_reuse_start
            } else {
                0
            },
            restart_boundary: prefix_len,
            old_reuse_start,
            new_reuse_start,
        }
    }

    /// The old token at a rank.
    pub fn old_unit(&self, rank: usize) -> (r: Option<TokenData>)
        ensures
            r == (match old_view(self.old) {
                Some(v) => token_of(v, rank as int),
                None => None,
            }),
    {
        match self.old {
            Some(document) => document.token_at(rank),
            None => None,
        }
    }

    /// The new token at a rank.
    pub fn new_unit(&self, rank: usize) -> (r: Option<TokenData>)
        ensures
            r == token_of(self.new@, rank as int),
    {
        self.new.token_at(rank)
    }
}

/// The parser takes every token as it stands, with its place and identity: under
/// its terminal where it has one, and as an error where it has none. Behind the
/// last one it takes the end of the input, and nothing behind that.
pub proof fn lemma_tokens_are_taken_as_they_stand(v: TokensView, grammar: Grammar, rank: int)
    requires
        rank >= 0,
    ensures
        rank < v.tokens.len() ==> {
            let data = v.tokens[rank];
            let token = decoded(data, grammar);
            &&& token_of(v, rank) == Some(data)
            &&& token.column == data.column
            &&& token.start == data.start
            &&& token.length == data.length
            &&& token.entry == data.id
            &&& data.terminal is Some ==> token.terminal == data.terminal->Some_0
            &&& data.terminal is None && data.fingerprint != 0 ==> token.terminal
                == grammar.error_terminal
        },
        rank == v.tokens.len() ==> {
            let end = token_of(v, rank);
            &&& end is Some
            &&& end->Some_0.start == v.source_len
            &&& end->Some_0.length == 0
            &&& decoded(end->Some_0, grammar).terminal == grammar.eof
        },
        rank > v.tokens.len() ==> token_of(v, rank) is None,
{
}

/// A gap names one rank: gaps before different tokens differ, and the gap at the
/// end from all of them.
pub proof fn lemma_gaps_differ(v: TokensView, i: int, j: int)
    requires
        tokens_differ(v.tokens),
        0 <= i < j <= v.tokens.len(),
    ensures
        gap_at(v, i) != gap_at(v, j),
        boundary_at(v, i) != boundary_at(v, j),
{
    if j < v.tokens.len() {
        assert(v.tokens[i].column != v.tokens[j].column);
    }
}

} // verus!
