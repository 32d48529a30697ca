//! A lexer with the documents that it has lexed.

use vstd::prelude::*;

use crate::framework::lex::derive::{
    base_view, blank, derivation, derive_document, LexDocument,
};
use crate::framework::lex::lexed::{
    document_id, identities_differ, is_lexical_rank, rank_at, semantic, start_of, LexicalDocument,
    LexicalView, OccurrenceView, StableDocumentId, TokenOccurrenceId,
};
use crate::framework::lex::mode::{State, StateInfo};
use crate::framework::lex::publish::{data_of, end_of, placed, tokens_from};
use crate::framework::lex::relex::Scanner;
use crate::framework::lex::token::{
    IncrementalLexStats, LexInterrupt, LexToken, LexerRoot, ResolvedToken,
};
use crate::framework::parse::grammar::TerminalId;
use crate::framework::parse::tokens::TokenData;
use crate::framework::source::SourceDelta;
use crate::utils::{fnv1a, ByteRange, Span};
use vstd::utf8::encode_utf8;

verus! {

/// A document with its tokens, and what the last command on it did.
pub struct LexerEntry<R> {
    pub uri: String,
    pub document: LexicalDocument<R>,
    pub stats: IncrementalLexStats,
}

/// What a lexer holds of a document.
#[verifier::ext_equal]
pub ghost struct EntryView<R> {
    pub uri: Seq<char>,
    pub document: LexicalView<R>,
    pub stats: IncrementalLexStats,
}

impl<R> View for LexerEntry<R> {
    type V = EntryView<R>;

    open spec fn view(&self) -> EntryView<R> {
        EntryView { uri: self.uri@, document: self.document@, stats: self.stats }
    }
}

/// No two documents have one name.
pub open spec fn names_differ<R>(entries: Seq<EntryView<R>>) -> bool {
    forall|i: int, j: int|
        0 <= i < j < entries.len() ==> (#[trigger] entries[i]).uri != (#[trigger] entries[j]).uri
}

/// What a lexer holds.
pub open spec fn entry_views<R>(entries: Seq<LexerEntry<R>>) -> Seq<EntryView<R>> {
    entries.map_values(|entry: LexerEntry<R>| entry@)
}

/// The place of a document; the number of documents where it is not there.
pub open spec fn place_of<R>(entries: Seq<EntryView<R>>, uri: Seq<char>) -> int
    decreases entries.len(),
{
    if entries.len() == 0 {
        0
    } else {
        let before = place_of(entries.drop_last(), uri);
        if before < entries.len() - 1 {
            before
        } else if entries.last().uri == uri {
            entries.len() - 1
        } else {
            entries.len() as int
        }
    }
}

proof fn lemma_place<R>(entries: Seq<EntryView<R>>, uri: Seq<char>, at: int)
    requires
        0 <= at <= entries.len(),
        forall|i: int| 0 <= i < at ==> (#[trigger] entries[i]).uri != uri,
        at < entries.len() ==> entries[at].uri == uri,
    ensures
        place_of(entries, uri) == at,
    decreases entries.len(),
{
    if entries.len() > 0 {
        let less = entries.drop_last();
        assert forall|i: int| 0 <= i < less.len() implies less[i] == entries[i] by {}
        if at < entries.len() - 1 {
            assert(less[at] == entries[at]);
            lemma_place(less, uri, at);
        } else {
            lemma_place(less, uri, less.len() as int);
        }
    }
}

/// What is held after a document was lexed.
pub open spec fn with_entry<R>(
    entries: Seq<EntryView<R>>,
    entry: EntryView<R>,
) -> Seq<EntryView<R>> {
    let place = place_of(entries, entry.uri);
    if place < entries.len() {
        entries.update(place, entry)
    } else {
        entries.push(entry)
    }
}

/// What is held after a document was forgotten.
pub open spec fn without_entry<R>(entries: Seq<EntryView<R>>, uri: Seq<char>) -> Seq<EntryView<R>> {
    let place = place_of(entries, uri);
    if place < entries.len() {
        entries.remove(place)
    } else {
        entries
    }
}

/// The token with an identity, with its place.
pub open spec fn token_in<R>(v: LexicalView<R>, id: TokenOccurrenceId) -> Option<LexToken<R>> {
    if exists|rank: int| #[trigger] is_lexical_rank(v, id, rank) {
        let rank = choose|rank: int| #[trigger] is_lexical_rank(v, id, rank);
        placed(v.lexical[rank], start_of(v.lexical, rank) as usize)
    } else {
        None
    }
}

/// The token with an identity in the first document that has one.
pub open spec fn token_among<R>(entries: Seq<EntryView<R>>, id: TokenOccurrenceId) -> Option<
    LexToken<R>,
>
    decreases entries.len(),
{
    if entries.len() == 0 {
        None
    } else {
        match token_among(entries.drop_last(), id) {
            Some(token) => Some(token),
            None => token_in(entries.last().document, id),
        }
    }
}

/// Where the token with an identity stands in a document.
pub open spec fn range_in<R>(v: LexicalView<R>, id: TokenOccurrenceId) -> Option<ByteRange> {
    if exists|rank: int| #[trigger] is_lexical_rank(v, id, rank) {
        let rank = choose|rank: int| #[trigger] is_lexical_rank(v, id, rank);
        let start = start_of(v.lexical, rank) as usize;
        Some(ByteRange { start, end: end_of(start as int, v.lexical[rank].byte_len) })
    } else {
        None
    }
}

/// Where the token with an identity stands, in the first document that has one.
pub open spec fn span_among<R>(entries: Seq<EntryView<R>>, id: TokenOccurrenceId) -> Option<
    (Seq<char>, ByteRange),
>
    decreases entries.len(),
{
    if entries.len() == 0 {
        None
    } else {
        match span_among(entries.drop_last(), id) {
            Some(span) => Some(span),
            None => match range_in(entries.last().document, id) {
                Some(range) => Some((entries.last().uri, range)),
                None => None,
            },
        }
    }
}

/// What the parser reads of the tokens from a rank on that start before a byte
/// and reach beyond another.
pub open spec fn datas_from<R: LexerRoot>(
    list: Seq<OccurrenceView<R>>,
    rank: int,
    from: int,
    to: int,
) -> Seq<TokenData>
    decreases list.len() - rank,
{
    if rank < 0 || rank >= list.len() || start_of(list, rank) >= to {
        Seq::empty()
    } else {
        let start = start_of(list, rank);
        let rest = datas_from(list, rank + 1, from, to);
        if semantic(list[rank]) && end_of(start as int, list[rank].byte_len) > from {
            seq![data_of(list, rank)] + rest
        } else {
            rest
        }
    }
}

proof fn lemma_rank_chosen<R>(v: LexicalView<R>, next: u64, id: TokenOccurrenceId, rank: int)
    requires
        identities_differ(v.lexical, next),
        is_lexical_rank(v, id, rank),
    ensures
        (choose|rank: int| #[trigger] is_lexical_rank(v, id, rank)) == rank,
{
    let chosen = choose|rank: int| #[trigger] is_lexical_rank(v, id, rank);
    assert(is_lexical_rank(v, id, chosen));
}

impl<R: LexerRoot> LexicalDocument<R> {
    /// The token with an identity, with its place.
    pub fn lexical_token(&self, id: TokenOccurrenceId) -> (r: Option<LexToken<R>>)
        requires
            self.wf(),
        ensures
            r == token_in(self@, id),
    {
        let rank: usize = match self.lexical_rank_of(id) {
            Some(rank) => rank,
            None => {
                return None;
            },
        };
        proof {
            lemma_rank_chosen(self@, self.next_occurrence, id, rank as int);
            assert(self@.lexical[rank as int] == self.lexical@[rank as int]@);
        }
        let start: usize = self.lexical_start(rank);
        self.lexical[rank].materialize(start)
    }

    /// Where the token with an identity stands.
    fn token_range(&self, id: TokenOccurrenceId) -> (r: Option<ByteRange>)
        requires
            self.wf(),
        ensures
            r == range_in(self@, id),
    {
        let rank: usize = match self.lexical_rank_of(id) {
            Some(rank) => rank,
            None => {
                return None;
            },
        };
        proof {
            lemma_rank_chosen(self@, self.next_occurrence, id, rank as int);
            assert(self@.lexical[rank as int] == self.lexical@[rank as int]@);
        }
        let start: usize = self.lexical_start(rank);
        let length: usize = self.lexical[rank].byte_len as usize;
        Some(ByteRange { start, end: start.saturating_add(length) })
    }

    /// What the parser reads of the tokens in a part of the text.
    pub fn token_data_in_range(&self, range: ByteRange) -> (r: Vec<TokenData>)
        requires
            self.wf(),
        ensures
            r@ == datas_from(
                self@.lexical,
                rank_at(self@.lexical, range.start as int),
                range.start as int,
                range.end as int,
            ),
    {
        let ghost list = self@.lexical;
        let first: usize = self.lexical_rank_at_byte(range.start);
        let mut out: Vec<TokenData> = Vec::new();
        let mut at: usize = first;
        let ghost all = datas_from(list, first as int, range.start as int, range.end as int);
        proof {
            crate::framework::lex::lexed::lemma_rank_at(list, range.start as int);
            assert(out@ + all =~= all);
        }
        while at < self.lexical.len()
            invariant
                self.wf(),
                list == self@.lexical,
                first <= at <= self.lexical@.len(),
                first == rank_at(list, range.start as int),
                all == datas_from(list, first as int, range.start as int, range.end as int),
                all == out@ + datas_from(list, at as int, range.start as int, range.end as int),
            decreases self.lexical@.len() - at,
        {
            let start: usize = self.lexical_start(at);
            let token = &self.lexical[at];
            assert(list[at as int] == token@);
            if start >= range.end {
                assert(all =~= out@);
                return out;
            }
            let ghost before = out@;
            let ghost rest = datas_from(list, at as int + 1, range.start as int, range.end as int);
            let length: usize = token.byte_len as usize;
            if token.is_semantic() && start.saturating_add(length) > range.start {
                let data = TokenData {
                    id: token.id.0 as usize,
                    terminal: token.terminal,
                    start,
                    length,
                    column: token.id,
                    fingerprint: token.fingerprint().0,
                };
                out.push(data);
                assert(data == data_of(list, at as int));
                assert(before + (seq![data] + rest) =~= out@ + rest);
            }
            assert(all == out@ + rest);
            at += 1;
        }
        assert(all =~= out@);
        out
    }
}

/// A lexer: its states with their tokens, and the documents that it has lexed.
pub struct Lexer<R> {
    entries: Vec<LexerEntry<R>>,
    states: Vec<StateInfo>,
    tokens: Vec<Vec<ResolvedToken>>,
}

impl<R: LexerRoot> Lexer<R> {
    /// The documents that were lexed, in the order in which they came.
    pub closed spec fn held(self) -> Seq<EntryView<R>> {
        entry_views(self.entries@)
    }

    /// What is known of the states.
    pub closed spec fn spec_states(self) -> Seq<StateInfo> {
        self.states@
    }

    /// The tokens of the states.
    pub closed spec fn spec_tokens(self) -> Seq<Vec<ResolvedToken>> {
        self.tokens@
    }

    /// The documents are sound, and each is held once.
    pub closed spec fn wf(self) -> bool {
        &&& names_differ(self.held())
        &&& forall|i: int|
            0 <= i < self.entries@.len() ==> (#[trigger] self.entries@[i]).document.wf()
    }

    /// Each document is held once.
    pub proof fn lemma_names_differ(self)
        requires
            self.wf(),
        ensures
            names_differ(self.held()),
    {
    }

    /// The tokens of a document before a command have identities of their own,
    /// and a document that is not held has none.
    pub proof fn lemma_identities_before(self, uri: Seq<char>, root: State)
        requires
            self.wf(),
        ensures
            ({
                let before = document_before(self.held(), uri, root);
                &&& identities_differ(before.lexical, before.next_occurrence)
                &&& place_of(self.held(), uri) >= self.held().len() ==> before.lexical.len() == 0
            }),
    {
        let place = place_of(self.held(), uri);
        lemma_place_found(self.held(), uri);
        if place < self.held().len() {
            assert(self.entries@[place].document.wf());
        }
    }

    /// A lexer that has lexed nothing.
    pub fn new(states: Vec<StateInfo>, tokens: Vec<Vec<ResolvedToken>>) -> (r: Self)
        ensures
            r.wf(),
            r.held() == Seq::<EntryView<R>>::empty(),
            r.spec_states() == states@,
            r.spec_tokens() == tokens@,
    {
        let r = Lexer { entries: Vec::new(), states, tokens };
        assert(r.held() =~= Seq::<EntryView<R>>::empty());
        r
    }

    fn find(&self, uri: &String) -> (r: usize)
        ensures
            r == place_of(self.held(), uri@),
            r <= self.entries@.len(),
    {
        let ghost held = self.held();
        let mut at: usize = 0;
        while at < self.entries.len()
            invariant
                at <= self.entries@.len(),
                held == self.held(),
                held.len() == self.entries@.len(),
                forall|i: int| 0 <= i < at ==> (#[trigger] held[i]).uri != uri@,
            decreases self.entries@.len() - at,
        {
            assert(held[at as int] == self.entries@[at as int]@);
            if self.entries[at].uri == *uri {
                proof {
                    lemma_place(held, uri@, at as int);
                }
                return at;
            }
            at += 1;
        }
        proof {
            lemma_place(held, uri@, at as int);
        }
        at
    }

    /// The tokens of a document.
    pub fn document(&self, uri: &String) -> (r: Option<&LexicalDocument<R>>)
        requires
            self.wf(),
        ensures
            match r {
                Some(document) => document.wf() && place_of(self.held(), uri@) < self.held().len()
                    && document@ == self.held()[place_of(self.held(), uri@)].document,
                None => place_of(self.held(), uri@) == self.held().len(),
            },
    {
        let at: usize = self.find(uri);
        if at < self.entries.len() {
            assert(self.held()[at as int] == self.entries@[at as int]@);
            Some(&self.entries[at].document)
        } else {
            None
        }
    }

    /// What the last command on a document did.
    pub fn incremental_stats(&self, uri: &String) -> (r: Option<IncrementalLexStats>)
        ensures
            r == if place_of(self.held(), uri@) < self.held().len() {
                Some(self.held()[place_of(self.held(), uri@)].stats)
            } else {
                None
            },
    {
        let at: usize = self.find(uri);
        if at < self.entries.len() {
            assert(self.held()[at as int] == self.entries@[at as int]@);
            Some(self.entries[at].stats)
        } else {
            None
        }
    }

    /// Forgets a document.
    pub fn forget_document(&mut self, uri: &String)
        requires
            old(self).wf(),
        ensures
            final(self).wf(),
            final(self).held() == without_entry(old(self).held(), uri@),
            final(self).spec_states() == old(self).spec_states(),
            final(self).spec_tokens() == old(self).spec_tokens(),
    {
        let at: usize = self.find(uri);
        if at < self.entries.len() {
            let ghost before = self.entries@;
            self.entries.remove(at);
            proof {
                assert(self.entries@ == before.remove(at as int));
                assert(self.held() =~= entry_views(before).remove(at as int));
                lemma_names_stay_apart(entry_views(before), uri@);
                assert forall|i: int| 0 <= i < self.entries@.len() implies (
                #[trigger] self.entries@[i]).document.wf() by {
                    if i < at {
                        assert(self.entries@[i] == before[i]);
                    } else {
                        assert(self.entries@[i] == before[i + 1]);
                    }
                }
            }
        }
    }

    /// Brings the tokens of a document up to date with its text. What comes of
    /// it is held, unless the text is as it was. Where it fails, what was held
    /// stays.
    pub fn derive_document<S: Scanner<R>>(
        &mut self,
        scanner: &S,
        root: State,
        uri: &String,
        source: &ropey::Rope,
        delta: &SourceDelta,
    ) -> (r: Result<LexDocument<R>, LexInterrupt>)
        requires
            old(self).wf(),
        ensures
            final(self).wf(),
            final(self).spec_states() == old(self).spec_states(),
            final(self).spec_tokens() == old(self).spec_tokens(),
            derivation(
                *scanner,
                document_before(old(self).held(), uri@, root),
                place_of(old(self).held(), uri@) == old(self).held().len(),
                *source,
                *delta,
                r,
            ),
            r is Ok ==> r->Ok_0.document.wf(),
            final(self).held() == match r {
                Ok(result) => match result.stats {
                    Some(stats) => with_entry(
                        old(self).held(),
                        EntryView { uri: uri@, document: result.document@, stats },
                    ),
                    None => old(self).held(),
                },
                Err(_) => old(self).held(),
            },
    {
        let ghost held = self.held();
        let at: usize = self.find(uri);
        let ghost first = root;
        let result = {
            let previous = if at < self.entries.len() {
                assert(held[at as int] == self.entries@[at as int]@);
                Some(&self.entries[at].document)
            } else {
                None
            };
            let id = document_id(uri.as_str());
            let result = derive_document(scanner, previous, id, root, source, delta);
            proof {
                assert(base_view(previous, id, first) == document_before(held, uri@, first));
            }
            result
        };
        match &result {
            Ok(found) => {
                if let Some(stats) = found.stats {
                    let entry = LexerEntry {
                        uri: uri.clone(),
                        document: found.document.copied(),
                        stats,
                    };
                    let ghost said = entry@;
                    let ghost before = self.entries@;
                    assert(said == (EntryView { uri: uri@, document: found.document@, stats }));
                    if at < self.entries.len() {
                        self.entries.set(at, entry);
                        assert(self.held() =~= held.update(at as int, said));
                    } else {
                        self.entries.push(entry);
                        assert(self.held() =~= held.push(said));
                    }
                    proof {
                        lemma_names_with(held, said);
                        assert forall|i: int| 0 <= i < self.entries@.len() implies (
                        #[trigger] self.entries@[i]).document.wf() by {
                            if i != at {
                                assert(self.entries@[i] == before[i]);
                            }
                        }
                    }
                }
            },
            Err(_) => {},
        }
        result
    }

    /// What is known of the states.
    pub fn state_info(&self) -> (r: &Vec<StateInfo>)
        ensures
            r@ == self.spec_states(),
    {
        &self.states
    }

    /// The tokens of all states.
    pub fn resolved_tokens(&self) -> (r: &Vec<Vec<ResolvedToken>>)
        ensures
            r@ == self.spec_tokens(),
    {
        &self.tokens
    }

    /// The tokens of a state.
    pub fn tokens_in_state(&self, state: &State) -> (r: Option<&Vec<ResolvedToken>>)
        ensures
            match r {
                Some(tokens) => state.id < self.spec_tokens().len() && *tokens
                    == self.spec_tokens()[state.id as int],
                None => state.id >= self.spec_tokens().len(),
            },
    {
        if state.id < self.tokens.len() {
            Some(&self.tokens[state.id])
        } else {
            None
        }
    }

    /// The token with an identity. Identities are those of one document, so the
    /// first document that knows one answers.
    pub fn token(&self, index: usize) -> (r: Option<LexToken<R>>)
        requires
            self.wf(),
        ensures
            r == token_among(self.held(), TokenOccurrenceId(index as u64)),
    {
        let ghost held = self.held();
        let id = TokenOccurrenceId(index as u64);
        let mut at: usize = 0;
        assert(held.take(0) =~= Seq::<EntryView<R>>::empty());
        while at < self.entries.len()
            invariant
                at <= self.entries@.len(),
                self.wf(),
                held == self.held(),
                held.len() == self.entries@.len(),
                id == TokenOccurrenceId(index as u64),
                token_among(held.take(at as int), id) is None,
            decreases self.entries@.len() - at,
        {
            proof {
                assert(held.take(at as int + 1).drop_last() =~= held.take(at as int));
                assert(held.take(at as int + 1).last() == self.entries@[at as int]@);
            }
            if let Some(token) = self.entries[at].document.lexical_token(id) {
                proof {
                    lemma_token_stays(held, id, at as int + 1);
                }
                return Some(token);
            }
            at += 1;
        }
        assert(held.take(at as int) =~= held);
        None
    }

    /// The terminal of the token with an identity; none for an error.
    pub fn terminal_of(&self, index: usize) -> (r: Option<TerminalId>)
        requires
            self.wf(),
        ensures
            r == match token_among(self.held(), TokenOccurrenceId(index as u64)) {
                Some(token) => if token.error is None {
                    token.terminal
                } else {
                    None
                },
                None => None,
            },
    {
        match self.token(index) {
            Some(token) => if token.error.is_none() {
                token.terminal
            } else {
                None
            },
            None => None,
        }
    }

    /// Where the token with an identity stands.
    pub fn token_span(&self, index: usize) -> (r: Option<Span>)
        requires
            self.wf(),
        ensures
            match r {
                Some(span) => span_among(self.held(), TokenOccurrenceId(index as u64)) == Some(
                    (span.uri@, span.range),
                ),
                None => span_among(self.held(), TokenOccurrenceId(index as u64)) is None,
            },
    {
        let ghost held = self.held();
        let id = TokenOccurrenceId(index as u64);
        let mut at: usize = 0;
        assert(held.take(0) =~= Seq::<EntryView<R>>::empty());
        while at < self.entries.len()
            invariant
                at <= self.entries@.len(),
                self.wf(),
                held == self.held(),
                held.len() == self.entries@.len(),
                id == TokenOccurrenceId(index as u64),
                span_among(held.take(at as int), id) is None,
            decreases self.entries@.len() - at,
        {
            proof {
                assert(held.take(at as int + 1).drop_last() =~= held.take(at as int));
                assert(held.take(at as int + 1).last() == self.entries@[at as int]@);
            }
            if let Some(range) = self.entries[at].document.token_range(id) {
                proof {
                    lemma_span_stays(held, id, at as int + 1);
                }
                return Some(Span { uri: self.entries[at].uri.clone(), range });
            }
            at += 1;
        }
        assert(held.take(at as int) =~= held);
        None
    }

    /// The tokens in a part of the text.
    pub fn tokens_in_span(&self, span: &Span) -> (r: Vec<LexToken<R>>)
        requires
            self.wf(),
        ensures
            r@ == if place_of(self.held(), span.uri@) < self.held().len() {
                let list = self.held()[place_of(self.held(), span.uri@)].document.lexical;
                tokens_from(
                    list,
                    rank_at(list, span.range.start as int),
                    span.range.start as int,
                    span.range.end as int,
                )
            } else {
                Seq::empty()
            },
    {
        match self.document(&span.uri) {
            Some(document) => document.tokens_in_span(span.range),
            None => Vec::new(),
        }
    }

    /// What the parser reads of the tokens in a part of the text.
    pub fn token_data_in_span(&self, span: &Span) -> (r: Vec<TokenData>)
        requires
            self.wf(),
        ensures
            r@ == if place_of(self.held(), span.uri@) < self.held().len() {
                let list = self.held()[place_of(self.held(), span.uri@)].document.lexical;
                datas_from(
                    list,
                    rank_at(list, span.range.start as int),
                    span.range.start as int,
                    span.range.end as int,
                )
            } else {
                Seq::empty()
            },
    {
        match self.document(&span.uri) {
            Some(document) => document.token_data_in_range(span.range),
            None => Vec::new(),
        }
    }
}

/// The tokens that a command on a document starts from.
pub open spec fn document_before<R>(
    entries: Seq<EntryView<R>>,
    uri: Seq<char>,
    root: State,
) -> LexicalView<R> {
    let place = place_of(entries, uri);
    if place < entries.len() {
        entries[place].document
    } else {
        blank(StableDocumentId(fnv1a(encode_utf8(uri))), root)
    }
}

/// A token that was found stays found.
proof fn lemma_token_stays<R>(entries: Seq<EntryView<R>>, id: TokenOccurrenceId, n: int)
    requires
        0 <= n <= entries.len(),
        token_among(entries.take(n), id) is Some,
    ensures
        token_among(entries, id) == token_among(entries.take(n), id),
    decreases entries.len() - n,
{
    if n < entries.len() {
        assert(entries.take(n + 1).drop_last() =~= entries.take(n));
        lemma_token_stays(entries, id, n + 1);
    } else {
        assert(entries.take(n) =~= entries);
    }
}

proof fn lemma_span_stays<R>(entries: Seq<EntryView<R>>, id: TokenOccurrenceId, n: int)
    requires
        0 <= n <= entries.len(),
        span_among(entries.take(n), id) is Some,
    ensures
        span_among(entries, id) == span_among(entries.take(n), id),
    decreases entries.len() - n,
{
    if n < entries.len() {
        assert(entries.take(n + 1).drop_last() =~= entries.take(n));
        lemma_span_stays(entries, id, n + 1);
    } else {
        assert(entries.take(n) =~= entries);
    }
}

/// A document that was forgotten is lexed from scratch: nothing of it is held.
pub proof fn lemma_forgotten<R>(entries: Seq<EntryView<R>>, uri: Seq<char>)
    requires
        names_differ(entries),
    ensures
        place_of(without_entry(entries, uri), uri) == without_entry(entries, uri).len(),
{
    let less = without_entry(entries, uri);
    lemma_place_found(entries, uri);
    assert forall|i: int| 0 <= i < less.len() implies (#[trigger] less[i]).uri != uri by {
        let place = place_of(entries, uri);
        if place < entries.len() {
            if i < place {
                assert(less[i] == entries[i]);
            } else {
                assert(less[i] == entries[i + 1]);
            }
        }
    }
    lemma_place(less, uri, less.len() as int);
}

/// The place of a document is the first one that has its name.
pub proof fn lemma_place_found<R>(entries: Seq<EntryView<R>>, uri: Seq<char>)
    ensures
        0 <= place_of(entries, uri) <= entries.len(),
        place_of(entries, uri) < entries.len() ==> entries[place_of(entries, uri)].uri == uri,
        forall|i: int| 0 <= i < place_of(entries, uri) ==> (#[trigger] entries[i]).uri != uri,
    decreases entries.len(),
{
    if entries.len() > 0 {
        let less = entries.drop_last();
        assert forall|i: int| 0 <= i < less.len() implies less[i] == entries[i] by {}
        lemma_place_found(less, uri);
        assert forall|i: int| 0 <= i < place_of(entries, uri) implies (
        #[trigger] entries[i]).uri != uri by {
            if i < less.len() {
                assert(less[i] == entries[i]);
            }
        }
    }
}

/// Forgetting a document gives no two others one name.
proof fn lemma_names_stay_apart<R>(entries: Seq<EntryView<R>>, uri: Seq<char>)
    requires
        names_differ(entries),
    ensures
        names_differ(without_entry(entries, uri)),
{
    let less = without_entry(entries, uri);
    let place = place_of(entries, uri);
    lemma_place_found(entries, uri);
    if place < entries.len() {
        assert forall|i: int, j: int| 0 <= i < j < less.len() implies (#[trigger] less[i]).uri != (
        #[trigger] less[j]).uri by {
            let a = if i < place {
                i
            } else {
                i + 1
            };
            let b = if j < place {
                j
            } else {
                j + 1
            };
            assert(less[i] == entries[a]);
            assert(less[j] == entries[b]);
        }
    }
}

/// Lexing a document gives no two one name.
proof fn lemma_names_with<R>(entries: Seq<EntryView<R>>, entry: EntryView<R>)
    requires
        names_differ(entries),
    ensures
        names_differ(with_entry(entries, entry)),
{
    let more = with_entry(entries, entry);
    let place = place_of(entries, entry.uri);
    lemma_place_found(entries, entry.uri);
    assert forall|i: int, j: int| 0 <= i < j < more.len() implies (#[trigger] more[i]).uri != (
    #[trigger] more[j]).uri by {
        if place < entries.len() {
            assert(more[i].uri == entries[i].uri);
            assert(more[j].uri == entries[j].uri);
        } else {
            assert(more[i] == entries[i]);
            if j < entries.len() {
                assert(more[j] == entries[j]);
            }
        }
    }
}

/// What a lexer holds of a document after lexing it is what it was lexed into.
pub proof fn lemma_entry_read_back<R>(entries: Seq<EntryView<R>>, entry: EntryView<R>)
    ensures
        ({
            let after = with_entry(entries, entry);
            let place = place_of(after, entry.uri);
            &&& place < after.len()
            &&& after[place] == entry
        }),
{
    let after = with_entry(entries, entry);
    let place = place_of(entries, entry.uri);
    lemma_place_found(entries, entry.uri);
    assert forall|i: int| 0 <= i < place implies (#[trigger] after[i]).uri != entry.uri by {
        assert(after[i] == entries[i]);
    }
    lemma_place(after, entry.uri, place);
}

} // verus!
