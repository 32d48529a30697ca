//! What of a document's tokens is handed out.

use std::sync::Arc;

use vstd::prelude::*;

use crate::framework::lex::lexed::{
    fingerprint_of, is_lexical_rank, parse_tokens, rank_at, semantic, start_of, LexicalDocument,
    LexicalOccurrence, LexicalView, OccurrenceView, StableDocumentId, TokenFact, TokenFactId,
    TokenFactKey, TokenFingerprint, TokenOccurrenceId, TokenPatch,
};
use crate::framework::lex::token::{
    LexErrorInfo, LexToken, LexerRoot, SYNTHETIC_EOF_ID,
};
use crate::framework::parse::delta::part_of;
use crate::framework::parse::tokens::{
    end_token, tokens_differ, ParserTokenDocument, TokenData, TokensView,
};
use crate::sort::{distinct_sorted, sorted_distinct};
use crate::text::{rope_bytes, rope_len_bytes};
use crate::utils::ByteRange;

verus! {

/// A number that does not run over.
pub open spec fn end_of(start: int, length: u32) -> usize {
    if start + length > usize::MAX {
        usize::MAX
    } else {
        (start + length) as usize
    }
}

/// A token with its place; none where its identity does not fit.
pub open spec fn placed<R>(token: OccurrenceView<R>, start: usize) -> Option<LexToken<R>> {
    if token.id.0 > usize::MAX {
        None
    } else {
        Some(
            LexToken {
                id: token.id.0 as usize,
                start,
                length: token.byte_len as usize,
                terminal: token.terminal,
                error: match token.error {
                    Some(kind) => Some(
                        LexErrorInfo { kind, start, end: end_of(start as int, token.byte_len) },
                    ),
                    None => None,
                },
                value: Arc::new(token.value),
            },
        )
    }
}

impl<R: LexerRoot> LexicalOccurrence<R> {
    /// The token with its place.
    pub fn materialize(&self, start: usize) -> (r: Option<LexToken<R>>)
        ensures
            r == placed(self@, start),
    {
        if self.id.0 > usize::MAX as u64 {
            return None;
        }
        let length: usize = self.byte_len as usize;
        let r = LexToken {
            id: self.id.0 as usize,
            start,
            length,
            terminal: self.terminal,
            error: match self.error {
                Some(kind) => Some(LexErrorInfo { kind, start, end: start.saturating_add(length) }),
                None => None,
            },
            value: Arc::clone(&self.value),
        };
        Some(r)
    }
}

/// The tokens from a rank on that start before a byte and reach beyond another.
pub open spec fn tokens_from<R>(
    list: Seq<OccurrenceView<R>>,
    rank: int,
    from: int,
    to: int,
) -> Seq<LexToken<R>>
    decreases list.len() - rank,
{
    if rank < 0 || rank >= list.len() || start_of(list, rank) >= to {
        Seq::empty()
    } else {
        let start = start_of(list, rank) as usize;
        let rest = tokens_from(list, rank + 1, from, to);
        match placed(list[rank], start) {
            Some(token) => if end_of(start as int, list[rank].byte_len) > from {
                seq![token] + rest
            } else {
                rest
            },
            None => rest,
        }
    }
}

/// The tokens of a document that the parser sees, with their places.
pub open spec fn listed_tokens<R>(list: Seq<OccurrenceView<R>>, upto: int) -> Seq<LexToken<R>>
    decreases upto,
{
    if upto <= 0 {
        Seq::empty()
    } else {
        let before = listed_tokens(list, upto - 1);
        let token = list[upto - 1];
        match placed(token, start_of(list, upto - 1) as usize) {
            Some(found) => if semantic(token) {
                before.push(found)
            } else {
                before
            },
            None => before,
        }
    }
}

/// The errors of a document, with their places.
pub open spec fn listed_errors<R>(list: Seq<OccurrenceView<R>>, upto: int) -> Seq<LexErrorInfo>
    decreases upto,
{
    if upto <= 0 {
        Seq::empty()
    } else {
        let before = listed_errors(list, upto - 1);
        let token = list[upto - 1];
        let start = start_of(list, upto - 1) as usize;
        match token.error {
            Some(kind) => before.push(
                LexErrorInfo { kind, start, end: end_of(start as int, token.byte_len) },
            ),
            None => before,
        }
    }
}

/// The key of the fact of a token.
pub open spec fn fact_key(document: StableDocumentId, id: TokenOccurrenceId) -> TokenFactKey {
    TokenFactKey { document_id: document.0, token: TokenFactId::Source(id) }
}

/// The fact of a token.
pub open spec fn fact_of<R: LexerRoot>(token: OccurrenceView<R>) -> TokenFact<R> {
    TokenFact {
        terminal_id: match token.terminal {
            Some(terminal) => terminal as usize,
            None => usize::MAX,
        },
        fingerprint: TokenFingerprint(fingerprint_of(token)),
        value: Arc::new(token.value),
    }
}

/// A fact that is published.
pub struct FactWrite<R> {
    pub key: TokenFactKey,
    pub fact: TokenFact<R>,
}

/// What is published of tokens.
pub struct FactChanges<R> {
    pub removed: Vec<TokenFactKey>,
    pub written: Vec<FactWrite<R>>,
}

/// The facts of all tokens of a document that the parser sees.
pub open spec fn all_facts<R: LexerRoot>(v: LexicalView<R>, upto: int) -> Seq<FactWrite<R>>
    decreases upto,
{
    if upto <= 0 {
        Seq::empty()
    } else {
        let before = all_facts(v, upto - 1);
        let token = v.lexical[upto - 1];
        if semantic(token) {
            before.push(FactWrite { key: fact_key(v.document, token.id), fact: fact_of(token) })
        } else {
            before
        }
    }
}

/// The token with an identity that the parser sees.
pub open spec fn seen_token<R>(v: LexicalView<R>, id: TokenOccurrenceId) -> Option<
    OccurrenceView<R>,
> {
    if exists|rank: int| #[trigger] is_lexical_rank(v, id, rank) {
        let rank = choose|rank: int| #[trigger] is_lexical_rank(v, id, rank);
        if semantic(v.lexical[rank]) {
            Some(v.lexical[rank])
        } else {
            None
        }
    } else {
        None
    }
}

/// The facts of tokens with given identities.
pub open spec fn facts_for<R: LexerRoot>(v: LexicalView<R>, ids: Seq<TokenOccurrenceId>) -> Seq<
    FactWrite<R>,
>
    decreases ids.len(),
{
    if ids.len() == 0 {
        Seq::empty()
    } else {
        let before = facts_for(v, ids.drop_last());
        match seen_token(v, ids.last()) {
            Some(token) => before.push(
                FactWrite { key: fact_key(v.document, ids.last()), fact: fact_of(token) },
            ),
            None => before,
        }
    }
}

fn write_of<R: LexerRoot>(document: StableDocumentId, token: &LexicalOccurrence<R>) -> (r: FactWrite<
    R,
>)
    ensures
        r.key == fact_key(document, token@.id),
        r.fact == fact_of(token@),
{
    FactWrite {
        key: TokenFactKey { document_id: document.0, token: TokenFactId::Source(token.id) },
        fact: TokenFact {
            terminal_id: token.terminal_key(),
            fingerprint: token.fingerprint(),
            value: Arc::clone(&token.value),
        },
    }
}

fn keys_of(document: StableDocumentId, ids: &Vec<TokenOccurrenceId>) -> (r: Vec<TokenFactKey>)
    ensures
        r@ == Seq::new(ids@.len(), |i: int| fact_key(document, ids@[i])),
{
    let mut out: Vec<TokenFactKey> = Vec::new();
    let mut at: usize = 0;
    while at < ids.len()
        invariant
            at <= ids@.len(),
            out@.len() == at,
            forall|i: int| 0 <= i < at ==> #[trigger] out@[i] == fact_key(document, ids@[i]),
        decreases ids@.len() - at,
    {
        out.push(TokenFactKey { document_id: document.0, token: TokenFactId::Source(ids[at]) });
        at += 1;
    }
    assert(out@ =~= Seq::new(ids@.len(), |i: int| fact_key(document, ids@[i])));
    out
}

/// What a patch publishes: what went is taken back, and what came or changed is
/// written.
pub fn patch_token_facts<R: LexerRoot>(document: &LexicalDocument<R>, patch: &TokenPatch) -> (r:
    FactChanges<R>)
    requires
        document.wf(),
    ensures
        r.removed@ == Seq::new(
            patch.removed@.len(),
            |i: int| fact_key(document.document, patch.removed@[i]),
        ),
        r.written@ == facts_for(
            document@,
            distinct_sorted((patch.inserted@ + patch.updated@).to_set()),
        ),
{
    let ghost v = document@;
    let mut all = part_of(&patch.inserted, 0, patch.inserted.len());
    assert(patch.inserted@.subrange(0, patch.inserted@.len() as int) =~= patch.inserted@);
    let mut more = part_of(&patch.updated, 0, patch.updated.len());
    assert(patch.updated@.subrange(0, patch.updated@.len() as int) =~= patch.updated@);
    all.append(&mut more);
    let changed = sorted_distinct(&all);
    let ghost ids = changed@;
    let mut written: Vec<FactWrite<R>> = Vec::new();
    let mut at: usize = 0;
    assert(ids.take(0) =~= Seq::<TokenOccurrenceId>::empty());
    while at < changed.len()
        invariant
            at <= changed@.len(),
            ids == changed@,
            v == document@,
            document.wf(),
            written@ == facts_for(v, ids.take(at as int)),
        decreases changed@.len() - at,
    {
        let id = changed[at];
        proof {
            assert(ids.take(at as int + 1).drop_last() =~= ids.take(at as int));
        }
        if let Some(rank) = document.lexical_rank_of(id) {
            if let Some(token) = document.lexical_at(rank) {
                proof {
                    lemma_seen_token(v, document.next_occurrence, id, rank as int);
                }
                if token.is_semantic() {
                    written.push(write_of(document.document, token));
                }
            }
        }
        at += 1;
    }
    assert(ids.take(at as int) =~= ids);
    FactChanges { removed: keys_of(document.document, &patch.removed), written }
}

/// The token with an identity is the one at its rank.
pub proof fn lemma_seen_token<R>(v: LexicalView<R>, next: u64, id: TokenOccurrenceId, rank: int)
    requires
        crate::framework::lex::lexed::identities_differ(v.lexical, next),
        is_lexical_rank(v, id, rank),
    ensures
        seen_token(v, id) == if semantic(v.lexical[rank]) {
            Some(v.lexical[rank])
        } else {
            None
        },
{
    let other = choose|other: int| #[trigger] is_lexical_rank(v, id, other);
    assert(is_lexical_rank(v, id, other));
    if other < rank {
        assert(v.lexical[other].id != v.lexical[rank].id);
    } else if rank < other {
        assert(v.lexical[rank].id != v.lexical[other].id);
    }
}

/// What is published of a document that was known but not published: all
/// tokens.
pub fn republish_token_facts<R: LexerRoot>(document: &LexicalDocument<R>) -> (r: FactChanges<R>)
    ensures
        r.removed@.len() == 0,
        r.written@ == all_facts(document@, document@.lexical.len() as int),
{
    let ghost v = document@;
    let mut written: Vec<FactWrite<R>> = Vec::new();
    let mut at: usize = 0;
    while at < document.lexical.len()
        invariant
            at <= document.lexical@.len(),
            v == document@,
            written@ == all_facts(v, at as int),
        decreases document.lexical@.len() - at,
    {
        let token = &document.lexical[at];
        assert(v.lexical[at as int] == token@);
        if token.is_semantic() {
            written.push(write_of(document.document, token));
        }
        at += 1;
    }
    FactChanges { removed: Vec::new(), written }
}

/// What is taken back where a document is closed: all tokens that the parser
/// sees.
pub fn retract_token_facts<R: LexerRoot>(document: &LexicalDocument<R>) -> (r: FactChanges<R>)
    requires
        document.wf(),
    ensures
        r.written@.len() == 0,
        r.removed@ == Seq::new(
            parse_tokens(document@.lexical).len(),
            |i: int| fact_key(document.document, parse_tokens(document@.lexical)[i].occurrence),
        ),
{
    let ghost all = parse_tokens(document@.lexical);
    let mut removed: Vec<TokenFactKey> = Vec::new();
    let mut at: usize = 0;
    while at < document.semantic.len()
        invariant
            at <= document.semantic@.len(),
            document.semantic@ == all,
            removed@.len() == at,
            forall|i: int|
                0 <= i < at ==> #[trigger] removed@[i] == fact_key(
                    document.document,
                    all[i].occurrence,
                ),
        decreases document.semantic@.len() - at,
    {
        removed.push(
            TokenFactKey {
                document_id: document.document.0,
                token: TokenFactId::Source(document.semantic[at].occurrence),
            },
        );
        at += 1;
    }
    assert(removed@ =~= Seq::new(all.len(), |i: int| fact_key(document.document, all[i].occurrence)));
    FactChanges { removed, written: Vec::new() }
}

/// What is published of the tokens of a document after a command. A document
/// that the lexer knew, and of which nothing is published, is published whole.
pub fn publish_token_facts<R: LexerRoot>(
    document: &LexicalDocument<R>,
    patch: &TokenPatch,
    had_private_document: bool,
    was_published: bool,
) -> (r: FactChanges<R>)
    requires
        document.wf(),
    ensures
        had_private_document && !was_published ==> r.removed@.len() == 0 && r.written@ == all_facts(
            document@,
            document@.lexical.len() as int,
        ),
        !(had_private_document && !was_published) ==> r.removed@ == Seq::new(
            patch.removed@.len(),
            |i: int| fact_key(document.document, patch.removed@[i]),
        ) && r.written@ == facts_for(
            document@,
            distinct_sorted((patch.inserted@ + patch.updated@).to_set()),
        ),
{
    if had_private_document && !was_published {
        republish_token_facts(document)
    } else {
        patch_token_facts(document, patch)
    }
}

/// What the parser reads of a token.
pub open spec fn data_of<R: LexerRoot>(list: Seq<OccurrenceView<R>>, rank: int) -> TokenData {
    TokenData {
        id: list[rank].id.0 as usize,
        terminal: list[rank].terminal,
        start: start_of(list, rank) as usize,
        length: list[rank].byte_len as usize,
        column: list[rank].id,
        fingerprint: fingerprint_of(list[rank]),
    }
}

/// What the parser reads of tokens.
pub open spec fn datas_of<R: LexerRoot>(list: Seq<OccurrenceView<R>>, upto: int) -> Seq<TokenData>
    decreases upto,
{
    if upto <= 0 {
        Seq::empty()
    } else if semantic(list[upto - 1]) {
        datas_of(list, upto - 1).push(data_of(list, upto - 1))
    } else {
        datas_of(list, upto - 1)
    }
}

impl<R: LexerRoot> LexicalDocument<R> {
    /// What the parser reads of the tokens, without the end.
    fn token_datas(&self) -> (r: Vec<TokenData>)
        requires
            self.wf(),
        ensures
            r@ == datas_of(self@.lexical, self@.lexical.len() as int),
    {
        let ghost list = self@.lexical;
        let mut out: Vec<TokenData> = Vec::new();
        let mut at: usize = 0;
        while at < self.lexical.len()
            invariant
                at <= self.lexical@.len(),
                self.wf(),
                list == self@.lexical,
                out@ == datas_of(list, at as int),
            decreases self.lexical@.len() - at,
        {
            let token = &self.lexical[at];
            assert(list[at as int] == token@);
            if token.is_semantic() {
                let start: usize = self.lexical_start(at);
                out.push(
                    TokenData {
                        id: token.id.0 as usize,
                        terminal: token.terminal,
                        start,
                        length: token.byte_len as usize,
                        column: token.id,
                        fingerprint: token.fingerprint().0,
                    },
                );
            }
            at += 1;
        }
        out
    }

    /// What the parser reads of the tokens, with the end.
    pub fn token_data_snapshot(&self) -> (r: Vec<TokenData>)
        requires
            self.wf(),
        ensures
            r@ == datas_of(self@.lexical, self@.lexical.len() as int).push(
                end_token(rope_bytes(self.source).len() as usize),
            ),
    {
        let mut out = self.token_datas();
        out.push(
            TokenData {
                id: SYNTHETIC_EOF_ID,
                terminal: None,
                start: rope_len_bytes(&self.source),
                length: 0,
                column: TokenOccurrenceId(u64::MAX),
                fingerprint: crate::framework::parse::identity::eof_fingerprint(),
            },
        );
        out
    }

    /// The tokens in a part of the text.
    pub fn tokens_in_span(&self, range: ByteRange) -> (r: Vec<LexToken<R>>)
        requires
            self.wf(),
        ensures
            r@ == tokens_from(
                self@.lexical,
                rank_at(self@.lexical, range.start as int),
                range.start as int,
                range.end as int,
            ),
    {
        let ghost list = self@.lexical;
        let first: usize = self.lexical_rank_at_byte(range.start);
        let mut out: Vec<LexToken<R>> = Vec::new();
        let mut at: usize = first;
        let ghost all = tokens_from(list, first as int, range.start as int, range.end as int);
        proof {
            crate::framework::lex::lexed::lemma_rank_at(list, range.start as int);
            assert(out@ + all =~= all);
        }
        while at < self.lexical.len()
            invariant
                self.wf(),
                list == self@.lexical,
                first <= at <= self.lexical@.len(),
                first == rank_at(list, range.start as int),
                all == tokens_from(list, first as int, range.start as int, range.end as int),
                all == out@ + tokens_from(list, at as int, range.start as int, range.end as int),
            decreases self.lexical@.len() - at,
        {
            let start: usize = self.lexical_start(at);
            let token = &self.lexical[at];
            assert(list[at as int] == token@);
            if start >= range.end {
                assert(all =~= out@);
                return out;
            }
            let ghost before = out@;
            let ghost rest = tokens_from(list, at as int + 1, range.start as int, range.end as int);
            let end: usize = start.saturating_add(token.byte_len as usize);
            if end > range.start {
                if let Some(found) = token.materialize(start) {
                    out.push(found);
                    assert(before + (seq![found] + rest) =~= out@ + rest);
                }
            }
            assert(all == out@ + rest);
            at += 1;
        }
        assert(all =~= out@);
        out
    }

    /// The tokens that the parser sees, with their places.
    pub fn token_list(&self) -> (r: Vec<LexToken<R>>)
        requires
            self.wf(),
        ensures
            r@ == listed_tokens(self@.lexical, self@.lexical.len() as int),
    {
        let ghost list = self@.lexical;
        let mut out: Vec<LexToken<R>> = Vec::new();
        let mut at: usize = 0;
        while at < self.lexical.len()
            invariant
                at <= self.lexical@.len(),
                self.wf(),
                list == self@.lexical,
                out@ == listed_tokens(list, at as int),
            decreases self.lexical@.len() - at,
        {
            let token = &self.lexical[at];
            assert(list[at as int] == token@);
            if token.is_semantic() {
                let start: usize = self.lexical_start(at);
                if let Some(found) = token.materialize(start) {
                    out.push(found);
                }
            }
            at += 1;
        }
        out
    }

    /// The errors, with their places.
    pub fn error_list(&self) -> (r: Vec<LexErrorInfo>)
        requires
            self.wf(),
        ensures
            r@ == listed_errors(self@.lexical, self@.lexical.len() as int),
    {
        let ghost list = self@.lexical;
        let mut out: Vec<LexErrorInfo> = Vec::new();
        let mut at: usize = 0;
        while at < self.lexical.len()
            invariant
                at <= self.lexical@.len(),
                self.wf(),
                list == self@.lexical,
                out@ == listed_errors(list, at as int),
            decreases self.lexical@.len() - at,
        {
            let token = &self.lexical[at];
            assert(list[at as int] == token@);
            if let Some(kind) = token.error {
                let start: usize = self.lexical_start(at);
                out.push(
                    LexErrorInfo {
                        kind,
                        start,
                        end: start.saturating_add(token.byte_len as usize),
                    },
                );
            }
            at += 1;
        }
        out
    }
}

proof fn lemma_datas<R: LexerRoot>(list: Seq<OccurrenceView<R>>, next: u64, upto: int)
    requires
        crate::framework::lex::lexed::identities_differ(list, next),
        0 <= upto <= list.len(),
    ensures
        tokens_differ(datas_of(list, upto)),
        forall|k: int|
            0 <= k < datas_of(list, upto).len() ==> exists|i: int|
                0 <= i < upto && (#[trigger] list[i]).id == (#[trigger] datas_of(
                    list,
                    upto,
                )[k]).column,
    decreases upto,
{
    if upto > 0 {
        lemma_datas(list, next, upto - 1);
        let before = datas_of(list, upto - 1);
        let all = datas_of(list, upto);
        assert forall|k: int| 0 <= k < all.len() implies exists|i: int|
            0 <= i < upto && (#[trigger] list[i]).id == (#[trigger] all[k]).column by {
            if k < before.len() {
                assert(all[k] == before[k]);
                let i = choose|i: int|
                    0 <= i < upto - 1 && (#[trigger] list[i]).id == before[k].column;
                assert(list[i].id == all[k].column);
            } else {
                assert(list[upto - 1].id == all[k].column);
            }
        }
        assert forall|i: int, j: int| 0 <= i < j < all.len() implies (#[trigger] all[i]).column != (
        #[trigger] all[j]).column by {
            assert(all[i] == before[i]);
            if j < before.len() {
                assert(all[j] == before[j]);
            } else {
                let k = choose|k: int|
                    0 <= k < upto - 1 && (#[trigger] list[k]).id == before[i].column;
                assert(list[k].id != list[upto - 1].id);
            }
        }
    }
}

impl ParserTokenDocument {
    /// What the parser reads of a document.
    pub fn from_lexical<R: LexerRoot>(document: &LexicalDocument<R>) -> (r: Option<Self>)
        requires
            document.wf(),
        ensures
            r is Some,
            r->Some_0.wf(),
            r->Some_0.layout() == document.layout_revision,
            r->Some_0@ == (TokensView {
                document: document.document,
                source_len: rope_bytes(document.source).len() as usize,
                tokens: datas_of(document@.lexical, document@.lexical.len() as int),
            }),
    {
        let tokens = document.token_datas();
        proof {
            lemma_datas(
                document@.lexical,
                document.next_occurrence,
                document@.lexical.len() as int,
            );
        }
        ParserTokenDocument::new(
            document.document,
            rope_len_bytes(&document.source),
            document.layout_revision,
            tokens,
        )
    }
}

} // verus!
