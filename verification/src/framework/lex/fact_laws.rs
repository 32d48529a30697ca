//! Which facts of tokens are out, and what is found by identity and by place.

use vstd::prelude::*;

use crate::framework::lex::laws::facts_out;
use crate::framework::lex::lexed::{
    fingerprint_of, identities_differ, is_lexical_rank, lemma_rank_at, lemma_start_grows, rank_at,
    start_of, LexicalView, OccurrenceView, TokenFactId, TokenFactKey, TokenOccurrenceId,
};
use crate::framework::lex::lexer::{
    datas_from, range_in, span_among, token_among, token_in, EntryView,
};
use crate::framework::lex::publish::{data_of, lemma_seen_token, seen_token};
use crate::framework::lex::tape_laws::{
    lemma_tokens_stand_in_line, overlaps, ranks_rise, seen, stands_for,
};
use crate::framework::lex::token::LexerRoot;
use crate::framework::parse::tokens::TokenData;

verus! {

/// The facts that are out of a document are those of the tokens that the parser
/// sees, errors among them: each under its document and identity, with its
/// terminal and value.
pub proof fn lemma_seen_tokens_have_facts<R: LexerRoot>(v: LexicalView<R>, rank: int)
    requires
        identities_differ(v.lexical, v.next_occurrence),
        0 <= rank < v.lexical.len(),
    ensures
        ({
            let token = v.lexical[rank];
            let key = TokenFactKey {
                document_id: v.document.0,
                token: TokenFactId::Source(token.id),
            };
            let out = facts_out(v);
            &&& out.dom().contains(key) <==> seen(token)
            &&& seen(token) ==> {
                &&& out[key].terminal_id == match token.terminal {
                    Some(terminal) => terminal as usize,
                    None => usize::MAX,
                }
                &&& *out[key].value == token.value
                &&& out[key].fingerprint.0 == fingerprint_of(token)
            }
        }),
{
    let token = v.lexical[rank];
    assert(is_lexical_rank(v, token.id, rank));
    lemma_seen_token(v, v.next_occurrence, token.id, rank);
}

/// No fact is out but that of a token of the document.
pub proof fn lemma_facts_are_of_tokens<R: LexerRoot>(v: LexicalView<R>, key: TokenFactKey)
    requires
        facts_out(v).dom().contains(key),
    ensures
        key.document_id == v.document.0,
        exists|rank: int| #[trigger]
            is_lexical_rank(v, key.token->Source_0, rank) && key == (TokenFactKey {
                document_id: v.document.0,
                token: TokenFactId::Source(v.lexical[rank].id),
            }) && seen(v.lexical[rank]),
{
    let id = key.token->Source_0;
    assert(seen_token(v, id) is Some);
    let rank = choose|rank: int| #[trigger] is_lexical_rank(v, id, rank);
    assert(is_lexical_rank(v, id, rank));
}

/// A token is found by its identity, with its place.
pub proof fn lemma_token_is_found<R>(v: LexicalView<R>, rank: int)
    requires
        identities_differ(v.lexical, v.next_occurrence),
        0 <= rank < v.lexical.len(),
        v.lexical[rank].id.0 <= usize::MAX,
        start_of(v.lexical, v.lexical.len() as int) <= usize::MAX,
    ensures
        ({
            let token = v.lexical[rank];
            let start = start_of(v.lexical, rank);
            &&& token_in(v, token.id) is Some
            &&& stands_for(token_in(v, token.id)->Some_0, token, start as int)
            &&& range_in(v, token.id) is Some
            &&& range_in(v, token.id)->Some_0.start == start
            &&& range_in(v, token.id)->Some_0.end == start + token.byte_len
        }),
{
    let token = v.lexical[rank];
    assert(is_lexical_rank(v, token.id, rank));
    let other = choose|other: int| #[trigger] is_lexical_rank(v, token.id, other);
    assert(is_lexical_rank(v, token.id, other));
    if other < rank {
        assert(v.lexical[other].id != v.lexical[rank].id);
    } else if rank < other {
        assert(v.lexical[rank].id != v.lexical[other].id);
    }
    lemma_tokens_stand_in_line(v.lexical, rank);
    lemma_start_grows(v.lexical, rank + 1, v.lexical.len() as int);
}

/// What no token bears is not found.
pub proof fn lemma_token_is_not_found<R>(v: LexicalView<R>, id: TokenOccurrenceId)
    requires
        forall|rank: int| 0 <= rank < v.lexical.len() ==> (#[trigger] v.lexical[rank]).id != id,
    ensures
        token_in(v, id) is None,
        range_in(v, id) is None,
{
    if exists|rank: int| #[trigger] is_lexical_rank(v, id, rank) {
        let rank = choose|rank: int| #[trigger] is_lexical_rank(v, id, rank);
        assert(v.lexical[rank].id == id);
    }
}

/// A token is found among documents where one of them has it: the one of the
/// first that does.
pub proof fn lemma_token_is_found_among<R>(
    entries: Seq<EntryView<R>>,
    id: TokenOccurrenceId,
    i: int,
)
    requires
        0 <= i < entries.len(),
        forall|j: int| 0 <= j < i ==> token_in((#[trigger] entries[j]).document, id) is None,
        forall|j: int| 0 <= j < i ==> range_in((#[trigger] entries[j]).document, id) is None,
    ensures
        token_in(entries[i].document, id) is Some ==> token_among(entries, id) == token_in(
            entries[i].document,
            id,
        ),
        range_in(entries[i].document, id) is Some ==> span_among(entries, id) == Some(
            (entries[i].uri, range_in(entries[i].document, id)->Some_0),
        ),
    decreases entries.len(),
{
    let rest = entries.drop_last();
    if i == entries.len() - 1 {
        lemma_none_among(rest, id);
    } else {
        assert forall|j: int| 0 <= j < i implies token_in(
            (#[trigger] rest[j]).document,
            id,
        ) is None && range_in(rest[j].document, id) is None by {
            assert(rest[j] == entries[j]);
        }
        assert(rest[i] == entries[i]);
        lemma_token_is_found_among(rest, id, i);
    }
}

proof fn lemma_none_among<R>(entries: Seq<EntryView<R>>, id: TokenOccurrenceId)
    requires
        forall|j: int|
            0 <= j < entries.len() ==> token_in((#[trigger] entries[j]).document, id) is None,
        forall|j: int|
            0 <= j < entries.len() ==> range_in((#[trigger] entries[j]).document, id) is None,
    ensures
        token_among(entries, id) is None,
        span_among(entries, id) is None,
    decreases entries.len(),
{
    if entries.len() > 0 {
        let rest = entries.drop_last();
        assert forall|j: int| 0 <= j < rest.len() implies token_in(
            (#[trigger] rest[j]).document,
            id,
        ) is None && range_in(rest[j].document, id) is None by {
            assert(rest[j] == entries[j]);
        }
        lemma_none_among(rest, id);
        let last = entries[entries.len() - 1];
        assert(token_in(last.document, id) is None);
    }
}

/// What the parser reads of a token stands in a part of the text, and is that of
/// a token that it sees.
pub open spec fn is_read_in<R>(
    list: Seq<OccurrenceView<R>>,
    rank: int,
    from: int,
    to: int,
) -> bool {
    overlaps(list, rank, from, to) && seen(list[rank])
}

proof fn lemma_datas_from_rank<R: LexerRoot>(
    list: Seq<OccurrenceView<R>>,
    rank: int,
    from: int,
    to: int,
) -> (ranks: Seq<int>)
    requires
        0 <= rank <= list.len(),
        start_of(list, list.len() as int) <= usize::MAX,
    ensures
        ranks_rise(ranks),
        forall|k: int|
            0 <= k < ranks.len() ==> rank <= #[trigger] ranks[k] < list.len() && is_read_in(
                list,
                ranks[k],
                from,
                to,
            ),
        forall|k: int|
            rank <= k < list.len() && #[trigger] is_read_in(list, k, from, to) ==> ranks.contains(
                k,
            ),
        datas_from(list, rank, from, to).len() == ranks.len(),
        forall|k: int|
            0 <= k < ranks.len() ==> #[trigger] datas_from(list, rank, from, to)[k] == data_of(
                list,
                ranks[k],
            ),
    decreases list.len() - rank,
{
    if rank == list.len() {
        Seq::empty()
    } else if start_of(list, rank) >= to {
        assert forall|k: int| rank <= k < list.len() && #[trigger] is_read_in(
            list,
            k,
            from,
            to,
        ) implies Seq::<int>::empty().contains(k) by {
            lemma_start_grows(list, rank, k);
        }
        Seq::empty()
    } else {
        let rest = lemma_datas_from_rank(list, rank + 1, from, to);
        lemma_tokens_stand_in_line(list, rank);
        lemma_start_grows(list, rank + 1, list.len() as int);
        let below = datas_from(list, rank + 1, from, to);
        let all = datas_from(list, rank, from, to);
        if is_read_in(list, rank, from, to) {
            let ranks = seq![rank] + rest;
            assert(all == seq![data_of(list, rank)] + below);
            assert forall|i: int, j: int| 0 <= i < j < ranks.len() implies #[trigger] ranks[i]
                < #[trigger] ranks[j] by {
                assert(ranks[j] == rest[j - 1]);
                if i > 0 {
                    assert(ranks[i] == rest[i - 1]);
                }
            }
            assert forall|k: int| rank <= k < list.len() && #[trigger] is_read_in(
                list,
                k,
                from,
                to,
            ) implies ranks.contains(k) by {
                if k == rank {
                    assert(ranks[0] == k);
                } else {
                    assert(rest.contains(k));
                    let at = rest.index_of(k);
                    assert(ranks[at + 1] == k);
                }
            }
            assert forall|k: int| 0 <= k < ranks.len() implies #[trigger] all[k] == data_of(
                list,
                ranks[k],
            ) by {
                if k > 0 {
                    assert(all[k] == below[k - 1]);
                    assert(ranks[k] == rest[k - 1]);
                }
            }
            assert forall|k: int| 0 <= k < ranks.len() implies rank <= #[trigger] ranks[k]
                < list.len() && is_read_in(list, ranks[k], from, to) by {
                if k > 0 {
                    assert(ranks[k] == rest[k - 1]);
                }
            }
            ranks
        } else {
            assert(all == below);
            rest
        }
    }
}

/// What the parser reads in a part of the text is what it reads of the tokens
/// that it sees and that reach into it, in order and with their places.
pub proof fn lemma_parser_reads_a_part<R: LexerRoot>(
    list: Seq<OccurrenceView<R>>,
    from: int,
    to: int,
) -> (ranks: Seq<int>)
    requires
        from >= 0,
        start_of(list, list.len() as int) <= usize::MAX,
    ensures
        ranks_rise(ranks),
        forall|rank: int|
            0 <= rank < list.len() ==> (#[trigger] is_read_in(list, rank, from, to)
                <==> ranks.contains(rank)),
        datas_from(list, rank_at(list, from), from, to).len() == ranks.len(),
        forall|k: int|
            0 <= k < ranks.len() ==> #[trigger] datas_from(
                list,
                rank_at(list, from),
                from,
                to,
            )[k] == (TokenData {
                id: list[ranks[k]].id.0 as usize,
                terminal: list[ranks[k]].terminal,
                start: start_of(list, ranks[k]) as usize,
                length: list[ranks[k]].byte_len as usize,
                column: list[ranks[k]].id,
                fingerprint: fingerprint_of(list[ranks[k]]),
            }),
{
    let first = rank_at(list, from);
    lemma_rank_at(list, from);
    let ranks = lemma_datas_from_rank(list, first, from, to);
    assert forall|rank: int| 0 <= rank < list.len() implies (#[trigger] is_read_in(
        list,
        rank,
        from,
        to,
    ) <==> ranks.contains(rank)) by {
        if ranks.contains(rank) {
            let k = ranks.index_of(rank);
            assert(is_read_in(list, ranks[k], from, to));
        }
        if rank < first {
            lemma_tokens_stand_in_line(list, rank);
            lemma_start_grows(list, rank + 1, first);
        }
    }
    ranks
}

} // verus!
