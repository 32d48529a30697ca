//! Which tokens of a document are handed out, and where they stand.

use vstd::prelude::*;

use crate::framework::lex::lexed::{
    fingerprint_of, lemma_rank_at, lemma_start_grows, parse_tokens, rank_at, start_of,
    OccurrenceView, TokenOccurrenceId,
};
use crate::framework::lex::patch::{joined_splices, with_splice, with_splices, SpliceView};
use crate::framework::lex::publish::{
    data_of, datas_of, listed_errors, listed_tokens, placed, tokens_from,
};
use crate::framework::lex::token::{LexErrorInfo, LexToken, LexerRoot};
use crate::framework::parse::tokens::TokenData;

verus! {

/// The parser sees a token: one that is an error, and one with a terminal that is
/// not skipped.
pub open spec fn seen<R>(token: OccurrenceView<R>) -> bool {
    token.error is Some || (token.terminal is Some && !token.skip)
}

/// Ranks rise.
pub open spec fn ranks_rise(ranks: Seq<int>) -> bool {
    forall|i: int, j: int| 0 <= i < j < ranks.len() ==> #[trigger] ranks[i] < #[trigger] ranks[j]
}

/// Tokens stand one behind the other: the first at the start of the text, and
/// each where the one before it ends.
pub proof fn lemma_tokens_stand_in_line<R>(list: Seq<OccurrenceView<R>>, rank: int)
    requires
        0 <= rank < list.len(),
    ensures
        start_of(list, 0) == 0,
        start_of(list, rank + 1) == start_of(list, rank) + list[rank].byte_len,
{
    assert(list.take(0) =~= Seq::<OccurrenceView<R>>::empty());
    let upto = list.take(rank + 1);
    assert(upto.drop_last() =~= list.take(rank));
    assert(upto.last() == list[rank]);
    if rank + 1 == list.len() {
        assert(list.take(list.len() as int) =~= upto);
    }
}

proof fn lemma_ranks_push(ranks: Seq<int>, rank: int)
    requires
        ranks_rise(ranks),
        forall|k: int| 0 <= k < ranks.len() ==> #[trigger] ranks[k] < rank,
    ensures
        ranks_rise(ranks.push(rank)),
{
}

proof fn lemma_seen_until<R: LexerRoot>(list: Seq<OccurrenceView<R>>, upto: int) -> (ranks: Seq<
    int,
>)
    requires
        0 <= upto <= list.len(),
    ensures
        ranks_rise(ranks),
        forall|k: int|
            0 <= k < ranks.len() ==> 0 <= #[trigger] ranks[k] < upto && seen(list[ranks[k]]),
        forall|rank: int|
            0 <= rank < upto && seen(#[trigger] list[rank]) ==> ranks.contains(rank),
        datas_of(list, upto).len() == ranks.len(),
        forall|k: int|
            0 <= k < ranks.len() ==> #[trigger] datas_of(list, upto)[k] == data_of(list, ranks[k]),
        parse_tokens(list.take(upto)).len() == ranks.len(),
        forall|k: int|
            0 <= k < ranks.len() ==> (#[trigger] parse_tokens(list.take(upto))[k]).occurrence
                == list[ranks[k]].id && parse_tokens(list.take(upto))[k].terminal
                == list[ranks[k]].terminal,
    decreases upto,
{
    let done = list.take(upto);
    if upto == 0 {
        Seq::empty()
    } else {
        let before = lemma_seen_until(list, upto - 1);
        assert(done.drop_last() =~= list.take(upto - 1));
        assert(done.last() == list[upto - 1]);
        if seen(list[upto - 1]) {
            let ranks = before.push(upto - 1);
            lemma_ranks_push(before, upto - 1);
            assert forall|rank: int|
                0 <= rank < upto && seen(#[trigger] list[rank]) implies ranks.contains(rank) by {
                if rank < upto - 1 {
                    let k = before.index_of(rank);
                    assert(before.contains(rank));
                    assert(ranks[k] == rank);
                } else {
                    assert(ranks[before.len() as int] == rank);
                }
            }
            assert forall|k: int| 0 <= k < ranks.len() implies #[trigger] datas_of(list, upto)[k]
                == data_of(list, ranks[k]) by {
                if k < before.len() {
                    assert(datas_of(list, upto)[k] == datas_of(list, upto - 1)[k]);
                }
            }
            assert forall|k: int| 0 <= k < ranks.len() implies (
            #[trigger] parse_tokens(done)[k]).occurrence == list[ranks[k]].id && parse_tokens(
                done,
            )[k].terminal == list[ranks[k]].terminal by {
                if k < before.len() {
                    assert(parse_tokens(done)[k] == parse_tokens(list.take(upto - 1))[k]);
                }
            }
            ranks
        } else {
            before
        }
    }
}

/// The parser reads exactly the tokens that it sees: for each of them, errors
/// among them, there is one entry, in the order of the text, and for no other
/// token. An entry says what its token is and where it starts.
pub proof fn lemma_parser_reads_what_is_seen<R: LexerRoot>(list: Seq<OccurrenceView<R>>) -> (ranks:
    Seq<int>)
    ensures
        ranks_rise(ranks),
        forall|k: int| 0 <= k < ranks.len() ==> 0 <= #[trigger] ranks[k] < list.len(),
        forall|rank: int|
            0 <= rank < list.len() ==> (seen(#[trigger] list[rank]) <==> ranks.contains(rank)),
        datas_of(list, list.len() as int).len() == ranks.len(),
        forall|k: int|
            0 <= k < ranks.len() ==> #[trigger] datas_of(list, list.len() as int)[k] == (TokenData {
                id: list[ranks[k]].id.0 as usize,
                terminal: list[ranks[k]].terminal,
                start: start_of(list, ranks[k]) as usize,
                length: list[ranks[k]].byte_len as usize,
                column: list[ranks[k]].id,
                fingerprint: fingerprint_of(list[ranks[k]]),
            }),
{
    let ranks = lemma_seen_until(list, list.len() as int);
    assert forall|rank: int| 0 <= rank < list.len() && ranks.contains(rank) implies seen(
        #[trigger] list[rank],
    ) by {
        let k = ranks.index_of(rank);
        assert(seen(list[ranks[k]]));
    }
    ranks
}

/// What the parser reads is the tape of the document: entry for entry the same
/// tokens with the same terminals, and so as many.
pub proof fn lemma_parser_reads_the_tape<R: LexerRoot>(list: Seq<OccurrenceView<R>>)
    ensures
        datas_of(list, list.len() as int).len() == parse_tokens(list).len(),
        forall|k: int|
            #![trigger datas_of(list, list.len() as int)[k]]
            #![trigger parse_tokens(list)[k]]
            0 <= k < parse_tokens(list).len() ==> {
                &&& datas_of(list, list.len() as int)[k].column == parse_tokens(list)[k].occurrence
                &&& datas_of(list, list.len() as int)[k].terminal == parse_tokens(list)[k].terminal
            },
{
    let ranks = lemma_seen_until(list, list.len() as int);
    assert(list.take(list.len() as int) =~= list);
    assert forall|k: int|
        #![trigger datas_of(list, list.len() as int)[k]]
        #![trigger parse_tokens(list)[k]]
        0 <= k < parse_tokens(list).len() implies {
        &&& datas_of(list, list.len() as int)[k].column == parse_tokens(list)[k].occurrence
        &&& datas_of(list, list.len() as int)[k].terminal == parse_tokens(list)[k].terminal
    } by {
        assert(datas_of(list, list.len() as int)[k] == data_of(list, ranks[k]));
        assert(parse_tokens(list)[k].occurrence == list[ranks[k]].id);
    }
}

proof fn lemma_listed_until<R>(list: Seq<OccurrenceView<R>>, upto: int) -> (ranks: Seq<int>)
    requires
        0 <= upto <= list.len(),
        forall|rank: int| 0 <= rank < list.len() ==> (#[trigger] list[rank]).id.0 <= usize::MAX,
    ensures
        ranks_rise(ranks),
        forall|k: int|
            0 <= k < ranks.len() ==> 0 <= #[trigger] ranks[k] < upto && seen(list[ranks[k]]),
        forall|rank: int|
            0 <= rank < upto && seen(#[trigger] list[rank]) ==> ranks.contains(rank),
        listed_tokens(list, upto).len() == ranks.len(),
        forall|k: int|
            0 <= k < ranks.len() ==> Some(#[trigger] listed_tokens(list, upto)[k]) == placed(
                list[ranks[k]],
                start_of(list, ranks[k]) as usize,
            ),
    decreases upto,
{
    if upto == 0 {
        Seq::empty()
    } else {
        let before = lemma_listed_until(list, upto - 1);
        assert(list[upto - 1].id.0 <= usize::MAX);
        if seen(list[upto - 1]) {
            let ranks = before.push(upto - 1);
            lemma_ranks_push(before, upto - 1);
            assert forall|rank: int|
                0 <= rank < upto && seen(#[trigger] list[rank]) implies ranks.contains(rank) by {
                if rank < upto - 1 {
                    let k = before.index_of(rank);
                    assert(before.contains(rank));
                    assert(ranks[k] == rank);
                } else {
                    assert(ranks[before.len() as int] == rank);
                }
            }
            assert forall|k: int| 0 <= k < ranks.len() implies Some(
                #[trigger] listed_tokens(list, upto)[k],
            ) == placed(list[ranks[k]], start_of(list, ranks[k]) as usize) by {
                if k < before.len() {
                    assert(listed_tokens(list, upto)[k] == listed_tokens(list, upto - 1)[k]);
                }
            }
            ranks
        } else {
            before
        }
    }
}

/// A token that is handed out is the token with its place, and with an error from
/// there to its end where it is one.
pub open spec fn stands_for<R>(found: LexToken<R>, token: OccurrenceView<R>, start: int) -> bool {
    &&& found.id == token.id.0
    &&& found.start == start
    &&& found.length == token.byte_len
    &&& found.terminal == token.terminal
    &&& *found.value == token.value
    &&& match token.error {
        Some(kind) => found.error matches Some(info) && info.kind == kind && info.start == start
            && info.end == start + token.byte_len,
        None => found.error is None,
    }
}

/// The tokens that are listed are exactly those that the parser sees, in the
/// order of the text and with their places.
pub proof fn lemma_listed_are_seen<R>(list: Seq<OccurrenceView<R>>) -> (ranks: Seq<int>)
    requires
        forall|rank: int| 0 <= rank < list.len() ==> (#[trigger] list[rank]).id.0 <= usize::MAX,
        start_of(list, list.len() as int) <= usize::MAX,
    ensures
        ranks_rise(ranks),
        forall|k: int| 0 <= k < ranks.len() ==> 0 <= #[trigger] ranks[k] < list.len(),
        forall|rank: int|
            0 <= rank < list.len() ==> (seen(#[trigger] list[rank]) <==> ranks.contains(rank)),
        listed_tokens(list, list.len() as int).len() == ranks.len(),
        forall|k: int|
            0 <= k < ranks.len() ==> stands_for(
                #[trigger] listed_tokens(list, list.len() as int)[k],
                list[ranks[k]],
                start_of(list, ranks[k]) as int,
            ),
{
    let ranks = lemma_listed_until(list, list.len() as int);
    assert forall|rank: int| 0 <= rank < list.len() && ranks.contains(rank) implies seen(
        #[trigger] list[rank],
    ) by {
        let k = ranks.index_of(rank);
        assert(seen(list[ranks[k]]));
    }
    assert forall|k: int| 0 <= k < ranks.len() implies stands_for(
        #[trigger] listed_tokens(list, list.len() as int)[k],
        list[ranks[k]],
        start_of(list, ranks[k]) as int,
    ) by {
        let rank = ranks[k];
        lemma_placed(list, rank);
    }
    ranks
}

proof fn lemma_placed<R>(list: Seq<OccurrenceView<R>>, rank: int)
    requires
        0 <= rank < list.len(),
        list[rank].id.0 <= usize::MAX,
        start_of(list, list.len() as int) <= usize::MAX,
    ensures
        start_of(list, rank) + list[rank].byte_len <= usize::MAX,
        placed(list[rank], start_of(list, rank) as usize) matches Some(found) && stands_for(
            found,
            list[rank],
            start_of(list, rank) as int,
        ),
{
    lemma_tokens_stand_in_line(list, rank);
    lemma_start_grows(list, rank + 1, list.len() as int);
}

proof fn lemma_errors_until<R>(list: Seq<OccurrenceView<R>>, upto: int) -> (ranks: Seq<int>)
    requires
        0 <= upto <= list.len(),
        start_of(list, list.len() as int) <= usize::MAX,
    ensures
        ranks_rise(ranks),
        forall|k: int|
            0 <= k < ranks.len() ==> 0 <= #[trigger] ranks[k] < upto && list[ranks[k]].error is Some,
        forall|rank: int|
            0 <= rank < upto && (#[trigger] list[rank]).error is Some ==> ranks.contains(rank),
        listed_errors(list, upto).len() == ranks.len(),
        forall|k: int|
            0 <= k < ranks.len() ==> #[trigger] listed_errors(list, upto)[k] == (LexErrorInfo {
                kind: list[ranks[k]].error->Some_0,
                start: start_of(list, ranks[k]) as usize,
                end: (start_of(list, ranks[k]) + list[ranks[k]].byte_len) as usize,
            }),
    decreases upto,
{
    if upto == 0 {
        Seq::empty()
    } else {
        let before = lemma_errors_until(list, upto - 1);
        if list[upto - 1].error is Some {
            let ranks = before.push(upto - 1);
            lemma_ranks_push(before, upto - 1);
            lemma_tokens_stand_in_line(list, upto - 1);
            lemma_start_grows(list, upto, list.len() as int);
            assert forall|rank: int|
                0 <= rank < upto && (#[trigger] list[rank]).error is Some implies ranks.contains(
                rank,
            ) by {
                if rank < upto - 1 {
                    let k = before.index_of(rank);
                    assert(before.contains(rank));
                    assert(ranks[k] == rank);
                } else {
                    assert(ranks[before.len() as int] == rank);
                }
            }
            assert forall|k: int| 0 <= k < ranks.len() implies #[trigger] listed_errors(
                list,
                upto,
            )[k] == (LexErrorInfo {
                kind: list[ranks[k]].error->Some_0,
                start: start_of(list, ranks[k]) as usize,
                end: (start_of(list, ranks[k]) + list[ranks[k]].byte_len) as usize,
            }) by {
                if k < before.len() {
                    assert(listed_errors(list, upto)[k] == listed_errors(list, upto - 1)[k]);
                }
            }
            ranks
        } else {
            before
        }
    }
}

/// The errors that are listed are exactly those of the document, in the order of
/// the text, each from the start of its token to its end.
pub proof fn lemma_listed_errors_are_the_errors<R>(list: Seq<OccurrenceView<R>>) -> (ranks: Seq<
    int,
>)
    requires
        start_of(list, list.len() as int) <= usize::MAX,
    ensures
        ranks_rise(ranks),
        forall|k: int| 0 <= k < ranks.len() ==> 0 <= #[trigger] ranks[k] < list.len(),
        forall|rank: int|
            0 <= rank < list.len() ==> ((#[trigger] list[rank]).error is Some <==> ranks.contains(
                rank,
            )),
        listed_errors(list, list.len() as int).len() == ranks.len(),
        forall|k: int|
            0 <= k < ranks.len() ==> #[trigger] listed_errors(list, list.len() as int)[k] == (
            LexErrorInfo {
                kind: list[ranks[k]].error->Some_0,
                start: start_of(list, ranks[k]) as usize,
                end: (start_of(list, ranks[k]) + list[ranks[k]].byte_len) as usize,
            }),
{
    let ranks = lemma_errors_until(list, list.len() as int);
    assert forall|rank: int| 0 <= rank < list.len() && ranks.contains(rank) implies (
    #[trigger] list[rank]).error is Some by {
        let k = ranks.index_of(rank);
        assert(list[ranks[k]].error is Some);
    }
    ranks
}

/// A token lies in a part of the text: it starts before its end, and ends behind
/// its start.
pub open spec fn overlaps<R>(
    list: Seq<OccurrenceView<R>>,
    rank: int,
    from: int,
    to: int,
) -> bool {
    start_of(list, rank) < to && start_of(list, rank) + list[rank].byte_len > from
}

proof fn lemma_from_rank<R>(list: Seq<OccurrenceView<R>>, rank: int, from: int, to: int) -> (ranks:
    Seq<int>)
    requires
        0 <= rank <= list.len(),
        forall|k: int| 0 <= k < list.len() ==> (#[trigger] list[k]).id.0 <= usize::MAX,
        start_of(list, list.len() as int) <= usize::MAX,
    ensures
        ranks_rise(ranks),
        forall|k: int|
            0 <= k < ranks.len() ==> rank <= #[trigger] ranks[k] < list.len() && overlaps(
                list,
                ranks[k],
                from,
                to,
            ),
        forall|k: int|
            rank <= k < list.len() && #[trigger] overlaps(list, k, from, to) ==> ranks.contains(k),
        tokens_from(list, rank, from, to).len() == ranks.len(),
        forall|k: int|
            0 <= k < ranks.len() ==> stands_for(
                #[trigger] tokens_from(list, rank, from, to)[k],
                list[ranks[k]],
                start_of(list, ranks[k]) as int,
            ),
    decreases list.len() - rank,
{
    if rank == list.len() {
        Seq::empty()
    } else if start_of(list, rank) >= to {
        assert forall|k: int| rank <= k < list.len() && #[trigger] overlaps(
            list,
            k,
            from,
            to,
        ) implies Seq::<int>::empty().contains(k) by {
            lemma_start_grows(list, rank, k);
        }
        Seq::empty()
    } else {
        let rest = lemma_from_rank(list, rank + 1, from, to);
        assert(list[rank].id.0 <= usize::MAX);
        lemma_placed(list, rank);
        let found = placed(list[rank], start_of(list, rank) as usize)->Some_0;
        if overlaps(list, rank, from, to) {
            let ranks = seq![rank] + rest;
            let all = tokens_from(list, rank, from, to);
            let below = tokens_from(list, rank + 1, from, to);
            assert(all == seq![found] + below);
            assert forall|i: int, j: int| 0 <= i < j < ranks.len() implies #[trigger] ranks[i]
                < #[trigger] ranks[j] by {
                assert(ranks[j] == rest[j - 1]);
                if i > 0 {
                    assert(ranks[i] == rest[i - 1]);
                }
            }
            assert forall|k: int| rank <= k < list.len() && #[trigger] overlaps(
                list,
                k,
                from,
                to,
            ) implies ranks.contains(k) by {
                if k == rank {
                    assert(ranks[0] == k);
                } else {
                    let at = rest.index_of(k);
                    assert(rest.contains(k));
                    assert(ranks[at + 1] == k);
                }
            }
            assert forall|k: int| 0 <= k < ranks.len() implies stands_for(
                #[trigger] all[k],
                list[ranks[k]],
                start_of(list, ranks[k]) as int,
            ) by {
                if k > 0 {
                    assert(all[k] == below[k - 1]);
                    assert(ranks[k] == rest[k - 1]);
                }
            }
            ranks
        } else {
            rest
        }
    }
}

/// The tokens in a part of the text are exactly those that lie in it, in order
/// and with their places.
pub proof fn lemma_tokens_of_a_part<R>(list: Seq<OccurrenceView<R>>, from: int, to: int) -> (ranks:
    Seq<int>)
    requires
        from >= 0,
        forall|k: int| 0 <= k < list.len() ==> (#[trigger] list[k]).id.0 <= usize::MAX,
        start_of(list, list.len() as int) <= usize::MAX,
    ensures
        ranks_rise(ranks),
        forall|k: int| 0 <= k < ranks.len() ==> 0 <= #[trigger] ranks[k] < list.len(),
        forall|rank: int|
            0 <= rank < list.len() ==> (#[trigger] overlaps(list, rank, from, to)
                <==> ranks.contains(rank)),
        tokens_from(list, rank_at(list, from), from, to).len() == ranks.len(),
        forall|k: int|
            0 <= k < ranks.len() ==> stands_for(
                #[trigger] tokens_from(list, rank_at(list, from), from, to)[k],
                list[ranks[k]],
                start_of(list, ranks[k]) as int,
            ),
{
    let first = rank_at(list, from);
    lemma_rank_at(list, from);
    let ranks = lemma_from_rank(list, first, from, to);
    assert forall|rank: int| 0 <= rank < list.len() implies (#[trigger] overlaps(
        list,
        rank,
        from,
        to,
    ) <==> ranks.contains(rank)) by {
        if ranks.contains(rank) {
            let k = ranks.index_of(rank);
            assert(overlaps(list, ranks[k], from, to));
        }
        if rank < first {
            lemma_tokens_stand_in_line(list, rank);
            lemma_start_grows(list, rank + 1, first);
        }
    }
    ranks
}

// ---------------------------------------------------------------------------
// Splices

/// What all splices of a list take out.
pub open spec fn all_removed(list: Seq<SpliceView>) -> Seq<TokenOccurrenceId>
    decreases list.len(),
{
    if list.len() == 0 {
        Seq::empty()
    } else {
        all_removed(list.drop_last()) + list.last().removed
    }
}

/// What all splices of a list put in.
pub open spec fn all_inserted(list: Seq<SpliceView>) -> Seq<TokenOccurrenceId>
    decreases list.len(),
{
    if list.len() == 0 {
        Seq::empty()
    } else {
        all_inserted(list.drop_last()) + list.last().inserted
    }
}

/// Splices that are gathered take out and put in what each of them does, one
/// behind the other, whether they are joined or not; the list starts and ends
/// beside the same tokens.
pub proof fn lemma_gathered_splices_lose_nothing(list: Seq<SpliceView>, more: Seq<SpliceView>)
    ensures
        all_removed(with_splices(list, more)) == all_removed(list) + all_removed(more),
        all_inserted(with_splices(list, more)) == all_inserted(list) + all_inserted(more),
        list.len() > 0 ==> with_splices(list, more).len() > 0 && with_splices(list, more)[0].before
            == list[0].before,
        more.len() > 0 ==> with_splices(list, more).len() > 0 && with_splices(
            list,
            more,
        ).last().after == more.last().after,
    decreases more.len(),
{
    if more.len() == 0 {
        assert(all_removed(list) + all_removed(more) =~= all_removed(list));
        assert(all_inserted(list) + all_inserted(more) =~= all_inserted(list));
    } else {
        let rest = more.drop_last();
        let last = more.last();
        lemma_gathered_splices_lose_nothing(list, rest);
        let before = with_splices(list, rest);
        let all = with_splice(before, last);
        if before.len() > 0 && before.last().after == last.before {
            let front = before.drop_last();
            assert(all.drop_last() =~= front);
            assert(all.last() == joined_splices(before.last(), last));
            assert(all_removed(before) == all_removed(front) + before.last().removed);
            assert(all_inserted(before) == all_inserted(front) + before.last().inserted);
            assert(all_removed(all) == all_removed(front) + (before.last().removed
                + last.removed));
            assert(all_inserted(all) == all_inserted(front) + (before.last().inserted
                + last.inserted));
            assert(all_removed(all) =~= all_removed(before) + last.removed);
            assert(all_inserted(all) =~= all_inserted(before) + last.inserted);
            if all.len() > 1 {
                assert(all[0] == before[0]);
            }
        } else {
            assert(all.drop_last() =~= before);
        }
        assert(all_removed(all) =~= all_removed(list) + all_removed(more));
        assert(all_inserted(all) =~= all_inserted(list) + all_inserted(more));
    }
}

} // verus!
