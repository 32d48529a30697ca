//! What the facts that are out say: exactly the tokens that the parser sees.

use vstd::prelude::*;
use vstd::utf8::*;

use crate::framework::lex::component::{closing_facts, opening_facts};
use crate::framework::lex::derive::{
    command_splices, derivation, first_stage, stage_follows, stage_leads,
    stages_follow, LexDocument, Stage,
};
use crate::framework::lex::lexed::{
    identities_differ, is_lexical_rank, parse_tokens, same_payload, same_structure,
    semantic, LexicalView, OccurrenceView, StableDocumentId, TokenFact, TokenFactKey,
    TokenOccurrenceId,
};
use crate::framework::lex::patch::{
    changed, changed_ids, gathered, ids_of, is_patch, nameless_all, partner, strangers,
    GatheredView, LocalPatch,
};
use crate::framework::lex::publish::{
    all_facts, fact_key, fact_of, facts_for, lemma_seen_token, seen_token, FactChanges, FactWrite,
};
use crate::framework::lex::relex::{
    lemma_identities, relex_patch, relexed, relexed_by, window_tokens, Scanner, Window,
};
use crate::framework::lex::token::{LexInterrupt, LexerRoot};
use crate::framework::parse::delta::{lemma_shared_ends, shared_ends};
use crate::framework::source::SourceDelta;
use crate::sort::{distinct_sorted, lemma_distinct_sorted};
use crate::text::{rope_bytes, rope_chars};

verus! {

/// One fact for each token of a document that the parser sees, and no others.
pub open spec fn facts_out<R: LexerRoot>(v: LexicalView<R>) -> Map<TokenFactKey, TokenFact<R>> {
    Map::new(
        |key: TokenFactKey| key.document_id == v.document.0 && key.token is Source && seen_token(
            v,
            key.token->Source_0,
        ) is Some,
        |key: TokenFactKey| fact_of(seen_token(v, key.token->Source_0)->Some_0),
    )
}

/// The facts with others written to them, one after the other.
pub open spec fn with_writes<R>(
    out: Map<TokenFactKey, TokenFact<R>>,
    written: Seq<FactWrite<R>>,
) -> Map<TokenFactKey, TokenFact<R>>
    decreases written.len(),
{
    if written.len() == 0 {
        out
    } else {
        with_writes(out, written.drop_last()).insert(written.last().key, written.last().fact)
    }
}

/// The facts after changes: first some are taken back, and then some written.
pub open spec fn with_changes<R>(
    out: Map<TokenFactKey, TokenFact<R>>,
    changes: FactChanges<R>,
) -> Map<TokenFactKey, TokenFact<R>> {
    with_writes(out.remove_keys(changes.removed@.to_set()), changes.written@)
}

// ---------------------------------------------------------------------------
// What the windows of a command add up to

/// What was gathered on the way from the tokens of a document to others tells
/// what came, what went and what changed.
spec fn kept_track<R: LexerRoot>(from: LexicalView<R>, to: LexicalView<R>, g: GatheredView) -> bool {
    &&& identities_differ(from.lexical, from.next_occurrence)
    &&& identities_differ(to.lexical, to.next_occurrence)
    &&& from.next_occurrence <= to.next_occurrence
    &&& from.document == to.document
    &&& g.inserted.finite()
    &&& g.updated.finite()
    &&& g.removed.finite()
    &&& forall|id: TokenOccurrenceId| #[trigger]
        seen_token(to, id) is Some ==> kept_token(from, to, g, id)
    &&& forall|id: TokenOccurrenceId| #[trigger]
        seen_token(from, id) is Some && seen_token(to, id) is None ==> g.removed.contains(id)
    &&& forall|id: TokenOccurrenceId| #[trigger]
        g.inserted.contains(id) ==> from.next_occurrence <= id.0 < to.next_occurrence
    &&& forall|id: TokenOccurrenceId| #[trigger]
        g.removed.contains(id) ==> id.0 < to.next_occurrence
}

/// A token is not among those that went, and where it is not among those that
/// came, it was there before; and where it is not among those that changed, its
/// fact is the one that it had.
spec fn kept_token<R: LexerRoot>(
    from: LexicalView<R>,
    to: LexicalView<R>,
    g: GatheredView,
    id: TokenOccurrenceId,
) -> bool {
    &&& !g.removed.contains(id)
    &&& !g.inserted.contains(id) ==> {
        &&& seen_token(from, id) is Some
        &&& !g.updated.contains(id) ==> fact_of(seen_token(from, id)->Some_0) == fact_of(
            seen_token(to, id)->Some_0,
        )
    }
}

proof fn lemma_seen_ids<R>(list: Seq<OccurrenceView<R>>, id: TokenOccurrenceId)
    ensures
        ids_of(parse_tokens(list)).contains(id) <==> exists|i: int|
            0 <= i < list.len() && (#[trigger] list[i]).id == id && semantic(list[i]),
    decreases list.len(),
{
    if list.len() == 0 {
    } else {
        let rest = list.drop_last();
        lemma_seen_ids(rest, id);
        let all = ids_of(parse_tokens(list));
        let before = ids_of(parse_tokens(rest));
        if semantic(list.last()) {
            assert(all =~= before.push(list.last().id));
            assert(all[all.len() - 1] == list.last().id);
        } else {
            assert(all =~= before);
        }
        if all.contains(id) {
            if before.contains(id) {
                let i = choose|i: int|
                    0 <= i < rest.len() && (#[trigger] rest[i]).id == id && semantic(rest[i]);
                assert(list[i] == rest[i]);
            } else {
                assert(list[list.len() - 1].id == id);
            }
        }
        if exists|i: int|
            0 <= i < list.len() && (#[trigger] list[i]).id == id && semantic(list[i]) {
            let i = choose|i: int|
                0 <= i < list.len() && (#[trigger] list[i]).id == id && semantic(list[i]);
            if i < rest.len() {
                assert(rest[i] == list[i]);
                let k = choose|k: int| 0 <= k < before.len() && before[k] == id;
                assert(all[k] == id);
            }
        }
    }
}

/// A token that takes over an identity is the same to the parser as the token
/// that had it.
proof fn lemma_partner_alike<R>(past: Seq<OccurrenceView<R>>, tokens: Seq<OccurrenceView<R>>, i: int)
    requires
        0 <= i < tokens.len(),
        partner(past, tokens, i) is Some,
    ensures
        0 <= partner(past, tokens, i)->Some_0 < past.len(),
        same_structure(past[partner(past, tokens, i)->Some_0], tokens[i]),
{
    let a = nameless_all(past);
    let b = nameless_all(tokens);
    lemma_shared_ends(a, b);
    let (prefix, suffix) = shared_ends(a, b);
    let j = partner(past, tokens, i)->Some_0;
    if i < prefix {
        assert(a.take(prefix as int)[i] == b.take(prefix as int)[i]);
        assert(a[i] == b[i]);
    } else if i >= tokens.len() - suffix {
        let k = i - (tokens.len() - suffix);
        assert(a.skip(a.len() - suffix)[k] == b.skip(b.len() - suffix)[k]);
        assert(a[j] == b[i]);
    }
}

proof fn lemma_seen_at<R>(v: LexicalView<R>, rank: int)
    requires
        identities_differ(v.lexical, v.next_occurrence),
        0 <= rank < v.lexical.len(),
    ensures
        seen_token(v, v.lexical[rank].id) == if semantic(v.lexical[rank]) {
            Some(v.lexical[rank])
        } else {
            None
        },
{
    assert(is_lexical_rank(v, v.lexical[rank].id, rank));
    lemma_seen_token(v, v.next_occurrence, v.lexical[rank].id, rank);
}

proof fn lemma_seen_rank<R>(v: LexicalView<R>, id: TokenOccurrenceId) -> (rank: int)
    requires
        identities_differ(v.lexical, v.next_occurrence),
        seen_token(v, id) is Some,
    ensures
        is_lexical_rank(v, id, rank),
        semantic(v.lexical[rank]),
        seen_token(v, id) == Some(v.lexical[rank]),
{
    let rank = choose|rank: int| #[trigger] is_lexical_rank(v, id, rank);
    lemma_seen_token(v, v.next_occurrence, id, rank);
    rank
}

/// One window more keeps track.
#[verifier::rlimit(80)]
#[verifier::spinoff_prover]
proof fn lemma_track_window<R: LexerRoot>(
    from: LexicalView<R>,
    v: LexicalView<R>,
    g: GatheredView,
    restart: int,
    until: int,
    tokens: Seq<OccurrenceView<R>>,
    source: Seq<char>,
    patch: LocalPatch,
)
    requires
        kept_track(from, v, g),
        0 <= restart <= until <= v.lexical.len(),
        relex_patch(v, restart, until, tokens, patch),
    ensures
        kept_track(from, relexed(v, restart, until, tokens, source), gathered(g, patch)),
{
    let w = relexed(v, restart, until, tokens, source);
    let past = v.lexical.subrange(restart, until);
    let now = window_tokens(v, restart, until, tokens);
    let seen = parse_tokens(past);
    let sees = parse_tokens(now);
    let next = gathered(g, patch);
    let came = ids_of(sees).to_set().difference(ids_of(seen).to_set());
    let went = ids_of(seen).to_set().difference(ids_of(sees).to_set());
    lemma_identities(v.lexical, v.next_occurrence, restart, until, tokens);
    assert(identities_differ(w.lexical, w.next_occurrence));
    lemma_sorted_set(came);
    lemma_sorted_set(went);
    assert(patch.inserted@.to_set() == came);
    assert(patch.removed@.to_set() == went);
    let n = now.len() as int;
    assert forall|i: int| 0 <= i < n implies w.lexical[restart + i] == #[trigger] now[i] by {}
    assert forall|i: int| 0 <= i < past.len() implies v.lexical[restart + i] == #[trigger] past[i] by {}
    assert forall|i: int| 0 <= i < restart implies #[trigger] w.lexical[i] == v.lexical[i] by {}
    assert forall|i: int| until <= i < v.lexical.len() implies #[trigger] v.lexical[i]
        == w.lexical[i - until + restart + n] by {}
    assert forall|i: int| 0 <= i < n && partner(past, tokens, i) is Some implies ({
        let j = partner(past, tokens, i)->Some_0;
        0 <= j < past.len() && (#[trigger] now[i]).id == past[j].id && semantic(past[j])
            == semantic(now[i])
    }) by {
        lemma_partner_alike(past, tokens, i);
    }
    assert forall|i: int| 0 <= i < n && partner(past, tokens, i) is None implies (
    #[trigger] now[i]).id.0 >= v.next_occurrence by {
        lemma_strangers_fit(past, tokens, i, n);
    }
    assert forall|id: TokenOccurrenceId| #[trigger] came.contains(id) implies
        from.next_occurrence <= id.0 < w.next_occurrence by {
        lemma_seen_ids(now, id);
        lemma_seen_ids(past, id);
        let i = choose|i: int| 0 <= i < now.len() && (#[trigger] now[i]).id == id && semantic(now[i]);
        assert(w.lexical[restart + i].id == id);
        if partner(past, tokens, i) is Some {
            let j = partner(past, tokens, i)->Some_0;
            assert(past[j].id == id && semantic(past[j]));
        }
    }
    assert forall|id: TokenOccurrenceId| #[trigger] went.contains(id) implies id.0
        < v.next_occurrence by {
        lemma_seen_ids(past, id);
        let i = choose|i: int|
            0 <= i < past.len() && (#[trigger] past[i]).id == id && semantic(past[i]);
        assert(v.lexical[restart + i].id == id);
    }
    assert(v.next_occurrence <= w.next_occurrence);
    assert forall|id: TokenOccurrenceId| #[trigger]
        seen_token(w, id) is Some implies kept_token(from, w, next, id) by {
        let r = lemma_seen_rank(w, id);
        if restart <= r < restart + n {
            let i = r - restart;
            assert(now[i] == w.lexical[r]);
            lemma_seen_ids(now, id);
            lemma_seen_ids(past, id);
            assert(ids_of(sees).contains(id));
            assert(!went.contains(id));
            if partner(past, tokens, i) is Some {
                let j = partner(past, tokens, i)->Some_0;
                assert(past[j].id == id && semantic(past[j]));
                assert(ids_of(seen).contains(id));
                lemma_seen_at(v, restart + j);
                assert(seen_token(v, id) == Some(past[j]));
                assert(kept_token(from, v, g, id));
                if !patch.updated@.to_set().contains(id) {
                    assert(!changed(past, now, seen, i)) by {
                        if changed(past, now, seen, i) {
                            assert(changed_ids(past, now, seen, now.len() as int).contains(id));
                        }
                    }
                    assert(same_payload(past[j], now[i]));
                    assert(fact_of(past[j]) == fact_of(now[i]));
                }
            } else {
                assert(!ids_of(seen).contains(id)) by {
                    if ids_of(seen).contains(id) {
                        let k = choose|k: int|
                            0 <= k < past.len() && (#[trigger] past[k]).id == id && semantic(past[k]);
                        assert(v.lexical[restart + k].id == id);
                    }
                }
                assert(came.contains(id));
                assert(!g.removed.contains(id));
            }
        } else {
            let p = if r < restart {
                r
            } else {
                r - n - restart + until
            };
            assert(v.lexical[p] == w.lexical[r]);
            lemma_seen_at(v, p);
            assert(kept_token(from, v, g, id));
            lemma_seen_ids(past, id);
            assert(!went.contains(id)) by {
                if went.contains(id) {
                    let k = choose|k: int|
                        0 <= k < past.len() && (#[trigger] past[k]).id == id && semantic(past[k]);
                    assert(v.lexical[restart + k].id == id);
                    assert(restart + k != p);
                }
            }
        }
    }
    assert forall|id: TokenOccurrenceId| #[trigger]
        seen_token(from, id) is Some && seen_token(w, id) is None implies next.removed.contains(
        id,
    ) by {
        if seen_token(v, id) is Some {
            let p = lemma_seen_rank(v, id);
            if p < restart {
                assert(w.lexical[p] == v.lexical[p]);
                lemma_seen_at(w, p);
            } else if p >= until {
                assert(v.lexical[p] == w.lexical[p - until + restart + n]);
                lemma_seen_at(w, p - until + restart + n);
            } else {
                lemma_seen_ids(past, id);
                lemma_seen_ids(now, id);
                assert(past[p - restart].id == id && semantic(past[p - restart]));
                if ids_of(sees).contains(id) {
                    let i = choose|i: int|
                        0 <= i < now.len() && (#[trigger] now[i]).id == id && semantic(now[i]);
                    assert(w.lexical[restart + i] == now[i]);
                    lemma_seen_at(w, restart + i);
                }
                assert(went.contains(id));
            }
        }
    }
}

/// The first of some tokens without a partner get numbers that are left.
proof fn lemma_strangers_fit<R>(
    past: Seq<OccurrenceView<R>>,
    tokens: Seq<OccurrenceView<R>>,
    i: int,
    n: int,
)
    requires
        0 <= i <= n,
    ensures
        strangers(past, tokens, i) <= strangers(past, tokens, n),
    decreases n - i,
{
    if i < n {
        lemma_strangers_fit(past, tokens, i, n - 1);
    }
}

proof fn lemma_sorted_set(set: Set<TokenOccurrenceId>)
    requires
        set.finite(),
    ensures
        distinct_sorted(set).to_set() == set,
{
    set.lemma_to_seq_to_set_id();
    lemma_distinct_sorted(set.to_seq());
}

/// A command keeps track.
proof fn lemma_track_command<R: LexerRoot, S: Scanner<R>>(
    scanner: S,
    v: LexicalView<R>,
    stages: Seq<Stage<R>>,
    new_bytes: Seq<u8>,
    splices: Seq<crate::framework::source::SourceSplice>,
    upto: int,
)
    requires
        identities_differ(v.lexical, v.next_occurrence),
        stages_follow(scanner, stages, new_bytes, splices, splices.len() as int),
        stages[0] == first_stage(v),
        0 <= upto <= splices.len(),
    ensures
        kept_track(v, stages[upto].tokens, stages[upto].gathered),
    decreases upto,
{
    if upto > 0 {
        let i = upto - 1;
        lemma_track_command(scanner, v, stages, new_bytes, splices, i);
        assert(stage_follows(scanner, stages, new_bytes, splices, i));
        let from = stages[i];
        let to = stages[i + 1];
        let splice = crate::framework::lex::derive::evolving(splices, i);
        let put = crate::framework::lex::derive::put_in(new_bytes, splices, i);
        let (text, patch) = choose|text: ropey::Rope, patch: LocalPatch| #[trigger]
            stage_leads(scanner, from, to, splice, put, text, patch);
        let window = choose|window: Window<R>| #[trigger]
            relexed_by(scanner, from.tokens, to.tokens, splice, text, window, patch);
        let restart = crate::framework::lex::lexed::rank_at(
            from.tokens.lexical,
            splice.old_range.start as int,
        );
        let until = match window.convergence {
            Some(rank) => rank as int,
            None => from.tokens.lexical.len() as int,
        };
        crate::framework::lex::lexed::lemma_rank_at(
            from.tokens.lexical,
            splice.old_range.start as int,
        );
        lemma_track_window(
            v,
            from.tokens,
            from.gathered,
            restart,
            until,
            crate::framework::lex::lexed::occurrence_views(window.tokens@),
            rope_chars(text),
            patch,
        );
    }
}

// ---------------------------------------------------------------------------
// The facts

proof fn lemma_facts_for<R: LexerRoot>(
    v: LexicalView<R>,
    ids: Seq<TokenOccurrenceId>,
    out: Map<TokenFactKey, TokenFact<R>>,
    key: TokenFactKey,
)
    ensures
        ({
            let after = with_writes(out, facts_for(v, ids));
            let hit = key.document_id == v.document.0 && key.token is Source && ids.contains(
                key.token->Source_0,
            ) && seen_token(v, key.token->Source_0) is Some;
            &&& hit ==> after.dom().contains(key) && after[key] == fact_of(
                seen_token(v, key.token->Source_0)->Some_0,
            )
            &&& !hit ==> after.dom().contains(key) == out.dom().contains(key)
            &&& !hit && out.dom().contains(key) ==> after[key] == out[key]
        }),
    decreases ids.len(),
{
    if ids.len() > 0 {
        let rest = ids.drop_last();
        lemma_facts_for(v, rest, out, key);
        let before = facts_for(v, rest);
        assert(ids.contains(key.token->Source_0) <==> rest.contains(key.token->Source_0)
            || ids.last() == key.token->Source_0) by {
            assert(ids =~= rest.push(ids.last()));
            assert(ids[ids.len() - 1] == ids.last());
            if rest.contains(key.token->Source_0) {
                let k = choose|k: int| 0 <= k < rest.len() && rest[k] == key.token->Source_0;
                assert(ids[k] == key.token->Source_0);
            }
        }
        if let Some(token) = seen_token(v, ids.last()) {
            let write = FactWrite { key: fact_key(v.document, ids.last()), fact: fact_of(token) };
            assert(facts_for(v, ids) == before.push(write));
            assert(before.push(write).drop_last() =~= before);
        }
    }
}

proof fn lemma_all_facts<R: LexerRoot>(v: LexicalView<R>, upto: int, key: TokenFactKey)
    requires
        identities_differ(v.lexical, v.next_occurrence),
        0 <= upto <= v.lexical.len(),
    ensures
        ({
            let after = with_writes(Map::<TokenFactKey, TokenFact<R>>::empty(), all_facts(v, upto));
            let hit = key.document_id == v.document.0 && key.token is Source && exists|i: int|
                0 <= i < upto && (#[trigger] v.lexical[i]).id == key.token->Source_0 && semantic(
                    v.lexical[i],
                );
            &&& after.dom().contains(key) <==> hit
            &&& hit ==> after[key] == fact_of(seen_token(v, key.token->Source_0)->Some_0)
        }),
    decreases upto,
{
    if upto > 0 {
        lemma_all_facts(v, upto - 1, key);
        let before = all_facts(v, upto - 1);
        let token = v.lexical[upto - 1];
        lemma_seen_at(v, upto - 1);
        if semantic(token) {
            let write = FactWrite { key: fact_key(v.document, token.id), fact: fact_of(token) };
            assert(all_facts(v, upto) == before.push(write));
            assert(before.push(write).drop_last() =~= before);
        }
    }
}

/// After a command the facts that are out are exactly one for each token of the
/// document that the parser sees, where they were before. Where the document was
/// known and none of its facts were out, none need be there before.
#[verifier::rlimit(60)]
pub proof fn lemma_facts_are_the_tokens<R: LexerRoot, S: Scanner<R>>(
    scanner: S,
    before: LexicalView<R>,
    had: bool,
    was_published: bool,
    source: ropey::Rope,
    delta: SourceDelta,
    result: LexDocument<R>,
    changes: FactChanges<R>,
)
    requires
        identities_differ(before.lexical, before.next_occurrence),
        !had ==> before.lexical.len() == 0,
        was_published ==> had,
        derivation(
            scanner,
            before,
            !had,
            source,
            delta,
            Ok::<LexDocument<R>, LexInterrupt>(result),
        ),
        opening_facts(result.document@, result.patch, had, was_published, changes),
    ensures
        with_changes(
            if was_published {
                facts_out(before)
            } else {
                Map::empty()
            },
            changes,
        ) == facts_out(result.document@),
{
    let out = if was_published {
        facts_out(before)
    } else {
        Map::<TokenFactKey, TokenFact<R>>::empty()
    };
    let v = result.document@;
    let after = with_changes(out, changes);
    let want = facts_out(v);
    let splices = command_splices(
        !had,
        encode_utf8(before.source).len() as int,
        rope_bytes(source).len() as int,
        delta,
    );
    let same = before.source == rope_chars(source);
    let stages = choose|stages: Seq<Stage<R>>|
        {
            let last = stages.last();
            &&& #[trigger] stages_follow(
                scanner,
                stages,
                encode_utf8(rope_chars(source)),
                splices,
                splices.len() as int,
            )
            &&& last.tokens.source == rope_chars(source)
            &&& stages[0] == first_stage(before)
            &&& is_patch(last.gathered, last.tokens.structure_revision, result.patch)
            &&& v.lexical == last.tokens.lexical
            &&& v.next_occurrence == last.tokens.next_occurrence
            &&& v.document == last.tokens.document
        };
    let last = stages.last().tokens;
    let g = if same {
        first_stage(before).gathered
    } else {
        stages.last().gathered
    };
    if same {
        assert(result.patch.inserted@ =~= Seq::empty());
        assert(result.patch.removed@ =~= Seq::empty());
        assert(result.patch.updated@ =~= Seq::empty());
    } else {
        lemma_track_command(
            scanner,
            before,
            stages,
            encode_utf8(rope_chars(source)),
            splices,
            splices.len() as int,
        );
        assert forall|id: TokenOccurrenceId| #[trigger] seen_token(v, id) == seen_token(last, id) by {
            lemma_seen_same(v, last, id);
        }
    }
    assert(identities_differ(v.lexical, v.next_occurrence));
    assert(v.document == before.document);
    if had && !was_published {
        assert(out.remove_keys(changes.removed@.to_set()) =~= Map::empty());
        assert forall|key: TokenFactKey| #[trigger] after.dom().contains(key) == want.dom().contains(key) && (
        want.dom().contains(key) ==> after[key] == want[key]) by {
            lemma_all_facts(v, v.lexical.len() as int, key);
            if want.dom().contains(key) {
                let rank = lemma_seen_rank(v, key.token->Source_0);
                assert(v.lexical[rank].id == key.token->Source_0);
            }
            if after.dom().contains(key) {
                let i = choose|i: int|
                    0 <= i < v.lexical.len() && (#[trigger] v.lexical[i]).id == key.token->Source_0
                        && semantic(v.lexical[i]);
                lemma_seen_at(v, i);
            }
        }
        assert(after.dom() =~= want.dom());
        assert(after =~= want);
    } else {
        let came = g.inserted.difference(g.removed);
        let went = g.removed.difference(g.inserted);
        let moved = g.updated.difference(came.union(went));
        let both = (result.patch.inserted@ + result.patch.updated@).to_set();
        if same {
            assert(both =~= Set::empty());
            assert(came =~= Set::empty());
            assert(went =~= Set::empty());
            assert(moved =~= Set::empty());
            assert(result.patch.removed@.to_set() =~= went);
        } else {
            lemma_sorted_set(came);
            lemma_sorted_set(went);
            lemma_sorted_set(moved);
            assert(both =~= came.union(moved)) by {
                assert forall|id: TokenOccurrenceId| both.contains(id) == came.union(
                    moved,
                ).contains(id) by {
                    lemma_joined(result.patch.inserted@, result.patch.updated@, id);
                }
            }
        }
        let ids = distinct_sorted(both);
        lemma_distinct_sorted(result.patch.inserted@ + result.patch.updated@);
        let left = out.remove_keys(changes.removed@.to_set());
        assert forall|key: TokenFactKey| #[trigger] after.dom().contains(key) == want.dom().contains(key) && (
        want.dom().contains(key) ==> after[key] == want[key]) by {
            lemma_facts_for(v, ids, left, key);
            let id = key.token->Source_0;
            let ours = key.document_id == v.document.0 && key.token is Source;
            assert(ids.to_set().contains(id) == ids.contains(id));
            assert(ids.contains(id) == (came.contains(id) || moved.contains(id)));
            lemma_removed_keys(v.document, result.patch.removed@, changes.removed@, key);
            if ours {
                assert(changes.removed@.to_set().contains(key) == went.contains(id));
                if seen_token(v, id) is Some {
                    if !same {
                        assert(seen_token(last, id) is Some);
                        assert(kept_token(before, last, g, id));
                    }
                    if !ids.contains(id) {
                        assert(seen_token(before, id) is Some);
                        if !had {
                            let rank = lemma_seen_rank(before, id);
                        }
                    }
                } else if seen_token(before, id) is Some {
                    assert(!same);
                    assert(seen_token(last, id) is None);
                    assert(g.removed.contains(id));
                    let rank = lemma_seen_rank(before, id);
                    assert(before.lexical[rank].id == id);
                    assert(!g.inserted.contains(id));
                }
            }
        }
        assert(after.dom() =~= want.dom());
        assert(after =~= want);
    }
}

proof fn lemma_seen_same<R>(a: LexicalView<R>, b: LexicalView<R>, id: TokenOccurrenceId)
    requires
        a.lexical == b.lexical,
        a.next_occurrence == b.next_occurrence,
        identities_differ(a.lexical, a.next_occurrence),
    ensures
        seen_token(a, id) == seen_token(b, id),
{
    if exists|rank: int| #[trigger] is_lexical_rank(a, id, rank) {
        let rank = choose|rank: int| #[trigger] is_lexical_rank(a, id, rank);
        assert(is_lexical_rank(b, id, rank));
        lemma_seen_token(a, a.next_occurrence, id, rank);
        lemma_seen_token(b, b.next_occurrence, id, rank);
    } else if exists|rank: int| #[trigger] is_lexical_rank(b, id, rank) {
        let rank = choose|rank: int| #[trigger] is_lexical_rank(b, id, rank);
        assert(is_lexical_rank(a, id, rank));
    }
}

proof fn lemma_joined(
    a: Seq<TokenOccurrenceId>,
    b: Seq<TokenOccurrenceId>,
    id: TokenOccurrenceId,
)
    ensures
        (a + b).to_set().contains(id) == (a.to_set().contains(id) || b.to_set().contains(id)),
{
    if a.contains(id) {
        let k = choose|k: int| 0 <= k < a.len() && a[k] == id;
        assert((a + b)[k] == id);
    }
    if b.contains(id) {
        let k = choose|k: int| 0 <= k < b.len() && b[k] == id;
        assert((a + b)[a.len() + k] == id);
    }
}

proof fn lemma_removed_keys(
    document: StableDocumentId,
    ids: Seq<TokenOccurrenceId>,
    keys: Seq<TokenFactKey>,
    key: TokenFactKey,
)
    requires
        keys == Seq::new(ids.len(), |i: int| fact_key(document, ids[i])),
    ensures
        keys.to_set().contains(key) <==> key.document_id == document.0 && key.token is Source
            && ids.to_set().contains(key.token->Source_0),
{
    if keys.contains(key) {
        let k = choose|k: int| 0 <= k < keys.len() && keys[k] == key;
        assert(ids[k] == key.token->Source_0);
    }
    if key.document_id == document.0 && key.token is Source && ids.contains(key.token->Source_0) {
        let k = choose|k: int| 0 <= k < ids.len() && ids[k] == key.token->Source_0;
        assert(keys[k] == key);
    }
}

/// Once a document is closed, no fact of it is out.
pub proof fn lemma_closed_documents_have_no_facts<R: LexerRoot>(
    published: LexicalView<R>,
    changes: FactChanges<R>,
)
    requires
        closing_facts(Some(published), changes),
    ensures
        with_changes(facts_out(published), changes) == Map::<TokenFactKey, TokenFact<R>>::empty(),
{
    let all = parse_tokens(published.lexical);
    let out = facts_out(published);
    assert forall|key: TokenFactKey| out.dom().contains(key) implies changes.removed@.to_set().contains(
        key,
    ) by {
        let id = key.token->Source_0;
        lemma_seen_ids(published.lexical, id);
        let rank = choose|rank: int| #[trigger] is_lexical_rank(published, id, rank);
        assert(is_lexical_rank(published, id, rank));
        assert(published.lexical[rank].id == id);
        assert(ids_of(all).contains(id));
        let k = choose|k: int| 0 <= k < ids_of(all).len() && ids_of(all)[k] == id;
        assert(changes.removed@[k] == key);
    }
    assert(out.remove_keys(changes.removed@.to_set()) =~= Map::empty());
}

} // verus!
