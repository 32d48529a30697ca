//! What an edit asks the parser to read again, and from where.

use vstd::prelude::*;

use crate::framework::lex::lexed::{TapeSplice, TokenOccurrenceId};
use crate::framework::parse::parsing::restart::{clean_from, restart_from};
use crate::framework::parse::parsing::session::{boundary_column_of, column_of, SessionView};
use crate::framework::parse::tokens::{
    boundary_at, is_rank, planned, rank_in, tokens_differ, ReplayPlan, TokenData, TokensView,
};

verus! {

/// The tokens of a list are those of three lists, one behind the other.
pub open spec fn made_of(
    tokens: Seq<TokenData>,
    kept: Seq<TokenOccurrenceId>,
    own: Seq<TokenOccurrenceId>,
    rest: Seq<TokenOccurrenceId>,
) -> bool {
    &&& tokens.len() == kept.len() + own.len() + rest.len()
    &&& forall|i: int|
        0 <= i < tokens.len() ==> (#[trigger] tokens[i]).column == (kept + own + rest)[i]
}

proof fn lemma_rank_is(v: TokensView, token: TokenOccurrenceId, rank: int)
    requires
        tokens_differ(v.tokens),
        0 <= rank < v.tokens.len(),
        v.tokens[rank].column == token,
    ensures
        rank_in(v, token) == Some(rank),
{
    assert(is_rank(v, token, rank));
    let found = choose|found: int| #[trigger] is_rank(v, token, found);
    assert(is_rank(v, token, found));
    if found < rank {
        assert(v.tokens[found].column != v.tokens[rank].column);
    }
    if rank < found {
        assert(v.tokens[rank].column != v.tokens[found].column);
    }
}

/// What is read again is what changed: the tokens before the first that went or
/// came are kept, and from behind the last of them on the old tokens are those of
/// the new text, so that the old parse may be taken over from there.
pub proof fn lemma_plan_spans_the_change(
    plan: ReplayPlan<'_>,
    old: TokensView,
    new: TokensView,
    splice: TapeSplice,
    kept: Seq<TokenOccurrenceId>,
    rest: Seq<TokenOccurrenceId>,
)
    requires
        planned(plan, Some(old), new, seq![splice]),
        tokens_differ(old.tokens),
        tokens_differ(new.tokens),
        made_of(old.tokens, kept, splice.removed@, rest),
        made_of(new.tokens, kept, splice.inserted@, rest),
        match splice.before {
            Some(token) => kept.len() > 0 && kept.last() == token,
            None => kept.len() == 0,
        },
        match splice.after {
            Some(token) => rest.len() > 0 && rest[0] == token,
            None => rest.len() == 0,
        },
    ensures
        plan.restart_boundary == kept.len(),
        plan.prefix_len == kept.len(),
        rest.len() > 0 ==> plan.old_reuse_start == kept.len() + splice.removed@.len(),
        rest.len() > 0 ==> plan.new_reuse_start == kept.len() + splice.inserted@.len(),
        rest.len() > 0 ==> plan.suffix_len == rest.len() + 1,
        rest.len() == 0 ==> plan.old_reuse_start == old.tokens.len() + 1,
        rest.len() == 0 ==> plan.new_reuse_start == new.tokens.len() + 1,
        rest.len() == 0 ==> plan.suffix_len == 0,
        plan.old_extent == old.tokens.len() + 1,
        plan.new_extent == new.tokens.len() + 1,
{
    let splices = seq![splice];
    assert(splices[0] == splice && splices.last() == splice);
    if let Some(token) = splice.before {
        let rank = kept.len() - 1;
        assert((kept + splice.removed@ + rest)[rank] == token);
        assert(old.tokens[rank].column == token);
        lemma_rank_is(old, token, rank);
    }
    if let Some(token) = splice.after {
        let first = kept.len() + splice.removed@.len();
        assert((kept + splice.removed@ + rest)[first as int] == token);
        assert(old.tokens[first as int].column == token);
        lemma_rank_is(old, token, first as int);
        let second = kept.len() + splice.inserted@.len();
        assert((kept + splice.inserted@ + rest)[second as int] == token);
        assert(new.tokens[second as int].column == token);
        lemma_rank_is(new, token, second as int);
    }
}

/// Where no token came or went, nothing is read again; where there was no parse,
/// everything is.
pub proof fn lemma_plan_without_change(
    plan: ReplayPlan<'_>,
    old: Option<TokensView>,
    new: TokensView,
)
    requires
        planned(plan, old, new, Seq::<TapeSplice>::empty()),
    ensures
        match old {
            Some(v) => plan.restart_boundary == v.tokens.len() + 1 && plan.old_reuse_start
                == v.tokens.len() + 1,
            None => plan.restart_boundary == 0 && plan.old_reuse_start == 0,
        },
        plan.new_reuse_start == new.tokens.len() + 1,
        plan.suffix_len == 0,
{
}

/// Reading starts again at the last gap up to a rank that has a column.
pub proof fn lemma_restart_at_last_gap(
    v: SessionView,
    old: TokensView,
    rank: int,
    at: int,
    column: int,
)
    requires
        0 <= at <= rank,
        boundary_column_of(v, boundary_at(old, at)) == Some(column),
        forall|k: int|
            at < k <= rank ==> boundary_column_of(v, #[trigger] boundary_at(old, k)) is None,
    ensures
        restart_from(v, old, rank) == column,
    decreases rank - at,
{
    if at < rank {
        assert(boundary_column_of(v, boundary_at(old, rank)) is None);
        lemma_restart_at_last_gap(v, old, rank - 1, at, column);
    }
}

/// Where no gap up to a rank has a column, reading starts at the first column.
pub proof fn lemma_restart_at_the_start(v: SessionView, old: TokensView, rank: int)
    requires
        forall|k: int|
            0 <= k <= rank ==> boundary_column_of(v, #[trigger] boundary_at(old, k)) is None,
    ensures
        restart_from(v, old, rank) == 0,
    decreases rank + 1,
{
    if rank >= 0 {
        assert(boundary_column_of(v, boundary_at(old, rank)) is None);
        lemma_restart_at_the_start(v, old, rank - 1);
    }
}

/// A column is there, and no repair led to it.
pub open spec fn is_clean(v: SessionView, column: int) -> bool {
    column_of(v, column) matches Some(found) && !found.error_derived
}

/// Reading starts again at the last column, up to a place, to which no repair
/// led.
pub proof fn lemma_restart_at_last_clean_column(v: SessionView, column: int, at: int)
    requires
        0 <= at <= column,
        is_clean(v, at),
        forall|k: int| at < k <= column ==> !#[trigger] is_clean(v, k),
    ensures
        clean_from(v, column) == at,
    decreases column - at,
{
    if at < column {
        assert(!is_clean(v, column));
        lemma_restart_at_last_clean_column(v, column - 1, at);
    }
}

} // verus!
