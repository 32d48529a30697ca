//! What reading does with a token that a stack can take.

use vstd::prelude::*;

use crate::framework::parse::data::gss::GssNodeId;
use crate::framework::parse::parsing::recover::token_shifted;
use crate::framework::parse::parsing::reduce::{reduces_to, stable};
use crate::framework::parse::parsing::repairs::RecoveryView;
use crate::framework::parse::parsing::replay::{
    gap_before, shift_done, shifted_on, token_read, went_on, Reading,
};
use crate::framework::parse::parsing::shift::{nodes_there, shifts_from};
use crate::framework::parse::parsing::shift_laws::{
    can_shift, is_new_column, lemma_some_stack_shifts,
};
use crate::framework::parse::parsing::stack::{Language, StackView};

verus! {

/// A token that a stack can take is taken, and reading goes on at the next one:
/// it is neither mended nor dropped, and nothing is noted. At the end of the
/// input, what the end completes is reduced, all of it.
pub proof fn lemma_token_is_taken<V, L: Language<V>>(
    by: Reading<L>,
    v: StackView,
    r: RecoveryView,
    w: StackView,
    after: RecoveryView,
    rank: int,
    next: int,
    decoded: int,
    node: GssNodeId,
    state: usize,
) -> (mid: StackView)
    requires
        went_on::<V, L>(by, v, r, w, after, rank, next, decoded),
        token_read(by.parser, by.document@, rank).terminal != by.parser.grammar.error_terminal,
        nodes_there(v.gss, v.session.columns.last().active),
        v.gss.nodes.no_duplicates(),
        v.gss.nodes.len() + shifts_from(
            by.parser,
            v.gss,
            v.session.columns.last().active,
            token_read(by.parser, by.document@, rank).terminal,
        ).len() <= usize::MAX,
        is_new_column(v.gss, v.session.columns.len() as usize),
        can_shift(
            by.parser,
            v.gss,
            v.session.columns.last().active,
            token_read(by.parser, by.document@, rank).terminal,
            node,
            state,
        ),
    ensures
        next == rank + 1,
        after == r,
        decoded == 0,
        token_shifted(by.parser, v, mid, token_read(by.parser, by.document@, rank)),
        if token_read(by.parser, by.document@, rank).terminal == by.parser.grammar.eof {
            let gap = gap_before(mid, token_read(by.parser, by.document@, rank));
            reduces_to(by.parser, gap, mid, w) && stable(by.parser, gap, w)
        } else {
            w == mid
        },
{
    let token = token_read(by.parser, by.document@, rank);
    lemma_some_stack_shifts(by.parser, v, token.terminal, node, state);
    assert(shifted_on(by.parser, v, w, token) && next == rank + 1 && after == r && decoded
        == 0) by {
        reveal(went_on);
    }
    choose|mid: StackView| #[trigger]
        shift_done(by.parser, v, mid, token) && if token.terminal == by.parser.grammar.eof {
            reduces_to(by.parser, gap_before(mid, token), mid, w) && stable(
                by.parser,
                gap_before(mid, token),
                w,
            )
        } else {
            w == mid
        }
}

} // verus!
