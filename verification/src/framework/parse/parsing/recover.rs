//! Making repairs, and making them again.

use vstd::prelude::*;

use crate::framework::lex::lexed::TokenOccurrenceId;
use crate::framework::parse::data::product::ProductId;
use crate::framework::parse::grammar::{Symbol, TerminalId};
use crate::framework::parse::parsing::columns::{checkpoint_of, frontier_checkpoint_for_column};
use crate::framework::parse::parsing::error::ParseError;
use crate::framework::parse::parsing::repairs::{
    identity_noted, probe_counted, reuse_counted, segment_begun, segment_resumed, witness_counted,
    witness_noted, EntryView, JournaledRepair, RecoveryJournalEntry, RecoveryState, RecoveryView,
    Repair, Witness,
};
use crate::framework::parse::parsing::session::extends_columns;
use crate::framework::parse::parsing::growth::{
    built_on, lemma_built_same, lemma_built_trans, lemma_prefix_self, lemma_prefix_trans,
};
use crate::framework::parse::parsing::reduce::{reduce_failed, reduces_to, stable, Gap};
use crate::framework::parse::parsing::shift::{
    error_pushed, error_shifted, missing_info, no_shift, shifts_from, token_dropped,
    token_taken, unexpected_info, ParseToken,
};
use crate::framework::parse::parsing::stack::{Language, SessionContext, StackView};
use crate::framework::parse::tables::Parser;
use crate::framework::parse::tokens::{
    lemma_looked_again, stretched, ParserTokenDocument, TokenTail,
};

verus! {

/// All made-up terminals are terminals of the grammar.
pub open spec fn repair_fits(repair: Repair, terminals: usize) -> bool {
    match repair {
        Repair::Insert(terminal) => terminal < terminals,
        _ => true,
    }
}

/// What a step looks at.
pub open spec fn witness_of(repair: Repair, token: Option<ParseToken>) -> Option<Witness> {
    match token {
        Some(token) => Some(Witness { token: token.column, terminal: token.terminal }),
        None => None,
    }
}

/// Where the tail goes on after a step.
pub open spec fn index_after(repair: Repair, index: usize) -> int {
    match repair {
        Repair::Insert(_) => index as int,
        _ => index + 1,
    }
}

/// A list with what a step looks at.
pub open spec fn with_witness(list: Seq<Witness>, witness: Option<Witness>) -> Seq<Witness> {
    match witness {
        Some(witness) => list.push(witness),
        None => list,
    }
}

/// A list with a step.
pub open spec fn with_repair(list: Seq<JournaledRepair>, repair: Repair, token: Option<ParseToken>) -> Seq<
    JournaledRepair,
> {
    match token {
        Some(token) => list.push(JournaledRepair { repair, anchor: token.column }),
        None => list,
    }
}

/// Everything was reduced that a terminal lets be reduced at the last gap.
pub open spec fn made_ready(
    parser: Parser,
    v: StackView,
    w: StackView,
    terminal: TerminalId,
    boundary: TokenOccurrenceId,
) -> bool {
    let gap = Gap { column: v.session.columns.len() - 1, lookahead: terminal, boundary };
    reduces_to(parser, gap, v, w) && stable(parser, gap, w)
}

/// Every stack that can shift a token did. One that stands for an error was
/// noted, and what it completes was reduced.
pub open spec fn token_shifted(parser: Parser, v: StackView, w: StackView, token: ParseToken) -> bool {
    let targets = shifts_from(parser, v.gss, v.session.columns.last().active, token.terminal);
    let gap = Gap {
        column: v.session.columns.len() as int,
        lookahead: parser.grammar.error_terminal,
        boundary: token.column,
    };
    if token.terminal != parser.grammar.error_terminal {
        exists|mid: StackView, product: ProductId| #[trigger]
            token_taken(v, w, token, targets, mid, product)
    } else {
        stable(parser, gap, w) && error_shifted(parser, v, w, token)
    }
}

/// A terminal was made up: every stack that can shift it did, and what it
/// completes was reduced.
pub open spec fn terminal_made_up(
    parser: Parser,
    v: StackView,
    w: StackView,
    terminal: TerminalId,
    token: Option<ParseToken>,
) -> bool {
    let next = v.session.columns.len() as usize;
    let targets = shifts_from(parser, v.gss, v.session.columns.last().active, terminal);
    let unexpected = symbol_at(token);
    let anchor = anchor_at(token);
    let gap = Gap { column: next as int, lookahead: terminal, boundary: anchor };
    &&& stable(parser, gap, w)
    &&& exists|mid: StackView| #[trigger]
        error_pushed(
            v,
            mid,
            None,
            targets,
            missing_info(parser, terminal, unexpected, next),
            anchor,
        ) && reduces_to(parser, gap, mid, w)
}

/// A token was dropped: the stacks stayed as they were, it was noted as an
/// error, and what that completes was reduced.
pub open spec fn token_deleted(parser: Parser, v: StackView, w: StackView, token: ParseToken) -> bool {
    let next = v.session.columns.len() as usize;
    let info = unexpected_info(parser, token.length, Some(Symbol::T(token.terminal)), next);
    let gap = Gap {
        column: next as int,
        lookahead: parser.grammar.error_terminal,
        boundary: token.column,
    };
    &&& stable(parser, gap, w)
    &&& exists|mid: StackView| #[trigger]
        token_dropped(v, mid, token, info) && reduces_to(parser, gap, mid, w)
}

/// The token that a step is made at, or the end.
pub open spec fn anchor_at(token: Option<ParseToken>) -> TokenOccurrenceId {
    match token {
        Some(token) => token.column,
        None => TokenOccurrenceId(u64::MAX),
    }
}

/// The symbol that a step is made at.
pub open spec fn symbol_at(token: Option<ParseToken>) -> Option<Symbol> {
    match token {
        Some(token) => Some(Symbol::T(token.terminal)),
        None => None,
    }
}

/// A token taken for an error.
pub open spec fn as_error(parser: Parser, token: ParseToken) -> ParseToken {
    ParseToken {
        terminal: parser.grammar.error_terminal,
        merge_source_terminal: Some(token.terminal),
        ..token
    }
}

/// One step of a repair led from `v` to `w`.
pub open spec fn repair_step(
    parser: Parser,
    v: StackView,
    w: StackView,
    repair: Repair,
    token: Option<ParseToken>,
) -> bool {
    match repair {
        Repair::Insert(terminal) => exists|ready: StackView| #[trigger]
            made_ready(parser, v, ready, terminal, anchor_at(token)) && terminal_made_up(
                parser,
                ready,
                w,
                terminal,
                token,
            ),
        Repair::Delete => token is Some && token_deleted(parser, v, w, token->Some_0),
        Repair::Shift => token is Some && exists|ready: StackView| #[trigger]
            made_ready(parser, v, ready, token->Some_0.terminal, token->Some_0.column)
                && token_shifted(parser, ready, w, token->Some_0),
        Repair::ShiftAsError => token is Some && exists|ready: StackView| #[trigger]
            made_ready(
                parser,
                v,
                ready,
                parser.grammar.error_terminal,
                token->Some_0.column,
            ) && token_shifted(parser, ready, w, as_error(parser, token->Some_0)),
    }
}

/// The steps of a repair led from `v` to `w`, one after the other.
pub open spec fn repair_steps(
    parser: Parser,
    v: StackView,
    w: StackView,
    repairs: Seq<Repair>,
    token: spec_fn(int) -> Option<ParseToken>,
    start: int,
) -> bool
    decreases repairs.len(),
{
    if repairs.len() == 0 {
        w == v
    } else {
        let before = repairs.drop_last();
        exists|u: StackView|
            repair_steps(parser, v, u, before, token, start) && #[trigger] repair_step(
                parser,
                u,
                w,
                repairs.last(),
                token(index_of_repairs(before, start)),
            )
    }
}

/// What is kept of repairs but for what a step notes: the numbers, the
/// document, and the journal.
pub open spec fn same_journal(a: RecoveryState, b: RecoveryState) -> bool {
    &&& a.journal == b.journal
    &&& a.next_recovery_segment == b.next_recovery_segment
    &&& a.active_recovery_segment == b.active_recovery_segment
    &&& a.document_serial == b.document_serial
}

/// What a step notes: the token that it looks at, and the identity of what it
/// makes up or drops.
pub open spec fn step_noted(
    r: RecoveryView,
    repair: Repair,
    token: Option<ParseToken>,
    column: int,
    segment: u64,
) -> RecoveryView {
    match (repair, token) {
        (Repair::Insert(_), Some(token)) => identity_noted(
            witness_counted(witness_noted(r, token.column.0, segment)),
            token.column.0,
        ),
        (Repair::Insert(_), None) => identity_noted(r, column as u64),
        (Repair::Delete, Some(token)) => identity_noted(
            witness_counted(witness_noted(r, token.column.0, segment)),
            token.column.0,
        ),
        (_, Some(token)) => witness_noted(r, token.column.0, segment),
        (_, None) => r,
    }
}

/// What the steps of a repair note, one after the other. The first is made at a
/// column, and each makes one more.
pub open spec fn steps_noted(
    r: RecoveryView,
    repairs: Seq<Repair>,
    token: spec_fn(int) -> Option<ParseToken>,
    start: int,
    column: int,
    segment: u64,
) -> RecoveryView
    decreases repairs.len(),
{
    if repairs.len() == 0 {
        r
    } else {
        let before = repairs.drop_last();
        step_noted(
            steps_noted(r, before, token, start, column, segment),
            repairs.last(),
            token(index_of_repairs(before, start)),
            column + before.len(),
            segment,
        )
    }
}

/// How many tokens are decoded once the first steps of a repair were made, or
/// tried: each looks at one place.
pub open spec fn steps_looked(
    count: int,
    repairs: Seq<Repair>,
    token: spec_fn(int) -> Option<ParseToken>,
    start: int,
    n: int,
) -> int
    decreases n,
{
    if n <= 0 {
        count
    } else {
        stretched(
            steps_looked(count, repairs, token, start, n - 1),
            token,
            index_of_repairs(repairs.take(n - 1), start),
        )
    }
}

/// A repair is kept under its number, and counted.
pub open spec fn repair_kept(r: RecoveryView, serial: u64, entry: EntryView) -> RecoveryView {
    probe_counted(RecoveryView { journal: r.journal.insert(serial, entry), ..r })
}

/// What the attempt at a repair notes that cannot be made: nothing where it is
/// seen from the steps alone; else what the steps note that were made, and the
/// one after which no stack would be left.
pub open spec fn noted_in_vain(
    parser: Parser,
    v: StackView,
    repairs: Seq<Repair>,
    token: spec_fn(int) -> Option<ParseToken>,
    r: RecoveryView,
    after: RecoveryView,
    count: int,
    decoded: int,
) -> bool {
    let begun = segment_begun(r);
    let column = v.session.columns.len() - 1;
    if repairs.len() == 0 || repairs.len() >= usize::MAX || exists|i: int|
        0 <= i < repairs.len() && !repair_fits(#[trigger] repairs[i], parser.grammar.terminals) {
        after == r && decoded == count
    } else {
        attempt_noted(
            parser,
            v,
            repairs,
            token,
            0,
            begun,
            column,
            begun.last,
            after,
            count,
            decoded,
        )
    }
}

/// What the steps of a repair note that were made before the tokens ended, or
/// before no stack would have been left.
pub open spec fn attempt_noted(
    parser: Parser,
    v: StackView,
    repairs: Seq<Repair>,
    token: spec_fn(int) -> Option<ParseToken>,
    start: int,
    r: RecoveryView,
    column: int,
    segment: u64,
    after: RecoveryView,
    count: int,
    decoded: int,
) -> bool {
    exists|k: int, u: StackView|
        0 <= k < repairs.len() && #[trigger] repair_steps(
            parser,
            v,
            u,
            repairs.take(k),
            token,
            start,
        ) && decoded == steps_looked(count, repairs, token, start, k + 1) && {
            ||| tail_ends(repairs, token, start, k) && after == steps_noted(
                r,
                repairs.take(k),
                token,
                start,
                column,
                segment,
            )
            ||| step_blocked(
                parser,
                u,
                repairs[k],
                token(index_of_repairs(repairs.take(k), start)),
            ) && after == steps_noted(r, repairs.take(k + 1), token, start, column, segment)
        }
}

/// Notes the identity of what is made up or dropped at a token, or at a column
/// where there is no token.
pub fn synthetic_anchor(
    occurrence: Option<TokenOccurrenceId>,
    fallback_column: usize,
    recovery: &mut RecoveryState,
) -> (r: u64)
    requires
        old(recovery).wf(),
    ensures
        final(recovery).wf(),
        same_journal(*final(recovery), *old(recovery)),
        final(recovery)@ == identity_noted(
            old(recovery)@,
            match occurrence {
                Some(token) => token.0,
                None => fallback_column as u64,
            },
        ),
        r == crate::framework::parse::parsing::repairs::synthetic_identity(
            old(recovery).document_serial,
            match old(recovery).active_recovery_segment {
                Some(segment) => segment,
                None => 0,
            },
            old(recovery).next_synthetic_ordinal,
        ),
        final(recovery).synthetic_tokens@ == old(recovery).synthetic_tokens@.insert(
            match occurrence {
                Some(token) => token.0,
                None => fallback_column as u64,
            },
            r,
        ),
        final(recovery).next_synthetic_ordinal == old(recovery).next_synthetic_ordinal.wrapping_add(
            1,
        ),
        final(recovery).witness_intervals == old(recovery).witness_intervals,
{
    let anchor = match occurrence {
        Some(token) => token,
        None => TokenOccurrenceId(fallback_column as u64),
    };
    recovery.next_synthetic_identity(anchor)
}

impl<V> SessionContext<V> {
    /// Nothing stands behind the columns, and there is one.
    pub open spec fn at_work(self) -> bool {
        self.state.retained_suffix is None && self.state.columns@.len() > 0
    }

    /// Notes that a step looks at a token.
    fn witness(
        &mut self,
        parser: &Parser,
        token: &ParseToken,
        segment: u64,
        witnesses: &mut Vec<Witness>,
    )
        requires
            old(self).wf(*parser),
        ensures
            final(self).wf(*parser),
            final(self)@ == old(self)@,
            final(self).arenas == old(self).arenas,
            same_journal(final(self).state.recovery, old(self).state.recovery),
            final(self).state.recovery@ == witness_noted(
                old(self).state.recovery@,
                token.column.0,
                segment,
            ),
            final(self).state.retained_suffix == old(self).state.retained_suffix,
            final(self).state.columns == old(self).state.columns,
            final(witnesses)@ == old(witnesses)@.push(
                Witness { token: token.column, terminal: token.terminal },
            ),
    {
        self.state.recovery.record_witness(token.column, segment);
        witnesses.push(Witness { token: token.column, terminal: token.terminal });
    }

    /// Makes one step of a repair. Returns where the tail goes on; none where
    /// the tail has no token for the step, and then nothing changes.
    #[verifier::rlimit(40)]
    pub fn apply_repair<L: Language<V>>(
        &mut self,
        parser: &Parser,
        language: &L,
        repair: Repair,
        index: usize,
        tail: &mut TokenTail<'_>,
        segment: u64,
        witnesses: &mut Vec<Witness>,
        journaled: &mut Vec<JournaledRepair>,
    ) -> (r: Result<Option<usize>, ParseError>)
        requires
            old(self).wf(*parser),
            old(self).at_work(),
            repair_fits(repair, parser.grammar.terminals),
            index < usize::MAX,
            old(tail).wf(),
            old(tail).fits(parser.grammar.terminals),
        ensures
            final(self).wf(*parser),
            final(self).at_work(),
            same_journal(final(self).state.recovery, old(self).state.recovery),
            built_on(*language, *old(self), *final(self)),
            final(tail).wf(),
            forall|i: int| #[trigger] final(tail).token(i) == old(tail).token(i),
            final(tail).count() == stretched(
                old(tail).count() as int,
                |i: int| old(tail).token(i),
                index as int,
            ),
            extends_columns(
                old(self)@.session,
                final(self)@.session,
                old(self)@.session.columns.len() - 1,
            ),
            match r {
                Ok(Some(next)) => {
                    let token = old(tail).token(index as int);
                    &&& next == index_after(repair, index)
                    &&& repair is Insert || token is Some
                    &&& final(self)@.session.columns.len() == old(self)@.session.columns.len() + 1
                    &&& final(witnesses)@ == with_witness(
                        old(witnesses)@,
                        witness_of(repair, token),
                    )
                    &&& final(journaled)@ == with_repair(old(journaled)@, repair, token)
                    &&& repair_step(*parser, old(self)@, final(self)@, repair, token)
                    &&& final(self).state.recovery@ == step_noted(
                        old(self).state.recovery@,
                        repair,
                        token,
                        old(self)@.session.columns.len() - 1,
                        segment,
                    )
                },
                Ok(None) => {
                    &&& !(repair is Insert)
                    &&& old(tail).token(index as int) is None
                    &&& *final(self) == *old(self)
                    &&& final(witnesses)@ == old(witnesses)@
                    &&& final(journaled)@ == old(journaled)@
                },
                Err(error) => {
                    ||| error is NoActiveStacks && step_blocked(
                        *parser,
                        old(self)@,
                        repair,
                        old(tail).token(index as int),
                    ) && final(self).state.recovery@ == step_noted(
                        old(self).state.recovery@,
                        repair,
                        old(tail).token(index as int),
                        old(self)@.session.columns.len() - 1,
                        segment,
                    )
                    ||| reduce_failed(*parser, *language, *final(self), error)
                },
            },
    {
        let ghost v = self@;
        let ghost whole = *self;
        proof {
            lemma_built_same(*language, whole, whole);
            lemma_prefix_self(v.session.diagnostics);
        }
        let column: usize = self.state.columns.len() - 1;
        assert(v.session.columns.len() == self.state.columns@.len());
        let token = tail.get(index);
        assert(token is Some ==> old(tail).token(index as int)->Some_0.terminal
            < parser.grammar.terminals);
        match repair {
            Repair::Insert(terminal) => {
                let anchor = match token {
                    Some(found) => {
                        self.witness(parser, &found, segment, witnesses);
                        self.state.recovery.count_witness();
                        found.column
                    },
                    None => TokenOccurrenceId(u64::MAX),
                };
                let location = match token {
                    Some(found) => Some(found.column),
                    None => None,
                };
                let ghost seen = *self;
                proof {
                    lemma_built_same(*language, whole, seen);
                }
                match self.reduce_until_stable(parser, language, column, terminal, anchor) {
                    Ok(_) => {},
                    Err(error) => {
                        proof {
                            lemma_built_trans(*language, whole, seen, *self);
                        }
                        assert(self@.session.columns.len() == self.state.columns@.len());
                        return Err(error);
                    },
                }
                assert(self@.session.columns.len() == self.state.columns@.len());
                let unexpected = match token {
                    Some(found) => Some(Symbol::T(found.terminal)),
                    None => None,
                };
                let ghost stopped = *self;
                synthetic_anchor(location, column, &mut self.state.recovery);
                let ghost mid = self@;
                let ghost ready = *self;
                proof {
                    lemma_built_trans(*language, whole, seen, stopped);
                    lemma_built_same(*language, stopped, ready);
                    lemma_built_trans(*language, whole, stopped, ready);
                }
                assert(self.wf(*parser));
                match self.shift_synthetic_terminal(
                    parser,
                    language,
                    column,
                    terminal,
                    unexpected,
                    location,
                ) {
                    Ok(_) => {},
                    Err(error) => {
                        proof {
                            lemma_built_trans(*language, whole, ready, *self);
                            assert(self@.session.columns.len() == self.state.columns@.len());
                            assert(made_ready(*parser, v, mid, terminal, anchor_at(token)));
                        }
                        return Err(error);
                    },
                }
                assert(self@.session.columns.len() == self.state.columns@.len());
                if let Some(found) = token {
                    journaled.push(JournaledRepair { repair, anchor: found.column });
                }
                proof {
                    lemma_built_trans(*language, whole, ready, *self);
                    assert(made_ready(*parser, v, mid, terminal, anchor_at(token)));
                    assert(terminal_made_up(*parser, mid, self@, terminal, token));
                }
                Ok(Some(index))
            },
            Repair::Delete => {
                let found = match token {
                    Some(found) => found,
                    None => {
                        return Ok(None);
                    },
                };
                self.witness(parser, &found, segment, witnesses);
                self.state.recovery.count_witness();
                synthetic_anchor(Some(found.column), column, &mut self.state.recovery);
                assert(self.wf(*parser));
                let ghost seen = *self;
                proof {
                    lemma_built_same(*language, whole, seen);
                }
                match self.delete_parse_token(parser, language, column, &found) {
                    Ok(_) => {},
                    Err(error) => {
                        proof {
                            lemma_built_trans(*language, whole, seen, *self);
                        }
                        assert(self@.session.columns.len() == self.state.columns@.len());
                        return Err(error);
                    },
                }
                assert(self@.session.columns.len() == self.state.columns@.len());
                journaled.push(JournaledRepair { repair, anchor: found.column });
                proof {
                    lemma_built_trans(*language, whole, seen, *self);
                    assert(token_deleted(*parser, v, self@, found));
                }
                Ok(Some(index + 1))
            },
            Repair::Shift => {
                let found = match token {
                    Some(found) => found,
                    None => {
                        return Ok(None);
                    },
                };
                self.witness(parser, &found, segment, witnesses);
                let ghost seen = *self;
                proof {
                    lemma_built_same(*language, whole, seen);
                }
                match self.reduce_until_stable(
                    parser,
                    language,
                    column,
                    found.terminal,
                    found.column,
                ) {
                    Ok(_) => {},
                    Err(error) => {
                        proof {
                            lemma_built_trans(*language, whole, seen, *self);
                        }
                        assert(self@.session.columns.len() == self.state.columns@.len());
                        return Err(error);
                    },
                }
                assert(self@.session.columns.len() == self.state.columns@.len());
                let ghost mid = self@;
                let ghost ready = *self;
                proof {
                    lemma_built_trans(*language, whole, seen, ready);
                }
                match self.shift_parse_token(parser, language, column, &found) {
                    Ok(_) => {},
                    Err(error) => {
                        proof {
                            lemma_built_trans(*language, whole, ready, *self);
                            assert(self@.session.columns.len() == self.state.columns@.len());
                            assert(made_ready(*parser, v, mid, found.terminal, found.column));
                        }
                        return Err(error);
                    },
                }
                assert(self@.session.columns.len() == self.state.columns@.len());
                journaled.push(JournaledRepair { repair, anchor: found.column });
                proof {
                    lemma_built_trans(*language, whole, ready, *self);
                    assert(made_ready(*parser, v, mid, found.terminal, found.column));
                    assert(token_shifted(*parser, mid, self@, found));
                }
                Ok(Some(index + 1))
            },
            Repair::ShiftAsError => {
                let found = match token {
                    Some(found) => found,
                    None => {
                        return Ok(None);
                    },
                };
                self.witness(parser, &found, segment, witnesses);
                let modified = ParseToken {
                    entry: found.entry,
                    column: found.column,
                    start: found.start,
                    terminal: parser.grammar.error_terminal,
                    length: found.length,
                    merge_source_terminal: Some(found.terminal),
                };
                let ghost seen = *self;
                proof {
                    lemma_built_same(*language, whole, seen);
                }
                match self.reduce_until_stable(
                    parser,
                    language,
                    column,
                    parser.grammar.error_terminal,
                    found.column,
                ) {
                    Ok(_) => {},
                    Err(error) => {
                        proof {
                            lemma_built_trans(*language, whole, seen, *self);
                        }
                        assert(self@.session.columns.len() == self.state.columns@.len());
                        return Err(error);
                    },
                }
                assert(self@.session.columns.len() == self.state.columns@.len());
                let ghost mid = self@;
                let ghost ready = *self;
                proof {
                    lemma_built_trans(*language, whole, seen, ready);
                }
                match self.shift_parse_token(parser, language, column, &modified) {
                    Ok(_) => {},
                    Err(error) => {
                        proof {
                            lemma_built_trans(*language, whole, ready, *self);
                            assert(self@.session.columns.len() == self.state.columns@.len());
                            assert(made_ready(
                                *parser,
                                v,
                                mid,
                                parser.grammar.error_terminal,
                                found.column,
                            ));
                        }
                        return Err(error);
                    },
                }
                assert(self@.session.columns.len() == self.state.columns@.len());
                journaled.push(JournaledRepair { repair, anchor: found.column });
                proof {
                    lemma_built_trans(*language, whole, ready, *self);
                    assert(modified == as_error(*parser, found));
                    assert(made_ready(
                        *parser,
                        v,
                        mid,
                        parser.grammar.error_terminal,
                        found.column,
                    ));
                    assert(token_shifted(*parser, mid, self@, modified));
                }
                Ok(Some(index + 1))
            },
        }
    }
}

/// What the steps of a repair look at, one after the other.
pub open spec fn witnesses_of(
    repairs: Seq<Repair>,
    token: spec_fn(int) -> Option<ParseToken>,
    start: int,
) -> Seq<Witness>
    decreases repairs.len(),
{
    if repairs.len() == 0 {
        Seq::empty()
    } else {
        let before = repairs.drop_last();
        with_witness(
            witnesses_of(before, token, start),
            witness_of(repairs.last(), token(index_of_repairs(before, start))),
        )
    }
}

/// The steps of a repair with the tokens that they are made at.
pub open spec fn journal_of(
    repairs: Seq<Repair>,
    token: spec_fn(int) -> Option<ParseToken>,
    start: int,
) -> Seq<JournaledRepair>
    decreases repairs.len(),
{
    if repairs.len() == 0 {
        Seq::empty()
    } else {
        let before = repairs.drop_last();
        with_repair(
            journal_of(before, token, start),
            repairs.last(),
            token(index_of_repairs(before, start)),
        )
    }
}

/// Where the tail stands after steps.
pub open spec fn index_of_repairs(repairs: Seq<Repair>, start: int) -> int
    decreases repairs.len(),
{
    if repairs.len() == 0 {
        start
    } else {
        let before = index_of_repairs(repairs.drop_last(), start);
        match repairs.last() {
            Repair::Insert(_) => before,
            _ => before + 1,
        }
    }
}

/// A step of a repair after which no stack would be left.
pub open spec fn step_blocked(
    parser: Parser,
    v: StackView,
    repair: Repair,
    token: Option<ParseToken>,
) -> bool {
    match repair {
        Repair::Insert(terminal) => exists|ready: StackView| #[trigger]
            made_ready(parser, v, ready, terminal, anchor_at(token)) && no_shift(
                parser,
                ready,
                terminal,
            ),
        Repair::Delete => false,
        Repair::Shift => token is Some && exists|ready: StackView| #[trigger]
            made_ready(parser, v, ready, token->Some_0.terminal, token->Some_0.column) && no_shift(
                parser,
                ready,
                token->Some_0.terminal,
            ),
        Repair::ShiftAsError => token is Some && exists|ready: StackView| #[trigger]
            made_ready(
                parser,
                v,
                ready,
                parser.grammar.error_terminal,
                token->Some_0.column,
            ) && no_shift(parser, ready, parser.grammar.error_terminal),
    }
}

/// The first steps of a repair can be made, and then no stack would be left.
pub open spec fn repairs_blocked(
    parser: Parser,
    v: StackView,
    repairs: Seq<Repair>,
    token: spec_fn(int) -> Option<ParseToken>,
    start: int,
) -> bool {
    exists|k: int, u: StackView|
        0 <= k < repairs.len() && #[trigger] repair_steps(
            parser,
            v,
            u,
            repairs.take(k),
            token,
            start,
        ) && step_blocked(
            parser,
            u,
            repairs[k],
            token(index_of_repairs(repairs.take(k), start)),
        )
}

/// The tokens end before a step of a repair that takes one.
pub open spec fn tail_ends(
    repairs: Seq<Repair>,
    token: spec_fn(int) -> Option<ParseToken>,
    start: int,
    k: int,
) -> bool {
    &&& 0 <= k < repairs.len()
    &&& !(repairs[k] is Insert)
    &&& token(index_of_repairs(repairs.take(k), start)) is None
}

/// The first steps of a repair were made, and then the tokens ended.
pub open spec fn repairs_outrun(
    parser: Parser,
    v: StackView,
    w: StackView,
    repairs: Seq<Repair>,
    token: spec_fn(int) -> Option<ParseToken>,
    start: int,
) -> bool {
    exists|k: int| #[trigger]
        tail_ends(repairs, token, start, k) && repair_steps(
            parser,
            v,
            w,
            repairs.take(k),
            token,
            start,
        )
}

/// The language was asked for a repair, and knows none that can be made; `after`
/// is what is kept of repairs once it was tried, and `decoded` tokens are decoded
/// by then.
pub open spec fn found_nothing<V, L: Language<V>>(
    parser: Parser,
    language: L,
    context: SessionContext<V>,
    document: ParserTokenDocument,
    rank: usize,
    token: spec_fn(int) -> Option<ParseToken>,
    after: RecoveryView,
    count: int,
    decoded: int,
) -> bool {
    exists|found: Option<Vec<Repair>>| #[trigger]
        language.finds(
            context,
            (context@.session.columns.len() - 1) as usize,
            document,
            rank,
            found,
        ) && match found {
            Some(list) => useless(parser, context@, list@, token) && noted_in_vain(
                parser,
                context@,
                list@,
                token,
                context.state.recovery@,
                after,
                count,
                decoded,
            ),
            None => after == context.state.recovery@ && decoded == count,
        }
}

/// A repair cannot be made: it has no steps or too many, the grammar does not
/// know a terminal of it, the tokens end before it does, or no stack would be
/// left after a step.
pub open spec fn useless(
    parser: Parser,
    v: StackView,
    repairs: Seq<Repair>,
    token: spec_fn(int) -> Option<ParseToken>,
) -> bool {
    ||| repairs.len() == 0
    ||| repairs.len() >= usize::MAX
    ||| exists|i: int|
        0 <= i < repairs.len() && !repair_fits(#[trigger] repairs[i], parser.grammar.terminals)
    ||| exists|k: int| #[trigger] tail_ends(repairs, token, 0, k)
    ||| repairs_blocked(parser, v, repairs, token, 0)
}

impl<V> SessionContext<V> {
    /// Makes the steps of a repair. Returns where the tail goes on; none where
    /// the tail ends before the steps do.
    fn apply_repairs<L: Language<V>>(
        &mut self,
        parser: &Parser,
        language: &L,
        repairs: &Vec<Repair>,
        start: usize,
        tail: &mut TokenTail<'_>,
        segment: u64,
        witnesses: &mut Vec<Witness>,
        journaled: &mut Vec<JournaledRepair>,
    ) -> (r: Result<Option<usize>, ParseError>)
        requires
            old(self).wf(*parser),
            old(self).at_work(),
            forall|i: int|
                0 <= i < repairs@.len() ==> repair_fits(
                    #[trigger] repairs@[i],
                    parser.grammar.terminals,
                ),
            start + repairs@.len() < usize::MAX,
            old(tail).wf(),
            old(tail).fits(parser.grammar.terminals),
            old(witnesses)@.len() == 0,
            old(journaled)@.len() == 0,
        ensures
            final(self).wf(*parser),
            final(self).at_work(),
            same_journal(final(self).state.recovery, old(self).state.recovery),
            built_on(*language, *old(self), *final(self)),
            final(tail).wf(),
            forall|i: int| #[trigger] final(tail).token(i) == old(tail).token(i),
            extends_columns(
                old(self)@.session,
                final(self)@.session,
                old(self)@.session.columns.len() - 1,
            ),
            match r {
                Ok(Some(next)) => {
                    let token = |i: int| old(tail).token(i);
                    &&& next == index_of_repairs(repairs@, start as int)
                    &&& final(self)@.session.columns.len() == old(self)@.session.columns.len()
                        + repairs@.len()
                    &&& final(tail).count() == steps_looked(
                        old(tail).count() as int,
                        repairs@,
                        token,
                        start as int,
                        repairs@.len() as int,
                    )
                    &&& final(witnesses)@ == witnesses_of(repairs@, token, start as int)
                    &&& final(journaled)@ == journal_of(repairs@, token, start as int)
                    &&& repair_steps(
                        *parser,
                        old(self)@,
                        final(self)@,
                        repairs@,
                        token,
                        start as int,
                    )
                    &&& final(self).state.recovery@ == steps_noted(
                        old(self).state.recovery@,
                        repairs@,
                        token,
                        start as int,
                        old(self)@.session.columns.len() - 1,
                        segment,
                    )
                },
                Ok(None) => repairs_outrun(
                    *parser,
                    old(self)@,
                    final(self)@,
                    repairs@,
                    |i: int| old(tail).token(i),
                    start as int,
                ) && attempt_noted(
                    *parser,
                    old(self)@,
                    repairs@,
                    |i: int| old(tail).token(i),
                    start as int,
                    old(self).state.recovery@,
                    old(self)@.session.columns.len() - 1,
                    segment,
                    final(self).state.recovery@,
                    old(tail).count() as int,
                    final(tail).count() as int,
                ),
                Err(error) => {
                    ||| error is NoActiveStacks && repairs_blocked(
                        *parser,
                        old(self)@,
                        repairs@,
                        |i: int| old(tail).token(i),
                        start as int,
                    ) && attempt_noted(
                        *parser,
                        old(self)@,
                        repairs@,
                        |i: int| old(tail).token(i),
                        start as int,
                        old(self).state.recovery@,
                        old(self)@.session.columns.len() - 1,
                        segment,
                        final(self).state.recovery@,
                        old(tail).count() as int,
                        final(tail).count() as int,
                    )
                    ||| reduce_failed(*parser, *language, *final(self), error)
                },
            },
    {
        let ghost token = |i: int| old(tail).token(i);
        let ghost v = self@;
        proof {
            lemma_built_same(*language, *self, *self);
            lemma_prefix_self(v.session.diagnostics);
        }
        let mut index: usize = start;
        let mut at: usize = 0;
        assert(repairs@.take(0) =~= Seq::<Repair>::empty());
        assert(witnesses@ =~= Seq::<Witness>::empty());
        assert(journaled@ =~= Seq::<JournaledRepair>::empty());
        while at < repairs.len()
            invariant
                at <= repairs@.len(),
                self.wf(*parser),
                self.at_work(),
                forall|i: int|
                    0 <= i < repairs@.len() ==> repair_fits(
                        #[trigger] repairs@[i],
                        parser.grammar.terminals,
                    ),
                start + repairs@.len() < usize::MAX,
                start <= index <= start + at,
                v == old(self)@,
                token == (|i: int| old(tail).token(i)),
                same_journal(self.state.recovery, old(self).state.recovery),
                built_on(*language, *old(self), *self),
                tail.wf(),
                tail.fits(parser.grammar.terminals),
                forall|i: int| #[trigger] tail.token(i) == old(tail).token(i),
                extends_columns(v.session, self@.session, v.session.columns.len() - 1),
                self@.session.columns.len() == v.session.columns.len() + at,
                index == index_of_repairs(repairs@.take(at as int), start as int),
                witnesses@ == witnesses_of(repairs@.take(at as int), token, start as int),
                journaled@ == journal_of(repairs@.take(at as int), token, start as int),
                tail.count() == steps_looked(
                    old(tail).count() as int,
                    repairs@,
                    token,
                    start as int,
                    at as int,
                ),
                self.state.recovery@ == steps_noted(
                    old(self).state.recovery@,
                    repairs@.take(at as int),
                    token,
                    start as int,
                    v.session.columns.len() - 1,
                    segment,
                ),
                repair_steps(
                    *parser,
                    v,
                    self@,
                    repairs@.take(at as int),
                    token,
                    start as int,
                ),
            decreases repairs@.len() - at,
        {
            let repair = repairs[at];
            let ghost before = self@;
            let ghost whole = *self;
            let ghost here = |i: int| tail.token(i);
            proof {
                assert(here =~= token);
                assert(repairs@.take(at as int + 1).drop_last() =~= repairs@.take(at as int));
                assert(repairs@.take(at as int + 1).last() == repair);
                assert(tail.token(index as int) == token(index as int));
            }
            match self.apply_repair(
                parser,
                language,
                repair,
                index,
                tail,
                segment,
                witnesses,
                journaled,
            ) {
                Ok(Some(next)) => {
                    proof {
                        lemma_built_trans(*language, *old(self), whole, *self);
                        lemma_prefix_trans(
                            v.session.diagnostics,
                            before.session.diagnostics,
                            self@.session.diagnostics,
                        );
                    }
                    index = next;
                },
                Ok(None) => {
                    proof {
                        assert(tail_ends(repairs@, token, start as int, at as int));
                        assert(repair_steps(
                            *parser,
                            v,
                            self@,
                            repairs@.take(at as int),
                            token,
                            start as int,
                        ));
                        assert(attempt_noted(
                            *parser,
                            v,
                            repairs@,
                            token,
                            start as int,
                            old(self).state.recovery@,
                            v.session.columns.len() - 1,
                            segment,
                            self.state.recovery@,
                            old(tail).count() as int,
                            tail.count() as int,
                        ));
                        assert(repairs_outrun(
                            *parser,
                            v,
                            self@,
                            repairs@,
                            token,
                            start as int,
                        ));
                    }
                    return Ok(None);
                },
                Err(error) => {
                    proof {
                        lemma_built_trans(*language, *old(self), whole, *self);
                        lemma_prefix_trans(
                            v.session.diagnostics,
                            before.session.diagnostics,
                            self@.session.diagnostics,
                        );
                        if error is NoActiveStacks {
                            assert(repairs_blocked(*parser, v, repairs@, token, start as int));
                            assert(repair_steps(
                                *parser,
                                v,
                                before,
                                repairs@.take(at as int),
                                token,
                                start as int,
                            ));
                            assert(attempt_noted(
                                *parser,
                                v,
                                repairs@,
                                token,
                                start as int,
                                old(self).state.recovery@,
                                v.session.columns.len() - 1,
                                segment,
                                self.state.recovery@,
                                old(tail).count() as int,
                                tail.count() as int,
                            ));
                        }
                    }
                    return Err(error);
                },
            }
            proof {
                assert(forall|i: int| #[trigger] tail.token(i) == old(tail).token(i));
                assert(tail.fits(parser.grammar.terminals)) by {
                    assert forall|i: int| i >= 0 && (#[trigger] tail.token(i)) is Some implies
                        tail.token(i)->Some_0.terminal < parser.grammar.terminals by {
                        assert(old(tail).token(i) is Some);
                    }
                }
            }
            at += 1;
        }
        assert(repairs@.take(at as int) =~= repairs@);
        Ok(Some(index))
    }

    /// Looks for a repair and makes it. The repair is kept, to be made again
    /// where a later parse gets stuck in the same way.
    pub fn recover_tokens<L: Language<V>>(
        &mut self,
        parser: &Parser,
        language: &L,
        enabled: bool,
        document: &ParserTokenDocument,
        rank: usize,
        tail: &mut TokenTail<'_>,
        trigger: TokenOccurrenceId,
    ) -> (r: Result<Option<usize>, ParseError>)
        requires
            old(self).wf(*parser),
            old(self).at_work(),
            old(tail).wf(),
            old(tail).fits(parser.grammar.terminals),
        ensures
            final(self).wf(*parser),
            final(self).at_work(),
            final(self).state.recovery.document_serial == old(
                self,
            ).state.recovery.document_serial,
            built_on(*language, *old(self), *final(self)),
            final(tail).wf(),
            forall|i: int| #[trigger] final(tail).token(i) == old(tail).token(i),
            extends_columns(
                old(self)@.session,
                final(self)@.session,
                old(self)@.session.columns.len() - 1,
            ),
            !enabled ==> r == Ok::<Option<usize>, ParseError>(None) && *final(self) == *old(self)
                && final(tail).count() == old(tail).count(),
            match r {
                Ok(Some(index)) => {
                    let serial = old(self).state.recovery.next_recovery_segment.wrapping_add(1);
                    let journal = final(self).state.recovery.journal@;
                    &&& final(self)@.session.columns.len() > old(self)@.session.columns.len()
                    &&& journal.dom() == old(self).state.recovery.journal@.dom().insert(serial)
                    &&& exists|repairs: Vec<Repair>| #[trigger]
                        language.finds(
                            *old(self),
                            (old(self)@.session.columns.len() - 1) as usize,
                            *document,
                            rank,
                            Some(repairs),
                        ) && repairs@.len() > 0 && kept_repair(
                            journal[serial],
                            repairs@,
                            |i: int| old(tail).token(i),
                            trigger,
                        ) && index == index_of_repairs(repairs@, 0) && repair_steps(
                            *parser,
                            old(self)@,
                            final(self)@,
                            repairs@,
                            |i: int| old(tail).token(i),
                            0,
                        ) && final(self).state.recovery@ == repair_kept(
                            steps_noted(
                                segment_begun(old(self).state.recovery@),
                                repairs@,
                                |i: int| old(tail).token(i),
                                0,
                                old(self)@.session.columns.len() - 1,
                                serial,
                            ),
                            serial,
                            entry_of(old(self)@, repairs@, |i: int| old(tail).token(i), trigger),
                        ) && final(tail).count() == steps_looked(
                            old(tail).count() as int,
                            repairs@,
                            |i: int| old(tail).token(i),
                            0,
                            repairs@.len() as int,
                        )
                    &&& journal[serial].frontier@ == checkpoint_of(
                        old(self)@.session.columns.last(),
                        (old(self)@.gss, old(self)@.products),
                    )
                },
                Ok(None) => {
                    &&& final(self).state.recovery.journal == old(self).state.recovery.journal
                    &&& enabled ==> found_nothing(
                        *parser,
                        *language,
                        *old(self),
                        *document,
                        rank,
                        |i: int| old(tail).token(i),
                        final(self).state.recovery@,
                        old(tail).count() as int,
                        final(tail).count() as int,
                    )
                },
                Err(error) => {
                    &&& final(self).state.recovery.journal == old(self).state.recovery.journal
                    &&& {
                        ||| error is NoActiveStacks && found_nothing(
                            *parser,
                            *language,
                            *old(self),
                            *document,
                            rank,
                            |i: int| old(tail).token(i),
                            final(self).state.recovery@,
                            old(tail).count() as int,
                            final(tail).count() as int,
                        )
                        ||| reduce_failed(*parser, *language, *final(self), error)
                    }
                },
            },
    {
        let ghost v = self@;
        let ghost token = |i: int| old(tail).token(i);
        proof {
            lemma_built_same(*language, *self, *self);
            lemma_prefix_self(v.session.diagnostics);
        }
        if !enabled {
            return Ok(None);
        }
        let column: usize = self.state.columns.len() - 1;
        assert(v.session.columns.len() == self.state.columns@.len());
        let repairs = match language.find_recovery(self, column, document, rank) {
            Some(repairs) => repairs,
            None => {
                return Ok(None);
            },
        };
        let total: usize = repairs.len();
        if total == 0 || total >= usize::MAX {
            return Ok(None);
        }
        let mut at: usize = 0;
        while at < total
            invariant
                at <= total,
                total == repairs@.len(),
                *self == *old(self),
                *tail == *old(tail),
                self.wf(*parser),
                self.at_work(),
                tail.wf(),
                forall|i: int|
                    0 <= i < at ==> repair_fits(#[trigger] repairs@[i], parser.grammar.terminals),
                language.finds(*old(self), column, *document, rank, Some(repairs)),
                column == old(self)@.session.columns.len() - 1,
                built_on(*language, *old(self), *self),
                old(self)@.session.diagnostics.is_prefix_of(self@.session.diagnostics),
                token == (|i: int| old(tail).token(i)),
                old(tail).wf(),
            decreases total - at,
        {
            if let Repair::Insert(terminal) = repairs[at] {
                if terminal as usize >= parser.grammar.terminals {
                    proof {
                        assert(!repair_fits(repairs@[at as int], parser.grammar.terminals));
                        assert(useless(*parser, old(self)@, repairs@, token));
                        let found = Some(repairs);
                        assert(language.finds(
                            *old(self),
                            (old(self)@.session.columns.len() - 1) as usize,
                            *document,
                            rank,
                            found,
                        ));
                        assert(found_nothing(
                            *parser,
                            *language,
                            *old(self),
                            *document,
                            rank,
                            token,
                            self.state.recovery@,
                            old(tail).count() as int,
                            tail.count() as int,
                        ));
                    }
                    return Ok(None);
                }
            }
            at += 1;
        }
        let frontier = frontier_checkpoint_for_column(
            &self.state.columns[column],
            &self.arenas.gss,
            &self.arenas.products,
        );
        let segment: u64 = self.state.recovery.begin_recovery_segment();
        let ghost whole = *self;
        proof {
            lemma_built_same(*language, *old(self), whole);
        }
        let mut witnesses: Vec<Witness> = Vec::new();
        let mut journaled: Vec<JournaledRepair> = Vec::new();
        let index = match self.apply_repairs(
            parser,
            language,
            &repairs,
            0,
            tail,
            segment,
            &mut witnesses,
            &mut journaled,
        ) {
            Ok(Some(index)) => index,
            Ok(None) => {
                proof {
                    lemma_built_trans(*language, *old(self), whole, *self);
                }
                return Ok(None);
            },
            Err(error) => {
                proof {
                    lemma_built_trans(*language, *old(self), whole, *self);
                }
                return Err(error);
            },
        };
        let ghost made = *self;
        let entry = RecoveryJournalEntry { anchor: trigger, frontier, witnesses, repairs: journaled };
        let ghost journal0 = self.state.recovery.journal@;
        self.state.recovery.journal.insert(segment, entry);
        self.state.recovery.count_probe();
        proof {
            lemma_built_trans(*language, *old(self), whole, made);
            lemma_built_same(*language, made, *self);
            lemma_built_trans(*language, *old(self), made, *self);
            assert(self.state.recovery.journal@.dom() =~= journal0.dom().insert(segment));
            assert(kept_repair(self.state.recovery.journal@[segment], repairs@, token, trigger));
            assert(self.state.recovery.journal@[segment]@ =~= entry_of(v, repairs@, token, trigger));
            assert(self.state.recovery@ =~= repair_kept(
                made.state.recovery@,
                segment,
                entry_of(v, repairs@, token, trigger),
            ));
            assert(repairs@.len() > 0);
        }
        Ok(Some(index))
    }

    /// Makes a kept repair again under its number. Every step must be made at
    /// the token that it was made at before.
    pub fn replay_recovery_journal<L: Language<V>>(
        &mut self,
        parser: &Parser,
        language: &L,
        serial: u64,
        repairs: &Vec<JournaledRepair>,
        tail: &mut TokenTail<'_>,
    ) -> (r: Result<Option<usize>, ParseError>)
        requires
            old(self).wf(*parser),
            old(self).at_work(),
            repairs@.len() < usize::MAX,
            forall|i: int|
                0 <= i < repairs@.len() ==> repair_fits(
                    (#[trigger] repairs@[i]).repair,
                    parser.grammar.terminals,
                ),
            old(tail).wf(),
            old(tail).fits(parser.grammar.terminals),
        ensures
            final(self).wf(*parser),
            final(self).at_work(),
            final(self).state.recovery.document_serial == old(
                self,
            ).state.recovery.document_serial,
            final(self).state.recovery.journal == old(self).state.recovery.journal,
            built_on(*language, *old(self), *final(self)),
            final(tail).wf(),
            forall|i: int| #[trigger] final(tail).token(i) == old(tail).token(i),
            extends_columns(
                old(self)@.session,
                final(self)@.session,
                old(self)@.session.columns.len() - 1,
            ),
            match r {
                Ok(Some(next)) => {
                    &&& final(self)@.session.columns.len() == old(self)@.session.columns.len()
                        + repairs@.len()
                    &&& next == index_of_repairs(plain_repairs(repairs@), 0)
                    &&& lined_up(repairs@, |i: int| old(tail).token(i))
                    &&& final(tail).count() == steps_looked(
                        old(tail).count() as int,
                        plain_repairs(repairs@),
                        |i: int| old(tail).token(i),
                        0,
                        repairs@.len() as int,
                    )
                    &&& repair_steps(
                        *parser,
                        old(self)@,
                        final(self)@,
                        plain_repairs(repairs@),
                        |i: int| old(tail).token(i),
                        0,
                    )
                    &&& final(self).state.recovery@ == reuse_counted(
                        steps_noted(
                            segment_resumed(old(self).state.recovery@, serial),
                            plain_repairs(repairs@),
                            |i: int| old(tail).token(i),
                            0,
                            old(self)@.session.columns.len() - 1,
                            serial,
                        ),
                    )
                },
                Ok(None) => !lined_up(repairs@, |i: int| old(tail).token(i)),
                Err(error) => {
                    ||| error is NoActiveStacks && repairs_blocked(
                        *parser,
                        old(self)@,
                        plain_repairs(repairs@),
                        |i: int| old(tail).token(i),
                        0,
                    )
                    ||| reduce_failed(*parser, *language, *final(self), error)
                },
            },
    {
        let ghost token = |i: int| old(tail).token(i);
        let ghost v = self@;
        let ghost plain = plain_repairs(repairs@);
        self.state.recovery.resume_recovery_segment(serial);
        proof {
            lemma_built_same(*language, *old(self), *self);
            lemma_prefix_self(v.session.diagnostics);
        }
        let mut witnesses: Vec<Witness> = Vec::new();
        let mut journaled: Vec<JournaledRepair> = Vec::new();
        let mut index: usize = 0;
        let mut at: usize = 0;
        assert(plain.take(0) =~= Seq::<Repair>::empty());
        while at < repairs.len()
            invariant
                at <= repairs@.len(),
                index <= at,
                repairs@.len() < usize::MAX,
                self.wf(*parser),
                self.at_work(),
                forall|i: int|
                    0 <= i < repairs@.len() ==> repair_fits(
                        (#[trigger] repairs@[i]).repair,
                        parser.grammar.terminals,
                    ),
                v == old(self)@,
                token == (|i: int| old(tail).token(i)),
                plain == plain_repairs(repairs@),
                self.state.recovery.journal == old(self).state.recovery.journal,
                built_on(*language, *old(self), *self),
                self.state.recovery.document_serial == old(self).state.recovery.document_serial,
                tail.wf(),
                tail.fits(parser.grammar.terminals),
                forall|i: int| #[trigger] tail.token(i) == old(tail).token(i),
                extends_columns(v.session, self@.session, v.session.columns.len() - 1),
                self@.session.columns.len() == v.session.columns.len() + at,
                index == index_of_repairs(plain.take(at as int), 0),
                tail.count() == steps_looked(old(tail).count() as int, plain, token, 0, at as int),
                repair_steps(*parser, v, self@, plain.take(at as int), token, 0),
                self.state.recovery@ == steps_noted(
                    segment_resumed(old(self).state.recovery@, serial),
                    plain.take(at as int),
                    token,
                    0,
                    v.session.columns.len() - 1,
                    serial,
                ),
                forall|k: int| 0 <= k < at ==> #[trigger] step_lined_up(repairs@, token, k),
            decreases repairs@.len() - at,
        {
            let step = repairs[at];
            let ghost before = *self;
            let ghost here = |i: int| tail.token(i);
            let ghost count = tail.count() as int;
            proof {
                assert(here =~= token);
                lemma_looked_again(count, token, index as int);
                assert(plain.take(at as int + 1).drop_last() =~= plain.take(at as int));
                assert(plain.take(at as int + 1).last() == step.repair);
                assert(tail.token(index as int) == token(index as int));
            }
            let same = match tail.get(index) {
                Some(found) => found.column == step.anchor,
                None => false,
            };
            assert(same == step_lined_up(repairs@, token, at as int));
            if !same {
                return Ok(None);
            }
            let ghost again = |i: int| tail.token(i);
            assert(again =~= token);
            assert(tail.fits(parser.grammar.terminals)) by {
                assert forall|i: int| i >= 0 && (#[trigger] tail.token(i)) is Some implies tail.token(
                    i,
                )->Some_0.terminal < parser.grammar.terminals by {
                    assert(old(tail).token(i) is Some);
                }
            }
            match self.apply_repair(
                parser,
                language,
                step.repair,
                index,
                tail,
                serial,
                &mut witnesses,
                &mut journaled,
            ) {
                Ok(Some(next)) => {
                    proof {
                        lemma_built_trans(*language, *old(self), before, *self);
                        lemma_prefix_trans(
                            v.session.diagnostics,
                            before@.session.diagnostics,
                            self@.session.diagnostics,
                        );
                    }
                    index = next;
                },
                Ok(None) => {
                    assert(tail.token(index as int) == token(index as int));
                    return Ok(None);
                },
                Err(error) => {
                    proof {
                        lemma_built_trans(*language, *old(self), before, *self);
                        lemma_prefix_trans(
                            v.session.diagnostics,
                            before@.session.diagnostics,
                            self@.session.diagnostics,
                        );
                        if error is NoActiveStacks {
                            assert(plain[at as int] == step.repair);
                            assert(repairs_blocked(*parser, v, plain, token, 0));
                        }
                    }
                    return Err(error);
                },
            }
            proof {
                assert(tail.fits(parser.grammar.terminals)) by {
                    assert forall|i: int| i >= 0 && (#[trigger] tail.token(i)) is Some implies
                        tail.token(i)->Some_0.terminal < parser.grammar.terminals by {
                        assert(old(tail).token(i) is Some);
                    }
                }
            }
            at += 1;
        }
        assert(plain.take(at as int) =~= plain);
        let ghost made = *self;
        self.state.recovery.count_reuse();
        proof {
            assert(self@ =~= made@);
            lemma_built_same(*language, made, *self);
            lemma_built_trans(*language, *old(self), made, *self);
        }
        Ok(Some(index))
    }
}

/// An entry of the journal keeps a repair.
pub open spec fn kept_repair(
    entry: RecoveryJournalEntry,
    repairs: Seq<Repair>,
    token: spec_fn(int) -> Option<ParseToken>,
    trigger: TokenOccurrenceId,
) -> bool {
    &&& entry.anchor == trigger
    &&& entry.witnesses@ == witnesses_of(repairs, token, 0)
    &&& entry.repairs@ == journal_of(repairs, token, 0)
}

/// What is kept of a repair that was made at a token.
pub open spec fn entry_of(
    v: StackView,
    repairs: Seq<Repair>,
    token: spec_fn(int) -> Option<ParseToken>,
    trigger: TokenOccurrenceId,
) -> EntryView {
    EntryView {
        anchor: trigger,
        frontier: checkpoint_of(v.session.columns.last(), (v.gss, v.products)),
        witnesses: witnesses_of(repairs, token, 0),
        repairs: journal_of(repairs, token, 0),
    }
}

/// The steps of a kept repair.
pub open spec fn plain_repairs(repairs: Seq<JournaledRepair>) -> Seq<Repair> {
    repairs.map_values(|step: JournaledRepair| step.repair)
}

/// A step would be made at the token that it was made at before.
pub open spec fn step_lined_up(
    repairs: Seq<JournaledRepair>,
    token: spec_fn(int) -> Option<ParseToken>,
    k: int,
) -> bool {
    match token(index_of_repairs(plain_repairs(repairs).take(k), 0)) {
        Some(found) => found.column == repairs[k].anchor,
        None => false,
    }
}

/// Every step would be made at the token that it was made at before.
pub open spec fn lined_up(
    repairs: Seq<JournaledRepair>,
    token: spec_fn(int) -> Option<ParseToken>,
) -> bool {
    forall|k: int| 0 <= k < repairs.len() ==> #[trigger] step_lined_up(repairs, token, k)
}

} // verus!
