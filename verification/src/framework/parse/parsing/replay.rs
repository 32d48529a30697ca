//! Reading tokens again after an edit.

use vstd::prelude::*;

use crate::framework::lex::lexed::TokenOccurrenceId;
use crate::framework::parse::grammar::{Symbol, TerminalId};
use crate::framework::parse::parsing::columns::{
    checkpoint_of, checkpoints_match, frontier_checkpoint_for_column, ColumnView,
};
use crate::framework::parse::parsing::error::{BuildError, ParseError};
use crate::framework::parse::parsing::recover::{
    entry_of, found_nothing, index_of_repairs, lined_up, plain_repairs, repair_fits, repair_kept,
    repair_steps, repairs_blocked, step_lined_up, steps_looked, steps_noted, token_shifted,
};
use crate::framework::parse::parsing::repairs::{
    attempt_undone, more, reuse_counted, segment_begun, segment_resumed, EntryView,
    JournaledRepair, RecoveryCounts, RecoveryView, Repair, Witness,
};
use crate::framework::parse::parsing::growth::{
    built_on, grown, lemma_built_grows, lemma_built_same, lemma_built_trans, lemma_grown_self,
    lemma_grown_trans, lemma_prefix_self,
};
use crate::framework::parse::parsing::reduce::{reduce_failed, reduces_to, stable, Gap};
use crate::framework::parse::data::matching::canonical_match;
use crate::framework::parse::parsing::reuse::{
    decided, is_identity, outcome_of, rest_of, reuse_outcome, seam_attached, traced, DecisionView,
};
use crate::framework::parse::parsing::segment::{
    boundary_place, lemma_last_place, ParseSegment, SegmentView,
};
use crate::framework::parse::parsing::session::{
    accepted_of, extends_columns, with_boundary, SessionView,
};
use crate::framework::parse::parsing::shift::{
    error_shifted, no_shift, nodes_there, token_dropped, unexpected_info, ParseToken,
};
use crate::framework::parse::parsing::stack::{Language, SessionContext, StackView};
use crate::framework::parse::tables::Parser;
use crate::framework::parse::tokens::{
    boundary_at, decode_data, decoded, is_rank, terminals_fit, token_of, ParserTokenDocument,
    ReplayPlan, TokenTail, TokensView,
};
use crate::framework::parse::types::{BoundaryTrace, IncrementalParseStats, ParserBoundaryId};

verus! {

// ---------------------------------------------------------------------------
// Kept repairs

/// A token that a repair looked at is still there, with the same terminal.
pub open spec fn witness_stands(v: TokensView, witness: Witness) -> bool {
    exists|rank: int| #[trigger]
        is_rank(v, witness.token, rank) && v.tokens[rank].terminal == Some(witness.terminal)
}

/// All tokens that a repair looked at are still there.
pub open spec fn witnesses_stand(v: TokensView, witnesses: Seq<Witness>) -> bool {
    forall|i: int| 0 <= i < witnesses.len() ==> witness_stands(v, #[trigger] witnesses[i])
}

/// A kept repair can be made again: it was made at the same token and on the
/// same stacks, and every token that it looked at is what it was.
pub open spec fn repair_applies(
    v: StackView,
    tokens: TokensView,
    entry: EntryView,
    trigger: TokenOccurrenceId,
    token: spec_fn(int) -> Option<ParseToken>,
) -> bool {
    &&& entry.anchor == trigger
    &&& entry.repairs.len() > 0
    &&& witnesses_stand(tokens, entry.witnesses)
    &&& lined_up(entry.repairs, token)
    &&& checkpoints_match(
        checkpoint_of(v.session.columns.last(), (v.gss, v.products)),
        entry.frontier,
    )
}

/// A kept repair applies, and its steps are such that the grammar knows.
pub open spec fn can_be_made_again(
    parser: Parser,
    v: StackView,
    tokens: TokensView,
    entry: EntryView,
    trigger: TokenOccurrenceId,
    token: spec_fn(int) -> Option<ParseToken>,
) -> bool {
    &&& repair_applies(v, tokens, entry, trigger, token)
    &&& entry.repairs.len() < usize::MAX
    &&& forall|i: int|
        0 <= i < entry.repairs.len() ==> repair_fits(
            (#[trigger] entry.repairs[i]).repair,
            parser.grammar.terminals,
        )
}

/// No kept repair with a number below a bound can be made again; without a
/// bound, none at all.
pub open spec fn none_kept(
    parser: Parser,
    v: StackView,
    tokens: TokensView,
    r: RecoveryView,
    trigger: TokenOccurrenceId,
    token: spec_fn(int) -> Option<ParseToken>,
    below: Option<u64>,
) -> bool {
    forall|serial: u64| #[trigger]
        r.journal.dom().contains(serial) && is_below(serial, below) ==> !can_be_made_again(
            parser,
            v,
            tokens,
            r.journal[serial],
            trigger,
            token,
        )
}

/// A number is below a bound, where there is one.
pub open spec fn is_below(serial: u64, bound: Option<u64>) -> bool {
    match bound {
        Some(bound) => serial < bound,
        None => true,
    }
}

/// A kept repair was made at a token, and looked at one that is no longer what it
/// was.
pub open spec fn is_stale(tokens: TokensView, entry: EntryView, trigger: TokenOccurrenceId) -> bool {
    entry.anchor == trigger && !witnesses_stand(tokens, entry.witnesses)
}

/// The stale repairs that were made at a token and have a number below a bound.
pub open spec fn stale_below(
    r: RecoveryView,
    tokens: TokensView,
    trigger: TokenOccurrenceId,
    below: Option<u64>,
) -> Set<u64> {
    Set::new(
        |serial: u64|
            r.journal.dom().contains(serial) && is_stale(tokens, r.journal[serial], trigger)
                && is_below(serial, below),
    )
}

/// What is kept of repairs without the stale ones that were made at a token and
/// have a number below a bound, which are counted.
pub open spec fn pruned(
    r: RecoveryView,
    tokens: TokensView,
    trigger: TokenOccurrenceId,
    below: Option<u64>,
) -> RecoveryView {
    RecoveryView {
        journal: Map::new(
            |serial: u64|
                r.journal.dom().contains(serial) && !(is_stale(tokens, r.journal[serial], trigger)
                    && is_below(serial, below)),
            |serial: u64| r.journal[serial],
        ),
        counts: RecoveryCounts {
            invalidated: more(
                r.counts.invalidated,
                stale_below(r, tokens, trigger, below).len(),
            ),
            ..r.counts
        },
        ..r
    }
}

/// A kept repair applies, and no stack would be left after a step of it.
pub open spec fn kept_blocked(
    parser: Parser,
    tokens: TokensView,
    trigger: TokenOccurrenceId,
    v: StackView,
    r: RecoveryView,
    token: spec_fn(int) -> Option<ParseToken>,
) -> bool {
    exists|serial: u64| #[trigger]
        r.journal.dom().contains(serial) && can_be_made_again(
            parser,
            v,
            tokens,
            r.journal[serial],
            trigger,
            token,
        ) && none_kept(parser, v, tokens, r, trigger, token, Some(serial)) && repairs_blocked(
            parser,
            v,
            plain_repairs(r.journal[serial].repairs),
            token,
            0,
        )
}

/// How many steps of a kept repair are held against the tokens: all up to the
/// first that would be made at another one.
pub open spec fn steps_checked(
    repairs: Seq<JournaledRepair>,
    token: spec_fn(int) -> Option<ParseToken>,
    from: int,
) -> int
    decreases repairs.len() - from,
{
    if from >= repairs.len() {
        repairs.len() as int
    } else if step_lined_up(repairs, token, from) {
        steps_checked(repairs, token, from + 1)
    } else {
        from + 1
    }
}

/// How many tokens are decoded once a kept repair was weighed. Its steps are held
/// against the tokens where what it looked at still stands and the grammar knows
/// them.
pub open spec fn weighed_looked(
    count: int,
    parser: Parser,
    tokens: TokensView,
    entry: EntryView,
    token: spec_fn(int) -> Option<ParseToken>,
) -> int {
    if witnesses_stand(tokens, entry.witnesses) && 0 < entry.repairs.len() < usize::MAX && forall|
        i: int,
    |
        0 <= i < entry.repairs.len() ==> repair_fits(
            (#[trigger] entry.repairs[i]).repair,
            parser.grammar.terminals,
        ) {
        steps_looked(
            count,
            plain_repairs(entry.repairs),
            token,
            0,
            steps_checked(entry.repairs, token, 0),
        )
    } else {
        count
    }
}

/// The numbers of the repairs that were made at a token, in ascending order.
pub open spec fn kept_serials(
    r: RecoveryView,
    trigger: TokenOccurrenceId,
    serials: Seq<u64>,
) -> bool {
    &&& forall|i: int, j: int|
        0 <= i < j < serials.len() ==> #[trigger] serials[i] < #[trigger] serials[j]
    &&& forall|i: int|
        0 <= i < serials.len() ==> r.journal.dom().contains(#[trigger] serials[i])
            && r.journal[serials[i]].anchor == trigger
    &&& forall|serial: u64| #[trigger]
        r.journal.dom().contains(serial) && r.journal[serial].anchor == trigger
            ==> serials.contains(serial)
}

/// How many tokens are decoded once the first of the kept repairs were weighed.
pub open spec fn all_looked(
    count: int,
    parser: Parser,
    tokens: TokensView,
    r: RecoveryView,
    serials: Seq<u64>,
    token: spec_fn(int) -> Option<ParseToken>,
    n: int,
) -> int
    decreases n,
{
    if n <= 0 {
        count
    } else {
        weighed_looked(
            all_looked(count, parser, tokens, r, serials, token, n - 1),
            parser,
            tokens,
            r.journal[serials[n - 1]],
            token,
        )
    }
}

/// How many tokens are decoded once every repair that was made at a token was
/// weighed in vain.
pub open spec fn none_looked(
    count: int,
    parser: Parser,
    tokens: TokensView,
    r: RecoveryView,
    trigger: TokenOccurrenceId,
    token: spec_fn(int) -> Option<ParseToken>,
    decoded: int,
) -> bool {
    exists|serials: Seq<u64>| #[trigger]
        kept_serials(r, trigger, serials) && decoded == all_looked(
            count,
            parser,
            tokens,
            r,
            serials,
            token,
            serials.len() as int,
        )
}

/// How many tokens are decoded once a kept repair was found, and made again.
pub open spec fn again_looked(
    count: int,
    parser: Parser,
    tokens: TokensView,
    r: RecoveryView,
    trigger: TokenOccurrenceId,
    token: spec_fn(int) -> Option<ParseToken>,
    serial: u64,
    decoded: int,
) -> bool {
    let steps = plain_repairs(r.journal[serial].repairs);
    exists|serials: Seq<u64>| #[trigger]
        kept_serials(r, trigger, serials) && decoded == steps_looked(
            all_looked(
                count,
                parser,
                tokens,
                r,
                serials,
                token,
                serials.index_of(serial) + 1,
            ),
            steps,
            token,
            0,
            steps.len() as int,
        )
}

/// A kept repair was made again under its number, the first that can be. What is
/// stale before it is forgotten.
pub open spec fn made_again(
    parser: Parser,
    v: StackView,
    w: StackView,
    tokens: TokensView,
    r: RecoveryView,
    after: RecoveryView,
    serial: u64,
    trigger: TokenOccurrenceId,
    token: spec_fn(int) -> Option<ParseToken>,
    index: int,
) -> bool {
    let steps = plain_repairs(r.journal[serial].repairs);
    &&& r.journal.dom().contains(serial)
    &&& can_be_made_again(parser, v, tokens, r.journal[serial], trigger, token)
    &&& none_kept(parser, v, tokens, r, trigger, token, Some(serial))
    &&& repair_steps(parser, v, w, steps, token, 0)
    &&& index == index_of_repairs(steps, 0)
    &&& after == reuse_counted(
        steps_noted(
            segment_resumed(pruned(r, tokens, trigger, Some(serial)), serial),
            steps,
            token,
            0,
            v.session.columns.len() - 1,
            serial,
        ),
    )
}

/// Whether all tokens that a repair looked at are still there.
fn all_stand(document: &ParserTokenDocument, witnesses: &Vec<Witness>) -> (r: bool)
    requires
        document.wf(),
    ensures
        r == witnesses_stand(document@, witnesses@),
{
    let mut at: usize = 0;
    while at < witnesses.len()
        invariant
            document.wf(),
            at <= witnesses@.len(),
            forall|i: int| 0 <= i < at ==> witness_stands(document@, #[trigger] witnesses@[i]),
        decreases witnesses@.len() - at,
    {
        let witness = witnesses[at];
        let stands = match document.rank_of_occurrence(witness.token) {
            Some(rank) => match document.token_at(rank) {
                Some(data) => {
                    let same = match data.terminal {
                        Some(terminal) => terminal == witness.terminal,
                        None => false,
                    };
                    proof {
                        document.lemma_wf();
                        assert(is_rank(document@, witness.token, rank as int));
                        if witness_stands(document@, witness) {
                            let other = choose|other: int| #[trigger]
                                is_rank(document@, witness.token, other)
                                    && document@.tokens[other].terminal == Some(witness.terminal);
                            if other < rank {
                                assert(document@.tokens[other].column
                                    != document@.tokens[rank as int].column);
                            } else if rank < other {
                                assert(document@.tokens[rank as int].column
                                    != document@.tokens[other].column);
                            }
                        }
                    }
                    same
                },
                None => false,
            },
            None => false,
        };
        assert(stands == witness_stands(document@, witness));
        if !stands {
            assert(!witness_stands(document@, witnesses@[at as int]));
            return false;
        }
        at += 1;
    }
    true
}

/// Whether the steps of a kept repair would be made at the same tokens.
fn steps_lined_up(repairs: &Vec<JournaledRepair>, tail: &mut TokenTail<'_>) -> (r: bool)
    requires
        old(tail).wf(),
    ensures
        final(tail).wf(),
        forall|i: int| #[trigger] final(tail).token(i) == old(tail).token(i),
        r == lined_up(repairs@, |i: int| old(tail).token(i)),
        final(tail).count() == steps_looked(
            old(tail).count() as int,
            plain_repairs(repairs@),
            |i: int| old(tail).token(i),
            0,
            steps_checked(repairs@, |i: int| old(tail).token(i), 0),
        ),
{
    let ghost token = |i: int| old(tail).token(i);
    let ghost plain = plain_repairs(repairs@);
    let mut index: usize = 0;
    let mut at: usize = 0;
    assert(plain.take(0) =~= Seq::<Repair>::empty());
    while at < repairs.len()
        invariant
            at <= repairs@.len(),
            index <= at,
            tail.wf(),
            forall|i: int| #[trigger] tail.token(i) == old(tail).token(i),
            token == (|i: int| old(tail).token(i)),
            plain == plain_repairs(repairs@),
            index == crate::framework::parse::parsing::recover::index_of_repairs(
                plain.take(at as int),
                0,
            ),
            forall|k: int| 0 <= k < at ==> #[trigger] step_lined_up(repairs@, token, k),
            tail.count() == steps_looked(old(tail).count() as int, plain, token, 0, at as int),
            steps_checked(repairs@, token, at as int) == steps_checked(repairs@, token, 0),
        decreases repairs@.len() - at,
    {
        let step = repairs[at];
        let ghost here = |i: int| tail.token(i);
        proof {
            assert(here =~= token);
            assert(plain.take(at as int + 1).drop_last() =~= plain.take(at as int));
            assert(plain.take(at as int + 1).last() == step.repair);
            assert(tail.token(index as int) == token(index as int));
        }
        let same = match tail.get(index) {
            Some(found) => found.column == step.anchor,
            None => false,
        };
        assert(same == step_lined_up(repairs@, token, at as int));
        if !same {
            return false;
        }
        match step.repair {
            Repair::Insert(_) => {},
            _ => {
                index = index + 1;
            },
        }
        at += 1;
    }
    true
}

fn copy_steps(list: &Vec<JournaledRepair>) -> (r: Vec<JournaledRepair>)
    ensures
        r@ == list@,
{
    let mut out: Vec<JournaledRepair> = Vec::new();
    let mut at: usize = 0;
    while at < list.len()
        invariant
            at <= list@.len(),
            out@ == list@.take(at as int),
        decreases list@.len() - at,
    {
        out.push(list[at]);
        assert(out@ =~= list@.take(at as int + 1));
        at += 1;
    }
    assert(out@ =~= list@);
    out
}

/// Whether all made-up terminals are terminals of the grammar.
fn steps_fit(repairs: &Vec<JournaledRepair>, terminals: usize) -> (r: bool)
    ensures
        r == forall|i: int|
            0 <= i < repairs@.len() ==> repair_fits((#[trigger] repairs@[i]).repair, terminals),
{
    let mut at: usize = 0;
    while at < repairs.len()
        invariant
            at <= repairs@.len(),
            forall|i: int|
                0 <= i < at ==> repair_fits((#[trigger] repairs@[i]).repair, terminals),
        decreases repairs@.len() - at,
    {
        if let Repair::Insert(terminal) = repairs[at].repair {
            if terminal as usize >= terminals {
                assert(!repair_fits(repairs@[at as int].repair, terminals));
                return false;
            }
        }
        at += 1;
    }
    true
}

/// A tail with the same tokens fits the same grammar.
proof fn lemma_still_fits(a: TokenTail<'_>, b: TokenTail<'_>, terminals: usize)
    requires
        a.fits(terminals),
        forall|i: int| #[trigger] b.token(i) == a.token(i),
    ensures
        b.fits(terminals),
{
    assert forall|i: int| i >= 0 && (#[trigger] b.token(i)) is Some implies b.token(
        i,
    )->Some_0.terminal < terminals by {
        assert(a.token(i) is Some);
    }
}

/// What is to be done with a kept repair.
enum Weighed {
    /// It looked at a token that is no longer what it was.
    Stale,
    /// It does not apply here.
    Elsewhere,
    /// Its steps can be made again.
    Applies(Vec<JournaledRepair>),
}

impl<V> SessionContext<V> {
    /// Weighs a kept repair that was made at a token.
    fn weigh(
        &self,
        parser: &Parser,
        document: &ParserTokenDocument,
        serial: u64,
        tail: &mut TokenTail<'_>,
    ) -> (r: Weighed)
        requires
            self.wf(*parser),
            self.state.columns@.len() > 0,
            document.wf(),
            old(tail).wf(),
        ensures
            final(tail).wf(),
            forall|i: int| #[trigger] final(tail).token(i) == old(tail).token(i),
            self.state.recovery@.journal.dom().contains(serial) ==> final(tail).count()
                == weighed_looked(
                old(tail).count() as int,
                *parser,
                document@,
                self.state.recovery@.journal[serial],
                |i: int| old(tail).token(i),
            ),
            ({
                let journal = self.state.recovery@.journal;
                let entry = journal[serial];
                match r {
                    Weighed::Stale => journal.dom().contains(serial) && !witnesses_stand(
                        document@,
                        entry.witnesses,
                    ),
                    Weighed::Elsewhere => journal.dom().contains(serial) ==> witnesses_stand(
                        document@,
                        entry.witnesses,
                    ) && !can_be_made_again(
                        *parser,
                        self@,
                        document@,
                        entry,
                        entry.anchor,
                        |i: int| old(tail).token(i),
                    ),
                    Weighed::Applies(steps) => {
                        &&& journal.dom().contains(serial)
                        &&& steps@ == entry.repairs
                        &&& 0 < steps@.len() < usize::MAX
                        &&& forall|i: int|
                            0 <= i < steps@.len() ==> repair_fits(
                                (#[trigger] steps@[i]).repair,
                                parser.grammar.terminals,
                            )
                        &&& repair_applies(
                            self@,
                            document@,
                            entry,
                            entry.anchor,
                            |i: int| old(tail).token(i),
                        )
                    },
                }
            }),
    {
        let column: usize = self.state.columns.len() - 1;
        assert(self@.session.columns[column as int] == self.state.columns@[column as int]@);
        let entry = match self.state.recovery.journal.get(serial) {
            Some(entry) => entry,
            None => {
                return Weighed::Elsewhere;
            },
        };
        if !all_stand(document, &entry.witnesses) {
            return Weighed::Stale;
        }
        let steps = copy_steps(&entry.repairs);
        let total: usize = steps.len();
        if total == 0 || total >= usize::MAX || !steps_fit(&steps, parser.grammar.terminals) {
            return Weighed::Elsewhere;
        }
        if !steps_lined_up(&steps, tail) {
            return Weighed::Elsewhere;
        }
        let now = frontier_checkpoint_for_column(
            &self.state.columns[column],
            &self.arenas.gss,
            &self.arenas.products,
        );
        if !now.exact_match(&entry.frontier) {
            return Weighed::Elsewhere;
        }
        Weighed::Applies(steps)
    }

    /// Makes a kept repair again where one applies. A repair that looked at a
    /// token that is no longer what it was is forgotten.
    pub fn try_reuse_recovery_journal<L: Language<V>>(
        &mut self,
        parser: &Parser,
        language: &L,
        document: &ParserTokenDocument,
        trigger: TokenOccurrenceId,
        tail: &mut TokenTail<'_>,
    ) -> (r: Result<Option<usize>, ParseError>)
        requires
            old(self).wf(*parser),
            old(self).at_work(),
            document.wf(),
            old(tail).wf(),
            old(tail).fits(parser.grammar.terminals),
        ensures
            final(self).wf(*parser),
            final(self).at_work(),
            final(self).state.recovery.document_serial == old(
                self,
            ).state.recovery.document_serial,
            built_on(*language, *old(self), *final(self)),
            final(tail).wf(),
            forall|i: int| #[trigger] final(tail).token(i) == old(tail).token(i),
            extends_columns(
                old(self)@.session,
                final(self)@.session,
                old(self)@.session.columns.len() - 1,
            ),
            match r {
                Ok(Some(index)) => {
                    &&& final(self)@.session.columns.len() > old(self)@.session.columns.len()
                    &&& exists|serial: u64| #[trigger]
                        old(self).state.recovery@.journal.dom().contains(serial) && made_again(
                            *parser,
                            old(self)@,
                            final(self)@,
                            document@,
                            old(self).state.recovery@,
                            final(self).state.recovery@,
                            serial,
                            trigger,
                            |i: int| old(tail).token(i),
                            index as int,
                        ) && again_looked(
                            old(tail).count() as int,
                            *parser,
                            document@,
                            old(self).state.recovery@,
                            trigger,
                            |i: int| old(tail).token(i),
                            serial,
                            final(tail).count() as int,
                        )
                },
                Ok(None) => {
                    &&& none_looked(
                        old(tail).count() as int,
                        *parser,
                        document@,
                        old(self).state.recovery@,
                        trigger,
                        |i: int| old(tail).token(i),
                        final(tail).count() as int,
                    )
                    &&& final(self)@ == old(self)@
                    &&& final(self).state.recovery@ == pruned(
                        old(self).state.recovery@,
                        document@,
                        trigger,
                        None,
                    )
                    &&& none_kept(
                        *parser,
                        old(self)@,
                        document@,
                        old(self).state.recovery@,
                        trigger,
                        |i: int| old(tail).token(i),
                        None,
                    )
                },
                Err(error) => {
                    ||| error is NoActiveStacks && kept_blocked(
                        *parser,
                        document@,
                        trigger,
                        old(self)@,
                        old(self).state.recovery@,
                        |i: int| old(tail).token(i),
                    )
                    ||| reduce_failed(*parser, *language, *final(self), error)
                },
            },
    {
        let ghost v = self@;
        let ghost journal0 = self.state.recovery.journal@;
        let ghost token = |i: int| old(tail).token(i);
        let total: usize = self.state.recovery.journal.len();
        let ghost keys = self.state.recovery.journal.spec_keys();
        proof {
            self.state.recovery.journal.lemma_keys();
        }
        let mut serials: Vec<u64> = Vec::new();
        let mut at: usize = 0;
        while at < total
            invariant
                at <= total,
                *self == *old(self),
                self.wf(*parser),
                journal0 == self.state.recovery.journal@,
                total == self.state.recovery.journal.spec_keys().len(),
                forall|i: int|
                    0 <= i < serials@.len() ==> journal0.dom().contains(#[trigger] serials@[i])
                        && journal0[serials@[i]].anchor == trigger,
                forall|i: int|
                    0 <= i < at && journal0[#[trigger] keys[i]].anchor == trigger
                        ==> serials@.contains(keys[i]),
                forall|i: int, j: int|
                    0 <= i < j < serials@.len() ==> #[trigger] serials@[i] < #[trigger] serials@[j],
                forall|i: int| 0 <= i < serials@.len() ==> key_before(keys, at as int, #[trigger] serials@[i]),
                keys == self.state.recovery.journal.spec_keys(),
                forall|i: int, j: int|
                    0 <= i < j < keys.len() ==> #[trigger] keys[i] < #[trigger] keys[j],
            decreases total - at,
        {
            let serial: u64 = self.state.recovery.journal.key_at(at);
            let entry = self.state.recovery.journal.value_at(at);
            if entry.anchor == trigger {
                let ghost before = serials@;
                serials.push(serial);
                proof {
                    assert forall|i: int| 0 <= i < serials@.len() implies journal0.dom().contains(
                        #[trigger] serials@[i],
                    ) && journal0[serials@[i]].anchor == trigger by {
                        if i < before.len() {
                            assert(serials@[i] == before[i]);
                        }
                    }
                    assert(serials@[before.len() as int] == serial);
                    assert forall|i: int|
                        0 <= i < at + 1 && journal0[#[trigger] keys[i]].anchor
                            == trigger implies serials@.contains(keys[i]) by {
                        if i < at {
                            let j = before.index_of(keys[i]);
                            assert(serials@[j] == keys[i]);
                        }
                    }
                    assert forall|i: int| 0 <= i < before.len() implies #[trigger] serials@[i]
                        < serial by {
                        assert(key_before(keys, at as int, before[i]));
                    }
                    assert forall|i: int| 0 <= i < serials@.len() implies key_before(
                        keys,
                        at + 1,
                        #[trigger] serials@[i],
                    ) by {
                        if i < before.len() {
                            assert(key_before(keys, at as int, before[i]));
                        }
                    }
                }
            } else {
                proof {
                    assert forall|i: int| 0 <= i < serials@.len() implies key_before(
                        keys,
                        at + 1,
                        #[trigger] serials@[i],
                    ) by {
                        assert(key_before(keys, at as int, serials@[i]));
                    }
                }
            }
            at += 1;
        }
        proof {
            lemma_built_same(*language, *self, *self);
            lemma_prefix_self(v.session.diagnostics);
        }
        let ghost r = self.state.recovery@;
        proof {
            assert(stale_first(r, document@, trigger, serials@, 0) =~= Set::<u64>::empty());
            assert(self.state.recovery@ =~= weeded(r, document@, trigger, serials@, 0));
            assert forall|serial: u64| #[trigger]
                r.journal.dom().contains(serial) && r.journal[serial].anchor
                    == trigger implies serials@.contains(serial) by {
                assert(keys.contains(serial));
                let i = keys.index_of(serial);
                assert(keys[i] == serial);
                assert(journal0[keys[i]].anchor == trigger);
            }
        }
        assert(kept_serials(r, trigger, serials@));
        let mut k: usize = 0;
        while k < serials.len()
            invariant
                k <= serials@.len(),
                self.wf(*parser),
                self.at_work(),
                self@ == v,
                built_on(*language, *old(self), *self),
                v.session.diagnostics.is_prefix_of(v.session.diagnostics),
                v == old(self)@,
                r == old(self).state.recovery@,
                self.state.columns@.len() > 0,
                document.wf(),
                tail.wf(),
                tail.fits(parser.grammar.terminals),
                old(tail).fits(parser.grammar.terminals),
                token == (|i: int| old(tail).token(i)),
                forall|i: int| #[trigger] tail.token(i) == old(tail).token(i),
                self.state.recovery.document_serial == old(self).state.recovery.document_serial,
                self.state.recovery@ == weeded(r, document@, trigger, serials@, k as int),
                forall|i: int|
                    0 <= i < serials@.len() ==> r.journal.dom().contains(#[trigger] serials@[i])
                        && r.journal[serials@[i]].anchor == trigger,
                forall|serial: u64| #[trigger]
                    r.journal.dom().contains(serial) && r.journal[serial].anchor == trigger
                        ==> serials@.contains(serial),
                forall|i: int, j: int|
                    0 <= i < j < serials@.len() ==> #[trigger] serials@[i] < #[trigger] serials@[j],
                forall|i: int|
                    0 <= i < k ==> !can_be_made_again(
                        *parser,
                        v,
                        document@,
                        r.journal[#[trigger] serials@[i]],
                        trigger,
                        token,
                    ),
                kept_serials(r, trigger, serials@),
                tail.count() == all_looked(
                    old(tail).count() as int,
                    *parser,
                    document@,
                    r,
                    serials@,
                    token,
                    k as int,
                ),
            decreases serials@.len() - k,
        {
            let serial: u64 = serials[k];
            let ghost whole = *self;
            let ghost given = |i: int| tail.token(i);
            assert(given =~= token);
            assert(serials@[k as int] == serial);
            assert(r.journal.dom().contains(serial));
            assert(self.state.recovery@.journal.dom().contains(serial)) by {
                assert(!among_first(serials@, k as int, serial));
            }
            assert(self.state.recovery@.journal[serial] == r.journal[serial]);
            let weighed = self.weigh(parser, document, serial, tail);
            proof {
                lemma_still_fits(*old(tail), *tail, parser.grammar.terminals);
            }
            match weighed {
                Weighed::Stale => {
                    self.state.recovery.journal.remove(serial);
                    self.state.recovery.count_invalidated();
                    proof {
                        assert(self@ =~= v);
                        lemma_built_same(*language, whole, *self);
                        lemma_built_trans(*language, *old(self), whole, *self);
                        lemma_weeded_on(r, document@, trigger, serials@, k as int);
                        assert(self.state.recovery@ =~= weeded(
                            r,
                            document@,
                            trigger,
                            serials@,
                            k + 1,
                        ));
                    }
                },
                Weighed::Elsewhere => {
                    proof {
                        lemma_weeded_on(r, document@, trigger, serials@, k as int);
                    }
                },
                Weighed::Applies(steps) => {
                    let ghost seen = |i: int| tail.token(i);
                    assert(seen =~= token);
                    let ghost entry = r.journal[serial];
                    proof {
                        lemma_weeded_below(r, document@, trigger, serials@, k as int);
                        assert(none_kept(
                            *parser,
                            v,
                            document@,
                            r,
                            trigger,
                            token,
                            Some(serial),
                        )) by {
                            assert forall|other: u64| #[trigger]
                                r.journal.dom().contains(other) && is_below(
                                    other,
                                    Some(serial),
                                ) implies !can_be_made_again(
                                *parser,
                                v,
                                document@,
                                r.journal[other],
                                trigger,
                                token,
                            ) by {
                                if r.journal[other].anchor == trigger {
                                    let j = serials@.index_of(other);
                                    assert(serials@[j] == other);
                                }
                            }
                        }
                    }
                    let result = self.replay_recovery_journal(
                        parser,
                        language,
                        serial,
                        &steps,
                        tail,
                    );
                    proof {
                        lemma_built_trans(*language, *old(self), whole, *self);
                        if let Ok(Some(index)) = result {
                            assert(serials@.contains(serial));
                            let place = serials@.index_of(serial);
                            assert(serials@[place] == serial);
                            assert(place == k);
                            assert(plain_repairs(r.journal[serial].repairs).len()
                                == r.journal[serial].repairs.len());
                            assert(again_looked(
                                old(tail).count() as int,
                                *parser,
                                document@,
                                r,
                                trigger,
                                token,
                                serial,
                                tail.count() as int,
                            ));
                            assert(made_again(
                                *parser,
                                v,
                                self@,
                                document@,
                                r,
                                self.state.recovery@,
                                serial,
                                trigger,
                                token,
                                index as int,
                            ));
                        }
                        assert(r.journal.dom().contains(serial));
                    }
                    return result;
                },
            }
            k += 1;
        }
        proof {
            assert(kept_serials(r, trigger, serials@));
            lemma_weeded_all(r, document@, trigger, serials@);
            assert forall|serial: u64| #[trigger]
                r.journal.dom().contains(serial) implies !can_be_made_again(
                *parser,
                v,
                document@,
                r.journal[serial],
                trigger,
                token,
            ) by {
                if r.journal[serial].anchor == trigger {
                    let j = serials@.index_of(serial);
                    assert(serials@[j] == serial);
                }
            }
        }
        Ok(None)
    }
}

/// A number is among the first of a list.
spec fn among_first(serials: Seq<u64>, n: int, serial: u64) -> bool {
    exists|i: int| 0 <= i < n && #[trigger] serials[i] == serial
}

/// The stale repairs among the first of a list.
spec fn stale_first(
    r: RecoveryView,
    tokens: TokensView,
    trigger: TokenOccurrenceId,
    serials: Seq<u64>,
    n: int,
) -> Set<u64> {
    Set::new(
        |serial: u64|
            r.journal.dom().contains(serial) && is_stale(tokens, r.journal[serial], trigger)
                && among_first(serials, n, serial),
    )
}

/// What is kept of repairs without the stale ones among the first of a list.
spec fn weeded(
    r: RecoveryView,
    tokens: TokensView,
    trigger: TokenOccurrenceId,
    serials: Seq<u64>,
    n: int,
) -> RecoveryView {
    RecoveryView {
        journal: Map::new(
            |serial: u64|
                r.journal.dom().contains(serial) && !(is_stale(tokens, r.journal[serial], trigger)
                    && among_first(serials, n, serial)),
            |serial: u64| r.journal[serial],
        ),
        counts: RecoveryCounts {
            invalidated: more(
                r.counts.invalidated,
                stale_first(r, tokens, trigger, serials, n).len(),
            ),
            ..r.counts
        },
        ..r
    }
}

proof fn lemma_weeded_on(
    r: RecoveryView,
    tokens: TokensView,
    trigger: TokenOccurrenceId,
    serials: Seq<u64>,
    n: int,
)
    requires
        0 <= n < serials.len(),
        r.journal.dom().contains(serials[n]),
        forall|i: int, j: int|
            0 <= i < j < serials.len() ==> #[trigger] serials[i] < #[trigger] serials[j],
    ensures
        is_stale(tokens, r.journal[serials[n]], trigger) ==> weeded(
            r,
            tokens,
            trigger,
            serials,
            n + 1,
        ).journal == weeded(r, tokens, trigger, serials, n).journal.remove(serials[n]),
        is_stale(tokens, r.journal[serials[n]], trigger) ==> weeded(
            r,
            tokens,
            trigger,
            serials,
            n + 1,
        ).counts == (RecoveryCounts {
            invalidated: more(
                weeded(r, tokens, trigger, serials, n).counts.invalidated,
                1,
            ),
            ..weeded(r, tokens, trigger, serials, n).counts
        }),
        !is_stale(tokens, r.journal[serials[n]], trigger) ==> weeded(
            r,
            tokens,
            trigger,
            serials,
            n + 1,
        ) == weeded(r, tokens, trigger, serials, n),
{
    assert forall|serial: u64| among_first(serials, n + 1, serial) == (among_first(
        serials,
        n,
        serial,
    ) || serial == serials[n]) by {
        if among_first(serials, n + 1, serial) && serial != serials[n] {
            let i = choose|i: int| 0 <= i < n + 1 && #[trigger] serials[i] == serial;
            assert(serials[i] == serial);
        }
        if among_first(serials, n, serial) {
            let i = choose|i: int| 0 <= i < n && #[trigger] serials[i] == serial;
            assert(serials[i] == serial);
        }
        assert(serials[n] == serials[n]);
    }
    let a = weeded(r, tokens, trigger, serials, n);
    let b = weeded(r, tokens, trigger, serials, n + 1);
    let before = stale_first(r, tokens, trigger, serials, n);
    let after = stale_first(r, tokens, trigger, serials, n + 1);
    if is_stale(tokens, r.journal[serials[n]], trigger) {
        assert(b.journal =~= a.journal.remove(serials[n]));
        assert(!among_first(serials, n, serials[n])) by {
            if among_first(serials, n, serials[n]) {
                let i = choose|i: int| 0 <= i < n && #[trigger] serials[i] == serials[n];
                assert(serials[i] < serials[n]);
            }
        }
        assert(after =~= before.insert(serials[n]));
        assert(before.finite()) by {
            vstd::seq_lib::seq_to_set_is_finite(serials);
            assert(before.subset_of(serials.to_set())) by {
                assert forall|serial: u64| before.contains(serial) implies serials.to_set().contains(
                    serial,
                ) by {
                    let i = choose|i: int| 0 <= i < n && #[trigger] serials[i] == serial;
                    assert(serials[i] == serial);
                }
            }
            vstd::set_lib::lemma_set_subset_finite(serials.to_set(), before);
        }
        assert(after.len() == before.len() + 1);
    } else {
        assert(b.journal =~= a.journal);
        assert(after =~= before);
    }
}

proof fn lemma_weeded_below(
    r: RecoveryView,
    tokens: TokensView,
    trigger: TokenOccurrenceId,
    serials: Seq<u64>,
    n: int,
)
    requires
        0 <= n < serials.len(),
        forall|serial: u64| #[trigger]
            r.journal.dom().contains(serial) && r.journal[serial].anchor == trigger
                ==> serials.contains(serial),
        forall|i: int, j: int|
            0 <= i < j < serials.len() ==> #[trigger] serials[i] < #[trigger] serials[j],
    ensures
        weeded(r, tokens, trigger, serials, n) == pruned(r, tokens, trigger, Some(serials[n])),
{
    let a = weeded(r, tokens, trigger, serials, n);
    let b = pruned(r, tokens, trigger, Some(serials[n]));
    assert forall|serial: u64| r.journal.dom().contains(serial) && is_stale(
        tokens,
        r.journal[serial],
        trigger,
    ) implies among_first(serials, n, serial) == is_below(serial, Some(serials[n])) by {
        assert(r.journal.dom().contains(serial));
        let j = serials.index_of(serial);
        assert(serials[j] == serial);
        if j < n {
            assert(serials[j] < serials[n]);
        } else if among_first(serials, n, serial) {
            let i = choose|i: int| 0 <= i < n && #[trigger] serials[i] == serial;
            assert(serials[i] < serials[j]);
        } else if n < j {
            assert(serials[n] < serials[j]);
        }
    }
    assert(stale_first(r, tokens, trigger, serials, n) =~= stale_below(
        r,
        tokens,
        trigger,
        Some(serials[n]),
    ));
    assert(a.journal =~= b.journal);
}

proof fn lemma_weeded_all(
    r: RecoveryView,
    tokens: TokensView,
    trigger: TokenOccurrenceId,
    serials: Seq<u64>,
)
    requires
        forall|serial: u64| #[trigger]
            r.journal.dom().contains(serial) && r.journal[serial].anchor == trigger
                ==> serials.contains(serial),
    ensures
        weeded(r, tokens, trigger, serials, serials.len() as int) == pruned(
            r,
            tokens,
            trigger,
            None,
        ),
{
    let a = weeded(r, tokens, trigger, serials, serials.len() as int);
    let b = pruned(r, tokens, trigger, None);
    assert forall|serial: u64| r.journal.dom().contains(serial) && is_stale(
        tokens,
        r.journal[serial],
        trigger,
    ) implies among_first(serials, serials.len() as int, serial) by {
        assert(r.journal.dom().contains(serial));
        let j = serials.index_of(serial);
        assert(serials[j] == serial);
    }
    assert(stale_first(r, tokens, trigger, serials, serials.len() as int) =~= stale_below(
        r,
        tokens,
        trigger,
        None,
    ));
    assert(a.journal =~= b.journal);
}

/// A key is among the first ones.
spec fn key_before(keys: Seq<u64>, n: int, key: u64) -> bool {
    exists|i: int| 0 <= i < n && #[trigger] keys[i] == key
}

// ---------------------------------------------------------------------------
// Reading on

/// The columns and the diagnostics are what they were; the stacks, the products,
/// the trees and what is known of reductions may have grown.
pub open spec fn same_columns(v: StackView, w: StackView) -> bool {
    &&& w.session.columns == v.session.columns
    &&& w.session.suffix == v.session.suffix
    &&& w.session.generation == v.session.generation
    &&& w.session.diagnostics == v.session.diagnostics
    &&& grown(v, w)
}

/// The session is what it was; the stacks, the products, the trees and what is
/// known of reductions may have grown.
pub open spec fn same_session(v: StackView, w: StackView) -> bool {
    w.session == v.session && grown(v, w)
}

proof fn lemma_same_columns_trans(u: StackView, v: StackView, w: StackView)
    requires
        same_columns(u, v),
        same_columns(v, w),
    ensures
        same_columns(u, w),
{
    lemma_grown_trans(u, v, w);
}

/// The token at a rank, as the parser takes it.
pub open spec fn token_read(parser: Parser, tokens: TokensView, rank: int) -> ParseToken {
    decoded(token_of(tokens, rank)->Some_0, parser.grammar)
}

/// The gap at the last column before a token.
pub open spec fn gap_before(v: StackView, token: ParseToken) -> Gap {
    Gap {
        column: v.session.columns.len() - 1,
        lookahead: token.terminal,
        boundary: token.column,
    }
}

/// The gap at the last column got its name, and everything that the next token
/// lets be reduced was reduced.
pub open spec fn opened(
    parser: Parser,
    tokens: TokensView,
    v: StackView,
    w: StackView,
    rank: int,
) -> bool {
    let token = token_read(parser, tokens, rank);
    let named = StackView {
        session: with_boundary(
            v.session,
            v.session.columns.len() - 1,
            Some(boundary_at(tokens, rank)),
        ),
        ..v
    };
    &&& reduces_to(parser, gap_before(v, token), named, w)
    &&& stable(parser, gap_before(v, token), w)
}

/// A token was shifted. A column came, unless a node of the stacks is missing,
/// and then nothing changed; where the token stands for an error, what it
/// completes may not all be reduced.
pub open spec fn shift_done(parser: Parser, v: StackView, w: StackView, token: ParseToken) -> bool {
    &&& extends_columns(v.session, w.session, v.session.columns.len() as int)
    &&& {
        ||| w == v && !nodes_there(v.gss, v.session.columns.last().active)
        ||| token_shifted(parser, v, w, token)
        ||| token.terminal == parser.grammar.error_terminal && error_shifted(parser, v, w, token)
    }
}

/// A token was shifted, and at the end of the input everything was reduced that
/// the end lets be reduced.
pub open spec fn shifted_on(parser: Parser, v: StackView, w: StackView, token: ParseToken) -> bool {
    exists|mid: StackView| #[trigger]
        shift_done(parser, v, mid, token) && if token.terminal == parser.grammar.eof {
            reduces_to(parser, gap_before(mid, token), mid, w) && stable(
                parser,
                gap_before(mid, token),
                w,
            )
        } else {
            w == mid
        }
}

/// A token was dropped as an error.
pub open spec fn dropped_on(parser: Parser, v: StackView, w: StackView, token: ParseToken) -> bool {
    let next = v.session.columns.len() as usize;
    let info = unexpected_info(parser, token.length, Some(Symbol::T(token.terminal)), next);
    let gap = Gap {
        column: next as int,
        lookahead: parser.grammar.error_terminal,
        boundary: token.column,
    };
    exists|mid: StackView| #[trigger]
        token_dropped(v, mid, token, info) && reduces_to(parser, gap, mid, w) && stable(
            parser,
            gap,
            w,
        )
}

/// The tokens from a rank on.
pub open spec fn tokens_from(parser: Parser, tokens: TokensView, rank: int) -> spec_fn(int) -> Option<
    ParseToken,
> {
    |i: int|
        match token_of(tokens, rank + i) {
            Some(data) => Some(decoded(data, parser.grammar)),
            None => None,
        }
}

/// What reading again goes by: the parser, the language and whether it is asked
/// for repairs, the tokens, the old run with the place of its first column, and
/// the rank from which on it may be taken over.
pub ghost struct Reading<L> {
    pub parser: Parser,
    pub language: L,
    pub enabled: bool,
    pub document: ParserTokenDocument,
    pub run: SegmentView,
    pub base: int,
    pub reuse_start: int,
}

/// What reading again goes by, as an executable function has it.
spec fn reads_by<L>(
    by: Reading<L>,
    parser: Parser,
    language: L,
    enabled: bool,
    document: ParserTokenDocument,
) -> bool {
    &&& by.parser == parser
    &&& by.language == language
    &&& by.enabled == enabled
    &&& by.document == document
}

/// A kept repair was made again at a token, the first that can be, and reading
/// goes on at `next`.
pub open spec fn kept_made<L>(
    by: Reading<L>,
    v: StackView,
    r: RecoveryView,
    w: StackView,
    after: RecoveryView,
    rank: int,
    next: int,
    token: spec_fn(int) -> Option<ParseToken>,
    decoded: int,
) -> bool {
    let trigger = token_read(by.parser, by.document@, rank).column;
    exists|serial: u64| #[trigger]
        r.journal.dom().contains(serial) && made_again(
            by.parser,
            v,
            w,
            by.document@,
            r,
            after,
            serial,
            trigger,
            token,
            next - rank,
        ) && again_looked(0, by.parser, by.document@, r, trigger, token, serial, decoded)
}

/// No kept repair can be made again at a token; the language was asked for a new
/// one, which was made and is kept, and reading goes on at `next`.
pub open spec fn new_made<V, L: Language<V>>(
    by: Reading<L>,
    v: StackView,
    r: RecoveryView,
    w: StackView,
    after: RecoveryView,
    rank: int,
    next: int,
    token: spec_fn(int) -> Option<ParseToken>,
    decoded: int,
) -> bool {
    let trigger = token_read(by.parser, by.document@, rank).column;
    let begun = segment_begun(pruned(r, by.document@, trigger, None));
    &&& by.enabled
    &&& none_kept(by.parser, v, by.document@, r, trigger, token, None)
    &&& exists|asked: SessionContext<V>, list: Vec<Repair>, weighed: int|
        {
            &&& asked@ == v
            &&& asked.state.recovery@ == pruned(r, by.document@, trigger, None)
            &&& #[trigger] none_looked(0, by.parser, by.document@, r, trigger, token, weighed)
            &&& decoded == steps_looked(weighed, list@, token, 0, list@.len() as int)
            &&& #[trigger] by.language.finds(
                asked,
                (v.session.columns.len() - 1) as usize,
                by.document,
                rank as usize,
                Some(list),
            )
            &&& list@.len() > 0
            &&& repair_steps(by.parser, v, w, list@, token, 0)
            &&& next == rank + index_of_repairs(list@, 0)
            &&& after == repair_kept(
                steps_noted(begun, list@, token, 0, v.session.columns.len() - 1, begun.last),
                begun.last,
                entry_of(v, list@, token, trigger),
            )
        }
}

/// A repair was made at a token, and reading goes on at `next`. A kept one comes
/// before a new one. By then `decoded` tokens were decoded for it.
pub open spec fn repaired_on<V, L: Language<V>>(
    by: Reading<L>,
    v: StackView,
    r: RecoveryView,
    w: StackView,
    after: RecoveryView,
    rank: int,
    next: int,
    decoded: int,
) -> bool {
    &&& extends_columns(v.session, w.session, v.session.columns.len() - 1)
    &&& w.session.columns.len() > v.session.columns.len()
    &&& exists|token: spec_fn(int) -> Option<ParseToken>| #[trigger]
        reads_from(by.parser, by.document@, rank, token) && {
            ||| kept_made(by, v, r, w, after, rank, next, token, decoded)
            ||| new_made::<V, L>(by, v, r, w, after, rank, next, token, decoded)
        }
}

/// A list of tokens is what a document has from a rank on.
pub open spec fn reads_from(
    parser: Parser,
    tokens: TokensView,
    rank: int,
    token: spec_fn(int) -> Option<ParseToken>,
) -> bool {
    forall|i: int|
        0 <= i && rank + i <= usize::MAX ==> #[trigger] token(i) == tokens_from(
            parser,
            tokens,
            rank,
        )(i)
}

/// No kept repair can be made again at a token, and the language knows none
/// either, where it is asked.
pub open spec fn unmended<V, L: Language<V>>(
    by: Reading<L>,
    rank: int,
    v: StackView,
    r: RecoveryView,
    after: RecoveryView,
    decoded: int,
) -> bool {
    exists|token: spec_fn(int) -> Option<ParseToken>| #[trigger]
        reads_from(by.parser, by.document@, rank, token) && mends_nothing::<V, L>(
            by,
            rank,
            v,
            r,
            after,
            token,
            decoded,
        )
}

/// No repair can be made at a token, over the tokens from there on. Of what an
/// attempt noted the count of identities and the repair that was at work are
/// taken back.
pub open spec fn mends_nothing<V, L: Language<V>>(
    by: Reading<L>,
    rank: int,
    v: StackView,
    r: RecoveryView,
    after: RecoveryView,
    token: spec_fn(int) -> Option<ParseToken>,
    decoded: int,
) -> bool {
    let trigger = token_read(by.parser, by.document@, rank).column;
    let left = pruned(r, by.document@, trigger, None);
    &&& none_kept(by.parser, v, by.document@, r, trigger, token, None)
    &&& if by.enabled {
        exists|asked: SessionContext<V>, tried: RecoveryView, weighed: int|
            asked@ == v && asked.state.recovery@ == left && none_looked(
                0,
                by.parser,
                by.document@,
                r,
                trigger,
                token,
                weighed,
            ) && #[trigger] found_nothing(
                by.parser,
                by.language,
                asked,
                by.document,
                rank as usize,
                token,
                tried,
                weighed,
                decoded,
            ) && after == attempt_undone(tried, r)
    } else {
        after == left && none_looked(0, by.parser, by.document@, r, trigger, token, decoded)
    }
}

/// Mending was given up at a gap.
pub open spec fn given_up<V, L: Language<V>>(
    by: Reading<L>,
    rank: int,
    v: StackView,
    r: RecoveryView,
    after: RecoveryView,
    decoded: int,
) -> bool {
    exists|tried: StackView|
        same_columns(v, tried) && #[trigger] unmended::<V, L>(by, rank, tried, r, after, decoded)
}

/// The token at a rank stands for an error.
pub open spec fn is_odd<L>(by: Reading<L>, rank: int) -> bool {
    token_read(by.parser, by.document@, rank).terminal == by.parser.grammar.error_terminal
}

/// Before a token that stands for an error is shifted, mending was given up;
/// before another it is not tried.
pub open spec fn passed_by<V, L: Language<V>>(
    by: Reading<L>,
    rank: int,
    v: StackView,
    r: RecoveryView,
    after: RecoveryView,
    decoded: int,
) -> bool {
    if is_odd(by, rank) {
        given_up::<V, L>(by, rank, v, r, after, decoded)
    } else {
        after == r && decoded == 0
    }
}

/// No stack at a gap could shift a terminal.
pub open spec fn stuck_at(parser: Parser, v: StackView, terminal: TerminalId) -> bool {
    exists|tried: StackView|
        same_columns(v, tried) && #[trigger] no_shift(parser, tried, terminal)
}

/// No stack could shift the token at a rank. One that stands for an error was
/// tried only after mending was.
pub open spec fn found_stuck<L>(by: Reading<L>, rank: int, v: StackView) -> bool {
    let terminal = token_read(by.parser, by.document@, rank).terminal;
    if is_odd(by, rank) {
        stuck_at(by.parser, v, terminal)
    } else {
        no_shift(by.parser, v, terminal)
    }
}

/// What became of the token at a gap. A token that stands for an error, or that
/// no stack can shift, is mended where it can be. Otherwise it is shifted, or
/// dropped where no stack can shift it. Attempts to mend it decoded `decoded`
/// tokens.
#[verifier::opaque]
pub open spec fn went_on<V, L: Language<V>>(
    by: Reading<L>,
    v: StackView,
    r: RecoveryView,
    w: StackView,
    after: RecoveryView,
    rank: int,
    next: int,
    decoded: int,
) -> bool {
    let token = token_read(by.parser, by.document@, rank);
    let odd = is_odd(by, rank);
    let stuck = found_stuck(by, rank, v);
    ||| odd && repaired_on::<V, L>(by, v, r, w, after, rank, next, decoded)
    ||| !odd && next == rank + 1 && after == r && decoded == 0 && shifted_on(
        by.parser,
        v,
        w,
        token,
    )
    ||| exists|ready: StackView, kept: RecoveryView, first: int|
        #![trigger same_columns(v, ready), passed_by::<V, L>(by, rank, v, r, kept, first)]
        same_columns(v, ready) && passed_by::<V, L>(by, rank, v, r, kept, first) && {
            ||| stuck && repaired_on::<V, L>(
                by,
                ready,
                kept,
                w,
                after,
                rank,
                next,
                decoded - first,
            )
            ||| odd && next == rank + 1 && after == kept && decoded == first && shifted_on(
                by.parser,
                ready,
                w,
                token,
            )
            ||| stuck && given_up::<V, L>(by, rank, v, kept, after, decoded - first) && next == rank
                + 1 && dropped_on(by.parser, ready, w, token)
        }
}

/// A state between two tokens, with what is kept of repairs and what is counted
/// up to there: of comparisons, and of the tokens that repairs looked at; and the
/// rank of the next token.
pub ghost struct Stop {
    pub state: StackView,
    pub recovery: RecoveryView,
    pub stats: IncrementalParseStats,
    pub recovery_decoded: usize,
    pub compared: usize,
    pub rank: int,
}

/// How many checkpoints are held against one of the old run at a gap: one where
/// the run may be taken over there and has that gap.
pub open spec fn compared_at<L>(by: Reading<L>, rank: int) -> int {
    if rank >= by.reuse_start && boundary_place(
        by.run.columns,
        boundary_at(by.document@, rank),
    ) is Some {
        1
    } else {
        0
    }
}

/// At an opened gap the old run was not taken over: the gap stands before the
/// rank from which on it may be, or the gap was compared with it in vain.
pub open spec fn passed_over<V, L: Language<V>>(
    by: Reading<L>,
    from: Stop,
    mid: StackView,
    tried: StackView,
    after: IncrementalParseStats,
) -> bool {
    if from.rank < by.reuse_start {
        tried == mid && after == from.stats
    } else {
        exists|context: SessionContext<V>, decision: DecisionView|
            context@ == tried && #[trigger] compared_in_vain(
                by,
                from,
                mid,
                context,
                decision,
                after,
            )
    }
}

/// A gap was compared with the old run, and the run was not taken over.
pub open spec fn compared_in_vain<V, L: Language<V>>(
    by: Reading<L>,
    from: Stop,
    mid: StackView,
    context: SessionContext<V>,
    decision: DecisionView,
    after: IncrementalParseStats,
) -> bool {
    let column = mid.session.columns.len() - 1;
    &&& decided(mid, by.run, column, boundary_at(by.document@, from.rank), decision)
    &&& reuse_outcome(
        by.parser,
        by.language,
        mid,
        context,
        by.run,
        by.base,
        column,
        from.stats,
        after,
        traced(mid, by.run, by.document@, column, from.rank),
        decision,
        Some(false),
    )
}

/// One token was read, or a repair was made. Before that, the old run was not
/// taken over.
pub open spec fn read_on<V, L: Language<V>>(by: Reading<L>, from: Stop, to: Stop) -> bool {
    exists|mid: StackView, tried: StackView, decoded: int|
        opened(by.parser, by.document@, from.state, mid, from.rank) && #[trigger] same_session(
            mid,
            tried,
        ) && passed_over::<V, L>(by, from, mid, tried, to.stats) && #[trigger] went_on::<V, L>(
            by,
            tried,
            from.recovery,
            to.state,
            to.recovery,
            from.rank,
            to.rank,
            decoded,
        ) && to.recovery_decoded == decoded_by(from.recovery_decoded + decoded) && to.compared
            == decoded_by(from.compared + compared_at(by, from.rank))
}

/// One step of a run.
pub open spec fn stop_follows<V, L: Language<V>>(by: Reading<L>, stops: Seq<Stop>, k: int) -> bool {
    read_on::<V, L>(by, stops[k], stops[k + 1])
}

/// One token after the other was read.
pub open spec fn all_follow<V, L: Language<V>>(by: Reading<L>, stops: Seq<Stop>) -> bool {
    forall|k: int|
        0 <= k < stops.len() - 1 ==> #[trigger] stop_follows::<V, L>(by, stops, k)
}

/// Mending at a gap broke off: no stack was left after a step of a kept repair.
pub open spec fn mending_blocked(
    parser: Parser,
    tokens: TokensView,
    rank: int,
    trigger: TokenOccurrenceId,
    v: StackView,
    r: RecoveryView,
) -> bool {
    exists|tried: StackView, token: spec_fn(int) -> Option<ParseToken>|
        same_columns(v, tried) && reads_from(parser, tokens, rank, token)
            && #[trigger] kept_blocked(parser, tokens, trigger, tried, r, token)
}

/// Mending a token broke off, at the first attempt or at the second.
pub open spec fn mending_cut<V, L: Language<V>>(
    by: Reading<L>,
    rank: int,
    v: StackView,
    r: RecoveryView,
) -> bool {
    let trigger = token_read(by.parser, by.document@, rank).column;
    ||| is_odd(by, rank) && mending_blocked(by.parser, by.document@, rank, trigger, v, r)
    ||| exists|kept: RecoveryView, first: int| #[trigger]
        passed_by::<V, L>(by, rank, v, r, kept, first) && mending_blocked(
            by.parser,
            by.document@,
            rank,
            trigger,
            v,
            kept,
        )
}

/// Why reading broke off, over the state in which it did.
pub open spec fn read_cut<V, L: Language<V>>(
    by: Reading<L>,
    from: Stop,
    context: SessionContext<V>,
    checks: usize,
    error: ParseError,
) -> bool {
    ||| reduce_failed(by.parser, by.language, context, error)
    ||| error == ParseError::Build(BuildError::Exhausted) && checks == usize::MAX
    ||| error is NoActiveStacks && exists|mid: StackView, tried: StackView|
        #![trigger opened(by.parser, by.document@, from.state, mid, from.rank), same_session(mid, tried)]
        opened(by.parser, by.document@, from.state, mid, from.rank) && same_session(mid, tried)
            && mending_cut::<V, L>(by, from.rank, tried, from.recovery)
}

/// The old run was taken over at a gap.
pub open spec fn taken_over<V, L: Language<V>>(
    by: Reading<L>,
    from: Stop,
    mid: StackView,
    context: SessionContext<V>,
    stats: IncrementalParseStats,
    decision: DecisionView,
) -> bool {
    let column = mid.session.columns.len() - 1;
    &&& from.rank >= by.reuse_start
    &&& decided(mid, by.run, column, boundary_at(by.document@, from.rank), decision)
    &&& reuse_outcome(
        by.parser,
        by.language,
        mid,
        context,
        by.run,
        by.base,
        column,
        from.stats,
        stats,
        traced(mid, by.run, by.document@, column, from.rank),
        decision,
        Some(true),
    )
    &&& built_over(mid, context@)
}

/// What is behind the columns apart, the session is what it was.
pub open spec fn built_over(v: StackView, w: StackView) -> bool {
    &&& w.session == (SessionView { suffix: w.session.suffix, ..v.session })
    &&& grown(v, w)
}

/// Where reading ended: behind the last token, or at the end with something
/// accepted, or at a gap where the old run was taken over.
pub open spec fn reading_ended<V, L: Language<V>>(
    by: Reading<L>,
    last: Stop,
    context: SessionContext<V>,
    stats: IncrementalParseStats,
) -> bool {
    let w = context@;
    let tokens = by.document@;
    &&& context.state.recovery@ == last.recovery
    &&& match stats.reconverged_old_boundary {
        Some(at) => {
            &&& by.base <= at < by.base + by.run.columns.len()
            &&& stats.reconverged_new_boundary == Some((w.session.columns.len() - 1) as usize)
            &&& boundary_place(by.run.columns, boundary_at(tokens, last.rank)) == Some(at - by.base)
            &&& taken_from(w.session, by.run, at - by.base)
            &&& exists|mid: StackView, decision: DecisionView|
                opened(by.parser, tokens, last.state, mid, last.rank) && #[trigger] taken_over(
                    by,
                    last,
                    mid,
                    context,
                    stats,
                    decision,
                )
        },
        None => {
            &&& w.session.suffix is None
            &&& {
                ||| last.rank > tokens.tokens.len() && w == last.state && stats == last.stats
                ||| token_read(by.parser, tokens, last.rank).terminal == by.parser.grammar.eof
                    && accepted_of(w.session).len() > 0 && exists|mid: StackView| #[trigger]
                    opened(by.parser, tokens, last.state, mid, last.rank) && same_session(mid, w)
                        && passed_over::<V, L>(by, last, mid, w, stats)
            }
        },
    }
}

/// The rest of an old run stands behind the columns.
pub open spec fn taken_from(v: SessionView, run: SegmentView, at: int) -> bool {
    match v.suffix {
        Some(rest) => rest.columns == run.columns.skip(at + 1) && rest.columns.len() > 0,
        None => at + 1 == run.columns.len(),
    }
}

/// What reading again starts with is kept: every column but the last one.
pub open spec fn prefix_kept(v: SessionView, w: SessionView) -> bool {
    &&& w.columns.len() >= v.columns.len()
    &&& w.generation == v.generation
    &&& forall|i: int| 0 <= i < v.columns.len() - 1 ==> #[trigger] w.columns[i] == v.columns[i]
}

/// How many tokens were decoded: a number that does not run over.
pub open spec fn decoded_by(n: int) -> usize {
    if n > usize::MAX {
        usize::MAX
    } else {
        n as usize
    }
}

proof fn lemma_new_made<V, L: Language<V>>(
    by: Reading<L>,
    asked: SessionContext<V>,
    r: RecoveryView,
    w: StackView,
    after: RecoveryView,
    rank: usize,
    consumed: usize,
    token: spec_fn(int) -> Option<ParseToken>,
    list: Vec<Repair>,
    weighed: int,
    decoded: int,
)
    requires
        by.enabled,
        none_looked(
            0,
            by.parser,
            by.document@,
            r,
            token_read(by.parser, by.document@, rank as int).column,
            token,
            weighed,
        ),
        decoded == steps_looked(weighed, list@, token, 0, list@.len() as int),
        none_kept(
            by.parser,
            asked@,
            by.document@,
            r,
            token_read(by.parser, by.document@, rank as int).column,
            token,
            None,
        ),
        asked.state.recovery@ == pruned(
            r,
            by.document@,
            token_read(by.parser, by.document@, rank as int).column,
            None,
        ),
        by.language.finds(
            asked,
            (asked@.session.columns.len() - 1) as usize,
            by.document,
            rank,
            Some(list),
        ),
        list@.len() > 0,
        consumed == index_of_repairs(list@, 0),
        repair_steps(by.parser, asked@, w, list@, token, 0),
        after == repair_kept(
            steps_noted(
                segment_begun(asked.state.recovery@),
                list@,
                token,
                0,
                asked@.session.columns.len() - 1,
                segment_begun(asked.state.recovery@).last,
            ),
            segment_begun(asked.state.recovery@).last,
            entry_of(
                asked@,
                list@,
                token,
                token_read(by.parser, by.document@, rank as int).column,
            ),
        ),
    ensures
        new_made::<V, L>(by, asked@, r, w, after, rank as int, rank + consumed, token, decoded),
{
    let place: usize = (rank as int) as usize;
    assert(place == rank);
    assert(by.language.finds(
        asked,
        (asked@.session.columns.len() - 1) as usize,
        by.document,
        place,
        Some(list),
    ));
}

proof fn lemma_mends_nothing<V, L: Language<V>>(
    by: Reading<L>,
    asked: SessionContext<V>,
    r: RecoveryView,
    tried: RecoveryView,
    after: RecoveryView,
    rank: usize,
    token: spec_fn(int) -> Option<ParseToken>,
    weighed: int,
    decoded: int,
)
    requires
        none_looked(
            0,
            by.parser,
            by.document@,
            r,
            token_read(by.parser, by.document@, rank as int).column,
            token,
            weighed,
        ),
        none_kept(
            by.parser,
            asked@,
            by.document@,
            r,
            token_read(by.parser, by.document@, rank as int).column,
            token,
            None,
        ),
        asked.state.recovery@ == pruned(
            r,
            by.document@,
            token_read(by.parser, by.document@, rank as int).column,
            None,
        ),
        if by.enabled {
            found_nothing(
                by.parser,
                by.language,
                asked,
                by.document,
                rank,
                token,
                tried,
                weighed,
                decoded,
            ) && after == attempt_undone(tried, r)
        } else {
            after == asked.state.recovery@ && decoded == weighed
        },
    ensures
        mends_nothing::<V, L>(by, rank as int, asked@, r, after, token, decoded),
{
    let place: usize = (rank as int) as usize;
    assert(place == rank);
    if by.enabled {
        assert(found_nothing(
            by.parser,
            by.language,
            asked,
            by.document,
            place,
            token,
            tried,
            weighed,
            decoded,
        ));
    }
}

/// A repair was made at a token, and what it decoded is counted.
#[verifier::opaque]
spec fn mended_on<V, L: Language<V>>(
    by: Reading<L>,
    v: StackView,
    r: RecoveryView,
    w: StackView,
    after: RecoveryView,
    rank: int,
    next: int,
    counted: (usize, usize),
) -> bool {
    exists|decoded: int| #[trigger]
        repaired_on::<V, L>(by, v, r, w, after, rank, next, decoded) && decoded >= 0 && counted.1
            == decoded_by(counted.0 + decoded)
}

/// No repair can be made at a token, and what was decoded to see it is counted.
#[verifier::opaque]
spec fn left_unmended<V, L: Language<V>>(
    by: Reading<L>,
    rank: int,
    v: StackView,
    r: RecoveryView,
    after: RecoveryView,
    counted: (usize, usize),
) -> bool {
    exists|decoded: int| #[trigger]
        unmended::<V, L>(by, rank, v, r, after, decoded) && decoded >= 0 && counted.1
            == decoded_by(counted.0 + decoded)
}

/// What came before a token is shifted, and what was decoded for it is counted.
#[verifier::opaque]
spec fn passed_by_counted<V, L: Language<V>>(
    by: Reading<L>,
    rank: int,
    v: StackView,
    r: RecoveryView,
    after: RecoveryView,
    counted: (usize, usize),
) -> bool {
    exists|decoded: int| #[trigger]
        passed_by::<V, L>(by, rank, v, r, after, decoded) && decoded >= 0 && counted.1
            == decoded_by(counted.0 + decoded)
}

/// A token was taken, and what was decoded to mend it is counted.
#[verifier::opaque]
spec fn token_taken<V, L: Language<V>>(
    by: Reading<L>,
    v: StackView,
    r: RecoveryView,
    w: StackView,
    after: RecoveryView,
    rank: int,
    next: int,
    counted: (usize, usize),
) -> bool {
    exists|decoded: int| #[trigger]
        went_on::<V, L>(by, v, r, w, after, rank, next, decoded) && counted.1 == decoded_by(
            counted.0 + decoded,
        )
}

/// A token that stands for an error was mended.
proof fn lemma_mended_at_once<V, L: Language<V>>(
    by: Reading<L>,
    v: StackView,
    r: RecoveryView,
    w: StackView,
    after: RecoveryView,
    rank: int,
    next: int,
    counted: (usize, usize),
)
    requires
        is_odd(by, rank),
        mended_on::<V, L>(by, v, r, w, after, rank, next, counted),
    ensures
        token_taken::<V, L>(by, v, r, w, after, rank, next, counted),
{
    reveal(mended_on);
    reveal(token_taken);
    reveal(went_on);
    let decoded = choose|decoded: int| #[trigger]
        repaired_on::<V, L>(by, v, r, w, after, rank, next, decoded) && decoded >= 0 && counted.1
            == decoded_by(counted.0 + decoded);
    assert(went_on::<V, L>(by, v, r, w, after, rank, next, decoded));
}

/// A token is about to be shifted.
proof fn lemma_passed_by<V, L: Language<V>>(
    by: Reading<L>,
    rank: int,
    v: StackView,
    r: RecoveryView,
    after: RecoveryView,
    counted: (usize, usize),
)
    requires
        same_columns(v, v),
        if is_odd(by, rank) {
            left_unmended::<V, L>(by, rank, v, r, after, counted)
        } else {
            after == r && counted.1 == counted.0
        },
    ensures
        passed_by_counted::<V, L>(by, rank, v, r, after, counted),
{
    reveal(left_unmended);
    reveal(passed_by_counted);
    if is_odd(by, rank) {
        let decoded = choose|decoded: int| #[trigger]
            unmended::<V, L>(by, rank, v, r, after, decoded) && decoded >= 0 && counted.1
                == decoded_by(counted.0 + decoded);
        assert(given_up::<V, L>(by, rank, v, r, after, decoded));
        assert(passed_by::<V, L>(by, rank, v, r, after, decoded));
    } else {
        assert(passed_by::<V, L>(by, rank, v, r, after, 0));
    }
}

/// A token that no stack could shift was mended.
proof fn lemma_mended_late<V, L: Language<V>>(
    by: Reading<L>,
    v: StackView,
    r: RecoveryView,
    ready: StackView,
    kept: RecoveryView,
    w: StackView,
    after: RecoveryView,
    rank: int,
    next: int,
    counted: (usize, usize, usize),
)
    requires
        same_columns(v, ready),
        passed_by_counted::<V, L>(by, rank, v, r, kept, (counted.0, counted.1)),
        found_stuck(by, rank, v),
        mended_on::<V, L>(by, ready, kept, w, after, rank, next, (counted.1, counted.2)),
    ensures
        token_taken::<V, L>(by, v, r, w, after, rank, next, (counted.0, counted.2)),
{
    reveal(mended_on);
    reveal(passed_by_counted);
    reveal(token_taken);
    reveal(went_on);
    let first = choose|first: int| #[trigger]
        passed_by::<V, L>(by, rank, v, r, kept, first) && first >= 0 && counted.1 == decoded_by(
            counted.0 + first,
        );
    let decoded = choose|decoded: int| #[trigger]
        repaired_on::<V, L>(by, ready, kept, w, after, rank, next, decoded) && decoded >= 0
            && counted.2 == decoded_by(counted.1 + decoded);
    let total = first + decoded;
    assert(total - first == decoded);
    lemma_decoded_on(counted.0, first, decoded);
    assert(went_on::<V, L>(by, v, r, w, after, rank, next, total));
}

/// A token was shifted.
proof fn lemma_went_on_shifted<V, L: Language<V>>(
    by: Reading<L>,
    v: StackView,
    r: RecoveryView,
    ready: StackView,
    kept: RecoveryView,
    w: StackView,
    rank: int,
    counted: (usize, usize),
)
    requires
        same_columns(v, ready),
        passed_by_counted::<V, L>(by, rank, v, r, kept, counted),
        !is_odd(by, rank) ==> ready == v,
        shifted_on(by.parser, ready, w, token_read(by.parser, by.document@, rank)),
    ensures
        token_taken::<V, L>(by, v, r, w, kept, rank, rank + 1, counted),
{
    reveal(passed_by_counted);
    reveal(token_taken);
    reveal(went_on);
    let first = choose|first: int| #[trigger]
        passed_by::<V, L>(by, rank, v, r, kept, first) && first >= 0 && counted.1 == decoded_by(
            counted.0 + first,
        );
    assert(went_on::<V, L>(by, v, r, w, kept, rank, rank + 1, first));
}

/// A token that no stack could shift and that cannot be mended was dropped.
proof fn lemma_went_on_dropped<V, L: Language<V>>(
    by: Reading<L>,
    v: StackView,
    r: RecoveryView,
    tried: StackView,
    ready: StackView,
    kept: RecoveryView,
    w: StackView,
    after: RecoveryView,
    rank: int,
    counted: (usize, usize, usize),
)
    requires
        same_columns(v, tried),
        same_columns(v, ready),
        passed_by_counted::<V, L>(by, rank, v, r, kept, (counted.0, counted.1)),
        found_stuck(by, rank, v),
        left_unmended::<V, L>(by, rank, tried, kept, after, (counted.1, counted.2)),
        dropped_on(by.parser, ready, w, token_read(by.parser, by.document@, rank)),
    ensures
        token_taken::<V, L>(by, v, r, w, after, rank, rank + 1, (counted.0, counted.2)),
{
    reveal(left_unmended);
    reveal(passed_by_counted);
    reveal(token_taken);
    reveal(went_on);
    let first = choose|first: int| #[trigger]
        passed_by::<V, L>(by, rank, v, r, kept, first) && first >= 0 && counted.1 == decoded_by(
            counted.0 + first,
        );
    let decoded = choose|decoded: int| #[trigger]
        unmended::<V, L>(by, rank, tried, kept, after, decoded) && decoded >= 0 && counted.2
            == decoded_by(counted.1 + decoded);
    let total = first + decoded;
    assert(total - first == decoded);
    lemma_decoded_on(counted.0, first, decoded);
    assert(given_up::<V, L>(by, rank, v, kept, after, decoded));
    assert(went_on::<V, L>(by, v, r, w, after, rank, rank + 1, total));
}

/// Mending a token broke off after it could not be shifted.
proof fn lemma_mending_cut<V, L: Language<V>>(
    by: Reading<L>,
    v: StackView,
    r: RecoveryView,
    kept: RecoveryView,
    rank: int,
    counted: (usize, usize),
)
    requires
        passed_by_counted::<V, L>(by, rank, v, r, kept, counted),
        mending_blocked(
            by.parser,
            by.document@,
            rank,
            token_read(by.parser, by.document@, rank).column,
            v,
            kept,
        ),
    ensures
        mending_cut::<V, L>(by, rank, v, r),
{
    reveal(passed_by_counted);
    let first = choose|first: int| #[trigger]
        passed_by::<V, L>(by, rank, v, r, kept, first) && first >= 0 && counted.1 == decoded_by(
            counted.0 + first,
        );
    assert(passed_by::<V, L>(by, rank, v, r, kept, first));
}

/// Counts that do not run over add up.
proof fn lemma_decoded_on(count: usize, first: int, more: int)
    requires
        0 <= first,
        0 <= more,
    ensures
        decoded_by(decoded_by(count + first) + more) == decoded_by(count + (first + more)),
{
}

/// What is counted while tokens are read.
pub struct ReadCounts {
    /// Tokens that were read.
    pub decoded: usize,
    /// Tokens that repairs looked at.
    pub recovery_decoded: usize,
    /// Gaps whose checkpoint was held against that of the old run.
    pub compared: usize,
}

impl<V> SessionContext<V> {
    /// Tries to repair at a token: a kept repair first, then a new one. What an
    /// attempt did that came to nothing is taken back.
    #[verifier::rlimit(60)]
    fn try_recover<L: Language<V>>(
        &mut self,
        parser: &Parser,
        language: &L,
        enabled: bool,
        document: &ParserTokenDocument,
        rank: usize,
        trigger: TokenOccurrenceId,
        counts: &mut ReadCounts,
        by: Ghost<Reading<L>>,
    ) -> (r: Result<Option<usize>, ParseError>)
        requires
            reads_by(by@, *parser, *language, enabled, *document),
            old(self).wf(*parser),
            old(self).at_work(),
            document.wf(),
            terminals_fit(document@, parser.grammar),
            trigger == token_read(*parser, document@, rank as int).column,
        ensures
            final(self).wf(*parser),
            final(self).at_work(),
            final(self).state.recovery.document_serial == old(
                self,
            ).state.recovery.document_serial,
            final(counts).decoded == old(counts).decoded,
            final(counts).compared == old(counts).compared,
            built_on(*language, *old(self), *final(self)),
            match r {
                Ok(Some(consumed)) => mended_on::<V, L>(
                    by@,
                    old(self)@,
                    old(self).state.recovery@,
                    final(self)@,
                    final(self).state.recovery@,
                    rank as int,
                    rank + consumed,
                    (old(counts).recovery_decoded, final(counts).recovery_decoded),
                ) && prefix_kept(old(self)@.session, final(self)@.session) && (consumed == 0
                    ==> final(self)@.session.columns.len() > old(self)@.session.columns.len()),
                Ok(None) => {
                    &&& same_columns(old(self)@, final(self)@)
                    &&& left_unmended::<V, L>(
                        by@,
                        rank as int,
                        old(self)@,
                        old(self).state.recovery@,
                        final(self).state.recovery@,
                        (old(counts).recovery_decoded, final(counts).recovery_decoded),
                    )
                },
                Err(error) => {
                    &&& extends_columns(
                        old(self)@.session,
                        final(self)@.session,
                        old(self)@.session.columns.len() - 1,
                    )
                    &&& {
                        ||| error is NoActiveStacks && mending_blocked(
                            *parser,
                            document@,
                            rank as int,
                            trigger,
                            old(self)@,
                            old(self).state.recovery@,
                        )
                        ||| reduce_failed(*parser, *language, *final(self), error)
                    }
                },
            },
    {
        let ghost v = self@;
        let ghost r = self.state.recovery@;
        let ghost whole = *self;
        proof {
            lemma_grown_self(v);
        }
        assert(v.session.columns.len() == self.state.columns@.len());
        let mark = self.state.mark();
        let mut tail = TokenTail::new(document, rank, &parser.grammar);
        let ghost tail0 = tail;
        let ghost given = |i: int| tail0.token(i);
        let reused = match self.try_reuse_recovery_journal(
            parser,
            language,
            document,
            trigger,
            &mut tail,
        ) {
            Ok(reused) => reused,
            Err(error) => {
                proof {
                    assert(reads_from(*parser, document@, rank as int, given));
                    assert(same_columns(v, v));
                    if error is NoActiveStacks {
                        assert(kept_blocked(*parser, document@, trigger, v, r, given));
                        assert(mending_blocked(
                            *parser,
                            document@,
                            rank as int,
                            trigger,
                            v,
                            r,
                        ));
                    }
                }
                return Err(error);
            },
        };
        let ghost asked = *self;
        proof {
            lemma_still_fits(tail0, tail, parser.grammar.terminals);
        }
        let ghost seen = |i: int| tail.token(i);
        let ghost weighed = tail.count() as int;
        assert(seen =~= given);
        proof {
            if reused is None {
                assert(asked.state.recovery@ == pruned(r, document@, trigger, None));
                assert(none_kept(*parser, v, document@, r, trigger, given, None));
                assert(asked@ == v);
                assert(none_looked(0, *parser, document@, r, trigger, given, weighed));
            }
        }
        let recovery = match reused {
            Some(consumed) => Ok(Some(consumed)),
            None => self.recover_tokens(
                parser,
                language,
                enabled,
                document,
                rank,
                &mut tail,
                trigger,
            ),
        };
        proof {
            if reused is None {
                lemma_built_trans(*language, whole, asked, *self);
            }
        }
        let looked: usize = tail.decoded();
        counts.recovery_decoded = counts.recovery_decoded.saturating_add(looked);
        match recovery {
            Ok(Some(consumed)) => {
                proof {
                    assert(reads_from(*parser, document@, rank as int, given));
                    assert(given =~= (|i: int| tail0.token(i)));
                    assert(seen =~= given);
                    let now = self.state.recovery@;
                    if reused is Some {
                        let serial = choose|serial: u64| #[trigger]
                            r.journal.dom().contains(serial) && made_again(
                                *parser,
                                v,
                                self@,
                                document@,
                                r,
                                now,
                                serial,
                                trigger,
                                given,
                                consumed as int,
                            ) && again_looked(
                                0,
                                *parser,
                                document@,
                                r,
                                trigger,
                                given,
                                serial,
                                looked as int,
                            );
                        assert(r.journal.dom().contains(serial));
                        assert(kept_made(
                            by@,
                            v,
                            r,
                            self@,
                            now,
                            rank as int,
                            rank + consumed,
                            given,
                            looked as int,
                        ));
                    } else {
                        let begun = segment_begun(asked.state.recovery@);
                        let list = choose|list: Vec<Repair>| #[trigger]
                            language.finds(
                                asked,
                                (asked@.session.columns.len() - 1) as usize,
                                *document,
                                rank,
                                Some(list),
                            ) && list@.len() > 0 && consumed == index_of_repairs(list@, 0)
                                && repair_steps(*parser, asked@, self@, list@, seen, 0) && now
                                == repair_kept(
                                steps_noted(
                                    begun,
                                    list@,
                                    seen,
                                    0,
                                    asked@.session.columns.len() - 1,
                                    begun.last,
                                ),
                                begun.last,
                                entry_of(asked@, list@, seen, trigger),
                            ) && looked == steps_looked(
                                weighed,
                                list@,
                                seen,
                                0,
                                list@.len() as int,
                            );
                        lemma_new_made(
                            by@,
                            asked,
                            r,
                            self@,
                            now,
                            rank,
                            consumed,
                            given,
                            list,
                            weighed,
                            looked as int,
                        );
                    }
                    assert(repaired_on::<V, L>(
                        by@,
                        v,
                        r,
                        self@,
                        now,
                        rank as int,
                        rank + consumed,
                        looked as int,
                    ));
                    reveal(mended_on);
                }
                return Ok(Some(consumed));
            },
            Ok(None) => {},
            Err(ParseError::NoActiveStacks { .. }) => {},
            Err(error) => {
                return Err(error);
            },
        }
        assert(self@.session.columns.len() == self.state.columns@.len());
        assert(self@.session.columns[mark.columns - 1].token == v.session.columns.last().token);
        let ghost left = *self;
        self.state.rollback_to(mark);
        proof {
            lemma_built_same(*language, left, *self);
            lemma_built_trans(*language, whole, left, *self);
            lemma_built_grows(*language, whole, *self);
            assert(self@.session.diagnostics =~= v.session.diagnostics) by {
                assert(v.session.diagnostics.is_prefix_of(left@.session.diagnostics));
            }
            assert(self@.session.columns =~= v.session.columns);
            assert(self@.session.columns.len() == self.state.columns@.len());
            assert(reads_from(*parser, document@, rank as int, given));
            assert(asked@ == v);
            if enabled {
                assert(found_nothing(
                    *parser,
                    *language,
                    asked,
                    *document,
                    rank,
                    given,
                    left.state.recovery@,
                    weighed,
                    looked as int,
                ));
            }
            assert(self.state.recovery@ =~= attempt_undone(left.state.recovery@, r));
            assert(!enabled ==> self.state.recovery@ == asked.state.recovery@);
            lemma_mends_nothing(
                by@,
                asked,
                r,
                left.state.recovery@,
                self.state.recovery@,
                rank,
                given,
                weighed,
                looked as int,
            );
            assert(unmended::<V, L>(
                by@,
                rank as int,
                v,
                r,
                self.state.recovery@,
                looked as int,
            ));
            reveal(left_unmended);
        }
        Ok(None)
    }
}

impl<V> SessionContext<V> {
    /// Names the gap at the last column and reduces everything that the next
    /// token lets be reduced.
    fn open_gap<L: Language<V>>(
        &mut self,
        parser: &Parser,
        language: &L,
        document: &ParserTokenDocument,
        rank: usize,
        token: &ParseToken,
    ) -> (r: Result<(), ParseError>)
        requires
            old(self).wf(*parser),
            old(self).at_work(),
            rank <= document@.tokens.len(),
            *token == token_read(*parser, document@, rank as int),
            token.terminal < parser.grammar.terminals,
        ensures
            final(self).wf(*parser),
            final(self).at_work(),
            final(self).state.recovery == old(self).state.recovery,
            built_on(*language, *old(self), *final(self)),
            final(self)@.session.columns.len() == old(self)@.session.columns.len(),
            prefix_kept(old(self)@.session, final(self)@.session),
            match r {
                Ok(_) => opened(*parser, document@, old(self)@, final(self)@, rank as int),
                Err(error) => reduce_failed(*parser, *language, *final(self), error),
            },
    {
        let ghost v = self@;
        assert(v.session.columns.len() == self.state.columns@.len());
        let column: usize = self.state.columns.len() - 1;
        let boundary = ParserBoundaryId::Source(document.boundary_at_rank(rank));
        self.state.set_column_boundary(column, Some(boundary));
        let ghost named = StackView {
            session: with_boundary(v.session, column as int, Some(boundary)),
            ..v
        };
        proof {
            assert(self@ =~= named);
            lemma_built_same(*language, *old(self), *self);
            assert(self@.session.columns.len() == self.state.columns@.len());
        }
        let ghost whole = *self;
        let result = self.reduce_until_stable(
            parser,
            language,
            column,
            token.terminal,
            token.column,
        );
        proof {
            assert(self@.session.columns.len() == self.state.columns@.len());
            lemma_built_trans(*language, *old(self), whole, *self);
        }
        match result {
            Ok(_) => Ok(()),
            Err(error) => Err(error),
        }
    }

    /// Takes the token at an opened gap: shifts it, repairs around it, or drops
    /// it. Returns by how many tokens reading goes on.
    #[verifier::rlimit(60)]
    fn take_token<L: Language<V>>(
        &mut self,
        parser: &Parser,
        language: &L,
        enabled: bool,
        document: &ParserTokenDocument,
        rank: usize,
        token: &ParseToken,
        counts: &mut ReadCounts,
        by: Ghost<Reading<L>>,
    ) -> (r: Result<usize, ParseError>)
        requires
            reads_by(by@, *parser, *language, enabled, *document),
            old(self).wf(*parser),
            old(self).at_work(),
            document.wf(),
            terminals_fit(document@, parser.grammar),
            rank <= document@.tokens.len(),
            *token == token_read(*parser, document@, rank as int),
            token.terminal < parser.grammar.terminals,
        ensures
            final(self).wf(*parser),
            final(self).at_work(),
            final(self).state.recovery.document_serial == old(
                self,
            ).state.recovery.document_serial,
            final(counts).decoded == old(counts).decoded,
            final(counts).compared == old(counts).compared,
            built_on(*language, *old(self), *final(self)),
            prefix_kept(old(self)@.session, final(self)@.session),
            match r {
                Ok(consumed) => token_taken::<V, L>(
                    by@,
                    old(self)@,
                    old(self).state.recovery@,
                    final(self)@,
                    final(self).state.recovery@,
                    rank as int,
                    rank + consumed,
                    (old(counts).recovery_decoded, final(counts).recovery_decoded),
                ),
                Err(error) => {
                    ||| error is NoActiveStacks && mending_cut::<V, L>(
                        by@,
                        rank as int,
                        old(self)@,
                        old(self).state.recovery@,
                    )
                    ||| reduce_failed(*parser, *language, *final(self), error)
                },
            },
            r == Ok::<usize, ParseError>(0) ==> final(self)@.session.columns.len() > old(
                self,
            )@.session.columns.len(),
    {
        let ghost v = self@;
        assert(v.session.columns.len() == self.state.columns@.len());
        let column: usize = self.state.columns.len() - 1;
        let ghost first = *self;
        proof {
            lemma_grown_self(v);
            assert(same_columns(v, v));
            lemma_built_same(*language, first, first);
        }
        let ghost r = self.state.recovery@;
        let ghost at_first = counts.recovery_decoded;
        if token.terminal == parser.grammar.error_terminal {
            match self.try_recover(
                parser,
                language,
                enabled,
                document,
                rank,
                token.column,
                counts,
                by,
            ) {
                Ok(Some(consumed)) => {
                    proof {
                        lemma_mended_at_once::<V, L>(
                            by@,
                            v,
                            r,
                            self@,
                            self.state.recovery@,
                            rank as int,
                            rank + consumed,
                            (at_first, counts.recovery_decoded),
                        );
                    }
                    return Ok(consumed);
                },
                Ok(None) => {},
                Err(error) => {
                    return Err(error);
                },
            }
        }
        let ghost kept = self.state.recovery@;
        let ghost counted = counts.recovery_decoded;
        proof {
            lemma_passed_by::<V, L>(by@, rank as int, v, r, kept, (at_first, counted));
        }
        let ghost ready = self@;
        let ghost at_hand = *self;
        assert(same_columns(v, ready));
        let ghost odd = token.terminal == parser.grammar.error_terminal;
        assert(!odd ==> ready == v);
        assert(ready.session.columns.len() == self.state.columns@.len());
        let shift = self.shift_parse_token(parser, language, column, token);
        let ghost after = self@;
        proof {
            assert(after.session.columns.len() == self.state.columns@.len());
            lemma_built_trans(*language, first, at_hand, *self);
            lemma_built_grows(*language, at_hand, *self);
        }
        let stuck = match shift {
            Err(ParseError::NoActiveStacks { .. }) => true,
            _ => false,
        };
        if stuck {
            proof {
                assert(same_columns(ready, after));
                lemma_same_columns_trans(v, ready, after);
                assert(no_shift(*parser, ready, token.terminal));
                assert(stuck_at(*parser, v, token.terminal));
                assert(found_stuck(by@, rank as int, v));
            }
            let ghost second = *self;
            match self.try_recover(
                parser,
                language,
                enabled,
                document,
                rank,
                token.column,
                counts,
                by,
            ) {
                Ok(Some(consumed)) => {
                    proof {
                        lemma_built_trans(*language, first, second, *self);
                        lemma_mended_late::<V, L>(
                            by@,
                            v,
                            r,
                            after,
                            kept,
                            self@,
                            self.state.recovery@,
                            rank as int,
                            rank + consumed,
                            (at_first, counted, counts.recovery_decoded),
                        );
                    }
                    return Ok(consumed);
                },
                Ok(None) => {},
                Err(error) => {
                    proof {
                        lemma_built_trans(*language, first, second, *self);
                        if error is NoActiveStacks {
                            lemma_blocked_from(
                                *parser,
                                document@,
                                rank as int,
                                token.column,
                                v,
                                after,
                                kept,
                            );
                            lemma_mending_cut::<V, L>(
                                by@,
                                v,
                                r,
                                kept,
                                rank as int,
                                (at_first, counted),
                            );
                        }
                    }
                    return Err(error);
                },
            }
            let ghost given = self.state.recovery@;
            let ghost again = self@;
            let ghost third = *self;
            proof {
                lemma_same_columns_trans(v, after, again);
                lemma_built_trans(*language, first, second, third);
            }
            assert(again.session.columns.len() == self.state.columns@.len());
            let result = self.delete_parse_token(parser, language, column, token);
            proof {
                lemma_built_trans(*language, first, third, *self);
            }
            assert(self@.session.columns.len() == self.state.columns@.len());
            match result {
                Ok(_) => {
                    assert(dropped_on(*parser, again, self@, *token));
                    proof {
                        assert(same_columns(v, again));
                        assert(self.state.recovery@ == given);
                        lemma_went_on_dropped::<V, L>(
                            by@,
                            v,
                            r,
                            after,
                            again,
                            kept,
                            self@,
                            given,
                            rank as int,
                            (at_first, counted, counts.recovery_decoded),
                        );
                    }
                    return Ok(1);
                },
                Err(error) => {
                    return Err(error);
                },
            }
        }
        proof {
            if shift is Err {
                let error = shift->Err_0;
                if error is MissingGssNode && after == ready {
                    let active = ready.session.columns.last().active;
                    let node = error->node;
                    if active.contains(node) && node >= ready.gss.nodes.len() {
                        let i = active.index_of(node);
                        assert(active[i] == node);
                        assert(!nodes_there(ready.gss, active));
                    }
                }
            }
        }
        assert(shift_done(*parser, ready, after, *token));
        let ghost shifted = *self;
        if token.terminal == parser.grammar.eof {
            let last: usize = self.state.columns.len() - 1;
            let result = self.reduce_until_stable(
                parser,
                language,
                last,
                token.terminal,
                token.column,
            );
            proof {
                assert(self@.session.columns.len() == self.state.columns@.len());
                lemma_built_trans(*language, first, shifted, *self);
            }
            match result {
                Ok(_) => {},
                Err(error) => {
                    return Err(error);
                },
            }
        }
        assert(shifted_on(*parser, ready, self@, *token));
        assert(same_columns(v, ready));
        proof {
            assert(self.state.recovery@ == kept);
            lemma_went_on_shifted::<V, L>(
                by@,
                v,
                r,
                ready,
                kept,
                self@,
                rank as int,
                (at_first, counted),
            );
        }
        Ok(1)
    }
}

/// Where columns are the same, mending breaks off in the same way.
proof fn lemma_blocked_from(
    parser: Parser,
    tokens: TokensView,
    rank: int,
    trigger: TokenOccurrenceId,
    u: StackView,
    v: StackView,
    r: RecoveryView,
)
    requires
        same_columns(u, v),
        mending_blocked(parser, tokens, rank, trigger, v, r),
    ensures
        mending_blocked(parser, tokens, rank, trigger, u, r),
{
    let (tried, token) = choose|tried: StackView, token: spec_fn(int) -> Option<ParseToken>|
        same_columns(v, tried) && reads_from(parser, tokens, rank, token)
            && #[trigger] kept_blocked(parser, tokens, trigger, tried, r, token);
    lemma_same_columns_trans(u, v, tried);
}

/// Counts of comparisons that cannot run over before the number of comparisons
/// does.
pub open spec fn stats_in_step(stats: IncrementalParseStats) -> bool {
    &&& stats.checkpoint_matches <= stats.convergence_checks
    &&& stats.frontier_matches <= stats.convergence_checks
    &&& stats.reconverged_old_boundary is None
    &&& stats.reconverged_new_boundary is None
}

impl<V> SessionContext<V> {
    /// Reads one token, or takes the old run over. Returns by how many tokens
    /// reading goes on; none where it ended.
    #[verifier::rlimit(80)]
    fn read_one<L: Language<V>>(
        &mut self,
        parser: &Parser,
        language: &L,
        enabled: bool,
        plan: &ReplayPlan<'_>,
        run: &ParseSegment,
        base: usize,
        rank: usize,
        stats: &mut IncrementalParseStats,
        counts: &mut ReadCounts,
    ) -> (r: Result<Option<usize>, ParseError>)
        requires
            old(self).wf(*parser),
            old(self).at_work(),
            plan.new.wf(),
            terminals_fit(plan.new@, parser.grammar),
            rank <= plan.new@.tokens.len(),
            run.wf(),
            base + run.view().columns.len() <= usize::MAX,
            stats_in_step(*old(stats)),
        ensures
            final(self).wf(*parser),
            final(self).state.columns@.len() > 0,
            final(self).state.recovery.document_serial == old(
                self,
            ).state.recovery.document_serial,
            prefix_kept(old(self)@.session, final(self)@.session),
            final(counts).decoded == decoded_by(old(counts).decoded + 1),
            r == Ok::<Option<usize>, ParseError>(None) ==> final(counts).recovery_decoded == old(
                counts,
            ).recovery_decoded && final(counts).compared == decoded_by(
                old(counts).compared + compared_at(
                    reading(*parser, *language, enabled, *plan, run.view(), base as int),
                    rank as int,
                ),
            ),
            built_on(*language, *old(self), *final(self)),
            match r {
                Ok(Some(consumed)) => {
                    &&& final(self).at_work()
                    &&& stats_in_step(*final(stats))
                    &&& read_on::<V, L>(
                        reading(*parser, *language, enabled, *plan, run.view(), base as int),
                        stop_at(*old(self), *old(stats), *old(counts), rank as int),
                        stop_at(*final(self), *final(stats), *final(counts), rank + consumed),
                    )
                    &&& consumed == 0 ==> final(self)@.session.columns.len() > old(
                        self,
                    )@.session.columns.len()
                },
                Ok(None) => reading_ended(
                    reading(*parser, *language, enabled, *plan, run.view(), base as int),
                    stop_at(*old(self), *old(stats), *old(counts), rank as int),
                    *final(self),
                    *final(stats),
                ),
                Err(error) => read_cut(
                    reading(*parser, *language, enabled, *plan, run.view(), base as int),
                    stop_at(*old(self), *old(stats), *old(counts), rank as int),
                    *final(self),
                    final(stats).convergence_checks,
                    error,
                ),
            },
    {
        let ghost v = self@;
        let ghost from = stop_at(*self, *stats, *counts, rank as int);
        let ghost by = reading(*parser, *language, enabled, *plan, run.view(), base as int);
        let ghost whole = *self;
        proof {
            lemma_built_same(*language, whole, whole);
        }
        assert(v.session.columns.len() == self.state.columns@.len());
        let data = match plan.new.token_at(rank) {
            Some(data) => data,
            None => {
                return Ok(None);
            },
        };
        let token = decode_data(data, &parser.grammar);
        proof {
            if rank < plan.new@.tokens.len() {
                assert(plan.new@.tokens[rank as int] == data);
            }
        }
        counts.decoded = counts.decoded.saturating_add(1);
        let column: usize = self.state.columns.len() - 1;
        match self.open_gap(parser, language, plan.new, rank, &token) {
            Ok(_) => {},
            Err(error) => {
                assert(self@.session.columns.len() == self.state.columns@.len());
                return Err(error);
            },
        }
        let ghost mid = self@;
        let ghost open = *self;
        assert(mid.session.columns.len() == self.state.columns@.len());
        if stats.convergence_checks == usize::MAX {
            return Err(ParseError::Build(BuildError::Exhausted));
        }
        if rank >= plan.new_reuse_start {
            let boundary = ParserBoundaryId::Source(plan.new.boundary_at_rank(rank));
            if run.boundary_column(boundary).is_some() {
                counts.compared = counts.compared.saturating_add(1);
            }
        }
        assert(counts.compared == decoded_by(
            old(counts).compared + compared_at(by, rank as int),
        ));
        let reused = self.maybe_reuse_suffix(
            parser,
            language,
            plan,
            run,
            base,
            column,
            rank,
            stats,
        );
        let ghost w = self@;
        let ghost compared = *self;
        proof {
            lemma_built_trans(*language, whole, open, compared);
            lemma_built_grows(*language, open, compared);
            if rank >= plan.new_reuse_start {
                let decision = choose|decision: DecisionView| #[trigger]
                    decided(
                        mid,
                        run.view(),
                        column as int,
                        boundary_at(plan.new@, rank as int),
                        decision,
                    ) && reuse_outcome(
                        *parser,
                        *language,
                        mid,
                        compared,
                        run.view(),
                        base as int,
                        column as int,
                        *old(stats),
                        *stats,
                        traced(mid, run.view(), plan.new@, column as int, rank as int),
                        decision,
                        outcome_of(reused),
                    );
                lemma_reuse(
                    *parser,
                    *language,
                    mid,
                    compared,
                    run.view(),
                    base as int,
                    column as int,
                    boundary_at(plan.new@, rank as int),
                    *old(stats),
                    *stats,
                    traced(mid, run.view(), plan.new@, column as int, rank as int),
                    decision,
                    outcome_of(reused),
                );
                if outcome_of(reused) == Some(true) {
                    assert(taken_over(by, from, mid, compared, *stats, decision));
                }
                if outcome_of(reused) == Some(false) {
                    assert(compared_in_vain(by, from, mid, compared, decision, *stats));
                }
            }
            assert(w.session.columns == mid.session.columns);
            assert(w.session.columns.len() == self.state.columns@.len());
        }
        match reused {
            Ok(true) => {
                return Ok(None);
            },
            Ok(false) => {},
            Err(error) => {
                return Err(error);
            },
        }
        assert(same_session(mid, w));
        assert(same_columns(mid, w));
        assert(passed_over::<V, L>(by, from, mid, w, *stats));
        if token.terminal == parser.grammar.eof && self.state.accepted().len() > 0 {
            return Ok(None);
        }
        let taken = self.take_token(
            parser,
            language,
            enabled,
            plan.new,
            rank,
            &token,
            counts,
            Ghost(by),
        );
        match taken {
            Ok(consumed) => {
                proof {
                    lemma_built_trans(*language, whole, compared, *self);
                    assert(opened(*parser, plan.new@, v, mid, rank as int));
                    let to = stop_at(*self, *stats, *counts, rank + consumed);
                    reveal(token_taken);
                    let decoded = choose|decoded: int| #[trigger]
                        went_on::<V, L>(
                            by,
                            w,
                            from.recovery,
                            to.state,
                            to.recovery,
                            rank as int,
                            rank + consumed,
                            decoded,
                        ) && to.recovery_decoded == decoded_by(from.recovery_decoded + decoded);
                    assert(same_session(mid, w));
                    assert(went_on::<V, L>(
                        by,
                        w,
                        from.recovery,
                        to.state,
                        to.recovery,
                        from.rank,
                        to.rank,
                        decoded,
                    ));
                    assert(read_on::<V, L>(by, from, to));
                    assert(stats_in_step(*stats));
                }
                Ok(Some(consumed))
            },
            Err(error) => {
                proof {
                    lemma_built_trans(*language, whole, compared, *self);
                    assert(opened(*parser, plan.new@, v, mid, rank as int));
                    assert(same_session(mid, w));
                }
                Err(error)
            },
        }
    }
}

/// What a comparison says of the columns and of where the old run goes on.
proof fn lemma_reuse<V, L: Language<V>>(
    parser: Parser,
    language: L,
    v: StackView,
    context: SessionContext<V>,
    run: SegmentView,
    base: int,
    column: int,
    boundary: ParserBoundaryId,
    stats: IncrementalParseStats,
    after: IncrementalParseStats,
    trace: BoundaryTrace,
    decision: DecisionView,
    outcome: Option<bool>,
)
    requires
        decided(v, run, column, boundary, decision),
        reuse_outcome(
            parser,
            language,
            v,
            context,
            run,
            base,
            column,
            stats,
            after,
            trace,
            decision,
            outcome,
        ),
        0 <= base,
        base + run.columns.len() <= usize::MAX,
        0 <= column <= usize::MAX,
        v.session.suffix is None,
    ensures
        context@.session.columns == v.session.columns,
        context@.session.generation == v.session.generation,
        context@.session == (SessionView { suffix: context@.session.suffix, ..v.session }),
        outcome != Some(true) ==> context@.session == v.session,
        outcome == Some(false) ==> after.reconverged_old_boundary == stats.reconverged_old_boundary
            && after.reconverged_new_boundary == stats.reconverged_new_boundary
            && after.convergence_checks == (stats.convergence_checks + 1) as usize
            && after.checkpoint_matches <= stats.checkpoint_matches + 1 && after.frontier_matches
            <= stats.frontier_matches + 1,
        outcome == Some(true) ==> {
            let at = after.reconverged_old_boundary->Some_0;
            &&& after.reconverged_old_boundary is Some
            &&& after.reconverged_new_boundary == Some(column as usize)
            &&& base <= at < base + run.columns.len()
            &&& boundary_place(run.columns, boundary) == Some(at - base)
            &&& taken_from(context@.session, run, at - base)
        },
{
    lemma_last_place(run.columns, |column: ColumnView| column.boundary == Some(boundary));
    match boundary_place(run.columns, boundary) {
        Some(at) => {
            let rest = rest_of(run, at);
            assert(rest.columns =~= run.columns.skip(at + 1));
        },
        None => {},
    }
    if let DecisionView::Seam { old_index, products, canonical } = decision {
        if outcome == Some(true) {
            let (mid, map) = choose|mid: StackView, map: Map<usize, usize>| #[trigger]
                seam_attached(v, mid, context@, run, old_index, products, map);
        }
    }
}

/// What reading again goes by.
pub open spec fn reading<L>(
    parser: Parser,
    language: L,
    enabled: bool,
    plan: ReplayPlan<'_>,
    run: SegmentView,
    base: int,
) -> Reading<L> {
    Reading {
        parser,
        language,
        enabled,
        document: *plan.new,
        run,
        base,
        reuse_start: plan.new_reuse_start as int,
    }
}

/// A context between two tokens.
pub open spec fn stop_at<V>(
    context: SessionContext<V>,
    stats: IncrementalParseStats,
    counts: ReadCounts,
    rank: int,
) -> Stop {
    Stop {
        state: context@,
        recovery: context.state.recovery@,
        stats,
        recovery_decoded: counts.recovery_decoded,
        compared: counts.compared,
        rank,
    }
}

/// Reading again from a stop on led to a state. One token was decoded at each
/// stop but a last one behind the end.
pub open spec fn replayed<V, L: Language<V>>(
    by: Reading<L>,
    first: Stop,
    context: SessionContext<V>,
    stats: IncrementalParseStats,
    counts: ReadCounts,
) -> bool {
    exists|stops: Seq<Stop>|
        {
            &&& stops.len() > 0
            &&& stops[0] == first
            &&& #[trigger] all_follow::<V, L>(by, stops)
            &&& counts.recovery_decoded == stops.last().recovery_decoded
            &&& counts.compared == decoded_by(
                if stops.last().rank > by.document@.tokens.len() {
                    stops.last().compared as int
                } else {
                    stops.last().compared + compared_at(by, stops.last().rank)
                },
            )
            &&& counts.decoded == decoded_by(
                if stops.last().rank > by.document@.tokens.len() {
                    stops.len() - 1
                } else {
                    stops.len() as int
                },
            )
            &&& reading_ended(by, stops.last(), context, stats)
        }
}

/// Reading again from a stop on broke off.
pub open spec fn broke_off<V, L: Language<V>>(
    by: Reading<L>,
    first: Stop,
    context: SessionContext<V>,
    checks: usize,
    error: ParseError,
) -> bool {
    exists|stops: Seq<Stop>|
        {
            &&& stops.len() > 0
            &&& stops[0] == first
            &&& #[trigger] all_follow::<V, L>(by, stops)
            &&& prefix_kept(stops.last().state.session, context@.session)
            &&& read_cut(by, stops.last(), context, checks, error)
        }
}

/// The stacks at a gap are those that an old run had there, node for node and
/// product for product: the checkpoints match, the stacks compare equal in full,
/// and the run holds nothing that may change.
pub open spec fn frontier_unchanged(
    v: StackView,
    run: SegmentView,
    boundary: ParserBoundaryId,
) -> bool {
    let current = v.session.columns.last();
    let g = (v.gss, v.products);
    match boundary_place(run.columns, boundary) {
        Some(at) => {
            let old = run.columns[at];
            &&& run.stable
            &&& checkpoints_match(checkpoint_of(current, g), run.frontiers[at])
            &&& forall|found: Option<(Map<usize, usize>, Map<usize, usize>, bool)>|
                #[trigger] canonical_match(
                    g,
                    (old.base, old.active),
                    (current.base, current.active),
                    found,
                ) ==> {
                    &&& found is Some
                    &&& found->Some_0.2
                    &&& is_identity(found->Some_0.0)
                    &&& is_identity(found->Some_0.1)
                }
        },
        None => false,
    }
}

/// Reading does not go past a gap where the old run may be taken over and the
/// stacks are those that it had there: the run is taken over, and all of it that
/// stood behind that gap stands behind the columns again.
pub proof fn lemma_unchanged_frontier_is_taken_over<V, L: Language<V>>(
    by: Reading<L>,
    stops: Seq<Stop>,
    k: int,
    context: SessionContext<V>,
    stats: IncrementalParseStats,
)
    requires
        0 <= k < stops.len(),
        all_follow::<V, L>(by, stops),
        reading_ended(by, stops.last(), context, stats),
        by.reuse_start <= stops[k].rank <= by.document@.tokens.len(),
        forall|mid: StackView| #[trigger]
            opened(by.parser, by.document@, stops[k].state, mid, stops[k].rank)
                ==> frontier_unchanged(mid, by.run, boundary_at(by.document@, stops[k].rank)),
    ensures
        k == stops.len() - 1,
        stats.reconverged_old_boundary is Some,
        boundary_place(by.run.columns, boundary_at(by.document@, stops[k].rank)) == Some(
            stats.reconverged_old_boundary->Some_0 - by.base,
        ),
        taken_from(
            context@.session,
            by.run,
            stats.reconverged_old_boundary->Some_0 - by.base,
        ),
{
    let from = stops[k];
    let boundary = boundary_at(by.document@, from.rank);
    assert forall|mid: StackView, decision: DecisionView|
        opened(by.parser, by.document@, from.state, mid, from.rank) && #[trigger] decided(
            mid,
            by.run,
            mid.session.columns.len() - 1,
            boundary,
            decision,
        ) implies decision is Verbatim by {
        assert(frontier_unchanged(mid, by.run, boundary));
    }
    if k < stops.len() - 1 {
        assert(stop_follows::<V, L>(by, stops, k));
        let to = stops[k + 1];
        let (mid, tried, decoded) = choose|mid: StackView, tried: StackView, decoded: int|
            opened(by.parser, by.document@, from.state, mid, from.rank) && #[trigger] same_session(
                mid,
                tried,
            ) && passed_over::<V, L>(by, from, mid, tried, to.stats) && #[trigger] went_on::<V, L>(
                by,
                tried,
                from.recovery,
                to.state,
                to.recovery,
                from.rank,
                to.rank,
                decoded,
            ) && to.recovery_decoded == decoded_by(from.recovery_decoded + decoded) && to.compared
                == decoded_by(from.compared + compared_at(by, from.rank));
        assert(passed_over::<V, L>(by, from, mid, tried, to.stats));
    } else if stats.reconverged_old_boundary is None {
        let w = context@;
        let mid = choose|mid: StackView| #[trigger]
            opened(by.parser, by.document@, from.state, mid, from.rank) && same_session(mid, w)
                && passed_over::<V, L>(by, from, mid, w, stats);
        assert(passed_over::<V, L>(by, from, mid, w, stats));
    }
}

/// Where the stacks are those that the old run had at the very gap where reading
/// starts again, one token is looked at, nothing is mended, and the old run is
/// taken over from there on.
pub proof fn lemma_unchanged_start_reads_nothing<V, L: Language<V>>(
    by: Reading<L>,
    first: Stop,
    context: SessionContext<V>,
    stats: IncrementalParseStats,
    counts: ReadCounts,
)
    requires
        replayed::<V, L>(by, first, context, stats, counts),
        by.reuse_start <= first.rank <= by.document@.tokens.len(),
        forall|mid: StackView| #[trigger]
            opened(by.parser, by.document@, first.state, mid, first.rank)
                ==> frontier_unchanged(mid, by.run, boundary_at(by.document@, first.rank)),
    ensures
        counts.decoded == 1,
        counts.recovery_decoded == first.recovery_decoded,
        context.state.recovery@ == first.recovery,
        stats.reconverged_old_boundary is Some,
        taken_from(
            context@.session,
            by.run,
            stats.reconverged_old_boundary->Some_0 - by.base,
        ),
{
    let stops = choose|stops: Seq<Stop>|
        {
            &&& stops.len() > 0
            &&& stops[0] == first
            &&& #[trigger] all_follow::<V, L>(by, stops)
            &&& counts.recovery_decoded == stops.last().recovery_decoded
            &&& counts.compared == decoded_by(
                if stops.last().rank > by.document@.tokens.len() {
                    stops.last().compared as int
                } else {
                    stops.last().compared + compared_at(by, stops.last().rank)
                },
            )
            &&& counts.decoded == decoded_by(
                if stops.last().rank > by.document@.tokens.len() {
                    stops.len() - 1
                } else {
                    stops.len() as int
                },
            )
            &&& reading_ended(by, stops.last(), context, stats)
        };
    lemma_unchanged_frontier_is_taken_over::<V, L>(by, stops, 0, context, stats);
}

/// A run with one stop more.
proof fn lemma_stop_pushed<V, L: Language<V>>(by: Reading<L>, stops: Seq<Stop>, to: Stop)
    requires
        stops.len() > 0,
        all_follow::<V, L>(by, stops),
        read_on::<V, L>(by, stops.last(), to),
    ensures
        all_follow::<V, L>(by, stops.push(to)),
        stops.push(to)[0] == stops[0],
{
    let more = stops.push(to);
    assert forall|k: int| 0 <= k < more.len() - 1 implies #[trigger] stop_follows::<V, L>(
        by,
        more,
        k,
    ) by {
        if k < stops.len() - 1 {
            assert(stop_follows::<V, L>(by, stops, k));
        }
    }
}

impl<V> SessionContext<V> {
    /// Reads the tokens of a document from a rank on, up to where an old run
    /// can be taken over, or to the end.
    pub fn replay_tokens<L: Language<V>>(
        &mut self,
        parser: &Parser,
        language: &L,
        enabled: bool,
        plan: &ReplayPlan<'_>,
        run: &ParseSegment,
        base: usize,
        start: usize,
        stats: &mut IncrementalParseStats,
        counts: &mut ReadCounts,
    ) -> (r: Result<(), ParseError>)
        requires
            old(self).wf(*parser),
            old(self).at_work(),
            plan.new.wf(),
            plan.new_extent == plan.new@.tokens.len() + 1,
            terminals_fit(plan.new@, parser.grammar),
            run.wf(),
            base + run.view().columns.len() <= usize::MAX,
            stats_in_step(*old(stats)),
            old(counts).decoded == 0,
        ensures
            final(self).wf(*parser),
            final(self).state.columns@.len() > 0,
            final(self).state.recovery.document_serial == old(
                self,
            ).state.recovery.document_serial,
            prefix_kept(old(self)@.session, final(self)@.session),
            built_on(*language, *old(self), *final(self)),
            match r {
                Ok(_) => replayed::<V, L>(
                    reading(*parser, *language, enabled, *plan, run.view(), base as int),
                    stop_at(*old(self), *old(stats), *old(counts), start as int),
                    *final(self),
                    *final(stats),
                    *final(counts),
                ),
                Err(error) => broke_off(
                    reading(*parser, *language, enabled, *plan, run.view(), base as int),
                    stop_at(*old(self), *old(stats), *old(counts), start as int),
                    *final(self),
                    final(stats).convergence_checks,
                    error,
                ),
            },
    {
        let ghost v = self@;
        proof {
            lemma_built_same(*language, *self, *self);
        }
        let ghost by = reading(*parser, *language, enabled, *plan, run.view(), base as int);
        let ghost first = stop_at(*self, *stats, *counts, start as int);
        let ghost mut stops: Seq<Stop> = seq![first];
        let replay_len: usize = if plan.new_extent > start {
            plan.new_extent - start
        } else {
            0
        };
        let mut i: usize = 0;
        while i < replay_len
            invariant
                self.wf(*parser),
                self.at_work(),
                plan.new.wf(),
                plan.new_extent == plan.new@.tokens.len() + 1,
                terminals_fit(plan.new@, parser.grammar),
                run.wf(),
                base + run.view().columns.len() <= usize::MAX,
                stats_in_step(*stats),
                v == old(self)@,
                built_on(*language, *old(self), *self),
                self.state.recovery.document_serial == old(self).state.recovery.document_serial,
                prefix_kept(v.session, self@.session),
                replay_len == if plan.new_extent > start {
                    plan.new_extent - start
                } else {
                    0
                },
                stops.len() > 0,
                by == reading(*parser, *language, enabled, *plan, run.view(), base as int),
                first == stop_at(*old(self), *old(stats), *old(counts), start as int),
                stops[0] == first,
                all_follow::<V, L>(by, stops),
                stops.last() == stop_at(*self, *stats, *counts, stops.last().rank),
                stops.last().rank == start + i || (i == usize::MAX && stops.last().rank >= start
                    + i),
                counts.decoded == decoded_by(stops.len() - 1),
            decreases
                    (usize::MAX - self.state.columns.len()) + (if i < replay_len {
                        replay_len - i
                    } else {
                        0
                    }),
        {
            let rank: usize = start + i;
            let ghost before = self@;
            let ghost whole = *self;
            assert(before.session.columns.len() == self.state.columns@.len());
            match self.read_one(
                parser,
                language,
                enabled,
                plan,
                run,
                base,
                rank,
                stats,
                counts,
            ) {
                Ok(Some(consumed)) => {
                    proof {
                        lemma_built_trans(*language, *old(self), whole, *self);
                        let to = stop_at(*self, *stats, *counts, rank + consumed);
                        lemma_stop_pushed::<V, L>(by, stops, to);
                        stops = stops.push(to);
                        assert(self@.session.columns.len() == self.state.columns@.len());
                    }
                    i = i.saturating_add(consumed);
                },
                Ok(None) => {
                    proof {
                        lemma_built_trans(*language, *old(self), whole, *self);
                    }
                    assert(all_follow::<V, L>(by, stops));
                    return Ok(());
                },
                Err(error) => {
                    proof {
                        lemma_built_trans(*language, *old(self), whole, *self);
                        assert(all_follow::<V, L>(by, stops));
                    }
                    return Err(error);
                },
            }
        }
        assert(reading_ended(by, stops.last(), *self, *stats));
        Ok(())
    }
}

} // verus!
