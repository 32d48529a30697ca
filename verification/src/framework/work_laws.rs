//! How counts of work add up.

use vstd::prelude::*;

use crate::framework::lex::token::{no_lexer_work, LexerWork};
use crate::framework::parse::types::{merged_work, no_parser_work, work_adds_up, ParserWork};
use crate::framework::source::SourceWork;

verus! {

/// Counts of lexing add up like numbers: nothing adds nothing, the order does not
/// matter, what is added to three is added in any grouping, and different counts
/// give different sums.
pub proof fn lemma_lexer_work_adds_up(a: LexerWork, b: LexerWork, c: LexerWork)
    requires
        a.sums_fit(b),
        a.sums_fit(c),
        b.sums_fit(c),
        a.sum(b).sums_fit(c),
    ensures
        a.sum(no_lexer_work()) == a,
        no_lexer_work().sum(a) == a,
        a.sum(b) == b.sum(a),
        a.sum(b).sum(c) == a.sum(b.sum(c)),
        a.sum(b) == a.sum(c) ==> b == c,
{
}

/// Counts of changes to source texts add up like numbers.
pub proof fn lemma_source_work_adds_up(a: SourceWork, b: SourceWork, c: SourceWork)
    requires
        a.sums_fit(b),
        a.sums_fit(c),
        b.sums_fit(c),
        a.sum(b).sums_fit(c),
    ensures
        a.sum(b) == b.sum(a),
        a.sum(b).sum(c) == a.sum(b.sum(c)),
        a.sum(b) == a.sum(c) ==> b == c,
{
}

/// Counts of parsing add up like numbers, and the first known reason for a replay
/// to the end stays.
pub proof fn lemma_parser_work_adds_up(a: ParserWork, b: ParserWork, c: ParserWork)
    requires
        work_adds_up(a, b),
        work_adds_up(a, c),
        work_adds_up(b, c),
        work_adds_up(merged_work(a, b), c),
    ensures
        merged_work(a, no_parser_work()) == a,
        merged_work(no_parser_work(), a) == a,
        merged_work(merged_work(a, b), c) == merged_work(a, merged_work(b, c)),
        a.full_replay_reason is None && b.full_replay_reason is None ==> merged_work(a, b)
            == merged_work(b, a),
        a.full_replay_reason is None && merged_work(a, b) == merged_work(a, c) ==> b == c,
        a.full_replay_reason is Some ==> merged_work(a, b).full_replay_reason
            == a.full_replay_reason,
{
}

} // verus!
