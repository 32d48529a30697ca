//! What is counted of the work on the parse of a document.

use vstd::prelude::*;

use crate::framework::lex::lexed::{TokenOccurrenceId, TokenPatch};
use crate::framework::lex::token::{count_both, counted};
use crate::framework::parse::delta::{KeyDelta, ParseDelta};
use crate::framework::parse::parsing::repairs::RecoveryCounts;
use crate::framework::parse::parsing::replay::ReadCounts;
use crate::framework::parse::tokens::{
    lemma_rank_in, rank_in, ParserTokenDocument, TokensView,
};
use crate::framework::parse::types::{
    no_parser_work, with_full_replay, FullReplayReason, IncrementalParseStats, ParserWork,
};

verus! {

/// What a command made and what it started from.
pub struct ParseCounts {
    /// The rank from which tokens were read again.
    pub rank: usize,
    /// The document was parsed before.
    pub again: bool,
    /// How many columns were kept behind the edit.
    pub run: usize,
    /// How many stack nodes, stack edges, products and syntax records came.
    pub nodes: usize,
    pub edges: usize,
    pub products: usize,
    pub records: usize,
    /// What is counted of repairs.
    pub recovery: RecoveryCounts,
}

/// How many keys a change mentions.
pub open spec fn key_count<K>(delta: KeyDelta<K>) -> int {
    (delta.inserted@.len() + delta.updated@.len() + delta.removed@.len()) as int
}

/// How many entries a change of a tree has.
pub open spec fn entry_count(delta: ParseDelta) -> int {
    key_count(delta.ast_records) + key_count(delta.syntax_payloads) + key_count(delta.parents)
        + delta.child_splices@.len() + delta.roots.removed@.len() + delta.roots.inserted@.len()
        + key_count(delta.diagnostics)
}

/// What is counted of a change of a tree, besides other work.
pub open spec fn with_delta(work: ParserWork, delta: ParseDelta) -> ParserWork {
    ParserWork {
        parser_records_inserted: delta.ast_records.inserted@.len() as u64,
        parser_records_removed: delta.ast_records.removed@.len() as u64,
        parser_records_updated: delta.ast_records.updated@.len() as u64,
        syntax_journal_entries: counted(entry_count(delta)),
        syntax_payload_ops: counted(key_count(delta.syntax_payloads)),
        syntax_parent_ops: counted(key_count(delta.parents)),
        syntax_field_ops: delta.child_splices@.len() as u64,
        syntax_order_splices: delta.child_splices@.len() as u64,
        record_journal_touches: counted(entry_count(delta)),
        ..work
    }
}

/// One where something holds.
pub open spec fn once(holds: bool) -> u64 {
    if holds {
        1
    } else {
        0
    }
}

/// What is counted of a parse that read tokens again.
pub open spec fn parse_work(
    stats: IncrementalParseStats,
    read: ReadCounts,
    counts: ParseCounts,
    delta: ParseDelta,
    reason: Option<FullReplayReason>,
) -> ParserWork {
    let work = with_delta(
        ParserWork {
            restart_columns: stats.restart_boundary as u64,
            restart_boundary_lookups: 1,
            restart_lookup_depth: counts.rank as u64,
            restart_occurrences: once(counts.again),
            tokens_decoded: counted(read.decoded + read.recovery_decoded),
            tokens_replayed: counted(read.decoded + read.recovery_decoded),
            semantic_tokens_decoded: read.decoded as u64,
            source_boundaries_replayed: stats.reparsed as u64,
            recovery_boundaries_replayed: read.recovery_decoded as u64,
            recovery_segments_reused: counts.recovery.reused,
            recovery_segments_invalidated: counts.recovery.invalidated,
            recovery_interval_probes: counts.recovery.probes,
            recovery_witness_tokens: counts.recovery.witnesses,
            columns_replayed: stats.reparsed as u64,
            columns_reused: stats.reused as u64,
            segments_split: once(counts.run > 0),
            segments_attached: once(stats.reconverged_old_boundary is Some),
            suffix_columns_physically_visited: stats.suffix_rewritten as u64,
            convergence_candidates: stats.convergence_checks as u64,
            checkpoint_exact_comparisons: read.compared as u64,
            checkpoint_comparisons: read.compared as u64,
            checkpoint_matches: stats.checkpoint_matches as u64,
            frontier_matches: stats.frontier_matches as u64,
            gss_nodes_created: counts.nodes as u64,
            gss_records_created: counts.nodes as u64,
            gss_edges_created: counts.edges as u64,
            products_created: counts.products as u64,
            product_records_created: counts.products as u64,
            ast_records_created: counts.records as u64,
            ..no_parser_work()
        },
        delta,
    );
    match reason {
        Some(reason) => with_full_replay(work, reason),
        None => work,
    }
}

fn count_on(count: u64, more: usize) -> (r: u64)
    ensures
        r == counted(count + more),
{
    count.saturating_add(more as u64)
}

fn count_keys<K>(delta: &KeyDelta<K>) -> (r: u64)
    ensures
        r == counted(key_count(*delta)),
{
    count_on(count_both(delta.inserted.len(), delta.updated.len()), delta.removed.len())
}

fn count_once(holds: bool) -> (r: u64)
    ensures
        r == once(holds),
{
    if holds {
        1
    } else {
        0
    }
}

/// What is counted of a parse that read tokens again.
pub fn count_parse(
    stats: &IncrementalParseStats,
    read: &ReadCounts,
    counts: &ParseCounts,
    delta: &ParseDelta,
    reason: Option<FullReplayReason>,
) -> (r: ParserWork)
    ensures
        r == parse_work(*stats, *read, *counts, *delta, reason),
{
    let decoded: u64 = count_both(read.decoded, read.recovery_decoded);
    let payloads: u64 = count_keys(&delta.syntax_payloads);
    let parents: u64 = count_keys(&delta.parents);
    let splices: usize = delta.child_splices.len();
    let entries: u64 = count_keys(&delta.ast_records).saturating_add(payloads).saturating_add(
        parents,
    ).saturating_add(splices as u64).saturating_add(
        delta.roots.removed.len() as u64,
    ).saturating_add(delta.roots.inserted.len() as u64).saturating_add(
        count_keys(&delta.diagnostics),
    );
    assert(entries == counted(entry_count(*delta)));
    let mut work = ParserWork {
        restart_columns: stats.restart_boundary as u64,
        restart_boundary_lookups: 1,
        restart_lookup_depth: counts.rank as u64,
        restart_occurrences: count_once(counts.again),
        tokens_decoded: decoded,
        tokens_replayed: decoded,
        semantic_tokens_decoded: read.decoded as u64,
        source_boundaries_replayed: stats.reparsed as u64,
        recovery_boundaries_replayed: read.recovery_decoded as u64,
        recovery_segments_reused: counts.recovery.reused,
        recovery_segments_invalidated: counts.recovery.invalidated,
        recovery_interval_probes: counts.recovery.probes,
        recovery_witness_tokens: counts.recovery.witnesses,
        columns_replayed: stats.reparsed as u64,
        columns_reused: stats.reused as u64,
        segments_split: count_once(counts.run > 0),
        segments_attached: count_once(stats.reconverged_old_boundary.is_some()),
        suffix_columns_physically_visited: stats.suffix_rewritten as u64,
        convergence_candidates: stats.convergence_checks as u64,
        checkpoint_exact_comparisons: read.compared as u64,
        checkpoint_comparisons: read.compared as u64,
        checkpoint_matches: stats.checkpoint_matches as u64,
        frontier_matches: stats.frontier_matches as u64,
        gss_nodes_created: counts.nodes as u64,
        gss_records_created: counts.nodes as u64,
        gss_edges_created: counts.edges as u64,
        products_created: counts.products as u64,
        product_records_created: counts.products as u64,
        ast_records_created: counts.records as u64,
        parser_records_inserted: delta.ast_records.inserted.len() as u64,
        parser_records_removed: delta.ast_records.removed.len() as u64,
        parser_records_updated: delta.ast_records.updated.len() as u64,
        syntax_journal_entries: entries,
        syntax_payload_ops: payloads,
        syntax_parent_ops: parents,
        syntax_field_ops: splices as u64,
        syntax_order_splices: splices as u64,
        record_journal_touches: entries,
        ..ParserWork::default()
    };
    if let Some(reason) = reason {
        work.record_full_replay(reason);
    }
    work
}

/// The least rank that one of some tokens has.
pub open spec fn least_rank(v: TokensView, ids: Seq<TokenOccurrenceId>) -> Option<int>
    decreases ids.len(),
{
    if ids.len() == 0 {
        None
    } else {
        match (least_rank(v, ids.drop_last()), rank_in(v, ids.last())) {
            (Some(a), Some(b)) => Some(
                if b < a {
                    b
                } else {
                    a
                },
            ),
            (Some(a), None) => Some(a),
            (None, b) => b,
        }
    }
}

/// What is counted where tokens only changed what they say, so that the parse
/// stays.
pub open spec fn kept_work(new: TokensView, updated: Seq<TokenOccurrenceId>, columns: int) -> ParserWork {
    ParserWork {
        restart_columns: match least_rank(new, updated) {
            Some(rank) => rank as u64,
            None => 0,
        },
        columns_replayed: once(updated.len() > 0),
        columns_reused: if columns > 0 {
            (columns - 1) as u64
        } else {
            0
        },
        ..no_parser_work()
    }
}

/// What is counted where tokens only changed what they say.
pub fn count_kept(new: &ParserTokenDocument, patch: &TokenPatch, columns: usize) -> (r: ParserWork)
    requires
        new.wf(),
    ensures
        r == kept_work(new@, patch.updated@, columns as int),
{
    let ghost ids = patch.updated@;
    let mut least: Option<usize> = None;
    let mut at: usize = 0;
    assert(ids.take(0) =~= Seq::<TokenOccurrenceId>::empty());
    while at < patch.updated.len()
        invariant
            at <= ids.len(),
            ids == patch.updated@,
            new.wf(),
            least_rank(new@, ids.take(at as int)) == match least {
                Some(rank) => Some(rank as int),
                None => None::<int>,
            },
        decreases ids.len() - at,
    {
        let found = new.rank_of_occurrence(patch.updated[at]);
        proof {
            assert(ids.take(at + 1).drop_last() =~= ids.take(at as int));
            lemma_rank_in(*new, ids[at as int], found);
        }
        least = match (least, found) {
            (Some(a), Some(b)) => Some(
                if b < a {
                    b
                } else {
                    a
                },
            ),
            (Some(a), None) => Some(a),
            (None, b) => b,
        };
        at += 1;
    }
    assert(ids.take(at as int) =~= ids);
    ParserWork {
        restart_columns: match least {
            Some(rank) => rank as u64,
            None => 0,
        },
        columns_replayed: count_once(patch.updated.len() > 0),
        columns_reused: if columns > 0 {
            (columns - 1) as u64
        } else {
            0
        },
        ..ParserWork::default()
    }
}

} // verus!
