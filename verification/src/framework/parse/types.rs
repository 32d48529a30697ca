//! What the parser keeps of one document between commands.

use vstd::prelude::*;

use crate::framework::lex::lexed::{StableDocumentId, TokenOccurrenceId};
use crate::store::{Hashed, RadixMap};

verus! {

/// How the number of ways to reach a record changed in one command.
#[derive(Clone, Copy, Debug, PartialEq, Eq, Structural)]
pub struct RecordTransition {
    pub before_count: u32,
    pub after_count: u32,
}

/// What the accepted roots of the last command reach.
pub struct ParserTreeFacts {
    /// The live records.
    pub records: RadixMap<()>,
    pub root: Option<u64>,
    /// By product, how often the accepted roots mention it: once per root and
    /// once per edge from a reached product.
    pub product_reach_counts: RadixMap<u32>,
    /// By record, how many reached products stand for it.
    pub record_reach_counts: RadixMap<u32>,
    /// By live record, its lineage.
    pub record_lineages: RadixMap<u64>,
    /// By lineage, the lineages of the children in order.
    pub child_orders: RadixMap<Vec<u64>>,
}

impl ParserTreeFacts {
    pub open spec fn wf(self) -> bool {
        &&& self.records.wf()
        &&& self.product_reach_counts.wf()
        &&& self.record_reach_counts.wf()
        &&& self.record_lineages.wf()
        &&& self.child_orders.wf()
    }

    /// The facts of a document that was never parsed.
    pub fn new() -> (r: Self)
        ensures
            r.wf(),
            r.records@ == Map::<u64, ()>::empty(),
            r.root is None,
            r.product_reach_counts@ == Map::<u64, u32>::empty(),
            r.record_reach_counts@ == Map::<u64, u32>::empty(),
            r.record_lineages@ == Map::<u64, u64>::empty(),
            r.child_orders@ == Map::<u64, Vec<u64>>::empty(),
    {
        ParserTreeFacts {
            records: RadixMap::new(),
            root: None,
            product_reach_counts: RadixMap::new(),
            record_reach_counts: RadixMap::new(),
            record_lineages: RadixMap::new(),
            child_orders: RadixMap::new(),
        }
    }
}

/// How the parser is set up.
#[derive(Clone, Copy, Debug, PartialEq, Eq, Structural)]
pub struct ParserConfig {
    /// Where a parse gets stuck, look for a repair and go on.
    pub error_recovery: bool,
}

impl Default for ParserConfig {
    fn default() -> (r: Self)
        ensures
            r.error_recovery,
    {
        ParserConfig { error_recovery: true }
    }
}

/// Why a lookup in a snapshot found nothing.
#[derive(Clone, Copy, Debug, PartialEq, Eq, Structural)]
pub enum AstLookupError {
    WrongDocument,
    Deleted,
    TypeMismatch,
}

impl AstLookupError {
    /// The error in words.
    pub fn message(self) -> (r: &'static str)
        ensures
            r@ == match self {
                AstLookupError::WrongDocument => "AST box belongs to a different document"@,
                AstLookupError::Deleted => "AST node is not live in this snapshot"@,
                AstLookupError::TypeMismatch => "AST node has a different runtime type"@,
            },
    {
        match self {
            AstLookupError::WrongDocument => "AST box belongs to a different document",
            AstLookupError::Deleted => "AST node is not live in this snapshot",
            AstLookupError::TypeMismatch => "AST node has a different runtime type",
        }
    }
}

/// How a parse ended, for an editor.
#[derive(Clone, Copy, Debug, PartialEq, Eq, Structural)]
pub enum ParseStatus {
    Clean,
    Recovered { diagnostics: usize },
    Unrecoverable { diagnostics: usize },
}

/// Why a replay went on to the end of the input.
#[derive(Clone, Copy, Debug, PartialEq, Eq, Hash, PartialOrd, Ord, Structural)]
pub enum FullReplayReason {
    ExplicitColdParse,
    GrammarOrPolicyVersionChanged,
    NoRetainedRightBoundary,
    NoCleanRestartCheckpoint,
    RecoveryProofFailed,
    FrontierProofInconclusive,
    NoEqualFrontierBeforeEof,
}

/// The name of a reason.
pub open spec fn reason_name(reason: FullReplayReason) -> Seq<char> {
    match reason {
        FullReplayReason::ExplicitColdParse => "ExplicitColdParse"@,
        FullReplayReason::GrammarOrPolicyVersionChanged => "GrammarOrPolicyVersionChanged"@,
        FullReplayReason::NoRetainedRightBoundary => "NoRetainedRightBoundary"@,
        FullReplayReason::NoCleanRestartCheckpoint => "NoCleanRestartCheckpoint"@,
        FullReplayReason::RecoveryProofFailed => "RecoveryProofFailed"@,
        FullReplayReason::FrontierProofInconclusive => "FrontierProofInconclusive"@,
        FullReplayReason::NoEqualFrontierBeforeEof => "NoEqualFrontierBeforeEof"@,
    }
}

impl FullReplayReason {
    /// The name of the reason.
    pub fn as_str(self) -> (r: &'static str)
        ensures
            r@ == reason_name(self),
    {
        match self {
            FullReplayReason::ExplicitColdParse => "ExplicitColdParse",
            FullReplayReason::GrammarOrPolicyVersionChanged => "GrammarOrPolicyVersionChanged",
            FullReplayReason::NoRetainedRightBoundary => "NoRetainedRightBoundary",
            FullReplayReason::NoCleanRestartCheckpoint => "NoCleanRestartCheckpoint",
            FullReplayReason::RecoveryProofFailed => "RecoveryProofFailed",
            FullReplayReason::FrontierProofInconclusive => "FrontierProofInconclusive",
            FullReplayReason::NoEqualFrontierBeforeEof => "NoEqualFrontierBeforeEof",
        }
    }
}

/// Where a gap between tokens lies.
#[derive(Clone, Copy, Debug, PartialEq, Eq, Hash, PartialOrd, Ord, Structural)]
pub enum TokenBoundaryKind {
    Before(TokenOccurrenceId),
    Eof,
}

/// The gap before a token of a document, or the one at its end.
#[derive(Clone, Copy, Debug, PartialEq, Eq, Hash, PartialOrd, Ord, Structural)]
pub struct TokenBoundaryId {
    pub document: StableDocumentId,
    pub kind: TokenBoundaryKind,
}

impl TokenBoundaryId {
    /// The gap before a token.
    pub fn before(document: StableDocumentId, occurrence: TokenOccurrenceId) -> (r: Self)
        ensures
            r == (TokenBoundaryId { document, kind: TokenBoundaryKind::Before(occurrence) }),
    {
        TokenBoundaryId { document, kind: TokenBoundaryKind::Before(occurrence) }
    }

    /// The gap at the end.
    pub fn eof(document: StableDocumentId) -> (r: Self)
        ensures
            r == (TokenBoundaryId { document, kind: TokenBoundaryKind::Eof }),
    {
        TokenBoundaryId { document, kind: TokenBoundaryKind::Eof }
    }
}

/// A gap that a repair made.
#[derive(Clone, Copy, Debug, PartialEq, Eq, Hash, PartialOrd, Ord, Structural)]
pub struct RecoveryBoundaryId {
    pub left: Option<TokenOccurrenceId>,
    pub right: Option<TokenOccurrenceId>,
    pub witness_ordinal: u64,
}

/// The identity of a parser column. Gaps of the source and gaps that repairs
/// made are never the same.
#[derive(Clone, Copy, Debug, PartialEq, Eq, Hash, PartialOrd, Ord, Structural)]
pub enum ParserBoundaryId {
    Source(TokenBoundaryId),
    Recovery(RecoveryBoundaryId),
}

/// The bucket of a boundary: the token that follows it.
pub open spec fn boundary_bucket(boundary: ParserBoundaryId) -> u64 {
    match boundary {
        ParserBoundaryId::Source(found) => match found.kind {
            TokenBoundaryKind::Before(occurrence) => occurrence.0,
            TokenBoundaryKind::Eof => u64::MAX,
        },
        ParserBoundaryId::Recovery(found) => found.witness_ordinal,
    }
}

impl Hashed for ParserBoundaryId {
    type Image = ParserBoundaryId;

    open spec fn image(&self) -> ParserBoundaryId {
        *self
    }

    open spec fn bucket_of(image: ParserBoundaryId) -> u64 {
        boundary_bucket(image)
    }

    fn bucket(&self) -> (r: u64) {
        match self {
            ParserBoundaryId::Source(found) => match found.kind {
                TokenBoundaryKind::Before(occurrence) => occurrence.0,
                TokenBoundaryKind::Eof => u64::MAX,
            },
            ParserBoundaryId::Recovery(found) => found.witness_ordinal,
        }
    }

    fn same(&self, other: &Self) -> (r: bool) {
        *self == *other
    }
}

/// What was compared at the last gap that was looked at.
#[derive(Clone, Copy, Debug, PartialEq, Eq, Structural)]
pub struct BoundaryTrace {
    /// The token behind the gap of the replay.
    pub current_lookahead_occurrence: Option<u64>,
    /// The token of the replay's column.
    pub current_column_anchor: Option<u64>,
    /// The token of the old column.
    pub selected_old_occurrence: Option<u64>,
    pub selected_old_column_anchor: Option<u64>,
}

/// What one replay did.
#[derive(Clone, Copy, Debug, PartialEq, Eq, Structural)]
pub struct IncrementalParseStats {
    pub restart_boundary: usize,
    pub reconverged_new_boundary: Option<usize>,
    pub reconverged_old_boundary: Option<usize>,
    pub convergence_checks: usize,
    pub checkpoint_matches: usize,
    pub frontier_matches: usize,
    pub reparsed: usize,
    pub reused: usize,
    pub suffix_rewritten: usize,
    pub recovery_columns: usize,
    pub boundary_trace: Option<BoundaryTrace>,
}

/// What is counted before a command reads anything.
pub open spec fn nothing_counted() -> IncrementalParseStats {
    IncrementalParseStats {
        restart_boundary: 0,
        reconverged_new_boundary: None,
        reconverged_old_boundary: None,
        convergence_checks: 0,
        checkpoint_matches: 0,
        frontier_matches: 0,
        reparsed: 0,
        reused: 0,
        suffix_rewritten: 0,
        recovery_columns: 0,
        boundary_trace: None,
    }
}

impl Default for IncrementalParseStats {
    fn default() -> (r: Self)
        ensures
            r == nothing_counted(),
    {
        IncrementalParseStats {
            restart_boundary: 0,
            reconverged_new_boundary: None,
            reconverged_old_boundary: None,
            convergence_checks: 0,
            checkpoint_matches: 0,
            frontier_matches: 0,
            reparsed: 0,
            reused: 0,
            suffix_rewritten: 0,
            recovery_columns: 0,
            boundary_trace: None,
        }
    }
}

/// What the parser did for one document, counted.
#[derive(Clone, Copy, Debug, PartialEq, Eq, Structural)]
pub struct ParserWork {
    pub component_runs: u64,
    pub semantic_runs: u64,
    pub layout_projection_runs: u64,
    pub restart_occurrences: u64,
    pub restart_boundary_lookups: u64,
    pub restart_lookup_depth: u64,
    pub restart_columns: u64,
    pub semantic_tokens_decoded: u64,
    pub tokens_decoded: u64,
    pub tokens_replayed: u64,
    pub tokens_reused: u64,
    pub source_boundaries_replayed: u64,
    pub recovery_boundaries_replayed: u64,
    pub columns_replayed: u64,
    pub columns_reused: u64,
    pub suffix_columns_physically_visited: u64,
    pub convergence_candidates: u64,
    pub checkpoint_fingerprint_rejects: u64,
    pub checkpoint_exact_comparisons: u64,
    pub checkpoint_matches: u64,
    pub frontier_exact_comparisons: u64,
    pub frontier_matches: u64,
    pub checkpoint_comparisons: u64,
    pub frontier_comparisons: u64,
    pub frontier_proof_nodes_refined: u64,
    pub frontier_proof_edges_refined: u64,
    pub frontier_sccs: u64,
    pub frontier_inconclusive_symmetry: u64,
    pub segments_split: u64,
    pub segments_attached: u64,
    pub seam_bindings_created: u64,
    pub seam_bindings_flattened: u64,
    pub seam_binding_slots: u64,
    pub gss_nodes_created: u64,
    pub gss_nodes_reused: u64,
    pub gss_edges_created: u64,
    pub gss_edges_reused: u64,
    pub products_created: u64,
    pub products_reused: u64,
    pub ast_records_created: u64,
    pub ast_records_reused: u64,
    pub reachability_keys_read: u64,
    pub reachability_keys_written: u64,
    pub reachability_queue_pops: u64,
    pub lineage_candidates: u64,
    pub lineage_proofs: u64,
    pub lineage_transfers: u64,
    pub lineage_fresh_identities: u64,
    pub gss_records_created: u64,
    pub gss_records_reused: u64,
    pub product_records_created: u64,
    pub product_records_reused: u64,
    pub syntax_journal_entries: u64,
    pub syntax_payload_ops: u64,
    pub syntax_parent_ops: u64,
    pub syntax_field_ops: u64,
    pub syntax_order_splices: u64,
    pub record_journal_touches: u64,
    pub parser_records_inserted: u64,
    pub parser_records_updated: u64,
    pub parser_records_removed: u64,
    pub snapshot_entries_changed: u64,
    pub snapshot_entries_materialized: u64,
    pub synthesized_token_facts: u64,
    pub syntax_facts_patched: u64,
    pub tree_publisher_node_scans: u64,
    pub full_token_vector_clones: u64,
    pub full_store_scans: u64,
    pub full_maps_cloned: u64,
    pub full_rebuild_fallbacks: u64,
    pub eof_replays: u64,
    pub full_replay_reason_count: u64,
    pub recovery_searches: u64,
    pub recovery_segments_reused: u64,
    pub recovery_segments_invalidated: u64,
    pub recovery_columns: u64,
    pub recovery_configurations_expanded: u64,
    pub recovery_witness_tokens: u64,
    pub recovery_interval_probes: u64,
    pub rollback_marks_restored: u64,
    pub document_roots_allocated: u64,
    pub snapshot_roots_allocated: u64,
    /// The first reason that was recorded for a replay to the end.
    pub full_replay_reason: Option<FullReplayReason>,
}

/// Two counts can be added.
pub open spec fn adds_up(a: u64, b: u64) -> bool {
    a + b <= u64::MAX
}

/// Every count of both can be added.
pub open spec fn work_adds_up(a: ParserWork, b: ParserWork) -> bool {
    &&& adds_up(a.component_runs, b.component_runs)
    &&& adds_up(a.semantic_runs, b.semantic_runs)
    &&& adds_up(a.layout_projection_runs, b.layout_projection_runs)
    &&& adds_up(a.restart_occurrences, b.restart_occurrences)
    &&& adds_up(a.restart_boundary_lookups, b.restart_boundary_lookups)
    &&& adds_up(a.restart_lookup_depth, b.restart_lookup_depth)
    &&& adds_up(a.restart_columns, b.restart_columns)
    &&& adds_up(a.semantic_tokens_decoded, b.semantic_tokens_decoded)
    &&& adds_up(a.tokens_decoded, b.tokens_decoded)
    &&& adds_up(a.tokens_replayed, b.tokens_replayed)
    &&& adds_up(a.tokens_reused, b.tokens_reused)
    &&& adds_up(a.source_boundaries_replayed, b.source_boundaries_replayed)
    &&& adds_up(a.recovery_boundaries_replayed, b.recovery_boundaries_replayed)
    &&& adds_up(a.columns_replayed, b.columns_replayed)
    &&& adds_up(a.columns_reused, b.columns_reused)
    &&& adds_up(a.suffix_columns_physically_visited, b.suffix_columns_physically_visited)
    &&& adds_up(a.convergence_candidates, b.convergence_candidates)
    &&& adds_up(a.checkpoint_fingerprint_rejects, b.checkpoint_fingerprint_rejects)
    &&& adds_up(a.checkpoint_exact_comparisons, b.checkpoint_exact_comparisons)
    &&& adds_up(a.checkpoint_matches, b.checkpoint_matches)
    &&& adds_up(a.frontier_exact_comparisons, b.frontier_exact_comparisons)
    &&& adds_up(a.frontier_matches, b.frontier_matches)
    &&& adds_up(a.checkpoint_comparisons, b.checkpoint_comparisons)
    &&& adds_up(a.frontier_comparisons, b.frontier_comparisons)
    &&& adds_up(a.frontier_proof_nodes_refined, b.frontier_proof_nodes_refined)
    &&& adds_up(a.frontier_proof_edges_refined, b.frontier_proof_edges_refined)
    &&& adds_up(a.frontier_sccs, b.frontier_sccs)
    &&& adds_up(a.frontier_inconclusive_symmetry, b.frontier_inconclusive_symmetry)
    &&& adds_up(a.segments_split, b.segments_split)
    &&& adds_up(a.segments_attached, b.segments_attached)
    &&& adds_up(a.seam_bindings_created, b.seam_bindings_created)
    &&& adds_up(a.seam_bindings_flattened, b.seam_bindings_flattened)
    &&& adds_up(a.seam_binding_slots, b.seam_binding_slots)
    &&& adds_up(a.gss_nodes_created, b.gss_nodes_created)
    &&& adds_up(a.gss_nodes_reused, b.gss_nodes_reused)
    &&& adds_up(a.gss_edges_created, b.gss_edges_created)
    &&& adds_up(a.gss_edges_reused, b.gss_edges_reused)
    &&& adds_up(a.products_created, b.products_created)
    &&& adds_up(a.products_reused, b.products_reused)
    &&& adds_up(a.ast_records_created, b.ast_records_created)
    &&& adds_up(a.ast_records_reused, b.ast_records_reused)
    &&& adds_up(a.reachability_keys_read, b.reachability_keys_read)
    &&& adds_up(a.reachability_keys_written, b.reachability_keys_written)
    &&& adds_up(a.reachability_queue_pops, b.reachability_queue_pops)
    &&& adds_up(a.lineage_candidates, b.lineage_candidates)
    &&& adds_up(a.lineage_proofs, b.lineage_proofs)
    &&& adds_up(a.lineage_transfers, b.lineage_transfers)
    &&& adds_up(a.lineage_fresh_identities, b.lineage_fresh_identities)
    &&& adds_up(a.gss_records_created, b.gss_records_created)
    &&& adds_up(a.gss_records_reused, b.gss_records_reused)
    &&& adds_up(a.product_records_created, b.product_records_created)
    &&& adds_up(a.product_records_reused, b.product_records_reused)
    &&& adds_up(a.syntax_journal_entries, b.syntax_journal_entries)
    &&& adds_up(a.syntax_payload_ops, b.syntax_payload_ops)
    &&& adds_up(a.syntax_parent_ops, b.syntax_parent_ops)
    &&& adds_up(a.syntax_field_ops, b.syntax_field_ops)
    &&& adds_up(a.syntax_order_splices, b.syntax_order_splices)
    &&& adds_up(a.record_journal_touches, b.record_journal_touches)
    &&& adds_up(a.parser_records_inserted, b.parser_records_inserted)
    &&& adds_up(a.parser_records_updated, b.parser_records_updated)
    &&& adds_up(a.parser_records_removed, b.parser_records_removed)
    &&& adds_up(a.snapshot_entries_changed, b.snapshot_entries_changed)
    &&& adds_up(a.snapshot_entries_materialized, b.snapshot_entries_materialized)
    &&& adds_up(a.synthesized_token_facts, b.synthesized_token_facts)
    &&& adds_up(a.syntax_facts_patched, b.syntax_facts_patched)
    &&& adds_up(a.tree_publisher_node_scans, b.tree_publisher_node_scans)
    &&& adds_up(a.full_token_vector_clones, b.full_token_vector_clones)
    &&& adds_up(a.full_store_scans, b.full_store_scans)
    &&& adds_up(a.full_maps_cloned, b.full_maps_cloned)
    &&& adds_up(a.full_rebuild_fallbacks, b.full_rebuild_fallbacks)
    &&& adds_up(a.eof_replays, b.eof_replays)
    &&& adds_up(a.full_replay_reason_count, b.full_replay_reason_count)
    &&& adds_up(a.recovery_searches, b.recovery_searches)
    &&& adds_up(a.recovery_segments_reused, b.recovery_segments_reused)
    &&& adds_up(a.recovery_segments_invalidated, b.recovery_segments_invalidated)
    &&& adds_up(a.recovery_columns, b.recovery_columns)
    &&& adds_up(a.recovery_configurations_expanded, b.recovery_configurations_expanded)
    &&& adds_up(a.recovery_witness_tokens, b.recovery_witness_tokens)
    &&& adds_up(a.recovery_interval_probes, b.recovery_interval_probes)
    &&& adds_up(a.rollback_marks_restored, b.rollback_marks_restored)
    &&& adds_up(a.document_roots_allocated, b.document_roots_allocated)
    &&& adds_up(a.snapshot_roots_allocated, b.snapshot_roots_allocated)
}

/// Two lists of counts added; the first reason that is known stays.
pub open spec fn merged_work(a: ParserWork, b: ParserWork) -> ParserWork {
    ParserWork {
        component_runs: (a.component_runs + b.component_runs) as u64,
        semantic_runs: (a.semantic_runs + b.semantic_runs) as u64,
        layout_projection_runs: (a.layout_projection_runs + b.layout_projection_runs) as u64,
        restart_occurrences: (a.restart_occurrences + b.restart_occurrences) as u64,
        restart_boundary_lookups: (a.restart_boundary_lookups + b.restart_boundary_lookups) as u64,
        restart_lookup_depth: (a.restart_lookup_depth + b.restart_lookup_depth) as u64,
        restart_columns: (a.restart_columns + b.restart_columns) as u64,
        semantic_tokens_decoded: (a.semantic_tokens_decoded + b.semantic_tokens_decoded) as u64,
        tokens_decoded: (a.tokens_decoded + b.tokens_decoded) as u64,
        tokens_replayed: (a.tokens_replayed + b.tokens_replayed) as u64,
        tokens_reused: (a.tokens_reused + b.tokens_reused) as u64,
        source_boundaries_replayed: (a.source_boundaries_replayed + b.source_boundaries_replayed) as u64,
        recovery_boundaries_replayed: (a.recovery_boundaries_replayed + b.recovery_boundaries_replayed) as u64,
        columns_replayed: (a.columns_replayed + b.columns_replayed) as u64,
        columns_reused: (a.columns_reused + b.columns_reused) as u64,
        suffix_columns_physically_visited: (a.suffix_columns_physically_visited + b.suffix_columns_physically_visited) as u64,
        convergence_candidates: (a.convergence_candidates + b.convergence_candidates) as u64,
        checkpoint_fingerprint_rejects: (a.checkpoint_fingerprint_rejects + b.checkpoint_fingerprint_rejects) as u64,
        checkpoint_exact_comparisons: (a.checkpoint_exact_comparisons + b.checkpoint_exact_comparisons) as u64,
        checkpoint_matches: (a.checkpoint_matches + b.checkpoint_matches) as u64,
        frontier_exact_comparisons: (a.frontier_exact_comparisons + b.frontier_exact_comparisons) as u64,
        frontier_matches: (a.frontier_matches + b.frontier_matches) as u64,
        checkpoint_comparisons: (a.checkpoint_comparisons + b.checkpoint_comparisons) as u64,
        frontier_comparisons: (a.frontier_comparisons + b.frontier_comparisons) as u64,
        frontier_proof_nodes_refined: (a.frontier_proof_nodes_refined + b.frontier_proof_nodes_refined) as u64,
        frontier_proof_edges_refined: (a.frontier_proof_edges_refined + b.frontier_proof_edges_refined) as u64,
        frontier_sccs: (a.frontier_sccs + b.frontier_sccs) as u64,
        frontier_inconclusive_symmetry: (a.frontier_inconclusive_symmetry + b.frontier_inconclusive_symmetry) as u64,
        segments_split: (a.segments_split + b.segments_split) as u64,
        segments_attached: (a.segments_attached + b.segments_attached) as u64,
        seam_bindings_created: (a.seam_bindings_created + b.seam_bindings_created) as u64,
        seam_bindings_flattened: (a.seam_bindings_flattened + b.seam_bindings_flattened) as u64,
        seam_binding_slots: (a.seam_binding_slots + b.seam_binding_slots) as u64,
        gss_nodes_created: (a.gss_nodes_created + b.gss_nodes_created) as u64,
        gss_nodes_reused: (a.gss_nodes_reused + b.gss_nodes_reused) as u64,
        gss_edges_created: (a.gss_edges_created + b.gss_edges_created) as u64,
        gss_edges_reused: (a.gss_edges_reused + b.gss_edges_reused) as u64,
        products_created: (a.products_created + b.products_created) as u64,
        products_reused: (a.products_reused + b.products_reused) as u64,
        ast_records_created: (a.ast_records_created + b.ast_records_created) as u64,
        ast_records_reused: (a.ast_records_reused + b.ast_records_reused) as u64,
        reachability_keys_read: (a.reachability_keys_read + b.reachability_keys_read) as u64,
        reachability_keys_written: (a.reachability_keys_written + b.reachability_keys_written) as u64,
        reachability_queue_pops: (a.reachability_queue_pops + b.reachability_queue_pops) as u64,
        lineage_candidates: (a.lineage_candidates + b.lineage_candidates) as u64,
        lineage_proofs: (a.lineage_proofs + b.lineage_proofs) as u64,
        lineage_transfers: (a.lineage_transfers + b.lineage_transfers) as u64,
        lineage_fresh_identities: (a.lineage_fresh_identities + b.lineage_fresh_identities) as u64,
        gss_records_created: (a.gss_records_created + b.gss_records_created) as u64,
        gss_records_reused: (a.gss_records_reused + b.gss_records_reused) as u64,
        product_records_created: (a.product_records_created + b.product_records_created) as u64,
        product_records_reused: (a.product_records_reused + b.product_records_reused) as u64,
        syntax_journal_entries: (a.syntax_journal_entries + b.syntax_journal_entries) as u64,
        syntax_payload_ops: (a.syntax_payload_ops + b.syntax_payload_ops) as u64,
        syntax_parent_ops: (a.syntax_parent_ops + b.syntax_parent_ops) as u64,
        syntax_field_ops: (a.syntax_field_ops + b.syntax_field_ops) as u64,
        syntax_order_splices: (a.syntax_order_splices + b.syntax_order_splices) as u64,
        record_journal_touches: (a.record_journal_touches + b.record_journal_touches) as u64,
        parser_records_inserted: (a.parser_records_inserted + b.parser_records_inserted) as u64,
        parser_records_updated: (a.parser_records_updated + b.parser_records_updated) as u64,
        parser_records_removed: (a.parser_records_removed + b.parser_records_removed) as u64,
        snapshot_entries_changed: (a.snapshot_entries_changed + b.snapshot_entries_changed) as u64,
        snapshot_entries_materialized: (a.snapshot_entries_materialized + b.snapshot_entries_materialized) as u64,
        synthesized_token_facts: (a.synthesized_token_facts + b.synthesized_token_facts) as u64,
        syntax_facts_patched: (a.syntax_facts_patched + b.syntax_facts_patched) as u64,
        tree_publisher_node_scans: (a.tree_publisher_node_scans + b.tree_publisher_node_scans) as u64,
        full_token_vector_clones: (a.full_token_vector_clones + b.full_token_vector_clones) as u64,
        full_store_scans: (a.full_store_scans + b.full_store_scans) as u64,
        full_maps_cloned: (a.full_maps_cloned + b.full_maps_cloned) as u64,
        full_rebuild_fallbacks: (a.full_rebuild_fallbacks + b.full_rebuild_fallbacks) as u64,
        eof_replays: (a.eof_replays + b.eof_replays) as u64,
        full_replay_reason_count: (a.full_replay_reason_count + b.full_replay_reason_count) as u64,
        recovery_searches: (a.recovery_searches + b.recovery_searches) as u64,
        recovery_segments_reused: (a.recovery_segments_reused + b.recovery_segments_reused) as u64,
        recovery_segments_invalidated: (a.recovery_segments_invalidated + b.recovery_segments_invalidated) as u64,
        recovery_columns: (a.recovery_columns + b.recovery_columns) as u64,
        recovery_configurations_expanded: (a.recovery_configurations_expanded + b.recovery_configurations_expanded) as u64,
        recovery_witness_tokens: (a.recovery_witness_tokens + b.recovery_witness_tokens) as u64,
        recovery_interval_probes: (a.recovery_interval_probes + b.recovery_interval_probes) as u64,
        rollback_marks_restored: (a.rollback_marks_restored + b.rollback_marks_restored) as u64,
        document_roots_allocated: (a.document_roots_allocated + b.document_roots_allocated) as u64,
        snapshot_roots_allocated: (a.snapshot_roots_allocated + b.snapshot_roots_allocated) as u64,
        full_replay_reason: if a.full_replay_reason is None {
            b.full_replay_reason
        } else {
            a.full_replay_reason
        },
    }
}

/// No work at all.
pub open spec fn no_parser_work() -> ParserWork {
    ParserWork {
        component_runs: 0,
        semantic_runs: 0,
        layout_projection_runs: 0,
        restart_occurrences: 0,
        restart_boundary_lookups: 0,
        restart_lookup_depth: 0,
        restart_columns: 0,
        semantic_tokens_decoded: 0,
        tokens_decoded: 0,
        tokens_replayed: 0,
        tokens_reused: 0,
        source_boundaries_replayed: 0,
        recovery_boundaries_replayed: 0,
        columns_replayed: 0,
        columns_reused: 0,
        suffix_columns_physically_visited: 0,
        convergence_candidates: 0,
        checkpoint_fingerprint_rejects: 0,
        checkpoint_exact_comparisons: 0,
        checkpoint_matches: 0,
        frontier_exact_comparisons: 0,
        frontier_matches: 0,
        checkpoint_comparisons: 0,
        frontier_comparisons: 0,
        frontier_proof_nodes_refined: 0,
        frontier_proof_edges_refined: 0,
        frontier_sccs: 0,
        frontier_inconclusive_symmetry: 0,
        segments_split: 0,
        segments_attached: 0,
        seam_bindings_created: 0,
        seam_bindings_flattened: 0,
        seam_binding_slots: 0,
        gss_nodes_created: 0,
        gss_nodes_reused: 0,
        gss_edges_created: 0,
        gss_edges_reused: 0,
        products_created: 0,
        products_reused: 0,
        ast_records_created: 0,
        ast_records_reused: 0,
        reachability_keys_read: 0,
        reachability_keys_written: 0,
        reachability_queue_pops: 0,
        lineage_candidates: 0,
        lineage_proofs: 0,
        lineage_transfers: 0,
        lineage_fresh_identities: 0,
        gss_records_created: 0,
        gss_records_reused: 0,
        product_records_created: 0,
        product_records_reused: 0,
        syntax_journal_entries: 0,
        syntax_payload_ops: 0,
        syntax_parent_ops: 0,
        syntax_field_ops: 0,
        syntax_order_splices: 0,
        record_journal_touches: 0,
        parser_records_inserted: 0,
        parser_records_updated: 0,
        parser_records_removed: 0,
        snapshot_entries_changed: 0,
        snapshot_entries_materialized: 0,
        synthesized_token_facts: 0,
        syntax_facts_patched: 0,
        tree_publisher_node_scans: 0,
        full_token_vector_clones: 0,
        full_store_scans: 0,
        full_maps_cloned: 0,
        full_rebuild_fallbacks: 0,
        eof_replays: 0,
        full_replay_reason_count: 0,
        recovery_searches: 0,
        recovery_segments_reused: 0,
        recovery_segments_invalidated: 0,
        recovery_columns: 0,
        recovery_configurations_expanded: 0,
        recovery_witness_tokens: 0,
        recovery_interval_probes: 0,
        rollback_marks_restored: 0,
        document_roots_allocated: 0,
        snapshot_roots_allocated: 0,
        full_replay_reason: None,
    }
}

impl Default for ParserWork {
    fn default() -> (r: Self)
        ensures
            r == no_parser_work(),
    {
        ParserWork {
            component_runs: 0,
            semantic_runs: 0,
            layout_projection_runs: 0,
            restart_occurrences: 0,
            restart_boundary_lookups: 0,
            restart_lookup_depth: 0,
            restart_columns: 0,
            semantic_tokens_decoded: 0,
            tokens_decoded: 0,
            tokens_replayed: 0,
            tokens_reused: 0,
            source_boundaries_replayed: 0,
            recovery_boundaries_replayed: 0,
            columns_replayed: 0,
            columns_reused: 0,
            suffix_columns_physically_visited: 0,
            convergence_candidates: 0,
            checkpoint_fingerprint_rejects: 0,
            checkpoint_exact_comparisons: 0,
            checkpoint_matches: 0,
            frontier_exact_comparisons: 0,
            frontier_matches: 0,
            checkpoint_comparisons: 0,
            frontier_comparisons: 0,
            frontier_proof_nodes_refined: 0,
            frontier_proof_edges_refined: 0,
            frontier_sccs: 0,
            frontier_inconclusive_symmetry: 0,
            segments_split: 0,
            segments_attached: 0,
            seam_bindings_created: 0,
            seam_bindings_flattened: 0,
            seam_binding_slots: 0,
            gss_nodes_created: 0,
            gss_nodes_reused: 0,
            gss_edges_created: 0,
            gss_edges_reused: 0,
            products_created: 0,
            products_reused: 0,
            ast_records_created: 0,
            ast_records_reused: 0,
            reachability_keys_read: 0,
            reachability_keys_written: 0,
            reachability_queue_pops: 0,
            lineage_candidates: 0,
            lineage_proofs: 0,
            lineage_transfers: 0,
            lineage_fresh_identities: 0,
            gss_records_created: 0,
            gss_records_reused: 0,
            product_records_created: 0,
            product_records_reused: 0,
            syntax_journal_entries: 0,
            syntax_payload_ops: 0,
            syntax_parent_ops: 0,
            syntax_field_ops: 0,
            syntax_order_splices: 0,
            record_journal_touches: 0,
            parser_records_inserted: 0,
            parser_records_updated: 0,
            parser_records_removed: 0,
            snapshot_entries_changed: 0,
            snapshot_entries_materialized: 0,
            synthesized_token_facts: 0,
            syntax_facts_patched: 0,
            tree_publisher_node_scans: 0,
            full_token_vector_clones: 0,
            full_store_scans: 0,
            full_maps_cloned: 0,
            full_rebuild_fallbacks: 0,
            eof_replays: 0,
            full_replay_reason_count: 0,
            recovery_searches: 0,
            recovery_segments_reused: 0,
            recovery_segments_invalidated: 0,
            recovery_columns: 0,
            recovery_configurations_expanded: 0,
            recovery_witness_tokens: 0,
            recovery_interval_probes: 0,
            rollback_marks_restored: 0,
            document_roots_allocated: 0,
            snapshot_roots_allocated: 0,
            full_replay_reason: None,
        }
    }
}

/// All runs are those of the parser proper and those that only follow the layout.
pub open spec fn runs_add_up(work: ParserWork) -> bool {
    work.component_runs == work.semantic_runs + work.layout_projection_runs
}

/// Where the runs of two counts add up, those of both together do.
pub proof fn lemma_merged_runs_add_up(a: ParserWork, b: ParserWork)
    requires
        runs_add_up(a),
        runs_add_up(b),
        work_adds_up(a, b),
    ensures
        runs_add_up(merged_work(a, b)),
{
}

/// Counts with one replay to the end more. Only the first reason is kept.
pub open spec fn with_full_replay(work: ParserWork, reason: FullReplayReason) -> ParserWork {
    ParserWork {
        eof_replays: (work.eof_replays + 1) as u64,
        full_replay_reason: if work.full_replay_reason is None {
            Some(reason)
        } else {
            work.full_replay_reason
        },
        full_replay_reason_count: if work.full_replay_reason is None {
            (work.full_replay_reason_count + 1) as u64
        } else {
            work.full_replay_reason_count
        },
        ..work
    }
}

/// Counts with replays to the end, one after the other.
pub open spec fn with_full_replays(work: ParserWork, reasons: Seq<FullReplayReason>) -> ParserWork
    decreases reasons.len(),
{
    if reasons.len() == 0 {
        work
    } else {
        with_full_replay(with_full_replays(work, reasons.drop_last()), reasons.last())
    }
}

/// However many replays of a command go on to the end, each is counted and one
/// reason is kept, the first one; no other count changes.
pub proof fn lemma_first_reason_is_kept(work: ParserWork, reasons: Seq<FullReplayReason>)
    requires
        work.full_replay_reason is None,
        reasons.len() > 0,
        work.eof_replays + reasons.len() <= u64::MAX,
        work.full_replay_reason_count < u64::MAX,
    ensures
        with_full_replays(work, reasons) == (ParserWork {
            eof_replays: (work.eof_replays + reasons.len()) as u64,
            full_replay_reason: Some(reasons[0]),
            full_replay_reason_count: (work.full_replay_reason_count + 1) as u64,
            ..work
        }),
    decreases reasons.len(),
{
    let rest = reasons.drop_last();
    if rest.len() > 0 {
        lemma_first_reason_is_kept(work, rest);
    } else {
        assert(with_full_replays(work, rest) == work);
    }
}

impl ParserWork {
    /// Counts a replay that went on to the end. Only the first reason of a
    /// command is kept.
    pub fn record_full_replay(&mut self, reason: FullReplayReason)
        requires
            old(self).eof_replays < u64::MAX,
            old(self).full_replay_reason is None ==> old(self).full_replay_reason_count < u64::MAX,
        ensures
            *final(self) == with_full_replay(*old(self), reason),
    {
        self.eof_replays += 1;
        if self.full_replay_reason.is_none() {
            self.full_replay_reason = Some(reason);
            self.full_replay_reason_count += 1;
        }
    }

    /// Adds other counts to these.
    pub fn merge(&mut self, other: &Self)
        requires
            work_adds_up(*old(self), *other),
        ensures
            *final(self) == merged_work(*old(self), *other),
    {
        self.component_runs += other.component_runs;
        self.semantic_runs += other.semantic_runs;
        self.layout_projection_runs += other.layout_projection_runs;
        self.restart_occurrences += other.restart_occurrences;
        self.restart_boundary_lookups += other.restart_boundary_lookups;
        self.restart_lookup_depth += other.restart_lookup_depth;
        self.restart_columns += other.restart_columns;
        self.semantic_tokens_decoded += other.semantic_tokens_decoded;
        self.tokens_decoded += other.tokens_decoded;
        self.tokens_replayed += other.tokens_replayed;
        self.tokens_reused += other.tokens_reused;
        self.source_boundaries_replayed += other.source_boundaries_replayed;
        self.recovery_boundaries_replayed += other.recovery_boundaries_replayed;
        self.columns_replayed += other.columns_replayed;
        self.columns_reused += other.columns_reused;
        self.suffix_columns_physically_visited += other.suffix_columns_physically_visited;
        self.convergence_candidates += other.convergence_candidates;
        self.checkpoint_fingerprint_rejects += other.checkpoint_fingerprint_rejects;
        self.checkpoint_exact_comparisons += other.checkpoint_exact_comparisons;
        self.checkpoint_matches += other.checkpoint_matches;
        self.frontier_exact_comparisons += other.frontier_exact_comparisons;
        self.frontier_matches += other.frontier_matches;
        self.checkpoint_comparisons += other.checkpoint_comparisons;
        self.frontier_comparisons += other.frontier_comparisons;
        self.frontier_proof_nodes_refined += other.frontier_proof_nodes_refined;
        self.frontier_proof_edges_refined += other.frontier_proof_edges_refined;
        self.frontier_sccs += other.frontier_sccs;
        self.frontier_inconclusive_symmetry += other.frontier_inconclusive_symmetry;
        self.segments_split += other.segments_split;
        self.segments_attached += other.segments_attached;
        self.seam_bindings_created += other.seam_bindings_created;
        self.seam_bindings_flattened += other.seam_bindings_flattened;
        self.seam_binding_slots += other.seam_binding_slots;
        self.gss_nodes_created += other.gss_nodes_created;
        self.gss_nodes_reused += other.gss_nodes_reused;
        self.gss_edges_created += other.gss_edges_created;
        self.gss_edges_reused += other.gss_edges_reused;
        self.products_created += other.products_created;
        self.products_reused += other.products_reused;
        self.ast_records_created += other.ast_records_created;
        self.ast_records_reused += other.ast_records_reused;
        self.reachability_keys_read += other.reachability_keys_read;
        self.reachability_keys_written += other.reachability_keys_written;
        self.reachability_queue_pops += other.reachability_queue_pops;
        self.lineage_candidates += other.lineage_candidates;
        self.lineage_proofs += other.lineage_proofs;
        self.lineage_transfers += other.lineage_transfers;
        self.lineage_fresh_identities += other.lineage_fresh_identities;
        self.gss_records_created += other.gss_records_created;
        self.gss_records_reused += other.gss_records_reused;
        self.product_records_created += other.product_records_created;
        self.product_records_reused += other.product_records_reused;
        self.syntax_journal_entries += other.syntax_journal_entries;
        self.syntax_payload_ops += other.syntax_payload_ops;
        self.syntax_parent_ops += other.syntax_parent_ops;
        self.syntax_field_ops += other.syntax_field_ops;
        self.syntax_order_splices += other.syntax_order_splices;
        self.record_journal_touches += other.record_journal_touches;
        self.parser_records_inserted += other.parser_records_inserted;
        self.parser_records_updated += other.parser_records_updated;
        self.parser_records_removed += other.parser_records_removed;
        self.snapshot_entries_changed += other.snapshot_entries_changed;
        self.snapshot_entries_materialized += other.snapshot_entries_materialized;
        self.synthesized_token_facts += other.synthesized_token_facts;
        self.syntax_facts_patched += other.syntax_facts_patched;
        self.tree_publisher_node_scans += other.tree_publisher_node_scans;
        self.full_token_vector_clones += other.full_token_vector_clones;
        self.full_store_scans += other.full_store_scans;
        self.full_maps_cloned += other.full_maps_cloned;
        self.full_rebuild_fallbacks += other.full_rebuild_fallbacks;
        self.eof_replays += other.eof_replays;
        self.full_replay_reason_count += other.full_replay_reason_count;
        self.recovery_searches += other.recovery_searches;
        self.recovery_segments_reused += other.recovery_segments_reused;
        self.recovery_segments_invalidated += other.recovery_segments_invalidated;
        self.recovery_columns += other.recovery_columns;
        self.recovery_configurations_expanded += other.recovery_configurations_expanded;
        self.recovery_witness_tokens += other.recovery_witness_tokens;
        self.recovery_interval_probes += other.recovery_interval_probes;
        self.rollback_marks_restored += other.rollback_marks_restored;
        self.document_roots_allocated += other.document_roots_allocated;
        self.snapshot_roots_allocated += other.snapshot_roots_allocated;
        if self.full_replay_reason.is_none() {
            self.full_replay_reason = other.full_replay_reason;
        }
    }
}

} // verus!
