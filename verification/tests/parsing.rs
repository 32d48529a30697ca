//! Parse tables, parsing, and parsing again after a change of tokens.

use std::sync::Arc;

use plingo::framework::lex::lexed::{
    LayoutRevisionId, StableDocumentId, TapeSplice, TokenOccurrenceId, TokenPatch,
    TokenStructureRevisionId,
};
use plingo::framework::parse::component::{
    document_unit, latest_parse_diagnostics, parse_status, DeltaPublication,
    PublishedChildOrder, SyntaxFamily,
};
use plingo::framework::parse::data::ast::{AnchoredSpan, AstArena, AstBox};
use plingo::framework::parse::data::green::{ErrorKind, GreenTree, ParseErrorInfo, TreeArena};
use plingo::framework::parse::data::product::{ProductArena, ProductId};
use plingo::framework::parse::delta::{
    common_edges, ordered_splice, KeyDelta, ParseDelta, ParsedStatus, SyntaxNodeId,
};
use plingo::framework::parse::diagnostics::{diagnostic_delta, key_of_diagnostic, status_of};
use plingo::framework::parse::grammar::{rank_of_symbol, Grammar, Production, Symbol};
use plingo::framework::parse::identity::{eof_fingerprint, error_fingerprint, token_fingerprint};
use plingo::framework::parse::parsing::document::{derive_token_delta, ParserDocumentRoot};
use plingo::framework::parse::parsing::error::{BuildError, ParseError};
use plingo::framework::parse::parsing::freeze::DirectTree;
use plingo::framework::parse::parsing::lineage::LineageState;
use plingo::framework::parse::parsing::repairs::{RecoveryState, Repair};
use plingo::framework::parse::parsing::stack::{Language, SessionContext};
use plingo::framework::parse::snapshot::{commit_snapshot, layout_step, LayoutStep, NeverParsed};
use plingo::framework::parse::stages::{
    parser_document_tree, parser_document_with, parser_layout_snapshot, parser_run_work,
    ParserPublication,
    ParserStep, TreePublication, TreeStep,
};
use plingo::framework::parse::tables::{Action, ActionSet, Conflict, LR1Item, Parser};
use plingo::framework::parse::tokens::{
    ParserTokenCursor, ParserTokenDocument, ReplayPlan, TokenData, TokenTail,
};
use plingo::framework::parse::types::{
    AstLookupError, FullReplayReason, ParseStatus, ParserConfig, ParserWork, TokenBoundaryId,
};
use plingo::sort::{deduped, sorted, sorted_distinct};
use plingo::store::{GenerationVec, RadixMap};

const PLUS: u32 = 0;
const NUMBER: u32 = 1;
const EOF: u32 = 2;
const ERROR: u32 = 3;

/// The sums `E -> E + n | n` under a start production.
fn sums() -> Grammar {
    Grammar {
        productions: vec![
            Production { lhs: 0, rhs_start: 0, rhs_len: 1 },
            Production { lhs: 1, rhs_start: 1, rhs_len: 3 },
            Production { lhs: 1, rhs_start: 4, rhs_len: 1 },
        ],
        rhs_symbols: vec![
            Symbol::N(1),
            Symbol::N(1),
            Symbol::T(PLUS),
            Symbol::T(NUMBER),
            Symbol::T(NUMBER),
        ],
        terminals: 4,
        non_terminals: 3,
        eof: EOF,
        error_terminal: ERROR,
        error_non_terminal: 2,
        nullable: vec![false, false, false],
        first: vec![
            vec![false, true, false, false],
            vec![false, true, false, false],
            vec![false, false, false, false],
        ],
    }
}

/// The same sums, read either way: `E -> E + E | n`.
fn ambiguous_sums() -> Grammar {
    let mut grammar = sums();
    grammar.rhs_symbols[3] = Symbol::N(1);
    grammar
}

#[test]
fn the_tables_of_a_grammar_without_conflicts() {
    let parser = sums().build_lr1();
    assert_eq!(parser.conflicts.len(), 0);
    assert_eq!(parser.states[0].id, 0);
    let start = parser.action_set(0, NUMBER);
    assert_eq!(start.len(), 1);
    assert!(start.has_shift());
    let behind = match start.at(0) {
        Action::Shift(state) => state,
        _ => panic!("a number is shifted"),
    };
    assert_eq!(parser.action_set(behind, PLUS).at(0), Action::Reduce(2));
    assert_eq!(parser.action_set(behind, EOF).at(0), Action::Reduce(2));
    assert_eq!(parser.action_set(behind, NUMBER).len(), 0);
    let sum = parser.goto_state(0, 1).unwrap();
    assert_eq!(parser.action_set(sum, EOF).at(0), Action::Accept);
    assert!(parser.action_set(sum, PLUS).has_shift());
    assert_eq!(parser.goto_state(0, 2), None);
    assert_eq!(parser.shift_terminals_for_state(0), vec![NUMBER]);
}

#[test]
fn conflicts_are_listed() {
    let parser = ambiguous_sums().build_lr1();
    assert_eq!(parser.conflicts.len(), 1);
    assert!(matches!(
        parser.conflicts[0],
        Conflict::ShiftReduce { terminal: PLUS, reduce: 1, .. },
    ));
}

#[test]
fn items_and_closures() {
    let grammar = sums();
    let start = LR1Item { production: 0, dot: 0, lookahead: EOF };
    assert_eq!(grammar.symbol_after_dot(&start), Some(Symbol::N(1)));
    assert_eq!(grammar.suffix_after_dot(&start), vec![]);
    let moved = start.move_dot(1);
    assert_eq!(moved.dot, 1);
    assert_eq!(grammar.symbol_after_dot(&moved), None);
    // The start, and both productions of a sum before the end and before a plus.
    assert_eq!(grammar.closure(&vec![start]).len(), 5);
    let behind = grammar.goto(&grammar.closure(&vec![start]), Symbol::T(NUMBER));
    assert_eq!(behind.len(), 2);
    assert_eq!(grammar.production_lhs(1), 1);
    assert_eq!(grammar.production_rhs_len(1), 3);
    assert_eq!(grammar.terminal_count(), 4);
    assert_eq!(grammar.first_of_sequence(1, 0, EOF), vec![false, true, false, false]);
    assert_eq!(grammar.first_of_sequence(1, 3, EOF), vec![false, false, true, false]);
    assert_ne!(rank_of_symbol(Symbol::T(1)), rank_of_symbol(Symbol::N(1)));
}

#[test]
fn an_action_set_keeps_its_actions_in_order() {
    let mut set = ActionSet::new();
    assert_eq!(set.len(), 0);
    set.push(Action::Reduce(1));
    set.push(Action::Shift(4));
    set.push(Action::Accept);
    assert_eq!(set.len(), 3);
    assert_eq!(set.at(1), Action::Shift(4));
    assert!(set.has_shift());
}

/// Values are the productions that built them.
struct Sums {
    repairs: Option<Vec<Repair>>,
    refused: Option<u32>,
}

impl Language<u64> for Sums {
    fn build(
        &self,
        production: u32,
        _children: &Vec<ProductId>,
        _products: &ProductArena,
        _ast: &AstArena<u64>,
    ) -> Result<u64, BuildError> {
        if self.refused == Some(production) {
            return Err(BuildError::Mismatch { production });
        }
        Ok(production as u64)
    }

    fn find_recovery(
        &self,
        _context: &SessionContext<u64>,
        _column: usize,
        _document: &ParserTokenDocument,
        _rank: usize,
    ) -> Option<Vec<Repair>> {
        self.repairs.clone()
    }
}

fn plain() -> Sums {
    Sums { repairs: None, refused: None }
}

fn token(id: u64, symbol: char, start: usize) -> TokenData {
    TokenData {
        id: id as usize,
        terminal: Some(if symbol == '+' { PLUS } else { NUMBER }),
        start,
        length: 1,
        column: TokenOccurrenceId(id),
        fingerprint: symbol as u64,
    }
}

/// The tokens of a text, with the given identities.
fn tokens(text: &str, ids: &[u64], revision: u64) -> Arc<ParserTokenDocument> {
    let list: Vec<TokenData> = text
        .chars()
        .zip(ids.iter())
        .enumerate()
        .map(|(at, (symbol, id))| token(*id, symbol, at))
        .collect();
    Arc::new(
        ParserTokenDocument::new(
            StableDocumentId(9),
            text.len(),
            LayoutRevisionId(revision),
            list,
        )
        .unwrap(),
    )
}

fn ids(list: &[u64]) -> Vec<TokenOccurrenceId> {
    list.iter().map(|id| TokenOccurrenceId(*id)).collect()
}

fn patch(before: Option<u64>, removed: &[u64], inserted: &[u64], after: Option<u64>) -> TokenPatch {
    TokenPatch {
        old_structure: TokenStructureRevisionId(1),
        new_structure: TokenStructureRevisionId(2),
        order_splices: vec![TapeSplice {
            before: before.map(TokenOccurrenceId),
            removed: ids(removed),
            inserted: ids(inserted),
            after: after.map(TokenOccurrenceId),
        }],
        inserted: ids(inserted),
        updated: vec![],
        removed: ids(removed),
    }
}

fn parse(
    parser: &Parser,
    language: &Sums,
    previous: Option<ParserDocumentRoot<u64>>,
    change: &TokenPatch,
    new: Arc<ParserTokenDocument>,
) -> Result<ParserDocumentRoot<u64>, ParseError> {
    derive_token_delta(
        parser,
        language,
        &DirectTree,
        &ParserConfig::default(),
        previous,
        change,
        new,
    )
    .map(|found| found.root)
}

fn cold(parser: &Parser, text: &str) -> ParserDocumentRoot<u64> {
    let list: Vec<u64> = (1..=text.len() as u64).collect();
    let new = tokens(text, &list, 1);
    match parse(parser, &plain(), None, &patch(None, &[], &list, None), new) {
        Ok(root) => root,
        Err(_) => panic!("the text parses"),
    }
}

#[test]
fn a_sum_is_parsed_into_a_tree() {
    let parser = sums().build_lr1();
    let root = cold(&parser, "n+n");
    assert_eq!(root.roots.len(), 1);
    assert_eq!(root.published_status, Some(ParsedStatus::Clean));
    assert_eq!(root.published_diagnostics.len(), 0);
    // A number, a sum, and the start.
    assert_eq!(root.tree_facts.records.len(), 3);
    assert!(root.tree_facts.root.is_some());
    assert_eq!(root.tree_delta.ast_records.inserted.len(), 3);
    assert!(root.tree_delta.assert_valid());
    assert_eq!(root.semantic_revision, 1);
    let (unit, diagnostics) = document_unit(&root);
    assert_eq!(unit.status, ParseStatus::Clean);
    assert_eq!(unit.root, root.tree_facts.root);
    assert_eq!(diagnostics.len(), 0);
    assert!(unit.same(&unit));
    assert_eq!(latest_parse_diagnostics(&root).len(), 0);
}

#[test]
fn an_edit_is_parsed_like_the_text_from_scratch() {
    let parser = sums().build_lr1();
    let before = cold(&parser, "n+n");
    let new = tokens("n+n+n", &[1, 2, 3, 4, 5], 2);
    let after = parse(&parser, &plain(), Some(before), &patch(Some(3), &[], &[4, 5], None), new)
        .ok()
        .unwrap();
    let scratch = cold(&parser, "n+n+n");
    assert_eq!(after.published_status, scratch.published_status);
    assert_eq!(after.roots.len(), scratch.roots.len());
    assert_eq!(after.tree_facts.records.len(), scratch.tree_facts.records.len());
    assert!(after.tree_delta.assert_valid());
    assert_eq!(after.semantic_revision, 2);
}

#[test]
fn an_edit_at_the_front_keeps_the_parse_behind_it() {
    let parser = sums().build_lr1();
    let before = cold(&parser, "n+n+n+n+n");
    let new = tokens("n+n+n+n+n", &[10, 2, 3, 4, 5, 6, 7, 8, 9], 2);
    let after = parse(&parser, &plain(), Some(before), &patch(None, &[1], &[10], Some(2)), new)
        .ok()
        .unwrap();
    assert_eq!(after.published_status, Some(ParsedStatus::Clean));
    assert_eq!(after.roots.len(), 1);
    assert_eq!(after.tree_facts.records.len(), cold(&parser, "n+n+n+n+n").tree_facts.records.len());
}

#[test]
fn tokens_of_the_same_kinds_in_order_keep_the_parse() {
    let parser = sums().build_lr1();
    let before = cold(&parser, "n+n");
    let revision = before.semantic_revision;
    let change = TokenPatch::unchanged(TokenStructureRevisionId(1));
    let new = tokens("n+n", &[1, 2, 3], 2);
    let after = parse(&parser, &plain(), Some(before), &change, new).ok().unwrap();
    assert_eq!(after.semantic_revision, revision);
    assert_eq!(after.token.as_ref().unwrap().layout_revision(), LayoutRevisionId(1));
}

#[test]
fn a_token_that_does_not_fit_is_dropped() {
    let parser = sums().build_lr1();
    let root = cold(&parser, "n+nn");
    assert_eq!(root.roots.len(), 1);
    assert!(matches!(root.published_status, Some(ParsedStatus::Recovered { .. })));
    assert!(root.published_diagnostics.iter().any(|info| {
        info.kind == ErrorKind::UnexpectedToken && info.unexpected == Some(Symbol::T(NUMBER))
    }));
}

#[test]
fn a_repair_of_the_language_is_made() {
    let parser = sums().build_lr1();
    let language = Sums { repairs: Some(vec![Repair::Insert(PLUS)]), refused: None };
    let new = tokens("nn", &[1, 2], 1);
    let change = patch(None, &[], &[1, 2], None);
    let root = parse(&parser, &language, None, &change, new).ok().unwrap();
    assert_eq!(root.roots.len(), 1);
    assert!(root.published_diagnostics.iter().any(|info| {
        info.kind == ErrorKind::MissingToken && info.expected == Symbol::T(PLUS)
    }));
    // The repair is kept for a later command.
    assert_eq!(root.context.state.recovery.journal.len(), 1);
}

#[test]
fn without_recovery_the_language_is_not_asked() {
    let parser = sums().build_lr1();
    let language = Sums { repairs: Some(vec![Repair::Insert(PLUS)]), refused: None };
    let new = tokens("nn", &[1, 2], 1);
    let root = derive_token_delta(
        &parser,
        &language,
        &DirectTree,
        &ParserConfig { error_recovery: false },
        None,
        &patch(None, &[], &[1, 2], None),
        new,
    )
    .ok()
    .unwrap()
    .root;
    assert!(root.published_diagnostics.iter().all(|info| info.kind != ErrorKind::MissingToken));
    assert_eq!(root.context.state.recovery.journal.len(), 0);
}

#[test]
fn a_kept_repair_is_made_again() {
    let parser = sums().build_lr1();
    let language = Sums { repairs: Some(vec![Repair::Insert(PLUS)]), refused: None };
    let new = tokens("nn", &[1, 2], 1);
    let before = parse(&parser, &language, None, &patch(None, &[], &[1, 2], None), new)
        .ok()
        .unwrap();
    // The language knows nothing more, and yet the repair is there.
    let new = tokens("nn+n", &[1, 2, 3, 4], 2);
    let after = parse(&parser, &plain(), Some(before), &patch(Some(2), &[], &[3, 4], None), new)
        .ok()
        .unwrap();
    assert_eq!(after.roots.len(), 1);
    assert!(after.published_diagnostics.iter().any(|info| info.kind == ErrorKind::MissingToken));
}

#[test]
fn a_repair_is_noted_with_what_it_looked_at() {
    let parser = sums().build_lr1();
    let language = Sums { repairs: Some(vec![Repair::Insert(PLUS)]), refused: None };
    let found = derive_token_delta(
        &parser,
        &language,
        &DirectTree,
        &ParserConfig::default(),
        None,
        &patch(None, &[], &[1, 2], None),
        tokens("nn", &[1, 2], 1),
    )
    .ok()
    .unwrap();
    let recovery = &found.root.context.state.recovery;
    assert_eq!(recovery.next_recovery_segment, 1);
    assert_eq!(recovery.document_serial, 9);
    assert!(recovery.synthetic_tokens.get(2).is_some());
    assert_eq!(recovery.witness_intervals.get(2), Some(&vec![1]));
    let entry = recovery.journal.get(1).unwrap();
    assert_eq!(entry.anchor, TokenOccurrenceId(2));
    assert_eq!(entry.repairs.len(), 1);
    // The repair looked at one token.
    assert_eq!(found.work.recovery_boundaries_replayed, 1);
    assert_eq!(found.work.tokens_decoded, found.work.semantic_tokens_decoded + 1);
    assert_eq!(found.work.recovery_interval_probes, 1);
    assert_eq!(found.work.recovery_witness_tokens, 1);
    assert_eq!(found.work.recovery_segments_reused, 0);
    assert_eq!(found.work.recovery_segments_invalidated, 0);
    // The repair is made again without asking the language.
    let again = derive_token_delta(
        &parser,
        &plain(),
        &DirectTree,
        &ParserConfig::default(),
        Some(found.root),
        &patch(Some(1), &[2], &[2, 3, 4], None),
        tokens("nn+n", &[1, 2, 3, 4], 2),
    )
    .ok()
    .unwrap();
    assert_eq!(again.work.recovery_segments_reused, 1);
    assert_eq!(again.work.recovery_interval_probes, 0);
    assert_eq!(again.root.context.state.recovery.next_recovery_segment, 1);
}

#[test]
fn a_repair_that_looked_at_a_token_that_went_is_forgotten() {
    let parser = sums().build_lr1();
    let steps = vec![Repair::Insert(PLUS), Repair::Shift, Repair::Shift, Repair::Shift];
    let language = Sums { repairs: Some(steps), refused: None };
    let list = [1u64, 2, 3, 4];
    let found = derive_token_delta(
        &parser,
        &language,
        &DirectTree,
        &ParserConfig::default(),
        None,
        &patch(None, &[], &list, None),
        tokens("nn+n", &list, 1),
    )
    .ok()
    .unwrap();
    assert_eq!(found.root.context.state.recovery.journal.len(), 1);
    // Three tokens were looked at, one of them by the step that made one up.
    assert_eq!(found.work.recovery_boundaries_replayed, 3);
    assert_eq!(found.work.recovery_witness_tokens, 1);
    let after = derive_token_delta(
        &parser,
        &plain(),
        &DirectTree,
        &ParserConfig::default(),
        Some(found.root),
        &patch(Some(1), &[2, 3, 4], &[2], None),
        tokens("nn", &[1, 2], 2),
    )
    .ok()
    .unwrap();
    assert_eq!(after.work.recovery_segments_invalidated, 1);
    assert_eq!(after.work.recovery_segments_reused, 0);
    assert_eq!(after.root.context.state.recovery.journal.len(), 0);
}

#[test]
fn a_repair_that_cannot_be_made_is_not_kept() {
    let parser = sums().build_lr1();
    // After a number that was made up no stack is left.
    let language = Sums { repairs: Some(vec![Repair::Insert(NUMBER)]), refused: None };
    let new = tokens("nn", &[1, 2], 1);
    let change = patch(None, &[], &[1, 2], None);
    let root = parse(&parser, &language, None, &change, new).ok().unwrap();
    let recovery = &root.context.state.recovery;
    assert_eq!(recovery.journal.len(), 0);
    assert_eq!(recovery.next_recovery_segment, 1);
    assert!(recovery.active_recovery_segment.is_none());
    assert_eq!(recovery.next_synthetic_ordinal, 0);
}

#[test]
fn the_old_run_is_taken_over_where_the_stacks_are_the_same() {
    let parser = sums().build_lr1();
    let before = cold(&parser, "n+n+n+n+n");
    let new = tokens("n+n+n+n+n", &[1, 2, 10, 4, 5, 6, 7, 8, 9], 2);
    let found = derive_token_delta(
        &parser,
        &plain(),
        &DirectTree,
        &ParserConfig::default(),
        Some(before),
        &patch(Some(2), &[3], &[10], Some(4)),
        new,
    )
    .ok()
    .unwrap();
    let stats = &found.root.incremental_stats;
    assert!(stats.convergence_checks > 0);
    assert!(stats.reconverged_old_boundary.is_some());
    assert!(stats.reused > 0);
    assert_eq!(found.work.segments_attached, 1);
    assert_eq!(found.work.convergence_candidates, stats.convergence_checks as u64);
    assert_eq!(found.work.full_replay_reason, None);
    assert!(found.work.checkpoint_comparisons > 0);
    assert_eq!(found.work.checkpoint_exact_comparisons, found.work.checkpoint_comparisons);
    // Fewer tokens are read than there are.
    assert!(found.work.semantic_tokens_decoded < 10);
}

#[test]
fn what_the_language_refuses_to_build_ends_the_parse() {
    let parser = sums().build_lr1();
    let language = Sums { repairs: None, refused: Some(1) };
    let new = tokens("n+n", &[1, 2, 3], 1);
    let result = parse(&parser, &language, None, &patch(None, &[], &[1, 2, 3], None), new);
    assert!(matches!(result, Err(ParseError::Build(BuildError::Mismatch { production: 1 }))));
}

#[test]
fn an_empty_text_does_not_parse_as_a_sum() {
    let parser = sums().build_lr1();
    let root = cold(&parser, "");
    assert_eq!(root.roots.len(), 0);
    assert_eq!(root.tree_facts.records.len(), 0);
    assert_eq!(root.tree_facts.root, None);
}

#[test]
fn an_ambiguous_sum_has_both_readings() {
    let parser = ambiguous_sums().build_lr1();
    let root = cold(&parser, "n+n+n");
    assert_eq!(root.published_status, Some(ParsedStatus::Clean));
    assert_eq!(root.roots.len(), 2);
}

#[test]
fn a_snapshot_needs_a_parse() {
    let parser = sums().build_lr1();
    let source = ropey::Rope::from_str("n+n");
    let document = tokens("n+n", &[1, 2, 3], 1);
    let mut next: u64 = 4;
    let nothing: Option<&ParserDocumentRoot<u64>> = None;
    assert!(matches!(
        commit_snapshot(nothing, &mut next, &source, &document),
        Err(NeverParsed),
    ));
    assert_eq!(next, 4);
    let root = cold(&parser, "n+n");
    let snapshot = commit_snapshot(Some(&root), &mut next, &source, &document).ok().unwrap();
    assert_eq!(snapshot.id, 4);
    assert_eq!(next, 5);
    let record = root.tree_facts.root.unwrap() as usize;
    let home = root.context.arenas.ast.document_id();
    let found = snapshot.resolve(AstBox::new(record, home)).ok().unwrap();
    assert_eq!(*found.arc(), 0);
    assert_eq!((found.span().start, found.span().end), (0, 3));
    assert!(matches!(
        snapshot.resolve(AstBox::new(record, home + 1)),
        Err(AstLookupError::WrongDocument),
    ));
    assert!(matches!(
        snapshot.resolve(AstBox::new(999, home)),
        Err(AstLookupError::Deleted),
    ));
    assert!(snapshot.get(AstBox::new(record, home)).is_some());
    assert_eq!(snapshot.live_record_ids().len(), 3);
    assert!(snapshot.same(&snapshot));
    assert!(!AstLookupError::Deleted.message().is_empty());
}

#[test]
fn a_layout_is_published_where_it_moved() {
    assert_eq!(layout_step(None, Some(LayoutRevisionId(1)), 0, 0), LayoutStep::Remove);
    assert_eq!(layout_step(Some(LayoutRevisionId(1)), None, 0, 0), LayoutStep::Keep);
    assert_eq!(
        layout_step(Some(LayoutRevisionId(2)), Some(LayoutRevisionId(1)), 4, 3),
        LayoutStep::Publish { columns_reused: 3, tokens_reused: 3 },
    );
    assert_eq!(
        layout_step(Some(LayoutRevisionId(1)), Some(LayoutRevisionId(1)), 4, 3),
        LayoutStep::Publish { columns_reused: 0, tokens_reused: 0 },
    );
}

#[test]
fn what_changed_is_published_by_identity() {
    let parser = sums().build_lr1();
    let root = cold(&parser, "n+n");
    let orders = RadixMap::new();
    let publication = DeltaPublication::new(
        &root.context.arenas.ast,
        &root.context.state.lineage,
        &root.tree_delta,
        root.tree_facts.root,
        None,
        &orders,
    );
    let record = root.tree_facts.root.unwrap();
    let lineage = publication.lineage_of(record).unwrap();
    assert_eq!(publication.bearer_of(lineage), Some(record));
}

#[test]
fn tokens_are_read_from_a_rank_on() {
    let grammar = sums();
    let document = tokens("n+n", &[5, 6, 7], 1);
    assert_eq!(document.rank_of_occurrence(TokenOccurrenceId(6)), Some(1));
    assert_eq!(
        document.boundary_at_rank(1),
        TokenBoundaryId::before(StableDocumentId(9), TokenOccurrenceId(6)),
    );
    assert_eq!(document.boundary_at_rank(3), TokenBoundaryId::eof(StableDocumentId(9)));
    let mut tail = TokenTail::new(&document, 1, &grammar);
    assert_eq!(tail.terminal(0), PLUS);
    assert_eq!(tail.terminal(1), NUMBER);
    assert_eq!(tail.terminal(9), EOF);
    assert_eq!(tail.get(0).unwrap().column, TokenOccurrenceId(6));
    let mut cursor = ParserTokenCursor::at(&document, 2);
    assert_eq!(cursor.rank(), 2);
    assert_eq!(cursor.current(&document).unwrap().column, TokenOccurrenceId(7));
    assert!(cursor.advance(&document));
    assert!(!cursor.advance(&document));
}

#[test]
fn one_identity_names_one_token() {
    let list = vec![token(1, 'n', 0), token(1, '+', 1)];
    assert!(ParserTokenDocument::new(StableDocumentId(1), 2, LayoutRevisionId(1), list).is_none());
}

#[test]
fn a_plan_restarts_before_the_change() {
    let old = tokens("n+n+n", &[1, 2, 3, 4, 5], 1);
    let new = tokens("n+n+n", &[1, 2, 9, 4, 5], 2);
    let plan = ReplayPlan::from_token_patch(
        Some(&*old),
        &*new,
        &patch(Some(2), &[3], &[9], Some(4)),
    );
    assert_eq!(plan.prefix_len, 2);
    assert_eq!(plan.old_extent, 6);
    assert_eq!(plan.new_extent, 6);
    assert!(plan.restart_boundary <= 2);
    assert!(plan.new_reuse_start >= 3);
    assert_eq!(plan.new_unit(2).unwrap().column, TokenOccurrenceId(9));
    assert_eq!(plan.old_unit(2).unwrap().column, TokenOccurrenceId(3));
}

fn note(kind: ErrorKind, location: usize) -> ParseErrorInfo {
    ParseErrorInfo {
        kind,
        node: 2,
        length: 1,
        unexpected: None,
        expected: Symbol::T(NUMBER),
        recovered: true,
        location: Some(location),
    }
}

#[test]
fn diagnostics_are_told_apart_by_what_they_say() {
    let a = note(ErrorKind::MissingToken, 1);
    let b = note(ErrorKind::UnexpectedToken, 1);
    assert_eq!(key_of_diagnostic(&a), key_of_diagnostic(&a));
    assert_ne!(key_of_diagnostic(&a), key_of_diagnostic(&b));
    let delta = diagnostic_delta(&[a], &[b]);
    assert_eq!(delta.inserted, vec![key_of_diagnostic(&b)]);
    assert_eq!(delta.removed, vec![key_of_diagnostic(&a)]);
    assert!(diagnostic_delta(&[a, b], &[b, a]).is_empty());
}

#[test]
fn a_status_counts_the_diagnostics() {
    let one = [note(ErrorKind::MissingToken, 1)];
    assert_eq!(status_of(&[], false), ParsedStatus::Clean);
    assert_eq!(status_of(&one, false), ParsedStatus::Recovered { segments: 1 });
    assert_eq!(status_of(&one, true), ParsedStatus::Unrecovered { regions: 1 });
    assert_eq!(parse_status(&vec![], false), ParseStatus::Clean);
    assert_eq!(parse_status(&one.to_vec(), false), ParseStatus::Recovered { diagnostics: 1 });
    assert_eq!(parse_status(&one.to_vec(), true), ParseStatus::Unrecoverable { diagnostics: 1 });
}

fn nodes(list: &[u64]) -> Vec<SyntaxNodeId> {
    list.iter().map(|id| SyntaxNodeId(*id)).collect()
}

#[test]
fn a_splice_rebuilds_the_list() {
    let old = nodes(&[1, 2, 3, 4]);
    let new = nodes(&[1, 5, 4]);
    assert_eq!(common_edges(&old, &new), (1, 1));
    let splice = ordered_splice(&old, &new);
    assert_eq!(splice.before, Some(SyntaxNodeId(1)));
    assert_eq!(splice.removed, nodes(&[2, 3]));
    assert_eq!(splice.inserted, nodes(&[5]));
    assert_eq!(splice.after, Some(SyntaxNodeId(4)));
    let mut rebuilt = nodes(&[1]);
    rebuilt.extend(splice.inserted);
    rebuilt.extend(nodes(&[4]));
    assert_eq!(rebuilt, new);
}

#[test]
fn key_lists_are_sorted_and_have_nothing_in_common() {
    let good = KeyDelta { inserted: vec![1u64, 2], updated: vec![3], removed: vec![4] };
    assert!(good.assert_sorted_disjoint());
    assert_eq!(good.len(), 4);
    let twice = KeyDelta { inserted: vec![1u64], updated: vec![1], removed: vec![] };
    assert!(!twice.assert_sorted_disjoint());
    let turned = KeyDelta { inserted: vec![2u64, 1], updated: vec![], removed: vec![] };
    assert!(!turned.assert_sorted_disjoint());
    assert!(KeyDelta::<u64>::empty().is_empty());
    assert!(ParseDelta::empty().is_empty());
    assert!(ParseDelta::empty().assert_valid());
}

#[test]
fn repairs_are_found_by_the_tokens_they_looked_at() {
    let mut recovery = RecoveryState::new();
    recovery.begin_command(3);
    let first = recovery.begin_recovery_segment();
    recovery.record_witness(TokenOccurrenceId(4), first);
    let second = recovery.begin_recovery_segment();
    recovery.record_witness(TokenOccurrenceId(8), second);
    assert_ne!(first, second);
    assert_eq!(
        recovery.intersecting_witness_segments(TokenOccurrenceId(4), TokenOccurrenceId(4)),
        vec![first],
    );
    let a = recovery.next_synthetic_identity(TokenOccurrenceId(4));
    let b = recovery.next_synthetic_identity(TokenOccurrenceId(4));
    assert_ne!(a, b);
}

#[test]
fn identities_are_handed_out_and_taken_back() {
    let mut lineage = LineageState::new();
    lineage.begin_command();
    let mark = lineage.mark();
    let first = lineage.assign_new(1, AnchoredSpan::token(4), 0);
    let second = lineage.assign_new(1, AnchoredSpan::token(5), 1);
    assert_ne!(first, second);
    assert_eq!(lineage.lineage_of(1), Some(second));
    lineage.rollback(mark);
    assert_eq!(lineage.lineage_of(1), None);
    assert_eq!(lineage.holder_of(second), None);
}

#[test]
fn equal_trees_are_stored_once() {
    let mut trees = TreeArena::new();
    let a = trees.leaf(3, NUMBER);
    let b = trees.leaf(3, NUMBER);
    let c = trees.leaf(4, NUMBER);
    assert_eq!(a, b);
    assert_ne!(a, c);
    let sum = trees.node(1, vec![a, c]);
    assert_eq!(trees.get(sum).unwrap().length, 7);
    trees.seal_generation();
    assert_eq!(trees.insert(GreenTree::new_leaf(3, NUMBER)), a);
    assert_eq!(trees.len(), 3);
}

#[test]
fn fingerprints_depend_on_terminal_and_value() {
    let a = token_fingerprint(Some(1), b"x", 1);
    assert_eq!(a, token_fingerprint(Some(1), b"x", 1));
    assert_ne!(a, token_fingerprint(Some(2), b"x", 1));
    assert_ne!(a, token_fingerprint(Some(1), b"y", 1));
    assert_ne!(eof_fingerprint(), error_fingerprint(b"e", 1));
}

#[test]
fn parser_work_is_added_up_by_reason() {
    let mut work = ParserWork::default();
    work.record_full_replay(FullReplayReason::ExplicitColdParse);
    let mut total = ParserWork::default();
    total.merge(&work);
    assert_eq!(total, work);
    assert!(!FullReplayReason::NoEqualFrontierBeforeEof.as_str().is_empty());
}

#[test]
fn maps_and_lists_are_kept_in_order() {
    let mut map: RadixMap<char> = RadixMap::new();
    map.insert(5, 'a');
    map.insert(2, 'b');
    map.insert(5, 'c');
    assert_eq!(map.len(), 2);
    assert_eq!(map.key_at(0), 2);
    assert_eq!(map.get(5), Some(&'c'));
    assert_eq!(map.last_key(), Some(5));
    assert!(map.remove(2));
    assert!(!map.remove(2));
    assert_eq!(map.copied().len(), 1);
    let mut list: GenerationVec<u8> = GenerationVec::new();
    assert_eq!(list.push(7), 0);
    list.seal();
    assert_eq!(list.push(8), 1);
    assert_eq!(list.get(0), Some(&7));
    assert_eq!(list.get(2), None);
    assert_eq!(sorted(&vec![3u64, 1, 2]), vec![1, 2, 3]);
    assert_eq!(deduped(&vec![1u64, 1, 2, 2, 5]), vec![1, 2, 5]);
    assert_eq!(sorted_distinct(&vec![3u64, 1, 3]), vec![1, 3]);
}

fn stage(
    parser: &Parser,
    previous: Option<ParserDocumentRoot<u64>>,
    was_active: bool,
    change: &TokenPatch,
    new: Arc<ParserTokenDocument>,
) -> ParserPublication<u64> {
    match parser_document_with(
        parser,
        &plain(),
        &DirectTree,
        &ParserConfig::default(),
        previous,
        was_active,
        Some((change, new)),
    ) {
        Ok(ParserStep::Published(publication)) => publication,
        _ => panic!("the document is published"),
    }
}

#[test]
fn a_document_without_tokens_is_closed() {
    let parser = sums().build_lr1();
    let before = cold(&parser, "n+n");
    assert!(matches!(
        parser_document_with(
            &parser,
            &plain(),
            &DirectTree,
            &ParserConfig::default(),
            Some(before),
            true,
            None,
        ),
        Ok(ParserStep::Closed),
    ));
}

#[test]
fn an_active_document_goes_on_from_its_parse() {
    let parser = sums().build_lr1();
    let opened = stage(
        &parser,
        None,
        false,
        &patch(None, &[], &[1, 2, 3], None),
        tokens("n+n", &[1, 2, 3], 1),
    );
    assert_eq!(opened.previous_root_record, None);
    assert_eq!(opened.unit.status, ParseStatus::Clean);
    assert_eq!(opened.unit.root, opened.root.tree_facts.root);
    assert_eq!(opened.diagnostics.len(), 0);
    let top = opened.root.tree_facts.root;
    let edited = stage(
        &parser,
        Some(opened.root),
        true,
        &patch(Some(3), &[], &[4, 5], None),
        tokens("n+n+n", &[1, 2, 3, 4, 5], 2),
    );
    assert_eq!(edited.previous_root_record, top);
    assert_eq!(edited.root.semantic_revision, 2);
    assert_eq!(edited.unit.status, ParseStatus::Clean);
}

#[test]
fn a_document_that_was_not_active_starts_afresh() {
    let parser = sums().build_lr1();
    let before = cold(&parser, "n+n");
    let again = stage(
        &parser,
        Some(before),
        false,
        &patch(None, &[], &[1, 2, 3], None),
        tokens("n+n", &[1, 2, 3], 2),
    );
    assert_eq!(again.previous_root_record, None);
    assert_eq!(again.root.semantic_revision, 1);
    assert_eq!(again.root.tree_delta.ast_records.inserted.len(), 3);
}

/// Every record is a node of one kind, and its child is the record before it.
struct Records;

impl SyntaxFamily<u64> for Records {
    fn member_of(&self, ast: &AstArena<u64>, record: u64) -> Option<u64> {
        if ast.contains_id(record as usize) {
            Some(7)
        } else {
            None
        }
    }

    fn child_records(&self, _ast: &AstArena<u64>, record: u64) -> Vec<u64> {
        if record > 0 {
            vec![record - 1]
        } else {
            vec![]
        }
    }
}

fn tree_stage(
    parser: &Parser,
    previous: Option<ParserDocumentRoot<u64>>,
    orders: &RadixMap<PublishedChildOrder>,
    change: &TokenPatch,
    new: Arc<ParserTokenDocument>,
) -> TreePublication<u64> {
    match parser_document_tree(
        parser,
        &plain(),
        &DirectTree,
        &Records,
        &ParserConfig::default(),
        previous,
        orders,
        true,
        Some((change, new)),
    ) {
        Ok(TreeStep::Published(publication)) => publication,
        _ => panic!("the tree is published"),
    }
}

#[test]
fn a_tree_is_published_with_its_root() {
    let parser = sums().build_lr1();
    let opened = tree_stage(
        &parser,
        None,
        &RadixMap::new(),
        &patch(None, &[], &[1, 2, 3], None),
        tokens("n+n", &[1, 2, 3], 1),
    );
    assert_eq!(opened.nodes.len(), 3);
    assert!(opened.nodes.iter().all(|found| found.node.member == 7));
    let top = opened.parse.root.tree_facts.root.unwrap();
    assert_eq!(opened.nodes.iter().filter(|found| found.node.root).count(), 1);
    let root_node = opened.root_node.unwrap();
    assert!(root_node.root);
    assert!(opened.nodes.iter().any(|found| found.record == top && found.node == root_node));
    assert_eq!(opened.orders.len(), 3);
    let edited = tree_stage(
        &parser,
        Some(opened.parse.root),
        &opened.orders,
        &patch(Some(3), &[], &[4, 5], None),
        tokens("n+n+n", &[1, 2, 3, 4, 5], 2),
    );
    assert_eq!(edited.nodes.len(), 4);
    assert!(edited.root_node.unwrap().root);
    assert!(matches!(
        parser_document_tree(
            &parser,
            &plain(),
            &DirectTree,
            &Records,
            &ParserConfig::default(),
            Some(edited.parse.root),
            &edited.orders,
            true,
            None,
        ),
        Ok(TreeStep::Closed),
    ));
}

#[test]
fn the_view_of_an_editor_follows_the_layout() {
    let parser = sums().build_lr1();
    let source = ropey::Rope::from_str("n+n");
    let mut next: u64 = 3;
    let mut work = ParserWork::default();
    let root = cold(&parser, "n+n");
    let gone = parser_layout_snapshot(None, Some(&root), &mut next, &source, &mut work);
    assert!(matches!(gone.step, LayoutStep::Remove));
    assert!(gone.snapshot.is_none());
    let now = tokens("n+n", &[1, 2, 3], 2);
    let nothing: Option<&ParserDocumentRoot<u64>> = None;
    let kept = parser_layout_snapshot(Some(&now), nothing, &mut next, &source, &mut work);
    assert!(matches!(kept.step, LayoutStep::Keep));
    assert!(kept.snapshot.is_none());
    assert_eq!(next, 3);
    let moved = parser_layout_snapshot(Some(&now), Some(&root), &mut next, &source, &mut work);
    assert!(matches!(moved.step, LayoutStep::Publish { tokens_reused: 3, .. }));
    assert_eq!(moved.snapshot.unwrap().id, 3);
    assert_eq!(next, 4);
    let then = tokens("n+n", &[1, 2, 3], 1);
    let stayed = parser_layout_snapshot(Some(&then), Some(&root), &mut next, &source, &mut work);
    assert!(matches!(
        stayed.step,
        LayoutStep::Publish { columns_reused: 0, tokens_reused: 0 },
    ));
    assert_eq!(next, 5);
    // Every run counts, and none is one of the parser proper.
    let columns = root.context.state.column_count() as u64;
    assert_eq!(
        work,
        ParserWork {
            component_runs: 4,
            layout_projection_runs: 4,
            columns_reused: columns - 1,
            tokens_reused: 3,
            ..ParserWork::default()
        },
    );
}

#[test]
fn the_work_of_a_parse_is_counted() {
    let parser = sums().build_lr1();
    let list = [1u64, 2, 3];
    let first = derive_token_delta(
        &parser,
        &plain(),
        &DirectTree,
        &ParserConfig::default(),
        None,
        &patch(None, &[], &list, None),
        tokens("n+n", &list, 1),
    )
    .ok()
    .unwrap();
    assert_eq!(first.work.restart_boundary_lookups, 1);
    assert_eq!(first.work.restart_occurrences, 0);
    assert_eq!(first.work.full_replay_reason, Some(FullReplayReason::ExplicitColdParse));
    assert_eq!(first.work.full_replay_reason_count, 1);
    assert_eq!(first.work.eof_replays, 1);
    assert_eq!(first.work.semantic_tokens_decoded, 4);
    assert_eq!(first.work.tokens_decoded, first.work.tokens_replayed);
    assert_eq!(first.work.ast_records_created, first.root.context.arenas.ast.len() as u64);
    assert_eq!(
        first.work.parser_records_inserted,
        first.root.tree_delta.ast_records.inserted.len() as u64,
    );
    let columns = first.root.context.state.column_count() as u64;
    // Where tokens only change what they say, the parse stays.
    let said = TokenPatch {
        old_structure: TokenStructureRevisionId(1),
        new_structure: TokenStructureRevisionId(1),
        order_splices: vec![],
        inserted: vec![],
        updated: vec![TokenOccurrenceId(3), TokenOccurrenceId(2)],
        removed: vec![],
    };
    let kept = derive_token_delta(
        &parser,
        &plain(),
        &DirectTree,
        &ParserConfig::default(),
        Some(first.root),
        &said,
        tokens("n+n", &list, 1),
    )
    .ok()
    .unwrap();
    assert_eq!(
        kept.work,
        ParserWork {
            restart_columns: 1,
            columns_replayed: 1,
            columns_reused: columns - 1,
            ..ParserWork::default()
        },
    );
    let closed: ParserStep<u64> = ParserStep::Closed;
    assert_eq!(
        parser_run_work(&closed),
        ParserWork { component_runs: 1, semantic_runs: 1, ..ParserWork::default() },
    );
}
