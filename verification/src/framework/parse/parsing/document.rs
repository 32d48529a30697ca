//! The parse of a document, and how a command brings it up to date.

use std::sync::Arc;

use vstd::prelude::*;

use crate::framework::lex::lexed::{
    StableDocumentId, TapeSplice, TokenPatch, TokenStructureRevisionId,
};
use crate::framework::parse::data::green::ParseErrorInfo;
use crate::framework::parse::data::ast::AstMetadata;
use crate::framework::parse::data::gss::{GssNode, GssView};
use crate::framework::parse::data::product::{
    ProductArena, ProductData, ProductDataView, ProductId, ProductView,
};
use crate::framework::parse::delta::{ParseDelta, ParsedStatus};
use crate::framework::parse::diagnostics::{
    collect_parse_diagnostics, collected, status_by, status_of,
};
use crate::framework::parse::parsing::columns::{fresh_column, ColumnView, ParseColumn};
use crate::framework::parse::parsing::error::{BuildError, ParseError};
use crate::framework::parse::parsing::freeze::{
    born, copy_orders, freeze_parse_delta, freezing_exhausted, frozen, gone, order_views,
    FreezeInput, TreeKinds,
};
use crate::framework::parse::parsing::growth::{
    built_on, grown, lemma_built_grown, lemma_built_grows, lemma_built_same, lemma_built_trans,
    lemma_grown_stacks, lemma_prefix_push, lemma_prefix_self,
};
use crate::framework::parse::parsing::lineage::{begun, no_lineages, LineageState};
use crate::framework::parse::parsing::lineage::settled;
use crate::framework::parse::parsing::reachability::{
    applied, change_from, refused, ReachabilityUpdate,
};
use crate::framework::parse::parsing::reduce::{node_id, with_node};
use crate::framework::parse::parsing::reductions::CacheView;
use crate::framework::parse::parsing::repairs::{
    recovery_begun, RecoveryJournalEntry, RecoveryView,
};
use crate::framework::parse::parsing::replay::{broke_off, reading, replayed, ReadCounts, Stop};
use crate::framework::parse::parsing::restart::{set_up, Restart};
use crate::framework::parse::parsing::session::{
    accepted_of, column_total, recovered_after, sealed_session, with_column, ParserSessionState,
    SessionView,
};
use crate::framework::parse::parsing::work::{
    count_kept, count_parse, kept_work, parse_work, ParseCounts,
};
use crate::framework::parse::parsing::stack::{
    states_fit, Language, SessionArenas, SessionContext, StackView,
};
use crate::framework::parse::tables::Parser;
use crate::framework::parse::tokens::{
    boundary_at, planned, terminals_fit, ParserTokenDocument, ReplayPlan, TokensView,
};
use crate::framework::parse::types::{
    nothing_counted, FullReplayReason, IncrementalParseStats, ParserBoundaryId, ParserConfig,
    ParserTreeFacts, ParserWork,
};
use crate::sort::distinct_sorted;
use crate::store::RadixMap;

verus! {

/// The parse of one document.
pub struct ParserDocumentRoot<V> {
    /// The parser's state and the arenas.
    pub context: SessionContext<V>,
    /// The tokens that were parsed.
    pub token: Option<Arc<ParserTokenDocument>>,
    /// The accepted products.
    pub roots: Vec<ProductId>,
    pub incremental_stats: IncrementalParseStats,
    pub tree_facts: ParserTreeFacts,
    /// What the last command changed.
    pub tree_delta: ParseDelta,
    pub semantic_revision: u64,
    pub published_status: Option<ParsedStatus>,
    pub published_diagnostics: Vec<ParseErrorInfo>,
}

impl<V> ParserDocumentRoot<V> {
    /// The parse is sound and fits a parser.
    pub open spec fn wf(self, parser: Parser) -> bool {
        &&& self.context.wf(parser)
        &&& self.tree_facts.wf()
        &&& self.tree_delta.live_records.wf()
        &&& column_total(self.context@.session) <= usize::MAX
        &&& self.token is Some ==> self.token->Some_0.wf() && self.token->Some_0@.tokens.len()
            < usize::MAX
    }

    /// Nothing was parsed and nothing was published of a document.
    pub open spec fn untouched(self, document: u64) -> bool {
        &&& self.token is None
        &&& self.roots@ == Seq::<ProductId>::empty()
        &&& self.context@ == blank_work()
        &&& self.context.arenas.ast.document() == document
        &&& self.context.arenas.ast.records().len() == 0
        &&& self.context.state.recovery.synthetic_tokens@ == Map::<u64, u64>::empty()
        &&& self.context.state.recovery.next_recovery_segment == 0
        &&& self.context.state.recovery.next_synthetic_ordinal == 0
        &&& self.context.state.recovery.journal@ == Map::<u64, RecoveryJournalEntry>::empty()
        &&& self.context.state.recovery.witness_intervals@ == Map::<u64, Vec<u64>>::empty()
        &&& self.tree_facts.records@ == Map::<u64, ()>::empty()
        &&& self.tree_facts.root is None
        &&& self.tree_facts.product_reach_counts@ == Map::<u64, u32>::empty()
        &&& self.tree_facts.record_reach_counts@ == Map::<u64, u32>::empty()
        &&& self.tree_facts.record_lineages@ == Map::<u64, u64>::empty()
        &&& self.tree_facts.child_orders@ == Map::<u64, Vec<u64>>::empty()
        &&& self.tree_delta.spec_is_empty()
        &&& self.semantic_revision == 0
        &&& self.published_status is None
        &&& self.published_diagnostics@.len() == 0
    }

    /// The parse of a document that was never parsed.
    pub fn with_document(document: StableDocumentId, parser: &Parser) -> (r: Self)
        requires
            parser.wf(),
        ensures
            r.wf(*parser),
            r.untouched(document.0),
    {
        let r = ParserDocumentRoot {
            context: SessionContext {
                state: ParserSessionState::new(),
                arenas: SessionArenas::new(document.0),
            },
            token: None,
            roots: Vec::new(),
            incremental_stats: IncrementalParseStats::default(),
            tree_facts: ParserTreeFacts::new(),
            tree_delta: ParseDelta::empty(),
            semantic_revision: 0,
            published_status: None,
            published_diagnostics: Vec::new(),
        };
        proof {
            assert(r.context@.bindings =~= Seq::<AstMetadata>::empty());
            assert(r.context@ =~= blank_work());
        }
        r
    }
}

/// The work on a document that was never parsed.
pub open spec fn blank_work() -> StackView {
    StackView {
        session: SessionView {
            columns: Seq::empty(),
            suffix: None,
            generation: 0,
            diagnostics: Seq::empty(),
            boundaries: Map::empty(),
            token_columns: Map::empty(),
            token_products: Map::empty(),
        },
        gss: GssView { nodes: Seq::empty(), edges: Seq::empty() },
        products: Seq::empty(),
        trees: Seq::empty(),
        reductions: CacheView { products: Map::empty(), origins: Map::empty() },
        lineage: no_lineages(),
        bindings: Seq::empty(),
    }
}

/// Why reading went on to the end.
pub open spec fn replay_reason(
    stats: IncrementalParseStats,
    cold: bool,
    recovery_columns: nat,
    suffix_len: usize,
) -> Option<FullReplayReason> {
    if stats.reconverged_old_boundary is Some {
        None
    } else if cold {
        Some(FullReplayReason::ExplicitColdParse)
    } else if recovery_columns > 0 {
        Some(FullReplayReason::RecoveryProofFailed)
    } else if suffix_len == 0 {
        Some(FullReplayReason::NoRetainedRightBoundary)
    } else {
        Some(FullReplayReason::NoEqualFrontierBeforeEof)
    }
}

/// What is counted of a command, over what was counted while reading.
pub open spec fn final_stats(
    stats: IncrementalParseStats,
    session: SessionView,
    restart: int,
    base: int,
    run: nat,
) -> IncrementalParseStats {
    IncrementalParseStats {
        restart_boundary: restart as usize,
        reparsed: (match stats.reconverged_new_boundary {
            Some(at) => less(at as int, restart),
            None => less(less(column_total(session) as int, 1), restart),
        }) as usize,
        reused: (match stats.reconverged_old_boundary {
            Some(at) => less(run as int, capped(less(at as int, base) + 1)),
            None => 0,
        }) as usize,
        recovery_columns: recovered_after(session, restart) as usize,
        ..stats
    }
}

/// A difference that does not fall below zero.
pub open spec fn less(a: int, b: int) -> int {
    if a > b {
        a - b
    } else {
        0
    }
}

/// A number that does not run over.
pub open spec fn capped(a: int) -> int {
    if a > usize::MAX {
        usize::MAX as int
    } else {
        a
    }
}

/// The record at the root of the tree: that of the first accepted product, or
/// the first one below it.
pub open spec fn root_record(products: Seq<ProductView>, roots: Seq<ProductId>) -> Option<u64> {
    if roots.len() > 0 && roots[0] < products.len() {
        let product = products[roots[0] as int];
        match product.data {
            ProductDataView::Node { ast, .. } => Some(ast as u64),
            ProductDataView::Token { ast: Some(ast), .. } => Some(ast as u64),
            _ => if product.ast_ids.len() > 0 {
                Some(product.ast_ids[0] as u64)
            } else {
                None
            },
        }
    } else {
        None
    }
}

/// The record at the root of the tree.
pub fn find_root_record(products: &ProductArena, roots: &Vec<ProductId>) -> (r: Option<u64>)
    requires
        products.wf(),
    ensures
        r == root_record(products@, roots@),
{
    if roots.len() == 0 {
        return None;
    }
    match products.get(roots[0]) {
        Some(product) => {
            let first: Option<u64> = if product.ast_ids.len() > 0 {
                Some(product.ast_ids[0] as u64)
            } else {
                None
            };
            match &product.data {
                ProductData::Node { ast, .. } => Some(*ast as u64),
                ProductData::Token { ast: Some(ast), .. } => Some(*ast as u64),
                _ => first,
            }
        },
        None => None,
    }
}

/// The identities of live records after a command: those of records that went
/// are gone, and those of records that came are noted.
pub open spec fn lineages_after(
    before: Map<u64, u64>,
    went: Seq<u64>,
    came: Seq<u64>,
    lineages: Map<usize, u64>,
) -> Map<u64, u64> {
    let kept = before.remove_keys(went.to_set());
    Map::new(
        |record: u64|
            kept.dom().contains(record) || (came.contains(record) && lineages.dom().contains(
                record as usize,
            )),
        |record: u64|
            if came.contains(record) && lineages.dom().contains(record as usize) {
                lineages[record as usize]
            } else {
                kept[record]
            },
    )
}

/// Brings the identities of live records up to date.
fn update_lineages(
    before: &RadixMap<u64>,
    went: &Vec<u64>,
    came: &Vec<u64>,
    lineage: &LineageState,
) -> (r: RadixMap<u64>)
    requires
        before.wf(),
    ensures
        r.wf(),
        r@ == lineages_after(before@, went@, came@, lineage@.lineages),
{
    let mut map = before.copied();
    let ghost lineages = lineage@.lineages;
    let mut at: usize = 0;
    assert(map@ =~= before@.remove_keys(went@.take(0).to_set()));
    while at < went.len()
        invariant
            at <= went@.len(),
            map.wf(),
            map@ == before@.remove_keys(went@.take(at as int).to_set()),
        decreases went@.len() - at,
    {
        let ghost held = map@;
        map.remove(went[at]);
        proof {
            let less = went@.take(at as int);
            let more = went@.take(at as int + 1);
            assert(more =~= less.push(went@[at as int]));
            assert forall|key: u64| more.to_set().contains(key) <==> (less.to_set().contains(key)
                || key == went@[at as int]) by {
                if less.contains(key) {
                    let k = choose|k: int| 0 <= k < less.len() && less[k] == key;
                    assert(more[k] == key);
                }
                if key == went@[at as int] {
                    assert(more[at as int] == key);
                }
                if more.contains(key) {
                    let k = choose|k: int| 0 <= k < more.len() && more[k] == key;
                    if k < at {
                        assert(less[k] == key);
                    }
                }
            }
            assert(map@ =~= before@.remove_keys(more.to_set()));
        }
        at += 1;
    }
    assert(went@.take(at as int) =~= went@);
    let ghost kept = before@.remove_keys(went@.to_set());
    let mut next: usize = 0;
    assert(map@ =~= lineages_after(before@, went@, came@.take(0), lineages));
    while next < came.len()
        invariant
            next <= came@.len(),
            map.wf(),
            lineages == lineage@.lineages,
            map@ == lineages_after(before@, went@, came@.take(next as int), lineages),
        decreases came@.len() - next,
    {
        let record: u64 = came[next];
        if let Some(found) = lineage.lineage_of(record as usize) {
            map.insert(record, found);
        }
        proof {
            let less = came@.take(next as int);
            let more = came@.take(next as int + 1);
            assert(more =~= less.push(record));
            assert forall|key: u64| more.contains(key) <==> (less.contains(key) || key == record) by {
                if less.contains(key) {
                    let k = choose|k: int| 0 <= k < less.len() && less[k] == key;
                    assert(more[k] == key);
                }
                if key == record {
                    assert(more[next as int] == key);
                }
                if more.contains(key) {
                    let k = choose|k: int| 0 <= k < more.len() && more[k] == key;
                    if k < next {
                        assert(less[k] == key);
                    }
                }
            }
            assert(map@ =~= lineages_after(before@, went@, more, lineages));
        }
        next += 1;
    }
    assert(came@.take(next as int) =~= came@);
    map
}

/// What was published before a command.
pub struct PublishedBefore {
    pub roots: Vec<ProductId>,
    pub facts: ParserTreeFacts,
    pub status: Option<ParsedStatus>,
    pub diagnostics: Vec<ParseErrorInfo>,
    pub semantic_revision: u64,
}

/// Why a command publishes nothing: no identity is left, or the counts of what
/// was published do not bear what changed.
pub open spec fn publish_refused<V>(
    before: PublishedBefore,
    done: SessionContext<V>,
    error: ParseError,
) -> bool {
    ||| error == ParseError::Build(BuildError::Exhausted) && freezing_exhausted(
        done@.lineage,
        done.arenas.ast,
        change_from(before.facts, before.roots@, accepted_of(done@.session), done@.products),
        before.facts.records@,
    )
    ||| refused(
        change_from(before.facts, before.roots@, accepted_of(done@.session), done@.products),
        before.facts.records@,
        error,
    )
}

/// What a command publishes, over the state after reading.
pub open spec fn published<V, T: TreeKinds<V>>(
    before: PublishedBefore,
    done: SessionContext<V>,
    tree: T,
    root: ParserDocumentRoot<V>,
) -> bool {
    let v = done@;
    let roots = accepted_of(v.session);
    let infos = collected(v.session.diagnostics, v.products, v.trees, roots);
    let status = status_by(infos.len(), roots.len() == 0);
    let change = change_from(before.facts, before.roots@, roots, v.products);
    let input = FreezeInput {
        tree,
        products: v.products,
        ast: done.arenas.ast,
        committed: before.facts.record_lineages@,
        orders: order_views(before.facts.child_orders@),
        old_root: before.facts.root,
        new_root: root_record(v.products, roots),
        old_infos: before.diagnostics@,
        new_infos: infos,
        old_status: before.status,
        new_status: status,
        synthetic: done.state.recovery.synthetic_tokens@,
    };
    let facts = root.tree_facts;
    &&& root.roots@ == roots
    &&& root.published_diagnostics@ == infos
    &&& root.published_status == Some(status)
    &&& root.semantic_revision == if root.tree_delta.spec_is_empty()
        || before.semantic_revision == u64::MAX {
        before.semantic_revision as int
    } else {
        before.semantic_revision + 1
    }
    &&& root.context@.session == sealed_session(v.session, (v.gss, v.products))
    &&& root.context@.gss == v.gss
    &&& root.context@.products == v.products
    &&& root.context@.trees == v.trees
    &&& root.context@.reductions == v.reductions
    &&& root.context@.bindings == v.bindings
    &&& root.context.state.recovery@ == done.state.recovery@
    &&& root.context.arenas.ast.records() == done.arenas.ast.records()
    &&& root.context.arenas.ast.document() == done.arenas.ast.document()
    &&& facts.root == input.new_root
    &&& order_views(facts.child_orders@) == order_views(root.tree_delta.child_orders_next@)
    &&& facts.record_lineages@ == lineages_after(
        before.facts.record_lineages@,
        root.tree_delta.ast_records.removed@,
        root.tree_delta.ast_records.inserted@,
        root.context@.lineage.lineages,
    )
    &&& exists|update: ReachabilityUpdate|
        {
            let came = distinct_sorted(born(update.record_journal@));
            let went = distinct_sorted(gone(update.record_journal@));
            &&& #[trigger] applied(change, before.facts.records@, update)
            &&& root.context@.lineage == settled(
                v.lineage,
                update.live_records@,
                came,
                went,
                v.products,
                done.arenas.ast,
            )
            &&& frozen(
                root.tree_delta,
                input,
                root.context@.lineage,
                update.live_records@,
                came,
                went,
            )
            &&& facts.records@ == update.live_records@
            &&& facts.product_reach_counts@ == update.product_reach_counts@
            &&& facts.record_reach_counts@ == update.record_reach_counts@
        }
}

/// Publishes what was read: finds what changed, and freezes the state.
pub fn publish<V, T: TreeKinds<V>>(
    parser: &Parser,
    tree: &T,
    before: &PublishedBefore,
    done: SessionContext<V>,
    stats: IncrementalParseStats,
) -> (r: Result<ParserDocumentRoot<V>, ParseError>)
    requires
        done.wf(*parser),
        column_total(done@.session) <= usize::MAX,
        before.facts.wf(),
    ensures
        match r {
            Ok(root) => {
                &&& root.wf(*parser)
                &&& published(*before, done, *tree, root)
                &&& root.incremental_stats == stats
                &&& root.token is None
            },
            Err(error) => publish_refused(*before, done, error),
        },
{
    let ghost first = done;
    let ghost v = done@;
    let mut context = done;
    let roots = context.state.accepted();
    let tree_root = find_root_record(&context.arenas.products, &roots);
    let infos = collect_parse_diagnostics(
        context.state.diagnostics.as_slice(),
        &context.arenas.products,
        &context.arenas.trees,
        roots.as_slice(),
    );
    let status = status_of(infos.as_slice(), roots.len() == 0);
    let (delta, update) = match freeze_parse_delta(
        &mut context.state.lineage,
        &context.state.recovery.synthetic_tokens,
        &context.arenas.products,
        &context.arenas.ast,
        &before.facts,
        before.roots.as_slice(),
        roots.as_slice(),
        tree_root,
        before.diagnostics.as_slice(),
        infos.as_slice(),
        before.status,
        status,
        tree,
    ) {
        Ok(found) => found,
        Err(error) => {
            return Err(error);
        },
    };
    let ghost frozen_update = update;
    let record_lineages = update_lineages(
        &before.facts.record_lineages,
        &delta.ast_records.removed,
        &delta.ast_records.inserted,
        &context.state.lineage,
    );
    let tree_facts = ParserTreeFacts {
        records: update.live_records,
        root: tree_root,
        product_reach_counts: update.product_reach_counts,
        record_reach_counts: update.record_reach_counts,
        record_lineages,
        child_orders: copy_orders(&delta.child_orders_next),
    };
    let ghost settled_lineage = context.state.lineage;
    assert(context.state@ =~= first.state@);
    context.state.seal(&context.arenas.gss, &context.arenas.products);
    context.arenas.seal_generations();
    let semantic_revision: u64 = if delta.is_empty() {
        before.semantic_revision
    } else {
        before.semantic_revision.saturating_add(1)
    };
    let root = ParserDocumentRoot {
        context,
        token: None,
        roots,
        incremental_stats: stats,
        tree_facts,
        tree_delta: delta,
        semantic_revision,
        published_status: Some(status),
        published_diagnostics: infos,
    };
    proof {
        let change = change_from(before.facts, before.roots@, root.roots@, v.products);
        assert(applied(change, before.facts.records@, frozen_update));
        assert(root.context@.lineage == settled_lineage@);
        assert(root.context@.bindings =~= v.bindings) by {
            assert forall|id: int| 0 <= id < v.bindings.len() implies root.context@.bindings[id]
                == v.bindings[id] by {
                assert(first.arenas.ast.binding(id) == v.bindings[id]);
            }
        }
        crate::framework::parse::parsing::session::lemma_sealing_keeps_columns(
            v.session,
            (v.gss, v.products),
            0,
        );
    }
    Ok(root)
}

// ---------------------------------------------------------------------------
// A command

/// The state in which a command starts. A document that was never parsed has
/// one column, at the gap before its first token.
pub open spec fn command_begun(v: StackView, tokens: TokensView, w: StackView) -> bool {
    let node = GssNode { state: 0, column: 0, generation: 0 };
    &&& w.products == v.products
    &&& w.trees == v.trees
    &&& w.reductions == v.reductions
    &&& w.bindings == v.bindings
    &&& w.lineage == begun(v.lineage)
    &&& if column_total(v.session) == 0 {
        &&& w.gss == with_node(v.gss, node)
        &&& w.session == with_column(
            v.session,
            ColumnView {
                boundary: Some(boundary_at(tokens, 0)),
                ..fresh_column(None, seq![node_id(w.gss, node)])
            },
        )
    } else {
        w.gss == v.gss && w.session == v.session
    }
}

/// Starts a command on a document.
fn begin_command<V>(context: &mut SessionContext<V>, parser: &Parser, tokens: &ParserTokenDocument)
    requires
        old(context).wf(*parser),
        column_total(old(context)@.session) <= usize::MAX,
    ensures
        final(context).wf(*parser),
        command_begun(old(context)@, tokens@, final(context)@),
        final(context).arenas.ast == old(context).arenas.ast,
        0 < column_total(final(context)@.session) <= usize::MAX,
        final(context).state.recovery@ == recovery_begun(
            old(context).state.recovery@,
            tokens@.document.0,
        ),
{
    let ghost v = context@;
    if context.state.column_count() == 0 {
        let start: usize = context.arenas.gss.node(0, 0, 0);
        proof {
            let node = GssNode { state: 0, column: 0, generation: 0 };
            context.arenas.gss.lemma_wf();
            let nodes = context.arenas.gss@.nodes;
            let found = nodes.index_of(node);
            assert(nodes.contains(nodes[start as int]));
            assert(nodes[found] == node);
            assert(found == start);
            assert(states_fit(context.arenas.gss@, parser.states@.len())) by {
                assert forall|i: int| 0 <= i < nodes.len() implies (#[trigger] nodes[i]).state
                    < parser.states@.len() by {
                    if i < v.gss.nodes.len() {
                        assert(nodes[i] == v.gss.nodes[i]);
                    }
                }
            }
        }
        let mut nodes: Vec<usize> = Vec::new();
        nodes.push(start);
        let mut initial = ParseColumn::of_nodes(None, &nodes);
        let boundary = ParserBoundaryId::Source(tokens.boundary_at_rank(0));
        initial.set_boundary(Some(boundary));
        assert(nodes@ =~= seq![start]);
        context.state.append_column(initial);
    }
    context.state.lineage.begin_command();
    context.state.recovery.begin_command(tokens.document().0);
    proof {
        let w = context@;
        assert(column_total(w.session) > 0);
        assert(w.gss.edges == v.gss.edges);
        if column_total(v.session) == 0 {
            assert(w.gss =~= with_node(v.gss, GssNode { state: 0, column: 0, generation: 0 }));
        }
    }
}

/// Starting a command takes nothing away.
proof fn lemma_begun_grows(v: StackView, tokens: TokensView, w: StackView)
    requires
        command_begun(v, tokens, w),
    ensures
        grown(v, w),
{
    let node = GssNode { state: 0, column: 0, generation: 0 };
    lemma_prefix_push(v.gss.nodes, node);
    lemma_prefix_self(v.gss.edges);
    lemma_grown_stacks(v, w);
}

/// A difference that does not fall below zero.
fn less_exec(a: usize, b: usize) -> (r: usize)
    ensures
        r == less(a as int, b as int),
{
    if a > b {
        a - b
    } else {
        0
    }
}

/// What is counted of a command.
fn count_up(
    stats: IncrementalParseStats,
    session: &ParserSessionState,
    restart: usize,
    base: usize,
    run: usize,
) -> (r: IncrementalParseStats)
    requires
        session.wf(),
        column_total(session@) <= usize::MAX,
        restart < usize::MAX,
    ensures
        r == final_stats(stats, session@, restart as int, base as int, run as nat),
        r.recovery_columns == recovered_after(session@, restart as int),
{
    let current: usize = session.current_column();
    IncrementalParseStats {
        restart_boundary: restart,
        reparsed: match stats.reconverged_new_boundary {
            Some(at) => less_exec(at, restart),
            None => less_exec(current, restart),
        },
        reused: match stats.reconverged_old_boundary {
            Some(at) => less_exec(run, less_exec(at, base).saturating_add(1)),
            None => 0,
        },
        recovery_columns: session.recovery_columns_after(restart),
        ..stats
    }
}

/// Why reading went on to the end.
pub fn full_replay_reason(
    stats: &IncrementalParseStats,
    cold: bool,
    suffix_len: usize,
) -> (r: Option<FullReplayReason>)
    ensures
        r == replay_reason(*stats, cold, stats.recovery_columns as nat, suffix_len),
{
    if stats.reconverged_old_boundary.is_some() {
        None
    } else if cold {
        Some(FullReplayReason::ExplicitColdParse)
    } else if stats.recovery_columns > 0 {
        Some(FullReplayReason::RecoveryProofFailed)
    } else if suffix_len == 0 {
        Some(FullReplayReason::NoRetainedRightBoundary)
    } else {
        Some(FullReplayReason::NoEqualFrontierBeforeEof)
    }
}

/// What a command led to.
pub struct Batch<V> {
    pub root: ParserDocumentRoot<V>,
    /// How much was decoded.
    pub counts: ReadCounts,
    /// Why reading went on to the end, where it did.
    pub reason: Option<FullReplayReason>,
    /// What is counted of the work.
    pub work: ParserWork,
}

/// The parse of a document after a command, and what is counted of the work.
pub struct ParsedDelta<V> {
    pub root: ParserDocumentRoot<V>,
    pub work: ParserWork,
}

/// The state in which reading starts again: the columns were taken back, and
/// nothing else changed.
pub open spec fn taken_back(
    start: StackView,
    ready: StackView,
    plan: ReplayPlan<'_>,
    rank: int,
    restart: Restart,
) -> bool {
    &&& set_up(
        start.session,
        ready.session,
        (start.gss, start.products),
        plan,
        rank,
        restart,
    )
    &&& ready == (StackView { session: ready.session, ..start })
}

/// Where reading starts again: nothing is counted yet.
pub open spec fn first_stop(ready: StackView, recovery: RecoveryView, rank: int) -> Stop {
    Stop { state: ready, recovery, stats: nothing_counted(), recovery_decoded: 0, compared: 0, rank }
}

/// A command on a document: the state in which it starts, where it reads from,
/// and what reading leads to. The language built the value of every record that
/// came.
pub open spec fn parsed_from<V, L: Language<V>, T: TreeKinds<V>>(
    parser: Parser,
    language: L,
    enabled: bool,
    tree: T,
    before: PublishedBefore,
    first: SessionContext<V>,
    plan: ReplayPlan<'_>,
    ready: StackView,
    restart: Restart,
    done: SessionContext<V>,
    stats: IncrementalParseStats,
    batch: Batch<V>,
) -> bool {
    let rank = if plan.restart_boundary < plan.old_extent {
        plan.restart_boundary as int
    } else {
        plan.old_extent as int
    };
    &&& exists|start: StackView| #[trigger]
        command_begun(first@, plan.new@, start) && taken_back(start, ready, plan, rank, restart)
    &&& built_on(language, first, done)
    &&& done.arenas.ast.document() == first.arenas.ast.document()
    &&& replayed::<V, L>(
        reading(parser, language, enabled, plan, restart.run.view(), restart.base as int),
        first_stop(ready, recovery_begun(first.state.recovery@, plan.new@.document.0), rank),
        done,
        stats,
        batch.counts,
    )
    &&& published(before, done, tree, batch.root)
    &&& batch.root.incremental_stats == final_stats(
        stats,
        done@.session,
        restart.column as int,
        restart.base as int,
        restart.run.view().columns.len(),
    )
    &&& batch.reason == replay_reason(
        stats,
        plan.old is None,
        recovered_after(done@.session, restart.column as int),
        plan.suffix_len,
    )
    &&& batch.work == parse_work(
        batch.root.incremental_stats,
        batch.counts,
        ParseCounts {
            rank: rank as usize,
            again: plan.old is Some,
            run: restart.run.view().columns.len() as usize,
            nodes: less(done@.gss.nodes.len() as int, first@.gss.nodes.len() as int) as usize,
            edges: less(done@.gss.edges.len() as int, first@.gss.edges.len() as int) as usize,
            products: less(done@.products.len() as int, first@.products.len() as int) as usize,
            records: less(
                done.arenas.ast.records().len() as int,
                first.arenas.ast.records().len() as int,
            ) as usize,
            recovery: done.state.recovery.counts,
        },
        batch.root.tree_delta,
        batch.reason,
    )
}

/// Brings the parse of a document up to date: reads again what an edit touched,
/// takes over what stayed as it was, and finds what changed.
#[verifier::rlimit(60)]
pub fn parse_delta_batch<V, L: Language<V>, T: TreeKinds<V>>(
    parser: &Parser,
    language: &L,
    tree: &T,
    config: &ParserConfig,
    previous: Option<ParserDocumentRoot<V>>,
    plan: &ReplayPlan<'_>,
) -> (r: Result<Batch<V>, ParseError>)
    requires
        parser.wf(),
        previous is Some ==> previous->Some_0.wf(*parser),
        plan.new.wf(),
        plan.new_extent == plan.new@.tokens.len() + 1,
        terminals_fit(plan.new@, parser.grammar),
    ensures
        match r {
            Ok(batch) => {
                &&& batch.root.wf(*parser)
                &&& batch.root.token is None
                &&& parsed_by(
                    *parser,
                    *language,
                    config.error_recovery,
                    *tree,
                    previous,
                    *plan,
                    batch,
                )
            },
            Err(error) => parse_broken(
                *parser,
                *language,
                config.error_recovery,
                previous,
                *plan,
                error,
            ),
        },
{
    let ghost first = previous;
    let root = match previous {
        Some(root) => root,
        None => ParserDocumentRoot::with_document(plan.new.document(), parser),
    };
    let ghost root0 = root;
    let before = PublishedBefore {
        roots: root.roots,
        facts: root.tree_facts,
        status: root.published_status,
        diagnostics: root.published_diagnostics,
        semantic_revision: root.semantic_revision,
    };
    assert(starts_from(first, root0, plan.new@, before));
    let mut context = root.context;
    let ghost whole = context;
    let nodes: usize = context.arenas.gss.node_count();
    let edges: usize = context.arenas.gss.edge_count();
    let products: usize = context.arenas.products.len();
    let records: usize = context.arenas.ast.len();
    begin_command(&mut context, parser, plan.new);
    let ghost start = context@;
    let ghost begun_with = context;
    let ghost recovery = context.state.recovery@;
    proof {
        lemma_begun_grows(whole@, plan.new@, start);
        lemma_built_grown(*language, whole, begun_with);
    }
    let rank: usize = if plan.restart_boundary < plan.old_extent {
        plan.restart_boundary
    } else {
        plan.old_extent
    };
    assert(command_begun(root0.context@, plan.new@, start));
    let restart = match context.prepare_restart(parser, plan, rank) {
        Ok(restart) => restart,
        Err(error) => {
            proof {
                lemma_started_broken(
                    *parser,
                    *language,
                    config.error_recovery,
                    first,
                    root0,
                    before,
                    start,
                    recovery,
                    *plan,
                    error,
                );
            }
            return Err(error);
        },
    };
    let ghost ready = context@;
    let ghost prepared = context;
    proof {
        assert(ready =~= (StackView { session: ready.session, ..start }));
        lemma_built_same(*language, begun_with, prepared);
        lemma_built_trans(*language, whole, begun_with, prepared);
    }
    let mut stats = IncrementalParseStats::default();
    let mut counts = ReadCounts { decoded: 0, recovery_decoded: 0, compared: 0 };
    match context.replay_tokens(
        parser,
        language,
        config.error_recovery,
        plan,
        &restart.run,
        restart.base,
        rank,
        &mut stats,
        &mut counts,
    ) {
        Ok(_) => {},
        Err(error) => {
            proof {
                lemma_ready_broken(
                    *parser,
                    *language,
                    config.error_recovery,
                    first,
                    root0,
                    before,
                    start,
                    recovery,
                    *plan,
                    error,
                    ready,
                    restart,
                    context,
                    stats,
                );
            }
            return Err(error);
        },
    }
    proof {
        lemma_built_trans(*language, whole, prepared, context);
        lemma_built_grows(*language, whole, context);
    }
    let behind: usize = match &context.state.retained_suffix {
        Some(segment) => segment.len(),
        None => 0,
    };
    let ahead: usize = context.state.columns.len();
    let ghost done = context;
    assert(column_total(done@.session) == ahead + behind);
    if behind > usize::MAX - ahead {
        proof {
            let error = ParseError::Build(BuildError::Exhausted);
            lemma_ready_broken(
                *parser,
                *language,
                config.error_recovery,
                first,
                root0,
                before,
                start,
                recovery,
                *plan,
                error,
                ready,
                restart,
                done,
                stats,
            );
        }
        return Err(ParseError::Build(BuildError::Exhausted));
    }
    let ghost read = stats;
    let run_len: usize = restart.run.len();
    let counted = count_up(stats, &context.state, restart.column, restart.base, run_len);
    let reason = full_replay_reason(&counted, plan.old.is_none(), plan.suffix_len);
    let made = ParseCounts {
        rank,
        again: plan.old.is_some(),
        run: run_len,
        nodes: less_exec(context.arenas.gss.node_count(), nodes),
        edges: less_exec(context.arenas.gss.edge_count(), edges),
        products: less_exec(context.arenas.products.len(), products),
        records: less_exec(context.arenas.ast.len(), records),
        recovery: context.state.recovery.counts,
    };
    match publish(parser, tree, &before, context, counted) {
        Ok(root) => {
            let work = count_parse(
                &root.incremental_stats,
                &counts,
                &made,
                &root.tree_delta,
                reason,
            );
            let batch = Batch { root, counts, reason, work };
            proof {
                assert(command_begun(root0.context@, plan.new@, start));
                assert(recovered_after(done@.session, restart.column as int)
                    == counted.recovery_columns);
                assert(parsed_from(
                    *parser,
                    *language,
                    config.error_recovery,
                    *tree,
                    before,
                    root0.context,
                    *plan,
                    ready,
                    restart,
                    done,
                    read,
                    batch,
                ));
            }
            Ok(batch)
        },
        Err(error) => {
            proof {
                lemma_ready_broken(
                    *parser,
                    *language,
                    config.error_recovery,
                    first,
                    root0,
                    before,
                    start,
                    recovery,
                    *plan,
                    error,
                    ready,
                    restart,
                    done,
                    read,
                );
            }
            Err(error)
        },
    }
}

/// The rank from which a plan reads again.
pub open spec fn restart_rank(plan: ReplayPlan<'_>) -> int {
    if plan.restart_boundary < plan.old_extent {
        plan.restart_boundary as int
    } else {
        plan.old_extent as int
    }
}

/// A command broke off after it was set up: reading did, or there are more
/// columns than can be counted, or nothing can be published.
pub open spec fn ready_broken<V, L: Language<V>>(
    parser: Parser,
    language: L,
    enabled: bool,
    before: PublishedBefore,
    start: StackView,
    recovery: RecoveryView,
    plan: ReplayPlan<'_>,
    error: ParseError,
    ready: StackView,
    restart: Restart,
    done: SessionContext<V>,
    stats: IncrementalParseStats,
) -> bool {
    let rank = restart_rank(plan);
    &&& taken_back(start, ready, plan, rank, restart)
    &&& {
        ||| broke_off(
            reading(parser, language, enabled, plan, restart.run.view(), restart.base as int),
            first_stop(ready, recovery, rank),
            done,
            stats.convergence_checks,
            error,
        )
        ||| {
            &&& exists|counts: ReadCounts| #[trigger]
                replayed::<V, L>(
                    reading(
                        parser,
                        language,
                        enabled,
                        plan,
                        restart.run.view(),
                        restart.base as int,
                    ),
                    first_stop(ready, recovery, rank),
                    done,
                    stats,
                    counts,
                )
            &&& {
                ||| error == ParseError::Build(BuildError::Exhausted) && column_total(
                    done@.session,
                ) > usize::MAX
                ||| publish_refused(before, done, error)
            }
        }
    }
}

/// A command broke off: no generation is left, or what followed did.
pub open spec fn started_broken<V, L: Language<V>>(
    parser: Parser,
    language: L,
    enabled: bool,
    before: PublishedBefore,
    start: StackView,
    recovery: RecoveryView,
    plan: ReplayPlan<'_>,
    error: ParseError,
) -> bool {
    ||| error == ParseError::Build(BuildError::Exhausted) && start.session.generation == u32::MAX
    ||| exists|
        ready: StackView,
        restart: Restart,
        done: SessionContext<V>,
        stats: IncrementalParseStats,
    | #[trigger]
        ready_broken(
            parser,
            language,
            enabled,
            before,
            start,
            recovery,
            plan,
            error,
            ready,
            restart,
            done,
            stats,
        )
}

/// A command broke off that started from a state.
pub open spec fn batch_broken<V, L: Language<V>>(
    parser: Parser,
    language: L,
    enabled: bool,
    before: PublishedBefore,
    first: SessionContext<V>,
    plan: ReplayPlan<'_>,
    error: ParseError,
) -> bool {
    exists|start: StackView| #[trigger]
        command_begun(first@, plan.new@, start) && started_broken::<V, L>(
            parser,
            language,
            enabled,
            before,
            start,
            recovery_begun(first.state.recovery@, plan.new@.document.0),
            plan,
            error,
        )
}

/// A command by a plan broke off.
pub open spec fn parse_broken<V, L: Language<V>>(
    parser: Parser,
    language: L,
    enabled: bool,
    previous: Option<ParserDocumentRoot<V>>,
    plan: ReplayPlan<'_>,
    error: ParseError,
) -> bool {
    exists|root: ParserDocumentRoot<V>, before: PublishedBefore| #[trigger]
        starts_from(previous, root, plan.new@, before) && batch_broken::<V, L>(
            parser,
            language,
            enabled,
            before,
            root.context,
            plan,
            error,
        )
}

proof fn lemma_started_broken<V, L: Language<V>>(
    parser: Parser,
    language: L,
    enabled: bool,
    previous: Option<ParserDocumentRoot<V>>,
    root: ParserDocumentRoot<V>,
    before: PublishedBefore,
    start: StackView,
    recovery: RecoveryView,
    plan: ReplayPlan<'_>,
    error: ParseError,
)
    requires
        starts_from(previous, root, plan.new@, before),
        command_begun(root.context@, plan.new@, start),
        recovery == recovery_begun(root.context.state.recovery@, plan.new@.document.0),
        started_broken::<V, L>(
            parser,
            language,
            enabled,
            before,
            start,
            recovery,
            plan,
            error,
        ),
    ensures
        parse_broken(parser, language, enabled, previous, plan, error),
{
    assert(batch_broken::<V, L>(
        parser,
        language,
        enabled,
        before,
        root.context,
        plan,
        error,
    ));
}

proof fn lemma_ready_broken<V, L: Language<V>>(
    parser: Parser,
    language: L,
    enabled: bool,
    previous: Option<ParserDocumentRoot<V>>,
    root: ParserDocumentRoot<V>,
    before: PublishedBefore,
    start: StackView,
    recovery: RecoveryView,
    plan: ReplayPlan<'_>,
    error: ParseError,
    ready: StackView,
    restart: Restart,
    done: SessionContext<V>,
    stats: IncrementalParseStats,
)
    requires
        starts_from(previous, root, plan.new@, before),
        command_begun(root.context@, plan.new@, start),
        recovery == recovery_begun(root.context.state.recovery@, plan.new@.document.0),
        ready_broken(
            parser,
            language,
            enabled,
            before,
            start,
            recovery,
            plan,
            error,
            ready,
            restart,
            done,
            stats,
        ),
    ensures
        parse_broken(parser, language, enabled, previous, plan, error),
{
    assert(started_broken::<V, L>(
            parser,
            language,
            enabled,
            before,
            start,
            recovery,
            plan,
            error,
        ));
    lemma_started_broken(
        parser,
        language,
        enabled,
        previous,
        root,
        before,
        start,
        recovery,
        plan,
        error,
    );
}

/// A command for a change of tokens broke off.
pub open spec fn delta_broken<V, L: Language<V>>(
    parser: Parser,
    language: L,
    enabled: bool,
    previous: Option<ParserDocumentRoot<V>>,
    new: TokensView,
    splices: Seq<TapeSplice>,
    error: ParseError,
) -> bool {
    exists|plan: ReplayPlan<'_>| #[trigger]
        parse_broken(parser, language, enabled, previous, plan, error) && plan.new@ == new
            && planned(plan, tokens_before(previous), new, splices)
}

/// A command for a change of tokens left no stack alive.
pub open spec fn left_no_stack<V, L: Language<V>>(
    parser: Parser,
    language: L,
    enabled: bool,
    previous: Option<ParserDocumentRoot<V>>,
    new: TokensView,
    splices: Seq<TapeSplice>,
) -> bool {
    exists|column: Option<u64>| #[trigger]
        delta_broken(
            parser,
            language,
            enabled,
            previous,
            new,
            splices,
            ParseError::NoActiveStacks { column },
        )
}

/// The parse that a command starts from: the previous one, or that of a document
/// that was never parsed; and what it had published.
pub open spec fn starts_from<V>(
    previous: Option<ParserDocumentRoot<V>>,
    root: ParserDocumentRoot<V>,
    tokens: TokensView,
    before: PublishedBefore,
) -> bool {
    &&& before == (PublishedBefore {
        roots: root.roots,
        facts: root.tree_facts,
        status: root.published_status,
        diagnostics: root.published_diagnostics,
        semantic_revision: root.semantic_revision,
    })
    &&& match previous {
        Some(previous) => root == previous,
        None => root.untouched(tokens.document.0),
    }
}

/// A parse of a document from scratch, which is counted as such.
pub open spec fn parsed_cold<V, L: Language<V>, T: TreeKinds<V>>(
    parser: Parser,
    language: L,
    enabled: bool,
    tree: T,
    new: TokensView,
    found: ParsedDelta<V>,
) -> bool {
    exists|plan: ReplayPlan<'_>, batch: Batch<V>| #[trigger]
        parsed_by(parser, language, enabled, tree, None, plan, batch) && plan.old is None && plan.new@ == new
            && planned(plan, None, new, Seq::empty()) && root_of(batch, found.root) && found.work
            == (ParserWork { full_rebuild_fallbacks: 1, ..batch.work })
}

/// The parse of a command is a parse by a plan.
pub open spec fn parsed_by<V, L: Language<V>, T: TreeKinds<V>>(
    parser: Parser,
    language: L,
    enabled: bool,
    tree: T,
    previous: Option<ParserDocumentRoot<V>>,
    plan: ReplayPlan<'_>,
    batch: Batch<V>,
) -> bool {
    exists|
        root: ParserDocumentRoot<V>,
        before: PublishedBefore,
        ready: StackView,
        restart: Restart,
        done: SessionContext<V>,
        stats: IncrementalParseStats,
    | #[trigger]
        parsed_from(
            parser,
            language,
            enabled,
            tree,
            before,
            root.context,
            plan,
            ready,
            restart,
            done,
            stats,
            batch,
        ) && starts_from(previous, root, plan.new@, before)
}

/// The parse of a command, but for the tokens that are noted with it.
pub open spec fn root_of<V>(batch: Batch<V>, root: ParserDocumentRoot<V>) -> bool {
    root == (ParserDocumentRoot { token: root.token, ..batch.root })
}

/// Parses a document from scratch.
#[verifier::rlimit(60)]
fn rebuild_document_after_replay_failure<V, L: Language<V>, T: TreeKinds<V>>(
    parser: &Parser,
    language: &L,
    tree: &T,
    config: &ParserConfig,
    new: Arc<ParserTokenDocument>,
) -> (r: Result<ParsedDelta<V>, ParseError>)
    requires
        parser.wf(),
        new.wf(),
        new@.tokens.len() < usize::MAX,
        terminals_fit(new@, parser.grammar),
    ensures
        r is Err ==> delta_broken(
            *parser,
            *language,
            config.error_recovery,
            None::<ParserDocumentRoot<V>>,
            new@,
            Seq::empty(),
            r->Err_0,
        ),
        r is Ok ==> {
            &&& r->Ok_0.root.wf(*parser)
            &&& r->Ok_0.root.token == Some(new)
            &&& parsed_cold(*parser, *language, config.error_recovery, *tree, new@, r->Ok_0)
        },
{
    let patch = TokenPatch {
        old_structure: TokenStructureRevisionId(0),
        new_structure: TokenStructureRevisionId(1),
        order_splices: Vec::new(),
        inserted: Vec::new(),
        updated: Vec::new(),
        removed: Vec::new(),
    };
    let mut found = {
        let plan = ReplayPlan::from_token_patch(None, &*new, &patch);
        assert(patch.order_splices@ =~= Seq::<TapeSplice>::empty());
        match parse_delta_batch(parser, language, tree, config, None, &plan) {
            Ok(batch) => {
                assert(parsed_by(*parser, *language, config.error_recovery, *tree, None, plan, batch));
                let ghost all = batch;
                let mut work = batch.work;
                work.full_rebuild_fallbacks = 1;
                assert(work == (ParserWork { full_rebuild_fallbacks: 1, ..all.work }));
                let found = ParsedDelta { root: batch.root, work };
                assert(root_of(all, found.root));
                assert(parsed_cold(*parser, *language, config.error_recovery, *tree, new@, found));
                found
            },
            Err(error) => {
                assert(parse_broken(
                    *parser,
                    *language,
                    config.error_recovery,
                    None::<ParserDocumentRoot<V>>,
                    plan,
                    error,
                ));
                return Err(error);
            },
        }
    };
    let ghost cold = found;
    found.root.token = Some(Arc::clone(&new));
    proof {
        let (plan, batch) = choose|plan: ReplayPlan<'_>, batch: Batch<V>| #[trigger]
            parsed_by(*parser, *language, config.error_recovery, *tree, None, plan, batch) && plan.old is None && plan.new@ == new@
                && planned(plan, None, new@, Seq::empty()) && root_of(batch, cold.root)
                && cold.work == (ParserWork { full_rebuild_fallbacks: 1, ..batch.work });
        assert(root_of(batch, found.root));
    }
    Ok(found)
}

/// What a change of tokens makes of the parse of a document.
pub open spec fn delta_derived<V, L: Language<V>, T: TreeKinds<V>>(
    parser: Parser,
    language: L,
    enabled: bool,
    tree: T,
    previous: Option<ParserDocumentRoot<V>>,
    patch: TokenPatch,
    new: Arc<ParserTokenDocument>,
    r: Result<ParsedDelta<V>, ParseError>,
) -> bool {
    if patch.keeps_structure() && previous is Some && previous->Some_0.token is Some {
        r == Ok::<ParsedDelta<V>, ParseError>(
            ParsedDelta {
                root: previous->Some_0,
                work: kept_work(
                    new@,
                    patch.updated@,
                    column_total(previous->Some_0.context@.session) as int,
                ),
            },
        )
    } else {
        match r {
            Ok(found) => {
                &&& found.root.token == Some(new)
                &&& {
                    ||| left_no_stack(
                        parser,
                        language,
                        enabled,
                        previous,
                        new@,
                        patch.order_splices@,
                    ) && parsed_cold(parser, language, enabled, tree, new@, found)
                    ||| parsed_delta(
                        parser,
                        language,
                        enabled,
                        tree,
                        previous,
                        new@,
                        patch.order_splices@,
                        found,
                    )
                }
            },
            Err(error) => {
                ||| !(error is NoActiveStacks) && delta_broken(
                    parser,
                    language,
                    enabled,
                    previous,
                    new@,
                    patch.order_splices@,
                    error,
                )
                ||| left_no_stack(
                    parser,
                    language,
                    enabled,
                    previous,
                    new@,
                    patch.order_splices@,
                ) && delta_broken(
                    parser,
                    language,
                    enabled,
                    None::<ParserDocumentRoot<V>>,
                    new@,
                    Seq::empty(),
                    error,
                )
            },
        }
    }
}

/// A parse that a command for a change of tokens led to.
pub open spec fn parsed_delta<V, L: Language<V>, T: TreeKinds<V>>(
    parser: Parser,
    language: L,
    enabled: bool,
    tree: T,
    previous: Option<ParserDocumentRoot<V>>,
    new: TokensView,
    splices: Seq<TapeSplice>,
    found: ParsedDelta<V>,
) -> bool {
    exists|plan: ReplayPlan<'_>, batch: Batch<V>| #[trigger]
        parsed_by(parser, language, enabled, tree, previous, plan, batch) && plan.new@ == new
            && planned(plan, tokens_before(previous), new, splices) && root_of(batch, found.root)
            && found.work == batch.work
}

/// Brings the parse of a document up to date with a change of its tokens. Where
/// the tokens are the same in kind and order, the parse stays as it is. Where
/// reading again leaves no stack alive, the document is parsed from scratch.
pub fn derive_token_delta<V, L: Language<V>, T: TreeKinds<V>>(
    parser: &Parser,
    language: &L,
    tree: &T,
    config: &ParserConfig,
    previous: Option<ParserDocumentRoot<V>>,
    patch: &TokenPatch,
    new: Arc<ParserTokenDocument>,
) -> (r: Result<ParsedDelta<V>, ParseError>)
    requires
        parser.wf(),
        previous is Some ==> previous->Some_0.wf(*parser),
        new.wf(),
        new@.tokens.len() < usize::MAX,
        terminals_fit(new@, parser.grammar),
    ensures
        delta_derived(
            *parser,
            *language,
            config.error_recovery,
            *tree,
            previous,
            *patch,
            new,
            r,
        ),
        r is Ok ==> r->Ok_0.root.wf(*parser),
{
    let ghost first = previous;
    let old: Option<Arc<ParserTokenDocument>> = match &previous {
        Some(root) => match &root.token {
            Some(token) => Some(Arc::clone(token)),
            None => None,
        },
        None => None,
    };
    let same = patch.structure_unchanged() && old.is_some();
    let previous = match previous {
        Some(root) => {
            if same {
                let columns: usize = root.context.state.column_count();
                let work = count_kept(&*new, patch, columns);
                return Ok(ParsedDelta { root, work });
            }
            Some(root)
        },
        None => None,
    };
    let result = match &old {
        Some(tokens) => {
            let plan = ReplayPlan::from_token_patch(Some(&**tokens), &*new, patch);
            match parse_delta_batch(parser, language, tree, config, previous, &plan) {
                Ok(batch) => {
                    proof {
                        assert(parsed_by(
                            *parser,
                            *language,
                            config.error_recovery,
                            *tree,
                            first,
                            plan,
                            batch,
                        ));
                        assert(root_of(
                            batch,
                            ParserDocumentRoot { token: Some(new), ..batch.root },
                        ));
                    }
                    Ok(batch)
                },
                Err(error) => {
                    proof {
                        assert(parse_broken(
                            *parser,
                            *language,
                            config.error_recovery,
                            first,
                            plan,
                            error,
                        ));
                        assert(delta_broken(
                            *parser,
                            *language,
                            config.error_recovery,
                            first,
                            new@,
                            patch.order_splices@,
                            error,
                        ));
                    }
                    Err(error)
                },
            }
        },
        None => {
            let plan = ReplayPlan::from_token_patch(None, &*new, patch);
            match parse_delta_batch(parser, language, tree, config, previous, &plan) {
                Ok(batch) => {
                    proof {
                        assert(parsed_by(
                            *parser,
                            *language,
                            config.error_recovery,
                            *tree,
                            first,
                            plan,
                            batch,
                        ));
                        assert(root_of(
                            batch,
                            ParserDocumentRoot { token: Some(new), ..batch.root },
                        ));
                    }
                    Ok(batch)
                },
                Err(error) => {
                    proof {
                        assert(parse_broken(
                            *parser,
                            *language,
                            config.error_recovery,
                            first,
                            plan,
                            error,
                        ));
                        assert(delta_broken(
                            *parser,
                            *language,
                            config.error_recovery,
                            first,
                            new@,
                            patch.order_splices@,
                            error,
                        ));
                    }
                    Err(error)
                },
            }
        },
    };
    match result {
        Ok(batch) => {
            let mut root = batch.root;
            root.token = Some(Arc::clone(&new));
            Ok(ParsedDelta { root, work: batch.work })
        },
        Err(ParseError::NoActiveStacks { column }) => {
            proof {
                let error = ParseError::NoActiveStacks { column };
                assert(delta_broken(
                    *parser,
                    *language,
                    config.error_recovery,
                    first,
                    new@,
                    patch.order_splices@,
                    error,
                ));
                assert(left_no_stack(
                    *parser,
                    *language,
                    config.error_recovery,
                    first,
                    new@,
                    patch.order_splices@,
                ));
            }
            rebuild_document_after_replay_failure(parser, language, tree, config, new)
        },
        Err(error) => Err(error),
    }
}

/// The tokens of the parse that a command starts from.
pub open spec fn tokens_before<V>(previous: Option<ParserDocumentRoot<V>>) -> Option<TokensView> {
    match previous {
        Some(root) => match root.token {
            Some(token) => Some(token@),
            None => None,
        },
        None => None,
    }
}

} // verus!
