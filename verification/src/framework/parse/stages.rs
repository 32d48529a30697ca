//! The stages that bring what is published of a document up to date.

use std::sync::Arc;

use vstd::prelude::*;

use crate::framework::lex::lexed::TokenPatch;
use crate::framework::parse::component::{
    document_unit, input_node, orders_published, orders_view, status_seen, touched,
    DeltaPublication, ParseUnit, PublishInput, PublishedChildOrder, PublishedNode, SyntaxFamily,
};
use crate::framework::parse::data::green::ParseErrorInfo;
use crate::framework::parse::diagnostics::collected;
use crate::framework::parse::parsing::document::{
    delta_derived, derive_token_delta, ParsedDelta, ParserDocumentRoot,
};
use crate::framework::parse::parsing::error::ParseError;
use crate::framework::parse::parsing::freeze::TreeKinds;
use crate::framework::parse::parsing::session::column_total;
use crate::framework::parse::parsing::stack::Language;
use crate::framework::parse::snapshot::{commit_snapshot, layout_step, AstSnapshot, LayoutStep};
use crate::framework::parse::tables::Parser;
use crate::framework::parse::tokens::{terminals_fit, ParserTokenDocument};
use crate::framework::parse::types::{no_parser_work, runs_add_up, ParserConfig, ParserWork};
use crate::store::RadixMap;

verus! {

// ---------------------------------------------------------------------------
// The parse

/// What the parse of a document publishes.
pub struct ParserPublication<V> {
    pub root: ParserDocumentRoot<V>,
    pub unit: ParseUnit,
    pub diagnostics: Vec<ParseErrorInfo>,
    /// The record that was the root before.
    pub previous_root_record: Option<u64>,
    /// What is counted of the work on the parse.
    pub work: ParserWork,
}

/// What becomes of the parse of a document.
pub enum ParserStep<V> {
    /// The document is closed: what was published of it is taken back, and its
    /// parse is forgotten.
    Closed,
    Published(ParserPublication<V>),
}

/// The parse that a stage starts from. A document that was not active starts
/// afresh.
pub open spec fn kept_root<V>(
    previous: Option<ParserDocumentRoot<V>>,
    was_active: bool,
) -> Option<ParserDocumentRoot<V>> {
    if was_active {
        previous
    } else {
        None
    }
}

/// The record at the root of a parse.
pub open spec fn root_record_of<V>(previous: Option<ParserDocumentRoot<V>>) -> Option<u64> {
    match previous {
        Some(root) => root.tree_facts.root,
        None => None,
    }
}

/// What is published of a parse: its diagnostics, how it ended, and the record
/// at its root where there is one.
pub open spec fn publishes<V>(publication: ParserPublication<V>) -> bool {
    let root = publication.root;
    let infos = collected(
        root.context@.session.diagnostics,
        root.context@.products,
        root.context@.trees,
        root.roots@,
    );
    &&& publication.diagnostics@ == infos
    &&& publication.unit.status == status_seen(infos.len(), root.roots@.len() == 0)
    &&& publication.unit.stats == root.incremental_stats
    &&& publication.unit.root == match root.tree_facts.root {
        Some(record) => if (record as usize) < root.context.arenas.ast.records().len() {
            Some(record)
        } else {
            None
        },
        None => None,
    }
}

/// What the parser stage makes of a document.
pub open spec fn staged<V, L: Language<V>, T: TreeKinds<V>>(
    parser: Parser,
    language: L,
    enabled: bool,
    tree: T,
    kept: Option<ParserDocumentRoot<V>>,
    patch: TokenPatch,
    new: Arc<ParserTokenDocument>,
    r: Result<ParserPublication<V>, ParseError>,
) -> bool {
    match r {
        Ok(publication) => {
            &&& delta_derived(
                parser,
                language,
                enabled,
                tree,
                kept,
                patch,
                new,
                Ok(ParsedDelta { root: publication.root, work: publication.work }),
            )
            &&& publishes(publication)
            &&& publication.previous_root_record == root_record_of(kept)
        },
        Err(error) => delta_derived(
            parser,
            language,
            enabled,
            tree,
            kept,
            patch,
            new,
            Err::<ParsedDelta<V>, ParseError>(error),
        ),
    }
}

/// Brings the parse of a document up to date with its tokens, where it has any,
/// and says what is published of it. A document without tokens is closed.
pub fn parser_document_with<V, L: Language<V>, T: TreeKinds<V>>(
    parser: &Parser,
    language: &L,
    tree: &T,
    config: &ParserConfig,
    previous: Option<ParserDocumentRoot<V>>,
    was_active: bool,
    lexed: Option<(&TokenPatch, Arc<ParserTokenDocument>)>,
) -> (r: Result<ParserStep<V>, ParseError>)
    requires
        parser.wf(),
        previous is Some ==> previous->Some_0.wf(*parser),
        lexed matches Some((_, new)) ==> new.wf() && new@.tokens.len() < usize::MAX
            && terminals_fit(new@, parser.grammar),
    ensures
        match lexed {
            None => r matches Ok(ParserStep::Closed),
            Some((patch, new)) => match r {
                Ok(ParserStep::Closed) => false,
                Ok(ParserStep::Published(publication)) => staged(
                    *parser,
                    *language,
                    config.error_recovery,
                    *tree,
                    kept_root(previous, was_active),
                    *patch,
                    new,
                    Ok(publication),
                ) && publication.root.wf(*parser),
                Err(error) => staged(
                    *parser,
                    *language,
                    config.error_recovery,
                    *tree,
                    kept_root(previous, was_active),
                    *patch,
                    new,
                    Err(error),
                ),
            },
        },
{
    let (patch, new) = match lexed {
        Some(lexed) => lexed,
        None => {
            return Ok(ParserStep::Closed);
        },
    };
    let kept = if was_active {
        previous
    } else {
        None
    };
    let previous_root_record: Option<u64> = match &kept {
        Some(root) => root.tree_facts.root,
        None => None,
    };
    let found = match derive_token_delta(parser, language, tree, config, kept, patch, new) {
        Ok(found) => found,
        Err(error) => {
            return Err(error);
        },
    };
    let (unit, diagnostics) = document_unit(&found.root);
    Ok(
        ParserStep::Published(
            ParserPublication {
                root: found.root,
                unit,
                diagnostics,
                previous_root_record,
                work: found.work,
            },
        ),
    )
}

/// What is counted of a run of the parser over a document.
pub fn parser_run_work<V>(step: &ParserStep<V>) -> (r: ParserWork)
    ensures
        runs_add_up(r),
        r == (ParserWork {
            component_runs: 1,
            semantic_runs: 1,
            layout_projection_runs: 0,
            ..match *step {
                ParserStep::Closed => no_parser_work(),
                ParserStep::Published(publication) => publication.work,
            }
        }),
{
    let work = match step {
        ParserStep::Closed => ParserWork::default(),
        ParserStep::Published(publication) => publication.work,
    };
    ParserWork { component_runs: 1, semantic_runs: 1, layout_projection_runs: 0, ..work }
}

// ---------------------------------------------------------------------------
// The tree

/// A record with the identity under which it is published.
#[derive(Clone, Copy, Debug, PartialEq, Eq, Structural)]
pub struct RecordNode {
    pub record: u64,
    pub node: PublishedNode,
}

/// What is published of the tree of a document.
pub struct TreePublication<V> {
    pub parse: ParserPublication<V>,
    /// The live records that are nodes, in ascending order.
    pub nodes: Vec<RecordNode>,
    pub root_node: Option<PublishedNode>,
    /// The nodes with their children.
    pub orders: RadixMap<PublishedChildOrder>,
}

/// What becomes of the tree of a document.
pub enum TreeStep<V> {
    Closed,
    Published(TreePublication<V>),
}

/// The records of a list that are nodes.
pub open spec fn nodes_among<V, F: SyntaxFamily<V>>(
    input: PublishInput<V, F>,
    records: Seq<u64>,
) -> Seq<RecordNode>
    decreases records.len(),
{
    if records.len() == 0 {
        Seq::empty()
    } else {
        let before = nodes_among(input, records.drop_last());
        let record = records.last();
        match input_node(input, record, input.root == Some(record)) {
            Some(node) => if (record as usize) < input.ast.records().len() {
                before.push(RecordNode { record, node })
            } else {
                before
            },
            None => before,
        }
    }
}

/// What the published tree of a parse depends on.
pub open spec fn tree_input<V, F>(root: ParserDocumentRoot<V>, family: F) -> PublishInput<V, F> {
    PublishInput {
        family,
        ast: root.context.arenas.ast,
        lineage: root.context@.lineage,
        changed: touched(
            root.tree_delta.inserted_records@ + root.tree_delta.updated_records@,
        ),
        root: root.tree_facts.root,
    }
}

/// What is published of the tree of a parse, over what was published of it
/// before.
pub open spec fn publishes_tree<V, F: SyntaxFamily<V>>(
    family: F,
    before: Map<u64, PublishedChildOrder>,
    publication: TreePublication<V>,
) -> bool {
    let root = publication.parse.root;
    let input = tree_input(root, family);
    &&& publication.nodes@ == nodes_among(input, root.tree_delta.live_records.spec_keys())
    &&& publication.root_node == match root.tree_facts.root {
        Some(record) => input_node(input, record, true),
        None => None,
    }
    &&& publication.orders.wf()
    &&& orders_view(publication.orders@) == orders_published(
        orders_view(before),
        input,
        root.tree_delta,
    )
}

/// The live records of a parse that are nodes.
fn live_nodes<V, F: SyntaxFamily<V>>(
    publication: &DeltaPublication<'_, V>,
    family: &F,
) -> (r: Vec<RecordNode>)
    requires
        publication.wf(),
        publication.delta.live_records.wf(),
    ensures
        r@ == nodes_among(
            publication.input(*family),
            publication.delta.live_records.spec_keys(),
        ),
{
    let ghost input = publication.input(*family);
    let ghost keys = publication.delta.live_records.spec_keys();
    let mut nodes: Vec<RecordNode> = Vec::new();
    let total: usize = publication.delta.live_records.len();
    let mut at: usize = 0;
    assert(keys.take(0) =~= Seq::<u64>::empty());
    while at < total
        invariant
            at <= total,
            total == keys.len(),
            publication.wf(),
            publication.delta.live_records.wf(),
            keys == publication.delta.live_records.spec_keys(),
            input == publication.input(*family),
            nodes@ == nodes_among(input, keys.take(at as int)),
        decreases total - at,
    {
        let record: u64 = publication.delta.live_records.key_at(at);
        proof {
            assert(keys.take(at as int + 1).drop_last() =~= keys.take(at as int));
            assert(keys.take(at as int + 1).last() == record);
        }
        let is_root = match publication.current_root_record {
            Some(root) => root == record,
            None => false,
        };
        if let Some(node) = publication.published_node_for_record(family, record, is_root) {
            if publication.ast.contains_id(record as usize) {
                nodes.push(RecordNode { record, node });
            }
        }
        at += 1;
    }
    assert(keys.take(at as int) =~= keys);
    nodes
}

/// Brings the tree of a document up to date with its tokens. What was published
/// of the tree before counts only where the document was active and parsed.
pub fn parser_document_tree<V, L: Language<V>, T: TreeKinds<V>, F: SyntaxFamily<V>>(
    parser: &Parser,
    language: &L,
    tree: &T,
    family: &F,
    config: &ParserConfig,
    previous: Option<ParserDocumentRoot<V>>,
    orders: &RadixMap<PublishedChildOrder>,
    was_active: bool,
    lexed: Option<(&TokenPatch, Arc<ParserTokenDocument>)>,
) -> (r: Result<TreeStep<V>, ParseError>)
    requires
        parser.wf(),
        previous is Some ==> previous->Some_0.wf(*parser),
        orders.wf(),
        lexed matches Some((_, new)) ==> new.wf() && new@.tokens.len() < usize::MAX
            && terminals_fit(new@, parser.grammar),
    ensures
        match lexed {
            None => r matches Ok(TreeStep::Closed),
            Some((patch, new)) => match r {
                Ok(TreeStep::Closed) => false,
                Ok(TreeStep::Published(publication)) => {
                    &&& staged(
                        *parser,
                        *language,
                        config.error_recovery,
                        *tree,
                        kept_root(previous, was_active),
                        *patch,
                        new,
                        Ok(publication.parse),
                    )
                    &&& publication.parse.root.wf(*parser)
                    &&& publishes_tree(
                        *family,
                        if kept_root(previous, was_active) is Some {
                            orders@
                        } else {
                            Map::empty()
                        },
                        publication,
                    )
                },
                Err(error) => staged(
                    *parser,
                    *language,
                    config.error_recovery,
                    *tree,
                    kept_root(previous, was_active),
                    *patch,
                    new,
                    Err(error),
                ),
            },
        },
{
    let parsed_before = was_active && previous.is_some();
    let step = match parser_document_with(
        parser,
        language,
        tree,
        config,
        previous,
        was_active,
        lexed,
    ) {
        Ok(step) => step,
        Err(error) => {
            return Err(error);
        },
    };
    let parse = match step {
        ParserStep::Closed => {
            return Ok(TreeStep::Closed);
        },
        ParserStep::Published(parse) => parse,
    };
    let nothing: RadixMap<PublishedChildOrder> = RadixMap::new();
    let before = if parsed_before {
        orders
    } else {
        &nothing
    };
    let (nodes, root_node, next) = {
        let publication = DeltaPublication::new(
            &parse.root.context.arenas.ast,
            &parse.root.context.state.lineage,
            &parse.root.tree_delta,
            parse.root.tree_facts.root,
            parse.previous_root_record,
            before,
        );
        let nodes = live_nodes(&publication, family);
        let root_node = match parse.root.tree_facts.root {
            Some(record) => publication.published_node_for_record(family, record, true),
            None => None,
        };
        let next = publication.build_published_child_orders(family);
        proof {
            assert(publication.input(*family) == tree_input(parse.root, *family));
        }
        (nodes, root_node, next)
    };
    Ok(TreeStep::Published(TreePublication { parse, nodes, root_node, orders: next }))
}

// ---------------------------------------------------------------------------
// The editor's view

/// What becomes of the editor's view of a document.
pub struct LayoutOutcome<'a, V> {
    pub step: LayoutStep,
    /// The view, where one is published.
    pub snapshot: Option<AstSnapshot<'a, V>>,
}

/// The layout that a parse was made at.
pub open spec fn parsed_layout<V>(root: Option<&ParserDocumentRoot<V>>) -> Option<
    ParserTokenDocument,
> {
    match root {
        Some(root) => match root.token {
            Some(token) => Some(*token),
            None => None,
        },
        None => None,
    }
}

/// What becomes of the editor's view: it goes with the tokens, it stays where
/// the document was never parsed, and else it is published anew. Where the
/// layout moved since the parse, the columns and tokens of the parse count as
/// used again.
pub open spec fn layout_outcome<V>(
    tokens: Option<&ParserTokenDocument>,
    root: Option<&ParserDocumentRoot<V>>,
) -> LayoutStep {
    match (tokens, parsed_layout(root)) {
        (None, _) => LayoutStep::Remove,
        (Some(_), None) => LayoutStep::Keep,
        (Some(now), Some(parsed)) => if parsed.layout().0 < now.layout().0 {
            let columns = column_total(root->Some_0.context@.session);
            LayoutStep::Publish {
                columns_reused: if columns == 0 {
                    0
                } else {
                    (columns - 1) as u64
                },
                tokens_reused: parsed@.tokens.len() as u64,
            }
        } else {
            LayoutStep::Publish { columns_reused: 0, tokens_reused: 0 }
        },
    }
}

/// The columns and tokens of the parse that a step uses again.
pub open spec fn reused_by(step: LayoutStep) -> (u64, u64) {
    match step {
        LayoutStep::Publish { columns_reused, tokens_reused } => (columns_reused, tokens_reused),
        _ => (0, 0),
    }
}

/// Publishes the editor's view of a document under the next number, and counts
/// the run, which is none of the parser proper.
pub fn parser_layout_snapshot<'a, V>(
    tokens: Option<&'a ParserTokenDocument>,
    root: Option<&'a ParserDocumentRoot<V>>,
    next_snapshot: &mut u64,
    source: &'a ropey::Rope,
    work: &mut ParserWork,
) -> (r: LayoutOutcome<'a, V>)
    requires
        root is Some ==> column_total(root->Some_0.context@.session) <= usize::MAX,
        old(work).component_runs < u64::MAX,
        old(work).layout_projection_runs < u64::MAX,
        old(work).columns_reused + reused_by(layout_outcome(tokens, root)).0 <= u64::MAX,
        old(work).tokens_reused + reused_by(layout_outcome(tokens, root)).1 <= u64::MAX,
    ensures
        *final(work) == (ParserWork {
            component_runs: (old(work).component_runs + 1) as u64,
            layout_projection_runs: (old(work).layout_projection_runs + 1) as u64,
            columns_reused: (old(work).columns_reused + reused_by(r.step).0) as u64,
            tokens_reused: (old(work).tokens_reused + reused_by(r.step).1) as u64,
            ..*old(work)
        }),
        runs_add_up(*old(work)) ==> runs_add_up(*final(work)),
        r.step == layout_outcome(tokens, root),
        r.snapshot is Some <==> r.step is Publish,
        r.step is Publish ==> {
            let snapshot = r.snapshot->Some_0;
            &&& snapshot.id == *old(next_snapshot)
            &&& snapshot.source == source
            &&& *snapshot.arena == root->Some_0.context.arenas.ast
            &&& *snapshot.live_records == root->Some_0.tree_facts.records
            &&& snapshot.token_document == tokens->Some_0
        },
        *final(next_snapshot) == if r.step is Publish {
            if *old(next_snapshot) == u64::MAX {
                0
            } else {
                (*old(next_snapshot) + 1) as u64
            }
        } else {
            *old(next_snapshot)
        },
{
    let mut columns: usize = 0;
    let mut parsed_tokens: usize = 0;
    let parsed = match root {
        Some(root) => match &root.token {
            Some(token) => {
                columns = root.context.state.column_count();
                parsed_tokens = token.semantic_len();
                Some(token.layout_revision())
            },
            None => None,
        },
        None => None,
    };
    let now = match tokens {
        Some(tokens) => Some(tokens.layout_revision()),
        None => None,
    };
    let step = layout_step(now, parsed, columns, parsed_tokens);
    work.component_runs = work.component_runs + 1;
    work.layout_projection_runs = work.layout_projection_runs + 1;
    if let LayoutStep::Publish { columns_reused, tokens_reused } = step {
        work.columns_reused = work.columns_reused + columns_reused;
        work.tokens_reused = work.tokens_reused + tokens_reused;
    }
    let snapshot = match (&step, tokens) {
        (LayoutStep::Publish { .. }, Some(tokens)) => match commit_snapshot(
            root,
            next_snapshot,
            source,
            tokens,
        ) {
            Ok(snapshot) => Some(snapshot),
            Err(_) => None,
        },
        _ => None,
    };
    LayoutOutcome { step, snapshot }
}

} // verus!
