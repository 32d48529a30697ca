//! Reducing at one gap until nothing is left to reduce.

use vstd::prelude::*;

use crate::framework::lex::lexed::TokenOccurrenceId;
use crate::framework::parse::data::gss::{edges_from, lemma_edge_ids, GssEdge, GssNode, GssNodeId, GssView};
use crate::framework::parse::data::product::ProductId;
use crate::framework::parse::grammar::{Grammar, TerminalId};
use crate::framework::parse::parsing::columns::{with_id, ColumnView};
use crate::framework::parse::parsing::error::{BuildError, ParseError};
use crate::framework::parse::parsing::growth::{
    built_on, lemma_built_grown, lemma_built_reduced, lemma_built_same, lemma_built_trans,
    lemma_grown_stacks,
};
use crate::framework::parse::parsing::reductions::key_of;
use crate::framework::parse::parsing::session::{led_right, SessionView};
use crate::framework::parse::parsing::stack::{
    build_failed, error_paths, extended, is_error, path_views, paths_from, paths_over, reduced, states_fit,
    takes_errors, Language, PathView, SessionContext, StackView,
};
use crate::framework::parse::tables::{
    action_items, lemma_goto_fits, lemma_reduce_fits, Action, Parser,
};

verus! {

/// The stacks with a node, unless it is there.
pub open spec fn with_node(gss: GssView, node: GssNode) -> GssView {
    if gss.nodes.contains(node) {
        gss
    } else {
        GssView { nodes: gss.nodes.push(node), edges: gss.edges }
    }
}

/// The stacks with an edge, unless it is there.
pub open spec fn with_edge(gss: GssView, edge: GssEdge) -> GssView {
    if gss.edges.contains(edge) {
        gss
    } else {
        GssView { nodes: gss.nodes, edges: gss.edges.push(edge) }
    }
}

/// The id of a node.
pub open spec fn node_id(gss: GssView, node: GssNode) -> usize {
    gss.nodes.index_of(node) as usize
}

/// The work with another column at a place.
pub open spec fn with_column_at(v: StackView, column: int, content: ColumnView) -> StackView {
    StackView {
        session: SessionView {
            columns: v.session.columns.update(column, content),
            ..v.session
        },
        ..v
    }
}

/// What a reduction leads to: its product is noted in the column, and the state
/// behind it stands on the path's end.
pub open spec fn after_goto(
    v: StackView,
    column: int,
    state: usize,
    below: GssNodeId,
    product: ProductId,
) -> StackView {
    let content = v.session.columns[column];
    let node = GssNode { state, column: column as usize, generation: v.session.generation };
    let gss = with_node(v.gss, node);
    let id = node_id(gss, node);
    StackView {
        gss: with_edge(
            gss,
            GssEdge { from: id, to: below, product, generation: v.session.generation },
        ),
        ..with_column_at(
            v,
            column,
            ColumnView {
                products: with_id(content.products, product),
                active: with_id(content.active, id),
                ..content
            },
        )
    }
}

/// What acceptance leads to.
pub open spec fn after_accept(v: StackView, column: int, product: ProductId) -> StackView {
    let content = v.session.columns[column];
    with_column_at(
        v,
        column,
        ColumnView {
            products: with_id(content.products, product),
            accepted: with_id(content.accepted, product),
            ..content
        },
    )
}

/// Where and before which token is reduced.
pub ghost struct Gap {
    pub column: int,
    pub lookahead: TerminalId,
    pub boundary: TokenOccurrenceId,
}

/// The number of symbols of a production.
pub open spec fn rhs_len(parser: Parser, production: usize) -> nat {
    parser.grammar.productions@[production as int].rhs_len as nat
}

/// A node of a column has an action before the token.
pub open spec fn acts(parser: Parser, gap: Gap, v: StackView, node: GssNodeId, action: Action) -> bool {
    &&& node < v.gss.nodes.len()
    &&& parser.actions_at(v.gss.nodes[node as int].state, gap.lookahead).contains(action)
}

/// A path down from a node: over edges, or over an error of the column where
/// the production takes one.
pub open spec fn is_path(
    v: StackView,
    g: Grammar,
    column: int,
    node: GssNodeId,
    production: usize,
    depth: nat,
    path: PathView,
) -> bool
    decreases depth,
{
    if depth == 0 {
        path.predecessor == node && path.products.len() == 0
    } else {
        ||| exists|i: int| #[trigger]
            edge_leads(v, i, node) && path.products.len() > 0 && v.gss.edges[i].product
                == path.products.last() && is_path(
                v,
                g,
                column,
                v.gss.edges[i].to,
                production,
                (depth - 1) as nat,
                PathView {
                    predecessor: path.predecessor,
                    products: path.products.drop_last(),
                },
            )
        ||| depth == 1 && takes_errors(g, production) && path.predecessor == node
            && path.products.len() == 1 && is_error(v.products, path.products[0])
            && v.session.columns[column].products.contains(path.products[0])
    }
}

/// An edge leaves a node.
pub open spec fn edge_leads(v: StackView, i: int, node: GssNodeId) -> bool {
    0 <= i < v.gss.edges.len() && v.gss.edges[i].from == node
}

/// One reduction leads from `v` to `w`.
pub open spec fn goto_step(
    parser: Parser,
    gap: Gap,
    v: StackView,
    w: StackView,
    node: GssNodeId,
    production: usize,
    path: PathView,
    mid: StackView,
    product: ProductId,
) -> bool {
    let lhs = parser.grammar.productions@[production as int].lhs;
    &&& production < parser.grammar.productions@.len()
    &&& v.session.columns[gap.column].active.contains(node)
    &&& acts(parser, gap, v, node, Action::Reduce(production))
    &&& is_path(
        v,
        parser.grammar,
        gap.column,
        node,
        production,
        rhs_len(parser, production),
        path,
    )
    &&& path.predecessor < v.gss.nodes.len()
    &&& reduced(
        v,
        mid,
        lhs,
        key_of(production as u32, path.products, gap.boundary),
        gap.boundary,
        product,
    )
    &&& parser.goto_at(v.gss.nodes[path.predecessor as int].state, lhs) is Some
    &&& w == after_goto(
        mid,
        gap.column,
        parser.goto_at(v.gss.nodes[path.predecessor as int].state, lhs)->Some_0,
        path.predecessor,
        product,
    )
}

/// One acceptance leads from `v` to `w`.
pub open spec fn accept_step(
    parser: Parser,
    gap: Gap,
    v: StackView,
    w: StackView,
    node: GssNodeId,
    path: PathView,
    mid: StackView,
    product: ProductId,
) -> bool {
    &&& v.session.columns[gap.column].active.contains(node)
    &&& acts(parser, gap, v, node, Action::Accept)
    &&& is_path(v, parser.grammar, gap.column, node, 0, rhs_len(parser, 0), path)
    &&& reduced(
        v,
        mid,
        parser.grammar.productions@[0].lhs,
        key_of(0, path.products, gap.boundary),
        gap.boundary,
        product,
    )
    &&& w == after_accept(mid, gap.column, product)
}

/// One step leads from `v` to `w`.
pub open spec fn one_step(parser: Parser, gap: Gap, v: StackView, w: StackView) -> bool {
    ||| exists|node: GssNodeId, production: usize, path: PathView, mid: StackView, product: ProductId|
        #[trigger] goto_step(parser, gap, v, w, node, production, path, mid, product)
    ||| exists|node: GssNodeId, path: PathView, mid: StackView, product: ProductId|
        #[trigger] accept_step(parser, gap, v, w, node, path, mid, product)
}

/// So many reductions lead from `v` to `w`.
pub open spec fn derived(parser: Parser, gap: Gap, v: StackView, w: StackView, steps: nat) -> bool
    decreases steps,
{
    if steps == 0 {
        w == v
    } else {
        exists|u: StackView|
            derived(parser, gap, v, u, (steps - 1) as nat) && #[trigger] one_step(parser, gap, u, w)
    }
}

/// Reductions lead from `v` to `w`.
pub open spec fn reduces_to(parser: Parser, gap: Gap, v: StackView, w: StackView) -> bool {
    exists|steps: nat| #[trigger] derived(parser, gap, v, w, steps)
}

/// What a path asks for is there already.
pub open spec fn path_done(
    parser: Parser,
    gap: Gap,
    v: StackView,
    production: usize,
    path: PathView,
) -> bool {
    let lhs = parser.grammar.productions@[production as int].lhs;
    let key = key_of(production as u32, path.products, gap.boundary);
    let product = v.reductions.products[key];
    &&& v.reductions.products.dom().contains(key)
    &&& path.predecessor < v.gss.nodes.len()
    &&& parser.goto_at(v.gss.nodes[path.predecessor as int].state, lhs) is Some
    &&& after_goto(
        v,
        gap.column,
        parser.goto_at(v.gss.nodes[path.predecessor as int].state, lhs)->Some_0,
        path.predecessor,
        product,
    ) == v
}

/// What an acceptance asks for is there already.
pub open spec fn accept_done(gap: Gap, v: StackView, path: PathView) -> bool {
    let key = key_of(0, path.products, gap.boundary);
    v.reductions.products.dom().contains(key) && after_accept(
        v,
        gap.column,
        v.reductions.products[key],
    ) == v
}

/// An action asks for nothing more.
pub open spec fn action_done(
    parser: Parser,
    gap: Gap,
    v: StackView,
    node: GssNodeId,
    action: Action,
) -> bool {
    match action {
        Action::Reduce(production) => {
            let paths = paths_from(
                v,
                parser.grammar,
                gap.column,
                node,
                production,
                rhs_len(parser, production),
            );
            forall|k: int|
                0 <= k < paths.len() ==> path_done(parser, gap, v, production, #[trigger] paths[k])
        },
        Action::Accept => {
            let paths = paths_from(
                v,
                parser.grammar,
                gap.column,
                node,
                0,
                rhs_len(parser, 0),
            );
            forall|k: int| 0 <= k < paths.len() ==> accept_done(gap, v, #[trigger] paths[k])
        },
        _ => true,
    }
}

/// A node asks for nothing more.
pub open spec fn node_done(parser: Parser, gap: Gap, v: StackView, node: GssNodeId) -> bool {
    &&& node < v.gss.nodes.len()
    &&& forall|a: int|
        0 <= a < parser.actions_at(v.gss.nodes[node as int].state, gap.lookahead).len()
            ==> action_done(
            parser,
            gap,
            v,
            node,
            #[trigger] parser.actions_at(v.gss.nodes[node as int].state, gap.lookahead)[a],
        )
}

/// Nothing is left to reduce.
pub open spec fn stable(parser: Parser, gap: Gap, v: StackView) -> bool {
    forall|i: int|
        0 <= i < v.session.columns[gap.column].active.len() ==> node_done(
            parser,
            gap,
            v,
            #[trigger] v.session.columns[gap.column].active[i],
        )
}

/// How much there is; reductions only add.
spec fn bulk(v: StackView, column: int) -> nat {
    v.products.len() + v.gss.nodes.len() + v.gss.edges.len()
        + v.session.columns[column].products.len() + v.session.columns[column].active.len()
        + v.session.columns[column].accepted.len()
}

// ---------------------------------------------------------------------------
// Paths

/// Every path that is listed is a path.
proof fn lemma_paths_are_paths(
    v: StackView,
    g: Grammar,
    column: int,
    node: GssNodeId,
    production: usize,
    depth: nat,
    k: int,
)
    requires
        v.gss.edges.len() <= usize::MAX,
        0 <= k < paths_from(v, g, column, node, production, depth).len(),
    ensures
        is_path(
            v,
            g,
            column,
            node,
            production,
            depth,
            paths_from(v, g, column, node, production, depth)[k],
        ),
    decreases depth, 1nat, 0nat,
{
    let all = paths_from(v, g, column, node, production, depth);
    if depth > 0 {
        let edges = edges_from(v.gss.edges, node);
        let found = paths_over(v, g, column, production, depth, edges, edges.len());
        if found.len() == 0 && depth == 1 && takes_errors(g, production) {
            let list = v.session.columns[column].products;
            lemma_error_path(v, list, node, k);
        } else {
            lemma_paths_over(v, g, column, node, production, depth, edges.len(), k);
        }
    }
}

proof fn lemma_error_path(v: StackView, list: Seq<ProductId>, node: GssNodeId, k: int)
    requires
        0 <= k < error_paths(v.products, list, node).len(),
    ensures
        ({
            let path = error_paths(v.products, list, node)[k];
            path.predecessor == node && path.products.len() == 1 && is_error(
                v.products,
                path.products[0],
            ) && list.contains(path.products[0])
        }),
    decreases list.len(),
{
    let rest = list.drop_last();
    let before = error_paths(v.products, rest, node);
    if k < before.len() {
        lemma_error_path(v, rest, node, k);
        let product = before[k].products[0];
        let i = choose|i: int| 0 <= i < rest.len() && rest[i] == product;
        assert(list[i] == product);
    } else {
        assert(list.contains(list[list.len() - 1]));
    }
}

proof fn lemma_paths_over(
    v: StackView,
    g: Grammar,
    column: int,
    node: GssNodeId,
    production: usize,
    depth: nat,
    until: nat,
    k: int,
)
    requires
        v.gss.edges.len() <= usize::MAX,
        depth > 0,
        until <= edges_from(v.gss.edges, node).len(),
        0 <= k < paths_over(
            v,
            g,
            column,
            production,
            depth,
            edges_from(v.gss.edges, node),
            until,
        ).len(),
    ensures
        is_path(
            v,
            g,
            column,
            node,
            production,
            depth,
            paths_over(v, g, column, production, depth, edges_from(v.gss.edges, node), until)[k],
        ),
    decreases depth, 0nat, until,
{
    let edges = edges_from(v.gss.edges, node);
    if until > 0 {
        let before = paths_over(v, g, column, production, depth, edges, (until - 1) as nat);
        let edge = edges[until - 1];
        let lower = paths_from(v, g, column, edge.to, production, (depth - 1) as nat);
        if k < before.len() {
            lemma_paths_over(v, g, column, node, production, depth, (until - 1) as nat, k);
        } else {
            let j = k - before.len();
            lemma_paths_are_paths(v, g, column, edge.to, production, (depth - 1) as nat, j);
            lemma_edge_ids(v.gss.edges, node);
            let ids = crate::framework::parse::data::gss::edge_ids_from(v.gss.edges, node);
            let i = ids[until - 1] as int;
            assert(v.gss.edges[i] == edge);
            assert(edge_leads(v, i, node));
            let path = extended(lower, edge.product)[j];
            assert(path.products.drop_last() =~= lower[j].products);
            assert(PathView { predecessor: path.predecessor, products: path.products.drop_last() }
                == lower[j]);
        }
    }
}

/// The stacks only grew.
pub open spec fn grew(v: StackView, w: StackView, column: int) -> bool {
    &&& v.gss.nodes.is_prefix_of(w.gss.nodes)
    &&& v.gss.edges.is_prefix_of(w.gss.edges)
    &&& v.products.is_prefix_of(w.products)
    &&& forall|id: ProductId| #[trigger]
        v.session.columns[column].products.contains(id)
            ==> w.session.columns[column].products.contains(id)
    &&& forall|id: GssNodeId| #[trigger]
        v.session.columns[column].active.contains(id)
            ==> w.session.columns[column].active.contains(id)
}

/// A path stays a path where the stacks only grew.
proof fn lemma_path_stays(
    v: StackView,
    w: StackView,
    g: Grammar,
    column: int,
    node: GssNodeId,
    production: usize,
    depth: nat,
    path: PathView,
)
    requires
        grew(v, w, column),
        is_path(v, g, column, node, production, depth, path),
    ensures
        is_path(w, g, column, node, production, depth, path),
    decreases depth,
{
    if depth > 0 {
        if exists|i: int| #[trigger]
            edge_leads(v, i, node) && path.products.len() > 0 && v.gss.edges[i].product
                == path.products.last() && is_path(
                v,
                g,
                column,
                v.gss.edges[i].to,
                production,
                (depth - 1) as nat,
                PathView {
                    predecessor: path.predecessor,
                    products: path.products.drop_last(),
                },
            ) {
            let i = choose|i: int| #[trigger]
                edge_leads(v, i, node) && path.products.len() > 0 && v.gss.edges[i].product
                    == path.products.last() && is_path(
                    v,
                    g,
                    column,
                    v.gss.edges[i].to,
                    production,
                    (depth - 1) as nat,
                    PathView {
                        predecessor: path.predecessor,
                        products: path.products.drop_last(),
                    },
                );
            lemma_path_stays(
                v,
                w,
                g,
                column,
                v.gss.edges[i].to,
                production,
                (depth - 1) as nat,
                PathView { predecessor: path.predecessor, products: path.products.drop_last() },
            );
            assert(w.gss.edges[i] == v.gss.edges[i]);
            assert(edge_leads(w, i, node));
        } else {
            assert(v.products[path.products[0] as int] == w.products[path.products[0] as int]);
        }
    }
}

proof fn lemma_with_id(list: Seq<usize>, id: usize, other: usize)
    ensures
        list.contains(other) ==> with_id(list, id).contains(other),
        with_id(list, id).contains(id),
        with_id(list, id).len() >= list.len(),
        !list.contains(id) ==> with_id(list, id).len() == list.len() + 1,
{
    if !list.contains(id) {
        assert(with_id(list, id)[list.len() as int] == id);
        if list.contains(other) {
            let k = choose|k: int| 0 <= k < list.len() && list[k] == other;
            assert(with_id(list, id)[k] == other);
        }
    }
}

proof fn lemma_reduced_grows(
    v: StackView,
    w: StackView,
    lhs: u32,
    key: crate::framework::parse::parsing::reductions::KeyView,
    boundary: TokenOccurrenceId,
    product: ProductId,
    column: int,
)
    requires
        reduced(v, w, lhs, key, boundary, product),
    ensures
        grew(v, w, column),
        w.session == v.session,
        w.gss == v.gss,
        bulk(w, column) >= bulk(v, column),
        w != v ==> bulk(w, column) > bulk(v, column),
        w.reductions.products.dom().contains(key),
        w.reductions.products[key] == product,
{
    if !v.reductions.products.dom().contains(key) {
        assert(v.products.is_prefix_of(w.products)) by {
            assert forall|i: int| 0 <= i < v.products.len() implies v.products[i]
                == w.products[i] by {
                assert(w.products.drop_last()[i] == v.products[i]);
            }
            assert(w.products.take(v.products.len() as int) =~= v.products);
        }
    } else {
        assert(v.products.take(v.products.len() as int) =~= v.products);
    }
    assert(v.gss.nodes.take(v.gss.nodes.len() as int) =~= v.gss.nodes);
    assert(v.gss.edges.take(v.gss.edges.len() as int) =~= v.gss.edges);
}

proof fn lemma_goto_grows(
    v: StackView,
    column: int,
    state: usize,
    below: GssNodeId,
    product: ProductId,
)
    requires
        0 <= column < v.session.columns.len(),
    ensures
        ({
            let w = after_goto(v, column, state, below, product);
            &&& grew(v, w, column)
            &&& bulk(w, column) >= bulk(v, column)
            &&& w != v ==> bulk(w, column) > bulk(v, column)
            &&& w.session.columns.len() == v.session.columns.len()
        }),
{
    let w = after_goto(v, column, state, below, product);
    let content = v.session.columns[column];
    let node = GssNode { state, column: column as usize, generation: v.session.generation };
    let gss = with_node(v.gss, node);
    let id = node_id(gss, node);
    assert forall|other: usize| #[trigger] content.products.contains(other) implies
        w.session.columns[column].products.contains(other) by {
        lemma_with_id(content.products, product, other);
    }
    assert forall|other: usize| #[trigger] content.active.contains(other) implies
        w.session.columns[column].active.contains(other) by {
        lemma_with_id(content.active, id, other);
    }
    lemma_with_id(content.products, product, product);
    lemma_with_id(content.active, id, id);
    assert(v.gss.nodes.is_prefix_of(w.gss.nodes));
    assert(v.gss.edges.is_prefix_of(w.gss.edges));
    assert(v.products.is_prefix_of(w.products));
    if bulk(w, column) == bulk(v, column) {
        assert(w.session.columns[column] =~= content);
        assert(w.session.columns =~= v.session.columns);
        assert(w =~= v);
    }
}

proof fn lemma_accept_grows(v: StackView, column: int, product: ProductId)
    requires
        0 <= column < v.session.columns.len(),
    ensures
        ({
            let w = after_accept(v, column, product);
            &&& grew(v, w, column)
            &&& bulk(w, column) >= bulk(v, column)
            &&& w != v ==> bulk(w, column) > bulk(v, column)
            &&& w.session.columns.len() == v.session.columns.len()
        }),
{
    let w = after_accept(v, column, product);
    let content = v.session.columns[column];
    assert forall|other: usize| #[trigger] content.products.contains(other) implies
        w.session.columns[column].products.contains(other) by {
        lemma_with_id(content.products, product, other);
    }
    lemma_with_id(content.products, product, product);
    lemma_with_id(content.accepted, product, product);
    assert(v.gss.nodes.is_prefix_of(w.gss.nodes));
    assert(v.gss.edges.is_prefix_of(w.gss.edges));
    assert(v.products.is_prefix_of(w.products));
    if bulk(w, column) == bulk(v, column) {
        assert(w.session.columns[column] =~= content);
        assert(w.session.columns =~= v.session.columns);
        assert(w =~= v);
    }
}

proof fn lemma_grew_trans(u: StackView, v: StackView, w: StackView, column: int)
    requires
        grew(u, v, column),
        grew(v, w, column),
    ensures
        grew(u, w, column),
{
    assert(u.gss.nodes.is_prefix_of(w.gss.nodes)) by {
        assert forall|i: int| 0 <= i < u.gss.nodes.len() implies u.gss.nodes[i]
            == w.gss.nodes[i] by {}
        assert(w.gss.nodes.take(u.gss.nodes.len() as int) =~= u.gss.nodes);
    }
    assert(u.gss.edges.is_prefix_of(w.gss.edges)) by {
        assert(w.gss.edges.take(u.gss.edges.len() as int) =~= u.gss.edges);
    }
    assert(u.products.is_prefix_of(w.products)) by {
        assert(w.products.take(u.products.len() as int) =~= u.products);
    }
}

proof fn lemma_grew_self(v: StackView, column: int)
    ensures
        grew(v, v, column),
{
    assert(v.gss.nodes.take(v.gss.nodes.len() as int) =~= v.gss.nodes);
    assert(v.gss.edges.take(v.gss.edges.len() as int) =~= v.gss.edges);
    assert(v.products.take(v.products.len() as int) =~= v.products);
}

// ---------------------------------------------------------------------------
// What reductions leave alone

/// Nothing but one column, the arenas and what belongs to them may differ.
pub open spec fn same_but_column(v: StackView, w: StackView, column: int) -> bool {
    &&& w.session.columns.len() == v.session.columns.len()
    &&& forall|i: int|
        0 <= i < v.session.columns.len() && i != column ==> #[trigger] w.session.columns[i]
            == v.session.columns[i]
    &&& w.session.columns[column].token == v.session.columns[column].token
    &&& w.session.columns[column].base == v.session.columns[column].base
    &&& w.session.columns[column].diagnostics == v.session.columns[column].diagnostics
    &&& w.session.columns[column].error_derived == v.session.columns[column].error_derived
    &&& w.session.columns[column].boundary == v.session.columns[column].boundary
    &&& w.session == (SessionView { columns: w.session.columns, ..v.session })
}

/// Reductions leave the other columns alone and only add to theirs.
pub proof fn lemma_reductions_keep(
    parser: Parser,
    gap: Gap,
    v: StackView,
    w: StackView,
    steps: nat,
)
    requires
        derived(parser, gap, v, w, steps),
        0 <= gap.column < v.session.columns.len(),
    ensures
        same_but_column(v, w, gap.column),
        grew(v, w, gap.column),
    decreases steps,
{
    if steps == 0 {
        lemma_grew_self(v, gap.column);
    } else {
        let u = choose|u: StackView|
            derived(parser, gap, v, u, (steps - 1) as nat) && #[trigger] one_step(
                parser,
                gap,
                u,
                w,
            );
        lemma_reductions_keep(parser, gap, v, u, (steps - 1) as nat);
        lemma_step_keeps(parser, gap, u, w);
        lemma_grew_trans(v, u, w, gap.column);
        assert forall|i: int| 0 <= i < v.session.columns.len() && i != gap.column implies
            #[trigger] w.session.columns[i] == v.session.columns[i] by {
            assert(u.session.columns[i] == v.session.columns[i]);
        }
    }
}

/// Reductions leave the other columns alone and only add to theirs.
pub proof fn lemma_reduces_keep(parser: Parser, gap: Gap, v: StackView, w: StackView)
    requires
        reduces_to(parser, gap, v, w),
        0 <= gap.column < v.session.columns.len(),
    ensures
        same_but_column(v, w, gap.column),
        grew(v, w, gap.column),
{
    let steps = choose|steps: nat| #[trigger] derived(parser, gap, v, w, steps);
    lemma_reductions_keep(parser, gap, v, w, steps);
}

proof fn lemma_step_keeps(parser: Parser, gap: Gap, v: StackView, w: StackView)
    requires
        one_step(parser, gap, v, w),
        0 <= gap.column < v.session.columns.len(),
    ensures
        same_but_column(v, w, gap.column),
        grew(v, w, gap.column),
{
    if exists|node: GssNodeId, production: usize, path: PathView, mid: StackView, product: ProductId|
        #[trigger] goto_step(parser, gap, v, w, node, production, path, mid, product) {
        let (node, production, path, mid, product) = choose|
            node: GssNodeId,
            production: usize,
            path: PathView,
            mid: StackView,
            product: ProductId,
        | #[trigger] goto_step(parser, gap, v, w, node, production, path, mid, product);
        let lhs = parser.grammar.productions@[production as int].lhs;
        lemma_reduced_grows(
            v,
            mid,
            lhs,
            key_of(production as u32, path.products, gap.boundary),
            gap.boundary,
            product,
            gap.column,
        );
        lemma_goto_grows(
            mid,
            gap.column,
            parser.goto_at(v.gss.nodes[path.predecessor as int].state, lhs)->Some_0,
            path.predecessor,
            product,
        );
        lemma_grew_trans(v, mid, w, gap.column);
    } else {
        let (node, path, mid, product) = choose|
            node: GssNodeId,
            path: PathView,
            mid: StackView,
            product: ProductId,
        | #[trigger] accept_step(parser, gap, v, w, node, path, mid, product);
        lemma_reduced_grows(
            v,
            mid,
            parser.grammar.productions@[0].lhs,
            key_of(0, path.products, gap.boundary),
            gap.boundary,
            product,
            gap.column,
        );
        lemma_accept_grows(mid, gap.column, product);
        lemma_grew_trans(v, mid, w, gap.column);
    }
}

// ---------------------------------------------------------------------------
// Reducing

/// Some reduction cannot be made in a state.
pub open spec fn unbuilt<V, L: Language<V>>(
    parser: Parser,
    language: L,
    context: SessionContext<V>,
    error: BuildError,
) -> bool {
    exists|production: u32, children: Seq<ProductId>| #[trigger]
        build_failed(language, context, production, children, error) && production
            < parser.grammar.productions@.len()
}

/// Why reducing stopped, over the state in which it did.
pub open spec fn reduce_failed<V, L: Language<V>>(
    parser: Parser,
    language: L,
    context: SessionContext<V>,
    error: ParseError,
) -> bool {
    match error {
        ParseError::MissingGssNode { node } => node >= context@.gss.nodes.len(),
        ParseError::MissingGoto { state, non_terminal } => state < parser.states@.len()
            && non_terminal < parser.grammar.non_terminals && parser.goto_at(state, non_terminal)
            is None,
        ParseError::Build(error) => unbuilt(parser, language, context, error),
        _ => false,
    }
}

impl<V> SessionContext<V> {
    /// Adds to a column what a reduction leads to. Returns whether anything is
    /// new.
    fn apply_goto(
        &mut self,
        parser: &Parser,
        column: usize,
        state: usize,
        below: GssNodeId,
        product: ProductId,
    ) -> (r: bool)
        requires
            old(self).wf(*parser),
            column < old(self).state.columns@.len(),
            state < parser.states@.len(),
        ensures
            final(self).wf(*parser),
            r == (final(self)@ != old(self)@),
            final(self).state.recovery == old(self).state.recovery,
            final(self).arenas.ast == old(self).arenas.ast,
            final(self)@ == after_goto(old(self)@, column as int, state, below, product),
    {
        let ghost v = self@;
        let count: usize = parser.states.len();
        let generation: u32 = self.state.generation;
        let nodes_before: usize = self.arenas.gss.node_count();
        let content = &mut self.state.columns[column];
        let recorded = content.push_product(product);
        let ghost node = GssNode { state, column, generation };
        let id: usize = self.arenas.gss.node(state, column, generation);
        let nodes_after: usize = self.arenas.gss.node_count();
        proof {
            self.arenas.gss.lemma_wf();
            let nodes = self.arenas.gss@.nodes;
            let found = nodes.index_of(node);
            assert(nodes.contains(nodes[id as int]));
            assert(nodes[found] == node);
            assert(found == id);
        }
        let content = &mut self.state.columns[column];
        let inserted = content.insert_active(id);
        let added = self.arenas.gss.add_edge(id, below, product, generation);
        let changed = recorded || inserted || added || nodes_after != nodes_before;
        proof {
            let w = self@;
            let want = after_goto(v, column as int, state, below, product);
            assert(w.session.columns =~= want.session.columns);
            assert(w.gss.nodes == want.gss.nodes);
            assert(w.gss.edges == want.gss.edges);
            assert(w.session =~= want.session);
            assert(w =~= want);
            assert(states_fit(w.gss, parser.states@.len())) by {
                assert forall|i: int| 0 <= i < w.gss.nodes.len() implies (
                #[trigger] w.gss.nodes[i]).state < parser.states@.len() by {
                    if i < v.gss.nodes.len() {
                        assert(w.gss.nodes[i] == v.gss.nodes[i]);
                    }
                }
            }
            assert(led_right(w.session)) by {
                assert(led_right(v.session));
                assert forall|i: int| 0 <= i < v.session.columns.len() implies
                    w.session.columns[i].boundary == (#[trigger] v.session.columns[i]).boundary
                    && w.session.columns[i].token == v.session.columns[i].token by {}
            }
            lemma_goto_grows(v, column as int, state, below, product);
            let content = v.session.columns[column as int];
            if !changed {
                assert(w.session.columns[column as int] =~= content);
                assert(w.session.columns =~= v.session.columns);
                assert(w =~= v);
            } else if w == v {
                assert(w.session.columns[column as int] == content);
                lemma_with_id(content.products, product, product);
                lemma_with_id(content.active, id, id);
            }
        }
        changed
    }

    /// Adds to a column what an acceptance leads to. Returns whether anything
    /// is new.
    fn apply_accept(&mut self, parser: &Parser, column: usize, product: ProductId) -> (r: bool)
        requires
            old(self).wf(*parser),
            column < old(self).state.columns@.len(),
        ensures
            final(self).wf(*parser),
            r == (final(self)@ != old(self)@),
            final(self).state.recovery == old(self).state.recovery,
            final(self).arenas.ast == old(self).arenas.ast,
            final(self)@ == after_accept(old(self)@, column as int, product),
    {
        let ghost v = self@;
        let content = &mut self.state.columns[column];
        let recorded = content.push_product(product);
        let taken = content.push_accepted(product);
        let changed = recorded || taken;
        proof {
            let w = self@;
            let want = after_accept(v, column as int, product);
            assert(w.session.columns =~= want.session.columns);
            assert(w.session =~= want.session);
            assert(w =~= want);
            assert(led_right(w.session)) by {
                assert(led_right(v.session));
                assert forall|i: int| 0 <= i < v.session.columns.len() implies
                    w.session.columns[i].boundary == (#[trigger] v.session.columns[i]).boundary
                    && w.session.columns[i].token == v.session.columns[i].token by {}
            }
            let content = v.session.columns[column as int];
            if !changed {
                assert(w.session.columns[column as int] =~= content);
                assert(w.session.columns =~= v.session.columns);
                assert(w =~= v);
            } else if w == v {
                assert(w.session.columns[column as int] == content);
                lemma_with_id(content.products, product, product);
                lemma_with_id(content.accepted, product, product);
            }
        }
        changed
    }
}

/// Reductions after reductions are reductions.
proof fn lemma_derived_trans(
    parser: Parser,
    gap: Gap,
    u: StackView,
    v: StackView,
    w: StackView,
    first: nat,
    second: nat,
)
    requires
        derived(parser, gap, u, v, first),
        derived(parser, gap, v, w, second),
    ensures
        derived(parser, gap, u, w, first + second),
    decreases second,
{
    if second > 0 {
        let x = choose|x: StackView|
            derived(parser, gap, v, x, (second - 1) as nat) && #[trigger] one_step(
                parser,
                gap,
                x,
                w,
            );
        lemma_derived_trans(parser, gap, u, v, x, first, (second - 1) as nat);
        assert(derived(parser, gap, u, x, (first + second - 1) as nat));
        assert(one_step(parser, gap, x, w));
    }
}

/// Reductions after reductions are reductions.
pub proof fn lemma_reduces_trans(parser: Parser, gap: Gap, u: StackView, v: StackView, w: StackView)
    requires
        reduces_to(parser, gap, u, v),
        reduces_to(parser, gap, v, w),
    ensures
        reduces_to(parser, gap, u, w),
{
    let first = choose|steps: nat| #[trigger] derived(parser, gap, u, v, steps);
    let second = choose|steps: nat| #[trigger] derived(parser, gap, v, w, steps);
    lemma_derived_trans(parser, gap, u, v, w, first, second);
}

/// No reductions are reductions.
pub proof fn lemma_reduces_self(parser: Parser, gap: Gap, v: StackView)
    ensures
        reduces_to(parser, gap, v, v),
{
    assert(derived(parser, gap, v, v, 0));
}

/// The action of a production, or of acceptance.
pub open spec fn action_of(production: usize, accept: bool) -> Action {
    if accept {
        Action::Accept
    } else {
        Action::Reduce(production)
    }
}

impl<V> SessionContext<V> {
    /// Reduces along one path. Returns whether anything is new.
    fn reduce_path<L: Language<V>>(
        &mut self,
        parser: &Parser,
        language: &L,
        column: usize,
        node: Ghost<GssNodeId>,
        production: usize,
        path: &crate::framework::parse::parsing::stack::ReductionPath,
        lookahead: TerminalId,
        boundary: TokenOccurrenceId,
        accept: bool,
    ) -> (r: Result<bool, ParseError>)
        requires
            old(self).wf(*parser),
            column < old(self).state.columns@.len(),
            lookahead < parser.grammar.terminals,
            production < parser.grammar.productions@.len(),
            old(self)@.session.columns[column as int].active.contains(node@),
            accept ==> production == 0,
            acts(
                *parser,
                Gap { column: column as int, lookahead, boundary },
                old(self)@,
                node@,
                action_of(production, accept),
            ),
            is_path(
                old(self)@,
                parser.grammar,
                column as int,
                node@,
                production,
                rhs_len(*parser, production),
                path@,
            ),
        ensures
            final(self).wf(*parser),
            final(self).state.recovery == old(self).state.recovery,
            built_on(*language, *old(self), *final(self)),
            final(self).state.columns@.len() == old(self).state.columns@.len(),
            grew(old(self)@, final(self)@, column as int),
            bulk(final(self)@, column as int) >= bulk(old(self)@, column as int),
            match r {
                Ok(changed) => {
                    &&& one_step(
                        *parser,
                        Gap { column: column as int, lookahead, boundary },
                        old(self)@,
                        final(self)@,
                    )
                    &&& changed ==> bulk(final(self)@, column as int) > bulk(
                        old(self)@,
                        column as int,
                    )
                    &&& !changed ==> final(self)@ == old(self)@ && (if accept {
                        accept_done(
                            Gap { column: column as int, lookahead, boundary },
                            old(self)@,
                            path@,
                        )
                    } else {
                        path_done(
                            *parser,
                            Gap { column: column as int, lookahead, boundary },
                            old(self)@,
                            production,
                            path@,
                        )
                    })
                },
                Err(error) => final(self)@ == old(self)@ && reduce_failed(
                    *parser,
                    *language,
                    *final(self),
                    error,
                ),
            },
    {
        let ghost gap = Gap { column: column as int, lookahead, boundary };
        let ghost u = self@;
        let ghost said = path@;
        let ghost whole = *self;
        proof {
            lemma_built_same(*language, whole, whole);
        }
        let lhs: u32 = parser.grammar.production_lhs(production);
        proof {
            lemma_grew_self(u, gap.column);
        }
        let mut goto: usize = 0;
        if !accept {
            let state: usize = match self.arenas.gss.get_node(path.predecessor) {
                Some(found) => found.state,
                None => {
                    return Err(ParseError::MissingGssNode { node: path.predecessor });
                },
            };
            assert(states_fit(u.gss, parser.states@.len()));
            assert(u.gss.nodes[path.predecessor as int].state == state);
            assert(parser.grammar.productions@[production as int].lhs
                < parser.grammar.non_terminals);
            goto = match parser.goto_state(state, lhs) {
                Some(goto) => goto,
                None => {
                    return Err(ParseError::MissingGoto { state, non_terminal: lhs });
                },
            };
            proof {
                lemma_goto_fits(*parser, state, lhs);
            }
        }
        let before: usize = self.arenas.products.len();
        let product: usize = match self.reduce_cached(
            parser,
            language,
            production,
            &path.products,
            boundary,
        ) {
            Ok(product) => product,
            Err(error) => {
                assert(unbuilt(*parser, *language, *self, error->Build_0));
                return Err(error);
            },
        };
        let fresh = self.arenas.products.len() != before;
        let ghost mid = self@;
        let ghost key = key_of(production as u32, said.products, boundary);
        proof {
            lemma_reduced_grows(u, mid, lhs, key, boundary, product, gap.column);
            assert(fresh == (mid != u));
            lemma_built_reduced(*language, whole, *self, lhs, key, boundary, product);
        }
        let ghost made = *self;
        let applied = if accept {
            let applied = self.apply_accept(parser, column, product);
            proof {
                lemma_accept_grows(mid, gap.column, product);
                lemma_built_same(*language, made, *self);
                assert(accept_step(*parser, gap, u, self@, node@, said, mid, product));
            }
            applied
        } else {
            let applied = self.apply_goto(parser, column, goto, path.predecessor, product);
            proof {
                lemma_goto_grows(mid, gap.column, goto, path.predecessor, product);
                lemma_grown_stacks(made@, self@);
                lemma_built_grown(*language, made, *self);
                assert(goto_step(
                    *parser,
                    gap,
                    u,
                    self@,
                    node@,
                    production,
                    said,
                    mid,
                    product,
                ));
            }
            applied
        };
        proof {
            assert(one_step(*parser, gap, u, self@));
            lemma_grew_trans(u, mid, self@, gap.column);
            lemma_built_trans(*language, whole, made, *self);
        }
        Ok(fresh || applied)
    }

    /// Reduces along the paths of one production down from a node. Returns
    /// whether anything is new.
    fn reduce_node<L: Language<V>>(
        &mut self,
        parser: &Parser,
        language: &L,
        column: usize,
        node: GssNodeId,
        production: usize,
        lookahead: TerminalId,
        boundary: TokenOccurrenceId,
        accept: bool,
    ) -> (r: Result<bool, ParseError>)
        requires
            old(self).wf(*parser),
            column < old(self).state.columns@.len(),
            lookahead < parser.grammar.terminals,
            production < parser.grammar.productions@.len(),
            old(self)@.session.columns[column as int].active.contains(node),
            accept ==> production == 0,
            acts(
                *parser,
                Gap { column: column as int, lookahead, boundary },
                old(self)@,
                node,
                action_of(production, accept),
            ),
        ensures
            final(self).wf(*parser),
            final(self).state.recovery == old(self).state.recovery,
            built_on(*language, *old(self), *final(self)),
            final(self).state.columns@.len() == old(self).state.columns@.len(),
            reduces_to(
                *parser,
                Gap { column: column as int, lookahead, boundary },
                old(self)@,
                final(self)@,
            ),
            grew(old(self)@, final(self)@, column as int),
            bulk(final(self)@, column as int) >= bulk(old(self)@, column as int),
            match r {
                Ok(changed) => {
                    &&& changed ==> bulk(final(self)@, column as int) > bulk(
                        old(self)@,
                        column as int,
                    )
                    &&& !changed ==> final(self)@ == old(self)@ && action_done(
                        *parser,
                        Gap { column: column as int, lookahead, boundary },
                        old(self)@,
                        node,
                        action_of(production, accept),
                    )
                },
                Err(error) => reduce_failed(*parser, *language, *final(self), error),
            },
    {
        let ghost gap = Gap { column: column as int, lookahead, boundary };
        let ghost v = self@;
        let depth: usize = parser.grammar.production_rhs_len(production);
        let paths = self.reduce_paths(parser, column, node, production, depth);
        let ghost all = path_views(paths@);
        let mut changed = false;
        let mut at: usize = 0;
        proof {
            lemma_grew_self(v, gap.column);
            lemma_reduces_self(*parser, gap, v);
            lemma_built_same(*language, *self, *self);
        }
        while at < paths.len()
            invariant
                at <= paths@.len(),
                self.wf(*parser),
                old(self).wf(*parser),
                self.state.recovery == old(self).state.recovery,
                built_on(*language, *old(self), *self),
                gap == (Gap { column: column as int, lookahead, boundary }),
                v == old(self)@,
                column < self.state.columns@.len(),
                self.state.columns@.len() == old(self).state.columns@.len(),
                production < parser.grammar.productions@.len(),
                lookahead < parser.grammar.terminals,
                accept ==> production == 0,
                depth == rhs_len(*parser, production),
                all == path_views(paths@),
                all == paths_from(v, parser.grammar, gap.column, node, production, depth as nat),
                v.session.columns[gap.column].active.contains(node),
                acts(*parser, gap, v, node, action_of(production, accept)),
                reduces_to(*parser, gap, v, self@),
                grew(v, self@, gap.column),
                bulk(self@, gap.column) >= bulk(v, gap.column),
                changed ==> bulk(self@, gap.column) > bulk(v, gap.column),
                !changed ==> self@ == v,
                !changed && accept ==> forall|k: int|
                    0 <= k < at ==> accept_done(gap, v, #[trigger] all[k]),
                !changed && !accept ==> forall|k: int|
                    0 <= k < at ==> path_done(*parser, gap, v, production, #[trigger] all[k]),
            decreases paths@.len() - at,
        {
            let ghost u = self@;
            let ghost whole = *self;
            proof {
                assert(all[at as int] == paths@[at as int]@);
                old(self).arenas.gss.lemma_wf();
                lemma_paths_are_paths(
                    v,
                    parser.grammar,
                    gap.column,
                    node,
                    production,
                    depth as nat,
                    at as int,
                );
                lemma_path_stays(
                    v,
                    u,
                    parser.grammar,
                    gap.column,
                    node,
                    production,
                    depth as nat,
                    all[at as int],
                );
                assert(u.gss.nodes[node as int] == v.gss.nodes[node as int]);
            }
            match self.reduce_path(
                parser,
                language,
                column,
                Ghost(node),
                production,
                &paths[at],
                lookahead,
                boundary,
                accept,
            ) {
                Ok(found) => {
                    proof {
                        assert(derived(*parser, gap, u, u, 0));
                        assert(derived(*parser, gap, u, self@, 1));
                        lemma_reduces_trans(*parser, gap, v, u, self@);
                        lemma_grew_trans(v, u, self@, gap.column);
                        lemma_built_trans(*language, *old(self), whole, *self);
                    }
                    if found {
                        changed = true;
                    }
                },
                Err(error) => {
                    proof {
                        lemma_built_trans(*language, *old(self), whole, *self);
                    }
                    return Err(error);
                },
            }
            at += 1;
        }
        Ok(changed)
    }

    /// Goes once over the nodes of a column. Returns whether anything is new.
    fn reduce_pass<L: Language<V>>(
        &mut self,
        parser: &Parser,
        language: &L,
        column: usize,
        lookahead: TerminalId,
        boundary: TokenOccurrenceId,
    ) -> (r: Result<bool, ParseError>)
        requires
            old(self).wf(*parser),
            column < old(self).state.columns@.len(),
            lookahead < parser.grammar.terminals,
        ensures
            final(self).wf(*parser),
            final(self).state.recovery == old(self).state.recovery,
            built_on(*language, *old(self), *final(self)),
            final(self).state.columns@.len() == old(self).state.columns@.len(),
            reduces_to(
                *parser,
                Gap { column: column as int, lookahead, boundary },
                old(self)@,
                final(self)@,
            ),
            match r {
                Ok(changed) => {
                    &&& changed ==> bulk(final(self)@, column as int) > bulk(
                        old(self)@,
                        column as int,
                    )
                    &&& !changed ==> final(self)@ == old(self)@ && stable(
                        *parser,
                        Gap { column: column as int, lookahead, boundary },
                        old(self)@,
                    )
                },
                Err(error) => reduce_failed(*parser, *language, *final(self), error),
            },
    {
        let ghost gap = Gap { column: column as int, lookahead, boundary };
        let ghost v = self@;
        assert(self@.session.columns[column as int] == self.state.columns@[column as int]@);
        let active = self.state.columns[column].active_nodes();
        let mut changed = false;
        let mut at: usize = 0;
        proof {
            lemma_grew_self(v, gap.column);
            lemma_reduces_self(*parser, gap, v);
            lemma_built_same(*language, *self, *self);
        }
        while at < active.len()
            invariant
                at <= active@.len(),
                self.wf(*parser),
                self.state.recovery == old(self).state.recovery,
                built_on(*language, *old(self), *self),
                gap == (Gap { column: column as int, lookahead, boundary }),
                v == old(self)@,
                column < self.state.columns@.len(),
                self.state.columns@.len() == old(self).state.columns@.len(),
                lookahead < parser.grammar.terminals,
                active@ == v.session.columns[gap.column].active,
                reduces_to(*parser, gap, v, self@),
                grew(v, self@, gap.column),
                bulk(self@, gap.column) >= bulk(v, gap.column),
                changed ==> bulk(self@, gap.column) > bulk(v, gap.column),
                !changed ==> self@ == v && forall|i: int|
                    0 <= i < at ==> node_done(*parser, gap, v, #[trigger] active@[i]),
            decreases active@.len() - at,
        {
            let node: usize = active[at];
            assert(v.session.columns[gap.column].active.contains(node));
            let state: usize = match self.arenas.gss.get_node(node) {
                Some(found) => found.state,
                None => {
                    return Err(ParseError::MissingGssNode { node });
                },
            };
            let ghost start = self@;
            assert(states_fit(start.gss, parser.states@.len()));
            assert(start.gss.nodes[node as int].state == state);
            let actions = parser.action_set(state, lookahead);
            let total: usize = actions.len();
            let ghost list = parser.actions_at(state, lookahead);
            let ghost entered = changed;
            let mut a: usize = 0;
            while a < total
                invariant
                    a <= total,
                    total == list.len(),
                    list == action_items(*actions),
                    list == parser.actions_at(state, lookahead),
                    state < parser.states@.len(),
                    v == old(self)@,
                    self.wf(*parser),
                    self.state.recovery == old(self).state.recovery,
                    built_on(*language, *old(self), *self),
                    gap == (Gap { column: column as int, lookahead, boundary }),
                    column < self.state.columns@.len(),
                    self.state.columns@.len() == old(self).state.columns@.len(),
                    lookahead < parser.grammar.terminals,
                    v.session.columns[gap.column].active.contains(node),
                    node < start.gss.nodes.len(),
                    start.gss.nodes[node as int].state == state,
                    grew(v, start, gap.column),
                    grew(start, self@, gap.column),
                    reduces_to(*parser, gap, v, self@),
                    bulk(self@, gap.column) >= bulk(v, gap.column),
                    changed ==> bulk(self@, gap.column) > bulk(v, gap.column),
                    entered ==> changed,
                    !entered ==> start == v,
                    !changed ==> self@ == v && forall|b: int|
                        0 <= b < a ==> action_done(*parser, gap, v, node, #[trigger] list[b]),
                decreases total - a,
            {
                let action = actions.at(a);
                let ghost u = self@;
                let ghost whole = *self;
                proof {
                    assert(list[a as int] == action);
                    assert(list.contains(action));
                    assert(u.gss.nodes[node as int] == start.gss.nodes[node as int]);
                    assert(start.session.columns[gap.column].active.contains(node));
                    assert(u.session.columns[gap.column].active.contains(node));
                    assert(acts(*parser, gap, u, node, action));
                    lemma_grew_self(u, gap.column);
                }
                let found = match action {
                    Action::Reduce(production) => {
                        proof {
                            lemma_reduce_fits(*parser, state, lookahead, production);
                        }
                        match self.reduce_node(
                            parser,
                            language,
                            column,
                            node,
                            production,
                            lookahead,
                            boundary,
                            false,
                        ) {
                            Ok(found) => found,
                            Err(error) => {
                                proof {
                                    lemma_reduces_trans(*parser, gap, v, u, self@);
                                    lemma_built_trans(*language, *old(self), whole, *self);
                                }
                                return Err(error);
                            },
                        }
                    },
                    Action::Accept => {
                        match self.reduce_node(
                            parser,
                            language,
                            column,
                            node,
                            0,
                            lookahead,
                            boundary,
                            true,
                        ) {
                            Ok(found) => found,
                            Err(error) => {
                                proof {
                                    lemma_reduces_trans(*parser, gap, v, u, self@);
                                    lemma_built_trans(*language, *old(self), whole, *self);
                                }
                                return Err(error);
                            },
                        }
                    },
                    Action::Shift(_) | Action::Error => {
                        proof {
                            lemma_reduces_self(*parser, gap, u);
                            lemma_built_same(*language, whole, *self);
                        }
                        false
                    },
                };
                proof {
                    lemma_reduces_trans(*parser, gap, v, u, self@);
                    lemma_grew_trans(start, u, self@, gap.column);
                    lemma_built_trans(*language, *old(self), whole, *self);
                }
                if found {
                    changed = true;
                }
                a += 1;
            }
            proof {
                lemma_grew_trans(v, start, self@, gap.column);
                if !changed {
                    assert(node_done(*parser, gap, v, node));
                }
            }
            at += 1;
        }
        Ok(changed)
    }

    /// Reduces at a gap until nothing is left to reduce.
    pub fn reduce_until_stable<L: Language<V>>(
        &mut self,
        parser: &Parser,
        language: &L,
        column: usize,
        lookahead: TerminalId,
        boundary: TokenOccurrenceId,
    ) -> (r: Result<(), ParseError>)
        requires
            old(self).wf(*parser),
            column < old(self).state.columns@.len(),
            lookahead < parser.grammar.terminals,
        ensures
            final(self).wf(*parser),
            final(self).state.recovery == old(self).state.recovery,
            built_on(*language, *old(self), *final(self)),
            reduces_to(
                *parser,
                Gap { column: column as int, lookahead, boundary },
                old(self)@,
                final(self)@,
            ),
            same_but_column(old(self)@, final(self)@, column as int),
            grew(old(self)@, final(self)@, column as int),
            match r {
                Ok(_) => stable(
                    *parser,
                    Gap { column: column as int, lookahead, boundary },
                    final(self)@,
                ),
                Err(error) => reduce_failed(*parser, *language, *final(self), error),
            },
    {
        let ghost gap = Gap { column: column as int, lookahead, boundary };
        proof {
            lemma_reduces_self(*parser, gap, self@);
            lemma_built_same(*language, *self, *self);
        }
        self.count(column);
        loop
            invariant
                self.wf(*parser),
                self.state.recovery == old(self).state.recovery,
                built_on(*language, *old(self), *self),
                column < self.state.columns@.len(),
                column < old(self).state.columns@.len(),
                lookahead < parser.grammar.terminals,
                gap == (Gap { column: column as int, lookahead, boundary }),
                reduces_to(*parser, gap, old(self)@, self@),
                bulk(self@, column as int) <= 6 * usize::MAX,
            decreases 6 * usize::MAX - bulk(self@, column as int),
        {
            let ghost u = self@;
            let ghost whole = *self;
            match self.reduce_pass(parser, language, column, lookahead, boundary) {
                Ok(changed) => {
                    proof {
                        lemma_reduces_trans(*parser, gap, old(self)@, u, self@);
                        lemma_built_trans(*language, *old(self), whole, *self);
                    }
                    if !changed {
                        proof {
                            lemma_reduces_keep(*parser, gap, old(self)@, self@);
                        }
                        return Ok(());
                    }
                },
                Err(error) => {
                    proof {
                        lemma_reduces_trans(*parser, gap, old(self)@, u, self@);
                        lemma_built_trans(*language, *old(self), whole, *self);
                        lemma_reduces_keep(*parser, gap, old(self)@, self@);
                    }
                    return Err(error);
                },
            }
            self.count(column);
        }
    }

    /// Whatever there is can be counted.
    fn count(&self, column: usize)
        requires
            self.arenas.wf(),
            column < self.state.columns@.len(),
        ensures
            bulk(self@, column as int) <= 6 * usize::MAX,
    {
        let content = &self.state.columns[column];
        assert(self@.session.columns[column as int] == content@);
        let products: usize = self.arenas.products.len();
        let nodes: usize = self.arenas.gss.node_count();
        let edges: usize = self.arenas.gss.edge_count();
        let noted: usize = content.products.len();
        let active = content.active_nodes();
        let actives: usize = active.len();
        let accepted: usize = content.accepted.len();
    }
}

} // verus!
